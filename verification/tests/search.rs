use tft_optimiser::champions::{Champion, ChampionId, ChampionPool, Trait, TraitEffect};
use tft_optimiser::constrained_finder::find_optimal_comp_with_requirements;
use tft_optimiser::greedy::find_optimal_comp_greedy;
use tft_optimiser::state;

fn champ(id: &str, traits: &[&str], cost: u32) -> Champion {
    Champion {
        id: ChampionId(id.to_string()),
        name: id.to_string(),
        traits: traits.iter().map(|t| t.to_string()).collect(),
        cost,
    }
}

fn trait_def(name: &str, breakpoints: &[u32]) -> Trait {
    Trait {
        name: name.to_string(),
        effects: breakpoints.iter().map(|b| TraitEffect { min_units: *b }).collect(),
    }
}

fn ids(names: &[&str]) -> Vec<ChampionId> {
    names.iter().map(|n| ChampionId(n.to_string())).collect()
}

fn small_catalog() -> state::Context {
    // A and B share trait X (breakpoint 2); C carries Y (breakpoint 1).
    state::init(
        ChampionPool::with_data(vec![
            champ("A", &["X"], 1),
            champ("B", &["X"], 1),
            champ("C", &["Y"], 1),
        ]),
        vec![trait_def("X", &[2]), trait_def("Y", &[1])],
    )
}

#[test]
fn greedy_prefers_the_shared_trait() {
    let ctx = small_catalog();
    let comp = find_optimal_comp_greedy(
        &ctx.champion_pool,
        &vec![],
        2,
        &vec![],
        &ctx.traits,
    )
    .unwrap();
    assert_eq!(comp.units, ids(&["A", "B"]));
    assert_eq!(comp.total_traits_activated, 1);
    assert_eq!(comp.activated_traits.len(), 1);
    assert_eq!(comp.activated_traits[0].name, "X");
    assert_eq!(comp.activated_traits[0].breakpoint_hit, 2);
}

#[test]
fn search_without_requirements_delegates_to_greedy() {
    let ctx = small_catalog();
    let comp =
        find_optimal_comp_with_requirements(&ctx, 2, &vec![], &vec![], 1, &vec![]).unwrap();
    assert_eq!(comp.units, ids(&["A", "B"]));
    assert_eq!(comp.total_traits_activated, 1);
    assert_eq!(comp.activated_traits[0].name, "X");
    assert_eq!(comp.activated_traits[0].breakpoint_hit, 2);
}

#[test]
fn search_with_requirement_prefills_it() {
    let ctx = small_catalog();
    let comp = find_optimal_comp_with_requirements(
        &ctx,
        2,
        &vec![("X".to_string(), 2)],
        &vec![],
        1,
        &vec![],
    )
    .unwrap();
    assert_eq!(comp.units, ids(&["A", "B"]));
    assert_eq!(comp.total_traits_activated, 1);
    assert_eq!(comp.activated_traits[0].name, "X");
    assert_eq!(comp.activated_traits[0].breakpoint_hit, 2);
}

#[test]
fn requirements_beyond_target_size_fail() {
    let ctx = small_catalog();
    // 2 required X units plus 1 core unit cannot fit a team of 2...
    let over = find_optimal_comp_with_requirements(
        &ctx,
        2,
        &vec![("X".to_string(), 2)],
        &vec![],
        1,
        &ids(&["C"]),
    );
    assert!(over.is_none());
    // ...but exactly fit a team of 3.
    let exact = find_optimal_comp_with_requirements(
        &ctx,
        3,
        &vec![("X".to_string(), 2)],
        &vec![],
        1,
        &ids(&["C"]),
    )
    .unwrap();
    assert_eq!(exact.units, ids(&["C", "A", "B"]));
    assert_eq!(exact.total_traits_activated, 2);
}

#[test]
fn too_few_eligible_units_fail() {
    let ctx = small_catalog();
    // Only two units carry X; three cannot be drawn.
    let r = find_optimal_comp_with_requirements(
        &ctx,
        4,
        &vec![("X".to_string(), 3)],
        &vec![],
        1,
        &vec![],
    );
    assert!(r.is_none());
}

#[test]
fn bonus_fully_offsets_a_requirement() {
    let ctx = small_catalog();
    // A bonus of 5 covers the requirement of 2, so no X unit is forced
    // and the greedy builder fills both slots freely.
    let comp = find_optimal_comp_with_requirements(
        &ctx,
        2,
        &vec![("X".to_string(), 2)],
        &vec![("X".to_string(), 5)],
        1,
        &vec![],
    )
    .unwrap();
    assert_eq!(comp.units.len(), 2);
    // The bonus alone already activates X.
    assert!(comp.activated_traits.iter().any(|a| a.name == "X"));
}

#[test]
fn bonus_equal_to_requirement_needs_no_units() {
    // Only one unit carries X, so a bare requirement of 2 is
    // unsatisfiable; a bonus of exactly 2 leaves nothing to draw.
    let ctx = state::init(
        ChampionPool::with_data(vec![
            champ("A", &["X"], 1),
            champ("C", &["Y"], 1),
            champ("D", &["Z"], 1),
        ]),
        vec![trait_def("X", &[2]), trait_def("Y", &[1]), trait_def("Z", &[1])],
    );
    let without = find_optimal_comp_with_requirements(
        &ctx,
        2,
        &vec![("X".to_string(), 2)],
        &vec![],
        1,
        &vec![],
    );
    assert!(without.is_none());
    let with = find_optimal_comp_with_requirements(
        &ctx,
        2,
        &vec![("X".to_string(), 2)],
        &vec![("X".to_string(), 2)],
        1,
        &vec![],
    )
    .unwrap();
    assert_eq!(with.units.len(), 2);
}

#[test]
fn feasible_search_with_no_activation_still_returns() {
    // One unit carries X but no trait is defined, so nothing can
    // activate; the requirement is still satisfiable and the search must
    // return the team rather than nothing.
    let ctx = state::init(ChampionPool::with_data(vec![champ("A", &["X"], 1)]), vec![]);
    let comp = find_optimal_comp_with_requirements(
        &ctx,
        1,
        &vec![("X".to_string(), 1)],
        &vec![],
        1,
        &vec![],
    )
    .unwrap();
    assert_eq!(comp.units, ids(&["A"]));
    assert!(comp.activated_traits.is_empty());
    assert_eq!(comp.total_traits_activated, 0);
}

#[test]
fn covered_requirement_with_no_carriers_still_returns() {
    // No unit carries X and no trait is defined, but a bonus covers the
    // whole requirement: zero units must be drawn for it, and the search
    // returns a team with no carrier of X and no activation.
    let ctx = state::init(ChampionPool::with_data(vec![champ("A", &["Y"], 1)]), vec![]);
    let comp = find_optimal_comp_with_requirements(
        &ctx,
        1,
        &vec![("X".to_string(), 1)],
        &vec![("X".to_string(), 1)],
        1,
        &vec![],
    )
    .unwrap();
    assert_eq!(comp.units, ids(&["A"]));
    assert_eq!(comp.total_traits_activated, 0);
}

#[test]
fn best_tuple_is_kept() {
    // A carries X and Y; the tuple {A, B} activates both traits, the
    // tuple {B, C} only X. The search must return the better one.
    let ctx = state::init(
        ChampionPool::with_data(vec![
            champ("A", &["X", "Y"], 1),
            champ("B", &["X"], 1),
            champ("C", &["X"], 1),
        ]),
        vec![trait_def("X", &[2]), trait_def("Y", &[1])],
    );
    let comp = find_optimal_comp_with_requirements(
        &ctx,
        2,
        &vec![("X".to_string(), 2)],
        &vec![],
        1,
        &vec![],
    )
    .unwrap();
    assert_eq!(comp.total_traits_activated, 2);
    assert_eq!(comp.units, ids(&["A", "B"]));
}

#[test]
fn no_unit_is_booked_twice() {
    let ctx = state::init(
        ChampionPool::with_data(vec![
            champ("A", &["X", "Y"], 1),
            champ("B", &["X"], 1),
            champ("C", &["Y"], 1),
            champ("D", &["Z"], 1),
        ]),
        vec![trait_def("X", &[1]), trait_def("Y", &[1]), trait_def("Z", &[1])],
    );
    // A satisfies both requirements but may only be booked for one.
    let comp = find_optimal_comp_with_requirements(
        &ctx,
        3,
        &vec![("X".to_string(), 1), ("Y".to_string(), 1)],
        &vec![],
        1,
        &vec![],
    )
    .unwrap();
    for i in 0..comp.units.len() {
        for j in (i + 1)..comp.units.len() {
            assert_ne!(comp.units[i], comp.units[j]);
        }
    }
}

#[test]
fn cost_filter_excludes_expensive_units() {
    let ctx = state::init(
        ChampionPool::with_data(vec![
            champ("Cheap1", &["X"], 1),
            champ("Cheap2", &["X"], 1),
            champ("Pricey", &["X", "Y"], 5),
        ]),
        vec![trait_def("X", &[2, 3]), trait_def("Y", &[1])],
    );
    let comp =
        find_optimal_comp_with_requirements(&ctx, 3, &vec![], &vec![], 1, &vec![]).unwrap();
    assert!(!comp.units.contains(&ChampionId("Pricey".to_string())));
}

#[test]
fn core_units_are_exempt_from_the_cost_cap() {
    let ctx = state::init(
        ChampionPool::with_data(vec![
            champ("Cheap1", &["X"], 1),
            champ("Cheap2", &["X"], 1),
            champ("Pricey", &["Y"], 5),
        ]),
        vec![trait_def("X", &[2]), trait_def("Y", &[1])],
    );
    let comp = find_optimal_comp_with_requirements(
        &ctx,
        3,
        &vec![],
        &vec![],
        1,
        &ids(&["Pricey"]),
    )
    .unwrap();
    assert!(comp.units.contains(&ChampionId("Pricey".to_string())));
    assert_eq!(comp.units.len(), 3);
}

#[test]
fn search_on_an_empty_catalog_returns_an_empty_team() {
    let ctx = state::init(ChampionPool::with_data(vec![]), vec![trait_def("X", &[2])]);
    let comp =
        find_optimal_comp_with_requirements(&ctx, 3, &vec![], &vec![], 1, &vec![]).unwrap();
    assert!(comp.units.is_empty());
    assert_eq!(comp.total_traits_activated, 0);
}

#[test]
fn greedy_returns_a_short_team_when_the_pool_runs_out() {
    let ctx = state::init(
        ChampionPool::with_data(vec![champ("A", &["X"], 1)]),
        vec![trait_def("X", &[1])],
    );
    let comp = find_optimal_comp_greedy(
        &ctx.champion_pool,
        &vec![],
        5,
        &vec![],
        &ctx.traits,
    )
    .unwrap();
    assert_eq!(comp.units, ids(&["A"]));
}

#[test]
fn unresolvable_seed_identifiers_are_dropped() {
    let ctx = small_catalog();
    let comp = find_optimal_comp_greedy(
        &ctx.champion_pool,
        &ids(&["Ghostly"]),
        1,
        &vec![],
        &ctx.traits,
    )
    .unwrap();
    assert_eq!(comp.units.len(), 1);
    assert_ne!(comp.units[0], ChampionId("Ghostly".to_string()));
}
