use tft_optimiser::champions::{Champion, ChampionId, ChampionPool, Trait, TraitEffect};
use tft_optimiser::trait_activation::calculate_trait_activations;

fn champ(id: &str, traits: &[&str], cost: u32) -> Champion {
    Champion {
        id: ChampionId(id.to_string()),
        name: id.to_string(),
        traits: traits.iter().map(|t| t.to_string()).collect(),
        cost,
    }
}

fn trait_def(name: &str, breakpoints: &[u32]) -> Trait {
    Trait {
        name: name.to_string(),
        effects: breakpoints.iter().map(|b| TraitEffect { min_units: *b }).collect(),
    }
}

fn ids(names: &[&str]) -> Vec<ChampionId> {
    names.iter().map(|n| ChampionId(n.to_string())).collect()
}

#[test]
fn breakpoint_selection_takes_highest_met() {
    let pool = ChampionPool::with_data(vec![
        champ("U1", &["X"], 1),
        champ("U2", &["X"], 1),
        champ("U3", &["X"], 1),
        champ("U4", &["X"], 1),
        champ("U5", &["X"], 1),
    ]);
    let traits = vec![trait_def("X", &[2, 4, 6])];
    let acts = calculate_trait_activations(
        &pool,
        &ids(&["U1", "U2", "U3", "U4", "U5"]),
        &traits,
        &vec![],
    );
    assert_eq!(acts.len(), 1);
    assert_eq!(acts[0].name, "X");
    assert_eq!(acts[0].count, 5);
    assert_eq!(acts[0].breakpoint_hit, 4);
}

#[test]
fn count_below_lowest_breakpoint_activates_nothing() {
    let pool = ChampionPool::with_data(vec![champ("U1", &["X"], 1)]);
    let traits = vec![trait_def("X", &[2, 4, 6])];
    let acts = calculate_trait_activations(&pool, &ids(&["U1"]), &traits, &vec![]);
    assert!(acts.is_empty());
}

#[test]
fn adding_a_unit_never_deactivates() {
    let pool = ChampionPool::with_data(vec![
        champ("U1", &["X"], 1),
        champ("U2", &["X"], 1),
        champ("U3", &["X", "Y"], 1),
    ]);
    let traits = vec![trait_def("X", &[2, 4]), trait_def("Y", &[1])];
    let before = calculate_trait_activations(&pool, &ids(&["U1", "U2"]), &traits, &vec![]);
    assert_eq!(before.len(), 1);
    assert_eq!(before[0].breakpoint_hit, 2);
    let after = calculate_trait_activations(&pool, &ids(&["U1", "U2", "U3"]), &traits, &vec![]);
    // X stays active with a count one higher; Y newly activates.
    assert_eq!(after.len(), 2);
    assert_eq!(after[0].name, "X");
    assert_eq!(after[0].count, 3);
    assert!(after[0].breakpoint_hit >= before[0].breakpoint_hit);
    assert_eq!(after[1].name, "Y");
}

#[test]
fn bonuses_count_without_units() {
    let pool = ChampionPool::with_data(vec![champ("U1", &["Y"], 1)]);
    let traits = vec![trait_def("X", &[2])];
    let acts = calculate_trait_activations(
        &pool,
        &vec![],
        &traits,
        &vec![("X".to_string(), 3)],
    );
    assert_eq!(acts.len(), 1);
    assert_eq!(acts[0].count, 3);
    assert_eq!(acts[0].breakpoint_hit, 2);
}

#[test]
fn small_bonus_activates_nothing() {
    let pool = ChampionPool::with_data(vec![]);
    let traits = vec![trait_def("X", &[2])];
    let acts = calculate_trait_activations(
        &pool,
        &vec![],
        &traits,
        &vec![("X".to_string(), 1)],
    );
    assert!(acts.is_empty());
}

#[test]
fn repeated_bonus_entries_accumulate() {
    let pool = ChampionPool::with_data(vec![]);
    let traits = vec![trait_def("X", &[2])];
    let acts = calculate_trait_activations(
        &pool,
        &vec![],
        &traits,
        &vec![("X".to_string(), 1), ("X".to_string(), 1)],
    );
    assert_eq!(acts.len(), 1);
    assert_eq!(acts[0].count, 2);
    assert_eq!(acts[0].breakpoint_hit, 2);
}

#[test]
fn unknown_identifiers_are_skipped() {
    let pool = ChampionPool::with_data(vec![champ("U1", &["X"], 1), champ("U2", &["X"], 1)]);
    let traits = vec![trait_def("X", &[2])];
    let acts = calculate_trait_activations(
        &pool,
        &ids(&["U1", "Nobody", "U2"]),
        &traits,
        &vec![],
    );
    assert_eq!(acts.len(), 1);
    assert_eq!(acts[0].count, 2);
}

#[test]
fn lookup_resolves_known_identifiers_only() {
    let pool = ChampionPool::with_data(vec![champ("U1", &["X"], 1)]);
    assert!(pool.by_id(&ChampionId("U1".to_string())).is_some());
    assert!(pool.by_id(&ChampionId("U9".to_string())).is_none());
}
