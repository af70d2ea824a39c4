use tft_optimiser::champions::{Champion, ChampionId, ChampionPool, Trait, TraitEffect};
use tft_optimiser::greedy::{calculate_combined_score, is_near_breakpoint};
use tft_optimiser::trait_activation::calculate_trait_activations;

fn champ(id: &str, traits: &[&str], cost: u32) -> Champion {
    Champion {
        id: ChampionId(id.to_string()),
        name: id.to_string(),
        traits: traits.iter().map(|t| t.to_string()).collect(),
        cost,
    }
}

fn trait_def(name: &str, breakpoints: &[u32]) -> Trait {
    Trait {
        name: name.to_string(),
        effects: breakpoints.iter().map(|b| TraitEffect { min_units: *b }).collect(),
    }
}

#[test]
fn near_breakpoint_is_exactly_one_short() {
    let x = trait_def("X", &[2, 4]);
    assert!(is_near_breakpoint(1, &x));
    assert!(!is_near_breakpoint(2, &x));
    assert!(is_near_breakpoint(3, &x));
    assert!(!is_near_breakpoint(4, &x));
}

#[test]
fn deep_breakpoint_rewards_four_new_trait_rewards_one() {
    // The team activates X at breakpoint 2 (reward 4); the candidate
    // brings the brand-new trait Y (reward 1).
    let a = champ("A", &["X"], 1);
    let b = champ("B", &["X"], 1);
    let c = champ("C", &["Y"], 1);
    let traits = vec![trait_def("X", &[2]), trait_def("Y", &[1])];
    let pool = ChampionPool::with_data(vec![a.clone(), b.clone(), c.clone()]);
    let team = vec![a, b];
    let acts = calculate_trait_activations(
        &pool,
        &vec![ChampionId("A".to_string()), ChampionId("B".to_string())],
        &traits,
        &vec![],
    );
    assert_eq!(calculate_combined_score(&team, &acts, &c, &traits), 5);
}

#[test]
fn one_unit_breakpoint_rewards_three() {
    // The team activates Y at its one-unit breakpoint (reward 3); the
    // candidate brings the brand-new trait X (reward 1).
    let b = champ("B", &["X"], 1);
    let c = champ("C", &["Y"], 1);
    let traits = vec![trait_def("X", &[2]), trait_def("Y", &[1])];
    let pool = ChampionPool::with_data(vec![b.clone(), c.clone()]);
    let team = vec![c];
    let acts = calculate_trait_activations(
        &pool,
        &vec![ChampionId("C".to_string())],
        &traits,
        &vec![],
    );
    assert_eq!(calculate_combined_score(&team, &acts, &b, &traits), 4);
}

#[test]
fn near_breakpoint_candidate_rewards_two() {
    // Nothing is active yet; the candidate's trait X sits one unit short
    // of its breakpoint (reward 2).
    let a = champ("A", &["X"], 1);
    let b = champ("B", &["X"], 1);
    let traits = vec![trait_def("X", &[2])];
    let pool = ChampionPool::with_data(vec![a.clone(), b.clone()]);
    let team = vec![a];
    let acts = calculate_trait_activations(
        &pool,
        &vec![ChampionId("A".to_string())],
        &traits,
        &vec![],
    );
    assert!(acts.is_empty());
    assert_eq!(calculate_combined_score(&team, &acts, &b, &traits), 2);
}

#[test]
fn saturated_trait_rewards_nothing() {
    // X is already active with no further breakpoint in sight, so a third
    // X unit earns only the team's standing reward.
    let a = champ("A", &["X"], 1);
    let b = champ("B", &["X"], 1);
    let c = champ("C", &["X"], 1);
    let traits = vec![trait_def("X", &[2])];
    let pool = ChampionPool::with_data(vec![a.clone(), b.clone(), c.clone()]);
    let team = vec![a, b];
    let acts = calculate_trait_activations(
        &pool,
        &vec![ChampionId("A".to_string()), ChampionId("B".to_string())],
        &traits,
        &vec![],
    );
    assert_eq!(calculate_combined_score(&team, &acts, &c, &traits), 4);
}

#[test]
fn unknown_trait_names_reward_nothing() {
    let a = champ("A", &["Mystery"], 1);
    let traits = vec![trait_def("X", &[2])];
    let pool = ChampionPool::with_data(vec![a.clone()]);
    let team: Vec<Champion> = vec![];
    let acts = calculate_trait_activations(&pool, &vec![], &traits, &vec![]);
    assert_eq!(calculate_combined_score(&team, &acts, &a, &traits), 0);
}
