use vstd::prelude::*;
use crate::champions::{
    ActivationView, Champion, ChampionId, ChampionPool, ChampionView, Trait, TraitActivation,
    TraitEffect, TraitView, bonuses_view, ids_view, spec_lookup, traits_view,
};

verus! {

/// How many entries of `names` equal `name` (a unit may carry a trait
/// name more than once; every occurrence counts).
pub open spec fn count_occ(names: Seq<Seq<char>>, name: Seq<char>) -> nat
    decreases names.len(),
{
    if names.len() == 0 {
        0
    } else {
        count_occ(names.drop_last(), name) + (if names.last() == name {
            1nat
        } else {
            0nat
        })
    }
}

/// The count contributed to trait `name` by the external bonuses; repeated
/// entries for one name accumulate.
pub open spec fn bonus_total(bonuses: Seq<(Seq<char>, u32)>, name: Seq<char>) -> nat
    decreases bonuses.len(),
{
    if bonuses.len() == 0 {
        0
    } else {
        bonus_total(bonuses.drop_last(), name) + (if bonuses.last().0 == name {
            bonuses.last().1 as nat
        } else {
            0nat
        })
    }
}

/// Whether some bonus entry names `name`, whatever its value.
pub open spec fn bonus_listed(bonuses: Seq<(Seq<char>, u32)>, name: Seq<char>) -> bool {
    exists|i: int| 0 <= i < bonuses.len() && bonuses[i].0 == name
}

/// The count contributed to trait `name` by the units of `ids`, each
/// resolved against `pool`; unknown identifiers contribute nothing.
pub open spec fn team_count(pool: Seq<ChampionView>, ids: Seq<Seq<char>>, name: Seq<char>) -> nat
    decreases ids.len(),
{
    if ids.len() == 0 {
        0
    } else {
        team_count(pool, ids.drop_last(), name) + (match spec_lookup(pool, ids.last()) {
            Some(c) => count_occ(c.traits, name),
            None => 0nat,
        })
    }
}

/// The accumulated count for trait `name`: bonus counts plus one per
/// carried occurrence among the resolved units.
pub open spec fn trait_count(
    pool: Seq<ChampionView>,
    ids: Seq<Seq<char>>,
    bonuses: Seq<(Seq<char>, u32)>,
    name: Seq<char>,
) -> nat {
    bonus_total(bonuses, name) + team_count(pool, ids, name)
}

/// Whether the calculator keeps a count for `name` at all: a bonus entry
/// names it, or some resolved unit carries it.
pub open spec fn counted(
    pool: Seq<ChampionView>,
    ids: Seq<Seq<char>>,
    bonuses: Seq<(Seq<char>, u32)>,
    name: Seq<char>,
) -> bool {
    bonus_listed(bonuses, name) || team_count(pool, ids, name) > 0
}

/// The breakpoint the calculator records for a count: scanning the
/// breakpoints from the last to the first, the first whose threshold is at
/// most `count`.
pub open spec fn spec_breakpoint_hit(effects: Seq<u32>, count: int) -> Option<u32>
    decreases effects.len(),
{
    if effects.len() == 0 {
        None
    } else if effects.last() <= count {
        Some(effects.last())
    } else {
        spec_breakpoint_hit(effects.drop_last(), count)
    }
}

/// The activation one trait definition produces for a team, if any.
pub open spec fn spec_activation_of(
    pool: Seq<ChampionView>,
    ids: Seq<Seq<char>>,
    bonuses: Seq<(Seq<char>, u32)>,
    t: TraitView,
) -> Option<ActivationView> {
    if counted(pool, ids, bonuses, t.name) {
        match spec_breakpoint_hit(t.effects, trait_count(pool, ids, bonuses, t.name) as int) {
            Some(bp) => Some(
                ActivationView {
                    name: t.name,
                    count: trait_count(pool, ids, bonuses, t.name) as int,
                    breakpoint_hit: bp,
                },
            ),
            None => None,
        }
    } else {
        None
    }
}

/// The activations a team produces, one per activating trait, in the order
/// the trait definitions are listed.
pub open spec fn spec_activations(
    pool: Seq<ChampionView>,
    ids: Seq<Seq<char>>,
    traits: Seq<TraitView>,
    bonuses: Seq<(Seq<char>, u32)>,
) -> Seq<ActivationView>
    decreases traits.len(),
{
    if traits.len() == 0 {
        Seq::empty()
    } else {
        spec_activations(pool, ids, traits.drop_last(), bonuses) + (match spec_activation_of(
            pool,
            ids,
            bonuses,
            traits.last(),
        ) {
            Some(a) => seq![a],
            None => Seq::empty(),
        })
    }
}

/// The sum of all bonus values, over every trait name.
pub open spec fn bonus_weight(bonuses: Seq<(Seq<char>, u32)>) -> nat
    decreases bonuses.len(),
{
    if bonuses.len() == 0 {
        0
    } else {
        bonus_weight(bonuses.drop_last()) + bonuses.last().1 as nat
    }
}

/// The number of trait-name slots the resolved units of `ids` contribute,
/// over every trait name.
pub open spec fn ids_weight(pool: Seq<ChampionView>, ids: Seq<Seq<char>>) -> nat
    decreases ids.len(),
{
    if ids.len() == 0 {
        0
    } else {
        ids_weight(pool, ids.drop_last()) + (match spec_lookup(pool, ids.last()) {
            Some(c) => c.traits.len(),
            None => 0nat,
        })
    }
}

/// An upper bound on every trait count a team can produce; counts are
/// computed in `usize`, so callers keep this within `usize::MAX`.
pub open spec fn total_weight(
    pool: Seq<ChampionView>,
    ids: Seq<Seq<char>>,
    bonuses: Seq<(Seq<char>, u32)>,
) -> nat {
    bonus_weight(bonuses) + ids_weight(pool, ids)
}

proof fn lemma_count_occ_le_len(names: Seq<Seq<char>>, name: Seq<char>)
    ensures
        count_occ(names, name) <= names.len(),
    decreases names.len(),
{
    if names.len() > 0 {
        lemma_count_occ_le_len(names.drop_last(), name);
    }
}

proof fn lemma_bonus_total_le_weight(bonuses: Seq<(Seq<char>, u32)>, name: Seq<char>)
    ensures
        bonus_total(bonuses, name) <= bonus_weight(bonuses),
    decreases bonuses.len(),
{
    if bonuses.len() > 0 {
        lemma_bonus_total_le_weight(bonuses.drop_last(), name);
    }
}

proof fn lemma_team_count_le_weight(pool: Seq<ChampionView>, ids: Seq<Seq<char>>, name: Seq<char>)
    ensures
        team_count(pool, ids, name) <= ids_weight(pool, ids),
    decreases ids.len(),
{
    if ids.len() > 0 {
        lemma_team_count_le_weight(pool, ids.drop_last(), name);
        match spec_lookup(pool, ids.last()) {
            Some(c) => lemma_count_occ_le_len(c.traits, name),
            None => (),
        }
    }
}

/// Every trait count is bounded by the input weight.
pub proof fn lemma_trait_count_le_weight(
    pool: Seq<ChampionView>,
    ids: Seq<Seq<char>>,
    bonuses: Seq<(Seq<char>, u32)>,
    name: Seq<char>,
)
    ensures
        trait_count(pool, ids, bonuses, name) <= total_weight(pool, ids, bonuses),
{
    lemma_bonus_total_le_weight(bonuses, name);
    lemma_team_count_le_weight(pool, ids, name);
}

proof fn lemma_bonus_total_take_le(bonuses: Seq<(Seq<char>, u32)>, name: Seq<char>, j: int)
    requires
        0 <= j <= bonuses.len(),
    ensures
        bonus_total(bonuses.take(j), name) <= bonus_total(bonuses, name),
    decreases bonuses.len() - j,
{
    if j == bonuses.len() {
        assert(bonuses.take(j) =~= bonuses);
    } else {
        assert(bonuses.drop_last().take(j) =~= bonuses.take(j));
        lemma_bonus_total_take_le(bonuses.drop_last(), name, j);
    }
}

proof fn lemma_team_count_take_le(pool: Seq<ChampionView>, ids: Seq<Seq<char>>, name: Seq<char>, j: int)
    requires
        0 <= j <= ids.len(),
    ensures
        team_count(pool, ids.take(j), name) <= team_count(pool, ids, name),
    decreases ids.len() - j,
{
    if j == ids.len() {
        assert(ids.take(j) =~= ids);
    } else {
        assert(ids.drop_last().take(j) =~= ids.take(j));
        lemma_team_count_take_le(pool, ids.drop_last(), name, j);
    }
}

/// A team activates at most one entry per trait definition.
pub proof fn lemma_activations_len(
    pool: Seq<ChampionView>,
    ids: Seq<Seq<char>>,
    traits: Seq<TraitView>,
    bonuses: Seq<(Seq<char>, u32)>,
)
    ensures
        spec_activations(pool, ids, traits, bonuses).len() <= traits.len(),
    decreases traits.len(),
{
    if traits.len() > 0 {
        lemma_activations_len(pool, ids, traits.drop_last(), bonuses);
    }
}

/// A recorded breakpoint is always one of the trait's breakpoints, and its
/// threshold is met by the count.
pub proof fn lemma_breakpoint_hit_le(effects: Seq<u32>, count: int)
    ensures
        spec_breakpoint_hit(effects, count) is Some ==> {
            &&& spec_breakpoint_hit(effects, count)->Some_0 <= count
            &&& effects.contains(spec_breakpoint_hit(effects, count)->Some_0)
        },
    decreases effects.len(),
{
    if effects.len() > 0 {
        if effects.last() <= count {
            assert(effects[effects.len() - 1] == effects.last());
        } else {
            lemma_breakpoint_hit_le(effects.drop_last(), count);
            if spec_breakpoint_hit(effects.drop_last(), count) is Some {
                let bp = spec_breakpoint_hit(effects.drop_last(), count)->Some_0;
                let i = choose|i: int| 0 <= i < effects.drop_last().len() && effects.drop_last()[i] == bp;
                assert(effects[i] == bp);
            }
        }
    }
}

/// Breakpoint selection: for breakpoints listed in ascending order, the
/// recorded `breakpoint_hit` is the largest breakpoint whose threshold is
/// at most the count; a count below the lowest breakpoint activates
/// nothing.
pub proof fn lemma_breakpoint_selection(effects: Seq<u32>, count: int)
    requires
        forall|i: int, j: int| 0 <= i <= j < effects.len() ==> effects[i] <= effects[j],
    ensures
        match spec_breakpoint_hit(effects, count) {
            Some(bp) => {
                &&& effects.contains(bp)
                &&& bp <= count
                &&& forall|k: int| 0 <= k < effects.len() && effects[k] <= count ==> effects[k] <= bp
            },
            None => forall|k: int| 0 <= k < effects.len() ==> effects[k] > count,
        },
    decreases effects.len(),
{
    lemma_breakpoint_hit_le(effects, count);
    if effects.len() > 0 {
        if effects.last() <= count {
            assert(effects[effects.len() - 1] == effects.last());
        } else {
            assert(forall|i: int, j: int|
                0 <= i <= j < effects.drop_last().len() ==> effects.drop_last()[i]
                    <= effects.drop_last()[j]);
            lemma_breakpoint_selection(effects.drop_last(), count);
            match spec_breakpoint_hit(effects, count) {
                Some(bp) => {
                    let i = choose|i: int|
                        0 <= i < effects.drop_last().len() && effects.drop_last()[i] == bp;
                    assert(effects[i] == bp);
                    assert forall|k: int|
                        0 <= k < effects.len() && effects[k] <= count implies effects[k] <= bp by {
                        if k < effects.len() - 1 {
                            assert(effects.drop_last()[k] == effects[k]);
                            assert(effects.drop_last()[k] <= bp);
                        }
                    }
                },
                None => {
                    assert forall|k: int| 0 <= k < effects.len() implies effects[k] > count by {
                        if k < effects.len() - 1 {
                            assert(effects.drop_last()[k] == effects[k]);
                            assert(effects.drop_last()[k] > count);
                        }
                    }
                },
            }
        }
    }
}

/// Adding a unit to the team never decreases a trait's count, and never
/// removes it from the counting table.
pub proof fn lemma_count_monotone(
    pool: Seq<ChampionView>,
    ids: Seq<Seq<char>>,
    extra: Seq<char>,
    bonuses: Seq<(Seq<char>, u32)>,
    name: Seq<char>,
)
    ensures
        trait_count(pool, ids.push(extra), bonuses, name) >= trait_count(pool, ids, bonuses, name),
        counted(pool, ids, bonuses, name) ==> counted(pool, ids.push(extra), bonuses, name),
{
    assert(ids.push(extra).drop_last() =~= ids);
    assert(ids.push(extra).last() == extra);
}

/// Raising a count never lowers the recorded breakpoint: if a count meets
/// some breakpoint, any larger count meets one at least as high.
pub proof fn lemma_breakpoint_monotone(effects: Seq<u32>, c1: int, c2: int)
    requires
        c1 <= c2,
    ensures
        spec_breakpoint_hit(effects, c1) is Some ==> {
            &&& spec_breakpoint_hit(effects, c2) is Some
            &&& spec_breakpoint_hit(effects, c1)->Some_0 <= spec_breakpoint_hit(effects, c2)->Some_0
        },
    decreases effects.len(),
{
    if effects.len() > 0 {
        if effects.last() <= c1 {
        } else if effects.last() > c2 {
            lemma_breakpoint_monotone(effects.drop_last(), c1, c2);
        } else {
            lemma_breakpoint_hit_le(effects.drop_last(), c1);
        }
    }
}

/// Activation monotonicity: with the catalog, the trait definitions and
/// the bonuses fixed, adding a unit to a team never decreases any trait's
/// count, and a trait that was active stays active, with a count at least
/// as high and a breakpoint at least as high.
pub proof fn lemma_activation_monotonicity(
    pool: Seq<ChampionView>,
    ids: Seq<Seq<char>>,
    extra: Seq<char>,
    bonuses: Seq<(Seq<char>, u32)>,
    t: TraitView,
)
    ensures
        trait_count(pool, ids.push(extra), bonuses, t.name) >= trait_count(
            pool,
            ids,
            bonuses,
            t.name,
        ),
        spec_activation_of(pool, ids, bonuses, t) is Some ==> {
            &&& spec_activation_of(pool, ids.push(extra), bonuses, t) is Some
            &&& spec_activation_of(pool, ids.push(extra), bonuses, t)->Some_0.count
                >= spec_activation_of(pool, ids, bonuses, t)->Some_0.count
            &&& spec_activation_of(pool, ids.push(extra), bonuses, t)->Some_0.breakpoint_hit
                >= spec_activation_of(pool, ids, bonuses, t)->Some_0.breakpoint_hit
        },
{
    lemma_count_monotone(pool, ids, extra, bonuses, t.name);
    lemma_breakpoint_monotone(
        t.effects,
        trait_count(pool, ids, bonuses, t.name) as int,
        trait_count(pool, ids.push(extra), bonuses, t.name) as int,
    );
}

/// The names of a list of activations, in list order.
pub open spec fn activation_names(acts: Seq<ActivationView>) -> Seq<Seq<char>> {
    acts.map_values(|a: ActivationView| a.name)
}

/// A count meeting any breakpoint is recorded at one of them.
proof fn lemma_breakpoint_hit_some(effects: Seq<u32>, count: int)
    requires
        exists|k: int| 0 <= k < effects.len() && effects[k] <= count,
    ensures
        spec_breakpoint_hit(effects, count) is Some,
    decreases effects.len(),
{
    if effects.last() > count {
        let k = choose|k: int| 0 <= k < effects.len() && effects[k] <= count;
        assert(effects.drop_last()[k] <= count);
        lemma_breakpoint_hit_some(effects.drop_last(), count);
    }
}

/// A trait named by no definition appears in no activation.
proof fn lemma_no_activation_for_name(
    pool: Seq<ChampionView>,
    ids: Seq<Seq<char>>,
    traits: Seq<TraitView>,
    bonuses: Seq<(Seq<char>, u32)>,
    name: Seq<char>,
)
    requires
        forall|j: int| 0 <= j < traits.len() ==> (#[trigger] traits[j]).name != name,
    ensures
        count_occ(activation_names(spec_activations(pool, ids, traits, bonuses)), name) == 0,
    decreases traits.len(),
{
    let acts = spec_activations(pool, ids, traits, bonuses);
    if traits.len() == 0 {
        assert(activation_names(acts) =~= Seq::<Seq<char>>::empty());
    } else {
        lemma_no_activation_for_name(pool, ids, traits.drop_last(), bonuses, name);
        let prev = spec_activations(pool, ids, traits.drop_last(), bonuses);
        match spec_activation_of(pool, ids, bonuses, traits.last()) {
            Some(a) => {
                assert(acts =~= prev.push(a));
                assert(activation_names(acts).drop_last() =~= activation_names(prev));
                assert(activation_names(acts).last() == a.name);
                assert(traits[traits.len() - 1].name != name);
            },
            None => {
                assert(acts =~= prev);
            },
        }
    }
}

/// Breakpoint selection, stated of the calculator's whole result: for a
/// trait whose name no other definition shares and whose breakpoints
/// ascend, the result holds exactly one activation for it when its count
/// meets some breakpoint — carrying that count and the largest breakpoint
/// the count meets — and none when the count falls below them all or the
/// trait is not counted.
pub proof fn lemma_activation_selection(
    pool: Seq<ChampionView>,
    ids: Seq<Seq<char>>,
    traits: Seq<TraitView>,
    bonuses: Seq<(Seq<char>, u32)>,
    i: int,
)
    requires
        0 <= i < traits.len(),
        forall|j: int| 0 <= j < traits.len() && j != i ==> (#[trigger] traits[j]).name
            != traits[i].name,
        forall|a: int, b: int|
            0 <= a <= b < traits[i].effects.len() ==> traits[i].effects[a] <= traits[i].effects[b],
    ensures
        ({
            let t = traits[i];
            let c = trait_count(pool, ids, bonuses, t.name) as int;
            let acts = spec_activations(pool, ids, traits, bonuses);
            let entry = spec_activation_of(pool, ids, bonuses, t);
            &&& (entry is Some <==> counted(pool, ids, bonuses, t.name) && exists|k: int|
                0 <= k < t.effects.len() && t.effects[k] <= c)
            &&& count_occ(activation_names(acts), t.name) == (if entry is Some {
                1nat
            } else {
                0nat
            })
            &&& (entry matches Some(a) ==> {
                &&& acts.contains(a)
                &&& a.name == t.name
                &&& a.count == c
                &&& t.effects.contains(a.breakpoint_hit)
                &&& a.breakpoint_hit <= c
                &&& forall|k: int|
                    0 <= k < t.effects.len() && t.effects[k] <= c ==> t.effects[k]
                        <= a.breakpoint_hit
            })
        }),
    decreases traits.len(),
{
    let t = traits[i];
    let c = trait_count(pool, ids, bonuses, t.name) as int;
    lemma_breakpoint_selection(t.effects, c);
    if counted(pool, ids, bonuses, t.name) && exists|k: int|
        0 <= k < t.effects.len() && t.effects[k] <= c {
        lemma_breakpoint_hit_some(t.effects, c);
    }
    let acts = spec_activations(pool, ids, traits, bonuses);
    let prev = spec_activations(pool, ids, traits.drop_last(), bonuses);
    if i == traits.len() - 1 {
        assert(forall|j: int|
            0 <= j < traits.drop_last().len() ==> (#[trigger] traits.drop_last()[j]).name
                != t.name);
        lemma_no_activation_for_name(pool, ids, traits.drop_last(), bonuses, t.name);
        match spec_activation_of(pool, ids, bonuses, t) {
            Some(a) => {
                assert(acts =~= prev.push(a));
                assert(activation_names(acts).drop_last() =~= activation_names(prev));
                assert(activation_names(acts).last() == a.name);
                assert(acts[acts.len() - 1] == a);
            },
            None => {
                assert(acts =~= prev);
            },
        }
    } else {
        assert(traits.drop_last()[i] == traits[i]);
        lemma_activation_selection(pool, ids, traits.drop_last(), bonuses, i);
        match spec_activation_of(pool, ids, bonuses, traits.last()) {
            Some(b) => {
                assert(acts =~= prev.push(b));
                assert(activation_names(acts).drop_last() =~= activation_names(prev));
                assert(activation_names(acts).last() == b.name);
                assert(traits[traits.len() - 1].name != t.name);
                if spec_activation_of(pool, ids, bonuses, t) is Some {
                    let a = spec_activation_of(pool, ids, bonuses, t)->Some_0;
                    assert(prev.contains(a));
                    let w = choose|w: int| 0 <= w < prev.len() && prev[w] == a;
                    assert(acts[w] == a);
                }
            },
            None => {
                assert(acts =~= prev);
            },
        }
    }
}

/// Counts how many strings in `v` equal `name`.
fn count_matches(v: &Vec<String>, name: &String) -> (n: usize)
    ensures
        n == count_occ(v@.map_values(|t: String| t@), name@),
{
    let ghost names = v@.map_values(|t: String| t@);
    let mut n: usize = 0;
    let mut i: usize = 0;
    while i < v.len()
        invariant
            i <= v@.len(),
            names == v@.map_values(|t: String| t@),
            n == count_occ(names.take(i as int), name@),
            n <= i,
        decreases v@.len() - i,
    {
        proof {
            assert(names.take(i + 1).drop_last() =~= names.take(i as int));
            assert(names.take(i + 1).last() == names[i as int]);
        }
        if v[i] == *name {
            n = n + 1;
        }
        i = i + 1;
    }
    proof {
        assert(names.take(names.len() as int) =~= names);
    }
    n
}

/// Picks the highest breakpoint whose threshold is at most `count`,
/// scanning from the last breakpoint down as the calculator does.
fn breakpoint_hit(effects: &Vec<TraitEffect>, count: usize) -> (r: Option<u32>)
    ensures
        r == spec_breakpoint_hit(effects@.map_values(|e: TraitEffect| e.min_units), count as int),
{
    let ghost evs = effects@.map_values(|e: TraitEffect| e.min_units);
    proof {
        assert(evs.take(evs.len() as int) =~= evs);
    }
    let mut k: usize = effects.len();
    while k > 0
        invariant
            k <= evs.len(),
            evs == effects@.map_values(|e: TraitEffect| e.min_units),
            spec_breakpoint_hit(evs, count as int) == spec_breakpoint_hit(
                evs.take(k as int),
                count as int,
            ),
        decreases k,
    {
        k = k - 1;
        proof {
            assert(evs.take(k + 1).drop_last() =~= evs.take(k as int));
            assert(evs.take(k + 1).last() == evs[k as int]);
        }
        if effects[k].min_units as usize <= count {
            return Some(effects[k].min_units);
        }
    }
    None
}

/// Computes which traits a team activates.
///
/// For each trait the count starts from the bonus entries naming it and
/// grows by one per occurrence among the resolved units of `champion_ids`;
/// unknown identifiers are skipped. A trait whose count meets none of its
/// breakpoints, or for which neither a bonus entry nor a carried occurrence
/// exists, produces no activation; otherwise the highest breakpoint with
/// threshold at most the count is recorded.
pub fn calculate_trait_activations(
    champion_pool: &ChampionPool,
    champion_ids: &Vec<ChampionId>,
    traits: &Vec<Trait>,
    trait_bonuses: &Vec<(String, u32)>,
) -> (r: Vec<TraitActivation>)
    requires
        total_weight(champion_pool@, ids_view(champion_ids@), bonuses_view(trait_bonuses@))
            <= usize::MAX,
    ensures
        r@.map_values(|a: TraitActivation| a@) == spec_activations(
            champion_pool@,
            ids_view(champion_ids@),
            traits_view(traits@),
            bonuses_view(trait_bonuses@),
        ),
{
    let ghost poolv = champion_pool@;
    let ghost idsv = ids_view(champion_ids@);
    let ghost traitsv = traits_view(traits@);
    let ghost bonusesv = bonuses_view(trait_bonuses@);

    let mut activated: Vec<TraitActivation> = Vec::new();
    let mut ti: usize = 0;
    while ti < traits.len()
        invariant
            ti <= traits@.len(),
            poolv == champion_pool@,
            idsv == ids_view(champion_ids@),
            traitsv == traits_view(traits@),
            bonusesv == bonuses_view(trait_bonuses@),
            total_weight(poolv, idsv, bonusesv) <= usize::MAX,
            activated@.map_values(|a: TraitActivation| a@) == spec_activations(
                poolv,
                idsv,
                traitsv.take(ti as int),
                bonusesv,
            ),
        decreases traits@.len() - ti,
    {
        let t = &traits[ti];
        let ghost tv = traitsv[ti as int];

        // Count from the bonuses, and note whether any entry names the trait.
        let mut bonus_part: usize = 0;
        let mut listed = false;
        let mut bi: usize = 0;
        while bi < trait_bonuses.len()
            invariant
                bi <= trait_bonuses@.len(),
                bonusesv == bonuses_view(trait_bonuses@),
                tv.name == t.name@,
                bonus_part == bonus_total(bonusesv.take(bi as int), tv.name),
                listed == bonus_listed(bonusesv.take(bi as int), tv.name),
                bonus_total(bonusesv.take(bi as int), tv.name) <= bonus_weight(bonusesv),
                total_weight(poolv, idsv, bonusesv) <= usize::MAX,
            decreases trait_bonuses@.len() - bi,
        {
            proof {
                assert(bonusesv.take(bi + 1).drop_last() =~= bonusesv.take(bi as int));
                assert(bonusesv.take(bi + 1).last() == bonusesv[bi as int]);
                lemma_bonus_total_take_le(bonusesv, tv.name, bi + 1);
                lemma_bonus_total_le_weight(bonusesv, tv.name);
            }
            if trait_bonuses[bi].0 == t.name {
                bonus_part = bonus_part + trait_bonuses[bi].1 as usize;
                listed = true;
                proof {
                    assert(bonusesv.take(bi + 1)[bi as int].0 == tv.name);
                }
            } else {
                proof {
                    if bonus_listed(bonusesv.take(bi + 1), tv.name) {
                        let i = choose|i: int|
                            0 <= i < bi + 1 && (#[trigger] bonusesv.take(bi + 1)[i]).0 == tv.name;
                        assert(bonusesv[i].0 == tv.name);
                        assert(i < bi);
                        assert(bonusesv.take(bi as int)[i].0 == tv.name);
                    }
                }
            }
            bi = bi + 1;
        }
        proof {
            assert(bonusesv.take(bonusesv.len() as int) =~= bonusesv);
        }

        // Count from the units, resolving each identifier against the catalog.
        let mut team_part: usize = 0;
        let mut ci: usize = 0;
        while ci < champion_ids.len()
            invariant
                ci <= champion_ids@.len(),
                poolv == champion_pool@,
                idsv == ids_view(champion_ids@),
                tv.name == t.name@,
                team_part == team_count(poolv, idsv.take(ci as int), tv.name),
                team_count(poolv, idsv.take(ci as int), tv.name) <= ids_weight(poolv, idsv),
                total_weight(poolv, idsv, bonusesv) <= usize::MAX,
            decreases champion_ids@.len() - ci,
        {
            proof {
                assert(idsv.take(ci + 1).drop_last() =~= idsv.take(ci as int));
                assert(idsv.take(ci + 1).last() == idsv[ci as int]);
                lemma_team_count_take_le(poolv, idsv, tv.name, ci + 1);
                lemma_team_count_le_weight(poolv, idsv, tv.name);
            }
            match champion_pool.by_id(&champion_ids[ci]) {
                Some(c) => {
                    let occ = count_matches(&c.traits, &t.name);
                    team_part = team_part + occ;
                },
                None => {},
            }
            ci = ci + 1;
        }
        proof {
            assert(idsv.take(idsv.len() as int) =~= idsv);
            lemma_bonus_total_le_weight(bonusesv, tv.name);
            lemma_team_count_le_weight(poolv, idsv, tv.name);
        }

        let count: usize = bonus_part + team_part;
        let present = listed || team_part > 0;
        proof {
            assert(count == trait_count(poolv, idsv, bonusesv, tv.name));
            assert(present == counted(poolv, idsv, bonusesv, tv.name));
        }

        if present {
            match breakpoint_hit(&t.effects, count) {
                Some(bp) => {
                    let act = TraitActivation {
                        name: t.name.clone(),
                        count,
                        breakpoint_hit: bp,
                    };
                    activated.push(act);
                },
                None => {},
            }
        }
        proof {
            assert(traitsv.take(ti + 1).drop_last() =~= traitsv.take(ti as int));
            assert(traitsv.take(ti + 1).last() == traitsv[ti as int]);
            assert(activated@.map_values(|a: TraitActivation| a@) =~= spec_activations(
                poolv,
                idsv,
                traitsv.take(ti + 1),
                bonusesv,
            ));
        }
        ti = ti + 1;
    }
    proof {
        assert(traitsv.take(traitsv.len() as int) =~= traitsv);
    }
    activated
}

} // verus!
