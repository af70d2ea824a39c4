use vstd::prelude::*;
use crate::champions::{
    ActivationView, Champion, ChampionId, ChampionPool, ChampionView, CompView, OptimalComp,
    Trait, TraitActivation, TraitView, bonuses_view, champs_view, ids_view, pool_wf,
    spec_contains_name, spec_lookup, traits_view,
};
use crate::champions::{lemma_lookup_from_id, lemma_lookup_member};
use crate::trait_activation::{
    bonus_weight, calculate_trait_activations, ids_weight, lemma_activations_len,
    spec_activations,
};

verus! {

// ---------------------------------------------------------------------------
// The scoring schedule.
//
// A candidate is scored against the team as it currently stands: a tiered
// reward for every trait the team already activates (a breakpoint of one
// unit is worth less than a deeper one), plus a reward for each trait the
// candidate carries (a trait brand new to the team earns a little, a trait
// exactly one unit short of its next breakpoint earns more, anything else
// earns nothing).
// ---------------------------------------------------------------------------

/// Reward for one activation: 3 when only the one-unit breakpoint is hit,
/// 4 for any deeper breakpoint.
pub open spec fn spec_activation_reward(a: ActivationView) -> nat {
    if a.breakpoint_hit == 1 {
        3
    } else {
        4
    }
}

/// The tiered reward over every activation of the team.
pub open spec fn spec_current_trait_score(acts: Seq<ActivationView>) -> nat
    decreases acts.len(),
{
    if acts.len() == 0 {
        0
    } else {
        spec_current_trait_score(acts.drop_last()) + spec_activation_reward(acts.last())
    }
}

/// How many members of `team` carry the trait `name`.
pub open spec fn members_with(team: Seq<ChampionView>, name: Seq<char>) -> nat
    decreases team.len(),
{
    if team.len() == 0 {
        0
    } else {
        members_with(team.drop_last(), name) + (if spec_contains_name(team.last().traits, name) {
            1nat
        } else {
            0nat
        })
    }
}

/// The first trait definition (in list order) with the given name.
pub open spec fn spec_find_trait_from(traits: Seq<TraitView>, i: int, name: Seq<char>) -> Option<
    TraitView,
>
    decreases traits.len() - i,
{
    if i < 0 || i >= traits.len() {
        None
    } else if traits[i].name == name {
        Some(traits[i])
    } else {
        spec_find_trait_from(traits, i + 1, name)
    }
}

/// The trait definition a name resolves to, if any.
pub open spec fn spec_find_trait(traits: Seq<TraitView>, name: Seq<char>) -> Option<TraitView> {
    spec_find_trait_from(traits, 0, name)
}

/// Whether a team carrying `count` units of a trait is exactly one unit
/// short of one of the trait's breakpoints.
pub open spec fn spec_is_near(effects: Seq<u32>, count: int) -> bool {
    exists|i: int| 0 <= i < effects.len() && effects[i] == count + 1
}

/// The reward one carried trait name earns for the candidate: 1 when no
/// team member carries it yet, 2 when the team is one unit short of the
/// trait's next breakpoint, 0 otherwise or when the name has no
/// definition.
pub open spec fn spec_trait_reward(
    team: Seq<ChampionView>,
    name: Seq<char>,
    traits: Seq<TraitView>,
) -> nat {
    match spec_find_trait(traits, name) {
        Some(td) => {
            let existing = members_with(team, name);
            if existing == 0 {
                1
            } else if spec_is_near(td.effects, existing as int) {
                2
            } else {
                0
            }
        },
        None => 0,
    }
}

/// The reward over every trait name the candidate carries.
pub open spec fn spec_unique_trait_score(
    team: Seq<ChampionView>,
    cand_traits: Seq<Seq<char>>,
    traits: Seq<TraitView>,
) -> nat
    decreases cand_traits.len(),
{
    if cand_traits.len() == 0 {
        0
    } else {
        spec_unique_trait_score(team, cand_traits.drop_last(), traits) + spec_trait_reward(
            team,
            cand_traits.last(),
            traits,
        )
    }
}

/// The combined score a candidate earns against the current team: the
/// tiered reward for the team's activations plus the candidate's own
/// trait rewards.
pub open spec fn spec_combined_score(
    team: Seq<ChampionView>,
    acts: Seq<ActivationView>,
    candidate: ChampionView,
    traits: Seq<TraitView>,
) -> nat {
    spec_current_trait_score(acts) + spec_unique_trait_score(team, candidate.traits, traits)
}

/// Whether `count` units of the trait leave the team exactly one unit
/// short of one of its breakpoints.
pub fn is_near_breakpoint(count: usize, trait_def: &Trait) -> (r: bool)
    ensures
        r == spec_is_near(trait_def@.effects, count as int),
{
    let ghost evs = trait_def@.effects;
    if count == usize::MAX {
        proof {
            assert(forall|j: int| 0 <= j < evs.len() ==> #[trigger] evs[j] <= u32::MAX < count + 1);
        }
        return false;
    }
    let mut i: usize = 0;
    while i < trait_def.effects.len()
        invariant
            i <= evs.len(),
            evs == trait_def@.effects,
            count < usize::MAX,
            forall|j: int| 0 <= j < i ==> evs[j] != count + 1,
        decreases evs.len() - i,
    {
        if trait_def.effects[i].min_units as usize == count + 1 {
            proof {
                assert(evs[i as int] == count + 1);
            }
            return true;
        }
        i = i + 1;
    }
    false
}

/// Finds the first trait definition with the given name.
fn find_trait<'a>(traits: &'a Vec<Trait>, name: &String) -> (r: Option<&'a Trait>)
    ensures
        match r {
            Some(t) => spec_find_trait(traits_view(traits@), name@) == Some(t@),
            None => spec_find_trait(traits_view(traits@), name@) is None,
        },
{
    let ghost tv = traits_view(traits@);
    let mut i: usize = 0;
    while i < traits.len()
        invariant
            i <= tv.len(),
            tv == traits_view(traits@),
            spec_find_trait(tv, name@) == spec_find_trait_from(tv, i as int, name@),
        decreases tv.len() - i,
    {
        if traits[i].name == *name {
            return Some(&traits[i]);
        }
        i = i + 1;
    }
    None
}

/// Counts the members of `team` that carry the trait `name`.
fn count_members(team: &Vec<Champion>, name: &String) -> (n: usize)
    ensures
        n == members_with(champs_view(team@), name@),
{
    let ghost tv = champs_view(team@);
    let mut n: usize = 0;
    let mut i: usize = 0;
    while i < team.len()
        invariant
            i <= tv.len(),
            tv == champs_view(team@),
            n == members_with(tv.take(i as int), name@),
            n <= i,
        decreases tv.len() - i,
    {
        proof {
            assert(tv.take(i + 1).drop_last() =~= tv.take(i as int));
            assert(tv.take(i + 1).last() == tv[i as int]);
        }
        if crate::champions::contains_name(&team[i].traits, name) {
            n = n + 1;
        }
        i = i + 1;
    }
    proof {
        assert(tv.take(tv.len() as int) =~= tv);
    }
    n
}

/// Scores a candidate against the current team: the tiered reward over
/// the team's activations plus the candidate's own trait rewards.
pub fn calculate_combined_score(
    team: &Vec<Champion>,
    activations: &Vec<TraitActivation>,
    candidate: &Champion,
    traits: &Vec<Trait>,
) -> (score: usize)
    requires
        4 * activations@.len() + 2 * candidate@.traits.len() <= usize::MAX,
    ensures
        score == spec_combined_score(
            champs_view(team@),
            activations@.map_values(|a: TraitActivation| a@),
            candidate@,
            traits_view(traits@),
        ),
{
    let ghost actsv = activations@.map_values(|a: TraitActivation| a@);
    let ghost teamv = champs_view(team@);
    let ghost traitsv = traits_view(traits@);

    let mut current_trait_score: usize = 0;
    let mut i: usize = 0;
    while i < activations.len()
        invariant
            i <= actsv.len(),
            actsv == activations@.map_values(|a: TraitActivation| a@),
            current_trait_score == spec_current_trait_score(actsv.take(i as int)),
            current_trait_score <= 4 * i,
            4 * actsv.len() <= usize::MAX,
        decreases actsv.len() - i,
    {
        proof {
            assert(actsv.take(i + 1).drop_last() =~= actsv.take(i as int));
            assert(actsv.take(i + 1).last() == actsv[i as int]);
        }
        if activations[i].breakpoint_hit == 1 {
            current_trait_score = current_trait_score + 3;
        } else {
            current_trait_score = current_trait_score + 4;
        }
        i = i + 1;
    }
    proof {
        assert(actsv.take(actsv.len() as int) =~= actsv);
    }

    let ghost candv = candidate@.traits;
    let mut unique_trait_score: usize = 0;
    let mut t: usize = 0;
    while t < candidate.traits.len()
        invariant
            t <= candv.len(),
            candv == candidate@.traits,
            teamv == champs_view(team@),
            traitsv == traits_view(traits@),
            unique_trait_score == spec_unique_trait_score(teamv, candv.take(t as int), traitsv),
            unique_trait_score <= 2 * t,
            current_trait_score + 2 * candv.len() <= usize::MAX,
        decreases candv.len() - t,
    {
        proof {
            assert(candv.take(t + 1).drop_last() =~= candv.take(t as int));
            assert(candv.take(t + 1).last() == candv[t as int]);
        }
        let name = &candidate.traits[t];
        proof {
            assert(name@ == candv[t as int]);
        }
        match find_trait(traits, name) {
            Some(trait_def) => {
                let existing_count = count_members(team, name);
                if existing_count == 0 {
                    unique_trait_score = unique_trait_score + 1;
                } else if is_near_breakpoint(existing_count, trait_def) {
                    unique_trait_score = unique_trait_score + 2;
                }
            },
            None => {},
        }
        t = t + 1;
    }
    proof {
        assert(candv.take(candv.len() as int) =~= candv);
    }

    current_trait_score + unique_trait_score
}

// ---------------------------------------------------------------------------
// The greedy builder, modelled step by step.
// ---------------------------------------------------------------------------

/// The identifiers of a team, in team order.
pub open spec fn team_ids(team: Seq<ChampionView>) -> Seq<Seq<char>> {
    team.map_values(|c: ChampionView| c.id)
}

/// The team a list of required identifiers seeds: each identifier resolved
/// against the catalog, unresolvable ones dropped.
pub open spec fn spec_seed_team(pool: Seq<ChampionView>, ids: Seq<Seq<char>>) -> Seq<ChampionView>
    decreases ids.len(),
{
    if ids.len() == 0 {
        Seq::empty()
    } else {
        spec_seed_team(pool, ids.drop_last()) + (match spec_lookup(pool, ids.last()) {
            Some(c) => seq![c],
            None => Seq::empty(),
        })
    }
}

/// The candidate pool: the catalog in order, without the champions whose
/// identifier is required.
pub open spec fn spec_avail(pool: Seq<ChampionView>, req: Seq<Seq<char>>) -> Seq<ChampionView>
    decreases pool.len(),
{
    if pool.len() == 0 {
        Seq::empty()
    } else {
        spec_avail(pool.drop_last(), req) + (if spec_contains_name(req, pool.last().id) {
            Seq::empty()
        } else {
            seq![pool.last()]
        })
    }
}

/// The score a candidate earns: its combined score against the team as it
/// currently stands.
pub open spec fn spec_candidate_score(
    pool: Seq<ChampionView>,
    traits: Seq<TraitView>,
    bonuses: Seq<(Seq<char>, u32)>,
    team: Seq<ChampionView>,
    c: ChampionView,
) -> nat {
    spec_combined_score(
        team,
        spec_activations(pool, team_ids(team), traits, bonuses),
        c,
        traits,
    )
}

/// The scores of every candidate still available, in pool order.
pub open spec fn spec_scores(
    pool: Seq<ChampionView>,
    traits: Seq<TraitView>,
    bonuses: Seq<(Seq<char>, u32)>,
    team: Seq<ChampionView>,
    avail: Seq<ChampionView>,
) -> Seq<nat> {
    Seq::new(avail.len(), |i: int| spec_candidate_score(pool, traits, bonuses, team, avail[i]))
}

/// The builder's pick: the (score, index) pair after scanning the scores
/// left to right, replacing the incumbent only on a strictly higher score.
/// When every candidate scores zero the first candidate is picked.
pub open spec fn spec_best_pick(scores: Seq<nat>) -> (nat, int)
    decreases scores.len(),
{
    if scores.len() == 0 {
        (0nat, 0int)
    } else {
        let prev = spec_best_pick(scores.drop_last());
        if scores.last() > prev.0 {
            (scores.last(), scores.len() - 1)
        } else {
            prev
        }
    }
}

/// The picked index stays in range whenever any candidate exists.
pub proof fn lemma_best_pick_range(scores: Seq<nat>)
    ensures
        0 <= spec_best_pick(scores).1,
        scores.len() > 0 ==> spec_best_pick(scores).1 < scores.len(),
        scores.len() == 0 ==> spec_best_pick(scores).1 == 0,
    decreases scores.len(),
{
    if scores.len() > 0 {
        lemma_best_pick_range(scores.drop_last());
    }
}

/// The team the greedy builder ends with, growing `team` one pick at a
/// time from `avail` until the target size is reached or no candidate is
/// left.
pub open spec fn spec_greedy_team(
    pool: Seq<ChampionView>,
    traits: Seq<TraitView>,
    bonuses: Seq<(Seq<char>, u32)>,
    team: Seq<ChampionView>,
    avail: Seq<ChampionView>,
    team_size: int,
) -> Seq<ChampionView>
    decreases avail.len(),
{
    if team.len() >= team_size || avail.len() == 0 {
        team
    } else {
        let pick0 = spec_best_pick(spec_scores(pool, traits, bonuses, team, avail)).1;
        let pick = if 0 <= pick0 < avail.len() {
            pick0
        } else {
            0
        };
        spec_greedy_team(
            pool,
            traits,
            bonuses,
            team.push(avail[pick]),
            avail.remove(pick),
            team_size,
        )
    }
}

/// The composition the greedy builder returns for the given inputs.
pub open spec fn spec_greedy_comp(
    pool: Seq<ChampionView>,
    traits: Seq<TraitView>,
    bonuses: Seq<(Seq<char>, u32)>,
    req_ids: Seq<Seq<char>>,
    team_size: int,
) -> CompView {
    let team = spec_greedy_team(
        pool,
        traits,
        bonuses,
        spec_seed_team(pool, req_ids),
        spec_avail(pool, req_ids),
        team_size,
    );
    let ids = team_ids(team);
    let acts = spec_activations(pool, ids, traits, bonuses);
    CompView { units: ids, activated_traits: acts, total_traits_activated: acts.len() as int }
}

/// The number of trait-name slots a list of champions carries in all.
pub open spec fn champs_weight(s: Seq<ChampionView>) -> nat
    decreases s.len(),
{
    if s.len() == 0 {
        0
    } else {
        champs_weight(s.drop_last()) + s.last().traits.len()
    }
}

/// Bounds that keep every count and score of a greedy run inside `usize`:
/// machine limits, not part of the algorithm.
pub open spec fn greedy_inputs_ok(
    pool: Seq<ChampionView>,
    req_ids: Seq<Seq<char>>,
    bonuses: Seq<(Seq<char>, u32)>,
    traits: Seq<TraitView>,
) -> bool {
    &&& bonus_weight(bonuses) + ids_weight(pool, req_ids) + champs_weight(pool) <= usize::MAX
    &&& 4 * traits.len() + 2 * champs_weight(pool) <= usize::MAX
}

proof fn lemma_champs_weight_member(s: Seq<ChampionView>, i: int)
    requires
        0 <= i < s.len(),
    ensures
        s[i].traits.len() <= champs_weight(s),
    decreases s.len(),
{
    if i < s.len() - 1 {
        lemma_champs_weight_member(s.drop_last(), i);
    }
}

proof fn lemma_champs_weight_remove(s: Seq<ChampionView>, i: int)
    requires
        0 <= i < s.len(),
    ensures
        champs_weight(s.remove(i)) == champs_weight(s) - s[i].traits.len(),
    decreases s.len(),
{
    if i == s.len() - 1 {
        assert(s.remove(i) =~= s.drop_last());
    } else {
        assert(s.remove(i).drop_last() =~= s.drop_last().remove(i));
        assert(s.remove(i).last() == s.last());
        lemma_champs_weight_remove(s.drop_last(), i);
    }
}

proof fn lemma_seed_team_weight(pool: Seq<ChampionView>, ids: Seq<Seq<char>>)
    ensures
        ids_weight(pool, team_ids(spec_seed_team(pool, ids))) <= ids_weight(pool, ids),
    decreases ids.len(),
{
    if ids.len() > 0 {
        lemma_seed_team_weight(pool, ids.drop_last());
        lemma_lookup_from_id(pool, 0, ids.last());
        match spec_lookup(pool, ids.last()) {
            Some(c) => {
                assert(team_ids(spec_seed_team(pool, ids)) =~= team_ids(
                    spec_seed_team(pool, ids.drop_last()),
                ).push(c.id));
                assert(team_ids(spec_seed_team(pool, ids)).drop_last() =~= team_ids(
                    spec_seed_team(pool, ids.drop_last()),
                ));
            },
            None => {
                assert(spec_seed_team(pool, ids) =~= spec_seed_team(pool, ids.drop_last()));
            },
        }
    }
}

proof fn lemma_avail_subset(pool: Seq<ChampionView>, req: Seq<Seq<char>>)
    ensures
        forall|i: int|
            0 <= i < spec_avail(pool, req).len() ==> pool.contains(
                #[trigger] spec_avail(pool, req)[i],
            ),
        champs_weight(spec_avail(pool, req)) <= champs_weight(pool),
    decreases pool.len(),
{
    if pool.len() > 0 {
        lemma_avail_subset(pool.drop_last(), req);
        if spec_contains_name(req, pool.last().id) {
            assert(spec_avail(pool, req) =~= spec_avail(pool.drop_last(), req));
        } else {
            assert(spec_avail(pool, req) =~= spec_avail(pool.drop_last(), req).push(pool.last()));
            assert(spec_avail(pool, req).drop_last() =~= spec_avail(pool.drop_last(), req));
        }
        assert forall|i: int| 0 <= i < spec_avail(pool, req).len() implies pool.contains(
            #[trigger] spec_avail(pool, req)[i],
        ) by {
            let prev = spec_avail(pool.drop_last(), req);
            if i < prev.len() {
                assert(prev[i] == spec_avail(pool, req)[i]);
                let j = choose|j: int| 0 <= j < pool.drop_last().len() && pool.drop_last()[j] == prev[i];
                assert(pool[j] == prev[i]);
            } else {
                assert(spec_avail(pool, req)[i] == pool.last());
                assert(pool[pool.len() - 1] == pool.last());
            }
        }
    }
}

/// Pushing one more identifier adds exactly that unit's contribution.
proof fn lemma_ids_weight_push(pool: Seq<ChampionView>, ids: Seq<Seq<char>>, id: Seq<char>)
    ensures
        ids_weight(pool, ids.push(id)) == ids_weight(pool, ids) + (match spec_lookup(pool, id) {
            Some(c) => c.traits.len(),
            None => 0nat,
        }),
{
    assert(ids.push(id).drop_last() =~= ids);
    assert(ids.push(id).last() == id);
}

/// The combined trait-slot weight of the catalog members whose identifier
/// is listed in `ids`.
pub open spec fn sel_weight(pool: Seq<ChampionView>, ids: Seq<Seq<char>>) -> nat
    decreases pool.len(),
{
    if pool.len() == 0 {
        0
    } else {
        sel_weight(pool.drop_last(), ids) + (if spec_contains_name(ids, pool.last().id) {
            pool.last().traits.len()
        } else {
            0nat
        })
    }
}

/// The combined trait-slot weight of the catalog members carrying exactly
/// the identifier `id`.
pub open spec fn name_weight(pool: Seq<ChampionView>, id: Seq<char>) -> nat
    decreases pool.len(),
{
    if pool.len() == 0 {
        0
    } else {
        name_weight(pool.drop_last(), id) + (if pool.last().id == id {
            pool.last().traits.len()
        } else {
            0nat
        })
    }
}

proof fn lemma_sel_weight_le(pool: Seq<ChampionView>, ids: Seq<Seq<char>>)
    ensures
        sel_weight(pool, ids) <= champs_weight(pool),
    decreases pool.len(),
{
    if pool.len() > 0 {
        lemma_sel_weight_le(pool.drop_last(), ids);
    }
}

proof fn lemma_sel_weight_split(pool: Seq<ChampionView>, ids: Seq<Seq<char>>, id: Seq<char>)
    requires
        !spec_contains_name(ids, id),
    ensures
        sel_weight(pool, ids.push(id)) == sel_weight(pool, ids) + name_weight(pool, id),
    decreases pool.len(),
{
    if pool.len() > 0 {
        lemma_sel_weight_split(pool.drop_last(), ids, id);
        let m = pool.last();
        if m.id == id {
            assert(ids.push(id)[ids.len() as int] == id);
            assert(spec_contains_name(ids.push(id), m.id));
            if spec_contains_name(ids, m.id) {
                assert(false);
            }
        } else {
            if spec_contains_name(ids, m.id) {
                let w = choose|w: int| 0 <= w < ids.len() && ids[w] == m.id;
                assert(ids.push(id)[w] == m.id);
            } else if spec_contains_name(ids.push(id), m.id) {
                let w = choose|w: int| 0 <= w < ids.push(id).len() && ids.push(id)[w] == m.id;
                assert(w < ids.len());
                assert(ids[w] == m.id);
                assert(false);
            }
        }
    }
}

proof fn lemma_name_weight_member(pool: Seq<ChampionView>, k: int)
    requires
        0 <= k < pool.len(),
    ensures
        name_weight(pool, pool[k].id) >= pool[k].traits.len(),
    decreases pool.len(),
{
    if k < pool.len() - 1 {
        lemma_name_weight_member(pool.drop_last(), k);
    }
}

/// Identifiers without repeats never weigh more than the whole catalog: a
/// team of distinct identifiers resolves to distinct catalog members.
pub proof fn lemma_ids_weight_distinct(pool: Seq<ChampionView>, ids: Seq<Seq<char>>)
    requires
        forall|i: int, j: int| 0 <= i < j < ids.len() ==> ids[i] != ids[j],
    ensures
        ids_weight(pool, ids) <= sel_weight(pool, ids),
        ids_weight(pool, ids) <= champs_weight(pool),
    decreases ids.len(),
{
    lemma_sel_weight_le(pool, ids);
    if ids.len() > 0 {
        let s = ids.drop_last();
        let id = ids.last();
        assert(ids =~= s.push(id));
        assert(!spec_contains_name(s, id)) by {
            if spec_contains_name(s, id) {
                let w = choose|w: int| 0 <= w < s.len() && s[w] == id;
                assert(ids[w] == ids[ids.len() - 1]);
            }
        }
        lemma_ids_weight_distinct(pool, s);
        lemma_sel_weight_split(pool, s, id);
        crate::champions::lemma_lookup_from_id(pool, 0, id);
        match spec_lookup(pool, id) {
            Some(c) => {
                let k = choose|k: int| 0 <= k < pool.len() && pool[k] == c;
                lemma_name_weight_member(pool, k);
            },
            None => {},
        }
        assert(sel_weight(pool, s.push(id)) == sel_weight(pool, ids));
    }
}

/// Weights add up over concatenated identifier lists.
pub proof fn lemma_ids_weight_concat(pool: Seq<ChampionView>, a: Seq<Seq<char>>, b: Seq<Seq<char>>)
    ensures
        ids_weight(pool, a + b) == ids_weight(pool, a) + ids_weight(pool, b),
    decreases b.len(),
{
    if b.len() == 0 {
        assert(a + b =~= a);
    } else {
        lemma_ids_weight_concat(pool, a, b.drop_last());
        assert((a + b).drop_last() =~= a + b.drop_last());
        assert((a + b).last() == b.last());
    }
}

/// Sub-catalog lookups agree with the full catalog: what a filtered
/// catalog resolves, the full one resolves to the same champion.
pub proof fn lemma_lookup_sub(pool: Seq<ChampionView>, sub: Seq<ChampionView>, id: Seq<char>)
    requires
        pool_wf(pool),
        forall|k: int| 0 <= k < sub.len() ==> pool.contains(#[trigger] sub[k]),
    ensures
        spec_lookup(sub, id) is Some ==> spec_lookup(pool, id) == spec_lookup(sub, id),
{
    crate::champions::lemma_lookup_from_id(sub, 0, id);
    if spec_lookup(sub, id) is Some {
        let c = spec_lookup(sub, id)->Some_0;
        let k = choose|k: int| 0 <= k < sub.len() && sub[k] == c;
        let m = choose|m: int| 0 <= m < pool.len() && pool[m] == c;
        lemma_lookup_member(pool, m);
    }
}

/// Identifiers weigh no more against a filtered catalog than against the
/// full one.
pub proof fn lemma_ids_weight_sub(
    pool: Seq<ChampionView>,
    sub: Seq<ChampionView>,
    ids: Seq<Seq<char>>,
)
    requires
        pool_wf(pool),
        forall|k: int| 0 <= k < sub.len() ==> pool.contains(#[trigger] sub[k]),
    ensures
        ids_weight(sub, ids) <= ids_weight(pool, ids),
    decreases ids.len(),
{
    if ids.len() > 0 {
        lemma_ids_weight_sub(pool, sub, ids.drop_last());
        lemma_lookup_sub(pool, sub, ids.last());
    }
}

/// Identifiers that the filtered catalog excludes weigh nothing there.
pub proof fn lemma_ids_weight_excluded(sub: Seq<ChampionView>, ids: Seq<Seq<char>>)
    requires
        forall|k: int|
            0 <= k < sub.len() ==> !spec_contains_name(ids, (#[trigger] sub[k]).id),
    ensures
        ids_weight(sub, ids) == 0,
    decreases ids.len(),
{
    if ids.len() > 0 {
        assert forall|k: int|
            0 <= k < sub.len() implies !spec_contains_name(
            ids.drop_last(),
            (#[trigger] sub[k]).id,
        ) by {
            if spec_contains_name(ids.drop_last(), sub[k].id) {
                let w = choose|w: int| 0 <= w < ids.drop_last().len() && ids.drop_last()[w] == sub[k].id;
                assert(ids[w] == sub[k].id);
            }
        }
        lemma_ids_weight_excluded(sub, ids.drop_last());
        crate::champions::lemma_lookup_from_id(sub, 0, ids.last());
        if spec_lookup(sub, ids.last()) is Some {
            let c = spec_lookup(sub, ids.last())->Some_0;
            let k = choose|k: int| 0 <= k < sub.len() && sub[k] == c;
            assert(ids[ids.len() - 1] == c.id);
        }
    }
}

/// The candidate pool keeps only catalog members, keeps the catalog
/// well-formed, never exceeds its weight, and holds no required
/// identifier.
pub proof fn lemma_avail_props(pool: Seq<ChampionView>, req: Seq<Seq<char>>)
    requires
        pool_wf(pool),
    ensures
        forall|i: int|
            0 <= i < spec_avail(pool, req).len() ==> pool.contains(
                #[trigger] spec_avail(pool, req)[i],
            ),
        champs_weight(spec_avail(pool, req)) <= champs_weight(pool),
        pool_wf(spec_avail(pool, req)),
        forall|i: int|
            0 <= i < spec_avail(pool, req).len() ==> !spec_contains_name(
                req,
                (#[trigger] spec_avail(pool, req)[i]).id,
            ),
    decreases pool.len(),
{
    lemma_avail_subset(pool, req);
    if pool.len() > 0 {
        assert(pool_wf(pool.drop_last()));
        lemma_avail_props(pool.drop_last(), req);
        let prev = spec_avail(pool.drop_last(), req);
        if spec_contains_name(req, pool.last().id) {
            assert(spec_avail(pool, req) =~= prev);
        } else {
            assert(spec_avail(pool, req) =~= prev.push(pool.last()));
            assert forall|i: int, j: int|
                0 <= i < j < spec_avail(pool, req).len() implies spec_avail(pool, req)[i].id
                != spec_avail(pool, req)[j].id by {
                if j < prev.len() {
                    assert(prev[i].id != prev[j].id);
                } else {
                    assert(spec_avail(pool, req)[j] == pool.last());
                    assert(pool.contains(prev[i]));
                    let m = choose|m: int| 0 <= m < pool.drop_last().len() && pool.drop_last()[m] == prev[i];
                    assert(pool[m] == prev[i]);
                    assert(pool[m].id != pool[pool.len() - 1].id);
                }
            }
        }
    }
}

/// A seed list of identifiers that all fail to resolve seeds an empty
/// team.
pub proof fn lemma_seed_empty(pool: Seq<ChampionView>, ids: Seq<Seq<char>>)
    requires
        forall|j: int| 0 <= j < ids.len() ==> spec_lookup(pool, #[trigger] ids[j]) is None,
    ensures
        spec_seed_team(pool, ids) == Seq::<ChampionView>::empty(),
    decreases ids.len(),
{
    if ids.len() > 0 {
        lemma_seed_empty(pool, ids.drop_last());
        assert(spec_seed_team(pool, ids) =~= Seq::<ChampionView>::empty());
    }
}

/// The seeded team's identifiers are drawn from the requested ones, each
/// at most once when the requests are distinct.
pub proof fn lemma_seed_ids(pool: Seq<ChampionView>, ids: Seq<Seq<char>>)
    requires
        forall|i: int, j: int| 0 <= i < j < ids.len() ==> ids[i] != ids[j],
    ensures
        forall|x: Seq<char>|
            #[trigger] team_ids(spec_seed_team(pool, ids)).contains(x) ==> ids.contains(x),
        forall|i: int, j: int|
            0 <= i < j < team_ids(spec_seed_team(pool, ids)).len() ==> team_ids(
                spec_seed_team(pool, ids),
            )[i] != team_ids(spec_seed_team(pool, ids))[j],
    decreases ids.len(),
{
    if ids.len() > 0 {
        let s = ids.drop_last();
        let id = ids.last();
        lemma_seed_ids(pool, s);
        crate::champions::lemma_lookup_from_id(pool, 0, id);
        let prev = spec_seed_team(pool, s);
        match spec_lookup(pool, id) {
            Some(c) => {
                assert(spec_seed_team(pool, ids) =~= prev.push(c));
            },
            None => {
                assert(spec_seed_team(pool, ids) =~= prev);
            },
        }
        assert forall|x: Seq<char>|
            team_ids(spec_seed_team(pool, ids)).contains(x) implies ids.contains(x) by {
            let w = choose|w: int|
                0 <= w < team_ids(spec_seed_team(pool, ids)).len() && team_ids(
                    spec_seed_team(pool, ids),
                )[w] == x;
            if w < prev.len() {
                assert(team_ids(prev)[w] == x);
                assert(team_ids(prev).contains(x));
                assert(s.contains(x));
                let v = choose|v: int| 0 <= v < s.len() && s[v] == x;
                assert(ids[v] == x);
            } else {
                assert(spec_lookup(pool, id) is Some);
                assert(x == spec_lookup(pool, id)->Some_0.id);
                assert(ids[ids.len() - 1] == x);
            }
        }
        match spec_lookup(pool, id) {
            Some(c) => {
                assert(spec_seed_team(pool, ids) =~= prev.push(c));
                assert forall|i: int, j: int|
                    0 <= i < j < team_ids(spec_seed_team(pool, ids)).len() implies team_ids(
                    spec_seed_team(pool, ids),
                )[i] != team_ids(spec_seed_team(pool, ids))[j] by {
                    if j < prev.len() {
                        assert(team_ids(prev)[i] != team_ids(prev)[j]);
                    } else {
                        assert(team_ids(spec_seed_team(pool, ids))[j] == c.id);
                        assert(c.id == id);
                        assert(team_ids(prev)[i] == team_ids(spec_seed_team(pool, ids))[i]);
                        assert(team_ids(prev).contains(team_ids(prev)[i]));
                        let v = choose|v: int| 0 <= v < s.len() && s[v] == team_ids(prev)[i];
                        assert(ids[v] == team_ids(prev)[i]);
                        assert(ids[v] != ids[ids.len() - 1]);
                    }
                }
            },
            None => {
                assert(spec_seed_team(pool, ids) =~= prev);
            },
        }
    }
}

/// The greedy builder never books a unit twice: starting from a team and a
/// pool whose identifiers are jointly distinct, the finished team's
/// identifiers are distinct and drawn from that joint list.
pub proof fn lemma_greedy_team_distinct(
    pool: Seq<ChampionView>,
    traits: Seq<TraitView>,
    bonuses: Seq<(Seq<char>, u32)>,
    team: Seq<ChampionView>,
    avail: Seq<ChampionView>,
    team_size: int,
)
    requires
        forall|i: int, j: int|
            0 <= i < j < (team_ids(team) + team_ids(avail)).len() ==> (team_ids(team) + team_ids(
                avail,
            ))[i] != (team_ids(team) + team_ids(avail))[j],
    ensures
        forall|i: int, j: int|
            0 <= i < j < team_ids(
                spec_greedy_team(pool, traits, bonuses, team, avail, team_size),
            ).len() ==> team_ids(spec_greedy_team(pool, traits, bonuses, team, avail, team_size))[i]
                != team_ids(spec_greedy_team(pool, traits, bonuses, team, avail, team_size))[j],
        forall|x: Seq<char>|
            #[trigger] team_ids(spec_greedy_team(pool, traits, bonuses, team, avail, team_size)).contains(
                x,
            ) ==> (team_ids(team) + team_ids(avail)).contains(x),
    decreases avail.len(),
{
    let all = team_ids(team) + team_ids(avail);
    if team.len() >= team_size || avail.len() == 0 {
        assert forall|x: Seq<char>|
            team_ids(spec_greedy_team(pool, traits, bonuses, team, avail, team_size)).contains(
            x,
        ) implies all.contains(x) by {
            let w = choose|w: int|
                0 <= w < team_ids(team).len() && team_ids(team)[w] == x;
            assert(all[w] == x);
        }
        assert forall|i: int, j: int|
            0 <= i < j < team_ids(
                spec_greedy_team(pool, traits, bonuses, team, avail, team_size),
            ).len() implies team_ids(spec_greedy_team(pool, traits, bonuses, team, avail, team_size))[i]
            != team_ids(spec_greedy_team(pool, traits, bonuses, team, avail, team_size))[j] by {
            assert(all[i] == team_ids(team)[i] && all[j] == team_ids(team)[j]);
        }
    } else {
        let scores = spec_scores(pool, traits, bonuses, team, avail);
        lemma_best_pick_range(scores);
        let pick0 = spec_best_pick(scores).1;
        let pick = if 0 <= pick0 < avail.len() {
            pick0
        } else {
            0
        };
        let t2 = team.push(avail[pick]);
        let a2 = avail.remove(pick);
        let all2 = team_ids(t2) + team_ids(a2);
        // Each position of the new joint list maps to a distinct position of
        // the old one.
        let f = |q: int|
            if q < team.len() {
                q
            } else if q == team.len() {
                team.len() + pick
            } else if q <= team.len() + pick {
                q - 1
            } else {
                q
            };
        assert forall|q: int| 0 <= q < all2.len() implies all2[q] == all[f(q)] && 0 <= f(q)
            < all.len() by {
            if q < team.len() {
                assert(all2[q] == team_ids(team)[q]);
            } else if q == team.len() {
                assert(all2[q] == team_ids(t2)[team.len() as int]);
                assert(all2[q] == avail[pick].id);
                assert(all[team.len() + pick] == team_ids(avail)[pick]);
            } else if q <= team.len() + pick {
                assert(all2[q] == team_ids(a2)[q - team.len() - 1]);
                assert(team_ids(a2)[q - team.len() - 1] == avail[q - team.len() - 1].id);
                assert(all[q - 1] == team_ids(avail)[q - 1 - team.len()]);
            } else {
                assert(all2[q] == team_ids(a2)[q - team.len() - 1]);
                assert(team_ids(a2)[q - team.len() - 1] == avail[q - team.len()].id);
                assert(all[q] == team_ids(avail)[q - team.len()]);
            }
        }
        assert forall|i: int, j: int| 0 <= i < j < all2.len() implies all2[i] != all2[j] by {
            assert(all2[i] == all[f(i)] && all2[j] == all[f(j)]);
            assert(f(i) != f(j));
        }
        lemma_greedy_team_distinct(pool, traits, bonuses, t2, a2, team_size);
        assert(spec_greedy_team(pool, traits, bonuses, team, avail, team_size)
            == spec_greedy_team(pool, traits, bonuses, t2, a2, team_size));
        assert forall|x: Seq<char>|
            team_ids(spec_greedy_team(pool, traits, bonuses, team, avail, team_size)).contains(
            x,
        ) implies all.contains(x) by {
            assert(all2.contains(x));
            let w = choose|w: int| 0 <= w < all2.len() && all2[w] == x;
            assert(all[f(w)] == x);
        }
    }
}

/// Clones a list of champions, keeping the exact contents.
pub(crate) fn clone_champs(v: &Vec<Champion>) -> (r: Vec<Champion>)
    ensures
        champs_view(r@) == champs_view(v@),
        r@.len() == v@.len(),
{
    let mut r: Vec<Champion> = Vec::new();
    let mut i: usize = 0;
    while i < v.len()
        invariant
            i <= v@.len(),
            r@.len() == i,
            forall|j: int| 0 <= j < i ==> r@[j]@ == v@[j]@,
        decreases v@.len() - i,
    {
        r.push(v[i].clone());
        i = i + 1;
    }
    proof {
        assert(champs_view(r@) =~= champs_view(v@));
    }
    r
}

/// The identifiers of the given team, in team order.
pub(crate) fn ids_of(team: &Vec<Champion>) -> (r: Vec<ChampionId>)
    ensures
        ids_view(r@) == team_ids(champs_view(team@)),
        r@.len() == team@.len(),
{
    let mut r: Vec<ChampionId> = Vec::new();
    let mut i: usize = 0;
    while i < team.len()
        invariant
            i <= team@.len(),
            r@.len() == i,
            forall|j: int| 0 <= j < i ==> r@[j]@ == team@[j].id@,
        decreases team@.len() - i,
    {
        r.push(team[i].id.clone());
        i = i + 1;
    }
    proof {
        assert(ids_view(r@) =~= team_ids(champs_view(team@)));
    }
    r
}

/// Builds a team greedily: seed it with the required identifiers (resolved
/// against the catalog, unresolvable ones dropped), then, until the target
/// size is reached or the pool is exhausted, score every remaining
/// candidate against the team as it stands and commit the first candidate
/// with the strictly highest combined score.
///
/// The builder never fails: a team smaller than requested is still
/// returned. Enumeration order is the catalog order, so results are
/// deterministic for a fixed catalog.
pub fn find_optimal_comp_greedy(
    champion_pool: &ChampionPool,
    required_champion_ids: &Vec<ChampionId>,
    team_size: usize,
    trait_bonuses: &Vec<(String, u32)>,
    traits: &Vec<Trait>,
) -> (r: Option<OptimalComp>)
    requires
        pool_wf(champion_pool@),
        greedy_inputs_ok(
            champion_pool@,
            ids_view(required_champion_ids@),
            bonuses_view(trait_bonuses@),
            traits_view(traits@),
        ),
    ensures
        r is Some,
        r->Some_0@ == spec_greedy_comp(
            champion_pool@,
            traits_view(traits@),
            bonuses_view(trait_bonuses@),
            ids_view(required_champion_ids@),
            team_size as int,
        ),
{
    let ghost poolv = champion_pool@;
    let ghost traitsv = traits_view(traits@);
    let ghost bonusesv = bonuses_view(trait_bonuses@);
    let ghost reqv = ids_view(required_champion_ids@);

    // Seed the team with the required champions that resolve.
    let mut team: Vec<Champion> = Vec::new();
    let mut i: usize = 0;
    while i < required_champion_ids.len()
        invariant
            i <= reqv.len(),
            poolv == champion_pool@,
            reqv == ids_view(required_champion_ids@),
            champs_view(team@) == spec_seed_team(poolv, reqv.take(i as int)),
        decreases reqv.len() - i,
    {
        proof {
            assert(reqv.take(i + 1).drop_last() =~= reqv.take(i as int));
            assert(reqv.take(i + 1).last() == reqv[i as int]);
        }
        match champion_pool.by_id(&required_champion_ids[i]) {
            Some(c) => {
                let c2 = c.clone();
                team.push(c2);
                proof {
                    assert(champs_view(team@) =~= spec_seed_team(poolv, reqv.take(i + 1)));
                }
            },
            None => {},
        }
        i = i + 1;
    }
    proof {
        assert(reqv.take(reqv.len() as int) =~= reqv);
    }

    // The candidate pool: everything not required, in catalog order.
    let mut available: Vec<Champion> = Vec::new();
    let mut p: usize = 0;
    while p < champion_pool.all.len()
        invariant
            p <= poolv.len(),
            poolv == champion_pool@,
            reqv == ids_view(required_champion_ids@),
            champs_view(available@) == spec_avail(poolv.take(p as int), reqv),
        decreases poolv.len() - p,
    {
        proof {
            assert(poolv.take(p + 1).drop_last() =~= poolv.take(p as int));
            assert(poolv.take(p + 1).last() == poolv[p as int]);
        }
        if !crate::champions::ids_contain(required_champion_ids, &champion_pool.all[p].id) {
            available.push(champion_pool.all[p].clone());
            proof {
                assert(champs_view(available@) =~= spec_avail(poolv.take(p + 1), reqv));
            }
        }
        p = p + 1;
    }
    proof {
        assert(poolv.take(poolv.len() as int) =~= poolv);
    }

    let ghost seedv = champs_view(team@);
    let ghost avail0 = champs_view(available@);
    proof {
        lemma_seed_team_weight(poolv, reqv);
        lemma_avail_subset(poolv, reqv);
    }

    while team.len() < team_size && available.len() > 0
        invariant
            poolv == champion_pool@,
            traitsv == traits_view(traits@),
            bonusesv == bonuses_view(trait_bonuses@),
            pool_wf(poolv),
            spec_greedy_team(
                poolv,
                traitsv,
                bonusesv,
                champs_view(team@),
                champs_view(available@),
                team_size as int,
            ) == spec_greedy_team(poolv, traitsv, bonusesv, seedv, avail0, team_size as int),
            bonus_weight(bonusesv) + ids_weight(poolv, team_ids(champs_view(team@)))
                + champs_weight(champs_view(available@)) <= usize::MAX,
            forall|k: int|
                0 <= k < champs_view(available@).len() ==> poolv.contains(
                    #[trigger] champs_view(available@)[k],
                ),
            4 * traitsv.len() + 2 * champs_weight(champs_view(available@)) <= usize::MAX,
        decreases available@.len(),
    {
        let ghost teamv = champs_view(team@);
        let ghost availv = champs_view(available@);
        let ghost scores = spec_scores(poolv, traitsv, bonusesv, teamv, availv);

        let current_ids = ids_of(&team);
        proof {
            lemma_activations_len(poolv, team_ids(teamv), traitsv, bonusesv);
        }
        let current_acts = calculate_trait_activations(
            champion_pool,
            &current_ids,
            traits,
            trait_bonuses,
        );
        proof {
            assert(ids_view(current_ids@) == team_ids(teamv));
            assert(current_acts@.map_values(|a: TraitActivation| a@).len()
                == current_acts@.len());
        }

        let mut best_score: usize = 0;
        let mut best_idx: usize = 0;
        let mut idx: usize = 0;
        while idx < available.len()
            invariant
                idx <= availv.len(),
                poolv == champion_pool@,
                traitsv == traits_view(traits@),
                bonusesv == bonuses_view(trait_bonuses@),
                pool_wf(poolv),
                teamv == champs_view(team@),
                availv == champs_view(available@),
                scores == spec_scores(poolv, traitsv, bonusesv, teamv, availv),
                current_acts@.map_values(|a: TraitActivation| a@) == spec_activations(
                    poolv,
                    team_ids(teamv),
                    traitsv,
                    bonusesv,
                ),
                current_acts@.len() == spec_activations(
                    poolv,
                    team_ids(teamv),
                    traitsv,
                    bonusesv,
                ).len(),
                best_score == spec_best_pick(scores.take(idx as int)).0,
                best_idx == spec_best_pick(scores.take(idx as int)).1,
                bonus_weight(bonusesv) + ids_weight(poolv, team_ids(teamv)) + champs_weight(availv)
                    <= usize::MAX,
                forall|k: int|
                    0 <= k < availv.len() ==> poolv.contains(#[trigger] availv[k]),
                4 * traitsv.len() + 2 * champs_weight(availv) <= usize::MAX,
            decreases availv.len() - idx,
        {
            proof {
                lemma_champs_weight_member(availv, idx as int);
                lemma_activations_len(poolv, team_ids(teamv), traitsv, bonusesv);
                assert(availv[idx as int] == available@[idx as int]@);
                assert(current_acts@.map_values(|a: TraitActivation| a@).len()
                    == current_acts@.len());
                assert(current_acts@.len() == spec_activations(
                    poolv,
                    team_ids(teamv),
                    traitsv,
                    bonusesv,
                ).len());
            }
            let score = calculate_combined_score(&team, &current_acts, &available[idx], traits);
            proof {
                assert(score == spec_candidate_score(
                    poolv,
                    traitsv,
                    bonusesv,
                    teamv,
                    availv[idx as int],
                ));
                assert(scores.take(idx + 1).drop_last() =~= scores.take(idx as int));
                assert(scores.take(idx + 1).last() == scores[idx as int]);
                assert(scores[idx as int] == score);
            }
            if score > best_score {
                best_score = score;
                best_idx = idx;
            }
            idx = idx + 1;
        }
        proof {
            assert(scores.take(scores.len() as int) =~= scores);
            lemma_best_pick_range(scores);
        }

        let chosen = available.remove(best_idx);
        team.push(chosen);
        proof {
            let pick = best_idx as int;
            assert(champs_view(team@) =~= teamv.push(availv[pick]));
            assert(champs_view(available@) =~= availv.remove(pick));
            // The continuation result is unchanged by taking one step.
            assert(spec_greedy_team(poolv, traitsv, bonusesv, teamv, availv, team_size as int)
                == spec_greedy_team(
                poolv,
                traitsv,
                bonusesv,
                teamv.push(availv[pick]),
                availv.remove(pick),
                team_size as int,
            ));
            // Weights: the chosen champion moves from the pool to the team.
            assert(team_ids(teamv.push(availv[pick])) =~= team_ids(teamv).push(availv[pick].id));
            lemma_ids_weight_push(poolv, team_ids(teamv), availv[pick].id);
            let c = availv[pick];
            let j = choose|j: int| 0 <= j < poolv.len() && poolv[j] == c;
            lemma_lookup_member(poolv, j);
            lemma_champs_weight_remove(availv, pick);
            assert forall|k: int|
                0 <= k < availv.remove(pick).len() implies poolv.contains(
                #[trigger] availv.remove(pick)[k],
            ) by {
                if k < pick {
                    assert(availv.remove(pick)[k] == availv[k]);
                } else {
                    assert(availv.remove(pick)[k] == availv[k + 1]);
                }
            }
        }
    }

    let final_team_ids = ids_of(&team);
    let activations = calculate_trait_activations(
        champion_pool,
        &final_team_ids,
        traits,
        trait_bonuses,
    );
    let total = activations.len();
    let r = OptimalComp {
        units: final_team_ids,
        activated_traits: activations,
        total_traits_activated: total,
    };
    proof {
        assert(r@ == spec_greedy_comp(poolv, traitsv, bonusesv, reqv, team_size as int));
    }
    Some(r)
}

} // verus!
