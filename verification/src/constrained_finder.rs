use vstd::prelude::*;
use crate::champions::{
    Champion, ChampionId, ChampionPool, ChampionView, CompView, OptimalComp, Trait,
    TraitActivation, TraitView, bonuses_view, champs_view, ids_view, pool_wf, spec_contains_name,
    spec_lookup, traits_view,
};
use crate::greedy::{
    champs_weight, spec_avail, spec_greedy_comp, spec_seed_team, team_ids,
};
use crate::state::Context;
use crate::trait_activation::{bonus_weight, ids_weight, spec_activations};

verus! {

/// View of a list of (trait name, required count) requirements.
pub open spec fn reqs_view(s: Seq<(String, usize)>) -> Seq<(Seq<char>, int)> {
    s.map_values(|r: (String, usize)| (r.0@, r.1 as int))
}

/// The sum of the required counts from index `k` on.
pub open spec fn reqs_total_from(reqs: Seq<(Seq<char>, int)>, k: int) -> int
    decreases reqs.len() - k,
{
    if k < 0 || k >= reqs.len() {
        0
    } else {
        reqs[k].1 + reqs_total_from(reqs, k + 1)
    }
}

/// The sum of all required counts.
pub open spec fn reqs_total(reqs: Seq<(Seq<char>, int)>) -> int {
    reqs_total_from(reqs, 0)
}

/// The value of the first bonus entry naming `name`, or zero: the count a
/// requirement is offset by.
pub open spec fn spec_bonus_for_from(
    bonuses: Seq<(Seq<char>, u32)>,
    i: int,
    name: Seq<char>,
) -> nat
    decreases bonuses.len() - i,
{
    if i < 0 || i >= bonuses.len() {
        0
    } else if bonuses[i].0 == name {
        bonuses[i].1 as nat
    } else {
        spec_bonus_for_from(bonuses, i + 1, name)
    }
}

/// The bonus offset applied to a requirement for `name`.
pub open spec fn spec_bonus_for(bonuses: Seq<(Seq<char>, u32)>, name: Seq<char>) -> nat {
    spec_bonus_for_from(bonuses, 0, name)
}

/// How many units a requirement still draws from the roster once its bonus
/// is subtracted, saturating at zero.
pub open spec fn spec_actual_count(required: int, bonus: nat) -> int {
    if required - bonus >= 0 {
        required - bonus
    } else {
        0
    }
}

/// Bonus offset: a bonus of at least the required count leaves zero units
/// to draw from the roster.
pub proof fn lemma_bonus_offset(required: int, bonus: nat)
    ensures
        spec_actual_count(required, bonus) == if required >= bonus {
            required - bonus
        } else {
            0int
        },
        bonus >= required ==> spec_actual_count(required, bonus) == 0,
{
}

/// The cost-filtered candidate pool: every champion whose cost is within
/// `max_cost`, plus the core champions whatever they cost, in catalog
/// order.
pub open spec fn spec_cost_pool(
    pool: Seq<ChampionView>,
    max_cost: u32,
    core: Seq<Seq<char>>,
) -> Seq<ChampionView>
    decreases pool.len(),
{
    if pool.len() == 0 {
        Seq::empty()
    } else {
        spec_cost_pool(pool.drop_last(), max_cost, core) + (if pool.last().cost <= max_cost
            || spec_contains_name(core, pool.last().id) {
            seq![pool.last()]
        } else {
            Seq::empty()
        })
    }
}

/// The champions eligible for a requirement: cost-filtered, not core,
/// carrying the trait, within the cost cap.
pub open spec fn spec_eligible(
    filtered: Seq<ChampionView>,
    name: Seq<char>,
    max_cost: u32,
) -> Seq<ChampionView>
    decreases filtered.len(),
{
    if filtered.len() == 0 {
        Seq::empty()
    } else {
        spec_eligible(filtered.drop_last(), name, max_cost) + (if spec_contains_name(
            filtered.last().traits,
            name,
        ) && filtered.last().cost <= max_cost {
            seq![filtered.last()]
        } else {
            Seq::empty()
        })
    }
}

/// Every way to choose `k` champions out of `s` without reordering them:
/// the combinations in lexicographic order over the positions in `s`.
pub open spec fn spec_combos(s: Seq<ChampionView>, k: int) -> Seq<Seq<ChampionView>>
    decreases s.len(),
{
    if k <= 0 {
        seq![Seq::<ChampionView>::empty()]
    } else if s.len() < k {
        Seq::empty()
    } else {
        spec_combos(s.drop_first(), k - 1).map_values(|c: Seq<ChampionView>| seq![s[0]] + c)
            + spec_combos(s.drop_first(), k)
    }
}

/// One requirement's choice list concatenated onto every partial tuple:
/// choices vary slower than the partial tuples they prefix.
pub open spec fn spec_prod_first_from(
    combos: Seq<Seq<ChampionView>>,
    i: int,
    rests: Seq<Seq<ChampionView>>,
) -> Seq<Seq<ChampionView>>
    decreases combos.len() - i,
{
    if i < 0 || i >= combos.len() {
        Seq::empty()
    } else {
        rests.map_values(|r: Seq<ChampionView>| combos[i] + r) + spec_prod_first_from(
            combos,
            i + 1,
            rests,
        )
    }
}

/// The flattened cross product of the requirement choice lists from index
/// `k` on: one tuple per way of choosing one combination per requirement,
/// earlier requirements varying slowest.
pub open spec fn spec_product_from(lists: Seq<Seq<Seq<ChampionView>>>, k: int) -> Seq<
    Seq<ChampionView>,
>
    decreases lists.len() - k,
{
    if k < 0 || k >= lists.len() {
        seq![Seq::<ChampionView>::empty()]
    } else {
        spec_prod_first_from(lists[k], 0, spec_product_from(lists, k + 1))
    }
}

/// The flattened cross product of all requirement choice lists.
pub open spec fn spec_product(lists: Seq<Seq<Seq<ChampionView>>>) -> Seq<Seq<ChampionView>> {
    spec_product_from(lists, 0)
}

/// How many tuples the cross product holds from requirement `k` on: the
/// product of the choice-list lengths.
#[verifier::opaque]
pub open spec fn prod_len_from(lists: Seq<Seq<Seq<ChampionView>>>, k: int) -> int
    decreases lists.len() - k,
{
    if k < 0 || k >= lists.len() {
        1
    } else {
        lists[k].len() * prod_len_from(lists, k + 1)
    }
}

/// The flattened required set an index vector selects, one chosen
/// combination per requirement from `k` on.
pub open spec fn flatten_from(
    lists: Seq<Seq<Seq<ChampionView>>>,
    idx: Seq<int>,
    k: int,
) -> Seq<ChampionView>
    decreases lists.len() - k,
{
    if k < 0 || k >= lists.len() {
        Seq::empty()
    } else {
        lists[k][idx[k]] + flatten_from(lists, idx, k + 1)
    }
}

/// The position of an index vector in enumeration order from `k` on:
/// earlier requirements vary slowest.
#[verifier::opaque]
pub open spec fn mixed_pos(lists: Seq<Seq<Seq<ChampionView>>>, idx: Seq<int>, k: int) -> int
    decreases lists.len() - k,
{
    if k < 0 || k >= lists.len() {
        0
    } else {
        idx[k] * prod_len_from(lists, k + 1) + mixed_pos(lists, idx, k + 1)
    }
}

proof fn lemma_prod_first_len(
    combos: Seq<Seq<ChampionView>>,
    i: int,
    rests: Seq<Seq<ChampionView>>,
)
    requires
        0 <= i <= combos.len(),
    ensures
        spec_prod_first_from(combos, i, rests).len() == (combos.len() - i) * rests.len(),
    decreases combos.len() - i,
{
    if i == combos.len() {
        assert((combos.len() - i) * rests.len() == 0) by (nonlinear_arith)
            requires
                combos.len() - i == 0,
        ;
    } else {
        lemma_prod_first_len(combos, i + 1, rests);
        assert((combos.len() - i) * rests.len() == rests.len() + (combos.len() - i - 1)
            * rests.len()) by (nonlinear_arith);
    }
}

/// The cross product holds exactly the product of the choice-list
/// lengths.
pub proof fn lemma_product_len(lists: Seq<Seq<Seq<ChampionView>>>, k: int)
    requires
        0 <= k <= lists.len(),
    ensures
        spec_product_from(lists, k).len() == prod_len_from(lists, k),
        prod_len_from(lists, k) >= 0,
    decreases lists.len() - k,
{
    reveal(prod_len_from);
    if k < lists.len() {
        lemma_product_len(lists, k + 1);
        lemma_prod_first_len(lists[k], 0, spec_product_from(lists, k + 1));
        assert(lists[k].len() * prod_len_from(lists, k + 1) >= 0) by (nonlinear_arith)
            requires
                prod_len_from(lists, k + 1) >= 0,
        ;
    }
}

proof fn lemma_prod_first_index(
    combos: Seq<Seq<ChampionView>>,
    i: int,
    rests: Seq<Seq<ChampionView>>,
    a: int,
    b: int,
)
    requires
        0 <= i <= a < combos.len(),
        0 <= b < rests.len(),
    ensures
        0 <= (a - i) * rests.len() + b < (combos.len() - i) * rests.len(),
        spec_prod_first_from(combos, i, rests)[(a - i) * rests.len() + b] == combos[a] + rests[b],
    decreases a - i,
{
    lemma_prod_first_len(combos, i, rests);
    let block = rests.map_values(|x: Seq<ChampionView>| combos[i] + x);
    if a == i {
        assert((a - i) * rests.len() + b == b) by (nonlinear_arith)
            requires
                a == i,
        ;
        assert(spec_prod_first_from(combos, i, rests)[b] == block[b]);
        assert(0 <= b < (combos.len() - i) * rests.len()) by (nonlinear_arith)
            requires
                0 <= b < rests.len(),
                combos.len() - i >= 1,
        ;
    } else {
        lemma_prod_first_index(combos, i + 1, rests, a, b);
        let x = (a - i) * rests.len() + b;
        assert(x - rests.len() == (a - i - 1) * rests.len() + b) by (nonlinear_arith)
            requires
                x == (a - i) * rests.len() + b,
        ;
        assert(x >= rests.len()) by (nonlinear_arith)
            requires
                a - i >= 1,
                b >= 0,
                x == (a - i) * rests.len() + b,
        ;
        assert(x < (combos.len() - i) * rests.len()) by (nonlinear_arith)
            requires
                x - rests.len() < (combos.len() - i - 1) * rests.len(),
        ;
        assert(spec_prod_first_from(combos, i, rests)[x] == spec_prod_first_from(
            combos,
            i + 1,
            rests,
        )[x - rests.len()]);
    }
}

/// An in-range index vector selects exactly the tuple at its enumeration
/// position.
pub proof fn lemma_product_index(lists: Seq<Seq<Seq<ChampionView>>>, idx: Seq<int>, k: int)
    requires
        0 <= k <= lists.len(),
        idx.len() == lists.len(),
        forall|q: int| k <= q < lists.len() ==> 0 <= #[trigger] idx[q] < lists[q].len(),
    ensures
        0 <= mixed_pos(lists, idx, k) < prod_len_from(lists, k),
        spec_product_from(lists, k)[mixed_pos(lists, idx, k)] == flatten_from(lists, idx, k),
    decreases lists.len() - k,
{
    reveal(prod_len_from);
    reveal(mixed_pos);
    if k == lists.len() {
        assert(spec_product_from(lists, k)[0] == Seq::<ChampionView>::empty());
    } else {
        lemma_product_index(lists, idx, k + 1);
        lemma_product_len(lists, k + 1);
        lemma_prod_first_index(
            lists[k],
            0,
            spec_product_from(lists, k + 1),
            idx[k],
            mixed_pos(lists, idx, k + 1),
        );
    }
}

proof fn lemma_mixed_zero(lists: Seq<Seq<Seq<ChampionView>>>, idx: Seq<int>, k: int)
    requires
        idx.len() == lists.len(),
        forall|q: int| k <= q < lists.len() ==> #[trigger] idx[q] == 0,
    ensures
        mixed_pos(lists, idx, k) == 0,
    decreases lists.len() - k,
{
    reveal(mixed_pos);
    if 0 <= k < lists.len() {
        lemma_mixed_zero(lists, idx, k + 1);
    }
}

proof fn lemma_mixed_all_max(lists: Seq<Seq<Seq<ChampionView>>>, idx: Seq<int>, k: int)
    requires
        0 <= k <= lists.len(),
        idx.len() == lists.len(),
        forall|q: int| k <= q < lists.len() ==> #[trigger] idx[q] == lists[q].len() - 1,
    ensures
        mixed_pos(lists, idx, k) == prod_len_from(lists, k) - 1,
    decreases lists.len() - k,
{
    reveal(prod_len_from);
    reveal(mixed_pos);
    if k < lists.len() {
        lemma_mixed_all_max(lists, idx, k + 1);
        assert((lists[k].len() - 1) * prod_len_from(lists, k + 1) + (prod_len_from(lists, k + 1)
            - 1) == lists[k].len() * prod_len_from(lists, k + 1) - 1) by (nonlinear_arith);
    }
}

/// Stepping the odometer — one requirement's choice up, every later one
/// rolled back to the start — advances the enumeration position by one.
proof fn lemma_mixed_increment(
    lists: Seq<Seq<Seq<ChampionView>>>,
    old_idx: Seq<int>,
    new_idx: Seq<int>,
    q: int,
    k: int,
)
    requires
        0 <= k <= q < lists.len(),
        old_idx.len() == lists.len(),
        new_idx.len() == lists.len(),
        forall|r: int| 0 <= r < q ==> #[trigger] new_idx[r] == old_idx[r],
        new_idx[q] == old_idx[q] + 1,
        forall|r: int| q < r < lists.len() ==> #[trigger] old_idx[r] == lists[r].len() - 1,
        forall|r: int| q < r < lists.len() ==> #[trigger] new_idx[r] == 0,
    ensures
        mixed_pos(lists, new_idx, k) == mixed_pos(lists, old_idx, k) + 1,
    decreases q - k,
{
    reveal(mixed_pos);
    if k == q {
        assert(forall|r: int| q + 1 <= r < lists.len() ==> #[trigger] new_idx[r] == 0);
        lemma_mixed_zero(lists, new_idx, q + 1);
        lemma_mixed_all_max(lists, old_idx, q + 1);
        assert((old_idx[q] + 1) * prod_len_from(lists, q + 1) == old_idx[q] * prod_len_from(
            lists,
            q + 1,
        ) + prod_len_from(lists, q + 1)) by (nonlinear_arith);
    } else {
        lemma_mixed_increment(lists, old_idx, new_idx, q, k + 1);
    }
}

/// Every choice list with at least as many eligible champions as picks
/// offers at least one combination.
pub proof fn lemma_combos_nonempty(s: Seq<ChampionView>, k: int)
    requires
        k <= s.len(),
    ensures
        spec_combos(s, k).len() >= 1,
    decreases s.len(),
{
    if k > 0 {
        lemma_combos_nonempty(s.drop_first(), k - 1);
    }
}

/// Whether a list of identifiers is free of repeats.
pub open spec fn distinct_ids(ids: Seq<Seq<char>>) -> bool {
    forall|i: int, j: int| 0 <= i < j < ids.len() ==> ids[i] != ids[j]
}

/// Every combination drawn from `s` has exactly `k` members, and each
/// member is one of `s`.
pub proof fn lemma_combos_members(s: Seq<ChampionView>, k: int)
    ensures
        forall|i: int|
            0 <= i < spec_combos(s, k).len() ==> (#[trigger] spec_combos(s, k)[i]).len() == (if k
                <= 0 {
                0int
            } else {
                k
            }),
        forall|i: int, j: int|
            0 <= i < spec_combos(s, k).len() && 0 <= j < spec_combos(s, k)[i].len() ==> s.contains(
                #[trigger] spec_combos(s, k)[i][j],
            ),
    decreases s.len(),
{
    if k <= 0 || s.len() < k {
    } else {
        let tail = s.drop_first();
        lemma_combos_members(tail, k - 1);
        lemma_combos_members(tail, k);
        let withf = spec_combos(tail, k - 1).map_values(|c: Seq<ChampionView>| seq![s[0]] + c);
        let without = spec_combos(tail, k);
        assert forall|i: int|
            0 <= i < spec_combos(s, k).len() implies (#[trigger] spec_combos(s, k)[i]).len()
            == k by {
            if i < withf.len() {
                assert(spec_combos(s, k)[i] == seq![s[0]] + spec_combos(tail, k - 1)[i]);
            } else {
                assert(spec_combos(s, k)[i] == without[i - withf.len()]);
            }
        }
        assert forall|i: int, j: int|
            0 <= i < spec_combos(s, k).len() && 0 <= j < spec_combos(s, k)[i].len() implies s
            .contains(#[trigger] spec_combos(s, k)[i][j]) by {
            if i < withf.len() {
                let c = spec_combos(tail, k - 1)[i];
                assert(spec_combos(s, k)[i] == seq![s[0]] + c);
                if j == 0 {
                    assert(spec_combos(s, k)[i][j] == s[0]);
                } else {
                    assert(spec_combos(s, k)[i][j] == c[j - 1]);
                    assert(tail.contains(c[j - 1]));
                    let m = choose|m: int| 0 <= m < tail.len() && tail[m] == c[j - 1];
                    assert(s[m + 1] == tail[m]);
                }
            } else {
                let c = without[i - withf.len()];
                assert(spec_combos(s, k)[i] == c);
                assert(tail.contains(c[j]));
                let m = choose|m: int| 0 <= m < tail.len() && tail[m] == c[j];
                assert(s[m + 1] == tail[m]);
            }
        }
    }
}

/// The cost filter keeps only catalog members, keeps the catalog
/// well-formed and never exceeds its weight.
pub proof fn lemma_cost_pool_props(pool: Seq<ChampionView>, max_cost: u32, core: Seq<Seq<char>>)
    requires
        pool_wf(pool),
    ensures
        forall|i: int|
            0 <= i < spec_cost_pool(pool, max_cost, core).len() ==> pool.contains(
                #[trigger] spec_cost_pool(pool, max_cost, core)[i],
            ),
        crate::greedy::champs_weight(spec_cost_pool(pool, max_cost, core))
            <= crate::greedy::champs_weight(pool),
        pool_wf(spec_cost_pool(pool, max_cost, core)),
    decreases pool.len(),
{
    if pool.len() > 0 {
        assert(pool_wf(pool.drop_last()));
        lemma_cost_pool_props(pool.drop_last(), max_cost, core);
        let prev = spec_cost_pool(pool.drop_last(), max_cost, core);
        if pool.last().cost <= max_cost || spec_contains_name(core, pool.last().id) {
            assert(spec_cost_pool(pool, max_cost, core) =~= prev.push(pool.last()));
            assert(spec_cost_pool(pool, max_cost, core).drop_last() =~= prev);
            assert forall|i: int|
                0 <= i < spec_cost_pool(pool, max_cost, core).len() implies pool.contains(
                #[trigger] spec_cost_pool(pool, max_cost, core)[i],
            ) by {
                if i < prev.len() {
                    assert(pool.drop_last().contains(prev[i]));
                    let m = choose|m: int|
                        0 <= m < pool.drop_last().len() && pool.drop_last()[m] == prev[i];
                    assert(pool[m] == prev[i]);
                } else {
                    assert(pool[pool.len() - 1] == pool.last());
                }
            }
            assert forall|i: int, j: int|
                0 <= i < j < spec_cost_pool(pool, max_cost, core).len() implies spec_cost_pool(
                pool,
                max_cost,
                core,
            )[i].id != spec_cost_pool(pool, max_cost, core)[j].id by {
                if j < prev.len() {
                    assert(prev[i].id != prev[j].id);
                } else {
                    assert(pool.drop_last().contains(prev[i]));
                    let m = choose|m: int|
                        0 <= m < pool.drop_last().len() && pool.drop_last()[m] == prev[i];
                    assert(pool[m] == prev[i]);
                    assert(pool[m].id != pool[pool.len() - 1].id);
                }
            }
        } else {
            assert(spec_cost_pool(pool, max_cost, core) =~= prev);
            assert forall|i: int|
                0 <= i < spec_cost_pool(pool, max_cost, core).len() implies pool.contains(
                #[trigger] spec_cost_pool(pool, max_cost, core)[i],
            ) by {
                assert(pool.drop_last().contains(prev[i]));
                let m = choose|m: int|
                    0 <= m < pool.drop_last().len() && pool.drop_last()[m] == prev[i];
                assert(pool[m] == prev[i]);
            }
        }
    }
}

/// The champions eligible for a requirement are all drawn from the
/// cost-and-core-filtered pool.
pub proof fn lemma_eligible_members(filtered: Seq<ChampionView>, name: Seq<char>, max_cost: u32)
    ensures
        forall|i: int|
            0 <= i < spec_eligible(filtered, name, max_cost).len() ==> filtered.contains(
                #[trigger] spec_eligible(filtered, name, max_cost)[i],
            ),
    decreases filtered.len(),
{
    if filtered.len() > 0 {
        lemma_eligible_members(filtered.drop_last(), name, max_cost);
        let prev = spec_eligible(filtered.drop_last(), name, max_cost);
        assert forall|i: int|
            0 <= i < spec_eligible(filtered, name, max_cost).len() implies filtered.contains(
            #[trigger] spec_eligible(filtered, name, max_cost)[i],
        ) by {
            if i < prev.len() {
                assert(spec_eligible(filtered, name, max_cost)[i] == prev[i]);
                assert(filtered.drop_last().contains(prev[i]));
                let m = choose|m: int|
                    0 <= m < filtered.drop_last().len() && filtered.drop_last()[m] == prev[i];
                assert(filtered[m] == prev[i]);
            } else {
                assert(spec_eligible(filtered, name, max_cost)[i] == filtered.last());
                assert(filtered[filtered.len() - 1] == filtered.last());
            }
        }
    }
}

/// The sum of the listed lengths from index `k` on.
pub open spec fn lens_sum_from(lens: Seq<int>, k: int) -> int
    decreases lens.len() - k,
{
    if k < 0 || k >= lens.len() {
        0
    } else {
        lens[k] + lens_sum_from(lens, k + 1)
    }
}

proof fn lemma_prod_first_members(
    combos: Seq<Seq<ChampionView>>,
    i: int,
    rests: Seq<Seq<ChampionView>>,
    clen: int,
    rlen: int,
    filtered: Seq<ChampionView>,
)
    requires
        forall|j: int| i <= j < combos.len() ==> (#[trigger] combos[j]).len() == clen,
        forall|j: int, m: int|
            i <= j < combos.len() && 0 <= m < combos[j].len() ==> filtered.contains(
                #[trigger] combos[j][m],
            ),
        forall|t: int| 0 <= t < rests.len() ==> (#[trigger] rests[t]).len() == rlen,
        forall|t: int, m: int|
            0 <= t < rests.len() && 0 <= m < rests[t].len() ==> filtered.contains(
                #[trigger] rests[t][m],
            ),
    ensures
        forall|t: int|
            0 <= t < spec_prod_first_from(combos, i, rests).len() ==> (#[trigger] spec_prod_first_from(
                combos,
                i,
                rests,
            )[t]).len() == clen + rlen,
        forall|t: int, m: int|
            0 <= t < spec_prod_first_from(combos, i, rests).len() && 0 <= m
                < spec_prod_first_from(combos, i, rests)[t].len() ==> filtered.contains(
                #[trigger] spec_prod_first_from(combos, i, rests)[t][m],
            ),
    decreases combos.len() - i,
{
    if 0 <= i < combos.len() {
        lemma_prod_first_members(combos, i + 1, rests, clen, rlen, filtered);
        let block = rests.map_values(|r: Seq<ChampionView>| combos[i] + r);
        let here = spec_prod_first_from(combos, i, rests);
        assert forall|t: int| 0 <= t < here.len() implies (#[trigger] here[t]).len() == clen
            + rlen by {
            if t < block.len() {
                assert(here[t] == combos[i] + rests[t]);
            } else {
                assert(here[t] == spec_prod_first_from(combos, i + 1, rests)[t - block.len()]);
            }
        }
        assert forall|t: int, m: int|
            0 <= t < here.len() && 0 <= m < here[t].len() implies filtered.contains(
            #[trigger] here[t][m],
        ) by {
            if t < block.len() {
                assert(here[t] == combos[i] + rests[t]);
                if m < clen {
                    assert(here[t][m] == combos[i][m]);
                } else {
                    assert(here[t][m] == rests[t][m - clen]);
                }
            } else {
                assert(here[t] == spec_prod_first_from(combos, i + 1, rests)[t - block.len()]);
            }
        }
    }
}

/// Every tuple of the cross product has one combination's worth of
/// champions per requirement, all drawn from the filtered pool.
pub proof fn lemma_product_members(
    lists: Seq<Seq<Seq<ChampionView>>>,
    lens: Seq<int>,
    filtered: Seq<ChampionView>,
    k: int,
)
    requires
        0 <= k <= lists.len(),
        lens.len() == lists.len(),
        forall|i: int| 0 <= i < lens.len() ==> #[trigger] lens[i] >= 0,
        forall|i: int, j: int|
            k <= i < lists.len() && 0 <= j < lists[i].len() ==> (#[trigger] lists[i][j]).len()
                == lens[i],
        forall|i: int, j: int, m: int|
            k <= i < lists.len() && 0 <= j < lists[i].len() && 0 <= m < lists[i][j].len()
                ==> filtered.contains(#[trigger] lists[i][j][m]),
    ensures
        lens_sum_from(lens, k) >= 0,
        forall|t: int|
            0 <= t < spec_product_from(lists, k).len() ==> (#[trigger] spec_product_from(
                lists,
                k,
            )[t]).len() == lens_sum_from(lens, k),
        forall|t: int, m: int|
            0 <= t < spec_product_from(lists, k).len() && 0 <= m < spec_product_from(
                lists,
                k,
            )[t].len() ==> filtered.contains(#[trigger] spec_product_from(lists, k)[t][m]),
    decreases lists.len() - k,
{
    if k < lists.len() {
        lemma_product_members(lists, lens, filtered, k + 1);
        lemma_prod_first_members(
            lists[k],
            0,
            spec_product_from(lists, k + 1),
            lens[k],
            lens_sum_from(lens, k + 1),
            filtered,
        );
    }
}

/// The pool the search works over: cost-filtered, with the core champions
/// exempt from the cost cap.
pub open spec fn spec_filtered(
    pool: Seq<ChampionView>,
    max_cost: u32,
    core: Seq<Seq<char>>,
) -> Seq<ChampionView> {
    spec_avail(spec_cost_pool(pool, max_cost, core), core)
}

/// The per-requirement combination lists the search enumerates.
pub open spec fn spec_req_lists(
    filtered: Seq<ChampionView>,
    reqs: Seq<(Seq<char>, int)>,
    bonuses: Seq<(Seq<char>, u32)>,
    max_cost: u32,
) -> Seq<Seq<Seq<ChampionView>>> {
    Seq::new(
        reqs.len() as nat,
        |i: int|
            spec_combos(
                spec_eligible(filtered, reqs[i].0, max_cost),
                spec_actual_count(reqs[i].1, spec_bonus_for(bonuses, reqs[i].0)),
            ),
    )
}

/// Every candidate required set the search enumerates, in enumeration
/// order.
pub open spec fn spec_tuples(
    pool: Seq<ChampionView>,
    reqs: Seq<(Seq<char>, int)>,
    bonuses: Seq<(Seq<char>, u32)>,
    max_cost: u32,
    core: Seq<Seq<char>>,
) -> Seq<Seq<ChampionView>> {
    spec_product(spec_req_lists(spec_filtered(pool, max_cost, core), reqs, bonuses, max_cost))
}

/// What one candidate required set evaluates to: nothing when a unit
/// appears in it twice; otherwise the composition built from the core
/// identifiers, the required set, and the greedy fill of the remaining
/// slots out of the remaining pool, with its activations computed against
/// the full catalog.
pub open spec fn spec_eval(
    pool: Seq<ChampionView>,
    traits: Seq<TraitView>,
    bonuses: Seq<(Seq<char>, u32)>,
    filtered: Seq<ChampionView>,
    core: Seq<Seq<char>>,
    team_size: int,
    rs: Seq<ChampionView>,
) -> Option<CompView> {
    if distinct_ids(team_ids(rs)) && rs.len() <= team_size {
        let remaining = spec_avail(filtered, team_ids(rs));
        let spots = team_size - rs.len() - core.len();
        let g = spec_greedy_comp(remaining, traits, bonuses, team_ids(rs), spots);
        let units = core + team_ids(rs) + g.units;
        let acts = spec_activations(pool, units, traits, bonuses);
        Some(
            CompView {
                units: units,
                activated_traits: acts,
                total_traits_activated: acts.len() as int,
            },
        )
    } else {
        None
    }
}

/// What the `j`-th enumerated required set evaluates to, over the
/// search's own inputs.
pub open spec fn spec_eval_at(
    pool: Seq<ChampionView>,
    reqs: Seq<(Seq<char>, int)>,
    bonuses: Seq<(Seq<char>, u32)>,
    max_cost: u32,
    core: Seq<Seq<char>>,
    traits: Seq<TraitView>,
    team_size: int,
    j: int,
) -> Option<CompView> {
    spec_eval(
        pool,
        traits,
        bonuses,
        spec_filtered(pool, max_cost, core),
        core,
        team_size,
        spec_tuples(pool, reqs, bonuses, max_cost, core)[j],
    )
}

/// A requirement can only draw as many units as it asks for.
proof fn lemma_actuals_le_total(reqs: Seq<(Seq<char>, int)>, lens: Seq<int>, k: int)
    requires
        lens.len() == reqs.len(),
        forall|i: int| 0 <= i < reqs.len() ==> 0 <= #[trigger] lens[i] <= reqs[i].1,
    ensures
        lens_sum_from(lens, k) <= reqs_total_from(reqs, k),
    decreases reqs.len() - k,
{
    if 0 <= k < reqs.len() {
        lemma_actuals_le_total(reqs, lens, k + 1);
    }
}

/// The greedy delegate never books a unit twice when the catalog is
/// well-formed and the seed identifiers are distinct.
pub proof fn lemma_greedy_comp_distinct(
    pool: Seq<ChampionView>,
    traits: Seq<TraitView>,
    bonuses: Seq<(Seq<char>, u32)>,
    core: Seq<Seq<char>>,
    team_size: int,
)
    requires
        pool_wf(pool),
        distinct_ids(core),
    ensures
        distinct_ids(spec_greedy_comp(pool, traits, bonuses, core, team_size).units),
        forall|x: Seq<char>|
            #[trigger] spec_greedy_comp(pool, traits, bonuses, core, team_size).units.contains(x)
                ==> core.contains(x) || team_ids(spec_avail(pool, core)).contains(x),
{
    let seed = spec_seed_team(pool, core);
    let avail = spec_avail(pool, core);
    crate::greedy::lemma_seed_ids(pool, core);
    crate::greedy::lemma_avail_props(pool, core);
    let all = team_ids(seed) + team_ids(avail);
    assert forall|i: int, j: int| 0 <= i < j < all.len() implies all[i] != all[j] by {
        let sl = team_ids(seed).len() as int;
        if j < sl {
            assert(all[i] == team_ids(seed)[i] && all[j] == team_ids(seed)[j]);
        } else if i >= sl {
            assert(all[i] == team_ids(avail)[i - sl] && all[j] == team_ids(avail)[j - sl]);
            assert(avail[i - sl].id != avail[j - sl].id);
        } else {
            assert(all[i] == team_ids(seed)[i] && all[j] == team_ids(avail)[j - sl]);
            assert(team_ids(seed).contains(team_ids(seed)[i]));
            assert(core.contains(team_ids(seed)[i]));
            assert(!spec_contains_name(core, avail[j - sl].id));
            let w = choose|w: int| 0 <= w < core.len() && core[w] == team_ids(seed)[i];
            assert(all[j] == avail[j - sl].id);
        }
    }
    crate::greedy::lemma_greedy_team_distinct(pool, traits, bonuses, seed, avail, team_size);
    let team = crate::greedy::spec_greedy_team(pool, traits, bonuses, seed, avail, team_size);
    assert forall|x: Seq<char>|
        #[trigger] spec_greedy_comp(pool, traits, bonuses, core, team_size).units.contains(
        x,
    ) implies core.contains(x) || team_ids(spec_avail(pool, core)).contains(x) by {
        assert(team_ids(team).contains(x));
        assert(all.contains(x));
        let w = choose|w: int| 0 <= w < all.len() && all[w] == x;
        let sl = team_ids(seed).len() as int;
        if w < sl {
            assert(team_ids(seed).contains(team_ids(seed)[w]));
            assert(core.contains(x));
        } else {
            assert(team_ids(avail)[w - sl] == x);
            assert(team_ids(avail).contains(x));
        }
    }
}

/// No composition the search evaluates books a unit twice.
pub proof fn lemma_eval_distinct(
    pool: Seq<ChampionView>,
    traits: Seq<TraitView>,
    bonuses: Seq<(Seq<char>, u32)>,
    max_cost: u32,
    core: Seq<Seq<char>>,
    team_size: int,
    rs: Seq<ChampionView>,
)
    requires
        pool_wf(pool),
        distinct_ids(core),
        forall|m: int|
            0 <= m < rs.len() ==> spec_filtered(pool, max_cost, core).contains(#[trigger] rs[m]),
    ensures
        spec_eval(
            pool,
            traits,
            bonuses,
            spec_filtered(pool, max_cost, core),
            core,
            team_size,
            rs,
        ) is Some ==> distinct_ids(
            spec_eval(
                pool,
                traits,
                bonuses,
                spec_filtered(pool, max_cost, core),
                core,
                team_size,
                rs,
            )->Some_0.units,
        ),
{
    let filtered = spec_filtered(pool, max_cost, core);
    if spec_eval(pool, traits, bonuses, filtered, core, team_size, rs) is Some {
        let cost_pool = spec_cost_pool(pool, max_cost, core);
        lemma_cost_pool_props(pool, max_cost, core);
        crate::greedy::lemma_avail_props(cost_pool, core);
        let rs_ids = team_ids(rs);
        let remaining = spec_avail(filtered, rs_ids);
        crate::greedy::lemma_avail_props(filtered, rs_ids);
        let spots = team_size - rs.len() - core.len();
        // The seed resolves to nothing: the remaining pool excludes every
        // required identifier.
        assert forall|j: int|
            0 <= j < rs_ids.len() implies spec_lookup(remaining, #[trigger] rs_ids[j]) is None by {
            crate::champions::lemma_lookup_from_id(remaining, 0, rs_ids[j]);
            if spec_lookup(remaining, rs_ids[j]) is Some {
                let c = spec_lookup(remaining, rs_ids[j])->Some_0;
                let m = choose|m: int| 0 <= m < remaining.len() && remaining[m] == c;
                assert(!spec_contains_name(rs_ids, remaining[m].id));
            }
        }
        crate::greedy::lemma_seed_empty(remaining, rs_ids);
        let seed = spec_seed_team(remaining, rs_ids);
        let avail2 = spec_avail(remaining, rs_ids);
        crate::greedy::lemma_avail_props(remaining, rs_ids);
        let all = team_ids(seed) + team_ids(avail2);
        assert(team_ids(seed) =~= Seq::<Seq<char>>::empty());
        assert forall|i: int, j: int| 0 <= i < j < all.len() implies all[i] != all[j] by {
            assert(all[i] == team_ids(avail2)[i] && all[j] == team_ids(avail2)[j]);
            assert(avail2[i].id != avail2[j].id);
        }
        crate::greedy::lemma_greedy_team_distinct(remaining, traits, bonuses, seed, avail2, spots);
        let g = spec_greedy_comp(remaining, traits, bonuses, rs_ids, spots);
        let team = crate::greedy::spec_greedy_team(remaining, traits, bonuses, seed, avail2, spots);
        assert(g.units == team_ids(team));
        // A unit the greedy fill picked is in the remaining pool, so its
        // identifier is neither core nor required.
        assert forall|x: Seq<char>| #[trigger] g.units.contains(x) implies !spec_contains_name(
            core,
            x,
        ) && !spec_contains_name(rs_ids, x) && !spec_contains_name(core, x) by {
            assert(all.contains(x));
            let w = choose|w: int| 0 <= w < all.len() && all[w] == x;
            assert(team_ids(avail2)[w] == x);
            assert(avail2[w].id == x);
            assert(remaining.contains(avail2[w]));
            let m = choose|m: int| 0 <= m < remaining.len() && remaining[m] == avail2[w];
            assert(!spec_contains_name(rs_ids, remaining[m].id));
            assert(filtered.contains(remaining[m]));
            let n = choose|n: int| 0 <= n < filtered.len() && filtered[n] == remaining[m];
            assert(!spec_contains_name(core, filtered[n].id));
        }
        // A required unit comes from the filtered pool, so its identifier
        // is not core.
        assert forall|j: int| 0 <= j < rs_ids.len() implies !spec_contains_name(
            core,
            #[trigger] rs_ids[j],
        ) by {
            let n = choose|n: int| 0 <= n < filtered.len() && filtered[n] == rs[j];
            assert(!spec_contains_name(core, filtered[n].id));
        }
        let units = core + rs_ids + g.units;
        assert forall|i: int, j: int| 0 <= i < j < units.len() implies units[i] != units[j] by {
            let cl = core.len() as int;
            let rl = rs_ids.len() as int;
            if j < cl {
            } else if i >= cl && j < cl + rl {
                assert(units[i] == rs_ids[i - cl] && units[j] == rs_ids[j - cl]);
            } else if i >= cl + rl {
                assert(units[i] == g.units[i - cl - rl] && units[j] == g.units[j - cl - rl]);
                assert(team_ids(team)[i - cl - rl] != team_ids(team)[j - cl - rl]);
            } else if i < cl && j < cl + rl {
                assert(units[i] == core[i] && units[j] == rs_ids[j - cl]);
                assert(!spec_contains_name(core, rs_ids[j - cl]));
                if units[i] == units[j] {
                    assert(spec_contains_name(core, rs_ids[j - cl]));
                }
            } else if i < cl {
                assert(units[i] == core[i] && units[j] == g.units[j - cl - rl]);
                assert(g.units.contains(g.units[j - cl - rl]));
                assert(!spec_contains_name(core, g.units[j - cl - rl]));
                if units[i] == units[j] {
                    assert(spec_contains_name(core, g.units[j - cl - rl]));
                }
            } else {
                assert(units[i] == rs_ids[i - cl] && units[j] == g.units[j - cl - rl]);
                assert(g.units.contains(g.units[j - cl - rl]));
                assert(!spec_contains_name(rs_ids, g.units[j - cl - rl]));
                if units[i] == units[j] {
                    assert(spec_contains_name(rs_ids, g.units[j - cl - rl]));
                }
            }
        }
    }
}

/// Views of a list of combinations.
pub open spec fn combo_views(s: Seq<Vec<Champion>>) -> Seq<Seq<ChampionView>> {
    s.map_values(|c: Vec<Champion>| champs_view(c@))
}

/// Views of the per-requirement combination lists.
pub open spec fn list_views(s: Seq<Vec<Vec<Champion>>>) -> Seq<Seq<Seq<ChampionView>>> {
    s.map_values(|l: Vec<Vec<Champion>>| combo_views(l@))
}

/// The catalog without its first champion.
fn tail_of(v: &Vec<Champion>) -> (r: Vec<Champion>)
    requires
        v@.len() >= 1,
    ensures
        champs_view(r@) == champs_view(v@).drop_first(),
        r@.len() == v@.len() - 1,
{
    let mut r: Vec<Champion> = Vec::new();
    let mut i: usize = 1;
    while i < v.len()
        invariant
            1 <= i <= v@.len(),
            r@.len() == i - 1,
            forall|j: int| 0 <= j < i - 1 ==> r@[j]@ == v@[j + 1]@,
        decreases v@.len() - i,
    {
        r.push(v[i].clone());
        i = i + 1;
    }
    proof {
        assert(champs_view(r@) =~= champs_view(v@).drop_first());
    }
    r
}

/// Materialises every way to choose `k` champions out of `v` without
/// reordering them, in lexicographic order over the positions in `v`.
fn combinations(v: &Vec<Champion>, k: usize) -> (r: Vec<Vec<Champion>>)
    ensures
        combo_views(r@) == spec_combos(champs_view(v@), k as int),
    decreases v@.len(),
{
    let ghost sv = champs_view(v@);
    if k == 0 {
        let mut r: Vec<Vec<Champion>> = Vec::new();
        r.push(Vec::new());
        proof {
            assert(combo_views(r@) =~~= spec_combos(sv, 0));
        }
        return r;
    }
    if v.len() < k {
        let r: Vec<Vec<Champion>> = Vec::new();
        proof {
            assert(combo_views(r@) =~~= spec_combos(sv, k as int));
        }
        return r;
    }
    let tail = tail_of(v);
    let ghost tv = champs_view(tail@);
    let first_combos = combinations(&tail, k - 1);
    let rest_combos = combinations(&tail, k);
    let ghost withf = spec_combos(tv, k - 1).map_values(|c: Seq<ChampionView>| seq![sv[0]] + c);

    let mut r: Vec<Vec<Champion>> = Vec::new();
    let mut i: usize = 0;
    while i < first_combos.len()
        invariant
            i <= first_combos@.len(),
            sv == champs_view(v@),
            sv.len() >= 1,
            tv == champs_view(tail@),
            combo_views(first_combos@) == spec_combos(tv, k - 1),
            withf == spec_combos(tv, k - 1).map_values(|c: Seq<ChampionView>| seq![sv[0]] + c),
            r@.len() == i,
            first_combos@.len() == spec_combos(tv, k - 1).len(),
            combo_views(r@) == withf.take(i as int),
        decreases first_combos@.len() - i,
    {
        let mut c: Vec<Champion> = Vec::new();
        c.push(v[0].clone());
        let fc = &first_combos[i];
        let mut j: usize = 0;
        while j < fc.len()
            invariant
                j <= fc@.len(),
                sv == champs_view(v@),
                sv.len() >= 1,
                c@.len() == j + 1,
                c@[0]@ == sv[0],
                forall|m: int| 0 <= m < j ==> c@[m + 1]@ == fc@[m]@,
            decreases fc@.len() - j,
        {
            c.push(fc[j].clone());
            j = j + 1;
        }
        proof {
            assert(champs_view(c@) =~= seq![sv[0]] + champs_view(fc@));
            assert(combo_views(first_combos@)[i as int] == champs_view(fc@));
            assert(withf[i as int] == seq![sv[0]] + spec_combos(tv, k - 1)[i as int]);
        }
        r.push(c);
        proof {
            assert(combo_views(r@) =~~= withf.take(i + 1));
        }
        i = i + 1;
    }
    proof {
        assert(withf.take(withf.len() as int) =~= withf);
    }
    let mut j: usize = 0;
    while j < rest_combos.len()
        invariant
            j <= rest_combos@.len(),
            sv == champs_view(v@),
            tv == champs_view(tail@),
            combo_views(rest_combos@) == spec_combos(tv, k as int),
            withf == spec_combos(tv, k - 1).map_values(|c: Seq<ChampionView>| seq![sv[0]] + c),
            r@.len() == withf.len() + j,
            rest_combos@.len() == spec_combos(tv, k as int).len(),
            combo_views(r@) == withf + spec_combos(tv, k as int).take(j as int),
        decreases rest_combos@.len() - j,
    {
        let cc = crate::greedy::clone_champs(&rest_combos[j]);
        let ghost r0 = r@;
        let ghost ccv = champs_view(cc@);
        r.push(cc);
        proof {
            assert(ccv == combo_views(rest_combos@)[j as int]);
            assert(combo_views(r@) =~~= combo_views(r0).push(ccv));
            assert(spec_combos(tv, k as int).take(j + 1) =~= spec_combos(tv, k as int).take(
                j as int,
            ).push(spec_combos(tv, k as int)[j as int]));
            assert((withf + spec_combos(tv, k as int).take(j as int)).push(ccv) =~= withf
                + spec_combos(tv, k as int).take(j + 1));
        }
        j = j + 1;
    }
    proof {
        assert(spec_combos(tv, k as int).take(spec_combos(tv, k as int).len() as int) =~= spec_combos(
            tv,
            k as int,
        ));
        assert(sv.drop_first() == tv);
        assert(combo_views(r@) =~~= spec_combos(sv, k as int));
    }
    r
}

/// Builds the required set the odometer currently selects: every
/// requirement's chosen combination, flattened in requirement order.
#[verifier::loop_isolation(false)]
fn tuple_at(lists: &Vec<Vec<Vec<Champion>>>, idx: &Vec<usize>) -> (r: Vec<Champion>)
    requires
        idx@.len() == lists@.len(),
        forall|q: int| 0 <= q < idx@.len() ==> (#[trigger] idx@[q]) < lists@[q]@.len(),
    ensures
        champs_view(r@) == flatten_from(
            list_views(lists@),
            idx@.map_values(|u: usize| u as int),
            0,
        ),
{
    let ghost lv = list_views(lists@);
    let ghost iv = idx@.map_values(|u: usize| u as int);
    let mut r: Vec<Champion> = Vec::new();
    let mut q: usize = 0;
    proof {
        assert(champs_view(r@) =~= Seq::<ChampionView>::empty());
    }
    while q < lists.len()
        invariant
            q <= lists@.len(),
            flatten_from(lv, iv, 0) == champs_view(r@) + flatten_from(lv, iv, q as int),
        decreases lists@.len() - q,
    {
        let combo = &lists[q][idx[q]];
        let ghost base = champs_view(r@);
        let ghost comv = champs_view(combo@);
        let mut m: usize = 0;
        while m < combo.len()
            invariant
                m <= combo@.len(),
                base == champs_view(r@).take(base.len() as int),
                r@.len() == base.len() + m,
                champs_view(r@) == base + comv.take(m as int),
            decreases combo@.len() - m,
        {
            let x = combo[m].clone();
            let ghost r0 = r@;
            r.push(x);
            proof {
                assert(champs_view(r@) =~= champs_view(r0).push(comv[m as int]));
                assert(comv.take(m + 1) =~= comv.take(m as int).push(comv[m as int]));
                assert((base + comv.take(m as int)).push(comv[m as int]) =~= base + comv.take(
                    m + 1,
                ));
            }
            m = m + 1;
        }
        proof {
            assert(comv.take(comv.len() as int) =~= comv);
            assert(lv[q as int][iv[q as int]] == comv);
            // One step of the head recursion.
            assert(flatten_from(lv, iv, q as int) == comv + flatten_from(lv, iv, q + 1));
            assert((base + comv) + flatten_from(lv, iv, q + 1) =~= base + (comv + flatten_from(
                lv,
                iv,
                q + 1,
            )));
        }
        q = q + 1;
    }
    proof {
        assert(champs_view(r@) + flatten_from(lv, iv, lists@.len() as int) =~= champs_view(r@));
    }
    r
}

/// Advances the odometer to the next choice of combinations, later
/// requirements varying fastest, and reports whether a next choice
/// exists; on the last choice the odometer is left as it stands.
#[verifier::loop_isolation(false)]
fn advance(lists: &Vec<Vec<Vec<Champion>>>, idx: &mut Vec<usize>) -> (more: bool)
    requires
        old(idx)@.len() == lists@.len(),
        forall|q: int| 0 <= q < old(idx)@.len() ==> (#[trigger] old(idx)@[q]) < lists@[q]@.len(),
    ensures
        final(idx)@.len() == lists@.len(),
        forall|q: int|
            0 <= q < final(idx)@.len() ==> (#[trigger] final(idx)@[q]) < lists@[q]@.len(),
        more ==> mixed_pos(
            list_views(lists@),
            final(idx)@.map_values(|u: usize| u as int),
            0,
        ) == mixed_pos(list_views(lists@), old(idx)@.map_values(|u: usize| u as int), 0) + 1,
        !more ==> final(idx)@ == old(idx)@ && mixed_pos(
            list_views(lists@),
            old(idx)@.map_values(|u: usize| u as int),
            0,
        ) == prod_len_from(list_views(lists@), 0) - 1,
{
    let ghost lv = list_views(lists@);
    let ghost iv0 = old(idx)@.map_values(|u: usize| u as int);
    let mut q: usize = idx.len();
    while q > 0
        invariant
            q <= idx@.len(),
            idx@ == old(idx)@,
            forall|r: int| q <= r < idx@.len() ==> (#[trigger] idx@[r]) == lists@[r]@.len() - 1,
        decreases q,
    {
        q = q - 1;
        proof {
            assert(idx@[q as int] < lists@[q as int]@.len());
        }
        if idx[q] < lists[q].len() - 1 {
            let bumped = idx[q] + 1;
            idx.set(q, bumped);
            let mut z: usize = q + 1;
            while z < idx.len()
                invariant
                    q < z <= idx@.len(),
                    idx@.len() == old(idx)@.len(),
                    forall|r: int| 0 <= r < q ==> (#[trigger] idx@[r]) == old(idx)@[r],
                    idx@[q as int] == old(idx)@[q as int] + 1,
                    forall|r: int| q < r < z ==> (#[trigger] idx@[r]) == 0,
                    forall|r: int| z <= r < idx@.len() ==> (#[trigger] idx@[r]) == old(idx)@[r],
                decreases idx@.len() - z,
            {
                idx.set(z, 0);
                z = z + 1;
            }
            proof {
                assert forall|r: int| 0 <= r < idx@.len() implies (#[trigger] idx@[r])
                    < lists@[r]@.len() by {
                    assert(old(idx)@[r] < lists@[r]@.len());
                }
                let iv1 = idx@.map_values(|u: usize| u as int);
                assert(iv0.len() == old(idx)@.len());
                assert(iv1.len() == idx@.len());
                assert(lv.len() == lists@.len());
                assert forall|r: int| 0 <= r < q implies #[trigger] iv1[r] == iv0[r] by {
                    assert(idx@[r] == old(idx)@[r]);
                }
                assert(iv1[q as int] == iv0[q as int] + 1);
                assert forall|r: int|
                    q < r < lv.len() implies #[trigger] iv0[r] == lv[r].len() - 1 by {
                    assert(old(idx)@[r] == lists@[r]@.len() - 1);
                    assert(lv[r] == combo_views(lists@[r]@));
                    assert(combo_views(lists@[r]@).len() == lists@[r]@.len());
                }
                assert forall|r: int| q < r < lv.len() implies #[trigger] iv1[r] == 0 by {
                    assert(idx@[r] == 0);
                }
                lemma_mixed_increment(lv, iv0, iv1, q as int, 0);
            }
            return true;
        }
    }
    proof {
        assert(iv0.len() == old(idx)@.len());
        assert(lv.len() == lists@.len());
        assert forall|r: int| 0 <= r < lv.len() implies #[trigger] iv0[r] == lv[r].len() - 1 by {
            assert(old(idx)@[r] == lists@[r]@.len() - 1);
            assert(lv[r] == combo_views(lists@[r]@));
            assert(combo_views(lists@[r]@).len() == lists@[r]@.len());
        }
        lemma_mixed_all_max(lv, iv0, 0);
    }
    false
}

/// Whether the search rejects the inputs outright: the required counts
/// plus the core units cannot fit the target size.
pub open spec fn spec_over_target(
    reqs: Seq<(Seq<char>, int)>,
    core: Seq<Seq<char>>,
    team_size: int,
) -> bool {
    reqs_total(reqs) + core.len() > team_size
}

/// Whether some requirement asks for more units than are eligible for it.
pub open spec fn spec_shortfall(
    pool: Seq<ChampionView>,
    reqs: Seq<(Seq<char>, int)>,
    bonuses: Seq<(Seq<char>, u32)>,
    max_cost: u32,
    core: Seq<Seq<char>>,
) -> bool {
    exists|i: int|
        0 <= i < reqs.len() && spec_eligible(
            spec_filtered(pool, max_cost, core),
            reqs[i].0,
            max_cost,
        ).len() < spec_actual_count(reqs[i].1, spec_bonus_for(bonuses, reqs[i].0))
}

proof fn lemma_reqs_total_from_nonneg(reqs: Seq<(Seq<char>, int)>, k: int)
    requires
        forall|i: int| 0 <= i < reqs.len() ==> (#[trigger] reqs[i]).1 >= 0,
    ensures
        reqs_total_from(reqs, k) >= 0,
    decreases reqs.len() - k,
{
    if 0 <= k < reqs.len() {
        lemma_reqs_total_from_nonneg(reqs, k + 1);
    }
}

/// The value of the first bonus entry with the given name, or zero.
fn bonus_value_for(trait_bonuses: &Vec<(String, u32)>, name: &String) -> (r: u32)
    ensures
        r as nat == spec_bonus_for(bonuses_view(trait_bonuses@), name@),
{
    let ghost bv = bonuses_view(trait_bonuses@);
    let mut i: usize = 0;
    while i < trait_bonuses.len()
        invariant
            i <= bv.len(),
            bv == bonuses_view(trait_bonuses@),
            spec_bonus_for(bv, name@) == spec_bonus_for_from(bv, i as int, name@),
        decreases bv.len() - i,
    {
        if trait_bonuses[i].0 == *name {
            return trait_bonuses[i].1;
        }
        i = i + 1;
    }
    0
}

/// Whether no identifier repeats in the list.
fn ids_distinct_exec(v: &Vec<ChampionId>) -> (r: bool)
    ensures
        r == distinct_ids(ids_view(v@)),
{
    let ghost idsv = ids_view(v@);
    let mut i: usize = 0;
    while i < v.len()
        invariant
            i <= idsv.len(),
            idsv == ids_view(v@),
            forall|a: int, b: int| 0 <= a < b < idsv.len() && a < i ==> idsv[a] != idsv[b],
        decreases idsv.len() - i,
    {
        let mut j: usize = i + 1;
        while j < v.len()
            invariant
                i < j <= idsv.len() || (i + 1 > idsv.len() && j == i + 1),
                idsv == ids_view(v@),
                forall|b: int| i < b < j ==> idsv[i as int] != idsv[b],
            decreases idsv.len() - j,
        {
            if v[i].0 == v[j].0 {
                proof {
                    assert(idsv[i as int] == idsv[j as int]);
                }
                return false;
            }
            j = j + 1;
        }
        i = i + 1;
    }
    true
}

/// Evaluates one candidate required set: rejects it when a unit appears
/// in it twice; otherwise seeds the greedy builder over the working pool
/// minus the required set, assembles core, required and greedy-filled
/// units, and scores the result against the full catalog.
#[verifier::loop_isolation(false)]
#[verifier::rlimit(100)]
fn evaluate_required_set(
    champion_pool: &ChampionPool,
    traits: &Vec<Trait>,
    trait_bonuses: &Vec<(String, u32)>,
    filtered_vec: &Vec<Champion>,
    core_unit_ids: &Vec<ChampionId>,
    team_size: usize,
    max_cost: u32,
    rs_vec: &Vec<Champion>,
) -> (r: Option<OptimalComp>)
    requires
        pool_wf(champion_pool@),
        distinct_ids(ids_view(core_unit_ids@)),
        champs_view(filtered_vec@) == spec_filtered(
            champion_pool@,
            max_cost,
            ids_view(core_unit_ids@),
        ),
        forall|m: int|
            0 <= m < rs_vec@.len() ==> spec_filtered(
                champion_pool@,
                max_cost,
                ids_view(core_unit_ids@),
            ).contains(#[trigger] champs_view(rs_vec@)[m]),
        champs_view(rs_vec@).len() + core_unit_ids@.len() <= team_size,
        bonus_weight(bonuses_view(trait_bonuses@)) + ids_weight(
            champion_pool@,
            ids_view(core_unit_ids@),
        ) + champs_weight(champion_pool@) <= usize::MAX,
        4 * traits_view(traits@).len() + 2 * champs_weight(champion_pool@) <= usize::MAX,
    ensures
        ({
            let ev = spec_eval(
                champion_pool@,
                traits_view(traits@),
                bonuses_view(trait_bonuses@),
                spec_filtered(champion_pool@, max_cost, ids_view(core_unit_ids@)),
                ids_view(core_unit_ids@),
                team_size as int,
                champs_view(rs_vec@),
            );
            match r {
                Some(c) => ev == Some(c@),
                None => ev is None,
            }
        }),
        r is Some ==> distinct_ids(r->Some_0@.units),
{
    let ghost poolv = champion_pool@;
    let ghost traitsv = traits_view(traits@);
    let ghost bonusesv = bonuses_view(trait_bonuses@);
    let ghost corev = ids_view(core_unit_ids@);
    let ghost filteredv = spec_filtered(poolv, max_cost, corev);
    let ghost rsv = champs_view(rs_vec@);

    let rs_ids_vec = crate::greedy::ids_of(rs_vec);
    let ghost rs_idsv = team_ids(rsv);
    proof {
        assert(ids_view(rs_ids_vec@) == rs_idsv);
    }
    let distinct_ok = ids_distinct_exec(&rs_ids_vec);
    if !(distinct_ok && rs_vec.len() <= team_size) {
        proof {
            assert(!distinct_ids(team_ids(rsv)));
        }
        return None;
    }

    // The remaining pool: the working pool minus the required set.
    let mut remaining_vec: Vec<Champion> = Vec::new();
    let mut w: usize = 0;
    while w < filtered_vec.len()
        invariant
            w <= filteredv.len(),
            champs_view(remaining_vec@) == spec_avail(filteredv.take(w as int), rs_idsv),
        decreases filteredv.len() - w,
    {
        proof {
            assert(filteredv.take(w + 1).drop_last() =~= filteredv.take(w as int));
            assert(filteredv.take(w + 1).last() == filteredv[w as int]);
        }
        let c = &filtered_vec[w];
        if !crate::champions::ids_contain(&rs_ids_vec, &c.id) {
            remaining_vec.push(c.clone());
            proof {
                assert(champs_view(remaining_vec@) =~= spec_avail(
                    filteredv.take(w + 1),
                    rs_idsv,
                ));
            }
        }
        w = w + 1;
    }
    proof {
        assert(filteredv.take(filteredv.len() as int) =~= filteredv);
    }
    let ghost remainingv = spec_avail(filteredv, rs_idsv);

    let remaining_spots = team_size - rs_vec.len() - core_unit_ids.len();
    let remaining_pool = crate::champions::ChampionPool { all: remaining_vec };
    proof {
        lemma_cost_pool_props(poolv, max_cost, corev);
        crate::greedy::lemma_avail_props(spec_cost_pool(poolv, max_cost, corev), corev);
        crate::greedy::lemma_avail_props(filteredv, rs_idsv);
        crate::greedy::lemma_ids_weight_excluded(remainingv, rs_idsv);
        assert forall|k: int| 0 <= k < remainingv.len() implies poolv.contains(
            #[trigger] remainingv[k],
        ) by {
            assert(filteredv.contains(remainingv[k]));
            let a = choose|a: int| 0 <= a < filteredv.len() && filteredv[a] == remainingv[k];
            let costv = spec_cost_pool(poolv, max_cost, corev);
            assert(costv.contains(filteredv[a]));
            let b = choose|b: int| 0 <= b < costv.len() && costv[b] == filteredv[a];
        }
    }
    let g = crate::greedy::find_optimal_comp_greedy(
        &remaining_pool,
        &rs_ids_vec,
        remaining_spots,
        trait_bonuses,
        traits,
    );
    match g {
        Some(comp) => {
            let ghost gv = spec_greedy_comp(
                remainingv,
                traitsv,
                bonusesv,
                rs_idsv,
                remaining_spots as int,
            );
            // Assemble core + required + greedy fill.
            let mut all_units = crate::champions::clone_ids(core_unit_ids);
            let mut a: usize = 0;
            while a < rs_ids_vec.len()
                invariant
                    a <= rs_idsv.len(),
                    all_units@.len() == corev.len() + a,
                    ids_view(all_units@) == corev + rs_idsv.take(a as int),
                decreases rs_idsv.len() - a,
            {
                proof {
                    assert(ids_view(rs_ids_vec@)[a as int] == rs_idsv[a as int]);
                }
                let x = rs_ids_vec[a].clone();
                let ghost u0 = all_units@;
                all_units.push(x);
                proof {
                    assert(ids_view(all_units@) =~= ids_view(u0).push(rs_idsv[a as int]));
                    assert(rs_idsv.take(a + 1) =~= rs_idsv.take(a as int).push(
                        rs_idsv[a as int],
                    ));
                    assert((corev + rs_idsv.take(a as int)).push(rs_idsv[a as int]) =~= corev
                        + rs_idsv.take(a + 1));
                }
                a = a + 1;
            }
            proof {
                assert(rs_idsv.take(rs_idsv.len() as int) =~= rs_idsv);
            }
            let mut b: usize = 0;
            while b < comp.units.len()
                invariant
                    b <= gv.units.len(),
                    comp.units@.len() == gv.units.len(),
                    all_units@.len() == corev.len() + rs_idsv.len() + b,
                    ids_view(all_units@) == (corev + rs_idsv) + gv.units.take(b as int),
                decreases gv.units.len() - b,
            {
                proof {
                    assert(comp@.units[b as int] == comp.units@[b as int]@);
                    assert(comp.units@[b as int]@ == gv.units[b as int]);
                }
                let y = comp.units[b].clone();
                let ghost u1 = all_units@;
                all_units.push(y);
                proof {
                    assert(ids_view(all_units@) =~= ids_view(u1).push(gv.units[b as int]));
                    assert(gv.units.take(b + 1) =~= gv.units.take(b as int).push(
                        gv.units[b as int],
                    ));
                    assert(((corev + rs_idsv) + gv.units.take(b as int)).push(
                        gv.units[b as int],
                    ) =~= (corev + rs_idsv) + gv.units.take(b + 1));
                }
                b = b + 1;
            }
            proof {
                assert(gv.units.take(gv.units.len() as int) =~= gv.units);
            }
            let ghost unitsv = corev + rs_idsv + gv.units;
            proof {
                assert(ids_view(all_units@) =~= unitsv);
                lemma_eval_distinct(
                    poolv,
                    traitsv,
                    bonusesv,
                    max_cost,
                    corev,
                    team_size as int,
                    rsv,
                );
                assert(spec_eval(
                    poolv,
                    traitsv,
                    bonusesv,
                    filteredv,
                    corev,
                    team_size as int,
                    rsv,
                ) is Some);
                assert(distinct_ids(unitsv));
                // Weight bound for the activation computation.
                let tail = rs_idsv + gv.units;
                assert(unitsv =~= corev + tail);
                crate::greedy::lemma_ids_weight_concat(poolv, corev, tail);
                assert forall|x: int, y: int| 0 <= x < y < tail.len() implies tail[x]
                    != tail[y] by {
                    assert(unitsv[corev.len() + x] == tail[x]);
                    assert(unitsv[corev.len() + y] == tail[y]);
                }
                crate::greedy::lemma_ids_weight_distinct(poolv, tail);
            }
            let activated = crate::trait_activation::calculate_trait_activations(
                champion_pool,
                &all_units,
                traits,
                trait_bonuses,
            );
            let score = activated.len();
            let ghost actsv = spec_activations(poolv, unitsv, traitsv, bonusesv);
            let nc = OptimalComp {
                units: all_units,
                activated_traits: activated,
                total_traits_activated: score,
            };
            proof {
                assert(spec_eval(
                    poolv,
                    traitsv,
                    bonusesv,
                    filteredv,
                    corev,
                    team_size as int,
                    rsv,
                ) == Some(nc@));
            }
            Some(nc)
        },
        None => {
            proof {
                assert(false);
            }
            None
        },
    }
}

/// Finds the best-scoring composition that satisfies every hard trait
/// requirement.
///
/// Rejects outright when the required counts plus the core units exceed
/// the target size, or when some requirement has fewer eligible champions
/// than it needs. With no requirements the greedy builder runs directly on
/// the cost-filtered pool. Otherwise every way of pre-filling the
/// requirements is enumerated — one size-`actual_count` combination of
/// eligible champions per requirement, rejecting required sets that book a
/// unit twice — the greedy builder fills the remaining slots from the
/// remaining pool, and the composition activating the most traits is kept,
/// first found winning ties. A feasible search always yields a
/// composition, even one activating no trait; nothing is returned only
/// when every candidate required set books some unit twice.
#[verifier::loop_isolation(false)]
#[verifier::rlimit(100)]
pub fn find_optimal_comp_with_requirements(
    ctx: &Context,
    team_size: usize,
    trait_requirements: &Vec<(String, usize)>,
    trait_bonuses: &Vec<(String, u32)>,
    max_cost: u32,
    core_unit_ids: &Vec<ChampionId>,
) -> (r: Option<OptimalComp>)
    requires
        pool_wf(ctx.champion_pool@),
        distinct_ids(ids_view(core_unit_ids@)),
        bonus_weight(bonuses_view(trait_bonuses@)) + ids_weight(
            ctx.champion_pool@,
            ids_view(core_unit_ids@),
        ) + champs_weight(ctx.champion_pool@) <= usize::MAX,
        4 * traits_view(ctx.traits@).len() + 2 * champs_weight(ctx.champion_pool@) <= usize::MAX,
    ensures
        spec_over_target(
            reqs_view(trait_requirements@),
            ids_view(core_unit_ids@),
            team_size as int,
        ) ==> r is None,
        trait_requirements@.len() == 0 && !spec_over_target(
            reqs_view(trait_requirements@),
            ids_view(core_unit_ids@),
            team_size as int,
        ) ==> {
            &&& r is Some
            &&& r->Some_0@ == spec_greedy_comp(
                spec_cost_pool(ctx.champion_pool@, max_cost, ids_view(core_unit_ids@)),
                traits_view(ctx.traits@),
                bonuses_view(trait_bonuses@),
                ids_view(core_unit_ids@),
                team_size as int,
            )
        },
        trait_requirements@.len() > 0 && !spec_over_target(
            reqs_view(trait_requirements@),
            ids_view(core_unit_ids@),
            team_size as int,
        ) && spec_shortfall(
            ctx.champion_pool@,
            reqs_view(trait_requirements@),
            bonuses_view(trait_bonuses@),
            max_cost,
            ids_view(core_unit_ids@),
        ) ==> r is None,
        trait_requirements@.len() > 0 && !spec_over_target(
            reqs_view(trait_requirements@),
            ids_view(core_unit_ids@),
            team_size as int,
        ) && !spec_shortfall(
            ctx.champion_pool@,
            reqs_view(trait_requirements@),
            bonuses_view(trait_bonuses@),
            max_cost,
            ids_view(core_unit_ids@),
        ) ==> {
            let n = spec_tuples(
                ctx.champion_pool@,
                reqs_view(trait_requirements@),
                bonuses_view(trait_bonuses@),
                max_cost,
                ids_view(core_unit_ids@),
            ).len();
            // No enumerated alternative scores strictly better.
            &&& forall|j: int|
                0 <= j < n && #[trigger] spec_eval_at(
                    ctx.champion_pool@,
                    reqs_view(trait_requirements@),
                    bonuses_view(trait_bonuses@),
                    max_cost,
                    ids_view(core_unit_ids@),
                    traits_view(ctx.traits@),
                    team_size as int,
                    j,
                ) is Some ==> (match r {
                    Some(c) => c@.total_traits_activated,
                    None => 0int,
                }) >= spec_eval_at(
                    ctx.champion_pool@,
                    reqs_view(trait_requirements@),
                    bonuses_view(trait_bonuses@),
                    max_cost,
                    ids_view(core_unit_ids@),
                    traits_view(ctx.traits@),
                    team_size as int,
                    j,
                )->Some_0.total_traits_activated
            // A feasible search yields a result: whenever some required set
            // evaluates at all, something is returned.
            &&& (exists|j: int|
                0 <= j < n && #[trigger] spec_eval_at(
                    ctx.champion_pool@,
                    reqs_view(trait_requirements@),
                    bonuses_view(trait_bonuses@),
                    max_cost,
                    ids_view(core_unit_ids@),
                    traits_view(ctx.traits@),
                    team_size as int,
                    j,
                ) is Some) ==> r is Some
            // The result is the first evaluation to reach its score.
            &&& r is Some ==> exists|j: int|
                0 <= j < n && #[trigger] spec_eval_at(
                    ctx.champion_pool@,
                    reqs_view(trait_requirements@),
                    bonuses_view(trait_bonuses@),
                    max_cost,
                    ids_view(core_unit_ids@),
                    traits_view(ctx.traits@),
                    team_size as int,
                    j,
                ) == Some(r->Some_0@) && (forall|k: int|
                    0 <= k < j && #[trigger] spec_eval_at(
                        ctx.champion_pool@,
                        reqs_view(trait_requirements@),
                        bonuses_view(trait_bonuses@),
                        max_cost,
                        ids_view(core_unit_ids@),
                        traits_view(ctx.traits@),
                        team_size as int,
                        k,
                    ) is Some ==> spec_eval_at(
                        ctx.champion_pool@,
                        reqs_view(trait_requirements@),
                        bonuses_view(trait_bonuses@),
                        max_cost,
                        ids_view(core_unit_ids@),
                        traits_view(ctx.traits@),
                        team_size as int,
                        k,
                    )->Some_0.total_traits_activated < r->Some_0@.total_traits_activated)
        },
        r is Some ==> distinct_ids(r->Some_0@.units),
{
    let champion_pool = &ctx.champion_pool;
    let traits = &ctx.traits;
    let ghost poolv = champion_pool@;
    let ghost traitsv = traits_view(traits@);
    let ghost bonusesv = bonuses_view(trait_bonuses@);
    let ghost corev = ids_view(core_unit_ids@);
    let ghost reqsv = reqs_view(trait_requirements@);

    proof {
        assert(forall|i: int| 0 <= i < reqsv.len() ==> (#[trigger] reqsv[i]).1 >= 0);
    }

    // Total of the required counts, watching for machine overflow: an
    // overflowing total cannot fit any team size.
    let mut total_required: usize = 0;
    let mut overflow = false;
    let mut i: usize = 0;
    while i < trait_requirements.len()
        invariant
            i <= reqsv.len(),
            !overflow ==> reqs_total(reqsv) == total_required + reqs_total_from(reqsv, i as int),
            overflow ==> reqs_total(reqsv) > usize::MAX,
        decreases reqsv.len() - i,
    {
        proof {
            lemma_reqs_total_from_nonneg(reqsv, i + 1);
        }
        let c = trait_requirements[i].1;
        if !overflow {
            if c > usize::MAX - total_required {
                overflow = true;
            } else {
                total_required = total_required + c;
            }
        }
        i = i + 1;
    }
    proof {
        lemma_reqs_total_from_nonneg(reqsv, reqsv.len() as int);
    }
    if overflow {
        return None;
    }
    if total_required > team_size {
        return None;
    }
    if core_unit_ids.len() > team_size - total_required {
        return None;
    }
    proof {
        assert(reqs_total(reqsv) + corev.len() <= team_size);
    }

    // The cost-filtered pool: everything within the cost cap, plus the
    // core champions whatever they cost.
    let mut cost_filtered: Vec<Champion> = Vec::new();
    let mut p: usize = 0;
    while p < champion_pool.all.len()
        invariant
            p <= poolv.len(),
            champs_view(cost_filtered@) == spec_cost_pool(poolv.take(p as int), max_cost, corev),
        decreases poolv.len() - p,
    {
        proof {
            assert(poolv.take(p + 1).drop_last() =~= poolv.take(p as int));
            assert(poolv.take(p + 1).last() == poolv[p as int]);
        }
        let c = &champion_pool.all[p];
        if c.cost <= max_cost || crate::champions::ids_contain(core_unit_ids, &c.id) {
            cost_filtered.push(c.clone());
            proof {
                assert(champs_view(cost_filtered@) =~= spec_cost_pool(
                    poolv.take(p + 1),
                    max_cost,
                    corev,
                ));
            }
        }
        p = p + 1;
    }
    proof {
        assert(poolv.take(poolv.len() as int) =~= poolv);
        lemma_cost_pool_props(poolv, max_cost, corev);
    }
    let ghost costv = spec_cost_pool(poolv, max_cost, corev);

    if trait_requirements.len() == 0 {
        let cost_pool_struct = crate::champions::ChampionPool { all: cost_filtered };
        proof {
            crate::greedy::lemma_ids_weight_sub(poolv, costv, corev);
            lemma_greedy_comp_distinct(costv, traitsv, bonusesv, corev, team_size as int);
        }
        let g = crate::greedy::find_optimal_comp_greedy(
            &cost_pool_struct,
            core_unit_ids,
            team_size,
            trait_bonuses,
            traits,
        );
        return g;
    }

    // The working pool for requirements: cost-filtered minus the core.
    let mut filtered_vec: Vec<Champion> = Vec::new();
    let mut q: usize = 0;
    while q < cost_filtered.len()
        invariant
            q <= costv.len(),
            champs_view(cost_filtered@) == costv,
            champs_view(filtered_vec@) == spec_avail(costv.take(q as int), corev),
        decreases costv.len() - q,
    {
        proof {
            assert(costv.take(q + 1).drop_last() =~= costv.take(q as int));
            assert(costv.take(q + 1).last() == costv[q as int]);
        }
        let c = &cost_filtered[q];
        if !crate::champions::ids_contain(core_unit_ids, &c.id) {
            filtered_vec.push(c.clone());
            proof {
                assert(champs_view(filtered_vec@) =~= spec_avail(costv.take(q + 1), corev));
            }
        }
        q = q + 1;
    }
    proof {
        assert(costv.take(costv.len() as int) =~= costv);
        crate::greedy::lemma_avail_props(costv, corev);
    }
    let ghost filteredv = spec_filtered(poolv, max_cost, corev);
    proof {
        assert(champs_view(filtered_vec@) == filteredv);
    }

    // Per requirement: the eligible champions and the count still to draw
    // once the bonus offset is applied.
    let mut requirement_data: Vec<(Vec<Champion>, usize)> = Vec::new();
    let mut ri: usize = 0;
    while ri < trait_requirements.len()
        invariant
            ri <= reqsv.len(),
            requirement_data@.len() == ri,
            forall|j: int|
                0 <= j < ri ==> champs_view((#[trigger] requirement_data@[j]).0@)
                    == spec_eligible(filteredv, reqsv[j].0, max_cost) && requirement_data@[j].1
                    as int == spec_actual_count(
                    reqsv[j].1,
                    spec_bonus_for(bonusesv, reqsv[j].0),
                ),
        decreases reqsv.len() - ri,
    {
        let name = &trait_requirements[ri].0;
        let required_count = trait_requirements[ri].1;
        let emblem = bonus_value_for(trait_bonuses, name) as usize;
        let actual_count = if required_count >= emblem {
            required_count - emblem
        } else {
            0
        };
        let mut eligible: Vec<Champion> = Vec::new();
        let mut e: usize = 0;
        while e < filtered_vec.len()
            invariant
                e <= filteredv.len(),
                champs_view(eligible@) == spec_eligible(
                    filteredv.take(e as int),
                    name@,
                    max_cost,
                ),
            decreases filteredv.len() - e,
        {
            proof {
                assert(filteredv.take(e + 1).drop_last() =~= filteredv.take(e as int));
                assert(filteredv.take(e + 1).last() == filteredv[e as int]);
            }
            let c = &filtered_vec[e];
            if crate::champions::contains_name(&c.traits, name) && c.cost <= max_cost {
                eligible.push(c.clone());
                proof {
                    assert(champs_view(eligible@) =~= spec_eligible(
                        filteredv.take(e + 1),
                        name@,
                        max_cost,
                    ));
                }
            }
            e = e + 1;
        }
        proof {
            assert(filteredv.take(filteredv.len() as int) =~= filteredv);
            assert(name@ == reqsv[ri as int].0);
        }
        requirement_data.push((eligible, actual_count));
        ri = ri + 1;
    }

    // A requirement with fewer eligible champions than it needs is
    // unsatisfiable.
    let mut s: usize = 0;
    while s < requirement_data.len()
        invariant
            s <= reqsv.len(),
            forall|j: int|
                0 <= j < s ==> spec_eligible(filteredv, reqsv[j].0, max_cost).len()
                    >= spec_actual_count(reqsv[j].1, spec_bonus_for(bonusesv, reqsv[j].0)),
        decreases reqsv.len() - s,
    {
        if requirement_data[s].0.len() < requirement_data[s].1 {
            return None;
        }
        s = s + 1;
    }
    proof {
        assert(!spec_shortfall(poolv, reqsv, bonusesv, max_cost, corev));
    }

    // One combination list per requirement.
    let ghost req_listsv = spec_req_lists(filteredv, reqsv, bonusesv, max_cost);
    let mut lists: Vec<Vec<Vec<Champion>>> = Vec::new();
    let mut li: usize = 0;
    while li < requirement_data.len()
        invariant
            li <= reqsv.len(),
            lists@.len() == li,
            forall|j: int|
                0 <= j < li ==> combo_views((#[trigger] lists@[j])@) == req_listsv[j],
        decreases reqsv.len() - li,
    {
        let combos_li = combinations(&requirement_data[li].0, requirement_data[li].1);
        lists.push(combos_li);
        li = li + 1;
    }
    proof {
        assert(list_views(lists@) =~= req_listsv);
    }

    let ghost tuplesv = spec_tuples(poolv, reqsv, bonusesv, max_cost, corev);
    proof {
        assert(tuplesv == spec_product_from(req_listsv, 0));
        lemma_product_len(req_listsv, 0);
    }

    // Every tuple draws exactly the required number of units, all from the
    // filtered pool.
    let ghost lensv = Seq::new(
        reqsv.len() as nat,
        |i: int| spec_actual_count(reqsv[i].1, spec_bonus_for(bonusesv, reqsv[i].0)),
    );
    proof {
        assert forall|a: int, j: int|
            0 <= a < req_listsv.len() && 0 <= j < req_listsv[a].len() implies (
        #[trigger] req_listsv[a][j]).len() == lensv[a] by {
            lemma_combos_members(spec_eligible(filteredv, reqsv[a].0, max_cost), lensv[a]);
        }
        assert forall|a: int, j: int, m: int|
            0 <= a < req_listsv.len() && 0 <= j < req_listsv[a].len() && 0 <= m
                < req_listsv[a][j].len() implies filteredv.contains(
            #[trigger] req_listsv[a][j][m],
        ) by {
            lemma_combos_members(spec_eligible(filteredv, reqsv[a].0, max_cost), lensv[a]);
            assert(spec_eligible(filteredv, reqsv[a].0, max_cost).contains(req_listsv[a][j][m]));
            lemma_eligible_members(filteredv, reqsv[a].0, max_cost);
            let w = choose|w: int|
                0 <= w < spec_eligible(filteredv, reqsv[a].0, max_cost).len() && spec_eligible(
                    filteredv,
                    reqsv[a].0,
                    max_cost,
                )[w] == req_listsv[a][j][m];
        }
        lemma_product_members(req_listsv, lensv, filteredv, 0);
        lemma_actuals_le_total(reqsv, lensv, 0);
    }

    // The shortfall check passed, so every choice list offers at least
    // one combination and the all-zero odometer below starts in range.
    proof {
        assert forall|q: int|
            0 <= q < req_listsv.len() implies (#[trigger] req_listsv[q]).len() >= 1 by {
            lemma_combos_nonempty(spec_eligible(filteredv, reqsv[q].0, max_cost), lensv[q]);
        }
    }
    let mut idx: Vec<usize> = Vec::new();
    let mut z: usize = 0;
    while z < lists.len()
        invariant
            z <= lists@.len(),
            idx@.len() == z,
            forall|q: int| 0 <= q < z ==> (#[trigger] idx@[q]) == 0,
        decreases lists@.len() - z,
    {
        idx.push(0);
        z = z + 1;
    }
    proof {
        let iv = idx@.map_values(|u: usize| u as int);
        assert(iv.len() == idx@.len());
        assert forall|r: int|
            0 <= r < req_listsv.len() implies 0 <= #[trigger] iv[r] < req_listsv[r].len() by {
            assert(idx@[r] == 0);
            assert(req_listsv[r].len() >= 1);
        }
        assert forall|r: int| 0 <= r < req_listsv.len() implies #[trigger] iv[r] == 0 by {
            assert(idx@[r] == 0);
        }
        lemma_mixed_zero(req_listsv, iv, 0);
        lemma_product_index(req_listsv, iv, 0);
    }

    let mut best_comp: Option<OptimalComp> = None;
    let mut best_score: usize = 0;
    let ghost mut pos: int = 0;
    let mut more = true;
    while more
        invariant
            0 <= pos <= tuplesv.len(),
            idx@.len() == lists@.len(),
            forall|q: int| 0 <= q < idx@.len() ==> (#[trigger] idx@[q]) < lists@[q]@.len(),
            more ==> mixed_pos(req_listsv, idx@.map_values(|u: usize| u as int), 0) == pos,
            !more ==> pos == tuplesv.len(),
            best_score as int == (match best_comp {
                Some(c) => c@.total_traits_activated,
                None => 0int,
            }),
            best_comp is None ==> forall|j: int|
                0 <= j < pos ==> #[trigger] spec_eval_at(
                    poolv,
                    reqsv,
                    bonusesv,
                    max_cost,
                    corev,
                    traitsv,
                    team_size as int,
                    j,
                ) is None,
            forall|j: int|
                0 <= j < pos && #[trigger] spec_eval_at(
                    poolv,
                    reqsv,
                    bonusesv,
                    max_cost,
                    corev,
                    traitsv,
                    team_size as int,
                    j,
                ) is Some ==> best_score as int >= spec_eval_at(
                    poolv,
                    reqsv,
                    bonusesv,
                    max_cost,
                    corev,
                    traitsv,
                    team_size as int,
                    j,
                )->Some_0.total_traits_activated,
            best_comp is Some ==> exists|j: int|
                0 <= j < pos && #[trigger] spec_eval_at(
                    poolv,
                    reqsv,
                    bonusesv,
                    max_cost,
                    corev,
                    traitsv,
                    team_size as int,
                    j,
                ) == Some(best_comp->Some_0@) && (forall|k: int|
                    0 <= k < j && #[trigger] spec_eval_at(
                        poolv,
                        reqsv,
                        bonusesv,
                        max_cost,
                        corev,
                        traitsv,
                        team_size as int,
                        k,
                    ) is Some ==> spec_eval_at(
                        poolv,
                        reqsv,
                        bonusesv,
                        max_cost,
                        corev,
                        traitsv,
                        team_size as int,
                        k,
                    )->Some_0.total_traits_activated < best_comp->Some_0@.total_traits_activated),
            best_comp is Some ==> distinct_ids(best_comp->Some_0@.units),
        decreases tuplesv.len() - pos,
    {
        let rs_vec = tuple_at(&lists, &idx);
        let ghost rsv = tuplesv[pos];
        proof {
            let ivb = idx@.map_values(|u: usize| u as int);
            assert(ivb.len() == idx@.len());
            assert forall|r: int|
                0 <= r < req_listsv.len() implies 0 <= #[trigger] ivb[r] < req_listsv[r].len() by {
                assert(idx@[r] < lists@[r]@.len());
                assert(req_listsv[r] == combo_views(lists@[r]@));
                assert(combo_views(lists@[r]@).len() == lists@[r]@.len());
            }
            lemma_product_index(req_listsv, ivb, 0);
            assert(champs_view(rs_vec@) == rsv);
            assert(rsv.len() == lens_sum_from(lensv, 0));
        }
        let ev = evaluate_required_set(
            champion_pool,
            traits,
            trait_bonuses,
            &filtered_vec,
            core_unit_ids,
            team_size,
            max_cost,
            &rs_vec,
        );
        proof {
            assert(spec_eval_at(
                poolv,
                reqsv,
                bonusesv,
                max_cost,
                corev,
                traitsv,
                team_size as int,
                pos,
            ) == spec_eval(
                poolv,
                traitsv,
                bonusesv,
                filteredv,
                corev,
                team_size as int,
                tuplesv[pos],
            ));
        }
        match ev {
            Some(comp) => {
                let score = comp.total_traits_activated;
                if best_comp.is_none() || score > best_score {
                    let ghost prev_best: usize = best_score;
                    let ghost had_best = best_comp is Some;
                    best_score = score;
                    best_comp = Some(comp);
                    proof {
                        assert(spec_eval_at(
                            poolv,
                            reqsv,
                            bonusesv,
                            max_cost,
                            corev,
                            traitsv,
                            team_size as int,
                            pos,
                        ) == Some(best_comp->Some_0@));
                        // Every earlier evaluation scored no more than the
                        // previous best, which this one strictly beats.
                        assert forall|k: int|
                            0 <= k < pos && #[trigger] spec_eval_at(
                                poolv,
                                reqsv,
                                bonusesv,
                                max_cost,
                                corev,
                                traitsv,
                                team_size as int,
                                k,
                            ) is Some implies spec_eval_at(
                            poolv,
                            reqsv,
                            bonusesv,
                            max_cost,
                            corev,
                            traitsv,
                            team_size as int,
                            k,
                        )->Some_0.total_traits_activated < best_comp->Some_0@.total_traits_activated by {
                            // Before this tuple either nothing had evaluated
                            // at all, or every evaluation scored at most the
                            // previous best, which this one strictly beats.
                            assert(had_best);
                            assert(prev_best as int >= spec_eval_at(
                                poolv,
                                reqsv,
                                bonusesv,
                                max_cost,
                                corev,
                                traitsv,
                                team_size as int,
                                k,
                            )->Some_0.total_traits_activated);
                            assert(prev_best < score);
                        }
                    }
                }
            },
            None => {},
        }
        more = advance(&lists, &mut idx);
        proof {
            pos = pos + 1;
            if !more {
                lemma_product_len(req_listsv, 0);
            }
        }
    }
    best_comp
}

} // verus!
