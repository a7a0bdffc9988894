//! What holds of every alias table that the construction builds.

use vstd::prelude::*;

use crate::entry::AliasEntry;
use crate::entry::ONE;
use crate::pool::balanced;
use crate::pool::donee;
use crate::pool::donor;
use crate::pool::held;
use crate::pool::lemma_last_one;
use crate::pool::lemma_pair_off;
use crate::pool::lemma_pair_off_balanced;
use crate::pool::live;
use crate::pool::live_count;
use crate::pool::pair_off;
use crate::pool::pool_sum;
use crate::pool::weight;
use crate::table::alias_entries;
use crate::table::alias_table;
use crate::table::excess;
use crate::table::is_normalized;
use crate::table::lemma_scaled_pool;
use crate::table::lemma_start_balanced;
use crate::table::leftover;
use crate::table::outcome_of;
use crate::table::scaled_pool;
use crate::table::total;
use crate::table::well_formed;

verus! {

/// The mass that one slot gives to outcome `k`: its threshold where `k` is
/// the slot's own outcome, the rest of the slot where `k` is its alias.
pub open spec fn share(entry: AliasEntry, k: int) -> int {
    (if entry.val == k {
        entry.prob_of_val as int
    } else {
        0
    }) + (if entry.alias == k {
        ONE - entry.prob_of_val
    } else {
        0
    })
}

/// The mass that a table gives to outcome `k`, in the unit of a pool's
/// weights: with every slot as likely as any other, and a slot's own outcome
/// taken with probability `prob_of_val / ONE`, outcome `k` has probability
/// `mass / (table.len() * ONE)`.
pub open spec fn mass(table: Seq<AliasEntry>, k: int) -> int
    decreases table.len(),
{
    if table.len() == 0 {
        0
    } else {
        share(table.first(), k) + mass(table.drop_first(), k)
    }
}

/// The slots given out from a balanced pool on: there is one for each outcome
/// left, each outcome left has exactly one slot of its own, aliases are
/// outcomes left too, thresholds fit, and each outcome gets from the slots the
/// weight that it holds, but for the last, which gets a full slot in place of
/// a full slot and the excess.
pub proof fn lemma_entries(pool: Seq<Option<int>>, off: int)
    requires
        balanced(pool, off),
    ensures
        ({
            let t = alias_entries(pool, live_count(pool));
            &&& t.len() == live_count(pool)
            &&& forall|i: int| 0 <= i < t.len() ==> live(pool, (#[trigger] t[i]).val as int)
            &&& forall|i: int, j: int| 0 <= i < j < t.len() ==> t[i].val != t[j].val
            &&& forall|i: int|
                0 <= i < t.len() - 1 ==> live(pool, (#[trigger] t[i]).alias as int) && t[i].alias
                    != t[i].val && t[i].prob_of_val < 2 * ONE
            &&& t.last().alias == usize::MAX
            &&& t.last().prob_of_val == ONE
            &&& forall|k: int|
                0 <= k < pool.len() ==> #[trigger] mass(t, k) == held(pool, k) - (if k
                    == t.last().val {
                    off
                } else {
                    0
                })
        }),
    decreases live_count(pool),
{
    let r = live_count(pool);
    let t = alias_entries(pool, r);
    if r == 1 {
        lemma_last_one(pool);
        let d = donor(pool);
        assert(t =~= seq![AliasEntry { val: d as usize, alias: usize::MAX, prob_of_val: ONE }]);
        assert(t.drop_first() =~= Seq::<AliasEntry>::empty());
        assert forall|k: int| 0 <= k < pool.len() implies #[trigger] mass(t, k) == held(pool, k) - (
        if k == t.last().val {
            off
        } else {
            0
        }) by {
            assert(mass(t.drop_first(), k) == 0);
            if k != d {
                assert(!live(pool, k));
            }
        }
    } else {
        lemma_pair_off(pool);
        lemma_pair_off_balanced(pool, off);
        let d = donor(pool);
        let e = donee(pool);
        let next = pair_off(pool);
        let rest = alias_entries(next, (r - 1) as nat);
        lemma_entries(next, off);
        let head = AliasEntry {
            val: d as usize,
            alias: e as usize,
            prob_of_val: weight(pool, d) as u64,
        };
        assert(t =~= seq![head] + rest);
        assert(t.drop_first() =~= rest);
        assert(live(pool, d) && live(pool, e));
        assert forall|i: int| 0 <= i < t.len() implies live(pool, (#[trigger] t[i]).val as int) by {
            if i > 0 {
                assert(t[i] == rest[i - 1]);
                let v = rest[i - 1].val as int;
                assert(live(next, v));
                if v != e {
                    assert(v != d);
                }
            }
        }
        assert forall|i: int, j: int| 0 <= i < j < t.len() implies t[i].val != t[j].val by {
            assert(t[j] == rest[j - 1]);
            assert(live(next, rest[j - 1].val as int));
            if i > 0 {
                assert(t[i] == rest[i - 1]);
            }
        }
        assert forall|i: int| 0 <= i < t.len() - 1 implies live(pool, (#[trigger] t[i]).alias as int)
            && t[i].alias != t[i].val && t[i].prob_of_val < 2 * ONE by {
            if i > 0 {
                assert(t[i] == rest[i - 1]);
                let a = rest[i - 1].alias as int;
                assert(live(next, a));
                if a != e {
                    assert(a != d);
                }
            }
        }
        assert(t.last() == rest.last());
        assert(live(next, rest.last().val as int));
        assert forall|k: int| 0 <= k < pool.len() implies #[trigger] mass(t, k) == held(pool, k) - (
        if k == t.last().val {
            off
        } else {
            0
        }) by {
            assert(mass(t, k) == share(head, k) + mass(rest, k));
            if k != d && k != e {
                assert(live(next, k) <==> live(pool, k));
            }
        }
    }
}

/// The table of accepted weights has one slot for each outcome and the shape
/// of an alias table, and each outcome is the own outcome of exactly one slot.
pub proof fn lemma_table_shape(weights: Seq<u64>)
    requires
        is_normalized(weights),
        weights.len() <= usize::MAX,
    ensures
        alias_table(weights).len() == weights.len(),
        well_formed(alias_table(weights)),
        forall|i: int, j: int|
            0 <= i < j < weights.len() ==> alias_table(weights)[i].val != alias_table(
                weights,
            )[j].val,
        forall|i: int|
            0 <= i < weights.len() - 1 ==> (#[trigger] alias_table(weights)[i]).alias
                != alias_table(weights)[i].val,
{
    lemma_start_balanced(weights);
    lemma_entries(scaled_pool(weights, weights.len() as int), excess(weights));
}

/// Conservation: where the weights add up to `ONE` exactly, the table gives
/// every outcome exactly its weight. The mass of outcome `k` over all slots,
/// each slot counting for one part in `weights.len()`, is `weights[k]`.
pub proof fn lemma_conservation(weights: Seq<u64>, k: int)
    requires
        0 <= k < weights.len() <= usize::MAX,
        total(weights) == ONE,
    ensures
        is_normalized(weights),
        mass(alias_table(weights), k) == weights.len() * weights[k],
{
    assert(weights.len() * (total(weights) - ONE) == 0) by (nonlinear_arith)
        requires
            total(weights) - ONE == 0,
    ;
    lemma_conservation_within_tolerance(weights, k);
}

/// Conservation within the tolerance: the table of accepted weights gives
/// every outcome exactly its weight, but for the own outcome of the last
/// slot, which gets its weight less the excess of the weights, and the excess
/// is under a thousandth of a slot.
pub proof fn lemma_conservation_within_tolerance(weights: Seq<u64>, k: int)
    requires
        is_normalized(weights),
        0 <= k < weights.len() <= usize::MAX,
    ensures
        mass(alias_table(weights), k) == weights.len() * weights[k] - (if k == alias_table(
            weights,
        ).last().val {
            excess(weights)
        } else {
            0
        }),
        -ONE < 1000 * excess(weights) < ONE,
{
    let pool = scaled_pool(weights, weights.len() as int);
    lemma_start_balanced(weights);
    lemma_entries(pool, excess(weights));
    assert(live(pool, k));
    assert(held(pool, k) == weights[k] * weights.len());
    assert(weights[k] * weights.len() == weights.len() * weights[k]) by (nonlinear_arith);
}

/// Range safety: whatever slot and coin are drawn, a table of accepted
/// weights yields one of the outcomes, never the mark of the last slot.
pub proof fn lemma_outcome_in_range(weights: Seq<u64>, slot: int, coin: u64)
    requires
        is_normalized(weights),
        weights.len() <= usize::MAX,
        0 <= slot < weights.len(),
        coin < ONE,
    ensures
        outcome_of(alias_table(weights), slot, coin) < weights.len(),
{
    lemma_table_shape(weights);
    lemma_well_formed_in_range(alias_table(weights), slot, coin);
}

/// Range safety of any table of the shape of an alias table.
pub proof fn lemma_well_formed_in_range(table: Seq<AliasEntry>, slot: int, coin: u64)
    requires
        well_formed(table),
        0 <= slot < table.len(),
        coin < ONE,
    ensures
        outcome_of(table, slot, coin) < table.len(),
{
    let entry = table[slot];
    if slot == table.len() - 1 {
        assert(entry == table.last());
    }
}

/// A distribution over one outcome always yields that outcome.
pub proof fn lemma_single_outcome(weights: Seq<u64>, coin: u64)
    requires
        weights.len() == 1,
        is_normalized(weights),
        coin < ONE,
    ensures
        alias_table(weights) == seq![AliasEntry { val: 0, alias: usize::MAX, prob_of_val: ONE }],
        outcome_of(alias_table(weights), 0, coin) == 0,
{
    lemma_table_shape(weights);
    let t = alias_table(weights);
    assert(t[0] == t.last());
    assert(t =~= seq![AliasEntry { val: 0, alias: usize::MAX, prob_of_val: ONE }]);
}

/// The outcomes of a run of draws, each a slot and a coin.
pub open spec fn outcomes(table: Seq<AliasEntry>, draws: Seq<(int, u64)>) -> Seq<usize> {
    Seq::new(draws.len(), |i: int| outcome_of(table, draws[i].0, draws[i].1))
}

/// Determinism: the same weights and the same draws give the same outcomes.
pub proof fn lemma_same_draws_same_outcomes(
    first: Seq<u64>,
    second: Seq<u64>,
    draws: Seq<(int, u64)>,
)
    requires
        first =~= second,
    ensures
        alias_table(first) == alias_table(second),
        outcomes(alias_table(first), draws) == outcomes(alias_table(second), draws),
{
}

/// Weights whose sum misses `ONE` by a thousandth or more are turned down,
/// however many there are.
pub proof fn lemma_rejects_wrong_sum(weights: Seq<u64>)
    requires
        1000 * (total(weights) - ONE) >= ONE || 1000 * (ONE - total(weights)) >= ONE,
    ensures
        !is_normalized(weights),
{
    let n = weights.len() as int;
    let gap = total(weights) - ONE;
    if n > 0 {
        assert(1000 * (n * gap) >= ONE || 1000 * (n * gap) <= -ONE) by (nonlinear_arith)
            requires
                n >= 1,
                1000 * gap >= ONE || 1000 * gap <= -ONE,
                ONE > 0,
        ;
    }
}

/// The weight that the last outcome holds when all others have their slots
/// is a full slot and the excess of the weights: the construction's test of
/// that weight is a test of the sum of the weights.
pub proof fn lemma_last_weight(weights: Seq<u64>)
    requires
        weights.len() > 0,
    ensures
        leftover(scaled_pool(weights, weights.len() as int), weights.len()) == ONE + excess(
            weights,
        ),
{
    let n = weights.len() as int;
    let pool = scaled_pool(weights, n);
    lemma_scaled_pool(weights, n);
    lemma_leftover(pool);
    assert(n * total(weights) - (n - 1) * ONE == ONE + n * (total(weights) - ONE))
        by (nonlinear_arith);
}

/// Each round takes a full slot from the pool, so the last outcome holds
/// what the pool held less a full slot for every other outcome.
pub proof fn lemma_leftover(pool: Seq<Option<int>>)
    requires
        live_count(pool) >= 1,
    ensures
        leftover(pool, live_count(pool)) == pool_sum(pool) - (live_count(pool) - 1) * ONE,
    decreases live_count(pool),
{
    if live_count(pool) == 1 {
        lemma_last_one(pool);
    } else {
        lemma_pair_off(pool);
        lemma_leftover(pair_off(pool));
    }
}

} // verus!
