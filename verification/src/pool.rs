//! The working set of the alias-table construction, as a mathematical object.
//!
//! A pool has one position per outcome. Position `k` holds the weight that
//! outcome `k` still has to place, scaled by the number of outcomes so that a
//! full slot weighs exactly `ONE`, or `None` once the outcome has been given
//! its slot.

use vstd::prelude::*;

use crate::entry::ONE;

verus! {

/// Outcome `k` is still in the working set.
pub open spec fn live(pool: Seq<Option<int>>, k: int) -> bool {
    0 <= k < pool.len() && pool[k] is Some
}

/// The weight that outcome `k` still holds; meaningful where `live(pool, k)`.
pub open spec fn weight(pool: Seq<Option<int>>, k: int) -> int {
    pool[k]->0
}

/// The weight that outcome `k` still holds, zero once it has left the pool.
pub open spec fn held(pool: Seq<Option<int>>, k: int) -> int {
    if live(pool, k) {
        weight(pool, k)
    } else {
        0
    }
}

/// How many outcomes are still in the working set.
pub open spec fn live_count(pool: Seq<Option<int>>) -> nat
    decreases pool.len(),
{
    if pool.len() == 0 {
        0
    } else {
        live_count(pool.drop_last()) + if pool.last() is Some {
            1nat
        } else {
            0nat
        }
    }
}

/// The weight still held by the whole working set.
pub open spec fn pool_sum(pool: Seq<Option<int>>) -> int
    decreases pool.len(),
{
    if pool.len() == 0 {
        0
    } else {
        pool_sum(pool.drop_last()) + match pool.last() {
            Some(w) => w,
            None => 0,
        }
    }
}

/// `k` is the outcome that comes last when the working set is ordered by
/// weight, heaviest first, equal weights by ascending outcome: it holds the
/// least weight, and among those of least weight it is the highest outcome.
pub open spec fn is_donor(pool: Seq<Option<int>>, k: int) -> bool {
    &&& live(pool, k)
    &&& forall|j: int| #[trigger]
        live(pool, j) ==> weight(pool, k) < weight(pool, j) || (weight(pool, k) == weight(
            pool,
            j,
        ) && j <= k)
}

/// `k` is the outcome that comes first in that order: it holds the greatest
/// weight, and among those of greatest weight it is the lowest outcome.
pub open spec fn is_donee(pool: Seq<Option<int>>, k: int) -> bool {
    &&& live(pool, k)
    &&& forall|j: int| #[trigger]
        live(pool, j) ==> weight(pool, k) > weight(pool, j) || (weight(pool, k) == weight(
            pool,
            j,
        ) && k <= j)
}

/// The donor of a pool that is not empty.
pub open spec fn donor(pool: Seq<Option<int>>) -> int {
    choose|k: int| is_donor(pool, k)
}

/// The donee of a pool that is not empty.
pub open spec fn donee(pool: Seq<Option<int>>) -> int {
    choose|k: int| is_donee(pool, k)
}

/// One round of the construction: the donor leaves the pool with a slot of its
/// own, and the donee pays what the donor's weight leaves free in that slot.
pub open spec fn pair_off(pool: Seq<Option<int>>) -> Seq<Option<int>> {
    let d = donor(pool);
    let e = donee(pool);
    pool.update(d, None).update(e, Some(weight(pool, e) - (ONE - weight(pool, d))))
}

/// A pool that the construction can work on without leaving the range of the
/// machine's integers: no weight is negative, and the weights add up to one
/// full slot for each outcome left, but for `excess`, which is less than a
/// thousandth of a slot either way.
pub open spec fn balanced(pool: Seq<Option<int>>, excess: int) -> bool {
    &&& pool.len() <= usize::MAX
    &&& live_count(pool) >= 1
    &&& forall|j: int| #[trigger] live(pool, j) ==> weight(pool, j) >= 0
    &&& pool_sum(pool) == live_count(pool) * ONE + excess
    &&& -ONE < 1000 * excess < ONE
}

/// Replacing one position changes the count and the sum by that position alone.
pub proof fn lemma_update(pool: Seq<Option<int>>, k: int, v: Option<int>)
    requires
        0 <= k < pool.len(),
    ensures
        live_count(pool.update(k, v)) == live_count(pool) - (if pool[k] is Some {
            1int
        } else {
            0int
        }) + (if v is Some {
            1int
        } else {
            0int
        }),
        pool_sum(pool.update(k, v)) == pool_sum(pool) - held(pool, k) + (match v {
            Some(w) => w,
            None => 0,
        }),
    decreases pool.len(),
{
    let after = pool.update(k, v);
    if k == pool.len() - 1 {
        assert(after.drop_last() =~= pool.drop_last());
    } else {
        assert(after.drop_last() =~= pool.drop_last().update(k, v));
        lemma_update(pool.drop_last(), k, v);
    }
}

/// A pool with a live outcome counts at least one.
pub proof fn lemma_live_counted(pool: Seq<Option<int>>, k: int)
    requires
        live(pool, k),
    ensures
        live_count(pool) >= 1,
    decreases pool.len(),
{
    if k < pool.len() - 1 {
        lemma_live_counted(pool.drop_last(), k);
    }
}

/// A pool without a live outcome counts none and holds nothing.
pub proof fn lemma_none_live(pool: Seq<Option<int>>)
    requires
        forall|j: int| !live(pool, j),
    ensures
        live_count(pool) == 0,
        pool_sum(pool) == 0,
    decreases pool.len(),
{
    if pool.len() > 0 {
        let rest = pool.drop_last();
        assert(!live(pool, pool.len() - 1));
        assert forall|j: int| !live(rest, j) by {
            assert(!live(pool, j));
        }
        lemma_none_live(rest);
    }
}

/// A pool that is not empty has a donor.
pub proof fn lemma_has_donor(pool: Seq<Option<int>>) -> (k: int)
    requires
        live_count(pool) >= 1,
    ensures
        is_donor(pool, k),
        k == donor(pool),
    decreases pool.len(),
{
    let top = pool.len() - 1;
    let rest = pool.drop_last();
    let k = if live_count(rest) == 0 {
        assert forall|j: int| live(pool, j) implies j == top by {
            if j < top {
                assert(live(rest, j));
                lemma_live_counted(rest, j);
            }
        }
        top
    } else {
        let d = lemma_has_donor(rest);
        if pool[top] is Some && pool[top]->0 <= weight(rest, d) {
            assert forall|j: int| live(pool, j) implies weight(pool, top) < weight(pool, j) || (
            weight(pool, top) == weight(pool, j) && j <= top) by {
                if j < top {
                    assert(live(rest, j));
                }
            }
            top
        } else {
            assert forall|j: int| live(pool, j) implies weight(pool, d) < weight(pool, j) || (
            weight(pool, d) == weight(pool, j) && j <= d) by {
                if j < top {
                    assert(live(rest, j));
                }
            }
            d
        }
    };
    lemma_donor_unique(pool, k, donor(pool));
    k
}

/// A pool that is not empty has a donee.
pub proof fn lemma_has_donee(pool: Seq<Option<int>>) -> (k: int)
    requires
        live_count(pool) >= 1,
    ensures
        is_donee(pool, k),
        k == donee(pool),
    decreases pool.len(),
{
    let top = pool.len() - 1;
    let rest = pool.drop_last();
    let k = if live_count(rest) == 0 {
        assert forall|j: int| live(pool, j) implies j == top by {
            if j < top {
                assert(live(rest, j));
                lemma_live_counted(rest, j);
            }
        }
        top
    } else {
        let e = lemma_has_donee(rest);
        if pool[top] is Some && pool[top]->0 > weight(rest, e) {
            assert forall|j: int| live(pool, j) implies weight(pool, top) > weight(pool, j) || (
            weight(pool, top) == weight(pool, j) && top <= j) by {
                if j < top {
                    assert(live(rest, j));
                }
            }
            top
        } else {
            assert forall|j: int| live(pool, j) implies weight(pool, e) > weight(pool, j) || (
            weight(pool, e) == weight(pool, j) && e <= j) by {
                if j < top {
                    assert(live(rest, j));
                }
            }
            e
        }
    };
    lemma_donee_unique(pool, k, donee(pool));
    k
}

/// No pool has two donors.
pub proof fn lemma_donor_unique(pool: Seq<Option<int>>, a: int, b: int)
    requires
        is_donor(pool, a),
    ensures
        is_donor(pool, b) ==> a == b,
        is_donor(pool, donor(pool)),
{
    if is_donor(pool, b) {
        assert(live(pool, a) && live(pool, b));
    }
}

/// No pool has two donees.
pub proof fn lemma_donee_unique(pool: Seq<Option<int>>, a: int, b: int)
    requires
        is_donee(pool, a),
    ensures
        is_donee(pool, b) ==> a == b,
        is_donee(pool, donee(pool)),
{
    if is_donee(pool, b) {
        assert(live(pool, a) && live(pool, b));
    }
}

/// In a pool of two or more the donor and the donee are two outcomes.
pub proof fn lemma_donor_is_not_donee(pool: Seq<Option<int>>)
    requires
        live_count(pool) >= 2,
    ensures
        is_donor(pool, donor(pool)),
        is_donee(pool, donee(pool)),
        donor(pool) != donee(pool),
{
    let d = lemma_has_donor(pool);
    let e = lemma_has_donee(pool);
    if d == e {
        let rest = pool.update(d, None);
        assert forall|j: int| !live(rest, j) by {
            if live(rest, j) {
                assert(live(pool, j));
            }
        }
        lemma_none_live(rest);
        lemma_update(pool, d, None);
    }
}

/// A round takes one outcome and one full slot out of the pool, and leaves
/// every outcome but the donor and the donee as it was.
pub proof fn lemma_pair_off(pool: Seq<Option<int>>)
    requires
        live_count(pool) >= 2,
    ensures
        is_donor(pool, donor(pool)),
        is_donee(pool, donee(pool)),
        donor(pool) != donee(pool),
        pair_off(pool).len() == pool.len(),
        live_count(pair_off(pool)) == live_count(pool) - 1,
        pool_sum(pair_off(pool)) == pool_sum(pool) - ONE,
        !live(pair_off(pool), donor(pool)),
        live(pair_off(pool), donee(pool)),
        weight(pair_off(pool), donee(pool)) == weight(pool, donee(pool)) - (ONE - weight(
            pool,
            donor(pool),
        )),
        forall|j: int|
            j != donor(pool) && j != donee(pool) ==> (#[trigger] live(pair_off(pool), j) <==> live(
                pool,
                j,
            )) && (live(pool, j) ==> weight(pair_off(pool), j) == weight(pool, j)),
{
    lemma_donor_is_not_donee(pool);
    let d = donor(pool);
    let e = donee(pool);
    let rest = pool.update(d, None);
    lemma_update(pool, d, None);
    lemma_update(rest, e, Some(weight(pool, e) - (ONE - weight(pool, d))));
}

/// The sum of a pool lies between its count times a lower and times an upper
/// bound of its weights.
pub proof fn lemma_sum_bounds(pool: Seq<Option<int>>, low: int, high: int)
    requires
        forall|j: int| #[trigger] live(pool, j) ==> low <= weight(pool, j) <= high,
    ensures
        live_count(pool) * low <= pool_sum(pool) <= live_count(pool) * high,
    decreases pool.len(),
{
    if pool.len() > 0 {
        let rest = pool.drop_last();
        let top = pool.len() - 1;
        assert forall|j: int| #[trigger] live(rest, j) implies low <= weight(rest, j) <= high by {
            assert(live(pool, j));
        }
        lemma_sum_bounds(rest, low, high);
        if pool[top] is Some {
            assert(live(pool, top));
            let c = live_count(rest) as int;
            assert((c + 1) * low == c * low + low) by (nonlinear_arith);
            assert((c + 1) * high == c * high + high) by (nonlinear_arith);
        }
    } else {
        assert(0 * low == 0 && 0 * high == 0) by (nonlinear_arith);
    }
}

/// In a pool without negative weights no outcome holds more than the sum.
pub proof fn lemma_weight_below_sum(pool: Seq<Option<int>>, k: int)
    requires
        forall|j: int| #[trigger] live(pool, j) ==> weight(pool, j) >= 0,
        live(pool, k),
    ensures
        weight(pool, k) <= pool_sum(pool),
{
    let rest = pool.update(k, None);
    lemma_update(pool, k, None);
    assert forall|j: int| #[trigger] live(rest, j) implies weight(rest, j) >= 0 by {
        assert(live(pool, j));
    }
    lemma_nonnegative_sum(rest);
}

/// A pool without negative weights has no negative sum.
pub proof fn lemma_nonnegative_sum(pool: Seq<Option<int>>)
    requires
        forall|j: int| #[trigger] live(pool, j) ==> weight(pool, j) >= 0,
    ensures
        pool_sum(pool) >= 0,
    decreases pool.len(),
{
    if pool.len() > 0 {
        let rest = pool.drop_last();
        assert forall|j: int| #[trigger] live(rest, j) implies weight(rest, j) >= 0 by {
            assert(live(pool, j));
        }
        lemma_nonnegative_sum(rest);
        if pool.last() is Some {
            assert(live(pool, pool.len() - 1));
        }
    }
}

/// A round on a balanced pool of two or more leaves a balanced pool, the
/// donor's weight fits a slot's threshold, and the donee can pay.
pub proof fn lemma_pair_off_balanced(pool: Seq<Option<int>>, excess: int)
    requires
        balanced(pool, excess),
        live_count(pool) >= 2,
    ensures
        balanced(pair_off(pool), excess),
        0 <= weight(pool, donor(pool)) < 2 * ONE,
        weight(pool, donee(pool)) >= ONE - weight(pool, donor(pool)),
        weight(pool, donee(pool)) <= pool_sum(pool),
{
    lemma_pair_off(pool);
    let d = donor(pool);
    let e = donee(pool);
    let r = live_count(pool) as int;
    let m = weight(pool, d);
    let big = weight(pool, e);
    let sum = pool_sum(pool);
    assert(live(pool, d) && live(pool, e));
    assert forall|j: int| #[trigger] live(pool, j) implies m <= weight(pool, j) <= big by {}
    lemma_sum_bounds(pool, m, big);
    lemma_weight_below_sum(pool, e);
    assert(m < 2 * ONE) by (nonlinear_arith)
        requires
            r >= 2,
            r * m <= sum,
            sum == r * ONE + excess,
            1000 * excess < ONE,
            ONE > 0,
    ;
    let rest = pool.update(d, None);
    lemma_update(pool, d, None);
    assert forall|j: int| #[trigger] live(rest, j) implies 0 <= weight(rest, j) <= big by {
        assert(live(pool, j));
    }
    lemma_sum_bounds(rest, 0, big);
    assert(big >= ONE - m) by (nonlinear_arith)
        requires
            r >= 2,
            m >= 0,
            sum - m <= (r - 1) * big,
            sum == r * ONE + excess,
            -ONE < 1000 * excess,
            ONE > 0,
    ;
    let after = pair_off(pool);
    assert forall|j: int| #[trigger] live(after, j) implies weight(after, j) >= 0 by {
        if j != e {
            assert(j != d);
            assert(live(pool, j));
        }
    }
    assert((r - 1) * ONE == r * ONE - ONE) by (nonlinear_arith);
}

/// `k` is the one outcome left in the pool.
pub open spec fn is_only(pool: Seq<Option<int>>, k: int) -> bool {
    live(pool, k) && forall|j: int| #[trigger] live(pool, j) ==> j == k
}

/// In a pool of one the only outcome is the donor and holds the whole sum.
pub proof fn lemma_last_one(pool: Seq<Option<int>>)
    requires
        live_count(pool) == 1,
    ensures
        is_only(pool, donor(pool)),
        weight(pool, donor(pool)) == pool_sum(pool),
{
    let d = lemma_has_donor(pool);
    let rest = pool.update(d, None);
    lemma_update(pool, d, None);
    if exists|j: int| live(rest, j) {
        let j = choose|j: int| live(rest, j);
        lemma_live_counted(rest, j);
    }
    lemma_none_live(rest);
    assert forall|j: int| live(pool, j) implies j == d by {
        if j != d {
            assert(live(rest, j));
        }
    }
}

} // verus!
