//! Building an alias table from a vector of fixed-point weights.

use vstd::prelude::*;

use crate::entry::AliasEntry;
use crate::entry::ONE;
use crate::pool::balanced;
use crate::pool::donee;
use crate::pool::donor;
use crate::pool::is_donee;
use crate::pool::is_donor;
use crate::pool::lemma_donee_unique;
use crate::pool::lemma_donor_unique;
use crate::pool::lemma_none_live;
use crate::pool::lemma_pair_off;
use crate::pool::lemma_pair_off_balanced;
use crate::pool::live;
use crate::pool::live_count;
use crate::pool::pair_off;
use crate::pool::pool_sum;
use crate::pool::weight;

verus! {

/// Why a weight vector was turned down.
#[derive(Clone, Copy, Debug, PartialEq, Eq, Structural)]
pub enum TableError {
    /// There is no outcome to sample.
    Empty,
    /// The weights do not add up to `ONE` within the tolerance.
    NotNormalized,
}

/// The sum of the weights.
pub open spec fn total(weights: Seq<u64>) -> int
    decreases weights.len(),
{
    if weights.len() == 0 {
        0
    } else {
        total(weights.drop_last()) + weights.last()
    }
}

/// By how much the weights miss `ONE`, scaled by the number of outcomes. This
/// is what the last outcome left in the working set holds beyond a full slot.
pub open spec fn excess(weights: Seq<u64>) -> int {
    weights.len() * (total(weights) - ONE)
}

/// The scaled weight `w` is a full slot to within a thousandth.
pub open spec fn within_tolerance(w: int) -> bool {
    999 * ONE < 1000 * w < 1001 * ONE
}

/// The weights are accepted: there is at least one, and the weight left for
/// the last slot is a full slot to within a thousandth.
pub open spec fn is_normalized(weights: Seq<u64>) -> bool {
    weights.len() > 0 && within_tolerance(ONE + excess(weights))
}

/// The working set before the first round: every outcome with its weight
/// times `scale`, the number of outcomes.
pub open spec fn scaled_pool(weights: Seq<u64>, scale: int) -> Seq<Option<int>> {
    Seq::new(weights.len(), |k: int| Some(weights[k] * scale))
}

/// The slots that the construction gives out from `pool` on, with `remaining`
/// outcomes left in it: one round's slot after the other, and at the end the
/// slot of the last outcome, which has no alias and is never left.
pub open spec fn alias_entries(pool: Seq<Option<int>>, remaining: nat) -> Seq<AliasEntry>
    decreases remaining,
{
    if remaining <= 1 {
        seq![AliasEntry { val: donor(pool) as usize, alias: usize::MAX, prob_of_val: ONE }]
    } else {
        seq![
            AliasEntry {
                val: donor(pool) as usize,
                alias: donee(pool) as usize,
                prob_of_val: weight(pool, donor(pool)) as u64,
            },
        ] + alias_entries(pair_off(pool), (remaining - 1) as nat)
    }
}

/// The alias table of a weight vector.
pub open spec fn alias_table(weights: Seq<u64>) -> Seq<AliasEntry> {
    alias_entries(scaled_pool(weights, weights.len() as int), weights.len())
}

/// What a draw yields that landed on `slot` with the coin at `coin`, a value
/// below `ONE`: the slot's alias where the coin is above its threshold.
pub open spec fn outcome_of(table: Seq<AliasEntry>, slot: int, coin: u64) -> usize {
    if coin > table[slot].prob_of_val {
        table[slot].alias
    } else {
        table[slot].val
    }
}

/// What every alias table looks like: each slot's own outcome is an outcome
/// of the table, each slot but the last has an alias that is one too, and the
/// last slot has none and a threshold that no coin is above.
pub open spec fn well_formed(table: Seq<AliasEntry>) -> bool {
    &&& 0 < table.len() <= usize::MAX
    &&& forall|i: int| 0 <= i < table.len() ==> (#[trigger] table[i]).val < table.len()
    &&& forall|i: int| 0 <= i < table.len() - 1 ==> (#[trigger] table[i]).alias < table.len()
    &&& table.last().alias == usize::MAX
    &&& table.last().prob_of_val == ONE
}

/// The weight that the last outcome holds when all others have their slots.
pub open spec fn leftover(pool: Seq<Option<int>>, remaining: nat) -> int
    decreases remaining,
{
    if remaining <= 1 {
        weight(pool, donor(pool))
    } else {
        leftover(pair_off(pool), (remaining - 1) as nat)
    }
}

/// The working set that the construction holds in memory, as a pool.
spec fn as_pool(held: Seq<Option<u128>>) -> Seq<Option<int>> {
    Seq::new(
        held.len(),
        |k: int|
            match held[k] {
                Some(w) => Some(w as int),
                None => None,
            },
    )
}

/// Looks up the donor and the donee of the working set in one pass.
fn extremes(held: &Vec<Option<u128>>) -> (pair: (usize, usize))
    requires
        live_count(as_pool(held@)) >= 1,
    ensures
        pair.0 == donor(as_pool(held@)),
        pair.1 == donee(as_pool(held@)),
        is_donor(as_pool(held@), pair.0 as int),
        is_donee(as_pool(held@), pair.1 as int),
{
    let ghost pool = as_pool(held@);
    let mut least: Option<(usize, u128)> = None;
    let mut most: Option<(usize, u128)> = None;
    let mut i: usize = 0;
    while i < held.len()
        invariant
            i <= held.len(),
            pool == as_pool(held@),
            least is None <==> most is None,
            least is None ==> forall|j: int| 0 <= j < i ==> !live(pool, j),
            least matches Some(p) ==> p.0 < i && live(pool, p.0 as int) && weight(pool, p.0 as int)
                == p.1 && forall|j: int|
                0 <= j < i && #[trigger] live(pool, j) ==> p.1 < weight(pool, j) || (p.1 == weight(
                    pool,
                    j,
                ) && j <= p.0),
            most matches Some(p) ==> p.0 < i && live(pool, p.0 as int) && weight(pool, p.0 as int)
                == p.1 && forall|j: int|
                0 <= j < i && #[trigger] live(pool, j) ==> p.1 > weight(pool, j) || (p.1 == weight(
                    pool,
                    j,
                ) && p.0 <= j),
        decreases held.len() - i,
    {
        match held[i] {
            Some(w) => {
                least = match least {
                    Some(p) if w > p.1 => Some(p),
                    _ => Some((i, w)),
                };
                most = match most {
                    Some(p) if w <= p.1 => Some(p),
                    _ => Some((i, w)),
                };
            },
            None => {},
        }
        i += 1;
    }
    proof {
        if least is None {
            assert forall|j: int| !live(pool, j) by {}
            lemma_none_live(pool);
        }
        lemma_donor_unique(pool, least.unwrap().0 as int, donor(pool));
        lemma_donee_unique(pool, most.unwrap().0 as int, donee(pool));
    }
    (least.unwrap().0, most.unwrap().0)
}

/// The working set before the first round counts every outcome, holds the
/// scaled sum of the weights, and has no negative weight.
pub proof fn lemma_scaled_pool(weights: Seq<u64>, scale: int)
    requires
        scale >= 0,
    ensures
        live_count(scaled_pool(weights, scale)) == weights.len(),
        pool_sum(scaled_pool(weights, scale)) == scale * total(weights),
        forall|j: int| #[trigger]
            live(scaled_pool(weights, scale), j) ==> weight(scaled_pool(weights, scale), j) >= 0,
    decreases weights.len(),
{
    let pool = scaled_pool(weights, scale);
    if weights.len() > 0 {
        let front = weights.drop_last();
        assert(pool.drop_last() =~= scaled_pool(front, scale));
        lemma_scaled_pool(front, scale);
        let last = weights.last() as int;
        let before = total(front);
        assert(scale * (before + last) == scale * before + last * scale) by (nonlinear_arith);
    } else {
        assert(scale * 0 == 0) by (nonlinear_arith);
    }
    assert forall|j: int| #[trigger] live(pool, j) implies weight(pool, j) >= 0 by {
        let w = weights[j] as int;
        assert(w * scale >= 0) by (nonlinear_arith)
            requires
                w >= 0,
                scale >= 0,
        ;
    }
}

/// The working set of accepted weights is balanced before the first round.
pub proof fn lemma_start_balanced(weights: Seq<u64>)
    requires
        is_normalized(weights),
        weights.len() <= usize::MAX,
    ensures
        balanced(scaled_pool(weights, weights.len() as int), excess(weights)),
        live_count(scaled_pool(weights, weights.len() as int)) == weights.len(),
{
    let n = weights.len() as int;
    lemma_scaled_pool(weights, n);
    assert(n * total(weights) == n * ONE + n * (total(weights) - ONE)) by (nonlinear_arith);
}

/// Adds up the weights.
fn sum_weights(probs: &Vec<u64>) -> (sum: u128)
    ensures
        sum == total(probs@),
{
    let mut sum: u128 = 0;
    let mut i: usize = 0;
    while i < probs.len()
        invariant
            i <= probs.len(),
            sum == total(probs@.take(i as int)),
            sum <= i * u64::MAX,
        decreases probs.len() - i,
    {
        proof {
            assert(probs@.take(i + 1).drop_last() =~= probs@.take(i as int));
            assert((i + 1) * u64::MAX == i * u64::MAX + u64::MAX) by (nonlinear_arith);
            assert((i + 1) * u64::MAX <= usize::MAX * u64::MAX) by (nonlinear_arith)
                requires
                    i + 1 <= usize::MAX,
            ;
            assert(usize::MAX * u64::MAX <= u64::MAX * u64::MAX) by (nonlinear_arith)
                requires
                    usize::MAX <= u64::MAX,
            ;
        }
        sum = sum + probs[i] as u128;
        i += 1;
    }
    proof {
        assert(probs@.take(probs@.len() as int) =~= probs@);
    }
    sum
}

/// Decides from the number of the weights and their sum whether the weight
/// left for the last slot is a full slot to within a thousandth.
fn tolerated(count: usize, sum: u128) -> (ok: bool)
    requires
        count > 0,
    ensures
        ok == within_tolerance(ONE + count * (sum - ONE)),
{
    let one: u128 = ONE as u128;
    let gap: u128 = if sum >= one {
        sum - one
    } else {
        one - sum
    };
    if gap >= one {
        proof {
            let c = count as int;
            let g = gap as int;
            assert(c * g >= ONE) by (nonlinear_arith)
                requires
                    c >= 1,
                    g >= ONE,
            ;
            assert(c * (sum - ONE) == c * g || c * (sum - ONE) == -(c * g)) by (nonlinear_arith)
                requires
                    g == sum - ONE || g == ONE - sum,
            ;
        }
        false
    } else {
        proof {
            let c = count as int;
            let g = gap as int;
            assert(0 <= c * g <= 0xffff_ffff_ffff_ffff * 0x20_0000_0000_0000) by (nonlinear_arith)
                requires
                    0 <= c <= 0xffff_ffff_ffff_ffff,
                    0 <= g <= 0x20_0000_0000_0000,
            ;
            assert(c * (sum - ONE) == c * g || c * (sum - ONE) == -(c * g)) by (nonlinear_arith)
                requires
                    g == sum - ONE || g == ONE - sum,
            ;
        }
        let off: u128 = count as u128 * gap;
        1000 * off < one
    }
}

/// Builds the alias table of `probs`, a vector of probabilities in units of
/// `1 / ONE` that add up to `ONE`.
///
/// Each round takes the outcome of least weight out of the working set,
/// gives it a slot of its own, and lets the outcome of greatest weight fill
/// the rest of that slot. The vector is turned down where the weight left for
/// the last slot is not a full slot to within a thousandth, which depends on
/// the sum of the weights alone and is therefore decided before the first
/// round.
pub fn construct_table(probs: Vec<u64>) -> (result: Result<Vec<AliasEntry>, TableError>)
    ensures
        match result {
            Ok(table) => is_normalized(probs@) && table@ == alias_table(probs@) && well_formed(
                table@,
            ),
            Err(TableError::Empty) => probs@.len() == 0,
            Err(TableError::NotNormalized) => probs@.len() > 0 && !is_normalized(probs@),
        },
{
    let n = probs.len();
    if n == 0 {
        return Err(TableError::Empty);
    }
    let sum = sum_weights(&probs);
    if !tolerated(n, sum) {
        return Err(TableError::NotNormalized);
    }
    let ghost off = excess(probs@);
    let mut held: Vec<Option<u128>> = Vec::new();
    let mut k: usize = 0;
    while k < n
        invariant
            n == probs@.len(),
            k <= n,
            held@.len() == k,
            forall|j: int| 0 <= j < k ==> held@[j] is Some && held@[j]->0 == probs@[j] * n,
        decreases n - k,
    {
        proof {
            let w = probs@[k as int] as int;
            assert(0 <= w * n <= u64::MAX * u64::MAX) by (nonlinear_arith)
                requires
                    0 <= w <= u64::MAX,
                    0 <= n <= u64::MAX,
            ;
        }
        held.push(Some(probs[k] as u128 * n as u128));
        k += 1;
    }
    proof {
        assert forall|j: int| 0 <= j < n implies 0 <= #[trigger] (probs@[j] * n) <= u64::MAX
            * u64::MAX by {
            let w = probs@[j] as int;
            assert(0 <= w * n <= u64::MAX * u64::MAX) by (nonlinear_arith)
                requires
                    0 <= w <= u64::MAX,
                    0 <= n <= u64::MAX,
            ;
        }
        assert(as_pool(held@) =~= scaled_pool(probs@, n as int));
        lemma_start_balanced(probs@);
    }
    let mut table: Vec<AliasEntry> = Vec::new();
    let mut remaining: usize = n;
    while remaining > 1
        invariant
            held@.len() == n,
            remaining == live_count(as_pool(held@)),
            balanced(as_pool(held@), off),
            alias_table(probs@) == table@ + alias_entries(as_pool(held@), remaining as nat),
        decreases remaining,
    {
        let ghost pool = as_pool(held@);
        let (least, most) = extremes(&held);
        proof {
            lemma_pair_off(pool);
            lemma_pair_off_balanced(pool, off);
            assert(live(pool, least as int) && live(pool, most as int));
            assert(remaining * ONE <= usize::MAX * ONE) by (nonlinear_arith)
                requires
                    remaining <= usize::MAX,
            ;
        }
        let low: u128 = held[least].unwrap();
        let high: u128 = held[most].unwrap();
        let rest: u128 = if low <= ONE as u128 {
            high - (ONE as u128 - low)
        } else {
            high + (low - ONE as u128)
        };
        table.push(AliasEntry::new(least, most, low as u64));
        held.set(least, None);
        held.set(most, Some(rest));
        remaining -= 1;
        proof {
            assert(as_pool(held@) =~= pair_off(pool));
            assert(table@ + alias_entries(as_pool(held@), remaining as nat) =~= table@.drop_last()
                + alias_entries(pool, (remaining + 1) as nat));
        }
    }
    let (last, _) = extremes(&held);
    table.push(AliasEntry::new(last, usize::MAX, ONE));
    proof {
        crate::laws::lemma_table_shape(probs@);
    }
    Ok(table)
}

/// An alias table, built once and never changed afterwards.
#[derive(Debug, PartialEq)]
pub struct AliasTable {
    entries: Vec<AliasEntry>,
}

impl AliasTable {
    #[verifier::type_invariant]
    spec fn shaped(&self) -> bool {
        well_formed(self.entries@)
    }

    /// The slots of the table, in the order in which they were given out.
    pub closed spec fn view(&self) -> Seq<AliasEntry> {
        self.entries@
    }

    /// Builds the table of `probs`, as `construct_table` does.
    pub fn new(probs: Vec<u64>) -> (result: Result<AliasTable, TableError>)
        ensures
            match result {
                Ok(table) => is_normalized(probs@) && table@ == alias_table(probs@),
                Err(TableError::Empty) => probs@.len() == 0,
                Err(TableError::NotNormalized) => probs@.len() > 0 && !is_normalized(probs@),
            },
    {
        match construct_table(probs) {
            Ok(entries) => Ok(AliasTable { entries }),
            Err(reason) => Err(reason),
        }
    }

    /// The number of slots, which is the number of outcomes.
    pub fn len(&self) -> (n: usize)
        ensures
            n == self@.len(),
            well_formed(self@),
    {
        proof {
            use_type_invariant(self);
        }
        self.entries.len()
    }

    /// The slots of the table.
    pub fn entries(&self) -> (entries: &Vec<AliasEntry>)
        ensures
            entries@ == self@,
    {
        &self.entries
    }

    /// Resolves one draw: `slot` picks a slot, and `coin`, a value below
    /// `ONE`, decides between the slot's own outcome and its alias.
    pub fn outcome(&self, slot: usize, coin: u64) -> (outcome: usize)
        requires
            slot < self@.len(),
            coin < ONE,
        ensures
            outcome == outcome_of(self@, slot as int, coin),
            outcome < self@.len(),
    {
        proof {
            use_type_invariant(self);
            crate::laws::lemma_well_formed_in_range(self.entries@, slot as int, coin);
        }
        let entry = &self.entries[slot];
        if coin > entry.prob_of_val {
            entry.alias
        } else {
            entry.val
        }
    }
}

impl Clone for AliasTable {
    fn clone(&self) -> (copy: Self)
        ensures
            copy@ == self@,
    {
        proof {
            use_type_invariant(self);
        }
        let entries = self.entries.clone();
        assert(entries@ =~= self.entries@);
        AliasTable { entries }
    }
}

} // verus!
