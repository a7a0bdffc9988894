//! Drawing outcomes from an alias table with a random number generator.

use rand::Rng;
use vstd::prelude::*;

use crate::entry::AliasEntry;
use crate::entry::ONE;
use crate::table::alias_table;
use crate::table::is_normalized;
use crate::table::outcome_of;
use crate::table::AliasTable;
use crate::table::TableError;

verus! {

/// Calls `rand::Rng::gen_range` on the range `0..bound`. For a range of
/// integers that is not empty the value returned lies in the range, whatever
/// the generator yields. The call does not return while the generator keeps
/// yielding words that the sampling turns down.
#[verifier::external_body]
fn draw_below<R: Rng>(rng: &mut R, bound: usize) -> (slot: usize)
    requires
        bound > 0,
    ensures
        slot < bound,
{
    rng.gen_range(0..bound)
}

/// Calls `rand::Rng::gen` for a `u64`. Nothing is known of the word drawn.
#[verifier::external_body]
fn draw_word<R: Rng>(rng: &mut R) -> u64 {
    rng.gen::<u64>()
}

/// The coin that a word of the generator stands for: its upper 53 bits, the
/// numerator of a uniform fraction of `ONE`.
pub fn coin_of_word(word: u64) -> (coin: u64)
    ensures
        coin == word >> 11,
        coin < ONE,
{
    let coin: u64 = word >> 11;
    assert(coin < ONE) by (bit_vector)
        requires
            coin == word >> 11,
    ;
    coin
}

/// A sampler for a fixed distribution: an alias table and the generator
/// that the draws come from.
#[derive(Clone, Debug, PartialEq)]
pub struct LoadedDiceSampler<R> {
    table: AliasTable,
    rng: R,
}

impl<R> LoadedDiceSampler<R> {
    /// The slots of the sampler's table.
    pub closed spec fn view(&self) -> Seq<AliasEntry> {
        self.table@
    }

    /// The generator that the sampler draws from.
    pub closed spec fn source(&self) -> R {
        self.rng
    }

    /// Builds a sampler for `probs`, a vector of probabilities in units of
    /// `1 / ONE` that add up to `ONE`, with draws taken from `rng`.
    pub fn new(probs: Vec<u64>, rng: R) -> (result: Result<Self, TableError>)
        ensures
            match result {
                Ok(sampler) => is_normalized(probs@) && sampler@ == alias_table(probs@)
                    && sampler.source() == rng,
                Err(TableError::Empty) => probs@.len() == 0,
                Err(TableError::NotNormalized) => probs@.len() > 0 && !is_normalized(probs@),
            },
    {
        match AliasTable::new(probs) {
            Ok(table) => Ok(LoadedDiceSampler { table, rng }),
            Err(reason) => Err(reason),
        }
    }

    /// The sampler's table.
    pub fn table(&self) -> (table: &AliasTable)
        ensures
            table@ == self@,
    {
        &self.table
    }
}

impl<R: Rng> LoadedDiceSampler<R> {
    /// Draws one outcome: a slot, uniform over the slots, and a coin of 53
    /// bits, uniform below `ONE`, resolved by the table.
    pub fn sample(&mut self) -> (outcome: usize)
        ensures
            final(self)@ == old(self)@,
            outcome < old(self)@.len(),
            exists|slot: int, coin: u64|
                #![trigger outcome_of(old(self)@, slot, coin)]
                0 <= slot < old(self)@.len() && coin < ONE && outcome == outcome_of(
                    old(self)@,
                    slot,
                    coin,
                ),
    {
        let slots = self.table.len();
        let slot = draw_below(&mut self.rng, slots);
        let coin = coin_of_word(draw_word(&mut self.rng));
        let outcome = self.table.outcome(slot, coin);
        assert(outcome == outcome_of(old(self)@, slot as int, coin));
        outcome
    }
}

} // verus!
