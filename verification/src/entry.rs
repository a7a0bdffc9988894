use vstd::prelude::*;

verus! {

/// The fixed-point unit: a probability `p` is held as the integer `p * ONE`.
/// With 53 fractional bits a uniform draw from `0..ONE` has the resolution
/// of a uniform double in `[0, 1)`.
pub const ONE: u64 = 0x20_0000_0000_0000;

/// One slot of an alias table.
///
/// A draw that lands on the slot yields `val` with probability
/// `prob_of_val / ONE` and `alias` otherwise.
#[derive(Clone, Copy, Debug, PartialEq, Eq, Structural)]
pub struct AliasEntry {
    /// The slot's own outcome.
    pub val: usize,
    /// The outcome that fills the rest of the slot; `usize::MAX` in the last
    /// slot of a table, which has none.
    pub alias: usize,
    /// The threshold: the part of the slot that belongs to `val`, in units
    /// of `1 / ONE`.
    pub prob_of_val: u64,
}

impl AliasEntry {
    /// A slot that yields `val` with probability `prob_of_val / ONE` and
    /// `alias` otherwise.
    pub fn new(val: usize, alias: usize, prob_of_val: u64) -> (entry: Self)
        ensures
            entry == (AliasEntry { val, alias, prob_of_val }),
    {
        AliasEntry { val, alias, prob_of_val }
    }
}

} // verus!
