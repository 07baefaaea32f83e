//! The capability interface: a source of the ascending qualifying
//! sequence, callable by shared reference, by mutable reference, or by
//! value.  The mutable and consuming forms are provided for every shared
//! form by blanket implementations.

use vstd::prelude::*;

verus! {

use crate::digits::{count_below, terms_prefix, TERM_SCAN_CAP};

/// A source of the ascending sequence of values with a fixed target digit
/// sum, called by shared reference.
pub trait SumSequencer: Sized {
    /// The target digit sum of this generator.
    spec fn target(&self) -> int;

    /// The first `iterations` qualifying values, in ascending order.
    fn get_ints(&self, iterations: u32) -> (r: Vec<u64>)
        requires
            1 <= self.target() <= 171,
            count_below(self.target(), TERM_SCAN_CAP as int) >= iterations as int,
        ensures
            terms_prefix(self.target(), iterations as int, r@),
    ;
}

/// The same capability for callers that hold the generator mutably.
pub trait SumSequencerMut: Sized {
    /// The target digit sum of this generator.
    spec fn target_mut(&self) -> int;

    /// The first `iterations` qualifying values, in ascending order.
    fn get_ints(&mut self, iterations: u32) -> (r: Vec<u64>)
        requires
            1 <= old(self).target_mut() <= 171,
            count_below(old(self).target_mut(), TERM_SCAN_CAP as int) >= iterations as int,
        ensures
            final(self).target_mut() == old(self).target_mut(),
            terms_prefix(old(self).target_mut(), iterations as int, r@),
    ;
}

/// The same capability for callers that consume the generator.
pub trait SumSequencerOnce: Sized {
    /// The target digit sum of this generator.
    spec fn target_once(&self) -> int;

    /// The first `iterations` qualifying values, in ascending order.
    fn get_ints(self, iterations: u32) -> (r: Vec<u64>)
        requires
            1 <= self.target_once() <= 171,
            count_below(self.target_once(), TERM_SCAN_CAP as int) >= iterations as int,
        ensures
            terms_prefix(self.target_once(), iterations as int, r@),
    ;
}

impl<T: SumSequencer> SumSequencer for &T {
    open spec fn target(&self) -> int {
        SumSequencer::target(*self)
    }

    fn get_ints(&self, iterations: u32) -> (r: Vec<u64>) {
        SumSequencer::get_ints(*self, iterations)
    }
}

impl<T: SumSequencer> SumSequencerMut for T {
    open spec fn target_mut(&self) -> int {
        self.target()
    }

    fn get_ints(&mut self, iterations: u32) -> (r: Vec<u64>) {
        SumSequencer::get_ints(&*self, iterations)
    }
}

impl<T: SumSequencerMut> SumSequencerOnce for T {
    open spec fn target_once(&self) -> int {
        self.target_mut()
    }

    fn get_ints(self, iterations: u32) -> (r: Vec<u64>) {
        let mut held = self;
        SumSequencerMut::get_ints(&mut held, iterations)
    }
}

} // verus!
