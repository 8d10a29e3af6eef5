//! Generalized permutations with flips: the combinatorial core of
//! Rauzy–Veech induction on interval exchange transformations (IETs).
//!
//! A flipped permutation records two orderings (`top` and `bottom`) of the
//! intervals `0..n` together with the set of intervals traversed with
//! reversed orientation.  The crate provides the validating constructor,
//! the irreducibility test, the Rauzy move transition, and an exact-integer
//! cocycle matrix that accumulates the linear map of an induction path.

use vstd::prelude::*;

pub mod exact_nat;
pub mod flipped_permutations;
pub mod rauzy_cocycle;

verus! {

/// The side whose trailing interval wins a Rauzy move.
#[derive(Debug, Clone, Copy, PartialEq, Eq, Structural)]
pub enum WinningSide {
    /// The top row's trailing interval wins.
    Top,
    /// The bottom row's trailing interval wins.
    Bottom,
}

/// Actions available on a generalized permutation: the irreducibility test
/// and the Rauzy move.  Implementors supply the validity predicates that the
/// two operations are conditioned on.
pub trait GeneralizedPermutation: Sized {
    /// Structural invariant satisfied by every properly constructed value.
    spec fn inv(&self) -> bool;

    /// The permutation has at least one interval.
    spec fn nonempty(&self) -> bool;

    /// The Rauzy move is defined: the two rows end in distinct intervals.
    spec fn rauzy_defined(&self) -> bool;

    /// Checks whether the permutation is irreducible.
    fn is_irreducible(&self) -> bool
        requires
            self.inv(),
            self.nonempty(),
    ;

    /// Applies the Rauzy move in which `winner` wins, returning a brand-new
    /// permutation; the closure guarantee is that validity is preserved.
    fn rauzy_move(&self, winner: WinningSide) -> (r: Self)
        requires
            self.inv(),
            self.nonempty(),
            self.rauzy_defined(),
        ensures
            r.inv(),
            r.nonempty(),
    ;
}

} // verus!
