//! Minimum-weight derivation search over a weighted bottom-up tree automaton.
//!
//! A tree automaton's transitions are hyperarcs: a target state is reached
//! from one operand state (unary) or from two operand states combined by a
//! labelled operator (binary).  Every transition carries a symbol with a
//! non-negative weight, and every initial state carries a non-negative
//! starting weight.  The search generalizes Dijkstra's algorithm to
//! hyperarcs: states are finalized in order of increasing weight, and a
//! binary hyperarc only fires once both of its operands are finalized.

use vstd::prelude::*;

pub mod automaton;
pub mod derivation;
pub mod optimal;
pub mod state_map;
pub mod transition;

verus! {

/// A state of the automaton: an opaque, totally ordered identifier.
/// States carry no intrinsic data; their meaning is external.
pub type State = usize;

/// The alphabet interface.  Every transition carries a symbol; a symbol
/// contributes a fixed weight to any derivation step that uses it.  The
/// weight is an unsigned integer, so negative weights are excluded by the
/// type itself, as the Dijkstra-style search requires.
pub trait SymbolTrait: Sized {
    /// The symbol's weight contribution, as specifications see it.
    spec fn spec_weight(&self) -> usize;

    /// The symbol's weight contribution to a derivation step.
    fn weight(&self) -> (w: usize)
        ensures
            w == self.spec_weight(),
    ;

    /// Duplicates the symbol; the copy equals the original.
    fn clone_sym(&self) -> (r: Self)
        ensures
            r == *self,
    ;
}

/// A ready-made symbol type: an identifier together with its weight.
#[derive(Clone, Copy, Debug, PartialEq, Eq, Structural)]
pub struct Label {
    pub id: usize,
    pub weight: usize,
}

impl SymbolTrait for Label {
    open spec fn spec_weight(&self) -> usize {
        self.weight
    }

    fn weight(&self) -> (w: usize) {
        self.weight
    }

    fn clone_sym(&self) -> (r: Self) {
        Label { id: self.id, weight: self.weight }
    }
}

} // verus!
