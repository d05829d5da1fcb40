//! The rule variants that change how cards capture one another.

use vstd::prelude::*;

verus! {

/// A rule variant. Each can be switched on by itself.
#[derive(Eq, PartialEq, Copy, Clone, Debug, Structural)]
pub enum Rule {
    /// Each strength of a card grows by the number of cards of its category
    /// on the board.
    Ascension,
    /// Each strength of a card shrinks by the number of cards of its
    /// category on the board.
    Descension,
    /// A strength of 1 takes a strength of 10.
    FallenAce,
    /// Two neighbours with the same sum of facing strengths set off a combo.
    Plus,
    /// The weaker card takes.
    Reverse,
    /// A neighbour with the same facing strength sets off a combo.
    Same,
}

} // verus!
