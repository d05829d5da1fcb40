//! A solver for a two-player card-placement game on a 3×3 board.
//!
//! The crate has two layers. `data_structures` holds the game model and the
//! rule-aware transition engine: placing a card, capturing neighbours, and
//! propagating combos. `approaches` holds the decision-tree searches built on
//! top of it.

use vstd::prelude::*;

pub mod approaches;
pub mod data_structures;

use data_structures::rules::Rule;
use data_structures::{Card, State};

verus! {

/// The card that every slot of the standard opening position holds.
pub open spec fn starting_card() -> Card {
    Card { top: 3, bottom: 3, left: 6, right: 3, star: 1, card_type: None }
}

/// The standard opening position: an empty board, two full hands of the
/// same card, and Plus as the only rule.
pub fn generate_starting_state() -> (state: State)
    ensures
        state@.board == Seq::new(9, |cell: int| None::<data_structures::Position>),
        state@.hand == Seq::new(5, |slot: int| Some(starting_card())),
        state@.opponent == Seq::new(5, |slot: int| Some(starting_card())),
        state@.rules == seq![None, None, None, Some(Rule::Plus)],
{
    let card = Card { top: 3, bottom: 3, left: 6, right: 3, star: 1, card_type: None };
    let state = State {
        board: [None; 9],
        hand: [Some(card); 5],
        opponent: [Some(card); 5],
        rules: [None, None, None, Some(Rule::Plus)],
    };
    assert(state@.board =~= Seq::new(9, |cell: int| None::<data_structures::Position>));
    assert(state@.hand =~= Seq::new(5, |slot: int| Some(starting_card())));
    assert(state@.opponent =~= Seq::new(5, |slot: int| Some(starting_card())));
    assert(state@.rules =~= seq![None, None, None, Some(Rule::Plus)]);
    state
}

} // verus!
