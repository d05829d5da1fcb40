//! What holds of every state and every move: the laws of the engine,
//! stated over the model and proved from its definitions.

use vstd::prelude::*;

use super::model::{
    action_at, all_actions, cards_in, empty_cells, hostile, in_combo, is_combo_chain, same_cards,
    StateView,
};
use super::proofs::{
    lemma_cards_update, lemma_chain_start, lemma_empty_update, lemma_filter_take_step,
    lemma_same_cards_same_gaps,
};
use super::Action;

verus! {

/// Capturing moves no card: after the neighbours of a cell were tested,
/// every cell holds the card it held, or is empty as it was.
pub proof fn flip_moves_no_card(state: StateView, placed: int, check: bool)
    ensures
        same_cards(state.flip(placed, check).board, state.board),
        same_cards(state.board, state.flip(placed, check).board),
{
}

/// A combo moves no card: it changes owner flags only.
pub proof fn combo_moves_no_card(state: StateView, origin: int)
    ensures
        same_cards(state.combo(origin).board, state.board),
        same_cards(state.board, state.combo(origin).board),
{
}

/// Turning the table twice gives the position back: both hands and every
/// owner flag are as they were.
pub proof fn invert_twice_restores(state: StateView)
    ensures
        state.invert().invert() == state,
{
    assert(state.invert().invert().board =~= state.board);
}

/// Turning the table moves no card: the board has as many empty cells as
/// before, and each hand has changed sides with its cards.
pub proof fn invert_moves_no_card(state: StateView)
    ensures
        state.invert().well_formed() == state.well_formed(),
        same_cards(state.board, state.invert().board),
        empty_cells(state.invert().board) == empty_cells(state.board),
        cards_in(state.invert().hand) == cards_in(state.opponent),
        cards_in(state.invert().opponent) == cards_in(state.hand),
{
    lemma_same_cards_same_gaps(state.board, state.invert().board);
}

/// A second combo from the same cell turns nothing over: the first one has
/// left no opposing card beside the origin, so no chain can start.
pub proof fn combo_twice_is_combo_once(state: StateView, origin: int)
    ensures
        state.combo(origin).combo(origin) == state.combo(origin),
{
    let once = state.combo(origin);
    assert forall|cell: int| !in_combo(once.board, origin, cell) by {
        if in_combo(once.board, origin, cell) {
            let path = choose|path: Seq<int>| #[trigger]
                is_combo_chain(once.board, origin, path) && path.last() == cell;
            let first = path[0];
            assert(hostile(once.board, first));
            lemma_chain_start(state.board, origin, first);
        }
    }
    assert(once.combo(origin).board =~= once.board);
}

/// A placement consumes exactly one card of the side to move and fills
/// exactly one cell. Nothing else changes hands: the opponent's hand and
/// the rules stay as they are, and every card that lay on the board lies
/// there still, in its cell.
pub proof fn apply_consumes_one_card(state: StateView, action: Action)
    requires
        state.well_formed(),
        state.is_legal(action),
    ensures
        state.apply(action).well_formed(),
        empty_cells(state.apply(action).board) == empty_cells(state.board) - 1,
        cards_in(state.apply(action).hand) == cards_in(state.hand) - 1,
        state.apply(action).hand == state.hand.update(action.card_in_hand as int, None),
        state.apply(action).opponent == state.opponent,
        state.apply(action).rules == state.rules,
        same_cards(state.apply(action).board, state.place(action).board),
        forall|cell: int|
            0 <= cell < 9 && state.board[cell] is Some ==> (#[trigger] state.apply(
                action,
            ).board[cell]) is Some && state.apply(action).board[cell]->0.card
                == state.board[cell]->0.card,
{
    let cell = action.position as int;
    let placed = state.place(action);
    let captured = placed.flip(cell, true);
    let after = state.apply(action);
    lemma_empty_update(state.board, cell, placed.board[cell]);
    lemma_cards_update(state.hand, action.card_in_hand as int, None);
    flip_moves_no_card(placed, cell, true);
    combo_moves_no_card(captured, cell);
    lemma_same_cards_same_gaps(after.board, placed.board);
}

/// The number of an action in the order of hand slots and, within a slot,
/// of cells.
pub open spec fn action_rank(action: Action) -> int {
    9 * action.card_in_hand + action.position
}

/// The list of legal moves holds every legal move and nothing else, each
/// once, by ascending hand slot and, within a slot, ascending cell.
pub proof fn legal_actions_are_the_legal_moves(state: StateView)
    requires
        state.well_formed(),
    ensures
        forall|action: Action|
            state.legal_actions().contains(action) <==> state.is_legal(action),
        forall|i: int, j: int|
            0 <= i < j < state.legal_actions().len() ==> action_rank(
                #[trigger] state.legal_actions()[i],
            ) < action_rank(#[trigger] state.legal_actions()[j]),
{
    lemma_legal_prefix(state, 45);
    assert(all_actions().take(45) =~= all_actions());
    let listed = state.legal_actions();
    assert forall|action: Action| state.is_legal(action) implies listed.contains(action) by {
        let k = action_rank(action);
        assert(all_actions()[k] == action);
        all_actions().lemma_filter_contains(state.legality(), k);
    }
    assert forall|action: Action| listed.contains(action) implies state.is_legal(action) by {
        let i = choose|i: int| 0 <= i < listed.len() && listed[i] == action;
        all_actions().lemma_filter_pred(state.legality(), i);
    }
}

/// The legal moves among the first `upto` pairs come in ascending order and
/// rank below `upto`.
proof fn lemma_legal_prefix(state: StateView, upto: int)
    requires
        0 <= upto <= 45,
    ensures
        forall|i: int|
            0 <= i < all_actions().take(upto).filter(state.legality()).len() ==> 0
                <= action_rank(
                #[trigger] all_actions().take(upto).filter(state.legality())[i],
            ) < upto,
        forall|i: int, j: int|
            0 <= i < j < all_actions().take(upto).filter(state.legality()).len()
                ==> action_rank(#[trigger] all_actions().take(upto).filter(state.legality())[i])
                < action_rank(#[trigger] all_actions().take(upto).filter(state.legality())[j]),
    decreases upto,
{
    if upto == 0 {
        assert(all_actions().take(0).filter(state.legality()).len() == 0) by {
            reveal(Seq::filter);
        }
    } else {
        lemma_legal_prefix(state, upto - 1);
        lemma_filter_take_step(all_actions(), state.legality(), upto - 1);
        assert(action_rank(action_at(upto - 1)) == upto - 1);
    }
}

} // verus!
