//! Look-ahead by decision trees: list the moves open in a position, build
//! the tree of what can follow them, and score the positions at its leaves.
//!
//! The two searches differ in how they treat the opponent:
//! `check_all_opponent_actions` follows every reply,
//! `opponent_plays_random_action` one reply drawn at random.

use vstd::prelude::*;

pub mod check_all_opponent_actions;
pub mod opponent_plays_random_action;
pub mod tree;

use crate::data_structures::model::{
    all_actions, cards_in, cards_upto, empty_cells, empty_cells_upto, held_cells, held_upto,
    StateView,
};
use crate::data_structures::proofs::lemma_filter_take_step;
use crate::data_structures::{Action, State};
use tree::Tree;

verus! {

/// The sign of an integer: 1, 0 or -1.
pub open spec fn signum(x: int) -> int {
    if x > 0 {
        1
    } else if x < 0 {
        -1
    } else {
        0
    }
}

/// The margin by which the side to move leads: its cells minus the
/// opponent's, less one if its hand is empty.
pub open spec fn margin(state: StateView) -> int {
    held_cells(state.board, true) - held_cells(state.board, false) - if cards_in(state.hand)
        == 0 {
        1int
    } else {
        0int
    }
}

/// Scores a position for the side to move: 1 if it leads, -1 if it trails,
/// 0 if the sides are level. A side with no card left must lead by two
/// cells to win.
pub fn check_score(state: &State) -> (score: i8)
    ensures
        score as int == signum(margin(state@)),
{
    let mut score: i8 = 0;
    let mut cell: usize = 0;
    while cell < 9
        invariant
            cell <= 9,
            score as int == held_upto(state@.board, true, cell as int) - held_upto(
                state@.board,
                false,
                cell as int,
            ),
            0 <= held_upto(state@.board, true, cell as int),
            0 <= held_upto(state@.board, false, cell as int),
            held_upto(state@.board, true, cell as int) + held_upto(
                state@.board,
                false,
                cell as int,
            ) <= cell,
        decreases 9 - cell,
    {
        if let Some(position) = state.board[cell] {
            if position.is_player {
                score += 1;
            } else {
                score -= 1;
            }
        }
        cell += 1;
    }
    let mut has_card = false;
    let mut slot: usize = 0;
    while slot < 5
        invariant
            slot <= 5,
            0 <= cards_upto(state@.hand, slot as int),
            has_card <==> cards_upto(state@.hand, slot as int) > 0,
        decreases 5 - slot,
    {
        if state.hand[slot].is_some() {
            has_card = true;
        }
        slot += 1;
    }
    if !has_card {
        score -= 1;
    }
    if score > 0 {
        1
    } else if score < 0 {
        -1
    } else {
        0
    }
}

/// How a finished position is scored. With cards in hand the side that holds
/// more cells wins and equal counts are a draw. With an empty hand the side
/// to move wins only when it leads by two cells or more, draws when it leads
/// by one, and loses otherwise.
pub proof fn score_follows_margin(state: StateView)
    ensures
        cards_in(state.hand) == 0 && held_cells(state.board, true) >= held_cells(
            state.board,
            false,
        ) + 2 ==> signum(margin(state)) == 1,
        cards_in(state.hand) == 0 && held_cells(state.board, true) == held_cells(
            state.board,
            false,
        ) + 1 ==> signum(margin(state)) == 0,
        cards_in(state.hand) == 0 && held_cells(state.board, true) <= held_cells(
            state.board,
            false,
        ) ==> signum(margin(state)) == -1,
        cards_in(state.hand) != 0 ==> signum(margin(state)) == signum(
            held_cells(state.board, true) - held_cells(state.board, false),
        ),
{
}

/// Filtering the nine pairs of an empty hand slot adds no move.
proof fn lemma_empty_slot_adds_nothing(state: StateView, slot: int, upto: int)
    requires
        state.well_formed(),
        0 <= slot < 5,
        0 <= upto <= 9,
        state.hand[slot] is None,
    ensures
        all_actions().take(9 * slot + upto).filter(state.legality()) == all_actions().take(
            9 * slot,
        ).filter(state.legality()),
    decreases upto,
{
    if upto > 0 {
        lemma_empty_slot_adds_nothing(state, slot, upto - 1);
        lemma_filter_take_step(all_actions(), state.legality(), 9 * slot + upto - 1);
    }
}

/// Lists the moves open to the side to move: every pair of an occupied hand
/// slot and an empty cell, by ascending slot and, within a slot, ascending
/// cell. There are as many as cards in hand times empty cells.
pub fn compute_actions(state: &State) -> (actions: Vec<Action>)
    ensures
        actions@ == state@.legal_actions(),
        actions@.len() == cards_in(state@.hand) * empty_cells(state@.board),
{
    let mut actions: Vec<Action> = Vec::new();
    let ghost legal = state@.legality();
    let ghost gaps = empty_cells(state@.board);
    proof {
        assert(all_actions().take(0).filter(legal) =~= actions@) by {
            reveal(Seq::filter);
        }
        assert(0 * gaps == 0);
    }
    let mut hand_position: usize = 0;
    while hand_position < 5
        invariant
            hand_position <= 5,
            legal == state@.legality(),
            gaps == empty_cells(state@.board),
            actions@ == all_actions().take(9 * hand_position).filter(legal),
            actions@.len() == cards_upto(state@.hand, hand_position as int) * gaps,
        decreases 5 - hand_position,
    {
        let ghost taken = cards_upto(state@.hand, hand_position as int);
        if state.hand[hand_position].is_some() {
            let mut board_position: usize = 0;
            while board_position < 9
                invariant
                    hand_position < 5,
                    board_position <= 9,
                    legal == state@.legality(),
                    state@.hand[hand_position as int] is Some,
                    actions@ == all_actions().take(9 * hand_position + board_position).filter(
                        legal,
                    ),
                    actions@.len() == taken * gaps + empty_cells_upto(
                        state@.board,
                        board_position as int,
                    ),
                decreases 9 - board_position,
            {
                proof {
                    lemma_filter_take_step(
                        all_actions(),
                        legal,
                        9 * hand_position + board_position,
                    );
                }
                if state.board[board_position].is_none() {
                    actions.push(
                        Action { card_in_hand: hand_position, position: board_position },
                    );
                }
                board_position += 1;
            }
            assert((taken + 1) * gaps == taken * gaps + gaps) by (nonlinear_arith);
        } else {
            proof {
                lemma_empty_slot_adds_nothing(state@, hand_position as int, 9);
            }
        }
        hand_position += 1;
    }
    assert(all_actions().take(45) =~= all_actions());
    actions
}

/// An upper bound on the size of any expansion from a position with `gaps`
/// empty cells: no hand holds more than five cards.
pub open spec fn size_cap(gaps: int) -> int
    decreases gaps,
{
    if gaps <= 0 {
        0
    } else {
        5 * gaps * (1 + size_cap(gaps - 1))
    }
}

/// No search from any position builds more nodes than this.
pub const NODE_LIMIT: u64 = 865_669_204_845;

proof fn lemma_size_cap_value(gaps: int, below: int, value: int)
    requires
        gaps > 0,
        size_cap(gaps - 1) == below,
        value == 5 * gaps * (1 + below),
    ensures
        size_cap(gaps) == value,
{
}

/// The cap grows with the number of empty cells and, on a board of nine
/// cells, stays within [`NODE_LIMIT`].
pub proof fn lemma_size_cap(gaps: int)
    ensures
        0 <= size_cap(gaps),
        size_cap(gaps - 1) <= size_cap(gaps),
        gaps <= 9 ==> size_cap(gaps) <= NODE_LIMIT,
    decreases gaps,
{
    if gaps > 0 {
        lemma_size_cap(gaps - 1);
        let below = size_cap(gaps - 1);
        assert(below <= 5 * gaps * (1 + below)) by (nonlinear_arith)
            requires
                gaps >= 1,
                below >= 0,
        ;
        if gaps <= 9 {
            lemma_size_cap_value(1, 0, 5);
            lemma_size_cap_value(2, 5, 60);
            lemma_size_cap_value(3, 60, 915);
            lemma_size_cap_value(4, 915, 18320);
            lemma_size_cap_value(5, 18320, 458025);
            lemma_size_cap_value(6, 458025, 13740780);
            lemma_size_cap_value(7, 13740780, 480927335);
            lemma_size_cap_value(8, 480927335, 19237093440);
            lemma_size_cap_value(9, 19237093440, 865669204845);
        }
    }
}

/// The decision that speaks for `cell`: the last tree in `trees` whose move
/// plays to that cell, by its place in the list.
pub open spec fn last_decision_at(trees: Seq<Tree>, cell: int) -> Option<usize>
    decreases trees.len(),
{
    if trees.len() == 0 {
        None
    } else if trees.last().action matches Some(action) && action.position == cell {
        Some((trees.len() - 1) as usize)
    } else {
        last_decision_at(trees.drop_last(), cell)
    }
}

/// Sorts the first moves by the cell they play to. The entry of a cell is
/// the place in `decisions` of the last move that plays there, or `None`
/// where no move does.
pub fn decisions_by_cell(decisions: &Vec<Tree>) -> (by_cell: [Option<usize>; 9])
    ensures
        forall|cell: int|
            0 <= cell < 9 ==> #[trigger] by_cell@[cell] == last_decision_at(decisions@, cell),
{
    let mut by_cell: [Option<usize>; 9] = [None; 9];
    let mut i: usize = 0;
    while i < decisions.len()
        invariant
            i <= decisions.len(),
            forall|cell: int|
                0 <= cell < 9 ==> #[trigger] by_cell@[cell] == last_decision_at(
                    decisions@.take(i as int),
                    cell,
                ),
        decreases decisions.len() - i,
    {
        assert(decisions@.take(i + 1).drop_last() =~= decisions@.take(i as int));
        if let Some(action) = decisions[i].action {
            if action.position < 9 {
                by_cell[action.position] = Some(i);
            }
        }
        i += 1;
    }
    assert(decisions@.take(i as int) =~= decisions@);
    by_cell
}

} // verus!
