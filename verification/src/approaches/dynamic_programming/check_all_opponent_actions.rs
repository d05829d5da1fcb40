//! The search that follows every reply: after each move the table is turned
//! and the opponent's moves are expanded in the same way, down to the
//! positions where nobody can move.

use vstd::prelude::*;

use super::{compute_actions, lemma_size_cap, size_cap, NODE_LIMIT};
use super::tree::{lemma_node_total_push, node_total, Tree};
use crate::data_structures::model::{
    all_actions, cards_in, empty_cells, presence, vacancy, StateView,
};
use crate::data_structures::laws::invert_moves_no_card;
use crate::data_structures::proofs::lemma_tally_bounds;
use crate::data_structures::{Action, Card, Position, State};

verus! {

/// Whether `trees` is the full expansion of `state`: one tree for each legal
/// move, in the order of [`StateView::legal_actions`], that holds the move,
/// the state after it as the opponent sees it, and below it the full
/// expansion of that state.
pub open spec fn is_exhaustive_expansion(trees: Seq<Tree>, state: StateView) -> bool
    decreases trees,
{
    &&& trees.len() == state.legal_actions().len()
    &&& forall|i: int|
        0 <= i < trees.len() ==> {
            &&& (#[trigger] trees[i]).action == Some(state.legal_actions()[i])
            &&& trees[i].state@ == state.apply(state.legal_actions()[i]).invert()
            &&& is_exhaustive_expansion(trees[i].children@, trees[i].state@)
        }
}

/// The number of nodes in the full expansion of a state in which the side
/// to move holds `own` cards, the other side `other`, and `gaps` cells are
/// empty.
pub open spec fn exhaustive_size(own: int, other: int, gaps: int) -> int
    decreases gaps,
{
    if own <= 0 || gaps <= 0 {
        0
    } else {
        own * gaps * (1 + exhaustive_size(other, own - 1, gaps - 1))
    }
}

/// [`exhaustive_size`] of a state.
pub open spec fn exhaustive_size_of(state: StateView) -> int {
    exhaustive_size(cards_in(state.hand), cards_in(state.opponent), empty_cells(state.board))
}

/// An expansion is never of negative size.
pub proof fn lemma_exhaustive_size_nonnegative(own: int, other: int, gaps: int)
    ensures
        0 <= exhaustive_size(own, other, gaps),
    decreases gaps,
{
    if own > 0 && gaps > 0 {
        lemma_exhaustive_size_nonnegative(other, own - 1, gaps - 1);
        let below = exhaustive_size(other, own - 1, gaps - 1);
        assert(0 <= own * gaps * (1 + below)) by (nonlinear_arith)
            requires
                own > 0,
                gaps > 0,
                below >= 0,
        ;
    }
}

/// The full expansion of any position stays within [`NODE_LIMIT`], so a
/// search that starts with a counter of zero cannot overflow it.
pub proof fn exhaustive_size_within_limit(own: int, other: int, gaps: int)
    requires
        own <= 5,
        other <= 5,
    ensures
        0 <= exhaustive_size(own, other, gaps) <= size_cap(gaps),
        gaps <= 9 ==> exhaustive_size(own, other, gaps) <= NODE_LIMIT,
    decreases gaps,
{
    lemma_size_cap(gaps);
    if own > 0 && gaps > 0 {
        exhaustive_size_within_limit(other, own - 1, gaps - 1);
        let below = exhaustive_size(other, own - 1, gaps - 1);
        let cap = size_cap(gaps - 1);
        assert(0 <= own * gaps * (1 + below) <= 5 * gaps * (1 + cap)) by (nonlinear_arith)
            requires
                0 < own <= 5,
                0 < gaps,
                0 <= below <= cap,
        ;
    }
}

/// Expands `state` in full and returns one tree for each move open to the
/// side to move. `counter` goes up by one for each node built.
pub fn compute_decisions(state: &State, counter: &mut u64) -> (decisions: Vec<Tree>)
    requires
        *old(counter) + exhaustive_size_of(state@) <= u64::MAX,
    ensures
        is_exhaustive_expansion(decisions@, state@),
        node_total(decisions@) == exhaustive_size_of(state@),
        *final(counter) == *old(counter) + node_total(decisions@),
    decreases empty_cells(state@.board),
{
    let actions = compute_actions(state);
    let mut decisions: Vec<Tree> = Vec::new();
    let ghost own = cards_in(state@.hand);
    let ghost other = cards_in(state@.opponent);
    let ghost gaps = empty_cells(state@.board);
    let ghost below = exhaustive_size(other, own - 1, gaps - 1);
    proof {
        lemma_exhaustive_size_nonnegative(other, own - 1, gaps - 1);
        lemma_tally_bounds(state@.hand, |slot: Option<Card>| presence(slot), 5);
        lemma_tally_bounds(state@.board, |cell: Option<Position>| vacancy(cell), 9);
        if own > 0 && gaps > 0 {
            assert(exhaustive_size_of(state@) == actions@.len() * (1 + below)) by (nonlinear_arith)
                requires
                    exhaustive_size_of(state@) == own * gaps * (1 + below),
                    actions@.len() == own * gaps,
            ;
        } else {
            assert(own * gaps == 0) by (nonlinear_arith)
                requires
                    own == 0 || gaps == 0,
            ;
        }
        assert(0 * (1 + below) == 0);
    }
    let mut i: usize = 0;
    while i < actions.len()
        invariant
            i <= actions.len(),
            actions@ == state@.legal_actions(),
            own == cards_in(state@.hand),
            other == cards_in(state@.opponent),
            gaps == empty_cells(state@.board),
            below == exhaustive_size(other, own - 1, gaps - 1),
            0 <= below,
            0 <= own,
            0 <= gaps,
            actions@.len() == own * gaps,
            decisions@.len() == i,
            forall|j: int|
                0 <= j < i ==> {
                    &&& (#[trigger] decisions@[j]).action == Some(actions@[j])
                    &&& decisions@[j].state@ == state@.apply(actions@[j]).invert()
                    &&& is_exhaustive_expansion(decisions@[j].children@, decisions@[j].state@)
                },
            node_total(decisions@) == i * (1 + below),
            *counter == *old(counter) + i * (1 + below),
            *old(counter) + actions@.len() * (1 + below) <= u64::MAX,
        decreases actions.len() - i,
    {
        let action = actions[i];
        proof {
            all_actions().lemma_filter_pred(state@.legality(), i as int);
            assert(state@.is_legal(action));
            assert((i + 1) * (1 + below) == i * (1 + below) + 1 + below) by (nonlinear_arith);
            assert((i + 1) * (1 + below) <= actions@.len() * (1 + below)) by (nonlinear_arith)
                requires
                    i + 1 <= actions@.len(),
                    0 <= below,
            ;
        }
        assert(gaps > 0) by (nonlinear_arith)
            requires
                0 < own * gaps,
                0 <= own,
                0 <= gaps,
        ;
        *counter += 1;
        let mut next_state = compute_next_state(state, &action);
        proof {
            invert_moves_no_card(next_state@);
        }
        next_state.invert();
        let children = compute_decisions(&next_state, counter);
        let decision = Tree { state: next_state, action: Some(action), children };
        proof {
            lemma_node_total_push(decisions@, decision);
        }
        decisions.push(decision);
        i += 1;
    }
    decisions
}

/// The state after the side to move has played `action`.
pub fn compute_next_state(state: &State, action: &Action) -> (next_state: State)
    requires
        state@.is_legal(*action),
    ensures
        next_state@ == state@.apply(*action),
        empty_cells(next_state@.board) == empty_cells(state@.board) - 1,
        cards_in(next_state@.hand) == cards_in(state@.hand) - 1,
        next_state@.opponent == state@.opponent,
{
    let mut next_state = *state;
    next_state.take_action(action);
    next_state
}

} // verus!
