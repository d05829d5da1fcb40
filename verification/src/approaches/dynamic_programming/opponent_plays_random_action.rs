//! The search that samples the reply: after each move of the side to move,
//! the opponent answers with one move drawn at random, and the search goes
//! on from the position after that answer. The tree branches on the moves of
//! one side only.

use rand::rngs::StdRng;
use rand::Rng;
use vstd::prelude::*;

use super::{compute_actions, lemma_size_cap, size_cap, NODE_LIMIT};
use super::tree::{lemma_node_total_push, node_total, Tree};
use crate::data_structures::model::{
    all_actions, cards_in, empty_cells, presence, vacancy, StateView,
};
use crate::data_structures::laws::{invert_moves_no_card, invert_twice_restores};
use crate::data_structures::proofs::lemma_tally_bounds;
use crate::data_structures::{Action, Card, Position, State};

verus! {

/// The random number generator of the `rand` crate that the search draws
/// from. Its state is opaque here.
#[verifier::external_type_specification]
#[verifier::external_body]
pub struct ExStdRng(StdRng);

/// Draws an index with `rand::Rng::gen_range(0, bound)`.
///
/// The contract takes from that method's documentation that the value lies
/// in the half-open range from 0 to `bound`, and that the call panics
/// unless `bound` is positive. Which index comes out is left open.
#[verifier::external_body]
fn sample_index(rng: &mut StdRng, bound: usize) -> (index: usize)
    requires
        bound > 0,
    ensures
        index < bound,
{
    rng.gen_range(0, bound)
}

/// The moves with which the opponent can answer in `state`, listed from the
/// opponent's side of the table.
pub open spec fn replies(state: StateView) -> Seq<Action> {
    state.invert().legal_actions()
}

/// The state after the opponent has answered with reply number `choice`,
/// seen again by the side that was to move.
pub open spec fn reply_of(state: StateView, choice: int) -> StateView {
    state.invert().apply(replies(state)[choice]).invert()
}

/// Whether `next` can follow `state` by one answer of the opponent: it is
/// the state after one of the replies or, where the opponent cannot move,
/// `state` itself.
pub open spec fn is_reply_outcome(state: StateView, next: StateView) -> bool {
    if replies(state).len() == 0 {
        next == state
    } else {
        exists|choice: int| 0 <= choice < replies(state).len() && next == #[trigger] reply_of(
            state,
            choice,
        )
    }
}

/// Whether `trees` is an expansion of `state` under sampled replies: one
/// tree for each legal move, in the order of [`StateView::legal_actions`],
/// that holds the move, a state that can follow it by one answer of the
/// opponent, and below it such an expansion of that state.
pub open spec fn is_sampled_expansion(trees: Seq<Tree>, state: StateView) -> bool
    decreases trees,
{
    &&& trees.len() == state.legal_actions().len()
    &&& forall|i: int|
        0 <= i < trees.len() ==> {
            &&& (#[trigger] trees[i]).action == Some(state.legal_actions()[i])
            &&& is_reply_outcome(state.apply(state.legal_actions()[i]), trees[i].state@)
            &&& is_sampled_expansion(trees[i].children@, trees[i].state@)
        }
}

/// The number of nodes in an expansion under sampled replies of a state in
/// which the side to move holds `own` cards, the other side `other`, and
/// `gaps` cells are empty. It does not depend on the replies drawn.
pub open spec fn sampled_size(own: int, other: int, gaps: int) -> int
    decreases gaps,
{
    if own <= 0 || gaps <= 0 {
        0
    } else if other > 0 && gaps > 1 {
        own * gaps * (1 + sampled_size(own - 1, other - 1, gaps - 2))
    } else {
        own * gaps * (1 + sampled_size(own - 1, other, gaps - 1))
    }
}

/// [`sampled_size`] of a state.
pub open spec fn sampled_size_of(state: StateView) -> int {
    sampled_size(cards_in(state.hand), cards_in(state.opponent), empty_cells(state.board))
}

/// An expansion is never of negative size.
pub proof fn lemma_sampled_size_nonnegative(own: int, other: int, gaps: int)
    ensures
        0 <= sampled_size(own, other, gaps),
    decreases gaps,
{
    if own > 0 && gaps > 0 {
        let below = if other > 0 && gaps > 1 {
            lemma_sampled_size_nonnegative(own - 1, other - 1, gaps - 2);
            sampled_size(own - 1, other - 1, gaps - 2)
        } else {
            lemma_sampled_size_nonnegative(own - 1, other, gaps - 1);
            sampled_size(own - 1, other, gaps - 1)
        };
        assert(0 <= own * gaps * (1 + below)) by (nonlinear_arith)
            requires
                own > 0,
                gaps > 0,
                below >= 0,
        ;
    }
}

/// An expansion under sampled replies of any position stays within
/// [`NODE_LIMIT`], so a search that starts with a counter of zero cannot
/// overflow it.
pub proof fn sampled_size_within_limit(own: int, other: int, gaps: int)
    requires
        own <= 5,
        other <= 5,
    ensures
        0 <= sampled_size(own, other, gaps) <= size_cap(gaps),
        gaps <= 9 ==> sampled_size(own, other, gaps) <= NODE_LIMIT,
    decreases gaps,
{
    lemma_size_cap(gaps);
    lemma_size_cap(gaps - 1);
    if own > 0 && gaps > 0 {
        let below = if other > 0 && gaps > 1 {
            sampled_size_within_limit(own - 1, other - 1, gaps - 2);
            sampled_size(own - 1, other - 1, gaps - 2)
        } else {
            sampled_size_within_limit(own - 1, other, gaps - 1);
            sampled_size(own - 1, other, gaps - 1)
        };
        let cap = size_cap(gaps - 1);
        assert(0 <= own * gaps * (1 + below) <= 5 * gaps * (1 + cap)) by (nonlinear_arith)
            requires
                0 < own <= 5,
                0 < gaps,
                0 <= below <= cap,
        ;
    }
}

/// Expands `state` with one sampled reply after each move, and returns one
/// tree for each move open to the side to move. `counter` goes up by one
/// for each node built; the replies are drawn from `rng`.
pub fn compute_decisions(state: &State, counter: &mut u64, rng: &mut StdRng) -> (decisions: Vec<
    Tree,
>)
    requires
        *old(counter) + sampled_size_of(state@) <= u64::MAX,
    ensures
        is_sampled_expansion(decisions@, state@),
        node_total(decisions@) == sampled_size_of(state@),
        *final(counter) == *old(counter) + node_total(decisions@),
    decreases empty_cells(state@.board),
{
    let actions = compute_actions(state);
    let mut decisions: Vec<Tree> = Vec::new();
    let ghost own = cards_in(state@.hand);
    let ghost other = cards_in(state@.opponent);
    let ghost gaps = empty_cells(state@.board);
    let ghost below = if other > 0 && gaps > 1 {
        sampled_size(own - 1, other - 1, gaps - 2)
    } else {
        sampled_size(own - 1, other, gaps - 1)
    };
    proof {
        lemma_sampled_size_nonnegative(own - 1, other - 1, gaps - 2);
        lemma_sampled_size_nonnegative(own - 1, other, gaps - 1);
        lemma_tally_bounds(state@.hand, |slot: Option<Card>| presence(slot), 5);
        lemma_tally_bounds(state@.opponent, |slot: Option<Card>| presence(slot), 5);
        lemma_tally_bounds(state@.board, |cell: Option<Position>| vacancy(cell), 9);
        if own > 0 && gaps > 0 {
            assert(sampled_size_of(state@) == actions@.len() * (1 + below)) by (nonlinear_arith)
                requires
                    sampled_size_of(state@) == own * gaps * (1 + below),
                    actions@.len() == own * gaps,
            ;
        } else {
            assert(own * gaps == 0) by (nonlinear_arith)
                requires
                    own == 0 || gaps == 0,
            ;
        }
        assert(0 * (1 + below) == 0);
    }
    let mut i: usize = 0;
    while i < actions.len()
        invariant
            i <= actions.len(),
            actions@ == state@.legal_actions(),
            own == cards_in(state@.hand),
            other == cards_in(state@.opponent),
            gaps == empty_cells(state@.board),
            below == if other > 0 && gaps > 1 {
                sampled_size(own - 1, other - 1, gaps - 2)
            } else {
                sampled_size(own - 1, other, gaps - 1)
            },
            0 <= below,
            0 <= own,
            0 <= other,
            0 <= gaps,
            actions@.len() == own * gaps,
            decisions@.len() == i,
            forall|j: int|
                0 <= j < i ==> {
                    &&& (#[trigger] decisions@[j]).action == Some(actions@[j])
                    &&& is_reply_outcome(state@.apply(actions@[j]), decisions@[j].state@)
                    &&& is_sampled_expansion(decisions@[j].children@, decisions@[j].state@)
                },
            node_total(decisions@) == i * (1 + below),
            *counter == *old(counter) + i * (1 + below),
            *old(counter) + actions@.len() * (1 + below) <= u64::MAX,
        decreases actions.len() - i,
    {
        let action = actions[i];
        proof {
            all_actions().lemma_filter_pred(state@.legality(), i as int);
            assert(state@.is_legal(action));
            assert((i + 1) * (1 + below) == i * (1 + below) + 1 + below) by (nonlinear_arith);
            assert((i + 1) * (1 + below) <= actions@.len() * (1 + below)) by (nonlinear_arith)
                requires
                    i + 1 <= actions@.len(),
                    0 <= below,
            ;
        }
        assert(gaps > 0) by (nonlinear_arith)
            requires
                0 < own * gaps,
                0 <= own,
                0 <= gaps,
        ;
        *counter += 1;
        let next_state = compute_next_state(state, &action, rng);
        let children = compute_decisions(&next_state, counter, rng);
        let decision = Tree { state: next_state, action: Some(action), children };
        proof {
            lemma_node_total_push(decisions@, decision);
        }
        decisions.push(decision);
        i += 1;
    }
    decisions
}

/// The state after the side to move has played `action` and the opponent
/// has answered with a move drawn from `rng`.
pub fn compute_next_state(state: &State, action: &Action, rng: &mut StdRng) -> (next_state: State)
    requires
        state@.is_legal(*action),
    ensures
        is_reply_outcome(state@.apply(*action), next_state@),
        cards_in(next_state@.hand) == cards_in(state@.hand) - 1,
        if cards_in(state@.opponent) > 0 && empty_cells(state@.board) > 1 {
            &&& cards_in(next_state@.opponent) == cards_in(state@.opponent) - 1
            &&& empty_cells(next_state@.board) == empty_cells(state@.board) - 2
        } else {
            &&& cards_in(next_state@.opponent) == cards_in(state@.opponent)
            &&& empty_cells(next_state@.board) == empty_cells(state@.board) - 1
        },
{
    let mut next_state = *state;
    next_state.take_action(action);
    play_for_opponent(next_state, rng)
}

/// Lets the opponent answer in `state` with a move drawn from `rng`, each
/// of its legal moves being a possible draw. Where the opponent cannot
/// move, the state comes back as it was.
pub fn play_for_opponent(state: State, rng: &mut StdRng) -> (next: State)
    ensures
        is_reply_outcome(state@, next@),
        cards_in(next@.hand) == cards_in(state@.hand),
        if cards_in(state@.opponent) > 0 && empty_cells(state@.board) > 0 {
            &&& cards_in(next@.opponent) == cards_in(state@.opponent) - 1
            &&& empty_cells(next@.board) == empty_cells(state@.board) - 1
        } else {
            next@ == state@
        },
{
    let mut turned = state;
    turned.invert();
    let actions = compute_actions(&turned);
    proof {
        invert_moves_no_card(state@);
        invert_twice_restores(state@);
        lemma_tally_bounds(state@.opponent, |slot: Option<Card>| presence(slot), 5);
        lemma_tally_bounds(state@.board, |cell: Option<Position>| vacancy(cell), 9);
        let other = cards_in(state@.opponent);
        let gaps = empty_cells(state@.board);
        assert(other * gaps > 0 <==> other > 0 && gaps > 0) by (nonlinear_arith)
            requires
                0 <= other,
                0 <= gaps,
        ;
    }
    if actions.len() == 0 {
        turned.invert();
        return turned;
    }
    let choice = sample_index(rng, actions.len());
    play_reply(state, choice)
}

/// Lets the opponent answer in `state` with its legal move number `choice`:
/// the table is turned, the move is played, and the table is turned back.
pub fn play_reply(state: State, choice: usize) -> (next: State)
    requires
        choice < replies(state@).len(),
    ensures
        next@ == reply_of(state@, choice as int),
        cards_in(next@.hand) == cards_in(state@.hand),
        cards_in(next@.opponent) == cards_in(state@.opponent) - 1,
        empty_cells(next@.board) == empty_cells(state@.board) - 1,
{
    let mut next = state;
    next.invert();
    let actions = compute_actions(&next);
    let action = actions[choice];
    proof {
        invert_moves_no_card(state@);
        all_actions().lemma_filter_pred(next@.legality(), choice as int);
        assert(next@.is_legal(action));
    }
    next.take_action(&action);
    proof {
        invert_moves_no_card(next@);
    }
    next.invert();
    next
}

} // verus!
