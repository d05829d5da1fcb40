//! The mathematical model of a game state and of its transitions.
//!
//! Every contract of the engine is stated over [`StateView`], the view of a
//! [`State`]: four sequences, with no machine limits. The functions here say
//! what a placement does; the executable code in the parent module is proved
//! to do exactly that.

use vstd::prelude::*;

use super::rules::Rule;
use super::{Action, Card, CardType, Position, State};

verus! {

/// A state as four sequences: the board's nine cells, the two hands' five
/// slots each, and the four rule slots.
pub ghost struct StateView {
    pub board: Seq<Option<Position>>,
    pub hand: Seq<Option<Card>>,
    pub opponent: Seq<Option<Card>>,
    pub rules: Seq<Option<Rule>>,
}

impl View for State {
    type V = StateView;

    open spec fn view(&self) -> StateView {
        StateView {
            board: self.board@,
            hand: self.hand@,
            opponent: self.opponent@,
            rules: self.rules@,
        }
    }
}

/// The sum of `weight` over the first `n` items of a sequence.
pub open spec fn tally<A>(items: Seq<A>, weight: spec_fn(A) -> int, n: int) -> int
    decreases n,
{
    if n <= 0 {
        0
    } else {
        tally(items, weight, n - 1) + weight(items[n - 1])
    }
}

/// One for an empty cell, zero for an occupied one.
pub open spec fn vacancy(cell: Option<Position>) -> int {
    if cell is None {
        1
    } else {
        0
    }
}

/// One for a slot that holds a card, zero for an empty one.
pub open spec fn presence(slot: Option<Card>) -> int {
    if slot is Some {
        1
    } else {
        0
    }
}

/// One for a cell whose card has category `kind`, else zero.
pub open spec fn category_weight(cell: Option<Position>, kind: CardType) -> int {
    if cell matches Some(p) && p.card.card_type == Some(kind) {
        1
    } else {
        0
    }
}

/// One for a cell whose card has the owner flag `side`, else zero.
pub open spec fn held_weight(cell: Option<Position>, side: bool) -> int {
    if cell matches Some(p) && p.is_player == side {
        1
    } else {
        0
    }
}

/// The number of empty cells among the first `n` cells of a board.
pub open spec fn empty_cells_upto(board: Seq<Option<Position>>, n: int) -> int {
    tally(board, |cell: Option<Position>| vacancy(cell), n)
}

/// The number of empty cells of a board.
pub open spec fn empty_cells(board: Seq<Option<Position>>) -> int {
    empty_cells_upto(board, board.len() as int)
}

/// The number of cards among the first `n` slots of a hand.
pub open spec fn cards_upto(hand: Seq<Option<Card>>, n: int) -> int {
    tally(hand, |slot: Option<Card>| presence(slot), n)
}

/// The number of cards in a hand.
pub open spec fn cards_in(hand: Seq<Option<Card>>) -> int {
    cards_upto(hand, hand.len() as int)
}

/// The number of cards of category `kind` among the first `n` cells.
pub open spec fn category_count_upto(board: Seq<Option<Position>>, kind: CardType, n: int) -> int {
    tally(board, |cell: Option<Position>| category_weight(cell, kind), n)
}

/// The number of cards of category `kind` lying on the board, whoever holds
/// them.
pub open spec fn category_count(board: Seq<Option<Position>>, kind: CardType) -> int {
    category_count_upto(board, kind, board.len() as int)
}

/// The number of cells among the first `n` that hold a card with the owner
/// flag `side`.
pub open spec fn held_upto(board: Seq<Option<Position>>, side: bool, n: int) -> int {
    tally(board, |cell: Option<Position>| held_weight(cell, side), n)
}

/// The number of cells held by the side to move (`side` true) or by its
/// opponent (`side` false).
pub open spec fn held_cells(board: Seq<Option<Position>>, side: bool) -> int {
    held_upto(board, side, board.len() as int)
}

/// Whether a cell holds a card of the opponent.
pub open spec fn hostile(board: Seq<Option<Position>>, cell: int) -> bool {
    &&& 0 <= cell < board.len()
    &&& board[cell] matches Some(p)
    &&& !p.is_player
}

/// A cell's content once the side to move holds it. An empty cell stays
/// empty.
pub open spec fn owned(cell: Option<Position>) -> Option<Position> {
    match cell {
        Some(p) => Some(Position { card: p.card, is_player: true }),
        None => None,
    }
}

/// Whether two boards hold the same cards in the same cells, whoever owns
/// them.
pub open spec fn same_cards(left: Seq<Option<Position>>, right: Seq<Option<Position>>) -> bool {
    &&& left.len() == right.len()
    &&& forall|cell: int|
        0 <= cell < left.len() ==> match (#[trigger] left[cell], right[cell]) {
            (Some(p), Some(q)) => p.card == q.card,
            (None, None) => true,
            _ => false,
        }
}

/// A cell's content seen from the other side of the table.
pub open spec fn switched(cell: Option<Position>) -> Option<Position> {
    match cell {
        Some(p) => Some(Position { card: p.card, is_player: !p.is_player }),
        None => None,
    }
}

/// The orthogonal neighbours of a cell, in the order up, left, down, right.
pub open spec fn adjacent_cells(pos: int) -> Seq<int> {
    (if pos > 2 {
        seq![pos - 3]
    } else {
        Seq::empty()
    }) + (if pos % 3 != 0 {
        seq![pos - 1]
    } else {
        Seq::empty()
    }) + (if pos < 6 {
        seq![pos + 3]
    } else {
        Seq::empty()
    }) + (if pos % 3 != 2 {
        seq![pos + 1]
    } else {
        Seq::empty()
    })
}

/// Board cells as mathematical integers.
pub open spec fn cells_of(positions: Seq<usize>) -> Seq<int> {
    positions.map_values(|p: usize| p as int)
}

/// Whether two cells of the board share an edge.
pub open spec fn are_adjacent(a: int, b: int) -> bool {
    &&& 0 <= a < 9
    &&& 0 <= b < 9
    &&& (a - b == 3 || b - a == 3 || (a - b == 1 && a % 3 != 0) || (b - a == 1 && a % 3 != 2))
}

/// The capture test on two facing strengths. Fallen Ace lets a 1 take a 10;
/// Reverse lets the weaker card take; the plain rule, that the stronger card
/// takes, stays in force under both.
pub open spec fn should_flip_spec(placed: int, opposing: int, rules: Seq<Option<Rule>>) -> bool {
    ||| rules.contains(Some(Rule::FallenAce)) && placed == 1 && opposing == 10
    ||| rules.contains(Some(Rule::Reverse)) && placed < opposing
    ||| placed > opposing
}

/// Whether `path` is a chain of opposing cards that starts beside `origin`:
/// each cell of it shares an edge with the one before.
pub open spec fn is_combo_chain(board: Seq<Option<Position>>, origin: int, path: Seq<int>) -> bool {
    &&& path.len() > 0
    &&& are_adjacent(origin, path[0])
    &&& forall|i: int| 0 <= i < path.len() ==> hostile(board, #[trigger] path[i])
    &&& forall|i: int| 0 <= i < path.len() - 1 ==> are_adjacent(#[trigger] path[i], path[i + 1])
}

/// Whether a combo that starts at `origin` reaches `cell`.
pub open spec fn in_combo(board: Seq<Option<Position>>, origin: int, cell: int) -> bool {
    exists|path: Seq<int>| #[trigger] is_combo_chain(board, origin, path) && path.last() == cell
}

/// The (hand slot, board cell) pair with number `k`, counting slot by slot
/// and, within a slot, cell by cell.
pub open spec fn action_at(k: int) -> Action {
    Action { position: (k % 9) as usize, card_in_hand: (k / 9) as usize }
}

/// All 45 pairs of a hand slot and a board cell, in ascending order.
pub open spec fn all_actions() -> Seq<Action> {
    Seq::new(45, |k: int| action_at(k))
}

impl StateView {
    /// The sizes that every view of a [`State`] has.
    pub open spec fn well_formed(self) -> bool {
        &&& self.board.len() == 9
        &&& self.hand.len() == 5
        &&& self.opponent.len() == 5
        &&& self.rules.len() == 4
    }

    /// Whether `rule` is in force.
    pub open spec fn has_rule(self, rule: Rule) -> bool {
        self.rules.contains(Some(rule))
    }

    /// Whether `cell` is a cell of the board that holds a card.
    pub open spec fn occupied(self, cell: int) -> bool {
        0 <= cell < self.board.len() && self.board[cell] is Some
    }

    /// What Ascension or Descension adds to each strength of `card`: the
    /// number of cards of its category on the board, negated under
    /// Descension. A card without a category gets nothing.
    pub open spec fn modifier(self, card: Card) -> int {
        if self.has_rule(Rule::Ascension) || self.has_rule(Rule::Descension) {
            match card.card_type {
                Some(kind) => if self.has_rule(Rule::Descension) {
                    -category_count(self.board, kind)
                } else {
                    category_count(self.board, kind)
                },
                None => 0,
            }
        } else {
            0
        }
    }

    /// The two strengths that meet where the card at `placed` touches the
    /// card at `other`, each with its modifier: first the placed card's,
    /// then the neighbour's.
    pub open spec fn facing(self, placed: int, other: int) -> (int, int)
        recommends
            are_adjacent(placed, other),
            self.occupied(placed),
            self.occupied(other),
    {
        let mine = self.board[placed]->0.card;
        let theirs = self.board[other]->0.card;
        let sides: (int, int) = if placed - other == 3 {
            (mine.top as int, theirs.bottom as int)
        } else if other - placed == 3 {
            (mine.bottom as int, theirs.top as int)
        } else if placed - other == 1 {
            (mine.left as int, theirs.right as int)
        } else {
            (mine.right as int, theirs.left as int)
        };
        (sides.0 + self.modifier(mine), sides.1 + self.modifier(theirs))
    }

    /// Whether acting from `placed` turns the card at `other` over: the card
    /// belongs to the opponent and, where `check` asks for it, loses the
    /// comparison.
    pub open spec fn captures(self, placed: int, other: int, check: bool) -> bool {
        &&& hostile(self.board, other)
        &&& check ==> should_flip_spec(
            self.facing(placed, other).0,
            self.facing(placed, other).1,
            self.rules,
        )
    }

    /// The state after the neighbours of `placed` were tested and the
    /// captured ones turned over.
    pub open spec fn flip(self, placed: int, check: bool) -> StateView {
        StateView {
            board: Seq::new(
                self.board.len(),
                |cell: int|
                    if are_adjacent(placed, cell) && self.captures(placed, cell, check) {
                        owned(self.board[cell])
                    } else {
                        self.board[cell]
                    },
            ),
            ..self
        }
    }

    /// [`Self::captures`] as a predicate on the neighbour.
    pub open spec fn capture_test(self, placed: int, check: bool) -> spec_fn(int) -> bool {
        |cell: int| self.captures(placed, cell, check)
    }

    /// The cells that [`Self::flip`] turns over, in the order up, left,
    /// down, right.
    pub open spec fn flipped_cells(self, placed: int, check: bool) -> Seq<int> {
        adjacent_cells(placed).filter(self.capture_test(placed, check))
    }

    /// The sum of the two strengths that meet between `placed` and `other`.
    #[verifier::opaque]
    pub open spec fn pair_sum(self, placed: int, other: int) -> int {
        self.facing(placed, other).0 + self.facing(placed, other).1
    }

    /// Whether two different occupied neighbours of `placed` give the same
    /// sum of facing strengths.
    pub open spec fn plus_match(self, placed: int) -> bool {
        exists|a: int, b: int|
            a != b && are_adjacent(placed, a) && are_adjacent(placed, b) && self.occupied(a)
                && self.occupied(b) && #[trigger] self.pair_sum(placed, a)
                == #[trigger] self.pair_sum(placed, b)
    }

    /// Whether some occupied neighbour of `placed` shows the same strength
    /// as the placed card where the two touch.
    pub open spec fn same_match(self, placed: int) -> bool {
        exists|a: int|
            are_adjacent(placed, a) && self.occupied(a) && (#[trigger] self.facing(placed, a)).0
                == self.facing(placed, a).1
    }

    /// Whether the card at `placed` sets off a combo: by Plus if that rule is
    /// active and matches, else by Same.
    pub open spec fn combo_triggered(self, placed: int) -> bool {
        ||| self.has_rule(Rule::Plus) && self.plus_match(placed)
        ||| self.has_rule(Rule::Same) && self.same_match(placed)
    }

    /// The state after a combo from `origin`: every opposing card that a
    /// chain of opposing cards links to `origin` is turned over, without any
    /// comparison.
    pub open spec fn combo(self, origin: int) -> StateView {
        StateView {
            board: Seq::new(
                self.board.len(),
                |cell: int|
                    if in_combo(self.board, origin, cell) {
                        owned(self.board[cell])
                    } else {
                        self.board[cell]
                    },
            ),
            ..self
        }
    }

    /// Whether `action` plays an existing card to an empty cell.
    pub open spec fn is_legal(self, action: Action) -> bool {
        &&& action.card_in_hand < self.hand.len()
        &&& action.position < self.board.len()
        &&& self.hand[action.card_in_hand as int] is Some
        &&& self.board[action.position as int] is None
    }

    /// The state with the card moved from the hand to the board, before any
    /// capture.
    pub open spec fn place(self, action: Action) -> StateView {
        StateView {
            board: self.board.update(
                action.position as int,
                Some(Position { card: self.hand[action.card_in_hand as int]->0, is_player: true }),
            ),
            hand: self.hand.update(action.card_in_hand as int, None),
            ..self
        }
    }

    /// The state after `action`: the card is placed, its neighbours are
    /// tested and captured, and a combo follows if the placement triggers
    /// one.
    pub open spec fn apply(self, action: Action) -> StateView
        recommends
            self.is_legal(action),
    {
        let captured = self.place(action).flip(action.position as int, true);
        if captured.combo_triggered(action.position as int) {
            captured.combo(action.position as int)
        } else {
            captured
        }
    }

    /// The same position seen by the other side: the hands change places and
    /// every card on the board changes its owner flag.
    pub open spec fn invert(self) -> StateView {
        StateView {
            board: Seq::new(self.board.len(), |cell: int| switched(self.board[cell])),
            hand: self.opponent,
            opponent: self.hand,
            rules: self.rules,
        }
    }

    /// [`Self::is_legal`] as a predicate on the action.
    pub open spec fn legality(self) -> spec_fn(Action) -> bool {
        |action: Action| self.is_legal(action)
    }

    /// The moves open to the side to move, by ascending hand slot and, within
    /// a slot, ascending cell.
    pub open spec fn legal_actions(self) -> Seq<Action> {
        all_actions().filter(self.legality())
    }
}

} // verus!
