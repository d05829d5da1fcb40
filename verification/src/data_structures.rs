//! Cards, board, hands, and the state-transition engine.

use vstd::prelude::*;

pub mod laws;
pub mod model;
pub mod proofs;
pub mod rules;

use model::{
    adjacent_cells, are_adjacent, cards_in, category_count, category_count_upto, cells_of,
    empty_cells, held_cells, held_weight, owned, should_flip_spec, switched, StateView,
};
use laws::apply_consumes_one_card;
use proofs::{
    combo_progress, lemma_adjacent_cells, lemma_category_count_bounds, lemma_combo_begin, lemma_combo_end,
    lemma_combo_pending_in_range, lemma_combo_step, lemma_facing_bounds, lemma_filter_take_step,
    lemma_held_update, lemma_tally_bounds,
};
use rules::Rule;

verus! {

/// A directional strength printed on a card.
pub type Strength = i8;

/// A strength as it enters a comparison, after rule modifiers were added.
pub type Power = i16;

/// A card's rarity, from one to five stars. No rule reads it.
pub type Star = u8;

/// An index into a hand, from 0 to 4.
pub type HandPosition = usize;

/// An index into the board, from 0 to 8, row by row:
///
/// ```text
/// 0  1  2
/// 3  4  5
/// 6  7  8
/// ```
pub type BoardPosition = usize;

/// The category of a card. Ascension and Descension count the cards on the
/// board category by category.
#[derive(Copy, Clone, Debug, PartialEq, Eq, Structural)]
pub enum CardType {
    BEASTMAN,
    GARLAND,
    PRIMAL,
    SCIONS,
}

/// The place of a category in a table of per-category counts.
pub open spec fn category_slot(kind: CardType) -> int {
    match kind {
        CardType::BEASTMAN => 0,
        CardType::GARLAND => 1,
        CardType::PRIMAL => 2,
        CardType::SCIONS => 3,
    }
}

impl CardType {
    /// The place of this category in a table of per-category counts.
    pub fn index(self) -> (slot: usize)
        ensures
            slot == category_slot(self),
    {
        match self {
            CardType::BEASTMAN => 0,
            CardType::GARLAND => 1,
            CardType::PRIMAL => 2,
            CardType::SCIONS => 3,
        }
    }
}

/// A card: one strength for each side, a rarity, and a category if it has
/// one.
#[derive(Copy, Clone, Debug, PartialEq, Eq)]
pub struct Card {
    pub top: Strength,
    pub bottom: Strength,
    pub left: Strength,
    pub right: Strength,
    pub star: Star,
    pub card_type: Option<CardType>,
}

/// A card lying on the board, with the side that holds it: `is_player` is
/// true when it belongs to the side whose turn it is.
#[derive(Copy, Clone, Debug, PartialEq, Eq)]
pub struct Position {
    pub card: Card,
    pub is_player: bool,
}

/// The nine cells of the board, each empty or holding a card.
pub type Board = [Option<Position>; 9];

/// The five slots of a hand, each empty or holding a card.
pub type Hand = [Option<Card>; 5];

/// The rules in force: a rule is active when it stands in one of the slots.
pub type Rules = [Option<Rule>; 4];

/// A position of the game, seen by the side to move: `hand` is that side's
/// hand, `opponent` the other's. A state is a plain value; every move is
/// made on a copy.
#[derive(Copy, Clone, Debug, PartialEq, Eq)]
pub struct State {
    pub board: Board,
    pub hand: Hand,
    pub opponent: Hand,
    pub rules: Rules,
}

/// A move: the hand slot to play from and the board cell to play to.
#[derive(Copy, Clone, Debug, PartialEq, Eq, Structural)]
pub struct Action {
    pub position: BoardPosition,
    pub card_in_hand: HandPosition,
}

/// The cells that share an edge with `pos`, in the order up, left, down,
/// right.
pub fn find_adjacent_positions(pos: BoardPosition) -> (positions: Vec<BoardPosition>)
    requires
        pos < 9,
    ensures
        cells_of(positions@) == adjacent_cells(pos as int),
        positions@.len() == adjacent_cells(pos as int).len(),
        forall|i: int|
            0 <= i < positions@.len() ==> #[trigger] positions@[i] as int == adjacent_cells(
                pos as int,
            )[i],
{
    let mut positions: Vec<BoardPosition> = Vec::new();
    if pos > 2 {
        positions.push(pos - 3);
    }
    if pos % 3 != 0 {
        positions.push(pos - 1);
    }
    if pos < 6 {
        positions.push(pos + 3);
    }
    if pos % 3 != 2 {
        positions.push(pos + 1);
    }
    assert(cells_of(positions@) =~= adjacent_cells(pos as int));
    assert forall|i: int| 0 <= i < positions@.len() implies #[trigger] positions@[i] as int
        == adjacent_cells(pos as int)[i] by {
        assert(cells_of(positions@)[i] == positions@[i] as int);
    }
    positions
}

/// The mark that stands for a cell when the board is displayed.
pub open spec fn owner_mark(cell: Option<Position>) -> int {
    match cell {
        Some(position) => if position.is_player {
            1
        } else {
            0
        },
        None => -1,
    }
}

/// Whether `rule` stands in one of the rule slots.
pub fn has_rule(rules: &Rules, rule: Rule) -> (active: bool)
    ensures
        active == rules@.contains(Some(rule)),
{
    let mut slot: usize = 0;
    while slot < 4
        invariant
            slot <= 4,
            forall|k: int| 0 <= k < slot ==> rules@[k] != Some(rule),
        decreases 4 - slot,
    {
        if let Some(found) = rules[slot] {
            if found == rule {
                assert(rules@[slot as int] == Some(rule));
                return true;
            }
        }
        slot += 1;
    }
    false
}

/// Whether a card that shows `placed_card` takes a neighbour that shows
/// `opposing_card`. Fallen Ace is tried first, then Reverse, then the plain
/// rule that the stronger card takes.
pub fn should_flip(placed_card: Power, opposing_card: Power, rules: &Rules) -> (flip: bool)
    ensures
        flip == should_flip_spec(placed_card as int, opposing_card as int, rules@),
{
    if has_rule(rules, Rule::FallenAce) && placed_card == 1 && opposing_card == 10 {
        return true;
    }
    if has_rule(rules, Rule::Reverse) && placed_card < opposing_card {
        return true;
    }
    placed_card > opposing_card
}

/// Whether `sum` is among `sums`.
fn contains_sum(sums: &Vec<Power>, sum: Power) -> (found: bool)
    ensures
        found == sums@.contains(sum),
{
    let mut i: usize = 0;
    while i < sums.len()
        invariant
            i <= sums.len(),
            forall|j: int| 0 <= j < i ==> sums@[j] != sum,
        decreases sums.len() - i,
    {
        if sums[i] == sum {
            return true;
        }
        i += 1;
    }
    false
}

impl State {
    /// Plays the card in hand slot `action.card_in_hand` to the empty cell
    /// `action.position`: the card leaves the hand, captures the neighbours
    /// it beats, and sets off a combo where Plus or Same says so.
    pub fn take_action(&mut self, action: &Action)
        requires
            old(self)@.is_legal(*action),
        ensures
            final(self)@ == old(self)@.apply(*action),
            empty_cells(final(self)@.board) == empty_cells(old(self)@.board) - 1,
            cards_in(final(self)@.hand) == cards_in(old(self)@.hand) - 1,
            final(self)@.opponent == old(self)@.opponent,
            final(self)@.rules == old(self)@.rules,
            forall|cell: int|
                0 <= cell < 9 && old(self)@.board[cell] is Some
                    ==> (#[trigger] final(self)@.board[cell]) is Some
                    && final(self)@.board[cell]->0.card == old(self)@.board[cell]->0.card,
    {
        proof {
            apply_consumes_one_card(self@, *action);
        }
        let card = self.hand[action.card_in_hand].unwrap();
        self.board[action.position] = Some(Position { card, is_player: true });
        self.hand[action.card_in_hand] = None;
        assert(self@.board =~= old(self)@.place(*action).board);
        assert(self@.hand =~= old(self)@.place(*action).hand);
        assert(self@ == old(self)@.place(*action));

        let _ = self.flip_positions(action.position, true);

        if has_rule(&self.rules, Rule::Plus) && self.check_plus(action.position) {
            self.do_combo(action.position);
        } else if has_rule(&self.rules, Rule::Same) && self.check_same(action.position) {
            self.do_combo(action.position);
        }
    }

    /// Whether Plus is active and two different occupied neighbours of
    /// `position` give the same sum of facing strengths.
    pub fn check_plus(&self, position: BoardPosition) -> (matched: bool)
        requires
            position < 9,
            self@.occupied(position as int),
        ensures
            matched == (self@.has_rule(Rule::Plus) && self@.plus_match(position as int)),
    {
        if !has_rule(&self.rules, Rule::Plus) {
            return false;
        }
        let neighbours = find_adjacent_positions(position);
        let mut sums: Vec<Power> = Vec::new();
        let ghost placed = position as int;
        let ghost cells = adjacent_cells(placed);
        // For each sum, the neighbour it came from; for each neighbour, the
        // place of its sum.
        let ghost mut source: Seq<int> = Seq::empty();
        let ghost mut place_of: Seq<int> = Seq::empty();
        proof {
            lemma_adjacent_cells(placed);
            assert(cells_of(neighbours@).len() == neighbours@.len());
        }
        let mut k: usize = 0;
        while k < neighbours.len()
            invariant
                position < 9,
                placed == position as int,
                self@.occupied(placed),
                self@.has_rule(Rule::Plus),
                k <= neighbours.len(),
                cells == adjacent_cells(placed),
                cells_of(neighbours@) == cells,
                cells.no_duplicates(),
                forall|c: int| cells.contains(c) <==> are_adjacent(placed, c),
                source.len() == sums@.len(),
                place_of.len() == k,
                forall|i: int|
                    0 <= i < sums@.len() ==> 0 <= #[trigger] source[i] < k && self@.occupied(
                        cells[source[i]],
                    ) && place_of[source[i]] == i && sums@[i] == self@.pair_sum(
                        placed,
                        cells[source[i]],
                    ),
                forall|j: int|
                    0 <= j < k && self@.occupied(cells[j]) ==> 0 <= #[trigger] place_of[j]
                        < sums@.len() && source[place_of[j]] == j,
                forall|i: int, j: int|
                    0 <= i < j < sums@.len() ==> #[trigger] sums@[i] != #[trigger] sums@[j],
            decreases neighbours.len() - k,
        {
            let adjacent_position = neighbours[k];
            proof {
                assert(cells[k as int] == cells_of(neighbours@)[k as int]);
                assert(cells.contains(adjacent_position as int));
            }
            if self.board[adjacent_position].is_some() {
                let (strength, opposite_strength) = self.compare_positions(
                    position,
                    adjacent_position,
                );
                proof {
                    lemma_facing_bounds(self@, placed, adjacent_position as int);
                }
                let sum = strength + opposite_strength;
                assert(sum == self@.pair_sum(placed, cells[k as int])) by {
                    reveal(StateView::pair_sum);
                }
                if contains_sum(&sums, sum) {
                    proof {
                        let i = choose|i: int| 0 <= i < sums@.len() && sums@[i] == sum;
                        let j = source[i];
                        assert(cells.contains(cells[j]));
                        assert(cells[j] != cells[k as int]);
                        assert(self@.pair_sum(placed, cells[j]) == self@.pair_sum(
                            placed,
                            cells[k as int],
                        ));
                    }
                    return true;
                }
                proof {
                    place_of = place_of.push(sums@.len() as int);
                    source = source.push(k as int);
                }
                sums.push(sum);
            } else {
                proof {
                    place_of = place_of.push(-1);
                }
            }
            k += 1;
        }
        proof {
            if self@.plus_match(placed) {
                let (a, b) = choose|a: int, b: int|
                    a != b && are_adjacent(placed, a) && are_adjacent(placed, b)
                        && self@.occupied(a) && self@.occupied(b) && #[trigger] self@.pair_sum(
                        placed,
                        a,
                    ) == #[trigger] self@.pair_sum(placed, b);
                assert(cells.contains(a) && cells.contains(b));
                let ja = choose|j: int| 0 <= j < cells.len() && cells[j] == a;
                let jb = choose|j: int| 0 <= j < cells.len() && cells[j] == b;
                let ia = place_of[ja];
                let ib = place_of[jb];
                assert(source[ia] == ja && source[ib] == jb);
                assert(sums@[ia] == self@.pair_sum(placed, a));
                assert(sums@[ib] == self@.pair_sum(placed, b));
                assert(ia != ib);
            }
        }
        false
    }

    /// Whether Same is active and some occupied neighbour of `position`
    /// shows the same strength as the card there, where the two touch.
    pub fn check_same(&self, position: BoardPosition) -> (matched: bool)
        requires
            position < 9,
            self@.occupied(position as int),
        ensures
            matched == (self@.has_rule(Rule::Same) && self@.same_match(position as int)),
    {
        if !has_rule(&self.rules, Rule::Same) {
            return false;
        }
        let neighbours = find_adjacent_positions(position);
        let ghost placed = position as int;
        let ghost cells = adjacent_cells(placed);
        proof {
            lemma_adjacent_cells(placed);
            assert(cells_of(neighbours@).len() == neighbours@.len());
        }
        let mut k: usize = 0;
        while k < neighbours.len()
            invariant
                position < 9,
                placed == position as int,
                self@.occupied(placed),
                self@.has_rule(Rule::Same),
                k <= neighbours.len(),
                cells == adjacent_cells(placed),
                cells_of(neighbours@) == cells,
                forall|c: int| cells.contains(c) <==> are_adjacent(placed, c),
                forall|j: int|
                    0 <= j < k && self@.occupied(#[trigger] cells[j]) ==> self@.facing(
                        placed,
                        cells[j],
                    ).0 != self@.facing(placed, cells[j]).1,
            decreases neighbours.len() - k,
        {
            let adjacent_position = neighbours[k];
            proof {
                assert(cells[k as int] == cells_of(neighbours@)[k as int]);
                assert(cells.contains(adjacent_position as int));
            }
            if self.board[adjacent_position].is_some() {
                let (strength, opposite_strength) = self.compare_positions(
                    position,
                    adjacent_position,
                );
                if strength == opposite_strength {
                    return true;
                }
            }
            k += 1;
        }
        proof {
            if self@.same_match(placed) {
                let a = choose|a: int|
                    are_adjacent(placed, a) && self@.occupied(a) && (#[trigger] self@.facing(
                        placed,
                        a,
                    )).0 == self@.facing(placed, a).1;
                assert(cells.contains(a));
                let j = choose|j: int| 0 <= j < cells.len() && cells[j] == a;
                assert(self@.occupied(cells[j]));
            }
        }
        false
    }

    /// Turns the table: the hands change places and every card on the board
    /// changes its owner flag, so that the other side is the one to move.
    pub fn invert(&mut self)
        ensures
            final(self)@ == old(self)@.invert(),
    {
        let temp = self.hand;
        self.hand = self.opponent;
        self.opponent = temp;
        let mut board_position: usize = 0;
        while board_position < 9
            invariant
                board_position <= 9,
                self.hand == old(self).opponent,
                self.opponent == old(self).hand,
                self.rules == old(self).rules,
                forall|c: int|
                    0 <= c < board_position ==> #[trigger] self@.board[c] == switched(
                        old(self)@.board[c],
                    ),
                forall|c: int|
                    board_position <= c < 9 ==> #[trigger] self@.board[c] == old(self)@.board[c],
            decreases 9 - board_position,
        {
            let ghost entry = self@.board;
            if let Some(position) = self.board[board_position] {
                self.board[board_position] = Some(
                    Position { card: position.card, is_player: !position.is_player },
                );
            }
            assert(self@.board =~= entry.update(
                board_position as int,
                switched(entry[board_position as int]),
            ));
            board_position += 1;
        }
        assert(self@.board =~= old(self)@.invert().board);
    }

    /// The board as a row of marks, for display: 1 for a card of the side to
    /// move, 0 for a card of the opponent, -1 for an empty cell.
    pub fn owner_marks(&self) -> (marks: Vec<isize>)
        ensures
            marks@.len() == 9,
            forall|cell: int|
                0 <= cell < 9 ==> #[trigger] marks@[cell] == owner_mark(self@.board[cell]),
    {
        let mut marks: Vec<isize> = Vec::new();
        let mut cell: usize = 0;
        while cell < 9
            invariant
                cell <= 9,
                marks@.len() == cell,
                forall|c: int|
                    0 <= c < cell ==> #[trigger] marks@[c] == owner_mark(self@.board[c]),
            decreases 9 - cell,
        {
            let mark: isize = match self.board[cell] {
                Some(position) => if position.is_player {
                    1
                } else {
                    0
                },
                None => -1,
            };
            marks.push(mark);
            cell += 1;
        }
        marks
    }

    /// Counts the cards on the board by category. The count of a category
    /// stands at its [`CardType::index`].
    pub fn check_type_modifiers(&self) -> (types: [Strength; 4])
        ensures
            forall|kind: CardType|
                types@[#[trigger] category_slot(kind)] == category_count(self@.board, kind),
    {
        let mut types: [Strength; 4] = [0; 4];
        let mut cell: usize = 0;
        while cell < 9
            invariant
                cell <= 9,
                forall|kind: CardType|
                    types@[#[trigger] category_slot(kind)] == category_count_upto(
                        self@.board,
                        kind,
                        cell as int,
                    ),
            decreases 9 - cell,
        {
            proof {
                lemma_category_count_bounds(self@.board);
            }
            if let Some(position) = self.board[cell] {
                if let Some(kind) = position.card.card_type {
                    let slot = kind.index();
                    types[slot] = types[slot] + 1;
                }
            }
            cell += 1;
        }
        types
    }

    /// Tests the neighbours of `position` and turns over each card of the
    /// opponent that is captured: with `check`, one that loses the
    /// comparison against the card at `position`; without, every one.
    /// Returns the cells turned over, in the order up, left, down, right.
    pub fn flip_positions(&mut self, position: BoardPosition, check: bool) -> (positions_flipped:
        Vec<BoardPosition>)
        requires
            position < 9,
            check ==> old(self)@.occupied(position as int),
        ensures
            final(self)@ == old(self)@.flip(position as int, check),
            cells_of(positions_flipped@) == old(self)@.flipped_cells(position as int, check),
            held_cells(final(self)@.board, false) + positions_flipped@.len() == held_cells(
                old(self)@.board,
                false,
            ),
    {
        let before = *self;
        let neighbours = find_adjacent_positions(position);
        let mut positions_flipped: Vec<BoardPosition> = Vec::new();
        let ghost test = before@.capture_test(position as int, check);
        proof {
            lemma_adjacent_cells(position as int);
            assert(cells_of(neighbours@).len() == neighbours@.len());
            assert(cells_of(positions_flipped@) =~= adjacent_cells(position as int).take(0).filter(
                test,
            )) by {
                reveal(Seq::filter);
            }
        }
        let mut k: usize = 0;
        while k < neighbours.len()
            invariant
                position < 9,
                k <= neighbours.len(),
                cells_of(neighbours@) == adjacent_cells(position as int),
                adjacent_cells(position as int).no_duplicates(),
                forall|c: int|
                    adjacent_cells(position as int).contains(c) <==> are_adjacent(
                        position as int,
                        c,
                    ),
                check ==> before@.occupied(position as int),
                test == before@.capture_test(position as int, check),
                self.hand == before.hand,
                self.opponent == before.opponent,
                self.rules == before.rules,
                forall|c: int|
                    0 <= c < 9 ==> #[trigger] self@.board[c] == if (exists|j: int|
                        0 <= j < k && neighbours@[j] == c) && before@.captures(
                        position as int,
                        c,
                        check,
                    ) {
                        owned(before@.board[c])
                    } else {
                        before@.board[c]
                    },
                cells_of(positions_flipped@) == adjacent_cells(position as int).take(
                    k as int,
                ).filter(test),
                held_cells(self@.board, false) + positions_flipped@.len() == held_cells(
                    before@.board,
                    false,
                ),
            decreases neighbours.len() - k,
        {
            let adjacent_position = neighbours[k];
            let ghost cells = adjacent_cells(position as int);
            proof {
                assert(cells[k as int] == cells_of(neighbours@)[k as int]);
                assert(cells.contains(adjacent_position as int));
                lemma_filter_take_step(cells, test, k as int);
                assert forall|j: int| 0 <= j < k implies neighbours@[j] != adjacent_position by {
                    assert(cells[j] == cells_of(neighbours@)[j]);
                }
                assert(are_adjacent(position as int, adjacent_position as int));
                assert(self@.board[adjacent_position as int] == before@.board[adjacent_position as int]);
            }
            let ghost entry = *self;
            let mut flip = false;
            if let Some(current_position) = self.board[adjacent_position] {
                if !current_position.is_player {
                    if check {
                        let (strength, opposite_strength) = before.compare_positions(
                            position,
                            adjacent_position,
                        );
                        flip = should_flip(strength, opposite_strength, &before.rules);
                    } else {
                        flip = true;
                    }
                    if flip {
                        self.board[adjacent_position] = Some(
                            Position { card: current_position.card, is_player: true },
                        );
                        positions_flipped.push(adjacent_position);
                        proof {
                            lemma_held_update(
                                entry@.board,
                                false,
                                adjacent_position as int,
                                owned(entry@.board[adjacent_position as int]),
                            );
                            assert(self@.board =~= entry@.board.update(
                                adjacent_position as int,
                                owned(entry@.board[adjacent_position as int]),
                            ));
                        }
                    }
                }
            }
            proof {
                assert(flip == test(adjacent_position as int));
                assert(cells_of(positions_flipped@) =~= cells.take(k as int + 1).filter(test));
                assert forall|c: int| 0 <= c < 9 implies #[trigger] self@.board[c] == if (exists|
                    j: int,
                | 0 <= j < k + 1 && neighbours@[j] == c) && before@.captures(
                    position as int,
                    c,
                    check,
                ) {
                    owned(before@.board[c])
                } else {
                    before@.board[c]
                } by {
                    if c == adjacent_position {
                        assert(neighbours@[k as int] == c);
                    } else {
                        assert(self@.board[c] == entry@.board[c]);
                        if exists|j: int| 0 <= j < k + 1 && neighbours@[j] == c {
                            let j = choose|j: int| 0 <= j < k + 1 && neighbours@[j] == c;
                            assert(0 <= j < k && neighbours@[j] == c);
                        }
                    }
                }
            }
            k += 1;
        }
        proof {
            let cells = adjacent_cells(position as int);
            assert(cells.take(k as int) =~= cells);
            assert forall|c: int| 0 <= c < 9 implies #[trigger] self@.board[c] == old(
                self,
            )@.flip(position as int, check).board[c] by {
                if are_adjacent(position as int, c) {
                    assert(cells.contains(c));
                    let j = choose|j: int| 0 <= j < cells.len() && cells[j] == c;
                    assert(cells_of(neighbours@)[j] == c);
                    assert(neighbours@[j] == c);
                } else {
                    if exists|j: int| 0 <= j < k && neighbours@[j] == c {
                        let j = choose|j: int| 0 <= j < k && neighbours@[j] == c;
                        assert(cells_of(neighbours@)[j] == c);
                        assert(cells.contains(c));
                    }
                }
            }
            assert(self@.board =~= old(self)@.flip(position as int, check).board);
        }
        positions_flipped
    }

    /// Runs a combo from `board_position`: turns over every opposing card
    /// beside it, then every opposing card beside one just turned over, and
    /// so on until no such card is left. No strengths are compared.
    pub fn do_combo(&mut self, board_position: BoardPosition)
        requires
            board_position < 9,
        ensures
            final(self)@ == old(self)@.combo(board_position as int),
    {
        let ghost start = self@.board;
        let ghost origin = board_position as int;
        let ghost mut settled: Set<int> = Set::empty();
        let mut flipped_positions = self.flip_positions(board_position, false);
        proof {
            lemma_combo_begin(old(self)@, origin, flipped_positions@);
            lemma_tally_bounds(self@.board, |cell: Option<Position>| held_weight(cell, false), 9);
        }
        while flipped_positions.len() > 0
            invariant
                self@.hand == old(self)@.hand,
                self@.opponent == old(self)@.opponent,
                self@.rules == old(self)@.rules,
                0 <= held_cells(self@.board, false),
                combo_progress(start, self@.board, origin, settled, flipped_positions@),
            decreases 2 * held_cells(self@.board, false) + flipped_positions@.len(),
        {
            let ghost entry = self@;
            let ghost waiting = flipped_positions@;
            if let Some(flipped_position) = flipped_positions.pop() {
                proof {
                    lemma_combo_pending_in_range(start, entry.board, origin, settled, waiting);
                }
                let mut more = self.flip_positions(flipped_position, false);
                proof {
                    lemma_combo_step(start, entry, origin, settled, waiting, more@);
                    lemma_tally_bounds(
                        self@.board,
                        |cell: Option<Position>| held_weight(cell, false),
                        9,
                    );
                    settled = settled.insert(flipped_position as int);
                    assert(flipped_positions@ =~= waiting.drop_last());
                }
                flipped_positions.append(&mut more);
            }
        }
        proof {
            lemma_combo_end(old(self)@, self@.board, origin, settled);
        }
    }

    /// The two strengths that meet between the card at `board_position` and
    /// its neighbour at `opposite_board_position`, with the modifiers of
    /// Ascension and Descension added.
    pub fn compare_positions(
        &self,
        board_position: BoardPosition,
        opposite_board_position: BoardPosition,
    ) -> (strengths: (Power, Power))
        requires
            are_adjacent(board_position as int, opposite_board_position as int),
            self@.occupied(board_position as int),
            self@.occupied(opposite_board_position as int),
        ensures
            (strengths.0 as int, strengths.1 as int) == self@.facing(
                board_position as int,
                opposite_board_position as int,
            ),
    {
        let card = self.board[board_position].unwrap().card;
        let opposite_card = self.board[opposite_board_position].unwrap().card;
        let mut card_modifier: Power = 0;
        let mut opposite_card_modifier: Power = 0;

        let ascension = has_rule(&self.rules, Rule::Ascension);
        let descension = has_rule(&self.rules, Rule::Descension);
        if ascension || descension {
            let modifiers = self.check_type_modifiers();
            proof {
                lemma_category_count_bounds(self@.board);
            }
            if let Some(card_type) = card.card_type {
                card_modifier = modifiers[card_type.index()] as Power;
            }
            if let Some(card_type) = opposite_card.card_type {
                opposite_card_modifier = modifiers[card_type.index()] as Power;
            }
            if descension {
                card_modifier = -card_modifier;
                opposite_card_modifier = -opposite_card_modifier;
            }
        }
        if board_position == opposite_board_position + 3 {
            (card.top as Power + card_modifier, opposite_card.bottom as Power + opposite_card_modifier)
        } else if opposite_board_position == board_position + 3 {
            (card.bottom as Power + card_modifier, opposite_card.top as Power + opposite_card_modifier)
        } else if board_position == opposite_board_position + 1 {
            (card.left as Power + card_modifier, opposite_card.right as Power + opposite_card_modifier)
        } else {
            (card.right as Power + card_modifier, opposite_card.left as Power + opposite_card_modifier)
        }
    }
}

} // verus!
