//! Lemmas about the model that the proofs of the engine rest on.

use vstd::prelude::*;

use super::model::{
    adjacent_cells, are_adjacent, cards_in, category_count, category_count_upto, category_weight,
    cells_of, empty_cells, held_cells, held_weight, hostile, in_combo, is_combo_chain, owned,
    presence, same_cards, tally, vacancy,
};
use super::model::StateView;
use super::{Card, CardType, Position};

verus! {

/// Filtering one more item of a sequence appends it to the result or leaves
/// the result alone.
pub proof fn lemma_filter_take_step<A>(items: Seq<A>, pred: spec_fn(A) -> bool, k: int)
    requires
        0 <= k < items.len(),
    ensures
        items.take(k + 1).filter(pred) == if pred(items[k]) {
            items.take(k).filter(pred).push(items[k])
        } else {
            items.take(k).filter(pred)
        },
{
    reveal(Seq::filter);
    assert(items.take(k + 1).drop_last() =~= items.take(k));
}

/// Replacing one item changes a tally by the difference of the two weights.
pub proof fn lemma_tally_update<A>(items: Seq<A>, weight: spec_fn(A) -> int, i: int, x: A, n: int)
    requires
        0 <= i < items.len(),
        0 <= n <= items.len(),
    ensures
        tally(items.update(i, x), weight, n) == tally(items, weight, n) + if i < n {
            weight(x) - weight(items[i])
        } else {
            0
        },
    decreases n,
{
    if n > 0 {
        lemma_tally_update(items, weight, i, x, n - 1);
    }
}

/// Two sequences whose items weigh the same, place by place, have the same
/// tally.
pub proof fn lemma_tally_pointwise<A, B>(
    left: Seq<A>,
    left_weight: spec_fn(A) -> int,
    right: Seq<B>,
    right_weight: spec_fn(B) -> int,
    n: int,
)
    requires
        forall|i: int| 0 <= i < n ==> left_weight(#[trigger] left[i]) == right_weight(right[i]),
    ensures
        tally(left, left_weight, n) == tally(right, right_weight, n),
    decreases n,
{
    if n > 0 {
        lemma_tally_pointwise(left, left_weight, right, right_weight, n - 1);
    }
}

/// A tally of weights that are zero or one lies between zero and the number
/// of items counted.
pub proof fn lemma_tally_bounds<A>(items: Seq<A>, weight: spec_fn(A) -> int, n: int)
    requires
        0 <= n,
        forall|x: A| 0 <= #[trigger] weight(x) <= 1,
    ensures
        0 <= tally(items, weight, n) <= n,
    decreases n,
{
    if n > 0 {
        lemma_tally_bounds(items, weight, n - 1);
    }
}

/// How the count of cells held by `side` changes when one cell is replaced.
pub proof fn lemma_held_update(board: Seq<Option<Position>>, side: bool, i: int, x: Option<Position>)
    requires
        0 <= i < board.len(),
    ensures
        held_cells(board.update(i, x), side) == held_cells(board, side) + held_weight(x, side)
            - held_weight(board[i], side),
{
    lemma_tally_update(
        board,
        |cell: Option<Position>| held_weight(cell, side),
        i,
        x,
        board.len() as int,
    );
}

/// How the count of empty cells changes when one cell is replaced.
pub proof fn lemma_empty_update(board: Seq<Option<Position>>, i: int, x: Option<Position>)
    requires
        0 <= i < board.len(),
    ensures
        empty_cells(board.update(i, x)) == empty_cells(board) + vacancy(x) - vacancy(board[i]),
{
    lemma_tally_update(board, |cell: Option<Position>| vacancy(cell), i, x, board.len() as int);
}

/// How the count of cards changes when one slot of a hand is replaced.
pub proof fn lemma_cards_update(hand: Seq<Option<Card>>, i: int, x: Option<Card>)
    requires
        0 <= i < hand.len(),
    ensures
        cards_in(hand.update(i, x)) == cards_in(hand) + presence(x) - presence(hand[i]),
{
    lemma_tally_update(hand, |slot: Option<Card>| presence(slot), i, x, hand.len() as int);
}

/// The list of a cell's neighbours holds each cell that shares an edge with
/// it, once.
pub proof fn lemma_adjacent_cells(pos: int)
    requires
        0 <= pos < 9,
    ensures
        adjacent_cells(pos).len() <= 4,
        adjacent_cells(pos).no_duplicates(),
        forall|c: int| adjacent_cells(pos).contains(c) <==> are_adjacent(pos, c),
{
    let cells = adjacent_cells(pos);
    assert forall|c: int| are_adjacent(pos, c) implies cells.contains(c) by {
        let j = if c == pos - 3 {
            0
        } else if c == pos - 1 {
            if pos > 2 { 1int } else { 0int }
        } else if c == pos + 3 {
            (if pos > 2 { 1int } else { 0int }) + (if pos % 3 != 0 { 1int } else { 0int })
        } else {
            cells.len() - 1
        };
        assert(cells[j] == c);
    }
}

/// A category's count lies between zero and the number of cells counted.
pub proof fn lemma_category_count_bounds(board: Seq<Option<Position>>)
    ensures
        forall|kind: CardType, n: int|
            0 <= n ==> 0 <= #[trigger] category_count_upto(board, kind, n) <= n,
{
    assert forall|kind: CardType, n: int| 0 <= n implies 0 <= #[trigger] category_count_upto(
        board,
        kind,
        n,
    ) <= n by {
        lemma_tally_bounds(board, |cell: Option<Position>| category_weight(cell, kind), n);
    }
}

/// A set of cells that holds every opposing neighbour of `origin`, and with
/// each of its cells that cell's opposing neighbours, holds every cell that
/// a combo from `origin` reaches.
pub proof fn lemma_combo_closed(board: Seq<Option<Position>>, origin: int, reached: Set<int>)
    requires
        forall|n: int| #[trigger] are_adjacent(origin, n) && hostile(board, n) ==> reached.contains(n),
        forall|c: int, n: int|
            reached.contains(c) && #[trigger] are_adjacent(c, n) && hostile(board, n)
                ==> reached.contains(n),
    ensures
        forall|c: int| in_combo(board, origin, c) ==> reached.contains(c),
{
    assert forall|c: int| in_combo(board, origin, c) implies reached.contains(c) by {
        let path = choose|path: Seq<int>| #[trigger]
            is_combo_chain(board, origin, path) && path.last() == c;
        lemma_chain_stays_inside(board, origin, reached, path, path.len() - 1);
    }
}

proof fn lemma_chain_stays_inside(
    board: Seq<Option<Position>>,
    origin: int,
    reached: Set<int>,
    path: Seq<int>,
    i: int,
)
    requires
        forall|n: int| #[trigger] are_adjacent(origin, n) && hostile(board, n) ==> reached.contains(n),
        forall|c: int, n: int|
            reached.contains(c) && #[trigger] are_adjacent(c, n) && hostile(board, n)
                ==> reached.contains(n),
        is_combo_chain(board, origin, path),
        0 <= i < path.len(),
    ensures
        reached.contains(path[i]),
    decreases i,
{
    if i > 0 {
        lemma_chain_stays_inside(board, origin, reached, path, i - 1);
        assert(are_adjacent(path[i - 1], path[i - 1 + 1]));
    }
}

/// An opposing card beside `origin` is reached by a combo from there.
pub proof fn lemma_chain_start(board: Seq<Option<Position>>, origin: int, cell: int)
    requires
        are_adjacent(origin, cell),
        hostile(board, cell),
    ensures
        in_combo(board, origin, cell),
{
    let path = seq![cell];
    assert(is_combo_chain(board, origin, path) && path.last() == cell);
}

/// An opposing card beside a cell that a combo reaches is reached too.
pub proof fn lemma_chain_extend(board: Seq<Option<Position>>, origin: int, via: int, cell: int)
    requires
        in_combo(board, origin, via),
        are_adjacent(via, cell),
        hostile(board, cell),
    ensures
        in_combo(board, origin, cell),
{
    let path = choose|path: Seq<int>| #[trigger]
        is_combo_chain(board, origin, path) && path.last() == via;
    let longer = path.push(cell);
    assert forall|i: int| 0 <= i < longer.len() implies hostile(board, #[trigger] longer[i]) by {
        if i < path.len() {
            assert(longer[i] == path[i]);
        }
    }
    assert forall|i: int| 0 <= i < longer.len() - 1 implies are_adjacent(
        #[trigger] longer[i],
        longer[i + 1],
    ) by {
        assert(longer[i] == path[i]);
        if i < path.len() - 1 {
            assert(longer[i + 1] == path[i + 1]);
        }
    }
    assert(longer[0] == path[0]);
    assert(is_combo_chain(board, origin, longer) && longer.last() == cell);
}

/// A facing strength is a card's strength plus at most nine either way.
pub proof fn lemma_facing_bounds(state: StateView, placed: int, other: int)
    requires
        state.well_formed(),
    ensures
        -137 <= state.facing(placed, other).0 <= 136,
        -137 <= state.facing(placed, other).1 <= 136,
{
    lemma_category_count_bounds(state.board);
    assert forall|kind: CardType| 0 <= #[trigger] category_count(state.board, kind) <= 9 by {
        assert(0 <= category_count_upto(state.board, kind, 9) <= 9);
    }
}

/// Boards that hold the same cards have the same number of empty cells.
pub proof fn lemma_same_cards_same_gaps(left: Seq<Option<Position>>, right: Seq<Option<Position>>)
    requires
        same_cards(left, right),
    ensures
        empty_cells(left) == empty_cells(right),
{
    lemma_tally_pointwise(
        left,
        |cell: Option<Position>| vacancy(cell),
        right,
        |cell: Option<Position>| vacancy(cell),
        left.len() as int,
    );
}

/// Whether a card of the opponent on `before` has been turned over on `now`.
pub open spec fn turned(before: Seq<Option<Position>>, now: Seq<Option<Position>>, cell: int) -> bool {
    hostile(before, cell) && !hostile(now, cell)
}

/// What holds while a combo from `origin` runs on the board `start`: the
/// cards turned over so far are all within the combo's reach, each of them
/// either waits in `pending` or is `settled`, and a settled card has no
/// opposing neighbour left.
pub open spec fn combo_progress(
    start: Seq<Option<Position>>,
    now: Seq<Option<Position>>,
    origin: int,
    settled: Set<int>,
    pending: Seq<usize>,
) -> bool {
    &&& 0 <= origin < 9
    &&& start.len() == 9
    &&& now.len() == 9
    &&& forall|c: int|
        0 <= c < 9 ==> #[trigger] now[c] == start[c] || (hostile(start, c) && now[c] == owned(
            start[c],
        ))
    &&& forall|c: int|
        0 <= c < 9 && #[trigger] turned(start, now, c) ==> in_combo(start, origin, c) && (
        settled.contains(c) || exists|j: int| 0 <= j < pending.len() && pending[j] == c)
    &&& forall|j: int| 0 <= j < pending.len() ==> turned(start, now, #[trigger] pending[j] as int)
    &&& forall|c: int, n: int|
        settled.contains(c) && #[trigger] are_adjacent(c, n) && hostile(start, n) ==> turned(
            start,
            now,
            n,
        )
    &&& forall|n: int|
        #[trigger] are_adjacent(origin, n) && hostile(start, n) ==> turned(start, now, n)
}

/// The cells that a flip without comparison turns over are the opposing
/// neighbours of its source, and no others.
proof fn lemma_unchecked_flip_cells(state: StateView, source: int, flipped: Seq<usize>)
    requires
        0 <= source < 9,
        cells_of(flipped) == state.flipped_cells(source, false),
    ensures
        forall|j: int|
            0 <= j < flipped.len() ==> are_adjacent(source, #[trigger] flipped[j] as int)
                && hostile(state.board, flipped[j] as int),
        forall|c: int|
            are_adjacent(source, c) && hostile(state.board, c) ==> exists|j: int|
                0 <= j < flipped.len() && #[trigger] flipped[j] == c,
{
    let cells = adjacent_cells(source);
    let test = state.capture_test(source, false);
    let kept = cells.filter(test);
    lemma_adjacent_cells(source);
    assert(cells_of(flipped).len() == flipped.len());
    assert forall|j: int| 0 <= j < flipped.len() implies are_adjacent(
        source,
        #[trigger] flipped[j] as int,
    ) && hostile(state.board, flipped[j] as int) by {
        assert(kept[j] == cells_of(flipped)[j]);
        cells.lemma_filter_pred(test, j);
        cells.lemma_filter_contains_rev(test, kept[j]);
    }
    assert forall|c: int| are_adjacent(source, c) && hostile(state.board, c) implies exists|
        j: int,
    | 0 <= j < flipped.len() && #[trigger] flipped[j] == c by {
        let k = choose|k: int| 0 <= k < cells.len() && cells[k] == c;
        cells.lemma_filter_contains(test, k);
        let j = choose|j: int| 0 <= j < kept.len() && kept[j] == c;
        assert(cells_of(flipped)[j] == c);
        assert(flipped[j] == c);
    }
}

/// A combo's first step, which turns over the opposing cards beside the
/// origin, establishes [`combo_progress`].
pub proof fn lemma_combo_begin(state: StateView, origin: int, first: Seq<usize>)
    requires
        state.board.len() == 9,
        0 <= origin < 9,
        cells_of(first) == state.flipped_cells(origin, false),
    ensures
        combo_progress(
            state.board,
            state.flip(origin, false).board,
            origin,
            Set::empty(),
            first,
        ),
{
    let start = state.board;
    let now = state.flip(origin, false).board;
    lemma_unchecked_flip_cells(state, origin, first);
    assert forall|c: int| 0 <= c < 9 && #[trigger] turned(start, now, c) implies in_combo(
        start,
        origin,
        c,
    ) && exists|j: int| 0 <= j < first.len() && first[j] == c by {
        lemma_chain_start(start, origin, c);
    }
}

/// A cell that waits for its turn lies on the board.
pub proof fn lemma_combo_pending_in_range(
    start: Seq<Option<Position>>,
    now: Seq<Option<Position>>,
    origin: int,
    settled: Set<int>,
    pending: Seq<usize>,
)
    requires
        combo_progress(start, now, origin, settled, pending),
    ensures
        forall|j: int| 0 <= j < pending.len() ==> #[trigger] pending[j] < 9,
{
    assert forall|j: int| 0 <= j < pending.len() implies #[trigger] pending[j] < 9 by {
        assert(turned(start, now, pending[j] as int));
    }
}

/// One round of a combo keeps [`combo_progress`]: the last waiting cell is
/// settled once its opposing neighbours are turned over, and those
/// neighbours wait in its place.
pub proof fn lemma_combo_step(
    start: Seq<Option<Position>>,
    entry: StateView,
    origin: int,
    settled: Set<int>,
    pending: Seq<usize>,
    more: Seq<usize>,
)
    requires
        combo_progress(start, entry.board, origin, settled, pending),
        pending.len() > 0,
        cells_of(more) == entry.flipped_cells(pending.last() as int, false),
    ensures
        combo_progress(
            start,
            entry.flip(pending.last() as int, false).board,
            origin,
            settled.insert(pending.last() as int),
            pending.drop_last() + more,
        ),
{
    let source = pending.last() as int;
    let now = entry.flip(source, false).board;
    let rest = pending.drop_last();
    let queue = rest + more;
    let done = settled.insert(source);
    assert(turned(start, entry.board, pending[pending.len() - 1] as int));
    lemma_unchecked_flip_cells(entry, source, more);
    assert forall|c: int| 0 <= c < 9 && #[trigger] turned(start, now, c) implies in_combo(
        start,
        origin,
        c,
    ) && (done.contains(c) || exists|j: int| 0 <= j < queue.len() && queue[j] == c) by {
        if turned(start, entry.board, c) {
            if !settled.contains(c) {
                let j = choose|j: int| 0 <= j < pending.len() && pending[j] == c;
                if j < pending.len() - 1 {
                    assert(queue[j] == c);
                }
            }
        } else {
            assert(are_adjacent(source, c) && hostile(entry.board, c));
            lemma_chain_extend(start, origin, source, c);
            let j = choose|j: int| 0 <= j < more.len() && more[j] == c;
            assert(queue[rest.len() + j] == c);
        }
    }
    assert forall|j: int| 0 <= j < queue.len() implies turned(
        start,
        now,
        #[trigger] queue[j] as int,
    ) by {
        if j < rest.len() {
            assert(queue[j] == pending[j]);
            assert(turned(start, entry.board, pending[j] as int));
        } else {
            assert(queue[j] == more[j - rest.len()]);
        }
    }
    assert forall|c: int, n: int|
        done.contains(c) && #[trigger] are_adjacent(c, n) && hostile(start, n) implies turned(
        start,
        now,
        n,
    ) by {
        if c == source && !settled.contains(c) {
            if hostile(entry.board, n) {
                assert(now[n] == owned(entry.board[n]));
            }
        } else {
            assert(turned(start, entry.board, n));
        }
    }
    assert forall|n: int| #[trigger] are_adjacent(origin, n) && hostile(start, n) implies turned(
        start,
        now,
        n,
    ) by {
        assert(turned(start, entry.board, n));
    }
}

/// When no cell waits any more, the board is the one that the combo's
/// definition describes.
pub proof fn lemma_combo_end(
    state: StateView,
    now: Seq<Option<Position>>,
    origin: int,
    settled: Set<int>,
)
    requires
        combo_progress(state.board, now, origin, settled, Seq::empty()),
    ensures
        now == state.combo(origin).board,
{
    let start = state.board;
    let reached = Set::new(|c: int| turned(start, now, c));
    assert forall|c: int, n: int|
        reached.contains(c) && #[trigger] are_adjacent(c, n) && hostile(start, n)
            implies reached.contains(n) by {
        assert(turned(start, now, c));
        assert(settled.contains(c));
    }
    lemma_combo_closed(start, origin, reached);
    assert forall|c: int| 0 <= c < 9 implies #[trigger] now[c] == state.combo(origin).board[c] by {
        if in_combo(start, origin, c) {
            assert(reached.contains(c));
        } else if turned(start, now, c) {
            assert(in_combo(start, origin, c));
        }
    }
    assert(now =~= state.combo(origin).board);
}

} // verus!
