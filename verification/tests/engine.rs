use triad_solver::data_structures::rules::Rule;
use triad_solver::data_structures::{
    find_adjacent_positions, has_rule, should_flip, Action, Board, Card, CardType, Hand, Position,
    Rules, State,
};

fn card(top: i8, bottom: i8, left: i8, right: i8) -> Card {
    Card { top, bottom, left, right, star: 1, card_type: None }
}

fn typed(top: i8, bottom: i8, left: i8, right: i8, kind: CardType) -> Card {
    Card { top, bottom, left, right, star: 1, card_type: Some(kind) }
}

fn mine(card: Card) -> Option<Position> {
    Some(Position { card, is_player: true })
}

fn theirs(card: Card) -> Option<Position> {
    Some(Position { card, is_player: false })
}

fn no_rules() -> Rules {
    [None, None, None, None]
}

fn only(rule: Rule) -> Rules {
    [None, None, None, Some(rule)]
}

fn state(board: Board, hand: Hand, rules: Rules) -> State {
    State { board, hand, opponent: [None; 5], rules }
}

fn one_card_hand(card: Card) -> Hand {
    [Some(card), None, None, None, None]
}

fn owners(state: &State) -> Vec<isize> {
    state.owner_marks()
}

#[test]
fn adjacency_of_every_cell() {
    assert_eq!(find_adjacent_positions(0), vec![3, 1]);
    assert_eq!(find_adjacent_positions(1), vec![0, 4, 2]);
    assert_eq!(find_adjacent_positions(2), vec![1, 5]);
    assert_eq!(find_adjacent_positions(3), vec![0, 6, 4]);
    assert_eq!(find_adjacent_positions(4), vec![1, 3, 7, 5]);
    assert_eq!(find_adjacent_positions(5), vec![2, 4, 8]);
    assert_eq!(find_adjacent_positions(6), vec![3, 7]);
    assert_eq!(find_adjacent_positions(7), vec![4, 6, 8]);
    assert_eq!(find_adjacent_positions(8), vec![5, 7]);
}

#[test]
fn rule_lookup_reads_every_slot() {
    let rules: Rules = [Some(Rule::Same), None, Some(Rule::Reverse), None];
    assert!(has_rule(&rules, Rule::Same));
    assert!(has_rule(&rules, Rule::Reverse));
    assert!(!has_rule(&rules, Rule::Plus));
    assert!(!has_rule(&no_rules(), Rule::Ascension));
}

#[test]
fn plain_rule_needs_a_stronger_card() {
    assert!(should_flip(4, 3, &no_rules()));
    assert!(!should_flip(3, 3, &no_rules()));
    assert!(!should_flip(2, 3, &no_rules()));
}

#[test]
fn fallen_ace_lets_one_take_ten() {
    assert!(should_flip(1, 10, &only(Rule::FallenAce)));
    assert!(!should_flip(1, 10, &no_rules()));
    assert!(!should_flip(1, 9, &only(Rule::FallenAce)));
    assert!(!should_flip(2, 10, &only(Rule::FallenAce)));
    assert!(should_flip(10, 1, &only(Rule::FallenAce)));
}

#[test]
fn reverse_lets_the_weaker_card_take_and_keeps_the_plain_rule() {
    assert!(should_flip(2, 3, &only(Rule::Reverse)));
    assert!(should_flip(3, 2, &only(Rule::Reverse)));
    assert!(!should_flip(3, 3, &only(Rule::Reverse)));
}

#[test]
fn identical_card_above_or_below_is_not_taken() {
    // equal strengths meet, and an equal strength does not take
    let c = card(3, 3, 6, 3);
    let mut board: Board = [None; 9];
    board[4] = theirs(c);
    for cell in [1usize, 7] {
        let mut s = state(board, one_card_hand(c), no_rules());
        s.take_action(&Action { position: cell, card_in_hand: 0 });
        assert_eq!(s.board[4], theirs(c));
        assert_eq!(s.board[cell], mine(c));
        assert_eq!(s.hand, [None; 5]);
        assert_eq!(s.board.iter().filter(|c| c.is_some()).count(), 2);
    }
}

#[test]
fn identical_card_beside_meets_unequal_sides() {
    let c = card(3, 3, 6, 3);
    let mut board: Board = [None; 9];
    board[4] = theirs(c);
    // from the left, the placed card shows its right side, 3, to a left side of 6
    let mut s = state(board, one_card_hand(c), no_rules());
    s.take_action(&Action { position: 3, card_in_hand: 0 });
    assert_eq!(s.board[4], theirs(c));
    // from the right, it shows its left side, 6, to a right side of 3
    let mut s = state(board, one_card_hand(c), no_rules());
    s.take_action(&Action { position: 5, card_in_hand: 0 });
    assert_eq!(s.board[4], mine(c));
}

#[test]
fn fallen_ace_takes_a_ten_on_placement() {
    let mut board: Board = [None; 9];
    board[1] = theirs(card(9, 10, 9, 9));
    let placed = card(1, 1, 1, 1);
    let mut plain = state(board, one_card_hand(placed), no_rules());
    plain.take_action(&Action { position: 4, card_in_hand: 0 });
    assert_eq!(owners(&plain)[1], 0);
    let mut ace = state(board, one_card_hand(placed), only(Rule::FallenAce));
    ace.take_action(&Action { position: 4, card_in_hand: 0 });
    assert_eq!(owners(&ace)[1], 1);
}

#[test]
fn reverse_takes_the_stronger_neighbour() {
    let mut board: Board = [None; 9];
    board[1] = theirs(card(9, 8, 9, 9)); // stronger
    board[7] = theirs(card(2, 9, 9, 9)); // weaker
    board[3] = theirs(card(9, 9, 9, 5)); // equal
    let placed = card(5, 5, 5, 5);
    let mut s = state(board, one_card_hand(placed), only(Rule::Reverse));
    s.take_action(&Action { position: 4, card_in_hand: 0 });
    assert_eq!(owners(&s), vec![-1, 1, -1, 0, 1, -1, -1, 1, -1]);
}

#[test]
fn placement_takes_weaker_neighbours_only() {
    let mut board: Board = [None; 9];
    board[1] = theirs(card(1, 4, 1, 1)); // above: its bottom 4 against top 5
    board[3] = theirs(card(1, 1, 1, 5)); // left: its right 5 against left 5
    board[5] = theirs(card(1, 1, 6, 1)); // right: its left 6 against right 5
    board[7] = mine(card(1, 1, 1, 1));
    let mut s = state(board, one_card_hand(card(5, 5, 5, 5)), no_rules());
    let flipped = {
        let mut probe = s;
        probe.hand[0] = None;
        probe.board[4] = mine(card(5, 5, 5, 5));
        probe.flip_positions(4, true)
    };
    assert_eq!(flipped, vec![1]);
    s.take_action(&Action { position: 4, card_in_hand: 0 });
    assert_eq!(owners(&s), vec![-1, 1, -1, 0, 1, 0, -1, 1, -1]);
}

#[test]
fn flip_without_check_takes_every_opposing_neighbour() {
    let mut board: Board = [None; 9];
    board[4] = mine(card(1, 1, 1, 1));
    board[1] = theirs(card(9, 9, 9, 9));
    board[3] = mine(card(9, 9, 9, 9));
    board[5] = theirs(card(9, 9, 9, 9));
    let mut s = state(board, [None; 5], no_rules());
    let flipped = s.flip_positions(4, false);
    assert_eq!(flipped, vec![1, 5]);
    assert_eq!(owners(&s), vec![-1, 1, -1, 1, 1, 1, -1, -1, -1]);
    assert_eq!(s.flip_positions(4, false), Vec::<usize>::new());
}

#[test]
fn facing_sides_follow_the_direction() {
    let mut board: Board = [None; 9];
    board[4] = mine(card(1, 2, 3, 4));
    board[1] = theirs(card(10, 20, 30, 40));
    board[3] = theirs(card(11, 21, 31, 41));
    board[5] = theirs(card(12, 22, 32, 42));
    board[7] = theirs(card(13, 23, 33, 43));
    let s = state(board, [None; 5], no_rules());
    assert_eq!(s.compare_positions(4, 1), (1, 20));
    assert_eq!(s.compare_positions(4, 3), (3, 41));
    assert_eq!(s.compare_positions(4, 5), (4, 32));
    assert_eq!(s.compare_positions(4, 7), (2, 13));
    assert_eq!(s.compare_positions(1, 4), (20, 1));
}

#[test]
fn ascension_adds_the_count_of_the_category() {
    let mut board: Board = [None; 9];
    board[0] = mine(typed(1, 1, 1, 1, CardType::PRIMAL));
    board[4] = mine(typed(5, 5, 5, 5, CardType::PRIMAL));
    board[5] = theirs(typed(7, 7, 7, 7, CardType::BEASTMAN));
    board[7] = theirs(card(7, 7, 7, 7));
    let s = state(board, [None; 5], only(Rule::Ascension));
    assert_eq!(s.check_type_modifiers(), [1, 0, 2, 0]);
    assert_eq!(s.compare_positions(4, 5), (7, 8));
    assert_eq!(s.compare_positions(4, 7), (7, 7));
    let plain = state(board, [None; 5], no_rules());
    assert_eq!(plain.compare_positions(4, 5), (5, 7));
}

#[test]
fn descension_subtracts_the_count_of_the_category() {
    let mut board: Board = [None; 9];
    board[0] = mine(typed(1, 1, 1, 1, CardType::SCIONS));
    board[4] = mine(typed(5, 5, 5, 5, CardType::SCIONS));
    board[5] = theirs(typed(7, 7, 7, 7, CardType::GARLAND));
    let s = state(board, [None; 5], only(Rule::Descension));
    assert_eq!(s.compare_positions(4, 5), (3, 6));
    let both: Rules = [Some(Rule::Ascension), Some(Rule::Descension), None, None];
    let s = state(board, [None; 5], both);
    assert_eq!(s.compare_positions(4, 5), (3, 6));
}

#[test]
fn modifiers_stay_exact_at_the_edge_of_a_strength() {
    let mut board: Board = [None; 9];
    for cell in 0..9 {
        board[cell] = theirs(typed(127, 127, 127, 127, CardType::PRIMAL));
    }
    board[4] = mine(typed(-128, -128, -128, -128, CardType::PRIMAL));
    let up = state(board, [None; 5], only(Rule::Ascension));
    assert_eq!(up.compare_positions(4, 5), (-119, 136));
    let down = state(board, [None; 5], only(Rule::Descension));
    assert_eq!(down.compare_positions(4, 5), (-137, 118));
    let plus = state(board, [None; 5], only(Rule::Plus));
    assert!(plus.check_plus(4));
}

#[test]
fn ascension_changes_who_is_taken() {
    let mut board: Board = [None; 9];
    board[0] = mine(typed(1, 1, 1, 1, CardType::PRIMAL));
    board[5] = theirs(card(1, 1, 6, 1));
    let placed = typed(5, 5, 5, 5, CardType::PRIMAL);
    let mut plain = state(board, one_card_hand(placed), no_rules());
    plain.take_action(&Action { position: 4, card_in_hand: 0 });
    assert_eq!(owners(&plain)[5], 0);
    let mut lifted = state(board, one_card_hand(placed), only(Rule::Ascension));
    lifted.take_action(&Action { position: 4, card_in_hand: 0 });
    // two PRIMAL cards lie on the board once the card is placed: 5 + 2 beats 6
    assert_eq!(owners(&lifted)[5], 1);
}

#[test]
fn plus_needs_two_neighbours_with_one_sum() {
    let mut board: Board = [None; 9];
    board[4] = mine(card(3, 3, 6, 3));
    board[1] = theirs(card(9, 4, 9, 9)); // 3 + 4
    board[5] = mine(card(9, 9, 4, 9)); // 3 + 4
    let s = state(board, [None; 5], only(Rule::Plus));
    assert!(s.check_plus(4));
    assert!(!state(board, [None; 5], no_rules()).check_plus(4));
    assert!(!state(board, [None; 5], only(Rule::Same)).check_plus(4));
    board[5] = mine(card(9, 9, 5, 9)); // 3 + 5
    assert!(!state(board, [None; 5], only(Rule::Plus)).check_plus(4));
    board[5] = None;
    assert!(!state(board, [None; 5], only(Rule::Plus)).check_plus(4));
}

#[test]
fn same_needs_one_neighbour_with_the_facing_strength() {
    let mut board: Board = [None; 9];
    board[4] = mine(card(3, 3, 6, 3));
    board[3] = theirs(card(9, 9, 9, 6));
    let s = state(board, [None; 5], only(Rule::Same));
    assert!(s.check_same(4));
    assert!(!state(board, [None; 5], no_rules()).check_same(4));
    assert!(!state(board, [None; 5], only(Rule::Plus)).check_same(4));
    board[3] = theirs(card(9, 9, 9, 5));
    assert!(!state(board, [None; 5], only(Rule::Same)).check_same(4));
}

#[test]
fn plus_combo_takes_every_linked_opposing_card() {
    // Two neighbours give the sum 7; both are too strong to be taken by
    // comparison, and the combo takes them and what hangs on them.
    let mut board: Board = [None; 9];
    board[1] = theirs(card(9, 4, 9, 9)); // above the centre: 3 + 4 = 7
    board[5] = theirs(card(9, 9, 4, 9)); // right of the centre: 3 + 4 = 7
    board[2] = theirs(card(9, 9, 9, 9)); // linked through 1 and 5
    board[8] = theirs(card(9, 9, 9, 9)); // linked through 5
    board[6] = theirs(card(9, 9, 9, 9)); // not linked: 3 and 7 are empty
    board[0] = mine(card(1, 1, 1, 1));
    let placed = card(3, 3, 6, 3);
    let mut s = state(board, one_card_hand(placed), only(Rule::Plus));
    s.take_action(&Action { position: 4, card_in_hand: 0 });
    assert_eq!(owners(&s), vec![1, 1, 1, -1, 1, 1, 0, -1, 1]);

    let mut plain = state(board, one_card_hand(placed), no_rules());
    plain.take_action(&Action { position: 4, card_in_hand: 0 });
    assert_eq!(owners(&plain), vec![1, 0, 0, -1, 1, 0, 0, -1, 0]);
}

#[test]
fn same_combo_runs_when_plus_does_not_match() {
    let mut board: Board = [None; 9];
    board[3] = theirs(card(9, 9, 9, 6)); // left of the centre: 6 against 6
    board[0] = theirs(card(9, 9, 9, 9)); // linked through 3
    let placed = card(3, 3, 6, 3);
    let rules: Rules = [Some(Rule::Plus), Some(Rule::Same), None, None];
    let mut s = state(board, one_card_hand(placed), rules);
    s.take_action(&Action { position: 4, card_in_hand: 0 });
    assert_eq!(owners(&s), vec![1, -1, -1, 1, 1, -1, -1, -1, -1]);
}

#[test]
fn combo_reaches_round_corners_and_stops_at_gaps() {
    let strong = card(9, 9, 9, 9);
    let mut board: Board = [None; 9];
    board[4] = mine(strong);
    board[1] = theirs(strong);
    board[0] = theirs(strong);
    board[3] = mine(strong);
    board[6] = theirs(strong);
    board[8] = theirs(strong);
    let mut s = state(board, [None; 5], no_rules());
    s.do_combo(4);
    // 1 lies beside the origin, 0 beside 1; 6 is held off by 3, which is
    // ours already, and 8 has no opposing neighbour that was reached
    assert_eq!(owners(&s), vec![1, 1, -1, 1, 1, -1, 0, -1, 0]);
}

#[test]
fn second_combo_changes_nothing() {
    let strong = card(9, 9, 9, 9);
    let mut board: Board = [None; 9];
    for cell in 0..9 {
        board[cell] = theirs(strong);
    }
    board[4] = mine(strong);
    board[2] = None;
    let mut s = state(board, [None; 5], no_rules());
    s.do_combo(4);
    let once = s;
    assert_eq!(owners(&once), vec![1, 1, -1, 1, 1, 1, 1, 1, 1]);
    s.do_combo(4);
    assert_eq!(s, once);
}

#[test]
fn combo_from_an_opposing_card_comes_back_to_it() {
    let strong = card(9, 9, 9, 9);
    let mut board: Board = [None; 9];
    board[0] = theirs(strong);
    board[1] = theirs(strong);
    let mut s = state(board, [None; 5], no_rules());
    s.do_combo(0);
    assert_eq!(owners(&s), vec![1, 1, -1, -1, -1, -1, -1, -1, -1]);
    let mut lone = state(board, [None; 5], no_rules());
    lone.board[1] = None;
    lone.do_combo(0);
    assert_eq!(owners(&lone), vec![0, -1, -1, -1, -1, -1, -1, -1, -1]);
}

#[test]
fn placement_consumes_one_card_and_fills_one_cell() {
    let mut board: Board = [None; 9];
    board[0] = theirs(card(1, 1, 1, 1));
    board[8] = mine(card(2, 2, 2, 2));
    let hand: Hand = [None, Some(card(5, 5, 5, 5)), None, Some(card(6, 6, 6, 6)), None];
    let opponent: Hand = [Some(card(7, 7, 7, 7)), None, None, None, None];
    let before = State { board, hand, opponent, rules: only(Rule::Plus) };
    let mut after = before;
    after.take_action(&Action { position: 1, card_in_hand: 3 });
    let empty = |s: &State| s.board.iter().filter(|c| c.is_none()).count();
    let held = |h: &Hand| h.iter().filter(|c| c.is_some()).count();
    assert_eq!(empty(&after), empty(&before) - 1);
    assert_eq!(held(&after.hand), held(&before.hand) - 1);
    assert_eq!(after.hand, [None, Some(card(5, 5, 5, 5)), None, None, None]);
    assert_eq!(after.opponent, before.opponent);
    assert_eq!(after.rules, before.rules);
    assert_eq!(after.board[1], mine(card(6, 6, 6, 6)));
    assert_eq!(after.board[0], mine(card(1, 1, 1, 1)));
    assert_eq!(after.board[8], before.board[8]);
}

#[test]
fn turning_the_table_twice_restores_the_state() {
    let mut board: Board = [None; 9];
    board[0] = theirs(card(1, 2, 3, 4));
    board[4] = mine(typed(5, 6, 7, 8, CardType::GARLAND));
    let hand: Hand = [Some(card(1, 1, 1, 1)), None, None, None, None];
    let opponent: Hand = [None, Some(card(2, 2, 2, 2)), Some(card(3, 3, 3, 3)), None, None];
    let before = State { board, hand, opponent, rules: only(Rule::Same) };
    let mut s = before;
    s.invert();
    assert_eq!(s.hand, opponent);
    assert_eq!(s.opponent, hand);
    assert_eq!(s.board[0], mine(card(1, 2, 3, 4)));
    assert_eq!(s.board[4], theirs(typed(5, 6, 7, 8, CardType::GARLAND)));
    assert_eq!(s.board[1], None);
    assert_eq!(s.rules, before.rules);
    s.invert();
    assert_eq!(s, before);
}

#[test]
fn marks_show_owner_and_gaps() {
    let mut board: Board = [None; 9];
    board[2] = theirs(card(1, 1, 1, 1));
    board[6] = mine(card(1, 1, 1, 1));
    let s = state(board, [None; 5], no_rules());
    assert_eq!(s.owner_marks(), vec![-1, -1, 0, -1, -1, -1, 1, -1, -1]);
}

#[test]
fn categories_have_their_slots() {
    assert_eq!(CardType::BEASTMAN.index(), 0);
    assert_eq!(CardType::GARLAND.index(), 1);
    assert_eq!(CardType::PRIMAL.index(), 2);
    assert_eq!(CardType::SCIONS.index(), 3);
}
