use checkers_engine::checkers::{Board, Move, BLACK, BLACK_KING, EMPTY, KING, WHITE, WHITE_KING};

fn cleared() -> Board {
    let mut b = Board::new();
    for i in 0..64 {
        b.board[i] = EMPTY;
    }
    b
}

fn check_round_trip_and_closure(b: &mut Board, moves: &Vec<Move>) {
    let before = b.clone();
    for m in moves.iter() {
        b.make_move(m);
        let first = m.jumps[0] as usize;
        let last = *m.jumps.last().unwrap() as usize;
        let arrived = if m.is_king { before.board[first] | KING } else { before.board[first] };
        assert_eq!(b.board[last], arrived);
        if last != first {
            assert_eq!(b.board[first], EMPTY);
        }
        for c in m.captures.iter() {
            assert_eq!(b.board[*c as usize], EMPTY);
        }
        for x in 0..64usize {
            if x != first && x != last && !m.captures.contains(&(x as u8)) {
                assert_eq!(b.board[x], before.board[x]);
            }
        }
        b.undo_move(m);
        assert_eq!(*b, before);
    }
}

#[test]
fn round_trip_on_the_opening_position() {
    let mut b = Board::new();
    let black = b.search_black_all();
    check_round_trip_and_closure(&mut b, &black);
    let white = b.search_white_all();
    check_round_trip_and_closure(&mut b, &white);
}

#[test]
fn round_trip_with_captures_and_promotion() {
    let mut b = cleared();
    b.board[20] = BLACK;
    b.board[11] = WHITE_KING;
    b.board[9] = WHITE;
    b.board[45] = BLACK_KING;
    b.board[38] = WHITE;
    b.board[22] = WHITE;
    b.board[54] = WHITE;
    let black = b.search_black_all();
    assert!(!black.is_empty());
    assert!(black.iter().all(|m| !m.captures.is_empty()));
    check_round_trip_and_closure(&mut b, &black);
    let white = b.search_white_all();
    assert!(!white.is_empty());
    check_round_trip_and_closure(&mut b, &white);
}

#[test]
fn simple_move_is_played_and_taken_back() {
    let mut b = Board::new();
    let before = b.clone();
    let mut m = Move::new(BLACK);
    m.jumps.push(42);
    m.jumps.push(33);
    b.make_move(&m);
    assert_eq!(b.board[42], EMPTY);
    assert_eq!(b.board[33], BLACK);
    b.undo_move(&m);
    assert_eq!(b, before);
}

#[test]
fn promotion_sets_and_clears_the_king_bit() {
    let mut b = cleared();
    b.board[9] = BLACK;
    let before = b.clone();
    let mut m = Move::new(BLACK);
    m.jumps.push(9);
    m.jumps.push(0);
    m.is_king = true;
    b.make_move(&m);
    assert_eq!(b.board[0], BLACK_KING);
    assert_eq!(b.board[9], EMPTY);
    b.undo_move(&m);
    assert_eq!(b, before);
}

#[test]
fn capture_is_played_and_taken_back() {
    let mut b = cleared();
    b.board[29] = BLACK;
    b.board[22] = WHITE_KING;
    let before = b.clone();
    let mut m = Move::new(BLACK);
    m.jumps.push(29);
    m.jumps.push(15);
    m.captures.push(22);
    m.captures_pieces.push(WHITE_KING);
    b.make_move(&m);
    assert_eq!(b.board[29], EMPTY);
    assert_eq!(b.board[22], EMPTY);
    assert_eq!(b.board[15], BLACK);
    b.undo_move(&m);
    assert_eq!(b, before);
}

#[test]
fn a_path_of_one_square_moves_nothing() {
    let mut b = Board::new();
    let before = b.clone();
    let mut m = Move::new(WHITE);
    m.jumps.push(17);
    b.make_move(&m);
    assert_eq!(b, before);
    b.undo_move(&m);
    assert_eq!(b, before);
}

#[test]
fn a_step_from_a_square_to_itself_clears_it() {
    let mut b = Board::new();
    let mut m = Move::new(WHITE);
    m.jumps.push(17);
    m.jumps.push(17);
    b.make_move(&m);
    assert_eq!(b.board[17], EMPTY);
}

#[test]
fn taking_back_uses_the_last_record_of_a_square() {
    let mut b = cleared();
    b.board[10] = BLACK;
    let mut m = Move::new(BLACK);
    m.jumps.push(10);
    m.captures.push(20);
    m.captures.push(20);
    m.captures_pieces.push(WHITE);
    m.captures_pieces.push(WHITE_KING);
    b.undo_move(&m);
    assert_eq!(b.board[20], WHITE_KING);
    assert_eq!(b.board[10], BLACK);
}

fn off_the_playing_squares_is_empty(b: &Board) -> bool {
    (0..64usize).all(|x| (x / 8 + x % 8) % 2 == 1 || b.board[x] == EMPTY)
}

#[test]
fn pieces_stay_on_the_playing_squares() {
    let mut b = Board::new();
    assert!(off_the_playing_squares_is_empty(&b));
    let mut color = BLACK;
    for _ in 0..40 {
        let moves = if color == BLACK { b.search_black_all() } else { b.search_white_all() };
        if moves.is_empty() {
            break;
        }
        let m = &moves[moves.len() / 2];
        b.make_move(m);
        assert!(off_the_playing_squares_is_empty(&b));
        color = if color == BLACK { WHITE } else { BLACK };
    }
}
