use checkers_engine::checkers::{Board, Move, BLACK, BLACK_KING, EMPTY, KING, WHITE, WHITE_KING};

fn empty_board() -> Board {
    let mut b = Board::new();
    for i in 0..64 {
        b.board[i] = EMPTY;
    }
    b
}

fn paths(moves: &Vec<Move>) -> Vec<Vec<u8>> {
    let mut p: Vec<Vec<u8>> = moves.iter().map(|m| m.jumps.clone()).collect();
    p.sort();
    p
}

#[test]
fn opening_black_has_seven_moves() {
    let mut b = Board::new();
    let moves = b.search_black_all();
    assert_eq!(moves.len(), 7);
    assert!(moves.iter().all(|m| m.captures.is_empty()));
    assert_eq!(
        paths(&moves),
        vec![
            vec![40, 33],
            vec![42, 33],
            vec![42, 35],
            vec![44, 35],
            vec![44, 37],
            vec![46, 37],
            vec![46, 39]
        ]
    );
    assert_eq!(b, Board::new());
}

#[test]
fn opening_white_has_seven_moves() {
    let mut b = Board::new();
    let moves = b.search_white_all();
    assert_eq!(moves.len(), 7);
    assert!(moves.iter().all(|m| m.captures.is_empty()));
    assert_eq!(
        paths(&moves),
        vec![
            vec![17, 24],
            vec![17, 26],
            vec![19, 26],
            vec![19, 28],
            vec![21, 28],
            vec![21, 30],
            vec![23, 30]
        ]
    );
    assert_eq!(b, Board::new());
}

#[test]
fn forced_single_capture() {
    let mut b = empty_board();
    b.board[29] = BLACK;
    b.board[22] = WHITE;
    let before = b.clone();
    let moves = b.search_black(29);
    assert_eq!(moves.len(), 1);
    assert_eq!(moves[0].jumps, vec![29, 15]);
    assert_eq!(moves[0].captures, vec![22]);
    assert_eq!(moves[0].captures_pieces, vec![WHITE]);
    assert!(!moves[0].is_king);
    assert_eq!(moves[0].color, BLACK);
    assert_eq!(b, before);
}

#[test]
fn double_jump_chain_is_preferred() {
    let mut b = empty_board();
    b.board[45] = BLACK;
    b.board[38] = WHITE;
    b.board[22] = WHITE_KING;
    let before = b.clone();
    let moves = b.search_black(45);
    assert_eq!(moves.len(), 1);
    assert_eq!(moves[0].jumps, vec![45, 31, 13]);
    assert_eq!(moves[0].captures, vec![38, 22]);
    assert_eq!(moves[0].captures_pieces, vec![WHITE, WHITE_KING]);
    assert!(!moves[0].is_king);
    assert_eq!(b, before);
}

#[test]
fn no_jump_wraps_round_the_edge_of_the_board() {
    // 31 is on the right edge and 24 on the left edge of the same rank.
    let mut b = empty_board();
    b.board[45] = BLACK;
    b.board[38] = WHITE;
    b.board[24] = WHITE;
    let moves = b.search_black(45);
    assert_eq!(moves.len(), 1);
    assert_eq!(moves[0].jumps, vec![45, 31]);
    assert_eq!(moves[0].captures, vec![38]);
}

#[test]
fn capture_search_adds_every_beginning_of_a_chain() {
    let mut b = empty_board();
    b.board[45] = BLACK;
    b.board[38] = WHITE;
    b.board[22] = WHITE;
    let before = b.clone();
    let mut start = Move::new(BLACK);
    start.jumps.push(45);
    let mut found: Vec<Move> = Vec::new();
    b.search_attack_black(45, start.clone(), &mut found);
    assert_eq!(paths(&found), vec![vec![45, 31], vec![45, 31, 13]]);
    assert_eq!(b, before);
    // A second search adds nothing: no move is listed twice.
    b.search_attack_black(45, start, &mut found);
    assert_eq!(found.len(), 2);
}

#[test]
fn capture_search_for_white_goes_down_the_board() {
    let mut b = empty_board();
    b.board[18] = WHITE;
    b.board[27] = BLACK;
    b.board[43] = BLACK_KING;
    let before = b.clone();
    let mut start = Move::new(WHITE);
    start.jumps.push(18);
    let mut found: Vec<Move> = Vec::new();
    b.search_attack_white(18, start, &mut found);
    assert_eq!(paths(&found), vec![vec![18, 36], vec![18, 36, 50]]);
    let long = found.iter().find(|m| m.jumps.len() == 3).unwrap();
    assert_eq!(long.captures, vec![27, 43]);
    assert_eq!(long.captures_pieces, vec![BLACK, BLACK_KING]);
    assert_eq!(b, before);
}

#[test]
fn longest_chain_wins_within_a_square() {
    let mut b = empty_board();
    b.board[45] = BLACK;
    b.board[38] = WHITE;
    b.board[22] = WHITE;
    b.board[36] = WHITE;
    let moves = b.search_black(45);
    assert_eq!(moves.len(), 1);
    assert_eq!(moves[0].jumps, vec![45, 31, 13]);
    let most = moves.iter().map(|m| m.captures.len()).max().unwrap();
    assert!(moves.iter().all(|m| m.captures.len() == most));
}

#[test]
fn longest_chain_is_not_asked_for_across_squares() {
    let mut b = empty_board();
    b.board[45] = BLACK;
    b.board[38] = WHITE;
    b.board[22] = WHITE;
    b.board[58] = BLACK;
    b.board[49] = WHITE;
    let moves = b.search_black_all();
    assert_eq!(paths(&moves), vec![vec![45, 31, 13], vec![58, 40]]);
}

#[test]
fn a_capture_anywhere_forces_captures_everywhere() {
    let mut b = empty_board();
    b.board[29] = BLACK;
    b.board[22] = WHITE;
    b.board[58] = BLACK;
    let moves = b.search_black_all();
    assert_eq!(paths(&moves), vec![vec![29, 15]]);
    assert!(moves.iter().all(|m| !m.captures.is_empty()));
    // Taken by itself, the other piece can slide.
    assert_eq!(paths(&b.search_black(58)), vec![vec![58, 49], vec![58, 51]]);
}

#[test]
fn a_side_without_pieces_has_no_moves() {
    let mut b = empty_board();
    b.board[20] = WHITE;
    assert!(b.search_black_all().is_empty());
    assert_eq!(b.search_white_all().len(), 2);
}

#[test]
fn a_blocked_side_has_no_moves() {
    let mut b = empty_board();
    b.board[8] = BLACK;
    b.board[1] = WHITE;
    assert!(b.search_black_all().is_empty());
}

#[test]
fn a_man_reaching_the_back_rank_promotes() {
    let mut b = empty_board();
    b.board[9] = BLACK;
    let moves = b.search_black(9);
    assert_eq!(paths(&moves), vec![vec![9, 0], vec![9, 2]]);
    assert!(moves.iter().all(|m| m.is_king));

    let mut w = empty_board();
    w.board[54] = WHITE;
    let moves = w.search_white(54);
    assert_eq!(paths(&moves), vec![vec![54, 61], vec![54, 63]]);
    assert!(moves.iter().all(|m| m.is_king));
}

#[test]
fn a_man_short_of_the_back_rank_does_not_promote() {
    let mut b = empty_board();
    b.board[17] = BLACK;
    let moves = b.search_black(17);
    assert_eq!(paths(&moves), vec![vec![17, 8], vec![17, 10]]);
    assert!(moves.iter().all(|m| !m.is_king));
}

#[test]
fn a_king_never_promotes_and_moves_both_ways() {
    let mut b = empty_board();
    b.board[9] = BLACK_KING;
    let moves = b.search_black(9);
    assert_eq!(paths(&moves), vec![vec![9, 0], vec![9, 2], vec![9, 16], vec![9, 18]]);
    assert!(moves.iter().all(|m| !m.is_king));

    let mut w = empty_board();
    w.board[54] = WHITE_KING;
    let moves = w.search_white(54);
    assert_eq!(paths(&moves), vec![vec![54, 45], vec![54, 47], vec![54, 61], vec![54, 63]]);
    assert!(moves.iter().all(|m| !m.is_king));
}

#[test]
fn a_man_promoted_on_the_way_goes_on_as_a_king() {
    let mut b = empty_board();
    b.board[20] = BLACK;
    b.board[11] = WHITE;
    b.board[9] = WHITE;
    let before = b.clone();
    let moves = b.search_black(20);
    assert_eq!(moves.len(), 1);
    assert_eq!(moves[0].jumps, vec![20, 2, 16]);
    assert_eq!(moves[0].captures, vec![11, 9]);
    assert!(moves[0].is_king);
    assert_eq!(b, before);
    b.make_move(&moves[0]);
    assert_eq!(b.board[16], BLACK | KING);
    assert_eq!(b.board[20], EMPTY);
    assert_eq!(b.board[2], EMPTY);
    assert_eq!(b.board[11], EMPTY);
    assert_eq!(b.board[9], EMPTY);
    b.undo_move(&moves[0]);
    assert_eq!(b, before);
}

#[test]
fn a_king_captures_backwards() {
    let mut b = empty_board();
    b.board[18] = BLACK_KING;
    b.board[27] = WHITE;
    let moves = b.search_black(18);
    assert_eq!(paths(&moves), vec![vec![18, 36]]);
    assert_eq!(moves[0].captures, vec![27]);

    let mut m = empty_board();
    m.board[18] = BLACK;
    m.board[27] = WHITE;
    let moves = m.search_black(18);
    assert_eq!(paths(&moves), vec![vec![18, 9], vec![18, 11]]);
}

#[test]
fn a_king_can_jump_round_in_a_ring() {
    let mut b = empty_board();
    b.board[18] = BLACK_KING;
    b.board[27] = WHITE;
    b.board[29] = WHITE;
    b.board[13] = WHITE;
    b.board[11] = WHITE;
    let before = b.clone();
    let moves = b.search_black(18);
    assert_eq!(
        paths(&moves),
        vec![vec![18, 4, 22, 36, 18], vec![18, 36, 22, 4, 18]]
    );
    for m in moves.iter() {
        assert_eq!(m.captures.len(), 4);
        assert!(!m.is_king);
        b.make_move(m);
        assert_eq!(b.board[18], BLACK_KING);
        for sq in [27usize, 29, 13, 11, 36, 22, 4] {
            assert_eq!(b.board[sq], EMPTY);
        }
        b.undo_move(m);
        assert_eq!(b, before);
    }
}

#[test]
fn moves_compare_by_all_their_parts() {
    let mut a = Move::new(BLACK);
    a.jumps.push(29);
    a.jumps.push(15);
    a.captures.push(22);
    a.captures_pieces.push(WHITE);
    let b = a.clone();
    assert_eq!(a, b);
    let mut c = a.clone();
    c.is_king = true;
    assert_ne!(a, c);
    let mut d = a.clone();
    d.captures_pieces[0] = WHITE_KING;
    assert_ne!(a, d);
    let mut e = a.clone();
    e.color = WHITE;
    assert_ne!(a, e);
    let mut f = a.clone();
    f.jumps.push(1);
    assert_ne!(a, f);
}

#[test]
fn moves_are_listed_square_by_square() {
    let mut b = empty_board();
    b.board[42] = BLACK;
    b.board[45] = BLACK;
    b.board[33] = WHITE;
    b.board[38] = WHITE;
    b.board[22] = WHITE;
    let mut short = Move::new(BLACK);
    short.jumps = vec![42, 24];
    short.captures = vec![33];
    short.captures_pieces = vec![WHITE];
    let mut long = Move::new(BLACK);
    long.jumps = vec![45, 31, 13];
    long.captures = vec![38, 22];
    long.captures_pieces = vec![WHITE, WHITE];
    assert_eq!(b.search_black_all(), vec![short, long]);
}

#[test]
fn moves_of_a_lower_square_come_first() {
    let mut b = Board::new();
    let black = b.search_black_all();
    assert!(black.windows(2).all(|w| w[0].jumps[0] <= w[1].jumps[0]));
    assert_eq!(black[0].jumps, vec![40, 33]);
    let white = b.search_white_all();
    assert!(white.windows(2).all(|w| w[0].jumps[0] <= w[1].jumps[0]));
    assert_eq!(white[0].jumps[0], 17);
}
