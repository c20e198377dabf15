use checkers_engine::checkers::{Board, Move, BLACK, EMPTY, WHITE};

#[test]
fn new_board_has_the_standard_layout() {
    let b = Board::new();
    assert_eq!(b.board.len(), 64);
    for i in 0..64usize {
        let row = i / 8;
        let col = i % 8;
        let expected = if (row + col) % 2 == 1 && row < 3 {
            WHITE
        } else if (row + col) % 2 == 1 && row > 4 {
            BLACK
        } else {
            EMPTY
        };
        assert_eq!(b.board[i], expected, "square {}", i);
    }
    assert_eq!(b.turn, WHITE);
}

#[test]
fn new_move_is_empty() {
    let m = Move::new(BLACK);
    assert!(m.jumps.is_empty());
    assert!(m.captures.is_empty());
    assert!(m.captures_pieces.is_empty());
    assert!(!m.is_king);
    assert_eq!(m.color, BLACK);
}
