use checkers_engine::checkers::{Board, Move, BLACK, BLACK_KING, EMPTY, WHITE, WHITE_KING};
use checkers_engine::render::symbol;

fn as_string(text: Vec<char>) -> String {
    text.into_iter().collect()
}

#[test]
fn pieces_have_their_letters() {
    assert_eq!(symbol(WHITE), 'w');
    assert_eq!(symbol(WHITE_KING), 'W');
    assert_eq!(symbol(BLACK), 'b');
    assert_eq!(symbol(BLACK_KING), 'B');
    assert_eq!(symbol(EMPTY), ' ');
    assert_eq!(symbol(4), ' ');
    assert_eq!(symbol(3), 'w');
}

#[test]
fn opening_board_as_text() {
    let b = Board::new();
    let text = as_string(b.render());
    let lines: Vec<&str> = text.lines().collect();
    assert_eq!(lines.len(), 17);
    assert_eq!(lines[0], "---------------------------------");
    assert_eq!(lines[1], "|   | w |   | w |   | w |   | w |");
    assert_eq!(lines[2], "|-0-|-1-|-2-|-3-|-4-|-5-|-6-|-7-|");
    assert_eq!(lines[3], "| w |   | w |   | w |   | w |   |");
    assert_eq!(lines[4], "|-8-|-9-|-10|-11|-12|-13|-14|-15|");
    assert_eq!(lines[5], "|   | w |   | w |   | w |   | w |");
    assert_eq!(lines[7], "|   |   |   |   |   |   |   |   |");
    assert_eq!(lines[11], "| b |   | b |   | b |   | b |   |");
    assert_eq!(lines[15], "| b |   | b |   | b |   | b |   |");
    assert_eq!(lines[16], "|-56|-57|-58|-59|-60|-61|-62|-63|");
    assert!(text.ends_with("|\n"));
}

#[test]
fn kings_are_written_in_capitals() {
    let mut b = Board::new();
    b.board[1] = WHITE_KING;
    b.board[62] = BLACK_KING;
    let text = as_string(b.render());
    let lines: Vec<&str> = text.lines().collect();
    assert_eq!(lines[1], "|   | W |   | w |   | w |   | w |");
    assert_eq!(lines[15], "| b |   | b |   | b |   | B |   |");
}

#[test]
fn move_as_text() {
    let mut m = Move::new(BLACK);
    assert_eq!(as_string(m.render()), "\n");
    m.jumps.push(45);
    m.jumps.push(31);
    m.jumps.push(13);
    assert_eq!(as_string(m.render()), "45 31 13 \n");
    let mut n = Move::new(WHITE);
    n.jumps.push(200);
    n.jumps.push(7);
    n.jumps.push(0);
    n.jumps.push(109);
    assert_eq!(as_string(n.render()), "200 7 0 109 \n");
}
