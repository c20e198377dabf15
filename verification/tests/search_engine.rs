use checkers_engine::bots::attackdepth::{
    evaluate_board, find_best_move, first_best, max, mini, pick_move, within_budget, KING_VALUE,
    PIECE_VALUE,
};
use checkers_engine::bots::pick_first;
use checkers_engine::checkers::{Board, Move, BLACK, BLACK_KING, EMPTY, WHITE, WHITE_KING};
use checkers_engine::minimax::{BLACK_LOST, WHITE_LOST};

fn bare() -> Board {
    let mut b = Board::new();
    for i in 0..64 {
        b.board[i] = EMPTY;
    }
    b
}

#[test]
fn material_is_counted() {
    let mut b = Board::new();
    assert_eq!(evaluate_board(&mut b), 0);
    let mut c = bare();
    c.board[10] = BLACK_KING;
    c.board[12] = BLACK;
    c.board[40] = WHITE;
    assert_eq!(evaluate_board(&mut c), 3);
    c.board[42] = WHITE_KING;
    c.board[44] = WHITE_KING;
    assert_eq!(evaluate_board(&mut c), -3);
    assert_eq!(pick_first::evaluate_board(&c), -3);
    // Only the four piece values count.
    c.board[50] = 3;
    c.board[51] = 4;
    assert_eq!(evaluate_board(&mut c), -3);
}

#[test]
fn sentinels_are_the_ends_of_the_score_type() {
    assert_eq!(BLACK_LOST, i32::MIN);
    assert_eq!(WHITE_LOST, i32::MAX);
}

#[test]
fn black_without_moves_has_lost() {
    let mut b = bare();
    b.board[20] = WHITE;
    let before = b.clone();
    for depth in 1..5 {
        assert_eq!(max(&mut b, depth, i32::MIN, i32::MAX), i32::MIN);
        assert_eq!(max(&mut b, depth, -5, 5), i32::MIN);
    }
    assert_eq!(b, before);
}

#[test]
fn white_without_moves_has_lost() {
    let mut b = bare();
    b.board[40] = BLACK;
    let before = b.clone();
    for depth in 1..5 {
        assert_eq!(mini(&mut b, depth, i32::MIN, i32::MAX), i32::MAX);
        assert_eq!(mini(&mut b, depth, -5, 5), i32::MAX);
    }
    assert_eq!(b, before);
}

#[test]
fn depth_zero_is_the_material() {
    let mut b = bare();
    b.board[20] = WHITE;
    assert_eq!(max(&mut b, 0, i32::MIN, i32::MAX), -1);
    assert_eq!(mini(&mut b, 0, i32::MIN, i32::MAX), -1);
    let mut o = Board::new();
    assert_eq!(max(&mut o, 0, i32::MIN, i32::MAX), 0);
}

#[test]
fn a_capture_costs_no_depth() {
    // Black captures the only white piece; with white to answer one ply
    // deep, white has no move left.
    let mut b = bare();
    b.board[29] = BLACK;
    b.board[22] = WHITE;
    let before = b.clone();
    assert_eq!(max(&mut b, 1, i32::MIN, i32::MAX), i32::MAX);
    assert_eq!(b, before);
}

#[test]
fn a_slide_costs_a_ply() {
    let mut b = bare();
    b.board[40] = BLACK;
    b.board[1] = WHITE;
    assert_eq!(max(&mut b, 1, i32::MIN, i32::MAX), 0);
    assert_eq!(mini(&mut b, 1, i32::MIN, i32::MAX), 0);
}

#[test]
fn the_opening_is_level_at_small_depths() {
    let mut b = Board::new();
    let before = b.clone();
    for depth in 0..4 {
        assert_eq!(max(&mut b, depth, i32::MIN, i32::MAX), 0);
        assert_eq!(mini(&mut b, depth, i32::MIN, i32::MAX), 0);
    }
    assert_eq!(b, before);
}

#[test]
fn best_move_for_black_takes_the_piece() {
    let mut b = bare();
    b.board[29] = BLACK;
    b.board[22] = WHITE;
    let before = b.clone();
    let (m, s) = find_best_move(&mut b, BLACK, 1);
    assert_eq!(m.jumps, vec![29, 15]);
    assert_eq!(m.captures, vec![22]);
    assert_eq!(s, 1);
    let (m, s) = find_best_move(&mut b, BLACK, 2);
    assert_eq!(m.jumps, vec![29, 15]);
    assert_eq!(s, i32::MAX);
    assert_eq!(b, before);
}

#[test]
fn best_move_for_white_takes_the_piece() {
    let mut b = bare();
    b.board[34] = WHITE;
    b.board[43] = BLACK;
    let before = b.clone();
    let (m, s) = find_best_move(&mut b, WHITE, 1);
    assert_eq!(m.jumps, vec![34, 52]);
    assert_eq!(m.captures, vec![43]);
    assert_eq!(s, -1);
    let (m, s) = find_best_move(&mut b, WHITE, 2);
    assert_eq!(m.jumps, vec![34, 52]);
    assert_eq!(s, i32::MIN);
    assert_eq!(b, before);
}

#[test]
fn best_move_avoids_the_loss_of_a_piece() {
    // The black man on 26 can slide to 17 or to 19. On 19 the white man on
    // 12 takes it; on 17 nothing can.
    let mut b = bare();
    b.board[26] = BLACK;
    b.board[12] = WHITE;
    let (m, s) = find_best_move(&mut b, BLACK, 2);
    assert_eq!(m.jumps, vec![26, 17]);
    assert_eq!(s, 0);
}

#[test]
fn of_equally_good_moves_the_first_is_kept() {
    let mut b = Board::new();
    let before = b.clone();
    let black = b.search_black_all();
    assert_eq!(first_best(&mut b, BLACK, 1, &black), (0, 0));
    let (m, s) = find_best_move(&mut b, BLACK, 1);
    assert_eq!(m, black[0]);
    assert_eq!(s, 0);
    let white = b.search_white_all();
    assert_eq!(first_best(&mut b, WHITE, 3, &white), (0, 0));
    assert_eq!(b, before);
}

#[test]
fn the_best_move_is_found_wherever_it_stands_in_the_list() {
    // The black man on 26 is safe on 17; on 19 it is taken, and black has lost.
    let mut b = bare();
    b.board[26] = BLACK;
    b.board[12] = WHITE;
    let before = b.clone();
    let mut safe = Move::new(BLACK);
    safe.jumps.push(26);
    safe.jumps.push(17);
    let mut lost = Move::new(BLACK);
    lost.jumps.push(26);
    lost.jumps.push(19);
    let list = vec![lost.clone(), safe.clone(), safe.clone()];
    assert_eq!(first_best(&mut b, BLACK, 2, &list), (1, 0));
    let list = vec![safe, lost.clone()];
    assert_eq!(first_best(&mut b, BLACK, 2, &list), (0, 0));
    let list = vec![lost];
    assert_eq!(first_best(&mut b, BLACK, 2, &list), (0, i32::MIN));
    assert_eq!(b, before);
}

#[test]
fn a_lost_position_still_gives_its_first_move() {
    // Whatever the black man does, white takes it and black has lost.
    let mut b = bare();
    b.board[26] = BLACK;
    b.board[8] = WHITE;
    b.board[12] = WHITE;
    let legal = b.search_black_all();
    assert_eq!(legal.len(), 2);
    assert_eq!(first_best(&mut b, BLACK, 3, &legal), (0, i32::MIN));
}

#[test]
fn no_time_still_gives_the_one_ply_result() {
    let mut b = bare();
    b.board[29] = BLACK;
    b.board[22] = WHITE;
    let before = b.clone();
    let (m, s) = pick_move(&mut b, BLACK, 0);
    assert_ne!(m, Move::new(0));
    assert_eq!(m.jumps, vec![29, 15]);
    assert_eq!(s, 1);
    assert_eq!(b, before);
    let (m, _) = pick_move(&mut b, BLACK, -1000);
    assert_eq!(m.jumps, vec![29, 15]);
}

#[test]
fn picking_on_the_opening_gives_a_legal_move() {
    let mut b = Board::new();
    let before = b.clone();
    let legal = b.search_white_all();
    let (m, s) = pick_move(&mut b, WHITE, 0);
    assert!(legal.contains(&m));
    assert_eq!(s, 0);
    assert_eq!(b, before);
    let (m, _) = pick_move(&mut b, BLACK, 20);
    assert!(b.search_black_all().contains(&m));
    assert_eq!(b, before);
}

#[test]
fn picking_without_a_legal_move_gives_the_empty_move() {
    let mut b = bare();
    b.board[20] = WHITE;
    let (m, s) = pick_move(&mut b, BLACK, 50);
    assert_eq!(m, Move::new(0));
    assert_eq!(s, 0);
}

#[test]
fn the_budget_is_checked_between_searches() {
    assert!(within_budget(0, 1, 2));
    assert!(!within_budget(1, 1, 2));
    assert!(!within_budget(5, 1, 2));
    assert!(within_budget(-3, 0, 2));
    assert!(!within_budget(0, 0, 2));
    assert!(!within_budget(0, 100, u32::MAX));
}

#[test]
fn the_first_move_is_picked() {
    let mut b = Board::new();
    let legal = b.search_black_all();
    let (m, s) = pick_first::pick_move(&mut b, BLACK, 100);
    assert_eq!(m, legal[0]);
    assert_eq!(s, 0);
    let legal = b.search_white_all();
    let (m, _) = pick_first::pick_move(&mut b, WHITE, 100);
    assert_eq!(m, legal[0]);
}

#[test]
fn no_time_on_the_opening_gives_the_first_move() {
    let mut b = Board::new();
    let (m, s) = pick_move(&mut b, BLACK, 0);
    let mut first = Move::new(BLACK);
    first.jumps = vec![40, 33];
    assert_eq!(m, first);
    assert_eq!(s, 0);
    assert_eq!(b, Board::new());
    let (m, s) = find_best_move(&mut b, BLACK, 1);
    assert_eq!(m, first);
    assert_eq!(s, 0);
}

#[test]
fn a_window_the_wrong_way_round_still_bounds_the_value() {
    // Black takes the white man and has won: the value is the highest there
    // is, and a result at or above the lower end is never above the value.
    let mut b = bare();
    b.board[29] = BLACK;
    b.board[22] = WHITE;
    let before = b.clone();
    assert_eq!(max(&mut b, 2, 5, -5), i32::MAX);
    assert_eq!(max(&mut b, 1, 5, -5), i32::MAX);
    assert_eq!(mini(&mut b, 0, 5, -5), 0);
    assert_eq!(b, before);
    let mut quiet = bare();
    quiet.board[26] = BLACK;
    quiet.board[12] = WHITE;
    assert_eq!(max(&mut quiet, 1, 5, -5), 0);
    assert_eq!(mini(&mut quiet, 1, 5, -5), 0);
}

#[test]
fn men_and_kings_have_their_values() {
    assert_eq!(PIECE_VALUE, 1);
    assert_eq!(KING_VALUE, 3);
    assert_eq!(pick_first::PIECE_VALUE, 1);
    assert_eq!(pick_first::KING_VALUE, 3);
    let mut b = bare();
    b.board[10] = BLACK_KING;
    b.board[12] = WHITE;
    assert_eq!(evaluate_board(&mut b), KING_VALUE - PIECE_VALUE);
}
