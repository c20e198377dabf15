//! The player that searches: best replies on both sides, a window that cuts
//! what cannot matter, a capture costing no depth, and one search after
//! another, each a ply deeper, for as long as the clock allows.

use crate::checkers::{
    empty_move, views, Board, Move, MoveView, BLACK, BLACK_KING, WHITE, WHITE_KING,
};
use crate::clock::{millis_between, utc_now};
use crate::laws::{law_legal_is_candidate, law_undo_restores};
use crate::lists::holds;
use crate::minimax::{
    after_black, after_white, best_at, best_for_black, best_for_white, better, earliest_at,
    first_best_of,
    lists_legal, max_value, min_value, pieces, reply_value, score, score_upto, BLACK_LOST,
    WHITE_LOST,
};
use crate::replay::played;
use crate::rules::{has_legal_move, is_legal, valid_color};
use crate::termination::lemma_legal_move_pieces;
use crate::values::{lemma_max_value_best, lemma_min_value_best, lemma_value_range};
use crate::window::{
    lemma_search_begins, lemma_search_cut, lemma_search_ends, lemma_search_goes_on, searched,
    settles,
};
pub use crate::minimax::{KING_VALUE, PIECE_VALUE};
use vstd::prelude::*;

verus! {

/// A list of moves that holds the legal moves of a side lists them.
proof fn lemma_listed(b: Seq<u8>, color: u8, moves: Seq<Move>)
    requires
        forall|mv: MoveView| #[trigger] holds(moves, mv) <==> is_legal(b, color, mv),
    ensures
        lists_legal(b, color, views(moves)),
        moves.len() > 0 <==> has_legal_move(b, color),
{
    let s = views(moves);
    assert forall|m: MoveView| #[trigger] s.contains(m) <==> is_legal(b, color, m) by {
        if s.contains(m) {
            let i = choose|i: int| 0 <= i < s.len() && s[i] == m;
            assert(moves[i]@ == m);
            assert(holds(moves, m));
        }
        if is_legal(b, color, m) {
            assert(holds(moves, m));
            let i = choose|i: int| 0 <= i < moves.len() && (#[trigger] moves[i])@ == m;
            assert(s[i] == m);
        }
    }
    if moves.len() > 0 {
        assert(holds(moves, moves[0]@));
    }
    if has_legal_move(b, color) {
        let m = choose|m: MoveView| is_legal(b, color, m);
        assert(holds(moves, m));
    }
}

/// The material on the board: `PIECE_VALUE` for a black man and
/// `KING_VALUE` for a black king, less the same for white.
pub fn evaluate_board(board: &mut Board) -> (s: i32)
    requires
        old(board).wf(),
    ensures
        s == score(old(board)@),
        final(board)@ == old(board)@,
        final(board).turn == old(board).turn,
{
    let mut s: i32 = 0;
    let mut i: usize = 0;
    while i < 64
        invariant
            board.wf(),
            board@ == old(board)@,
            board.turn == old(board).turn,
            i <= 64,
            s == score_upto(board@, i as int),
            -3 * i <= s <= 3 * i,
        decreases 64 - i,
    {
        let piece: u8 = board.board[i];
        if piece == BLACK {
            s += PIECE_VALUE;
        } else if piece == BLACK_KING {
            s += KING_VALUE;
        } else if piece == WHITE {
            s -= PIECE_VALUE;
        } else if piece == WHITE_KING {
            s -= KING_VALUE;
        }
        i += 1;
    }
    s
}

/// The values of the replies to the moves of a list that holds black's
/// legal moves have the value for black as their highest.
proof fn lemma_seen_by_black(b: Seq<u8>, depth: nat, moves: Seq<Move>, seen: Seq<int>, v: int)
    requires
        forall|mv: MoveView| #[trigger] holds(moves, mv) <==> is_legal(b, BLACK, mv),
        best_for_black(b, depth, v),
        seen.len() == moves.len(),
        forall|k: int|
            0 <= k < moves.len() ==> seen[k] == after_black(b, depth, (#[trigger] moves[k])@),
    ensures
        exists|k: int| 0 <= k < seen.len() && #[trigger] seen[k] == v,
        forall|k: int| 0 <= k < seen.len() ==> #[trigger] seen[k] <= v,
{
    let m = choose|m: MoveView| #[trigger] is_legal(b, BLACK, m) && after_black(b, depth, m) == v;
    assert(holds(moves, m));
    let k0 = choose|k: int| 0 <= k < moves.len() && (#[trigger] moves[k])@ == m;
    assert(seen[k0] == v);
    assert forall|k: int| 0 <= k < seen.len() implies #[trigger] seen[k] <= v by {
        assert(holds(moves, moves[k]@));
        assert(is_legal(b, BLACK, moves[k]@));
    }
}

/// The values of the replies to the moves of a list that holds white's
/// legal moves have the value for white as their lowest. They are taken
/// negated, as they count for white.
proof fn lemma_seen_by_white(b: Seq<u8>, depth: nat, moves: Seq<Move>, seen: Seq<int>, v: int)
    requires
        forall|mv: MoveView| #[trigger] holds(moves, mv) <==> is_legal(b, WHITE, mv),
        best_for_white(b, depth, v),
        seen.len() == moves.len(),
        forall|k: int|
            0 <= k < moves.len() ==> seen[k] == -after_white(b, depth, (#[trigger] moves[k])@),
    ensures
        exists|k: int| 0 <= k < seen.len() && #[trigger] seen[k] == -v,
        forall|k: int| 0 <= k < seen.len() ==> #[trigger] seen[k] <= -v,
{
    let m = choose|m: MoveView| #[trigger] is_legal(b, WHITE, m) && after_white(b, depth, m) == v;
    assert(holds(moves, m));
    let k0 = choose|k: int| 0 <= k < moves.len() && (#[trigger] moves[k])@ == m;
    assert(seen[k0] == -v);
    assert forall|k: int| 0 <= k < seen.len() implies #[trigger] seen[k] <= -v by {
        assert(holds(moves, moves[k]@));
        assert(is_legal(b, WHITE, moves[k]@));
    }
}

/// Searches for black, `depth` plies deep, within the window from `alpha` to
/// `beta`, and leaves the board as it was. At depth 0 the result is the
/// material on the board. Where black has no legal move it has lost. Else
/// each legal move is played, answered by white's search a ply less deep,
/// or as deep where the move captures, and taken back; the search stops at
/// the first answer above `beta`. The result settles the value for black,
/// whatever the window.
pub fn max(board: &mut Board, depth: u32, alpha: i32, beta: i32) -> (best: i32)
    requires
        old(board).wf(),
    ensures
        final(board)@ == old(board)@,
        final(board).turn == old(board).turn,
        settles(best as int, max_value(old(board)@, depth as nat), alpha as int, beta as int),
        depth == 0 ==> best == score(old(board)@),
        depth > 0 && !has_legal_move(old(board)@, BLACK) ==> best == BLACK_LOST,
    decreases pieces(old(board)@), depth,
{
    let ghost b0 = board@;
    let ghost alpha0 = alpha;
    if depth == 0 {
        return evaluate_board(board);
    }
    let moves: Vec<Move> = board.search_black_all();
    proof {
        lemma_listed(b0, BLACK, moves@);
    }
    if moves.len() == 0 {
        return BLACK_LOST;
    }
    let ghost v = max_value(b0, depth as nat);
    let ghost mut seen: Seq<int> = Seq::empty();
    proof {
        lemma_max_value_best(b0, depth as nat, views(moves@));
        lemma_search_begins(BLACK_LOST as int, alpha as int, beta as int);
    }
    let mut best_score: i32 = BLACK_LOST;
    let mut alpha: i32 = alpha;
    let mut i: usize = 0;
    while i < moves.len()
        invariant_except_break
            seen.len() == i,
            forall|k: int|
                0 <= k < i ==> seen[k] == after_black(b0, depth as nat, (#[trigger] moves@[k])@),
            searched(
                seen,
                BLACK_LOST as int,
                alpha0 as int,
                beta as int,
                best_score as int,
                alpha as int,
            ),
            i == moves.len() ==> settles(best_score as int, v, alpha0 as int, beta as int),
        invariant
            board.wf(),
            board@ == b0,
            b0 == old(board)@,
            b0.len() == 64,
            board.turn == old(board).turn,
            depth > 0,
            moves.len() > 0,
            i <= moves.len(),
            forall|mv: MoveView| #[trigger] holds(moves@, mv) <==> is_legal(b0, BLACK, mv),
            best_for_black(b0, depth as nat, v),
        ensures
            settles(best_score as int, v, alpha0 as int, beta as int),
        decreases moves.len() - i,
    {
        let m = &moves[i];
        let ghost c = after_black(b0, depth as nat, m@);
        proof {
            assert(holds(moves@, m@));
            law_legal_is_candidate(b0, BLACK, m@);
            law_undo_restores(b0, BLACK, m@.jumps[0] as int, m@);
            lemma_legal_move_pieces(b0, BLACK, m@);
        }
        board.make_move(m);
        let attack_extension: u32 = if m.captures.len() > 0 {
            1
        } else {
            0
        };
        let score: i32 = mini(board, depth - 1 + attack_extension, alpha, beta);
        let ghost best_before = best_score;
        if score > best_score {
            best_score = score;
        }
        board.undo_move(m);
        if score > beta {
            proof {
                lemma_search_cut(
                    seen,
                    BLACK_LOST as int,
                    alpha0 as int,
                    beta as int,
                    best_before as int,
                    alpha as int,
                    score as int,
                    c,
                    v,
                );
            }
            break ;
        }
        proof {
            lemma_search_goes_on(
                seen,
                BLACK_LOST as int,
                alpha0 as int,
                beta as int,
                best_before as int,
                alpha as int,
                score as int,
                c,
            );
            seen = seen.push(c);
        }
        if score > alpha {
            alpha = score;
        }
        proof {
            if i + 1 == moves.len() {
                lemma_seen_by_black(b0, depth as nat, moves@, seen, v);
                lemma_search_ends(
                    seen,
                    BLACK_LOST as int,
                    alpha0 as int,
                    beta as int,
                    best_score as int,
                    alpha as int,
                    v,
                );
            }
        }
        i += 1;
    }
    best_score
}

/// Searches for white, `depth` plies deep, within the window from `alpha` to
/// `beta`, and leaves the board as it was. At depth 0 the result is the
/// material on the board. Where white has no legal move it has lost. Else
/// each legal move is played, answered by black's search a ply less deep,
/// or as deep where the move captures, and taken back; the search stops at
/// the first answer below `alpha`. The result settles the value for white,
/// whatever the window.
pub fn mini(board: &mut Board, depth: u32, alpha: i32, beta: i32) -> (best: i32)
    requires
        old(board).wf(),
    ensures
        final(board)@ == old(board)@,
        final(board).turn == old(board).turn,
        settles(best as int, min_value(old(board)@, depth as nat), alpha as int, beta as int),
        depth == 0 ==> best == score(old(board)@),
        depth > 0 && !has_legal_move(old(board)@, WHITE) ==> best == WHITE_LOST,
    decreases pieces(old(board)@), depth,
{
    let ghost b0 = board@;
    let ghost beta0 = beta;
    if depth == 0 {
        return evaluate_board(board);
    }
    let moves: Vec<Move> = board.search_white_all();
    proof {
        lemma_listed(b0, WHITE, moves@);
    }
    if moves.len() == 0 {
        return WHITE_LOST;
    }
    let ghost v = min_value(b0, depth as nat);
    let ghost mut seen: Seq<int> = Seq::empty();
    proof {
        lemma_min_value_best(b0, depth as nat, views(moves@));
        lemma_search_begins(-(WHITE_LOST as int), -(beta as int), -(alpha as int));
    }
    let mut best_score: i32 = WHITE_LOST;
    let mut beta: i32 = beta;
    let mut i: usize = 0;
    while i < moves.len()
        invariant_except_break
            seen.len() == i,
            forall|k: int|
                0 <= k < i ==> seen[k] == -after_white(b0, depth as nat, (#[trigger] moves@[k])@),
            searched(
                seen,
                -(WHITE_LOST as int),
                -(beta0 as int),
                -(alpha as int),
                -(best_score as int),
                -(beta as int),
            ),
            i == moves.len() ==> settles(best_score as int, v, alpha as int, beta0 as int),
        invariant
            board.wf(),
            board@ == b0,
            b0 == old(board)@,
            b0.len() == 64,
            board.turn == old(board).turn,
            depth > 0,
            moves.len() > 0,
            i <= moves.len(),
            forall|mv: MoveView| #[trigger] holds(moves@, mv) <==> is_legal(b0, WHITE, mv),
            best_for_white(b0, depth as nat, v),
        ensures
            settles(best_score as int, v, alpha as int, beta0 as int),
        decreases moves.len() - i,
    {
        let m = &moves[i];
        let ghost c = after_white(b0, depth as nat, m@);
        proof {
            assert(holds(moves@, m@));
            law_legal_is_candidate(b0, WHITE, m@);
            law_undo_restores(b0, WHITE, m@.jumps[0] as int, m@);
            lemma_legal_move_pieces(b0, WHITE, m@);
        }
        board.make_move(m);
        let attack_extension: u32 = if m.captures.len() > 0 {
            1
        } else {
            0
        };
        let score: i32 = max(board, depth - 1 + attack_extension, alpha, beta);
        let ghost best_before = best_score;
        if score < best_score {
            best_score = score;
        }
        board.undo_move(m);
        if score < alpha {
            proof {
                lemma_search_cut(
                    seen,
                    -(WHITE_LOST as int),
                    -(beta0 as int),
                    -(alpha as int),
                    -(best_before as int),
                    -(beta as int),
                    -(score as int),
                    -c,
                    -v,
                );
            }
            break ;
        }
        proof {
            lemma_search_goes_on(
                seen,
                -(WHITE_LOST as int),
                -(beta0 as int),
                -(alpha as int),
                -(best_before as int),
                -(beta as int),
                -(score as int),
                -c,
            );
            seen = seen.push(-c);
        }
        if score < beta {
            beta = score;
        }
        proof {
            if i + 1 == moves.len() {
                lemma_seen_by_white(b0, depth as nat, moves@, seen, v);
                lemma_search_ends(
                    seen,
                    -(WHITE_LOST as int),
                    -(beta0 as int),
                    -(alpha as int),
                    -(best_score as int),
                    -(beta as int),
                    -v,
                );
            }
        }
        i += 1;
    }
    best_score
}

/// A search within the widest window gives the value itself.
proof fn lemma_widest_window(r: int, v: int)
    requires
        settles(r, v, BLACK_LOST as int, WHITE_LOST as int),
        BLACK_LOST <= r <= WHITE_LOST,
        BLACK_LOST <= v <= WHITE_LOST,
    ensures
        r == v,
{
}

/// The value that the legal move `m` of `color` leads to in a search `depth`
/// plies deep: the move is played, answered by the other side's search a
/// ply less deep within the widest window, and taken back.
fn answer(board: &mut Board, color: u8, m: &Move, depth: u32) -> (value: i32)
    requires
        old(board).wf(),
        valid_color(color),
        depth >= 1,
        is_legal(old(board)@, color, m@),
    ensures
        final(board)@ == old(board)@,
        final(board).turn == old(board).turn,
        value == reply_value(old(board)@, color, depth as nat, m@),
{
    let ghost b0 = board@;
    proof {
        law_legal_is_candidate(b0, color, m@);
        law_undo_restores(b0, color, m@.jumps[0] as int, m@);
        lemma_legal_move_pieces(b0, color, m@);
        lemma_value_range(played(b0, m@), (depth - 1) as nat);
    }
    board.make_move(m);
    let value: i32 = if color == BLACK {
        mini(board, depth - 1, BLACK_LOST, WHITE_LOST)
    } else {
        max(board, depth - 1, BLACK_LOST, WHITE_LOST)
    };
    board.undo_move(m);
    proof {
        lemma_widest_window(value as int, reply_value(b0, color, depth as nat, m@));
    }
    value
}

/// The first of the legal moves `moves` of `color` that leads to the best
/// value in a search `depth` plies deep, by its place in the list and with
/// that value, and the board left as it was. Each move is played, answered
/// by the other side's search a ply less deep within the widest window, and
/// taken back.
pub fn first_best(board: &mut Board, color: u8, depth: u32, moves: &Vec<Move>) -> (r: (usize, i32))
    requires
        old(board).wf(),
        valid_color(color),
        depth >= 1,
        moves.len() > 0,
        forall|k: int| 0 <= k < moves.len() ==> is_legal(old(board)@, color, (#[trigger] moves@[k])@),
    ensures
        final(board)@ == old(board)@,
        final(board).turn == old(board).turn,
        first_best_of(old(board)@, color, depth as nat, views(moves@), r.0 as int, r.1 as int),
{
    let ghost b0 = board@;
    let mut best_score: i32 = if color == BLACK {
        BLACK_LOST
    } else {
        WHITE_LOST
    };
    let mut best_move_index: usize = 0;
    let mut index: usize = 0;
    let ghost mut seen: Seq<int> = Seq::empty();
    while index < moves.len()
        invariant
            board.wf(),
            board@ == b0,
            board.turn == old(board).turn,
            valid_color(color),
            depth >= 1,
            index <= moves.len(),
            moves.len() > 0,
            forall|k: int| 0 <= k < moves.len() ==> is_legal(b0, color, (#[trigger] moves@[k])@),
            seen.len() == index,
            forall|k: int|
                0 <= k < index ==> #[trigger] seen[k] == reply_value(
                    b0,
                    color,
                    depth as nat,
                    moves@[k]@,
                ),
            forall|k: int| 0 <= k < index ==> i32::MIN <= #[trigger] seen[k] <= i32::MAX,
            index == 0 ==> best_move_index == 0 && best_score == (if color == BLACK {
                BLACK_LOST
            } else {
                WHITE_LOST
            }),
            index > 0 ==> best_move_index < index && best_score == seen[best_move_index as int],
            forall|k: int| 0 <= k < index ==> !better(color, #[trigger] seen[k], best_score as int),
            forall|k: int| 0 <= k < best_move_index ==> #[trigger] seen[k] != best_score,
        decreases moves.len() - index,
    {
        let score: i32 = answer(board, color, &moves[index], depth);
        let improves: bool = if color == BLACK {
            score > best_score
        } else {
            score < best_score
        };
        if improves {
            best_score = score;
            best_move_index = index;
        }
        proof {
            seen = seen.push(score as int);
        }
        index += 1;
    }
    proof {
        let listed = views(moves@);
        assert forall|k: int| 0 <= k < listed.len() implies reply_value(
            b0,
            color,
            depth as nat,
            #[trigger] listed[k],
        ) == seen[k] by {
            assert(listed[k] == moves@[k]@);
        }
    }
    (best_move_index, best_score)
}

/// The best move of `color` in a search `depth` plies deep, with the value
/// it leads to, and the board left as it was: of the legal moves that lead
/// to the best value, the first in the order in which the board lists them,
/// so that none of them starts on a square before it.
pub fn find_best_move(board: &mut Board, color: u8, depth: u32) -> (r: (Move, i32))
    requires
        old(board).wf(),
        valid_color(color),
        depth >= 1,
        has_legal_move(old(board)@, color),
    ensures
        final(board)@ == old(board)@,
        final(board).turn == old(board).turn,
        best_at(old(board)@, color, depth as nat, r.0@, r.1 as int),
        earliest_at(old(board)@, color, depth as nat, r.0@, r.1 as int),
{
    let ghost b0 = board@;
    let moves: Vec<Move> = if color == BLACK {
        board.search_black_all()
    } else {
        board.search_white_all()
    };
    proof {
        lemma_listed(b0, color, moves@);
        assert forall|k: int| 0 <= k < moves@.len() implies is_legal(
            b0,
            color,
            (#[trigger] moves@[k])@,
        ) by {
            assert(holds(moves@, moves@[k]@));
        }
    }
    let found: (usize, i32) = first_best(board, color, depth, &moves);
    let best: Move = moves[found.0].clone();
    proof {
        let listed = views(moves@);
        assert(listed[found.0 as int] == moves@[found.0 as int]@);
        assert(holds(moves@, best@));
        assert forall|other: MoveView| #[trigger] is_legal(b0, color, other) implies !better(
            color,
            reply_value(b0, color, depth as nat, other),
            found.1 as int,
        ) by {
            assert(holds(moves@, other));
            let k = choose|k: int| 0 <= k < moves@.len() && (#[trigger] moves@[k])@ == other;
            assert(listed[k] == other);
        }
        assert forall|other: MoveView| #[trigger]
            is_legal(b0, color, other) && reply_value(b0, color, depth as nat, other)
                == found.1 implies best@.jumps[0] <= other.jumps[0] by {
            assert(holds(moves@, other));
            let k = choose|k: int| 0 <= k < moves@.len() && (#[trigger] moves@[k])@ == other;
            assert(listed[k] == other);
            assert(reply_value(b0, color, depth as nat, listed[k]) == found.1);
            assert(k >= found.0);
        }
    }
    (best, found.1)
}

/// Whether another search is started: the time spent is still under the
/// time allowed, and a deeper search can still be numbered.
pub fn within_budget(elapsed_ms: i64, time_restraint_ms: i64, next_depth: u32) -> (go: bool)
    ensures
        go == (elapsed_ms < time_restraint_ms && next_depth < u32::MAX),
{
    elapsed_ms < time_restraint_ms && next_depth < u32::MAX
}

/// The move that the search chooses for `color`, with its value, and the
/// board left as it was. Where `color` has no legal move, the result is the
/// empty move with the value 0. Else the best move one ply deep is found,
/// then the best two plies deep, and so on, for as long as the clock, read
/// before each search, shows less than `time_restraint_ms` milliseconds
/// since the start; the result is the best move of the deepest search, and
/// of several that are as good the one that the board lists first. A search
/// that has started runs to its end, however long it takes.
pub fn pick_move(board: &mut Board, color: u8, time_restraint_ms: i64) -> (r: (Move, i32))
    requires
        old(board).wf(),
        valid_color(color),
    ensures
        final(board)@ == old(board)@,
        final(board).turn == old(board).turn,
        !has_legal_move(old(board)@, color) ==> r.0@ == empty_move(0) && r.1 == 0,
        has_legal_move(old(board)@, color) ==> exists|depth: nat|
            depth >= 1 && #[trigger] best_at(old(board)@, color, depth, r.0@, r.1 as int)
                && earliest_at(old(board)@, color, depth, r.0@, r.1 as int),
{
    let ghost b0 = board@;
    let moves: Vec<Move> = if color == BLACK {
        board.search_black_all()
    } else {
        board.search_white_all()
    };
    proof {
        lemma_listed(b0, color, moves@);
    }
    if moves.len() == 0 {
        return (Move::new(0), 0);
    }
    let mut move_depth: u32 = 2;
    let start_time = utc_now();
    let mut now = utc_now();
    let mut best_move: (Move, i32) = find_best_move(board, color, 1);
    let ghost mut reached: nat = 1;
    while within_budget(millis_between(&start_time, &now), time_restraint_ms, move_depth)
        invariant
            board.wf(),
            board@ == b0,
            board.turn == old(board).turn,
            valid_color(color),
            has_legal_move(b0, color),
            move_depth >= 2,
            reached >= 1,
            best_at(b0, color, reached, best_move.0@, best_move.1 as int),
            earliest_at(b0, color, reached, best_move.0@, best_move.1 as int),
        decreases u32::MAX - move_depth,
    {
        best_move = find_best_move(board, color, move_depth);
        proof {
            reached = move_depth as nat;
        }
        move_depth += 1;
        now = utc_now();
    }
    best_move
}

} // verus!
