//! The player that takes the first legal move.

use crate::checkers::{views, Board, Move, MoveView, BLACK, BLACK_KING, WHITE, WHITE_KING};
use crate::lists::holds;
use crate::minimax::{score, score_upto};
use crate::rules::{has_legal_move, is_legal, valid_color};
pub use crate::minimax::{KING_VALUE, PIECE_VALUE};
use vstd::prelude::*;

verus! {

/// The material on the board: `PIECE_VALUE` for a black man and
/// `KING_VALUE` for a black king, less the same for white.
pub fn evaluate_board(board: &Board) -> (s: i32)
    requires
        board.wf(),
    ensures
        s == score(board@),
{
    let mut s: i32 = 0;
    let mut i: usize = 0;
    while i < 64
        invariant
            board.wf(),
            i <= 64,
            s == score_upto(board@, i as int),
            -3 * i <= s <= 3 * i,
        decreases 64 - i,
    {
        let piece: u8 = board.board[i];
        if piece == BLACK {
            s += PIECE_VALUE;
        } else if piece == BLACK_KING {
            s += KING_VALUE;
        } else if piece == WHITE {
            s -= PIECE_VALUE;
        } else if piece == WHITE_KING {
            s -= KING_VALUE;
        }
        i += 1;
    }
    s
}

/// The first legal move of `color` in the order in which the board lists
/// them, so that no legal move starts on a square before it, with the
/// material on the board as its score. The time allowed is not looked at.
pub fn pick_move(board: &mut Board, color: u8, time_restraint_ms: u64) -> (r: (Move, i32))
    requires
        old(board).wf(),
        valid_color(color),
        has_legal_move(old(board)@, color),
    ensures
        final(board)@ == old(board)@,
        final(board).turn == old(board).turn,
        is_legal(old(board)@, color, r.0@),
        forall|other: MoveView| #[trigger]
            is_legal(old(board)@, color, other) ==> r.0@.jumps[0] <= other.jumps[0],
        r.1 == score(old(board)@),
{
    let ghost b0 = board@;
    let moves: Vec<Move> = if color == BLACK {
        board.search_black_all()
    } else {
        board.search_white_all()
    };
    proof {
        let m = choose|m: MoveView| is_legal(b0, color, m);
        assert(holds(moves@, m));
        assert(holds(moves@, moves@[0]@));
        assert forall|other: MoveView| #[trigger] is_legal(b0, color, other) implies moves@[0]@.jumps[0]
            <= other.jumps[0] by {
            assert(holds(moves@, other));
            let k = choose|k: int| 0 <= k < moves@.len() && (#[trigger] moves@[k])@ == other;
            assert(views(moves@)[0] == moves@[0]@ && views(moves@)[k] == other);
        }
    }
    let first: Move = moves[0].clone();
    (first, evaluate_board(board))
}

} // verus!
