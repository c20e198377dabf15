//! The value of a position: material at depth 0, and else the best that the
//! side to move can reach when both sides play their best replies, a capture
//! costing no depth.

use crate::checkers::{MoveView, BLACK, BLACK_KING, WHITE, WHITE_KING};
use crate::replay::played;
use crate::rules::{count, has_legal_move, is_legal};
use crate::termination::lemma_legal_move_pieces;
use vstd::prelude::*;

verus! {

/// The value of a position in which black has no legal move.
pub const BLACK_LOST: i32 = -2147483648;

/// The value of a position in which white has no legal move.
pub const WHITE_LOST: i32 = 2147483647;

/// What a man counts in the score.
pub const PIECE_VALUE: i32 = 1;

/// What a king counts in the score.
pub const KING_VALUE: i32 = 3;

/// What a square adds to the score: the value of the piece on it, counted
/// for black and against white.
pub open spec fn piece_value(p: u8) -> int {
    if p == BLACK {
        PIECE_VALUE as int
    } else if p == BLACK_KING {
        KING_VALUE as int
    } else if p == WHITE {
        -(PIECE_VALUE as int)
    } else if p == WHITE_KING {
        -(KING_VALUE as int)
    } else {
        0
    }
}

/// The score of the first `n` squares.
pub open spec fn score_upto(b: Seq<u8>, n: int) -> int
    decreases n,
{
    if n <= 0 {
        0
    } else {
        score_upto(b, n - 1) + piece_value(b[n - 1])
    }
}

/// The material on the board: the sum of what its squares add.
pub open spec fn score(b: Seq<u8>) -> int {
    score_upto(b, b.len() as int)
}

/// Number of squares that hold a colour bit.
pub open spec fn pieces(b: Seq<u8>) -> nat {
    count(b, WHITE) + count(b, BLACK)
}

/// The depth left after `m`: a capture costs none.
pub open spec fn depth_after(depth: nat, m: MoveView) -> nat {
    if m.captures.len() > 0 {
        depth
    } else {
        (depth - 1) as nat
    }
}

/// `s` lists the legal moves of `color`, in some order.
pub open spec fn lists_legal(b: Seq<u8>, color: u8, s: Seq<MoveView>) -> bool {
    forall|m: MoveView| #[trigger] s.contains(m) <==> is_legal(b, color, m)
}

/// The legal moves of `color`, in some order.
pub open spec fn legal_list(b: Seq<u8>, color: u8) -> Seq<MoveView> {
    choose|s: Seq<MoveView>| lists_legal(b, color, s)
}

/// The value for black to move, `depth` plies deep: the highest of the
/// values that its legal moves lead to.
pub open spec fn max_value(b: Seq<u8>, depth: nat) -> int
    decreases pieces(b), depth, 2int, 0int,
{
    if b.len() != 64 {
        0
    } else if depth == 0 {
        score(b)
    } else if !has_legal_move(b, BLACK) {
        BLACK_LOST as int
    } else {
        highest(b, depth, legal_list(b, BLACK), legal_list(b, BLACK).len())
    }
}

/// The highest of the values that the first `n` moves of `s` lead to.
pub open spec fn highest(b: Seq<u8>, depth: nat, s: Seq<MoveView>, n: nat) -> int
    decreases pieces(b), depth, 1int, n,
{
    if n == 0 {
        BLACK_LOST as int
    } else {
        let rest = highest(b, depth, s, (n - 1) as nat);
        let here = after_black(b, depth, s[n - 1]);
        if here > rest {
            here
        } else {
            rest
        }
    }
}

/// The value of the position that black's move `m` leaves, white to move.
pub open spec fn after_black(b: Seq<u8>, depth: nat, m: MoveView) -> int
    decreases pieces(b), depth, 0int, 0int,
    via after_black_decreases
{
    if b.len() == 64 && depth > 0 && is_legal(b, BLACK, m) {
        min_value(played(b, m), depth_after(depth, m))
    } else {
        0
    }
}

/// The value for white to move, `depth` plies deep: the lowest of the values
/// that its legal moves lead to.
pub open spec fn min_value(b: Seq<u8>, depth: nat) -> int
    decreases pieces(b), depth, 2int, 0int,
{
    if b.len() != 64 {
        0
    } else if depth == 0 {
        score(b)
    } else if !has_legal_move(b, WHITE) {
        WHITE_LOST as int
    } else {
        lowest(b, depth, legal_list(b, WHITE), legal_list(b, WHITE).len())
    }
}

/// The lowest of the values that the first `n` moves of `s` lead to.
pub open spec fn lowest(b: Seq<u8>, depth: nat, s: Seq<MoveView>, n: nat) -> int
    decreases pieces(b), depth, 1int, n,
{
    if n == 0 {
        WHITE_LOST as int
    } else {
        let rest = lowest(b, depth, s, (n - 1) as nat);
        let here = after_white(b, depth, s[n - 1]);
        if here < rest {
            here
        } else {
            rest
        }
    }
}

/// The value of the position that white's move `m` leaves, black to move.
pub open spec fn after_white(b: Seq<u8>, depth: nat, m: MoveView) -> int
    decreases pieces(b), depth, 0int, 0int,
    via after_white_decreases
{
    if b.len() == 64 && depth > 0 && is_legal(b, WHITE, m) {
        max_value(played(b, m), depth_after(depth, m))
    } else {
        0
    }
}

#[via_fn]
proof fn after_black_decreases(b: Seq<u8>, depth: nat, m: MoveView) {
    if b.len() == 64 && depth > 0 && is_legal(b, BLACK, m) {
        lemma_legal_move_pieces(b, BLACK, m);
    }
}

#[via_fn]
proof fn after_white_decreases(b: Seq<u8>, depth: nat, m: MoveView) {
    if b.len() == 64 && depth > 0 && is_legal(b, WHITE, m) {
        lemma_legal_move_pieces(b, WHITE, m);
    }
}

/// `v` is the value that one of black's legal moves leads to, and none leads
/// to a higher one.
pub open spec fn best_for_black(b: Seq<u8>, depth: nat, v: int) -> bool {
    &&& exists|m: MoveView| #[trigger] is_legal(b, BLACK, m) && after_black(b, depth, m) == v
    &&& forall|m: MoveView| #[trigger] is_legal(b, BLACK, m) ==> after_black(b, depth, m) <= v
}

/// `v` is the value that one of white's legal moves leads to, and none leads
/// to a lower one.
pub open spec fn best_for_white(b: Seq<u8>, depth: nat, v: int) -> bool {
    &&& exists|m: MoveView| #[trigger] is_legal(b, WHITE, m) && after_white(b, depth, m) == v
    &&& forall|m: MoveView| #[trigger] is_legal(b, WHITE, m) ==> after_white(b, depth, m) >= v
}

/// The value of the position that `m` leaves when it is played at the root
/// of a search `depth` plies deep, where no move earns depth.
pub open spec fn reply_value(b: Seq<u8>, color: u8, depth: nat, m: MoveView) -> int {
    if color == BLACK {
        min_value(played(b, m), (depth - 1) as nat)
    } else {
        max_value(played(b, m), (depth - 1) as nat)
    }
}

/// `m` is a legal move of `color` that leads to the value `v`, and no legal
/// move of `color` leads to a value that is better for it, `depth` plies
/// deep: higher for black, lower for white.
pub open spec fn best_at(b: Seq<u8>, color: u8, depth: nat, m: MoveView, v: int) -> bool {
    &&& is_legal(b, color, m)
    &&& v == reply_value(b, color, depth, m)
    &&& forall|other: MoveView| #[trigger]
        is_legal(b, color, other) ==> if color == BLACK {
            reply_value(b, color, depth, other) <= v
        } else {
            reply_value(b, color, depth, other) >= v
        }
}

/// The value `a` is better for `color` than the value `b`: higher for black,
/// lower for white.
pub open spec fn better(color: u8, a: int, b: int) -> bool {
    if color == BLACK {
        a > b
    } else {
        a < b
    }
}

/// Of the moves `moves`, the one at `i` leads to the value `v`, none leads
/// to a value that is better for `color`, and none before it leads to `v`.
pub open spec fn first_best_of(
    b: Seq<u8>,
    color: u8,
    depth: nat,
    moves: Seq<MoveView>,
    i: int,
    v: int,
) -> bool {
    &&& 0 <= i < moves.len()
    &&& v == reply_value(b, color, depth, moves[i])
    &&& forall|k: int|
        0 <= k < moves.len() ==> !better(color, #[trigger] reply_value(b, color, depth, moves[k]), v)
    &&& forall|k: int| 0 <= k < i ==> #[trigger] reply_value(b, color, depth, moves[k]) != v
}

/// No legal move of `color` that leads to the value `v`, `depth` plies deep,
/// starts on a square before the one on which `m` starts.
pub open spec fn earliest_at(b: Seq<u8>, color: u8, depth: nat, m: MoveView, v: int) -> bool {
    forall|other: MoveView| #[trigger]
        is_legal(b, color, other) && reply_value(b, color, depth, other) == v ==> m.jumps[0]
            <= other.jumps[0]
}

} // verus!
