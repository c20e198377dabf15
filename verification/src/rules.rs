//! The rules of movement, stated over plain sequences of squares.
//!
//! A board is a `Seq<u8>` of sixty-four squares. A side is named by its colour
//! bit. Nothing here is executable: it says which moves exist on a
//! board, not how to find them.

use crate::checkers::{MoveView, BLACK, EMPTY, KING, WHITE};
use vstd::prelude::*;

verus! {

/// One of the four diagonal directions. Square 0 is at the top left, so "up"
/// leads to smaller squares.
#[derive(Clone, Copy, Debug, PartialEq, Eq, Structural)]
pub enum Dir {
    UpLeft,
    UpRight,
    DownLeft,
    DownRight,
}

impl Dir {
    /// Distance, in squares, to the diagonal neighbour in this direction.
    pub open spec fn offset(self) -> int {
        match self {
            Dir::UpLeft => -9,
            Dir::UpRight => -7,
            Dir::DownLeft => 7,
            Dir::DownRight => 9,
        }
    }

    pub open spec fn upward(self) -> bool {
        self is UpLeft || self is UpRight
    }

    pub open spec fn leftward(self) -> bool {
        self is UpLeft || self is DownLeft
    }
}

pub open spec fn valid_color(color: u8) -> bool {
    color == BLACK || color == WHITE
}

/// The colour bit of the other side.
pub open spec fn enemy_of(color: u8) -> u8 {
    if color == BLACK {
        WHITE
    } else {
        BLACK
    }
}

/// Black men move up the board, white men down.
pub open spec fn forward(color: u8, d: Dir) -> bool {
    if color == BLACK {
        d.upward()
    } else {
        !d.upward()
    }
}

/// The rank on which a man of `color` is promoted.
pub open spec fn back_rank(color: u8, sq: int) -> bool {
    if color == BLACK {
        sq < 8
    } else {
        sq > 55
    }
}

/// The diagonal neighbour of `from` in direction `d` lies on the board.
pub open spec fn neighbour_on_board(from: int, d: Dir) -> bool {
    &&& 0 <= from < 64
    &&& if d.upward() {
        from > 7
    } else {
        from < 56
    }
    &&& if d.leftward() {
        from % 8 > 0
    } else {
        from % 8 < 7
    }
}

/// The square two diagonal steps from `from` in direction `d` lies on the
/// board.
pub open spec fn landing_on_board(from: int, d: Dir) -> bool {
    &&& 0 <= from < 64
    &&& if d.upward() {
        from > 15
    } else {
        from < 48
    }
    &&& if d.leftward() {
        from % 8 > 1
    } else {
        from % 8 < 6
    }
}

/// A man heads forward only; a king heads anywhere.
pub open spec fn may_head(b: Seq<u8>, color: u8, from: int, d: Dir) -> bool {
    forward(color, d) || b[from] & KING != 0
}

/// A piece that arrives on `land` is promoted there.
pub open spec fn promotes(color: u8, piece: u8, land: int) -> bool {
    back_rank(color, land) && piece & KING == 0
}

/// The piece on `from` can slide to its empty neighbour in direction `d`.
pub open spec fn step_open(b: Seq<u8>, color: u8, from: int, d: Dir) -> bool {
    &&& may_head(b, color, from, d)
    &&& neighbour_on_board(from, d)
    &&& b[from + d.offset()] == EMPTY
}

/// The piece on `from` can jump over an enemy piece in direction `d` and land
/// on the empty square behind it.
pub open spec fn jump_open(b: Seq<u8>, color: u8, from: int, d: Dir) -> bool {
    &&& may_head(b, color, from, d)
    &&& landing_on_board(from, d)
    &&& b[from + d.offset()] & enemy_of(color) != 0
    &&& b[from + 2 * d.offset()] == EMPTY
}

/// The board after the piece on `from` has jumped in direction `d`: the
/// jumped square is cleared and the piece stands on the landing square,
/// promoted if it reached its back rank as a man.
pub open spec fn jump_board(b: Seq<u8>, color: u8, from: int, d: Dir) -> Seq<u8> {
    let land = from + 2 * d.offset();
    let landed: u8 = if promotes(color, b[from], land) {
        b[from] | KING
    } else {
        b[from]
    };
    b.update(from + d.offset(), EMPTY).update(land, landed).update(from, EMPTY)
}

/// `cur` with one more jump, made from `from` in direction `d` on board `b`.
pub open spec fn hop_move(b: Seq<u8>, color: u8, from: int, cur: MoveView, d: Dir) -> MoveView {
    MoveView {
        jumps: cur.jumps.push((from + 2 * d.offset()) as u8),
        captures: cur.captures.push((from + d.offset()) as u8),
        captures_pieces: cur.captures_pieces.push(b[from + d.offset()]),
        is_king: cur.is_king || promotes(color, b[from], from + 2 * d.offset()),
        color: cur.color,
    }
}

/// Each jump of `dirs`, made in turn from `from`, is open on the board that
/// the jumps before it have left.
pub open spec fn chain_ok(b: Seq<u8>, color: u8, from: int, dirs: Seq<Dir>) -> bool
    decreases dirs.len(),
{
    dirs.len() == 0 || (jump_open(b, color, from, dirs[0]) && chain_ok(
        jump_board(b, color, from, dirs[0]),
        color,
        from + 2 * dirs[0].offset(),
        dirs.drop_first(),
    ))
}

/// `cur` extended by the jumps `dirs`, made in turn from `from`.
pub open spec fn chain_move(
    b: Seq<u8>,
    color: u8,
    from: int,
    cur: MoveView,
    dirs: Seq<Dir>,
) -> MoveView
    decreases dirs.len(),
{
    if dirs.len() == 0 {
        cur
    } else {
        chain_move(
            jump_board(b, color, from, dirs[0]),
            color,
            from + 2 * dirs[0].offset(),
            hop_move(b, color, from, cur, dirs[0]),
            dirs.drop_first(),
        )
    }
}

/// The board after the jumps `dirs`, made in turn from `from`.
pub open spec fn chain_board(b: Seq<u8>, color: u8, from: int, dirs: Seq<Dir>) -> Seq<u8>
    decreases dirs.len(),
{
    if dirs.len() == 0 {
        b
    } else {
        chain_board(
            jump_board(b, color, from, dirs[0]),
            color,
            from + 2 * dirs[0].offset(),
            dirs.drop_first(),
        )
    }
}

/// `m` is `cur` extended by one or more jumps from `from`, the first of them
/// in direction `d`.
pub open spec fn is_chain_via(
    b: Seq<u8>,
    color: u8,
    from: int,
    d: Dir,
    cur: MoveView,
    m: MoveView,
) -> bool {
    exists|dirs: Seq<Dir>|
        dirs.len() > 0 && dirs[0] == d && #[trigger] chain_ok(b, color, from, dirs) && m
            == chain_move(b, color, from, cur, dirs)
}

/// `m` is `cur` extended by one or more jumps from `from`.
pub open spec fn is_chain_from(b: Seq<u8>, color: u8, from: int, cur: MoveView, m: MoveView) -> bool {
    exists|dirs: Seq<Dir>|
        dirs.len() > 0 && #[trigger] chain_ok(b, color, from, dirs) && m == chain_move(
            b,
            color,
            from,
            cur,
            dirs,
        )
}

/// The move of `color` that stands on `from` and has gone nowhere yet.
pub open spec fn base_move(color: u8, from: int) -> MoveView {
    MoveView {
        jumps: seq![from as u8],
        captures: Seq::empty(),
        captures_pieces: Seq::empty(),
        is_king: false,
        color,
    }
}

/// The slide of the piece on `from` to its neighbour in direction `d`.
pub open spec fn step_move(b: Seq<u8>, color: u8, from: int, d: Dir) -> MoveView {
    MoveView {
        jumps: seq![from as u8, (from + d.offset()) as u8],
        captures: Seq::empty(),
        captures_pieces: Seq::empty(),
        is_king: promotes(color, b[from], from + d.offset()),
        color,
    }
}

/// `m` is a slide of the piece on `from` to an empty neighbour.
pub open spec fn is_step_of(b: Seq<u8>, color: u8, from: int, m: MoveView) -> bool {
    exists|d: Dir| #[trigger] step_open(b, color, from, d) && m == step_move(b, color, from, d)
}

/// `m` is a chain of one or more jumps that starts on `from`.
pub open spec fn is_capture_of(b: Seq<u8>, color: u8, from: int, m: MoveView) -> bool {
    is_chain_from(b, color, from, base_move(color, from), m)
}

/// Everything the piece on `from` could do if captures were not forced:
/// slide, or jump any number of times and stop.
pub open spec fn is_candidate(b: Seq<u8>, color: u8, from: int, m: MoveView) -> bool {
    is_step_of(b, color, from, m) || is_capture_of(b, color, from, m)
}

/// The piece on `from` has an enemy piece to jump over.
pub open spec fn can_capture(b: Seq<u8>, color: u8, from: int) -> bool {
    exists|d: Dir| #[trigger] jump_open(b, color, from, d)
}

/// No chain of jumps from `from` is longer than `n`.
pub open spec fn no_longer_chain(b: Seq<u8>, color: u8, from: int, n: nat) -> bool {
    forall|dirs: Seq<Dir>| #[trigger] chain_ok(b, color, from, dirs) ==> dirs.len() <= n
}

/// The moves of the piece on `from`, taken by itself. Where it can capture it
/// must, and with as many jumps as any chain from that square has; where it
/// cannot, it slides.
pub open spec fn is_square_move(b: Seq<u8>, color: u8, from: int, m: MoveView) -> bool {
    if can_capture(b, color, from) {
        is_capture_of(b, color, from, m) && no_longer_chain(b, color, from, m.captures.len())
    } else {
        is_step_of(b, color, from, m)
    }
}

/// Some piece of `color` has an enemy piece to jump over.
pub open spec fn side_can_capture(b: Seq<u8>, color: u8) -> bool {
    exists|s: int| 0 <= s < 64 && b[s] & color != 0 && #[trigger] can_capture(b, color, s)
}

/// The legal moves of `color`: the moves of each of its pieces, taken square
/// by square, and only the capturing ones as soon as any piece can capture.
/// The longest chain is asked for within one square, not across squares.
pub open spec fn is_legal(b: Seq<u8>, color: u8, m: MoveView) -> bool {
    &&& m.jumps.len() > 0
    &&& m.jumps[0] < 64
    &&& b[m.jumps[0] as int] & color != 0
    &&& is_square_move(b, color, m.jumps[0] as int, m)
    &&& side_can_capture(b, color) ==> can_capture(b, color, m.jumps[0] as int)
}

/// `color` has a legal move.
pub open spec fn has_legal_move(b: Seq<u8>, color: u8) -> bool {
    exists|m: MoveView| is_legal(b, color, m)
}

/// Number of squares among the first `n` that hold a bit of `mask`.
pub open spec fn count_upto(b: Seq<u8>, mask: u8, n: int) -> nat
    decreases n,
{
    if n <= 0 {
        0
    } else {
        count_upto(b, mask, n - 1) + if b[n - 1] & mask != 0 {
            1nat
        } else {
            0nat
        }
    }
}

/// Number of squares that hold a bit of `mask`.
pub open spec fn count(b: Seq<u8>, mask: u8) -> nat {
    count_upto(b, mask, b.len() as int)
}

/// The squares on which the game is played: those whose rank and file add up
/// to an odd number.
pub open spec fn dark(sq: int) -> bool {
    (sq / 8 + sq % 8) % 2 == 1
}

/// No piece stands off the squares on which the game is played.
pub open spec fn light_squares_empty(b: Seq<u8>) -> bool {
    forall|x: int| 0 <= x < 64 && !dark(x) ==> #[trigger] b[x] == EMPTY
}

} // verus!
