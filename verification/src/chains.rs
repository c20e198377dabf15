//! Proofs about chains of jumps.

use crate::bits::{lemma_crown, lemma_empty_has_no_bit};
use crate::checkers::{MoveView, EMPTY, KING};
use crate::rules::{
    base_move, can_capture, chain_board, chain_move, chain_ok, count, count_upto, enemy_of,
    hop_move, is_capture_of, is_chain_from, is_chain_via, is_step_of, jump_board, jump_open,
    promotes, step_move, step_open, valid_color, Dir,
};
use vstd::prelude::*;

verus! {

/// A chain is its first jump followed by the rest of the chain on the board
/// that the first jump leaves.
pub proof fn lemma_chain_unfold(b: Seq<u8>, color: u8, from: int, cur: MoveView, dirs: Seq<Dir>)
    requires
        dirs.len() > 0,
    ensures
        chain_ok(b, color, from, dirs) == (jump_open(b, color, from, dirs[0]) && chain_ok(
            jump_board(b, color, from, dirs[0]),
            color,
            from + 2 * dirs[0].offset(),
            dirs.drop_first(),
        )),
        chain_move(b, color, from, cur, dirs) == chain_move(
            jump_board(b, color, from, dirs[0]),
            color,
            from + 2 * dirs[0].offset(),
            hop_move(b, color, from, cur, dirs[0]),
            dirs.drop_first(),
        ),
        chain_board(b, color, from, dirs) == chain_board(
            jump_board(b, color, from, dirs[0]),
            color,
            from + 2 * dirs[0].offset(),
            dirs.drop_first(),
        ),
{
}

/// A chain of no jumps is always open and changes nothing.
pub proof fn lemma_chain_none(b: Seq<u8>, color: u8, from: int, cur: MoveView, dirs: Seq<Dir>)
    requires
        dirs.len() == 0,
    ensures
        chain_ok(b, color, from, dirs),
        chain_move(b, color, from, cur, dirs) == cur,
        chain_board(b, color, from, dirs) == b,
{
}

/// A chain of one jump is that jump.
pub proof fn lemma_chain_single(b: Seq<u8>, color: u8, from: int, cur: MoveView, d: Dir)
    ensures
        chain_ok(b, color, from, seq![d]) == jump_open(b, color, from, d),
        chain_move(b, color, from, cur, seq![d]) == hop_move(b, color, from, cur, d),
        chain_board(b, color, from, seq![d]) == jump_board(b, color, from, d),
{
    let dirs = seq![d];
    assert(dirs[0] == d);
    lemma_chain_unfold(b, color, from, cur, dirs);
    lemma_chain_none(
        jump_board(b, color, from, d),
        color,
        from + 2 * d.offset(),
        hop_move(b, color, from, cur, d),
        dirs.drop_first(),
    );
}

/// Where the jump in direction `d` is open, the chains that start with it
/// are that jump alone and that jump followed by a chain from its landing
/// square.
pub proof fn lemma_via_split(b: Seq<u8>, color: u8, from: int, d: Dir, cur: MoveView, m: MoveView)
    requires
        jump_open(b, color, from, d),
    ensures
        is_chain_via(b, color, from, d, cur, m) <==> (m == hop_move(b, color, from, cur, d)
            || is_chain_from(
            jump_board(b, color, from, d),
            color,
            from + 2 * d.offset(),
            hop_move(b, color, from, cur, d),
            m,
        )),
{
    let b1 = jump_board(b, color, from, d);
    let land = from + 2 * d.offset();
    let cur1 = hop_move(b, color, from, cur, d);
    if is_chain_via(b, color, from, d, cur, m) {
        let dirs = choose|dirs: Seq<Dir>|
            dirs.len() > 0 && dirs[0] == d && #[trigger] chain_ok(b, color, from, dirs) && m
                == chain_move(b, color, from, cur, dirs);
        lemma_chain_unfold(b, color, from, cur, dirs);
        let rest = dirs.drop_first();
        if rest.len() == 0 {
            lemma_chain_none(b1, color, land, cur1, rest);
        } else {
            assert(chain_ok(b1, color, land, rest));
        }
    }
    if m == cur1 {
        lemma_chain_single(b, color, from, cur, d);
        assert(seq![d][0] == d);
        assert(chain_ok(b, color, from, seq![d]));
    }
    if is_chain_from(b1, color, land, cur1, m) {
        let rest = choose|rest: Seq<Dir>|
            rest.len() > 0 && #[trigger] chain_ok(b1, color, land, rest) && m == chain_move(
                b1,
                color,
                land,
                cur1,
                rest,
            );
        let dirs = seq![d] + rest;
        assert(dirs[0] == d);
        assert(dirs.drop_first() =~= rest);
        lemma_chain_unfold(b, color, from, cur, dirs);
        assert(chain_ok(b, color, from, dirs));
    }
}

/// Where the jump in direction `d` is not open, no chain starts with it.
pub proof fn lemma_via_closed(b: Seq<u8>, color: u8, from: int, d: Dir, cur: MoveView, m: MoveView)
    requires
        !jump_open(b, color, from, d),
    ensures
        !is_chain_via(b, color, from, d, cur, m),
{
    if is_chain_via(b, color, from, d, cur, m) {
        let dirs = choose|dirs: Seq<Dir>|
            dirs.len() > 0 && dirs[0] == d && #[trigger] chain_ok(b, color, from, dirs) && m
                == chain_move(b, color, from, cur, dirs);
        lemma_chain_unfold(b, color, from, cur, dirs);
    }
}

/// A chain from a square starts in one of the four directions.
pub proof fn lemma_from_split(b: Seq<u8>, color: u8, from: int, cur: MoveView, m: MoveView)
    ensures
        is_chain_from(b, color, from, cur, m) <==> (is_chain_via(
            b,
            color,
            from,
            Dir::UpLeft,
            cur,
            m,
        ) || is_chain_via(b, color, from, Dir::UpRight, cur, m) || is_chain_via(
            b,
            color,
            from,
            Dir::DownLeft,
            cur,
            m,
        ) || is_chain_via(b, color, from, Dir::DownRight, cur, m)),
{
    if is_chain_from(b, color, from, cur, m) {
        let dirs = choose|dirs: Seq<Dir>|
            dirs.len() > 0 && #[trigger] chain_ok(b, color, from, dirs) && m == chain_move(
                b,
                color,
                from,
                cur,
                dirs,
            );
        assert(is_chain_via(b, color, from, dirs[0], cur, m));
    }
}

/// Writing one square changes the count of a mask by what the square gains
/// or loses.
pub proof fn lemma_count_update(b: Seq<u8>, mask: u8, i: int, v: u8, n: int)
    requires
        0 <= i < b.len(),
        0 <= n <= b.len(),
    ensures
        count_upto(b.update(i, v), mask, n) == count_upto(b, mask, n) + (if i < n && v & mask
            != 0 {
            1int
        } else {
            0int
        }) - (if i < n && b[i] & mask != 0 {
            1int
        } else {
            0int
        }),
    decreases n,
{
    if n > 0 {
        lemma_count_update(b, mask, i, v, n - 1);
    }
}

/// A jump takes exactly one piece of the enemy's colour off the board, and
/// none of the mover's colour appears.
pub proof fn lemma_jump_counts(b: Seq<u8>, color: u8, from: int, d: Dir)
    requires
        b.len() == 64,
        valid_color(color),
        jump_open(b, color, from, d),
    ensures
        count(jump_board(b, color, from, d), enemy_of(color)) == count(b, enemy_of(color)) - 1,
        count(jump_board(b, color, from, d), color) <= count(b, color),
{
    let mid = from + d.offset();
    let land = from + 2 * d.offset();
    let landed: u8 = if promotes(color, b[from], land) {
        (b[from] | KING) as u8
    } else {
        b[from]
    };
    let b1 = b.update(mid, EMPTY);
    let b2 = b1.update(land, landed);
    let b3 = b2.update(from, EMPTY);
    assert(b3 == jump_board(b, color, from, d));
    lemma_crown(b[from]);
    lemma_empty_has_no_bit(color);
    lemma_empty_has_no_bit(enemy_of(color));
    lemma_count_update(b, color, mid, EMPTY, 64);
    lemma_count_update(b1, color, land, landed, 64);
    lemma_count_update(b2, color, from, EMPTY, 64);
    lemma_count_update(b, enemy_of(color), mid, EMPTY, 64);
    lemma_count_update(b1, enemy_of(color), land, landed, 64);
    lemma_count_update(b2, enemy_of(color), from, EMPTY, 64);
}

/// A chain adds one square to the path and one capture for each of its
/// jumps, and keeps the start of the path and the colour.
pub proof fn lemma_chain_shape(b: Seq<u8>, color: u8, from: int, cur: MoveView, dirs: Seq<Dir>)
    ensures
        chain_move(b, color, from, cur, dirs).jumps.len() == cur.jumps.len() + dirs.len(),
        chain_move(b, color, from, cur, dirs).captures.len() == cur.captures.len() + dirs.len(),
        chain_move(b, color, from, cur, dirs).captures_pieces.len() == cur.captures_pieces.len()
            + dirs.len(),
        chain_move(b, color, from, cur, dirs).color == cur.color,
        cur.jumps.len() > 0 ==> chain_move(b, color, from, cur, dirs).jumps[0] == cur.jumps[0],
    decreases dirs.len(),
{
    if dirs.len() > 0 {
        lemma_chain_shape(
            jump_board(b, color, from, dirs[0]),
            color,
            from + 2 * dirs[0].offset(),
            hop_move(b, color, from, cur, dirs[0]),
            dirs.drop_first(),
        );
    }
}

/// A capture starts on its square, with a jump that is open there, and
/// takes at least one piece.
pub proof fn lemma_capture_shape(b: Seq<u8>, color: u8, from: int, m: MoveView)
    requires
        0 <= from < 64,
        is_capture_of(b, color, from, m),
    ensures
        can_capture(b, color, from),
        m.captures.len() > 0,
        m.jumps.len() == m.captures.len() + 1,
        m.captures_pieces.len() == m.captures.len(),
        m.jumps[0] == from,
        m.color == color,
{
    let dirs = choose|dirs: Seq<Dir>|
        dirs.len() > 0 && #[trigger] chain_ok(b, color, from, dirs) && m == chain_move(
            b,
            color,
            from,
            base_move(color, from),
            dirs,
        );
    lemma_chain_unfold(b, color, from, base_move(color, from), dirs);
    lemma_chain_shape(b, color, from, base_move(color, from), dirs);
    assert(jump_open(b, color, from, dirs[0]));
}

/// A slide starts on its square, goes to a neighbour and takes nothing.
pub proof fn lemma_step_shape(b: Seq<u8>, color: u8, from: int, m: MoveView)
    requires
        0 <= from < 64,
        is_step_of(b, color, from, m),
    ensures
        m.captures.len() == 0,
        m.captures_pieces.len() == 0,
        m.jumps.len() == 2,
        m.jumps[0] == from,
        m.color == color,
{
    let d = choose|d: Dir| #[trigger] step_open(b, color, from, d) && m == step_move(b, color, from, d);
}

/// The chain of `dirs` from `from` is a capture of as many pieces as it has
/// jumps.
pub proof fn lemma_chain_is_capture(b: Seq<u8>, color: u8, from: int, dirs: Seq<Dir>)
    requires
        dirs.len() > 0,
        chain_ok(b, color, from, dirs),
    ensures
        is_capture_of(b, color, from, chain_move(b, color, from, base_move(color, from), dirs)),
        chain_move(b, color, from, base_move(color, from), dirs).captures.len() == dirs.len(),
{
    lemma_chain_shape(b, color, from, base_move(color, from), dirs);
}

} // verus!
