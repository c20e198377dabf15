//! Proofs about forced captures: the longest chain of a square, and what is
//! left of a list of candidates once captures are forced.

use crate::chains::{
    lemma_capture_shape, lemma_chain_is_capture, lemma_chain_single, lemma_chain_unfold,
    lemma_jump_counts, lemma_step_shape,
};
use crate::checkers::{Move, MoveView};
use crate::checkers::views;
use crate::lists::{by_origin, holds, none_captures_more, some_captures};
use crate::rules::{
    base_move, can_capture, chain_move, chain_ok, count, count_upto, enemy_of, is_candidate,
    is_capture_of, is_legal, is_square_move, is_step_of, jump_board, jump_open, no_longer_chain,
    side_can_capture, valid_color, Dir,
};
use vstd::prelude::*;

verus! {

/// No more squares hold a bit of a mask than the board has squares.
pub proof fn lemma_count_bound(b: Seq<u8>, mask: u8, n: int)
    requires
        0 <= n,
    ensures
        count_upto(b, mask, n) <= n,
    decreases n,
{
    if n > 0 {
        lemma_count_bound(b, mask, n - 1);
    }
}

/// A chain has no more jumps than the board has enemy pieces.
pub proof fn lemma_chain_bounded(b: Seq<u8>, color: u8, from: int, dirs: Seq<Dir>)
    requires
        b.len() == 64,
        valid_color(color),
        chain_ok(b, color, from, dirs),
    ensures
        dirs.len() <= count(b, enemy_of(color)),
    decreases dirs.len(),
{
    if dirs.len() > 0 {
        lemma_chain_unfold(b, color, from, base_move(color, from), dirs);
        lemma_jump_counts(b, color, from, dirs[0]);
        lemma_chain_bounded(
            jump_board(b, color, from, dirs[0]),
            color,
            from + 2 * dirs[0].offset(),
            dirs.drop_first(),
        );
    }
}

/// Among the chains from a square that have at most `n` jumps, where there is
/// one that jumps at all, there is a longest.
proof fn lemma_longest_below(b: Seq<u8>, color: u8, from: int, n: nat)
    requires
        no_longer_chain(b, color, from, n),
        can_capture(b, color, from),
    ensures
        exists|dirs: Seq<Dir>|
            dirs.len() > 0 && #[trigger] chain_ok(b, color, from, dirs) && no_longer_chain(
                b,
                color,
                from,
                dirs.len(),
            ),
    decreases n,
{
    if exists|dirs: Seq<Dir>| #[trigger] chain_ok(b, color, from, dirs) && dirs.len() == n {
        let dirs = choose|dirs: Seq<Dir>| #[trigger]
            chain_ok(b, color, from, dirs) && dirs.len() == n;
        if n == 0 {
            let d = choose|d: Dir| #[trigger] jump_open(b, color, from, d);
            lemma_chain_single(b, color, from, base_move(color, from), d);
            assert(chain_ok(b, color, from, seq![d]));
            assert(false);
        }
    } else {
        if n == 0 {
            assert(chain_ok(b, color, from, Seq::<Dir>::empty()));
            assert(false);
        }
        assert forall|dirs: Seq<Dir>| #[trigger] chain_ok(b, color, from, dirs) implies dirs.len()
            <= n - 1 by {}
        lemma_longest_below(b, color, from, (n - 1) as nat);
    }
}

/// A piece that can capture has a longest chain.
pub proof fn lemma_longest_chain_exists(b: Seq<u8>, color: u8, from: int)
    requires
        b.len() == 64,
        valid_color(color),
        can_capture(b, color, from),
    ensures
        exists|dirs: Seq<Dir>|
            dirs.len() > 0 && #[trigger] chain_ok(b, color, from, dirs) && no_longer_chain(
                b,
                color,
                from,
                dirs.len(),
            ),
{
    assert forall|dirs: Seq<Dir>| #[trigger] chain_ok(b, color, from, dirs) implies dirs.len()
        <= 64 by {
        lemma_chain_bounded(b, color, from, dirs);
        lemma_count_bound(b, enemy_of(color), 64);
    }
    lemma_longest_below(b, color, from, 64);
}

/// A move of a square starts there, and it captures exactly where the piece
/// of that square can capture.
pub proof fn lemma_square_move_shape(b: Seq<u8>, color: u8, from: int, m: MoveView)
    requires
        0 <= from < 64,
        is_square_move(b, color, from, m),
    ensures
        is_candidate(b, color, from, m),
        m.captures.len() > 0 <==> can_capture(b, color, from),
        m.jumps.len() == m.captures.len() + 1 || m.jumps.len() == 2,
        m.jumps.len() >= 2,
        m.captures_pieces.len() == m.captures.len(),
        m.jumps[0] == from,
        m.color == color,
{
    if can_capture(b, color, from) {
        lemma_capture_shape(b, color, from, m);
    } else {
        lemma_step_shape(b, color, from, m);
    }
}

/// A piece that can capture has a move.
pub proof fn lemma_square_move_exists(b: Seq<u8>, color: u8, from: int)
    requires
        b.len() == 64,
        valid_color(color),
        0 <= from < 64,
        can_capture(b, color, from),
    ensures
        exists|m: MoveView| is_square_move(b, color, from, m),
{
    lemma_longest_chain_exists(b, color, from);
    let dirs = choose|dirs: Seq<Dir>|
        dirs.len() > 0 && #[trigger] chain_ok(b, color, from, dirs) && no_longer_chain(
            b,
            color,
            from,
            dirs.len(),
        );
    lemma_chain_is_capture(b, color, from, dirs);
    assert(is_square_move(
        b,
        color,
        from,
        chain_move(b, color, from, base_move(color, from), dirs),
    ));
}

/// Of a list that holds the candidates of a square, the moves that capture
/// as much as any move of the list are the moves of that square.
pub proof fn lemma_longest_are_square_moves(
    b: Seq<u8>,
    color: u8,
    from: int,
    moves: Seq<Move>,
    m: MoveView,
)
    requires
        0 <= from < 64,
        forall|mv: MoveView| #[trigger] holds(moves, mv) <==> is_candidate(b, color, from, mv),
    ensures
        (holds(moves, m) && none_captures_more(moves, m.captures.len())) <==> is_square_move(
            b,
            color,
            from,
            m,
        ),
{
    if can_capture(b, color, from) {
        let d = choose|d: Dir| #[trigger] jump_open(b, color, from, d);
        lemma_chain_single(b, color, from, base_move(color, from), d);
        lemma_chain_is_capture(b, color, from, seq![d]);
        let one = chain_move(b, color, from, base_move(color, from), seq![d]);
        assert(holds(moves, one));
        let k1 = choose|k: int| 0 <= k < moves.len() && (#[trigger] moves[k])@ == one;
        if holds(moves, m) && none_captures_more(moves, m.captures.len()) {
            assert(moves[k1]@.captures.len() <= m.captures.len());
            if is_step_of(b, color, from, m) {
                lemma_step_shape(b, color, from, m);
            }
            assert forall|dirs: Seq<Dir>| #[trigger]
                chain_ok(b, color, from, dirs) implies dirs.len() <= m.captures.len() by {
                if dirs.len() > 0 {
                    lemma_chain_is_capture(b, color, from, dirs);
                    let other = chain_move(b, color, from, base_move(color, from), dirs);
                    assert(holds(moves, other));
                    let k = choose|k: int| 0 <= k < moves.len() && (#[trigger] moves[k])@ == other;
                    assert(moves[k]@.captures.len() <= m.captures.len());
                }
            }
        }
        if is_square_move(b, color, from, m) {
            assert(holds(moves, m));
            assert forall|k: int| 0 <= k < moves.len() implies (#[trigger] moves[k])@.captures.len()
                <= m.captures.len() by {
                let other = moves[k]@;
                assert(holds(moves, other));
                if is_capture_of(b, color, from, other) {
                    let dirs = choose|dirs: Seq<Dir>|
                        dirs.len() > 0 && #[trigger] chain_ok(b, color, from, dirs) && other
                            == chain_move(b, color, from, base_move(color, from), dirs);
                    lemma_chain_is_capture(b, color, from, dirs);
                } else {
                    lemma_step_shape(b, color, from, other);
                }
            }
        }
    } else {
        if holds(moves, m) {
            if is_capture_of(b, color, from, m) {
                lemma_capture_shape(b, color, from, m);
            }
        }
        if is_square_move(b, color, from, m) {
            lemma_step_shape(b, color, from, m);
            assert(holds(moves, m));
            assert forall|k: int| 0 <= k < moves.len() implies (#[trigger] moves[k])@.captures.len()
                <= m.captures.len() by {
                let other = moves[k]@;
                assert(holds(moves, other));
                if is_capture_of(b, color, from, other) {
                    lemma_capture_shape(b, color, from, other);
                } else {
                    lemma_step_shape(b, color, from, other);
                }
            }
        }
    }
}

/// `m` is a move of a piece of `color` that stands on one of the first `n`
/// squares.
pub open spec fn is_move_before(b: Seq<u8>, color: u8, n: int, m: MoveView) -> bool {
    &&& m.jumps.len() > 0
    &&& m.jumps[0] < n
    &&& b[m.jumps[0] as int] & color != 0
    &&& is_square_move(b, color, m.jumps[0] as int, m)
}

/// Of a list that holds the moves of every piece of a side, square by
/// square, the moves that capture, or all of them where none captures, are
/// the legal moves of that side.
pub proof fn lemma_forced_are_legal(b: Seq<u8>, color: u8, moves: Seq<Move>, m: MoveView)
    requires
        b.len() == 64,
        valid_color(color),
        forall|mv: MoveView| #[trigger] holds(moves, mv) <==> is_move_before(b, color, 64, mv),
    ensures
        some_captures(moves) <==> side_can_capture(b, color),
        (holds(moves, m) && m.captures.len() >= (if some_captures(moves) {
            1nat
        } else {
            0nat
        })) <==> is_legal(b, color, m),
{
    if some_captures(moves) {
        let k = choose|k: int| 0 <= k < moves.len() && (#[trigger] moves[k])@.captures.len() > 0;
        let mv = moves[k]@;
        assert(holds(moves, mv));
        lemma_square_move_shape(b, color, mv.jumps[0] as int, mv);
        assert(can_capture(b, color, mv.jumps[0] as int));
    }
    if side_can_capture(b, color) {
        let s = choose|s: int| 0 <= s < 64 && b[s] & color != 0 && #[trigger] can_capture(b, color, s);
        lemma_square_move_exists(b, color, s);
        let mv = choose|mv: MoveView| is_square_move(b, color, s, mv);
        lemma_square_move_shape(b, color, s, mv);
        assert(is_move_before(b, color, 64, mv));
        assert(holds(moves, mv));
        let k = choose|k: int| 0 <= k < moves.len() && (#[trigger] moves[k])@ == mv;
        assert(moves[k]@.captures.len() > 0);
    }
    if holds(moves, m) {
        lemma_square_move_shape(b, color, m.jumps[0] as int, m);
    }
    if is_legal(b, color, m) {
        lemma_square_move_shape(b, color, m.jumps[0] as int, m);
        assert(is_move_before(b, color, 64, m));
    }
}

/// A list of the moves of the pieces on the squares before `n`, in the order
/// of their first squares, is still in that order with the moves of the
/// piece on `n` at its end.
pub proof fn lemma_joined_by_origin(b: Seq<u8>, color: u8, n: int, sofar: Seq<Move>, found: Seq<Move>)
    requires
        0 <= n < 64,
        by_origin(views(sofar)),
        forall|mv: MoveView| #[trigger] holds(sofar, mv) <==> is_move_before(b, color, n, mv),
        forall|mv: MoveView| #[trigger] holds(found, mv) <==> is_square_move(b, color, n, mv),
    ensures
        by_origin(views(sofar + found)),
{
    let all = views(sofar + found);
    assert forall|i: int, j: int| 0 <= i < j < all.len() implies (#[trigger] all[i]).jumps[0] <= (
    #[trigger] all[j]).jumps[0] by {
        assert(all[i] == (sofar + found)[i]@ && all[j] == (sofar + found)[j]@);
        if j < sofar.len() {
            assert(views(sofar)[i] == all[i] && views(sofar)[j] == all[j]);
        } else {
            assert(holds(found, found[j - sofar.len()]@));
            lemma_square_move_shape(b, color, n, all[j]);
            if i < sofar.len() {
                assert(holds(sofar, sofar[i]@));
            } else {
                assert(holds(found, found[i - sofar.len()]@));
                lemma_square_move_shape(b, color, n, all[i]);
            }
        }
    }
}

} // verus!
