//! What holds of every move that the rules allow.
//!
//! Each law is stated for the candidates of a square, which are all that a
//! search from that square can find, and so holds of the moves of a square
//! and of the legal moves of a side, which are candidates.

use crate::bits::lemma_crown;
use crate::chains::{lemma_capture_shape, lemma_chain_is_capture, lemma_chain_shape};
use crate::bits::lemma_empty_has_no_bit;
use crate::checkers::{initial_squares, MoveView, EMPTY, KING};
use crate::forced::lemma_square_move_shape;
use crate::replay::{played, played_at, playable, reversible, stutters, taken_back, taken_back_at};
use crate::rules::{
    back_rank, base_move, can_capture, chain_board, chain_move, chain_ok, dark, is_candidate,
    light_squares_empty,
    is_capture_of, is_legal, is_square_move, side_can_capture, step_move, step_open, valid_color,
    Dir,
};
use crate::tracking::{
    lemma_chain_tracks, lemma_path_misses_captures, lemma_tracks_replay, lemma_tracks_start,
    tracked_at, tracks,
};
use vstd::prelude::*;

verus! {

/// The piece that stands at the end of the path once `m` has been played on
/// `b`: the piece of the first square, crowned if the move promotes.
pub open spec fn arrived_piece(b: Seq<u8>, m: MoveView) -> u8 {
    if m.is_king {
        b[m.jumps[0] as int] | KING
    } else {
        b[m.jumps[0] as int]
    }
}

/// A capture of a square is a chain that was followed from the board: the
/// board that its jumps leave is the board on which it has been played.
pub proof fn lemma_capture_tracks(b: Seq<u8>, color: u8, from: int, m: MoveView) -> (dirs: Seq<
    Dir,
>)
    requires
        b.len() == 64,
        valid_color(color),
        0 <= from < 64,
        is_capture_of(b, color, from, m),
    ensures
        dirs.len() > 0,
        dirs.len() == m.captures.len(),
        chain_ok(b, color, from, dirs),
        m == chain_move(b, color, from, base_move(color, from), dirs),
        tracks(b, color, m, chain_board(b, color, from, dirs)),
        played(b, m) == chain_board(b, color, from, dirs),
{
    let dirs = choose|dirs: Seq<Dir>|
        dirs.len() > 0 && #[trigger] chain_ok(b, color, from, dirs) && m == chain_move(
            b,
            color,
            from,
            base_move(color, from),
            dirs,
        );
    let start = base_move(color, from);
    assert(start.jumps.last() == from);
    lemma_tracks_start(b, color, from);
    lemma_chain_tracks(b, color, start, b, dirs);
    lemma_chain_shape(b, color, from, start, dirs);
    lemma_tracks_replay(b, color, m, chain_board(b, color, from, dirs));
    dirs
}

/// Round trip: a candidate can be played and taken back, and taking it back
/// right after playing it leaves every square as it was.
pub proof fn law_undo_restores(b: Seq<u8>, color: u8, from: int, m: MoveView)
    requires
        b.len() == 64,
        valid_color(color),
        0 <= from < 64,
        is_candidate(b, color, from, m),
    ensures
        playable(m),
        reversible(m),
        taken_back(played(b, m), m) == b,
{
    if is_capture_of(b, color, from, m) {
        let dirs = lemma_capture_tracks(b, color, from, m);
        lemma_tracks_replay(b, color, m, chain_board(b, color, from, dirs));
    } else {
        let d = choose|d: Dir| #[trigger]
            step_open(b, color, from, d) && m == step_move(b, color, from, d);
        let to = from + d.offset();
        let after = played(b, m);
        lemma_crown(b[from]);
        assert(m.jumps[0] == from && m.jumps[1] == to);
        assert(!stutters(m.jumps)) by {
            if stutters(m.jumps) {
                let i = choose|i: int|
                    0 <= i < m.jumps.len() - 1 && #[trigger] m.jumps[i] == m.jumps[i + 1];
            }
        }
        let rev = m.jumps.reverse();
        assert(rev[0] == to && rev[1] == from);
        assert(!stutters(rev)) by {
            if stutters(rev) {
                let i = choose|i: int| 0 <= i < rev.len() - 1 && #[trigger] rev[i] == rev[i + 1];
            }
        }
        assert(after[to] == played_at(b, m, to));
        assert forall|x: int| 0 <= x < 64 implies taken_back_at(after, m, x) == b[x] by {
            assert(after[x] == played_at(b, m, x));
            if m.captures.contains(x as u8) {
                let i = choose|i: int| 0 <= i < m.captures.len() && m.captures[i] == x as u8;
            }
            if rev.contains(x as u8) {
                let i = choose|i: int| 0 <= i < rev.len() && rev[i] == x as u8;
                assert(x == to || x == from);
            }
            if m.jumps.contains(x as u8) {
                let i = choose|i: int| 0 <= i < m.jumps.len() && m.jumps[i] == x as u8;
                assert(x == to || x == from);
            }
            if x == to {
                assert(rev[0] == x as u8);
                assert(m.jumps[1] == x as u8);
            }
            if x == from {
                assert(m.jumps[0] == x as u8);
            }
        }
        assert(taken_back(after, m) =~= b);
    }
}

/// Legality closure: once a candidate has been played, the piece of the first
/// square stands on the last square of the path, crowned if the move
/// promotes; every captured square is empty; the first square is empty unless
/// the path ends there; and no other square has changed.
pub proof fn law_played_squares(b: Seq<u8>, color: u8, from: int, m: MoveView)
    requires
        b.len() == 64,
        valid_color(color),
        0 <= from < 64,
        is_candidate(b, color, from, m),
    ensures
        m.jumps.len() >= 2,
        m.jumps[0] == from,
        m.jumps.last() < 64,
        played(b, m)[m.jumps.last() as int] == arrived_piece(b, m),
        forall|i: int|
            0 <= i < m.captures.len() ==> (#[trigger] m.captures[i]) < 64 && played(
                b,
                m,
            )[m.captures[i] as int] == EMPTY,
        m.jumps.last() != from ==> played(b, m)[from] == EMPTY,
        forall|x: int|
            0 <= x < 64 && x != from && x != m.jumps.last() && !m.captures.contains(x as u8)
                ==> #[trigger] played(b, m)[x] == b[x],
{
    let after = played(b, m);
    if is_capture_of(b, color, from, m) {
        let dirs = lemma_capture_tracks(b, color, from, m);
        lemma_capture_shape(b, color, from, m);
        let last = m.jumps.last() as int;
        assert(m.jumps[m.jumps.len() - 1] == last);
        assert(m.jumps[0] == from);
        assert(after[last] == tracked_at(b, m, last));
        assert forall|i: int| 0 <= i < m.captures.len() implies (#[trigger] m.captures[i]) < 64
            && after[m.captures[i] as int] == EMPTY by {
            let x = m.captures[i] as int;
            lemma_path_misses_captures(b, color, m, after, x as u8);
            assert(after[x] == tracked_at(b, m, x));
        }
        assert(after[from] == tracked_at(b, m, from));
        assert forall|x: int|
            0 <= x < 64 && x != from && x != m.jumps.last() && !m.captures.contains(
                x as u8,
            ) implies #[trigger] after[x] == b[x] by {
            assert(after[x] == tracked_at(b, m, x));
            if m.jumps.contains(x as u8) {
                let i = choose|i: int| 0 <= i < m.jumps.len() && m.jumps[i] == x as u8;
                assert(m.jumps[i] == x);
            }
        }
    } else {
        let d = choose|d: Dir| #[trigger]
            step_open(b, color, from, d) && m == step_move(b, color, from, d);
        let to = from + d.offset();
        assert(m.jumps[0] == from && m.jumps[1] == to);
        assert(!stutters(m.jumps)) by {
            if stutters(m.jumps) {
                let i = choose|i: int|
                    0 <= i < m.jumps.len() - 1 && #[trigger] m.jumps[i] == m.jumps[i + 1];
            }
        }
        assert(m.captures.len() == 0);
        assert(!m.captures.contains(to as u8) && !m.captures.contains(from as u8)) by {
            if m.captures.contains(to as u8) {
                let i = choose|i: int| 0 <= i < m.captures.len() && m.captures[i] == to as u8;
            }
            if m.captures.contains(from as u8) {
                let i = choose|i: int| 0 <= i < m.captures.len() && m.captures[i] == from as u8;
            }
        }
        assert(m.jumps.contains(from as u8)) by {
            assert(m.jumps[0] == from as u8);
        }
        assert(after[to] == played_at(b, m, to));
        assert(after[from] == played_at(b, m, from));
        assert forall|x: int|
            0 <= x < 64 && x != from && x != m.jumps.last() && !m.captures.contains(
                x as u8,
            ) implies #[trigger] after[x] == b[x] by {
            assert(after[x] == played_at(b, m, x));
            if m.jumps.contains(x as u8) {
                let i = choose|i: int| 0 <= i < m.jumps.len() && m.jumps[i] == x as u8;
            }
        }
    }
}

/// Forced capture: where a legal move of a side captures, every legal move
/// of that side captures.
pub proof fn law_forced_capture(b: Seq<u8>, color: u8, m1: MoveView, m2: MoveView)
    requires
        is_legal(b, color, m1),
        is_legal(b, color, m2),
        m1.captures.len() > 0,
    ensures
        m2.captures.len() > 0,
{
    lemma_square_move_shape(b, color, m1.jumps[0] as int, m1);
    lemma_square_move_shape(b, color, m2.jumps[0] as int, m2);
    assert(can_capture(b, color, m1.jumps[0] as int));
    assert(side_can_capture(b, color));
}

/// Maximality within a square: a move of a square captures at least as many
/// pieces as any candidate of that square, and so as any chain of jumps from
/// it.
pub proof fn law_square_maximal(b: Seq<u8>, color: u8, from: int, m: MoveView, other: MoveView)
    requires
        0 <= from < 64,
        is_square_move(b, color, from, m),
        is_candidate(b, color, from, other),
    ensures
        other.captures.len() <= m.captures.len(),
{
    if is_capture_of(b, color, from, other) {
        lemma_capture_shape(b, color, from, other);
        let dirs = choose|dirs: Seq<Dir>|
            dirs.len() > 0 && #[trigger] chain_ok(b, color, from, dirs) && other == chain_move(
                b,
                color,
                from,
                base_move(color, from),
                dirs,
            );
        lemma_chain_is_capture(b, color, from, dirs);
    } else {
        let d = choose|d: Dir| #[trigger]
            step_open(b, color, from, d) && other == step_move(b, color, from, d);
    }
}

/// Promotion: a candidate promotes exactly where a man reaches the back rank
/// of its side on the way; a move of a king never promotes.
pub proof fn law_promotion(b: Seq<u8>, color: u8, from: int, m: MoveView)
    requires
        b.len() == 64,
        valid_color(color),
        0 <= from < 64,
        is_candidate(b, color, from, m),
    ensures
        m.is_king <==> b[from] & KING == 0 && exists|i: int|
            1 <= i < m.jumps.len() && back_rank(color, (#[trigger] m.jumps[i]) as int),
{
    if is_capture_of(b, color, from, m) {
        let dirs = lemma_capture_tracks(b, color, from, m);
        lemma_capture_shape(b, color, from, m);
    } else {
        let d = choose|d: Dir| #[trigger]
            step_open(b, color, from, d) && m == step_move(b, color, from, d);
        assert(m.jumps[1] == from + d.offset());
        if m.is_king {
            assert(back_rank(color, m.jumps[1] as int));
        }
        if b[from] & KING == 0 && exists|i: int|
            1 <= i < m.jumps.len() && back_rank(color, (#[trigger] m.jumps[i]) as int) {
            let i = choose|i: int|
                1 <= i < m.jumps.len() && back_rank(color, (#[trigger] m.jumps[i]) as int);
            assert(i == 1);
        }
    }
}

/// A legal move is a move of the square it starts from, and so a candidate
/// of that square: what the laws say of candidates holds of legal moves.
pub proof fn law_legal_is_candidate(b: Seq<u8>, color: u8, m: MoveView)
    requires
        is_legal(b, color, m),
    ensures
        m.jumps.len() >= 2,
        0 <= m.jumps[0] < 64,
        is_square_move(b, color, m.jumps[0] as int, m),
        is_candidate(b, color, m.jumps[0] as int, m),
{
    lemma_square_move_shape(b, color, m.jumps[0] as int, m);
}

/// The standard starting position has its pieces on the squares on which
/// the game is played.
pub proof fn law_opening_on_dark_squares()
    ensures
        light_squares_empty(initial_squares()),
{
}

/// A legal move keeps the pieces on the squares on which the game is
/// played: where no piece stands off them before the move, none does after
/// it.
pub proof fn law_light_squares_stay_empty(b: Seq<u8>, color: u8, m: MoveView)
    requires
        b.len() == 64,
        valid_color(color),
        is_legal(b, color, m),
        light_squares_empty(b),
    ensures
        light_squares_empty(played(b, m)),
{
    let from = m.jumps[0] as int;
    let last = m.jumps.last() as int;
    let after = played(b, m);
    lemma_square_move_shape(b, color, from, m);
    law_played_squares(b, color, from, m);
    lemma_empty_has_no_bit(color);
    assert(dark(from));
    assert(dark(last)) by {
        if is_capture_of(b, color, from, m) {
            let dirs = lemma_capture_tracks(b, color, from, m);
            assert(m.jumps[m.jumps.len() - 1] == last);
        } else {
            let d = choose|d: Dir| #[trigger]
                step_open(b, color, from, d) && m == step_move(b, color, from, d);
            assert(m.jumps[1] == from + d.offset());
        }
    }
    assert forall|x: int| 0 <= x < 64 && !dark(x) implies #[trigger] after[x] == EMPTY by {
        if m.captures.contains(x as u8) {
            let i = choose|i: int| 0 <= i < m.captures.len() && m.captures[i] == x as u8;
            assert(after[m.captures[i] as int] == EMPTY);
        } else {
            assert(after[x] == b[x]);
        }
    }
}

} // verus!
