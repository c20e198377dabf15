//! Why a search that follows legal moves comes to an end: a capture takes a
//! piece off the board, and no move puts one on it.

use crate::bits::{lemma_crown, lemma_empty_has_no_bit};
use crate::chains::{lemma_chain_unfold, lemma_count_update, lemma_jump_counts};
use crate::checkers::{MoveView, BLACK, EMPTY, WHITE};
use crate::forced::lemma_square_move_shape;
use crate::laws::{arrived_piece, law_played_squares, lemma_capture_tracks};
use crate::replay::played;
use crate::rules::{
    base_move, chain_board, chain_ok, count, enemy_of, is_capture_of, is_legal, jump_board,
    valid_color, Dir,
};
use vstd::prelude::*;

verus! {

/// A chain takes as many enemy pieces off the board as it has jumps, and
/// puts no piece of the mover's colour on it.
pub proof fn lemma_chain_counts(b: Seq<u8>, color: u8, from: int, dirs: Seq<Dir>)
    requires
        b.len() == 64,
        valid_color(color),
        chain_ok(b, color, from, dirs),
    ensures
        chain_board(b, color, from, dirs).len() == 64,
        count(chain_board(b, color, from, dirs), enemy_of(color)) == count(b, enemy_of(color))
            - dirs.len(),
        count(chain_board(b, color, from, dirs), color) <= count(b, color),
    decreases dirs.len(),
{
    if dirs.len() > 0 {
        lemma_chain_unfold(b, color, from, base_move(color, from), dirs);
        lemma_jump_counts(b, color, from, dirs[0]);
        lemma_chain_counts(
            jump_board(b, color, from, dirs[0]),
            color,
            from + 2 * dirs[0].offset(),
            dirs.drop_first(),
        );
    }
}

/// A legal move that captures leaves fewer pieces on the board; one that
/// does not leaves as many.
pub proof fn lemma_legal_move_pieces(b: Seq<u8>, color: u8, m: MoveView)
    requires
        b.len() == 64,
        valid_color(color),
        is_legal(b, color, m),
    ensures
        played(b, m).len() == 64,
        m.captures.len() > 0 ==> count(played(b, m), WHITE) + count(played(b, m), BLACK) < count(
            b,
            WHITE,
        ) + count(b, BLACK),
        m.captures.len() == 0 ==> count(played(b, m), WHITE) + count(played(b, m), BLACK)
            == count(b, WHITE) + count(b, BLACK),
{
    let from = m.jumps[0] as int;
    lemma_square_move_shape(b, color, from, m);
    if is_capture_of(b, color, from, m) {
        let dirs = lemma_capture_tracks(b, color, from, m);
        lemma_chain_counts(b, color, from, dirs);
    } else {
        law_played_squares(b, color, from, m);
        let to = m.jumps.last() as int;
        let after = played(b, m);
        let piece = arrived_piece(b, m);
        assert(m.jumps[1] == to);
        assert(to != from);
        let b1 = b.update(to, piece);
        let b2 = b1.update(from, EMPTY);
        assert forall|x: int| 0 <= x < 64 implies after[x] == b2[x] by {
            if x != from && x != to {
                if m.captures.contains(x as u8) {
                    let i = choose|i: int| 0 <= i < m.captures.len() && m.captures[i] == x as u8;
                }
                assert(after[x] == b[x]);
            }
        }
        assert(after =~= b2);
        lemma_crown(b[from]);
        lemma_empty_has_no_bit(WHITE);
        lemma_empty_has_no_bit(BLACK);
        assert(b[to] == EMPTY);
        lemma_count_update(b, WHITE, to, piece, 64);
        lemma_count_update(b1, WHITE, from, EMPTY, 64);
        lemma_count_update(b, BLACK, to, piece, 64);
        lemma_count_update(b1, BLACK, from, EMPTY, 64);
    }
}

} // verus!
