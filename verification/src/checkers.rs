//! The board, the moves, and the operations that generate, play and take back
//! moves.

use crate::bits::{lemma_crown, lemma_empty_has_no_bit};
use crate::chains::{
    lemma_chain_unfold, lemma_from_split, lemma_jump_counts, lemma_via_closed, lemma_via_split,
};
use crate::forced::{
    is_move_before, lemma_forced_are_legal, lemma_joined_by_origin,
    lemma_longest_are_square_moves, lemma_square_move_shape,
};
use crate::lists::{
    by_origin, captures_at_least, distinct, grown, holds, insert_unique, keep_capturing,
    lemma_distinct_joined, lemma_filter_by_origin, lemma_grown_distinct, lemma_grown_same,
    lemma_grown_twice, lemma_holds_joined, lemma_inserted, lemma_most_is_longest, most_captures,
    some_captures,
};
use crate::replay::{
    last_index_of, lemma_contains_next, lemma_last_index_next, lemma_walk_start, lemma_walk_step,
    playable, played, played_at, reversible, taken_back, taken_back_at, walked, walked_at,
};
use crate::rules::{
    base_move, chain_move, chain_ok, count, enemy_of, hop_move, is_candidate, is_capture_of,
    is_chain_from, is_chain_via, is_legal, is_square_move, is_step_of, jump_board, jump_open,
    may_head, neighbour_on_board, step_move, step_open, valid_color, Dir,
};
use crate::squares::{enemy, has_landing, has_neighbour, landing, neighbour, on_back_rank};
use vstd::prelude::*;

verus! {

/// Colour bit of the side that starts on ranks 0 to 2 and moves down the board.
pub const WHITE: u8 = 0b0001;

/// Colour bit of the side that starts on ranks 5 to 7 and moves up the board.
pub const BLACK: u8 = 0b0010;

/// Bit carried by a promoted piece, together with its colour bit.
pub const KING: u8 = 0b0100;

/// A white king.
pub const WHITE_KING: u8 = WHITE | KING;

/// A black king.
pub const BLACK_KING: u8 = BLACK | KING;

/// Value of a square that holds no piece.
pub const EMPTY: u8 = 0;

/// Mathematical value of a [`Move`].
#[verifier::ext_equal]
pub struct MoveView {
    pub jumps: Seq<u8>,
    pub captures: Seq<u8>,
    pub captures_pieces: Seq<u8>,
    pub is_king: bool,
    pub color: u8,
}

/// A path of squares, the squares captured along it with the pieces that stood
/// there, whether the mover is promoted when it arrives, and the mover's colour.
#[derive(Debug, Eq, Hash)]
pub struct Move {
    pub jumps: Vec<u8>,
    pub captures: Vec<u8>,
    pub captures_pieces: Vec<u8>,
    pub is_king: bool,
    pub color: u8,
}

impl View for Move {
    type V = MoveView;

    open spec fn view(&self) -> MoveView {
        MoveView {
            jumps: self.jumps@,
            captures: self.captures@,
            captures_pieces: self.captures_pieces@,
            is_king: self.is_king,
            color: self.color,
        }
    }
}

/// The values of a sequence of moves, in the same order.
pub open spec fn views(moves: Seq<Move>) -> Seq<MoveView> {
    moves.map_values(|m: Move| m@)
}

/// The move of `color` that visits no square yet.
pub open spec fn empty_move(color: u8) -> MoveView {
    MoveView {
        jumps: Seq::empty(),
        captures: Seq::empty(),
        captures_pieces: Seq::empty(),
        is_king: false,
        color,
    }
}

fn same_squares(a: &Vec<u8>, b: &Vec<u8>) -> (r: bool)
    ensures
        r == (a@ == b@),
{
    if a.len() != b.len() {
        return false;
    }
    let mut i: usize = 0;
    while i < a.len()
        invariant
            a.len() == b.len(),
            i <= a.len(),
            forall|k: int| 0 <= k < i ==> a@[k] == b@[k],
        decreases a.len() - i,
    {
        if a[i] != b[i] {
            return false;
        }
        i += 1;
    }
    assert(a@ =~= b@);
    true
}

fn copy_squares(a: &Vec<u8>) -> (r: Vec<u8>)
    ensures
        r@ == a@,
{
    let mut r: Vec<u8> = Vec::new();
    let mut i: usize = 0;
    while i < a.len()
        invariant
            i <= a.len(),
            r@ == a@.subrange(0, i as int),
        decreases a.len() - i,
    {
        r.push(a[i]);
        assert(r@ =~= a@.subrange(0, i + 1));
        i += 1;
    }
    assert(r@ =~= a@);
    r
}

impl Clone for Move {
    fn clone(&self) -> (r: Self)
        ensures
            r@ == self@,
    {
        Move {
            jumps: copy_squares(&self.jumps),
            captures: copy_squares(&self.captures),
            captures_pieces: copy_squares(&self.captures_pieces),
            is_king: self.is_king,
            color: self.color,
        }
    }
}

impl PartialEq for Move {
    fn eq(&self, other: &Move) -> (r: bool) {
        same_squares(&self.jumps, &other.jumps) && same_squares(&self.captures, &other.captures)
            && same_squares(&self.captures_pieces, &other.captures_pieces) && self.is_king
            == other.is_king && self.color == other.color
    }
}

impl vstd::std_specs::cmp::PartialEqSpecImpl for Move {
    open spec fn obeys_eq_spec() -> bool {
        true
    }

    open spec fn eq_spec(&self, other: &Move) -> bool {
        self@ == other@
    }
}

impl Move {
    /// A move of `color` with an empty path, no captures and no promotion.
    pub fn new(color: u8) -> (m: Move)
        ensures
            m@ == empty_move(color),
    {
        Move {
            jumps: Vec::new(),
            captures: Vec::new(),
            captures_pieces: Vec::new(),
            is_king: false,
            color,
        }
    }
}

/// Sixty-four squares in row-major order, square 0 at the top left, and the
/// side whose turn it is.
#[derive(Clone, Debug, PartialEq, Eq, Hash)]
pub struct Board {
    pub board: Vec<u8>,
    pub turn: u8,
}

impl View for Board {
    type V = Seq<u8>;

    open spec fn view(&self) -> Seq<u8> {
        self.board@
    }
}

/// What the square `i` holds before the first move: pieces stand on the
/// squares whose row and column add up to an odd number, white on ranks 0 to
/// 2 and black on ranks 5 to 7.
pub open spec fn initial_square(i: int) -> u8 {
    if (i / 8 + i % 8) % 2 == 1 && i / 8 < 3 {
        WHITE
    } else if (i / 8 + i % 8) % 2 == 1 && i / 8 > 4 {
        BLACK
    } else {
        EMPTY
    }
}

/// The squares of the standard starting position.
pub open spec fn initial_squares() -> Seq<u8> {
    Seq::new(64, |i: int| initial_square(i))
}

impl Board {
    /// A board has exactly sixty-four squares.
    pub open spec fn wf(&self) -> bool {
        self.board@.len() == 64
    }

    /// The standard starting position, white to move.
    pub fn new() -> (b: Board)
        ensures
            b.wf(),
            b@ == initial_squares(),
            b.turn == WHITE,
    {
        let mut board: Vec<u8> = Vec::new();
        let mut i: u8 = 0;
        while i < 64
            invariant
                i <= 64,
                board@.len() == i,
                forall|k: int| 0 <= k < i ==> board@[k] == initial_square(k),
            decreases 64 - i,
        {
            let mut square: u8 = EMPTY;
            if i < 8 {
                if i % 2 == 1 {
                    square = WHITE;
                }
            } else if i < 16 {
                if i % 2 == 0 {
                    square = WHITE;
                }
            } else if i < 24 {
                if i % 2 == 1 {
                    square = WHITE;
                }
            } else if i < 40 {
                square = EMPTY;
            } else if i < 48 {
                if i % 2 == 0 {
                    square = BLACK;
                }
            } else if i < 56 {
                if i % 2 == 1 {
                    square = BLACK;
                }
            } else {
                if i % 2 == 0 {
                    square = BLACK;
                }
            }
            board.push(square);
            i += 1;
        }
        assert(board@ =~= initial_squares());
        Board { board, turn: WHITE }
    }
}

impl Board {
    /// Plays `move_to_make`: the mover walks along the path, the captured
    /// squares are cleared, and the mover is crowned where the move promotes.
    pub fn make_move(&mut self, move_to_make: &Move)
        requires
            old(self).wf(),
            playable(move_to_make@),
        ensures
            final(self).wf(),
            final(self)@ == played(old(self)@, move_to_make@),
            final(self).turn == old(self).turn,
    {
        let ghost before = self@;
        let ghost path = move_to_make.jumps@;
        let ghost caps = move_to_make.captures@;
        let mut from: u8 = move_to_make.jumps[0];
        proof {
            assert(move_to_make@.jumps == path && move_to_make@.captures == caps);
            lemma_walk_start(before, path);
        }
        let mut i: usize = 1;
        while i < move_to_make.jumps.len()
            invariant
                self.wf(),
                self.turn == old(self).turn,
                before.len() == 64,
                path == move_to_make.jumps@,
                forall|j: int| 0 <= j < path.len() ==> #[trigger] path[j] < 64,
                1 <= i <= path.len(),
                from == path[i - 1],
                self@ == walked(before, path.subrange(0, i as int)),
            decreases path.len() - i,
        {
            let to: u8 = move_to_make.jumps[i];
            proof {
                lemma_walk_step(before, path, i as int);
            }
            self.board[to as usize] = self.board[from as usize];
            self.board[from as usize] = EMPTY;
            from = to;
            i += 1;
        }
        assert(path.subrange(0, path.len() as int) =~= path);
        let mut k: usize = 0;
        while k < move_to_make.captures.len()
            invariant
                self.wf(),
                self.turn == old(self).turn,
                before.len() == 64,
                path == move_to_make.jumps@,
                caps == move_to_make.captures@,
                forall|j: int| 0 <= j < caps.len() ==> #[trigger] caps[j] < 64,
                from == path.last(),
                from < 64,
                k <= caps.len(),
                forall|x: int|
                    0 <= x < 64 ==> #[trigger] self@[x] == if caps.subrange(0, k as int).contains(
                        x as u8,
                    ) {
                        EMPTY
                    } else {
                        walked_at(before, path, x)
                    },
            decreases caps.len() - k,
        {
            let sq: u8 = move_to_make.captures[k];
            let ghost prev = self@;
            self.board[sq as usize] = EMPTY;
            proof {
                assert(self@ == prev.update(sq as int, EMPTY));
                assert forall|x: int| 0 <= x < 64 implies #[trigger] self@[x] == if caps.subrange(
                    0,
                    k + 1,
                ).contains(x as u8) {
                    EMPTY
                } else {
                    walked_at(before, path, x)
                } by {
                    lemma_contains_next(caps, k as int, x as u8);
                    if x != sq {
                        assert(self@[x] == prev[x]);
                    }
                }
            }
            k += 1;
        }
        let ghost cleared = self@;
        if move_to_make.is_king {
            self.board[from as usize] = self.board[from as usize] | KING;
        }
        proof {
            assert(caps.subrange(0, caps.len() as int) =~= caps);
            assert forall|x: int| 0 <= x < 64 implies self@[x] == played_at(
                before,
                move_to_make@,
                x,
            ) by {
                assert(cleared[x] == if caps.contains(x as u8) {
                    EMPTY
                } else {
                    walked_at(before, path, x)
                });
            }
            assert(self@ =~= played(before, move_to_make@));
        }
    }

    /// Takes `move_to_undo` back: the mover walks the path backwards, the
    /// captured squares get their recorded pieces, and the mover loses the
    /// king bit where the move promoted.
    pub fn undo_move(&mut self, move_to_undo: &Move)
        requires
            old(self).wf(),
            reversible(move_to_undo@),
        ensures
            final(self).wf(),
            final(self)@ == taken_back(old(self)@, move_to_undo@),
            final(self).turn == old(self).turn,
    {
        let ghost before = self@;
        let ghost path = move_to_undo.jumps@.reverse();
        let ghost caps = move_to_undo.captures@;
        let ghost pieces = move_to_undo.captures_pieces@;
        let last: usize = move_to_undo.jumps.len() - 1;
        let mut from: u8 = move_to_undo.jumps[last];
        proof {
            assert(move_to_undo@.jumps == move_to_undo.jumps@ && move_to_undo@.captures == caps);
            assert forall|j: int| 0 <= j < path.len() implies #[trigger] path[j] < 64 by {
                assert(path[j] == move_to_undo.jumps@[path.len() - 1 - j]);
            }
            lemma_walk_start(before, path);
        }
        let mut i: usize = last;
        while i > 0
            invariant
                self.wf(),
                self.turn == old(self).turn,
                before.len() == 64,
                path == move_to_undo.jumps@.reverse(),
                last == path.len() - 1,
                forall|j: int| 0 <= j < path.len() ==> #[trigger] path[j] < 64,
                i <= last,
                from == move_to_undo.jumps@[i as int],
                self@ == walked(before, path.subrange(0, last - i + 1)),
            decreases i,
        {
            let to: u8 = move_to_undo.jumps[i - 1];
            proof {
                assert(path[last - i] == from);
                assert(path[last - i + 1] == to);
                lemma_walk_step(before, path, last - i + 1);
            }
            self.board[to as usize] = self.board[from as usize];
            self.board[from as usize] = EMPTY;
            from = to;
            i -= 1;
        }
        assert(path.subrange(0, path.len() as int) =~= path);
        let mut k: usize = 0;
        while k < move_to_undo.captures.len()
            invariant
                self.wf(),
                self.turn == old(self).turn,
                before.len() == 64,
                path == move_to_undo.jumps@.reverse(),
                caps == move_to_undo.captures@,
                pieces == move_to_undo.captures_pieces@,
                forall|j: int| 0 <= j < caps.len() ==> #[trigger] caps[j] < 64,
                caps.len() <= pieces.len(),
                from == move_to_undo.jumps@[0],
                from < 64,
                k <= caps.len(),
                forall|x: int|
                    0 <= x < 64 ==> #[trigger] self@[x] == if caps.subrange(0, k as int).contains(
                        x as u8,
                    ) {
                        pieces[last_index_of(caps.subrange(0, k as int), x as u8)]
                    } else {
                        walked_at(before, path, x)
                    },
            decreases caps.len() - k,
        {
            let sq: u8 = move_to_undo.captures[k];
            let ghost prev = self@;
            self.board[sq as usize] = move_to_undo.captures_pieces[k];
            proof {
                assert(self@ == prev.update(sq as int, pieces[k as int]));
                assert forall|x: int| 0 <= x < 64 implies #[trigger] self@[x] == if caps.subrange(
                    0,
                    k + 1,
                ).contains(x as u8) {
                    pieces[last_index_of(caps.subrange(0, k + 1), x as u8)]
                } else {
                    walked_at(before, path, x)
                } by {
                    lemma_contains_next(caps, k as int, x as u8);
                    lemma_last_index_next(caps, k as int, x as u8);
                    if x != sq {
                        assert(self@[x] == prev[x]);
                    }
                }
            }
            k += 1;
        }
        let ghost restored = self@;
        if move_to_undo.is_king {
            self.board[from as usize] = self.board[from as usize] & !KING;
        }
        proof {
            assert(caps.subrange(0, caps.len() as int) =~= caps);
            assert(move_to_undo@.jumps.reverse() == path);
            assert(move_to_undo@.captures_pieces == pieces);
            assert forall|x: int| 0 <= x < 64 implies self@[x] == taken_back_at(
                before,
                move_to_undo@,
                x,
            ) by {
                assert(restored[x] == if caps.contains(x as u8) {
                    pieces[last_index_of(caps, x as u8)]
                } else {
                    walked_at(before, path, x)
                });
            }
            assert(self@ =~= taken_back(before, move_to_undo@));
        }
    }
}

impl Board {
    /// Tries the jump of the piece on `from` in direction `d`. Where it is
    /// open, the jump is made on the board, `current_move` with that jump is
    /// added to `moves`, the chains that go on from the landing square are
    /// added too, and the board is put back as it was.
    fn try_jump(&mut self, color: u8, from: u8, d: Dir, current_move: &Move, moves: &mut Vec<Move>)
        requires
            old(self).wf(),
            valid_color(color),
            from < 64,
            may_head(old(self)@, color, from as int, d),
        ensures
            final(self)@ == old(self)@,
            final(self).turn == old(self).turn,
            grown(old(moves)@, final(moves)@),
            forall|mv: MoveView| #[trigger]
                holds(final(moves)@, mv) <==> holds(old(moves)@, mv) || is_chain_via(
                    old(self)@,
                    color,
                    from as int,
                    d,
                    current_move@,
                    mv,
                ),
        decreases count(old(self)@, enemy_of(color)), 0int,
    {
        let ghost b0 = self@;
        let ghost before = moves@;
        let ghost cur = current_move@;
        proof {
            lemma_grown_same(before);
        }
        if !has_landing(from, d) {
            proof {
                assert forall|mv: MoveView| !is_chain_via(b0, color, from as int, d, cur, mv) by {
                    lemma_via_closed(b0, color, from as int, d, cur, mv);
                }
            }
            return ;
        }
        let mid: u8 = neighbour(from, d);
        let to: u8 = landing(from, d);
        if self.board[mid as usize] & enemy(color) == 0 || self.board[to as usize] != EMPTY {
            proof {
                assert forall|mv: MoveView| !is_chain_via(b0, color, from as int, d, cur, mv) by {
                    lemma_via_closed(b0, color, from as int, d, cur, mv);
                }
            }
            return ;
        }
        let mut new_move: Move = current_move.clone();
        new_move.jumps.push(to);
        new_move.captures.push(mid);
        let captured: u8 = self.board[mid as usize];
        new_move.captures_pieces.push(captured);
        let piece: u8 = self.board[from as usize];
        self.board[mid as usize] = EMPTY;
        self.board[to as usize] = piece;
        let mut kinged: bool = false;
        if on_back_rank(color, to) {
            if piece & KING == 0 {
                self.board[to as usize] = piece | KING;
                new_move.is_king = true;
                kinged = true;
            }
        }
        self.board[from as usize] = EMPTY;
        let ghost b1 = self@;
        let ghost cur1 = new_move@;
        proof {
            assert(b1 =~= jump_board(b0, color, from as int, d));
            assert(cur1 =~= hop_move(b0, color, from as int, cur, d));
            lemma_jump_counts(b0, color, from as int, d);
        }
        let found: Move = new_move.clone();
        let ghost added = found;
        insert_unique(moves, found);
        let ghost with_hop = moves@;
        proof {
            lemma_inserted(before, added, with_hop);
        }
        if color == BLACK {
            self.search_attack_black(to, new_move, moves);
        } else {
            self.search_attack_white(to, new_move, moves);
        }
        self.board[from as usize] = self.board[to as usize];
        if kinged {
            self.board[from as usize] = self.board[from as usize] & !KING;
        }
        self.board[to as usize] = EMPTY;
        self.board[mid as usize] = captured;
        proof {
            lemma_crown(piece);
            assert(self@ =~= b0);
            lemma_grown_twice(before, with_hop, moves@);
            assert forall|mv: MoveView| #[trigger]
                holds(moves@, mv) <==> holds(before, mv) || is_chain_via(
                    b0,
                    color,
                    from as int,
                    d,
                    cur,
                    mv,
                ) by {
                lemma_via_split(b0, color, from as int, d, cur, mv);
                assert(holds(with_hop, mv) <==> holds(before, mv) || mv == cur1);
            }
        }
    }

    /// Adds to `moves` every chain of jumps that a black piece on `from` can
    /// make, each as `current_move` followed by the jumps, and leaves the
    /// board as it was. A chain may stop after any of its jumps, so every
    /// beginning of a chain is added as well.
    pub fn search_attack_black(&mut self, from: u8, current_move: Move, moves: &mut Vec<Move>)
        requires
            old(self).wf(),
            from < 64,
        ensures
            final(self)@ == old(self)@,
            final(self).turn == old(self).turn,
            grown(old(moves)@, final(moves)@),
            forall|mv: MoveView| #[trigger]
                holds(final(moves)@, mv) <==> holds(old(moves)@, mv) || is_chain_from(
                    old(self)@,
                    BLACK,
                    from as int,
                    current_move@,
                    mv,
                ),
        decreases count(old(self)@, WHITE), 1int,
    {
        let ghost b0 = self@;
        let ghost m0 = moves@;
        let ghost cur = current_move@;
        proof {
            lemma_grown_same(m0);
        }
        if from > 15 {
            self.try_jump(BLACK, from, Dir::UpLeft, &current_move, moves);
            let ghost m1 = moves@;
            self.try_jump(BLACK, from, Dir::UpRight, &current_move, moves);
            proof {
                lemma_grown_twice(m0, m1, moves@);
            }
        } else {
            proof {
                assert forall|mv: MoveView|
                    !is_chain_via(b0, BLACK, from as int, Dir::UpLeft, cur, mv) && !is_chain_via(
                        b0,
                        BLACK,
                        from as int,
                        Dir::UpRight,
                        cur,
                        mv,
                    ) by {
                    lemma_via_closed(b0, BLACK, from as int, Dir::UpLeft, cur, mv);
                    lemma_via_closed(b0, BLACK, from as int, Dir::UpRight, cur, mv);
                }
            }
        }
        let ghost m2 = moves@;
        if self.board[from as usize] & KING != 0 && from < 48 {
            self.try_jump(BLACK, from, Dir::DownLeft, &current_move, moves);
            let ghost m3 = moves@;
            self.try_jump(BLACK, from, Dir::DownRight, &current_move, moves);
            proof {
                lemma_grown_twice(m2, m3, moves@);
                lemma_grown_twice(m0, m2, moves@);
            }
        } else {
            proof {
                assert forall|mv: MoveView|
                    !is_chain_via(b0, BLACK, from as int, Dir::DownLeft, cur, mv) && !is_chain_via(
                        b0,
                        BLACK,
                        from as int,
                        Dir::DownRight,
                        cur,
                        mv,
                    ) by {
                    lemma_via_closed(b0, BLACK, from as int, Dir::DownLeft, cur, mv);
                    lemma_via_closed(b0, BLACK, from as int, Dir::DownRight, cur, mv);
                }
            }
        }
        proof {
            assert forall|mv: MoveView| #[trigger]
                holds(moves@, mv) <==> holds(m0, mv) || is_chain_from(
                    b0,
                    BLACK,
                    from as int,
                    cur,
                    mv,
                ) by {
                lemma_from_split(b0, BLACK, from as int, cur, mv);
            }
        }
    }

    /// Adds to `moves` every chain of jumps that a white piece on `from` can
    /// make, each as `current_move` followed by the jumps, and leaves the
    /// board as it was. A chain may stop after any of its jumps, so every
    /// beginning of a chain is added as well.
    pub fn search_attack_white(&mut self, from: u8, current_move: Move, moves: &mut Vec<Move>)
        requires
            old(self).wf(),
            from < 64,
        ensures
            final(self)@ == old(self)@,
            final(self).turn == old(self).turn,
            grown(old(moves)@, final(moves)@),
            forall|mv: MoveView| #[trigger]
                holds(final(moves)@, mv) <==> holds(old(moves)@, mv) || is_chain_from(
                    old(self)@,
                    WHITE,
                    from as int,
                    current_move@,
                    mv,
                ),
        decreases count(old(self)@, BLACK), 1int,
    {
        let ghost b0 = self@;
        let ghost m0 = moves@;
        let ghost cur = current_move@;
        proof {
            lemma_grown_same(m0);
        }
        if from < 48 {
            self.try_jump(WHITE, from, Dir::DownRight, &current_move, moves);
            let ghost m1 = moves@;
            self.try_jump(WHITE, from, Dir::DownLeft, &current_move, moves);
            proof {
                lemma_grown_twice(m0, m1, moves@);
            }
        } else {
            proof {
                assert forall|mv: MoveView|
                    !is_chain_via(b0, WHITE, from as int, Dir::DownLeft, cur, mv) && !is_chain_via(
                        b0,
                        WHITE,
                        from as int,
                        Dir::DownRight,
                        cur,
                        mv,
                    ) by {
                    lemma_via_closed(b0, WHITE, from as int, Dir::DownLeft, cur, mv);
                    lemma_via_closed(b0, WHITE, from as int, Dir::DownRight, cur, mv);
                }
            }
        }
        let ghost m2 = moves@;
        if self.board[from as usize] & KING != 0 && from > 15 {
            self.try_jump(WHITE, from, Dir::UpRight, &current_move, moves);
            let ghost m3 = moves@;
            self.try_jump(WHITE, from, Dir::UpLeft, &current_move, moves);
            proof {
                lemma_grown_twice(m2, m3, moves@);
                lemma_grown_twice(m0, m2, moves@);
            }
        } else {
            proof {
                assert forall|mv: MoveView|
                    !is_chain_via(b0, WHITE, from as int, Dir::UpLeft, cur, mv) && !is_chain_via(
                        b0,
                        WHITE,
                        from as int,
                        Dir::UpRight,
                        cur,
                        mv,
                    ) by {
                    lemma_via_closed(b0, WHITE, from as int, Dir::UpLeft, cur, mv);
                    lemma_via_closed(b0, WHITE, from as int, Dir::UpRight, cur, mv);
                }
            }
        }
        proof {
            assert forall|mv: MoveView| #[trigger]
                holds(moves@, mv) <==> holds(m0, mv) || is_chain_from(
                    b0,
                    WHITE,
                    from as int,
                    cur,
                    mv,
                ) by {
                lemma_from_split(b0, WHITE, from as int, cur, mv);
            }
        }
    }
}

/// The neighbour of `from` in direction `d` holds an enemy piece, and the
/// file of `from` leaves room to land behind it.
pub open spec fn sees_enemy(b: Seq<u8>, color: u8, from: int, d: Dir) -> bool {
    &&& neighbour_on_board(from, d)
    &&& b[from + d.offset()] != EMPTY
    &&& b[from + d.offset()] & enemy_of(color) != 0
    &&& if d.leftward() {
        from % 8 > 1
    } else {
        from % 8 < 6
    }
}

/// What looking in direction `d` from `from` adds to the candidates: the
/// slide to that neighbour, or, where an enemy piece stands there, every
/// capture of the piece on `from`.
pub open spec fn found_towards(b: Seq<u8>, color: u8, from: int, d: Dir, m: MoveView) -> bool {
    ||| step_open(b, color, from, d) && m == step_move(b, color, from, d)
    ||| sees_enemy(b, color, from, d) && is_capture_of(b, color, from, m)
}

/// After a look in every direction that the piece on `from` may head in,
/// the list holds the candidates of that square.
proof fn lemma_looked_around(b: Seq<u8>, color: u8, from: int, m: MoveView)
    requires
        b.len() == 64,
        0 <= from < 64,
    ensures
        is_candidate(b, color, from, m) <==> exists|d: Dir|
            may_head(b, color, from, d) && #[trigger] found_towards(b, color, from, d, m),
{
    if is_step_of(b, color, from, m) {
        let d = choose|d: Dir| #[trigger]
            step_open(b, color, from, d) && m == step_move(b, color, from, d);
        assert(found_towards(b, color, from, d, m));
    }
    if is_capture_of(b, color, from, m) {
        let dirs = choose|dirs: Seq<Dir>|
            dirs.len() > 0 && #[trigger] chain_ok(b, color, from, dirs) && m == chain_move(
                b,
                color,
                from,
                base_move(color, from),
                dirs,
            );
        lemma_chain_unfold(b, color, from, base_move(color, from), dirs);
        let d = dirs[0];
        assert(jump_open(b, color, from, d));
        lemma_empty_has_no_bit(enemy_of(color));
        assert(found_towards(b, color, from, d, m));
    }
}

impl Board {
    /// Looks from `from` in direction `d`. Where the neighbour is empty the
    /// slide to it is added to `moves`; where it holds an enemy piece with
    /// room behind it on the board, the captures of the piece on `from` are.
    fn try_step(&mut self, color: u8, from: u8, d: Dir, current_move: &Move, moves: &mut Vec<Move>)
        requires
            old(self).wf(),
            valid_color(color),
            from < 64,
            may_head(old(self)@, color, from as int, d),
            current_move@ == base_move(color, from as int),
        ensures
            final(self)@ == old(self)@,
            final(self).turn == old(self).turn,
            grown(old(moves)@, final(moves)@),
            forall|mv: MoveView| #[trigger]
                holds(final(moves)@, mv) <==> holds(old(moves)@, mv) || found_towards(
                    old(self)@,
                    color,
                    from as int,
                    d,
                    mv,
                ),
    {
        let ghost b0 = self@;
        let ghost before = moves@;
        proof {
            lemma_grown_same(before);
            lemma_empty_has_no_bit(enemy_of(color));
        }
        if !has_neighbour(from, d) {
            return ;
        }
        let to: u8 = neighbour(from, d);
        if self.board[to as usize] == EMPTY {
            let mut new_move: Move = current_move.clone();
            new_move.jumps.push(to);
            if on_back_rank(color, to) && self.board[from as usize] & KING == 0 {
                new_move.is_king = true;
            }
            let ghost added = new_move;
            proof {
                assert(new_move@ =~= step_move(b0, color, from as int, d));
            }
            insert_unique(moves, new_move);
            proof {
                lemma_inserted(before, added, moves@);
            }
        } else {
            let room: bool = match d {
                Dir::UpLeft | Dir::DownLeft => from % 8 > 1,
                Dir::UpRight | Dir::DownRight => from % 8 < 6,
            };
            if self.board[to as usize] & enemy(color) != 0 && room {
                if color == BLACK {
                    self.search_attack_black(from, current_move.clone(), moves);
                } else {
                    self.search_attack_white(from, current_move.clone(), moves);
                }
            }
        }
    }

    /// The moves of the black piece on `from`, taken by itself: its longest
    /// captures where it can capture, and else its slides. No move is listed
    /// twice, and the board is left as it was.
    pub fn search_black(&mut self, from: u8) -> (result: Vec<Move>)
        requires
            old(self).wf(),
            from < 64,
        ensures
            final(self)@ == old(self)@,
            final(self).turn == old(self).turn,
            distinct(result@),
            forall|mv: MoveView| #[trigger]
                holds(result@, mv) <==> is_square_move(old(self)@, BLACK, from as int, mv),
    {
        let ghost b0 = self@;
        let mut moves: Vec<Move> = Vec::new();
        let mut current_move: Move = Move::new(BLACK);
        current_move.jumps.push(from);
        assert(current_move@ =~= base_move(BLACK, from as int));
        let ghost m0 = moves@;
        self.try_step(BLACK, from, Dir::UpLeft, &current_move, &mut moves);
        let ghost m1 = moves@;
        self.try_step(BLACK, from, Dir::UpRight, &current_move, &mut moves);
        let ghost m2 = moves@;
        if self.board[from as usize] & KING != 0 {
            self.try_step(BLACK, from, Dir::DownLeft, &current_move, &mut moves);
            let ghost m3 = moves@;
            self.try_step(BLACK, from, Dir::DownRight, &current_move, &mut moves);
            proof {
                lemma_grown_twice(m2, m3, moves@);
            }
        } else {
            proof {
                lemma_grown_same(m2);
            }
        }
        proof {
            lemma_grown_twice(m0, m1, m2);
            lemma_grown_twice(m0, m2, moves@);
            lemma_grown_distinct(m0, moves@);
            assert forall|mv: MoveView| #[trigger]
                holds(moves@, mv) <==> is_candidate(b0, BLACK, from as int, mv) by {
                lemma_looked_around(b0, BLACK, from as int, mv);
                assert(!holds(m0, mv));
            }
        }
        let max_captures: usize = most_captures(&moves);
        let result: Vec<Move> = keep_capturing(&moves, max_captures);
        proof {
            assert forall|mv: MoveView| #[trigger]
                holds(result@, mv) <==> is_square_move(b0, BLACK, from as int, mv) by {
                lemma_longest_are_square_moves(b0, BLACK, from as int, moves@, mv);
                if holds(moves@, mv) {
                    lemma_most_is_longest(moves@, max_captures as nat, mv);
                }
            }
        }
        result
    }

    /// The moves of the white piece on `from`, taken by itself: its longest
    /// captures where it can capture, and else its slides. No move is listed
    /// twice, and the board is left as it was.
    pub fn search_white(&mut self, from: u8) -> (result: Vec<Move>)
        requires
            old(self).wf(),
            from < 64,
        ensures
            final(self)@ == old(self)@,
            final(self).turn == old(self).turn,
            distinct(result@),
            forall|mv: MoveView| #[trigger]
                holds(result@, mv) <==> is_square_move(old(self)@, WHITE, from as int, mv),
    {
        let ghost b0 = self@;
        let mut moves: Vec<Move> = Vec::new();
        let mut current_move: Move = Move::new(WHITE);
        current_move.jumps.push(from);
        assert(current_move@ =~= base_move(WHITE, from as int));
        let ghost m0 = moves@;
        self.try_step(WHITE, from, Dir::DownLeft, &current_move, &mut moves);
        let ghost m1 = moves@;
        self.try_step(WHITE, from, Dir::DownRight, &current_move, &mut moves);
        let ghost m2 = moves@;
        if self.board[from as usize] & KING != 0 {
            self.try_step(WHITE, from, Dir::UpLeft, &current_move, &mut moves);
            let ghost m3 = moves@;
            self.try_step(WHITE, from, Dir::UpRight, &current_move, &mut moves);
            proof {
                lemma_grown_twice(m2, m3, moves@);
            }
        } else {
            proof {
                lemma_grown_same(m2);
            }
        }
        proof {
            lemma_grown_twice(m0, m1, m2);
            lemma_grown_twice(m0, m2, moves@);
            lemma_grown_distinct(m0, moves@);
            assert forall|mv: MoveView| #[trigger]
                holds(moves@, mv) <==> is_candidate(b0, WHITE, from as int, mv) by {
                lemma_looked_around(b0, WHITE, from as int, mv);
                assert(!holds(m0, mv));
            }
        }
        let max_captures: usize = most_captures(&moves);
        let result: Vec<Move> = keep_capturing(&moves, max_captures);
        proof {
            assert forall|mv: MoveView| #[trigger]
                holds(result@, mv) <==> is_square_move(b0, WHITE, from as int, mv) by {
                lemma_longest_are_square_moves(b0, WHITE, from as int, moves@, mv);
                if holds(moves@, mv) {
                    lemma_most_is_longest(moves@, max_captures as nat, mv);
                }
            }
        }
        result
    }
}

impl Board {
    /// The legal moves of black: the moves of each black piece, taken square by
    /// square from square 0 on, and only the capturing ones as soon as any of
    /// them captures. No move is listed twice, and the board is left as it
    /// was.
    pub fn search_black_all(&mut self) -> (result: Vec<Move>)
        requires
            old(self).wf(),
        ensures
            final(self)@ == old(self)@,
            final(self).turn == old(self).turn,
            distinct(result@),
            by_origin(views(result@)),
            forall|mv: MoveView| #[trigger] holds(result@, mv) <==> is_legal(old(self)@, BLACK, mv),
    {
        let ghost b0 = self@;
        let mut moves: Vec<Move> = Vec::new();
        let mut i: u8 = 0;
        while i < 64
            invariant
                i <= 64,
                self.wf(),
                self@ == b0,
                self.turn == old(self).turn,
                distinct(moves@),
                by_origin(views(moves@)),
                forall|mv: MoveView| #[trigger]
                    holds(moves@, mv) <==> is_move_before(b0, BLACK, i as int, mv),
            decreases 64 - i,
        {
            let ghost sofar = moves@;
            if self.board[i as usize] & BLACK != 0 {
                let mut m: Vec<Move> = self.search_black(i);
                let ghost found = m@;
                moves.append(&mut m);
                proof {
                    assert forall|mv: MoveView| !(holds(sofar, mv) && holds(found, mv)) by {
                        if holds(found, mv) {
                            lemma_square_move_shape(b0, BLACK, i as int, mv);
                        }
                    }
                    lemma_distinct_joined(sofar, found);
                    lemma_joined_by_origin(b0, BLACK, i as int, sofar, found);
                    assert forall|mv: MoveView| #[trigger]
                        holds(moves@, mv) <==> is_move_before(b0, BLACK, i + 1, mv) by {
                        lemma_holds_joined(sofar, found, mv);
                        if holds(found, mv) {
                            lemma_square_move_shape(b0, BLACK, i as int, mv);
                        }
                    }
                }
            }
            i += 1;
        }
        let captures: bool = most_captures(&moves) > 0;
        let least: usize = if captures {
            1
        } else {
            0
        };
        let result: Vec<Move> = keep_capturing(&moves, least);
        proof {
            assert(captures == some_captures(moves@));
            lemma_filter_by_origin(views(moves@), captures_at_least(least as nat));
            assert forall|mv: MoveView| #[trigger]
                holds(result@, mv) <==> is_legal(b0, BLACK, mv) by {
                lemma_forced_are_legal(b0, BLACK, moves@, mv);
            }
        }
        result
    }

    /// The legal moves of white: the moves of each white piece, taken square by
    /// square from square 0 on, and only the capturing ones as soon as any of
    /// them captures. No move is listed twice, and the board is left as it
    /// was.
    pub fn search_white_all(&mut self) -> (result: Vec<Move>)
        requires
            old(self).wf(),
        ensures
            final(self)@ == old(self)@,
            final(self).turn == old(self).turn,
            distinct(result@),
            by_origin(views(result@)),
            forall|mv: MoveView| #[trigger] holds(result@, mv) <==> is_legal(old(self)@, WHITE, mv),
    {
        let ghost b0 = self@;
        let mut moves: Vec<Move> = Vec::new();
        let mut i: u8 = 0;
        while i < 64
            invariant
                i <= 64,
                self.wf(),
                self@ == b0,
                self.turn == old(self).turn,
                distinct(moves@),
                by_origin(views(moves@)),
                forall|mv: MoveView| #[trigger]
                    holds(moves@, mv) <==> is_move_before(b0, WHITE, i as int, mv),
            decreases 64 - i,
        {
            let ghost sofar = moves@;
            if self.board[i as usize] & WHITE != 0 {
                let mut m: Vec<Move> = self.search_white(i);
                let ghost found = m@;
                moves.append(&mut m);
                proof {
                    assert forall|mv: MoveView| !(holds(sofar, mv) && holds(found, mv)) by {
                        if holds(found, mv) {
                            lemma_square_move_shape(b0, WHITE, i as int, mv);
                        }
                    }
                    lemma_distinct_joined(sofar, found);
                    lemma_joined_by_origin(b0, WHITE, i as int, sofar, found);
                    assert forall|mv: MoveView| #[trigger]
                        holds(moves@, mv) <==> is_move_before(b0, WHITE, i + 1, mv) by {
                        lemma_holds_joined(sofar, found, mv);
                        if holds(found, mv) {
                            lemma_square_move_shape(b0, WHITE, i as int, mv);
                        }
                    }
                }
            }
            i += 1;
        }
        let captures: bool = most_captures(&moves) > 0;
        let least: usize = if captures {
            1
        } else {
            0
        };
        let result: Vec<Move> = keep_capturing(&moves, least);
        proof {
            assert(captures == some_captures(moves@));
            lemma_filter_by_origin(views(moves@), captures_at_least(least as nat));
            assert forall|mv: MoveView| #[trigger]
                holds(result@, mv) <==> is_legal(b0, WHITE, mv) by {
                lemma_forced_are_legal(b0, WHITE, moves@, mv);
            }
        }
        result
    }
}

} // verus!
