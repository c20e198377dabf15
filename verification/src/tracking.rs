//! What holds of a board and of the move built so far while a chain of jumps
//! is followed, and what that gives once the move is played or taken back.

use crate::bits::{lemma_crown, lemma_empty_has_no_bit};
use crate::chains::lemma_chain_unfold;
use crate::checkers::{MoveView, EMPTY, KING};
use crate::replay::{
    last_index_of, played, played_at, playable, reversible, stutters, taken_back, taken_back_at,
};
use crate::rules::{
    back_rank, base_move, chain_board, chain_move, chain_ok, dark, enemy_of, hop_move, jump_board,
    jump_open, promotes, valid_color, Dir,
};
use vstd::prelude::*;

verus! {

/// 0 for the squares of the even ranks, 1 for those of the odd ranks.
pub open spec fn rank_parity(sq: int) -> int {
    (sq / 8) % 2
}

/// The piece that the move has carried to the end of its path.
pub open spec fn carried_piece(b0: Seq<u8>, cur: MoveView) -> u8 {
    if cur.is_king {
        b0[cur.jumps[0] as int] | KING
    } else {
        b0[cur.jumps[0] as int]
    }
}

/// The square `x` of the board that the jumps of `cur` leave of `b0`: the
/// mover stands at the end of the path, every other square of the path and
/// every captured square is empty, and nothing else has changed.
pub open spec fn tracked_at(b0: Seq<u8>, cur: MoveView, x: int) -> u8 {
    if x == cur.jumps.last() {
        carried_piece(b0, cur)
    } else if cur.jumps.contains(x as u8) || cur.captures.contains(x as u8) {
        EMPTY
    } else {
        b0[x]
    }
}

/// `cur` is a chain of jumps that was followed on `b0`, and `bd` is the
/// board that it has left. The mover stays on ranks of one parity and jumps
/// over squares of the other, so the path and the captures never meet.
pub open spec fn tracks(b0: Seq<u8>, color: u8, cur: MoveView, bd: Seq<u8>) -> bool {
    &&& b0.len() == 64
    &&& bd.len() == 64
    &&& cur.jumps.len() >= 1
    &&& cur.captures.len() == cur.jumps.len() - 1
    &&& cur.captures_pieces.len() == cur.captures.len()
    &&& forall|i: int|
        0 <= i < cur.jumps.len() ==> (#[trigger] cur.jumps[i]) < 64 && rank_parity(
            cur.jumps[i] as int,
        ) == rank_parity(cur.jumps[0] as int) && dark(cur.jumps[i] as int) == dark(
            cur.jumps[0] as int,
        )
    &&& forall|i: int|
        0 <= i < cur.captures.len() ==> (#[trigger] cur.captures[i]) < 64 && rank_parity(
            cur.captures[i] as int,
        ) != rank_parity(cur.jumps[0] as int) && cur.captures_pieces[i]
            == b0[cur.captures[i] as int]
    &&& forall|i: int| 0 <= i < cur.jumps.len() - 1 ==> (#[trigger] cur.jumps[i]) != cur.jumps[i + 1]
    &&& forall|i: int|
        1 <= i < cur.jumps.len() ==> (#[trigger] cur.jumps[i]) == cur.jumps[0]
            || b0[cur.jumps[i] as int] == EMPTY
    &&& cur.is_king <==> b0[cur.jumps[0] as int] & KING == 0 && exists|i: int|
        1 <= i < cur.jumps.len() && back_rank(color, (#[trigger] cur.jumps[i]) as int)
    &&& forall|x: int| 0 <= x < 64 ==> #[trigger] bd[x] == tracked_at(b0, cur, x)
}

/// A sequence with one more element holds what it held and the new element.
pub proof fn lemma_push_contains(s: Seq<u8>, v: u8, x: u8)
    ensures
        s.push(v).contains(x) <==> s.contains(x) || x == v,
{
    let t = s.push(v);
    if s.contains(x) {
        let i = choose|i: int| 0 <= i < s.len() && s[i] == x;
        assert(t[i] == x);
    }
    if x == v {
        assert(t[s.len() as int] == x);
    }
    if t.contains(x) {
        let i = choose|i: int| 0 <= i < t.len() && t[i] == x;
        if i < s.len() {
            assert(s[i] == x);
        }
    }
}

/// Before any jump the board is the board, and the move stands on its square.
pub proof fn lemma_tracks_start(b0: Seq<u8>, color: u8, from: int)
    requires
        b0.len() == 64,
        0 <= from < 64,
    ensures
        tracks(b0, color, base_move(color, from), b0),
{
    let cur = base_move(color, from);
    assert(cur.jumps[0] == from);
    assert forall|x: int| 0 <= x < 64 implies #[trigger] b0[x] == tracked_at(b0, cur, x) by {
        if cur.jumps.contains(x as u8) {
            let i = choose|i: int| 0 <= i < cur.jumps.len() && cur.jumps[i] == x as u8;
            assert(x == from);
        }
        if cur.captures.contains(x as u8) {
            let i = choose|i: int| 0 <= i < cur.captures.len() && cur.captures[i] == x as u8;
        }
    }
}

/// A jump lands on the parity of ranks it started from, over a square of the
/// other parity.
pub proof fn lemma_jump_parity(b: Seq<u8>, color: u8, from: int, d: Dir)
    requires
        jump_open(b, color, from, d),
    ensures
        0 <= from + d.offset() < 64,
        0 <= from + 2 * d.offset() < 64,
        from + d.offset() != from,
        from + 2 * d.offset() != from,
        from + 2 * d.offset() != from + d.offset(),
        rank_parity(from + 2 * d.offset()) == rank_parity(from),
        rank_parity(from + d.offset()) != rank_parity(from),
        dark(from + 2 * d.offset()) == dark(from),
{
}

/// One more jump keeps the board and the move in step.
pub proof fn lemma_hop_tracks(b0: Seq<u8>, color: u8, cur: MoveView, bd: Seq<u8>, d: Dir)
    requires
        valid_color(color),
        tracks(b0, color, cur, bd),
        jump_open(bd, color, cur.jumps.last() as int, d),
    ensures
        tracks(
            b0,
            color,
            hop_move(bd, color, cur.jumps.last() as int, cur, d),
            jump_board(bd, color, cur.jumps.last() as int, d),
        ),
{
    let n = cur.jumps.len() as int;
    let s0 = cur.jumps[0] as int;
    let pos = cur.jumps.last() as int;
    let mid = pos + d.offset();
    let land = pos + 2 * d.offset();
    let next = hop_move(bd, color, pos, cur, d);
    let after = jump_board(bd, color, pos, d);
    let p = b0[s0];
    lemma_jump_parity(bd, color, pos, d);
    lemma_crown(p);
    lemma_empty_has_no_bit(enemy_of(color));
    assert(cur.jumps[n - 1] == pos);
    assert(bd[pos] == tracked_at(b0, cur, pos));
    assert(bd[mid] == tracked_at(b0, cur, mid));
    assert(bd[land] == tracked_at(b0, cur, land));
    // The jumped square still holds what it held at the start.
    assert(bd[mid] != EMPTY);
    assert(bd[mid] == b0[mid]);
    // The landing square was empty at the start, unless it is the first square.
    assert(land == s0 || b0[land] == EMPTY) by {
        if cur.jumps.contains(land as u8) {
            let i = choose|i: int| 0 <= i < cur.jumps.len() && cur.jumps[i] == land as u8;
            assert(cur.jumps[i] == land);
        } else if cur.captures.contains(land as u8) {
            let i = choose|i: int| 0 <= i < cur.captures.len() && cur.captures[i] == land as u8;
            assert(cur.captures[i] == land);
        }
    }
    assert(next.jumps[0] == cur.jumps[0]);
    assert(next.jumps.last() == land);
    assert forall|i: int| 0 <= i < next.jumps.len() implies (#[trigger] next.jumps[i]) < 64
        && rank_parity(next.jumps[i] as int) == rank_parity(next.jumps[0] as int) && dark(
        next.jumps[i] as int,
    ) == dark(next.jumps[0] as int) by {
        if i < n {
            assert(next.jumps[i] == cur.jumps[i]);
        }
    }
    assert forall|i: int| 0 <= i < next.captures.len() implies (#[trigger] next.captures[i]) < 64
        && rank_parity(next.captures[i] as int) != rank_parity(next.jumps[0] as int)
        && next.captures_pieces[i] == b0[next.captures[i] as int] by {
        if i < n - 1 {
            assert(next.captures[i] == cur.captures[i]);
            assert(next.captures_pieces[i] == cur.captures_pieces[i]);
        }
    }
    assert forall|i: int| 0 <= i < next.jumps.len() - 1 implies (#[trigger] next.jumps[i])
        != next.jumps[i + 1] by {
        assert(next.jumps[i] == cur.jumps[i]);
        if i < n - 1 {
            assert(next.jumps[i + 1] == cur.jumps[i + 1]);
        }
    }
    assert forall|i: int| 1 <= i < next.jumps.len() implies (#[trigger] next.jumps[i])
        == next.jumps[0] || b0[next.jumps[i] as int] == EMPTY by {
        if i < n {
            assert(next.jumps[i] == cur.jumps[i]);
        }
    }
    assert(next.is_king <==> p & KING == 0 && exists|i: int|
        1 <= i < next.jumps.len() && back_rank(color, (#[trigger] next.jumps[i]) as int)) by {
        if cur.is_king {
            let i = choose|i: int|
                1 <= i < cur.jumps.len() && back_rank(color, (#[trigger] cur.jumps[i]) as int);
            assert(next.jumps[i] == cur.jumps[i]);
        }
        if promotes(color, bd[pos], land) {
            assert(next.jumps[n] == land);
            assert(back_rank(color, next.jumps[n] as int));
        }
        if p & KING == 0 && exists|i: int|
            1 <= i < next.jumps.len() && back_rank(color, (#[trigger] next.jumps[i]) as int) {
            let i = choose|i: int|
                1 <= i < next.jumps.len() && back_rank(color, (#[trigger] next.jumps[i]) as int);
            if i < n {
                assert(next.jumps[i] == cur.jumps[i]);
            }
        }
    }
    assert forall|x: int| 0 <= x < 64 implies #[trigger] after[x] == tracked_at(b0, next, x) by {
        lemma_push_contains(cur.jumps, land as u8, x as u8);
        lemma_push_contains(cur.captures, mid as u8, x as u8);
        assert(bd[x] == tracked_at(b0, cur, x));
        if x == pos {
            assert(cur.jumps.contains(x as u8));
        }
    }
}

/// A whole chain keeps the board and the move in step.
pub proof fn lemma_chain_tracks(
    b0: Seq<u8>,
    color: u8,
    cur: MoveView,
    bd: Seq<u8>,
    dirs: Seq<Dir>,
)
    requires
        valid_color(color),
        tracks(b0, color, cur, bd),
        chain_ok(bd, color, cur.jumps.last() as int, dirs),
    ensures
        tracks(
            b0,
            color,
            chain_move(bd, color, cur.jumps.last() as int, cur, dirs),
            chain_board(bd, color, cur.jumps.last() as int, dirs),
        ),
    decreases dirs.len(),
{
    let pos = cur.jumps.last() as int;
    if dirs.len() > 0 {
        lemma_chain_unfold(bd, color, pos, cur, dirs);
        lemma_hop_tracks(b0, color, cur, bd, dirs[0]);
        lemma_jump_parity(bd, color, pos, dirs[0]);
        let next = hop_move(bd, color, pos, cur, dirs[0]);
        assert(next.jumps.last() == pos + 2 * dirs[0].offset());
        lemma_chain_tracks(
            b0,
            color,
            next,
            jump_board(bd, color, pos, dirs[0]),
            dirs.drop_first(),
        );
    }
}

/// Where a sequence holds a value, its last index of that value is an index
/// at which it holds it.
pub proof fn lemma_last_index_found(s: Seq<u8>, v: u8)
    requires
        s.contains(v),
    ensures
        0 <= last_index_of(s, v) < s.len(),
        s[last_index_of(s, v)] == v,
    decreases s.len(),
{
    let i = choose|i: int| 0 <= i < s.len() && s[i] == v;
    if s.last() != v {
        let t = s.drop_last();
        assert(t[i] == v);
        lemma_last_index_found(t, v);
        assert(t[last_index_of(t, v)] == s[last_index_of(t, v)]);
    }
}

/// A path read backwards holds the same squares and stutters where the path
/// does.
pub proof fn lemma_reverse_path(path: Seq<u8>, v: u8)
    ensures
        path.reverse().contains(v) <==> path.contains(v),
        stutters(path.reverse()) <==> stutters(path),
{
    let rev = path.reverse();
    let n = path.len() as int;
    if path.contains(v) {
        let i = choose|i: int| 0 <= i < path.len() && path[i] == v;
        assert(rev[n - 1 - i] == v);
    }
    if rev.contains(v) {
        let i = choose|i: int| 0 <= i < rev.len() && rev[i] == v;
        assert(path[n - 1 - i] == v);
    }
    if stutters(path) {
        let i = choose|i: int| 0 <= i < path.len() - 1 && #[trigger] path[i] == path[i + 1];
        assert(rev[n - 2 - i] == path[i + 1]);
        assert(rev[n - 2 - i + 1] == path[i]);
    }
    if stutters(rev) {
        let i = choose|i: int| 0 <= i < rev.len() - 1 && #[trigger] rev[i] == rev[i + 1];
        assert(path[n - 2 - i] == rev[i + 1]);
        assert(path[n - 2 - i + 1] == rev[i]);
    }
}

/// No square of the path is a captured square.
pub proof fn lemma_path_misses_captures(
    b0: Seq<u8>,
    color: u8,
    cur: MoveView,
    bd: Seq<u8>,
    x: u8,
)
    requires
        tracks(b0, color, cur, bd),
    ensures
        !(cur.jumps.contains(x) && cur.captures.contains(x)),
{
    if cur.jumps.contains(x) && cur.captures.contains(x) {
        let i = choose|i: int| 0 <= i < cur.jumps.len() && cur.jumps[i] == x;
        let k = choose|k: int| 0 <= k < cur.captures.len() && cur.captures[k] == x;
        assert(cur.jumps[i] == cur.captures[k]);
    }
}

/// Playing a chain of jumps gives the board that the jumps have left, and
/// taking it back on that board gives the board from which it started.
pub proof fn lemma_tracks_replay(b0: Seq<u8>, color: u8, cur: MoveView, bd: Seq<u8>)
    requires
        tracks(b0, color, cur, bd),
    ensures
        playable(cur),
        reversible(cur),
        played(b0, cur) == bd,
        taken_back(bd, cur) == b0,
{
    let s0 = cur.jumps[0] as int;
    let pos = cur.jumps.last() as int;
    let p = b0[s0];
    lemma_crown(p);
    assert(!stutters(cur.jumps)) by {
        if stutters(cur.jumps) {
            let i = choose|i: int|
                0 <= i < cur.jumps.len() - 1 && #[trigger] cur.jumps[i] == cur.jumps[i + 1];
        }
    }
    assert(cur.jumps[cur.jumps.len() - 1] == pos);
    assert(cur.jumps.contains(pos as u8));
    assert(cur.jumps.contains(s0 as u8));
    assert forall|x: int| 0 <= x < 64 implies played_at(b0, cur, x) == bd[x] by {
        lemma_path_misses_captures(b0, color, cur, bd, x as u8);
        assert(bd[x] == tracked_at(b0, cur, x));
    }
    assert(played(b0, cur) =~= bd);
    let rev = cur.jumps.reverse();
    assert(rev.last() == cur.jumps[0]);
    assert(rev[0] == cur.jumps.last());
    assert forall|x: int| 0 <= x < 64 implies taken_back_at(bd, cur, x) == b0[x] by {
        lemma_reverse_path(cur.jumps, x as u8);
        lemma_path_misses_captures(b0, color, cur, bd, x as u8);
        assert(bd[x] == tracked_at(b0, cur, x));
        assert(bd[pos] == tracked_at(b0, cur, pos));
        if cur.captures.contains(x as u8) {
            lemma_last_index_found(cur.captures, x as u8);
            let k = last_index_of(cur.captures, x as u8);
            assert(cur.captures[k] == x);
        } else if x != s0 && cur.jumps.contains(x as u8) {
            let i = choose|i: int| 0 <= i < cur.jumps.len() && cur.jumps[i] == x as u8;
            assert(cur.jumps[i] == x);
        }
    }
    assert(taken_back(bd, cur) =~= b0);
}

} // verus!
