//! What playing a move, and taking it back, does to the squares of a board.
//!
//! Both are stated for any move whose squares lie on the board, legal or not,
//! square by square.

use crate::checkers::{MoveView, EMPTY, KING};
use vstd::prelude::*;

verus! {

/// Every square that the move names lies on the board, and its path has a
/// first square.
pub open spec fn playable(m: MoveView) -> bool {
    &&& m.jumps.len() > 0
    &&& forall|i: int| 0 <= i < m.jumps.len() ==> #[trigger] m.jumps[i] < 64
    &&& forall|i: int| 0 <= i < m.captures.len() ==> #[trigger] m.captures[i] < 64
}

/// The move can be played, and it records a piece for each square it
/// captures.
pub open spec fn reversible(m: MoveView) -> bool {
    playable(m) && m.captures.len() <= m.captures_pieces.len()
}

/// Two squares in a row on the path are the same.
pub open spec fn stutters(path: Seq<u8>) -> bool {
    exists|i: int| 0 <= i < path.len() - 1 && #[trigger] path[i] == path[i + 1]
}

/// What a walk along `path` brings to the last square: the piece of the
/// first square, or nothing where the path stutters, since a step from a
/// square to itself clears it.
pub open spec fn carried(b: Seq<u8>, path: Seq<u8>) -> u8 {
    if stutters(path) {
        EMPTY
    } else {
        b[path[0] as int]
    }
}

/// The square `x` after a walk along `path`, each step of which moves what
/// stands on one square to the next and clears the square it left.
pub open spec fn walked_at(b: Seq<u8>, path: Seq<u8>, x: int) -> u8 {
    if x == path.last() {
        carried(b, path)
    } else if path.contains(x as u8) {
        EMPTY
    } else {
        b[x]
    }
}

/// The index of the last occurrence of `v` in `s`, or -1.
pub open spec fn last_index_of(s: Seq<u8>, v: u8) -> int
    decreases s.len(),
{
    if s.len() == 0 {
        -1
    } else if s.last() == v {
        s.len() - 1
    } else {
        last_index_of(s.drop_last(), v)
    }
}

/// The square `x` after `m` has been played on `b`: the mover walks along the
/// path, the captured squares are cleared, and the last square of the path
/// gets the king bit if the move promotes.
pub open spec fn played_at(b: Seq<u8>, m: MoveView, x: int) -> u8 {
    let cleared = if m.captures.contains(x as u8) {
        EMPTY
    } else {
        walked_at(b, m.jumps, x)
    };
    if m.is_king && x == m.jumps.last() {
        cleared | KING
    } else {
        cleared
    }
}

/// The board after `m` has been played on `b`.
pub open spec fn played(b: Seq<u8>, m: MoveView) -> Seq<u8> {
    Seq::new(b.len(), |x: int| played_at(b, m, x))
}

/// The square `x` after `m` has been taken back on `b`: the mover walks the
/// path backwards, each captured square gets its recorded piece (the last
/// record, where a square is named twice), and the first square of the path
/// loses the king bit if the move promoted.
pub open spec fn taken_back_at(b: Seq<u8>, m: MoveView, x: int) -> u8 {
    let restored = if m.captures.contains(x as u8) {
        m.captures_pieces[last_index_of(m.captures, x as u8)]
    } else {
        walked_at(b, m.jumps.reverse(), x)
    };
    if m.is_king && x == m.jumps[0] {
        restored & !KING
    } else {
        restored
    }
}

/// The board after `m` has been taken back on `b`.
pub open spec fn taken_back(b: Seq<u8>, m: MoveView) -> Seq<u8> {
    Seq::new(b.len(), |x: int| taken_back_at(b, m, x))
}

/// The board after a walk along `path`.
pub open spec fn walked(b: Seq<u8>, path: Seq<u8>) -> Seq<u8> {
    Seq::new(b.len(), |x: int| walked_at(b, path, x))
}

/// One more step of a walk: the next square takes what the walk has brought
/// so far, and the square it came from is cleared.
pub proof fn lemma_walk_step(b: Seq<u8>, path: Seq<u8>, n: int)
    requires
        b.len() == 64,
        1 <= n < path.len(),
        forall|i: int| 0 <= i < path.len() ==> #[trigger] path[i] < 64,
    ensures
        walked(b, path.subrange(0, n + 1)) == walked(b, path.subrange(0, n)).update(
            path[n] as int,
            walked(b, path.subrange(0, n))[path[n - 1] as int],
        ).update(path[n - 1] as int, EMPTY),
{
    let short = path.subrange(0, n);
    let long = path.subrange(0, n + 1);
    let before = walked(b, short);
    let after = before.update(path[n] as int, before[path[n - 1] as int]).update(
        path[n - 1] as int,
        EMPTY,
    );
    assert(short.last() == path[n - 1]);
    assert(long.last() == path[n]);
    assert(stutters(long) <==> stutters(short) || path[n - 1] == path[n]) by {
        if stutters(short) {
            let i = choose|i: int| 0 <= i < short.len() - 1 && #[trigger] short[i] == short[i + 1];
            assert(long[i] == long[i + 1]);
        }
        if path[n - 1] == path[n] {
            assert(long[n - 1] == long[n - 1 + 1]);
        }
        if stutters(long) {
            let i = choose|i: int| 0 <= i < long.len() - 1 && #[trigger] long[i] == long[i + 1];
            if i < n - 1 {
                assert(short[i] == short[i + 1]);
            }
        }
    }
    assert forall|x: int| 0 <= x < 64 implies walked(b, long)[x] == after[x] by {
        assert(long.contains(x as u8) <==> short.contains(x as u8) || x == path[n]) by {
            if short.contains(x as u8) {
                let i = choose|i: int| 0 <= i < short.len() && short[i] == x as u8;
                assert(long[i] == x as u8);
            }
            if x == path[n] {
                assert(long[n] == x as u8);
            }
            if long.contains(x as u8) {
                let i = choose|i: int| 0 <= i < long.len() && long[i] == x as u8;
                if i < n {
                    assert(short[i] == x as u8);
                }
            }
        }
        assert(short[n - 1] == path[n - 1]);
        assert(short[0] == long[0]);
    }
    assert(walked(b, long) =~= after);
}

/// A walk along a path of one square changes nothing.
pub proof fn lemma_walk_start(b: Seq<u8>, path: Seq<u8>)
    requires
        b.len() == 64,
        path.len() > 0,
        path[0] < 64,
    ensures
        walked(b, path.subrange(0, 1)) == b,
{
    let one = path.subrange(0, 1);
    assert(!stutters(one));
    assert forall|x: int| 0 <= x < 64 implies walked(b, one)[x] == b[x] by {
        if one.contains(x as u8) {
            let i = choose|i: int| 0 <= i < one.len() && one[i] == x as u8;
            assert(x == one.last());
        }
    }
    assert(walked(b, one) =~= b);
}

/// A square is among the first `k + 1` of `s` if it is among the first `k`
/// or is the next one.
pub proof fn lemma_contains_next(s: Seq<u8>, k: int, v: u8)
    requires
        0 <= k < s.len(),
    ensures
        s.subrange(0, k + 1).contains(v) <==> s.subrange(0, k).contains(v) || v == s[k],
{
    let done = s.subrange(0, k);
    let more = s.subrange(0, k + 1);
    if done.contains(v) {
        let j = choose|j: int| 0 <= j < done.len() && done[j] == v;
        assert(more[j] == v);
    }
    if v == s[k] {
        assert(more[k] == v);
    }
    if more.contains(v) {
        let j = choose|j: int| 0 <= j < more.len() && more[j] == v;
        if j < k {
            assert(done[j] == v);
        }
    }
}

/// The last occurrence of a square among the first `k + 1` of `s` is the
/// next one, if that is the square, and else the last among the first `k`.
pub proof fn lemma_last_index_next(s: Seq<u8>, k: int, v: u8)
    requires
        0 <= k < s.len(),
    ensures
        last_index_of(s.subrange(0, k + 1), v) == if s[k] == v {
            k
        } else {
            last_index_of(s.subrange(0, k), v)
        },
{
    let more = s.subrange(0, k + 1);
    assert(more.drop_last() =~= s.subrange(0, k));
    assert(more.last() == s[k]);
}

} // verus!
