//! Lists of moves in which no value occurs twice.
//!
//! Such a list stands for a set of moves. Unlike a hash set it has an order
//! that is the same on every run, which is what decides between moves that
//! are equally good.

use crate::checkers::{views, Move, MoveView};
use vstd::prelude::*;

verus! {

/// `m` is the value of one of `moves`.
pub open spec fn holds(moves: Seq<Move>, m: MoveView) -> bool {
    exists|i: int| 0 <= i < moves.len() && (#[trigger] moves[i])@ == m
}

/// From index `n` on, no move of `moves` has the value of a move before it.
pub open spec fn fresh_from(moves: Seq<Move>, n: int) -> bool {
    forall|i: int, j: int|
        0 <= i < j < moves.len() && n <= j ==> (#[trigger] moves[i])@ != (#[trigger] moves[j])@
}

/// No two moves of `moves` have the same value.
pub open spec fn distinct(moves: Seq<Move>) -> bool {
    fresh_from(moves, 0)
}

/// `after` is `before` with moves added at its end, each with a value that no
/// move before it has.
pub open spec fn grown(before: Seq<Move>, after: Seq<Move>) -> bool {
    &&& before.len() <= after.len()
    &&& after.subrange(0, before.len() as int) == before
    &&& fresh_from(after, before.len() as int)
}

/// What adding a move to a list without repeats, unless its value is there
/// already, does to the list.
pub proof fn lemma_inserted(before: Seq<Move>, m: Move, after: Seq<Move>)
    requires
        after == if holds(before, m@) {
            before
        } else {
            before.push(m)
        },
    ensures
        grown(before, after),
        forall|mv: MoveView| #[trigger] holds(after, mv) <==> holds(before, mv) || mv == m@,
{
    assert(after.subrange(0, before.len() as int) =~= before);
    assert forall|mv: MoveView| #[trigger] holds(after, mv) <==> holds(before, mv) || mv
        == m@ by {
        if holds(before, mv) {
            let i = choose|i: int| 0 <= i < before.len() && (#[trigger] before[i])@ == mv;
            assert(after[i]@ == mv);
        }
        if mv == m@ && !holds(before, m@) {
            assert(after[before.len() as int]@ == mv);
        }
        if holds(after, mv) {
            let i = choose|i: int| 0 <= i < after.len() && (#[trigger] after[i])@ == mv;
            if i < before.len() {
                assert(before[i]@ == mv);
            }
        }
    }
    assert forall|i: int, j: int| 0 <= i < j < after.len() && before.len() <= j implies (
    #[trigger] after[i])@ != (#[trigger] after[j])@ by {
        assert(before[i]@ == after[i]@);
    }
}

/// Growing twice is growing.
pub proof fn lemma_grown_twice(a: Seq<Move>, b: Seq<Move>, c: Seq<Move>)
    requires
        grown(a, b),
        grown(b, c),
    ensures
        grown(a, c),
{
    assert(c.subrange(0, a.len() as int) =~= a) by {
        assert forall|i: int| 0 <= i < a.len() implies c[i] == a[i] by {
            assert(c.subrange(0, b.len() as int)[i] == b[i]);
            assert(b.subrange(0, a.len() as int)[i] == a[i]);
        }
    }
    assert forall|i: int, j: int| 0 <= i < j < c.len() && a.len() <= j implies (#[trigger] c[i])@
        != (#[trigger] c[j])@ by {
        if j < b.len() {
            assert(c.subrange(0, b.len() as int)[i] == b[i]);
            assert(c.subrange(0, b.len() as int)[j] == b[j]);
        }
    }
}

/// A list grows from itself.
pub proof fn lemma_grown_same(a: Seq<Move>)
    ensures
        grown(a, a),
{
    assert(a.subrange(0, a.len() as int) =~= a);
}

/// Adds `m` at the end of `moves`, unless a move of that value is there.
pub(crate) fn insert_unique(moves: &mut Vec<Move>, m: Move)
    ensures
        final(moves)@ == if holds(old(moves)@, m@) {
            old(moves)@
        } else {
            old(moves)@.push(m)
        },
{
    let mut i: usize = 0;
    while i < moves.len()
        invariant
            i <= moves.len(),
            moves@ == old(moves)@,
            forall|k: int| 0 <= k < i ==> (#[trigger] moves@[k])@ != m@,
        decreases moves.len() - i,
    {
        if moves[i] == m {
            return ;
        }
        i += 1;
    }
    moves.push(m);
}

/// A list without repeats that grows has no repeats.
pub proof fn lemma_grown_distinct(a: Seq<Move>, b: Seq<Move>)
    requires
        distinct(a),
        grown(a, b),
    ensures
        distinct(b),
{
    assert forall|i: int, j: int| 0 <= i < j < b.len() implies (#[trigger] b[i])@ != (
    #[trigger] b[j])@ by {
        if j < a.len() {
            assert(b.subrange(0, a.len() as int)[i] == a[i]);
            assert(b.subrange(0, a.len() as int)[j] == a[j]);
        }
    }
}

/// No move of `moves` captures more than `n` pieces.
pub open spec fn none_captures_more(moves: Seq<Move>, n: nat) -> bool {
    forall|k: int| 0 <= k < moves.len() ==> (#[trigger] moves[k])@.captures.len() <= n
}

/// Some move of `moves` captures a piece.
pub open spec fn some_captures(moves: Seq<Move>) -> bool {
    exists|k: int| 0 <= k < moves.len() && (#[trigger] moves[k])@.captures.len() > 0
}

/// `m` is the value of one of the first `n` of `moves`.
pub open spec fn holds_before(moves: Seq<Move>, n: int, m: MoveView) -> bool {
    exists|k: int| 0 <= k < n && k < moves.len() && (#[trigger] moves[k])@ == m
}

/// A list followed by another holds what either holds.
pub proof fn lemma_holds_joined(a: Seq<Move>, b: Seq<Move>, m: MoveView)
    ensures
        holds(a + b, m) <==> holds(a, m) || holds(b, m),
{
    let ab = a + b;
    if holds(a, m) {
        let i = choose|i: int| 0 <= i < a.len() && (#[trigger] a[i])@ == m;
        assert(ab[i]@ == m);
    }
    if holds(b, m) {
        let i = choose|i: int| 0 <= i < b.len() && (#[trigger] b[i])@ == m;
        assert(ab[a.len() + i]@ == m);
    }
    if holds(ab, m) {
        let i = choose|i: int| 0 <= i < ab.len() && (#[trigger] ab[i])@ == m;
        if i < a.len() {
            assert(a[i]@ == m);
        } else {
            assert(b[i - a.len()]@ == m);
        }
    }
}

/// Two lists without repeats that share no value make a list without
/// repeats.
pub proof fn lemma_distinct_joined(a: Seq<Move>, b: Seq<Move>)
    requires
        distinct(a),
        distinct(b),
        forall|m: MoveView| !(holds(a, m) && holds(b, m)),
    ensures
        distinct(a + b),
{
    let ab = a + b;
    assert forall|i: int, j: int| 0 <= i < j < ab.len() implies (#[trigger] ab[i])@ != (
    #[trigger] ab[j])@ by {
        if j < a.len() {
            assert(ab[i] == a[i] && ab[j] == a[j]);
        } else if i >= a.len() {
            assert(ab[i] == b[i - a.len()] && ab[j] == b[j - a.len()]);
        } else {
            assert(ab[i] == a[i] && ab[j] == b[j - a.len()]);
            assert(holds(a, a[i]@));
            assert(holds(b, b[j - a.len()]@));
        }
    }
}

/// The largest number of pieces that a move of `moves` captures; 0 for an
/// empty list.
pub(crate) fn most_captures(moves: &Vec<Move>) -> (most: usize)
    ensures
        none_captures_more(moves@, most as nat),
        most > 0 ==> exists|k: int|
            0 <= k < moves@.len() && (#[trigger] moves@[k])@.captures.len() == most,
{
    let mut most: usize = 0;
    let mut i: usize = 0;
    while i < moves.len()
        invariant
            i <= moves.len(),
            forall|k: int| 0 <= k < i ==> (#[trigger] moves@[k])@.captures.len() <= most,
            most > 0 ==> exists|k: int|
                0 <= k < i && (#[trigger] moves@[k])@.captures.len() == most,
        decreases moves.len() - i,
    {
        if moves[i].captures.len() > most {
            most = moves[i].captures.len();
        }
        i += 1;
    }
    most
}

/// The test that a move captures at least `least` pieces.
pub open spec fn captures_at_least(least: nat) -> spec_fn(MoveView) -> bool {
    |m: MoveView| m.captures.len() >= least
}

/// The moves stand in the order of the squares on which they start.
pub open spec fn by_origin(moves: Seq<MoveView>) -> bool {
    forall|i: int, j: int|
        0 <= i < j < moves.len() ==> (#[trigger] moves[i]).jumps[0] <= (#[trigger] moves[j]).jumps[0]
}

/// Moves that stand in the order of their first squares still do so when
/// some of them are left out.
pub proof fn lemma_filter_by_origin(moves: Seq<MoveView>, keep: spec_fn(MoveView) -> bool)
    requires
        by_origin(moves),
    ensures
        by_origin(moves.filter(keep)),
    decreases moves.len(),
{
    reveal(Seq::filter);
    if moves.len() > 0 {
        let rest = moves.drop_last();
        assert(by_origin(rest)) by {
            assert forall|i: int, j: int| 0 <= i < j < rest.len() implies (#[trigger] rest[i]).jumps[0]
                <= (#[trigger] rest[j]).jumps[0] by {
                assert(rest[i] == moves[i] && rest[j] == moves[j]);
            }
        }
        lemma_filter_by_origin(rest, keep);
        if keep(moves.last()) {
            let kept = rest.filter(keep);
            let out = kept.push(moves.last());
            assert forall|i: int, j: int| 0 <= i < j < out.len() implies (#[trigger] out[i]).jumps[0]
                <= (#[trigger] out[j]).jumps[0] by {
                if j < kept.len() {
                    assert(out[i] == kept[i] && out[j] == kept[j]);
                } else {
                    assert(out[i] == kept[i]);
                    assert(kept.contains(kept[i]));
                    rest.lemma_filter_contains_rev(keep, kept[i]);
                    let k = choose|k: int| 0 <= k < rest.len() && rest[k] == kept[i];
                    assert(moves[k] == rest[k]);
                    assert(moves[moves.len() - 1] == out[j]);
                }
            }
        }
    }
}

/// The moves of `moves` that capture at least `least` pieces, in the order
/// in which they stand there.
pub(crate) fn keep_capturing(moves: &Vec<Move>, least: usize) -> (result: Vec<Move>)
    ensures
        views(result@) == views(moves@).filter(captures_at_least(least as nat)),
        distinct(moves@) ==> distinct(result@),
        forall|mv: MoveView| #[trigger]
            holds(result@, mv) <==> holds(moves@, mv) && mv.captures.len() >= least,
{
    let mut result: Vec<Move> = Vec::new();
    let mut i: usize = 0;
    let ghost all = views(moves@);
    let ghost keep = captures_at_least(least as nat);
    proof {
        reveal(Seq::filter);
        assert(views(result@) =~= all.take(0).filter(keep));
    }
    while i < moves.len()
        invariant
            i <= moves.len(),
            all == views(moves@),
            keep == captures_at_least(least as nat),
            views(result@) == all.take(i as int).filter(keep),
            distinct(moves@) ==> distinct(result@),
            forall|mv: MoveView| #[trigger]
                holds(result@, mv) <==> holds_before(moves@, i as int, mv) && mv.captures.len()
                    >= least,
        decreases moves.len() - i,
    {
        let ghost kept = result@;
        proof {
            reveal(Seq::filter);
            assert(all.take(i + 1).drop_last() =~= all.take(i as int));
            assert(all.take(i + 1).last() == moves@[i as int]@);
        }
        if moves[i].captures.len() >= least {
            let found: Move = moves[i].clone();
            let ghost added = found;
            result.push(found);
            proof {
                assert(views(result@) =~= views(kept).push(added@));
                if holds(kept, added@) {
                    let k = choose|k: int|
                        0 <= k < i && k < moves@.len() && (#[trigger] moves@[k])@ == added@;
                    assert(moves@[k]@ == moves@[i as int]@);
                }
                if distinct(moves@) {
                    lemma_inserted(kept, added, result@);
                    lemma_grown_distinct(kept, result@);
                } else {
                    lemma_holds_joined(kept, seq![added], added@);
                    assert(result@ =~= kept + seq![added]);
                    assert forall|mv: MoveView| #[trigger]
                        holds(result@, mv) <==> holds(kept, mv) || mv == added@ by {
                        lemma_holds_joined(kept, seq![added], mv);
                        if mv == added@ {
                            assert(seq![added][0]@ == mv);
                        }
                    }
                }
            }
        }
        proof {
            assert forall|mv: MoveView| #[trigger]
                holds(result@, mv) <==> holds_before(moves@, i + 1, mv) && mv.captures.len()
                    >= least by {
                if holds_before(moves@, i as int, mv) {
                    let k = choose|k: int|
                        0 <= k < i && k < moves@.len() && (#[trigger] moves@[k])@ == mv;
                    assert(holds_before(moves@, i + 1, mv));
                }
                if mv == moves@[i as int]@ {
                    assert(holds_before(moves@, i + 1, mv));
                }
                if holds_before(moves@, i + 1, mv) {
                    let k = choose|k: int|
                        0 <= k < i + 1 && k < moves@.len() && (#[trigger] moves@[k])@ == mv;
                    if k < i {
                        assert(holds_before(moves@, i as int, mv));
                    }
                }
            }
        }
        i += 1;
    }
    proof {
        assert(all.take(moves@.len() as int) =~= all);
        assert forall|mv: MoveView| #[trigger]
            holds(result@, mv) <==> holds(moves@, mv) && mv.captures.len() >= least by {
            if holds_before(moves@, moves@.len() as int, mv) {
                let k = choose|k: int|
                    0 <= k < moves@.len() && k < moves@.len() && (#[trigger] moves@[k])@ == mv;
                assert(holds(moves@, mv));
            }
            if holds(moves@, mv) {
                let k = choose|k: int| 0 <= k < moves@.len() && (#[trigger] moves@[k])@ == mv;
                assert(holds_before(moves@, moves@.len() as int, mv));
            }
        }
    }
    result
}

/// Keeping the moves that capture at least as much as the most that any move
/// of the list captures keeps the moves that none outdoes.
pub proof fn lemma_most_is_longest(moves: Seq<Move>, most: nat, m: MoveView)
    requires
        none_captures_more(moves, most),
        most > 0 ==> exists|k: int|
            0 <= k < moves.len() && (#[trigger] moves[k])@.captures.len() == most,
        holds(moves, m),
    ensures
        m.captures.len() >= most <==> none_captures_more(moves, m.captures.len()),
{
    let i = choose|i: int| 0 <= i < moves.len() && (#[trigger] moves[i])@ == m;
    assert(moves[i]@.captures.len() <= most);
    if none_captures_more(moves, m.captures.len()) && most > 0 {
        let top = choose|k: int|
            0 <= k < moves.len() && (#[trigger] moves[k])@.captures.len() == most;
        assert(moves[top]@.captures.len() <= m.captures.len());
    }
}

} // verus!
