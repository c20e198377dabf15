//! What a search within a window tells of a value, and how the results of
//! the replies add up to that at a node. All of it is stated for the side
//! that seeks the highest value; the other side is the same with every
//! number negated.

use vstd::prelude::*;

verus! {

/// What the result `r` of a search within the window from `alpha` to `beta`
/// tells of the value `v`: a lower bound where `r` is at or above `alpha`,
/// and an upper bound where `r` is at or below `beta`. So it is the value
/// itself where `r` lies within the window, its ends included. This holds
/// of every window, also of one whose ends are the wrong way round, where a
/// result between them tells nothing.
pub open spec fn settles(r: int, v: int, alpha: int, beta: int) -> bool {
    &&& r >= alpha ==> v >= r
    &&& r <= beta ==> v <= r
}

/// The larger of two numbers.
pub open spec fn larger(a: int, b: int) -> int {
    if a > b {
        a
    } else {
        b
    }
}

/// What holds at a node after some of its replies have been searched
/// without a cut. `seen` holds the values of those replies, `best` is the
/// highest result so far, starting from `floor`, and `alpha` is the window's
/// lower end as the results have raised it from `alpha0`.
pub open spec fn searched(
    seen: Seq<int>,
    floor: int,
    alpha0: int,
    beta: int,
    best: int,
    alpha: int,
) -> bool {
    &&& floor <= alpha0
    &&& floor <= best <= beta
    &&& alpha == larger(alpha0, best)
    &&& seen.len() == 0 ==> best == floor
    &&& forall|k: int| 0 <= k < seen.len() ==> #[trigger] seen[k] <= best
    &&& (seen.len() > 0 && best >= alpha0) ==> exists|k: int|
        0 <= k < seen.len() && #[trigger] seen[k] >= best
}

/// Before any reply has been searched.
pub proof fn lemma_search_begins(floor: int, alpha0: int, beta: int)
    requires
        floor <= alpha0,
        floor <= beta,
    ensures
        searched(Seq::<int>::empty(), floor, alpha0, beta, floor, alpha0),
{
}

/// One more reply, of value `c`, searched within the window from `alpha` to
/// `beta` with a result `r` that does not cut.
pub proof fn lemma_search_goes_on(
    seen: Seq<int>,
    floor: int,
    alpha0: int,
    beta: int,
    best: int,
    alpha: int,
    r: int,
    c: int,
)
    requires
        searched(seen, floor, alpha0, beta, best, alpha),
        settles(r, c, alpha, beta),
        floor <= r <= beta,
    ensures
        searched(seen.push(c), floor, alpha0, beta, larger(best, r), larger(alpha, r)),
{
    let more = seen.push(c);
    let top = larger(best, r);
    assert(more[seen.len() as int] == c);
    assert forall|k: int| 0 <= k < more.len() implies #[trigger] more[k] <= top by {
        if k < seen.len() {
            assert(more[k] == seen[k]);
        }
    }
    if top >= alpha0 {
        if r > best || seen.len() == 0 {
            assert(more[seen.len() as int] >= top);
        } else {
            let k = choose|k: int| 0 <= k < seen.len() && #[trigger] seen[k] >= best;
            assert(more[k] == seen[k]);
        }
    }
}

/// A reply of value `c` whose result `r` lies above `beta` settles the node:
/// its value is at least `r` where `r` is at or above the window's lower
/// end.
pub proof fn lemma_search_cut(
    seen: Seq<int>,
    floor: int,
    alpha0: int,
    beta: int,
    best: int,
    alpha: int,
    r: int,
    c: int,
    v: int,
)
    requires
        searched(seen, floor, alpha0, beta, best, alpha),
        settles(r, c, alpha, beta),
        r > beta,
        c <= v,
    ensures
        settles(r, v, alpha0, beta),
        larger(best, r) == r,
{
}

/// Once every reply has been searched without a cut, the best result settles
/// the node, whose value `v` is the highest of the values of its replies.
pub proof fn lemma_search_ends(
    seen: Seq<int>,
    floor: int,
    alpha0: int,
    beta: int,
    best: int,
    alpha: int,
    v: int,
)
    requires
        searched(seen, floor, alpha0, beta, best, alpha),
        seen.len() > 0,
        exists|k: int| 0 <= k < seen.len() && #[trigger] seen[k] == v,
        forall|k: int| 0 <= k < seen.len() ==> #[trigger] seen[k] <= v,
    ensures
        settles(best, v, alpha0, beta),
{
    let k0 = choose|k: int| 0 <= k < seen.len() && #[trigger] seen[k] == v;
    assert(seen[k0] <= best);
    if best >= alpha0 {
        let k = choose|k: int| 0 <= k < seen.len() && #[trigger] seen[k] >= best;
        assert(seen[k] <= v);
    }
}

} // verus!
