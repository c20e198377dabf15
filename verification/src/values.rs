//! Proofs about the value of a position: it fits the type of a score, and
//! where the legal moves can be listed it is the value that the best of them
//! leads to.

use crate::checkers::{MoveView, BLACK, WHITE};
use crate::minimax::{
    after_black, after_white, best_for_black, best_for_white, depth_after, highest, legal_list,
    lists_legal, lowest, max_value, min_value, pieces, score_upto, BLACK_LOST, WHITE_LOST,
};
use crate::replay::played;
use crate::rules::{has_legal_move, is_legal};
use crate::termination::lemma_legal_move_pieces;
use vstd::prelude::*;

verus! {

/// The score of `n` squares lies between `-3 * n` and `3 * n`.
pub proof fn lemma_score_range(b: Seq<u8>, n: int)
    requires
        0 <= n,
    ensures
        -3 * n <= score_upto(b, n) <= 3 * n,
    decreases n,
{
    if n > 0 {
        lemma_score_range(b, n - 1);
    }
}

/// The highest of the values of some moves is the value of one of them,
/// where there is one, and none of them has a higher one.
pub proof fn lemma_highest(b: Seq<u8>, depth: nat, s: Seq<MoveView>, n: nat)
    requires
        n <= s.len(),
    ensures
        forall|i: int| 0 <= i < n ==> after_black(b, depth, #[trigger] s[i]) <= highest(b, depth, s, n),
        n > 0 && (forall|i: int| 0 <= i < n ==> after_black(b, depth, #[trigger] s[i]) >= BLACK_LOST)
            ==> exists|i: int|
            0 <= i < n && after_black(b, depth, #[trigger] s[i]) == highest(b, depth, s, n),
        n == 0 ==> highest(b, depth, s, n) == BLACK_LOST,
    decreases n,
{
    if n > 0 {
        lemma_highest(b, depth, s, (n - 1) as nat);
        let rest = highest(b, depth, s, (n - 1) as nat);
        let here = after_black(b, depth, s[n - 1]);
        if forall|i: int| 0 <= i < n ==> after_black(b, depth, #[trigger] s[i]) >= BLACK_LOST {
            if here > rest || n == 1 {
                assert(after_black(b, depth, s[n - 1]) == here);
            } else {
                assert forall|i: int| 0 <= i < n - 1 implies after_black(
                    b,
                    depth,
                    #[trigger] s[i],
                ) >= BLACK_LOST by {}
                let i = choose|i: int|
                    0 <= i < n - 1 && after_black(b, depth, #[trigger] s[i]) == rest;
                assert(after_black(b, depth, s[i]) == highest(b, depth, s, n));
            }
        }
    }
}

/// The lowest of the values of some moves is the value of one of them,
/// where there is one, and none of them has a lower one.
pub proof fn lemma_lowest(b: Seq<u8>, depth: nat, s: Seq<MoveView>, n: nat)
    requires
        n <= s.len(),
    ensures
        forall|i: int| 0 <= i < n ==> after_white(b, depth, #[trigger] s[i]) >= lowest(b, depth, s, n),
        n > 0 && (forall|i: int| 0 <= i < n ==> after_white(b, depth, #[trigger] s[i]) <= WHITE_LOST)
            ==> exists|i: int|
            0 <= i < n && after_white(b, depth, #[trigger] s[i]) == lowest(b, depth, s, n),
        n == 0 ==> lowest(b, depth, s, n) == WHITE_LOST,
    decreases n,
{
    if n > 0 {
        lemma_lowest(b, depth, s, (n - 1) as nat);
        let rest = lowest(b, depth, s, (n - 1) as nat);
        let here = after_white(b, depth, s[n - 1]);
        if forall|i: int| 0 <= i < n ==> after_white(b, depth, #[trigger] s[i]) <= WHITE_LOST {
            if here < rest || n == 1 {
                assert(after_white(b, depth, s[n - 1]) == here);
            } else {
                assert forall|i: int| 0 <= i < n - 1 implies after_white(
                    b,
                    depth,
                    #[trigger] s[i],
                ) <= WHITE_LOST by {}
                let i = choose|i: int|
                    0 <= i < n - 1 && after_white(b, depth, #[trigger] s[i]) == rest;
                assert(after_white(b, depth, s[i]) == lowest(b, depth, s, n));
            }
        }
    }
}

/// The value of a position fits a score.
pub proof fn lemma_value_range(b: Seq<u8>, depth: nat)
    ensures
        BLACK_LOST <= max_value(b, depth) <= WHITE_LOST,
        BLACK_LOST <= min_value(b, depth) <= WHITE_LOST,
    decreases pieces(b), depth,
{
    if b.len() == 64 {
        lemma_score_range(b, 64);
        if depth > 0 {
            if has_legal_move(b, BLACK) {
                let s = legal_list(b, BLACK);
                assert forall|i: int| 0 <= i < s.len() implies BLACK_LOST <= after_black(
                    b,
                    depth,
                    #[trigger] s[i],
                ) <= WHITE_LOST by {
                    if is_legal(b, BLACK, s[i]) {
                        lemma_legal_move_pieces(b, BLACK, s[i]);
                        lemma_value_range(played(b, s[i]), depth_after(depth, s[i]));
                    }
                }
                lemma_highest(b, depth, s, s.len());
            }
            if has_legal_move(b, WHITE) {
                let s = legal_list(b, WHITE);
                assert forall|i: int| 0 <= i < s.len() implies BLACK_LOST <= after_white(
                    b,
                    depth,
                    #[trigger] s[i],
                ) <= WHITE_LOST by {
                    if is_legal(b, WHITE, s[i]) {
                        lemma_legal_move_pieces(b, WHITE, s[i]);
                        lemma_value_range(played(b, s[i]), depth_after(depth, s[i]));
                    }
                }
                lemma_lowest(b, depth, s, s.len());
            }
        }
    }
}

/// Where black's legal moves can be listed, the value for black is the
/// value that one of them leads to, and none leads to a higher one.
pub proof fn lemma_max_value_best(b: Seq<u8>, depth: nat, witness: Seq<MoveView>)
    requires
        b.len() == 64,
        depth > 0,
        has_legal_move(b, BLACK),
        lists_legal(b, BLACK, witness),
    ensures
        best_for_black(b, depth, max_value(b, depth)),
{
    let s = legal_list(b, BLACK);
    assert(lists_legal(b, BLACK, s));
    let m0 = choose|m: MoveView| is_legal(b, BLACK, m);
    assert(s.contains(m0));
    assert forall|i: int| 0 <= i < s.len() implies after_black(b, depth, #[trigger] s[i])
        >= BLACK_LOST by {
        lemma_value_range(played(b, s[i]), depth_after(depth, s[i]));
    }
    lemma_highest(b, depth, s, s.len());
    let v = max_value(b, depth);
    let i = choose|i: int| 0 <= i < s.len() && after_black(b, depth, #[trigger] s[i]) == v;
    assert(s.contains(s[i]));
    assert(is_legal(b, BLACK, s[i]));
    assert forall|m: MoveView| #[trigger] is_legal(b, BLACK, m) implies after_black(b, depth, m)
        <= v by {
        assert(s.contains(m));
        let k = choose|k: int| 0 <= k < s.len() && s[k] == m;
        assert(after_black(b, depth, s[k]) <= v);
    }
}

/// Where white's legal moves can be listed, the value for white is the
/// value that one of them leads to, and none leads to a lower one.
pub proof fn lemma_min_value_best(b: Seq<u8>, depth: nat, witness: Seq<MoveView>)
    requires
        b.len() == 64,
        depth > 0,
        has_legal_move(b, WHITE),
        lists_legal(b, WHITE, witness),
    ensures
        best_for_white(b, depth, min_value(b, depth)),
{
    let s = legal_list(b, WHITE);
    assert(lists_legal(b, WHITE, s));
    let m0 = choose|m: MoveView| is_legal(b, WHITE, m);
    assert(s.contains(m0));
    assert forall|i: int| 0 <= i < s.len() implies after_white(b, depth, #[trigger] s[i])
        <= WHITE_LOST by {
        lemma_value_range(played(b, s[i]), depth_after(depth, s[i]));
    }
    lemma_lowest(b, depth, s, s.len());
    let v = min_value(b, depth);
    let i = choose|i: int| 0 <= i < s.len() && after_white(b, depth, #[trigger] s[i]) == v;
    assert(s.contains(s[i]));
    assert(is_legal(b, WHITE, s[i]));
    assert forall|m: MoveView| #[trigger] is_legal(b, WHITE, m) implies after_white(b, depth, m)
        >= v by {
        assert(s.contains(m));
        let k = choose|k: int| 0 <= k < s.len() && s[k] == m;
        assert(after_white(b, depth, s[k]) >= v);
    }
}

} // verus!
