use vstd::prelude::*;
use crate::puzzle::{
    Dir, BLANK, can_move, slide, target, blank_index, is_goal, is_permutation, lemma_has_blank,
    lemma_slide_permutation,
};
use crate::search::{replay, solvable, solves};

verus! {

/// Cells `i` and `j` hold two tiles (not the blank) in the wrong order.
pub open spec fn out_of_order(s: Seq<u8>, i: int, j: int) -> int {
    if s[i] != BLANK && s[j] != BLANK && s[i] > s[j] {
        1
    } else {
        0
    }
}

/// Inversions between cell `i` and the cells from `j` on.
pub open spec fn inversions_from(s: Seq<u8>, i: int, j: int) -> int
    decreases 9 - j,
{
    if j >= 9 {
        0
    } else {
        out_of_order(s, i, j) + inversions_from(s, i, j + 1)
    }
}

/// Inversions whose first cell is below `n`.
pub open spec fn inversions_upto(s: Seq<u8>, n: int) -> int
    decreases n,
{
    if n <= 0 {
        0
    } else {
        inversions_upto(s, n - 1) + inversions_from(s, n - 1, n)
    }
}

/// The number of pairs of tiles, the blank left out, that stand in the wrong order.
pub open spec fn inversions(s: Seq<u8>) -> int {
    inversions_upto(s, 9)
}

/// `t` is `s` with cells `p` < `q` swapped, one of them the blank.
pub open spec fn swapped(s: Seq<u8>, t: Seq<u8>, p: int, q: int) -> bool {
    &&& is_permutation(s)
    &&& 0 <= p < q < 9
    &&& t == s.update(p, s[q]).update(q, s[p])
    &&& (s[p] == BLANK || s[q] == BLANK)
}

/// A row whose cell holds the blank counts no inversion.
proof fn lemma_blank_row(s: Seq<u8>, i: int, j: int)
    requires
        s[i] == BLANK,
    ensures
        inversions_from(s, i, j) == 0,
    decreases 9 - j,
{
    if j < 9 {
        lemma_blank_row(s, i, j + 1);
    }
}

/// Rows that hold the same label and agree from `j` on count alike.
proof fn lemma_same_tail(u: Seq<u8>, a: int, w: Seq<u8>, c: int, j: int)
    requires
        u.len() == 9,
        w.len() == 9,
        0 <= a < 9,
        0 <= c < 9,
        0 <= j,
        u[a] == w[c],
        forall|k: int| j <= k < 9 ==> u[k] == w[k],
    ensures
        inversions_from(u, a, j) == inversions_from(w, c, j),
    decreases 9 - j,
{
    if j < 9 {
        lemma_same_tail(u, a, w, c, j + 1);
    }
}

/// A row other than `p` and `q` changes only in its terms at `p` and `q`.
proof fn lemma_other_row(s: Seq<u8>, t: Seq<u8>, p: int, q: int, i: int, j: int)
    requires
        swapped(s, t, p, q),
        0 <= i < 9,
        i != p,
        i != q,
        0 <= j,
    ensures
        inversions_from(t, i, j) == inversions_from(s, i, j) + (if j <= p {
            out_of_order(t, i, p) - out_of_order(s, i, p)
        } else {
            0
        }) + (if j <= q {
            out_of_order(t, i, q) - out_of_order(s, i, q)
        } else {
            0
        }),
    decreases 9 - j,
{
    if j < 9 {
        lemma_other_row(s, t, p, q, i, j + 1);
    }
}

/// Rows before `p` count alike in `s` and `t`.
proof fn lemma_prefix(s: Seq<u8>, t: Seq<u8>, p: int, q: int, n: int)
    requires
        swapped(s, t, p, q),
        0 <= n <= p,
    ensures
        inversions_upto(t, n) == inversions_upto(s, n),
    decreases n,
{
    if n > 0 {
        lemma_prefix(s, t, p, q, n - 1);
        lemma_other_row(s, t, p, q, n - 1, n);
    }
}

/// Rows after `q` count alike in `s` and `t`.
proof fn lemma_suffix(s: Seq<u8>, t: Seq<u8>, p: int, q: int, n: int)
    requires
        swapped(s, t, p, q),
        q < n <= 9,
    ensures
        inversions_upto(t, n) - inversions_upto(s, n) == inversions_upto(t, q + 1)
            - inversions_upto(s, q + 1),
    decreases n,
{
    if n > q + 1 {
        lemma_suffix(s, t, p, q, n - 1);
        lemma_other_row(s, t, p, q, n - 1, n);
    }
}

/// The rows from `p` to `q` one by one, and the row of `p` term by term up to `q`.
proof fn lemma_unfold(x: Seq<u8>, p: int, q: int)
    requires
        0 <= p < q < 9,
        q == p + 1 || q == p + 3,
    ensures
        q == p + 1 ==> inversions_upto(x, q + 1) == inversions_upto(x, p) + inversions_from(x, p, p + 1)
            + inversions_from(x, q, q + 1),
        q == p + 1 ==> inversions_from(x, p, p + 1) == out_of_order(x, p, q) + inversions_from(x, p, q + 1),
        q == p + 3 ==> inversions_upto(x, q + 1) == inversions_upto(x, p) + inversions_from(x, p, p + 1)
            + inversions_from(x, p + 1, p + 2) + inversions_from(x, p + 2, p + 3)
            + inversions_from(x, q, q + 1),
        q == p + 3 ==> inversions_from(x, p, p + 1) == out_of_order(x, p, p + 1) + out_of_order(x, p, p + 2)
            + out_of_order(x, p, q) + inversions_from(x, p, q + 1),
{
    reveal_with_fuel(inversions_upto, 5);
    reveal_with_fuel(inversions_from, 5);
}

/// Swapping the blank with a tile one or three cells away keeps the parity of
/// the inversions: the tile passes over no tile, or over two.
proof fn lemma_swap_parity(s: Seq<u8>, t: Seq<u8>, p: int, q: int)
    requires
        swapped(s, t, p, q),
        q == p + 1 || q == p + 3,
    ensures
        inversions(t) % 2 == inversions(s) % 2,
{
    lemma_prefix(s, t, p, q, p);
    lemma_unfold(s, p, q);
    lemma_unfold(t, p, q);
    lemma_suffix(s, t, p, q, 9);
    lemma_same_tail(t, p, s, q, q + 1);
    lemma_same_tail(t, q, s, p, q + 1);
    if s[p] == BLANK {
        lemma_blank_row(s, p, p + 1);
        lemma_blank_row(t, q, q + 1);
    } else {
        lemma_blank_row(s, q, q + 1);
        lemma_blank_row(t, p, p + 1);
    }
    if q == p + 1 {
        assert(inversions(t) == inversions(s));
    } else {
        lemma_other_row(s, t, p, q, p + 1, p + 2);
        lemma_other_row(s, t, p, q, p + 2, p + 3);
        assert(s[p + 1] != s[p] && s[p + 1] != s[q] && s[p + 2] != s[p] && s[p + 2] != s[q]);
        assert(inversions(t) % 2 == inversions(s) % 2);
    }
}

/// One slide of the blank keeps the parity of the inversions.
proof fn lemma_slide_parity(s: Seq<u8>, b: int, d: Dir)
    requires
        is_permutation(s),
        0 <= b < 9,
        s[b] == BLANK,
        can_move(b, d),
    ensures
        inversions(slide(s, b, d)) % 2 == inversions(s) % 2,
{
    let g = target(b, d);
    let t = slide(s, b, d);
    if g < b {
        assert(t =~= s.update(g, s[b]).update(b, s[g]));
        lemma_swap_parity(s, t, g, b);
    } else {
        lemma_swap_parity(s, t, b, g);
    }
}

proof fn lemma_goal_row(s: Seq<u8>, i: int, j: int)
    requires
        is_goal(s),
        0 <= i < j,
    ensures
        inversions_from(s, i, j) == 0,
    decreases 9 - j,
{
    if j < 9 {
        lemma_goal_row(s, i, j + 1);
    }
}

proof fn lemma_goal_inversions(s: Seq<u8>, n: int)
    requires
        is_goal(s),
        0 <= n <= 9,
    ensures
        inversions_upto(s, n) == 0,
    decreases n,
{
    if n > 0 {
        lemma_goal_inversions(s, n - 1);
        lemma_goal_row(s, n - 1, n);
    }
}

/// Moving the blank along a legal path keeps the parity of the inversions.
pub proof fn lemma_replay_parity(s: Seq<u8>, path: Seq<Dir>)
    requires
        is_permutation(s),
    ensures
        replay(s, path) matches Some(t) ==> is_permutation(t) && inversions(t) % 2 == inversions(s) % 2,
    decreases path.len(),
{
    if path.len() > 0 {
        lemma_replay_parity(s, path.drop_last());
        if let Some(t) = replay(s, path.drop_last()) {
            let d = path.last();
            if can_move(blank_index(t), d) {
                lemma_has_blank(t);
                lemma_slide_permutation(t, blank_index(t), d);
                lemma_slide_parity(t, blank_index(t), d);
            }
        }
    }
}

/// A puzzle with an odd number of inversions among its tiles has no solution,
/// so `solve` returns `None` on it.
pub proof fn lemma_odd_unsolvable(s: Seq<u8>)
    requires
        is_permutation(s),
        inversions(s) % 2 == 1,
    ensures
        !solvable(s),
{
    assert forall|path: Seq<Dir>| !solves(s, path) by {
        lemma_replay_parity(s, path);
        if let Some(t) = replay(s, path) {
            if is_goal(t) {
                lemma_goal_inversions(t, 9);
            }
        }
    }
}

} // verus!
