use vstd::prelude::*;
use vstd::multiset::Multiset;
use std::collections::HashSet;
use crate::puzzle::{
    Dir, Puzzle, can_move, slide, blank_index, is_goal, is_permutation, distance, lemma_has_blank,
    lemma_slide_permutation,
};
use crate::moves::{legal_moves, lemma_moves_from_len, lemma_moves_from_legal, lemma_legal_listed};
use crate::frontier::{Entry, Frontier, before};

verus! {

broadcast use {vstd::std_specs::hash::group_hash_axioms, vstd::multiset::group_multiset_axioms};

/// Nine to the ninth: every key of a well-formed puzzle is below it.
pub const KEY_BOUND: u64 = 387420489;

/// The state reached from `s` by moving the blank along `path`, or `None` if a
/// move leaves the grid.
pub open spec fn replay(s: Seq<u8>, path: Seq<Dir>) -> Option<Seq<u8>>
    decreases path.len(),
{
    if path.len() == 0 {
        Some(s)
    } else {
        match replay(s, path.drop_last()) {
            Some(t) => if can_move(blank_index(t), path.last()) {
                Some(slide(t, blank_index(t), path.last()))
            } else {
                None
            },
            None => None,
        }
    }
}

/// Moving the blank along `path` from `s` is legal throughout and ends solved.
pub open spec fn solves(s: Seq<u8>, path: Seq<Dir>) -> bool {
    replay(s, path) matches Some(t) && is_goal(t)
}

/// Base-9 reading of the first `n` labels, the first label most significant.
pub open spec fn code(s: Seq<u8>, n: int) -> int
    decreases n,
{
    if n <= 0 {
        0
    } else {
        code(s, n - 1) * 9 + s[n - 1]
    }
}

pub open spec fn pow9(n: int) -> int
    decreases n,
{
    if n <= 0 {
        1
    } else {
        pow9(n - 1) * 9
    }
}

/// A search node: a puzzle, the moves that led to it, and its priority
/// `f` = moves so far + heuristic.
pub struct QueueElt {
    pub puzzle: Puzzle,
    pub f: usize,
    pub path: Vec<Dir>,
}

impl QueueElt {
    /// A node for `puzzle` reached by `path`, with its priority computed.
    pub fn new(puzzle: Puzzle, path: Vec<Dir>) -> (r: Self)
        requires
            puzzle.wf(),
            path.len() + 255 <= usize::MAX,
        ensures
            r.puzzle == puzzle,
            r.path@ == path@,
            r.f == path.len() + distance(puzzle.state@),
    {
        let h = puzzle.heuristic();
        QueueElt { f: path.len() + h as usize, puzzle, path }
    }
}

/// The set of all `u64` values below `n`.
spec fn keys_below(n: u64) -> Set<u64> {
    Set::new(|k: u64| k < n)
}

proof fn lemma_keys_below(n: u64)
    ensures
        keys_below(n).finite(),
        keys_below(n).len() == n,
    decreases n,
{
    if n == 0 {
        assert(keys_below(0) =~= Set::<u64>::empty());
    } else {
        let m = (n - 1) as u64;
        lemma_keys_below(m);
        assert(keys_below(n) =~= keys_below(m).insert(m));
    }
}

proof fn lemma_key_set_len(s: Set<u64>)
    requires
        forall|k: u64| s.contains(k) ==> k < KEY_BOUND,
    ensures
        s.finite(),
        s.len() <= KEY_BOUND,
{
    lemma_keys_below(KEY_BOUND);
    vstd::set_lib::lemma_len_subset(s, keys_below(KEY_BOUND));
}

/// The base-9 code of a well-formed puzzle.
fn key(p: &Puzzle) -> (r: u64)
    requires
        p.wf(),
    ensures
        r as int == code(p.state@, 9),
        r < KEY_BOUND,
{
    let mut k: u64 = 0;
    let mut i: usize = 0;
    while i < 9
        invariant
            i <= 9,
            p.wf(),
            k as int == code(p.state@, i as int),
            k < pow9(i as int),
            pow9(i as int) <= KEY_BOUND,
        decreases 9 - i,
    {
        let d = p.state[i];
        assert(d < 9);
        proof {
            let pw = pow9(i as int);
            assert(k * 9 + d < pw * 9) by (nonlinear_arith)
                requires
                    k < pw,
                    d < 9,
            ;
            reveal_with_fuel(pow9, 10);
        }
        k = k * 9 + d as u64;
        i = i + 1;
    }
    k
}

/// The key under which a puzzle is recorded as expanded.
pub open spec fn key_of(s: Seq<u8>) -> u64 {
    code(s, 9) as u64
}

/// Some move sequence solves `s`.
pub open spec fn solvable(s: Seq<u8>) -> bool {
    exists|path: Seq<Dir>| solves(s, path)
}

proof fn lemma_code_bound(s: Seq<u8>, n: int)
    requires
        0 <= n <= 9,
        s.len() == 9,
        forall|i: int| 0 <= i < 9 ==> #[trigger] s[i] < 9,
    ensures
        0 <= code(s, n) < pow9(n),
    decreases n,
{
    if n > 0 {
        lemma_code_bound(s, n - 1);
        let (k, pw, d) = (code(s, n - 1), pow9(n - 1), s[n - 1] as int);
        assert(k * 9 + d < pw * 9) by (nonlinear_arith)
            requires
                0 <= k < pw,
                0 <= d < 9,
        ;
    }
}

proof fn lemma_code_injective(s: Seq<u8>, t: Seq<u8>, n: int)
    requires
        0 <= n <= 9,
        is_permutation(s),
        is_permutation(t),
        code(s, n) == code(t, n),
    ensures
        forall|i: int| 0 <= i < n ==> #[trigger] s[i] == t[i],
    decreases n,
{
    if n > 0 {
        lemma_code_bound(s, n - 1);
        lemma_code_bound(t, n - 1);
        let (a, b, d, e) = (code(s, n - 1), code(t, n - 1), s[n - 1] as int, t[n - 1] as int);
        assert(a == b && d == e) by (nonlinear_arith)
            requires
                a * 9 + d == b * 9 + e,
                0 <= a,
                0 <= b,
                0 <= d < 9,
                0 <= e < 9,
        ;
        lemma_code_injective(s, t, n - 1);
    }
}

/// Different well-formed puzzles have different keys.
proof fn lemma_key_injective(s: Seq<u8>, t: Seq<u8>)
    requires
        is_permutation(s),
        is_permutation(t),
        key_of(s) == key_of(t),
    ensures
        s == t,
{
    lemma_code_bound(s, 9);
    lemma_code_bound(t, 9);
    reveal_with_fuel(pow9, 10);
    lemma_code_injective(s, t, 9);
    assert(s =~= t);
}

/// `t` is held by a node that an entry of the frontier stands for.
pub open spec fn queued(f: Multiset<Entry>, nodes: Seq<QueueElt>, t: Seq<u8>) -> bool {
    exists|e: Entry| #[trigger] f.contains(e) && e.1 < nodes.len() && nodes[e.1 as int].puzzle.state@ == t
}

/// `t` is expanded already or waits in the frontier.
pub open spec fn covered(v: Set<u64>, f: Multiset<Entry>, nodes: Seq<QueueElt>, t: Seq<u8>) -> bool {
    v.contains(key_of(t)) || queued(f, nodes, t)
}

/// `t` is not solved, and each puzzle one move away is covered.
pub open spec fn expanded(v: Set<u64>, f: Multiset<Entry>, nodes: Seq<QueueElt>, t: Seq<u8>) -> bool {
    &&& !is_goal(t)
    &&& forall|d: Dir|
        can_move(blank_index(t), d) ==> covered(v, f, nodes, #[trigger] slide(t, blank_index(t), d))
}

/// Growing the frontier and the nodes keeps what was covered covered.
proof fn lemma_grow(
    v: Set<u64>,
    f: Multiset<Entry>,
    nodes: Seq<QueueElt>,
    f2: Multiset<Entry>,
    nodes2: Seq<QueueElt>,
)
    requires
        forall|e: Entry| f.contains(e) ==> #[trigger] f2.contains(e),
        nodes.len() <= nodes2.len(),
        forall|i: int| 0 <= i < nodes.len() ==> nodes2[i] == nodes[i],
    ensures
        forall|t: Seq<u8>| #[trigger] covered(v, f, nodes, t) ==> covered(v, f2, nodes2, t),
{
    assert forall|t: Seq<u8>| #[trigger] covered(v, f, nodes, t) implies covered(v, f2, nodes2, t) by {
        if !v.contains(key_of(t)) {
            let e = choose|e: Entry| #[trigger] f.contains(e) && e.1 < nodes.len() && nodes[e.1 as int].puzzle.state@ == t;
            assert(f2.contains(e));
        }
    }
}

/// Taking entry `e`, whose node holds `c`, off the frontier and recording `c`
/// as expanded keeps what was covered covered.
proof fn lemma_take(v: Set<u64>, f: Multiset<Entry>, nodes: Seq<QueueElt>, e: Entry, c: Seq<u8>)
    requires
        e.1 < nodes.len(),
        nodes[e.1 as int].puzzle.state@ == c,
    ensures
        forall|t: Seq<u8>|
            #[trigger] covered(v, f, nodes, t) ==> covered(v.insert(key_of(c)), f.remove(e), nodes, t),
{
    assert forall|t: Seq<u8>| #[trigger] covered(v, f, nodes, t) implies covered(
        v.insert(key_of(c)),
        f.remove(e),
        nodes,
        t,
    ) by {
        if !v.contains(key_of(t)) {
            let x = choose|x: Entry| #[trigger] f.contains(x) && x.1 < nodes.len() && nodes[x.1 as int].puzzle.state@ == t;
            if x != e {
                assert(f.remove(e).count(x) == f.count(x));
                assert(f.remove(e).contains(x));
            }
        }
    }
}

/// With nothing left in the frontier, every puzzle reachable from a covered
/// start is expanded, so none is solved.
proof fn lemma_exhausted(v: Set<u64>, nodes: Seq<QueueElt>, s: Seq<u8>, path: Seq<Dir>)
    requires
        is_permutation(s),
        covered(v, Multiset::empty(), nodes, s),
        forall|t: Seq<u8>|
            is_permutation(t) && #[trigger] v.contains(key_of(t)) ==> expanded(
                v,
                Multiset::empty(),
                nodes,
                t,
            ),
    ensures
        replay(s, path) matches Some(t) ==> is_permutation(t) && v.contains(key_of(t)),
        !solves(s, path),
    decreases path.len(),
{
    let f = Multiset::<Entry>::empty();
    assert(!queued(f, nodes, s));
    if path.len() > 0 {
        lemma_exhausted(v, nodes, s, path.drop_last());
        if let Some(t) = replay(s, path.drop_last()) {
            let d = path.last();
            if can_move(blank_index(t), d) {
                lemma_has_blank(t);
                lemma_slide_permutation(t, blank_index(t), d);
                assert(expanded(v, f, nodes, t));
                let u = slide(t, blank_index(t), d);
                assert(covered(v, f, nodes, u));
                assert(!queued(f, nodes, u));
                assert(v.contains(key_of(u)));
                assert(expanded(v, f, nodes, u));
            }
        }
    }
    if let Some(t) = replay(s, path) {
        assert(expanded(v, f, nodes, t));
    }
}

/// What the search keeps: the expanded keys, the frontier, and each node's
/// puzzle and moves.
pub type Snapshot = (Set<u64>, Multiset<Entry>, Seq<(Seq<u8>, Seq<Dir>)>);

/// The entry that no other entry of `f` stands before.
pub open spec fn least(f: Multiset<Entry>) -> Entry {
    choose|e: Entry| f.contains(e) && forall|x: Entry| #[trigger] f.contains(x) ==> !before(x, e)
}

/// Queue the puzzles that `moves` lead to from `c`, in order, leaving out
/// those whose key is in `v`.
pub open spec fn add_children(
    v: Set<u64>,
    f: Multiset<Entry>,
    nodes: Seq<(Seq<u8>, Seq<Dir>)>,
    c: Seq<u8>,
    path: Seq<Dir>,
    moves: Seq<Dir>,
) -> (Multiset<Entry>, Seq<(Seq<u8>, Seq<Dir>)>)
    decreases moves.len(),
{
    if moves.len() == 0 {
        (f, nodes)
    } else {
        let d = moves[0];
        let child = slide(c, blank_index(c), d);
        if v.contains(key_of(child)) {
            add_children(v, f, nodes, c, path, moves.drop_first())
        } else {
            let p2 = path.push(d);
            let e = ((p2.len() + distance(child)) as usize, nodes.len() as usize);
            add_children(v, f.insert(e), nodes.push((child, p2)), c, path, moves.drop_first())
        }
    }
}

/// The search run from `g` for at most `fuel` rounds: `Some` of its result
/// once it has one.
pub open spec fn run(g: Snapshot, fuel: nat) -> Option<Option<Seq<Dir>>>
    decreases fuel,
{
    if fuel == 0 {
        None
    } else if g.1.len() == 0 {
        Some(None)
    } else {
        let e = least(g.1);
        let (c, path) = g.2[e.1 as int];
        let f1 = g.1.remove(e);
        if is_goal(c) {
            Some(Some(path))
        } else if g.0.contains(key_of(c)) {
            run((g.0, f1, g.2), (fuel - 1) as nat)
        } else {
            let v1 = g.0.insert(key_of(c));
            let (f2, n2) = add_children(v1, f1, g.2, c, path, legal_moves(blank_index(c)));
            run((v1, f2, n2), (fuel - 1) as nat)
        }
    }
}

/// The search starting from `s` alone.
pub open spec fn initial(s: Seq<u8>) -> Snapshot {
    (
        Set::empty(),
        Multiset::empty().insert((distance(s) as usize, 0usize)),
        seq![(s, Seq::<Dir>::empty())],
    )
}

/// The search from `s` ends with `r`.
pub open spec fn computes(s: Seq<u8>, r: Option<Seq<Dir>>) -> bool {
    exists|fuel: nat| run(initial(s), fuel) == Some(r)
}

/// Every result that the search reaches from `g` is the result from `s`.
pub open spec fn leads_to(s: Seq<u8>, g: Snapshot) -> bool {
    forall|fuel: nat| #[trigger] run(g, fuel) is Some ==> computes(s, run(g, fuel)->0)
}

proof fn lemma_run_unique(g: Snapshot, k1: nat, k2: nat)
    requires
        run(g, k1) is Some,
        run(g, k2) is Some,
    ensures
        run(g, k1) == run(g, k2),
    decreases k1,
{
    if k1 > 0 && k2 > 0 && g.1.len() != 0 {
        let e = least(g.1);
        let (c, path) = g.2[e.1 as int];
        let f1 = g.1.remove(e);
        if !is_goal(c) {
            if g.0.contains(key_of(c)) {
                lemma_run_unique((g.0, f1, g.2), (k1 - 1) as nat, (k2 - 1) as nat);
            } else {
                let v1 = g.0.insert(key_of(c));
                let (f2, n2) = add_children(v1, f1, g.2, c, path, legal_moves(blank_index(c)));
                lemma_run_unique((v1, f2, n2), (k1 - 1) as nat, (k2 - 1) as nat);
            }
        }
    }
}

/// The search is determined by the puzzle: two runs of `solve` on equal
/// puzzles give the same moves, so paths of equal length.
pub proof fn lemma_solve_deterministic(s: Seq<u8>, a: Option<Seq<Dir>>, b: Option<Seq<Dir>>)
    requires
        computes(s, a),
        computes(s, b),
    ensures
        a == b,
{
    let k1 = choose|k: nat| run(initial(s), k) == Some(a);
    let k2 = choose|k: nat| run(initial(s), k) == Some(b);
    lemma_run_unique(initial(s), k1, k2);
}

/// The moves of a result, as a sequence.
pub open spec fn moves_of(r: Option<Vec<Dir>>) -> Option<Seq<Dir>> {
    match r {
        Some(p) => Some(p@),
        None => None,
    }
}

/// The puzzle and moves of each node.
pub open spec fn node_views(nodes: Seq<QueueElt>) -> Seq<(Seq<u8>, Seq<Dir>)> {
    nodes.map_values(|n: QueueElt| (n.puzzle.state@, n.path@))
}

/// A* search from `puzzle`: the frontier is ordered by moves so far plus
/// heuristic, and each puzzle is expanded at most once. Returns the moves of
/// the blank that solve the puzzle, or `None` once no unexpanded puzzle is left,
/// which happens exactly when no move sequence solves it. The result is the one
/// that `run` gives from the puzzle alone.
///
/// The path is not always a shortest one: the heuristic counts the blank's own
/// distance as well, so it can overestimate (`[0, 1, 2, 3, 4, 5, 6, 8, 7]` is one
/// move from solved and scores 2), and on `[6, 0, 2, 1, 3, 5, 4, 7, 8]`, twelve
/// moves from solved, the search returns fourteen.
pub fn solve(puzzle: Puzzle) -> (r: Option<Vec<Dir>>)
    requires
        puzzle.wf(),
    ensures
        r matches Some(p) ==> solves(puzzle.state@, p@),
        r is None <==> !solvable(puzzle.state@),
        is_goal(puzzle.state@) ==> (r matches Some(p) && p@.len() == 0),
        computes(puzzle.state@, moves_of(r)),
{
    let ghost s0 = puzzle.state@;
    let mut nodes: Vec<QueueElt> = Vec::new();
    let mut visited: HashSet<u64> = HashSet::new();
    let mut frontier = Frontier::new();
    let start = QueueElt::new(puzzle, Vec::new());
    let first = (start.f, 0);
    frontier.push(first);
    nodes.push(start);
    assert(nodes@[0].path@ =~= Seq::<Dir>::empty());
    assert(frontier@.contains(first));
    assert(queued(frontier@, nodes@, s0));
    proof {
        let g = (visited@, frontier@, node_views(nodes@));
        assert(g.0 =~= Set::<u64>::empty());
        assert(g.2 =~= seq![(s0, Seq::<Dir>::empty())]);
        assert(g == initial(s0));
        assert forall|fuel: nat| #[trigger] run(g, fuel) is Some implies computes(s0, run(g, fuel)->0) by {
            assert(run(initial(s0), fuel) == Some(run(g, fuel)->0));
        }
    }
    loop
        invariant
            frontier.wf(),
            forall|e: Entry| #[trigger] frontier@.contains(e) ==> e.1 < nodes.len(),
            nodes.len() > 0,
            nodes@[0].puzzle == puzzle,
            nodes@[0].path@.len() == 0,
            forall|i: int|
                0 <= i < nodes.len() ==> {
                    &&& (#[trigger] nodes@[i]).puzzle.wf()
                    &&& replay(s0, nodes@[i].path@) == Some(nodes@[i].puzzle.state@)
                    &&& nodes@[i].path@.len() <= i
                },
            forall|k: u64| #[trigger] visited@.contains(k) ==> k < KEY_BOUND,
            nodes.len() <= 1 + 4 * visited@.len(),
            is_goal(s0) ==> frontier@.len() > 0 && forall|e: Entry|
                #[trigger] frontier@.contains(e) ==> e.1 == 0,
            covered(visited@, frontier@, nodes@, s0),
            forall|t: Seq<u8>|
                is_permutation(t) && #[trigger] visited@.contains(key_of(t)) ==> expanded(
                    visited@,
                    frontier@,
                    nodes@,
                    t,
                ),
            leads_to(s0, (visited@, frontier@, node_views(nodes@))),
        decreases KEY_BOUND - visited@.len(), frontier@.len(),
    {
        proof {
            lemma_key_set_len(visited@);
        }
        let ghost f0 = frontier@;
        let ghost v0 = visited@;
        let ghost g0 = (v0, f0, node_views(nodes@));
        let e = match frontier.pop() {
            None => {
                proof {
                    assert(run(g0, 1) == Some(None::<Seq<Dir>>));
                    assert(frontier@ =~= Multiset::<Entry>::empty());
                    assert forall|path: Seq<Dir>| !solves(s0, path) by {
                        lemma_exhausted(visited@, nodes@, s0, path);
                    }
                }
                return None;
            },
            Some(e) => e,
        };
        assert forall|x: Entry| #[trigger] frontier@.contains(x) implies x.1 < nodes.len() by {
            assert(f0.remove(e).count(x) <= f0.count(x));
            assert(f0.contains(x));
        }
        let idx = e.1;
        let cur = nodes[idx].puzzle;
        let ghost cp = nodes@[idx as int].path@;
        proof {
            let l = least(f0);
            assert(f0.contains(l) && forall|x: Entry| #[trigger] f0.contains(x) ==> !before(x, l));
            assert(!before(e, l) && !before(l, e));
            assert(l == e);
            assert(g0.2[idx as int] == (cur.state@, cp));
        }
        if cur.is_solved() {
            let path = nodes[idx].path.clone();
            assert(path@ =~= nodes@[idx as int].path@);
            assert(solves(s0, path@));
            assert(run(g0, 1) == Some(Some(path@)));
            return Some(path);
        }
        let k = key(&cur);
        proof {
            lemma_take(v0, f0, nodes@, e, cur.state@);
        }
        if visited.contains(&k) {
            assert(v0.insert(key_of(cur.state@)) =~= v0);
            proof {
                let g1 = (visited@, frontier@, node_views(nodes@));
                assert forall|fuel: nat| #[trigger] run(g1, fuel) is Some implies computes(s0, run(g1, fuel)->0) by {
                    assert(run(g0, fuel + 1) == run(g1, fuel));
                }
            }
            continue;
        }
        visited.insert(k);
        proof {
            lemma_key_set_len(visited@);
            lemma_has_blank(cur.state@);
            lemma_moves_from_len(blank_index(cur.state@), 0);
            lemma_moves_from_legal(blank_index(cur.state@), 0);
            assert forall|t: Seq<u8>|
                is_permutation(t) && #[trigger] visited@.contains(key_of(t)) && t
                    != cur.state@ implies expanded(visited@, frontier@, nodes@, t) by {
                if key_of(t) == key_of(cur.state@) {
                    lemma_key_injective(t, cur.state@);
                }
                assert(expanded(v0, f0, nodes@, t));
            }
        }
        let ghost n0 = nodes.len();
        let ghost b = blank_index(cur.state@);
        let ghost moves = legal_moves(b);
        let ghost v1 = visited@;
        let ghost f1 = frontier@;
        let ghost nv1 = node_views(nodes@);
        let mut it = cur.child_states();
        loop
            invariant
                it.wf(),
                it.puzzle == cur,
                it.index as int == b,
                b == blank_index(cur.state@),
                moves == legal_moves(b),
                it.pending().len() <= moves.len(),
                it.pending() == moves.subrange(moves.len() - it.pending().len(), moves.len() as int),
                forall|i: int| 0 <= i < moves.len() ==> can_move(b, #[trigger] moves[i]),
                idx < n0 <= nodes.len(),
                nodes.len() - n0 + it.pending().len() <= 4,
                nodes@[idx as int].puzzle == cur,
                !is_goal(cur.state@),
                is_permutation(cur.state@),
                frontier.wf(),
                forall|e: Entry| #[trigger] frontier@.contains(e) ==> e.1 < nodes.len(),
                nodes@[0].puzzle == puzzle,
                nodes@[0].path@.len() == 0,
                forall|i: int|
                    0 <= i < nodes.len() ==> {
                        &&& (#[trigger] nodes@[i]).puzzle.wf()
                        &&& replay(s0, nodes@[i].path@) == Some(nodes@[i].puzzle.state@)
                        &&& nodes@[i].path@.len() <= i
                    },
                forall|k: u64| #[trigger] visited@.contains(k) ==> k < KEY_BOUND,
                visited@.len() <= KEY_BOUND,
                n0 <= 4 * visited@.len() - 3,
                visited@.contains(key_of(cur.state@)),
                covered(visited@, frontier@, nodes@, s0),
                forall|t: Seq<u8>|
                    is_permutation(t) && #[trigger] visited@.contains(key_of(t)) && t
                        != cur.state@ ==> expanded(visited@, frontier@, nodes@, t),
                forall|i: int|
                    0 <= i < moves.len() - it.pending().len() ==> covered(
                        visited@,
                        frontier@,
                        nodes@,
                        #[trigger] slide(cur.state@, b, moves[i]),
                    ),
                visited@ == v1,
                cp == nodes@[idx as int].path@,
                add_children(v1, frontier@, node_views(nodes@), cur.state@, cp, it.pending())
                    == add_children(v1, f1, nv1, cur.state@, cp, moves),
            ensures
                it.pending().len() == 0,
            decreases it.pending().len(),
        {
            let ghost before = it.pending();
            let ghost m = moves.len() - before.len();
            match it.next() {
                None => {
                    break;
                },
                Some((p, d)) => {
                    assert(before[0] == moves[m]);
                    assert(can_move(b, d));
                    assert(it.pending() =~= moves.subrange(m + 1, moves.len() as int));
                    let pk = key(&p);
                    let ghost fa = frontier@;
                    let ghost na = node_views(nodes@);
                    assert(before.drop_first() =~= it.pending());
                    if !visited.contains(&pk) {
                        let child = nodes.len();
                        let mut path = nodes[idx].path.clone();
                        path.push(d);
                        proof {
                            let pp = nodes@[idx as int].path@;
                            assert(path@.drop_last() =~= pp);
                        }
                        let elt = QueueElt::new(p, path);
                        let ghost f1 = frontier@;
                        let ghost nodes1 = nodes@;
                        let entry = (elt.f, child);
                        frontier.push(entry);
                        nodes.push(elt);
                        proof {
                            assert forall|x: Entry| #[trigger] frontier@.contains(x) implies x.1
                                < nodes.len() by {
                                if x != entry {
                                    assert(f1.insert(entry).count(x) == f1.count(x));
                                    assert(f1.contains(x));
                                }
                            }
                            assert forall|x: Entry| f1.contains(x) implies #[trigger] frontier@.contains(x) by {
                                assert(f1.insert(entry).count(x) >= f1.count(x));
                            }
                            lemma_grow(visited@, f1, nodes1, frontier@, nodes@);
                            assert(frontier@.contains(entry));
                            assert(queued(frontier@, nodes@, p.state@));
                            assert(node_views(nodes@) =~= na.push((p.state@, cp.push(d))));
                            assert(add_children(v1, fa, na, cur.state@, cp, before) == add_children(
                                v1,
                                frontier@,
                                node_views(nodes@),
                                cur.state@,
                                cp,
                                it.pending(),
                            ));
                        }
                    }
                    assert(covered(visited@, frontier@, nodes@, slide(cur.state@, b, moves[m])));
                },
            }
        }
        proof {
            assert forall|d: Dir| can_move(blank_index(cur.state@), d) implies covered(
                visited@,
                frontier@,
                nodes@,
                #[trigger] slide(cur.state@, blank_index(cur.state@), d),
            ) by {
                lemma_legal_listed(b, d, 0);
                let j = choose|j: int| 0 <= j < moves.len() && moves[j] == d;
                assert(covered(visited@, frontier@, nodes@, slide(cur.state@, b, moves[j])));
            }
            assert(expanded(visited@, frontier@, nodes@, cur.state@));
            let g1 = (visited@, frontier@, node_views(nodes@));
            assert forall|fuel: nat| #[trigger] run(g1, fuel) is Some implies computes(s0, run(g1, fuel)->0) by {
                assert(run(g0, fuel + 1) == run(g1, fuel));
            }
        }
    }
}

} // verus!
