//! Conditional independence: d-separation by a Bayes-ball search.

use vstd::prelude::*;

use crate::graph::{children_of, edge_in, lemma_children_of, lemma_parents_of, parents_of, Edge, Graph};
use crate::sorted::slice_contains;
use crate::permeability::{is_walk, walk_step};
use crate::NodeId;

verus! {

broadcast use vstd::seq_lib::seq_to_set_is_finite;

/// A position of the ball: a node, and whether the ball travels up (towards parents).
pub type BallState = (NodeId, bool);

/// One move of the ball, given the conditioning set `z` (the Bayes-ball rules).
///
/// A ball going up has come from a child (or starts there): through a node not conditioned
/// on it passes on, up to a parent or down to a child; a conditioned node blocks it. A ball
/// going down has come from a parent: through a node not conditioned on it passes on down to
/// a child; a conditioned node bounces it back up to a parent (the v-structure that
/// conditioning on a common effect, or on a descendant of it, opens).
pub open spec fn ball_moves(edges: Seq<Edge>, z: Seq<NodeId>, s: BallState, t: BallState) -> bool {
    if s.1 {
        !z.contains(s.0) && ((t.1 && edge_in(edges, t.0, s.0)) || (!t.1 && edge_in(edges, s.0, t.0)))
    } else {
        (!t.1 && !z.contains(s.0) && edge_in(edges, s.0, t.0)) || (t.1 && z.contains(s.0)
            && edge_in(edges, t.0, s.0))
    }
}

/// The `i`-th step of `p` is a move of the ball.
pub open spec fn ball_step_at(edges: Seq<Edge>, z: Seq<NodeId>, p: Seq<BallState>, i: int) -> bool {
    ball_moves(edges, z, p[i], p[i + 1])
}

/// Every step of `p` is a move of the ball.
pub open spec fn ball_walk(edges: Seq<Edge>, z: Seq<NodeId>, p: Seq<BallState>) -> bool {
    forall|i: int| 0 <= i < p.len() - 1 ==> #[trigger] ball_step_at(edges, z, p, i)
}

/// A ball started upwards at `x` can reach the position `s`.
pub open spec fn ball_reaches(edges: Seq<Edge>, z: Seq<NodeId>, x: NodeId, s: BallState) -> bool {
    exists|p: Seq<BallState>|
        #[trigger] ball_walk(edges, z, p) && p.len() > 0 && p[0] == (x, true) && p.last() == s
}

/// A ball started upwards at `x` can reach the node `y` (travelling either way):
/// `x` and `y` are connected, not d-separated, given `z`.
pub open spec fn ball_connected(edges: Seq<Edge>, z: Seq<NodeId>, x: NodeId, y: NodeId) -> bool {
    ball_reaches(edges, z, x, (y, true)) || ball_reaches(edges, z, x, (y, false))
}

/// All positions the ball could ever take when started at `x`: both directions at `x` and
/// at every node that an edge touches.
pub open spec fn ball_positions(edges: Seq<Edge>, x: NodeId) -> Seq<BallState>
    decreases edges.len(),
{
    if edges.len() == 0 {
        seq![(x, true), (x, false)]
    } else {
        let e = edges.last();
        ball_positions(edges.drop_last(), x) + seq![(e.from, true), (e.from, false), (e.to, true), (e.to, false)]
    }
}

/// Both ends of every edge, in both directions, are positions of the ball.
proof fn lemma_ball_positions(edges: Seq<Edge>, x: NodeId, a: NodeId, b: NodeId, d: bool)
    requires
        edge_in(edges, a, b),
    ensures
        ball_positions(edges, x).contains((a, d)),
        ball_positions(edges, x).contains((b, d)),
    decreases edges.len(),
{
    let rest = edges.drop_last();
    let e = edges.last();
    crate::graph::lemma_edge_in_drop_last(edges, a, b);
    let pr = ball_positions(rest, x);
    let pe = ball_positions(edges, x);
    if edge_in(rest, a, b) {
        lemma_ball_positions(rest, x, a, b, d);
        let i = choose|i: int| 0 <= i < pr.len() && #[trigger] pr[i] == (a, d);
        assert(pe[i] == (a, d));
        let j = choose|j: int| 0 <= j < pr.len() && #[trigger] pr[j] == (b, d);
        assert(pe[j] == (b, d));
    } else {
        let n = pr.len() as int;
        if d {
            assert(pe[n] == (a, d));
            assert(pe[n + 2] == (b, d));
        } else {
            assert(pe[n + 1] == (a, d));
            assert(pe[n + 3] == (b, d));
        }
    }
}

/// Both directions at the start node are positions of the ball.
proof fn lemma_ball_positions_start(edges: Seq<Edge>, x: NodeId, d: bool)
    ensures
        ball_positions(edges, x).contains((x, d)),
    decreases edges.len(),
{
    if edges.len() == 0 {
        if d {
            assert(ball_positions(edges, x)[0] == (x, d));
        } else {
            assert(ball_positions(edges, x)[1] == (x, d));
        }
    } else {
        let pr = ball_positions(edges.drop_last(), x);
        lemma_ball_positions_start(edges.drop_last(), x, d);
        let i = choose|i: int| 0 <= i < pr.len() && #[trigger] pr[i] == (x, d);
        assert(ball_positions(edges, x)[i] == (x, d));
    }
}

/// Where a move can go is a position of the ball.
proof fn lemma_move_stays(edges: Seq<Edge>, z: Seq<NodeId>, x: NodeId, s: BallState, t: BallState)
    requires
        ball_moves(edges, z, s, t),
    ensures
        ball_positions(edges, x).contains(t),
{
    if edge_in(edges, t.0, s.0) {
        lemma_ball_positions(edges, x, t.0, s.0, t.1);
    } else {
        lemma_ball_positions(edges, x, s.0, t.0, t.1);
    }
}

/// A walk followed by one more move is a walk.
proof fn lemma_walk_push(edges: Seq<Edge>, z: Seq<NodeId>, p: Seq<BallState>, t: BallState)
    requires
        ball_walk(edges, z, p),
        p.len() > 0,
        ball_moves(edges, z, p.last(), t),
    ensures
        ball_walk(edges, z, p.push(t)),
{
    let q = p.push(t);
    assert forall|i: int| 0 <= i < q.len() - 1 implies #[trigger] ball_step_at(edges, z, q, i) by {
        if i < p.len() - 1 {
            assert(ball_step_at(edges, z, p, i));
        }
    }
}

/// Where a reachable position can move is reachable.
proof fn lemma_reaches_step(edges: Seq<Edge>, z: Seq<NodeId>, x: NodeId, s: BallState, t: BallState)
    requires
        ball_reaches(edges, z, x, s),
        ball_moves(edges, z, s, t),
    ensures
        ball_reaches(edges, z, x, t),
{
    let p = choose|p: Seq<BallState>|
        #[trigger] ball_walk(edges, z, p) && p.len() > 0 && p[0] == (x, true) && p.last() == s;
    lemma_walk_push(edges, z, p, t);
    assert(p.push(t)[0] == (x, true));
}

/// A set of positions that holds the start of a walk and is closed under moves holds the
/// whole walk.
proof fn lemma_closed_holds_walk(
    edges: Seq<Edge>,
    z: Seq<NodeId>,
    vis: Seq<BallState>,
    p: Seq<BallState>,
    k: int,
)
    requires
        ball_walk(edges, z, p),
        0 <= k < p.len(),
        vis.contains(p[0]),
        forall|s: BallState, t: BallState|
            #[trigger] vis.contains(s) && #[trigger] ball_moves(edges, z, s, t) ==> vis.contains(t),
    ensures
        vis.contains(p[k]),
    decreases k,
{
    if k > 0 {
        lemma_closed_holds_walk(edges, z, vis, p, k - 1);
        assert(ball_step_at(edges, z, p, k - 1));
    }
}

/// Appends `(v, up)` for every `v` of `items`, in order.
fn push_positions(queue: &mut Vec<BallState>, items: &Vec<NodeId>, up: bool)
    ensures
        final(queue)@ == old(queue)@ + items@.map_values(|v: NodeId| (v, up)),
{
    let n = items.len();
    let mut i: usize = 0;
    while i < n
        invariant
            n == items@.len(),
            i <= n,
            queue@ == old(queue)@ + items@.take(i as int).map_values(|v: NodeId| (v, up)),
        decreases n - i,
    {
        queue.push((items[i], up));
        assert(items@.take(i + 1).map_values(|v: NodeId| (v, up)) == items@.take(i as int).map_values(
            |v: NodeId| (v, up),
        ).push((items@[i as int], up)));
        i = i + 1;
    }
    assert(items@.take(n as int) == items@);
}

/// What a queue holds after positions were appended to it.
proof fn lemma_pushed_contains(q: Seq<BallState>, items: Seq<NodeId>, up: bool, s: BallState)
    ensures
        (q + items.map_values(|v: NodeId| (v, up))).contains(s) <==> (q.contains(s) || (s.1 == up
            && items.contains(s.0))),
{
    let m = items.map_values(|v: NodeId| (v, up));
    let r = q + m;
    if r.contains(s) {
        let k = choose|k: int| 0 <= k < r.len() && #[trigger] r[k] == s;
        if k < q.len() {
            assert(q[k] == s);
        } else {
            assert(m[k - q.len()] == s);
            assert(items[k - q.len()] == s.0);
        }
    }
    if q.contains(s) {
        let k = choose|k: int| 0 <= k < q.len() && #[trigger] q[k] == s;
        assert(r[k] == s);
    }
    if s.1 == up && items.contains(s.0) {
        let k = choose|k: int| 0 <= k < items.len() && #[trigger] items[k] == s.0;
        assert(r[q.len() + k] == s);
    }
}

/// Whether the position `s` is in `v`.
fn has_position(v: &Vec<BallState>, s: BallState) -> (r: bool)
    ensures
        r == v@.contains(s),
{
    let n = v.len();
    let mut i: usize = 0;
    while i < n
        invariant
            n == v@.len(),
            i <= n,
            forall|k: int| 0 <= k < i ==> v@[k] != s,
        decreases n - i,
    {
        if v[i].0 == s.0 && v[i].1 == s.1 {
            assert(v@[i as int] == s);
            return true;
        }
        i = i + 1;
    }
    false
}

/// Whether `x` and `y` are connected (not d-separated) given `z`: a Bayes-ball search from
/// `x` travelling up.
#[verifier::rlimit(40)]
fn is_connected_given(graph: &Graph, x: NodeId, y: NodeId, z: &[NodeId]) -> (r: bool)
    ensures
        r == ball_connected(graph.edges@, z@, x, y),
{
    let ghost edges = graph.edges@;
    let ghost zs = z@;
    let ghost univ = ball_positions(edges, x).to_set();
    let mut visited: Vec<BallState> = Vec::new();
    let mut queue: Vec<BallState> = Vec::new();
    queue.push((x, true));
    proof {
        lemma_ball_positions_start(edges, x, true);
        let p0 = seq![(x, true)];
        assert(ball_walk(edges, zs, p0));
        assert(queue@[0] == (x, true));
    }
    loop
        invariant
            edges == graph.edges@,
            zs == z@,
            univ == ball_positions(edges, x).to_set(),
            univ.finite(),
            visited@.no_duplicates(),
            visited@.len() <= univ.len(),
            forall|s: BallState| #[trigger] visited@.contains(s) ==> univ.contains(s)
                && ball_reaches(edges, zs, x, s) && s.0 != y,
            forall|s: BallState| #[trigger] queue@.contains(s) ==> univ.contains(s)
                && ball_reaches(edges, zs, x, s),
            visited@.contains((x, true)) || queue@.contains((x, true)),
            forall|s: BallState, t: BallState|
                #[trigger] visited@.contains(s) && #[trigger] ball_moves(edges, zs, s, t)
                    ==> visited@.contains(t) || queue@.contains(t),
        decreases univ.len() - visited@.len(), queue@.len(),
    {
        let ghost q0 = queue@;
        let popped = queue.pop();
        match popped {
            None => {
                proof {
                    assert(visited@.contains((x, true)));
                    assert forall|s: BallState, t: BallState|
                        #[trigger] visited@.contains(s) && #[trigger] ball_moves(edges, zs, s, t)
                            implies visited@.contains(t) by {}
                    assert forall|d: bool| !ball_reaches(edges, zs, x, (y, d)) by {
                        if ball_reaches(edges, zs, x, (y, d)) {
                            let p = choose|p: Seq<BallState>|
                                #[trigger] ball_walk(edges, zs, p) && p.len() > 0 && p[0] == (x, true)
                                    && p.last() == (y, d);
                            lemma_closed_holds_walk(edges, zs, visited@, p, p.len() - 1);
                        }
                    }
                }
                return false;
            },
            Some(t) => {
                let node = t.0;
                let going_up = t.1;
                proof {
                    assert(q0.last() == t);
                    assert(q0.contains(t));
                    assert forall|s: BallState| q0.contains(s) && s != t implies #[trigger] queue@.contains(s) by {
                        let k = choose|k: int| 0 <= k < q0.len() && #[trigger] q0[k] == s;
                        assert(queue@[k] == s);
                    }
                    assert forall|s: BallState| #[trigger] queue@.contains(s) implies q0.contains(s) by {
                        let k = choose|k: int| 0 <= k < queue@.len() && #[trigger] queue@[k] == s;
                        assert(q0[k] == s);
                    }
                }
                if has_position(&visited, t) {
                    continue;
                }
                let ghost v0 = visited@;
                visited.push(t);
                proof {
                    assert forall|s: BallState| #[trigger] visited@.contains(s) <==> (v0.contains(s) || s == t) by {
                        if visited@.contains(s) {
                            let k = choose|k: int| 0 <= k < visited@.len() && #[trigger] visited@[k] == s;
                            if k < v0.len() {
                                assert(v0[k] == s);
                            }
                        }
                        if v0.contains(s) {
                            let k = choose|k: int| 0 <= k < v0.len() && #[trigger] v0[k] == s;
                            assert(visited@[k] == s);
                        }
                        if s == t {
                            assert(visited@[v0.len() as int] == s);
                        }
                    }
                    assert(visited@.no_duplicates());
                    visited@.unique_seq_to_set();
                    assert(visited@.to_set().subset_of(univ));
                    vstd::set_lib::lemma_len_subset(visited@.to_set(), univ);
                }
                if node == y {
                    return true;
                }
                let ghost q1 = queue@;
                if going_up {
                    if !slice_contains(z, node) {
                        let ps = graph.parents(node);
                        push_positions(&mut queue, &ps, true);
                        let cs = graph.children(node);
                        push_positions(&mut queue, &cs, false);
                        proof {
                            assert forall|s: BallState| #[trigger] queue@.contains(s) <==> (q1.contains(s) || ball_moves(edges, zs, t, s)) by {
                                let q2 = q1 + ps@.map_values(|v: NodeId| (v, true));
                                lemma_pushed_contains(q1, ps@, true, s);
                                lemma_pushed_contains(q2, cs@, false, s);
                                lemma_parents_of(edges, node, s.0);
                                lemma_children_of(edges, node, s.0);
                            }
                        }
                    } else {
                        proof {
                            assert forall|s: BallState| #[trigger] queue@.contains(s) <==> (q1.contains(s) || ball_moves(edges, zs, t, s)) by {}
                        }
                    }
                } else {
                    let ghost in_z = zs.contains(node);
                    if !slice_contains(z, node) {
                        let cs = graph.children(node);
                        push_positions(&mut queue, &cs, false);
                    }
                    let ghost q2 = queue@;
                    if slice_contains(z, node) {
                        let ps = graph.parents(node);
                        push_positions(&mut queue, &ps, true);
                    }
                    proof {
                        assert forall|s: BallState| #[trigger] queue@.contains(s) <==> (q1.contains(s) || ball_moves(edges, zs, t, s)) by {
                            if in_z {
                                assert(q2 == q1);
                                lemma_pushed_contains(q1, parents_of(edges, node), true, s);
                                lemma_parents_of(edges, node, s.0);
                            } else {
                                assert(queue@ == q2);
                                lemma_pushed_contains(q1, children_of(edges, node), false, s);
                                lemma_children_of(edges, node, s.0);
                            }
                        }
                    }
                }
                proof {
                    assert forall|s: BallState| #[trigger] queue@.contains(s) implies univ.contains(s)
                        && ball_reaches(edges, zs, x, s) by {
                        if !q1.contains(s) {
                            lemma_move_stays(edges, zs, x, t, s);
                            lemma_reaches_step(edges, zs, x, t, s);
                        }
                    }
                }
            },
        }
    }
}

/// Whether `x` and `y` are d-separated given the conditioning set `z`, by a Bayes-ball
/// search from `x`: they are when no ball started at `x` can reach `y`.
pub fn d_separated(graph: &Graph, x: NodeId, y: NodeId, z: &[NodeId]) -> (r: bool)
    ensures
        r == !ball_connected(graph.edges@, z@, x, y),
        !z@.contains(x) ==> (r <==> !exists|p: Seq<NodeId>, fwd: Seq<bool>|
            #[trigger] active_trail(graph.edges@, z@, p, fwd) && p[0] == x && p.last() == y),
{
    let r = !is_connected_given(graph, x, y, z);
    proof {
        if !z@.contains(x) {
            lemma_ball_connected_iff_active_trail(graph.edges@, z@, x, y);
        }
    }
    r
}

/// The views of a vector of node lists.
pub open spec fn rows(v: Seq<Vec<NodeId>>) -> Seq<Seq<NodeId>> {
    v.map_values(|c: Vec<NodeId>| c@)
}

/// The `k`-element sub-sequences of `arr`, in lexicographic order of their positions:
/// first those that start with `arr[0]`, then those of the rest of `arr`.
pub open spec fn combos(arr: Seq<NodeId>, k: nat) -> Seq<Seq<NodeId>>
    decreases arr.len(),
{
    if k == 0 {
        seq![Seq::empty()]
    } else if k > arr.len() {
        Seq::empty()
    } else {
        combos(arr.drop_first(), (k - 1) as nat).map_values(|c: Seq<NodeId>| seq![arr[0]] + c)
            + combos(arr.drop_first(), k)
    }
}

/// `x` followed by the elements of `c`.
fn prepend(x: NodeId, c: &Vec<NodeId>) -> (r: Vec<NodeId>)
    ensures
        r@ == seq![x] + c@,
{
    let mut r: Vec<NodeId> = Vec::new();
    r.push(x);
    let n = c.len();
    let mut i: usize = 0;
    while i < n
        invariant
            n == c@.len(),
            i <= n,
            r@ == seq![x] + c@.take(i as int),
        decreases n - i,
    {
        r.push(c[i]);
        assert(c@.take(i + 1) == c@.take(i as int).push(c@[i as int]));
        i = i + 1;
    }
    assert(c@.take(n as int) == c@);
    r
}

/// All `k`-element sub-sequences of `arr`, in lexicographic order of their positions.
pub fn combinations(arr: &[NodeId], k: usize) -> (r: Vec<Vec<NodeId>>)
    ensures
        rows(r@) == combos(arr@, k as nat),
        rows(r@) == position_tuples(arr@.len(), k as nat).map_values(|t: Seq<int>| pick(arr@, t)),
    decreases arr@.len(),
{
    proof {
        lemma_combos_positions(arr@, k as nat);
    }
    if k == 0 {
        let mut r: Vec<Vec<NodeId>> = Vec::new();
        r.push(Vec::new());
        assert(rows(r@) =~= combos(arr@, 0));
        return r;
    }
    if k > arr.len() {
        let r: Vec<Vec<NodeId>> = Vec::new();
        assert(rows(r@) =~= combos(arr@, k as nat));
        return r;
    }
    let mut result: Vec<Vec<NodeId>> = Vec::new();
    let n = arr.len();
    let last = n - k;
    let mut i: usize = 0;
    proof {
        assert(arr@.skip(0) == arr@);
        assert(rows(result@) + combos(arr@.skip(0), k as nat) =~= combos(arr@, k as nat));
    }
    while i <= last
        invariant
            n == arr@.len(),
            1 <= k <= n,
            last == n - k,
            i <= last + 1,
            rows(result@) + combos(arr@.skip(i as int), k as nat) == combos(arr@, k as nat),
        decreases last + 1 - i,
    {
        let tail = vstd::slice::slice_subrange(arr, i + 1, n);
        let rest = combinations(tail, k - 1);
        let ghost before = rows(result@);
        let ghost s = arr@.skip(i as int);
        proof {
            assert(s.drop_first() =~= tail@);
            assert(s[0] == arr@[i as int]);
            assert(arr@.skip(i + 1) =~= tail@);
        }
        let m = rest.len();
        let mut j: usize = 0;
        while j < m
            invariant
                m == rest@.len(),
                j <= m,
                n == arr@.len(),
                i < n,
                rows(result@) == before + rows(rest@).take(j as int).map_values(
                    |c: Seq<NodeId>| seq![arr@[i as int]] + c,
                ),
            decreases m - j,
        {
            let combo = prepend(arr[i], &rest[j]);
            let ghost r0 = result@;
            result.push(combo);
            assert(rows(result@) =~= rows(r0).push(combo@));
            assert(rows(rest@).take(j + 1) == rows(rest@).take(j as int).push(rest@[j as int]@));
            assert(rows(rest@).take(j + 1).map_values(|c: Seq<NodeId>| seq![arr@[i as int]] + c)
                == rows(rest@).take(j as int).map_values(|c: Seq<NodeId>| seq![arr@[i as int]] + c).push(
                seq![arr@[i as int]] + rest@[j as int]@));
            assert(rows(result@) =~= before + rows(rest@).take(j + 1).map_values(
                |c: Seq<NodeId>| seq![arr@[i as int]] + c,
            ));
            j = j + 1;
        }
        proof {
            assert(rows(rest@).take(m as int) == rows(rest@));
            assert(combos(s, k as nat) == combos(tail@, (k - 1) as nat).map_values(
                |c: Seq<NodeId>| seq![s[0]] + c,
            ) + combos(tail@, k as nat));
            assert(rows(result@) + combos(arr@.skip(i + 1), k as nat) =~= combos(arr@, k as nat));
        }
        i = i + 1;
    }
    proof {
        assert(combos(arr@.skip(i as int), k as nat) == Seq::<Seq<NodeId>>::empty());
        assert(rows(result@) =~= combos(arr@, k as nat));
    }
    result
}

/// The nodes of `nodes` other than `x` and `y`, in order.
pub open spec fn others(nodes: Seq<NodeId>, x: NodeId, y: NodeId) -> Seq<NodeId>
    decreases nodes.len(),
{
    if nodes.len() == 0 {
        Seq::empty()
    } else {
        let rest = others(nodes.drop_last(), x, y);
        let n = nodes.last();
        if n != x && n != y {
            rest.push(n)
        } else {
            rest
        }
    }
}

/// The sub-sequences of `arr` with fewer than `n` elements, by size and then in the order of
/// `combos`.
pub open spec fn sets_by_size(arr: Seq<NodeId>, n: nat) -> Seq<Seq<NodeId>>
    decreases n,
{
    if n == 0 {
        Seq::empty()
    } else {
        sets_by_size(arr, (n - 1) as nat) + combos(arr, (n - 1) as nat)
    }
}

/// The first set of `cands` that d-separates `x` and `y`, or the empty sequence when none does.
pub open spec fn first_separating(edges: Seq<Edge>, x: NodeId, y: NodeId, cands: Seq<Seq<NodeId>>) -> Seq<NodeId>
    decreases cands.len(),
{
    if cands.len() == 0 {
        Seq::empty()
    } else if !ball_connected(edges, cands[0], x, y) {
        cands[0]
    } else {
        first_separating(edges, x, y, cands.drop_first())
    }
}

/// The candidate sets for separating `x` from `y`: all sets of other nodes of the graph, by
/// size.
pub open spec fn separating_candidates(nodes: Seq<NodeId>, x: NodeId, y: NodeId) -> Seq<Seq<NodeId>> {
    let arr = others(nodes, x, y);
    sets_by_size(arr, arr.len() + 1)
}

proof fn lemma_first_separating_at(edges: Seq<Edge>, x: NodeId, y: NodeId, cands: Seq<Seq<NodeId>>, j: int)
    requires
        0 <= j < cands.len(),
        forall|k: int| 0 <= k < j ==> ball_connected(edges, #[trigger] cands[k], x, y),
        !ball_connected(edges, cands[j], x, y),
    ensures
        first_separating(edges, x, y, cands) == cands[j],
    decreases j,
{
    if j > 0 {
        let t = cands.drop_first();
        assert(ball_connected(edges, cands[0], x, y));
        assert forall|k: int| 0 <= k < j - 1 implies ball_connected(edges, #[trigger] t[k], x, y) by {
            assert(t[k] == cands[k + 1]);
        }
        lemma_first_separating_at(edges, x, y, t, j - 1);
    }
}

proof fn lemma_first_separating_none(edges: Seq<Edge>, x: NodeId, y: NodeId, cands: Seq<Seq<NodeId>>)
    requires
        forall|k: int| 0 <= k < cands.len() ==> ball_connected(edges, #[trigger] cands[k], x, y),
    ensures
        first_separating(edges, x, y, cands) == Seq::<NodeId>::empty(),
    decreases cands.len(),
{
    if cands.len() > 0 {
        let t = cands.drop_first();
        assert(ball_connected(edges, cands[0], x, y));
        assert forall|k: int| 0 <= k < t.len() implies ball_connected(edges, #[trigger] t[k], x, y) by {
            assert(t[k] == cands[k + 1]);
        }
        lemma_first_separating_none(edges, x, y, t);
    }
}

/// The only set with no element is the empty one.
pub(crate) proof fn lemma_sets_by_size_one(arr: Seq<NodeId>)
    ensures
        sets_by_size(arr, 1) == seq![Seq::<NodeId>::empty()],
{
    assert(sets_by_size(arr, 0) == Seq::<Seq<NodeId>>::empty());
    assert(combos(arr, 0) == seq![Seq::<NodeId>::empty()]);
    assert(sets_by_size(arr, 1) =~= seq![Seq::<NodeId>::empty()]);
}

pub(crate) proof fn lemma_sets_prefix(arr: Seq<NodeId>, m: nat, n: nat, idx: int)
    requires
        m <= n,
        0 <= idx < sets_by_size(arr, m).len(),
    ensures
        idx < sets_by_size(arr, n).len(),
        sets_by_size(arr, n)[idx] == sets_by_size(arr, m)[idx],
    decreases n,
{
    if m < n {
        lemma_sets_prefix(arr, m, (n - 1) as nat, idx);
    }
}

/// The nodes of `nodes` other than `x` and `y`, in order.
fn other_nodes(nodes: &Vec<NodeId>, x: NodeId, y: NodeId) -> (r: Vec<NodeId>)
    ensures
        r@ == others(nodes@, x, y),
        r@ == nodes@.filter(|v: NodeId| v != x && v != y),
{
    proof {
        lemma_others_filter(nodes@, x, y);
    }
    let mut r: Vec<NodeId> = Vec::new();
    let n = nodes.len();
    let mut i: usize = 0;
    while i < n
        invariant
            n == nodes@.len(),
            i <= n,
            r@ == others(nodes@.take(i as int), x, y),
        decreases n - i,
    {
        assert(nodes@.take(i + 1).drop_last() == nodes@.take(i as int));
        let v = nodes[i];
        if v != x && v != y {
            r.push(v);
        }
        i = i + 1;
    }
    assert(nodes@.take(n as int) == nodes@);
    r
}

/// The smallest conditioning set that d-separates `x` and `y`: the first separating set of
/// other nodes, trying sets by increasing size and, within a size, in lexicographic order of
/// positions; empty when no set separates them. Whenever some set of nodes other than `x`
/// and `y` d-separates them, so does the result, and it has no more elements than any
/// separating sub-sequence of the other nodes.
pub fn minimal_separating_set(graph: &Graph, x: NodeId, y: NodeId) -> (r: Vec<NodeId>)
    ensures
        r@ == first_separating(graph.edges@, x, y, separating_candidates(graph.nodes@, x, y)),
        subsequence_of(r@, others(graph.nodes@, x, y)),
        forall|s: Seq<NodeId>| #[trigger] subsequence_of(s, others(graph.nodes@, x, y))
            && !ball_connected(graph.edges@, s, x, y) ==> !ball_connected(graph.edges@, r@, x, y) && r@.len() <= s.len(),
        forall|v: NodeId| #[trigger] r@.contains(v) ==> graph.nodes@.contains(v) && v != x && v != y,
        r@.len() == 0 || !ball_connected(graph.edges@, r@, x, y),
        first_in_position_order(graph.edges@, others(graph.nodes@, x, y), x, y, r@),
        forall|s: Seq<NodeId>|
            #![trigger ball_connected(graph.edges@, s, x, y)]
            (forall|v: NodeId| #[trigger] s.contains(v) ==> graph.nodes@.contains(v) && v != x && v != y)
                && !ball_connected(graph.edges@, s, x, y) ==> !ball_connected(graph.edges@, r@, x, y),
{
    let all_nodes = other_nodes(&graph.nodes, x, y);
    let ghost arr = all_nodes@;
    let ghost whole = separating_candidates(graph.nodes@, x, y);
    let len = all_nodes.len();
    let mut size: usize = 0;
    loop
        invariant
            arr == all_nodes@,
            arr == others(graph.nodes@, x, y),
            whole == sets_by_size(arr, arr.len() + 1),
            len == arr.len(),
            size <= len,
            forall|k: int| 0 <= k < sets_by_size(arr, size as nat).len()
                ==> ball_connected(graph.edges@, #[trigger] sets_by_size(arr, size as nat)[k], x, y),
        decreases len - size,
    {
        let cs = combinations(all_nodes.as_slice(), size);
        let ghost before = sets_by_size(arr, size as nat);
        let m = cs.len();
        let mut j: usize = 0;
        while j < m
            invariant
                m == cs@.len(),
                j <= m,
                rows(cs@) == combos(arr, size as nat),
                before == sets_by_size(arr, size as nat),
                arr == others(graph.nodes@, x, y),
                whole == sets_by_size(arr, arr.len() + 1),
                size <= arr.len(),
                forall|k: int| 0 <= k < before.len()
                    ==> ball_connected(graph.edges@, #[trigger] before[k], x, y),
                forall|k: int| 0 <= k < j ==> ball_connected(graph.edges@, #[trigger] rows(cs@)[k], x, y),
            decreases m - j,
        {
            let sep = d_separated(graph, x, y, cs[j].as_slice());
            if sep {
                proof {
                    let p = before.len() + j;
                    let after = sets_by_size(arr, (size + 1) as nat);
                    assert(after == before + rows(cs@));
                    assert forall|k: int| 0 <= k < p implies ball_connected(graph.edges@, #[trigger] whole[k], x, y) by {
                        lemma_sets_prefix(arr, (size + 1) as nat, arr.len() + 1, k);
                        if k < before.len() {
                            assert(after[k] == before[k]);
                        } else {
                            assert(after[k] == rows(cs@)[k - before.len()]);
                        }
                    }
                    lemma_sets_prefix(arr, (size + 1) as nat, arr.len() + 1, p);
                    assert(after[p] == rows(cs@)[j as int]);
                    assert(rows(cs@)[j as int] == cs@[j as int]@);
                    lemma_first_separating_at(graph.edges@, x, y, whole, p);
                }
                let res = cs[j].clone();
                proof {
                    assert(res@ == first_separating(graph.edges@, x, y, whole));
                    lemma_minimal_separating_set_global(graph.edges@, graph.nodes@, x, y, Seq::empty());
                    lemma_minimal_separating_set_any(graph.edges@, graph.nodes@, x, y);
                    lemma_minimal_separating_set_first(graph.edges@, graph.nodes@, x, y);
                    assert forall|s: Seq<NodeId>| #[trigger] subsequence_of(s, others(graph.nodes@, x, y))
                        && !ball_connected(graph.edges@, s, x, y) implies !ball_connected(graph.edges@, res@, x, y)
                        && res@.len() <= s.len() by {
                        lemma_minimal_separating_set_global(graph.edges@, graph.nodes@, x, y, s);
                    }
                }
                return res;
            }
            assert(rows(cs@)[j as int] == cs@[j as int]@);
            j = j + 1;
        }
        proof {
            let after = sets_by_size(arr, (size + 1) as nat);
            assert(after == before + rows(cs@));
            assert forall|k: int| 0 <= k < after.len() implies ball_connected(graph.edges@, #[trigger] after[k], x, y) by {
                if k < before.len() {
                    assert(after[k] == before[k]);
                } else {
                    assert(after[k] == rows(cs@)[k - before.len()]);
                }
            }
        }
        if size == len {
            let res: Vec<NodeId> = Vec::new();
            proof {
                lemma_first_separating_none(graph.edges@, x, y, whole);
                assert(res@ =~= first_separating(graph.edges@, x, y, whole));
                lemma_minimal_separating_set_global(graph.edges@, graph.nodes@, x, y, Seq::empty());
                lemma_minimal_separating_set_any(graph.edges@, graph.nodes@, x, y);
                lemma_minimal_separating_set_first(graph.edges@, graph.nodes@, x, y);
                assert forall|s: Seq<NodeId>| #[trigger] subsequence_of(s, others(graph.nodes@, x, y))
                    && !ball_connected(graph.edges@, s, x, y) implies !ball_connected(graph.edges@, res@, x, y)
                    && res@.len() <= s.len() by {
                    lemma_minimal_separating_set_global(graph.edges@, graph.nodes@, x, y, s);
                }
            }
            return res;
        }
        size = size + 1;
    }
}

/// Whether `x` and `y` are d-separated without conditioning on anything.
pub fn unconditionally_independent(graph: &Graph, x: NodeId, y: NodeId) -> (r: bool)
    ensures
        r == !ball_connected(graph.edges@, Seq::empty(), x, y),
{
    let none: Vec<NodeId> = Vec::new();
    d_separated(graph, x, y, none.as_slice())
}

/// The pairs `(nodes[i], nodes[j])`, `i < j < bound`, that `z` d-separates, by increasing `j`.
pub open spec fn separated_row(edges: Seq<Edge>, z: Seq<NodeId>, nodes: Seq<NodeId>, i: int, bound: int) -> Seq<(NodeId, NodeId)>
    decreases bound - i,
{
    if bound <= i + 1 {
        Seq::empty()
    } else {
        let rest = separated_row(edges, z, nodes, i, bound - 1);
        if !ball_connected(edges, z, nodes[i], nodes[bound - 1]) {
            rest.push((nodes[i], nodes[bound - 1]))
        } else {
            rest
        }
    }
}

/// The pairs `(nodes[i], nodes[j])`, `i < j`, `i < bound`, that `z` d-separates, in
/// row-major order of `(i, j)`.
pub open spec fn separated_pairs(edges: Seq<Edge>, z: Seq<NodeId>, nodes: Seq<NodeId>, bound: int) -> Seq<(NodeId, NodeId)>
    decreases bound,
{
    if bound <= 0 {
        Seq::empty()
    } else {
        separated_pairs(edges, z, nodes, bound - 1) + separated_row(edges, z, nodes, bound - 1, nodes.len() as int)
    }
}

/// A sequence of pairs holds `p` exactly when one of two parts of it does.
proof fn lemma_pairs_concat_contains(a: Seq<(NodeId, NodeId)>, b: Seq<(NodeId, NodeId)>, p: (NodeId, NodeId))
    ensures
        (a + b).contains(p) <==> (a.contains(p) || b.contains(p)),
{
    let c = a + b;
    if c.contains(p) {
        let k = choose|k: int| 0 <= k < c.len() && c[k] == p;
        if k < a.len() {
            assert(a[k] == p);
        } else {
            assert(b[k - a.len()] == p);
        }
    }
    if a.contains(p) {
        let k = choose|k: int| 0 <= k < a.len() && a[k] == p;
        assert(c[k] == p);
    }
    if b.contains(p) {
        let k = choose|k: int| 0 <= k < b.len() && b[k] == p;
        assert(c[a.len() + k] == p);
    }
}

/// The row of position `i` holds exactly the separated pairs `(nodes[i], nodes[j])` with
/// `i < j < bound`.
proof fn lemma_separated_row_members(edges: Seq<Edge>, z: Seq<NodeId>, nodes: Seq<NodeId>, i: int, bound: int)
    requires
        0 <= i,
        bound <= nodes.len(),
    ensures
        forall|p: (NodeId, NodeId)| #[trigger] separated_row(edges, z, nodes, i, bound).contains(p)
            <==> exists|j: int| #![trigger nodes[j]] i < j < bound && p == (nodes[i], nodes[j])
                && !ball_connected(edges, z, nodes[i], nodes[j]),
    decreases bound - i,
{
    let row = separated_row(edges, z, nodes, i, bound);
    if bound <= i + 1 {
        assert forall|p: (NodeId, NodeId)| #[trigger] row.contains(p)
            <==> exists|j: int| #![trigger nodes[j]] i < j < bound && p == (nodes[i], nodes[j])
                && !ball_connected(edges, z, nodes[i], nodes[j]) by {}
    } else {
        lemma_separated_row_members(edges, z, nodes, i, bound - 1);
        let rest = separated_row(edges, z, nodes, i, bound - 1);
        let last = (nodes[i], nodes[bound - 1]);
        let sep = !ball_connected(edges, z, nodes[i], nodes[bound - 1]);
        assert forall|p: (NodeId, NodeId)| #[trigger] row.contains(p)
            <==> exists|j: int| #![trigger nodes[j]] i < j < bound && p == (nodes[i], nodes[j])
                && !ball_connected(edges, z, nodes[i], nodes[j]) by {
            if sep {
                assert(row == rest + seq![last]);
                lemma_pairs_concat_contains(rest, seq![last], p);
                if p == last {
                    assert(nodes[bound - 1] == nodes[bound - 1]);
                }
            } else {
                assert(row == rest);
            }
            if exists|j: int| #![trigger nodes[j]] i < j < bound && p == (nodes[i], nodes[j])
                && !ball_connected(edges, z, nodes[i], nodes[j]) {
                let j = choose|j: int| #![trigger nodes[j]] i < j < bound && p == (nodes[i], nodes[j])
                    && !ball_connected(edges, z, nodes[i], nodes[j]);
                if j < bound - 1 {
                    assert(rest.contains(p));
                } else {
                    assert(seq![last][0] == p);
                }
            }
        }
    }
}

/// The pairs that `separated_pairs` lists for the rows before `bound` are exactly the pairs
/// `(nodes[i], nodes[j])`, `i < bound`, `i < j`, that `z` d-separates.
pub proof fn lemma_separated_pairs_members(edges: Seq<Edge>, z: Seq<NodeId>, nodes: Seq<NodeId>, bound: int)
    requires
        0 <= bound <= nodes.len(),
    ensures
        forall|p: (NodeId, NodeId)| #[trigger] separated_pairs(edges, z, nodes, bound).contains(p)
            <==> exists|i: int, j: int| #![trigger nodes[i], nodes[j]] 0 <= i < bound && i < j < nodes.len()
                && p == (nodes[i], nodes[j]) && !ball_connected(edges, z, nodes[i], nodes[j]),
    decreases bound,
{
    let pairs = separated_pairs(edges, z, nodes, bound);
    if bound == 0 {
        assert forall|p: (NodeId, NodeId)| #[trigger] pairs.contains(p)
            <==> exists|i: int, j: int| #![trigger nodes[i], nodes[j]] 0 <= i < bound && i < j < nodes.len()
                && p == (nodes[i], nodes[j]) && !ball_connected(edges, z, nodes[i], nodes[j]) by {}
    } else {
        lemma_separated_pairs_members(edges, z, nodes, bound - 1);
        lemma_separated_row_members(edges, z, nodes, bound - 1, nodes.len() as int);
        let prev = separated_pairs(edges, z, nodes, bound - 1);
        let row = separated_row(edges, z, nodes, bound - 1, nodes.len() as int);
        assert(pairs == prev + row);
        assert forall|p: (NodeId, NodeId)| #[trigger] pairs.contains(p)
            <==> exists|i: int, j: int| #![trigger nodes[i], nodes[j]] 0 <= i < bound && i < j < nodes.len()
                && p == (nodes[i], nodes[j]) && !ball_connected(edges, z, nodes[i], nodes[j]) by {
            lemma_pairs_concat_contains(prev, row, p);
            if row.contains(p) {
                let j = choose|j: int| #![trigger nodes[j]] bound - 1 < j < nodes.len() && p == (nodes[bound - 1], nodes[j])
                    && !ball_connected(edges, z, nodes[bound - 1], nodes[j]);
                assert(nodes[bound - 1] == nodes[bound - 1]);
            }
            if exists|i: int, j: int| #![trigger nodes[i], nodes[j]] 0 <= i < bound && i < j < nodes.len()
                && p == (nodes[i], nodes[j]) && !ball_connected(edges, z, nodes[i], nodes[j]) {
                let (i, j) = choose|i: int, j: int| #![trigger nodes[i], nodes[j]] 0 <= i < bound && i < j < nodes.len()
                    && p == (nodes[i], nodes[j]) && !ball_connected(edges, z, nodes[i], nodes[j]);
                if i < bound - 1 {
                    assert(prev.contains(p));
                } else {
                    assert(row.contains(p));
                }
            }
        }
    }
}

/// Position pair `a` comes before `b` in row-major order.
pub open spec fn position_before(a: (int, int), b: (int, int)) -> bool {
    a.0 < b.0 || (a.0 == b.0 && a.1 < b.1)
}

/// `q` lists, in strictly increasing row-major order, exactly the position pairs `(i, j)`,
/// `i < j`, whose nodes `z` d-separates.
pub open spec fn separated_positions(edges: Seq<Edge>, z: Seq<NodeId>, nodes: Seq<NodeId>, q: Seq<(int, int)>) -> bool {
    &&& forall|a: int, b: int| 0 <= a < b < q.len() ==> position_before(#[trigger] q[a], #[trigger] q[b])
    &&& forall|i: int, j: int| #[trigger] q.contains((i, j))
        <==> (0 <= i < j < nodes.len() && !ball_connected(edges, z, nodes[i], nodes[j]))
}

/// The node pairs at the position pairs `q`.
pub open spec fn nodes_at(nodes: Seq<NodeId>, q: Seq<(int, int)>) -> Seq<(NodeId, NodeId)> {
    q.map_values(|ij: (int, int)| (nodes[ij.0], nodes[ij.1]))
}

/// All pairs of graph nodes, in order of their positions, that `z` d-separates: the pairs at
/// the position pairs `i < j` whose nodes `z` d-separates, each once and in row-major order;
/// so `(nodes[i], nodes[j])` is listed exactly when `z` d-separates its nodes.
pub fn all_separated_pairs(graph: &Graph, z: &[NodeId]) -> (r: Vec<(NodeId, NodeId)>)
    ensures
        r@ == separated_pairs(graph.edges@, z@, graph.nodes@, graph.nodes@.len() as int),
        exists|q: Seq<(int, int)>| #[trigger] separated_positions(graph.edges@, z@, graph.nodes@, q)
            && r@ == nodes_at(graph.nodes@, q),
        forall|p: (NodeId, NodeId)| #[trigger] r@.contains(p)
            <==> exists|i: int, j: int| #![trigger graph.nodes@[i], graph.nodes@[j]] 0 <= i < j < graph.nodes@.len()
                && p == (graph.nodes@[i], graph.nodes@[j]) && !ball_connected(graph.edges@, z@, graph.nodes@[i], graph.nodes@[j]),
{
    proof {
        lemma_separated_pairs_members(graph.edges@, z@, graph.nodes@, graph.nodes@.len() as int);
    }
    let ghost edges = graph.edges@;
    let ghost nodes = graph.nodes@;
    let mut pairs: Vec<(NodeId, NodeId)> = Vec::new();
    let ghost mut q: Seq<(int, int)> = Seq::empty();
    let n = graph.nodes.len();
    let mut i: usize = 0;
    while i < n
        invariant
            n == graph.nodes@.len(),
            edges == graph.edges@,
            nodes == graph.nodes@,
            i <= n,
            pairs@ == separated_pairs(graph.edges@, z@, graph.nodes@, i as int),
            pairs@ == nodes_at(nodes, q),
            forall|a: int, b: int| 0 <= a < b < q.len() ==> position_before(#[trigger] q[a], #[trigger] q[b]),
            forall|a: int, b: int| #[trigger] q.contains((a, b))
                <==> (0 <= a < b < n && a < i && !ball_connected(edges, z@, nodes[a], nodes[b])),
        decreases n - i,
    {
        let ghost before = pairs@;
        let mut j: usize = i + 1;
        while j < n
            invariant
                n == graph.nodes@.len(),
                edges == graph.edges@,
                nodes == graph.nodes@,
                i < n,
                i + 1 <= j <= n,
                pairs@ == before + separated_row(graph.edges@, z@, graph.nodes@, i as int, j as int),
                pairs@ == nodes_at(nodes, q),
                forall|a: int, b: int| 0 <= a < b < q.len() ==> position_before(#[trigger] q[a], #[trigger] q[b]),
                forall|a: int, b: int| #[trigger] q.contains((a, b))
                    <==> (0 <= a < b < n && (a < i || (a == i && b < j)) && !ball_connected(edges, z@, nodes[a], nodes[b])),
            decreases n - j,
        {
            if d_separated(graph, graph.nodes[i], graph.nodes[j], z) {
                pairs.push((graph.nodes[i], graph.nodes[j]));
                proof {
                    let old_q = q;
                    let ij = (i as int, j as int);
                    q = q.push(ij);
                    assert(pairs@ =~= nodes_at(nodes, q));
                    assert forall|a: int, b: int| 0 <= a < b < q.len() implies position_before(#[trigger] q[a], #[trigger] q[b]) by {
                        if b == old_q.len() {
                            let e = old_q[a];
                            assert(e == (e.0, e.1));
                            assert(old_q.contains((e.0, e.1)));
                            assert(q[a] == e);
                            assert(q[b] == ij);
                        } else {
                            assert(q[a] == old_q[a] && q[b] == old_q[b]);
                        }
                    }
                    assert forall|a: int, b: int| #[trigger] q.contains((a, b))
                        <==> (0 <= a < b < n && (a < i || (a == i && b < j + 1)) && !ball_connected(edges, z@, nodes[a], nodes[b])) by {
                        lemma_positions_push_contains(old_q, ij, (a, b));
                    }
                }
            } else {
                proof {
                    assert forall|a: int, b: int| #[trigger] q.contains((a, b))
                        <==> (0 <= a < b < n && (a < i || (a == i && b < j + 1)) && !ball_connected(edges, z@, nodes[a], nodes[b])) by {
                        if a == i && b == j {
                            assert(!q.contains((a, b)));
                        }
                    }
                }
            }
            j = j + 1;
        }
        i = i + 1;
    }
    proof {
        assert forall|a: int, b: int| #[trigger] q.contains((a, b))
            <==> (0 <= a < b < nodes.len() && !ball_connected(edges, z@, nodes[a], nodes[b])) by {}
        assert(separated_positions(edges, z@, nodes, q));
    }
    pairs
}

/// Appending one position pair adds exactly that pair to those held.
proof fn lemma_positions_push_contains(q: Seq<(int, int)>, e: (int, int), p: (int, int))
    ensures
        q.push(e).contains(p) <==> (q.contains(p) || p == e),
{
    let q2 = q.push(e);
    if q2.contains(p) {
        let k = choose|k: int| 0 <= k < q2.len() && q2[k] == p;
        if k < q.len() {
            assert(q[k] == p);
        }
    }
    if q.contains(p) {
        let k = choose|k: int| 0 <= k < q.len() && q[k] == p;
        assert(q2[k] == p);
    }
    assert(q2[q.len() as int] == e);
}

/// Whether `z` is a conditioning set that d-separates `x` and `y`.
pub fn is_valid_conditioning_set(graph: &Graph, x: NodeId, y: NodeId, z: &[NodeId]) -> (r: bool)
    ensures
        r == !ball_connected(graph.edges@, z@, x, y),
{
    d_separated(graph, x, y, z)
}

/// A ball started at `x` is at `x` already: no conditioning set d-separates a node from
/// itself.
pub proof fn lemma_connected_to_self(edges: Seq<Edge>, z: Seq<NodeId>, x: NodeId)
    ensures
        ball_connected(edges, z, x, x),
{
    let p = seq![(x, true)];
    assert(ball_walk(edges, z, p));
    assert(p.last() == (x, true));
}

/// The walk `p` of the ball traversed backwards: the same nodes in reverse order, each
/// reached along the same edge in the opposite direction, starting upwards.
pub open spec fn reversed_walk(p: Seq<BallState>) -> Seq<BallState> {
    let k = p.len() - 1;
    Seq::new(p.len(), |j: int| if j == 0 { (p[k].0, true) } else { (p[k - j].0, !p[k - j + 1].1) })
}

/// D-separation is symmetric: when neither `x` nor `y` is conditioned on, a ball from `x`
/// reaches `y` exactly when a ball from `y` reaches `x`.
pub proof fn lemma_ball_connected_symmetric(edges: Seq<Edge>, z: Seq<NodeId>, x: NodeId, y: NodeId)
    requires
        !z.contains(x),
        !z.contains(y),
    ensures
        ball_connected(edges, z, x, y) <==> ball_connected(edges, z, y, x),
{
    if ball_connected(edges, z, x, y) {
        lemma_ball_connected_reversed(edges, z, x, y);
    }
    if ball_connected(edges, z, y, x) {
        lemma_ball_connected_reversed(edges, z, y, x);
    }
}

proof fn lemma_ball_connected_reversed(edges: Seq<Edge>, z: Seq<NodeId>, x: NodeId, y: NodeId)
    requires
        !z.contains(y),
        ball_connected(edges, z, x, y),
    ensures
        ball_connected(edges, z, y, x),
{
    let d = if ball_reaches(edges, z, x, (y, true)) { true } else { false };
    let p = choose|p: Seq<BallState>|
        #[trigger] ball_walk(edges, z, p) && p.len() > 0 && p[0] == (x, true) && p.last() == (y, d);
    let k = p.len() - 1;
    if k == 0 {
        lemma_connected_to_self(edges, z, x);
    } else {
        let q = reversed_walk(p);
        assert forall|j: int| 0 <= j < q.len() - 1 implies #[trigger] ball_step_at(edges, z, q, j) by {
            let i = k - j;
            assert(ball_step_at(edges, z, p, i - 1));
            if i < k {
                assert(ball_step_at(edges, z, p, i));
                assert(q[j] == (p[i].0, !p[i + 1].1));
            } else {
                assert(q[j] == (y, true));
                assert(p[i] == (y, d));
            }
            assert(q[j + 1] == (p[i - 1].0, !p[i].1));
        }
        assert(q[0] == (y, true));
        assert(q.last() == (x, !p[1].1));
        assert(ball_walk(edges, z, q));
        if p[1].1 {
            assert(ball_reaches(edges, z, y, (x, false)));
        } else {
            assert(ball_reaches(edges, z, y, (x, true)));
        }
    }
}

/// The number of ways to choose `k` of `n` things.
pub open spec fn binomial(n: nat, k: nat) -> nat
    decreases n,
{
    if k == 0 {
        1
    } else if n == 0 {
        0
    } else {
        binomial((n - 1) as nat, (k - 1) as nat) + binomial((n - 1) as nat, k)
    }
}

proof fn lemma_binomial_zero(n: nat, k: nat)
    requires
        k > n,
    ensures
        binomial(n, k) == 0,
    decreases n,
{
    if n > 0 {
        lemma_binomial_zero((n - 1) as nat, (k - 1) as nat);
        lemma_binomial_zero((n - 1) as nat, k);
    }
}

/// `combinations(arr, k)` yields `binomial(arr.len(), k)` sets, each of `k` elements drawn
/// from `arr`.
pub proof fn lemma_combos_shape(arr: Seq<NodeId>, k: nat)
    ensures
        combos(arr, k).len() == binomial(arr.len(), k),
        forall|i: int| 0 <= i < combos(arr, k).len() ==> (#[trigger] combos(arr, k)[i]).len() == k,
        forall|i: int, j: int|
            0 <= i < combos(arr, k).len() && 0 <= j < combos(arr, k)[i].len() ==> arr.contains(
                #[trigger] combos(arr, k)[i][j],
            ),
    decreases arr.len(),
{
    let c = combos(arr, k);
    if k == 0 {
    } else if k > arr.len() {
        lemma_binomial_zero(arr.len(), k);
    } else {
        let rest = arr.drop_first();
        lemma_combos_shape(rest, (k - 1) as nat);
        lemma_combos_shape(rest, k);
        let a = combos(rest, (k - 1) as nat).map_values(|t: Seq<NodeId>| seq![arr[0]] + t);
        let b = combos(rest, k);
        assert(c == a + b);
        assert forall|i: int| 0 <= i < c.len() implies (#[trigger] c[i]).len() == k by {
            if i < a.len() {
                assert(c[i] == seq![arr[0]] + combos(rest, (k - 1) as nat)[i]);
            } else {
                assert(c[i] == b[i - a.len()]);
            }
        }
        assert forall|i: int, j: int| 0 <= i < c.len() && 0 <= j < c[i].len() implies arr.contains(#[trigger] c[i][j]) by {
            if i < a.len() {
                let t = combos(rest, (k - 1) as nat)[i];
                assert(c[i] == seq![arr[0]] + t);
                if j == 0 {
                    assert(arr[0] == c[i][j]);
                } else {
                    assert(c[i][j] == t[j - 1]);
                    assert(rest.contains(t[j - 1]));
                    let m = choose|m: int| 0 <= m < rest.len() && rest[m] == t[j - 1];
                    assert(arr[m + 1] == c[i][j]);
                }
            } else {
                let t = b[i - a.len()];
                assert(c[i] == t);
                assert(rest.contains(t[j]));
                let m = choose|m: int| 0 <= m < rest.len() && rest[m] == t[j];
                assert(arr[m + 1] == c[i][j]);
            }
        }
    }
}

/// The search of `first_separating`: the result is the first candidate that separates `x`
/// and `y`, or empty when none does.
pub proof fn lemma_first_separating_index(edges: Seq<Edge>, x: NodeId, y: NodeId, cands: Seq<Seq<NodeId>>)
    ensures
        (exists|j: int| 0 <= j < cands.len() && first_separating(edges, x, y, cands) == cands[j]
            && !ball_connected(edges, cands[j], x, y)
            && forall|k: int| 0 <= k < j ==> ball_connected(edges, #[trigger] cands[k], x, y))
        || ((forall|k: int| 0 <= k < cands.len() ==> ball_connected(edges, #[trigger] cands[k], x, y))
            && first_separating(edges, x, y, cands) == Seq::<NodeId>::empty()),
    decreases cands.len(),
{
    if cands.len() > 0 {
        if !ball_connected(edges, cands[0], x, y) {
            assert(first_separating(edges, x, y, cands) == cands[0]);
        } else {
            let t = cands.drop_first();
            lemma_first_separating_index(edges, x, y, t);
            if exists|j: int| 0 <= j < t.len() && first_separating(edges, x, y, t) == t[j]
                && !ball_connected(edges, t[j], x, y)
                && forall|k: int| 0 <= k < j ==> ball_connected(edges, #[trigger] t[k], x, y) {
                let j = choose|j: int| 0 <= j < t.len() && first_separating(edges, x, y, t) == t[j]
                    && !ball_connected(edges, t[j], x, y)
                    && forall|k: int| 0 <= k < j ==> ball_connected(edges, #[trigger] t[k], x, y);
                assert(cands[j + 1] == t[j]);
                assert forall|k: int| 0 <= k < j + 1 implies ball_connected(edges, #[trigger] cands[k], x, y) by {
                    if k > 0 {
                        assert(cands[k] == t[k - 1]);
                    }
                }
            } else {
                assert forall|k: int| 0 <= k < cands.len() implies ball_connected(edges, #[trigger] cands[k], x, y) by {
                    if k > 0 {
                        assert(cands[k] == t[k - 1]);
                    }
                }
            }
        }
    }
}

/// The sets of `sets_by_size(arr, n)` come by non-decreasing size.
pub(crate) proof fn lemma_sets_sorted_by_size(arr: Seq<NodeId>, n: nat)
    ensures
        forall|i: int| 0 <= i < sets_by_size(arr, n).len() ==> (#[trigger] sets_by_size(arr, n)[i]).len() < n,
        forall|i: int, j: int|
            0 <= i <= j < sets_by_size(arr, n).len() ==> (#[trigger] sets_by_size(arr, n)[i]).len()
                <= (#[trigger] sets_by_size(arr, n)[j]).len(),
    decreases n,
{
    if n > 0 {
        let m = (n - 1) as nat;
        lemma_sets_sorted_by_size(arr, m);
        lemma_combos_shape(arr, m);
        let a = sets_by_size(arr, m);
        let b = combos(arr, m);
        let s = sets_by_size(arr, n);
        assert(s == a + b);
        assert forall|i: int| 0 <= i < s.len() implies (#[trigger] s[i]).len() < n by {
            if i < a.len() {
                assert(s[i] == a[i]);
            } else {
                assert(s[i] == b[i - a.len()]);
            }
        }
        assert forall|i: int, j: int| 0 <= i <= j < s.len() implies (#[trigger] s[i]).len() <= (#[trigger] s[j]).len() by {
            if j < a.len() {
                assert(s[i] == a[i] && s[j] == a[j]);
            } else if i < a.len() {
                assert(s[i] == a[i] && s[j] == b[j - a.len()]);
            } else {
                assert(s[i] == b[i - a.len()] && s[j] == b[j - a.len()]);
            }
        }
    }
}

/// `minimal_separating_set` is minimal: when some candidate set separates `x` and `y`, the
/// result separates them too, and has no more elements than any separating candidate.
/// When the result is empty, either the empty set separates them or no candidate does.
pub proof fn lemma_minimal_separating_set(edges: Seq<Edge>, nodes: Seq<NodeId>, x: NodeId, y: NodeId)
    ensures
        ({
            let cands = separating_candidates(nodes, x, y);
            let r = first_separating(edges, x, y, cands);
            &&& forall|k: int| 0 <= k < cands.len() && !ball_connected(edges, #[trigger] cands[k], x, y)
                ==> !ball_connected(edges, r, x, y) && r.len() <= cands[k].len()
            &&& r.len() == 0 ==> (!ball_connected(edges, r, x, y)
                || forall|k: int| 0 <= k < cands.len() ==> ball_connected(edges, #[trigger] cands[k], x, y))
        }),
{
    let arr = others(nodes, x, y);
    let cands = separating_candidates(nodes, x, y);
    lemma_first_separating_index(edges, x, y, cands);
    lemma_sets_sorted_by_size(arr, arr.len() + 1);
    let r = first_separating(edges, x, y, cands);
    assert forall|k: int| 0 <= k < cands.len() && !ball_connected(edges, #[trigger] cands[k], x, y)
        implies !ball_connected(edges, r, x, y) && r.len() <= cands[k].len() by {
        let j = choose|j: int| 0 <= j < cands.len() && r == cands[j]
            && !ball_connected(edges, cands[j], x, y)
            && forall|m: int| 0 <= m < j ==> ball_connected(edges, #[trigger] cands[m], x, y);
        if k < j {
            assert(ball_connected(edges, cands[k], x, y));
        }
        assert(cands[j].len() <= cands[k].len());
    }
}

/// `t` lists positions of a sequence of length `n`, in increasing order.
pub open spec fn increasing_positions(t: Seq<int>, n: int) -> bool {
    &&& forall|i: int, j: int| 0 <= i < j < t.len() ==> t[i] < t[j]
    &&& forall|i: int| 0 <= i < t.len() ==> 0 <= #[trigger] t[i] < n
}

/// The elements of `arr` at the positions `t`.
pub open spec fn pick(arr: Seq<NodeId>, t: Seq<int>) -> Seq<NodeId> {
    t.map_values(|i: int| arr[i])
}

/// `s` is a sub-sequence of `arr`: its elements, at increasing positions of `arr`.
pub open spec fn subsequence_of(s: Seq<NodeId>, arr: Seq<NodeId>) -> bool {
    exists|t: Seq<int>| increasing_positions(t, arr.len() as int) && #[trigger] pick(arr, t) == s
}

pub(crate) proof fn lemma_positions_bound(t: Seq<int>, n: int, i: int)
    requires
        increasing_positions(t, n),
        0 <= i < t.len(),
    ensures
        t[i] >= i,
        t.len() <= n,
    decreases i,
{
    if i > 0 {
        lemma_positions_bound(t, n, i - 1);
    }
    if i < t.len() - 1 {
        lemma_positions_bound_up(t, n, i);
    }
}

proof fn lemma_positions_bound_up(t: Seq<int>, n: int, i: int)
    requires
        increasing_positions(t, n),
        0 <= i < t.len(),
        t[i] >= i,
    ensures
        t.len() <= n,
    decreases t.len() - i,
{
    if i < t.len() - 1 {
        lemma_positions_bound_up(t, n, i + 1);
    }
}

/// `combinations(arr, k)` holds every choice of `k` elements of `arr` at increasing
/// positions.
pub proof fn lemma_combos_complete(arr: Seq<NodeId>, t: Seq<int>)
    requires
        increasing_positions(t, arr.len() as int),
    ensures
        combos(arr, t.len()).contains(pick(arr, t)),
    decreases arr.len(),
{
    let k = t.len();
    if k == 0 {
        assert(pick(arr, t) =~= Seq::<NodeId>::empty());
        assert(combos(arr, 0)[0] == pick(arr, t));
    } else {
        lemma_positions_bound(t, arr.len() as int, 0);
        let rest = arr.drop_first();
        let a = combos(rest, (k - 1) as nat).map_values(|c: Seq<NodeId>| seq![arr[0]] + c);
        let b = combos(rest, k);
        assert(combos(arr, k) == a + b);
        if t[0] == 0 {
            let t2 = t.drop_first().map_values(|i: int| i - 1);
            assert(increasing_positions(t2, rest.len() as int)) by {
                assert forall|i: int| 0 <= i < t2.len() implies 0 <= #[trigger] t2[i] < rest.len() by {
                    assert(t[0] < t[i + 1]);
                }
            }
            lemma_combos_complete(rest, t2);
            let c2 = pick(rest, t2);
            assert(t2.len() == k - 1);
            let j = choose|j: int| 0 <= j < combos(rest, (k - 1) as nat).len() && #[trigger] combos(rest, (k - 1) as nat)[j] == c2;
            assert(seq![arr[0]] + c2 =~= pick(arr, t));
            assert((a + b)[j] == pick(arr, t));
        } else {
            let t2 = t.map_values(|i: int| i - 1);
            assert(increasing_positions(t2, rest.len() as int)) by {
                assert forall|i: int| 0 <= i < t2.len() implies 0 <= #[trigger] t2[i] < rest.len() by {
                    if i > 0 {
                        assert(t[0] < t[i]);
                    }
                }
            }
            lemma_combos_complete(rest, t2);
            let c2 = pick(rest, t2);
            assert(c2 =~= pick(arr, t));
            let j = choose|j: int| 0 <= j < b.len() && b[j] == c2;
            assert((a + b)[a.len() + j] == pick(arr, t));
        }
    }
}

/// Every set `combinations(arr, k)` yields is a sub-sequence of `arr` of `k` elements.
pub proof fn lemma_combos_sound(arr: Seq<NodeId>, k: nat)
    ensures
        forall|i: int| 0 <= i < combos(arr, k).len() ==> subsequence_of(#[trigger] combos(arr, k)[i], arr)
            && combos(arr, k)[i].len() == k,
    decreases arr.len(),
{
    lemma_combos_shape(arr, k);
    let cs = combos(arr, k);
    if k == 0 {
        assert forall|i: int| 0 <= i < cs.len() implies subsequence_of(#[trigger] cs[i], arr) by {
            let t = Seq::<int>::empty();
            assert(pick(arr, t) =~= cs[i]);
        }
    } else if k <= arr.len() {
        let rest = arr.drop_first();
        lemma_combos_sound(rest, (k - 1) as nat);
        lemma_combos_sound(rest, k);
        let a0 = combos(rest, (k - 1) as nat);
        let a = a0.map_values(|c: Seq<NodeId>| seq![arr[0]] + c);
        let b = combos(rest, k);
        assert(cs == a + b);
        assert forall|i: int| 0 <= i < cs.len() implies subsequence_of(#[trigger] cs[i], arr) by {
            if i < a.len() {
                let c = a0[i];
                assert(subsequence_of(c, rest));
                let t2 = choose|t2: Seq<int>| increasing_positions(t2, rest.len() as int) && #[trigger] pick(rest, t2) == c;
                let t = seq![0int] + t2.map_values(|j: int| j + 1);
                assert(increasing_positions(t, arr.len() as int)) by {
                    assert forall|x: int, y: int| 0 <= x < y < t.len() implies t[x] < t[y] by {
                        if x > 0 {
                            assert(t2[x - 1] < t2[y - 1]);
                        } else {
                            assert(t2[y - 1] >= 0);
                        }
                    }
                    assert forall|x: int| 0 <= x < t.len() implies 0 <= #[trigger] t[x] < arr.len() by {
                        if x > 0 {
                            assert(0 <= t2[x - 1] < rest.len());
                        }
                    }
                }
                assert(pick(arr, t) =~= seq![arr[0]] + c);
                assert(cs[i] == seq![arr[0]] + c);
            } else {
                let c = b[i - a.len()];
                assert(subsequence_of(c, rest));
                let t2 = choose|t2: Seq<int>| increasing_positions(t2, rest.len() as int) && #[trigger] pick(rest, t2) == c;
                let t = t2.map_values(|j: int| j + 1);
                assert(increasing_positions(t, arr.len() as int)) by {
                    assert forall|x: int, y: int| 0 <= x < y < t.len() implies t[x] < t[y] by {
                        assert(t2[x] < t2[y]);
                    }
                    assert forall|x: int| 0 <= x < t.len() implies 0 <= #[trigger] t[x] < arr.len() by {
                        assert(0 <= t2[x] < rest.len());
                    }
                }
                assert(pick(arr, t) =~= c);
                assert(cs[i] == c);
            }
        }
    }
}

/// The sets of `combinations(arr, m)` are among the sets of `sets_by_size(arr, n)`, `m < n`.
pub proof fn lemma_sets_holds_combos(arr: Seq<NodeId>, n: nat, m: nat, c: Seq<NodeId>)
    requires
        m < n,
        combos(arr, m).contains(c),
    ensures
        sets_by_size(arr, n).contains(c),
    decreases n,
{
    let prev = sets_by_size(arr, (n - 1) as nat);
    let last = combos(arr, (n - 1) as nat);
    assert(sets_by_size(arr, n) == prev + last);
    if m == n - 1 {
        let j = choose|j: int| 0 <= j < last.len() && last[j] == c;
        assert((prev + last)[prev.len() + j] == c);
    } else {
        lemma_sets_holds_combos(arr, (n - 1) as nat, m, c);
        let j = choose|j: int| 0 <= j < prev.len() && prev[j] == c;
        assert((prev + last)[j] == c);
    }
}

/// Every set of `sets_by_size(arr, n)` is a sub-sequence of `arr`, and all but the first
/// (the empty set) have an element.
pub proof fn lemma_sets_sound(arr: Seq<NodeId>, n: nat)
    ensures
        forall|i: int| 0 <= i < sets_by_size(arr, n).len() ==> subsequence_of(#[trigger] sets_by_size(arr, n)[i], arr)
            && (i >= 1 ==> sets_by_size(arr, n)[i].len() >= 1),
    decreases n,
{
    if n > 0 {
        let prev = sets_by_size(arr, (n - 1) as nat);
        let last = combos(arr, (n - 1) as nat);
        lemma_sets_sound(arr, (n - 1) as nat);
        lemma_combos_sound(arr, (n - 1) as nat);
        lemma_combos_shape(arr, (n - 1) as nat);
        let all = sets_by_size(arr, n);
        assert(all == prev + last);
        assert forall|i: int| 0 <= i < all.len() implies subsequence_of(#[trigger] all[i], arr)
            && (i >= 1 ==> all[i].len() >= 1) by {
            if i < prev.len() {
                assert(all[i] == prev[i]);
            } else {
                assert(all[i] == last[i - prev.len()]);
                if n - 1 == 0 {
                    assert(prev.len() == 0);
                }
            }
        }
    }
}

/// `minimal_separating_set` is minimal over every set of the other nodes: its result is a
/// sub-sequence of them, and when some sub-sequence d-separates `x` and `y`, so does the
/// result, with no more elements.
pub proof fn lemma_minimal_separating_set_global(edges: Seq<Edge>, nodes: Seq<NodeId>, x: NodeId, y: NodeId, s: Seq<NodeId>)
    ensures
        ({
            let arr = others(nodes, x, y);
            let r = first_separating(edges, x, y, separating_candidates(nodes, x, y));
            &&& subsequence_of(r, arr)
            &&& (subsequence_of(s, arr) && !ball_connected(edges, s, x, y)) ==> (!ball_connected(edges, r, x, y)
                && r.len() <= s.len())
        }),
{
    let arr = others(nodes, x, y);
    let cands = separating_candidates(nodes, x, y);
    let r = first_separating(edges, x, y, cands);
    lemma_first_separating_index(edges, x, y, cands);
    lemma_sets_sound(arr, arr.len() + 1);
    if exists|j: int| 0 <= j < cands.len() && r == cands[j] && !ball_connected(edges, cands[j], x, y)
        && forall|k: int| 0 <= k < j ==> ball_connected(edges, #[trigger] cands[k], x, y) {
        let j = choose|j: int| 0 <= j < cands.len() && r == cands[j] && !ball_connected(edges, cands[j], x, y)
            && forall|k: int| 0 <= k < j ==> ball_connected(edges, #[trigger] cands[k], x, y);
        assert(subsequence_of(cands[j], arr));
    } else {
        let t = Seq::<int>::empty();
        assert(pick(arr, t) =~= r);
        assert(increasing_positions(t, arr.len() as int));
    }
    if subsequence_of(s, arr) && !ball_connected(edges, s, x, y) {
        let t = choose|t: Seq<int>| increasing_positions(t, arr.len() as int) && #[trigger] pick(arr, t) == s;
        lemma_combos_complete(arr, t);
        if t.len() > 0 {
            lemma_positions_bound(t, arr.len() as int, 0);
        }
        assert(t.len() == s.len());
        lemma_sets_holds_combos(arr, arr.len() + 1, t.len(), s);
        let k = choose|k: int| 0 <= k < cands.len() && cands[k] == s;
        lemma_minimal_separating_set(edges, nodes, x, y);
        assert(!ball_connected(edges, cands[k], x, y));
    }
}

/// The candidate nodes for separating `x` from `y` are the graph nodes other than `x` and `y`,
/// in the order of the graph.
pub proof fn lemma_others_filter(nodes: Seq<NodeId>, x: NodeId, y: NodeId)
    ensures
        others(nodes, x, y) == nodes.filter(|v: NodeId| v != x && v != y),
    decreases nodes.len(),
{
    let keep = |v: NodeId| v != x && v != y;
    reveal(Seq::filter);
    if nodes.len() == 0 {
        assert(nodes.filter(keep) =~= Seq::<NodeId>::empty());
    } else {
        lemma_others_filter(nodes.drop_last(), x, y);
    }
}

/// Every graph node other than `x` and `y` is a candidate node, and nothing else is.
pub proof fn lemma_others_members(nodes: Seq<NodeId>, x: NodeId, y: NodeId)
    ensures
        forall|v: NodeId| #[trigger] others(nodes, x, y).contains(v) <==> (nodes.contains(v) && v != x && v != y),
{
    let keep = |v: NodeId| v != x && v != y;
    lemma_others_filter(nodes, x, y);
    let arr = nodes.filter(keep);
    assert forall|v: NodeId| #[trigger] others(nodes, x, y).contains(v) <==> (nodes.contains(v) && v != x && v != y) by {
        if arr.contains(v) {
            nodes.lemma_filter_contains_rev(keep, v);
            let k = choose|k: int| 0 <= k < arr.len() && arr[k] == v;
            nodes.lemma_filter_pred(keep, k);
        }
        if nodes.contains(v) && v != x && v != y {
            let k = choose|k: int| 0 <= k < nodes.len() && nodes[k] == v;
            nodes.lemma_filter_contains(keep, k);
        }
    }
}

/// A ball that moves under `z1` moves the same way under any `z2` with the same members.
proof fn lemma_ball_reaches_members(edges: Seq<Edge>, z1: Seq<NodeId>, z2: Seq<NodeId>, x: NodeId, s: BallState)
    requires
        forall|v: NodeId| #![trigger z1.contains(v)] #![trigger z2.contains(v)] z1.contains(v) <==> z2.contains(v),
        ball_reaches(edges, z1, x, s),
    ensures
        ball_reaches(edges, z2, x, s),
{
    let p = choose|p: Seq<BallState>| #[trigger] ball_walk(edges, z1, p) && p.len() > 0 && p[0] == (x, true) && p.last() == s;
    assert forall|i: int| 0 <= i < p.len() - 1 implies #[trigger] ball_step_at(edges, z2, p, i) by {
        assert(ball_step_at(edges, z1, p, i));
    }
    assert(ball_walk(edges, z2, p));
}

/// Whether `z` d-separates `x` and `y` depends only on which nodes `z` holds, not on their
/// order or on repetitions.
pub proof fn lemma_ball_connected_members(edges: Seq<Edge>, z1: Seq<NodeId>, z2: Seq<NodeId>, x: NodeId, y: NodeId)
    requires
        forall|v: NodeId| #![trigger z1.contains(v)] #![trigger z2.contains(v)] z1.contains(v) <==> z2.contains(v),
    ensures
        ball_connected(edges, z1, x, y) == ball_connected(edges, z2, x, y),
{
    if ball_reaches(edges, z1, x, (y, true)) {
        lemma_ball_reaches_members(edges, z1, z2, x, (y, true));
    }
    if ball_reaches(edges, z1, x, (y, false)) {
        lemma_ball_reaches_members(edges, z1, z2, x, (y, false));
    }
    if ball_reaches(edges, z2, x, (y, true)) {
        lemma_ball_reaches_members(edges, z2, z1, x, (y, true));
    }
    if ball_reaches(edges, z2, x, (y, false)) {
        lemma_ball_reaches_members(edges, z2, z1, x, (y, false));
    }
}

/// Keeping the elements of `arr` that satisfy `keep` gives a sub-sequence of `arr`.
proof fn lemma_filter_subsequence(arr: Seq<NodeId>, keep: spec_fn(NodeId) -> bool)
    ensures
        subsequence_of(arr.filter(keep), arr),
    decreases arr.len(),
{
    reveal(Seq::filter);
    if arr.len() == 0 {
        let t = Seq::<int>::empty();
        assert(pick(arr, t) =~= arr.filter(keep));
        assert(increasing_positions(t, 0));
    } else {
        let rest = arr.drop_last();
        lemma_filter_subsequence(rest, keep);
        let t = choose|t: Seq<int>| increasing_positions(t, rest.len() as int) && #[trigger] pick(rest, t) == rest.filter(keep);
        assert(pick(arr, t) =~= pick(rest, t));
        if keep(arr.last()) {
            let t2 = t.push(rest.len() as int);
            assert(increasing_positions(t2, arr.len() as int));
            assert(pick(arr, t2) =~= rest.filter(keep).push(arr.last()));
            assert(pick(arr, t2) == arr.filter(keep));
        } else {
            assert(increasing_positions(t, arr.len() as int));
            assert(pick(arr, t) == arr.filter(keep));
        }
    }
}

/// A sub-sequence holds only elements of the sequence it is taken from.
proof fn lemma_subsequence_members(s: Seq<NodeId>, arr: Seq<NodeId>)
    requires
        subsequence_of(s, arr),
    ensures
        forall|v: NodeId| #[trigger] s.contains(v) ==> arr.contains(v),
{
    let t = choose|t: Seq<int>| increasing_positions(t, arr.len() as int) && #[trigger] pick(arr, t) == s;
    assert forall|v: NodeId| #[trigger] s.contains(v) implies arr.contains(v) by {
        let k = choose|k: int| 0 <= k < s.len() && s[k] == v;
        assert(arr[t[k]] == v);
    }
}

/// The set `minimal_separating_set` returns holds only graph nodes other than `x` and `y`; it
/// is empty or d-separates `x` and `y`; and whenever some set of such nodes d-separates `x`
/// and `y`, the returned set d-separates them too.
pub proof fn lemma_minimal_separating_set_any(edges: Seq<Edge>, nodes: Seq<NodeId>, x: NodeId, y: NodeId)
    ensures
        ({
            let r = first_separating(edges, x, y, separating_candidates(nodes, x, y));
            &&& forall|v: NodeId| #[trigger] r.contains(v) ==> nodes.contains(v) && v != x && v != y
            &&& r.len() == 0 || !ball_connected(edges, r, x, y)
            &&& forall|s: Seq<NodeId>|
                #![trigger ball_connected(edges, s, x, y)]
                (forall|v: NodeId| #[trigger] s.contains(v) ==> nodes.contains(v) && v != x && v != y)
                    && !ball_connected(edges, s, x, y) ==> !ball_connected(edges, r, x, y)
        }),
{
    let arr = others(nodes, x, y);
    let r = first_separating(edges, x, y, separating_candidates(nodes, x, y));
    lemma_others_members(nodes, x, y);
    lemma_minimal_separating_set_global(edges, nodes, x, y, Seq::empty());
    lemma_first_separating_index(edges, x, y, separating_candidates(nodes, x, y));
    lemma_subsequence_members(r, arr);
    assert forall|s: Seq<NodeId>|
        #![trigger ball_connected(edges, s, x, y)]
        (forall|v: NodeId| #[trigger] s.contains(v) ==> nodes.contains(v) && v != x && v != y)
            && !ball_connected(edges, s, x, y) implies !ball_connected(edges, r, x, y) by {
        let keep = |v: NodeId| s.contains(v);
        let s2 = arr.filter(keep);
        lemma_filter_subsequence(arr, keep);
        assert forall|v: NodeId| #![trigger s.contains(v)] #![trigger s2.contains(v)] s.contains(v) <==> s2.contains(v) by {
            if s2.contains(v) {
                let k = choose|k: int| 0 <= k < s2.len() && s2[k] == v;
                arr.lemma_filter_pred(keep, k);
            }
            if s.contains(v) {
                assert(arr.contains(v));
                let k = choose|k: int| 0 <= k < arr.len() && arr[k] == v;
                arr.lemma_filter_contains(keep, k);
            }
        }
        lemma_ball_connected_members(edges, s, s2, x, y);
        lemma_minimal_separating_set_global(edges, nodes, x, y, s2);
    }
}

/// `a` comes before `b` in lexicographic order.
pub open spec fn lex_less(a: Seq<int>, b: Seq<int>) -> bool {
    exists|i: int| 0 <= i < a.len() && i < b.len() && a[i] < b[i] && forall|j: int| 0 <= j < i ==> a[j] == b[j]
}

/// Every way to choose `k` of the positions `0..n`, as an increasing tuple, in
/// lexicographic order.
pub open spec fn position_tuples(n: nat, k: nat) -> Seq<Seq<int>>
    decreases n,
{
    if k == 0 {
        seq![Seq::empty()]
    } else if k > n {
        Seq::empty()
    } else {
        position_tuples((n - 1) as nat, (k - 1) as nat).map_values(|t: Seq<int>| seq![0int] + t.map_values(|i: int| i + 1))
            + position_tuples((n - 1) as nat, k).map_values(|t: Seq<int>| t.map_values(|i: int| i + 1))
    }
}

/// No tuple comes before itself, and of two tuples at most one comes before the other.
proof fn lemma_lex_less_asymmetric(a: Seq<int>, b: Seq<int>)
    ensures
        !lex_less(a, a),
        !(lex_less(a, b) && lex_less(b, a)),
{
    if lex_less(a, b) && lex_less(b, a) {
        let i = choose|i: int| 0 <= i < a.len() && i < b.len() && a[i] < b[i] && forall|j: int| 0 <= j < i ==> a[j] == b[j];
        let k = choose|k: int| 0 <= k < b.len() && k < a.len() && b[k] < a[k] && forall|j: int| 0 <= j < k ==> b[j] == a[j];
        if i < k {
            assert(b[i] == a[i]);
        } else if k < i {
            assert(a[k] == b[k]);
        }
    }
}

/// `r` is picked from `arr` at increasing positions `t`, and every set picked at as many
/// positions that come before `t` in lexicographic order leaves `x` and `y` connected.
pub open spec fn first_in_position_order(edges: Seq<Edge>, arr: Seq<NodeId>, x: NodeId, y: NodeId, r: Seq<NodeId>) -> bool {
    exists|t: Seq<int>| increasing_positions(t, arr.len() as int) && #[trigger] pick(arr, t) == r
        && forall|t2: Seq<int>| #![trigger pick(arr, t2)]
            increasing_positions(t2, arr.len() as int) && t2.len() == t.len() && lex_less(t2, t)
                ==> ball_connected(edges, pick(arr, t2), x, y)
}

/// The first separating set of a concatenation comes from its first part when that part
/// holds a separating set, and from its second part otherwise.
proof fn lemma_first_separating_concat(edges: Seq<Edge>, x: NodeId, y: NodeId, a: Seq<Seq<NodeId>>, b: Seq<Seq<NodeId>>)
    ensures
        first_separating(edges, x, y, a + b) == if exists|k: int| 0 <= k < a.len() && !ball_connected(edges, #[trigger] a[k], x, y) {
            first_separating(edges, x, y, a)
        } else {
            first_separating(edges, x, y, b)
        },
    decreases a.len(),
{
    if a.len() == 0 {
        assert(a + b =~= b);
    } else {
        let a2 = a.drop_first();
        assert((a + b).drop_first() =~= a2 + b);
        assert((a + b)[0] == a[0]);
        lemma_first_separating_concat(edges, x, y, a2, b);
        if exists|k: int| 0 <= k < a2.len() && !ball_connected(edges, #[trigger] a2[k], x, y) {
            let k = choose|k: int| 0 <= k < a2.len() && !ball_connected(edges, #[trigger] a2[k], x, y);
            assert(a[k + 1] == a2[k]);
        }
        if exists|k: int| 0 <= k < a.len() && !ball_connected(edges, #[trigger] a[k], x, y) {
            let k = choose|k: int| 0 <= k < a.len() && !ball_connected(edges, #[trigger] a[k], x, y);
            if k > 0 {
                assert(a2[k - 1] == a[k]);
            }
        }
    }
}

/// Among the `k`-element choices, the first that separates is the first in lexicographic
/// order of positions.
proof fn lemma_first_separating_combos(edges: Seq<Edge>, arr: Seq<NodeId>, x: NodeId, y: NodeId, k: nat)
    requires
        exists|m: int| 0 <= m < combos(arr, k).len() && !ball_connected(edges, #[trigger] combos(arr, k)[m], x, y),
    ensures
        first_in_position_order(edges, arr, x, y, first_separating(edges, x, y, combos(arr, k))),
{
    let cs = combos(arr, k);
    let n = arr.len();
    let pt = position_tuples(n, k);
    let r = first_separating(edges, x, y, cs);
    lemma_first_separating_index(edges, x, y, cs);
    lemma_combos_positions(arr, k);
    lemma_position_tuples(n, k);
    let j = choose|j: int| 0 <= j < cs.len() && r == cs[j] && !ball_connected(edges, cs[j], x, y)
        && forall|m: int| 0 <= m < j ==> ball_connected(edges, #[trigger] cs[m], x, y);
    let t = pt[j];
    assert(cs[j] == pick(arr, t));
    assert forall|t2: Seq<int>| #![trigger pick(arr, t2)]
        increasing_positions(t2, n as int) && t2.len() == t.len() && lex_less(t2, t)
            implies ball_connected(edges, pick(arr, t2), x, y) by {
        assert(pt.contains(t2));
        let m = choose|m: int| 0 <= m < pt.len() && pt[m] == t2;
        lemma_lex_less_asymmetric(t2, t);
        if m > j {
            assert(lex_less(pt[j], pt[m]));
        }
        assert(m != j);
        assert(cs[m] == pick(arr, t2));
    }
    assert(increasing_positions(t, n as int));
}

/// The first separating set among the sets of fewer than `n` elements, by size and then in
/// lexicographic order of positions, is first in position order among the sets of its size.
proof fn lemma_first_separating_sets(edges: Seq<Edge>, arr: Seq<NodeId>, x: NodeId, y: NodeId, n: nat)
    requires
        exists|k: int| 0 <= k < sets_by_size(arr, n).len() && !ball_connected(edges, #[trigger] sets_by_size(arr, n)[k], x, y),
    ensures
        first_in_position_order(edges, arr, x, y, first_separating(edges, x, y, sets_by_size(arr, n))),
    decreases n,
{
    let m = (n - 1) as nat;
    let a = sets_by_size(arr, m);
    let b = combos(arr, m);
    assert(sets_by_size(arr, n) == a + b);
    lemma_first_separating_concat(edges, x, y, a, b);
    if exists|k: int| 0 <= k < a.len() && !ball_connected(edges, #[trigger] a[k], x, y) {
        lemma_first_separating_sets(edges, arr, x, y, m);
    } else {
        let k = choose|k: int| 0 <= k < sets_by_size(arr, n).len() && !ball_connected(edges, #[trigger] sets_by_size(arr, n)[k], x, y);
        if k < a.len() {
            assert((a + b)[k] == a[k]);
        }
        assert((a + b)[k] == b[k - a.len()]);
        lemma_first_separating_combos(edges, arr, x, y, m);
    }
}

/// The set `minimal_separating_set` returns is, among the sets of other nodes of its size,
/// the first in lexicographic order of positions that d-separates `x` and `y` (or empty when
/// none separates).
pub proof fn lemma_minimal_separating_set_first(edges: Seq<Edge>, nodes: Seq<NodeId>, x: NodeId, y: NodeId)
    ensures
        first_in_position_order(edges, others(nodes, x, y), x, y,
            first_separating(edges, x, y, separating_candidates(nodes, x, y))),
{
    let arr = others(nodes, x, y);
    let cands = separating_candidates(nodes, x, y);
    let r = first_separating(edges, x, y, cands);
    if exists|k: int| 0 <= k < cands.len() && !ball_connected(edges, #[trigger] cands[k], x, y) {
        lemma_first_separating_sets(edges, arr, x, y, arr.len() + 1);
    } else {
        lemma_first_separating_none(edges, x, y, cands);
        let t = Seq::<int>::empty();
        assert(pick(arr, t) =~= r);
        assert(increasing_positions(t, arr.len() as int));
    }
}

/// Tuple `a` comes before tuple `b` by size and then in lexicographic order.
pub open spec fn size_lex_before(a: Seq<int>, b: Seq<int>) -> bool {
    a.len() < b.len() || (a.len() == b.len() && lex_less(a, b))
}

/// The set at `idx` of `sets_by_size(arr, n)` is picked at increasing positions `t`, and every
/// choice of positions that comes before `t` by size and then lexicographically is picked
/// at an earlier index.
pub proof fn lemma_sets_by_size_order(arr: Seq<NodeId>, n: nat, idx: int) -> (t: Seq<int>)
    requires
        0 <= idx < sets_by_size(arr, n).len(),
    ensures
        increasing_positions(t, arr.len() as int),
        t.len() < n,
        pick(arr, t) == sets_by_size(arr, n)[idx],
        forall|t2: Seq<int>| #![trigger size_lex_before(t2, t)]
            increasing_positions(t2, arr.len() as int) && size_lex_before(t2, t)
                ==> exists|j: int| 0 <= j < idx && #[trigger] sets_by_size(arr, n)[j] =~= pick(arr, t2),
    decreases n,
{
    let m = (n - 1) as nat;
    let a = sets_by_size(arr, m);
    let b = combos(arr, m);
    let all = sets_by_size(arr, n);
    if n == 0 {
        Seq::empty()
    } else if idx < a.len() {
        assert(all == a + b);
        let t = lemma_sets_by_size_order(arr, m, idx);
        assert(all[idx] == a[idx]);
        assert forall|t2: Seq<int>| #![trigger size_lex_before(t2, t)]
            increasing_positions(t2, arr.len() as int) && size_lex_before(t2, t)
                implies exists|j: int| 0 <= j < idx && #[trigger] sets_by_size(arr, n)[j] =~= pick(arr, t2) by {
            let j = choose|j: int| 0 <= j < idx && #[trigger] sets_by_size(arr, m)[j] =~= pick(arr, t2);
            assert(all[j] == a[j]);
        }
        t
    } else {
        assert(all == a + b);
        let k = idx - a.len();
        let pt = position_tuples(arr.len(), m);
        lemma_combos_positions(arr, m);
        lemma_position_tuples(arr.len(), m);
        let t = pt[k];
        assert(all[idx] == b[k]);
        assert(b[k] == pick(arr, t));
        assert forall|t2: Seq<int>| #![trigger size_lex_before(t2, t)]
            increasing_positions(t2, arr.len() as int) && size_lex_before(t2, t)
                implies exists|j: int| 0 <= j < idx && #[trigger] sets_by_size(arr, n)[j] =~= pick(arr, t2) by {
            if t2.len() < m {
                lemma_combos_complete(arr, t2);
                lemma_sets_holds_combos(arr, m, t2.len(), pick(arr, t2));
                let j = choose|j: int| 0 <= j < a.len() && a[j] == pick(arr, t2);
                assert(all[j] == a[j]);
            } else {
                assert(pt.contains(t2));
                let q = choose|q: int| 0 <= q < pt.len() && pt[q] == t2;
                lemma_lex_less_asymmetric(t2, t);
                if q > k {
                    assert(lex_less(pt[k], pt[q]));
                }
                assert(q != k);
                assert(b[q] == pick(arr, t2));
                assert(all[a.len() + q] == b[q]);
            }
        }
        t
    }
}

/// `combinations(arr, k)` picks the elements of `arr` at each tuple of `position_tuples`, in
/// order.
pub proof fn lemma_combos_positions(arr: Seq<NodeId>, k: nat)
    ensures
        combos(arr, k) == position_tuples(arr.len(), k).map_values(|t: Seq<int>| pick(arr, t)),
    decreases arr.len(),
{
    let n = arr.len();
    if k == 0 {
        assert(pick(arr, Seq::<int>::empty()) =~= Seq::<NodeId>::empty());
        assert(combos(arr, k) =~= position_tuples(n, k).map_values(|t: Seq<int>| pick(arr, t)));
    } else if k > n {
        assert(combos(arr, k) =~= position_tuples(n, k).map_values(|t: Seq<int>| pick(arr, t)));
    } else {
        let rest = arr.drop_first();
        lemma_combos_positions(rest, (k - 1) as nat);
        lemma_combos_positions(rest, k);
        lemma_position_tuples((n - 1) as nat, (k - 1) as nat);
        lemma_position_tuples((n - 1) as nat, k);
        let pa = position_tuples((n - 1) as nat, (k - 1) as nat);
        let pb = position_tuples((n - 1) as nat, k);
        let ta = pa.map_values(|t: Seq<int>| seq![0int] + t.map_values(|i: int| i + 1));
        let tb = pb.map_values(|t: Seq<int>| t.map_values(|i: int| i + 1));
        assert(position_tuples(n, k) == ta + tb);
        let lhs = combos(arr, k);
        let rhs = (ta + tb).map_values(|t: Seq<int>| pick(arr, t));
        let ca = combos(rest, (k - 1) as nat);
        let cb = combos(rest, k);
        assert(lhs == ca.map_values(|c: Seq<NodeId>| seq![arr[0]] + c) + cb);
        assert forall|i: int| 0 <= i < lhs.len() implies lhs[i] == rhs[i] by {
            if i < ta.len() {
                let t = pa[i];
                assert(ca[i] == pick(rest, t));
                assert(increasing_positions(t, (n - 1) as int));
                assert(pick(arr, seq![0int] + t.map_values(|m: int| m + 1)) =~= seq![arr[0]] + pick(rest, t));
                assert(rhs[i] == pick(arr, ta[i]));
            } else {
                let t = pb[i - ta.len()];
                assert(cb[i - ta.len()] == pick(rest, t));
                assert(increasing_positions(t, (n - 1) as int));
                assert(pick(arr, t.map_values(|m: int| m + 1)) =~= pick(rest, t));
                assert(rhs[i] == pick(arr, tb[i - ta.len()]));
            }
        }
        assert(lhs =~= rhs);
    }
}

/// `position_tuples(n, k)` holds increasing tuples of `k` positions in `0..n`, each
/// lexicographically before the next, and every such tuple.
pub proof fn lemma_position_tuples(n: nat, k: nat)
    ensures
        forall|i: int| 0 <= i < position_tuples(n, k).len() ==> increasing_positions(#[trigger] position_tuples(n, k)[i], n as int)
            && position_tuples(n, k)[i].len() == k,
        forall|i: int, j: int| 0 <= i < j < position_tuples(n, k).len() ==> lex_less(
            #[trigger] position_tuples(n, k)[i],
            #[trigger] position_tuples(n, k)[j],
        ),
        forall|t: Seq<int>| increasing_positions(t, n as int) && t.len() == k ==> #[trigger] position_tuples(n, k).contains(t),
    decreases n,
{
    let p = position_tuples(n, k);
    if k == 0 {
        assert forall|t: Seq<int>| increasing_positions(t, n as int) && t.len() == k implies #[trigger] p.contains(t) by {
            assert(t =~= Seq::<int>::empty());
            assert(p[0] == t);
        }
    } else if k > n {
        assert forall|t: Seq<int>| increasing_positions(t, n as int) && t.len() == k implies #[trigger] p.contains(t) by {
            lemma_positions_bound(t, n as int, 0);
        }
    } else {
        lemma_position_tuples((n - 1) as nat, (k - 1) as nat);
        lemma_position_tuples((n - 1) as nat, k);
        let pa = position_tuples((n - 1) as nat, (k - 1) as nat);
        let pb = position_tuples((n - 1) as nat, k);
        let ta = pa.map_values(|t: Seq<int>| seq![0int] + t.map_values(|i: int| i + 1));
        let tb = pb.map_values(|t: Seq<int>| t.map_values(|i: int| i + 1));
        assert(p == ta + tb);
        assert forall|i: int| 0 <= i < p.len() implies increasing_positions(#[trigger] p[i], n as int) && p[i].len() == k by {
            if i < ta.len() {
                let t = pa[i];
                let u = seq![0int] + t.map_values(|m: int| m + 1);
                assert(p[i] == u);
                assert forall|x: int, y: int| 0 <= x < y < u.len() implies u[x] < u[y] by {
                    if x > 0 {
                        assert(t[x - 1] < t[y - 1]);
                    } else {
                        assert(0 <= t[y - 1]);
                    }
                }
                assert forall|x: int| 0 <= x < u.len() implies 0 <= #[trigger] u[x] < n by {
                    if x > 0 {
                        assert(0 <= t[x - 1] < n - 1);
                    }
                }
            } else {
                let t = pb[i - ta.len()];
                let u = t.map_values(|m: int| m + 1);
                assert(p[i] == u);
                assert forall|x: int, y: int| 0 <= x < y < u.len() implies u[x] < u[y] by {
                    assert(t[x] < t[y]);
                }
                assert forall|x: int| 0 <= x < u.len() implies 0 <= #[trigger] u[x] < n by {
                    assert(0 <= t[x] < n - 1);
                }
            }
        }
        assert forall|i: int, j: int| 0 <= i < j < p.len() implies lex_less(#[trigger] p[i], #[trigger] p[j]) by {
            if j < ta.len() {
                let a = pa[i];
                let b = pa[j];
                assert(lex_less(a, b));
                let m = choose|m: int| 0 <= m < a.len() && m < b.len() && a[m] < b[m] && forall|l: int| 0 <= l < m ==> a[l] == b[l];
                assert(p[i] == seq![0int] + a.map_values(|x: int| x + 1));
                assert(p[j] == seq![0int] + b.map_values(|x: int| x + 1));
                assert(p[i][m + 1] < p[j][m + 1]);
                assert forall|l: int| 0 <= l < m + 1 implies p[i][l] == p[j][l] by {
                    if l > 0 {
                        assert(a[l - 1] == b[l - 1]);
                    }
                }
            } else if i >= ta.len() {
                let a = pb[i - ta.len()];
                let b = pb[j - ta.len()];
                assert(lex_less(a, b));
                let m = choose|m: int| 0 <= m < a.len() && m < b.len() && a[m] < b[m] && forall|l: int| 0 <= l < m ==> a[l] == b[l];
                assert(p[i] == a.map_values(|x: int| x + 1));
                assert(p[j] == b.map_values(|x: int| x + 1));
                assert(p[i][m] < p[j][m]);
                assert forall|l: int| 0 <= l < m implies p[i][l] == p[j][l] by {
                    assert(a[l] == b[l]);
                }
            } else {
                let a = pa[i];
                let b = pb[j - ta.len()];
                assert(p[i] == seq![0int] + a.map_values(|x: int| x + 1));
                assert(p[j] == b.map_values(|x: int| x + 1));
                assert(b.len() == k);
                assert(0 <= b[0]);
                assert(p[i][0] == 0);
                assert(p[j][0] == b[0] + 1);
            }
        }
        assert forall|t: Seq<int>| increasing_positions(t, n as int) && t.len() == k implies #[trigger] p.contains(t) by {
            if t[0] == 0 {
                let t2 = t.drop_first().map_values(|x: int| x - 1);
                assert forall|x: int| 0 <= x < t2.len() implies 0 <= #[trigger] t2[x] < n - 1 by {
                    assert(t[0] < t[x + 1]);
                }
                assert(increasing_positions(t2, (n - 1) as int));
                assert(pa.contains(t2));
                let m = choose|m: int| 0 <= m < pa.len() && pa[m] == t2;
                assert(seq![0int] + t2.map_values(|x: int| x + 1) =~= t);
                assert(p[m] == t);
            } else {
                let t2 = t.map_values(|x: int| x - 1);
                assert forall|x: int| 0 <= x < t2.len() implies 0 <= #[trigger] t2[x] < n - 1 by {
                    if x > 0 {
                        assert(t[0] < t[x]);
                    }
                }
                assert(increasing_positions(t2, (n - 1) as int));
                assert(pb.contains(t2));
                let m = choose|m: int| 0 <= m < pb.len() && pb[m] == t2;
                assert(t2.map_values(|x: int| x + 1) =~= t);
                assert(p[ta.len() + m] == t);
            }
        }
    }
}

/// Some node reachable from `c` along edges (`c` itself included) is in `z`.
pub open spec fn descendant_in(edges: Seq<Edge>, c: NodeId, z: Seq<NodeId>) -> bool {
    exists|w: Seq<NodeId>| #[trigger] is_walk(edges, w) && w.len() > 0 && w[0] == c && z.contains(w.last())
}

/// The `i`-th step of the trail `p` follows an edge, forwards (`p[i] -> p[i + 1]`) when
/// `fwd[i]`, backwards otherwise.
pub open spec fn trail_step(edges: Seq<Edge>, p: Seq<NodeId>, fwd: Seq<bool>, i: int) -> bool {
    if fwd[i] {
        edge_in(edges, p[i], p[i + 1])
    } else {
        edge_in(edges, p[i + 1], p[i])
    }
}

/// The trail `p`, whose steps follow edges in the directions `fwd`, is active given `z`:
/// every collider on it (both edges pointing into it) is in `z` or has a descendant in `z`,
/// and every other inner node is not in `z`.
pub open spec fn active_trail(edges: Seq<Edge>, z: Seq<NodeId>, p: Seq<NodeId>, fwd: Seq<bool>) -> bool {
    &&& p.len() > 0
    &&& fwd.len() == p.len() - 1
    &&& forall|i: int| 0 <= i < fwd.len() ==> #[trigger] trail_step(edges, p, fwd, i)
    &&& forall|i: int|
        0 < i < p.len() - 1 ==> if fwd[i - 1] && !fwd[i] {
            descendant_in(edges, #[trigger] p[i], z)
        } else {
            !z.contains(p[i])
        }
}

/// A ball going down into `c`, which is not in `z` but has a descendant in `z`, comes back
/// up to `c`: down to the first conditioned descendant, bounced, and back up.
proof fn lemma_ball_detour(edges: Seq<Edge>, z: Seq<NodeId>, x: NodeId, w: Seq<NodeId>)
    requires
        is_walk(edges, w),
        w.len() > 0,
        !z.contains(w[0]),
        z.contains(w.last()),
        ball_reaches(edges, z, x, (w[0], false)),
    ensures
        ball_reaches(edges, z, x, (w[0], true)),
    decreases w.len(),
{
    assert(w.len() > 1);
    assert(walk_step(edges, w, 0));
    let c = w[0];
    let d = w[1];
    lemma_reaches_step(edges, z, x, (c, false), (d, false));
    if z.contains(d) {
        lemma_reaches_step(edges, z, x, (d, false), (c, true));
    } else {
        let rest = w.drop_first();
        assert forall|i: int| 0 <= i < rest.len() - 1 implies #[trigger] walk_step(edges, rest, i) by {
            assert(walk_step(edges, w, i + 1));
        }
        lemma_ball_detour(edges, z, x, rest);
        lemma_reaches_step(edges, z, x, (d, true), (c, true));
    }
}

/// Along an active trail from `p[0]` the ball reaches every node, arriving as the trail does.
proof fn lemma_active_trail_reaches(edges: Seq<Edge>, z: Seq<NodeId>, p: Seq<NodeId>, fwd: Seq<bool>, i: int)
    requires
        active_trail(edges, z, p, fwd),
        !z.contains(p[0]),
        0 <= i < p.len(),
    ensures
        ball_reaches(edges, z, p[0], if i == 0 { (p[0], true) } else { (p[i], !fwd[i - 1]) }),
    decreases i,
{
    if i == 0 {
        let w = seq![(p[0], true)];
        assert(ball_walk(edges, z, w));
        assert(w.last() == (p[0], true));
    } else {
        lemma_active_trail_reaches(edges, z, p, fwd, i - 1);
        let k = i - 1;
        assert(trail_step(edges, p, fwd, k));
        let t = (p[i], !fwd[k]);
        if k == 0 {
            lemma_reaches_step(edges, z, p[0], (p[0], true), t);
        } else {
            let s = (p[k], !fwd[k - 1]);
            if fwd[k - 1] && !fwd[k] {
                assert(descendant_in(edges, p[k], z));
                if z.contains(p[k]) {
                    lemma_reaches_step(edges, z, p[0], s, t);
                } else {
                    let w = choose|w: Seq<NodeId>| #[trigger] is_walk(edges, w) && w.len() > 0 && w[0] == p[k] && z.contains(w.last());
                    lemma_ball_detour(edges, z, p[0], w);
                    lemma_reaches_step(edges, z, p[0], (p[k], true), t);
                }
            } else {
                assert(!z.contains(p[k]));
                lemma_reaches_step(edges, z, p[0], s, t);
            }
        }
    }
}

/// The Bayes-ball search finds every active trail: when a trail active given `z` joins
/// `p[0]`, which is not in `z`, to `p.last()`, a ball from `p[0]` reaches `p.last()`.
pub proof fn lemma_active_trail_connects(edges: Seq<Edge>, z: Seq<NodeId>, p: Seq<NodeId>, fwd: Seq<bool>)
    requires
        active_trail(edges, z, p, fwd),
        !z.contains(p[0]),
    ensures
        ball_connected(edges, z, p[0], p.last()),
{
    lemma_active_trail_reaches(edges, z, p, fwd, p.len() - 1);
}

/// Every walk of the ball is an active trail: its nodes, each step following its edge, with
/// every collider in `z` itself.
pub proof fn lemma_ball_walk_active(edges: Seq<Edge>, z: Seq<NodeId>, x: NodeId, y: NodeId)
    requires
        ball_connected(edges, z, x, y),
    ensures
        exists|p: Seq<NodeId>, fwd: Seq<bool>| #[trigger] active_trail(edges, z, p, fwd) && p[0] == x && p.last() == y,
{
    let d = if ball_reaches(edges, z, x, (y, true)) { true } else { false };
    let w = choose|w: Seq<BallState>|
        #[trigger] ball_walk(edges, z, w) && w.len() > 0 && w[0] == (x, true) && w.last() == (y, d);
    let p = w.map_values(|s: BallState| s.0);
    let fwd = Seq::new((w.len() - 1) as nat, |i: int| !w[i + 1].1);
    assert forall|i: int| 0 <= i < fwd.len() implies #[trigger] trail_step(edges, p, fwd, i) by {
        assert(ball_step_at(edges, z, w, i));
    }
    assert forall|i: int| 0 < i < p.len() - 1 implies if fwd[i - 1] && !fwd[i] {
        descendant_in(edges, #[trigger] p[i], z)
    } else {
        !z.contains(p[i])
    } by {
        assert(ball_step_at(edges, z, w, i));
        if fwd[i - 1] && !fwd[i] {
            let v = seq![p[i]];
            assert(is_walk(edges, v));
            assert(v.last() == p[i]);
        }
    }
    assert(active_trail(edges, z, p, fwd));
    assert(p[0] == x);
    assert(p.last() == y);
}

/// D-separation by trails: when `x` is not conditioned on, a ball from `x` reaches `y`
/// exactly when some trail active given `z` joins `x` to `y` (a trail may pass a node more
/// than once).
pub proof fn lemma_ball_connected_iff_active_trail(edges: Seq<Edge>, z: Seq<NodeId>, x: NodeId, y: NodeId)
    requires
        !z.contains(x),
    ensures
        ball_connected(edges, z, x, y) <==> exists|p: Seq<NodeId>, fwd: Seq<bool>|
            #[trigger] active_trail(edges, z, p, fwd) && p[0] == x && p.last() == y,
{
    if ball_connected(edges, z, x, y) {
        lemma_ball_walk_active(edges, z, x, y);
    }
    if exists|p: Seq<NodeId>, fwd: Seq<bool>| #[trigger] active_trail(edges, z, p, fwd) && p[0] == x && p.last() == y {
        let (p, fwd) = choose|p: Seq<NodeId>, fwd: Seq<bool>| #[trigger] active_trail(edges, z, p, fwd) && p[0] == x && p.last() == y;
        lemma_active_trail_connects(edges, z, p, fwd);
    }
}

} // verus!
