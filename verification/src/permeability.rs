//! Information flow through the graph: reachability, the paths along which flow is summed,
//! and simple paths between two nodes.

use vstd::prelude::*;

use crate::conditional_independence::rows;
use crate::graph::{edge_in, Edge, Graph};
use crate::NodeId;

verus! {

broadcast use vstd::seq_lib::seq_to_set_is_finite;

/// The `i`-th step of the node sequence `p` follows an edge.
pub open spec fn walk_step(edges: Seq<Edge>, p: Seq<NodeId>, i: int) -> bool {
    edge_in(edges, p[i], p[i + 1])
}

/// Every step of the node sequence `p` follows an edge.
pub open spec fn is_walk(edges: Seq<Edge>, p: Seq<NodeId>) -> bool {
    forall|i: int| 0 <= i < p.len() - 1 ==> #[trigger] walk_step(edges, p, i)
}

/// `b` can be reached from `a` by following edges (in zero or more steps).
pub open spec fn reachable(edges: Seq<Edge>, a: NodeId, b: NodeId) -> bool {
    exists|p: Seq<NodeId>| #[trigger] is_walk(edges, p) && p.len() > 0 && p[0] == a && p.last() == b
}

/// A walk followed by one more edge is a walk.
proof fn lemma_walk_push(edges: Seq<Edge>, p: Seq<NodeId>, w: NodeId)
    requires
        is_walk(edges, p),
        p.len() > 0,
        edge_in(edges, p.last(), w),
    ensures
        is_walk(edges, p.push(w)),
{
    let q = p.push(w);
    assert forall|i: int| 0 <= i < q.len() - 1 implies #[trigger] walk_step(edges, q, i) by {
        if i < p.len() - 1 {
            assert(walk_step(edges, p, i));
        }
    }
}

/// What is reachable from a reachable node is reachable.
proof fn lemma_reachable_step(edges: Seq<Edge>, a: NodeId, v: NodeId, w: NodeId)
    requires
        reachable(edges, a, v),
        edge_in(edges, v, w),
    ensures
        reachable(edges, a, w),
{
    let p = choose|p: Seq<NodeId>| #[trigger] is_walk(edges, p) && p.len() > 0 && p[0] == a && p.last() == v;
    lemma_walk_push(edges, p, w);
    assert(p.push(w)[0] == a);
}

/// A list of nodes that holds the start of a walk and is closed under edges holds the
/// whole walk.
proof fn lemma_listed_holds_walk(edges: Seq<Edge>, vis: Seq<NodeId>, p: Seq<NodeId>, k: int)
    requires
        is_walk(edges, p),
        0 <= k < p.len(),
        vis.contains(p[0]),
        forall|v: NodeId, w: NodeId| #[trigger] vis.contains(v) && #[trigger] edge_in(edges, v, w) ==> vis.contains(w),
    ensures
        vis.contains(p[k]),
    decreases k,
{
    if k > 0 {
        lemma_listed_holds_walk(edges, vis, p, k - 1);
        assert(walk_step(edges, p, k - 1));
    }
}

/// After pushing `x`, a sequence holds what it held and `x`.
proof fn lemma_push_contains(s: Seq<NodeId>, x: NodeId)
    ensures
        forall|v: NodeId| #[trigger] s.push(x).contains(v) <==> (s.contains(v) || v == x),
{
    assert forall|v: NodeId| #[trigger] s.push(x).contains(v) <==> (s.contains(v) || v == x) by {
        crate::sorted::lemma_take_succ_contains(s.push(x), s.len() as int, v);
        assert(s.push(x).take(s.len() as int) == s);
        assert(s.push(x).take(s.len() as int + 1) == s.push(x));
    }
}

/// Whether information can flow from `source` to `target`: whether `target` is reachable from
/// `source` along edges. A depth-first search that keeps a list of the nodes it expands.
#[verifier::rlimit(40)]
pub fn can_reach(graph: &Graph, source: NodeId, target: NodeId) -> (r: bool)
    ensures
        r == reachable(graph.edges@, source, target),
{
    let ghost edges = graph.edges@;
    let ghost univ = edge_ends(edges).push(source).to_set();
    let mut visited: Vec<NodeId> = Vec::new();
    let mut stack: Vec<NodeId> = Vec::new();
    stack.push(source);
    proof {
        assert(is_walk(edges, seq![source]));
        assert(seq![source].last() == source);
        assert(stack@[0] == source);
        lemma_push_contains(edge_ends(edges), source);
    }
    loop
        invariant
            edges == graph.edges@,
            univ == edge_ends(edges).push(source).to_set(),
            univ.finite(),
            visited@.no_duplicates(),
            visited@.len() <= univ.len(),
            forall|v: NodeId| #[trigger] stack@.contains(v) ==> univ.contains(v) && reachable(edges, source, v),
            forall|v: NodeId| #[trigger] visited@.contains(v) ==> univ.contains(v) && reachable(edges, source, v)
                && v != target,
            stack@.contains(source) || visited@.contains(source),
            forall|v: NodeId, w: NodeId|
                #[trigger] visited@.contains(v) && #[trigger] edge_in(edges, v, w) ==> visited@.contains(w)
                    || stack@.contains(w),
        decreases univ.len() - visited@.len(), stack@.len(),
    {
        let ghost s0 = stack@;
        match stack.pop() {
            None => {
                proof {
                    assert forall|v: NodeId, w: NodeId|
                        #[trigger] visited@.contains(v) && #[trigger] edge_in(edges, v, w) implies visited@.contains(w) by {}
                    if reachable(edges, source, target) {
                        let p = choose|p: Seq<NodeId>|
                            #[trigger] is_walk(edges, p) && p.len() > 0 && p[0] == source && p.last() == target;
                        lemma_listed_holds_walk(edges, visited@, p, p.len() - 1);
                    }
                }
                return false;
            },
            Some(node) => {
                proof {
                    assert(s0.last() == node);
                    assert(s0.contains(node));
                    assert forall|v: NodeId| s0.contains(v) && v != node implies #[trigger] stack@.contains(v) by {
                        let k = choose|k: int| 0 <= k < s0.len() && #[trigger] s0[k] == v;
                        assert(stack@[k] == v);
                    }
                    assert forall|v: NodeId| #[trigger] stack@.contains(v) implies s0.contains(v) by {
                        let k = choose|k: int| 0 <= k < stack@.len() && #[trigger] stack@[k] == v;
                        assert(s0[k] == v);
                    }
                }
                if node == target {
                    return true;
                }
                if crate::sorted::slice_contains(visited.as_slice(), node) {
                    continue;
                }
                let ghost vis0 = visited@;
                visited.push(node);
                proof {
                    lemma_push_contains(vis0, node);
                    assert(visited@ == vis0.push(node));
                    assert(visited@.no_duplicates());
                    visited@.unique_seq_to_set();
                    assert(visited@.to_set().subset_of(univ));
                    vstd::set_lib::lemma_len_subset(visited@.to_set(), univ);
                }
                let ghost s1 = stack@;
                let m = graph.edges.len();
                let mut i: usize = 0;
                while i < m
                    invariant
                        edges == graph.edges@,
                        univ == edge_ends(edges).push(source).to_set(),
                        m == edges.len(),
                        i <= m,
                        visited@ == vis0.push(node),
                        forall|v: NodeId| #[trigger] visited@.contains(v) <==> (vis0.contains(v) || v == node),
                        reachable(edges, source, node),
                        forall|v: NodeId| #[trigger] s1.contains(v) ==> stack@.contains(v),
                        forall|v: NodeId| #[trigger] stack@.contains(v) ==> s1.contains(v) || (univ.contains(v)
                            && edge_in(edges, node, v)),
                        forall|k: int| 0 <= k < i && (#[trigger] edges[k]).from == node
                            ==> visited@.contains(edges[k].to) || stack@.contains(edges[k].to),
                    decreases m - i,
                {
                    let e = graph.edges[i];
                    if e.from == node && !crate::sorted::slice_contains(visited.as_slice(), e.to) {
                        let ghost st = stack@;
                        stack.push(e.to);
                        proof {
                            lemma_push_contains(st, e.to);
                            assert(stack@ == st.push(e.to));
                            assert(edges[i as int].from == node && edges[i as int].to == e.to);
                            lemma_edge_ends(edges, i as int);
                            lemma_push_contains(edge_ends(edges), source);
                        }
                    }
                    i = i + 1;
                }
                proof {
                    assert forall|v: NodeId| #[trigger] stack@.contains(v) implies univ.contains(v)
                        && reachable(edges, source, v) by {
                        if !s1.contains(v) {
                            lemma_reachable_step(edges, source, node, v);
                        }
                    }
                    assert forall|v: NodeId, w: NodeId|
                        #[trigger] visited@.contains(v) && #[trigger] edge_in(edges, v, w)
                            implies visited@.contains(w) || stack@.contains(w) by {
                        let k = choose|k: int| 0 <= k < edges.len() && #[trigger] edges[k].from == v && edges[k].to == w;
                        if v == node {
                            assert(edges[k].from == node);
                        } else {
                            assert(vis0.contains(v));
                            if s0.contains(w) && w != node {
                                assert(s1.contains(w));
                            }
                        }
                    }
                    if source != node {
                        if s0.contains(source) {
                            assert(s1.contains(source));
                        }
                    }
                }
            },
        }
    }
}


/// The edges at the positions `q` lead, one after another, from `a` to `b`.
pub open spec fn edge_path(edges: Seq<Edge>, a: NodeId, q: Seq<usize>, b: NodeId) -> bool
    decreases q.len(),
{
    if q.len() == 0 {
        a == b
    } else {
        q.last() < edges.len() && edges[q.last() as int].to == b && edge_path(
            edges,
            a,
            q.drop_last(),
            edges[q.last() as int].from,
        )
    }
}

/// The nodes that the edges touch, with repetitions.
pub open spec fn edge_ends(edges: Seq<Edge>) -> Seq<NodeId>
    decreases edges.len(),
{
    if edges.len() == 0 {
        Seq::empty()
    } else {
        edge_ends(edges.drop_last()).push(edges.last().from).push(edges.last().to)
    }
}

/// How many nodes that the edges touch are not yet on the path `current`.
pub open spec fn path_room(edges: Seq<Edge>, current: Seq<NodeId>) -> nat {
    edge_ends(edges).to_set().difference(current.to_set()).len()
}

pub proof fn lemma_edge_ends(edges: Seq<Edge>, k: int)
    requires
        0 <= k < edges.len(),
    ensures
        edge_ends(edges).contains(edges[k].to),
    decreases edges.len(),
{
    let rest = edges.drop_last();
    let ends = edge_ends(edges);
    if k < edges.len() - 1 {
        lemma_edge_ends(rest, k);
        let j = choose|j: int| 0 <= j < edge_ends(rest).len() && #[trigger] edge_ends(rest)[j] == rest[k].to;
        assert(ends[j] == edges[k].to);
    } else {
        assert(ends[ends.len() - 1] == edges[k].to);
    }
}

/// Adding to the path a node that an edge touches and that is not yet on it leaves less room.
pub proof fn lemma_room_shrinks(edges: Seq<Edge>, current: Seq<NodeId>, k: int)
    requires
        0 <= k < edges.len(),
        !current.contains(edges[k].to),
    ensures
        path_room(edges, current.push(edges[k].to)) < path_room(edges, current),
{
    let t = edges[k].to;
    let all = edge_ends(edges).to_set();
    let before = all.difference(current.to_set());
    let after = all.difference(current.push(t).to_set());
    lemma_edge_ends(edges, k);
    assert(current.push(t).to_set() =~= current.to_set().insert(t)) by {
        assert forall|v: NodeId| current.push(t).contains(v) <==> (current.contains(v) || v == t) by {
            if current.push(t).contains(v) {
                let j = choose|j: int| 0 <= j < current.push(t).len() && #[trigger] current.push(t)[j] == v;
                if j < current.len() {
                    assert(current[j] == v);
                }
            }
            if current.contains(v) {
                let j = choose|j: int| 0 <= j < current.len() && #[trigger] current[j] == v;
                assert(current.push(t)[j] == v);
            }
            if v == t {
                assert(current.push(t)[current.len() as int] == v);
            }
        }
    }
    assert(after =~= before.remove(t));
    assert(before.contains(t));
}

/// The simple paths from `node` to `target` that extend `current` (which ends at `node`), in
/// the order the depth-first search of `find_paths` finds them. A path stops at its first
/// visit of `target`.
pub open spec fn simple_paths(edges: Seq<Edge>, node: NodeId, target: NodeId, current: Seq<NodeId>) -> Seq<Seq<NodeId>>
    decreases path_room(edges, current), 1nat, 0int,
{
    if node == target {
        seq![current]
    } else {
        paths_via(edges, node, target, current, edges.len() as int)
    }
}

/// The simple paths of `simple_paths` that leave `node` by one of the first `k` edges, by edge.
pub open spec fn paths_via(edges: Seq<Edge>, node: NodeId, target: NodeId, current: Seq<NodeId>, k: int) -> Seq<Seq<NodeId>>
    decreases path_room(edges, current), 0nat, k,
{
    if k <= 0 || k > edges.len() {
        Seq::empty()
    } else {
        let before = paths_via(edges, node, target, current, k - 1);
        let e = edges[k - 1];
        if e.from == node && !current.contains(e.to) {
            proof {
                lemma_room_shrinks(edges, current, k - 1);
            }
            before + simple_paths(edges, e.to, target, current.push(e.to))
        } else {
            before
        }
    }
}

/// `p` is a non-empty walk that visits no node twice.
pub open spec fn simple_walk(edges: Seq<Edge>, p: Seq<NodeId>) -> bool {
    p.len() > 0 && is_walk(edges, p) && p.no_duplicates()
}

/// `q` is a simple walk from `a` to `b` that meets `b` only at its end.
pub open spec fn simple_path_between(edges: Seq<Edge>, q: Seq<NodeId>, a: NodeId, b: NodeId) -> bool {
    &&& simple_walk(edges, q)
    &&& q[0] == a
    &&& q.last() == b
    &&& forall|j: int| 0 <= j < q.len() - 1 ==> q[j] != b
}

/// Every path `simple_paths` finds extends `current` to a simple path to `target`.
pub proof fn lemma_simple_paths_sound(edges: Seq<Edge>, node: NodeId, target: NodeId, current: Seq<NodeId>)
    requires
        simple_walk(edges, current),
        current.last() == node,
        forall|j: int| 0 <= j < current.len() - 1 ==> current[j] != target,
    ensures
        forall|i: int| 0 <= i < simple_paths(edges, node, target, current).len()
            ==> simple_path_between(edges, #[trigger] simple_paths(edges, node, target, current)[i], current[0], target),
    decreases path_room(edges, current), 1nat, 0int,
{
    if node == target {
        assert(simple_paths(edges, node, target, current) == seq![current]);
        assert(simple_path_between(edges, current, current[0], target));
        assert(seq![current][0] == current);
    } else {
        lemma_paths_via_sound(edges, node, target, current, edges.len() as int);
        assert(simple_paths(edges, node, target, current) == paths_via(edges, node, target, current, edges.len() as int));
    }
}

/// Every path `paths_via` finds extends `current` to a simple path to `target`.
pub proof fn lemma_paths_via_sound(edges: Seq<Edge>, node: NodeId, target: NodeId, current: Seq<NodeId>, k: int)
    requires
        simple_walk(edges, current),
        current.last() == node,
        node != target,
        forall|j: int| 0 <= j < current.len() - 1 ==> current[j] != target,
    ensures
        forall|i: int| 0 <= i < paths_via(edges, node, target, current, k).len()
            ==> simple_path_between(edges, #[trigger] paths_via(edges, node, target, current, k)[i], current[0], target),
    decreases path_room(edges, current), 0nat, k,
{
    if !(k <= 0 || k > edges.len()) {
        let before = paths_via(edges, node, target, current, k - 1);
        lemma_paths_via_sound(edges, node, target, current, k - 1);
        let e = edges[k - 1];
        if e.from == node && !current.contains(e.to) {
            lemma_room_shrinks(edges, current, k - 1);
            let next = current.push(e.to);
            assert(edge_in(edges, current.last(), e.to)) by {
                assert(edges[k - 1].from == node && edges[k - 1].to == e.to);
            }
            lemma_walk_push(edges, current, e.to);
            assert(next.no_duplicates()) by {
                assert forall|a: int, b: int| 0 <= a < next.len() && 0 <= b < next.len() && a != b implies next[a] != next[b] by {
                    if a < current.len() && b < current.len() {
                    } else if a < current.len() {
                        assert(current.contains(next[a]));
                    } else if b < current.len() {
                        assert(current.contains(next[b]));
                    }
                }
            }
            assert forall|j: int| 0 <= j < next.len() - 1 implies next[j] != target by {
                if j < current.len() - 1 {
                } else {
                    assert(next[j] == node);
                }
            }
            lemma_simple_paths_sound(edges, e.to, target, next);
            let after = simple_paths(edges, e.to, target, next);
            let all = paths_via(edges, node, target, current, k);
            assert(all == before + after);
            assert forall|i: int| 0 <= i < all.len() implies simple_path_between(edges, #[trigger] all[i], current[0], target) by {
                if i < before.len() {
                    assert(all[i] == before[i]);
                } else {
                    assert(all[i] == after[i - before.len()]);
                    assert(next[0] == current[0]);
                }
            }
        }
    }
}

/// `q` starts with all of `current`.
pub open spec fn extends(q: Seq<NodeId>, current: Seq<NodeId>) -> bool {
    current.len() <= q.len() && forall|i: int| 0 <= i < current.len() ==> q[i] == current[i]
}

/// The paths `simple_paths` finds through the edge at `k0` are among those `paths_via` finds
/// through any longer prefix of the edges.
proof fn lemma_paths_via_holds(
    edges: Seq<Edge>,
    node: NodeId,
    target: NodeId,
    current: Seq<NodeId>,
    k: int,
    k0: int,
    q: Seq<NodeId>,
)
    requires
        0 <= k0 < k <= edges.len(),
        edges[k0].from == node,
        !current.contains(edges[k0].to),
        simple_paths(edges, edges[k0].to, target, current.push(edges[k0].to)).contains(q),
    ensures
        paths_via(edges, node, target, current, k).contains(q),
    decreases k,
{
    let before = paths_via(edges, node, target, current, k - 1);
    let e = edges[k - 1];
    if k - 1 == k0 {
        let after = simple_paths(edges, e.to, target, current.push(e.to));
        lemma_room_shrinks(edges, current, k - 1);
        assert(paths_via(edges, node, target, current, k) == before + after);
        let j = choose|j: int| 0 <= j < after.len() && after[j] == q;
        assert((before + after)[before.len() + j] == q);
    } else {
        lemma_paths_via_holds(edges, node, target, current, k - 1, k0, q);
        let j = choose|j: int| 0 <= j < before.len() && before[j] == q;
        if e.from == node && !current.contains(e.to) {
            lemma_room_shrinks(edges, current, k - 1);
            let after = simple_paths(edges, e.to, target, current.push(e.to));
            assert(paths_via(edges, node, target, current, k) == before + after);
            assert((before + after)[j] == q);
        } else {
            assert(paths_via(edges, node, target, current, k) == before);
        }
    }
}

/// `simple_paths` finds every simple path to `target` that extends `current`.
pub proof fn lemma_simple_paths_complete(
    edges: Seq<Edge>,
    node: NodeId,
    target: NodeId,
    current: Seq<NodeId>,
    q: Seq<NodeId>,
)
    requires
        simple_walk(edges, current),
        current.last() == node,
        simple_path_between(edges, q, current[0], target),
        extends(q, current),
    ensures
        simple_paths(edges, node, target, current).contains(q),
    decreases path_room(edges, current),
{
    let c = current.len() as int;
    if node == target {
        if c < q.len() {
            assert(q[c - 1] == current[c - 1]);
            assert(q[c - 1] != target);
        }
        assert(q =~= current);
        assert(simple_paths(edges, node, target, current) == seq![current]);
        assert(seq![current][0] == q);
    } else {
        if c == q.len() {
            assert(q[c - 1] == current[c - 1]);
        }
        let x = q[c];
        assert(walk_step(edges, q, c - 1));
        assert(q[c - 1] == node);
        let k0 = choose|k0: int| 0 <= k0 < edges.len() && #[trigger] edges[k0].from == node && edges[k0].to == x;
        assert(!current.contains(x)) by {
            if current.contains(x) {
                let i = choose|i: int| 0 <= i < c && current[i] == x;
                assert(q[i] == x);
            }
        }
        let next = current.push(x);
        lemma_room_shrinks(edges, current, k0);
        lemma_walk_push(edges, current, x);
        assert(next.no_duplicates()) by {
            assert forall|a: int, b: int| 0 <= a < next.len() && 0 <= b < next.len() && a != b implies next[a] != next[b] by {
                if a < c && b < c {
                } else if a < c {
                    assert(current.contains(next[a]));
                } else if b < c {
                    assert(current.contains(next[b]));
                }
            }
        }
        assert(extends(q, next)) by {
            assert forall|i: int| 0 <= i < next.len() implies q[i] == next[i] by {
                if i < c {
                    assert(next[i] == current[i]);
                }
            }
        }
        assert(next[0] == current[0]);
        lemma_simple_paths_complete(edges, x, target, next, q);
        lemma_paths_via_holds(edges, node, target, current, edges.len() as int, k0, q);
        assert(simple_paths(edges, node, target, current) == paths_via(edges, node, target, current, edges.len() as int));
    }
}

/// Any walk from `a` to `b` can be shortened to a simple path from `a` to `b` that meets `b`
/// only at its end.
pub proof fn lemma_simple_path_from_walk(edges: Seq<Edge>, a: NodeId, b: NodeId, p: Seq<NodeId>)
    requires
        is_walk(edges, p),
        p.len() > 0,
        p[0] == a,
        p.last() == b,
    ensures
        exists|q: Seq<NodeId>| #[trigger] simple_path_between(edges, q, a, b),
    decreases p.len(),
{
    if exists|j: int| 0 <= j < p.len() - 1 && p[j] == b {
        let j = choose|j: int| 0 <= j < p.len() - 1 && p[j] == b;
        let t = p.take(j + 1);
        assert forall|i: int| 0 <= i < t.len() - 1 implies #[trigger] walk_step(edges, t, i) by {
            assert(walk_step(edges, p, i));
        }
        lemma_simple_path_from_walk(edges, a, b, t);
    } else if !p.no_duplicates() {
        let (i, j) = choose|i: int, j: int| 0 <= i < p.len() && 0 <= j < p.len() && i != j && p[i] == p[j];
        let lo = if i < j { i } else { j };
        let hi = if i < j { j } else { i };
        let t = p.take(lo) + p.skip(hi);
        assert forall|k: int| 0 <= k < t.len() - 1 implies #[trigger] walk_step(edges, t, k) by {
            if k < lo - 1 {
                assert(t[k] == p[k] && t[k + 1] == p[k + 1]);
                assert(walk_step(edges, p, k));
            } else if k == lo - 1 {
                assert(t[k] == p[k] && t[k + 1] == p[hi]);
                assert(walk_step(edges, p, k));
            } else {
                let m = k - lo + hi;
                assert(t[k] == p[m] && t[k + 1] == p[m + 1]);
                assert(walk_step(edges, p, m));
            }
        }
        if lo == 0 {
            assert(t[0] == p[hi]);
        } else {
            assert(t[0] == p[0]);
        }
        assert(t.last() == p.last());
        lemma_simple_path_from_walk(edges, a, b, t);
    } else {
        assert(simple_path_between(edges, p, a, b));
    }
}

/// No two edges join the same two nodes the same way.
pub open spec fn no_parallel_edges(edges: Seq<Edge>) -> bool {
    forall|i: int, j: int|
        0 <= i < j < edges.len() ==> !(#[trigger] edges[i].from == #[trigger] edges[j].from && edges[i].to == edges[j].to)
}

/// Some edge among the first `k` leaves `node` for `x`.
pub open spec fn leaves_for(edges: Seq<Edge>, node: NodeId, x: NodeId, k: int) -> bool {
    exists|m: int| 0 <= m < k && #[trigger] edges[m].from == node && edges[m].to == x
}

/// Every path `simple_paths` finds extends `current`, and, without parallel edges, none is
/// found twice.
pub proof fn lemma_simple_paths_unique(edges: Seq<Edge>, node: NodeId, target: NodeId, current: Seq<NodeId>)
    requires
        no_parallel_edges(edges),
    ensures
        forall|i: int| 0 <= i < simple_paths(edges, node, target, current).len()
            ==> extends(#[trigger] simple_paths(edges, node, target, current)[i], current),
        simple_paths(edges, node, target, current).no_duplicates(),
    decreases path_room(edges, current), 1nat, 0int,
{
    if node == target {
        assert(simple_paths(edges, node, target, current) == seq![current]);
        assert(seq![current][0] == current);
    } else {
        lemma_paths_via_unique(edges, node, target, current, edges.len() as int);
        assert(simple_paths(edges, node, target, current) == paths_via(edges, node, target, current, edges.len() as int));
    }
}

/// `lemma_simple_paths_unique` for the paths through the first `k` edges, each of which goes
/// on from `current` to a node one of those edges leads to from `node`.
pub proof fn lemma_paths_via_unique(edges: Seq<Edge>, node: NodeId, target: NodeId, current: Seq<NodeId>, k: int)
    requires
        no_parallel_edges(edges),
    ensures
        forall|i: int| 0 <= i < paths_via(edges, node, target, current, k).len()
            ==> extends(#[trigger] paths_via(edges, node, target, current, k)[i], current)
            && paths_via(edges, node, target, current, k)[i].len() > current.len()
            && leaves_for(edges, node, paths_via(edges, node, target, current, k)[i][current.len() as int], k),
        paths_via(edges, node, target, current, k).no_duplicates(),
    decreases path_room(edges, current), 0nat, k,
{
    if !(k <= 0 || k > edges.len()) {
        lemma_paths_via_unique(edges, node, target, current, k - 1);
        let before = paths_via(edges, node, target, current, k - 1);
        let e = edges[k - 1];
        let c = current.len() as int;
        if e.from == node && !current.contains(e.to) {
            lemma_room_shrinks(edges, current, k - 1);
            let next = current.push(e.to);
            lemma_simple_paths_unique(edges, e.to, target, next);
            let after = simple_paths(edges, e.to, target, next);
            let all = paths_via(edges, node, target, current, k);
            assert(all == before + after);
            assert forall|i: int| 0 <= i < all.len() implies extends(#[trigger] all[i], current)
                && all[i].len() > c && leaves_for(edges, node, all[i][c], k) by {
                if i < before.len() {
                    assert(all[i] == before[i]);
                    let m = choose|m: int| 0 <= m < k - 1 && #[trigger] edges[m].from == node && edges[m].to == before[i][c];
                    assert(edges[m].from == node);
                } else {
                    let q = after[i - before.len()];
                    assert(all[i] == q);
                    assert(extends(q, next));
                    assert(q[c] == next[c]);
                    assert(edges[k - 1].from == node);
                    assert forall|j: int| 0 <= j < c implies q[j] == current[j] by {
                        assert(next[j] == current[j]);
                    }
                }
            }
            assert forall|a: int, b: int| 0 <= a < all.len() && 0 <= b < all.len() && a != b implies all[a] != all[b] by {
                if a < before.len() && b < before.len() {
                    assert(all[a] == before[a] && all[b] == before[b]);
                } else if a >= before.len() && b >= before.len() {
                    assert(all[a] == after[a - before.len()] && all[b] == after[b - before.len()]);
                } else {
                    let (o, n) = if a < before.len() { (a, b) } else { (b, a) };
                    let qo = before[o];
                    let qn = after[n - before.len()];
                    assert(all[o] == qo && all[n] == qn);
                    let m = choose|m: int| 0 <= m < k - 1 && #[trigger] edges[m].from == node && edges[m].to == qo[c];
                    assert(extends(qn, next));
                    assert(qn[c] == e.to);
                    if qo == qn {
                        assert(edges[m].from == edges[k - 1].from);
                    }
                }
            }
        } else {
            let all = paths_via(edges, node, target, current, k);
            assert(all == before);
            assert forall|i: int| 0 <= i < all.len() implies extends(#[trigger] all[i], current)
                && all[i].len() > c && leaves_for(edges, node, all[i][c], k) by {
                let m = choose|m: int| 0 <= m < k - 1 && #[trigger] edges[m].from == node && edges[m].to == before[i][c];
                assert(edges[m].from == node);
            }
        }
    }
}

/// Appends to `paths` every simple path from `node` to `target` that extends `current`.
fn find_paths_recursive(
    graph: &Graph,
    node: NodeId,
    target: NodeId,
    current: &mut Vec<NodeId>,
    paths: &mut Vec<Vec<NodeId>>,
)
    ensures
        final(current)@ == old(current)@,
        rows(final(paths)@) == rows(old(paths)@) + simple_paths(graph.edges@, node, target, old(current)@),
    decreases path_room(graph.edges@, old(current)@),
{
    let ghost edges = graph.edges@;
    let ghost cur0 = current@;
    let ghost paths0 = rows(paths@);
    if node == target {
        let c = current.clone();
        assert(c@ =~= cur0);
        paths.push(c);
        assert(rows(paths@) =~= paths0 + seq![cur0]);
        return;
    }
    let m = graph.edges.len();
    let mut i: usize = 0;
    proof {
        assert(rows(paths@) =~= paths0 + paths_via(edges, node, target, cur0, 0));
    }
    while i < m
        invariant
            edges == graph.edges@,
            m == edges.len(),
            i <= m,
            node != target,
            current@ == cur0,
            cur0 == old(current)@,
            rows(paths@) == paths0 + paths_via(edges, node, target, cur0, i as int),
        decreases m - i,
    {
        let e = graph.edges[i];
        if e.from == node && !crate::sorted::slice_contains(current.as_slice(), e.to) {
            current.push(e.to);
            proof {
                assert(edges[i as int] == e);
                assert(current@ == cur0.push(e.to));
                lemma_room_shrinks(edges, cur0, i as int);
            }
            find_paths_recursive(graph, e.to, target, current, paths);
            let _ = current.pop();
            proof {
                assert(current@ =~= cur0);
                assert(rows(paths@) =~= paths0 + paths_via(edges, node, target, cur0, i + 1));
            }
        }
        i = i + 1;
    }
    assert(paths_via(edges, node, target, cur0, m as int) == simple_paths(edges, node, target, cur0));
}

/// All simple paths from `source` to `target`, in the order a depth-first search over the
/// edges finds them. Each starts at `source` and stops at its first visit of `target`; they
/// are the walks of the simple paths of edges, one for each, in increasing lexicographic
/// order of edge positions.
pub fn find_paths(graph: &Graph, source: NodeId, target: NodeId) -> (r: Vec<Vec<NodeId>>)
    ensures
        rows(r@) == simple_paths(graph.edges@, source, target, seq![source]),
        forall|k: int| 0 <= k < r@.len() ==> simple_path_between(graph.edges@, (#[trigger] r@[k])@, source, target),
        forall|q: Seq<NodeId>| #[trigger] simple_path_between(graph.edges@, q, source, target) ==> rows(r@).contains(q),
        r@.len() > 0 <==> reachable(graph.edges@, source, target),
        no_parallel_edges(graph.edges@) ==> rows(r@).no_duplicates(),
        exists|qs: Seq<Seq<usize>>| #[trigger] edge_paths_in_order(graph.edges@, source, target, qs)
            && qs.len() == r@.len()
            && forall|i: int| 0 <= i < qs.len() ==> walk_of(graph.edges@, source, #[trigger] qs[i]) == r@[i]@,
{
    let mut paths: Vec<Vec<NodeId>> = Vec::new();
    let mut current: Vec<NodeId> = Vec::new();
    current.push(source);
    assert(current@ =~= seq![source]);
    find_paths_recursive(graph, source, target, &mut current, &mut paths);
    assert(rows(paths@) =~= simple_paths(graph.edges@, source, target, seq![source]));
    proof {
        let start = seq![source];
        assert(is_walk(graph.edges@, start));
        assert(start.no_duplicates());
        lemma_simple_paths_sound(graph.edges@, source, target, start);
        assert forall|k: int| 0 <= k < paths@.len() implies simple_path_between(graph.edges@, (#[trigger] paths@[k])@, source, target) by {
            assert(rows(paths@)[k] == paths@[k]@);
        }
        assert forall|q: Seq<NodeId>| #[trigger] simple_path_between(graph.edges@, q, source, target)
            implies rows(paths@).contains(q) by {
            assert(extends(q, start));
            lemma_simple_paths_complete(graph.edges@, source, target, start, q);
        }
        lemma_simple_paths_nonempty(graph.edges@, source, target);
        assert(rows(paths@).len() == paths@.len());
        if no_parallel_edges(graph.edges@) {
            lemma_simple_paths_unique(graph.edges@, source, target, start);
        }
        assert(graph.edges@.len() == graph.edges.len());
        lemma_walks_in_edge_order(graph.edges@, source, target);
        let qs = edge_paths_from(graph.edges@, source, target, start, Seq::<usize>::empty());
        assert forall|i: int| 0 <= i < qs.len() implies walk_of(graph.edges@, source, #[trigger] qs[i]) == paths@[i]@ by {
            assert(rows(paths@)[i] == paths@[i]@);
        }
    }
    paths
}

/// The paths of edges found from `source` hold every simple edge path to `target`, in
/// increasing lexicographic order of edge positions, and their walks are the simple paths
/// found, one for one.
pub proof fn lemma_walks_in_edge_order(edges: Seq<Edge>, source: NodeId, target: NodeId)
    requires
        edges.len() <= usize::MAX,
    ensures
        ({
            let qs = edge_paths_from(edges, source, target, seq![source], Seq::<usize>::empty());
            let sp = simple_paths(edges, source, target, seq![source]);
            &&& edge_paths_in_order(edges, source, target, qs)
            &&& qs.len() == sp.len()
            &&& forall|i: int| 0 <= i < qs.len() ==> walk_of(edges, source, #[trigger] qs[i]) == sp[i]
        }),
{
    let start = seq![source];
    let e0 = Seq::<usize>::empty();
    let qs = edge_paths_from(edges, source, target, start, e0);
    let sp = simple_paths(edges, source, target, start);
    assert(walk_of(edges, source, e0) =~= start);
    lemma_edge_paths_from(edges, source, target, start, e0, source);
    lemma_edge_paths_from_sorted(edges, source, target, start, e0);
    assert(is_walk(edges, start));
    assert(start.no_duplicates());
    lemma_simple_paths_sound(edges, source, target, start);
    assert forall|q: Seq<usize>| #[trigger] qs.contains(q) <==> simple_edge_path(edges, q, source, target) by {
        if qs.contains(q) {
            let i = choose|i: int| 0 <= i < qs.len() && qs[i] == q;
            assert(walk_of(edges, source, qs[i]) == sp[i]);
            assert(simple_path_between(edges, sp[i], start[0], target));
        }
        if simple_edge_path(edges, q, source, target) {
            lemma_edge_paths_complete(edges, source, target, start, e0, source, q);
        }
    }
}

/// From `source`, there is a simple path to `target` exactly when `target` can be reached.
pub proof fn lemma_simple_paths_nonempty(edges: Seq<Edge>, source: NodeId, target: NodeId)
    ensures
        simple_paths(edges, source, target, seq![source]).len() > 0 <==> reachable(edges, source, target),
{
    let start = seq![source];
    let ps = simple_paths(edges, source, target, start);
    assert(is_walk(edges, start));
    assert(start.no_duplicates());
    lemma_simple_paths_sound(edges, source, target, start);
    if ps.len() > 0 {
        assert(simple_path_between(edges, ps[0], source, target));
        assert(is_walk(edges, ps[0]));
    }
    if reachable(edges, source, target) {
        let p = choose|p: Seq<NodeId>| #[trigger] is_walk(edges, p) && p.len() > 0 && p[0] == source && p.last() == target;
        lemma_simple_path_from_walk(edges, source, target, p);
        let q = choose|q: Seq<NodeId>| #[trigger] simple_path_between(edges, q, source, target);
        assert(extends(q, start));
        lemma_simple_paths_complete(edges, source, target, start, q);
    }
}

/// The nodes a path of edges (by position) visits, starting at `a`.
pub open spec fn walk_of(edges: Seq<Edge>, a: NodeId, q: Seq<usize>) -> Seq<NodeId> {
    seq![a] + q.map_values(|k: usize| edges[k as int].to)
}

/// The paths of edges (by position) from `node` to `target` that extend the path `path`,
/// whose nodes are `current`, visiting no node twice: the same search as `simple_paths`, but
/// recording the edges taken, so that parallel edges give separate paths.
pub open spec fn edge_paths_from(
    edges: Seq<Edge>,
    node: NodeId,
    target: NodeId,
    current: Seq<NodeId>,
    path: Seq<usize>,
) -> Seq<Seq<usize>>
    decreases path_room(edges, current), 1nat, 0int,
{
    if node == target {
        seq![path]
    } else {
        edge_paths_via(edges, node, target, current, path, edges.len() as int)
    }
}

/// The paths of `edge_paths_from` that leave `node` by one of the first `k` edges, by edge.
pub open spec fn edge_paths_via(
    edges: Seq<Edge>,
    node: NodeId,
    target: NodeId,
    current: Seq<NodeId>,
    path: Seq<usize>,
    k: int,
) -> Seq<Seq<usize>>
    decreases path_room(edges, current), 0nat, k,
{
    if k <= 0 || k > edges.len() {
        Seq::empty()
    } else {
        let before = edge_paths_via(edges, node, target, current, path, k - 1);
        let e = edges[k - 1];
        if e.from == node && !current.contains(e.to) {
            proof {
                lemma_room_shrinks(edges, current, k - 1);
            }
            before + edge_paths_from(edges, e.to, target, current.push(e.to), path.push((k - 1) as usize))
        } else {
            before
        }
    }
}

/// The edge paths found are the simple paths found, edge by edge: the `i`-th visits the
/// nodes of the `i`-th simple path, and follows edges from `a` to `target`.
pub proof fn lemma_edge_paths_from(
    edges: Seq<Edge>,
    node: NodeId,
    target: NodeId,
    current: Seq<NodeId>,
    path: Seq<usize>,
    a: NodeId,
)
    requires
        current == walk_of(edges, a, path),
        edge_path(edges, a, path, node),
        edges.len() <= usize::MAX,
    ensures
        edge_paths_from(edges, node, target, current, path).len() == simple_paths(edges, node, target, current).len(),
        forall|i: int| 0 <= i < edge_paths_from(edges, node, target, current, path).len() ==> walk_of(
            edges,
            a,
            #[trigger] edge_paths_from(edges, node, target, current, path)[i],
        ) == simple_paths(edges, node, target, current)[i] && edge_path(
            edges,
            a,
            edge_paths_from(edges, node, target, current, path)[i],
            target,
        ),
    decreases path_room(edges, current), 1nat, 0int,
{
    if node == target {
        let f = edge_paths_from(edges, node, target, current, path);
        assert(f == seq![path]);
        assert(simple_paths(edges, node, target, current) == seq![current]);
        assert(f[0] == path);
    } else {
        lemma_edge_paths_via(edges, node, target, current, path, a, edges.len() as int);
        assert(edge_paths_from(edges, node, target, current, path) == edge_paths_via(edges, node, target, current, path, edges.len() as int));
        assert(simple_paths(edges, node, target, current) == paths_via(edges, node, target, current, edges.len() as int));
    }
}

/// `lemma_edge_paths_from`, for the paths through the first `k` edges.
pub proof fn lemma_edge_paths_via(
    edges: Seq<Edge>,
    node: NodeId,
    target: NodeId,
    current: Seq<NodeId>,
    path: Seq<usize>,
    a: NodeId,
    k: int,
)
    requires
        current == walk_of(edges, a, path),
        edge_path(edges, a, path, node),
        node != target,
        edges.len() <= usize::MAX,
    ensures
        edge_paths_via(edges, node, target, current, path, k).len() == paths_via(edges, node, target, current, k).len(),
        forall|i: int| 0 <= i < edge_paths_via(edges, node, target, current, path, k).len() ==> walk_of(
            edges,
            a,
            #[trigger] edge_paths_via(edges, node, target, current, path, k)[i],
        ) == paths_via(edges, node, target, current, k)[i] && edge_path(
            edges,
            a,
            edge_paths_via(edges, node, target, current, path, k)[i],
            target,
        ),
    decreases path_room(edges, current), 0nat, k,
{
    if !(k <= 0 || k > edges.len()) {
        lemma_edge_paths_via(edges, node, target, current, path, a, k - 1);
        let fb = edge_paths_via(edges, node, target, current, path, k - 1);
        let sb = paths_via(edges, node, target, current, k - 1);
        let e = edges[k - 1];
        if e.from == node && !current.contains(e.to) {
            lemma_room_shrinks(edges, current, k - 1);
            let j = (k - 1) as usize;
            assert(j as int == k - 1);
            let np = path.push(j);
            let nc = current.push(e.to);
            assert(np.map_values(|m: usize| edges[m as int].to) =~= path.map_values(|m: usize| edges[m as int].to).push(e.to));
            assert(walk_of(edges, a, np) =~= nc);
            assert(np.drop_last() == path);
            assert(edge_path(edges, a, np, e.to));
            lemma_edge_paths_from(edges, e.to, target, nc, np, a);
            let fa = edge_paths_from(edges, e.to, target, nc, np);
            let sa = simple_paths(edges, e.to, target, nc);
            let f = edge_paths_via(edges, node, target, current, path, k);
            let sp = paths_via(edges, node, target, current, k);
            assert(f == fb + fa);
            assert(sp == sb + sa);
            assert forall|i: int| 0 <= i < f.len() implies walk_of(edges, a, #[trigger] f[i]) == sp[i] && edge_path(edges, a, f[i], target) by {
                if i < fb.len() {
                    assert(f[i] == fb[i] && sp[i] == sb[i]);
                } else {
                    assert(f[i] == fa[i - fb.len()] && sp[i] == sa[i - fb.len()]);
                }
            }
        } else {
            assert(edge_paths_via(edges, node, target, current, path, k) == fb);
            assert(paths_via(edges, node, target, current, k) == sb);
        }
    }
}

/// Edge path `a` comes before edge path `b` in lexicographic order of edge positions.
pub open spec fn edge_order_less(a: Seq<usize>, b: Seq<usize>) -> bool {
    exists|i: int| 0 <= i < a.len() && i < b.len() && a[i] < b[i] && forall|j: int| 0 <= j < i ==> a[j] == b[j]
}

/// `q` starts with all of `path`.
pub open spec fn starts_with(q: Seq<usize>, path: Seq<usize>) -> bool {
    path.len() <= q.len() && forall|m: int| 0 <= m < path.len() ==> q[m] == path[m]
}

/// The edge paths that extend `path` come out in strictly increasing lexicographic order, each
/// starting with `path`, and longer than it unless `node` is the target already.
pub proof fn lemma_edge_paths_from_sorted(
    edges: Seq<Edge>,
    node: NodeId,
    target: NodeId,
    current: Seq<NodeId>,
    path: Seq<usize>,
)
    requires
        edges.len() <= usize::MAX,
    ensures
        forall|i: int| 0 <= i < edge_paths_from(edges, node, target, current, path).len()
            ==> starts_with(#[trigger] edge_paths_from(edges, node, target, current, path)[i], path)
                && (node != target ==> edge_paths_from(edges, node, target, current, path)[i].len() > path.len()),
        forall|i: int, j: int| 0 <= i < j < edge_paths_from(edges, node, target, current, path).len()
            ==> edge_order_less(
                #[trigger] edge_paths_from(edges, node, target, current, path)[i],
                #[trigger] edge_paths_from(edges, node, target, current, path)[j],
            ),
    decreases path_room(edges, current), 1nat, 0int,
{
    let f = edge_paths_from(edges, node, target, current, path);
    if node == target {
        assert(f == seq![path]);
        assert(f[0] == path);
    } else {
        lemma_edge_paths_via_sorted(edges, node, target, current, path, edges.len() as int);
        assert(f == edge_paths_via(edges, node, target, current, path, edges.len() as int));
    }
}

/// `lemma_edge_paths_from_sorted`, for the paths through the first `k` edges: each also
/// continues `path` with the position of one of those edges.
pub proof fn lemma_edge_paths_via_sorted(
    edges: Seq<Edge>,
    node: NodeId,
    target: NodeId,
    current: Seq<NodeId>,
    path: Seq<usize>,
    k: int,
)
    requires
        edges.len() <= usize::MAX,
        node != target,
    ensures
        forall|i: int| 0 <= i < edge_paths_via(edges, node, target, current, path, k).len()
            ==> starts_with(#[trigger] edge_paths_via(edges, node, target, current, path, k)[i], path)
                && edge_paths_via(edges, node, target, current, path, k)[i].len() > path.len()
                && edge_paths_via(edges, node, target, current, path, k)[i][path.len() as int] < k,
        forall|i: int, j: int| 0 <= i < j < edge_paths_via(edges, node, target, current, path, k).len()
            ==> edge_order_less(
                #[trigger] edge_paths_via(edges, node, target, current, path, k)[i],
                #[trigger] edge_paths_via(edges, node, target, current, path, k)[j],
            ),
    decreases path_room(edges, current), 0nat, k,
{
    if !(k <= 0 || k > edges.len()) {
        lemma_edge_paths_via_sorted(edges, node, target, current, path, k - 1);
        let fb = edge_paths_via(edges, node, target, current, path, k - 1);
        let e = edges[k - 1];
        let f = edge_paths_via(edges, node, target, current, path, k);
        if e.from == node && !current.contains(e.to) {
            lemma_room_shrinks(edges, current, k - 1);
            let np = path.push((k - 1) as usize);
            let nc = current.push(e.to);
            lemma_edge_paths_from_sorted(edges, e.to, target, nc, np);
            let fa = edge_paths_from(edges, e.to, target, nc, np);
            assert(f == fb + fa);
            let p = path.len() as int;
            assert forall|i: int| 0 <= i < f.len() implies starts_with(#[trigger] f[i], path) && f[i].len() > path.len()
                && f[i][p] < k by {
                if i < fb.len() {
                    assert(f[i] == fb[i]);
                } else {
                    let q = fa[i - fb.len()];
                    assert(f[i] == q);
                    assert(starts_with(q, np));
                    assert(q[p] == np[p]);
                    assert forall|m: int| 0 <= m < path.len() implies q[m] == path[m] by {
                        assert(q[m] == np[m]);
                    }
                }
            }
            assert forall|i: int, j: int| 0 <= i < j < f.len() implies edge_order_less(#[trigger] f[i], #[trigger] f[j]) by {
                if j < fb.len() {
                    assert(f[i] == fb[i] && f[j] == fb[j]);
                } else if i >= fb.len() {
                    assert(f[i] == fa[i - fb.len()] && f[j] == fa[j - fb.len()]);
                } else {
                    let a = fb[i];
                    let b = fa[j - fb.len()];
                    assert(f[i] == a && f[j] == b);
                    assert(starts_with(b, np));
                    assert(b[p] == np[p]);
                    assert forall|m: int| 0 <= m < p implies a[m] == b[m] by {
                        assert(b[m] == np[m]);
                    }
                    assert(a[p] < b[p]);
                }
            }
        } else {
            assert(f == fb);
        }
    }
}

/// Following the edges at the positions `q` from `a`: the `i`-th edge leaves the `i`-th node
/// of the walk and enters the next, and the walk ends at `b`.
proof fn lemma_edge_path_steps(edges: Seq<Edge>, a: NodeId, q: Seq<usize>, b: NodeId)
    requires
        edge_path(edges, a, q, b),
    ensures
        walk_of(edges, a, q).last() == b,
        forall|i: int| 0 <= i < q.len() ==> #[trigger] q[i] < edges.len() && edges[q[i] as int].from == walk_of(edges, a, q)[i]
            && edges[q[i] as int].to == walk_of(edges, a, q)[i + 1],
    decreases q.len(),
{
    if q.len() > 0 {
        let q0 = q.drop_last();
        let e = edges[q.last() as int];
        lemma_edge_path_steps(edges, a, q0, e.from);
        assert(q.map_values(|k: usize| edges[k as int].to) =~= q0.map_values(|k: usize| edges[k as int].to).push(e.to));
        assert(walk_of(edges, a, q) =~= walk_of(edges, a, q0).push(e.to));
        assert forall|i: int| 0 <= i < q.len() implies #[trigger] q[i] < edges.len() && edges[q[i] as int].from == walk_of(edges, a, q)[i]
            && edges[q[i] as int].to == walk_of(edges, a, q)[i + 1] by {
            if i < q0.len() {
                assert(q[i] == q0[i]);
            }
        }
    }
}

/// A path of edges (by position) from `a` to `b` whose walk visits no node twice and meets
/// `b` only at its end.
pub open spec fn simple_edge_path(edges: Seq<Edge>, q: Seq<usize>, a: NodeId, b: NodeId) -> bool {
    edge_path(edges, a, q, b) && simple_path_between(edges, walk_of(edges, a, q), a, b)
}

/// `qs` holds every simple edge path from `source` to `target`, and nothing else, in strictly
/// increasing lexicographic order of edge positions (so each once).
pub open spec fn edge_paths_in_order(edges: Seq<Edge>, source: NodeId, target: NodeId, qs: Seq<Seq<usize>>) -> bool {
    &&& forall|i: int, j: int| 0 <= i < j < qs.len() ==> edge_order_less(#[trigger] qs[i], #[trigger] qs[j])
    &&& forall|q: Seq<usize>| #[trigger] qs.contains(q) <==> simple_edge_path(edges, q, source, target)
}

/// The edge paths found through the edge at `k0` are among those found through any longer
/// prefix of the edges.
proof fn lemma_edge_paths_via_holds(
    edges: Seq<Edge>,
    node: NodeId,
    target: NodeId,
    current: Seq<NodeId>,
    path: Seq<usize>,
    k: int,
    k0: int,
    q: Seq<usize>,
)
    requires
        0 <= k0 < k <= edges.len(),
        edges.len() <= usize::MAX,
        edges[k0].from == node,
        !current.contains(edges[k0].to),
        edge_paths_from(edges, edges[k0].to, target, current.push(edges[k0].to), path.push(k0 as usize)).contains(q),
    ensures
        edge_paths_via(edges, node, target, current, path, k).contains(q),
    decreases k,
{
    let before = edge_paths_via(edges, node, target, current, path, k - 1);
    let e = edges[k - 1];
    if k - 1 == k0 {
        lemma_room_shrinks(edges, current, k - 1);
        let after = edge_paths_from(edges, e.to, target, current.push(e.to), path.push((k - 1) as usize));
        assert(edge_paths_via(edges, node, target, current, path, k) == before + after);
        let j = choose|j: int| 0 <= j < after.len() && after[j] == q;
        assert((before + after)[before.len() + j] == q);
    } else {
        lemma_edge_paths_via_holds(edges, node, target, current, path, k - 1, k0, q);
        let j = choose|j: int| 0 <= j < before.len() && before[j] == q;
        if e.from == node && !current.contains(e.to) {
            lemma_room_shrinks(edges, current, k - 1);
            let after = edge_paths_from(edges, e.to, target, current.push(e.to), path.push((k - 1) as usize));
            assert(edge_paths_via(edges, node, target, current, path, k) == before + after);
            assert((before + after)[j] == q);
        } else {
            assert(edge_paths_via(edges, node, target, current, path, k) == before);
        }
    }
}

/// The search finds every simple edge path from `a` to `target` that starts with `path`, where
/// `current` is the walk of `path` and ends at `node`.
pub proof fn lemma_edge_paths_complete(
    edges: Seq<Edge>,
    node: NodeId,
    target: NodeId,
    current: Seq<NodeId>,
    path: Seq<usize>,
    a: NodeId,
    q: Seq<usize>,
)
    requires
        edges.len() <= usize::MAX,
        current == walk_of(edges, a, path),
        current.last() == node,
        simple_edge_path(edges, q, a, target),
        starts_with(q, path),
    ensures
        edge_paths_from(edges, node, target, current, path).contains(q),
    decreases path_room(edges, current),
{
    let c = path.len() as int;
    let w = walk_of(edges, a, q);
    lemma_edge_path_steps(edges, a, q, target);
    assert forall|i: int| 0 <= i <= c implies w[i] == current[i] by {
        if i > 0 {
            assert(q[i - 1] == path[i - 1]);
        }
    }
    if node == target {
        if c < q.len() {
            assert(w[c] == target);
        }
        assert(q =~= path);
        assert(edge_paths_from(edges, node, target, current, path) == seq![path]);
        assert(seq![path][0] == q);
    } else {
        if c == q.len() {
            assert(w.last() == w[c]);
        }
        let k0 = q[c] as int;
        let x = edges[k0].to;
        assert(x == w[c + 1]);
        assert(edges[k0].from == node);
        assert(!current.contains(x)) by {
            if current.contains(x) {
                let i = choose|i: int| 0 <= i < current.len() && current[i] == x;
                assert(w[i] == x);
            }
        }
        let np = path.push(k0 as usize);
        let nc = current.push(x);
        lemma_room_shrinks(edges, current, k0);
        assert(np.map_values(|m: usize| edges[m as int].to) =~= path.map_values(|m: usize| edges[m as int].to).push(x));
        assert(walk_of(edges, a, np) =~= nc);
        assert(starts_with(q, np)) by {
            assert forall|m: int| 0 <= m < np.len() implies q[m] == np[m] by {
                if m < c {
                    assert(np[m] == path[m]);
                }
            }
        }
        lemma_edge_paths_complete(edges, x, target, nc, np, a, q);
        lemma_edge_paths_via_holds(edges, node, target, current, path, edges.len() as int, k0, q);
        assert(edge_paths_from(edges, node, target, current, path) == edge_paths_via(edges, node, target, current, path, edges.len() as int));
    }
}

/// Appends to `paths` every path of edges from `node` to `target` that extends `path` (whose
/// nodes are `current`) without visiting a node twice.
fn flow_paths_recursive(
    graph: &Graph,
    node: NodeId,
    target: NodeId,
    current: &mut Vec<NodeId>,
    path: &mut Vec<usize>,
    paths: &mut Vec<Vec<usize>>,
)
    ensures
        final(current)@ == old(current)@,
        final(path)@ == old(path)@,
        rows(final(paths)@) == rows(old(paths)@) + edge_paths_from(graph.edges@, node, target, old(current)@, old(path)@),
    decreases path_room(graph.edges@, old(current)@),
{
    let ghost edges = graph.edges@;
    let ghost cur0 = current@;
    let ghost path0 = path@;
    let ghost paths0 = rows(paths@);
    if node == target {
        let c = path.clone();
        assert(c@ =~= path0);
        paths.push(c);
        assert(rows(paths@) =~= paths0 + seq![path0]);
        return;
    }
    let m = graph.edges.len();
    let mut i: usize = 0;
    proof {
        assert(rows(paths@) =~= paths0 + edge_paths_via(edges, node, target, cur0, path0, 0));
    }
    while i < m
        invariant
            edges == graph.edges@,
            m == edges.len(),
            i <= m,
            node != target,
            current@ == cur0,
            path@ == path0,
            cur0 == old(current)@,
            rows(paths@) == paths0 + edge_paths_via(edges, node, target, cur0, path0, i as int),
        decreases m - i,
    {
        let e = graph.edges[i];
        if e.from == node && !crate::sorted::slice_contains(current.as_slice(), e.to) {
            current.push(e.to);
            path.push(i);
            proof {
                assert(edges[i as int] == e);
                assert(current@ == cur0.push(e.to));
                lemma_room_shrinks(edges, cur0, i as int);
            }
            flow_paths_recursive(graph, e.to, target, current, path, paths);
            let _ = current.pop();
            let _ = path.pop();
            proof {
                assert(current@ =~= cur0);
                assert(path@ =~= path0);
                assert(rows(paths@) =~= paths0 + edge_paths_via(edges, node, target, cur0, path0, i + 1));
            }
        }
        i = i + 1;
    }
    assert(edge_paths_via(edges, node, target, cur0, path0, m as int) == edge_paths_from(edges, node, target, cur0, path0));
}

/// The paths along which information flows from `source` to `target`: every path of edges
/// (each given by the positions of the edges it follows) from `source` to `target` that visits
/// no node twice and meets `target` only at its end, in the order of `find_paths`, which is
/// increasing lexicographic order of edge positions. The flow is
/// the sum, over these paths, of the product of the weights of their edges.
pub fn information_flow_paths(graph: &Graph, source: NodeId, target: NodeId) -> (r: Vec<Vec<usize>>)
    ensures
        rows(r@) == edge_paths_from(graph.edges@, source, target, seq![source], Seq::<usize>::empty()),
        r@.len() == simple_paths(graph.edges@, source, target, seq![source]).len(),
        forall|i: int| 0 <= i < r@.len() ==> walk_of(graph.edges@, source, (#[trigger] r@[i])@)
            == simple_paths(graph.edges@, source, target, seq![source])[i],
        forall|i: int| 0 <= i < r@.len() ==> edge_path(graph.edges@, source, (#[trigger] r@[i])@, target)
            && simple_path_between(graph.edges@, walk_of(graph.edges@, source, r@[i]@), source, target),
        forall|q: Seq<NodeId>| #[trigger] simple_path_between(graph.edges@, q, source, target)
            ==> exists|i: int| 0 <= i < r@.len() && walk_of(graph.edges@, source, #[trigger] r@[i]@) == q,
        r@.len() > 0 <==> reachable(graph.edges@, source, target),
        forall|i: int, j: int| 0 <= i < j < r@.len() ==> edge_order_less(#[trigger] r@[i]@, #[trigger] r@[j]@),
        forall|q: Seq<usize>| #[trigger] simple_edge_path(graph.edges@, q, source, target)
            ==> exists|i: int| 0 <= i < r@.len() && r@[i]@ == q,
{
    let ghost edges = graph.edges@;
    let mut paths: Vec<Vec<usize>> = Vec::new();
    let mut current: Vec<NodeId> = Vec::new();
    current.push(source);
    let mut path: Vec<usize> = Vec::new();
    assert(current@ =~= seq![source]);
    assert(path@ =~= Seq::<usize>::empty());
    flow_paths_recursive(graph, source, target, &mut current, &mut path, &mut paths);
    assert(rows(paths@) =~= edge_paths_from(edges, source, target, seq![source], Seq::<usize>::empty()));
    proof {
        let start = seq![source];
        let e0 = Seq::<usize>::empty();
        assert(walk_of(edges, source, e0) =~= start);
        assert(edges.len() == graph.edges.len());
        lemma_edge_paths_from(edges, source, target, start, e0, source);
        let sp = simple_paths(edges, source, target, start);
        let f = edge_paths_from(edges, source, target, start, e0);
        assert forall|i: int| 0 <= i < paths@.len() implies walk_of(edges, source, (#[trigger] paths@[i])@) == sp[i] by {
            assert(rows(paths@)[i] == paths@[i]@);
            assert(f[i] == paths@[i]@);
        }
        assert(is_walk(edges, start));
        assert(start.no_duplicates());
        lemma_simple_paths_sound(edges, source, target, start);
        assert forall|i: int| 0 <= i < paths@.len() implies edge_path(edges, source, (#[trigger] paths@[i])@, target)
            && simple_path_between(edges, walk_of(edges, source, paths@[i]@), source, target) by {
            assert(rows(paths@)[i] == paths@[i]@);
            assert(f[i] == paths@[i]@);
        }
        assert forall|q: Seq<NodeId>| #[trigger] simple_path_between(edges, q, source, target)
            implies exists|i: int| 0 <= i < paths@.len() && walk_of(edges, source, #[trigger] paths@[i]@) == q by {
            assert(extends(q, start));
            lemma_simple_paths_complete(edges, source, target, start, q);
            let i = choose|i: int| 0 <= i < sp.len() && sp[i] == q;
            assert(walk_of(edges, source, paths@[i]@) == q);
        }
        lemma_simple_paths_nonempty(edges, source, target);
        lemma_edge_paths_from_sorted(edges, source, target, start, e0);
        assert forall|q: Seq<usize>| #[trigger] simple_edge_path(edges, q, source, target)
            implies exists|i: int| 0 <= i < paths@.len() && paths@[i]@ == q by {
            lemma_edge_paths_complete(edges, source, target, start, e0, source, q);
            let i = choose|i: int| 0 <= i < f.len() && f[i] == q;
            assert(rows(paths@)[i] == paths@[i]@);
        }
        assert forall|i: int, j: int| 0 <= i < j < paths@.len() implies edge_order_less(#[trigger] paths@[i]@, #[trigger] paths@[j]@) by {
            assert(rows(paths@)[i] == paths@[i]@);
            assert(rows(paths@)[j] == paths@[j]@);
        }
    }
    paths
}

/// Every node reaches itself.
pub proof fn lemma_reachable_refl(edges: Seq<Edge>, a: NodeId)
    ensures
        reachable(edges, a, a),
{
    assert(is_walk(edges, seq![a]));
    assert(seq![a].last() == a);
}

/// Reachability is transitive.
pub proof fn lemma_reachable_trans(edges: Seq<Edge>, a: NodeId, b: NodeId, c: NodeId)
    requires
        reachable(edges, a, b),
        reachable(edges, b, c),
    ensures
        reachable(edges, a, c),
{
    let p = choose|p: Seq<NodeId>| #[trigger] is_walk(edges, p) && p.len() > 0 && p[0] == a && p.last() == b;
    let q = choose|q: Seq<NodeId>| #[trigger] is_walk(edges, q) && q.len() > 0 && q[0] == b && q.last() == c;
    let w = p + q.drop_first();
    assert forall|i: int| 0 <= i < w.len() - 1 implies #[trigger] walk_step(edges, w, i) by {
        if i < p.len() - 1 {
            assert(walk_step(edges, p, i));
        } else if i == p.len() - 1 {
            assert(walk_step(edges, q, 0));
            assert(w[i] == q[0]);
            assert(w[i + 1] == q[1]);
        } else {
            let j = i - p.len() + 1;
            assert(walk_step(edges, q, j));
            assert(w[i] == q[j]);
            assert(w[i + 1] == q[j + 1]);
        }
    }
    if q.len() == 1 {
        assert(w.last() == p.last());
    } else {
        assert(w.last() == q.last());
    }
    assert(w[0] == a);
    assert(is_walk(edges, w));
}

} // verus!
