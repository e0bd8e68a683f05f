//! The Markov blanket of a node, and of a set of nodes.

use vstd::prelude::*;

use crate::conditional_independence::{ball_connected, ball_moves, ball_reaches, ball_step_at, ball_walk, BallState};
use crate::graph::{children_of, edge_in, lemma_children_of, lemma_parents_of, parents_of, Edge, Graph};
use crate::sorted::{insert_sorted, lemma_sorted_len, lemma_take_succ_contains, slice_contains, strictly_sorted};
use crate::NodeId;

verus! {

/// `x` is another parent of a child of `node`.
pub open spec fn co_parent(edges: Seq<Edge>, node: NodeId, x: NodeId) -> bool {
    x != node && exists|c: NodeId| #[trigger] edge_in(edges, node, c) && edge_in(edges, x, c)
}

/// `x` is in the Markov blanket of `node`: a parent, a child, or another parent of a child.
pub open spec fn in_blanket(edges: Seq<Edge>, node: NodeId, x: NodeId) -> bool {
    edge_in(edges, x, node) || edge_in(edges, node, x) || co_parent(edges, node, x)
}

/// The Markov blanket of `node`, as a set.
pub open spec fn blanket_set(edges: Seq<Edge>, node: NodeId) -> Set<NodeId> {
    Set::new(|x: NodeId| in_blanket(edges, node, x))
}

/// `x` is in the Markov blanket of some node of `internal`, and is not itself in `internal`.
pub open spec fn in_set_blanket(edges: Seq<Edge>, internal: Seq<NodeId>, x: NodeId) -> bool {
    !internal.contains(x) && exists|i: int| 0 <= i < internal.len() && #[trigger] in_blanket(edges, internal[i], x)
}

/// The Markov blanket of the set `internal`, as a set.
pub open spec fn set_blanket_set(edges: Seq<Edge>, internal: Seq<NodeId>) -> Set<NodeId> {
    Set::new(|x: NodeId| in_set_blanket(edges, internal, x))
}

/// Markov blankets are symmetric: `b` is in the blanket of `a` exactly when `a` is in the
/// blanket of `b`.
pub proof fn lemma_blanket_symmetric(edges: Seq<Edge>, a: NodeId, b: NodeId)
    ensures
        in_blanket(edges, a, b) <==> in_blanket(edges, b, a),
{
    if co_parent(edges, a, b) {
        let c = choose|c: NodeId| #[trigger] edge_in(edges, a, c) && edge_in(edges, b, c);
        assert(edge_in(edges, b, c) && edge_in(edges, a, c));
    }
    if co_parent(edges, b, a) {
        let c = choose|c: NodeId| #[trigger] edge_in(edges, b, c) && edge_in(edges, a, c);
        assert(edge_in(edges, a, c) && edge_in(edges, b, c));
    }
}

/// A node is in its own Markov blanket only through an edge from itself to itself.
pub proof fn lemma_blanket_excludes_self(edges: Seq<Edge>, n: NodeId)
    ensures
        in_blanket(edges, n, n) <==> edge_in(edges, n, n),
{
}

/// The blanket of a single internal node is its Markov blanket without the node itself.
pub proof fn lemma_single_node_set_blanket(edges: Seq<Edge>, n: NodeId, x: NodeId)
    ensures
        in_set_blanket(edges, seq![n], x) <==> (in_blanket(edges, n, x) && x != n),
{
    let s = seq![n];
    if in_blanket(edges, n, x) && x != n {
        assert(in_blanket(edges, s[0], x));
        assert(!s.contains(x)) by {
            if s.contains(x) {
                let k = choose|k: int| 0 <= k < s.len() && s[k] == x;
            }
        }
    }
    if in_set_blanket(edges, s, x) {
        let i = choose|i: int| 0 <= i < s.len() && #[trigger] in_blanket(edges, s[i], x);
        assert(s[0] == n);
        if x == n {
            assert(s.contains(x));
        }
    }
}

/// Inserts every element of `items` into the strictly increasing vector `v`.
fn insert_all(v: &mut Vec<NodeId>, items: &Vec<NodeId>)
    requires
        strictly_sorted(old(v)@),
    ensures
        strictly_sorted(final(v)@),
        forall|y: NodeId| #[trigger] final(v)@.contains(y) <==> (old(v)@.contains(y) || items@.contains(y)),
{
    let n = items.len();
    let mut i: usize = 0;
    while i < n
        invariant
            n == items@.len(),
            i <= n,
            strictly_sorted(v@),
            forall|y: NodeId| #[trigger] v@.contains(y) <==> (old(v)@.contains(y) || items@.take(i as int).contains(y)),
        decreases n - i,
    {
        insert_sorted(v, items[i]);
        proof {
            assert forall|y: NodeId| #[trigger] v@.contains(y) <==> (old(v)@.contains(y) || items@.take(i + 1).contains(y)) by {
                lemma_take_succ_contains(items@, i as int, y);
            }
        }
        i = i + 1;
    }
    assert(items@.take(n as int) == items@);
}

/// The Markov blanket of `node`: its parents, its children and the other parents of its
/// children, in increasing order, each once.
pub fn markov_blanket(graph: &Graph, node: NodeId) -> (r: Vec<NodeId>)
    ensures
        strictly_sorted(r@),
        forall|x: NodeId| #[trigger] r@.contains(x) <==> in_blanket(graph.edges@, node, x),
{
    let ghost edges = graph.edges@;
    let mut blanket: Vec<NodeId> = Vec::new();
    let ps = graph.parents(node);
    insert_all(&mut blanket, &ps);
    let children = graph.children(node);
    insert_all(&mut blanket, &children);
    let m = children.len();
    let mut a: usize = 0;
    while a < m
        invariant
            edges == graph.edges@,
            m == children@.len(),
            children@ == children_of(edges, node),
            ps@ == parents_of(edges, node),
            a <= m,
            strictly_sorted(blanket@),
            forall|x: NodeId| #[trigger] blanket@.contains(x) <==> (ps@.contains(x) || children@.contains(x)
                || (x != node && exists|k: int| 0 <= k < a && #[trigger] parents_of(edges, children@[k]).contains(x))),
        decreases m - a,
    {
        let child = children[a];
        let cps = graph.parents(child);
        let ghost b0 = blanket@;
        let n = cps.len();
        let mut b: usize = 0;
        while b < n
            invariant
                n == cps@.len(),
                b <= n,
                strictly_sorted(blanket@),
                forall|x: NodeId| #[trigger] blanket@.contains(x) <==> (b0.contains(x)
                    || (x != node && cps@.take(b as int).contains(x))),
            decreases n - b,
        {
            let p = cps[b];
            if p != node {
                insert_sorted(&mut blanket, p);
            }
            proof {
                assert forall|x: NodeId| #[trigger] blanket@.contains(x) <==> (b0.contains(x)
                    || (x != node && cps@.take(b + 1).contains(x))) by {
                    lemma_take_succ_contains(cps@, b as int, x);
                }
            }
            b = b + 1;
        }
        proof {
            assert(cps@.take(n as int) == cps@);
            assert forall|x: NodeId| #[trigger] blanket@.contains(x) <==> (ps@.contains(x) || children@.contains(x)
                || (x != node && exists|k: int| 0 <= k < a + 1 && #[trigger] parents_of(edges, children@[k]).contains(x))) by {
                if x != node && cps@.contains(x) {
                    assert(parents_of(edges, children@[a as int]).contains(x));
                }
                if x != node && exists|k: int| 0 <= k < a + 1 && #[trigger] parents_of(edges, children@[k]).contains(x) {
                    let k = choose|k: int| 0 <= k < a + 1 && #[trigger] parents_of(edges, children@[k]).contains(x);
                    if k < a {
                        assert(b0.contains(x));
                    }
                }
            }
        }
        a = a + 1;
    }
    proof {
        assert forall|x: NodeId| #[trigger] blanket@.contains(x) <==> in_blanket(edges, node, x) by {
            lemma_parents_of(edges, node, x);
            lemma_children_of(edges, node, x);
            if x != node && exists|k: int| 0 <= k < m && #[trigger] parents_of(edges, children@[k]).contains(x) {
                let k = choose|k: int| 0 <= k < m && #[trigger] parents_of(edges, children@[k]).contains(x);
                let c = children@[k];
                lemma_parents_of(edges, c, x);
                lemma_children_of(edges, node, c);
                assert(children@.contains(c));
                assert(edge_in(edges, node, c));
            }
            if co_parent(edges, node, x) {
                let c = choose|c: NodeId| #[trigger] edge_in(edges, node, c) && edge_in(edges, x, c);
                lemma_children_of(edges, node, c);
                let k = choose|k: int| 0 <= k < children@.len() && children@[k] == c;
                lemma_parents_of(edges, c, x);
                assert(parents_of(edges, children@[k]).contains(x));
            }
        }
    }
    blanket
}

/// The Markov blanket of a set of internal nodes: every node in the blanket of one of them
/// that is not itself internal, in increasing order, each once.
pub fn markov_blanket_set(graph: &Graph, internal: &[NodeId]) -> (r: Vec<NodeId>)
    ensures
        strictly_sorted(r@),
        forall|x: NodeId| #[trigger] r@.contains(x) <==> in_set_blanket(graph.edges@, internal@, x),
{
    let ghost edges = graph.edges@;
    let mut blanket: Vec<NodeId> = Vec::new();
    let n = internal.len();
    let mut i: usize = 0;
    while i < n
        invariant
            edges == graph.edges@,
            n == internal@.len(),
            i <= n,
            strictly_sorted(blanket@),
            forall|x: NodeId| #[trigger] blanket@.contains(x) <==> (!internal@.contains(x)
                && exists|k: int| 0 <= k < i && #[trigger] in_blanket(edges, internal@[k], x)),
        decreases n - i,
    {
        let node = internal[i];
        let mb = markov_blanket(graph, node);
        let ghost b0 = blanket@;
        let m = mb.len();
        let mut j: usize = 0;
        while j < m
            invariant
                m == mb@.len(),
                j <= m,
                strictly_sorted(blanket@),
                forall|x: NodeId| #[trigger] blanket@.contains(x) <==> (b0.contains(x)
                    || (!internal@.contains(x) && mb@.take(j as int).contains(x))),
            decreases m - j,
        {
            let v = mb[j];
            if !slice_contains(internal, v) && !slice_contains(blanket.as_slice(), v) {
                insert_sorted(&mut blanket, v);
            }
            proof {
                assert forall|x: NodeId| #[trigger] blanket@.contains(x) <==> (b0.contains(x)
                    || (!internal@.contains(x) && mb@.take(j + 1).contains(x))) by {
                    lemma_take_succ_contains(mb@, j as int, x);
                }
            }
            j = j + 1;
        }
        proof {
            assert(mb@.take(m as int) == mb@);
            assert forall|x: NodeId| #[trigger] blanket@.contains(x) <==> (!internal@.contains(x)
                && exists|k: int| 0 <= k < i + 1 && #[trigger] in_blanket(edges, internal@[k], x)) by {
                if mb@.contains(x) {
                    assert(in_blanket(edges, internal@[i as int], x));
                }
                if !internal@.contains(x) && exists|k: int| 0 <= k < i + 1 && #[trigger] in_blanket(edges, internal@[k], x) {
                    let k = choose|k: int| 0 <= k < i + 1 && #[trigger] in_blanket(edges, internal@[k], x);
                    if k < i {
                        assert(b0.contains(x));
                    } else {
                        assert(mb@.contains(x));
                    }
                }
            }
        }
        i = i + 1;
    }
    blanket
}

/// Whether `candidate` is in the Markov blanket of `target`.
pub fn is_in_blanket(graph: &Graph, target: NodeId, candidate: NodeId) -> (r: bool)
    ensures
        r == in_blanket(graph.edges@, target, candidate),
{
    let mb = markov_blanket(graph, target);
    slice_contains(mb.as_slice(), candidate)
}

/// The number of nodes in the Markov blanket of `node`.
pub fn blanket_size(graph: &Graph, node: NodeId) -> (r: usize)
    ensures
        r == blanket_set(graph.edges@, node).len(),
{
    let mb = markov_blanket(graph, node);
    proof {
        lemma_sorted_len(mb@);
        assert(mb@.to_set() =~= blanket_set(graph.edges@, node));
    }
    mb.len()
}

/// Some node of the graph other than `node` and outside its Markov blanket is joined to
/// `node` by an edge, and no blanket node that is a child of `node` is joined to it.
pub open spec fn blanket_leaks(edges: Seq<Edge>, nodes: Seq<NodeId>, node: NodeId) -> bool {
    exists|k: int| 0 <= k < nodes.len() && #[trigger] leaks_at(edges, node, nodes[k])
}

/// The node `nb` is a leak of the Markov blanket of `node` (see `blanket_leaks`).
pub open spec fn leaks_at(edges: Seq<Edge>, node: NodeId, nb: NodeId) -> bool {
    &&& nb != node
    &&& !in_blanket(edges, node, nb)
    &&& (edge_in(edges, node, nb) || edge_in(edges, nb, node))
    &&& !exists|b: NodeId| #[trigger] in_blanket(edges, node, b) && edge_in(edges, node, b)
        && (edge_in(edges, b, nb) || edge_in(edges, nb, b))
}

/// The Markov blanket property, structurally: no node outside the blanket is joined to the
/// node directly. A node joined to `node` by an edge is its parent or child, so in its blanket.
pub proof fn lemma_blanket_never_leaks(edges: Seq<Edge>, nodes: Seq<NodeId>, node: NodeId)
    ensures
        !blanket_leaks(edges, nodes, node),
{
    assert forall|k: int| 0 <= k < nodes.len() implies !#[trigger] leaks_at(edges, node, nodes[k]) by {}
}

/// Checks the Markov blanket property of `node`: given its blanket, no other node of the
/// graph is joined to it by an edge that does not pass through the blanket. This always
/// holds (`lemma_blanket_never_leaks`), as does the property itself, that given its blanket
/// the node is d-separated from every node outside it (`lemma_blanket_d_separates`); so the
/// check answers `true`.
pub fn verify_blanket(graph: &Graph, node: NodeId) -> (r: bool)
    ensures
        r == !blanket_leaks(graph.edges@, graph.nodes@, node),
        r == forall|z: Seq<NodeId>, y: NodeId|
            (forall|v: NodeId| #[trigger] z.contains(v) <==> in_blanket(graph.edges@, node, v)) && y != node
                && !in_blanket(graph.edges@, node, y) ==> !#[trigger] ball_connected(graph.edges@, z, node, y),
        r,
{
    let ghost edges = graph.edges@;
    let blanket = markov_blanket(graph, node);
    let mut non_blanket: Vec<NodeId> = Vec::new();
    let n = graph.nodes.len();
    let mut i: usize = 0;
    while i < n
        invariant
            edges == graph.edges@,
            n == graph.nodes@.len(),
            i <= n,
            forall|x: NodeId| #[trigger] blanket@.contains(x) <==> in_blanket(edges, node, x),
            forall|k: int| 0 <= k < non_blanket@.len() ==> !in_blanket(edges, node, #[trigger] non_blanket@[k]),
        decreases n - i,
    {
        let v = graph.nodes[i];
        if v != node && !slice_contains(blanket.as_slice(), v) {
            non_blanket.push(v);
        }
        i = i + 1;
    }
    let m = non_blanket.len();
    let mut j: usize = 0;
    while j < m
        invariant
            edges == graph.edges@,
            m == non_blanket@.len(),
            j <= m,
            forall|x: NodeId| #[trigger] blanket@.contains(x) <==> in_blanket(edges, node, x),
            forall|k: int| 0 <= k < m ==> !in_blanket(edges, node, #[trigger] non_blanket@[k]),
        decreases m - j,
    {
        let nb = non_blanket[j];
        if graph.has_edge(node, nb) || graph.has_edge(nb, node) {
            let mut connected_via_blanket = false;
            let bl = blanket.len();
            let mut k: usize = 0;
            while k < bl
                invariant
                    bl == blanket@.len(),
                    k <= bl,
                decreases bl - k,
            {
                let b = blanket[k];
                if graph.has_edge(node, b) && (graph.has_edge(b, nb) || graph.has_edge(nb, b)) {
                    connected_via_blanket = true;
                }
                k = k + 1;
            }
            if !connected_via_blanket && !slice_contains(blanket.as_slice(), nb) {
                if graph.has_edge(node, nb) || graph.has_edge(nb, node) {
                    assert(in_blanket(edges, node, nb));
                    return false;
                }
            }
        }
        j = j + 1;
    }
    proof {
        lemma_blanket_never_leaks(edges, graph.nodes@, node);
        assert forall|z: Seq<NodeId>, y: NodeId|
            (forall|v: NodeId| #[trigger] z.contains(v) <==> in_blanket(edges, node, v)) && y != node
                && !in_blanket(edges, node, y) implies !#[trigger] ball_connected(edges, z, node, y) by {
            lemma_blanket_d_separates(edges, z, node, y);
        }
    }
    true
}

/// Where a ball started at `x` can be when `x`'s Markov blanket is conditioned on: at `x`
/// going up, at a blanket node going up, or at a child of `x` going down.
pub open spec fn blanket_ball_position(edges: Seq<Edge>, x: NodeId, s: BallState) -> bool {
    s == (x, true) || (s.1 && in_blanket(edges, x, s.0)) || (!s.1 && edge_in(edges, x, s.0))
}

proof fn lemma_blanket_ball_move(edges: Seq<Edge>, z: Seq<NodeId>, x: NodeId, s: BallState, t: BallState)
    requires
        forall|v: NodeId| #[trigger] z.contains(v) <==> in_blanket(edges, x, v),
        blanket_ball_position(edges, x, s),
        ball_moves(edges, z, s, t),
    ensures
        blanket_ball_position(edges, x, t),
{
    if s == (x, true) {
    } else if s.1 {
        assert(z.contains(s.0));
    } else {
        assert(in_blanket(edges, x, s.0));
        assert(z.contains(s.0));
        if t.0 != x {
            assert(edge_in(edges, x, s.0) && edge_in(edges, t.0, s.0));
            assert(co_parent(edges, x, t.0));
        }
    }
}

proof fn lemma_blanket_ball_walk(edges: Seq<Edge>, z: Seq<NodeId>, x: NodeId, p: Seq<BallState>, k: int)
    requires
        forall|v: NodeId| #[trigger] z.contains(v) <==> in_blanket(edges, x, v),
        ball_walk(edges, z, p),
        p.len() > 0,
        p[0] == (x, true),
        0 <= k < p.len(),
    ensures
        blanket_ball_position(edges, x, p[k]),
    decreases k,
{
    if k > 0 {
        lemma_blanket_ball_walk(edges, z, x, p, k - 1);
        assert(ball_step_at(edges, z, p, k - 1));
        lemma_blanket_ball_move(edges, z, x, p[k - 1], p[k]);
    }
}

/// The Markov blanket property: given its Markov blanket, a node is d-separated from every
/// node outside the blanket.
pub proof fn lemma_blanket_d_separates(edges: Seq<Edge>, z: Seq<NodeId>, x: NodeId, y: NodeId)
    requires
        forall|v: NodeId| #[trigger] z.contains(v) <==> in_blanket(edges, x, v),
        y != x,
        !in_blanket(edges, x, y),
    ensures
        !ball_connected(edges, z, x, y),
{
    assert forall|d: bool| !ball_reaches(edges, z, x, (y, d)) by {
        if ball_reaches(edges, z, x, (y, d)) {
            let p = choose|p: Seq<BallState>|
                #[trigger] ball_walk(edges, z, p) && p.len() > 0 && p[0] == (x, true) && p.last() == (y, d);
            lemma_blanket_ball_walk(edges, z, x, p, p.len() - 1);
        }
    }
}

} // verus!
