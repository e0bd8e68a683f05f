//! The directed graphical model: nodes, edges, parents and children.

use vstd::prelude::*;

use crate::sorted::{insert_sorted, lemma_take_succ_contains, strictly_sorted};
use crate::NodeId;

verus! {

/// A directed edge between two nodes.
#[derive(Clone, Copy, Debug, PartialEq, Eq, Structural)]
pub struct Edge {
    pub from: NodeId,
    pub to: NodeId,
}

/// A directed graphical model (Bayesian network) over the nodes `0..node_count`.
#[derive(Clone, Debug)]
pub struct Graph {
    pub nodes: Vec<NodeId>,
    pub edges: Vec<Edge>,
    pub node_count: usize,
}

/// Some edge of `edges` goes from `a` to `b`.
pub open spec fn edge_in(edges: Seq<Edge>, a: NodeId, b: NodeId) -> bool {
    exists|i: int| 0 <= i < edges.len() && #[trigger] edges[i].from == a && edges[i].to == b
}

/// An edge joins `a` and `b`, one way or the other.
pub open spec fn adjacent(edges: Seq<Edge>, a: NodeId, b: NodeId) -> bool {
    edge_in(edges, a, b) || edge_in(edges, b, a)
}

/// Adjacency is symmetric: `a` is a neighbor of `b` exactly when `b` is a neighbor of `a`.
pub proof fn lemma_adjacent_symmetric(edges: Seq<Edge>, a: NodeId, b: NodeId)
    ensures
        adjacent(edges, a, b) <==> adjacent(edges, b, a),
{
}

/// The sources of the edges into `node`, in edge order (one entry per edge).
pub open spec fn parents_of(edges: Seq<Edge>, node: NodeId) -> Seq<NodeId>
    decreases edges.len(),
{
    if edges.len() == 0 {
        Seq::empty()
    } else {
        let rest = parents_of(edges.drop_last(), node);
        if edges.last().to == node {
            rest.push(edges.last().from)
        } else {
            rest
        }
    }
}

/// The targets of the edges out of `node`, in edge order (one entry per edge).
pub open spec fn children_of(edges: Seq<Edge>, node: NodeId) -> Seq<NodeId>
    decreases edges.len(),
{
    if edges.len() == 0 {
        Seq::empty()
    } else {
        let rest = children_of(edges.drop_last(), node);
        if edges.last().from == node {
            rest.push(edges.last().to)
        } else {
            rest
        }
    }
}

/// `p` is listed among the parents of `n` exactly when an edge goes from `p` to `n`.
pub proof fn lemma_parents_of(edges: Seq<Edge>, n: NodeId, p: NodeId)
    ensures
        parents_of(edges, n).contains(p) <==> edge_in(edges, p, n),
    decreases edges.len(),
{
    if edges.len() > 0 {
        let rest = edges.drop_last();
        let last = edges.last();
        lemma_parents_of(rest, n, p);
        lemma_edge_in_drop_last(edges, p, n);
        let pr = parents_of(rest, n);
        let pe = parents_of(edges, n);
        if last.to == n {
            assert(pe == pr.push(last.from));
            if pe.contains(p) {
                let k = choose|k: int| 0 <= k < pe.len() && #[trigger] pe[k] == p;
                if k < pr.len() {
                    assert(pr[k] == p);
                }
            }
            if pr.contains(p) {
                let k = choose|k: int| 0 <= k < pr.len() && #[trigger] pr[k] == p;
                assert(pe[k] == p);
            }
            if last.from == p {
                assert(pe[pr.len() as int] == p);
            }
        } else {
            assert(pe == pr);
        }
    }
}

/// `c` is listed among the children of `n` exactly when an edge goes from `n` to `c`.
pub proof fn lemma_children_of(edges: Seq<Edge>, n: NodeId, c: NodeId)
    ensures
        children_of(edges, n).contains(c) <==> edge_in(edges, n, c),
    decreases edges.len(),
{
    if edges.len() > 0 {
        let rest = edges.drop_last();
        let last = edges.last();
        lemma_children_of(rest, n, c);
        lemma_edge_in_drop_last(edges, n, c);
        let cr = children_of(rest, n);
        let ce = children_of(edges, n);
        if last.from == n {
            assert(ce == cr.push(last.to));
            if ce.contains(c) {
                let k = choose|k: int| 0 <= k < ce.len() && #[trigger] ce[k] == c;
                if k < cr.len() {
                    assert(cr[k] == c);
                }
            }
            if cr.contains(c) {
                let k = choose|k: int| 0 <= k < cr.len() && #[trigger] cr[k] == c;
                assert(ce[k] == c);
            }
            if last.to == c {
                assert(ce[cr.len() as int] == c);
            }
        } else {
            assert(ce == cr);
        }
    }
}

/// `x` is listed among the parents of `y` exactly when `y` is listed among the children of `x`.
/// The parents of `node` are the sources of the edges into `node`, in edge order, one for each
/// such edge.
pub proof fn lemma_parents_of_filter(edges: Seq<Edge>, node: NodeId)
    ensures
        parents_of(edges, node) == edges.filter(|e: Edge| e.to == node).map_values(|e: Edge| e.from),
    decreases edges.len(),
{
    let into = |e: Edge| e.to == node;
    let src = |e: Edge| e.from;
    reveal(Seq::filter);
    if edges.len() == 0 {
        assert(edges.filter(into).map_values(src) =~= Seq::<NodeId>::empty());
    } else {
        let rest = edges.drop_last();
        lemma_parents_of_filter(rest, node);
        assert(rest.filter(into).push(edges.last()).map_values(src) =~= rest.filter(into).map_values(src).push(
            edges.last().from,
        ));
    }
}

/// The children of `node` are the targets of the edges out of `node`, in edge order, one for
/// each such edge.
pub proof fn lemma_children_of_filter(edges: Seq<Edge>, node: NodeId)
    ensures
        children_of(edges, node) == edges.filter(|e: Edge| e.from == node).map_values(|e: Edge| e.to),
    decreases edges.len(),
{
    let out = |e: Edge| e.from == node;
    let dst = |e: Edge| e.to;
    reveal(Seq::filter);
    if edges.len() == 0 {
        assert(edges.filter(out).map_values(dst) =~= Seq::<NodeId>::empty());
    } else {
        let rest = edges.drop_last();
        lemma_children_of_filter(rest, node);
        assert(rest.filter(out).push(edges.last()).map_values(dst) =~= rest.filter(out).map_values(dst).push(
            edges.last().to,
        ));
    }
}

pub proof fn lemma_parent_child_dual(edges: Seq<Edge>, x: NodeId, y: NodeId)
    ensures
        parents_of(edges, y).contains(x) <==> children_of(edges, x).contains(y),
{
    lemma_parents_of(edges, y, x);
    lemma_children_of(edges, x, y);
}

/// An edge from `a` to `b` is either among all but the last edge, or it is the last one.
pub proof fn lemma_edge_in_drop_last(edges: Seq<Edge>, a: NodeId, b: NodeId)
    requires
        edges.len() > 0,
    ensures
        edge_in(edges, a, b) <==> (edge_in(edges.drop_last(), a, b) || (edges.last().from == a
            && edges.last().to == b)),
{
    let rest = edges.drop_last();
    if edge_in(edges, a, b) {
        let i = choose|i: int| 0 <= i < edges.len() && #[trigger] edges[i].from == a && edges[i].to == b;
        if i < rest.len() {
            assert(rest[i].from == a && rest[i].to == b);
        }
    }
    if edge_in(rest, a, b) {
        let i = choose|i: int| 0 <= i < rest.len() && #[trigger] rest[i].from == a && rest[i].to == b;
        assert(edges[i].from == a && edges[i].to == b);
    }
    if edges.last().from == a && edges.last().to == b {
        assert(edges[edges.len() - 1].from == a);
    }
}

impl Graph {
    /// The number of nodes the graph was made with.
    pub open spec fn spec_node_count(&self) -> usize {
        self.node_count
    }

    /// Some edge goes from `a` to `b`.
    pub open spec fn edge(&self, a: NodeId, b: NodeId) -> bool {
        edge_in(self.edges@, a, b)
    }

    /// A graph over the nodes `0..node_count`, without edges.
    pub fn new(node_count: usize) -> (g: Self)
        ensures
            g.nodes@ == Seq::new(node_count as nat, |i: int| i as NodeId),
            g.edges@ == Seq::<Edge>::empty(),
            g.spec_node_count() == node_count,
    {
        let mut nodes: Vec<NodeId> = Vec::new();
        let mut i: usize = 0;
        while i < node_count
            invariant
                i <= node_count,
                nodes@ == Seq::new(i as nat, |k: int| k as NodeId),
            decreases node_count - i,
        {
            nodes.push(i);
            i = i + 1;
        }
        Graph { nodes, edges: Vec::new(), node_count }
    }

    /// Adds an edge from `from` to `to` after the existing edges.
    pub fn add_directed_edge(&mut self, from: NodeId, to: NodeId)
        ensures
            final(self).edges@ == old(self).edges@.push(Edge { from, to }),
            final(self).nodes@ == old(self).nodes@,
            final(self).spec_node_count() == old(self).spec_node_count(),
            final(self).edge(from, to),
            forall|a: NodeId, b: NodeId| #[trigger] final(self).edge(a, b) <==> (old(self).edge(a, b) || (a == from && b == to)),
    {
        self.edges.push(Edge { from, to });
        proof {
            assert forall|a: NodeId, b: NodeId| #[trigger] self.edge(a, b) <==> (old(self).edge(a, b) || (a == from && b == to)) by {
                lemma_edge_in_drop_last(self.edges@, a, b);
                assert(self.edges@.drop_last() == old(self).edges@);
            }
        }
    }

    /// The number of nodes the graph was made with.
    pub fn node_count(&self) -> (r: usize)
        ensures
            r == self.spec_node_count(),
    {
        self.node_count
    }

    /// The sources of the edges into `node`, in edge order.
    pub fn parents(&self, node: NodeId) -> (r: Vec<NodeId>)
        ensures
            r@ == parents_of(self.edges@, node),
            r@ == self.edges@.filter(|e: Edge| e.to == node).map_values(|e: Edge| e.from),
    {
        proof {
            lemma_parents_of_filter(self.edges@, node);
        }
        let mut r: Vec<NodeId> = Vec::new();
        let n = self.edges.len();
        let mut i: usize = 0;
        while i < n
            invariant
                n == self.edges@.len(),
                i <= n,
                r@ == parents_of(self.edges@.take(i as int), node),
            decreases n - i,
        {
            assert(self.edges@.take(i + 1).drop_last() == self.edges@.take(i as int));
            let e = self.edges[i];
            if e.to == node {
                r.push(e.from);
            }
            i = i + 1;
        }
        assert(self.edges@.take(n as int) == self.edges@);
        r
    }

    /// The targets of the edges out of `node`, in edge order.
    pub fn children(&self, node: NodeId) -> (r: Vec<NodeId>)
        ensures
            r@ == children_of(self.edges@, node),
            r@ == self.edges@.filter(|e: Edge| e.from == node).map_values(|e: Edge| e.to),
    {
        proof {
            lemma_children_of_filter(self.edges@, node);
        }
        let mut r: Vec<NodeId> = Vec::new();
        let n = self.edges.len();
        let mut i: usize = 0;
        while i < n
            invariant
                n == self.edges@.len(),
                i <= n,
                r@ == children_of(self.edges@.take(i as int), node),
            decreases n - i,
        {
            assert(self.edges@.take(i + 1).drop_last() == self.edges@.take(i as int));
            let e = self.edges[i];
            if e.from == node {
                r.push(e.to);
            }
            i = i + 1;
        }
        assert(self.edges@.take(n as int) == self.edges@);
        r
    }

    /// Whether some edge goes from `from` to `to`.
    pub fn has_edge(&self, from: NodeId, to: NodeId) -> (r: bool)
        ensures
            r == self.edge(from, to),
    {
        let n = self.edges.len();
        let mut i: usize = 0;
        while i < n
            invariant
                n == self.edges@.len(),
                i <= n,
                forall|k: int| 0 <= k < i ==> !(#[trigger] self.edges@[k].from == from && self.edges@[k].to == to),
            decreases n - i,
        {
            if self.edges[i].from == from && self.edges[i].to == to {
                return true;
            }
            i = i + 1;
        }
        false
    }

    /// The parents and children of `node`, in increasing order, each once.
    pub fn neighbors(&self, node: NodeId) -> (r: Vec<NodeId>)
        ensures
            strictly_sorted(r@),
            forall|x: NodeId| r@.contains(x) <==> adjacent(self.edges@, x, node),
    {
        let ps = self.parents(node);
        let cs = self.children(node);
        let mut r: Vec<NodeId> = Vec::new();
        let mut i: usize = 0;
        while i < ps.len()
            invariant
                i <= ps@.len(),
                strictly_sorted(r@),
                forall|x: NodeId| r@.contains(x) <==> ps@.take(i as int).contains(x),
            decreases ps@.len() - i,
        {
            insert_sorted(&mut r, ps[i]);
            proof {
                assert forall|x: NodeId| r@.contains(x) <==> ps@.take(i + 1).contains(x) by {
                    lemma_take_succ_contains(ps@, i as int, x);
                }
            }
            i = i + 1;
        }
        assert(ps@.take(ps@.len() as int) == ps@);
        let mut j: usize = 0;
        while j < cs.len()
            invariant
                j <= cs@.len(),
                strictly_sorted(r@),
                forall|x: NodeId| r@.contains(x) <==> (ps@.contains(x) || cs@.take(j as int).contains(x)),
            decreases cs@.len() - j,
        {
            insert_sorted(&mut r, cs[j]);
            proof {
                assert forall|x: NodeId| r@.contains(x) <==> (ps@.contains(x) || cs@.take(j + 1).contains(x)) by {
                    lemma_take_succ_contains(cs@, j as int, x);
                }
            }
            j = j + 1;
        }
        assert(cs@.take(cs@.len() as int) == cs@);
        proof {
            assert forall|x: NodeId| r@.contains(x) <==> adjacent(self.edges@, x, node) by {
                lemma_parents_of(self.edges@, node, x);
                lemma_children_of(self.edges@, node, x);
            }
        }
        r
    }
}

} // verus!
