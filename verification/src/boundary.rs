//! Agent boundaries: internal nodes, their Markov blanket, and the external nodes.

use vstd::prelude::*;

use crate::blanket::{in_blanket, in_set_blanket, markov_blanket_set, set_blanket_set};
use crate::conditional_independence::{
    combos, increasing_positions, lemma_sets_by_size_order, pick, rows, sets_by_size, size_lex_before, subsequence_of,
};
use crate::graph::{edge_in, Edge, Graph};
use crate::sorted::{lemma_sorted_len, slice_contains, strictly_sorted};
use crate::NodeId;

verus! {

/// An agent boundary defined by internal states and their Markov blanket.
#[derive(Clone, Debug)]
pub struct AgentBoundary {
    pub internal: Vec<NodeId>,
    pub blanket: Vec<NodeId>,
    pub external: Vec<NodeId>,
}

/// The nodes of `nodes`, in order, that are neither in `internal` nor in its Markov blanket.
pub open spec fn external_nodes(edges: Seq<Edge>, nodes: Seq<NodeId>, internal: Seq<NodeId>) -> Seq<NodeId>
    decreases nodes.len(),
{
    if nodes.len() == 0 {
        Seq::empty()
    } else {
        let rest = external_nodes(edges, nodes.drop_last(), internal);
        let n = nodes.last();
        if !internal.contains(n) && !in_set_blanket(edges, internal, n) {
            rest.push(n)
        } else {
            rest
        }
    }
}

/// The number of nodes in the Markov blanket of the set `internal`: how much of the world an
/// agent with these internal states has to watch.
pub open spec fn boundary_score(edges: Seq<Edge>, internal: Seq<NodeId>) -> nat {
    set_blanket_set(edges, internal).len()
}

impl AgentBoundary {
    /// This boundary is the one `from_internal` makes from `internal` in a graph with these
    /// edges and nodes.
    pub open spec fn built_from(&self, edges: Seq<Edge>, nodes: Seq<NodeId>, internal: Seq<NodeId>) -> bool {
        &&& self.internal@ == internal
        &&& strictly_sorted(self.blanket@)
        &&& forall|x: NodeId| #[trigger] self.blanket@.contains(x) <==> in_set_blanket(edges, internal, x)
        &&& self.external@ == external_nodes(edges, nodes, internal)
    }

    /// The boundary of the given internal nodes: the blanket is their Markov blanket, the
    /// external nodes are the other nodes of the graph.
    pub fn from_internal(graph: &Graph, internal: &[NodeId]) -> (r: Self)
        ensures
            r.built_from(graph.edges@, graph.nodes@, internal@),
            r.blanket@.len() == boundary_score(graph.edges@, internal@),
            r.external@ == graph.nodes@.filter(
                |v: NodeId| !internal@.contains(v) && !in_set_blanket(graph.edges@, internal@, v),
            ),
    {
        let blanket = markov_blanket_set(graph, internal);
        let mut external: Vec<NodeId> = Vec::new();
        let n = graph.nodes.len();
        let mut i: usize = 0;
        while i < n
            invariant
                n == graph.nodes@.len(),
                i <= n,
                forall|x: NodeId| #[trigger] blanket@.contains(x) <==> in_set_blanket(graph.edges@, internal@, x),
                external@ == external_nodes(graph.edges@, graph.nodes@.take(i as int), internal@),
            decreases n - i,
        {
            assert(graph.nodes@.take(i + 1).drop_last() == graph.nodes@.take(i as int));
            let v = graph.nodes[i];
            if !slice_contains(internal, v) && !slice_contains(blanket.as_slice(), v) {
                external.push(v);
            }
            i = i + 1;
        }
        assert(graph.nodes@.take(n as int) == graph.nodes@);
        let mut own: Vec<NodeId> = Vec::new();
        let m = internal.len();
        let mut j: usize = 0;
        while j < m
            invariant
                m == internal@.len(),
                j <= m,
                own@ == internal@.take(j as int),
            decreases m - j,
        {
            own.push(internal[j]);
            assert(internal@.take(j + 1) == internal@.take(j as int).push(internal@[j as int]));
            j = j + 1;
        }
        assert(internal@.take(m as int) == internal@);
        proof {
            lemma_external_nodes_filter(graph.edges@, graph.nodes@, internal@);
            lemma_sorted_len(blanket@);
            assert(blanket@.to_set() =~= set_blanket_set(graph.edges@, internal@));
        }
        AgentBoundary { internal: own, blanket, external }
    }

    /// Boundary size: the number of blanket nodes.
    pub fn size(&self) -> (r: usize)
        ensures
            r == self.blanket@.len(),
    {
        self.blanket.len()
    }

    /// Whether `node` is internal.
    pub fn is_internal(&self, node: NodeId) -> (r: bool)
        ensures
            r == self.internal@.contains(node),
    {
        slice_contains(self.internal.as_slice(), node)
    }

    /// Whether `node` is on the boundary (in the blanket).
    pub fn is_boundary(&self, node: NodeId) -> (r: bool)
        ensures
            r == self.blanket@.contains(node),
    {
        slice_contains(self.blanket.as_slice(), node)
    }

    /// Whether `node` is external.
    pub fn is_external(&self, node: NodeId) -> (r: bool)
        ensures
            r == self.external@.contains(node),
    {
        slice_contains(self.external.as_slice(), node)
    }
}

/// All `k`-element sub-sequences of `arr`, in lexicographic order of their positions.
pub fn combinations(arr: &[NodeId], k: usize) -> (r: Vec<Vec<NodeId>>)
    ensures
        rows(r@) == combos(arr@, k as nat),
        rows(r@) == crate::conditional_independence::position_tuples(arr@.len(), k as nat).map_values(
            |t: Seq<int>| pick(arr@, t),
        ),
{
    crate::conditional_independence::combinations(arr, k)
}

/// The candidate internal sets of `optimal_boundary`: the non-empty sets of graph nodes with
/// at most `max_internal` elements, by size and then in the order of `combos`.
pub open spec fn boundary_candidates(nodes: Seq<NodeId>, max_internal: nat) -> Seq<Seq<NodeId>> {
    let upper = if max_internal < nodes.len() { max_internal } else { nodes.len() };
    sets_by_size(nodes, upper + 1).drop_first()
}

/// `cands[idx]` has the smallest score of `cands`, and every earlier candidate scores more.
pub open spec fn first_minimum(edges: Seq<Edge>, cands: Seq<Seq<NodeId>>, idx: int) -> bool {
    &&& 0 <= idx < cands.len()
    &&& forall|j: int| 0 <= j < cands.len() ==> boundary_score(edges, #[trigger] cands[j]) >= boundary_score(edges, cands[idx])
    &&& forall|j: int| 0 <= j < idx ==> boundary_score(edges, #[trigger] cands[j]) > boundary_score(edges, cands[idx])
}

/// The boundary with the smallest blanket over all non-empty sets of at most `max_internal`
/// graph nodes (the first such set by size and then lexicographically by positions); when
/// there is no candidate, the boundary of node `0`.
#[verifier::rlimit(40)]
pub fn optimal_boundary(graph: &Graph, max_internal: usize) -> (r: AgentBoundary)
    ensures
        ({
            let cands = boundary_candidates(graph.nodes@, max_internal as nat);
            if cands.len() == 0 {
                r.built_from(graph.edges@, graph.nodes@, seq![0usize])
            } else {
                exists|idx: int| first_minimum(graph.edges@, cands, idx)
                    && r.built_from(graph.edges@, graph.nodes@, cands[idx])
            }
        }),
        (max_internal >= 1 && graph.nodes@.len() >= 1) ==> subsequence_of(r.internal@, graph.nodes@)
            && 1 <= r.internal@.len() <= max_internal,
        forall|s: Seq<NodeId>| #[trigger] subsequence_of(s, graph.nodes@) && 1 <= s.len() <= max_internal
            ==> boundary_score(graph.edges@, r.internal@) <= boundary_score(graph.edges@, s),
        (max_internal >= 1 && graph.nodes@.len() >= 1) ==> first_least_blanket(graph.edges@, graph.nodes@, r.internal@),
{
    let ghost edges = graph.edges@;
    let ghost nodes = graph.nodes@;
    let mut best: Option<AgentBoundary> = None;
    let mut best_score: usize = 0;
    let ghost mut seen: Seq<Seq<NodeId>> = Seq::empty();
    let ghost mut idx: int = 0;
    let count = graph.nodes.len();
    let upper = if max_internal < count { max_internal } else { count };
    let ghost cands = boundary_candidates(nodes, max_internal as nat);
    proof {
        crate::conditional_independence::lemma_sets_by_size_one(nodes);
        assert(sets_by_size(nodes, 1).drop_first() =~= Seq::<Seq<NodeId>>::empty());
    }
    if upper > 0 {
        let mut size: usize = 1;
        loop
            invariant_except_break
                seen == sets_by_size(nodes, size as nat).drop_first(),
            invariant
                edges == graph.edges@,
                nodes == graph.nodes@,
                count == nodes.len(),
                1 <= size <= upper,
                upper <= count,
                upper == (if max_internal < count { max_internal } else { count }),
                cands == boundary_candidates(nodes, max_internal as nat),
                seen.len() == 0 ==> best is None,
                seen.len() > 0 ==> best is Some && first_minimum(edges, seen, idx) && best_score
                    == boundary_score(edges, seen[idx]) && best->0.built_from(edges, nodes, seen[idx]),
            ensures
                seen == sets_by_size(nodes, (upper + 1) as nat).drop_first(),
            decreases upper - size,
        {
            let cs = combinations(graph.nodes.as_slice(), size);
            let ghost seen0 = seen;
            let m = cs.len();
            let mut j: usize = 0;
            while j < m
                invariant
                    edges == graph.edges@,
                    nodes == graph.nodes@,
                    m == cs@.len(),
                    j <= m,
                    rows(cs@) == combos(nodes, size as nat),
                    seen == seen0 + rows(cs@).take(j as int),
                    seen.len() == 0 ==> best is None,
                    seen.len() > 0 ==> best is Some && first_minimum(edges, seen, idx) && best_score
                        == boundary_score(edges, seen[idx]) && best->0.built_from(edges, nodes, seen[idx]),
                decreases m - j,
            {
                let boundary = AgentBoundary::from_internal(graph, cs[j].as_slice());
                let score = boundary.size();
                let ghost cand = cs@[j as int]@;
                let ghost prev = seen;
                proof {
                    seen = seen.push(cand);
                    assert(rows(cs@).take(j + 1) =~= rows(cs@).take(j as int).push(cand));
                    assert(seen == seen0 + rows(cs@).take(j + 1));
                    assert(seen[prev.len() as int] == cand);
                }
                if best.is_none() || score < best_score {
                    proof {
                        assert forall|k: int| 0 <= k < prev.len() implies #[trigger] seen[k] == prev[k] by {}
                        idx = prev.len() as int;
                        assert forall|k: int| 0 <= k < seen.len() implies boundary_score(edges, #[trigger] seen[k])
                            >= boundary_score(edges, seen[idx]) by {
                            if k < prev.len() {
                                assert(seen[k] == prev[k]);
                            }
                        }
                        assert forall|k: int| 0 <= k < idx implies boundary_score(edges, #[trigger] seen[k])
                            > boundary_score(edges, seen[idx]) by {
                            assert(seen[k] == prev[k]);
                        }
                    }
                    best_score = score;
                    best = Some(boundary);
                } else {
                    proof {
                        assert forall|k: int| 0 <= k < seen.len() implies boundary_score(edges, #[trigger] seen[k])
                            >= boundary_score(edges, seen[idx]) by {
                            if k < prev.len() {
                                assert(seen[k] == prev[k]);
                            }
                        }
                        assert forall|k: int| 0 <= k < idx implies boundary_score(edges, #[trigger] seen[k])
                            > boundary_score(edges, seen[idx]) by {
                            assert(seen[k] == prev[k]);
                        }
                        assert(seen[idx] == prev[idx]);
                    }
                }
                j = j + 1;
            }
            proof {
                assert(rows(cs@).take(m as int) =~= rows(cs@));
                let whole = sets_by_size(nodes, size as nat);
                assert(whole.len() > 0) by {
                    crate::conditional_independence::lemma_sets_by_size_one(nodes);
                    crate::conditional_independence::lemma_sets_prefix(nodes, 1, size as nat, 0);
                }
                assert(sets_by_size(nodes, (size + 1) as nat) == whole + combos(nodes, size as nat));
                assert((whole + combos(nodes, size as nat)).drop_first() =~= whole.drop_first() + combos(nodes, size as nat));
            }
            if size == upper {
                break;
            }
            size = size + 1;
        }
    }
    proof {
        if upper == 0 {
            assert(cands =~= Seq::<Seq<NodeId>>::empty());
        } else {
            assert(seen == cands);
        }
    }
    let r = match best {
        Some(b) => b,
        None => {
            let mut zero: Vec<NodeId> = Vec::new();
            zero.push(0);
            assert(zero@ =~= seq![0usize]);
            AgentBoundary::from_internal(graph, zero.as_slice())
        },
    };
    proof {
        lemma_candidates_sound(nodes, max_internal as nat);
        if max_internal >= 1 && nodes.len() >= 1 {
            let t = seq![0int];
            assert(increasing_positions(t, nodes.len() as int));
            assert(subsequence_of(pick(nodes, t), nodes));
            lemma_candidates_complete(nodes, max_internal as nat, pick(nodes, t));
        }
        if cands.len() > 0 {
            let i = choose|i: int| first_minimum(edges, cands, i) && r.built_from(edges, nodes, cands[i]);
            assert(r.internal@ == cands[i]);
            lemma_first_minimum_first_least(edges, nodes, max_internal as nat, i);
            assert forall|s: Seq<NodeId>| #[trigger] subsequence_of(s, nodes) && 1 <= s.len() <= max_internal
                implies boundary_score(edges, r.internal@) <= boundary_score(edges, s) by {
                lemma_candidates_complete(nodes, max_internal as nat, s);
                let j = choose|j: int| 0 <= j < cands.len() && cands[j] == s;
                assert(boundary_score(edges, cands[j]) >= boundary_score(edges, cands[i]));
            }
        } else {
            assert forall|s: Seq<NodeId>| #[trigger] subsequence_of(s, nodes) && 1 <= s.len() <= max_internal
                implies boundary_score(edges, r.internal@) <= boundary_score(edges, s) by {
                lemma_candidates_complete(nodes, max_internal as nat, s);
            }
        }
    }
    r
}

/// Every candidate internal set is a sub-sequence of the nodes with between one and
/// `max_internal` elements.
pub proof fn lemma_candidates_sound(nodes: Seq<NodeId>, max_internal: nat)
    ensures
        forall|i: int| 0 <= i < boundary_candidates(nodes, max_internal).len() ==> subsequence_of(
            #[trigger] boundary_candidates(nodes, max_internal)[i],
            nodes,
        ) && 1 <= boundary_candidates(nodes, max_internal)[i].len() <= max_internal,
{
    let upper = if max_internal < nodes.len() { max_internal } else { nodes.len() };
    let all = sets_by_size(nodes, upper + 1);
    crate::conditional_independence::lemma_sets_sound(nodes, upper + 1);
    crate::conditional_independence::lemma_sets_sorted_by_size(nodes, upper + 1);
    crate::conditional_independence::lemma_sets_by_size_one(nodes);
    crate::conditional_independence::lemma_sets_prefix(nodes, 1, upper + 1, 0);
    let cands = boundary_candidates(nodes, max_internal);
    assert(cands == all.drop_first());
    assert forall|i: int| 0 <= i < cands.len() implies subsequence_of(#[trigger] cands[i], nodes)
        && 1 <= cands[i].len() <= max_internal by {
        assert(cands[i] == all[i + 1]);
        assert(all[i + 1].len() < upper + 1);
    }
}

/// Every sub-sequence of the nodes with between one and `max_internal` elements is a
/// candidate internal set.
pub proof fn lemma_candidates_complete(nodes: Seq<NodeId>, max_internal: nat, s: Seq<NodeId>)
    requires
        subsequence_of(s, nodes),
        1 <= s.len() <= max_internal,
    ensures
        boundary_candidates(nodes, max_internal).contains(s),
{
    let upper = if max_internal < nodes.len() { max_internal } else { nodes.len() };
    let all = sets_by_size(nodes, upper + 1);
    let t = choose|t: Seq<int>| increasing_positions(t, nodes.len() as int) && #[trigger] pick(nodes, t) == s;
    crate::conditional_independence::lemma_positions_bound(t, nodes.len() as int, 0);
    crate::conditional_independence::lemma_combos_complete(nodes, t);
    crate::conditional_independence::lemma_sets_holds_combos(nodes, upper + 1, t.len(), s);
    let j = choose|j: int| 0 <= j < all.len() && all[j] == s;
    crate::conditional_independence::lemma_sets_by_size_one(nodes);
    crate::conditional_independence::lemma_sets_prefix(nodes, 1, upper + 1, 0);
    assert(all[0] == Seq::<NodeId>::empty());
    assert(j != 0);
    assert(all.drop_first()[j - 1] == s);
}

/// `internal` is picked from `nodes` at increasing positions `t`, and every non-empty set
/// picked at positions that come before `t` (fewer of them, or as many and lexicographically
/// smaller) has a larger blanket.
pub open spec fn first_least_blanket(edges: Seq<Edge>, nodes: Seq<NodeId>, internal: Seq<NodeId>) -> bool {
    exists|t: Seq<int>| increasing_positions(t, nodes.len() as int) && #[trigger] pick(nodes, t) == internal
        && forall|t2: Seq<int>| #![trigger size_lex_before(t2, t)]
            increasing_positions(t2, nodes.len() as int) && 1 <= t2.len() && size_lex_before(t2, t)
                ==> boundary_score(edges, pick(nodes, t2)) > boundary_score(edges, internal)
}

/// The candidate that `optimal_boundary` settles on, the first of least score, is the first
/// non-empty set of graph nodes of least score by size and then lexicographically by
/// positions: every set before it has a larger blanket.
pub proof fn lemma_first_minimum_first_least(edges: Seq<Edge>, nodes: Seq<NodeId>, max_internal: nat, idx: int)
    requires
        first_minimum(edges, boundary_candidates(nodes, max_internal), idx),
    ensures
        first_least_blanket(edges, nodes, boundary_candidates(nodes, max_internal)[idx]),
{
    let upper = if max_internal < nodes.len() { max_internal } else { nodes.len() };
    let all = sets_by_size(nodes, upper + 1);
    let cands = boundary_candidates(nodes, max_internal);
    crate::conditional_independence::lemma_sets_by_size_one(nodes);
    crate::conditional_independence::lemma_sets_prefix(nodes, 1, upper + 1, 0);
    assert(all[0] == Seq::<NodeId>::empty());
    assert(cands == all.drop_first());
    assert(cands[idx] == all[idx + 1]);
    let t = lemma_sets_by_size_order(nodes, upper + 1, idx + 1);
    assert forall|t2: Seq<int>| #![trigger size_lex_before(t2, t)]
        increasing_positions(t2, nodes.len() as int) && 1 <= t2.len() && size_lex_before(t2, t)
            implies boundary_score(edges, pick(nodes, t2)) > boundary_score(edges, cands[idx]) by {
        let j = choose|j: int| 0 <= j < idx + 1 && #[trigger] all[j] =~= pick(nodes, t2);
        assert(pick(nodes, t2).len() == t2.len());
        assert(j != 0);
        assert(cands[j - 1] == all[j]);
        assert(boundary_score(edges, cands[j - 1]) > boundary_score(edges, cands[idx]));
    }
}

/// The internal nodes and the external nodes are joined by no edge, either way.
pub open spec fn separates(edges: Seq<Edge>, internal: Seq<NodeId>, external: Seq<NodeId>) -> bool {
    forall|a: int, b: int|
        #![trigger internal[a], external[b]]
        0 <= a < internal.len() && 0 <= b < external.len() ==> !edge_in(edges, internal[a], external[b])
            && !edge_in(edges, external[b], internal[a])
}

/// Whether the boundary is valid: no edge joins an internal node and an external node, so
/// the blanket separates them.
pub fn validate_boundary(boundary: &AgentBoundary, graph: &Graph) -> (r: bool)
    ensures
        r == separates(graph.edges@, boundary.internal@, boundary.external@),
{
    let n = boundary.internal.len();
    let m = boundary.external.len();
    let mut a: usize = 0;
    while a < n
        invariant
            n == boundary.internal@.len(),
            m == boundary.external@.len(),
            a <= n,
            forall|i: int, j: int|
                #![trigger boundary.internal@[i], boundary.external@[j]]
                0 <= i < a && 0 <= j < m ==> !edge_in(graph.edges@, boundary.internal@[i], boundary.external@[j])
                    && !edge_in(graph.edges@, boundary.external@[j], boundary.internal@[i]),
        decreases n - a,
    {
        let int_node = boundary.internal[a];
        let mut b: usize = 0;
        while b < m
            invariant
                n == boundary.internal@.len(),
                m == boundary.external@.len(),
                a < n,
                b <= m,
                int_node == boundary.internal@[a as int],
                forall|i: int, j: int|
                    #![trigger boundary.internal@[i], boundary.external@[j]]
                    0 <= i < a && 0 <= j < m ==> !edge_in(graph.edges@, boundary.internal@[i], boundary.external@[j])
                        && !edge_in(graph.edges@, boundary.external@[j], boundary.internal@[i]),
                forall|j: int|
                    0 <= j < b ==> !edge_in(graph.edges@, int_node, #[trigger] boundary.external@[j])
                        && !edge_in(graph.edges@, boundary.external@[j], int_node),
            decreases m - b,
        {
            let ext = boundary.external[b];
            if graph.has_edge(int_node, ext) || graph.has_edge(ext, int_node) {
                assert(boundary.internal@[a as int] == int_node && boundary.external@[b as int] == ext);
                return false;
            }
            b = b + 1;
        }
        proof {
            assert forall|i: int, j: int|
                #![trigger boundary.internal@[i], boundary.external@[j]]
                0 <= i < a + 1 && 0 <= j < m implies !edge_in(graph.edges@, boundary.internal@[i], boundary.external@[j])
                    && !edge_in(graph.edges@, boundary.external@[j], boundary.internal@[i]) by {
                if i == a {
                    assert(boundary.external@[j] == boundary.external@[j]);
                }
            }
        }
        a = a + 1;
    }
    true
}

/// The external nodes are exactly the graph nodes that are neither internal nor in the blanket.
pub proof fn lemma_external_nodes(edges: Seq<Edge>, nodes: Seq<NodeId>, internal: Seq<NodeId>, x: NodeId)
    ensures
        external_nodes(edges, nodes, internal).contains(x) <==> (nodes.contains(x) && !internal.contains(x)
            && !in_set_blanket(edges, internal, x)),
    decreases nodes.len(),
{
    if nodes.len() > 0 {
        let rest = nodes.drop_last();
        lemma_external_nodes(edges, rest, internal, x);
        crate::sorted::lemma_take_succ_contains(nodes, rest.len() as int, x);
        assert(nodes.take(rest.len() as int) == rest);
        assert(nodes.take(nodes.len() as int) == nodes);
        let er = external_nodes(edges, rest, internal);
        let ee = external_nodes(edges, nodes, internal);
        let n = nodes.last();
        if !internal.contains(n) && !in_set_blanket(edges, internal, n) {
            crate::sorted::lemma_take_succ_contains(ee, er.len() as int, x);
            assert(ee.take(er.len() as int) == er);
            assert(ee.take(ee.len() as int) == ee);
        } else {
            assert(ee == er);
        }
    }
}

/// The external nodes are the graph nodes that are neither internal nor in the blanket, in
/// the order of the graph and each as often as the graph lists it.
pub proof fn lemma_external_nodes_filter(edges: Seq<Edge>, nodes: Seq<NodeId>, internal: Seq<NodeId>)
    ensures
        external_nodes(edges, nodes, internal) == nodes.filter(
            |v: NodeId| !internal.contains(v) && !in_set_blanket(edges, internal, v),
        ),
    decreases nodes.len(),
{
    let keep = |v: NodeId| !internal.contains(v) && !in_set_blanket(edges, internal, v);
    reveal(Seq::filter);
    if nodes.len() == 0 {
        assert(nodes.filter(keep) =~= Seq::<NodeId>::empty());
    } else {
        lemma_external_nodes_filter(edges, nodes.drop_last(), internal);
    }
}

/// Every node of the graph lies in exactly one part of a boundary: internal, blanket or
/// external.
pub proof fn lemma_boundary_partition(
    b: AgentBoundary,
    edges: Seq<Edge>,
    nodes: Seq<NodeId>,
    internal: Seq<NodeId>,
    x: NodeId,
)
    requires
        b.built_from(edges, nodes, internal),
    ensures
        nodes.contains(x) ==> (b.internal@.contains(x) || b.blanket@.contains(x) || b.external@.contains(x)),
        !(b.internal@.contains(x) && b.blanket@.contains(x)),
        !(b.internal@.contains(x) && b.external@.contains(x)),
        !(b.blanket@.contains(x) && b.external@.contains(x)),
{
    lemma_external_nodes(edges, nodes, internal, x);
}

/// The boundary made from any internal nodes is valid: no edge joins an internal node and an
/// external node, since such an edge would put the external node in the blanket.
pub proof fn lemma_boundary_separates(b: AgentBoundary, edges: Seq<Edge>, nodes: Seq<NodeId>, internal: Seq<NodeId>)
    requires
        b.built_from(edges, nodes, internal),
    ensures
        separates(edges, b.internal@, b.external@),
{
    assert forall|a: int, c: int|
        #![trigger b.internal@[a], b.external@[c]]
        0 <= a < b.internal@.len() && 0 <= c < b.external@.len() implies !edge_in(edges, b.internal@[a], b.external@[c])
            && !edge_in(edges, b.external@[c], b.internal@[a]) by {
        let i = b.internal@[a];
        let e = b.external@[c];
        assert(b.external@.contains(e));
        lemma_external_nodes(edges, nodes, internal, e);
        if edge_in(edges, i, e) || edge_in(edges, e, i) {
            assert(in_blanket(edges, internal[a], e));
        }
    }
}

} // verus!
