use lib::boundary::{self, AgentBoundary};
use lib::conditional_independence;
use lib::inference::BeliefState;
use lib::permeability;
use lib::Graph;

fn make_chain() -> Graph {
    let mut g = Graph::new(5);
    g.add_directed_edge(0, 1);
    g.add_directed_edge(1, 2);
    g.add_directed_edge(2, 3);
    g.add_directed_edge(3, 4);
    g
}

fn make_tree() -> Graph {
    let mut g = Graph::new(7);
    g.add_directed_edge(0, 1);
    g.add_directed_edge(0, 2);
    g.add_directed_edge(1, 3);
    g.add_directed_edge(1, 4);
    g.add_directed_edge(2, 5);
    g.add_directed_edge(2, 6);
    g
}

fn make_v_structure() -> Graph {
    let mut g = Graph::new(3);
    g.add_directed_edge(0, 2);
    g.add_directed_edge(1, 2);
    g
}

fn make_diamond() -> Graph {
    let mut g = Graph::new(4);
    g.add_directed_edge(0, 1);
    g.add_directed_edge(0, 2);
    g.add_directed_edge(1, 3);
    g.add_directed_edge(2, 3);
    g
}

/// The flow that `information_flow` computes from its paths: for each path in order, the
/// product of its edge weights from 1.0; the sum of these from 0.0.
fn flow(g: &Graph, weights: &[f64], source: usize, target: usize) -> f64 {
    let mut total = 0.0;
    for path in permeability::information_flow_paths(g, source, target) {
        let mut w = 1.0;
        for e in path {
            w *= weights[e];
        }
        total += w;
    }
    total
}

fn unit_weights(g: &Graph) -> Vec<f64> {
    vec![1.0; g.edges.len()]
}

// ── Conditional independence ──

#[test]
fn test_d_separated_chain() {
    let g = make_chain();
    assert!(!conditional_independence::d_separated(&g, 0, 2, &[]));
    assert!(conditional_independence::d_separated(&g, 0, 4, &[2]));
}

#[test]
fn test_d_separated_v_structure_unconditional() {
    let g = make_v_structure();
    assert!(conditional_independence::d_separated(&g, 0, 1, &[]));
}

#[test]
fn test_d_separated_v_structure_conditioned() {
    let g = make_v_structure();
    assert!(!conditional_independence::d_separated(&g, 0, 1, &[2]));
}

#[test]
fn test_d_separated_diamond() {
    let g = make_diamond();
    assert!(!conditional_independence::d_separated(&g, 1, 2, &[]));
}

#[test]
fn test_unconditionally_independent() {
    let g = make_v_structure();
    assert!(conditional_independence::unconditionally_independent(&g, 0, 1));
}

#[test]
fn test_minimal_separating_set_chain() {
    let g = make_chain();
    let sep = conditional_independence::minimal_separating_set(&g, 0, 4);
    assert!(!sep.is_empty() || !conditional_independence::d_separated(&g, 0, 4, &[]));
}

#[test]
fn test_all_separated_pairs() {
    let g = make_v_structure();
    let pairs = conditional_independence::all_separated_pairs(&g, &[]);
    assert!(pairs.contains(&(0, 1)));
}

#[test]
fn test_valid_conditioning_set() {
    let g = make_chain();
    assert!(conditional_independence::is_valid_conditioning_set(&g, 0, 4, &[2]));
}

#[test]
fn observed_node_blocks_the_chain_both_ways() {
    let g = make_chain();
    assert!(conditional_independence::d_separated(&g, 0, 4, &[2]));
    assert!(conditional_independence::d_separated(&g, 4, 0, &[2]));
    assert!(!conditional_independence::d_separated(&g, 4, 0, &[]));
}

#[test]
fn d_separation_is_symmetric() {
    for g in [make_chain(), make_tree(), make_v_structure(), make_diamond()] {
        let n = g.node_count();
        let zs: Vec<Vec<usize>> = vec![vec![], vec![0], vec![1], vec![2], vec![1, 2], vec![3]];
        for z in &zs {
            for x in 0..n {
                for y in 0..n {
                    if !z.contains(&x) && !z.contains(&y) {
                        assert_eq!(
                            conditional_independence::d_separated(&g, x, y, z),
                            conditional_independence::d_separated(&g, y, x, z)
                        );
                    }
                }
            }
        }
    }
}

#[test]
fn node_is_d_separated_from_the_rest_given_its_blanket() {
    for g in [make_chain(), make_tree(), make_v_structure(), make_diamond()] {
        let n = g.node_count();
        for x in 0..n {
            let mb = lib::blanket::markov_blanket(&g, x);
            for y in 0..n {
                if y != x && !mb.contains(&y) {
                    assert!(conditional_independence::d_separated(&g, x, y, &mb));
                }
            }
        }
    }
}

#[test]
fn descendant_of_a_collider_opens_it() {
    let mut g = Graph::new(4);
    g.add_directed_edge(0, 2);
    g.add_directed_edge(1, 2);
    g.add_directed_edge(2, 3);
    assert!(conditional_independence::d_separated(&g, 0, 1, &[]));
    assert!(!conditional_independence::d_separated(&g, 0, 1, &[3]));
}

#[test]
fn node_is_never_separated_from_itself() {
    let g = make_diamond();
    for x in 0..4 {
        assert!(!conditional_independence::d_separated(&g, x, x, &[]));
        assert!(!conditional_independence::d_separated(&g, x, x, &[0, 1, 2, 3]));
    }
}

#[test]
fn conditioning_on_the_fork_separates_the_diamond_middle_only_with_the_collider_open() {
    let g = make_diamond();
    // The path 1 <- 0 -> 2 is blocked by conditioning on 0, and 1 -> 3 <- 2 is a closed collider.
    assert!(conditional_independence::d_separated(&g, 1, 2, &[0]));
    // Conditioning on the collider 3 opens it again.
    assert!(!conditional_independence::d_separated(&g, 1, 2, &[0, 3]));
}

#[test]
fn minimal_separating_set_is_the_smallest_first_set() {
    let g = make_chain();
    assert_eq!(conditional_independence::minimal_separating_set(&g, 0, 4), vec![1]);
    let v = make_v_structure();
    assert_eq!(conditional_independence::minimal_separating_set(&v, 0, 1), Vec::<usize>::new());
    let d = make_diamond();
    assert_eq!(conditional_independence::minimal_separating_set(&d, 1, 2), vec![0]);
}

#[test]
fn minimal_separating_set_is_empty_when_nothing_separates() {
    let g = make_chain();
    assert_eq!(conditional_independence::minimal_separating_set(&g, 1, 2), Vec::<usize>::new());
    assert!(!conditional_independence::d_separated(&g, 1, 2, &[]));
}

#[test]
fn separated_pairs_in_row_major_order() {
    let v = make_v_structure();
    assert_eq!(conditional_independence::all_separated_pairs(&v, &[]), vec![(0, 1)]);
    assert_eq!(conditional_independence::all_separated_pairs(&v, &[2]), Vec::<(usize, usize)>::new());
    let t = make_tree();
    let pairs = conditional_independence::all_separated_pairs(&t, &[0]);
    // The ball starts upwards at the first node, so a conditioned start node sends it nowhere.
    assert_eq!(pairs[0], (0, 1));
    assert!(pairs.contains(&(1, 2)));
    assert!(pairs.contains(&(3, 6)));
    assert!(!pairs.contains(&(1, 3)));
}

#[test]
fn combinations_in_lexicographic_order() {
    assert_eq!(
        conditional_independence::combinations(&[1, 2, 3], 2),
        vec![vec![1, 2], vec![1, 3], vec![2, 3]]
    );
    assert_eq!(conditional_independence::combinations(&[5, 6], 0), vec![Vec::<usize>::new()]);
    assert_eq!(conditional_independence::combinations(&[5, 6], 3), Vec::<Vec<usize>>::new());
    assert_eq!(boundary::combinations(&[4, 5, 6, 7], 4), vec![vec![4, 5, 6, 7]]);
}

#[test]
fn combinations_follow_positions_not_values() {
    assert_eq!(
        conditional_independence::combinations(&[9, 9, 1], 2),
        vec![vec![9, 9], vec![9, 1], vec![9, 1]]
    );
    let arr: Vec<usize> = (0..5).collect();
    let cs = conditional_independence::combinations(&arr, 3);
    for w in cs.windows(2) {
        assert!(w[0] < w[1]);
    }
}

#[test]
fn combinations_count_is_binomial() {
    let arr: Vec<usize> = (0..6).collect();
    let expected = [1usize, 6, 15, 20, 15, 6, 1, 0];
    for k in 0..8 {
        let cs = conditional_independence::combinations(&arr, k);
        assert_eq!(cs.len(), expected[k]);
        for c in &cs {
            assert_eq!(c.len(), k);
        }
    }
}

// ── Boundary ──

#[test]
fn test_boundary_creation() {
    let g = make_chain();
    let b = AgentBoundary::from_internal(&g, &[2]);
    assert!(b.is_internal(2));
    assert!(b.is_boundary(1));
    assert!(b.is_boundary(3));
}

#[test]
fn test_boundary_external() {
    let g = make_chain();
    let b = AgentBoundary::from_internal(&g, &[2]);
    assert!(b.is_external(0));
    assert!(b.is_external(4));
}

#[test]
fn test_boundary_size() {
    let g = make_chain();
    let b = AgentBoundary::from_internal(&g, &[2]);
    assert_eq!(b.size(), 2);
}

#[test]
fn test_optimal_boundary() {
    let g = make_chain();
    let b = boundary::optimal_boundary(&g, 1);
    assert!(!b.internal.is_empty());
}

#[test]
fn test_validate_boundary_valid() {
    let g = make_chain();
    let b = AgentBoundary::from_internal(&g, &[2]);
    assert!(boundary::validate_boundary(&b, &g));
}

#[test]
fn test_boundary_tree() {
    let g = make_tree();
    let b = AgentBoundary::from_internal(&g, &[0]);
    assert!(b.is_boundary(1));
    assert!(b.is_boundary(2));
}

#[test]
fn test_boundary_full_internal() {
    let mut g = Graph::new(3);
    g.add_directed_edge(0, 1);
    g.add_directed_edge(1, 2);
    let b = AgentBoundary::from_internal(&g, &[0, 1, 2]);
    assert!(b.blanket.is_empty());
    assert!(b.external.is_empty());
}

#[test]
fn boundary_parts_exactly() {
    let g = make_chain();
    let b = AgentBoundary::from_internal(&g, &[2]);
    assert_eq!(b.internal, vec![2]);
    assert_eq!(b.blanket, vec![1, 3]);
    assert_eq!(b.external, vec![0, 4]);
}

#[test]
fn boundary_partitions_the_nodes() {
    let g = make_tree();
    for internal in [vec![0], vec![1, 5], vec![3, 4, 6], vec![]] {
        let b = AgentBoundary::from_internal(&g, &internal);
        for n in 0..7 {
            let parts = [b.is_internal(n), b.is_boundary(n), b.is_external(n)];
            assert_eq!(parts.iter().filter(|p| **p).count(), 1);
        }
        assert!(boundary::validate_boundary(&b, &g));
    }
}

#[test]
fn optimal_boundary_picks_first_smallest_blanket() {
    let g = make_chain();
    let b = boundary::optimal_boundary(&g, 1);
    assert_eq!(b.internal, vec![0]);
    assert_eq!(b.blanket, vec![1]);
    assert_eq!(b.external, vec![2, 3, 4]);
    let all = boundary::optimal_boundary(&g, 10);
    assert_eq!(all.internal, vec![0, 1, 2, 3, 4]);
    assert!(all.blanket.is_empty());
}

#[test]
fn optimal_boundary_without_candidates_uses_node_zero() {
    let g = make_chain();
    let b = boundary::optimal_boundary(&g, 0);
    assert_eq!(b.internal, vec![0]);
    assert_eq!(b.blanket, vec![1]);
    let empty = Graph::new(0);
    let e = boundary::optimal_boundary(&empty, 3);
    assert_eq!(e.internal, vec![0]);
    assert!(e.blanket.is_empty());
    assert!(e.external.is_empty());
}

#[test]
fn validate_boundary_rejects_an_edge_to_the_outside() {
    let g = make_chain();
    let b = AgentBoundary { internal: vec![2], blanket: vec![1], external: vec![3] };
    assert!(!boundary::validate_boundary(&b, &g));
    let back = AgentBoundary { internal: vec![2], blanket: vec![3], external: vec![1] };
    assert!(!boundary::validate_boundary(&back, &g));
}

// ── Permeability ──

#[test]
fn test_information_flow_direct() {
    let g = make_chain();
    let f = flow(&g, &unit_weights(&g), 0, 1);
    assert_eq!(f, 1.0);
}

#[test]
fn test_information_flow_multi_hop() {
    let g = make_chain();
    let f = flow(&g, &unit_weights(&g), 0, 4);
    assert!(f > 0.0);
}

#[test]
fn test_information_flow_no_path() {
    let mut g = Graph::new(3);
    g.add_directed_edge(0, 1);
    let f = flow(&g, &unit_weights(&g), 2, 0);
    assert_eq!(f, 0.0);
}

#[test]
fn test_mutual_information() {
    let mut bg = Graph::new(3);
    bg.add_directed_edge(0, 1);
    bg.add_directed_edge(1, 0);
    let weights = [0.5, 0.5];
    let mi2 = flow(&bg, &weights, 0, 1) * flow(&bg, &weights, 1, 0);
    assert!(mi2 > 0.0);
}

#[test]
fn flow_paths_are_all_simple_paths_by_edge() {
    let g = make_diamond();
    assert_eq!(permeability::information_flow_paths(&g, 0, 3), vec![vec![0, 2], vec![1, 3]]);
    assert_eq!(permeability::information_flow_paths(&g, 3, 3), vec![Vec::<usize>::new()]);
    assert_eq!(permeability::information_flow_paths(&g, 3, 0), Vec::<Vec<usize>>::new());
    let weights = [0.5, 0.25, 2.0, 4.0];
    assert_eq!(flow(&g, &weights, 0, 3), 0.5 * 2.0 + 0.25 * 4.0);
    assert_eq!(flow(&g, &unit_weights(&g), 0, 3), 2.0);
}

#[test]
fn flow_counts_paths_that_share_a_suffix() {
    let mut g5 = Graph::new(5);
    g5.add_directed_edge(0, 1);
    g5.add_directed_edge(0, 2);
    g5.add_directed_edge(1, 3);
    g5.add_directed_edge(2, 3);
    g5.add_directed_edge(3, 4);
    assert_eq!(permeability::information_flow_paths(&g5, 0, 4), vec![vec![0, 2, 4], vec![1, 3, 4]]);
    assert_eq!(flow(&g5, &unit_weights(&g5), 0, 4), 2.0);
}

#[test]
fn parallel_edges_give_separate_flow_paths() {
    let mut g = Graph::new(2);
    g.add_directed_edge(0, 1);
    g.add_directed_edge(0, 1);
    assert_eq!(permeability::information_flow_paths(&g, 0, 1), vec![vec![0], vec![1]]);
    assert_eq!(flow(&g, &[0.5, 0.25], 0, 1), 0.75);
}

#[test]
fn flow_paths_follow_the_simple_paths() {
    for g in [make_chain(), make_tree(), make_diamond(), make_v_structure()] {
        let n = g.node_count();
        for a in 0..n {
            for b in 0..n {
                let flows = permeability::information_flow_paths(&g, a, b);
                let paths = permeability::find_paths(&g, a, b);
                assert_eq!(flows.len(), paths.len());
                for (f, p) in flows.iter().zip(paths.iter()) {
                    let mut walk = vec![a];
                    for &e in f {
                        walk.push(g.edges[e].to);
                    }
                    assert_eq!(&walk, p);
                }
            }
        }
    }
}

#[test]
fn reachability_ignores_edges_out_of_the_graph() {
    let mut g = Graph::new(3);
    g.add_directed_edge(0, 2);
    g.add_directed_edge(0, 1);
    g.add_directed_edge(2, 7);
    assert!(permeability::can_reach(&g, 0, 1));
    assert!(permeability::can_reach(&g, 0, 7));
    assert!(!permeability::can_reach(&g, 7, 0));
}

#[test]
fn flow_paths_exist_exactly_when_reachable() {
    for g in [make_chain(), make_tree(), make_diamond(), make_v_structure()] {
        let n = g.node_count();
        for a in 0..n {
            for b in 0..n {
                let paths = permeability::information_flow_paths(&g, a, b);
                assert_eq!(!paths.is_empty(), permeability::can_reach(&g, a, b));
            }
        }
    }
}

#[test]
fn test_can_reach() {
    let g = make_chain();
    assert!(permeability::can_reach(&g, 0, 4));
    assert!(!permeability::can_reach(&g, 4, 0));
}

#[test]
fn reachability_is_reflexive_and_transitive() {
    let g = make_tree();
    for a in 0..7 {
        assert!(permeability::can_reach(&g, a, a));
    }
    assert!(permeability::can_reach(&g, 0, 1) && permeability::can_reach(&g, 1, 4));
    assert!(permeability::can_reach(&g, 0, 4));
    assert!(!permeability::can_reach(&g, 1, 6));
    // A target outside the graph is reached only from itself.
    assert!(permeability::can_reach(&g, 9, 9));
}

#[test]
fn test_find_paths() {
    let g = make_chain();
    let paths = permeability::find_paths(&g, 0, 4);
    assert_eq!(paths.len(), 1);
    assert_eq!(paths[0], vec![0, 1, 2, 3, 4]);
}

#[test]
fn test_find_paths_diamond() {
    let g = make_diamond();
    let paths = permeability::find_paths(&g, 0, 3);
    assert_eq!(paths.len(), 2);
}

#[test]
fn simple_paths_appear_once_without_parallel_edges() {
    let mut g = Graph::new(4);
    g.add_directed_edge(0, 1);
    g.add_directed_edge(1, 2);
    g.add_directed_edge(0, 2);
    g.add_directed_edge(2, 3);
    g.add_directed_edge(1, 3);
    let paths = permeability::find_paths(&g, 0, 3);
    assert_eq!(paths, vec![vec![0, 1, 2, 3], vec![0, 1, 3], vec![0, 2, 3]]);
    let mut par = Graph::new(2);
    par.add_directed_edge(0, 1);
    par.add_directed_edge(0, 1);
    assert_eq!(permeability::find_paths(&par, 0, 1), vec![vec![0, 1], vec![0, 1]]);
}

#[test]
fn simple_paths_in_edge_order_and_stop_at_target() {
    let g = make_diamond();
    assert_eq!(permeability::find_paths(&g, 0, 3), vec![vec![0, 1, 3], vec![0, 2, 3]]);
    assert_eq!(permeability::find_paths(&g, 2, 2), vec![vec![2]]);
    assert_eq!(permeability::find_paths(&g, 3, 0), Vec::<Vec<usize>>::new());
    let mut cyc = Graph::new(3);
    cyc.add_directed_edge(0, 1);
    cyc.add_directed_edge(1, 0);
    cyc.add_directed_edge(1, 2);
    cyc.add_directed_edge(2, 1);
    assert_eq!(permeability::find_paths(&cyc, 0, 2), vec![vec![0, 1, 2]]);
    assert_eq!(permeability::find_paths(&cyc, 0, 1), vec![vec![0, 1]]);
}

// ── Inference ──

#[test]
fn test_belief_state_new() {
    let bs: BeliefState<Vec<f64>> = BeliefState::new();
    assert!(bs.beliefs.is_empty());
}

#[test]
fn test_belief_set_get() {
    let mut bs = BeliefState::new();
    bs.set_belief(0, vec![0.4, 0.6]);
    assert_eq!(bs.get_belief(0), Some(&vec![0.4_f64, 0.6_f64]));
}

#[test]
fn belief_read_after_write() {
    let mut bs = BeliefState::new();
    bs.set_belief(3, vec![0.5, 0.5]);
    bs.set_belief(1, vec![0.1, 0.9]);
    bs.set_belief(3, vec![0.2, 0.8]);
    assert_eq!(bs.get_belief(3), Some(&vec![0.2, 0.8]));
    assert_eq!(bs.get_belief(1), Some(&vec![0.1, 0.9]));
    assert_eq!(bs.get_belief(7), None);
    assert_eq!(bs.beliefs.len(), 2);
    assert_eq!(bs.beliefs[0].0, 3);
}
