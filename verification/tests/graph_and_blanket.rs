use lib::blanket;
use lib::Graph;

fn make_chain() -> Graph {
    let mut g = Graph::new(5);
    g.add_directed_edge(0, 1);
    g.add_directed_edge(1, 2);
    g.add_directed_edge(2, 3);
    g.add_directed_edge(3, 4);
    g
}

fn make_tree() -> Graph {
    let mut g = Graph::new(7);
    g.add_directed_edge(0, 1);
    g.add_directed_edge(0, 2);
    g.add_directed_edge(1, 3);
    g.add_directed_edge(1, 4);
    g.add_directed_edge(2, 5);
    g.add_directed_edge(2, 6);
    g
}

fn make_v_structure() -> Graph {
    let mut g = Graph::new(3);
    g.add_directed_edge(0, 2);
    g.add_directed_edge(1, 2);
    g
}

fn make_diamond() -> Graph {
    let mut g = Graph::new(4);
    g.add_directed_edge(0, 1);
    g.add_directed_edge(0, 2);
    g.add_directed_edge(1, 3);
    g.add_directed_edge(2, 3);
    g
}

// ── Graph ──

#[test]
fn test_graph_creation() {
    let g = Graph::new(3);
    assert_eq!(g.node_count(), 3);
    assert_eq!(g.edges.len(), 0);
}

#[test]
fn test_parents() {
    let g = make_chain();
    assert_eq!(g.parents(2), vec![1]);
    assert_eq!(g.parents(0), vec![]);
}

#[test]
fn test_children() {
    let g = make_chain();
    assert_eq!(g.children(0), vec![1]);
    assert_eq!(g.children(4), vec![]);
}

#[test]
fn test_neighbors() {
    let g = make_chain();
    let n = g.neighbors(2);
    assert!(n.contains(&1));
    assert!(n.contains(&3));
}

#[test]
fn test_has_edge() {
    let g = make_chain();
    assert!(g.has_edge(0, 1));
    assert!(!g.has_edge(1, 0));
}

#[test]
fn graph_new_lists_its_nodes_in_order() {
    let g = Graph::new(4);
    assert_eq!(g.nodes, vec![0, 1, 2, 3]);
    assert_eq!(Graph::new(0).nodes, Vec::<usize>::new());
}

#[test]
fn added_edge_is_found_and_others_kept() {
    let mut g = make_chain();
    assert!(!g.has_edge(4, 0));
    g.add_directed_edge(4, 0);
    assert!(g.has_edge(4, 0));
    assert!(g.has_edge(0, 1));
    assert_eq!(g.edges.len(), 5);
    assert_eq!(g.node_count(), 5);
}

#[test]
fn parents_and_children_keep_edge_order_and_repeats() {
    let mut g = Graph::new(4);
    g.add_directed_edge(3, 1);
    g.add_directed_edge(0, 1);
    g.add_directed_edge(3, 1);
    assert_eq!(g.parents(1), vec![3, 0, 3]);
    assert_eq!(g.children(3), vec![1, 1]);
}

#[test]
fn neighbors_are_sorted_without_repeats() {
    let mut g = Graph::new(6);
    g.add_directed_edge(5, 2);
    g.add_directed_edge(2, 0);
    g.add_directed_edge(5, 2);
    g.add_directed_edge(2, 4);
    g.add_directed_edge(0, 2);
    assert_eq!(g.neighbors(2), vec![0, 4, 5]);
    assert_eq!(g.neighbors(1), Vec::<usize>::new());
}

#[test]
fn parent_child_duality() {
    let g = make_tree();
    for x in 0..7 {
        for y in 0..7 {
            assert_eq!(g.parents(y).contains(&x), g.children(x).contains(&y));
        }
    }
}

// ── Blanket ──

#[test]
fn test_blanket_chain_middle() {
    let g = make_chain();
    let b = blanket::markov_blanket(&g, 2);
    assert!(b.contains(&1));
    assert!(b.contains(&3));
}

#[test]
fn test_blanket_chain_end() {
    let g = make_chain();
    let b = blanket::markov_blanket(&g, 0);
    assert_eq!(b, vec![1]);
}

#[test]
fn test_blanket_tree_root() {
    let g = make_tree();
    let b = blanket::markov_blanket(&g, 0);
    assert!(b.contains(&1));
    assert!(b.contains(&2));
}

#[test]
fn test_blanket_tree_leaf() {
    let g = make_tree();
    let b = blanket::markov_blanket(&g, 3);
    assert!(b.contains(&1));
}

#[test]
fn test_blanket_v_structure() {
    let g = make_v_structure();
    let b = blanket::markov_blanket(&g, 2);
    assert!(b.contains(&0));
    assert!(b.contains(&1));
}

#[test]
fn test_blanket_set() {
    let g = make_chain();
    let b = blanket::markov_blanket_set(&g, &[1, 3]);
    assert!(b.contains(&0));
    assert!(b.contains(&2));
    assert!(b.contains(&4));
}

#[test]
fn test_is_in_blanket() {
    let g = make_chain();
    assert!(blanket::is_in_blanket(&g, 2, 1));
    assert!(!blanket::is_in_blanket(&g, 2, 0));
}

#[test]
fn test_blanket_size() {
    let g = make_v_structure();
    assert_eq!(blanket::blanket_size(&g, 2), 2);
}

#[test]
fn test_blanket_diamond() {
    let g = make_diamond();
    let b = blanket::markov_blanket(&g, 3);
    assert!(b.contains(&1));
    assert!(b.contains(&2));
}

#[test]
fn test_blanket_single_node() {
    let g = Graph::new(1);
    let b = blanket::markov_blanket(&g, 0);
    assert!(b.is_empty());
}

#[test]
fn blanket_holds_parents_children_and_co_parents() {
    let g = make_v_structure();
    assert_eq!(blanket::markov_blanket(&g, 0), vec![1, 2]);
    assert_eq!(blanket::markov_blanket(&g, 2), vec![0, 1]);
    let d = make_diamond();
    assert_eq!(blanket::markov_blanket(&d, 1), vec![0, 2, 3]);
    assert_eq!(blanket::markov_blanket(&d, 3), vec![1, 2]);
}

#[test]
fn blanket_of_tree_leaf_is_its_parent() {
    let g = make_tree();
    assert_eq!(blanket::markov_blanket(&g, 3), vec![1]);
    assert_eq!(blanket::blanket_size(&g, 0), 2);
}

#[test]
fn blanket_is_symmetric() {
    for g in [make_chain(), make_tree(), make_v_structure(), make_diamond()] {
        let n = g.node_count();
        for a in 0..n {
            for b in 0..n {
                assert_eq!(blanket::is_in_blanket(&g, a, b), blanket::is_in_blanket(&g, b, a));
            }
        }
    }
}

#[test]
fn node_is_outside_its_blanket_unless_self_loop() {
    let mut g = make_chain();
    assert!(!blanket::is_in_blanket(&g, 2, 2));
    g.add_directed_edge(2, 2);
    assert!(blanket::is_in_blanket(&g, 2, 2));
    assert_eq!(blanket::markov_blanket(&g, 2), vec![1, 2, 3]);
}

#[test]
fn blanket_of_single_node_set_is_its_blanket() {
    for g in [make_chain(), make_tree(), make_diamond()] {
        for n in 0..g.node_count() {
            assert_eq!(blanket::markov_blanket_set(&g, &[n]), blanket::markov_blanket(&g, n));
        }
    }
}

#[test]
fn blanket_set_excludes_internal_nodes_and_is_sorted() {
    let g = make_tree();
    assert_eq!(blanket::markov_blanket_set(&g, &[4, 1]), vec![0, 3]);
    assert_eq!(blanket::markov_blanket_set(&g, &[]), Vec::<usize>::new());
}

#[test]
fn blanket_check_always_holds() {
    for g in [make_chain(), make_tree(), make_v_structure(), make_diamond(), Graph::new(1)] {
        for n in 0..g.node_count() {
            assert!(blanket::verify_blanket(&g, n));
        }
    }
}
