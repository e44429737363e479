use maze_graph::graph::{Graph, GraphError, Node};

/// Edges set before an `add_node` call keep their values afterwards, and all
/// cells involving the new node start absent.
#[test]
fn resize_preserves_edges() {
    let mut g: Graph<u32> = Graph::new();
    let a = g.add_node(10);
    let b = g.add_node(20);
    let c = g.add_node(30);
    assert_eq!((a, b, c), (0, 1, 2));
    g.set_mono_edge(0, 1, 7).unwrap();
    g.set_mono_edge(2, 0, -3).unwrap();
    g.set_bi_edge(1, 2, 5).unwrap();
    let d = g.add_node(40);
    assert_eq!(d, 3);
    assert_eq!(g.get_edge(0, 1).unwrap(), Some(7));
    assert_eq!(g.get_edge(1, 0).unwrap(), None);
    assert_eq!(g.get_edge(2, 0).unwrap(), Some(-3));
    assert_eq!(g.get_edge(1, 2).unwrap(), Some(5));
    assert_eq!(g.get_edge(2, 1).unwrap(), Some(5));
    for i in 0..4 {
        assert_eq!(g.get_edge(i, 3).unwrap(), None);
        assert_eq!(g.get_edge(3, i).unwrap(), None);
    }
    // Payloads survive the growth as well.
    assert_eq!(g.get_node(0).unwrap().element, 10);
    assert_eq!(g.get_node(3).unwrap().element, 40);
}

/// Growing several times in a row keeps a full matrix intact.
#[test]
fn resize_preserves_full_matrix() {
    let mut g: Graph<usize> = Graph::new();
    for i in 0..4 {
        g.add_node(i);
    }
    for u in 0..4usize {
        for v in 0..4usize {
            g.set_mono_edge(u, v, (u * 10 + v) as isize).unwrap();
        }
    }
    g.add_node(4);
    g.add_node(5);
    for u in 0..4usize {
        for v in 0..4usize {
            assert_eq!(g.get_edge(u, v).unwrap(), Some((u * 10 + v) as isize));
        }
    }
    for i in 0..6usize {
        assert_eq!(g.get_edge(i, 4).unwrap(), None);
        assert_eq!(g.get_edge(4, i).unwrap(), None);
        assert_eq!(g.get_edge(i, 5).unwrap(), None);
        assert_eq!(g.get_edge(5, i).unwrap(), None);
    }
}

/// `set_mono_edge` touches one direction only; `set_bi_edge` sets both.
#[test]
fn edge_directionality() {
    let mut g: Graph<()> = Graph::new();
    g.add_node(());
    g.add_node(());
    g.set_mono_edge(0, 1, 9).unwrap();
    assert_eq!(g.get_edge(0, 1).unwrap(), Some(9));
    assert_eq!(g.get_edge(1, 0).unwrap(), None);
    let mut h: Graph<()> = Graph::new();
    h.add_node(());
    h.add_node(());
    h.set_bi_edge(0, 1, 4).unwrap();
    assert_eq!(h.get_edge(0, 1).unwrap(), Some(4));
    assert_eq!(h.get_edge(1, 0).unwrap(), Some(4));
}

/// Every id-taking operation fails with `IndexOutOfRange` beyond the node
/// count, and a failing edge write changes nothing.
#[test]
fn out_of_range_ids_fail() {
    let mut g: Graph<u8> = Graph::new();
    g.add_node(1);
    assert_eq!(g.get_node(1).err(), Some(GraphError::IndexOutOfRange));
    assert_eq!(g.get_edge(0, 1), Err(GraphError::IndexOutOfRange));
    assert_eq!(g.get_edge(1, 0), Err(GraphError::IndexOutOfRange));
    assert_eq!(g.get_neighbors(1), Err(GraphError::IndexOutOfRange));
    assert_eq!(g.set_mono_edge(0, 1, 2), Err(GraphError::IndexOutOfRange));
    assert_eq!(g.set_bi_edge(1, 0, 2), Err(GraphError::IndexOutOfRange));
    assert_eq!(g.get_edge_amount(), 0);
    assert_eq!(g.get_node_amount(), 1);
    assert_eq!(g.get_edge(0, 0).unwrap(), None);
}

/// Neighbors are listed in ascending id order, present edges only.
#[test]
fn neighbors_ascending() {
    let mut g: Graph<u8> = Graph::new();
    for i in 0..5 {
        g.add_node(i);
    }
    g.set_mono_edge(2, 4, 0).unwrap();
    g.set_mono_edge(2, 0, 0).unwrap();
    g.set_mono_edge(2, 3, 0).unwrap();
    g.set_mono_edge(1, 2, 0).unwrap();
    assert_eq!(g.get_neighbors(2).unwrap(), vec![0, 3, 4]);
    assert_eq!(g.get_neighbors(0).unwrap(), Vec::<usize>::new());
    assert_eq!(g.get_neighbors(1).unwrap(), vec![2]);
}

/// The edge count is the number of present matrix entries, directions
/// counted separately.
#[test]
fn edge_amount_counts_entries() {
    let mut g: Graph<u8> = Graph::new();
    for i in 0..3 {
        g.add_node(i);
    }
    assert_eq!(g.get_edge_amount(), 0);
    g.set_mono_edge(0, 1, 1).unwrap();
    assert_eq!(g.get_edge_amount(), 1);
    g.set_bi_edge(1, 2, 1).unwrap();
    assert_eq!(g.get_edge_amount(), 3);
    // Overwriting a present entry adds nothing.
    g.set_mono_edge(0, 1, 8).unwrap();
    assert_eq!(g.get_edge_amount(), 3);
    // A self edge is one entry.
    g.set_mono_edge(2, 2, 0).unwrap();
    assert_eq!(g.get_edge_amount(), 4);
}

/// Both constructors give an empty graph.
#[test]
fn constructors_are_empty() {
    let g: Graph<u64> = Graph::new();
    assert_eq!(g.get_node_amount(), 0);
    assert_eq!(g.get_edge_amount(), 0);
    let h: Graph<u64> = Graph::new_pre_length(100);
    assert_eq!(h.get_node_amount(), 0);
    assert_eq!(h.get_edge_amount(), 0);
}

/// The visited marker starts unset and can be set; the payload stays.
#[test]
fn visited_marker() {
    let mut n = Node { element: 3u8, visited: false };
    assert!(!n.visited);
    n.set_visited();
    assert!(n.visited);
    assert_eq!(n.element, 3);
}
