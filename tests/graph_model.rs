use graph_layout::graph::{Edge, Graph, GraphError};

fn triangle() -> Graph {
    Graph::from_matrix(vec![vec![0, 1, 1], vec![1, 0, 1], vec![1, 1, 0]]).unwrap()
}

#[test]
fn ragged_matrix_is_refused() {
    let r = Graph::from_matrix(vec![vec![0, 1], vec![1]]);
    assert_eq!(r.err(), Some(GraphError::RaggedRow(1)));
}

#[test]
fn empty_matrix_is_an_empty_graph() {
    let g = Graph::from_matrix(vec![]).unwrap();
    assert_eq!(g.num_vertices(), 0);
    assert!(g.edges().is_empty());
}

#[test]
fn adjacency_lists_become_a_zero_one_matrix() {
    let g = Graph::from_adjacency_list(&vec![vec![1, 2], vec![0], vec![0, 0]]).unwrap();
    assert_eq!(g.adj, vec![vec![0, 1, 1], vec![1, 0, 0], vec![1, 0, 0]]);
    assert!(g.is_symmetric());
}

#[test]
fn one_sided_adjacency_list_is_refused() {
    let r = Graph::from_adjacency_list(&vec![vec![1], vec![], vec![]]);
    assert_eq!(r.err(), Some(GraphError::Asymmetric(0, 1)));
    let r = Graph::from_adjacency_list(&vec![vec![], vec![], vec![1]]);
    assert_eq!(r.err(), Some(GraphError::Asymmetric(2, 1)));
}

#[test]
fn out_of_range_adjacency_list_is_refused() {
    let r = Graph::from_adjacency_list(&vec![vec![1], vec![0, 5]]);
    assert_eq!(r.err(), Some(GraphError::IndexOutOfRange(5)));
}

#[test]
fn asymmetric_matrix_is_reported() {
    let g = Graph::from_matrix(vec![vec![0, 2], vec![1, 0]]).unwrap();
    assert!(!g.is_symmetric());
    assert_eq!(g.find_asymmetry(), Some((0, 1)));
}

#[test]
fn degree_is_the_row_sum() {
    let g = Graph::from_matrix(vec![vec![0, 3, 4], vec![3, 0, 0], vec![4, 0, 0]]).unwrap();
    assert_eq!(g.degree(0), 7);
    assert_eq!(g.degree(1), 3);
    let big = Graph::from_matrix(vec![vec![u32::MAX, u32::MAX], vec![0, 0]]).unwrap();
    assert_eq!(big.degree(0), 2 * u32::MAX as u64);
}

#[test]
fn edges_follow_row_major_order_in_both_directions() {
    let e = triangle().edges();
    let pairs: Vec<(usize, usize)> = e.iter().map(|e| (e.start, e.end)).collect();
    assert_eq!(pairs, vec![(0, 1), (0, 2), (1, 0), (1, 2), (2, 0), (2, 1)]);
}

#[test]
fn diagonal_and_zero_entries_give_no_edge() {
    let g = Graph::from_matrix(vec![vec![5, 0], vec![7, 9]]).unwrap();
    assert_eq!(g.edges(), vec![Edge { start: 1, end: 0 }]);
}
