use graph_layout::graph::Graph;
use graph_layout::spectral::{
    bisect, fiedler_column, is_negative, normalized_laplacian, partition_from_eigen,
    partition_slots, LaplacianEntry, Side, Slot, SpectralError,
};
use nalgebra::{DMatrix, SymmetricEigen};

fn bits(v: &[f32]) -> Vec<u32> {
    v.iter().map(|x| x.to_bits()).collect()
}

fn value(e: &LaplacianEntry) -> f32 {
    (e.num as f64 / (e.den as f64).sqrt()) as f32
}

#[test]
fn regular_triangle_laplacian_has_unit_diagonal() {
    let g = Graph::from_matrix(vec![vec![0, 1, 1], vec![1, 0, 1], vec![1, 1, 0]]).unwrap();
    let l = normalized_laplacian(&g).unwrap();
    for i in 0..3 {
        for j in 0..3 {
            if i == j {
                assert_eq!(l[i][j], LaplacianEntry { num: 2, den: 4 });
                assert_eq!(value(&l[i][j]), 1.0);
            } else {
                assert_eq!(l[i][j], LaplacianEntry { num: -1, den: 4 });
                assert_eq!(value(&l[i][j]), -0.5);
            }
        }
    }
}

#[test]
fn weighted_laplacian_entries_are_exact() {
    let g = Graph::from_matrix(vec![vec![0, 3], vec![3, 1]]).unwrap();
    let l = normalized_laplacian(&g).unwrap();
    assert_eq!(l[0][0], LaplacianEntry { num: 3, den: 9 });
    assert_eq!(l[0][1], LaplacianEntry { num: -3, den: 12 });
    assert_eq!(l[1][1], LaplacianEntry { num: 3, den: 16 });
}

#[test]
fn isolated_vertex_is_degenerate() {
    let g = Graph::from_matrix(vec![vec![0, 1, 0], vec![1, 0, 0], vec![0, 0, 0]]).unwrap();
    assert_eq!(normalized_laplacian(&g).err(), Some(SpectralError::DegenerateVertex(2)));
}

#[test]
fn negativity_follows_float_comparison() {
    assert!(is_negative((-1.0f32).to_bits()));
    assert!(is_negative(f32::NEG_INFINITY.to_bits()));
    assert!(is_negative((-1e-30f32).to_bits()));
    assert!(!is_negative(0.0f32.to_bits()));
    assert!(!is_negative((-0.0f32).to_bits()));
    assert!(!is_negative(f32::NAN.to_bits()));
    assert!(!is_negative((-f32::NAN).to_bits()));
    assert!(!is_negative(2.5f32.to_bits()));
}

#[test]
fn zero_fiedler_entry_goes_to_second_group() {
    let sides = bisect(&bits(&[-0.5, 0.0, 0.25, -0.0]));
    assert_eq!(sides, vec![Side::First, Side::Second, Side::Second, Side::Second]);
}

#[test]
fn fiedler_column_is_second_smallest() {
    assert_eq!(fiedler_column(&bits(&[0.5, 0.0, 1.5, 0.7])), Ok(0));
    assert_eq!(fiedler_column(&bits(&[-2.0, 3.0, -1.0])), Ok(2));
    assert_eq!(fiedler_column(&bits(&[0.0, -0.0])), Ok(1));
}

#[test]
fn fiedler_column_breaks_ties_by_index() {
    assert_eq!(fiedler_column(&bits(&[1.0, 0.0, 1.0])), Ok(0));
    assert_eq!(fiedler_column(&bits(&[0.0, 0.0, 0.0])), Ok(1));
    assert_eq!(fiedler_column(&bits(&[2.0, 1.0, 1.0])), Ok(2));
}

#[test]
fn fiedler_column_errors() {
    assert_eq!(fiedler_column(&bits(&[1.0])), Err(SpectralError::TooFewVertices));
    assert_eq!(fiedler_column(&vec![]), Err(SpectralError::TooFewVertices));
    assert_eq!(fiedler_column(&bits(&[1.0, f32::NAN])), Err(SpectralError::Eigendecomposition));
}

#[test]
fn slots_rank_vertices_within_their_side() {
    let s = partition_slots(&vec![Side::Second, Side::First, Side::Second, Side::Second, Side::First]);
    assert_eq!(
        s,
        vec![
            Slot { side: Side::Second, rank: 0, count: 3 },
            Slot { side: Side::First, rank: 0, count: 2 },
            Slot { side: Side::Second, rank: 1, count: 3 },
            Slot { side: Side::Second, rank: 2, count: 3 },
            Slot { side: Side::First, rank: 1, count: 2 },
        ]
    );
}

#[test]
fn partition_takes_the_column_of_the_second_eigenvalue() {
    let values = bits(&[1.0, 0.0, 0.5]);
    let vectors = vec![bits(&[1.0, 1.0]), bits(&[1.0, -1.0]), bits(&[-1.0, 0.0])];
    assert_eq!(partition_from_eigen(&values, &vectors), Ok(vec![Side::First, Side::Second]));
}

#[test]
fn bridged_triangles_fall_into_different_groups() {
    let mut adj = vec![vec![0u32; 6]; 6];
    for &(a, b) in &[(0, 1), (1, 2), (0, 2), (3, 4), (4, 5), (3, 5), (2, 3)] {
        adj[a][b] = 1;
        adj[b][a] = 1;
    }
    let g = Graph::from_matrix(adj).unwrap();
    let l = normalized_laplacian(&g).unwrap();
    let m = DMatrix::from_fn(6, 6, |i, j| value(&l[i][j]));
    let eig = SymmetricEigen::new(m);
    let values: Vec<u32> = eig.eigenvalues.iter().map(|v| v.to_bits()).collect();
    let vectors: Vec<Vec<u32>> = (0..6)
        .map(|c| eig.eigenvectors.column(c).iter().map(|v| v.to_bits()).collect())
        .collect();
    let sides = partition_from_eigen(&values, &vectors).unwrap();
    assert_eq!(sides[0], sides[1]);
    assert_eq!(sides[1], sides[2]);
    assert_eq!(sides[3], sides[4]);
    assert_eq!(sides[4], sides[5]);
    assert_ne!(sides[0], sides[3]);
}

#[test]
fn exact_zero_entry_of_a_path_graph_goes_to_second_group() {
    // Path 0 - 1 - 2: normalized Laplacian eigenvalues 0, 1, 2; the
    // eigenvector of 1 is (1, 0, -1) / sqrt 2, exactly zero at the middle.
    let g = Graph::from_adjacency_list(&vec![vec![1], vec![0, 2], vec![1]]).unwrap();
    let l = normalized_laplacian(&g).unwrap();
    assert_eq!(l[1][1], LaplacianEntry { num: 2, den: 4 });
    assert_eq!(l[0][1], LaplacianEntry { num: -1, den: 2 });
    let h = std::f32::consts::FRAC_1_SQRT_2;
    let values = bits(&[2.0, 0.0, 1.0]);
    let vectors = vec![bits(&[0.5, -h, 0.5]), bits(&[0.5, h, 0.5]), bits(&[h, 0.0, -h])];
    assert_eq!(
        partition_from_eigen(&values, &vectors),
        Ok(vec![Side::Second, Side::Second, Side::First])
    );
}

#[test]
fn partition_errors_come_from_the_eigenvalues() {
    assert_eq!(partition_from_eigen(&bits(&[0.0]), &vec![bits(&[1.0])]), Err(SpectralError::TooFewVertices));
    let vectors = vec![bits(&[1.0, 0.0]), bits(&[0.0, 1.0])];
    assert_eq!(partition_from_eigen(&bits(&[f32::NAN, 0.0]), &vectors), Err(SpectralError::Eigendecomposition));
}
