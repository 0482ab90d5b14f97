use spectral_clustering::matrix::{accumulate_edges, square_side, Matrix};
use spectral_clustering::method::ClusterMethod;
use spectral_clustering::partition::{group_labels, trivial_clustering};

/// Two communities of `half` nodes each, every pair joined with weight
/// `p_in` inside a community and `p_out` across.
fn two_communities_adj(half: usize, p_in: f64, p_out: f64) -> Vec<f64> {
    let n = half * 2;
    let mut adj = vec![0.0; n * n];
    for i in 0..n {
        for j in (i + 1)..n {
            let same = (i < half) == (j < half);
            let w = if same { p_in } else { p_out };
            adj[i * n + j] = w;
            adj[j * n + i] = w;
        }
    }
    adj
}

#[test]
fn test_single_cluster() {
    let adj = two_communities_adj(5, 1.0, 1.0); // Complete graph
    let n = square_side(adj.len()).unwrap();
    let sym = Matrix::new(n, n, adj).mirror_average(|a: f64, b: f64| (a + b) / 2.0);
    assert_eq!(sym.rows, 10);
    assert_eq!(ClusterMethod::from_name("normalized"), Some(ClusterMethod::Normalized));
    let clusters = trivial_clustering(n, 1).unwrap();
    assert_eq!(clusters.len(), 1);
    assert_eq!(clusters[0].len(), 10);
}

#[test]
fn test_from_edges() {
    let edges = [(0, 1, 1.0), (1, 2, 1.0), (2, 3, 1.0), (0, 3, 1.0)];
    let adj = accumulate_edges(4, 0.0, &edges, |a: f64, w: f64| a + w);
    let n = square_side(adj.len()).unwrap();
    assert_eq!(n, 4);
    let sym = Matrix::new(n, n, adj).mirror_average(|a: f64, b: f64| (a + b) / 2.0);
    assert_eq!(sym.data, vec![0.0, 1.0, 0.0, 1.0, 1.0, 0.0, 1.0, 0.0, 0.0, 1.0, 0.0, 1.0, 1.0, 0.0, 1.0, 0.0]);
    // whatever labels k-means gives for k = 2, the clusters cover the 4 nodes
    let clusters = group_labels(&vec![0, 1, 0, 1], 2);
    assert_eq!(clusters.len(), 2);
    assert_eq!(clusters.iter().map(|c| c.len()).sum::<usize>(), 4);
}
