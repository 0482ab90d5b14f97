use spectral_clustering::method::ClusterMethod;
use spectral_clustering::partition::{group_labels, kmeans_shortcut, label_counts, membership, trivial_clustering};
use spectral_clustering::silhouette::{node_labels, silhouette_spreads};

#[test]
fn method_names() {
    assert_eq!(ClusterMethod::from_name("normalized"), Some(ClusterMethod::Normalized));
    assert_eq!(ClusterMethod::from_name("unnormalized"), Some(ClusterMethod::Unnormalized));
    assert_eq!(ClusterMethod::from_name("modularity"), Some(ClusterMethod::Modularity));
    assert_eq!(ClusterMethod::from_name("Normalized"), None);
    assert_eq!(ClusterMethod::from_name("normalize"), None);
    assert_eq!(ClusterMethod::from_name(""), None);
    assert_eq!(ClusterMethod::from_name("ratio"), None);
}

#[test]
fn group_labels_gives_one_cluster_per_label() {
    let labels = vec![2, 0, 2, 0, 3, 2];
    let clusters = group_labels(&labels, 5);
    assert_eq!(clusters, vec![vec![1, 3], vec![], vec![0, 2, 5], vec![4], vec![]]);
}

#[test]
fn group_labels_keeps_unused_labels() {
    // two centroids that coincide leave label 2 unused: still 3 clusters
    let clusters = group_labels(&vec![0, 0, 1, 1], 3);
    assert_eq!(clusters.len(), 3);
    assert_eq!(clusters, vec![vec![0, 1], vec![2, 3], vec![]]);
    assert_eq!(clusters.iter().map(|c| c.len()).sum::<usize>(), 4);
}

#[test]
fn group_labels_is_a_partition() {
    let labels = vec![1, 1, 0, 1, 0, 0, 1, 1, 0, 1, 0, 0, 1, 0, 1, 0];
    let clusters = group_labels(&labels, 2);
    assert_eq!(clusters.len(), 2);
    assert_eq!(clusters.iter().map(|c| c.len()).sum::<usize>(), 16);
    let mut seen = vec![0; 16];
    for c in &clusters {
        assert!(!c.is_empty());
        for &x in c {
            seen[x] += 1;
        }
    }
    assert!(seen.iter().all(|&s| s == 1));
}

#[test]
fn group_labels_of_nothing() {
    assert_eq!(group_labels(&vec![], 3), vec![Vec::<usize>::new(); 3]);
}

#[test]
fn single_cluster_holds_every_node() {
    let c = trivial_clustering(10, 1).unwrap();
    assert_eq!(c.len(), 1);
    assert_eq!(c[0].len(), 10);
    assert_eq!(c[0], (0..10).collect::<Vec<_>>());
    assert!(trivial_clustering(10, 2).is_none());
}

#[test]
fn kmeans_shortcuts() {
    // no points
    assert_eq!(kmeans_shortcut(3, 4), Some(vec![]));
    // one cluster
    assert_eq!(kmeans_shortcut(5, 1), Some(vec![0, 0, 0, 0, 0]));
    // no more points than clusters: 6 coordinates in rows of 3 -> 2 points
    assert_eq!(kmeans_shortcut(6, 3), Some(vec![0, 1]));
    assert_eq!(kmeans_shortcut(9, 3), Some(vec![0, 1, 2]));
    // enough points to iterate
    assert_eq!(kmeans_shortcut(16 * 2, 2), None);
}

#[test]
fn membership_marks_listed_nodes() {
    let inside = membership(6, &vec![4, 1, 1, 9]);
    assert_eq!(inside, vec![false, true, false, false, true, false]);
    assert_eq!(membership(3, &vec![]), vec![false, false, false]);
}

#[test]
fn node_labels_last_cluster_wins() {
    let partition = vec![vec![0, 1], vec![1, 2], vec![]];
    let labels = node_labels(4, &partition);
    assert_eq!(labels, vec![0, 1, 1, 0]);
}

#[test]
fn silhouette_spreads_of_two_groups() {
    // path 0 - 1 - 2 - 3, clusters {0, 1} and {2, 3}
    let n = 4;
    let dist = vec![
        0, 1, 2, 3, //
        1, 0, 1, 2, //
        2, 1, 0, 1, //
        3, 2, 1, 0,
    ];
    let partition = vec![vec![0, 1], vec![2, 3], vec![]];
    let s = silhouette_spreads(n, &dist, &partition);
    assert_eq!(s.len(), 4);
    assert_eq!((s[0].own_sum, s[0].own_count), (1, 1));
    assert_eq!(s[0].others, vec![(5, 2)]);
    assert_eq!((s[1].own_sum, s[1].own_count), (1, 1));
    assert_eq!(s[1].others, vec![(3, 2)]);
    assert_eq!((s[2].own_sum, s[2].own_count), (1, 1));
    assert_eq!(s[2].others, vec![(3, 2)]);
    assert_eq!(s[3].others, vec![(5, 2)]);
}

#[test]
fn silhouette_spreads_of_unlisted_node() {
    // node 2 is in no cluster, so it counts as cluster 0
    let n = 3;
    let dist = vec![0, 1, 3, 1, 0, 3, 3, 3, 0];
    let partition = vec![vec![0], vec![1]];
    let s = silhouette_spreads(n, &dist, &partition);
    assert_eq!((s[2].own_sum, s[2].own_count), (3, 1));
    assert_eq!(s[2].others, vec![(3, 1)]);
    assert_eq!((s[0].own_sum, s[0].own_count), (0, 0));
    assert_eq!(s[0].others, vec![(1, 1)]);
}

#[test]
fn label_counts_per_label() {
    assert_eq!(label_counts(&vec![2, 0, 2, 0, 3, 2], 5), vec![2, 0, 3, 1, 0]);
    assert_eq!(label_counts(&vec![], 2), vec![0, 0]);
}
