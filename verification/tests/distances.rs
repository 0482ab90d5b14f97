use spectral_clustering::distances::compute_distances;

fn links(n: usize, edges: &[(usize, usize)]) -> Vec<bool> {
    let mut l = vec![false; n * n];
    for &(i, j) in edges {
        l[i * n + j] = true;
        l[j * n + i] = true;
    }
    l
}

#[test]
fn path_graph_hop_counts() {
    // 0 - 1 - 2 - 3
    let l = links(4, &[(0, 1), (1, 2), (2, 3)]);
    let d = compute_distances(4, &l);
    let expected = vec![
        0, 1, 2, 3, //
        1, 0, 1, 2, //
        2, 1, 0, 1, //
        3, 2, 1, 0,
    ];
    assert_eq!(d, expected);
}

#[test]
fn cycle_takes_the_short_way_round() {
    // 0 - 1 - 2 - 3 - 4 - 0
    let l = links(5, &[(0, 1), (1, 2), (2, 3), (3, 4), (4, 0)]);
    let d = compute_distances(5, &l);
    assert_eq!(d[0 * 5 + 2], 2);
    assert_eq!(d[0 * 5 + 3], 2);
    assert_eq!(d[1 * 5 + 4], 2);
    assert_eq!(d[0 * 5 + 4], 1);
}

#[test]
fn unreachable_pairs_get_n() {
    // two components: {0, 1} and {2}
    let l = links(3, &[(0, 1)]);
    let d = compute_distances(3, &l);
    assert_eq!(d[0 * 3 + 2], 3);
    assert_eq!(d[2 * 3 + 1], 3);
    assert_eq!(d[0 * 3 + 1], 1);
    assert_eq!(d[2 * 3 + 2], 0);
}

#[test]
fn self_loop_gives_one_on_the_diagonal() {
    let mut l = links(2, &[(0, 1)]);
    l[0] = true;
    let d = compute_distances(2, &l);
    assert_eq!(d, vec![1, 1, 1, 0]);
}

#[test]
fn complete_graph_with_self_loops() {
    let n = 8;
    let l = vec![true; n * n];
    let d = compute_distances(n, &l);
    for i in 0..n {
        for j in 0..n {
            assert_eq!(d[i * n + j], 1);
        }
    }
}

#[test]
fn distances_are_symmetric_and_obey_triangle() {
    let l = links(6, &[(0, 1), (1, 2), (2, 3), (1, 4), (4, 5), (5, 3)]);
    let n = 6;
    let d = compute_distances(n, &l);
    for i in 0..n {
        for j in 0..n {
            assert_eq!(d[i * n + j], d[j * n + i]);
            for k in 0..n {
                if i != j && j != k {
                    assert!(d[i * n + k] <= d[i * n + j] + d[j * n + k]);
                }
            }
        }
    }
    assert_eq!(d[0 * n + 3], 3);
    assert_eq!(d[0 * n + 5], 3);
}

#[test]
fn directed_links_are_followed_one_way() {
    // 0 -> 1 -> 2 only
    let n = 3;
    let mut l = vec![false; n * n];
    l[0 * n + 1] = true;
    l[1 * n + 2] = true;
    let d = compute_distances(n, &l);
    assert_eq!(d[0 * n + 2], 2);
    assert_eq!(d[2 * n + 0], 3);
}

#[test]
fn empty_graph() {
    let d = compute_distances(0, &vec![]);
    assert!(d.is_empty());
}
