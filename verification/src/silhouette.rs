//! The integer part of the silhouette score: which cluster each node belongs
//! to, and the sums and counts of hop distances from each node to its own
//! cluster and to every other cluster.
use vstd::prelude::*;
use crate::distances::cell;

verus! {

/// The clusters of a partition as sequences of node indices.
pub open spec fn parts_view(partition: Seq<Vec<usize>>) -> Seq<Seq<usize>> {
    partition.map_values(|c: Vec<usize>| c@)
}

/// The cluster index of node `x`: the last cluster that lists it, or 0 when
/// none does.
pub open spec fn label_of(parts: Seq<Seq<usize>>, x: int) -> int
    decreases parts.len(),
{
    if parts.len() == 0 {
        0
    } else if parts.last().contains(x as usize) {
        parts.len() - 1
    } else {
        label_of(parts.drop_last(), x)
    }
}

/// `nodes` with every occurrence of `i` left out.
pub open spec fn without(nodes: Seq<usize>, i: int) -> Seq<usize>
    decreases nodes.len(),
{
    if nodes.len() == 0 {
        seq![]
    } else {
        let rest = without(nodes.drop_last(), i);
        if nodes.last() == i {
            rest
        } else {
            rest.push(nodes.last())
        }
    }
}

/// The sum of the distances from node `i` to each listed node.
pub open spec fn row_sum(dist: Seq<usize>, n: int, i: int, nodes: Seq<usize>) -> int
    decreases nodes.len(),
{
    if nodes.len() == 0 {
        0
    } else {
        row_sum(dist, n, i, nodes.drop_last()) + cell(dist, n, i, nodes.last() as int)
    }
}

/// For every non-empty cluster other than cluster `ci`, in order, the sum of
/// the distances from node `i` to its members and the number of members.
pub open spec fn other_spreads(dist: Seq<usize>, n: int, i: int, parts: Seq<Seq<usize>>, ci: int) -> Seq<
    (int, int),
>
    decreases parts.len(),
{
    if parts.len() == 0 {
        seq![]
    } else {
        let rest = other_spreads(dist, n, i, parts.drop_last(), ci);
        if parts.len() - 1 == ci || parts.last().len() == 0 {
            rest
        } else {
            rest.push((row_sum(dist, n, i, parts.last()), parts.last().len() as int))
        }
    }
}

/// Sums and counts as mathematical integers.
pub open spec fn spreads_view(v: Seq<(u128, usize)>) -> Seq<(int, int)> {
    v.map_values(|s: (u128, usize)| (s.0 as int, s.1 as int))
}

/// The distance sums around one node.
pub struct NodeSpread {
    /// Sum of the distances to the other members of the node's own cluster.
    pub own_sum: u128,
    /// How many such members (entries of the cluster other than the node).
    pub own_count: usize,
    /// For each other non-empty cluster, in order: sum of distances, member count.
    pub others: Vec<(u128, usize)>,
}

/// `s` holds the distance sums around node `i`: over the other members of its
/// own cluster (`label_of`), and over every other non-empty cluster.
pub open spec fn spread_ok(dist: Seq<usize>, n: int, parts: Seq<Seq<usize>>, i: int, s: NodeSpread) -> bool {
    let ci = label_of(parts, i);
    let own = without(parts[ci], i);
    &&& 0 <= ci < parts.len()
    &&& s.own_sum == row_sum(dist, n, i, own)
    &&& s.own_count == own.len()
    &&& spreads_view(s.others@) == other_spreads(dist, n, i, parts, ci)
}

/// The cluster index of every node `0..n` (see `label_of`).
pub fn node_labels(n: usize, partition: &Vec<Vec<usize>>) -> (labels: Vec<usize>)
    requires
        forall|c: int, q: int|
            0 <= c < partition@.len() && 0 <= q < partition@[c]@.len() ==> #[trigger] partition@[c]@[q] < n,
    ensures
        labels@.len() == n,
        forall|x: int| 0 <= x < n ==> #[trigger] labels@[x] == label_of(parts_view(partition@), x),
{
    let ghost parts = parts_view(partition@);
    let mut labels: Vec<usize> = Vec::new();
    while labels.len() < n
        invariant
            labels@.len() <= n,
            forall|x: int| 0 <= x < labels@.len() ==> #[trigger] labels@[x] == 0,
        decreases n - labels@.len(),
    {
        labels.push(0);
    }
    let mut ci: usize = 0;
    while ci < partition.len()
        invariant
            0 <= ci <= partition@.len(),
            parts == parts_view(partition@),
            labels@.len() == n,
            forall|c: int, q: int|
                0 <= c < partition@.len() && 0 <= q < partition@[c]@.len() ==> #[trigger] partition@[c]@[q] < n,
            forall|x: int| 0 <= x < n ==> #[trigger] labels@[x] == label_of(parts.subrange(0, ci as int), x),
        decreases partition@.len() - ci,
    {
        let cluster = &partition[ci];
        let ghost prefix = parts.subrange(0, ci as int);
        let ghost next = parts.subrange(0, ci + 1);
        proof {
            assert(next.drop_last() =~= prefix);
            assert(next.last() == cluster@);
        }
        let mut p: usize = 0;
        while p < cluster.len()
            invariant
                0 <= p <= cluster@.len(),
                cluster@ == parts[ci as int],
                ci < partition@.len(),
                labels@.len() == n,
                forall|q: int| 0 <= q < cluster@.len() ==> #[trigger] cluster@[q] < n,
                forall|x: int|
                    0 <= x < n ==> #[trigger] labels@[x] == (if cluster@.subrange(0, p as int).contains(
                        x as usize,
                    ) {
                        ci as int
                    } else {
                        label_of(prefix, x)
                    }),
            decreases cluster@.len() - p,
        {
            let node = cluster[p];
            labels.set(node, ci);
            proof {
                let pre = cluster@.subrange(0, p as int);
                let post = cluster@.subrange(0, p + 1);
                assert(post =~= pre.push(node));
                assert forall|x: int| 0 <= x < n implies #[trigger] labels@[x] == (if post.contains(
                    x as usize,
                ) {
                    ci as int
                } else {
                    label_of(prefix, x)
                }) by {
                    if post.contains(x as usize) && x as usize != node {
                        let q = choose|q: int| 0 <= q < post.len() && post[q] == x as usize;
                        assert(pre[q] == x as usize);
                    }
                    if pre.contains(x as usize) {
                        let q = choose|q: int| 0 <= q < pre.len() && pre[q] == x as usize;
                        assert(post[q] == x as usize);
                    }
                    if x as usize == node {
                        assert(post[p as int] == node);
                    }
                }
            }
            p = p + 1;
        }
        proof {
            assert(cluster@.subrange(0, cluster@.len() as int) =~= cluster@);
        }
        ci = ci + 1;
    }
    proof {
        assert(parts.subrange(0, partition@.len() as int) =~= parts);
    }
    labels
}

/// Sum of the distances from node `i` to the listed nodes, and how many were
/// summed; with `skip_self`, entries equal to `i` are left out.
fn row_spread(n: usize, dist: &Vec<usize>, i: usize, nodes: &Vec<usize>, skip_self: bool) -> (res: (u128, usize))
    requires
        dist@.len() == n * n,
        i < n,
        forall|q: int| 0 <= q < nodes@.len() ==> #[trigger] nodes@[q] < n,
    ensures
        skip_self ==> res.0 == row_sum(dist@, n as int, i as int, without(nodes@, i as int)) && res.1
            == without(nodes@, i as int).len(),
        !skip_self ==> res.0 == row_sum(dist@, n as int, i as int, nodes@) && res.1 == nodes@.len(),
{
    let dlen = dist.len();
    let mut sum: u128 = 0;
    let mut count: usize = 0;
    let mut p: usize = 0;
    while p < nodes.len()
        invariant
            0 <= p <= nodes@.len(),
            dist@.len() == n * n,
            dlen == n * n,
            i < n,
            forall|q: int| 0 <= q < nodes@.len() ==> #[trigger] nodes@[q] < n,
            count <= p,
            sum <= count * 0xffff_ffff_ffff_ffffu128,
            skip_self ==> sum == row_sum(dist@, n as int, i as int, without(nodes@.subrange(0, p as int), i as int))
                && count == without(nodes@.subrange(0, p as int), i as int).len(),
            !skip_self ==> sum == row_sum(dist@, n as int, i as int, nodes@.subrange(0, p as int)) && count
                == p,
        decreases nodes@.len() - p,
    {
        let x = nodes[p];
        proof {
            let pre = nodes@.subrange(0, p as int);
            let post = nodes@.subrange(0, p + 1);
            assert(post.drop_last() =~= pre);
            assert(post.last() == x);
            assert(0 <= i * n + x < n * n) by (nonlinear_arith)
                requires
                    i < n,
                    x < n,
            ;
        }
        let ghost pre = nodes@.subrange(0, p as int);
        let ghost post = nodes@.subrange(0, p + 1);
        if !(skip_self && x == i) {
            let d = dist[i * n + x];
            proof {
                assert(count * 0xffff_ffff_ffff_ffffu128 + d <= (count + 1) * 0xffff_ffff_ffff_ffffu128)
                    by (nonlinear_arith)
                    requires
                        d <= 0xffff_ffff_ffff_ffffu128,
                ;
                assert((count + 1) * 0xffff_ffff_ffff_ffffu128 <= 0x1_0000_0000_0000_0000 * 0xffff_ffff_ffff_ffffu128)
                    by (nonlinear_arith)
                    requires
                        count + 1 <= 0x1_0000_0000_0000_0000,
                ;
            }
            sum = sum + d as u128;
            count = count + 1;
            proof {
                assert(d == cell(dist@, n as int, i as int, x as int));
                if skip_self {
                    assert(without(post, i as int) == without(pre, i as int).push(x));
                    assert(without(post, i as int).drop_last() =~= without(pre, i as int));
                } else {
                    assert(row_sum(dist@, n as int, i as int, post) == row_sum(dist@, n as int, i as int, pre) + d);
                }
            }
        } else {
            proof {
                assert(without(post, i as int) == without(pre, i as int));
            }
        }
        p = p + 1;
    }
    proof {
        assert(nodes@.subrange(0, nodes@.len() as int) =~= nodes@);
    }
    (sum, count)
}

/// For every node `0..n`: the distance sum and count over the other members of
/// its own cluster (its cluster index as `label_of` gives it), and over each
/// other non-empty cluster, from the hop distance table `dist`.
pub fn silhouette_spreads(n: usize, dist: &Vec<usize>, partition: &Vec<Vec<usize>>) -> (res: Vec<NodeSpread>)
    requires
        dist@.len() == n * n,
        partition@.len() >= 1,
        forall|c: int, q: int|
            0 <= c < partition@.len() && 0 <= q < partition@[c]@.len() ==> #[trigger] partition@[c]@[q] < n,
    ensures
        res@.len() == n,
        forall|i: int|
            0 <= i < n ==> #[trigger] spread_ok(dist@, n as int, parts_view(partition@), i, res@[i]),
{
    let ghost parts = parts_view(partition@);
    let labels = node_labels(n, partition);
    let mut res: Vec<NodeSpread> = Vec::new();
    let mut i: usize = 0;
    while i < n
        invariant
            0 <= i <= n,
            dist@.len() == n * n,
            partition@.len() >= 1,
            parts == parts_view(partition@),
            labels@.len() == n,
            forall|x: int| 0 <= x < n ==> #[trigger] labels@[x] == label_of(parts, x),
            forall|c: int, q: int|
                0 <= c < partition@.len() && 0 <= q < partition@[c]@.len() ==> #[trigger] partition@[c]@[q] < n,
            res@.len() == i,
            forall|i2: int|
                0 <= i2 < i ==> #[trigger] spread_ok(dist@, n as int, parts, i2, res@[i2]),
        decreases n - i,
    {
        let ci = labels[i];
        proof {
            lemma_label_in_range(parts, i as int);
        }
        let (own_sum, own_count) = row_spread(n, dist, i, &partition[ci], true);
        let mut others: Vec<(u128, usize)> = Vec::new();
        let mut cj: usize = 0;
        while cj < partition.len()
            invariant
                0 <= cj <= partition@.len(),
                i < n,
                dist@.len() == n * n,
                parts == parts_view(partition@),
                forall|c: int, q: int|
                    0 <= c < partition@.len() && 0 <= q < partition@[c]@.len() ==> #[trigger] partition@[c]@[q]
                        < n,
                spreads_view(others@) == other_spreads(
                    dist@,
                    n as int,
                    i as int,
                    parts.subrange(0, cj as int),
                    ci as int,
                ),
            decreases partition@.len() - cj,
        {
            proof {
                let next = parts.subrange(0, cj + 1);
                assert(next.drop_last() =~= parts.subrange(0, cj as int));
                assert(next.last() == partition@[cj as int]@);
            }
            if cj != ci && partition[cj].len() > 0 {
                let s = row_spread(n, dist, i, &partition[cj], false);
                let ghost before = others@;
                others.push(s);
                proof {
                    assert(spreads_view(others@) =~= spreads_view(before).push((s.0 as int, s.1 as int)));
                }
            }
            cj = cj + 1;
        }
        proof {
            assert(parts.subrange(0, partition@.len() as int) =~= parts);
        }
        let ghost before = res@;
        res.push(NodeSpread { own_sum, own_count, others });
        proof {
            assert(parts[ci as int] == partition@[ci as int]@);
            assert forall|i2: int|
                0 <= i2 < i + 1 implies #[trigger] spread_ok(dist@, n as int, parts, i2, res@[i2]) by {
                if i2 < i {
                    assert(res@[i2] == before[i2]);
                } else {
                    lemma_label_in_range(parts, i2);
                    assert(label_of(parts, i2) == ci as int);
                    assert(res@[i2].own_sum == own_sum);
                    assert(own_sum == row_sum(dist@, n as int, i2, without(parts[ci as int], i2)));
                    assert(res@[i2].own_count == own_count);
                    assert(res@[i2].others@ == others@);
                    assert(spreads_view(others@) == other_spreads(dist@, n as int, i2, parts, ci as int));
                }
            }
        }
        i = i + 1;
    }
    res
}

proof fn lemma_label_in_range(parts: Seq<Seq<usize>>, x: int)
    requires
        parts.len() >= 1,
    ensures
        0 <= label_of(parts, x) < parts.len(),
    decreases parts.len(),
{
    if parts.len() > 1 {
        lemma_label_in_range(parts.drop_last(), x);
    } else {
        assert(label_of(parts.drop_last(), x) == 0);
    }
}

/// Law: `row_sum` adds one distance per listed node: nothing for no node, the
/// node's distance for one node, and the two sums for two lists put together.
pub proof fn lemma_row_sum_adds(dist: Seq<usize>, n: int, i: int, s1: Seq<usize>, s2: Seq<usize>)
    ensures
        row_sum(dist, n, i, Seq::<usize>::empty()) == 0,
        forall|x: usize| #[trigger] row_sum(dist, n, i, seq![x]) == cell(dist, n, i, x as int),
        row_sum(dist, n, i, s1 + s2) == row_sum(dist, n, i, s1) + row_sum(dist, n, i, s2),
    decreases s2.len(),
{
    assert forall|x: usize| #[trigger] row_sum(dist, n, i, seq![x]) == cell(dist, n, i, x as int) by {
        let s = seq![x];
        assert(s.len() == 1);
        assert(s.last() == x);
        assert(s.drop_last() =~= Seq::<usize>::empty());
        assert(row_sum(dist, n, i, s.drop_last()) == 0);
    }
    if s2.len() == 0 {
        assert(s1 + s2 =~= s1);
    } else {
        lemma_row_sum_adds(dist, n, i, s1, s2.drop_last());
        assert((s1 + s2).drop_last() =~= s1 + s2.drop_last());
        assert((s1 + s2).last() == s2.last());
    }
}

/// Law: `without(nodes, i)` keeps, in order, every listed node other than `i`:
/// it drops a lone `i`, keeps any other lone node, and works piece by piece.
pub proof fn lemma_without_keeps_others(s1: Seq<usize>, s2: Seq<usize>, i: int)
    ensures
        without(Seq::<usize>::empty(), i) == Seq::<usize>::empty(),
        forall|x: usize| #[trigger] without(seq![x], i) == (if x == i {
            Seq::<usize>::empty()
        } else {
            seq![x]
        }),
        without(s1 + s2, i) == without(s1, i) + without(s2, i),
    decreases s2.len(),
{
    assert forall|x: usize| #[trigger] without(seq![x], i) == (if x == i {
        Seq::<usize>::empty()
    } else {
        seq![x]
    }) by {
        let s = seq![x];
        assert(s.len() == 1);
        assert(s.last() == x);
        assert(s.drop_last() =~= Seq::<usize>::empty());
        assert(without(s.drop_last(), i) == Seq::<usize>::empty());
        assert(Seq::<usize>::empty().push(x) =~= seq![x]);
    }
    if s2.len() == 0 {
        assert(s1 + s2 =~= s1);
        assert(without(s1, i) + without(s2, i) =~= without(s1, i));
    } else {
        lemma_without_keeps_others(s1, s2.drop_last(), i);
        assert((s1 + s2).drop_last() =~= s1 + s2.drop_last());
        assert((s1 + s2).last() == s2.last());
        if s2.last() == i {
        } else {
            assert(without(s1, i) + without(s2.drop_last(), i).push(s2.last()) =~= (without(s1, i)
                + without(s2.drop_last(), i)).push(s2.last()));
        }
    }
}

/// Law: the cluster a node is assigned to lists it whenever any cluster does,
/// and no later cluster lists it; a node that no cluster lists gets cluster 0.
pub proof fn lemma_label_of_lists_node(parts: Seq<Seq<usize>>, x: usize)
    ensures
        (exists|c: int| 0 <= c < parts.len() && #[trigger] parts[c].contains(x)) ==> {
            let l = label_of(parts, x as int);
            &&& 0 <= l < parts.len()
            &&& parts[l].contains(x)
            &&& forall|c: int| l < c < parts.len() ==> !#[trigger] parts[c].contains(x)
        },
        !(exists|c: int| 0 <= c < parts.len() && #[trigger] parts[c].contains(x)) ==> label_of(
            parts,
            x as int,
        ) == 0,
    decreases parts.len(),
{
    if parts.len() > 0 {
        let pre = parts.drop_last();
        lemma_label_of_lists_node(pre, x);
        assert forall|c: int| 0 <= c < pre.len() implies #[trigger] pre[c] == parts[c] by {}
        if parts.last().contains(x) {
            assert(label_of(parts, x as int) == parts.len() - 1);
        } else {
            assert(label_of(parts, x as int) == label_of(pre, x as int));
            if exists|c: int| 0 <= c < parts.len() && #[trigger] parts[c].contains(x) {
                let c = choose|c: int| 0 <= c < parts.len() && #[trigger] parts[c].contains(x);
                assert(c < parts.len() - 1);
                assert(pre[c].contains(x));
                let l = label_of(pre, x as int);
                assert(parts[l] == pre[l]);
                assert forall|c2: int| l < c2 < parts.len() implies !#[trigger] parts[c2].contains(x) by {
                    if c2 < pre.len() {
                        assert(!pre[c2].contains(x));
                    }
                }
            } else {
                assert forall|c: int| 0 <= c < pre.len() implies !#[trigger] pre[c].contains(x) by {
                    assert(!parts[c].contains(x));
                }
            }
        }
    }
}

/// Law: the other-cluster spreads of node `i` correspond one for one, in
/// cluster order, to the non-empty clusters other than cluster `ci`: `idx`
/// lists those clusters, increasing, and entry `q` is the distance sum and
/// size of cluster `idx[q]`; every such cluster is listed.
pub proof fn lemma_other_spreads_cover(dist: Seq<usize>, n: int, i: int, parts: Seq<Seq<usize>>, ci: int) -> (idx:
    Seq<int>)
    ensures
        idx.len() == other_spreads(dist, n, i, parts, ci).len(),
        forall|p: int, q: int| 0 <= p < q < idx.len() ==> #[trigger] idx[p] < #[trigger] idx[q],
        forall|q: int|
            0 <= q < idx.len() ==> {
                let c = #[trigger] idx[q];
                &&& 0 <= c < parts.len()
                &&& c != ci
                &&& parts[c].len() > 0
                &&& other_spreads(dist, n, i, parts, ci)[q] == (row_sum(dist, n, i, parts[c]), parts[c].len() as int)
            },
        forall|c: int|
            0 <= c < parts.len() && c != ci && #[trigger] parts[c].len() > 0 ==> idx.contains(c),
    decreases parts.len(),
{
    if parts.len() == 0 {
        Seq::<int>::empty()
    } else {
        let pre = parts.drop_last();
        let c0 = parts.len() - 1;
        let prev = lemma_other_spreads_cover(dist, n, i, pre, ci);
        assert forall|c: int| 0 <= c < pre.len() implies #[trigger] pre[c] == parts[c] by {}
        if c0 == ci || parts.last().len() == 0 {
            assert forall|c: int| 0 <= c < parts.len() && c != ci && #[trigger] parts[c].len() > 0 implies prev.contains(
                c,
            ) by {
                assert(pre[c].len() > 0);
            }
            assert forall|q: int| 0 <= q < prev.len() implies {
                let c = #[trigger] prev[q];
                &&& 0 <= c < parts.len()
                &&& c != ci
                &&& parts[c].len() > 0
                &&& other_spreads(dist, n, i, parts, ci)[q] == (row_sum(dist, n, i, parts[c]), parts[c].len() as int)
            } by {
                let c = prev[q];
                assert(pre[c] == parts[c]);
            }
            prev
        } else {
            let idx = prev.push(c0);
            let o = other_spreads(dist, n, i, parts, ci);
            assert(o == other_spreads(dist, n, i, pre, ci).push((row_sum(dist, n, i, parts.last()), parts.last().len() as int)));
            assert forall|p: int, q: int| 0 <= p < q < idx.len() implies #[trigger] idx[p] < #[trigger] idx[q] by {
                if q < prev.len() {
                    assert(prev[p] < prev[q]);
                } else {
                    let c = prev[p];
                    assert(0 <= c < pre.len());
                }
            }
            assert forall|q: int| 0 <= q < idx.len() implies {
                let c = #[trigger] idx[q];
                &&& 0 <= c < parts.len()
                &&& c != ci
                &&& parts[c].len() > 0
                &&& o[q] == (row_sum(dist, n, i, parts[c]), parts[c].len() as int)
            } by {
                if q < prev.len() {
                    let c = prev[q];
                    assert(idx[q] == c);
                    assert(pre[c] == parts[c]);
                }
            }
            assert forall|c: int| 0 <= c < parts.len() && c != ci && #[trigger] parts[c].len() > 0 implies idx.contains(
                c,
            ) by {
                if c < c0 {
                    assert(pre[c].len() > 0);
                    let q = choose|q: int| 0 <= q < prev.len() && prev[q] == c;
                    assert(idx[q] == c);
                } else {
                    assert(idx[prev.len() as int] == c);
                }
            }
            idx
        }
    }
}

} // verus!
