//! Turning per-node cluster labels into clusters of node indices, and the
//! integer bookkeeping around a partition.
use vstd::prelude::*;

verus! {

/// The positions of `labels` that hold label `c`, in increasing order.
pub open spec fn members(labels: Seq<usize>, c: int) -> Seq<usize>
    decreases labels.len(),
{
    if labels.len() == 0 {
        seq![]
    } else {
        let rest = members(labels.drop_last(), c);
        if labels.last() == c {
            rest.push((labels.len() - 1) as usize)
        } else {
            rest
        }
    }
}

/// The clusters of `labels` over the labels `0..k`: cluster `c` lists, in
/// increasing order, the positions that hold label `c` (empty where none does).
pub open spec fn clusters_of(labels: Seq<usize>, k: int) -> Seq<Seq<usize>> {
    Seq::new(k as nat, |c: int| members(labels, c))
}

/// The number of positions in all the given clusters together.
pub open spec fn total_len(groups: Seq<Seq<usize>>) -> int
    decreases groups.len(),
{
    if groups.len() == 0 {
        0
    } else {
        total_len(groups.drop_last()) + groups.last().len()
    }
}

/// How many positions hold a label below `k`.
spec fn count_below(labels: Seq<usize>, k: int) -> int
    decreases k,
{
    if k <= 0 {
        0
    } else {
        count_below(labels, k - 1) + members(labels, k - 1).len()
    }
}

proof fn lemma_members_push(labels: Seq<usize>, x: usize, c: int)
    ensures
        members(labels.push(x), c) == (if x == c {
            members(labels, c).push(labels.len() as usize)
        } else {
            members(labels, c)
        }),
{
    assert(labels.push(x).drop_last() =~= labels);
}

/// Membership in `members`: exactly the positions holding the label.
pub proof fn lemma_members_contains(labels: Seq<usize>, c: int, x: int)
    requires
        labels.len() <= usize::MAX,
        0 <= x <= usize::MAX,
    ensures
        members(labels, c).contains(x as usize) <==> (x < labels.len() && labels[x] == c),
    decreases labels.len(),
{
    if labels.len() > 0 {
        let l = labels.drop_last();
        lemma_members_contains(l, c, x);
        let m = members(labels, c);
        let ml = members(l, c);
        if labels.last() == c {
            assert(m == ml.push((labels.len() - 1) as usize));
            if x < labels.len() && labels[x] == c {
                if x == labels.len() - 1 {
                    assert(m[m.len() - 1] == x as usize);
                } else {
                    assert(l[x] == c);
                    let p = choose|p: int| 0 <= p < ml.len() && ml[p] == x as usize;
                    assert(m[p] == x as usize);
                }
            }
            if m.contains(x as usize) {
                let p = choose|p: int| 0 <= p < m.len() && m[p] == x as usize;
                if p < ml.len() {
                    assert(ml[p] == x as usize);
                    assert(ml.contains(x as usize));
                }
            }
        } else {
            assert(m == ml);
            if x < labels.len() && labels[x] == c {
                assert(x != labels.len() - 1);
                assert(l[x] == c);
            }
        }
    }
}

/// `members` lists positions in strictly increasing order, all in range.
pub proof fn lemma_members_sorted(labels: Seq<usize>, c: int)
    requires
        labels.len() <= usize::MAX,
    ensures
        forall|p: int, q: int|
            0 <= p < q < members(labels, c).len() ==> #[trigger] members(labels, c)[p] < #[trigger] members(
                labels,
                c,
            )[q],
        forall|p: int| 0 <= p < members(labels, c).len() ==> #[trigger] members(labels, c)[p] < labels.len(),
    decreases labels.len(),
{
    if labels.len() > 0 {
        let l = labels.drop_last();
        lemma_members_sorted(l, c);
        let m = members(labels, c);
        let ml = members(l, c);
        if labels.last() == c {
            assert(m == ml.push((labels.len() - 1) as usize));
            assert forall|p: int| 0 <= p < m.len() implies #[trigger] m[p] < labels.len() by {
                if p < ml.len() {
                    assert(ml[p] < l.len());
                }
            }
            assert forall|p: int, q: int| 0 <= p < q < m.len() implies #[trigger] m[p] < #[trigger] m[q] by {
                if q < ml.len() {
                    assert(ml[p] < ml[q]);
                } else {
                    assert(ml[p] < l.len());
                }
            }
        } else {
            assert(m == ml);
            assert forall|p: int| 0 <= p < m.len() implies #[trigger] m[p] < labels.len() by {
                assert(ml[p] < l.len());
            }
        }
    }
}

proof fn lemma_count_push(labels: Seq<usize>, x: usize, k: int)
    ensures
        count_below(labels.push(x), k) == count_below(labels, k) + (if 0 <= x < k {
            1int
        } else {
            0int
        }),
    decreases k,
{
    if k > 0 {
        lemma_count_push(labels, x, k - 1);
        lemma_members_push(labels, x, k - 1);
    }
}

proof fn lemma_count_all(labels: Seq<usize>, k: int)
    requires
        forall|i: int| 0 <= i < labels.len() ==> labels[i] < k,
    ensures
        count_below(labels, k) == labels.len(),
    decreases labels.len(),
{
    if labels.len() == 0 {
        lemma_count_empty(labels, k);
    } else {
        let l = labels.drop_last();
        lemma_count_all(l, k);
        assert(l.push(labels.last()) =~= labels);
        lemma_count_push(l, labels.last(), k);
    }
}

proof fn lemma_count_empty(labels: Seq<usize>, k: int)
    requires
        labels.len() == 0,
    ensures
        count_below(labels, k) == 0,
    decreases k,
{
    if k > 0 {
        lemma_count_empty(labels, k - 1);
    }
}

proof fn lemma_total_used(labels: Seq<usize>, k: int)
    requires
        0 <= k,
    ensures
        total_len(clusters_of(labels, k)) == count_below(labels, k),
    decreases k,
{
    if k > 0 {
        lemma_total_used(labels, k - 1);
        assert(clusters_of(labels, k).drop_last() =~= clusters_of(labels, k - 1));
    }
}

/// Law: the clusters partition the positions. There are exactly `k`
/// clusters; cluster `c` holds exactly the positions whose label is `c`, in
/// increasing order; so every position lies in exactly one cluster, that of
/// its label, and the cluster sizes add up to the number of positions.
pub proof fn lemma_clusters_partition(labels: Seq<usize>, k: int)
    requires
        labels.len() <= usize::MAX,
        0 <= k <= usize::MAX,
        forall|i: int| 0 <= i < labels.len() ==> labels[i] < k,
    ensures
        clusters_of(labels, k).len() == k,
        forall|c: int, x: int|
            0 <= c < k && 0 <= x <= usize::MAX ==> (#[trigger] clusters_of(labels, k)[c].contains(
                x as usize,
            ) <==> (x < labels.len() && labels[x] == c)),
        forall|x: int| 0 <= x < labels.len() ==> clusters_of(labels, k)[#[trigger] labels[x] as int].contains(
            x as usize,
        ),
        total_len(clusters_of(labels, k)) == labels.len(),
        forall|c: int, p: int, q: int|
            0 <= c < k && 0 <= p < q < clusters_of(labels, k)[c].len() ==> #[trigger] clusters_of(
                labels,
                k,
            )[c][p] < #[trigger] clusters_of(labels, k)[c][q],
{
    lemma_total_used(labels, k);
    lemma_count_all(labels, k);
    assert forall|c: int, x: int| 0 <= c < k && 0 <= x <= usize::MAX implies (#[trigger] clusters_of(
        labels,
        k,
    )[c].contains(x as usize) <==> (x < labels.len() && labels[x] == c)) by {
        lemma_members_contains(labels, c, x);
    }
    assert forall|x: int| 0 <= x < labels.len() implies clusters_of(
        labels,
        k,
    )[#[trigger] labels[x] as int].contains(x as usize) by {
        lemma_members_contains(labels, labels[x] as int, x);
    }
    assert forall|c: int, p: int, q: int|
        0 <= c < k && 0 <= p < q < clusters_of(labels, k)[c].len() implies #[trigger] clusters_of(
        labels,
        k,
    )[c][p] < #[trigger] clusters_of(labels, k)[c][q] by {
        lemma_members_sorted(labels, c);
    }
}

/// Groups positions by label: one cluster per label `0..k`, in label order,
/// each the increasing list of positions holding that label (empty where no
/// position does).
pub fn group_labels(labels: &Vec<usize>, k: usize) -> (clusters: Vec<Vec<usize>>)
    requires
        forall|i: int| 0 <= i < labels@.len() ==> labels@[i] < k,
    ensures
        clusters@.len() == k,
        forall|c: int| 0 <= c < k ==> #[trigger] clusters@[c]@ == members(labels@, c),
{
    let n = labels.len();
    let mut clusters: Vec<Vec<usize>> = Vec::new();
    let mut c: usize = 0;
    while c < k
        invariant
            0 <= c <= k,
            n == labels@.len(),
            clusters@.len() == c,
            forall|g: int| 0 <= g < c ==> #[trigger] clusters@[g]@ == members(labels@, g),
        decreases k - c,
    {
        let mut cur: Vec<usize> = Vec::new();
        let mut i: usize = 0;
        while i < n
            invariant
                0 <= i <= n,
                n == labels@.len(),
                cur@ == members(labels@.subrange(0, i as int), c as int),
            decreases n - i,
        {
            proof {
                assert(labels@.subrange(0, i + 1).drop_last() =~= labels@.subrange(0, i as int));
            }
            if labels[i] == c {
                cur.push(i);
            }
            i = i + 1;
        }
        proof {
            assert(labels@.subrange(0, n as int) =~= labels@);
        }
        clusters.push(cur);
        c = c + 1;
    }
    clusters
}

/// The labels k-means starts from when there is nothing to iterate on, for
/// `len` coordinates in rows of `k`: no label for no point, label 0 for every
/// point when there is one cluster, and one cluster per point when there are
/// no more points than clusters. `None` when the full iteration is needed.
pub fn kmeans_shortcut(len: usize, k: usize) -> (res: Option<Vec<usize>>)
    requires
        k > 0,
    ensures
        ({
            let n = len / k;
            if n == 0 {
                res matches Some(v) && v@.len() == 0
            } else if k == 1 {
                res matches Some(v) && v@ == Seq::new(n as nat, |i: int| 0usize)
            } else if n <= k {
                res matches Some(v) && v@ == Seq::new(n as nat, |i: int| i as usize)
            } else {
                res is None
            }
        }),
{
    let n = len / k;
    if n == 0 {
        return Some(Vec::new());
    }
    if k == 1 {
        let mut v: Vec<usize> = Vec::new();
        while v.len() < n
            invariant
                v@.len() <= n,
                forall|q: int| 0 <= q < v@.len() ==> v@[q] == 0usize,
            decreases n - v@.len(),
        {
            v.push(0);
        }
        assert(v@ =~= Seq::new(n as nat, |i: int| 0usize));
        return Some(v);
    }
    if n <= k {
        let mut v: Vec<usize> = Vec::new();
        let mut i: usize = 0;
        while i < n
            invariant
                0 <= i <= n,
                v@.len() == i,
                forall|q: int| 0 <= q < i ==> v@[q] == q as usize,
            decreases n - i,
        {
            v.push(i);
            i = i + 1;
        }
        assert(v@ =~= Seq::new(n as nat, |i: int| i as usize));
        return Some(v);
    }
    None
}

/// The clustering that needs no embedding: for `k == 1`, one cluster of all
/// nodes `0..n` in order; otherwise `None`.
pub fn trivial_clustering(n: usize, k: usize) -> (res: Option<Vec<Vec<usize>>>)
    requires
        1 <= k <= n,
    ensures
        k == 1 ==> (res matches Some(cs) && cs@.len() == 1 && cs@[0]@ == Seq::new(
            n as nat,
            |i: int| i as usize,
        )),
        k != 1 ==> res is None,
{
    if k != 1 {
        return None;
    }
    let mut all: Vec<usize> = Vec::new();
    let mut i: usize = 0;
    while i < n
        invariant
            0 <= i <= n,
            all@.len() == i,
            forall|q: int| 0 <= q < i ==> all@[q] == q as usize,
        decreases n - i,
    {
        all.push(i);
        i = i + 1;
    }
    assert(all@ =~= Seq::new(n as nat, |i: int| i as usize));
    let mut cs: Vec<Vec<usize>> = Vec::new();
    cs.push(all);
    Some(cs)
}

/// For each node `0..n`, whether `cluster` lists it.
pub fn membership(n: usize, cluster: &Vec<usize>) -> (inside: Vec<bool>)
    ensures
        inside@.len() == n,
        forall|j: int| 0 <= j < n ==> #[trigger] inside@[j] == cluster@.contains(j as usize),
{
    let mut inside: Vec<bool> = Vec::new();
    while inside.len() < n
        invariant
            inside@.len() <= n,
            forall|j: int| 0 <= j < inside@.len() ==> !#[trigger] inside@[j],
        decreases n - inside@.len(),
    {
        inside.push(false);
    }
    let mut p: usize = 0;
    while p < cluster.len()
        invariant
            0 <= p <= cluster@.len(),
            inside@.len() == n,
            forall|j: int|
                0 <= j < n ==> #[trigger] inside@[j] == cluster@.subrange(0, p as int).contains(
                    j as usize,
                ),
        decreases cluster@.len() - p,
    {
        let x = cluster[p];
        if x < n {
            inside.set(x, true);
        }
        proof {
            let pre = cluster@.subrange(0, p as int);
            let post = cluster@.subrange(0, p + 1);
            assert(post =~= pre.push(x));
            assert forall|j: int| 0 <= j < n implies #[trigger] inside@[j] == post.contains(j as usize) by {
                if post.contains(j as usize) && j as usize != x {
                    let q = choose|q: int| 0 <= q < post.len() && post[q] == j as usize;
                    assert(pre[q] == j as usize);
                }
                if pre.contains(j as usize) {
                    let q = choose|q: int| 0 <= q < pre.len() && pre[q] == j as usize;
                    assert(post[q] == j as usize);
                }
                if j as usize == x {
                    assert(post[p as int] == x);
                }
            }
        }
        p = p + 1;
    }
    assert(cluster@.subrange(0, cluster@.len() as int) =~= cluster@);
    inside
}

/// How many positions hold each label `0..k`.
pub fn label_counts(labels: &Vec<usize>, k: usize) -> (counts: Vec<usize>)
    requires
        forall|i: int| 0 <= i < labels@.len() ==> labels@[i] < k,
    ensures
        counts@.len() == k,
        forall|c: int| 0 <= c < k ==> #[trigger] counts@[c] == members(labels@, c).len(),
{
    let mut counts: Vec<usize> = Vec::new();
    while counts.len() < k
        invariant
            counts@.len() <= k,
            forall|c: int| 0 <= c < counts@.len() ==> #[trigger] counts@[c] == 0,
        decreases k - counts@.len(),
    {
        counts.push(0);
    }
    let mut i: usize = 0;
    while i < labels.len()
        invariant
            0 <= i <= labels@.len(),
            counts@.len() == k,
            forall|q: int| 0 <= q < labels@.len() ==> labels@[q] < k,
            forall|c: int| 0 <= c < k ==> #[trigger] counts@[c] == members(labels@.subrange(0, i as int), c).len(),
        decreases labels@.len() - i,
    {
        let c = labels[i];
        proof {
            let pre = labels@.subrange(0, i as int);
            let post = labels@.subrange(0, i + 1);
            assert(post.drop_last() =~= pre);
            lemma_members_len(pre, c as int);
        }
        counts.set(c, counts[c] + 1);
        i = i + 1;
    }
    proof {
        assert(labels@.subrange(0, labels@.len() as int) =~= labels@);
    }
    counts
}

proof fn lemma_members_len(labels: Seq<usize>, c: int)
    ensures
        members(labels, c).len() <= labels.len(),
    decreases labels.len(),
{
    if labels.len() > 0 {
        lemma_members_len(labels.drop_last(), c);
    }
}

} // verus!
