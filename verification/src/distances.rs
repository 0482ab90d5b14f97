//! All-pairs hop distances (Floyd-Warshall) over the graph whose edges are the
//! strictly positive adjacency weights.
use vstd::prelude::*;
use vstd::set_lib::*;

verus! {

/// Entry `(i, j)` of an `n`-by-`n` table stored row-major in `s`.
pub open spec fn cell<T>(s: Seq<T>, n: int, i: int, j: int) -> T {
    s[i * n + j]
}

/// The step from position `p` to position `p + 1` of `w` follows an edge.
pub open spec fn step_linked(linked: Seq<bool>, n: int, w: Seq<int>, p: int) -> bool {
    cell(linked, n, w[p], w[p + 1])
}

/// `w` is a walk from `i` to `j` over the vertices `0..n`, each step along an
/// edge of `linked` (row-major `n`-by-`n`).
pub open spec fn is_walk(linked: Seq<bool>, n: int, w: Seq<int>, i: int, j: int) -> bool {
    &&& w.len() >= 1
    &&& w[0] == i
    &&& w[w.len() - 1] == j
    &&& forall|p: int| 0 <= p < w.len() ==> 0 <= #[trigger] w[p] < n
    &&& forall|p: int| 0 <= p < w.len() - 1 ==> #[trigger] step_linked(linked, n, w, p)
}

/// The number of edges a walk takes.
pub open spec fn hops(w: Seq<int>) -> int {
    w.len() - 1
}

/// Some walk leads from `i` to `j`.
pub open spec fn connected(linked: Seq<bool>, n: int, i: int, j: int) -> bool {
    exists|w: Seq<int>| #[trigger] is_walk(linked, n, w, i, j)
}

/// `d` is the hop distance from `i` to `j`: for `i != j`, the fewest edges of
/// any walk from `i` to `j`, or `n` when there is no such walk; on the
/// diagonal, 1 where the vertex has an edge to itself and 0 otherwise.
pub open spec fn is_hop_distance(linked: Seq<bool>, n: int, i: int, j: int, d: int) -> bool {
    if i == j {
        d == (if cell(linked, n, i, i) {
            1int
        } else {
            0int
        })
    } else if connected(linked, n, i, j) {
        &&& exists|w: Seq<int>| #[trigger] is_walk(linked, n, w, i, j) && hops(w) == d
        &&& forall|w: Seq<int>| #[trigger] is_walk(linked, n, w, i, j) ==> d <= hops(w)
    } else {
        d == n
    }
}

/// A walk from `i` to `j` whose interior vertices are all below `k`.
spec fn walk_via(linked: Seq<bool>, n: int, k: int, w: Seq<int>, i: int, j: int) -> bool {
    &&& is_walk(linked, n, w, i, j)
    &&& forall|p: int| 0 < p < w.len() - 1 ==> #[trigger] w[p] < k
}

spec fn reach_via(linked: Seq<bool>, n: int, k: int, i: int, j: int) -> bool {
    exists|w: Seq<int>| #[trigger] walk_via(linked, n, k, w, i, j)
}

/// The hop distance restricted to walks whose interior vertices are below `k`.
#[verifier::opaque]
spec fn hop_via(linked: Seq<bool>, n: int, k: int, i: int, j: int, d: int) -> bool {
    if i == j {
        d == (if cell(linked, n, i, i) {
            1int
        } else {
            0int
        })
    } else if reach_via(linked, n, k, i, j) {
        &&& 0 <= d < n
        &&& exists|w: Seq<int>| #[trigger] walk_via(linked, n, k, w, i, j) && hops(w) == d
        &&& forall|w: Seq<int>| #[trigger] walk_via(linked, n, k, w, i, j) ==> d <= hops(w)
    } else {
        d == n
    }
}

proof fn lemma_cell_bounds(n: int, i: int, j: int)
    requires
        0 <= i < n,
        0 <= j < n,
    ensures
        0 <= i * n + j < n * n,
{
    assert(0 <= i * n + j < n * n) by (nonlinear_arith)
        requires
            0 <= i < n,
            0 <= j < n,
    ;
}

proof fn lemma_cell_injective(n: int, i: int, j: int, i2: int, j2: int)
    requires
        0 <= i < n,
        0 <= j < n,
        0 <= i2 < n,
        0 <= j2 < n,
        i * n + j == i2 * n + j2,
    ensures
        i == i2,
        j == j2,
{
    if i < i2 {
        assert(i * n + n <= i2 * n) by (nonlinear_arith)
            requires
                i < i2,
                n > 0,
        ;
    } else if i2 < i {
        assert(i2 * n + n <= i * n) by (nonlinear_arith)
            requires
                i2 < i,
                n > 0,
        ;
    }
}

/// Cutting the closed loop between two visits of one vertex leaves a shorter walk.
proof fn lemma_shorten(linked: Seq<bool>, n: int, k: int, w: Seq<int>, i: int, j: int, a: int, b: int) -> (w2: Seq<int>)
    requires
        walk_via(linked, n, k, w, i, j),
        0 <= a < b < w.len(),
        w[a] == w[b],
    ensures
        walk_via(linked, n, k, w2, i, j),
        w2.len() == w.len() - (b - a),
{
    let w2 = w.subrange(0, a) + w.subrange(b, w.len() as int);
    assert forall|p: int| 0 <= p < w2.len() implies w2[p] == (if p < a {
        w[p]
    } else {
        w[p + b - a]
    }) by {}
    assert(w2[0] == i) by {
        if a > 0 {
        } else {
            assert(w2[0] == w[b]);
        }
    }
    assert(w2[w2.len() - 1] == j);
    assert forall|p: int| 0 <= p < w2.len() implies 0 <= #[trigger] w2[p] < n by {
        if p < a {
            assert(0 <= w[p] < n);
        } else {
            assert(0 <= w[p + b - a] < n);
        }
    }
    assert forall|p: int| 0 <= p < w2.len() - 1 implies #[trigger] step_linked(linked, n, w2, p) by {
        if p + 1 < a {
            assert(step_linked(linked, n, w, p));
        } else if p + 1 == a {
            assert(step_linked(linked, n, w, p));
            assert(w2[p + 1] == w[b]);
        } else {
            assert(step_linked(linked, n, w, p + b - a));
            assert(w2[p + 1] == w[p + 1 + b - a]);
        }
    }
    assert forall|p: int| 0 < p < w2.len() - 1 implies #[trigger] w2[p] < k by {
        if p < a {
            assert(w[p] < k);
        } else {
            assert(w[p + b - a] < k);
        }
    }
    w2
}

/// A walk that is as short as any other with the same ends and restriction
/// visits no vertex twice, so it has at most `n` vertices.
proof fn lemma_min_walk_short(linked: Seq<bool>, n: int, k: int, w: Seq<int>, i: int, j: int)
    requires
        walk_via(linked, n, k, w, i, j),
        forall|w2: Seq<int>| #[trigger] walk_via(linked, n, k, w2, i, j) ==> w.len() <= w2.len(),
    ensures
        w.len() <= n,
{
    assert forall|a: int, b: int|
        0 <= a < w.len() && 0 <= b < w.len() && a != b implies w[a] != w[b] by {
        if w[a] == w[b] {
            if a < b {
                let w2 = lemma_shorten(linked, n, k, w, i, j, a, b);
            } else {
                let w2 = lemma_shorten(linked, n, k, w, i, j, b, a);
            }
        }
    }
    assert(w.no_duplicates());
    w.unique_seq_to_set();
    lemma_int_range(0, n);
    assert forall|x: int| w.to_set().contains(x) implies set_int_range(0, n).contains(x) by {
        let p = choose|p: int| 0 <= p < w.len() && w[p] == x;
        assert(0 <= w[p] < n);
    }
    lemma_len_subset(w.to_set(), set_int_range(0, n));
}


proof fn lemma_first_occurrence(w: Seq<int>, x: int, p: int) -> (q: int)
    requires
        0 <= p < w.len(),
        w[p] == x,
    ensures
        0 <= q <= p,
        w[q] == x,
        forall|r: int| 0 <= r < q ==> w[r] != x,
    decreases p,
{
    if exists|r: int| 0 <= r < p && w[r] == x {
        let r = choose|r: int| 0 <= r < p && w[r] == x;
        lemma_first_occurrence(w, x, r)
    } else {
        p
    }
}

proof fn lemma_last_occurrence(w: Seq<int>, x: int, p: int) -> (q: int)
    requires
        0 <= p < w.len(),
        w[p] == x,
    ensures
        p <= q < w.len(),
        w[q] == x,
        forall|r: int| q < r < w.len() ==> w[r] != x,
    decreases w.len() - p,
{
    if exists|r: int| p < r < w.len() && w[r] == x {
        let r = choose|r: int| p < r < w.len() && w[r] == x;
        lemma_last_occurrence(w, x, r)
    } else {
        p
    }
}

/// A walk whose interior stays below `k + 1` and that visits `k` splits into a
/// walk to `k` and a walk from `k`, both with interior below `k`, and together
/// no longer than the whole.
proof fn lemma_split_at(linked: Seq<bool>, n: int, k: int, w: Seq<int>, i: int, j: int, p: int) -> (res: (Seq<int>, Seq<int>))
    requires
        walk_via(linked, n, k + 1, w, i, j),
        0 <= p < w.len(),
        w[p] == k,
    ensures
        walk_via(linked, n, k, res.0, i, k),
        walk_via(linked, n, k, res.1, k, j),
        hops(res.0) + hops(res.1) <= hops(w),
{
    let f = lemma_first_occurrence(w, k, p);
    let l = lemma_last_occurrence(w, k, p);
    let w1 = w.subrange(0, f + 1);
    let w2 = w.subrange(l, w.len() as int);
    assert forall|q: int| 0 <= q < w1.len() implies 0 <= #[trigger] w1[q] < n by {
        assert(0 <= w[q] < n);
    }
    assert forall|q: int| 0 <= q < w1.len() - 1 implies #[trigger] step_linked(linked, n, w1, q) by {
        assert(step_linked(linked, n, w, q));
    }
    assert forall|q: int| 0 < q < w1.len() - 1 implies #[trigger] w1[q] < k by {
        assert(w[q] < k + 1);
        assert(w[q] != k);
    }
    assert forall|q: int| 0 <= q < w2.len() implies 0 <= #[trigger] w2[q] < n by {
        assert(0 <= w[q + l] < n);
    }
    assert forall|q: int| 0 <= q < w2.len() - 1 implies #[trigger] step_linked(linked, n, w2, q) by {
        assert(step_linked(linked, n, w, q + l));
    }
    assert forall|q: int| 0 < q < w2.len() - 1 implies #[trigger] w2[q] < k by {
        assert(w[q + l] < k + 1);
        assert(w[q + l] != k);
    }
    (w1, w2)
}

/// A walk to `k` followed by a walk from `k` is a walk through `k`.
proof fn lemma_join(linked: Seq<bool>, n: int, k: int, w1: Seq<int>, w2: Seq<int>, i: int, j: int) -> (w: Seq<int>)
    requires
        walk_via(linked, n, k, w1, i, k),
        walk_via(linked, n, k, w2, k, j),
    ensures
        walk_via(linked, n, k + 1, w, i, j),
        hops(w) == hops(w1) + hops(w2),
{
    let t = w2.subrange(1, w2.len() as int);
    let w = w1 + t;
    let m = w1.len();
    assert forall|q: int| 0 <= q < w.len() implies w[q] == (if q < m {
        w1[q]
    } else {
        w2[q - m + 1]
    }) by {}
    assert(w[w.len() - 1] == j) by {
        if w2.len() == 1 {
            assert(w2[0] == j);
        }
    }
    assert forall|q: int| 0 <= q < w.len() implies 0 <= #[trigger] w[q] < n by {
        if q < m {
            assert(0 <= w1[q] < n);
        } else {
            assert(0 <= w2[q - m + 1] < n);
        }
    }
    assert forall|q: int| 0 <= q < w.len() - 1 implies #[trigger] step_linked(linked, n, w, q) by {
        if q + 1 < m {
            assert(step_linked(linked, n, w1, q));
        } else if q + 1 == m {
            assert(step_linked(linked, n, w2, 0));
        } else {
            assert(step_linked(linked, n, w2, q - m + 1));
        }
    }
    assert forall|q: int| 0 < q < w.len() - 1 implies #[trigger] w[q] < k + 1 by {
        if q + 1 < m {
            assert(w1[q] < k);
        } else if q + 1 == m {
        } else {
            assert(w2[q - m + 1] < k);
        }
    }
    w
}

proof fn lemma_via_mono(linked: Seq<bool>, n: int, k: int, w: Seq<int>, i: int, j: int)
    requires
        walk_via(linked, n, k, w, i, j),
    ensures
        walk_via(linked, n, k + 1, w, i, j),
{
    assert forall|q: int| 0 < q < w.len() - 1 implies #[trigger] w[q] < k + 1 by {
        assert(w[q] < k);
    }
}

/// A walk through interior vertices below `k + 1` that never visits `k` stays below `k`.
proof fn lemma_avoids(linked: Seq<bool>, n: int, k: int, w: Seq<int>, i: int, j: int)
    requires
        walk_via(linked, n, k + 1, w, i, j),
        forall|p: int| 0 <= p < w.len() ==> w[p] != k,
    ensures
        walk_via(linked, n, k, w, i, j),
{
    assert forall|q: int| 0 < q < w.len() - 1 implies #[trigger] w[q] < k by {
        assert(w[q] < k + 1);
        assert(w[q] != k);
    }
}

/// A walk between distinct vertices takes at least one edge.
proof fn lemma_distinct_ends(linked: Seq<bool>, n: int, w: Seq<int>, i: int, j: int)
    requires
        is_walk(linked, n, w, i, j),
        i != j,
    ensures
        hops(w) >= 1,
{
}

/// At most one value meets the restricted distance predicate.
proof fn lemma_hop_unique(linked: Seq<bool>, n: int, k: int, i: int, j: int, d1: int, d2: int)
    requires
        hop_via(linked, n, k, i, j, d1),
        hop_via(linked, n, k, i, j, d2),
    ensures
        d1 == d2,
{
    reveal(hop_via);
    if i != j && reach_via(linked, n, k, i, j) {
        let w1 = choose|w: Seq<int>| #[trigger] walk_via(linked, n, k, w, i, j) && hops(w) == d1;
        let w2 = choose|w: Seq<int>| #[trigger] walk_via(linked, n, k, w, i, j) && hops(w) == d2;
    }
}


/// Every value that meets the restricted predicate lies in `0..=n`.
proof fn lemma_hop_bounds(linked: Seq<bool>, n: int, k: int, i: int, j: int, d: int)
    requires
        hop_via(linked, n, k, i, j, d),
        0 <= i < n,
        0 <= j < n,
    ensures
        0 <= d <= n,
        i != j ==> d >= 1,
{
    reveal(hop_via);
    if i != j && reach_via(linked, n, k, i, j) {
        let w = choose|w: Seq<int>| #[trigger] walk_via(linked, n, k, w, i, j) && hops(w) == d;
        lemma_distinct_ends(linked, n, w, i, j);
    }
}

/// Before any relaxation, the table holds the one-step distances.
proof fn lemma_base(linked: Seq<bool>, n: int, i: int, j: int)
    requires
        0 <= i < n,
        0 <= j < n,
    ensures
        hop_via(linked, n, 0, i, j, (if cell(linked, n, i, j) {
            1int
        } else if i == j {
            0int
        } else {
            n
        })),
{
    reveal(hop_via);
    if i != j {
        assert forall|w: Seq<int>| #[trigger] walk_via(linked, n, 0, w, i, j) implies w.len() == 2
            && cell(linked, n, i, j) by {
            if w.len() > 2 {
                assert(w[1] < 0);
                assert(0 <= w[1]);
            }
            assert(step_linked(linked, n, w, 0));
        }
        if cell(linked, n, i, j) {
            let w = seq![i, j];
            assert(step_linked(linked, n, w, 0));
            assert(walk_via(linked, n, 0, w, i, j));
        }
    }
}

/// One relaxation step through vertex `k` turns distances restricted below
/// `k` into distances restricted below `k + 1`.
proof fn lemma_relax(linked: Seq<bool>, n: int, k: int, i: int, j: int, a: int, b: int, c: int)
    requires
        0 <= k < n,
        0 <= i < n,
        0 <= j < n,
        hop_via(linked, n, k, i, k, a),
        hop_via(linked, n, k, k, j, b),
        hop_via(linked, n, k, i, j, c),
    ensures
        hop_via(linked, n, k + 1, i, j, (if a + b < c {
            a + b
        } else {
            c
        })),
{
    lemma_hop_bounds(linked, n, k, i, k, a);
    lemma_hop_bounds(linked, n, k, k, j, b);
    lemma_hop_bounds(linked, n, k, i, j, c);
    if i == j {
        if i == k {
            reveal(hop_via);
        } else {
            reveal(hop_via);
        }
    } else if i == k {
        lemma_hop_unique(linked, n, k, k, j, b, c);
        lemma_via_target_k(linked, n, k, j, c, true);
    } else if j == k {
        lemma_hop_unique(linked, n, k, i, k, a, c);
        lemma_via_target_k(linked, n, k, i, c, false);
    } else {
        lemma_relax_general(linked, n, k, i, j, a, b, c);
    }
}

/// For walks that start (`from_k`) or end at `k`, allowing `k` inside changes nothing.
proof fn lemma_via_target_k(linked: Seq<bool>, n: int, k: int, x: int, c: int, from_k: bool)
    requires
        0 <= k < n,
        0 <= x < n,
        x != k,
        from_k ==> hop_via(linked, n, k, k, x, c),
        !from_k ==> hop_via(linked, n, k, x, k, c),
    ensures
        from_k ==> hop_via(linked, n, k + 1, k, x, c),
        !from_k ==> hop_via(linked, n, k + 1, x, k, c),
{
    reveal(hop_via);
    let (s, t) = if from_k {
        (k, x)
    } else {
        (x, k)
    };
    assert(hop_via(linked, n, k, s, t, c));
    assert forall|w: Seq<int>| #[trigger] walk_via(linked, n, k + 1, w, s, t) implies reach_via(
        linked,
        n,
        k,
        s,
        t,
    ) && c <= hops(w) by {
        let p = if from_k {
            0
        } else {
            w.len() - 1
        };
        let (w1, w2) = lemma_split_at(linked, n, k, w, s, t, p);
        if from_k {
            assert(walk_via(linked, n, k, w2, s, t));
        } else {
            assert(walk_via(linked, n, k, w1, s, t));
        }
    }
    if reach_via(linked, n, k, s, t) {
        let w = choose|w: Seq<int>| #[trigger] walk_via(linked, n, k, w, s, t) && hops(w) == c;
        lemma_via_mono(linked, n, k, w, s, t);
    }
}

proof fn lemma_relax_general(linked: Seq<bool>, n: int, k: int, i: int, j: int, a: int, b: int, c: int)
    requires
        0 <= k < n,
        0 <= i < n,
        0 <= j < n,
        i != j,
        i != k,
        j != k,
        0 <= a <= n,
        0 <= b <= n,
        0 <= c <= n,
        hop_via(linked, n, k, i, k, a),
        hop_via(linked, n, k, k, j, b),
        hop_via(linked, n, k, i, j, c),
    ensures
        hop_via(linked, n, k + 1, i, j, (if a + b < c {
            a + b
        } else {
            c
        })),
{
    reveal(hop_via);
    let ra = reach_via(linked, n, k, i, k);
    let rb = reach_via(linked, n, k, k, j);
    let rc = reach_via(linked, n, k, i, j);
    let v = if a + b < c {
        a + b
    } else {
        c
    };
    // every walk through `k + 1` is no shorter than the candidate
    assert forall|w: Seq<int>| #[trigger] walk_via(linked, n, k + 1, w, i, j) implies (ra && rb && a
        + b <= hops(w)) || (rc && c <= hops(w)) by {
        if exists|p: int| 0 <= p < w.len() && w[p] == k {
            let p = choose|p: int| 0 <= p < w.len() && w[p] == k;
            let (w1, w2) = lemma_split_at(linked, n, k, w, i, j, p);
        } else {
            lemma_avoids(linked, n, k, w, i, j);
        }
    }
    if ra && rb {
        let w1 = choose|w: Seq<int>| #[trigger] walk_via(linked, n, k, w, i, k) && hops(w) == a;
        let w2 = choose|w: Seq<int>| #[trigger] walk_via(linked, n, k, w, k, j) && hops(w) == b;
        let wj = lemma_join(linked, n, k, w1, w2, i, j);
        assert(reach_via(linked, n, k + 1, i, j));
        if !rc {
            assert(c == n);
            lemma_min_walk_short(linked, n, k + 1, wj, i, j);
        }
        if a + b < c {
            assert(walk_via(linked, n, k + 1, wj, i, j) && hops(wj) == v);
        } else {
            let wc = choose|w: Seq<int>| #[trigger] walk_via(linked, n, k, w, i, j) && hops(w) == c;
            lemma_via_mono(linked, n, k, wc, i, j);
            assert(walk_via(linked, n, k + 1, wc, i, j) && hops(wc) == v);
        }
    } else if rc {
        assert(a + b >= n);
        let wc = choose|w: Seq<int>| #[trigger] walk_via(linked, n, k, w, i, j) && hops(w) == c;
        lemma_via_mono(linked, n, k, wc, i, j);
        assert(walk_via(linked, n, k + 1, wc, i, j) && hops(wc) == v);
    } else {
        assert(a + b >= n);
        assert(!reach_via(linked, n, k + 1, i, j));
    }
}

/// Once every vertex may be passed through, the restricted distance is the hop distance.
proof fn lemma_full(linked: Seq<bool>, n: int, i: int, j: int, d: int)
    requires
        hop_via(linked, n, n, i, j, d),
        0 <= i < n,
        0 <= j < n,
    ensures
        is_hop_distance(linked, n, i, j, d),
        i != j && connected(linked, n, i, j) ==> d < n,
{
    reveal(hop_via);
    assert forall|w: Seq<int>| #[trigger] is_walk(linked, n, w, i, j) implies walk_via(linked, n, n, w, i, j) by {
        assert forall|q: int| 0 < q < w.len() - 1 implies #[trigger] w[q] < n by {
            assert(0 <= w[q] < n);
        }
    }
    if i != j && connected(linked, n, i, j) {
        let w = choose|w: Seq<int>| #[trigger] is_walk(linked, n, w, i, j);
        assert(walk_via(linked, n, n, w, i, j));
        let w2 = choose|w: Seq<int>| #[trigger] walk_via(linked, n, n, w, i, j) && hops(w) == d;
        assert(is_walk(linked, n, w2, i, j));
    }
    if i != j && !connected(linked, n, i, j) {
        if reach_via(linked, n, n, i, j) {
            let w = choose|w: Seq<int>| #[trigger] walk_via(linked, n, n, w, i, j);
            assert(is_walk(linked, n, w, i, j));
        }
    }
}


/// Hop distance table of the graph on `0..n` whose edge `i -> j` is present
/// where `linked[i * n + j]` holds: Floyd-Warshall over unit edge lengths.
/// Pairs with no walk between them get `n`.
pub fn compute_distances(n: usize, linked: &Vec<bool>) -> (dist: Vec<usize>)
    requires
        linked@.len() == n * n,
    ensures
        dist@.len() == n * n,
        forall|i: int, j: int|
            #![trigger cell(dist@, n as int, i, j)]
            0 <= i < n && 0 <= j < n ==> is_hop_distance(
                linked@,
                n as int,
                i,
                j,
                cell(dist@, n as int, i, j) as int,
            ),
        forall|i: int, j: int|
            #![trigger cell(dist@, n as int, i, j)]
            0 <= i < n && 0 <= j < n && i != j && connected(linked@, n as int, i, j) ==> cell(
                dist@,
                n as int,
                i,
                j,
            ) < n,
{
    let ghost ni = n as int;
    let nn = linked.len();
    let mut dist: Vec<usize> = Vec::new();
    while dist.len() < nn
        invariant
            nn == n * n,
            dist@.len() <= nn,
            forall|q: int| 0 <= q < dist@.len() ==> dist@[q] == n,
        decreases nn - dist@.len(),
    {
        dist.push(n);
    }
    proof {
        assert forall|i2: int, j2: int| 0 <= i2 < n && 0 <= j2 < n implies #[trigger] cell(
            dist@,
            ni,
            i2,
            j2,
        ) == n by {
            lemma_cell_bounds(ni, i2, j2);
        }
    }
    // one-step distances
    let mut i: usize = 0;
    while i < n
        invariant
            0 <= i <= n,
            ni == n,
            nn == n * n,
            linked@.len() == n * n,
            dist@.len() == n * n,
            forall|i2: int, j2: int|
                #![trigger cell(dist@, ni, i2, j2)]
                0 <= i2 < n && 0 <= j2 < n ==> cell(dist@, ni, i2, j2) == (if i2 < i {
                    if cell(linked@, ni, i2, j2) {
                        1
                    } else if i2 == j2 {
                        0
                    } else {
                        n
                    }
                } else {
                    n
                }),
        decreases n - i,
    {
        let mut j: usize = 0;
        while j < n
            invariant
                0 <= i < n,
                0 <= j <= n,
                ni == n,
                nn == n * n,
                linked@.len() == n * n,
                dist@.len() == n * n,
                forall|i2: int, j2: int|
                    #![trigger cell(dist@, ni, i2, j2)]
                    0 <= i2 < n && 0 <= j2 < n ==> cell(dist@, ni, i2, j2) == (if i2 < i || (i2
                        == i && j2 < j) {
                        if cell(linked@, ni, i2, j2) {
                            1
                        } else if i2 == j2 {
                            0
                        } else {
                            n
                        }
                    } else {
                        n
                    }),
            decreases n - j,
        {
            proof {
                lemma_cell_bounds(ni, i as int, j as int);
            }
            let idx = i * n + j;
            let v: usize = if linked[idx] {
                1
            } else if i == j {
                0
            } else {
                n
            };
            let ghost old_dist = dist@;
            dist.set(idx, v);
            proof {
                assert forall|i2: int, j2: int| 0 <= i2 < n && 0 <= j2 < n && (i2 != i || j2 != j)
                    implies #[trigger] cell(dist@, ni, i2, j2) == cell(old_dist, ni, i2, j2) by {
                    lemma_cell_bounds(ni, i2, j2);
                    if i2 * ni + j2 == idx {
                        lemma_cell_injective(ni, i2, j2, i as int, j as int);
                    }
                }
            }
            j = j + 1;
        }
        i = i + 1;
    }
    proof {
        assert forall|i2: int, j2: int| 0 <= i2 < n && 0 <= j2 < n implies hop_via(
            linked@,
            ni,
            0,
            i2,
            j2,
            #[trigger] cell(dist@, ni, i2, j2) as int,
        ) by {
            lemma_base(linked@, ni, i2, j2);
        }
        if n >= 2 {
            assert(2 * ni <= ni * ni) by (nonlinear_arith)
                requires
                    ni >= 2,
            ;
        }
    }
    // relax through each vertex in turn
    let mut k: usize = 0;
    while k < n
        invariant
            0 <= k <= n,
            ni == n,
            2 * ni <= usize::MAX,
            nn == n * n,
            linked@.len() == n * n,
            dist@.len() == n * n,
            forall|i2: int, j2: int|
                #![trigger cell(dist@, ni, i2, j2)]
                0 <= i2 < n && 0 <= j2 < n ==> hop_via(
                    linked@,
                    ni,
                    k as int,
                    i2,
                    j2,
                    cell(dist@, ni, i2, j2) as int,
                ),
        decreases n - k,
    {
        let ghost start = dist@;
        let mut i: usize = 0;
        while i < n
            invariant
                0 <= k < n,
                0 <= i <= n,
                ni == n,
                2 * ni <= usize::MAX,
                nn == n * n,
                linked@.len() == n * n,
                dist@.len() == n * n,
                start.len() == n * n,
                forall|i2: int, j2: int|
                    #![trigger cell(start, ni, i2, j2)]
                    0 <= i2 < n && 0 <= j2 < n ==> hop_via(
                        linked@,
                        ni,
                        k as int,
                        i2,
                        j2,
                        cell(start, ni, i2, j2) as int,
                    ),
                forall|i2: int, j2: int|
                    #![trigger cell(dist@, ni, i2, j2)]
                    0 <= i2 < n && 0 <= j2 < n ==> hop_via(
                        linked@,
                        ni,
                        (if i2 < i {
                            k + 1
                        } else {
                            k as int
                        }),
                        i2,
                        j2,
                        cell(dist@, ni, i2, j2) as int,
                    ),
                forall|q: int|
                    #![trigger cell(dist@, ni, q, k as int)]
                    0 <= q < n ==> cell(dist@, ni, q, k as int) == cell(start, ni, q, k as int),
                forall|q: int|
                    #![trigger cell(dist@, ni, k as int, q)]
                    0 <= q < n ==> cell(dist@, ni, k as int, q) == cell(start, ni, k as int, q),
            decreases n - i,
        {
            let mut j: usize = 0;
            while j < n
                invariant
                    0 <= k < n,
                    0 <= i < n,
                    0 <= j <= n,
                    ni == n,
                    2 * ni <= usize::MAX,
                    nn == n * n,
                    linked@.len() == n * n,
                    dist@.len() == n * n,
                    start.len() == n * n,
                    forall|i2: int, j2: int|
                        #![trigger cell(start, ni, i2, j2)]
                        0 <= i2 < n && 0 <= j2 < n ==> hop_via(
                            linked@,
                            ni,
                            k as int,
                            i2,
                            j2,
                            cell(start, ni, i2, j2) as int,
                        ),
                    forall|i2: int, j2: int|
                        #![trigger cell(dist@, ni, i2, j2)]
                        0 <= i2 < n && 0 <= j2 < n ==> hop_via(
                            linked@,
                            ni,
                            (if i2 < i || (i2 == i && j2 < j) {
                                k + 1
                            } else {
                                k as int
                            }),
                            i2,
                            j2,
                            cell(dist@, ni, i2, j2) as int,
                        ),
                    forall|q: int|
                        #![trigger cell(dist@, ni, q, k as int)]
                        0 <= q < n ==> cell(dist@, ni, q, k as int) == cell(start, ni, q, k as int),
                    forall|q: int|
                        #![trigger cell(dist@, ni, k as int, q)]
                        0 <= q < n ==> cell(dist@, ni, k as int, q) == cell(start, ni, k as int, q),
                decreases n - j,
            {
                proof {
                    lemma_cell_bounds(ni, i as int, k as int);
                    lemma_cell_bounds(ni, k as int, j as int);
                    lemma_cell_bounds(ni, i as int, j as int);
                }
                let a = dist[i * n + k];
                let b = dist[k * n + j];
                let c = dist[i * n + j];
                proof {
                    assert(a == cell(dist@, ni, i as int, k as int));
                    assert(b == cell(dist@, ni, k as int, j as int));
                    assert(c == cell(dist@, ni, i as int, j as int));
                    assert(a == cell(start, ni, i as int, k as int));
                    assert(b == cell(start, ni, k as int, j as int));
                    assert(hop_via(linked@, ni, k as int, i as int, j as int, c as int));
                    lemma_hop_bounds(linked@, ni, k as int, i as int, k as int, a as int);
                    lemma_hop_bounds(linked@, ni, k as int, k as int, j as int, b as int);
                    lemma_hop_bounds(linked@, ni, k as int, i as int, j as int, c as int);
                    lemma_relax(linked@, ni, k as int, i as int, j as int, a as int, b as int, c as int);
                }
                let d = a + b;
                if d < c {
                    let idx = i * n + j;
                    let ghost old_dist = dist@;
                    dist.set(idx, d);
                    proof {
                        assert forall|i2: int, j2: int|
                            0 <= i2 < n && 0 <= j2 < n && (i2 != i || j2 != j) implies #[trigger] cell(
                            dist@,
                            ni,
                            i2,
                            j2,
                        ) == cell(old_dist, ni, i2, j2) by {
                            lemma_cell_bounds(ni, i2, j2);
                            if i2 * ni + j2 == idx {
                                lemma_cell_injective(ni, i2, j2, i as int, j as int);
                            }
                        }
                        // row and column `k` are never lowered
                        assert(i != k && j != k);
                    }
                }
                j = j + 1;
            }
            i = i + 1;
        }
        k = k + 1;
    }
    proof {
        assert forall|i2: int, j2: int| 0 <= i2 < n && 0 <= j2 < n implies is_hop_distance(
            linked@,
            ni,
            i2,
            j2,
            #[trigger] cell(dist@, ni, i2, j2) as int,
        ) && (i2 != j2 && connected(linked@, ni, i2, j2) ==> cell(dist@, ni, i2, j2) < n) by {
            lemma_full(linked@, ni, i2, j2, cell(dist@, ni, i2, j2) as int);
        }
    }
    dist
}


/// A walk read backwards, in a graph whose edges all go both ways.
proof fn lemma_reverse_walk(linked: Seq<bool>, n: int, w: Seq<int>, i: int, j: int) -> (r: Seq<int>)
    requires
        is_walk(linked, n, w, i, j),
        forall|u: int, v: int|
            0 <= u < n && 0 <= v < n ==> #[trigger] cell(linked, n, u, v) == cell(linked, n, v, u),
    ensures
        is_walk(linked, n, r, j, i),
        hops(r) == hops(w),
{
    let r = w.reverse();
    assert forall|p: int| 0 <= p < r.len() implies 0 <= #[trigger] r[p] < n by {
        assert(0 <= w[w.len() - 1 - p] < n);
    }
    assert forall|p: int| 0 <= p < r.len() - 1 implies #[trigger] step_linked(linked, n, r, p) by {
        let q = w.len() - 2 - p;
        assert(step_linked(linked, n, w, q));
        assert(0 <= w[q] < n && 0 <= w[q + 1] < n);
        assert(cell(linked, n, w[q], w[q + 1]) == cell(linked, n, w[q + 1], w[q]));
    }
    r
}

/// Law: where every edge goes both ways (as in a symmetrised adjacency matrix),
/// the hop distance from `i` to `j` equals the one from `j` to `i`.
pub proof fn lemma_hop_distance_symmetric(linked: Seq<bool>, n: int, i: int, j: int, d1: int, d2: int)
    requires
        forall|u: int, v: int|
            0 <= u < n && 0 <= v < n ==> #[trigger] cell(linked, n, u, v) == cell(linked, n, v, u),
        0 <= i < n,
        0 <= j < n,
        is_hop_distance(linked, n, i, j, d1),
        is_hop_distance(linked, n, j, i, d2),
    ensures
        d1 == d2,
{
    if i != j {
        assert forall|w: Seq<int>| #[trigger] is_walk(linked, n, w, i, j) implies connected(linked, n, j, i)
            && d2 <= hops(w) by {
            let r = lemma_reverse_walk(linked, n, w, i, j);
        }
        assert forall|w: Seq<int>| #[trigger] is_walk(linked, n, w, j, i) implies connected(linked, n, i, j)
            && d1 <= hops(w) by {
            let r = lemma_reverse_walk(linked, n, w, j, i);
        }
        if connected(linked, n, i, j) {
            let w1 = choose|w: Seq<int>| #[trigger] is_walk(linked, n, w, i, j) && hops(w) == d1;
            let w2 = choose|w: Seq<int>| #[trigger] is_walk(linked, n, w, j, i) && hops(w) == d2;
        }
    }
}

/// Law: hop distances obey the triangle inequality along connected pairs.
pub proof fn lemma_hop_distance_triangle(
    linked: Seq<bool>,
    n: int,
    i: int,
    j: int,
    k: int,
    dij: int,
    djk: int,
    dik: int,
)
    requires
        0 <= i < n,
        0 <= j < n,
        0 <= k < n,
        i != j,
        j != k,
        connected(linked, n, i, j),
        connected(linked, n, j, k),
        is_hop_distance(linked, n, i, j, dij),
        is_hop_distance(linked, n, j, k, djk),
        is_hop_distance(linked, n, i, k, dik),
    ensures
        dik <= dij + djk,
{
    let w1 = choose|w: Seq<int>| #[trigger] is_walk(linked, n, w, i, j) && hops(w) == dij;
    let w2 = choose|w: Seq<int>| #[trigger] is_walk(linked, n, w, j, k) && hops(w) == djk;
    lemma_distinct_ends(linked, n, w1, i, j);
    lemma_distinct_ends(linked, n, w2, j, k);
    if i != k {
        let w = w1 + w2.subrange(1, w2.len() as int);
        let m = w1.len();
        assert forall|q: int| 0 <= q < w.len() implies 0 <= #[trigger] w[q] < n by {
            if q < m {
                assert(0 <= w1[q] < n);
            } else {
                assert(0 <= w2[q - m + 1] < n);
            }
        }
        assert forall|q: int| 0 <= q < w.len() - 1 implies #[trigger] step_linked(linked, n, w, q) by {
            if q + 1 < m {
                assert(step_linked(linked, n, w1, q));
            } else if q + 1 == m {
                assert(step_linked(linked, n, w2, 0));
            } else {
                assert(step_linked(linked, n, w2, q - m + 1));
            }
        }
        assert(is_walk(linked, n, w, i, k));
    }
}

/// Law: two distinct vertices joined by an edge are one hop apart.
pub proof fn lemma_hop_distance_edge(linked: Seq<bool>, n: int, i: int, j: int, d: int)
    requires
        0 <= i < n,
        0 <= j < n,
        i != j,
        cell(linked, n, i, j),
        is_hop_distance(linked, n, i, j, d),
    ensures
        d == 1,
{
    let w = seq![i, j];
    assert(step_linked(linked, n, w, 0));
    assert(is_walk(linked, n, w, i, j));
    let w2 = choose|w: Seq<int>| #[trigger] is_walk(linked, n, w, i, j) && hops(w) == d;
    lemma_distinct_ends(linked, n, w2, i, j);
}

} // verus!
