//! A dense row-major matrix over any copyable entry type.
use vstd::prelude::*;

verus! {

/// Simple row-major matrix: entry `(i, j)` is `data[i * cols + j]`.
pub struct Matrix<T> {
    pub rows: usize,
    pub cols: usize,
    pub data: Vec<T>,
}


proof fn lemma_index_bounds(rows: int, cols: int, r: int, c: int)
    requires
        0 <= r < rows,
        0 <= c < cols,
    ensures
        0 <= r * cols + c < rows * cols,
{
    assert(0 <= r * cols + c < rows * cols) by (nonlinear_arith)
        requires
            0 <= r < rows,
            0 <= c < cols,
    ;
}

proof fn lemma_index_injective(cols: int, r: int, c: int, r2: int, c2: int)
    requires
        0 <= r,
        0 <= r2,
        0 <= c < cols,
        0 <= c2 < cols,
        r * cols + c == r2 * cols + c2,
    ensures
        r == r2,
        c == c2,
{
    if r < r2 {
        assert(r * cols + cols <= r2 * cols) by (nonlinear_arith)
            requires
                r < r2,
                cols > 0,
        ;
    } else if r2 < r {
        assert(r2 * cols + cols <= r * cols) by (nonlinear_arith)
            requires
                r2 < r,
                cols > 0,
        ;
    }
}

impl<T> Matrix<T> {
    /// The storage holds exactly `rows * cols` entries.
    pub open spec fn wf(&self) -> bool {
        self.data@.len() == self.rows * self.cols
    }

    /// Entry `(i, j)` as the row-major layout reads it.
    pub open spec fn entry(&self, i: int, j: int) -> T {
        self.data@[i * self.cols + j]
    }

    /// Entry `(i, j)` equals entry `(j, i)` wherever both are entries.
    pub open spec fn is_mirrored(&self) -> bool {
        forall|i: int, j: int|
            0 <= i < self.rows && 0 <= j < self.cols && j < self.rows && i < self.cols
                ==> #[trigger] self.entry(i, j) == self.entry(j, i)
    }

    /// Wraps `data` as a `rows` by `cols` matrix.
    pub fn new(rows: usize, cols: usize, data: Vec<T>) -> (m: Self)
        requires
            data@.len() == rows * cols,
        ensures
            m.rows == rows,
            m.cols == cols,
            m.data@ == data@,
            m.wf(),
    {
        Matrix { rows, cols, data }
    }

    /// Entry `(i, j)`.
    pub fn at(&self, i: usize, j: usize) -> (v: T) where T: Copy
        requires
            i * self.cols + j < self.data@.len(),
        ensures
            v == self.entry(i as int, j as int),
    {
        let _len = self.data.len();
        self.data[i * self.cols + j]
    }

    /// Overwrites entry `(i, j)` with `v`.
    pub fn set(&mut self, i: usize, j: usize, v: T)
        requires
            i * old(self).cols + j < old(self).data@.len(),
        ensures
            final(self).rows == old(self).rows,
            final(self).cols == old(self).cols,
            final(self).data@ == old(self).data@.update(i * old(self).cols + j, v),
    {
        let _len = self.data.len();
        let idx = i * self.cols + j;
        self.data.set(idx, v);
    }

    /// Makes the matrix symmetric: for every `i < j`, both `(i, j)` and
    /// `(j, i)` become `avg` of the two old entries; the diagonal, and any row
    /// beyond the last column, stay as they were.
    pub fn symmetrize<F: Fn(T, T) -> T>(&mut self, avg: F) where T: Copy
        requires
            old(self).wf(),
            old(self).rows == 0 || old(self).cols <= old(self).rows,
            forall|a: T, b: T| call_requires(avg, (a, b)),
        ensures
            final(self).rows == old(self).rows,
            final(self).cols == old(self).cols,
            final(self).wf(),
            final(self).is_mirrored(),
            forall|i: int, j: int|
                0 <= i < old(self).rows && i < j < old(self).cols ==> call_ensures(
                    avg,
                    (old(self).entry(i, j), old(self).entry(j, i)),
                    #[trigger] final(self).entry(i, j),
                ),
            forall|r: int, c: int|
                0 <= r < old(self).rows && 0 <= c < old(self).cols && (r == c || (c < r && r
                    >= old(self).cols)) ==> #[trigger] final(self).entry(r, c) == old(self).entry(r, c),
    {
        let ghost orig = *self;
        let rows = self.rows;
        let cols = self.cols;
        let mut i: usize = 0;
        while i < rows
            invariant
                0 <= i <= rows,
                rows == orig.rows,
                cols == orig.cols,
                orig.wf(),
                rows == 0 || cols <= rows,
                self.rows == rows,
                self.cols == cols,
                self.wf(),
                forall|a: T, b: T| call_requires(avg, (a, b)),
                forall|i2: int, j2: int|
                    0 <= i2 < rows && i2 < j2 < cols && i2 < i ==> #[trigger] self.entry(i2, j2)
                        == self.entry(j2, i2) && call_ensures(
                        avg,
                        (orig.entry(i2, j2), orig.entry(j2, i2)),
                        self.entry(i2, j2),
                    ),
                forall|i2: int, j2: int|
                    0 <= i2 < rows && i2 < j2 < cols && i <= i2 ==> #[trigger] self.entry(i2, j2)
                        == orig.entry(i2, j2) && self.entry(j2, i2) == orig.entry(j2, i2),
                forall|r: int, c: int|
                    0 <= r < rows && 0 <= c < cols && (r == c || (c < r && r >= cols))
                        ==> #[trigger] self.entry(r, c) == orig.entry(r, c),
            decreases rows - i,
        {
            let mut j: usize = i + 1;
            while j < cols
                invariant
                    0 <= i < rows,
                    i + 1 <= j,
                    j <= cols || cols <= i + 1,
                    rows == orig.rows,
                    cols == orig.cols,
                    orig.wf(),
                    rows == 0 || cols <= rows,
                    self.rows == rows,
                    self.cols == cols,
                    self.wf(),
                    forall|a: T, b: T| call_requires(avg, (a, b)),
                    forall|i2: int, j2: int|
                        0 <= i2 < rows && i2 < j2 < cols && (i2 < i || (i2 == i && j2 < j))
                            ==> #[trigger] self.entry(i2, j2) == self.entry(j2, i2) && call_ensures(
                            avg,
                            (orig.entry(i2, j2), orig.entry(j2, i2)),
                            self.entry(i2, j2),
                        ),
                    forall|i2: int, j2: int|
                        0 <= i2 < rows && i2 < j2 < cols && !(i2 < i || (i2 == i && j2 < j))
                            ==> #[trigger] self.entry(i2, j2) == orig.entry(i2, j2) && self.entry(
                            j2,
                            i2,
                        ) == orig.entry(j2, i2),
                    forall|r: int, c: int|
                        0 <= r < rows && 0 <= c < cols && (r == c || (c < r && r >= cols))
                            ==> #[trigger] self.entry(r, c) == orig.entry(r, c),
                decreases cols - j,
            {
                proof {
                    lemma_index_bounds(rows as int, cols as int, i as int, j as int);
                    lemma_index_bounds(rows as int, cols as int, j as int, i as int);
                }
                let a = self.at(i, j);
                let b = self.at(j, i);
                let v = avg(a, b);
                let ghost before = *self;
                self.set(i, j, v);
                self.set(j, i, v);
                proof {
                    let ij = i * cols + j;
                    let ji = j * cols + i;
                    assert(self.data@ == before.data@.update(ij, v).update(ji, v));
                    assert forall|r: int, c: int|
                        0 <= r < rows && 0 <= c < cols && !(r == i && c == j) && !(r == j && c
                            == i) implies #[trigger] self.entry(r, c) == before.entry(r, c) by {
                        lemma_index_bounds(rows as int, cols as int, r, c);
                        if r * cols + c == ij {
                            lemma_index_injective(cols as int, r, c, i as int, j as int);
                        }
                        if r * cols + c == ji {
                            lemma_index_injective(cols as int, r, c, j as int, i as int);
                        }
                    }
                    assert(self.entry(i as int, j as int) == v);
                    assert(self.entry(j as int, i as int) == v);
                    assert forall|i2: int, j2: int|
                        0 <= i2 < rows && i2 < j2 < cols && (i2 < i || (i2 == i && j2 < j + 1))
                            implies #[trigger] self.entry(i2, j2) == self.entry(j2, i2) && call_ensures(
                            avg,
                            (orig.entry(i2, j2), orig.entry(j2, i2)),
                            self.entry(i2, j2),
                        ) by {
                        if i2 == i && j2 == j {
                        } else {
                            assert(self.entry(i2, j2) == before.entry(i2, j2));
                            assert(self.entry(j2, i2) == before.entry(j2, i2));
                        }
                    }
                    assert forall|i2: int, j2: int|
                        0 <= i2 < rows && i2 < j2 < cols && !(i2 < i || (i2 == i && j2 < j + 1))
                            implies #[trigger] self.entry(i2, j2) == orig.entry(i2, j2) && self.entry(
                            j2,
                            i2,
                        ) == orig.entry(j2, i2) by {
                        assert(!(i2 < i || (i2 == i && j2 < j)));
                        assert(before.entry(i2, j2) == orig.entry(i2, j2));
                        assert(before.entry(j2, i2) == orig.entry(j2, i2));
                        assert(self.entry(i2, j2) == before.entry(i2, j2));
                        assert(self.entry(j2, i2) == before.entry(j2, i2));
                    }
                    assert forall|r: int, c: int|
                        0 <= r < rows && 0 <= c < cols && (r == c || (c < r && r >= cols))
                            implies #[trigger] self.entry(r, c) == orig.entry(r, c) by {
                        assert(self.entry(r, c) == before.entry(r, c));
                    }
                }
                j = j + 1;
            }
            i = i + 1;
        }
        proof {
            assert forall|i2: int, j2: int|
                0 <= i2 < self.rows && 0 <= j2 < self.cols && j2 < self.rows && i2 < self.cols
                    implies #[trigger] self.entry(i2, j2) == self.entry(j2, i2) by {
                if i2 < j2 {
                    assert(self.entry(i2, j2) == self.entry(j2, i2));
                } else if j2 < i2 {
                    assert(self.entry(j2, i2) == self.entry(i2, j2));
                }
            }
        }
    }

    /// The storage slot of entry `(j, i)`, the mirror of `(i, j)`, exists.
    pub open spec fn mirror_in_range(&self, i: int, j: int) -> bool {
        j * self.cols + i < self.data@.len()
    }

    /// Entry `(i, j)` is in range, its mirror too, and `close` rejects the
    /// pair on every call.
    pub open spec fn surely_apart<F: Fn(T, T) -> bool>(&self, close: F, i: int, j: int) -> bool {
        &&& 0 <= i < self.rows
        &&& 0 <= j < self.cols
        &&& self.mirror_in_range(i, j)
        &&& forall|r: bool| #[trigger] call_ensures(close, (self.entry(i, j), self.entry(j, i)), r) ==> !r
    }

    /// Checks every entry against its mirror with `close`, row by row; `false`
    /// as soon as one pair is not close. Every pair whose mirror lies beyond
    /// the storage must come after a pair that `close` surely rejects.
    pub fn is_symmetric<F: Fn(T, T) -> bool>(&self, close: F) -> (res: bool) where T: Copy
        requires
            self.wf(),
            forall|i: int, j: int|
                0 <= i < self.rows && 0 <= j < self.cols && !#[trigger] self.mirror_in_range(i, j)
                    ==> exists|i2: int, j2: int|
                    (i2 < i || (i2 == i && j2 < j)) && #[trigger] self.surely_apart(close, i2, j2),
            forall|a: T, b: T| call_requires(close, (a, b)),
        ensures
            res ==> forall|i: int, j: int|
                0 <= i < self.rows && 0 <= j < self.cols ==> call_ensures(
                    close,
                    (#[trigger] self.entry(i, j), self.entry(j, i)),
                    true,
                ),
            !res ==> exists|i: int, j: int|
                0 <= i < self.rows && 0 <= j < self.cols && call_ensures(
                    close,
                    (#[trigger] self.entry(i, j), self.entry(j, i)),
                    false,
                ),
            self.rows == self.cols && self.is_mirrored() && (forall|x: T, r: bool|
                call_ensures(close, (x, x), r) ==> r) ==> res,
    {
        let rows = self.rows;
        let cols = self.cols;
        let mut i: usize = 0;
        while i < rows
            invariant
                0 <= i <= rows,
                rows == self.rows,
                cols == self.cols,
                self.wf(),
                forall|i2: int, j2: int|
                    0 <= i2 < rows && 0 <= j2 < cols && !#[trigger] self.mirror_in_range(i2, j2)
                        ==> exists|i3: int, j3: int|
                        (i3 < i2 || (i3 == i2 && j3 < j2)) && #[trigger] self.surely_apart(close, i3, j3),
                forall|a: T, b: T| call_requires(close, (a, b)),
                forall|i2: int, j2: int|
                    0 <= i2 < i && 0 <= j2 < cols ==> call_ensures(
                        close,
                        (#[trigger] self.entry(i2, j2), self.entry(j2, i2)),
                        true,
                    ),
            decreases rows - i,
        {
            let mut j: usize = 0;
            while j < cols
                invariant
                    0 <= i < rows,
                    0 <= j <= cols,
                    rows == self.rows,
                    cols == self.cols,
                    self.wf(),
                    forall|i2: int, j2: int|
                    0 <= i2 < rows && 0 <= j2 < cols && !#[trigger] self.mirror_in_range(i2, j2)
                        ==> exists|i3: int, j3: int|
                        (i3 < i2 || (i3 == i2 && j3 < j2)) && #[trigger] self.surely_apart(close, i3, j3),
                    forall|a: T, b: T| call_requires(close, (a, b)),
                    forall|i2: int, j2: int|
                        (0 <= i2 < i && 0 <= j2 < cols) || (i2 == i && 0 <= j2 < j) ==> call_ensures(
                            close,
                            (#[trigger] self.entry(i2, j2), self.entry(j2, i2)),
                            true,
                        ),
                decreases cols - j,
            {
                proof {
                    lemma_index_bounds(rows as int, cols as int, i as int, j as int);
                    assert(0 <= j * cols + i) by (nonlinear_arith)
                        requires
                            0 <= j,
                            0 <= cols,
                            0 <= i,
                    ;
                    if !self.mirror_in_range(i as int, j as int) {
                        let (i3, j3) = choose|i3: int, j3: int|
                            (i3 < i || (i3 == i && j3 < j)) && #[trigger] self.surely_apart(close, i3, j3);
                        assert(call_ensures(close, (self.entry(i3, j3), self.entry(j3, i3)), true));
                    }
                }
                let a = self.at(i, j);
                let b = self.at(j, i);
                let ok = close(a, b);
                if !ok {
                    proof {
                        assert(call_ensures(
                            close,
                            (self.entry(i as int, j as int), self.entry(j as int, i as int)),
                            false,
                        ));
                        if rows == cols && self.is_mirrored() {
                            assert(self.entry(i as int, j as int) == self.entry(j as int, i as int));
                        }
                    }
                    return false;
                }
                j = j + 1;
            }
            i = i + 1;
        }
        true
    }

    /// The square matrix whose entry `(i, j)` is `avg` of entries `(i, j)` and
    /// `(j, i)` of this one, computed for every entry in row-major order.
    pub fn mirror_average<F: Fn(T, T) -> T>(&self, avg: F) -> (m: Matrix<T>) where T: Copy
        requires
            self.wf(),
            self.rows == self.cols,
            forall|a: T, b: T| call_requires(avg, (a, b)),
        ensures
            m.rows == self.rows,
            m.cols == self.cols,
            m.wf(),
            forall|i: int, j: int|
                0 <= i < self.rows && 0 <= j < self.cols ==> call_ensures(
                    avg,
                    (self.entry(i, j), self.entry(j, i)),
                    #[trigger] m.entry(i, j),
                ),
    {
        let n = self.rows;
        let mut out: Vec<T> = Vec::new();
        let mut i: usize = 0;
        while i < n
            invariant
                0 <= i <= n,
                n == self.rows,
                n == self.cols,
                self.wf(),
                forall|a: T, b: T| call_requires(avg, (a, b)),
                out@.len() == i * n,
                forall|i2: int, j2: int|
                    0 <= i2 < i && 0 <= j2 < n ==> call_ensures(
                        avg,
                        (self.entry(i2, j2), self.entry(j2, i2)),
                        #[trigger] out@[i2 * n + j2],
                    ),
            decreases n - i,
        {
            let mut j: usize = 0;
            while j < n
                invariant
                    0 <= i < n,
                    0 <= j <= n,
                    n == self.rows,
                    n == self.cols,
                    self.wf(),
                    forall|a: T, b: T| call_requires(avg, (a, b)),
                    out@.len() == i * n + j,
                    forall|i2: int, j2: int|
                        (0 <= i2 < i && 0 <= j2 < n) || (i2 == i && 0 <= j2 < j) ==> call_ensures(
                            avg,
                            (self.entry(i2, j2), self.entry(j2, i2)),
                            #[trigger] out@[i2 * n + j2],
                        ),
                decreases n - j,
            {
                proof {
                    lemma_index_bounds(n as int, n as int, i as int, j as int);
                    lemma_index_bounds(n as int, n as int, j as int, i as int);
                }
                let a = self.at(i, j);
                let b = self.at(j, i);
                let v = avg(a, b);
                let ghost before = out@;
                out.push(v);
                proof {
                    assert forall|i2: int, j2: int|
                        (0 <= i2 < i && 0 <= j2 < n) || (i2 == i && 0 <= j2 < j + 1) implies call_ensures(
                            avg,
                            (self.entry(i2, j2), self.entry(j2, i2)),
                            #[trigger] out@[i2 * n + j2],
                        ) by {
                        if i2 == i && j2 == j {
                        } else {
                            if i2 < i {
                                assert(i2 * n + j2 < i * n) by (nonlinear_arith)
                                    requires
                                        i2 < i,
                                        j2 < n,
                                ;
                            }
                            assert(0 <= i2 * n + j2) by (nonlinear_arith)
                                requires
                                    0 <= i2,
                                    0 <= j2,
                                    0 <= n,
                            ;
                            assert(out@[i2 * n + j2] == before[i2 * n + j2]);
                        }
                    }
                }
                j = j + 1;
            }
            proof {
                assert((i + 1) * n == i * n + n) by (nonlinear_arith);
            }
            i = i + 1;
        }
        Matrix { rows: n, cols: n, data: out }
    }
}

/// `q` squared.
pub open spec fn square(q: int) -> int {
    q * q
}

/// The side of a square table of `len` entries: `Some(n)` exactly when
/// `n * n == len`.
pub fn square_side(len: usize) -> (res: Option<usize>)
    ensures
        match res {
            Some(n) => n * n == len,
            None => forall|n: nat| #[trigger] square(n as int) != len,
        },
{
    let target = len as u128;
    let mut r: u128 = 0;
    while r * r < target
        invariant
            target == len,
            target <= usize::MAX,
            r <= 0x1_0000_0000,
            r * r <= 0x1_0000_0000_0000_0000,
            forall|q: nat| q < r ==> #[trigger] square(q as int) < target,
        decreases target - r,
    {
        proof {
            assert(r < 0x1_0000_0000) by (nonlinear_arith)
                requires
                    r * r < target,
                    target <= usize::MAX,
                    usize::MAX <= 0xffff_ffff_ffff_ffff,
            ;
            assert(r < target) by (nonlinear_arith)
                requires
                    r * r < target,
            ;
            assert((r + 1) * (r + 1) <= 0x1_0000_0000_0000_0000) by (nonlinear_arith)
                requires
                    r < 0x1_0000_0000,
            ;
            assert forall|q: nat| q < r + 1 implies #[trigger] square(q as int) < target by {
                if q == r {
                }
            }
        }
        r = r + 1;
    }
    if r * r == target {
        proof {
            if r > 0 {
                assert(r <= r * r) by (nonlinear_arith)
                    requires
                        r > 0,
                ;
            }
        }
        Some(r as usize)
    } else {
        proof {
            assert forall|q: nat| #[trigger] square(q as int) != len by {
                if q >= r {
                    assert(q * q >= r * r) by (nonlinear_arith)
                        requires
                            q >= r,
                            r >= 0,
                    ;
                }
            }
        }
        None
    }
}

/// Splits the first `rows * cols` entries of a row-major table into rows.
pub fn split_rows<T: Copy>(flat: &Vec<T>, rows: usize, cols: usize) -> (res: Vec<Vec<T>>)
    requires
        rows * cols <= flat@.len(),
    ensures
        res@.len() == rows,
        forall|i: int| 0 <= i < rows ==> (#[trigger] res@[i])@.len() == cols,
        forall|i: int, j: int|
            0 <= i < rows && 0 <= j < cols ==> #[trigger] res@[i]@[j] == flat@[i * cols + j],
{
    let _len = flat.len();
    let mut res: Vec<Vec<T>> = Vec::new();
    let mut i: usize = 0;
    while i < rows
        invariant
            0 <= i <= rows,
            rows * cols <= flat@.len(),
            _len == flat@.len(),
            res@.len() == i,
            forall|i2: int| 0 <= i2 < i ==> (#[trigger] res@[i2])@.len() == cols,
            forall|i2: int, j: int|
                0 <= i2 < i && 0 <= j < cols ==> #[trigger] res@[i2]@[j] == flat@[i2 * cols + j],
        decreases rows - i,
    {
        let mut row: Vec<T> = Vec::new();
        let mut j: usize = 0;
        while j < cols
            invariant
                0 <= i < rows,
                0 <= j <= cols,
                rows * cols <= flat@.len(),
                _len == flat@.len(),
                row@.len() == j,
                forall|j2: int| 0 <= j2 < j ==> #[trigger] row@[j2] == flat@[i * cols + j2],
            decreases cols - j,
        {
            proof {
                lemma_index_bounds(rows as int, cols as int, i as int, j as int);
            }
            row.push(flat[i * cols + j]);
            j = j + 1;
        }
        res.push(row);
        i = i + 1;
    }
    res
}

/// Picks columns of a square row-major table: column `idx` of the `n` by `k`
/// result is column `order[idx]` of `v`.
pub fn select_columns<T: Copy>(v: &Vec<T>, n: usize, order: &Vec<usize>, k: usize) -> (out: Vec<T>)
    requires
        v@.len() == n * n,
        k <= order@.len(),
        forall|idx: int| 0 <= idx < k ==> #[trigger] order@[idx] < n,
    ensures
        out@.len() == n * k,
        forall|row: int, idx: int|
            0 <= row < n && 0 <= idx < k ==> #[trigger] out@[row * k + idx] == v@[row * n + order@[idx]],
{
    let _len = v.len();
    let mut out: Vec<T> = Vec::new();
    let mut row: usize = 0;
    while row < n
        invariant
            0 <= row <= n,
            v@.len() == n * n,
            _len == v@.len(),
            k <= order@.len(),
            forall|idx: int| 0 <= idx < k ==> #[trigger] order@[idx] < n,
            out@.len() == row * k,
            forall|r: int, idx: int|
                0 <= r < row && 0 <= idx < k ==> #[trigger] out@[r * k + idx] == v@[r * n + order@[idx]],
        decreases n - row,
    {
        let mut idx: usize = 0;
        while idx < k
            invariant
                0 <= row < n,
                0 <= idx <= k,
                v@.len() == n * n,
                _len == v@.len(),
                k <= order@.len(),
                forall|q: int| 0 <= q < k ==> #[trigger] order@[q] < n,
                out@.len() == row * k + idx,
                forall|r: int, q: int|
                    (0 <= r < row && 0 <= q < k) || (r == row && 0 <= q < idx) ==> #[trigger] out@[r * k
                        + q] == v@[r * n + order@[q]],
            decreases k - idx,
        {
            let col = order[idx];
            proof {
                lemma_index_bounds(n as int, n as int, row as int, col as int);
            }
            let x = v[row * n + col];
            let ghost before = out@;
            out.push(x);
            proof {
                assert forall|r: int, q: int|
                    (0 <= r < row && 0 <= q < k) || (r == row && 0 <= q < idx + 1) implies #[trigger] out@[r
                        * k + q] == v@[r * n + order@[q]] by {
                    if r == row && q == idx {
                    } else {
                        if r < row {
                            assert(r * k + q < row * k) by (nonlinear_arith)
                                requires
                                    r < row,
                                    q < k,
                            ;
                        }
                        assert(0 <= r * k + q) by (nonlinear_arith)
                            requires
                                0 <= r,
                                0 <= q,
                                0 <= k,
                        ;
                        assert(out@[r * k + q] == before[r * k + q]);
                    }
                }
            }
            idx = idx + 1;
        }
        proof {
            assert((row + 1) * k == row * k + k) by (nonlinear_arith);
        }
        row = row + 1;
    }
    out
}

/// The weights that land, in order, on flat position `idx` of an `n` by `n`
/// table when each edge `(i, j, w)` adds `w` at `(i, j)` and then at `(j, i)`.
pub open spec fn edge_contributions<T>(edges: Seq<(usize, usize, T)>, n: int, idx: int) -> Seq<T>
    decreases edges.len(),
{
    if edges.len() == 0 {
        seq![]
    } else {
        let rest = edge_contributions(edges.drop_last(), n, idx);
        let e = edges.last();
        let first = if e.0 * n + e.1 == idx {
            rest.push(e.2)
        } else {
            rest
        };
        if e.1 * n + e.0 == idx {
            first.push(e.2)
        } else {
            first
        }
    }
}

/// `chain` lists the partial results of folding `ws` into `acc` with `plus`,
/// left to right: `chain[q + 1]` is what `plus` gave for `chain[q]` and `ws[q]`.
pub open spec fn fold_steps<T, F: Fn(T, T) -> T>(plus: F, acc: T, ws: Seq<T>, chain: Seq<T>) -> bool {
    &&& chain.len() == ws.len() + 1
    &&& chain[0] == acc
    &&& forall|q: int| 0 <= q < ws.len() ==> call_ensures(plus, (chain[q], #[trigger] ws[q]), chain[q + 1])
}

/// `r` is a value that folding `ws` into `acc` with `plus`, left to right, can give.
pub open spec fn folds_to<T, F: Fn(T, T) -> T>(plus: F, acc: T, ws: Seq<T>, r: T) -> bool {
    exists|chain: Seq<T>| #[trigger] fold_steps(plus, acc, ws, chain) && chain.last() == r
}

proof fn lemma_folds_empty<T, F: Fn(T, T) -> T>(plus: F, acc: T, ws: Seq<T>)
    requires
        ws.len() == 0,
    ensures
        folds_to(plus, acc, ws, acc),
{
    let chain = seq![acc];
    assert(fold_steps(plus, acc, ws, chain));
}

proof fn lemma_folds_push<T, F: Fn(T, T) -> T>(plus: F, acc: T, ws: Seq<T>, mid: T, w: T, r: T)
    requires
        folds_to(plus, acc, ws, mid),
        call_ensures(plus, (mid, w), r),
    ensures
        folds_to(plus, acc, ws.push(w), r),
{
    let chain = choose|chain: Seq<T>| #[trigger] fold_steps(plus, acc, ws, chain) && chain.last() == mid;
    let c2 = chain.push(r);
    let w2 = ws.push(w);
    assert forall|q: int| 0 <= q < w2.len() implies call_ensures(plus, (c2[q], #[trigger] w2[q]), c2[q + 1]) by {
        if q < ws.len() {
            assert(w2[q] == ws[q]);
            assert(call_ensures(plus, (chain[q], ws[q]), chain[q + 1]));
        }
    }
    assert(fold_steps(plus, acc, w2, c2));
}

/// An `n` by `n` table, starting from `zero` everywhere, into which every edge
/// `(i, j, w)` in turn adds its weight at `(i, j)` and then at `(j, i)`.
pub fn accumulate_edges<T: Copy, F: Fn(T, T) -> T>(n: usize, zero: T, edges: &[(usize, usize, T)], plus: F) -> (out: Vec<T>)
    requires
        n * n <= usize::MAX,
        forall|e: int|
            0 <= e < edges@.len() ==> #[trigger] edges@[e].0 * n + edges@[e].1 < n * n && edges@[e].1 * n
                + edges@[e].0 < n * n,
        forall|a: T, b: T| call_requires(plus, (a, b)),
    ensures
        out@.len() == n * n,
        forall|idx: int|
            0 <= idx < n * n ==> folds_to(plus, zero, edge_contributions(edges@, n as int, idx), #[trigger] out@[idx]),
{
    let nn = n * n;
    let mut out: Vec<T> = Vec::new();
    while out.len() < nn
        invariant
            nn == n * n,
            out@.len() <= nn,
            forall|q: int| 0 <= q < out@.len() ==> #[trigger] out@[q] == zero,
        decreases nn - out@.len(),
    {
        out.push(zero);
    }
    proof {
        assert forall|idx: int| 0 <= idx < n * n implies folds_to(
            plus,
            zero,
            edge_contributions(edges@.subrange(0, 0), n as int, idx),
            #[trigger] out@[idx],
        ) by {
            assert(edge_contributions(edges@.subrange(0, 0), n as int, idx) =~= Seq::<T>::empty());
            lemma_folds_empty(plus, zero, edge_contributions(edges@.subrange(0, 0), n as int, idx));
        }
    }
    let mut e: usize = 0;
    while e < edges.len()
        invariant
            0 <= e <= edges@.len(),
            nn == n * n,
            out@.len() == nn,
            forall|e2: int|
                0 <= e2 < edges@.len() ==> #[trigger] edges@[e2].0 * n + edges@[e2].1 < n * n && edges@[e2].1
                    * n + edges@[e2].0 < n * n,
            forall|a: T, b: T| call_requires(plus, (a, b)),
            forall|idx: int|
                0 <= idx < n * n ==> folds_to(
                    plus,
                    zero,
                    edge_contributions(edges@.subrange(0, e as int), n as int, idx),
                    #[trigger] out@[idx],
                ),
        decreases edges@.len() - e,
    {
        let (i, j, w) = edges[e];
        assert(edges@[e as int].0 * n + edges@[e as int].1 < n * n);
        let idx1 = i * n + j;
        let idx2 = j * n + i;
        let ghost before = out@;
        let v1 = plus(out[idx1], w);
        out.set(idx1, v1);
        let ghost mid = out@;
        let v2 = plus(out[idx2], w);
        out.set(idx2, v2);
        proof {
            let pre = edges@.subrange(0, e as int);
            let post = edges@.subrange(0, e + 1);
            assert(post.drop_last() =~= pre);
            assert(post.last() == (i, j, w));
            assert forall|idx: int| 0 <= idx < n * n implies folds_to(
                plus,
                zero,
                edge_contributions(post, n as int, idx),
                #[trigger] out@[idx],
            ) by {
                let c = edge_contributions(pre, n as int, idx);
                assert(folds_to(plus, zero, c, before[idx]));
                if idx == idx1 {
                    lemma_folds_push(plus, zero, c, before[idx], w, v1);
                    if idx == idx2 {
                        lemma_folds_push(plus, zero, c.push(w), v1, w, v2);
                    }
                } else if idx == idx2 {
                    lemma_folds_push(plus, zero, c, before[idx], w, v2);
                }
            }
        }
        e = e + 1;
    }
    proof {
        assert(edges@.subrange(0, edges@.len() as int) =~= edges@);
    }
    out
}

/// The weights one edge `e` adds at flat position `idx`: its weight for
/// `(i, j)`, then its weight again for `(j, i)`, where those positions are `idx`.
pub open spec fn own_contributions<T>(e: (usize, usize, T), n: int, idx: int) -> Seq<T> {
    (if e.0 * n + e.1 == idx {
        seq![e.2]
    } else {
        Seq::<T>::empty()
    }) + (if e.1 * n + e.0 == idx {
        seq![e.2]
    } else {
        Seq::<T>::empty()
    })
}

/// Law: every edge contributes on its own. No edges contribute nothing; a
/// single edge contributes its weight once per position of `(i, j)` and
/// `(j, i)` that is `idx`; and the contributions of two edge lists put
/// together are those of the first followed by those of the second, whatever
/// edges come before or after.
pub proof fn lemma_edge_contributions_split<T>(e1: Seq<(usize, usize, T)>, e2: Seq<(usize, usize, T)>, n: int, idx: int)
    ensures
        edge_contributions(Seq::<(usize, usize, T)>::empty(), n, idx) == Seq::<T>::empty(),
        forall|e: (usize, usize, T)| #[trigger] edge_contributions(seq![e], n, idx) == own_contributions(e, n, idx),
        edge_contributions(e1 + e2, n, idx) == edge_contributions(e1, n, idx) + edge_contributions(e2, n, idx),
    decreases e2.len(),
{
    assert forall|e: (usize, usize, T)| #[trigger] edge_contributions(seq![e], n, idx) == own_contributions(e, n, idx) by {
        let s = seq![e];
        assert(s.len() == 1);
        assert(s.last() == e);
        assert(s.drop_last() =~= Seq::<(usize, usize, T)>::empty());
        assert(edge_contributions(s.drop_last(), n, idx) == Seq::<T>::empty());
        assert(edge_contributions(s, n, idx) =~= own_contributions(e, n, idx));
    }
    if e2.len() == 0 {
        assert(e1 + e2 =~= e1);
        assert(edge_contributions(e1, n, idx) + edge_contributions(e2, n, idx) =~= edge_contributions(e1, n, idx));
    } else {
        lemma_edge_contributions_split(e1, e2.drop_last(), n, idx);
        let all = e1 + e2;
        assert(all.drop_last() =~= e1 + e2.drop_last());
        assert(all.last() == e2.last());
        let a = edge_contributions(e1, n, idx);
        let b = edge_contributions(e2.drop_last(), n, idx);
        let e = e2.last();
        assert(edge_contributions(all, n, idx) =~= a + b + own_contributions(e, n, idx));
        assert(edge_contributions(e2, n, idx) =~= b + own_contributions(e, n, idx));
        assert(a + b + own_contributions(e, n, idx) =~= a + (b + own_contributions(e, n, idx)));
    }
}

} // verus!
