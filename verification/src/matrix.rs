//! Dense row-major matrix and the integer matrix-vector kernels.

use vstd::arithmetic::div_mod::lemma_fundamental_div_mod_converse;
use vstd::prelude::*;

verus! {

/// Row-major dense matrix: entry `(i, j)` lives at `data[i * cols + j]`.
#[derive(Clone, Debug)]
pub struct Matrix<T> {
    pub rows: usize,
    pub cols: usize,
    pub data: Vec<T>,
}

/// A flat position `i * cols + j` of an in-bounds cell lies inside the
/// buffer and decodes back to `(i, j)`.
pub proof fn lemma_cell_index(i: int, j: int, rows: int, cols: int)
    requires
        0 <= i < rows,
        0 <= j < cols,
    ensures
        0 <= i * cols + j < rows * cols,
        (i * cols + j) / cols == i,
        (i * cols + j) % cols == j,
        i * cols + j + 1 <= (i + 1) * cols,
{
    assert(0 <= i * cols) by (nonlinear_arith)
        requires
            0 <= i,
            0 <= cols,
    ;
    assert(i * cols + j < rows * cols) by (nonlinear_arith)
        requires
            0 <= i < rows,
            0 <= j < cols,
    ;
    assert((i + 1) * cols == i * cols + cols) by (nonlinear_arith);
    lemma_fundamental_div_mod_converse(i * cols + j, cols, i, j);
}

impl<T> Matrix<T> {
    /// The buffer holds exactly `rows * cols` entries.
    pub open spec fn wf(&self) -> bool {
        self.data@.len() == self.rows * self.cols
    }

    /// Entry `(i, j)`.
    pub open spec fn entry(&self, i: int, j: int) -> T {
        self.data@[i * self.cols + j]
    }

    /// The buffer's length is a `usize`.
    pub proof fn lemma_buffer_fits(&self)
        ensures
            self.data@.len() <= usize::MAX,
    {
        assert(self.data.len() == self.data@.len());
    }

    /// Build a matrix from a row-major buffer of `rows * cols` entries.
    pub fn from_row_major(rows: usize, cols: usize, data: Vec<T>) -> (m: Self)
        requires
            data@.len() == rows * cols,
        ensures
            m.wf(),
            m.rows == rows,
            m.cols == cols,
            m.data@ == data@,
    {
        Matrix { rows, cols, data }
    }
}

impl<T: Copy> Matrix<T> {
    /// Entry `(i, j)`.
    pub fn get(&self, i: usize, j: usize) -> (v: T)
        requires
            self.wf(),
            i < self.rows,
            j < self.cols,
        ensures
            v == self.entry(i as int, j as int),
    {
        proof {
            self.lemma_buffer_fits();
            lemma_cell_index(i as int, j as int, self.rows as int, self.cols as int);
        }
        self.data[i * self.cols + j]
    }

    /// Overwrite entry `(i, j)` with `v`; every other entry is kept.
    pub fn set(&mut self, i: usize, j: usize, v: T)
        requires
            old(self).wf(),
            i < old(self).rows,
            j < old(self).cols,
        ensures
            final(self).wf(),
            final(self).rows == old(self).rows,
            final(self).cols == old(self).cols,
            final(self).data@ == old(self).data@.update(i * old(self).cols + j, v),
            final(self).entry(i as int, j as int) == v,
            forall|a: int, b: int|
                0 <= a < old(self).rows && 0 <= b < old(self).cols && (a != i || b != j)
                    ==> #[trigger] final(self).entry(a, b) == old(self).entry(a, b),
    {
        proof {
            self.lemma_buffer_fits();
            lemma_cell_index(i as int, j as int, self.rows as int, self.cols as int);
        }
        let k = i * self.cols + j;
        self.data.set(k, v);
        proof {
            assert forall|a: int, b: int|
                0 <= a < self.rows && 0 <= b < self.cols && (a != i || b != j) implies #[trigger] self.entry(a, b)
                == old(self).entry(a, b) by {
                lemma_cell_index(a, b, self.rows as int, self.cols as int);
            }
        }
    }

    /// Row `i` as a slice of `cols` entries.
    pub fn row(&self, i: usize) -> (r: &[T])
        requires
            self.wf(),
            i < self.rows,
        ensures
            r@ == self.data@.subrange(i * self.cols, (i + 1) * self.cols),
            r@.len() == self.cols,
            forall|j: int| 0 <= j < self.cols ==> r@[j] == #[trigger] self.entry(i as int, j),
    {
        proof {
            self.lemma_buffer_fits();
            lemma_row_bounds(i as int, self.rows as int, self.cols as int);
        }
        vstd::slice::slice_subrange(self.data.as_slice(), i * self.cols, (i + 1) * self.cols)
    }

    /// The submatrix made of rows `rs` and columns `cs`, in the given order.
    pub fn select(&self, rs: &Vec<usize>, cs: &Vec<usize>) -> (s: Self)
        requires
            self.wf(),
            forall|a: int| 0 <= a < rs@.len() ==> #[trigger] rs@[a] < self.rows,
            forall|b: int| 0 <= b < cs@.len() ==> #[trigger] cs@[b] < self.cols,
            rs@.len() * cs@.len() <= usize::MAX,
        ensures
            s.wf(),
            s.rows == rs@.len(),
            s.cols == cs@.len(),
            forall|a: int, b: int|
                0 <= a < rs@.len() && 0 <= b < cs@.len() ==> #[trigger] s.entry(a, b)
                    == self.entry(rs@[a] as int, cs@[b] as int),
    {
        let nr = rs.len();
        let nc = cs.len();
        let mut data: Vec<T> = Vec::new();
        let mut a: usize = 0;
        while a < nr
            invariant
                self.wf(),
                nr == rs@.len(),
                nc == cs@.len(),
                nr * nc <= usize::MAX,
                0 <= a <= nr,
                forall|x: int| 0 <= x < rs@.len() ==> #[trigger] rs@[x] < self.rows,
                forall|y: int| 0 <= y < cs@.len() ==> #[trigger] cs@[y] < self.cols,
                data@.len() == a * nc,
                forall|k: int|
                    0 <= k < data@.len() ==> #[trigger] data@[k] == self.entry(
                        rs@[k / nc as int] as int,
                        cs@[k % nc as int] as int,
                    ),
            decreases nr - a,
        {
            let mut b: usize = 0;
            while b < nc
                invariant
                    self.wf(),
                    nr == rs@.len(),
                    nc == cs@.len(),
                    0 <= a < nr,
                    0 <= b <= nc,
                    forall|x: int| 0 <= x < rs@.len() ==> #[trigger] rs@[x] < self.rows,
                    forall|y: int| 0 <= y < cs@.len() ==> #[trigger] cs@[y] < self.cols,
                    data@.len() == a * nc + b,
                    forall|k: int|
                        0 <= k < data@.len() ==> #[trigger] data@[k] == self.entry(
                            rs@[k / nc as int] as int,
                            cs@[k % nc as int] as int,
                        ),
                decreases nc - b,
            {
                let v = self.get(rs[a], cs[b]);
                proof {
                    lemma_cell_index(a as int, b as int, nr as int, nc as int);
                }
                data.push(v);
                b = b + 1;
            }
            proof {
                assert((a + 1) * nc == a * nc + nc) by (nonlinear_arith);
            }
            a = a + 1;
        }
        proof {
            assert forall|x: int, y: int| 0 <= x < rs@.len() && 0 <= y < cs@.len() implies
                data@[x * nc + y] == self.entry(rs@[x] as int, cs@[y] as int) by {
                lemma_cell_index(x, y, nr as int, nc as int);
            }
        }
        Matrix { rows: nr, cols: nc, data }
    }
}

/// Two well-formed matrices with the same shape and the same entries have
/// the same buffer.
pub proof fn lemma_same_entries_same_data<T>(x: Matrix<T>, y: Matrix<T>)
    requires
        x.wf(),
        y.wf(),
        x.rows == y.rows,
        x.cols == y.cols,
        forall|i: int, j: int|
            0 <= i < x.rows && 0 <= j < x.cols ==> #[trigger] x.entry(i, j) == y.entry(i, j),
    ensures
        x.data@ == y.data@,
{
    let c = x.cols as int;
    assert forall|k: int| 0 <= k < x.data@.len() implies #[trigger] x.data@[k] == y.data@[k] by {
        let q = k / c;
        let r = k % c;
        assert(c > 0) by (nonlinear_arith)
            requires
                0 <= k < x.rows * c,
                x.rows >= 0,
        ;
        vstd::arithmetic::div_mod::lemma_fundamental_div_mod(k, c);
        assert(0 <= r < c) by {
            vstd::arithmetic::div_mod::lemma_mod_bound(k, c);
        }
        assert(0 <= q < x.rows) by (nonlinear_arith)
            requires
                k == c * q + r,
                0 <= r < c,
                0 <= k < x.rows * c,
        ;
        assert(q * c + r == k) by (nonlinear_arith)
            requires
                k == c * q + r,
        ;
        assert(x.entry(q, r) == y.entry(q, r));
    }
    assert(x.data@ =~= y.data@);
}

/// Row `i` occupies the half-open range `[i * cols, (i + 1) * cols)` of the
/// buffer.
pub proof fn lemma_row_bounds(i: int, rows: int, cols: int)
    requires
        0 <= i < rows,
        0 <= cols,
    ensures
        0 <= i * cols,
        i * cols + cols == (i + 1) * cols,
        (i + 1) * cols <= rows * cols,
{
    assert(0 <= i * cols) by (nonlinear_arith)
        requires
            0 <= i,
            0 <= cols,
    ;
    assert((i + 1) * cols == i * cols + cols) by (nonlinear_arith);
    assert((i + 1) * cols <= rows * cols) by (nonlinear_arith)
        requires
            i + 1 <= rows,
            0 <= cols,
    ;
}


/// The vector of `n` ones.
pub open spec fn ones(n: int) -> Seq<u64> {
    Seq::new(n as nat, |k: int| 1u64)
}

impl Matrix<u64> {
    /// Every entry is 0 or 1.
    pub open spec fn is_binary(&self) -> bool {
        forall|i: int, j: int|
            0 <= i < self.rows && 0 <= j < self.cols ==> #[trigger] self.entry(i, j) <= 1
    }

    /// Column `j` as a vector of `rows` entries.
    pub open spec fn column(&self, j: int) -> Seq<u64> {
        Seq::new(self.rows as nat, |c: int| self.entry(c, j))
    }

    /// `sum_{j < n} self[i][j] * x[j]`: the first `n` terms of row `i` times `x`.
    pub open spec fn row_dot(&self, i: int, x: Seq<u64>, n: int) -> int
        decreases n,
    {
        if n <= 0 {
            0
        } else {
            self.row_dot(i, x, n - 1) + self.entry(i, n - 1) * x[n - 1]
        }
    }

    /// `sum_{i < n} self[i][j] * x[i]`: the first `n` terms of column `j` times `x`.
    pub open spec fn col_dot(&self, j: int, x: Seq<u64>, n: int) -> int
        decreases n,
    {
        if n <= 0 {
            0
        } else {
            self.col_dot(j, x, n - 1) + self.entry(n - 1, j) * x[n - 1]
        }
    }

    /// The all-zero `rows x cols` matrix.
    pub fn zeros(rows: usize, cols: usize) -> (m: Self)
        requires
            rows * cols <= usize::MAX,
        ensures
            m.wf(),
            m.rows == rows,
            m.cols == cols,
            forall|k: int| 0 <= k < m.data@.len() ==> #[trigger] m.data@[k] == 0,
    {
        let n = rows * cols;
        let mut data: Vec<u64> = Vec::new();
        let mut k: usize = 0;
        while k < n
            invariant
                0 <= k <= n,
                data@.len() == k,
                forall|t: int| 0 <= t < data@.len() ==> #[trigger] data@[t] == 0,
            decreases n - k,
        {
            data.push(0);
            k = k + 1;
        }
        Matrix { rows, cols, data }
    }

    /// `sum_j self[i][j] * x[j]`, summed over `j` in increasing order.
    pub fn row_times(&self, i: usize, x: &[u64]) -> (s: u64)
        requires
            self.wf(),
            i < self.rows,
            x@.len() == self.cols,
            self.row_dot(i as int, x@, self.cols as int) <= u64::MAX,
        ensures
            s == self.row_dot(i as int, x@, self.cols as int),
    {
        let mut s: u64 = 0;
        let mut j: usize = 0;
        while j < self.cols
            invariant
                self.wf(),
                x@.len() == self.cols,
                0 <= i < self.rows,
                self.row_dot(i as int, x@, self.cols as int) <= u64::MAX,
                0 <= j <= self.cols,
                s == self.row_dot(i as int, x@, j as int),
            decreases self.cols - j,
        {
            let a = self.get(i, j);
            proof {
                self.lemma_row_dot_prefix(i as int, x@, j as int + 1, self.cols as int);
                lemma_product_le(a as int, x@[j as int] as int, s as int);
            }
            s = s + a * x[j];
            j = j + 1;
        }
        s
    }

    /// `sum_i self[i][j] * x[i]`, summed over `i` in increasing order.
    pub fn col_times(&self, j: usize, x: &[u64]) -> (s: u64)
        requires
            self.wf(),
            j < self.cols,
            x@.len() == self.rows,
            self.col_dot(j as int, x@, self.rows as int) <= u64::MAX,
        ensures
            s == self.col_dot(j as int, x@, self.rows as int),
    {
        let mut s: u64 = 0;
        let mut i: usize = 0;
        while i < self.rows
            invariant
                self.wf(),
                x@.len() == self.rows,
                0 <= j < self.cols,
                self.col_dot(j as int, x@, self.rows as int) <= u64::MAX,
                0 <= i <= self.rows,
                s == self.col_dot(j as int, x@, i as int),
            decreases self.rows - i,
        {
            let a = self.get(i, j);
            proof {
                self.lemma_col_dot_prefix(j as int, x@, i as int + 1, self.rows as int);
                lemma_product_le(a as int, x@[i as int] as int, s as int);
            }
            s = s + a * x[i];
            i = i + 1;
        }
        s
    }

    /// `y = M x` (`x` has `cols` entries, `y` has `rows`); rows are computed
    /// in parallel.
    pub fn matvec(&self, x: &[u64]) -> (y: Vec<u64>)
        requires
            self.wf(),
            x@.len() == self.cols,
            forall|i: int| 0 <= i < self.rows ==> #[trigger] self.row_dot(i, x@, self.cols as int) <= u64::MAX,
        ensures
            y@.len() == self.rows,
            forall|i: int| 0 <= i < self.rows ==> #[trigger] y@[i] == self.row_dot(i, x@, self.cols as int),
    {
        let f = |i: usize| -> (s: u64)
            requires
                self.wf(),
                i < self.rows,
                x@.len() == self.cols,
                forall|r: int| 0 <= r < self.rows ==> #[trigger] self.row_dot(r, x@, self.cols as int) <= u64::MAX,
            ensures
                s == self.row_dot(i as int, x@, self.cols as int),
            { self.row_times(i, x) };
        crate::parallel::map_indices(self.rows, f)
    }

    /// `y = M^T x` (`x` has `rows` entries, `y` has `cols`); columns are
    /// computed in parallel, each summed over the rows in increasing order.
    pub fn matvec_transpose(&self, x: &[u64]) -> (y: Vec<u64>)
        requires
            self.wf(),
            x@.len() == self.rows,
            forall|j: int| 0 <= j < self.cols ==> #[trigger] self.col_dot(j, x@, self.rows as int) <= u64::MAX,
        ensures
            y@.len() == self.cols,
            forall|j: int| 0 <= j < self.cols ==> #[trigger] y@[j] == self.col_dot(j, x@, self.rows as int),
    {
        let f = |j: usize| -> (s: u64)
            requires
                self.wf(),
                j < self.cols,
                x@.len() == self.rows,
                forall|c: int| 0 <= c < self.cols ==> #[trigger] self.col_dot(c, x@, self.rows as int) <= u64::MAX,
            ensures
                s == self.col_dot(j as int, x@, self.rows as int),
            { self.col_times(j, x) };
        crate::parallel::map_indices(self.cols, f)
    }

    /// Row dot products only grow as more terms are added.
    pub proof fn lemma_row_dot_prefix(&self, i: int, x: Seq<u64>, n: int, m: int)
        requires
            0 <= n <= m,
        ensures
            self.row_dot(i, x, n) <= self.row_dot(i, x, m),
        decreases m - n,
    {
        if n < m {
            self.lemma_row_dot_prefix(i, x, n, m - 1);
            lemma_product_le(self.entry(i, m - 1) as int, x[m - 1] as int, 0);
        }
    }

    /// Column dot products only grow as more terms are added.
    pub proof fn lemma_col_dot_prefix(&self, j: int, x: Seq<u64>, n: int, m: int)
        requires
            0 <= n <= m,
        ensures
            self.col_dot(j, x, n) <= self.col_dot(j, x, m),
        decreases m - n,
    {
        if n < m {
            self.lemma_col_dot_prefix(j, x, n, m - 1);
            lemma_product_le(self.entry(m - 1, j) as int, x[m - 1] as int, 0);
        }
    }
}

impl Matrix<u64> {
    /// `sum_{j < n} (M^T x)[j] * y[j]`, where `(M^T x)[j]` sums over the first
    /// `r` rows.
    pub open spec fn transpose_pairing(&self, x: Seq<u64>, y: Seq<u64>, r: int, n: int) -> int
        decreases n,
    {
        if n <= 0 {
            0
        } else {
            self.transpose_pairing(x, y, r, n - 1) + self.col_dot(n - 1, x, r) * y[n - 1]
        }
    }

    /// `sum_{i < n} x[i] * (M y)[i]`, where `(M y)[i]` sums over the first `c`
    /// columns.
    pub open spec fn pairing(&self, x: Seq<u64>, y: Seq<u64>, c: int, n: int) -> int
        decreases n,
    {
        if n <= 0 {
            0
        } else {
            self.pairing(x, y, c, n - 1) + x[n - 1] * self.row_dot(n - 1, y, c)
        }
    }

    /// With no rows, every column product is 0, so the pairing is 0.
    proof fn lemma_transpose_pairing_no_rows(&self, x: Seq<u64>, y: Seq<u64>, n: int)
        ensures
            self.transpose_pairing(x, y, 0, n) == 0,
        decreases n,
    {
        if n > 0 {
            self.lemma_transpose_pairing_no_rows(x, y, n - 1);
        }
    }

    /// Adding row `r` to every column product adds `x[r]` times row `r`'s
    /// product with `y`.
    proof fn lemma_transpose_pairing_next_row(&self, x: Seq<u64>, y: Seq<u64>, r: int, n: int)
        requires
            0 <= r,
        ensures
            self.transpose_pairing(x, y, r + 1, n) == self.transpose_pairing(x, y, r, n) + x[r]
                * self.row_dot(r, y, n),
        decreases n,
    {
        if n > 0 {
            self.lemma_transpose_pairing_next_row(x, y, r, n - 1);
            let c = self.col_dot(n - 1, x, r);
            let e = self.entry(r, n - 1) as int;
            let xr = x[r] as int;
            let yj = y[n - 1] as int;
            let rd = self.row_dot(r, y, n - 1);
            assert(self.col_dot(n - 1, x, r + 1) == c + e * xr);
            assert(self.row_dot(r, y, n) == rd + e * yj);
            assert((c + e * xr) * yj == c * yj + xr * (e * yj) && xr * (rd + e * yj) == xr * rd + xr
                * (e * yj)) by (nonlinear_arith);
        }
    }

    /// Both pairings agree on the first `r` rows and `n` columns.
    proof fn lemma_pairings_agree(&self, x: Seq<u64>, y: Seq<u64>, r: int, n: int)
        requires
            0 <= r,
        ensures
            self.transpose_pairing(x, y, r, n) == self.pairing(x, y, n, r),
        decreases r,
    {
        if r == 0 {
            self.lemma_transpose_pairing_no_rows(x, y, n);
        } else {
            self.lemma_pairings_agree(x, y, r - 1, n);
            self.lemma_transpose_pairing_next_row(x, y, r - 1, n);
        }
    }
}

/// `matvec_transpose` is the adjoint of `matvec`: for `x` with `rows`
/// entries and `y` with `cols` entries, `<M^T x, y> == <x, M y>`, both being
/// `sum_{i, j} M[i][j] * x[i] * y[j]`.
pub proof fn law_matvec_transpose_adjoint(m: Matrix<u64>, x: Seq<u64>, y: Seq<u64>)
    requires
        x.len() == m.rows,
        y.len() == m.cols,
    ensures
        m.transpose_pairing(x, y, m.rows as int, m.cols as int) == m.pairing(
            x,
            y,
            m.cols as int,
            m.rows as int,
        ),
{
    m.lemma_pairings_agree(x, y, m.rows as int, m.cols as int);
}

/// For non-negative `a`, `b`, `s`: `a * b` is non-negative and at most `s + a * b`.
pub proof fn lemma_product_le(a: int, b: int, s: int)
    requires
        0 <= a,
        0 <= b,
        0 <= s,
    ensures
        0 <= a * b,
        a * b <= s + a * b,
{
    assert(0 <= a * b) by (nonlinear_arith)
        requires
            0 <= a,
            0 <= b,
    ;
}

} // verus!
