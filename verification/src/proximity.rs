//! Product proximity (Hidalgo et al. 2007), kept as exact fractions.

use crate::complexity::{lemma_binary_col_dot, lemma_binary_row_dot_ones};
use crate::matrix::{ones, Matrix};
use vstd::prelude::*;

verus! {

/// The fraction `num / den`.
#[derive(Clone, Copy, Debug, PartialEq, Eq, Structural)]
pub struct Ratio {
    pub num: u64,
    pub den: u64,
}

impl Matrix<u64> {
    /// Co-export count of products `a` and `b` over the first `n` countries:
    /// `sum_{c < n} M[c][a] * M[c][b]`.
    pub open spec fn co_export(&self, a: int, b: int, n: int) -> int
        decreases n,
    {
        if n <= 0 {
            0
        } else {
            self.co_export(a, b, n - 1) + self.entry(n - 1, a) * self.entry(n - 1, b)
        }
    }

    /// Every co-export count fits in a `u64`.
    pub open spec fn co_exports_fit(&self) -> bool {
        forall|a: int, b: int|
            0 <= a < self.cols && 0 <= b < self.cols ==> #[trigger] self.co_export(a, b, self.rows as int)
                <= u64::MAX
    }
}

/// The larger of two values.
pub open spec fn max_u64(x: u64, y: u64) -> u64 {
    if x >= y {
        x
    } else {
        y
    }
}

/// Proximity of products `a` and `b` given ubiquities `kp`: the co-export
/// count over `max(kp[a], kp[b])`, and `0 / 1` where that maximum is 0.
pub open spec fn proximity_entry(m: Matrix<u64>, kp: Seq<u64>, a: int, b: int) -> Ratio {
    let den = max_u64(kp[a], kp[b]);
    if den > 0 {
        Ratio { num: m.co_export(a, b, m.rows as int) as u64, den }
    } else {
        Ratio { num: 0, den: 1 }
    }
}

/// Multiplying column `a` into column `b` counts the co-exports of `a` and `b`.
proof fn lemma_col_dot_is_co_export(m: Matrix<u64>, a: int, b: int, n: int)
    requires
        0 <= n <= m.rows,
    ensures
        m.col_dot(b, m.column(a), n) == m.co_export(a, b, n),
    decreases n,
{
    if n > 0 {
        lemma_col_dot_is_co_export(m, a, b, n - 1);
        let x = m.entry(n - 1, a) as int;
        let y = m.entry(n - 1, b) as int;
        assert(y * x == x * y) by (nonlinear_arith);
    }
}

/// Co-export counts are symmetric in the two products.
proof fn lemma_co_export_symmetric(m: Matrix<u64>, a: int, b: int, n: int)
    ensures
        m.co_export(a, b, n) == m.co_export(b, a, n),
    decreases n,
{
    if n > 0 {
        lemma_co_export_symmetric(m, a, b, n - 1);
        let x = m.entry(n - 1, a) as int;
        let y = m.entry(n - 1, b) as int;
        assert(y * x == x * y) by (nonlinear_arith);
    }
}

/// In a binary matrix the co-export count of `a` with any `b` is at most the
/// ubiquity of `a`, and equals it when `b == a`.
proof fn lemma_co_export_bounded(m: Matrix<u64>, a: int, b: int, n: int)
    requires
        m.is_binary(),
        0 <= a < m.cols,
        0 <= b < m.cols,
        0 <= n <= m.rows,
    ensures
        0 <= m.co_export(a, b, n) <= m.col_dot(a, ones(m.rows as int), n),
        m.co_export(a, a, n) == m.col_dot(a, ones(m.rows as int), n),
    decreases n,
{
    if n > 0 {
        lemma_co_export_bounded(m, a, b, n - 1);
        let x = m.entry(n - 1, a) as int;
        let y = m.entry(n - 1, b) as int;
        assert(x <= 1);
        assert(y <= 1);
        assert(0 <= x * y <= x * 1 && x * x == x * 1) by (nonlinear_arith)
            requires
                0 <= x <= 1,
                0 <= y <= 1,
        ;
    }
}

/// Column `a` of `m` as a vector.
fn column_of(m: &Matrix<u64>, a: usize) -> (x: Vec<u64>)
    requires
        m.wf(),
        a < m.cols,
    ensures
        x@ == m.column(a as int),
{
    let mut x: Vec<u64> = Vec::new();
    let mut c: usize = 0;
    while c < m.rows
        invariant
            m.wf(),
            a < m.cols,
            0 <= c <= m.rows,
            x@ == Seq::new(c as nat, |t: int| m.entry(t, a as int)),
        decreases m.rows - c,
    {
        let v = m.get(c, a);
        x.push(v);
        proof {
            assert(x@ =~= Seq::new(c as nat + 1, |t: int| m.entry(t, a as int)));
        }
        c = c + 1;
    }
    x
}

/// Row `a` of the proximity matrix: `proximity_entry(m, kp, a, b)` for every
/// product `b`.
pub fn proximity_row(m: &Matrix<u64>, kp: &[u64], a: usize) -> (row: Vec<Ratio>)
    requires
        m.wf(),
        m.co_exports_fit(),
        kp@.len() == m.cols,
        a < m.cols,
    ensures
        row@.len() == m.cols,
        forall|b: int| 0 <= b < m.cols ==> #[trigger] row@[b] == proximity_entry(*m, kp@, a as int, b),
{
    let p = m.cols;
    let x = column_of(m, a);
    proof {
        assert forall|j: int| 0 <= j < m.cols implies #[trigger] m.col_dot(j, x@, m.rows as int)
            <= u64::MAX by {
            lemma_col_dot_is_co_export(*m, a as int, j, m.rows as int);
        }
    }
    let co = m.matvec_transpose(x.as_slice());
    let mut row: Vec<Ratio> = Vec::new();
    let mut b: usize = 0;
    while b < p
        invariant
            m.wf(),
            p == m.cols,
            kp@.len() == p,
            0 <= a < p,
            0 <= b <= p,
            x@ == m.column(a as int),
            co@.len() == p,
            forall|j: int| 0 <= j < p ==> #[trigger] co@[j] == m.col_dot(j, x@, m.rows as int),
            row@.len() == b,
            forall|t: int| 0 <= t < b ==> #[trigger] row@[t] == proximity_entry(*m, kp@, a as int, t),
        decreases p - b,
    {
        let ka = kp[a];
        let kb = kp[b];
        let den = if ka >= kb {
            ka
        } else {
            kb
        };
        let r = if den > 0 {
            Ratio { num: co[b], den }
        } else {
            Ratio { num: 0, den: 1 }
        };
        proof {
            lemma_col_dot_is_co_export(*m, a as int, b as int, m.rows as int);
        }
        row.push(r);
        b = b + 1;
    }
    row
}

/// Co-export counts only grow as more countries are added.
proof fn lemma_co_export_prefix(m: Matrix<u64>, a: int, b: int, n: int, k: int)
    requires
        0 <= n <= k,
    ensures
        0 <= m.co_export(a, b, n) <= m.co_export(a, b, k),
    decreases k - n,
{
    if n < k {
        lemma_co_export_prefix(m, a, b, n, k - 1);
        crate::matrix::lemma_product_le(m.entry(k - 1, a) as int, m.entry(k - 1, b) as int, 0);
    } else {
        lemma_co_export_nonneg(m, a, b, n);
    }
}

/// Co-export counts are non-negative.
proof fn lemma_co_export_nonneg(m: Matrix<u64>, a: int, b: int, n: int)
    ensures
        0 <= m.co_export(a, b, n),
    decreases n,
{
    if n > 0 {
        lemma_co_export_nonneg(m, a, b, n - 1);
        crate::matrix::lemma_product_le(m.entry(n - 1, a) as int, m.entry(n - 1, b) as int, 0);
    }
}

/// Entry `(a, b)` of the proximity matrix.
pub fn proximity_cell(m: &Matrix<u64>, kp: &[u64], a: usize, b: usize) -> (r: Ratio)
    requires
        m.wf(),
        m.co_exports_fit(),
        kp@.len() == m.cols,
        a < m.cols,
        b < m.cols,
    ensures
        r == proximity_entry(*m, kp@, a as int, b as int),
{
    let ka = kp[a];
    let kb = kp[b];
    let den = if ka >= kb {
        ka
    } else {
        kb
    };
    if den == 0 {
        return Ratio { num: 0, den: 1 };
    }
    let mut co: u64 = 0;
    let mut c: usize = 0;
    while c < m.rows
        invariant
            m.wf(),
            m.co_exports_fit(),
            a < m.cols,
            b < m.cols,
            0 <= c <= m.rows,
            co == m.co_export(a as int, b as int, c as int),
        decreases m.rows - c,
    {
        let x = m.get(c, a);
        let y = m.get(c, b);
        proof {
            lemma_co_export_prefix(*m, a as int, b as int, c as int + 1, m.rows as int);
            crate::matrix::lemma_product_le(x as int, y as int, co as int);
        }
        co = co + x * y;
        c = c + 1;
    }
    Ratio { num: co, den }
}

/// Product proximity: entry `(a, b)` is the number of countries exporting
/// both `a` and `b` over `max(kp[a], kp[b])`, and `0 / 1` where that maximum
/// is 0. The result is `cols x cols`; its cells are computed in parallel.
pub fn proximity(m: &Matrix<u64>, kp: &[u64]) -> (phi: Matrix<Ratio>)
    requires
        m.wf(),
        m.co_exports_fit(),
        kp@.len() == m.cols,
        m.cols * m.cols <= usize::MAX,
    ensures
        phi.wf(),
        phi.rows == m.cols,
        phi.cols == m.cols,
        forall|a: int, b: int|
            0 <= a < m.cols && 0 <= b < m.cols ==> #[trigger] phi.entry(a, b) == proximity_entry(
                *m,
                kp@,
                a,
                b,
            ),
{
    let p = m.cols;
    let f = |k: usize| -> (r: Ratio)
        requires
            m.wf(),
            m.co_exports_fit(),
            kp@.len() == m.cols,
            p == m.cols,
            k < p * p,
        ensures
            r == proximity_entry(*m, kp@, k as int / p as int, k as int % p as int),
        {
            proof {
                lemma_flat_index(k as int, p as int);
            }
            proximity_cell(m, kp, k / p, k % p)
        };
    let data = crate::parallel::map_indices(p * p, f);
    proof {
        assert forall|x: int, y: int| 0 <= x < p && 0 <= y < p implies data@[x * p + y]
            == proximity_entry(*m, kp@, x, y) by {
            crate::matrix::lemma_cell_index(x, y, p as int, p as int);
        }
    }
    Matrix::from_row_major(p, p, data)
}

/// A position below `p * p` decodes to a row and a column below `p`.
proof fn lemma_flat_index(k: int, p: int)
    requires
        0 <= p,
        0 <= k < p * p,
    ensures
        p > 0,
        0 <= k / p < p,
        0 <= k % p < p,
{
    assert(p > 0) by (nonlinear_arith)
        requires
            0 <= p,
            0 <= k < p * p,
    ;
    vstd::arithmetic::div_mod::lemma_fundamental_div_mod(k, p);
    vstd::arithmetic::div_mod::lemma_mod_bound(k, p);
    assert(0 <= k / p < p) by (nonlinear_arith)
        requires
            k == p * (k / p) + k % p,
            0 <= k % p < p,
            0 <= k < p * p,
    ;
}

/// In a binary matrix every degree and every co-export count is at most the
/// number of countries or products, so all of them fit in a `u64`.
pub proof fn lemma_binary_fits(m: Matrix<u64>)
    requires
        m.is_binary(),
    ensures
        m.degrees_fit(),
        m.co_exports_fit(),
{
    assert forall|i: int| 0 <= i < m.rows implies #[trigger] m.row_dot(i, ones(m.cols as int), m.cols as int)
        <= u64::MAX by {
        lemma_binary_row_dot_ones(m, i, m.cols as int);
    }
    assert forall|j: int| 0 <= j < m.cols implies #[trigger] m.col_dot(j, ones(m.rows as int), m.rows as int)
        <= u64::MAX by {
        lemma_binary_col_dot(m, j, ones(m.rows as int), m.rows as int);
    }
    assert forall|a: int, b: int| 0 <= a < m.cols && 0 <= b < m.cols implies #[trigger] m.co_export(
        a,
        b,
        m.rows as int,
    ) <= u64::MAX by {
        lemma_co_export_bounded(m, a, b, m.rows as int);
        lemma_binary_col_dot(m, a, ones(m.rows as int), m.rows as int);
    }
}

/// Proximity is symmetric: `phi[a][b] == phi[b][a]`, whatever the ubiquities.
pub proof fn law_proximity_symmetric(m: Matrix<u64>, kp: Seq<u64>, a: int, b: int)
    ensures
        proximity_entry(m, kp, a, b) == proximity_entry(m, kp, b, a),
{
    lemma_co_export_symmetric(m, a, b, m.rows as int);
}

/// With the true ubiquities of a binary matrix, proximity lies in `[0, 1]`:
/// the numerator never exceeds the denominator.
pub proof fn law_proximity_at_most_one(m: Matrix<u64>, a: int, b: int)
    requires
        m.wf(),
        m.is_binary(),
        0 <= a < m.cols,
        0 <= b < m.cols,
    ensures
        proximity_entry(m, m.ubiquity_all(), a, b).num <= proximity_entry(
            m,
            m.ubiquity_all(),
            a,
            b,
        ).den,
        proximity_entry(m, m.ubiquity_all(), a, b).den > 0,
{
    lemma_co_export_bounded(m, a, b, m.rows as int);
    lemma_co_export_bounded(m, b, a, m.rows as int);
    lemma_co_export_symmetric(m, a, b, m.rows as int);
    lemma_binary_col_dot(m, a, ones(m.rows as int), m.rows as int);
    lemma_binary_col_dot(m, b, ones(m.rows as int), m.rows as int);
}

/// With the true ubiquities of a binary matrix, a product that some country
/// exports has proximity exactly 1 to itself.
pub proof fn law_proximity_diagonal_one(m: Matrix<u64>, a: int)
    requires
        m.wf(),
        m.is_binary(),
        0 <= a < m.cols,
        m.ubiquity_all()[a] > 0,
    ensures
        proximity_entry(m, m.ubiquity_all(), a, a).num == proximity_entry(
            m,
            m.ubiquity_all(),
            a,
            a,
        ).den,
{
    lemma_co_export_bounded(m, a, a, m.rows as int);
    lemma_binary_col_dot(m, a, ones(m.rows as int), m.rows as int);
}

/// With the true ubiquities of a binary matrix, a product that no country
/// exports has a zero row of proximities, its diagonal included.
pub proof fn law_proximity_unexported_zero(m: Matrix<u64>, a: int, b: int)
    requires
        m.wf(),
        m.is_binary(),
        0 <= a < m.cols,
        0 <= b < m.cols,
        m.ubiquity_all()[a] == 0,
    ensures
        proximity_entry(m, m.ubiquity_all(), a, b).num == 0,
{
    lemma_co_export_bounded(m, a, b, m.rows as int);
    lemma_binary_col_dot(m, a, ones(m.rows as int), m.rows as int);
}

/// Proximity is the smaller of the two conditional probabilities of
/// co-export: where some ubiquity is positive, the numerator is the co-export
/// count and the denominator is the larger of the two ubiquities, so the
/// fraction is at most both `co / kp[a]` and `co / kp[b]` and equals one of
/// them.
pub proof fn law_proximity_min_conditional(m: Matrix<u64>, kp: Seq<u64>, a: int, b: int)
    requires
        0 <= a < kp.len(),
        0 <= b < kp.len(),
        kp[a] > 0 || kp[b] > 0,
    ensures
        proximity_entry(m, kp, a, b).num == m.co_export(a, b, m.rows as int) as u64,
        proximity_entry(m, kp, a, b).den >= kp[a],
        proximity_entry(m, kp, a, b).den >= kp[b],
        proximity_entry(m, kp, a, b).den == kp[a] || proximity_entry(m, kp, a, b).den == kp[b],
{
}

/// `sum_{i < n} f(i)`.
pub open spec fn sum_over(f: spec_fn(int) -> int, n: int) -> int
    decreases n,
{
    if n <= 0 {
        0
    } else {
        sum_over(f, n - 1) + f(n - 1)
    }
}

/// `sum_{i < n} f(p[i])`.
pub open spec fn sum_through(f: spec_fn(int) -> int, p: Seq<int>, n: int) -> int
    decreases n,
{
    if n <= 0 {
        0
    } else {
        sum_through(f, p, n - 1) + f(p[n - 1])
    }
}

/// `c` occurs among the first `n` entries of `p`.
pub open spec fn occurs_in(p: Seq<int>, n: int, c: int) -> bool {
    exists|i: int| 0 <= i < n && #[trigger] p[i] == c
}

/// `p` lists every position `0..n` exactly once.
pub open spec fn is_permutation(p: Seq<int>, n: int) -> bool {
    &&& p.len() == n
    &&& forall|i: int| 0 <= i < n ==> 0 <= #[trigger] p[i] < n
    &&& forall|i: int, j: int| 0 <= i < j < n ==> #[trigger] p[i] != #[trigger] p[j]
    &&& forall|c: int| 0 <= c < n ==> #[trigger] occurs_in(p, n, c)
}

/// Sums through two lists that agree on the first `n` positions are equal.
proof fn lemma_sum_through_agree(f: spec_fn(int) -> int, p: Seq<int>, q: Seq<int>, n: int)
    requires
        forall|i: int| 0 <= i < n ==> #[trigger] p[i] == q[i],
    ensures
        sum_through(f, p, n) == sum_through(f, q, n),
    decreases n,
{
    if n > 0 {
        lemma_sum_through_agree(f, p, q, n - 1);
    }
}

/// Changing the list at one position `k < n` changes the sum by the
/// difference of the two terms.
proof fn lemma_sum_through_replace(f: spec_fn(int) -> int, p: Seq<int>, q: Seq<int>, k: int, n: int)
    requires
        0 <= k < n,
        forall|i: int| 0 <= i < n && i != k ==> #[trigger] p[i] == q[i],
    ensures
        sum_through(f, q, n) == sum_through(f, p, n) - f(p[k]) + f(q[k]),
    decreases n,
{
    if n - 1 == k {
        lemma_sum_through_agree(f, p, q, n - 1);
    } else {
        lemma_sum_through_replace(f, p, q, k, n - 1);
    }
}

/// Summing through a permutation of `0..n` gives the plain sum.
proof fn lemma_sum_through_permutation(f: spec_fn(int) -> int, p: Seq<int>, n: int)
    requires
        0 <= n,
        is_permutation(p, n),
    ensures
        sum_through(f, p, n) == sum_over(f, n),
    decreases n,
{
    if n > 0 {
        let last = n - 1;
        assert(occurs_in(p, n, last));
        let k = choose|i: int| 0 <= i < n && #[trigger] p[i] == last;
        let q = Seq::new(last as nat, |i: int| if i == k { p[last] } else { p[i] });
        assert forall|i: int| 0 <= i < last implies 0 <= #[trigger] q[i] < last by {
            if i == k {
                assert(p[last] != p[k]);
            } else {
                if i < k {
                    assert(p[i] != p[k]);
                } else {
                    assert(p[k] != p[i]);
                }
            }
        }
        assert forall|i: int, j: int| 0 <= i < j < last implies #[trigger] q[i] != #[trigger] q[j] by {
            if i == k {
                assert(p[j] != p[last]);
            } else if j == k {
                assert(p[i] != p[last]);
            } else {
                assert(p[i] != p[j]);
            }
        }
        assert forall|c: int| 0 <= c < last implies #[trigger] occurs_in(q, last, c) by {
            assert(occurs_in(p, n, c));
            let w = choose|i: int| 0 <= i < n && #[trigger] p[i] == c;
            if w == last {
                assert(k != last);
                assert(q[k] == c);
            } else {
                assert(w != k);
                assert(q[w] == c);
            }
        }
        lemma_sum_through_permutation(f, q, last);
        if k == last {
            lemma_sum_through_agree(f, p, q, last);
        } else {
            let q2 = q.push(p[last]);
            lemma_sum_through_agree(f, q, q2, last);
            assert(sum_through(f, q2, n) == sum_through(f, q, last) + f(p[last]));
            assert forall|i: int| 0 <= i < n && i != k implies #[trigger] p[i] == q2[i] by {
                if i < last {
                    assert(q2[i] == q[i]);
                }
            }
            lemma_sum_through_replace(f, p, q2, k, n);
        }
    }
}

/// The co-export count of `a` and `b` is the sum of the per-country terms.
proof fn lemma_co_export_sum(m: Matrix<u64>, a: int, b: int, n: int)
    ensures
        m.co_export(a, b, n) == sum_over(|c: int| m.entry(c, a) * m.entry(c, b), n),
    decreases n,
{
    if n > 0 {
        lemma_co_export_sum(m, a, b, n - 1);
    }
}

/// The co-export count of a row-reordered matrix sums the same terms through
/// the reordering.
proof fn lemma_co_export_reordered(m: Matrix<u64>, m2: Matrix<u64>, p: Seq<int>, a: int, b: int, n: int)
    requires
        0 <= a < m.cols,
        0 <= b < m.cols,
        m2.cols == m.cols,
        n <= m.rows,
        forall|i: int, j: int|
            0 <= i < m.rows && 0 <= j < m.cols ==> #[trigger] m2.entry(i, j) == m.entry(p[i], j),
    ensures
        m2.co_export(a, b, n) == sum_through(|c: int| m.entry(c, a) * m.entry(c, b), p, n),
    decreases n,
{
    if n > 0 {
        lemma_co_export_reordered(m, m2, p, a, b, n - 1);
        assert(m2.entry(n - 1, a) == m.entry(p[n - 1], a));
        assert(m2.entry(n - 1, b) == m.entry(p[n - 1], b));
    }
}

/// Proximity does not depend on the order of the countries: if `m2` holds
/// the rows of `m` reordered by a permutation `p` (row `i` of `m2` is row
/// `p[i]` of `m`), every proximity entry is the same.
pub proof fn law_proximity_row_order(
    m: Matrix<u64>,
    m2: Matrix<u64>,
    p: Seq<int>,
    kp: Seq<u64>,
    a: int,
    b: int,
)
    requires
        m2.rows == m.rows,
        m2.cols == m.cols,
        is_permutation(p, m.rows as int),
        forall|i: int, j: int|
            0 <= i < m.rows && 0 <= j < m.cols ==> #[trigger] m2.entry(i, j) == m.entry(p[i], j),
        0 <= a < m.cols,
        0 <= b < m.cols,
    ensures
        proximity_entry(m2, kp, a, b) == proximity_entry(m, kp, a, b),
{
    let f = |c: int| m.entry(c, a) * m.entry(c, b);
    lemma_co_export_reordered(m, m2, p, a, b, m.rows as int);
    lemma_sum_through_permutation(f, p, m.rows as int);
    lemma_co_export_sum(m, a, b, m.rows as int);
}

} // verus!
