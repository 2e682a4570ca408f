//! Where economic complexity is defined: degrees of the specialization matrix,
//! the countries and products that survive filtering, and the restricted
//! matrices the eigenvector step works on.

use crate::matrix::{ones, Matrix};
use vstd::prelude::*;

verus! {

/// Positions `k < n` with `d[k] > 0`, in increasing order.
pub open spec fn positive_indices(d: Seq<u64>, n: int) -> Seq<usize>
    decreases n,
{
    if n <= 0 {
        Seq::empty()
    } else if d[n - 1] > 0 {
        positive_indices(d, n - 1).push((n - 1) as usize)
    } else {
        positive_indices(d, n - 1)
    }
}

impl Matrix<u64> {
    /// Diversity of every country: the row sums.
    pub open spec fn diversity_all(&self) -> Seq<u64> {
        Seq::new(self.rows as nat, |i: int| self.row_dot(i, ones(self.cols as int), self.cols as int) as u64)
    }

    /// Ubiquity of every product: the column sums, over all countries.
    pub open spec fn ubiquity_all(&self) -> Seq<u64> {
        Seq::new(self.cols as nat, |j: int| self.col_dot(j, ones(self.rows as int), self.rows as int) as u64)
    }

    /// Countries with positive diversity, in increasing order.
    pub open spec fn diversified_countries(&self) -> Seq<usize> {
        positive_indices(self.diversity_all(), self.rows as int)
    }

    /// Products with positive ubiquity, in increasing order.
    pub open spec fn exported_products(&self) -> Seq<usize> {
        positive_indices(self.ubiquity_all(), self.cols as int)
    }

    /// Every row sum and every column sum fits in a `u64`.
    pub open spec fn degrees_fit(&self) -> bool {
        &&& forall|i: int|
            0 <= i < self.rows ==> #[trigger] self.row_dot(i, ones(self.cols as int), self.cols as int)
                <= u64::MAX
        &&& forall|j: int|
            0 <= j < self.cols ==> #[trigger] self.col_dot(j, ones(self.rows as int), self.rows as int)
                <= u64::MAX
    }

    /// Three different countries have a positive row sum.
    pub open spec fn has_three_diversified(&self) -> bool {
        exists|i: int, j: int, k: int|
            #![trigger self.row_dot(i, ones(self.cols as int), self.cols as int), self.row_dot(j, ones(self.cols as int), self.cols as int), self.row_dot(k, ones(self.cols as int), self.cols as int)]
            0 <= i < j < k < self.rows && self.row_dot(i, ones(self.cols as int), self.cols as int) > 0
                && self.row_dot(j, ones(self.cols as int), self.cols as int) > 0 && self.row_dot(
                k,
                ones(self.cols as int),
                self.cols as int,
            ) > 0
    }

    /// Three different products have a positive column sum.
    pub open spec fn has_three_exported(&self) -> bool {
        exists|i: int, j: int, k: int|
            #![trigger self.col_dot(i, ones(self.rows as int), self.rows as int), self.col_dot(j, ones(self.rows as int), self.rows as int), self.col_dot(k, ones(self.rows as int), self.rows as int)]
            0 <= i < j < k < self.cols && self.col_dot(i, ones(self.rows as int), self.rows as int) > 0
                && self.col_dot(j, ones(self.rows as int), self.rows as int) > 0 && self.col_dot(
                k,
                ones(self.rows as int),
                self.rows as int,
            ) > 0
    }

    /// Complexity is defined when at least 3 countries are diversified and at
    /// least 3 products are exported.
    pub open spec fn complexity_defined(&self) -> bool {
        self.diversified_countries().len() >= 3 && self.exported_products().len() >= 3
    }
}

/// The part of the complexity computation that is fixed by the specialization matrix
/// alone: degrees, the kept countries and products, and the restricted
/// matrices on which the country-side and product-side eigenvectors are taken.
pub struct Support {
    /// Diversity of each kept country, in the order of `kept_countries`.
    pub diversity: Vec<u64>,
    /// Ubiquity of every product, over all countries.
    pub ubiquity: Vec<u64>,
    /// Row positions of the countries with positive diversity.
    pub kept_countries: Vec<usize>,
    /// Column positions of the products with positive ubiquity.
    pub kept_products: Vec<usize>,
    /// The kept countries' rows, all products.
    pub country_matrix: Matrix<u64>,
    /// The kept countries' rows restricted to the kept products.
    pub product_matrix: Matrix<u64>,
    /// Ubiquity of each kept product, in the order of `kept_products`.
    pub kept_ubiquity: Vec<u64>,
}

impl Support {
    /// Every field is what `m` determines.
    pub open spec fn describes(&self, m: Matrix<u64>) -> bool {
        let kc = self.kept_countries@;
        let kp = self.kept_products@;
        &&& kc == m.diversified_countries()
        &&& kp == m.exported_products()
        &&& self.ubiquity@ == m.ubiquity_all()
        &&& self.diversity@ == Seq::new(kc.len(), |a: int| m.diversity_all()[kc[a] as int])
        &&& self.kept_ubiquity@ == Seq::new(kp.len(), |b: int| m.ubiquity_all()[kp[b] as int])
        &&& self.country_matrix.wf()
        &&& self.country_matrix.rows == kc.len()
        &&& self.country_matrix.cols == m.cols
        &&& forall|a: int, j: int|
            0 <= a < kc.len() && 0 <= j < m.cols ==> #[trigger] self.country_matrix.entry(a, j)
                == m.entry(kc[a] as int, j)
        &&& self.product_matrix.wf()
        &&& self.product_matrix.rows == kc.len()
        &&& self.product_matrix.cols == kp.len()
        &&& forall|a: int, b: int|
            0 <= a < kc.len() && 0 <= b < kp.len() ==> #[trigger] self.product_matrix.entry(a, b)
                == m.entry(kc[a] as int, kp[b] as int)
    }
}

/// Every position listed by `positive_indices(d, n)` is below `n` and has a
/// positive value, the list is strictly increasing, it lists every such
/// position, and it is no longer than `n`.
pub proof fn lemma_positive_indices(d: Seq<u64>, n: int)
    requires
        0 <= n <= d.len(),
        d.len() <= usize::MAX,
    ensures
        positive_indices(d, n).len() <= n,
        forall|a: int|
            0 <= a < positive_indices(d, n).len() ==> #[trigger] positive_indices(d, n)[a] < n
                && d[positive_indices(d, n)[a] as int] > 0,
        forall|a: int, b: int|
            0 <= a < b < positive_indices(d, n).len() ==> #[trigger] positive_indices(d, n)[a]
                < #[trigger] positive_indices(d, n)[b],
        forall|k: int|
            0 <= k < n && d[k] > 0 ==> #[trigger] positive_indices(d, n).contains(k as usize),
    decreases n,
{
    if n > 0 {
        lemma_positive_indices(d, n - 1);
        let prev = positive_indices(d, n - 1);
        if d[n - 1] > 0 {
            let cur = prev.push((n - 1) as usize);
            assert forall|k: int| 0 <= k < n && d[k] > 0 implies #[trigger] cur.contains(k as usize) by {
                if k < n - 1 {
                    assert(prev.contains(k as usize));
                    let w = choose|w: int| 0 <= w < prev.len() && prev[w] == k as usize;
                    assert(cur[w] == k as usize);
                } else {
                    assert(cur[prev.len() as int] == k as usize);
                }
            }
        } else {
            assert forall|k: int| 0 <= k < n && d[k] > 0 implies #[trigger] prev.contains(k as usize) by {
                assert(k < n - 1);
            }
        }
    }
}

/// Positions of the positive entries of `d`, in increasing order.
fn positive_positions(d: &Vec<u64>) -> (k: Vec<usize>)
    ensures
        k@ == positive_indices(d@, d@.len() as int),
{
    let mut k: Vec<usize> = Vec::new();
    let mut i: usize = 0;
    while i < d.len()
        invariant
            0 <= i <= d@.len(),
            k@ == positive_indices(d@, i as int),
        decreases d@.len() - i,
    {
        if d[i] > 0 {
            k.push(i);
        }
        i = i + 1;
    }
    k
}

/// Row sums of a binary matrix are at most the number of columns.
pub proof fn lemma_binary_row_dot_ones(m: Matrix<u64>, i: int, n: int)
    requires
        m.is_binary(),
        0 <= i < m.rows,
        0 <= n <= m.cols,
    ensures
        0 <= m.row_dot(i, ones(m.cols as int), n) <= n,
    decreases n,
{
    if n > 0 {
        lemma_binary_row_dot_ones(m, i, n - 1);
        assert(m.entry(i, n - 1) <= 1);
    }
}

/// A column of a binary matrix dotted with a 0/1 vector is at most the
/// number of terms.
pub proof fn lemma_binary_col_dot(m: Matrix<u64>, j: int, x: Seq<u64>, n: int)
    requires
        m.is_binary(),
        0 <= j < m.cols,
        0 <= n <= m.rows,
        n <= x.len(),
        forall|c: int| 0 <= c < n ==> #[trigger] x[c] <= 1,
    ensures
        0 <= m.col_dot(j, x, n) <= n,
    decreases n,
{
    if n > 0 {
        lemma_binary_col_dot(m, j, x, n - 1);
        let a = m.entry(n - 1, j);
        let b = x[n - 1];
        assert(a <= 1);
        assert(b <= 1);
        assert(0 <= a * b <= 1) by (nonlinear_arith)
            requires
                0 <= a <= 1,
                0 <= b <= 1,
        ;
    }
}

/// Diversity of every country (row sums of `m`).
fn row_degrees(m: &Matrix<u64>) -> (kc: Vec<u64>)
    requires
        m.wf(),
        m.degrees_fit(),
    ensures
        kc@ == m.diversity_all(),
{
    let mut x: Vec<u64> = Vec::new();
    let mut j: usize = 0;
    while j < m.cols
        invariant
            0 <= j <= m.cols,
            x@ == ones(j as int),
        decreases m.cols - j,
    {
        x.push(1);
        proof {
            assert(x@ =~= ones(j as int + 1));
        }
        j = j + 1;
    }
    let kc = m.matvec(x.as_slice());
    proof {
        assert(kc@ =~= m.diversity_all());
    }
    kc
}

/// Ubiquity of every product (column sums of `m`, over all countries).
fn col_degrees(m: &Matrix<u64>) -> (kp: Vec<u64>)
    requires
        m.wf(),
        m.degrees_fit(),
    ensures
        kp@ == m.ubiquity_all(),
{
    let mut x: Vec<u64> = Vec::new();
    let mut i: usize = 0;
    while i < m.rows
        invariant
            0 <= i <= m.rows,
            x@ == ones(i as int),
        decreases m.rows - i,
    {
        x.push(1);
        proof {
            assert(x@ =~= ones(i as int + 1));
        }
        i = i + 1;
    }
    let kp = m.matvec_transpose(x.as_slice());
    proof {
        assert(kp@ =~= m.ubiquity_all());
    }
    kp
}

/// `d[k]` for each position `k` listed in `ks`.
fn pick(d: &Vec<u64>, ks: &Vec<usize>) -> (r: Vec<u64>)
    requires
        forall|a: int| 0 <= a < ks@.len() ==> #[trigger] ks@[a] < d@.len(),
    ensures
        r@ == Seq::new(ks@.len(), |a: int| d@[ks@[a] as int]),
{
    let mut r: Vec<u64> = Vec::new();
    let mut a: usize = 0;
    while a < ks.len()
        invariant
            forall|t: int| 0 <= t < ks@.len() ==> #[trigger] ks@[t] < d@.len(),
            0 <= a <= ks@.len(),
            r@ == Seq::new(a as nat, |t: int| d@[ks@[t] as int]),
        decreases ks@.len() - a,
    {
        r.push(d[ks[a]]);
        proof {
            assert(r@ =~= Seq::new(a as nat + 1, |t: int| d@[ks@[t] as int]));
        }
        a = a + 1;
    }
    r
}

/// All positions `0..n`.
fn all_positions(n: usize) -> (r: Vec<usize>)
    ensures
        r@.len() == n,
        forall|a: int| 0 <= a < n ==> #[trigger] r@[a] == a,
{
    let mut r: Vec<usize> = Vec::new();
    let mut a: usize = 0;
    while a < n
        invariant
            0 <= a <= n,
            r@.len() == a,
            forall|t: int| 0 <= t < a ==> #[trigger] r@[t] == t,
        decreases n - a,
    {
        r.push(a);
        a = a + 1;
    }
    r
}

/// Degrees, kept countries and products, and the restricted matrices of a
/// specialization matrix. `None` when fewer than 3 countries have positive
/// diversity or fewer than 3 products positive ubiquity.
pub fn support(m: &Matrix<u64>) -> (r: Option<Support>)
    requires
        m.wf(),
        m.degrees_fit(),
    ensures
        r is Some <==> m.complexity_defined(),
        r is Some <==> (m.has_three_diversified() && m.has_three_exported()),
        r matches Some(s) ==> s.describes(*m),
{
    proof {
        law_defined_iff_three_each(*m);
    }
    let kc = row_degrees(m);
    let kp = col_degrees(m);
    let kept_countries = positive_positions(&kc);
    proof {
        lemma_positive_indices(kc@, m.rows as int);
    }
    if kept_countries.len() < 3 {
        return None;
    }
    let kept_products = positive_positions(&kp);
    proof {
        lemma_positive_indices(kp@, m.cols as int);
    }
    if kept_products.len() < 3 {
        return None;
    }
    let diversity = pick(&kc, &kept_countries);
    let kept_ubiquity = pick(&kp, &kept_products);
    let all_products = all_positions(m.cols);
    proof {
        m.lemma_buffer_fits();
        assert(kept_countries@.len() * m.cols <= m.rows * m.cols) by (nonlinear_arith)
            requires
                kept_countries@.len() <= m.rows,
        ;
        assert(kept_countries@.len() * kept_products@.len() <= m.rows * m.cols) by (nonlinear_arith)
            requires
                kept_countries@.len() <= m.rows,
                kept_products@.len() <= m.cols,
        ;
    }
    let country_matrix = m.select(&kept_countries, &all_products);
    let product_matrix = m.select(&kept_countries, &kept_products);
    Some(Support {
        diversity,
        ubiquity: kp,
        kept_countries,
        kept_products,
        country_matrix,
        product_matrix,
        kept_ubiquity,
    })
}


/// Countries are kept exactly when their diversity is positive, in increasing
/// order; products are kept exactly when their ubiquity (over all countries)
/// is positive, in increasing order.
pub proof fn law_kept_exactly_the_positive(m: Matrix<u64>)
    ensures
        forall|i: int|
            0 <= i < m.rows ==> (#[trigger] m.diversified_countries().contains(i as usize)
                <==> m.diversity_all()[i] > 0),
        forall|a: int, b: int|
            0 <= a < b < m.diversified_countries().len() ==> #[trigger] m.diversified_countries()[a]
                < #[trigger] m.diversified_countries()[b],
        forall|j: int|
            0 <= j < m.cols ==> (#[trigger] m.exported_products().contains(j as usize)
                <==> m.ubiquity_all()[j] > 0),
        forall|a: int, b: int|
            0 <= a < b < m.exported_products().len() ==> #[trigger] m.exported_products()[a]
                < #[trigger] m.exported_products()[b],
{
    let kc = m.diversified_countries();
    let kp = m.exported_products();
    lemma_positive_indices(m.diversity_all(), m.rows as int);
    lemma_positive_indices(m.ubiquity_all(), m.cols as int);
    assert forall|i: int| 0 <= i < m.rows && #[trigger] kc.contains(i as usize) implies m.diversity_all()[i]
        > 0 by {
        let w = choose|w: int| 0 <= w < kc.len() && kc[w] == i as usize;
        assert(kc[w] as int == i);
    }
    assert forall|j: int| 0 <= j < m.cols && #[trigger] kp.contains(j as usize) implies m.ubiquity_all()[j]
        > 0 by {
        let w = choose|w: int| 0 <= w < kp.len() && kp[w] == j as usize;
        assert(kp[w] as int == j);
    }
}

/// `sum_{b < n} m[i][ks[b]]`: row `i` summed over the listed columns.
pub open spec fn sum_along(m: Matrix<u64>, i: int, ks: Seq<usize>, n: int) -> int
    decreases n,
{
    if n <= 0 {
        0
    } else {
        sum_along(m, i, ks, n - 1) + m.entry(i, ks[n - 1] as int)
    }
}

/// `sum_{a < n} m[ks[a]][j]`: column `j` summed over the listed rows.
pub open spec fn sum_down(m: Matrix<u64>, j: int, ks: Seq<usize>, n: int) -> int
    decreases n,
{
    if n <= 0 {
        0
    } else {
        sum_down(m, j, ks, n - 1) + m.entry(ks[n - 1] as int, j)
    }
}

/// Appending to the list of columns does not change a sum over a prefix.
proof fn lemma_sum_along_push(m: Matrix<u64>, i: int, ks: Seq<usize>, x: usize, n: int)
    requires
        0 <= n <= ks.len(),
    ensures
        sum_along(m, i, ks.push(x), n) == sum_along(m, i, ks, n),
    decreases n,
{
    if n > 0 {
        lemma_sum_along_push(m, i, ks, x, n - 1);
    }
}

/// Appending to the list of rows does not change a sum over a prefix.
proof fn lemma_sum_down_push(m: Matrix<u64>, j: int, ks: Seq<usize>, x: usize, n: int)
    requires
        0 <= n <= ks.len(),
    ensures
        sum_down(m, j, ks.push(x), n) == sum_down(m, j, ks, n),
    decreases n,
{
    if n > 0 {
        lemma_sum_down_push(m, j, ks, x, n - 1);
    }
}

/// An entry never exceeds the sum of its column over any rows that include it.
proof fn lemma_entry_le_col_sum(m: Matrix<u64>, i: int, j: int, n: int)
    requires
        0 <= i < n <= m.rows,
    ensures
        m.entry(i, j) <= m.col_dot(j, ones(m.rows as int), n),
    decreases n,
{
    m.lemma_col_dot_prefix(j, ones(m.rows as int), 0, n - 1);
    assert(ones(m.rows as int)[n - 1] == 1);
    crate::matrix::lemma_product_le(m.entry(n - 1, j) as int, 1, 0);
    if i < n - 1 {
        lemma_entry_le_col_sum(m, i, j, n - 1);
    }
}

/// An entry never exceeds the sum of its row over any columns that include it.
proof fn lemma_entry_le_row_sum(m: Matrix<u64>, i: int, j: int, n: int)
    requires
        0 <= j < n <= m.cols,
    ensures
        m.entry(i, j) <= m.row_dot(i, ones(m.cols as int), n),
    decreases n,
{
    m.lemma_row_dot_prefix(i, ones(m.cols as int), 0, n - 1);
    assert(ones(m.cols as int)[n - 1] == 1);
    crate::matrix::lemma_product_le(m.entry(i, n - 1) as int, 1, 0);
    if j < n - 1 {
        lemma_entry_le_row_sum(m, i, j, n - 1);
    }
}

/// Summing row `i` over the exported products equals summing it over all of
/// the first `j` products: the others are zero columns.
proof fn lemma_row_over_exported(m: Matrix<u64>, i: int, j: int)
    requires
        m.degrees_fit(),
        0 <= i < m.rows,
        0 <= j <= m.cols,
    ensures
        sum_along(m, i, positive_indices(m.ubiquity_all(), j), positive_indices(m.ubiquity_all(), j).len() as int)
            == m.row_dot(i, ones(m.cols as int), j),
    decreases j,
{
    if j > 0 {
        let d = m.ubiquity_all();
        let prev = positive_indices(d, j - 1);
        lemma_row_over_exported(m, i, j - 1);
        lemma_positive_indices(d, j - 1);
        assert(ones(m.cols as int)[j - 1] == 1);
        if d[j - 1] > 0 {
            lemma_sum_along_push(m, i, prev, (j - 1) as usize, prev.len() as int);
        } else {
            m.lemma_col_dot_prefix(j - 1, ones(m.rows as int), 0, m.rows as int);
            lemma_entry_le_col_sum(m, i, j - 1, m.rows as int);
        }
    }
}

/// Summing column `j` over the diversified countries equals summing it over
/// all of the first `i` countries: the others are zero rows.
proof fn lemma_col_over_diversified(m: Matrix<u64>, j: int, i: int)
    requires
        m.degrees_fit(),
        0 <= j < m.cols,
        0 <= i <= m.rows,
    ensures
        sum_down(m, j, positive_indices(m.diversity_all(), i), positive_indices(m.diversity_all(), i).len() as int)
            == m.col_dot(j, ones(m.rows as int), i),
    decreases i,
{
    if i > 0 {
        let d = m.diversity_all();
        let prev = positive_indices(d, i - 1);
        lemma_col_over_diversified(m, j, i - 1);
        lemma_positive_indices(d, i - 1);
        assert(ones(m.rows as int)[i - 1] == 1);
        if d[i - 1] > 0 {
            lemma_sum_down_push(m, j, prev, (i - 1) as usize, prev.len() as int);
        } else {
            m.lemma_row_dot_prefix(i - 1, ones(m.cols as int), 0, m.cols as int);
            lemma_entry_le_row_sum(m, i - 1, j, m.cols as int);
        }
    }
}

/// A row sum of a restricted matrix is the matching sum of the original.
proof fn lemma_restricted_row(s: Support, m: Matrix<u64>, a: int, n: int)
    requires
        s.describes(m),
        0 <= a < s.kept_countries@.len(),
        0 <= n <= s.kept_products@.len(),
    ensures
        s.product_matrix.row_dot(a, ones(s.kept_products@.len() as int), n)
            == sum_along(m, s.kept_countries@[a] as int, s.kept_products@, n),
    decreases n,
{
    if n > 0 {
        lemma_restricted_row(s, m, a, n - 1);
        assert(ones(s.kept_products@.len() as int)[n - 1] == 1);
        assert(s.product_matrix.entry(a, n - 1) == m.entry(
            s.kept_countries@[a] as int,
            s.kept_products@[n - 1] as int,
        ));
    }
}

/// A column sum of a restricted matrix is the matching sum of the original.
proof fn lemma_restricted_col(s: Support, m: Matrix<u64>, b: int, n: int)
    requires
        s.describes(m),
        0 <= b < s.kept_products@.len(),
        0 <= n <= s.kept_countries@.len(),
    ensures
        s.product_matrix.col_dot(b, ones(s.kept_countries@.len() as int), n)
            == sum_down(m, s.kept_products@[b] as int, s.kept_countries@, n),
    decreases n,
{
    if n > 0 {
        lemma_restricted_col(s, m, b, n - 1);
        assert(ones(s.kept_countries@.len() as int)[n - 1] == 1);
        assert(s.product_matrix.entry(n - 1, b) == m.entry(
            s.kept_countries@[n - 1] as int,
            s.kept_products@[b] as int,
        ));
    }
}

/// A row sum over all products of the kept countries' matrix is the
/// original row sum.
proof fn lemma_country_row(s: Support, m: Matrix<u64>, a: int, n: int)
    requires
        s.describes(m),
        0 <= a < s.kept_countries@.len(),
        0 <= n <= m.cols,
    ensures
        s.country_matrix.row_dot(a, ones(m.cols as int), n) == m.row_dot(
            s.kept_countries@[a] as int,
            ones(m.cols as int),
            n,
        ),
    decreases n,
{
    if n > 0 {
        lemma_country_row(s, m, a, n - 1);
        assert(s.country_matrix.entry(a, n - 1) == m.entry(s.kept_countries@[a] as int, n - 1));
    }
}

/// A column sum of the kept countries' matrix is the matching sum of the
/// original.
proof fn lemma_country_col(s: Support, m: Matrix<u64>, j: int, n: int)
    requires
        s.describes(m),
        0 <= j < m.cols,
        0 <= n <= s.kept_countries@.len(),
    ensures
        s.country_matrix.col_dot(j, ones(s.kept_countries@.len() as int), n) == sum_down(
            m,
            j,
            s.kept_countries@,
            n,
        ),
    decreases n,
{
    if n > 0 {
        lemma_country_col(s, m, j, n - 1);
        assert(ones(s.kept_countries@.len() as int)[n - 1] == 1);
        assert(s.country_matrix.entry(n - 1, j) == m.entry(s.kept_countries@[n - 1] as int, j));
    }
}

/// The degrees handed to the eigenvector step are the margins of the
/// restricted matrices: dropping countries without exports and products
/// without exporters changes no row or column sum. Row sums of both
/// restricted matrices are the kept diversities; column sums of the
/// product-restricted matrix are the kept ubiquities, and column sums of the
/// country-restricted matrix are the ubiquities over all countries.
pub proof fn law_restricted_margins(m: Matrix<u64>, s: Support)
    requires
        m.wf(),
        m.degrees_fit(),
        s.describes(m),
    ensures
        forall|a: int|
            0 <= a < s.kept_countries@.len() ==> #[trigger] s.product_matrix.row_dot(
                a,
                ones(s.kept_products@.len() as int),
                s.kept_products@.len() as int,
            ) == s.diversity@[a],
        forall|a: int|
            0 <= a < s.kept_countries@.len() ==> #[trigger] s.country_matrix.row_dot(
                a,
                ones(m.cols as int),
                m.cols as int,
            ) == s.diversity@[a],
        forall|b: int|
            0 <= b < s.kept_products@.len() ==> #[trigger] s.product_matrix.col_dot(
                b,
                ones(s.kept_countries@.len() as int),
                s.kept_countries@.len() as int,
            ) == s.kept_ubiquity@[b],
        forall|j: int|
            0 <= j < m.cols ==> #[trigger] s.country_matrix.col_dot(
                j,
                ones(s.kept_countries@.len() as int),
                s.kept_countries@.len() as int,
            ) == s.ubiquity@[j],
{
    let kc = s.kept_countries@;
    let kp = s.kept_products@;
    lemma_positive_indices(m.diversity_all(), m.rows as int);
    lemma_positive_indices(m.ubiquity_all(), m.cols as int);
    assert forall|a: int| 0 <= a < kc.len() implies #[trigger] s.product_matrix.row_dot(
        a,
        ones(kp.len() as int),
        kp.len() as int,
    ) == s.diversity@[a] by {
        lemma_restricted_row(s, m, a, kp.len() as int);
        lemma_row_over_exported(m, kc[a] as int, m.cols as int);
        m.lemma_row_dot_prefix(kc[a] as int, ones(m.cols as int), 0, m.cols as int);
    }
    assert forall|a: int| 0 <= a < kc.len() implies #[trigger] s.country_matrix.row_dot(
        a,
        ones(m.cols as int),
        m.cols as int,
    ) == s.diversity@[a] by {
        lemma_country_row(s, m, a, m.cols as int);
        m.lemma_row_dot_prefix(kc[a] as int, ones(m.cols as int), 0, m.cols as int);
    }
    assert forall|b: int| 0 <= b < kp.len() implies #[trigger] s.product_matrix.col_dot(
        b,
        ones(kc.len() as int),
        kc.len() as int,
    ) == s.kept_ubiquity@[b] by {
        lemma_restricted_col(s, m, b, kc.len() as int);
        lemma_col_over_diversified(m, kp[b] as int, m.rows as int);
        m.lemma_col_dot_prefix(kp[b] as int, ones(m.rows as int), 0, m.rows as int);
    }
    assert forall|j: int| 0 <= j < m.cols implies #[trigger] s.country_matrix.col_dot(
        j,
        ones(kc.len() as int),
        kc.len() as int,
    ) == s.ubiquity@[j] by {
        lemma_country_col(s, m, j, kc.len() as int);
        lemma_col_over_diversified(m, j, m.rows as int);
        m.lemma_col_dot_prefix(j, ones(m.rows as int), 0, m.rows as int);
    }
}

/// At least three positions of `d` below `n` are positive exactly when the
/// list of positive positions has at least three entries.
proof fn lemma_three_positive(d: Seq<u64>, n: int)
    requires
        0 <= n <= d.len(),
        d.len() <= usize::MAX,
    ensures
        positive_indices(d, n).len() >= 3 <==> exists|i: int, j: int, k: int|
            #![trigger d[i], d[j], d[k]]
            0 <= i < j < k < n && d[i] > 0 && d[j] > 0 && d[k] > 0,
{
    lemma_positive_indices(d, n);
    let pi = positive_indices(d, n);
    if pi.len() >= 3 {
        let (i, j, k) = (pi[0] as int, pi[1] as int, pi[2] as int);
        assert(pi[0] < pi[1] && pi[1] < pi[2]);
        assert(0 <= i < j < k < n && d[i] > 0 && d[j] > 0 && d[k] > 0);
    }
    if exists|i: int, j: int, k: int|
        #![trigger d[i], d[j], d[k]]
        0 <= i < j < k < n && d[i] > 0 && d[j] > 0 && d[k] > 0 {
        let (i, j, k) = choose|i: int, j: int, k: int|
            #![trigger d[i], d[j], d[k]]
            0 <= i < j < k < n && d[i] > 0 && d[j] > 0 && d[k] > 0;
        assert(pi.contains(i as usize));
        assert(pi.contains(j as usize));
        assert(pi.contains(k as usize));
        let a = choose|a: int| 0 <= a < pi.len() && pi[a] == i as usize;
        let b = choose|b: int| 0 <= b < pi.len() && pi[b] == j as usize;
        let c = choose|c: int| 0 <= c < pi.len() && pi[c] == k as usize;
        assert(a != b && b != c && a != c);
    }
}

/// Complexity is defined exactly when at least three different countries
/// have a positive row sum and at least three different products have a
/// positive column sum. In particular a matrix with fewer than three
/// countries that export anything has no complexity, however many products
/// are exported, and likewise with the roles swapped.
pub proof fn law_defined_iff_three_each(m: Matrix<u64>)
    requires
        m.degrees_fit(),
    ensures
        m.complexity_defined() <==> (m.has_three_diversified() && m.has_three_exported()),
{
    let d = m.diversity_all();
    let u = m.ubiquity_all();
    assert forall|i: int| 0 <= i < m.rows implies (#[trigger] d[i] > 0 <==> m.row_dot(
        i,
        ones(m.cols as int),
        m.cols as int,
    ) > 0) by {
        m.lemma_row_dot_prefix(i, ones(m.cols as int), 0, m.cols as int);
    }
    assert forall|j: int| 0 <= j < m.cols implies (#[trigger] u[j] > 0 <==> m.col_dot(
        j,
        ones(m.rows as int),
        m.rows as int,
    ) > 0) by {
        m.lemma_col_dot_prefix(j, ones(m.rows as int), 0, m.rows as int);
    }
    lemma_three_positive(d, m.rows as int);
    lemma_three_positive(u, m.cols as int);
    if m.has_three_diversified() {
        let (i, j, k) = choose|i: int, j: int, k: int|
            #![trigger m.row_dot(i, ones(m.cols as int), m.cols as int), m.row_dot(j, ones(m.cols as int), m.cols as int), m.row_dot(k, ones(m.cols as int), m.cols as int)]
            0 <= i < j < k < m.rows && m.row_dot(i, ones(m.cols as int), m.cols as int) > 0
                && m.row_dot(j, ones(m.cols as int), m.cols as int) > 0 && m.row_dot(
                k,
                ones(m.cols as int),
                m.cols as int,
            ) > 0;
        assert(d[i] > 0 && d[j] > 0 && d[k] > 0);
    }
    if m.has_three_exported() {
        let (i, j, k) = choose|i: int, j: int, k: int|
            #![trigger m.col_dot(i, ones(m.rows as int), m.rows as int), m.col_dot(j, ones(m.rows as int), m.rows as int), m.col_dot(k, ones(m.rows as int), m.rows as int)]
            0 <= i < j < k < m.cols && m.col_dot(i, ones(m.rows as int), m.rows as int) > 0
                && m.col_dot(j, ones(m.rows as int), m.rows as int) > 0 && m.col_dot(
                k,
                ones(m.rows as int),
                m.rows as int,
            ) > 0;
        assert(u[i] > 0 && u[j] > 0 && u[k] > 0);
    }
    if m.diversified_countries().len() >= 3 {
        let (i, j, k) = choose|i: int, j: int, k: int|
            #![trigger d[i], d[j], d[k]]
            0 <= i < j < k < m.rows && d[i] > 0 && d[j] > 0 && d[k] > 0;
        assert(m.row_dot(i, ones(m.cols as int), m.cols as int) > 0);
        assert(m.row_dot(j, ones(m.cols as int), m.cols as int) > 0);
        assert(m.row_dot(k, ones(m.cols as int), m.cols as int) > 0);
    }
    if m.exported_products().len() >= 3 {
        let (i, j, k) = choose|i: int, j: int, k: int|
            #![trigger u[i], u[j], u[k]]
            0 <= i < j < k < m.cols && u[i] > 0 && u[j] > 0 && u[k] > 0;
        assert(m.col_dot(i, ones(m.rows as int), m.rows as int) > 0);
        assert(m.col_dot(j, ones(m.rows as int), m.rows as int) > 0);
        assert(m.col_dot(k, ones(m.rows as int), m.rows as int) > 0);
    }
}

} // verus!
