//! Economic-complexity kernels on a country x product specialization matrix:
//! degrees, the filtering that decides where complexity is defined, and exact
//! product proximity.

pub mod complexity;
pub mod matrix;
pub mod parallel;
pub mod proximity;

use crate::complexity::{support, Support};
use crate::matrix::Matrix;
use crate::proximity::{proximity, proximity_entry, Ratio};
use vstd::prelude::*;

verus! {

/// What a specialization matrix determines exactly: its support (degrees,
/// kept countries and products, restricted matrices) and the product
/// proximity computed from the ubiquities of all products.
pub struct Bundle {
    pub support: Support,
    pub proximity: Matrix<Ratio>,
}

impl Bundle {
    /// Every field is what the matrix `m` determines.
    pub open spec fn describes(&self, m: Matrix<u64>) -> bool {
        &&& self.support.describes(m)
        &&& self.proximity.wf()
        &&& self.proximity.rows == m.cols
        &&& self.proximity.cols == m.cols
        &&& forall|a: int, b: int|
            0 <= a < m.cols && 0 <= b < m.cols ==> #[trigger] self.proximity.entry(a, b)
                == proximity_entry(m, m.ubiquity_all(), a, b)
    }
}

/// Run the exact part of the pipeline on a specialization matrix `m`
/// (binary in use; any counts whose degrees and co-export counts fit in a
/// `u64` are accepted): `None` when complexity is undefined (fewer than 3
/// diversified countries or fewer than 3 exported products), else the support
/// and the proximity.
pub fn bundle_from_m(m: &Matrix<u64>) -> (r: Option<Bundle>)
    requires
        m.wf(),
        m.degrees_fit(),
        m.co_exports_fit(),
        m.cols * m.cols <= usize::MAX,
    ensures
        r is Some <==> m.complexity_defined(),
        r is Some <==> (m.has_three_diversified() && m.has_three_exported()),
        r matches Some(b) ==> b.describes(*m),
{
    let s = support(m)?;
    let phi = proximity(m, s.ubiquity.as_slice());
    Some(Bundle { support: s, proximity: phi })
}

/// The exact bundle is a function of the matrix alone: two results that
/// both describe `m` agree in every field, so the output does not depend on
/// how the parallel work was scheduled.
pub proof fn law_bundle_determined(m: Matrix<u64>, x: Bundle, y: Bundle)
    requires
        x.describes(m),
        y.describes(m),
    ensures
        x.support.kept_countries@ == y.support.kept_countries@,
        x.support.kept_products@ == y.support.kept_products@,
        x.support.diversity@ == y.support.diversity@,
        x.support.ubiquity@ == y.support.ubiquity@,
        x.support.kept_ubiquity@ == y.support.kept_ubiquity@,
        x.support.country_matrix.data@ == y.support.country_matrix.data@,
        x.support.product_matrix.data@ == y.support.product_matrix.data@,
        x.proximity.data@ == y.proximity.data@,
{
    crate::matrix::lemma_same_entries_same_data(x.support.country_matrix, y.support.country_matrix);
    crate::matrix::lemma_same_entries_same_data(x.support.product_matrix, y.support.product_matrix);
    crate::matrix::lemma_same_entries_same_data(x.proximity, y.proximity);
}

} // verus!
