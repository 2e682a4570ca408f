use hidalgo::bundle_from_m;
use hidalgo::complexity::support;
use hidalgo::matrix::Matrix;
use hidalgo::proximity::{proximity, Ratio};

fn value(r: Ratio) -> f64 {
    r.num as f64 / r.den as f64
}

fn nested(c: usize, p: usize) -> Matrix<u64> {
    let mut data = vec![0u64; c * p];
    for i in 0..c {
        for j in 0..=i {
            data[i * p + j] = 1;
        }
    }
    Matrix::from_row_major(c, p, data)
}

#[test]
fn matvec_basic() {
    // [[1,2,3],[4,5,6]] * [1,1,1] = [6,15]
    let m = Matrix::from_row_major(2, 3, vec![1u64, 2, 3, 4, 5, 6]);
    let y = m.matvec(&[1, 1, 1]);
    assert_eq!(y[0], 6);
    assert_eq!(y[1], 15);
}

#[test]
fn matvec_transpose_basic() {
    // M^T * [1,1] where M=[[1,2,3],[4,5,6]] -> [5,7,9]
    let m = Matrix::from_row_major(2, 3, vec![1u64, 2, 3, 4, 5, 6]);
    let y = m.matvec_transpose(&[1, 1]);
    assert_eq!(y.len(), 3);
    assert_eq!(y[0], 5);
    assert_eq!(y[1], 7);
    assert_eq!(y[2], 9);
}

#[test]
fn row_and_get() {
    let m = Matrix::from_row_major(2, 2, vec![1., 2., 3., 4.]);
    assert_eq!(m.row(1), &[3.0, 4.0]);
    assert_eq!(m.get(1, 0), 3.0);
}

#[test]
fn proximity_small() {
    // 3 countries x 2 products.
    // M = [[1,1],[1,0],[0,1]] -> kp = [2,2]; co[0,1] = 1 (only country 0 has both)
    // phi[0,1] = 1 / max(2,2) = 0.5 ; diagonal = 1
    let m = Matrix::from_row_major(3, 2, vec![1u64, 1, 1, 0, 0, 1]);
    let kp = vec![2u64, 2];
    let phi = proximity(&m, &kp);
    assert_eq!(value(phi.get(0, 0)), 1.0);
    assert_eq!(value(phi.get(0, 1)), 0.5);
    assert_eq!(value(phi.get(1, 0)), 0.5);
}

#[test]
fn undefined_when_fewer_than_three_diversified() {
    let m = Matrix::from_row_major(3, 2, vec![1u64, 1, 0, 0, 0, 0]);
    assert!(support(&m).is_none());
    assert!(bundle_from_m(&m).is_none());
}

#[test]
fn bundle_runs_end_to_end() {
    let (c, p) = (6, 6);
    let m = nested(c, p);
    let b = bundle_from_m(&m).expect("defined");
    assert_eq!(b.proximity.rows, p);
    assert_eq!(b.proximity.cols, p);
    assert_eq!(b.support.country_matrix.rows, c);
    assert_eq!(b.support.diversity.len(), b.support.kept_countries.len());
}

#[test]
fn set_then_get_changes_one_cell() {
    let mut m = Matrix::from_row_major(2, 3, vec![1u64, 2, 3, 4, 5, 6]);
    m.set(1, 2, 60);
    assert_eq!(m.get(1, 2), 60);
    assert_eq!(m.data, vec![1, 2, 3, 4, 5, 60]);
}

#[test]
fn zeros_is_all_zero() {
    let m = Matrix::<u64>::zeros(2, 3);
    assert_eq!((m.rows, m.cols), (2, 3));
    assert_eq!(m.data, vec![0; 6]);
}

#[test]
fn select_picks_rows_and_columns_in_order() {
    let m = Matrix::from_row_major(3, 3, vec![1u64, 2, 3, 4, 5, 6, 7, 8, 9]);
    let s = m.select(&vec![2, 0], &vec![1, 2]);
    assert_eq!((s.rows, s.cols), (2, 2));
    assert_eq!(s.data, vec![8, 9, 2, 3]);
}

#[test]
fn matvec_weights_rows() {
    let m = Matrix::from_row_major(2, 2, vec![2u64, 3, 0, 7]);
    assert_eq!(m.matvec(&[10, 100]), vec![320, 700]);
    assert_eq!(m.matvec_transpose(&[10, 100]), vec![20, 730]);
}

#[test]
fn support_of_nested_matrix() {
    let m = nested(4, 4);
    let s = support(&m).expect("defined");
    assert_eq!(s.kept_countries, vec![0, 1, 2, 3]);
    assert_eq!(s.kept_products, vec![0, 1, 2, 3]);
    assert_eq!(s.diversity, vec![1, 2, 3, 4]);
    assert_eq!(s.ubiquity, vec![4, 3, 2, 1]);
    assert_eq!(s.kept_ubiquity, vec![4, 3, 2, 1]);
}

#[test]
fn support_drops_undiversified_countries_and_unexported_products() {
    // country 1 exports nothing; product 2 is exported by nobody.
    let m = Matrix::from_row_major(
        5,
        5,
        vec![
            1, 1, 0, 0, 0, //
            0, 0, 0, 0, 0, //
            1, 0, 0, 1, 1, //
            0, 1, 0, 0, 1, //
            1, 1, 0, 1, 0, //
        ],
    );
    let s = support(&m).expect("defined");
    assert_eq!(s.kept_countries, vec![0, 2, 3, 4]);
    assert_eq!(s.kept_products, vec![0, 1, 3, 4]);
    assert_eq!(s.diversity, vec![2, 3, 2, 3]);
    // ubiquity is over all countries and all products
    assert_eq!(s.ubiquity, vec![3, 3, 0, 2, 2]);
    assert_eq!(s.kept_ubiquity, vec![3, 3, 2, 2]);
    assert_eq!((s.country_matrix.rows, s.country_matrix.cols), (4, 5));
    assert_eq!(s.country_matrix.row(1), &[1, 0, 0, 1, 1]);
    assert_eq!((s.product_matrix.rows, s.product_matrix.cols), (4, 4));
    assert_eq!(
        s.product_matrix.data,
        vec![1, 1, 0, 0, 1, 0, 1, 1, 0, 1, 0, 1, 1, 1, 1, 0]
    );
    // the margins of the restricted matrix are the kept degrees
    let row_sums = s.product_matrix.matvec(&[1, 1, 1, 1]);
    assert_eq!(row_sums, s.diversity);
    let col_sums = s.product_matrix.matvec_transpose(&[1, 1, 1, 1]);
    assert_eq!(col_sums, s.kept_ubiquity);
}

#[test]
fn undefined_when_fewer_than_three_products() {
    let m = Matrix::from_row_major(4, 3, vec![1u64, 0, 0, 0, 1, 0, 1, 1, 0, 1, 0, 0]);
    assert!(support(&m).is_none());
}

#[test]
fn defined_with_exactly_three_each() {
    let m = Matrix::from_row_major(3, 3, vec![1u64, 0, 0, 0, 1, 0, 0, 0, 1]);
    let s = support(&m).expect("defined");
    assert_eq!(s.kept_countries.len(), 3);
    assert_eq!(s.kept_products.len(), 3);
}

#[test]
fn proximity_of_bundle_is_symmetric_with_unit_diagonal() {
    let m = Matrix::from_row_major(
        4,
        4,
        vec![1u64, 1, 0, 0, 1, 0, 1, 0, 0, 1, 1, 0, 1, 1, 1, 0],
    );
    let b = bundle_from_m(&m).expect("defined");
    let phi = &b.proximity;
    for a in 0..4 {
        for c in 0..4 {
            assert_eq!(value(phi.get(a, c)), value(phi.get(c, a)));
            assert!(phi.get(a, c).num <= phi.get(a, c).den);
        }
    }
    for a in 0..3 {
        assert_eq!(value(phi.get(a, a)), 1.0);
    }
    // product 3 is exported by nobody: zero row, zero diagonal
    for c in 0..4 {
        assert_eq!(phi.get(3, c).num, 0);
    }
    // co-export of products 0 and 1 is 2 (countries 0 and 3); ubiquities 3 and 3
    assert_eq!(phi.get(0, 1), Ratio { num: 2, den: 3 });
    // co-export of products 1 and 2 is 2 (countries 2 and 3); ubiquities 3 and 3
    assert_eq!(phi.get(1, 2), Ratio { num: 2, den: 3 });
}

#[test]
fn proximity_uses_the_larger_ubiquity() {
    // product 0 exported by 3 countries, product 1 by 1, both by 1.
    let m = Matrix::from_row_major(3, 2, vec![1u64, 1, 1, 0, 1, 0]);
    let phi = proximity(&m, &[3, 1]);
    assert_eq!(phi.get(0, 1), Ratio { num: 1, den: 3 });
    assert_eq!(phi.get(1, 0), Ratio { num: 1, den: 3 });
    assert_eq!(phi.get(1, 1), Ratio { num: 1, den: 1 });
}

#[test]
fn proximity_with_zero_ubiquities_is_zero() {
    let m = Matrix::from_row_major(2, 2, vec![0u64, 0, 0, 0]);
    let phi = proximity(&m, &[0, 0]);
    for a in 0..2 {
        for c in 0..2 {
            assert_eq!(phi.get(a, c), Ratio { num: 0, den: 1 });
        }
    }
}

#[test]
fn bundle_is_the_same_on_every_run() {
    let m = Matrix::from_row_major(
        4,
        5,
        vec![1u64, 1, 1, 0, 0, 1, 1, 0, 0, 0, 1, 0, 0, 1, 1, 0, 0, 0, 1, 0],
    );
    let x = bundle_from_m(&m).expect("defined");
    let y = bundle_from_m(&m).expect("defined");
    assert_eq!(x.proximity.data, y.proximity.data);
    assert_eq!(x.support.kept_countries, y.support.kept_countries);
    assert_eq!(x.support.product_matrix.data, y.support.product_matrix.data);
}

#[test]
fn support_of_weighted_counts_sums_the_weights() {
    let m = Matrix::from_row_major(3, 3, vec![2u64, 0, 1, 0, 3, 0, 1, 1, 1]);
    let s = support(&m).expect("defined");
    assert_eq!(s.diversity, vec![3, 3, 3]);
    assert_eq!(s.ubiquity, vec![3, 4, 2]);
    let phi = proximity(&m, &s.ubiquity);
    // co-export of products 0 and 2: 2*1 + 0*0 + 1*1 = 3, over max(3, 2)
    assert_eq!(phi.get(0, 2), Ratio { num: 3, den: 3 });
    assert_eq!(phi.get(2, 0), Ratio { num: 3, den: 3 });
}

#[test]
fn proximity_ignores_the_order_of_countries() {
    let rows: Vec<Vec<u64>> = vec![
        vec![1, 1, 0, 1],
        vec![0, 1, 1, 0],
        vec![1, 0, 1, 1],
        vec![1, 1, 1, 0],
    ];
    let order = [2usize, 0, 3, 1];
    let flat: Vec<u64> = rows.iter().flatten().copied().collect();
    let reordered: Vec<u64> = order.iter().flat_map(|&r| rows[r].clone()).collect();
    let m = Matrix::from_row_major(4, 4, flat);
    let m2 = Matrix::from_row_major(4, 4, reordered);
    let kp = support(&m).expect("defined").ubiquity;
    assert_eq!(proximity(&m, &kp).data, proximity(&m2, &kp).data);
}

#[test]
fn matvec_transpose_is_the_adjoint_of_matvec() {
    let m = Matrix::from_row_major(2, 3, vec![1u64, 2, 3, 4, 5, 6]);
    let x = [7u64, 11];
    let y = [2u64, 3, 5];
    let mtx = m.matvec_transpose(&x);
    let my = m.matvec(&y);
    let lhs: u64 = mtx.iter().zip(y.iter()).map(|(a, b)| a * b).sum();
    let rhs: u64 = x.iter().zip(my.iter()).map(|(a, b)| a * b).sum();
    // M^T x = [51, 69, 87]; M y = [23, 53]
    assert_eq!(mtx, vec![51, 69, 87]);
    assert_eq!(my, vec![23, 53]);
    assert_eq!(lhs, 744);
    assert_eq!(lhs, rhs);
}
