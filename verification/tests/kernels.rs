use dense_kernels::error::DimensionMismatch;
use dense_kernels::layout::Layout;
use dense_kernels::mat::{MatMut, MatRef};
use dense_kernels::matmul::matmul;
use dense_kernels::par::Par;
use dense_kernels::perm::{permute_rows, PermRef};
use dense_kernels::scalar::ComplexField;
use dense_kernels::structure::BlockStructure::{
    Rectangular, TriangularLower, TriangularUpper, UnitTriangularLower, UnitTriangularUpper,
};
use dense_kernels::structure::{Accum, BlockStructure};
use dense_kernels::triangular_solve::{solve_lower_triangular_in_place, solve_unit_lower_triangular_in_place};

#[derive(Clone, Copy, Debug, PartialEq)]
struct Real(f64);

impl ComplexField for Real {
    fn zero_value() -> Self {
        unreachable!()
    }

    fn one_value() -> Self {
        unreachable!()
    }

    fn sum(self, _: Self) -> Self {
        unreachable!()
    }

    fn difference(self, _: Self) -> Self {
        unreachable!()
    }

    fn product(self, _: Self) -> Self {
        unreachable!()
    }

    fn negation(self) -> Self {
        unreachable!()
    }

    fn reciprocal(self) -> Self {
        unreachable!()
    }

    fn zero() -> Self {
        Real(0.0)
    }

    fn one() -> Self {
        Real(1.0)
    }

    fn add(&self, rhs: &Self) -> Self {
        Real(self.0 + rhs.0)
    }

    fn sub(&self, rhs: &Self) -> Self {
        Real(self.0 - rhs.0)
    }

    fn mul(&self, rhs: &Self) -> Self {
        Real(self.0 * rhs.0)
    }

    fn neg(&self) -> Self {
        Real(-self.0)
    }

    fn recip(&self) -> Self {
        Real(1.0 / self.0)
    }

    fn copy(&self) -> Self {
        *self
    }
}

fn reals(values: &[f64]) -> Vec<Real> {
    values.iter().map(|&x| Real(x)).collect()
}

/// The row-major view of `a`, so that test matrices read as written.
fn rows(a: &[Real], m: usize, n: usize) -> MatRef<'_, Real> {
    MatRef::from_row_major_slice(a, m, n).unwrap()
}

fn rows_mut(a: &mut [Real], m: usize, n: usize) -> MatMut<'_, Real> {
    MatMut::from_row_major_slice_mut(a, m, n).unwrap()
}

const NAN: f64 = f64::NAN;

#[test]
fn dense_product() {
    let a = reals(&[1.0, 2.0, 3.0, 4.0, 5.0, 6.0]);
    let b = reals(&[7.0, 8.0, 9.0, 10.0, 11.0, 12.0]);
    let mut out = reals(&[0.0; 4]);
    let r = matmul(
        rows_mut(&mut out, 2, 2),
        BlockStructure::Rectangular,
        Accum::Replace,
        rows(&a, 2, 3),
        BlockStructure::Rectangular,
        rows(&b, 3, 2),
        BlockStructure::Rectangular,
        Real(1.0),
        Par::Sequential,
    );
    assert_eq!(r, Ok(()));
    assert_eq!(out, reals(&[58.0, 64.0, 139.0, 154.0]));
}

#[test]
fn product_scaled_and_added_into_the_destination() {
    let a = reals(&[1.0, 2.0, 3.0, 4.0]);
    let b = reals(&[5.0, 6.0, 7.0, 8.0]);
    let mut out = reals(&[1.0, 10.0, 100.0, 1000.0]);
    let r = matmul(
        rows_mut(&mut out, 2, 2),
        BlockStructure::Rectangular,
        Accum::Add,
        rows(&a, 2, 2),
        BlockStructure::Rectangular,
        rows(&b, 2, 2),
        BlockStructure::Rectangular,
        Real(-2.0),
        Par::rayon(3),
    );
    assert_eq!(r, Ok(()));
    assert_eq!(out, reals(&[1.0 - 38.0, 10.0 - 44.0, 100.0 - 86.0, 1000.0 - 100.0]));
}

#[test]
fn triangular_factors_are_read_inside_their_structure_only() {
    // lower (1 . .; 2 3 .; 4 5 6) times upper (1 2 3; . 4 5; . . 6)
    let a = reals(&[1.0, NAN, NAN, 2.0, 3.0, NAN, 4.0, 5.0, 6.0]);
    let b = reals(&[1.0, 2.0, 3.0, NAN, 4.0, 5.0, NAN, NAN, 6.0]);
    let mut out = reals(&[0.0; 9]);
    let r = matmul(
        rows_mut(&mut out, 3, 3),
        BlockStructure::Rectangular,
        Accum::Replace,
        rows(&a, 3, 3),
        BlockStructure::TriangularLower,
        rows(&b, 3, 3),
        BlockStructure::TriangularUpper,
        Real(1.0),
        Par::Sequential,
    );
    assert_eq!(r, Ok(()));
    assert_eq!(out, reals(&[1.0, 2.0, 3.0, 2.0, 16.0, 21.0, 4.0, 28.0, 73.0]));
}

#[test]
fn unit_diagonals_count_as_one_without_being_read() {
    // unit upper (1 2 3; . 1 4; . . 1) times unit lower (1 . .; 5 1 .; 6 7 1)
    let a = reals(&[NAN, 2.0, 3.0, NAN, NAN, 4.0, NAN, NAN, NAN]);
    let b = reals(&[NAN, NAN, NAN, 5.0, NAN, NAN, 6.0, 7.0, NAN]);
    let mut out = reals(&[0.0; 9]);
    let r = matmul(
        rows_mut(&mut out, 3, 3),
        BlockStructure::Rectangular,
        Accum::Replace,
        rows(&a, 3, 3),
        BlockStructure::UnitTriangularUpper,
        rows(&b, 3, 3),
        BlockStructure::UnitTriangularLower,
        Real(1.0),
        Par::Sequential,
    );
    assert_eq!(r, Ok(()));
    assert_eq!(out, reals(&[29.0, 23.0, 3.0, 29.0, 29.0, 4.0, 6.0, 7.0, 1.0]));
}

#[test]
fn triangular_destination_is_written_inside_its_structure_only() {
    let a = reals(&[1.0, 2.0, 3.0, 4.0]);
    let b = reals(&[5.0, 6.0, 7.0, 8.0]);
    let expected = [19.0, 22.0, 43.0, 50.0];
    let cases = [
        (BlockStructure::Rectangular, [true, true, true, true]),
        (BlockStructure::TriangularLower, [true, false, true, true]),
        (BlockStructure::TriangularUpper, [true, true, false, true]),
        (BlockStructure::UnitTriangularLower, [false, false, true, false]),
        (BlockStructure::UnitTriangularUpper, [false, true, false, false]),
    ];
    for (structure, written) in cases {
        let mut out = reals(&[-1.0; 4]);
        let r = matmul(
            rows_mut(&mut out, 2, 2),
            structure,
            Accum::Replace,
            rows(&a, 2, 2),
            BlockStructure::Rectangular,
            rows(&b, 2, 2),
            BlockStructure::Rectangular,
            Real(1.0),
            Par::Sequential,
        );
        assert_eq!(r, Ok(()));
        for k in 0..4 {
            assert_eq!(out[k], Real(if written[k] { expected[k] } else { -1.0 }));
        }
    }
}

#[test]
fn product_refuses_shapes_that_do_not_conform() {
    let a = reals(&[1.0; 6]);
    let b = reals(&[1.0; 6]);
    let mut out = reals(&[-1.0; 4]);
    // inner dimensions differ
    let r = matmul(
        rows_mut(&mut out, 2, 2),
        BlockStructure::Rectangular,
        Accum::Replace,
        rows(&a, 2, 3),
        BlockStructure::Rectangular,
        rows(&b, 2, 3),
        BlockStructure::Rectangular,
        Real(1.0),
        Par::Sequential,
    );
    assert_eq!(r, Err(DimensionMismatch));
    // a triangular factor that is not square
    let r = matmul(
        rows_mut(&mut out, 2, 2),
        BlockStructure::Rectangular,
        Accum::Replace,
        rows(&a, 2, 3),
        BlockStructure::TriangularLower,
        rows(&b, 3, 2),
        BlockStructure::Rectangular,
        Real(1.0),
        Par::Sequential,
    );
    assert_eq!(r, Err(DimensionMismatch));
    // a destination of the wrong shape
    let r = matmul(
        rows_mut(&mut out, 1, 4),
        BlockStructure::Rectangular,
        Accum::Replace,
        rows(&a, 2, 3),
        BlockStructure::Rectangular,
        rows(&b, 3, 2),
        BlockStructure::Rectangular,
        Real(1.0),
        Par::Sequential,
    );
    assert_eq!(r, Err(DimensionMismatch));
    assert_eq!(out, reals(&[-1.0; 4]));
}

#[test]
fn forward_substitution() {
    // (2 . .; 1 4 .; 3 5 8) x = b, with x = (1 2; 3 4; 5 6)
    let l = reals(&[2.0, NAN, NAN, 1.0, 4.0, NAN, 3.0, 5.0, 8.0]);
    let mut b = reals(&[2.0, 4.0, 13.0, 18.0, 58.0, 74.0]);
    let r = solve_lower_triangular_in_place(rows(&l, 3, 3), rows_mut(&mut b, 3, 2), Par::Sequential);
    assert_eq!(r, Ok(()));
    assert_eq!(b, reals(&[1.0, 2.0, 3.0, 4.0, 5.0, 6.0]));
}

#[test]
fn forward_substitution_with_unit_diagonal() {
    // (1 . .; 1 1 .; 3 5 1) x = b, with x = (1 2; 3 4; 5 6)
    let l = reals(&[NAN, NAN, NAN, 1.0, NAN, NAN, 3.0, 5.0, NAN]);
    let mut b = reals(&[1.0, 2.0, 4.0, 6.0, 23.0, 32.0]);
    let r = solve_unit_lower_triangular_in_place(rows(&l, 3, 3), rows_mut(&mut b, 3, 2), Par::rayon(0));
    assert_eq!(r, Ok(()));
    assert_eq!(b, reals(&[1.0, 2.0, 3.0, 4.0, 5.0, 6.0]));
}

#[test]
fn solve_refuses_shapes_that_do_not_fit() {
    let l = reals(&[1.0; 6]);
    let mut b = reals(&[7.0; 6]);
    let r = solve_lower_triangular_in_place(rows(&l, 2, 3), rows_mut(&mut b, 2, 3), Par::Sequential);
    assert_eq!(r, Err(DimensionMismatch));
    let r = solve_unit_lower_triangular_in_place(rows(&l[..4], 2, 2), rows_mut(&mut b, 3, 2), Par::Sequential);
    assert_eq!(r, Err(DimensionMismatch));
    assert_eq!(b, reals(&[7.0; 6]));
}

#[test]
fn permutation_is_checked() {
    let forward = vec![2usize, 0, 1];
    let backward = vec![1usize, 2, 0];
    assert!(PermRef::new_checked(&forward, &backward).is_some());
    assert!(PermRef::new_checked(&forward, &forward).is_none());
    assert!(PermRef::new_checked(&forward, &backward[..2]).is_none());
    assert!(PermRef::new_checked(&[0, 3, 1], &[0, 2, 1]).is_none());
    assert!(PermRef::new_checked(&[0, 0, 1], &[0, 2, 1]).is_none());
    assert!(PermRef::new_checked(&[], &[]).is_some());
}

#[test]
fn inverse_of_inverse_is_the_permutation() {
    let forward = vec![3usize, 0, 2, 4, 1];
    let backward = vec![1usize, 4, 2, 0, 3];
    let p = PermRef::new_checked(&forward, &backward).unwrap();
    assert_eq!(p.len(), 5);
    let q = p.inverse();
    assert_eq!(q.len(), 5);
    assert_eq!(q.forward, &backward[..]);
    assert_eq!(q.backward, &forward[..]);
    let (f, b) = q.inverse().arrays();
    assert_eq!(f, &forward[..]);
    assert_eq!(b, &backward[..]);
}

#[test]
fn rows_are_permuted_by_the_forward_array() {
    let src = reals(&[0.0, 0.5, 10.0, 10.5, 20.0, 20.5]);
    let forward = vec![2usize, 0, 1];
    let backward = vec![1usize, 2, 0];
    let mut dst = reals(&[-1.0; 6]);
    let r = permute_rows(rows_mut(&mut dst, 3, 2), rows(&src, 3, 2), PermRef::new_checked(&forward, &backward).unwrap());
    assert_eq!(r, Ok(()));
    assert_eq!(dst, reals(&[20.0, 20.5, 0.0, 0.5, 10.0, 10.5]));
    let mut dst = reals(&[-1.0; 6]);
    let r = permute_rows(rows_mut(&mut dst, 2, 3), rows(&src, 3, 2), PermRef::new_checked(&forward, &backward).unwrap());
    assert_eq!(r, Err(DimensionMismatch));
    let r = permute_rows(rows_mut(&mut dst, 3, 2), rows(&src, 3, 2), PermRef::new_checked(&[0, 1], &[0, 1]).unwrap());
    assert_eq!(r, Err(DimensionMismatch));
    assert_eq!(dst, reals(&[-1.0; 6]));
}

#[test]
fn views_address_the_buffer_by_their_layout() {
    let a = reals(&[0.0, 1.0, 2.0, 3.0, 4.0, 5.0, 6.0, 7.0, 8.0, 9.0, 10.0, 11.0]);
    let m = MatRef::from_column_major_slice(&a, 3, 4).unwrap();
    assert_eq!((m.nrows(), m.ncols()), (3, 4));
    assert_eq!(*m.get(2, 1), Real(5.0));
    let t = MatRef::from_column_major_slice(&a, 3, 4).unwrap().transpose();
    assert_eq!((t.nrows(), t.ncols()), (4, 3));
    assert_eq!(*t.get(1, 2), Real(5.0));
    let r = MatRef::from_column_major_slice(&a, 3, 4).unwrap().reverse_rows_and_cols();
    assert_eq!(*r.get(0, 0), Real(11.0));
    assert_eq!(*r.get(2, 3), Real(0.0));
    assert_eq!(*r.get(1, 0), Real(10.0));
    let s = MatRef::from_column_major_slice(&a, 3, 4).unwrap().submatrix(1, 2, 2, 2);
    assert_eq!((s.nrows(), s.ncols()), (2, 2));
    assert_eq!(*s.get(0, 0), Real(7.0));
    assert_eq!(*s.get(1, 1), Real(11.0));
    let e = MatRef::from_column_major_slice(&a, 3, 4).unwrap().submatrix(3, 4, 0, 0).reverse_rows_and_cols();
    assert_eq!((e.nrows(), e.ncols()), (0, 0));
    let w = MatRef::from_row_major_slice(&a, 3, 4).unwrap();
    assert_eq!(*w.get(2, 1), Real(9.0));
    assert!(MatRef::from_column_major_slice(&a, 3, 3).is_none());
    assert!(MatRef::from_row_major_slice(&a, 5, 3).is_none());
    assert!(MatRef::from_column_major_slice(&a, usize::MAX, 2).is_none());
}

#[test]
fn exclusive_views_follow_the_same_layouts() {
    let mut a = reals(&[0.0; 12]);
    assert!(MatMut::from_column_major_slice_mut(&mut a, 4, 4).is_none());
    assert!(MatMut::from_row_major_slice_mut(&mut a, 2, 5).is_none());
    let m = MatMut::from_column_major_slice_mut(&mut a, 3, 4).unwrap();
    assert_eq!((m.nrows(), m.ncols()), (3, 4));
    let s = m.submatrix_mut(1, 1, 2, 3).reverse_rows_and_cols_mut().transpose_mut();
    assert_eq!((s.nrows(), s.ncols()), (3, 2));
    assert_eq!(s.layout, Layout { offset: 11, nrows: 3, ncols: 2, row_stride: -3, col_stride: -1 });
}

#[test]
fn layouts_compute_positions() {
    let l = Layout::new_column_major(3, 4);
    assert_eq!(l, Layout { offset: 0, nrows: 3, ncols: 4, row_stride: 1, col_stride: 3 });
    assert_eq!(l.position(2, 3, 12), 11);
    assert_eq!(l.transpose().position(3, 2, 12), 11);
    assert_eq!(l.reverse_rows_and_cols(12).position(0, 0, 12), 11);
    assert_eq!(l.submatrix(1, 1, 2, 2, 12).position(1, 1, 12), 8);
    assert_eq!(l.submatrix(3, 0, 0, 4, 12).offset, 0);
}

#[test]
fn structures_say_what_they_store() {
    for (s, dense, lower, upper, unit) in [
        (Rectangular, true, false, false, false),
        (TriangularLower, false, true, false, false),
        (TriangularUpper, false, false, true, false),
        (UnitTriangularLower, false, true, false, true),
        (UnitTriangularUpper, false, false, true, true),
    ] {
        assert_eq!((s.is_dense(), s.is_lower(), s.is_upper(), s.is_unit()), (dense, lower, upper, unit));
    }
    assert!(Rectangular.stores(0, 5) && Rectangular.stores(5, 0));
    assert!(TriangularLower.stores(2, 2) && TriangularLower.stores(3, 2) && !TriangularLower.stores(2, 3));
    assert!(TriangularUpper.stores(2, 2) && !TriangularUpper.stores(3, 2) && TriangularUpper.stores(2, 3));
    assert!(!UnitTriangularLower.stores(2, 2) && UnitTriangularLower.stores(3, 2));
    assert!(!UnitTriangularUpper.stores(2, 2) && UnitTriangularUpper.stores(2, 3));
}

#[test]
fn policies_report_their_degree() {
    assert_eq!(Par::Sequential.degree(), 1);
    assert_eq!(Par::rayon(4), Par::Rayon(4));
    assert_eq!(Par::rayon(4).degree(), 4);
    assert!(matches!(Par::rayon(0), Par::Rayon(_)));
}
