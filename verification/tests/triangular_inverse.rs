use dense_kernels::error::DimensionMismatch;
use dense_kernels::mat::{MatMut, MatRef};
use dense_kernels::matmul::matmul;
use dense_kernels::par::Par;
use dense_kernels::scalar::ComplexField;
use dense_kernels::structure::{Accum, BlockStructure};
use dense_kernels::triangular_inverse::{
    invert_lower_triangular, invert_unit_lower_triangular, invert_unit_upper_triangular, invert_upper_triangular,
};
use rand::rngs::StdRng;
use rand::SeedableRng;
use rand_distr::{Distribution, StandardNormal};

#[derive(Clone, Copy, Debug, PartialEq)]
struct Real(f64);

impl ComplexField for Real {
    fn zero_value() -> Self {
        unreachable!()
    }

    fn one_value() -> Self {
        unreachable!()
    }

    fn sum(self, _: Self) -> Self {
        unreachable!()
    }

    fn difference(self, _: Self) -> Self {
        unreachable!()
    }

    fn product(self, _: Self) -> Self {
        unreachable!()
    }

    fn negation(self) -> Self {
        unreachable!()
    }

    fn reciprocal(self) -> Self {
        unreachable!()
    }

    fn zero() -> Self {
        Real(0.0)
    }

    fn one() -> Self {
        Real(1.0)
    }

    fn add(&self, rhs: &Self) -> Self {
        Real(self.0 + rhs.0)
    }

    fn sub(&self, rhs: &Self) -> Self {
        Real(self.0 - rhs.0)
    }

    fn mul(&self, rhs: &Self) -> Self {
        Real(self.0 * rhs.0)
    }

    fn neg(&self) -> Self {
        Real(-self.0)
    }

    fn recip(&self) -> Self {
        Real(1.0 / self.0)
    }

    fn copy(&self) -> Self {
        *self
    }
}

/// An `n` by `n` matrix of standard normal samples, each shifted by 2,
/// stored column after column.
fn sample(rng: &mut StdRng, n: usize) -> Vec<Real> {
    let mut a = Vec::with_capacity(n * n);
    for _ in 0..n * n {
        let x: f64 = StandardNormal.sample(rng);
        a.push(Real(x + 2.0));
    }
    a
}

fn zeros(n: usize) -> Vec<Real> {
    vec![Real(0.0); n * n]
}

fn view(a: &[Real], n: usize) -> MatRef<'_, Real> {
    MatRef::from_column_major_slice(a, n, n).unwrap()
}

fn view_mut(a: &mut [Real], n: usize) -> MatMut<'_, Real> {
    MatMut::from_column_major_slice_mut(a, n, n).unwrap()
}

fn assert_identity(a: &[Real], inv: &[Real], n: usize, structure: BlockStructure) {
    let mut prod = zeros(n);
    let r = matmul(
        view_mut(&mut prod, n),
        BlockStructure::Rectangular,
        Accum::Replace,
        view(a, n),
        structure,
        view(inv, n),
        structure,
        Real(1.0),
        Par::rayon(0),
    );
    assert_eq!(r, Ok(()));
    for i in 0..n {
        for j in 0..n {
            let target = if i == j { 1.0 } else { 0.0 };
            assert!((prod[i + j * n].0 - target).abs() < 1e-4);
        }
    }
}

#[test]
fn test_invert_lower() {
    let rng = &mut StdRng::seed_from_u64(0);
    (0..32).for_each(|n| {
        let a = sample(rng, n);
        let mut inv = zeros(n);
        let r = invert_lower_triangular(view_mut(&mut inv, n), view(&a, n), Par::rayon(0));
        assert_eq!(r, Ok(()));
        assert_identity(&a, &inv, n, BlockStructure::TriangularLower);
    });
}

#[test]
fn test_invert_unit_lower() {
    let rng = &mut StdRng::seed_from_u64(0);
    (0..32).for_each(|n| {
        let a = sample(rng, n);
        let mut inv = zeros(n);
        let r = invert_unit_lower_triangular(view_mut(&mut inv, n), view(&a, n), Par::rayon(0));
        assert_eq!(r, Ok(()));
        assert_identity(&a, &inv, n, BlockStructure::UnitTriangularLower);
    });
}

#[test]
fn test_invert_upper() {
    let rng = &mut StdRng::seed_from_u64(0);
    (0..32).for_each(|n| {
        let a = sample(rng, n);
        let mut inv = zeros(n);
        let r = invert_upper_triangular(view_mut(&mut inv, n), view(&a, n), Par::rayon(0));
        assert_eq!(r, Ok(()));
        assert_identity(&a, &inv, n, BlockStructure::TriangularUpper);
    });
}

#[test]
fn test_invert_unit_upper() {
    let rng = &mut StdRng::seed_from_u64(0);
    (0..32).for_each(|n| {
        let a = sample(rng, n);
        let mut inv = zeros(n);
        let r = invert_unit_upper_triangular(view_mut(&mut inv, n), view(&a, n), Par::rayon(0));
        assert_eq!(r, Ok(()));
        assert_identity(&a, &inv, n, BlockStructure::UnitTriangularUpper);
    });
}

#[test]
fn inverse_of_dimension_zero_writes_nothing() {
    let a: Vec<Real> = Vec::new();
    let mut inv: Vec<Real> = Vec::new();
    assert_eq!(invert_lower_triangular(view_mut(&mut inv, 0), view(&a, 0), Par::Sequential), Ok(()));
    assert_eq!(invert_unit_lower_triangular(view_mut(&mut inv, 0), view(&a, 0), Par::Sequential), Ok(()));
    assert_eq!(invert_upper_triangular(view_mut(&mut inv, 0), view(&a, 0), Par::Sequential), Ok(()));
    assert_eq!(invert_unit_upper_triangular(view_mut(&mut inv, 0), view(&a, 0), Par::Sequential), Ok(()));
    assert!(inv.is_empty());
}

#[test]
fn inverse_of_dimension_one_is_the_reciprocal() {
    let a = vec![Real(4.0)];
    let mut inv = vec![Real(9.0)];
    assert_eq!(invert_lower_triangular(view_mut(&mut inv, 1), view(&a, 1), Par::Sequential), Ok(()));
    assert_eq!(inv, vec![Real(0.25)]);
    let mut inv = vec![Real(9.0)];
    assert_eq!(invert_upper_triangular(view_mut(&mut inv, 1), view(&a, 1), Par::Sequential), Ok(()));
    assert_eq!(inv, vec![Real(0.25)]);
}

#[test]
fn unit_inverse_of_dimension_one_leaves_the_diagonal() {
    let a = vec![Real(4.0)];
    let mut inv = vec![Real(9.0)];
    assert_eq!(invert_unit_lower_triangular(view_mut(&mut inv, 1), view(&a, 1), Par::Sequential), Ok(()));
    assert_eq!(inv, vec![Real(9.0)]);
    assert_eq!(invert_unit_upper_triangular(view_mut(&mut inv, 1), view(&a, 1), Par::Sequential), Ok(()));
    assert_eq!(inv, vec![Real(9.0)]);
}

#[test]
fn inverse_of_dimension_two_is_the_closed_form() {
    // columns: (a00, a10), (a01, a11)
    let a = vec![Real(2.0), Real(3.0), Real(100.0), Real(4.0)];
    let mut inv = vec![Real(9.0); 4];
    assert_eq!(invert_lower_triangular(view_mut(&mut inv, 2), view(&a, 2), Par::Sequential), Ok(()));
    assert_eq!(inv, vec![Real(0.5), Real(-0.25 * 3.0 * 0.5), Real(9.0), Real(0.25)]);
}

#[test]
fn upper_inverse_of_dimension_two_is_the_closed_form() {
    let a = vec![Real(2.0), Real(100.0), Real(3.0), Real(4.0)];
    let mut inv = vec![Real(9.0); 4];
    assert_eq!(invert_upper_triangular(view_mut(&mut inv, 2), view(&a, 2), Par::Sequential), Ok(()));
    assert_eq!(inv, vec![Real(0.5), Real(9.0), Real(-0.5 * 3.0 * 0.25), Real(0.25)]);
}

#[test]
fn unit_inverse_of_dimension_two_negates_the_entry_off_the_diagonal() {
    let a = vec![Real(2.0), Real(3.0), Real(100.0), Real(4.0)];
    let mut inv = vec![Real(9.0); 4];
    assert_eq!(invert_unit_lower_triangular(view_mut(&mut inv, 2), view(&a, 2), Par::Sequential), Ok(()));
    assert_eq!(inv, vec![Real(9.0), Real(-3.0), Real(9.0), Real(9.0)]);
    let mut inv = vec![Real(9.0); 4];
    assert_eq!(invert_unit_upper_triangular(view_mut(&mut inv, 2), view(&a, 2), Par::Sequential), Ok(()));
    assert_eq!(inv, vec![Real(9.0), Real(9.0), Real(-100.0), Real(9.0)]);
}

#[test]
fn inverse_of_dimension_three_in_exact_arithmetic() {
    // rows: (1, 0, 0), (2, 1, 0), (4, 8, 2)
    let a = vec![Real(1.0), Real(2.0), Real(4.0), Real(0.0), Real(1.0), Real(8.0), Real(0.0), Real(0.0), Real(2.0)];
    let mut inv = zeros(3);
    assert_eq!(invert_lower_triangular(view_mut(&mut inv, 3), view(&a, 3), Par::Sequential), Ok(()));
    // rows: (1, 0, 0), (-2, 1, 0), (6, -4, 0.5)
    let expected =
        vec![Real(1.0), Real(-2.0), Real(6.0), Real(0.0), Real(1.0), Real(-4.0), Real(0.0), Real(0.0), Real(0.5)];
    assert_eq!(inv, expected);
}

#[test]
fn inversion_stays_inside_its_triangle() {
    let rng = &mut StdRng::seed_from_u64(7);
    for n in 0..12 {
        let clean = sample(rng, n);
        let mut poisoned = clean.clone();
        for j in 0..n {
            for i in 0..n {
                if i < j {
                    poisoned[i + j * n] = Real(f64::NAN);
                }
            }
        }
        let mut expected = vec![Real(777.0); n * n];
        let mut inv = vec![Real(777.0); n * n];
        assert_eq!(invert_lower_triangular(view_mut(&mut expected, n), view(&clean, n), Par::Sequential), Ok(()));
        assert_eq!(invert_lower_triangular(view_mut(&mut inv, n), view(&poisoned, n), Par::Sequential), Ok(()));
        assert_eq!(inv, expected);
        for j in 0..n {
            for i in 0..n {
                if i < j {
                    assert_eq!(inv[i + j * n], Real(777.0));
                } else {
                    assert!(inv[i + j * n].0.is_finite());
                }
            }
        }
    }
}

#[test]
fn unit_inversion_stays_strictly_inside_its_triangle() {
    let rng = &mut StdRng::seed_from_u64(8);
    for n in 0..12 {
        let mut a = sample(rng, n);
        for j in 0..n {
            for i in 0..n {
                if i >= j {
                    a[i + j * n] = Real(f64::NAN);
                }
            }
        }
        let mut inv = vec![Real(777.0); n * n];
        assert_eq!(invert_unit_upper_triangular(view_mut(&mut inv, n), view(&a, n), Par::Sequential), Ok(()));
        for j in 0..n {
            for i in 0..n {
                if i >= j {
                    assert_eq!(inv[i + j * n], Real(777.0));
                } else {
                    assert!(inv[i + j * n].0.is_finite());
                }
            }
        }
    }
}

#[test]
fn inversion_does_not_depend_on_the_policy() {
    let rng = &mut StdRng::seed_from_u64(3);
    for n in [5usize, 16, 31] {
        let a = sample(rng, n);
        let mut seq = zeros(n);
        let mut two = zeros(n);
        let mut many = zeros(n);
        assert_eq!(invert_lower_triangular(view_mut(&mut seq, n), view(&a, n), Par::Sequential), Ok(()));
        assert_eq!(invert_lower_triangular(view_mut(&mut two, n), view(&a, n), Par::rayon(2)), Ok(()));
        assert_eq!(invert_lower_triangular(view_mut(&mut many, n), view(&a, n), Par::rayon(0)), Ok(()));
        assert_eq!(seq, two);
        assert_eq!(seq, many);
    }
}

#[test]
fn inversion_through_views_of_larger_buffers() {
    let rng = &mut StdRng::seed_from_u64(4);
    let n = 7;
    let big = sample(rng, 10);
    let mut small = Vec::new();
    for j in 0..n {
        for i in 0..n {
            small.push(big[(i + 2) + (j + 1) * 10]);
        }
    }
    let mut expected = zeros(n);
    assert_eq!(invert_lower_triangular(view_mut(&mut expected, n), view(&small, n), Par::Sequential), Ok(()));
    let mut out = vec![Real(-1.0); 100];
    let r = invert_lower_triangular(
        view_mut(&mut out, 10).submatrix_mut(1, 3, n, n),
        view(&big, 10).submatrix(2, 1, n, n),
        Par::Sequential,
    );
    assert_eq!(r, Ok(()));
    for j in 0..10 {
        for i in 0..10 {
            let inside = 1 <= i && i < 1 + n && 3 <= j && j < 3 + n && i - 1 >= j - 3;
            if inside {
                assert_eq!(out[i + j * 10], expected[(i - 1) + (j - 3) * n]);
            } else {
                assert_eq!(out[i + j * 10], Real(-1.0));
            }
        }
    }
}

#[test]
fn inversion_through_row_major_views() {
    let rng = &mut StdRng::seed_from_u64(5);
    let n = 6;
    let a = sample(rng, n);
    let mut expected = zeros(n);
    assert_eq!(invert_upper_triangular(view_mut(&mut expected, n), view(&a, n), Par::Sequential), Ok(()));
    // the same buffer read row after row holds the transposed matrix
    let mut got = zeros(n);
    let r = invert_lower_triangular(
        MatMut::from_row_major_slice_mut(&mut got, n, n).unwrap(),
        MatRef::from_row_major_slice(&a, n, n).unwrap(),
        Par::Sequential,
    );
    assert_eq!(r, Ok(()));
    for j in 0..n {
        for i in 0..n {
            if i <= j {
                assert!((got[i + j * n].0 - expected[i + j * n].0).abs() < 1e-9);
            }
        }
    }
}

#[test]
fn mismatched_shapes_are_refused_before_any_write() {
    let a = vec![Real(2.0); 6];
    let square = vec![Real(2.0); 4];
    let mut inv = vec![Real(777.0); 6];
    let wide = || MatRef::from_column_major_slice(&a, 2, 3).unwrap();
    let r = invert_lower_triangular(MatMut::from_column_major_slice_mut(&mut inv, 2, 3).unwrap(), wide(), Par::Sequential);
    assert_eq!(r, Err(DimensionMismatch));
    let r = invert_unit_lower_triangular(
        MatMut::from_column_major_slice_mut(&mut inv, 3, 2).unwrap(),
        wide(),
        Par::Sequential,
    );
    assert_eq!(r, Err(DimensionMismatch));
    let r = invert_upper_triangular(
        MatMut::from_column_major_slice_mut(&mut inv, 2, 3).unwrap(),
        view(&square, 2),
        Par::Sequential,
    );
    assert_eq!(r, Err(DimensionMismatch));
    let mut small = vec![Real(777.0); 1];
    let r = invert_unit_upper_triangular(view_mut(&mut small, 1), view(&square, 2), Par::Sequential);
    assert_eq!(r, Err(DimensionMismatch));
    assert_eq!(inv, vec![Real(777.0); 6]);
    assert_eq!(small, vec![Real(777.0); 1]);
}
