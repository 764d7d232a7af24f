use dense_kernels::gf2::Gf2;
use dense_kernels::mat::{MatMut, MatRef};
use dense_kernels::matmul::matmul;
use dense_kernels::par::Par;
use dense_kernels::perm::PermRef;
use dense_kernels::reconstruct::{reconstruct, reconstruct_scratch, reconstruct_with_scratch};
use dense_kernels::scalar::ComplexField;
use dense_kernels::structure::BlockStructure::{
    Rectangular, TriangularLower, TriangularUpper, UnitTriangularLower, UnitTriangularUpper,
};
use dense_kernels::structure::{Accum, BlockStructure};
use dense_kernels::triangular_inverse::{
    invert_lower_triangular, invert_unit_lower_triangular, invert_unit_upper_triangular, invert_upper_triangular,
};
use dense_kernels::triangular_solve::{solve_lower_triangular_in_place, solve_unit_lower_triangular_in_place};
use dyn_stack::{MemBuffer, MemStack};
use rand::rngs::StdRng;
use rand::SeedableRng;
use rand_distr::{Distribution, StandardNormal};

fn bit(rng: &mut StdRng) -> Gf2 {
    let x: f64 = StandardNormal.sample(rng);
    Gf2(x > 0.0)
}

/// An `m` by `n` matrix of random bits, stored column after column.
fn sample(rng: &mut StdRng, m: usize, n: usize) -> Vec<Gf2> {
    (0..m * n).map(|_| bit(rng)).collect()
}

/// As `sample`, with ones on the diagonal.
fn sample_regular(rng: &mut StdRng, n: usize) -> Vec<Gf2> {
    let mut a = sample(rng, n, n);
    for i in 0..n {
        a[i + i * n] = Gf2(true);
    }
    a
}

/// The dense matrix that `a` stands for under `structure`.
fn fill(a: &[Gf2], m: usize, n: usize, structure: BlockStructure) -> Vec<Gf2> {
    let mut full = vec![Gf2(false); m * n];
    for j in 0..n {
        for i in 0..m {
            full[i + j * m] = if structure.is_unit() && i == j {
                Gf2(true)
            } else if structure.stores(i, j) {
                a[i + j * m]
            } else {
                Gf2(false)
            };
        }
    }
    full
}

/// The dense product of an `m` by `k` and a `k` by `n` matrix.
fn dense_product(a: &[Gf2], b: &[Gf2], m: usize, k: usize, n: usize) -> Vec<Gf2> {
    let mut c = vec![Gf2(false); m * n];
    for j in 0..n {
        for i in 0..m {
            let mut acc = Gf2(false);
            for p in 0..k {
                acc = acc.add(&a[i + p * m].mul(&b[p + j * k]));
            }
            c[i + j * m] = acc;
        }
    }
    c
}

fn identity(n: usize) -> Vec<Gf2> {
    let mut id = vec![Gf2(false); n * n];
    for i in 0..n {
        id[i + i * n] = Gf2(true);
    }
    id
}

fn view(a: &[Gf2], m: usize, n: usize) -> MatRef<'_, Gf2> {
    MatRef::from_column_major_slice(a, m, n).unwrap()
}

fn view_mut(a: &mut [Gf2], m: usize, n: usize) -> MatMut<'_, Gf2> {
    MatMut::from_column_major_slice_mut(a, m, n).unwrap()
}

#[test]
fn exact_inverse_times_source_is_the_identity() {
    let rng = &mut StdRng::seed_from_u64(11);
    for n in 0..40 {
        for par in [Par::Sequential, Par::Rayon(2), Par::Rayon(16)] {
            let a = sample_regular(rng, n);
            let mut inv = sample(rng, n, n);
            assert_eq!(invert_lower_triangular(view_mut(&mut inv, n, n), view(&a, n, n), par), Ok(()));
            let product =
                dense_product(&fill(&a, n, n, TriangularLower), &fill(&inv, n, n, TriangularLower), n, n, n);
            assert_eq!(product, identity(n));

            let mut inv = sample(rng, n, n);
            assert_eq!(invert_upper_triangular(view_mut(&mut inv, n, n), view(&a, n, n), par), Ok(()));
            let product =
                dense_product(&fill(&a, n, n, TriangularUpper), &fill(&inv, n, n, TriangularUpper), n, n, n);
            assert_eq!(product, identity(n));
        }
    }
}

#[test]
fn exact_unit_inverse_times_source_is_the_identity() {
    let rng = &mut StdRng::seed_from_u64(12);
    for n in 0..40 {
        for par in [Par::Sequential, Par::Rayon(3), Par::Rayon(64)] {
            let a = sample(rng, n, n);
            let before = sample(rng, n, n);
            let mut inv = before.clone();
            assert_eq!(invert_unit_lower_triangular(view_mut(&mut inv, n, n), view(&a, n, n), par), Ok(()));
            let product = dense_product(
                &fill(&a, n, n, UnitTriangularLower),
                &fill(&inv, n, n, UnitTriangularLower),
                n,
                n,
                n,
            );
            assert_eq!(product, identity(n));
            for j in 0..n {
                for i in 0..=j.min(n.saturating_sub(1)) {
                    assert_eq!(inv[i + j * n], before[i + j * n]);
                }
            }

            let mut inv = before.clone();
            assert_eq!(invert_unit_upper_triangular(view_mut(&mut inv, n, n), view(&a, n, n), par), Ok(()));
            let product = dense_product(
                &fill(&a, n, n, UnitTriangularUpper),
                &fill(&inv, n, n, UnitTriangularUpper),
                n,
                n,
                n,
            );
            assert_eq!(product, identity(n));
            for j in 0..n {
                for i in j..n {
                    assert_eq!(inv[i + j * n], before[i + j * n]);
                }
            }
        }
    }
}

#[test]
fn structured_product_is_the_dense_product_of_the_filled_factors() {
    let rng = &mut StdRng::seed_from_u64(13);
    let structures = [Rectangular, TriangularLower, TriangularUpper, UnitTriangularLower, UnitTriangularUpper];
    for n in 0..7 {
        for lhs_structure in structures {
            for rhs_structure in structures {
                let a = sample(rng, n, n);
                let b = sample(rng, n, n);
                let mut c = sample(rng, n, n);
                let r = matmul(
                    view_mut(&mut c, n, n),
                    Rectangular,
                    Accum::Replace,
                    view(&a, n, n),
                    lhs_structure,
                    view(&b, n, n),
                    rhs_structure,
                    Gf2(true),
                    Par::Sequential,
                );
                assert_eq!(r, Ok(()));
                let expected =
                    dense_product(&fill(&a, n, n, lhs_structure), &fill(&b, n, n, rhs_structure), n, n, n);
                assert_eq!(c, expected);
            }
        }
    }
}

#[test]
fn rectangular_factors_of_any_shape() {
    let rng = &mut StdRng::seed_from_u64(14);
    for (m, k, n) in [(0, 3, 2), (3, 0, 2), (3, 2, 0), (1, 5, 1), (4, 3, 5), (5, 5, 2)] {
        let a = sample(rng, m, k);
        let b = sample(rng, k, n);
        let before = sample(rng, m, n);
        let mut c = before.clone();
        let r = matmul(
            view_mut(&mut c, m, n),
            Rectangular,
            Accum::Add,
            view(&a, m, k),
            Rectangular,
            view(&b, k, n),
            Rectangular,
            Gf2(true),
            Par::Sequential,
        );
        assert_eq!(r, Ok(()));
        let product = dense_product(&a, &b, m, k, n);
        for p in 0..m * n {
            assert_eq!(c[p], before[p].add(&product[p]));
        }
    }
}

#[test]
fn exact_solution_solves_the_system() {
    let rng = &mut StdRng::seed_from_u64(15);
    for n in 0..12 {
        for width in [0usize, 1, 5] {
            let l = sample_regular(rng, n);
            let b = sample(rng, n, width);
            let mut x = b.clone();
            let r = solve_lower_triangular_in_place(view(&l, n, n), view_mut(&mut x, n, width), Par::Sequential);
            assert_eq!(r, Ok(()));
            assert_eq!(dense_product(&fill(&l, n, n, TriangularLower), &x, n, n, width), b);

            let l = sample(rng, n, n);
            let mut x = b.clone();
            let r = solve_unit_lower_triangular_in_place(view(&l, n, n), view_mut(&mut x, n, width), Par::Sequential);
            assert_eq!(r, Ok(()));
            assert_eq!(dense_product(&fill(&l, n, n, UnitTriangularLower), &x, n, n, width), b);
        }
    }
}

#[test]
fn exact_reconstruction_is_the_dense_product_with_rows_put_back() {
    let rng = &mut StdRng::seed_from_u64(16);
    for (m, n) in [(0, 0), (1, 1), (2, 5), (5, 2), (6, 6), (9, 4), (4, 9), (13, 11)] {
        let size = m.min(n);
        // factors cut out of m by n matrices, as a factorization in place leaves them
        let lu = sample(rng, m, n);
        let mut l = vec![Gf2(false); m * size];
        let mut u = vec![Gf2(false); size * n];
        for j in 0..size {
            for i in 0..m {
                l[i + j * m] = lu[i + j * m];
            }
        }
        for j in 0..n {
            for i in 0..size {
                u[i + j * size] = lu[i + j * m];
            }
        }
        let product =
            dense_product(&fill(&l, m, size, UnitTriangularLower), &fill(&u, size, n, TriangularUpper), m, size, n);
        // a permutation by random exchanges
        let mut forward: Vec<usize> = (0..m).collect();
        for i in 0..m {
            let x: f64 = StandardNormal.sample(rng);
            let k = ((x.abs() * 1000.0) as usize) % m;
            forward.swap(i, k);
        }
        let mut backward = vec![0usize; m];
        for i in 0..m {
            backward[forward[i]] = i;
        }
        let mut expected = vec![Gf2(false); m * n];
        for j in 0..n {
            for i in 0..m {
                expected[forward[i] + j * m] = product[i + j * m];
            }
        }

        let mut out = sample(rng, m, n);
        let mut tmp = sample(rng, m, n);
        let r = reconstruct_with_scratch(
            view_mut(&mut out, m, n),
            view(&lu, m, n),
            view(&lu, m, n),
            PermRef::new_checked(&forward, &backward).unwrap(),
            Par::Sequential,
            &mut tmp,
        );
        assert_eq!(r, Ok(()));
        assert_eq!(out, expected);

        let mut out = sample(rng, m, n);
        let mut buffer = MemBuffer::new(reconstruct_scratch::<Gf2>(m, n, Par::rayon(0)));
        let r = reconstruct(
            view_mut(&mut out, m, n),
            view(&l, m, size),
            view(&u, size, n),
            PermRef::new_checked(&forward, &backward).unwrap(),
            Par::rayon(0),
            MemStack::new(&mut buffer),
        );
        assert_eq!(r, Ok(()));
        assert_eq!(out, expected);
    }
}
