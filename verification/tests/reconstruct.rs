use dense_kernels::error::DimensionMismatch;
use dense_kernels::mat::{MatMut, MatRef};
use dense_kernels::par::Par;
use dense_kernels::perm::PermRef;
use dense_kernels::reconstruct::{reconstruct, reconstruct_scratch, reconstruct_with_scratch, try_reconstruct};
use dense_kernels::scalar::ComplexField;
use dyn_stack::{MemBuffer, MemStack, StackReq};
use rand::rngs::StdRng;
use rand::SeedableRng;
use rand_distr::{Distribution, StandardNormal};

#[derive(Clone, Copy, Debug, PartialEq)]
struct Complex {
    re: f64,
    im: f64,
}

fn c(re: f64, im: f64) -> Complex {
    Complex { re, im }
}

impl Complex {
    fn abs(&self) -> f64 {
        self.re.hypot(self.im)
    }
}

impl ComplexField for Complex {
    fn zero_value() -> Self {
        unreachable!()
    }

    fn one_value() -> Self {
        unreachable!()
    }

    fn sum(self, _: Self) -> Self {
        unreachable!()
    }

    fn difference(self, _: Self) -> Self {
        unreachable!()
    }

    fn product(self, _: Self) -> Self {
        unreachable!()
    }

    fn negation(self) -> Self {
        unreachable!()
    }

    fn reciprocal(self) -> Self {
        unreachable!()
    }

    fn zero() -> Self {
        c(0.0, 0.0)
    }

    fn one() -> Self {
        c(1.0, 0.0)
    }

    fn add(&self, rhs: &Self) -> Self {
        c(self.re + rhs.re, self.im + rhs.im)
    }

    fn sub(&self, rhs: &Self) -> Self {
        c(self.re - rhs.re, self.im - rhs.im)
    }

    fn mul(&self, rhs: &Self) -> Self {
        c(self.re * rhs.re - self.im * rhs.im, self.re * rhs.im + self.im * rhs.re)
    }

    fn neg(&self) -> Self {
        c(-self.re, -self.im)
    }

    fn recip(&self) -> Self {
        let norm = self.re * self.re + self.im * self.im;
        c(self.re / norm, -self.im / norm)
    }

    fn copy(&self) -> Self {
        *self
    }
}

/// An `m` by `n` matrix of complex standard normal samples, stored column
/// after column.
fn sample(rng: &mut StdRng, m: usize, n: usize) -> Vec<Complex> {
    let mut a = Vec::with_capacity(m * n);
    for _ in 0..m * n {
        let re: f64 = StandardNormal.sample(rng);
        let im: f64 = StandardNormal.sample(rng);
        a.push(c(re, im));
    }
    a
}

/// Factors the `m` by `n` matrix `a` in place as `P * A = L * U` with partial
/// pivoting: row `i` of `L * U` is row `forward[i]` of `A`.
fn lu_in_place(a: &mut [Complex], m: usize, n: usize) -> (Vec<usize>, Vec<usize>) {
    let mut forward: Vec<usize> = (0..m).collect();
    let size = m.min(n);
    for k in 0..size {
        let mut pivot = k;
        for i in k + 1..m {
            if a[i + k * m].abs() > a[pivot + k * m].abs() {
                pivot = i;
            }
        }
        if pivot != k {
            for j in 0..n {
                a.swap(k + j * m, pivot + j * m);
            }
            forward.swap(k, pivot);
        }
        let inv = a[k + k * m].recip();
        for i in k + 1..m {
            a[i + k * m] = a[i + k * m].mul(&inv);
        }
        for j in k + 1..n {
            for i in k + 1..m {
                let delta = a[i + k * m].mul(&a[k + j * m]);
                a[i + j * m] = a[i + j * m].sub(&delta);
            }
        }
    }
    let mut backward = vec![0usize; m];
    for i in 0..m {
        backward[forward[i]] = i;
    }
    (forward, backward)
}

fn view(a: &[Complex], m: usize, n: usize) -> MatRef<'_, Complex> {
    MatRef::from_column_major_slice(a, m, n).unwrap()
}

fn view_mut(a: &mut [Complex], m: usize, n: usize) -> MatMut<'_, Complex> {
    MatMut::from_column_major_slice_mut(a, m, n).unwrap()
}

fn assert_close(got: &[Complex], want: &[Complex], tol: f64) {
    assert_eq!(got.len(), want.len());
    for (x, y) in got.iter().zip(want) {
        let dist = x.sub(y).abs();
        let scale = x.abs().max(y.abs());
        assert!(dist <= tol || dist <= tol * scale);
    }
}

#[test]
fn test_reconstruct() {
    let rng = &mut StdRng::seed_from_u64(0);
    for (m, n) in [(100, 50), (50, 100)] {
        let a = sample(rng, m, n);
        let mut lu = a.clone();
        let (forward, backward) = lu_in_place(&mut lu, m, n);
        let perm = PermRef::new_checked(&forward, &backward).unwrap();
        let tol = f64::EPSILON * 128.0 * (n as f64);
        let mut a_rec = vec![c(0.0, 0.0); m * n];
        let mut buffer = MemBuffer::new(reconstruct_scratch::<Complex>(m, n, Par::Sequential));
        let r = reconstruct(
            view_mut(&mut a_rec, m, n),
            view(&lu, m, n),
            view(&lu, m, n),
            perm,
            Par::Sequential,
            MemStack::new(&mut buffer),
        );
        assert_eq!(r, Ok(()));
        assert_close(&a_rec, &a, tol);
    }
}

#[test]
fn reconstruct_square_and_small_shapes() {
    let rng = &mut StdRng::seed_from_u64(1);
    for (m, n) in [(0, 0), (0, 3), (3, 0), (1, 1), (1, 4), (4, 1), (6, 6), (7, 5), (5, 7)] {
        let a = sample(rng, m, n);
        let mut lu = a.clone();
        let (forward, backward) = lu_in_place(&mut lu, m, n);
        let perm = PermRef::new_checked(&forward, &backward).unwrap();
        let mut a_rec = vec![c(9.0, 9.0); m * n];
        let mut tmp = vec![c(0.0, 0.0); m * n];
        let r = reconstruct_with_scratch(
            view_mut(&mut a_rec, m, n),
            view(&lu, m, n),
            view(&lu, m, n),
            perm,
            Par::rayon(0),
            &mut tmp,
        );
        assert_eq!(r, Ok(()));
        assert_close(&a_rec, &a, 1e-12 * ((m.max(n) + 1) as f64));
    }
}

#[test]
fn reconstruct_exact_product_with_rows_put_back() {
    // L = (1 0; 2 1; 3 4), U = (5 6; 0 7), both cut out of larger matrices
    // whose other entries must not count.
    let l = vec![c(-1.0, 0.0), c(2.0, 0.0), c(3.0, 0.0), c(-1.0, 0.0), c(-1.0, 0.0), c(4.0, 0.0)];
    let u = vec![c(5.0, 0.0), c(-1.0, 0.0), c(6.0, 0.0), c(7.0, 0.0)];
    // L * U = (5 6; 10 19; 15 46)
    let forward = vec![2usize, 0, 1];
    let backward = vec![1usize, 2, 0];
    let perm = PermRef::new_checked(&forward, &backward).unwrap();
    let mut out = vec![c(0.0, 0.0); 6];
    let mut tmp = vec![c(0.0, 0.0); 6];
    let r = reconstruct_with_scratch(view_mut(&mut out, 3, 2), view(&l, 3, 2), view(&u, 2, 2), perm, Par::Sequential, &mut tmp);
    assert_eq!(r, Ok(()));
    // row forward[i] of the output is row i of the product
    let expected = vec![c(10.0, 0.0), c(15.0, 0.0), c(5.0, 0.0), c(19.0, 0.0), c(46.0, 0.0), c(6.0, 0.0)];
    assert_eq!(out, expected);
}

#[test]
fn reconstruct_refuses_shapes_that_do_not_fit() {
    let l = vec![c(1.0, 0.0); 6];
    let u = vec![c(1.0, 0.0); 4];
    let identity = vec![0usize, 1, 2];
    let short = vec![0usize, 1];
    let mut out = vec![c(7.0, 7.0); 6];
    let mut tmp = vec![c(0.0, 0.0); 6];
    // output of the wrong shape
    let r = reconstruct_with_scratch(
        view_mut(&mut out, 2, 3),
        view(&l, 3, 2),
        view(&u, 2, 2),
        PermRef::new_checked(&identity, &identity).unwrap(),
        Par::Sequential,
        &mut tmp,
    );
    assert_eq!(r, Err(DimensionMismatch));
    // permutation of the wrong length
    let r = reconstruct_with_scratch(
        view_mut(&mut out, 3, 2),
        view(&l, 3, 2),
        view(&u, 2, 2),
        PermRef::new_checked(&short, &short).unwrap(),
        Par::Sequential,
        &mut tmp,
    );
    assert_eq!(r, Err(DimensionMismatch));
    // a lower factor with too few columns
    let r = reconstruct_with_scratch(
        view_mut(&mut out, 3, 2),
        view(&l[..3], 3, 1),
        view(&u, 2, 2),
        PermRef::new_checked(&identity, &identity).unwrap(),
        Par::Sequential,
        &mut tmp,
    );
    assert_eq!(r, Err(DimensionMismatch));
    // scratch of the wrong length
    let r = reconstruct_with_scratch(
        view_mut(&mut out, 3, 2),
        view(&l, 3, 2),
        view(&u, 2, 2),
        PermRef::new_checked(&identity, &identity).unwrap(),
        Par::Sequential,
        &mut tmp[..5],
    );
    assert_eq!(r, Err(DimensionMismatch));
    // through the stack as well
    let mut buffer = MemBuffer::new(reconstruct_scratch::<Complex>(2, 3, Par::Sequential));
    let r = reconstruct(
        view_mut(&mut out, 2, 3),
        view(&l, 3, 2),
        view(&u, 2, 2),
        PermRef::new_checked(&identity, &identity).unwrap(),
        Par::Sequential,
        MemStack::new(&mut buffer),
    );
    assert_eq!(r, Err(DimensionMismatch));
    assert_eq!(out, vec![c(7.0, 7.0); 6]);
    assert_eq!(tmp, vec![c(0.0, 0.0); 6]);
}

#[test]
fn scratch_requirement_counts_the_scalars() {
    let req = reconstruct_scratch::<Complex>(3, 5, Par::Sequential);
    assert_eq!(req.size_bytes(), 15 * 16);
    assert_eq!(req.align_bytes(), 8);
    let req = reconstruct_scratch::<Complex>(0, 5, Par::rayon(2));
    assert_eq!(req.size_bytes(), 0);
    assert_eq!(req.align_bytes(), 8);
}

#[test]
fn try_reconstruct_asks_the_stack_first() {
    let l = vec![c(0.0, 0.0), c(2.0, 0.0), c(0.0, 0.0), c(0.0, 0.0)];
    let u = vec![c(3.0, 0.0), c(0.0, 0.0), c(4.0, 0.0), c(5.0, 0.0)];
    let swap = vec![1usize, 0];
    let mut out = vec![c(7.0, 7.0); 4];
    let mut tiny = MemBuffer::new(StackReq::new::<Complex>(3));
    let r = try_reconstruct(
        view_mut(&mut out, 2, 2),
        view(&l, 2, 2),
        view(&u, 2, 2),
        PermRef::new_checked(&swap, &swap).unwrap(),
        Par::Sequential,
        MemStack::new(&mut tiny),
    );
    assert_eq!(r, None);
    assert_eq!(out, vec![c(7.0, 7.0); 4]);
    let mut enough = MemBuffer::new(reconstruct_scratch::<Complex>(2, 2, Par::Sequential));
    let r = try_reconstruct(
        view_mut(&mut out, 2, 2),
        view(&l, 2, 2),
        view(&u, 2, 2),
        PermRef::new_checked(&swap, &swap).unwrap(),
        Par::Sequential,
        MemStack::new(&mut enough),
    );
    assert_eq!(r, Some(Ok(())));
    // L * U = (3 4; 6 13), rows exchanged
    assert_eq!(out, vec![c(6.0, 0.0), c(3.0, 0.0), c(13.0, 0.0), c(4.0, 0.0)]);
    let r = try_reconstruct(
        view_mut(&mut out, 2, 2),
        view(&l[..2], 2, 1),
        view(&u, 2, 2),
        PermRef::new_checked(&swap, &swap).unwrap(),
        Par::Sequential,
        MemStack::new(&mut enough),
    );
    assert_eq!(r, Some(Err(DimensionMismatch)));
}
