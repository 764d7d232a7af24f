//! The product of matrices that are rectangular or triangular.

use crate::dot::{dot, dot_product};
use crate::error::DimensionMismatch;
use crate::layout::Layout;
use crate::mat::{MatMut, MatRef};
use crate::model::{matrix, same_outside};
use crate::par::Par;
use crate::scalar::ComplexField;
use crate::structure::{Accum, BlockStructure};
use vstd::prelude::*;

verus! {

/// The first `k` at which neither `a[i][k]` nor `b[k][j]` is structurally zero.
pub open spec fn k_lo(sa: BlockStructure, sb: BlockStructure, i: int, j: int) -> int {
    let from_a = if sa.upper() {
        i
    } else {
        0
    };
    let from_b = if sb.lower() {
        j
    } else {
        0
    };
    if from_a >= from_b {
        from_a
    } else {
        from_b
    }
}

/// One past the last `k` at which neither `a[i][k]` nor `b[k][j]` is
/// structurally zero, for factors of inner dimension `depth`.
pub open spec fn k_hi(sa: BlockStructure, sb: BlockStructure, i: int, j: int, depth: int) -> int {
    let to_a = if sa.lower() {
        i + 1
    } else {
        depth
    };
    let to_b = if sb.upper() {
        j + 1
    } else {
        depth
    };
    if to_a <= to_b {
        to_a
    } else {
        to_b
    }
}

/// What the product stores at `(i, j)`, where the destination held `c`:
/// `alpha` times the sum over the structurally present terms, replacing `c`
/// or added to it.
pub open spec fn product_entry<T: ComplexField>(
    c: T,
    accum: Accum,
    alpha: T,
    a: Seq<Seq<T>>,
    sa: BlockStructure,
    b: Seq<Seq<T>>,
    sb: BlockStructure,
    i: int,
    j: int,
) -> T {
    let scaled = alpha.product(dot(a, sa, i, b, sb, j, k_lo(sa, sb, i, j), k_hi(sa, sb, i, j, b.len() as int)));
    match accum {
        Accum::Replace => scaled,
        Accum::Add => c.sum(scaled),
    }
}

/// The destination after the product: the entries that `sc` stores are
/// computed, all others stay as they were in `c`.
pub open spec fn matmul_result<T: ComplexField>(
    c: Seq<Seq<T>>,
    sc: BlockStructure,
    accum: Accum,
    alpha: T,
    a: Seq<Seq<T>>,
    sa: BlockStructure,
    b: Seq<Seq<T>>,
    sb: BlockStructure,
) -> Seq<Seq<T>> {
    Seq::new(
        c.len(),
        |i: int|
            Seq::new(
                c[i].len(),
                |j: int|
                    if sc.holds(i, j) {
                        product_entry(c[i][j], accum, alpha, a, sa, b, sb, i, j)
                    } else {
                        c[i][j]
                    },
            ),
    )
}

/// The product has the shape of the destination.
pub proof fn lemma_matmul_shape<T: ComplexField>(
    c: Seq<Seq<T>>,
    sc: BlockStructure,
    accum: Accum,
    alpha: T,
    a: Seq<Seq<T>>,
    sa: BlockStructure,
    b: Seq<Seq<T>>,
    sb: BlockStructure,
    nrows: int,
    ncols: int,
)
    requires
        crate::model::has_shape(c, nrows, ncols),
    ensures
        crate::model::has_shape(matmul_result(c, sc, accum, alpha, a, sa, b, sb), nrows, ncols),
{
    let r = matmul_result(c, sc, accum, alpha, a, sa, b, sb);
    assert forall|i: int| 0 <= i < nrows implies (#[trigger] r[i]).len() == ncols by {
        assert(c[i].len() == ncols);
    }
}

/// The shapes of destination and factors fit: the inner dimensions agree,
/// and whatever is triangular is square.
pub open spec fn conforming(
    dl: Layout,
    ds: BlockStructure,
    ll: Layout,
    ls: BlockStructure,
    rl: Layout,
    rs: BlockStructure,
) -> bool {
    &&& ll.nrows == dl.nrows
    &&& ll.ncols == rl.nrows
    &&& rl.ncols == dl.ncols
    &&& (!ds.dense() ==> dl.nrows == dl.ncols)
    &&& (!ls.dense() ==> ll.nrows == ll.ncols)
    &&& (!rs.dense() ==> rl.nrows == rl.ncols)
}

/// Tests whether the shapes of destination and factors fit.
pub fn shapes_conform(
    dl: &Layout,
    ds: BlockStructure,
    ll: &Layout,
    ls: BlockStructure,
    rl: &Layout,
    rs: BlockStructure,
) -> (r: bool)
    ensures
        r == conforming(*dl, ds, *ll, ls, *rl, rs),
{
    ll.nrows == dl.nrows && ll.ncols == rl.nrows && rl.ncols == dl.ncols && (ds.is_dense() || dl.nrows
        == dl.ncols) && (ls.is_dense() || ll.nrows == ll.ncols) && (rs.is_dense() || rl.nrows == rl.ncols)
}

/// The right factor as a matrix: under `rl` in its own buffer, or in the
/// destination's buffer as it was before the product.
pub open spec fn right_factor<T>(rhs: Option<&[T]>, before: Seq<T>, rl: Layout) -> Seq<Seq<T>> {
    match rhs {
        Some(r) => matrix(r@, rl),
        None => matrix(before, rl),
    }
}

/// Computes what the product stores at `(i, j)`.
fn entry_value<T: ComplexField>(
    c: &T,
    accum: Accum,
    alpha: &T,
    lhs: &[T],
    ll: Layout,
    ls: BlockStructure,
    rhs: &[T],
    rl: Layout,
    rs: BlockStructure,
    i: usize,
    j: usize,
) -> (r: T)
    requires
        ll.fits(lhs@.len() as int),
        rl.fits(rhs@.len() as int),
        ll.ncols == rl.nrows,
        i < ll.nrows,
        j < rl.ncols,
        !ls.dense() ==> ll.nrows == ll.ncols,
        !rs.dense() ==> rl.nrows == rl.ncols,
    ensures
        r == product_entry(*c, accum, *alpha, matrix(lhs@, ll), ls, matrix(rhs@, rl), rs, i as int, j as int),
{
    let depth = rl.nrows;
    let from_a = if ls.is_upper() {
        i
    } else {
        0
    };
    let from_b = if rs.is_lower() {
        j
    } else {
        0
    };
    let lo = if from_a >= from_b {
        from_a
    } else {
        from_b
    };
    let to_a = if ls.is_lower() {
        i + 1
    } else {
        depth
    };
    let to_b = if rs.is_upper() {
        j + 1
    } else {
        depth
    };
    let hi = if to_a <= to_b {
        to_a
    } else {
        to_b
    };
    let d = dot_product(lhs, ll, ls, i, rhs, rl, rs, j, lo, hi);
    let scaled = alpha.mul(&d);
    match accum {
        Accum::Replace => scaled,
        Accum::Add => c.add(&scaled),
    }
}

/// The structured product on raw buffers: `dst := alpha * lhs * rhs`, or
/// that added into `dst`. With `rhs` absent the right factor lies in the
/// destination's own buffer, under a layout that the destination's does not
/// meet. Only entries that the factors' structures store are read, only
/// entries that the destination's structure stores are written.
#[verifier::loop_isolation(false)]
pub fn matmul_raw<T: ComplexField>(
    dst: &mut [T],
    dl: Layout,
    ds: BlockStructure,
    accum: Accum,
    lhs: &[T],
    ll: Layout,
    ls: BlockStructure,
    rhs: Option<&[T]>,
    rl: Layout,
    rs: BlockStructure,
    alpha: &T,
    par: Par,
)
    requires
        dl.fits(old(dst)@.len() as int),
        dl.injective(),
        ll.fits(lhs@.len() as int),
        match rhs {
            Some(r) => rl.fits(r@.len() as int),
            None => rl.fits(old(dst)@.len() as int) && dl.disjoint_from(rl),
        },
        conforming(dl, ds, ll, ls, rl, rs),
    ensures
        matrix(final(dst)@, dl) == matmul_result(
            matrix(old(dst)@, dl),
            ds,
            accum,
            *alpha,
            matrix(lhs@, ll),
            ls,
            right_factor(rhs, old(dst)@, rl),
            rs,
        ),
        same_outside(old(dst)@, final(dst)@, dl),
{
    let m = dl.nrows;
    let n = dl.ncols;
    let len = dst.len();
    let ghost before = dst@;
    let ghost a = matrix(lhs@, ll);
    let ghost b = right_factor(rhs, before, rl);
    let ghost c = matrix(before, dl);
    let ghost goal = matmul_result(c, ds, accum, *alpha, a, ls, b, rs);
    let mut i: usize = 0;
    while i < m
        invariant
            i <= m,
            same_outside(before, dst@, dl),
            forall|r: int, s: int|
                #![trigger dl.index_of(r, s)]
                dl.contains(r, s) ==> dst@[dl.index_of(r, s)] == if r < i {
                    goal[r][s]
                } else {
                    before[dl.index_of(r, s)]
                },
        decreases m - i,
    {
        let mut j: usize = 0;
        while j < n
            invariant
                i < m,
                j <= n,
                same_outside(before, dst@, dl),
                forall|r: int, s: int|
                    #![trigger dl.index_of(r, s)]
                    dl.contains(r, s) ==> dst@[dl.index_of(r, s)] == if r < i || (r == i && s < j) {
                        goal[r][s]
                    } else {
                        before[dl.index_of(r, s)]
                    },
            decreases n - j,
        {
            if ds.stores(i, j) {
                let p = dl.position(i, j, len);
                let ghost now = dst@;
                let v = match rhs {
                    Some(r) => entry_value(&dst[p], accum, alpha, lhs, ll, ls, r, rl, rs, i, j),
                    None => {
                        proof {
                            crate::model::lemma_matrix_kept(before, now, dl, rl);
                        }
                        entry_value(&dst[p], accum, alpha, lhs, ll, ls, dst, rl, rs, i, j)
                    },
                };
                proof {
                    assert(dl.contains(i as int, j as int));
                    assert(now[p as int] == before[p as int]);
                    assert(c[i as int][j as int] == before[p as int]);
                    assert(v == goal[i as int][j as int]);
                }
                dst[p] = v;
                proof {
                    assert(dl.covers(p as int));
                    assert forall|r: int, s: int| #![trigger dl.index_of(r, s)] dl.contains(r, s) implies dst@[dl.index_of(
                        r,
                        s,
                    )] == if r < i || (r == i && s < j + 1) {
                        goal[r][s]
                    } else {
                        before[dl.index_of(r, s)]
                    } by {
                        if r == i && s == j {
                        } else {
                            assert(dl.index_of(r, s) != dl.index_of(i as int, j as int));
                        }
                    }
                }
            } else {
                proof {
                    assert(dl.contains(i as int, j as int));
                    assert(goal[i as int][j as int] == c[i as int][j as int]);
                }
            }
            j += 1;
        }
        i += 1;
    }
    proof {
        let got = matrix(dst@, dl);
        assert(got.len() == goal.len());
        assert forall|r: int| 0 <= r < m implies #[trigger] got[r] == goal[r] by {
            assert(c[r].len() == n);
            assert forall|s: int| 0 <= s < n implies got[r][s] == goal[r][s] by {
                assert(dl.contains(r, s));
            }
            assert(got[r] =~= goal[r]);
        }
        assert(got =~= goal);
    }
}

/// The structured product `dst := alpha * lhs * rhs`, or that added into
/// `dst`, where each of the three matrices is rectangular or triangular as
/// its structure says. Entries that a factor's structure does not store are
/// taken as zero, or as one on a unit diagonal, without being read; entries
/// that the destination's structure does not store are not written. Fails,
/// leaving `dst` as it was, unless the shapes conform.
pub fn matmul<T: ComplexField>(
    dst: MatMut<'_, T>,
    dst_structure: BlockStructure,
    accum: Accum,
    lhs: MatRef<'_, T>,
    lhs_structure: BlockStructure,
    rhs: MatRef<'_, T>,
    rhs_structure: BlockStructure,
    alpha: T,
    par: Par,
) -> (r: Result<(), DimensionMismatch>)
    requires
        dst.wf(),
        lhs.wf(),
        rhs.wf(),
    ensures
        r is Ok <==> conforming(dst.layout, dst_structure, lhs.layout, lhs_structure, rhs.layout, rhs_structure),
        r is Ok ==> matrix(final(dst.data)@, dst.layout) == matmul_result(
            matrix(old(dst.data)@, dst.layout),
            dst_structure,
            accum,
            alpha,
            lhs@,
            lhs_structure,
            rhs@,
            rhs_structure,
        ) && same_outside(old(dst.data)@, final(dst.data)@, dst.layout),
        r is Err ==> final(dst.data)@ == old(dst.data)@,
{
    if shapes_conform(&dst.layout, dst_structure, &lhs.layout, lhs_structure, &rhs.layout, rhs_structure) {
        matmul_raw(
            dst.data,
            dst.layout,
            dst_structure,
            accum,
            lhs.data,
            lhs.layout,
            lhs_structure,
            Some(rhs.data),
            rhs.layout,
            rhs_structure,
            &alpha,
            par,
        );
        Ok(())
    } else {
        Err(DimensionMismatch)
    }
}

} // verus!
