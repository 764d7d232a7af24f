//! Blocked inversion of triangular matrices.

use crate::confinement::{
    lemma_inverse_lower_keeps, lemma_inverse_upper_confined, lemma_written_outside, lemma_written_within,
    written_within,
};
use crate::error::DimensionMismatch;
use crate::layout::Layout;
use crate::mat::{MatMut, MatRef};
use crate::matmul::{matmul_raw, matmul_result};
use crate::model::{
    assemble, block_of, has_shape, lemma_assemble, lemma_matrix_block, lemma_matrix_in_part, lemma_matrix_kept,
    lemma_matrix_kept_both, lemma_matrix_reversed, lemma_reversed_twice, lemma_same_outside_block,
    lemma_same_outside_chain, lemma_same_outside_reversed, lemma_store, matrix, reversed_matrix, same_outside,
    same_outside_both, set_entry,
};
use crate::par::Par;
use crate::scalar::ComplexField;
use crate::structure::{Accum, BlockStructure};
use crate::triangular_solve::{solve_lower, solve_lower_raw};
use vstd::prelude::*;

verus! {

/// The destination `d` after inverting the lower triangular `a` of dimension
/// at most 2 in closed form: for dimension 1, `1 / a00`; for dimension 2,
/// the two reciprocals of the diagonal and `-(1 / a11) * a10 * (1 / a00)`
/// below it.
pub open spec fn inverse_lower_small<T: ComplexField>(d: Seq<Seq<T>>, a: Seq<Seq<T>>) -> Seq<Seq<T>> {
    if a.len() == 1 {
        set_entry(d, 0, 0, a[0][0].reciprocal())
    } else if a.len() == 2 {
        let d00 = a[0][0].reciprocal();
        let d11 = a[1][1].reciprocal();
        let d10 = d11.negation().product(a[1][0]).product(d00);
        set_entry(set_entry(set_entry(d, 0, 0, d00), 1, 1, d11), 1, 0, d10)
    } else {
        d
    }
}

/// The destination `d` after inverting the unit lower triangular `a` of
/// dimension at most 2 in closed form: only dimension 2 has an entry below
/// the diagonal, `-a10`.
pub open spec fn inverse_unit_lower_small<T: ComplexField>(d: Seq<Seq<T>>, a: Seq<Seq<T>>) -> Seq<Seq<T>> {
    if a.len() == 2 {
        set_entry(d, 1, 0, a[1][0].negation())
    } else {
        d
    }
}

/// The destination `d` after the blocked inversion of the lower triangular
/// `a`. Up to dimension 2 the closed forms apply. Beyond, with the matrix
/// split at half its dimension, the diagonal quadrants are inverted on their
/// own, and the quadrant below the diagonal becomes the solution `x` of
/// `a_br * x = -(a_bl * inverse(a_tl))`. The quadrant above the diagonal
/// stays as it was in `d`.
pub open spec fn inverse_lower<T: ComplexField>(d: Seq<Seq<T>>, a: Seq<Seq<T>>, unit: bool) -> Seq<Seq<T>>
    decreases a.len(),
{
    let n = a.len() as int;
    if n <= 2 {
        if unit {
            inverse_unit_lower_small(d, a)
        } else {
            inverse_lower_small(d, a)
        }
    } else {
        let mid = n / 2;
        let rest = n - mid;
        let a_br = block_of(a, mid, mid, rest, rest);
        let tl = inverse_lower(block_of(d, 0, 0, mid, mid), block_of(a, 0, 0, mid, mid), unit);
        let br = inverse_lower(block_of(d, mid, mid, rest, rest), a_br, unit);
        let coupled = matmul_result(
            block_of(d, mid, 0, rest, mid),
            BlockStructure::Rectangular,
            Accum::Replace,
            T::one_value().negation(),
            block_of(a, mid, 0, rest, mid),
            BlockStructure::Rectangular,
            tl,
            BlockStructure::lower_of(unit),
        );
        assemble(tl, block_of(d, 0, mid, mid, rest), solve_lower(a_br, unit, coupled), br)
    }
}

/// Inverts a lower triangular matrix of dimension at most 2 in closed form.
pub fn invert_lower_triangular_impl_small<T: ComplexField>(dst: &mut [T], dl: Layout, src: &[T], sl: Layout)
    requires
        dl.fits(old(dst)@.len() as int),
        dl.injective(),
        sl.fits(src@.len() as int),
        dl.nrows == dl.ncols,
        sl.nrows == dl.nrows,
        sl.ncols == dl.nrows,
        dl.nrows <= 2,
    ensures
        matrix(final(dst)@, dl) == inverse_lower_small(matrix(old(dst)@, dl), matrix(src@, sl)),
        same_outside(old(dst)@, final(dst)@, dl),
{
    let n = dl.nrows;
    let len = dst.len();
    let ghost b0 = dst@;
    if n == 1 {
        let d00 = src[sl.position(0, 0, src.len())].recip();
        let p00 = dl.position(0, 0, len);
        proof {
            lemma_store(b0, dl, 0, 0, d00);
        }
        dst[p00] = d00;
    } else if n == 2 {
        let d00 = src[sl.position(0, 0, src.len())].recip();
        let d11 = src[sl.position(1, 1, src.len())].recip();
        let d10 = d11.neg().mul(&src[sl.position(1, 0, src.len())]).mul(&d00);
        let p00 = dl.position(0, 0, len);
        let p11 = dl.position(1, 1, len);
        let p10 = dl.position(1, 0, len);
        proof {
            let b1 = b0.update(p00 as int, d00);
            let b2 = b1.update(p11 as int, d11);
            let b3 = b2.update(p10 as int, d10);
            lemma_store(b0, dl, 0, 0, d00);
            lemma_store(b1, dl, 1, 1, d11);
            lemma_store(b2, dl, 1, 0, d10);
            lemma_same_outside_chain(b0, b1, b2, dl);
            lemma_same_outside_chain(b0, b2, b3, dl);
        }
        dst[p00] = d00;
        dst[p11] = d11;
        dst[p10] = d10;
    }
}

/// Inverts a unit lower triangular matrix of dimension at most 2 in closed
/// form. The diagonal is neither read nor written.
pub fn invert_unit_lower_triangular_impl_small<T: ComplexField>(dst: &mut [T], dl: Layout, src: &[T], sl: Layout)
    requires
        dl.fits(old(dst)@.len() as int),
        dl.injective(),
        sl.fits(src@.len() as int),
        dl.nrows == dl.ncols,
        sl.nrows == dl.nrows,
        sl.ncols == dl.nrows,
        dl.nrows <= 2,
    ensures
        matrix(final(dst)@, dl) == inverse_unit_lower_small(matrix(old(dst)@, dl), matrix(src@, sl)),
        same_outside(old(dst)@, final(dst)@, dl),
{
    let n = dl.nrows;
    let len = dst.len();
    let ghost b0 = dst@;
    if n == 2 {
        let d10 = src[sl.position(1, 0, src.len())].neg();
        let p10 = dl.position(1, 0, len);
        proof {
            lemma_store(b0, dl, 1, 0, d10);
        }
        dst[p10] = d10;
    }
}

/// Runs the two inversions through `rayon::join`, which executes both
/// closures, on one thread or on two, and returns when both are done. Each
/// closure is one call of `invert_blocked`, on a buffer of its own, so what
/// holds after each call holds of its buffer here.
#[verifier::external_body]
fn join_inversions<T: ComplexField>(
    head: &mut [T],
    hl: Layout,
    tail: &mut [T],
    tl: Layout,
    src: &[T],
    s_head: Layout,
    s_tail: Layout,
    unit: bool,
    par: Par,
)
    requires
        hl.fits(old(head)@.len() as int),
        hl.injective(),
        s_head.fits(src@.len() as int),
        hl.nrows == hl.ncols,
        s_head.nrows == hl.nrows,
        s_head.ncols == hl.nrows,
        tl.fits(old(tail)@.len() as int),
        tl.injective(),
        s_tail.fits(src@.len() as int),
        tl.nrows == tl.ncols,
        s_tail.nrows == tl.nrows,
        s_tail.ncols == tl.nrows,
    ensures
        matrix(final(head)@, hl) == inverse_lower(matrix(old(head)@, hl), matrix(src@, s_head), unit),
        same_outside(old(head)@, final(head)@, hl),
        matrix(final(tail)@, tl) == inverse_lower(matrix(old(tail)@, tl), matrix(src@, s_tail), unit),
        same_outside(old(tail)@, final(tail)@, tl),
{
    rayon::join(
        || invert_blocked(head, hl, src, s_head, unit, par),
        || invert_blocked(tail, tl, src, s_tail, unit, par),
    );
}

/// Inverts the matrices under `low` and `high` concurrently, if and only if
/// every entry of `low` lies before every entry of `high` in the buffer, so
/// that the buffer can be cut in two between them. Says whether it did; if
/// not, the buffer is as it was.
fn try_join<T: ComplexField>(
    dst: &mut [T],
    low: Layout,
    high: Layout,
    src: &[T],
    s_low: Layout,
    s_high: Layout,
    unit: bool,
    par: Par,
) -> (done: bool)
    requires
        low.fits(old(dst)@.len() as int),
        low.injective(),
        s_low.fits(src@.len() as int),
        low.nrows == low.ncols,
        s_low.nrows == low.nrows,
        s_low.ncols == low.nrows,
        low.nrows > 0,
        high.fits(old(dst)@.len() as int),
        high.injective(),
        s_high.fits(src@.len() as int),
        high.nrows == high.ncols,
        s_high.nrows == high.nrows,
        s_high.ncols == high.nrows,
        high.nrows > 0,
    ensures
        done <==> low.highest() < high.lowest(),
        done ==> matrix(final(dst)@, low) == inverse_lower(matrix(old(dst)@, low), matrix(src@, s_low), unit),
        done ==> matrix(final(dst)@, high) == inverse_lower(matrix(old(dst)@, high), matrix(src@, s_high), unit),
        done ==> same_outside_both(old(dst)@, final(dst)@, low, high),
        !done ==> final(dst)@ == old(dst)@,
{
    let len = dst.len();
    let ghost b0 = dst@;
    let (_, low_end) = low.extent(len);
    let (high_start, _) = high.extent(len);
    if low_end >= high_start {
        return false;
    }
    proof {
        low.lemma_extent(len as int);
        high.lemma_extent(len as int);
        assert(high.contains(0, 0));
        assert(high.lowest() <= high.index_of(0, 0));
    }
    let cut = high_start;
    let moved = high.lower_by(cut);
    let (head, tail) = dst.split_at_mut(cut);
    let ghost h0 = head@;
    let ghost t0 = tail@;
    proof {
        low.lemma_lowered(len as int, 0);
        assert(low.lowered(0) == low);
        lemma_matrix_in_part(b0, h0, low, 0);
        lemma_matrix_in_part(b0, t0, high, cut as int);
        high.lemma_lowered(len as int, cut as int);
    }
    join_inversions(head, low, tail, moved, src, s_low, s_high, unit, par);
    proof {
        let h1 = head@;
        let t1 = tail@;
        let b2 = h1 + t1;
        assert(b2.subrange(0, cut as int) =~= h1);
        assert(b2.subrange(cut as int, len as int) =~= t1);
        lemma_matrix_in_part(b2, h1, low, 0);
        lemma_matrix_in_part(b2, t1, high, cut as int);
        assert forall|p: int|
            #![trigger b2[p]]
            0 <= p < len && !low.covers(p) && !high.covers(p) implies b2[p] == b0[p] by {
            if p < cut {
                assert(h1[p] == h0[p]);
            } else {
                assert(!moved.covers(p - cut));
                assert(t1[p - cut] == t0[p - cut]);
            }
        }
    }
    true
}

/// Inverts the two diagonal quadrants of a matrix of dimension `dim`, each
/// on its own: concurrently where the policy forks a problem of this
/// dimension and the quadrants lie apart in the buffer, one after the other
/// otherwise.
fn invert_diagonal_blocks<T: ComplexField>(
    dim: usize,
    dst: &mut [T],
    d_tl: Layout,
    d_br: Layout,
    src: &[T],
    s_tl: Layout,
    s_br: Layout,
    unit: bool,
    par: Par,
)
    requires
        d_tl.fits(old(dst)@.len() as int),
        d_tl.injective(),
        s_tl.fits(src@.len() as int),
        d_tl.nrows == d_tl.ncols,
        s_tl.nrows == d_tl.nrows,
        s_tl.ncols == d_tl.nrows,
        d_tl.nrows > 0,
        d_br.fits(old(dst)@.len() as int),
        d_br.injective(),
        s_br.fits(src@.len() as int),
        d_br.nrows == d_br.ncols,
        s_br.nrows == d_br.nrows,
        s_br.ncols == d_br.nrows,
        d_br.nrows > 0,
        d_tl.disjoint_from(d_br),
        d_br.disjoint_from(d_tl),
        dim == d_tl.nrows + d_br.nrows,
    ensures
        matrix(final(dst)@, d_tl) == inverse_lower(matrix(old(dst)@, d_tl), matrix(src@, s_tl), unit),
        matrix(final(dst)@, d_br) == inverse_lower(matrix(old(dst)@, d_br), matrix(src@, s_br), unit),
        same_outside_both(old(dst)@, final(dst)@, d_tl, d_br),
    decreases dim, 0int,
{
    let ghost b0 = dst@;
    match par.fork(dim) {
        Some(narrowed) => {
            if try_join(dst, d_tl, d_br, src, s_tl, s_br, unit, narrowed) {
                return ;
            }
            if try_join(dst, d_br, d_tl, src, s_br, s_tl, unit, narrowed) {
                return ;
            }
        },
        None => {},
    }
    invert_blocked(dst, d_tl, src, s_tl, unit, par);
    let ghost b1 = dst@;
    proof {
        lemma_matrix_kept(b0, b1, d_tl, d_br);
    }
    invert_blocked(dst, d_br, src, s_br, unit, par);
    proof {
        lemma_matrix_kept(b1, dst@, d_br, d_tl);
    }
}

/// The blocked inversion on raw buffers, for a lower triangular matrix with
/// a stored diagonal or, where `unit` is set, an implicit unit diagonal.
pub fn invert_blocked<T: ComplexField>(dst: &mut [T], dl: Layout, src: &[T], sl: Layout, unit: bool, par: Par)
    requires
        dl.fits(old(dst)@.len() as int),
        dl.injective(),
        sl.fits(src@.len() as int),
        dl.nrows == dl.ncols,
        sl.nrows == dl.nrows,
        sl.ncols == dl.nrows,
    ensures
        matrix(final(dst)@, dl) == inverse_lower(matrix(old(dst)@, dl), matrix(src@, sl), unit),
        same_outside(old(dst)@, final(dst)@, dl),
    decreases dl.nrows, 1int,
{
    let n = dl.nrows;
    if n <= 2 {
        if unit {
            invert_unit_lower_triangular_impl_small(dst, dl, src, sl);
        } else {
            invert_lower_triangular_impl_small(dst, dl, src, sl);
        }
        return ;
    }
    let len = dst.len();
    let mid = n / 2;
    let rest = n - mid;
    let d_tl = dl.submatrix(0, 0, mid, mid, len);
    let d_bl = dl.submatrix(mid, 0, rest, mid, len);
    let d_br = dl.submatrix(mid, mid, rest, rest, len);
    let s_tl = sl.submatrix(0, 0, mid, mid, src.len());
    let s_bl = sl.submatrix(mid, 0, rest, mid, src.len());
    let s_br = sl.submatrix(mid, mid, rest, rest, src.len());
    let ghost d_tr = dl.block(0, mid as int, mid as int, rest as int);
    let ghost b0 = dst@;
    let ghost d = matrix(b0, dl);
    let ghost a = matrix(src@, sl);
    proof {
        let ln = len as int;
        let (m, r) = (mid as int, rest as int);
        dl.lemma_block(ln, 0, 0, m, m);
        dl.lemma_block(ln, m, 0, r, m);
        dl.lemma_block(ln, m, m, r, r);
        dl.lemma_block(ln, 0, m, m, r);
        sl.lemma_block(src@.len() as int, 0, 0, m, m);
        sl.lemma_block(src@.len() as int, m, 0, r, m);
        sl.lemma_block(src@.len() as int, m, m, r, r);
        dl.lemma_blocks_disjoint(ln, 0, 0, m, m, m, m, r, r);
        dl.lemma_blocks_disjoint(ln, 0, 0, m, m, m, 0, r, m);
        dl.lemma_blocks_disjoint(ln, 0, 0, m, m, 0, m, m, r);
        dl.lemma_blocks_disjoint(ln, m, m, r, r, 0, 0, m, m);
        dl.lemma_blocks_disjoint(ln, m, m, r, r, m, 0, r, m);
        dl.lemma_blocks_disjoint(ln, m, m, r, r, 0, m, m, r);
        dl.lemma_blocks_disjoint(ln, m, 0, r, m, 0, 0, m, m);
        dl.lemma_blocks_disjoint(ln, m, 0, r, m, m, m, r, r);
        dl.lemma_blocks_disjoint(ln, m, 0, r, m, 0, m, m, r);
        lemma_matrix_block(b0, dl, 0, 0, m, m);
        lemma_matrix_block(b0, dl, m, 0, r, m);
        lemma_matrix_block(b0, dl, m, m, r, r);
        lemma_matrix_block(b0, dl, 0, m, m, r);
        lemma_matrix_block(src@, sl, 0, 0, m, m);
        lemma_matrix_block(src@, sl, m, 0, r, m);
        lemma_matrix_block(src@, sl, m, m, r, r);
    }
    invert_diagonal_blocks(n, dst, d_tl, d_br, src, s_tl, s_br, unit, par);
    let ghost b2 = dst@;
    proof {
        lemma_matrix_kept_both(b0, b2, d_tl, d_br, d_bl);
        lemma_matrix_kept_both(b0, b2, d_tl, d_br, d_tr);
    }
    let minus_one = T::one().neg();
    let tl_structure = if unit {
        BlockStructure::UnitTriangularLower
    } else {
        BlockStructure::TriangularLower
    };
    matmul_raw(
        dst,
        d_bl,
        BlockStructure::Rectangular,
        Accum::Replace,
        src,
        s_bl,
        BlockStructure::Rectangular,
        None,
        d_tl,
        tl_structure,
        &minus_one,
        par,
    );
    let ghost b3 = dst@;
    proof {
        lemma_matrix_kept(b2, b3, d_bl, d_tl);
        lemma_matrix_kept(b2, b3, d_bl, d_br);
        lemma_matrix_kept(b2, b3, d_bl, d_tr);
    }
    solve_lower_raw(src, s_br, unit, dst, d_bl, par);
    proof {
        let b4 = dst@;
        let (m, r) = (mid as int, rest as int);
        lemma_matrix_kept(b3, b4, d_bl, d_tl);
        lemma_matrix_kept(b3, b4, d_bl, d_br);
        lemma_matrix_kept(b3, b4, d_bl, d_tr);
        let got = matrix(b4, dl);
        lemma_matrix_block(b4, dl, 0, 0, m, m);
        lemma_matrix_block(b4, dl, m, 0, r, m);
        lemma_matrix_block(b4, dl, m, m, r, r);
        lemma_matrix_block(b4, dl, 0, m, m, r);
        assert(has_shape(got, n as int, n as int));
        lemma_assemble(got, n as int, m);
        assert(a.len() == n);
        dl.lemma_block_covers(len as int, 0, 0, m, m);
        dl.lemma_block_covers(len as int, m, m, r, r);
        assert(same_outside(b0, b2, dl));
        lemma_same_outside_block(b2, b3, dl, m, 0, r, m);
        lemma_same_outside_block(b3, b4, dl, m, 0, r, m);
        lemma_same_outside_chain(b0, b2, b3, dl);
        lemma_same_outside_chain(b0, b3, b4, dl);
    }
}

/// The blocked inversion of a lower triangular matrix with a stored diagonal.
pub fn invert_lower_triangular_impl<T: ComplexField>(dst: &mut [T], dl: Layout, src: &[T], sl: Layout, par: Par)
    requires
        dl.fits(old(dst)@.len() as int),
        dl.injective(),
        sl.fits(src@.len() as int),
        dl.nrows == dl.ncols,
        sl.nrows == dl.nrows,
        sl.ncols == dl.nrows,
    ensures
        matrix(final(dst)@, dl) == inverse_lower(matrix(old(dst)@, dl), matrix(src@, sl), false),
        same_outside(old(dst)@, final(dst)@, dl),
{
    invert_blocked(dst, dl, src, sl, false, par)
}

/// The blocked inversion of a lower triangular matrix with an implicit unit
/// diagonal.
pub fn invert_unit_lower_triangular_impl<T: ComplexField>(
    dst: &mut [T],
    dl: Layout,
    src: &[T],
    sl: Layout,
    par: Par,
)
    requires
        dl.fits(old(dst)@.len() as int),
        dl.injective(),
        sl.fits(src@.len() as int),
        dl.nrows == dl.ncols,
        sl.nrows == dl.nrows,
        sl.ncols == dl.nrows,
    ensures
        matrix(final(dst)@, dl) == inverse_lower(matrix(old(dst)@, dl), matrix(src@, sl), true),
        same_outside(old(dst)@, final(dst)@, dl),
{
    invert_blocked(dst, dl, src, sl, true, par)
}

/// The destination `d` after the blocked inversion of the upper triangular
/// `a`: the inversion of the lower triangular matrix that `a` is when both
/// its axes are reversed, seen with both axes reversed again.
pub open spec fn inverse_upper<T: ComplexField>(d: Seq<Seq<T>>, a: Seq<Seq<T>>, unit: bool) -> Seq<Seq<T>> {
    reversed_matrix(inverse_lower(reversed_matrix(d), reversed_matrix(a), unit))
}

/// Destination and source are square and of one dimension.
pub open spec fn square_pair(dl: Layout, sl: Layout) -> bool {
    dl.nrows == sl.nrows && dl.ncols == sl.ncols && dl.nrows == dl.ncols
}

/// Tests whether destination and source are square and of one dimension.
fn is_square_pair(dl: &Layout, sl: &Layout) -> (r: bool)
    ensures
        r == square_pair(*dl, *sl),
{
    dl.nrows == sl.nrows && dl.ncols == sl.ncols && dl.nrows == dl.ncols
}

/// Computes the inverse of the lower triangular matrix `src` with an
/// implicit unit diagonal, and stores its part strictly below the diagonal
/// to `dst`. Fails, leaving `dst` as it was, unless both are square and of
/// one dimension.
pub fn invert_unit_lower_triangular<T: ComplexField>(dst: MatMut<'_, T>, src: MatRef<'_, T>, par: Par) -> (r:
    Result<(), DimensionMismatch>)
    requires
        dst.wf(),
        src.wf(),
    ensures
        r is Ok <==> square_pair(dst.layout, src.layout),
        r is Ok ==> matrix(final(dst.data)@, dst.layout) == inverse_lower(
            matrix(old(dst.data)@, dst.layout),
            src@,
            true,
        ) && written_within(old(dst.data)@, final(dst.data)@, dst.layout, BlockStructure::lower_of(true)),
        r is Err ==> final(dst.data)@ == old(dst.data)@,
{
    if is_square_pair(&dst.layout, &src.layout) {
        let ghost before = dst.data@;
        invert_unit_lower_triangular_impl(dst.data, dst.layout, src.data, src.layout, par);
        proof {
            lemma_inverse_lower_keeps(matrix(before, dst.layout), src@, true, dst.layout.nrows as int);
            lemma_written_within(before, final(dst.data)@, dst.layout, BlockStructure::lower_of(true));
        }
        Ok(())
    } else {
        Err(DimensionMismatch)
    }
}

/// Computes the inverse of the lower triangular matrix `src` and stores its
/// lower triangular part to `dst`. Fails, leaving `dst` as it was, unless
/// both are square and of one dimension.
pub fn invert_lower_triangular<T: ComplexField>(dst: MatMut<'_, T>, src: MatRef<'_, T>, par: Par) -> (r: Result<
    (),
    DimensionMismatch,
>)
    requires
        dst.wf(),
        src.wf(),
    ensures
        r is Ok <==> square_pair(dst.layout, src.layout),
        r is Ok ==> matrix(final(dst.data)@, dst.layout) == inverse_lower(
            matrix(old(dst.data)@, dst.layout),
            src@,
            false,
        ) && written_within(old(dst.data)@, final(dst.data)@, dst.layout, BlockStructure::lower_of(false)),
        r is Err ==> final(dst.data)@ == old(dst.data)@,
{
    if is_square_pair(&dst.layout, &src.layout) {
        let ghost before = dst.data@;
        invert_lower_triangular_impl(dst.data, dst.layout, src.data, src.layout, par);
        proof {
            lemma_inverse_lower_keeps(matrix(before, dst.layout), src@, false, dst.layout.nrows as int);
            lemma_written_within(before, final(dst.data)@, dst.layout, BlockStructure::lower_of(false));
        }
        Ok(())
    } else {
        Err(DimensionMismatch)
    }
}

/// Inverts the lower triangular matrix that `src` is when both its axes are
/// reversed, into `dst` seen the same way. Fails, leaving `dst` as it was,
/// unless both are square and of one dimension.
fn invert_blocked_reversed<T: ComplexField>(dst: MatMut<'_, T>, src: MatRef<'_, T>, unit: bool, par: Par) -> (r:
    Result<(), DimensionMismatch>)
    requires
        dst.wf(),
        src.wf(),
    ensures
        r is Ok <==> square_pair(dst.layout, src.layout),
        r is Ok ==> matrix(final(dst.data)@, dst.layout.reversed()) == inverse_lower(
            matrix(old(dst.data)@, dst.layout.reversed()),
            matrix(src.data@, src.layout.reversed()),
            unit,
        ) && same_outside(old(dst.data)@, final(dst.data)@, dst.layout),
        r is Err ==> final(dst.data)@ == old(dst.data)@,
{
    let ghost before = dst.data@;
    let ghost dl = dst.layout;
    let r = if unit {
        invert_unit_lower_triangular(dst.reverse_rows_and_cols_mut(), src.reverse_rows_and_cols(), par)
    } else {
        invert_lower_triangular(dst.reverse_rows_and_cols_mut(), src.reverse_rows_and_cols(), par)
    };
    proof {
        if r is Ok {
            lemma_written_outside(before, final(dst.data)@, dl.reversed(), BlockStructure::lower_of(unit));
            lemma_same_outside_reversed(before, final(dst.data)@, dl);
        }
    }
    r
}

/// Computes the inverse of the upper triangular matrix `src` with an
/// implicit unit diagonal, and stores its part strictly above the diagonal
/// to `dst`. Fails, leaving `dst` as it was, unless both are square and of
/// one dimension.
pub fn invert_unit_upper_triangular<T: ComplexField>(dst: MatMut<'_, T>, src: MatRef<'_, T>, par: Par) -> (r:
    Result<(), DimensionMismatch>)
    requires
        dst.wf(),
        src.wf(),
    ensures
        r is Ok <==> square_pair(dst.layout, src.layout),
        r is Ok ==> matrix(final(dst.data)@, dst.layout) == inverse_upper(
            matrix(old(dst.data)@, dst.layout),
            src@,
            true,
        ) && written_within(old(dst.data)@, final(dst.data)@, dst.layout, BlockStructure::upper_of(true)),
        r is Err ==> final(dst.data)@ == old(dst.data)@,
{
    let ghost before = dst.data@;
    let ghost dl = dst.layout;
    proof {
        lemma_matrix_reversed(before, dl);
        lemma_matrix_reversed(src.data@, src.layout);
    }
    let r = invert_blocked_reversed(dst, src, true, par);
    proof {
        if r is Ok {
            let after = final(dst.data)@;
            let d = matrix(before, dl);
            lemma_matrix_reversed(after, dl);
            lemma_reversed_twice(matrix(after, dl), dl.nrows as int, dl.ncols as int);
            lemma_inverse_upper_confined(d, src@, d, src@, true, dl.nrows as int);
            lemma_written_within(before, after, dl, BlockStructure::upper_of(true));
        }
    }
    r
}

/// Computes the inverse of the upper triangular matrix `src` and stores its
/// upper triangular part to `dst`. Fails, leaving `dst` as it was, unless
/// both are square and of one dimension.
pub fn invert_upper_triangular<T: ComplexField>(dst: MatMut<'_, T>, src: MatRef<'_, T>, par: Par) -> (r: Result<
    (),
    DimensionMismatch,
>)
    requires
        dst.wf(),
        src.wf(),
    ensures
        r is Ok <==> square_pair(dst.layout, src.layout),
        r is Ok ==> matrix(final(dst.data)@, dst.layout) == inverse_upper(
            matrix(old(dst.data)@, dst.layout),
            src@,
            false,
        ) && written_within(old(dst.data)@, final(dst.data)@, dst.layout, BlockStructure::upper_of(false)),
        r is Err ==> final(dst.data)@ == old(dst.data)@,
{
    let ghost before = dst.data@;
    let ghost dl = dst.layout;
    proof {
        lemma_matrix_reversed(before, dl);
        lemma_matrix_reversed(src.data@, src.layout);
    }
    let r = invert_blocked_reversed(dst, src, false, par);
    proof {
        if r is Ok {
            let after = final(dst.data)@;
            let d = matrix(before, dl);
            lemma_matrix_reversed(after, dl);
            lemma_reversed_twice(matrix(after, dl), dl.nrows as int, dl.ncols as int);
            lemma_inverse_upper_confined(d, src@, d, src@, false, dl.nrows as int);
            lemma_written_within(before, after, dl, BlockStructure::upper_of(false));
        }
    }
    r
}

} // verus!
