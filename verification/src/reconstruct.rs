//! Reconstruction of a matrix from its LU factors and row permutation.

use crate::dot::{dot, lemma_dot_agree};
use crate::error::DimensionMismatch;
use crate::layout::Layout;
use crate::mat::{MatMut, MatRef};
use crate::matmul::{matmul_raw, product_entry};
use crate::model::{block_of, lemma_matrix_block, lemma_matrix_kept, matrix, same_outside};
use crate::par::Par;
use crate::perm::{permute_rows_raw, permuted, PermRef};
use crate::scalar::ComplexField;
use crate::scratch::{
    req_align, req_align_bytes, req_size, scalars_align, scratch_fits, scratch_items, scratch_req, stack_can_hold,
    take_zeroed,
};
use crate::structure::{Accum, BlockStructure};
use dyn_stack::{MemStack, StackReq};
use vstd::layout::size_of;
use vstd::prelude::*;

verus! {

/// Entry `(i, j)` of the product of the unit lower triangular `l` and the
/// upper triangular `u`: one times the sum of `l[i][k] * u[k][j]` over
/// `k <= i` and `k <= j`, with `l[i][i]` read as one.
pub open spec fn lu_entry<T: ComplexField>(l: Seq<Seq<T>>, u: Seq<Seq<T>>, i: int, j: int) -> T {
    T::one_value().product(
        dot(
            l,
            BlockStructure::UnitTriangularLower,
            i,
            u,
            BlockStructure::TriangularUpper,
            j,
            0,
            if i <= j {
                i + 1
            } else {
                j + 1
            },
        ),
    )
}

/// The `m` by `n` product of the unit lower triangular `l` and the upper
/// triangular `u`.
pub open spec fn lu_product<T: ComplexField>(l: Seq<Seq<T>>, u: Seq<Seq<T>>, m: int, n: int) -> Seq<Seq<T>> {
    Seq::new(m as nat, |i: int| Seq::new(n as nat, |j: int| lu_entry(l, u, i, j)))
}

/// The shapes fit: with `m` the rows of `l` and `n` the columns of `u`, the
/// output is `m` by `n`, the permutation has `m` indices, and `l` has at
/// least `min(m, n)` columns, `u` at least as many rows.
pub open spec fn reconstructible(ol: Layout, ll: Layout, ul: Layout, perm_len: int) -> bool {
    let size = if ll.nrows <= ul.ncols {
        ll.nrows
    } else {
        ul.ncols
    };
    &&& ol.nrows == ll.nrows
    &&& ol.ncols == ul.ncols
    &&& perm_len == ll.nrows
    &&& ll.ncols >= size
    &&& ul.nrows >= size
}

/// A block of the product, computed from the blocks of the factors that it
/// depends on, holds the entries of the whole product: the top rows of `l`
/// are unit lower triangular and the rows below rectangular, the left
/// columns of `u` are upper triangular and the columns to their right
/// rectangular.
proof fn lemma_block_entry<T: ComplexField>(
    c: T,
    lm: Seq<Seq<T>>,
    um: Seq<Seq<T>>,
    size: int,
    r0: int,
    nr: int,
    c0: int,
    nc: int,
    i: int,
    j: int,
)
    requires
        0 <= i < nr,
        0 <= j < nc,
        0 < size,
        (r0 == 0 && nr == size) || r0 == size,
        (c0 == 0 && nc == size) || c0 == size,
        r0 == 0 || c0 == 0,
    ensures
        product_entry(
            c,
            Accum::Replace,
            T::one_value(),
            block_of(lm, r0, 0, nr, size),
            if r0 == 0 {
                BlockStructure::UnitTriangularLower
            } else {
                BlockStructure::Rectangular
            },
            block_of(um, 0, c0, size, nc),
            if c0 == 0 {
                BlockStructure::TriangularUpper
            } else {
                BlockStructure::Rectangular
            },
            i,
            j,
        ) == lu_entry(lm, um, r0 + i, c0 + j),
{
    let sa = if r0 == 0 {
        BlockStructure::UnitTriangularLower
    } else {
        BlockStructure::Rectangular
    };
    let sb = if c0 == 0 {
        BlockStructure::TriangularUpper
    } else {
        BlockStructure::Rectangular
    };
    let lb = block_of(lm, r0, 0, nr, size);
    let ub = block_of(um, 0, c0, size, nc);
    let hi = if r0 + i <= c0 + j {
        r0 + i + 1
    } else {
        c0 + j + 1
    };
    assert(ub.len() == size);
    assert(crate::matmul::k_lo(sa, sb, i, j) == 0);
    assert(crate::matmul::k_hi(sa, sb, i, j, size) == hi);
    assert(hi <= size);
    lemma_dot_agree(
        lb,
        sa,
        i,
        ub,
        sb,
        j,
        lm,
        BlockStructure::UnitTriangularLower,
        r0 + i,
        um,
        BlockStructure::TriangularUpper,
        c0 + j,
        0,
        hi,
        0,
    );
}

/// Rebuilds the matrix that was factored as `P * A = L * U`, with `tmp` as
/// scratch for the product: row `row_perm.forward[i]` of `out` becomes row
/// `i` of `l * u`. Of `l` the part strictly below the diagonal is read, in
/// its first `min(m, n)` columns; of `u` the part on and above the diagonal,
/// in its first `min(m, n)` rows. Fails, leaving `out` and `tmp` as they
/// were, unless the shapes fit and `tmp` holds exactly `m * n` scalars.
pub fn reconstruct_with_scratch<T: ComplexField>(
    out: MatMut<'_, T>,
    l: MatRef<'_, T>,
    u: MatRef<'_, T>,
    row_perm: PermRef<'_>,
    par: Par,
    tmp: &mut [T],
) -> (r: Result<(), DimensionMismatch>)
    requires
        out.wf(),
        l.wf(),
        u.wf(),
        row_perm.wf(),
    ensures
        r is Ok <==> reconstructible(out.layout, l.layout, u.layout, row_perm.forward@.len() as int) && old(
            tmp,
        )@.len() == out.layout.nrows * out.layout.ncols,
        r is Ok ==> matrix(final(out.data)@, out.layout) == permuted(
            lu_product(l@, u@, out.layout.nrows as int, out.layout.ncols as int),
            row_perm.backward@,
        ) && same_outside(old(out.data)@, final(out.data)@, out.layout),
        r is Err ==> final(out.data)@ == old(out.data)@ && final(tmp)@ == old(tmp)@,
        final(tmp)@.len() == old(tmp)@.len(),
{
    let m = l.nrows();
    let n = u.ncols();
    let size = if m <= n {
        m
    } else {
        n
    };
    if out.nrows() != m || out.ncols() != n || row_perm.len() != m || l.ncols() < size || u.nrows() < size {
        return Err(DimensionMismatch);
    }
    let len = tmp.len();
    let total = m.checked_mul(n);
    if total.is_none() || total.unwrap() != len {
        return Err(DimensionMismatch);
    }
    let t = Layout::new_column_major(m, n);
    let ghost lm = l@;
    let ghost um = u@;
    let ghost b0 = tmp@;
    proof {
        Layout::lemma_column_major(m, n);
        t.lemma_block(len as int, 0, 0, size as int, size as int);
        l.layout.lemma_block(l.data@.len() as int, 0, 0, size as int, size as int);
        u.layout.lemma_block(u.data@.len() as int, 0, 0, size as int, size as int);
        lemma_matrix_block(l.data@, l.layout, 0, 0, size as int, size as int);
        lemma_matrix_block(u.data@, u.layout, 0, 0, size as int, size as int);
    }
    let one = T::one();
    let t_head = t.submatrix(0, 0, size, size, len);
    let l_head = l.layout.submatrix(0, 0, size, size, l.data.len());
    let u_head = u.layout.submatrix(0, 0, size, size, u.data.len());
    matmul_raw(
        tmp,
        t_head,
        BlockStructure::Rectangular,
        Accum::Replace,
        l.data,
        l_head,
        BlockStructure::UnitTriangularLower,
        Some(u.data),
        u_head,
        BlockStructure::TriangularUpper,
        &one,
        par,
    );
    let ghost b1 = tmp@;
    proof {
        lemma_matrix_block(b1, t, 0, 0, size as int, size as int);
        assert forall|i: int, j: int| 0 <= i < size && 0 <= j < size implies #[trigger] matrix(b1, t)[i][j]
            == lu_entry(lm, um, i, j) by {
            lemma_block_entry(
                matrix(b0, t_head)[i][j],
                lm,
                um,
                size as int,
                0,
                size as int,
                0,
                size as int,
                i,
                j,
            );
            assert(matrix(b1, t_head)[i][j] == matrix(b1, t)[i][j]);
        }
    }
    if m > n {
        let below = m - size;
        proof {
            t.lemma_block(len as int, size as int, 0, below as int, size as int);
            l.layout.lemma_block(l.data@.len() as int, size as int, 0, below as int, size as int);
            lemma_matrix_block(l.data@, l.layout, size as int, 0, below as int, size as int);
            t.lemma_blocks_disjoint(len as int, size as int, 0, below as int, size as int, 0, 0, size as int, size as int);
        }
        let t_below = t.submatrix(size, 0, below, size, len);
        let l_below = l.layout.submatrix(size, 0, below, size, l.data.len());
        matmul_raw(
            tmp,
            t_below,
            BlockStructure::Rectangular,
            Accum::Replace,
            l.data,
            l_below,
            BlockStructure::Rectangular,
            Some(u.data),
            u_head,
            BlockStructure::TriangularUpper,
            &one,
            par,
        );
        proof {
            let b2 = tmp@;
            lemma_matrix_kept(b1, b2, t_below, t_head);
            lemma_matrix_block(b2, t, 0, 0, size as int, size as int);
            lemma_matrix_block(b2, t, size as int, 0, below as int, size as int);
            assert forall|i: int, j: int| 0 <= i < m && 0 <= j < n implies #[trigger] matrix(b2, t)[i][j]
                == lu_entry(lm, um, i, j) by {
                if i < size {
                    assert(matrix(b2, t_head)[i][j] == matrix(b2, t)[i][j]);
                    assert(matrix(b1, t_head)[i][j] == matrix(b1, t)[i][j]);
                } else {
                    lemma_block_entry(
                        matrix(b1, t_below)[i - size][j],
                        lm,
                        um,
                        size as int,
                        size as int,
                        below as int,
                        0,
                        size as int,
                        i - size,
                        j,
                    );
                    assert(matrix(b2, t_below)[i - size][j] == matrix(b2, t)[i][j]);
                }
            }
        }
    }
    if m < n {
        let beside = n - size;
        proof {
            t.lemma_block(len as int, 0, size as int, size as int, beside as int);
            u.layout.lemma_block(u.data@.len() as int, 0, size as int, size as int, beside as int);
            lemma_matrix_block(u.data@, u.layout, 0, size as int, size as int, beside as int);
            t.lemma_blocks_disjoint(len as int, 0, size as int, size as int, beside as int, 0, 0, size as int, size as int);
        }
        let t_beside = t.submatrix(0, size, size, beside, len);
        let u_beside = u.layout.submatrix(0, size, size, beside, u.data.len());
        matmul_raw(
            tmp,
            t_beside,
            BlockStructure::Rectangular,
            Accum::Replace,
            l.data,
            l_head,
            BlockStructure::UnitTriangularLower,
            Some(u.data),
            u_beside,
            BlockStructure::Rectangular,
            &one,
            par,
        );
        proof {
            let b2 = tmp@;
            lemma_matrix_kept(b1, b2, t_beside, t_head);
            lemma_matrix_block(b2, t, 0, 0, size as int, size as int);
            lemma_matrix_block(b2, t, 0, size as int, size as int, beside as int);
            assert forall|i: int, j: int| 0 <= i < m && 0 <= j < n implies #[trigger] matrix(b2, t)[i][j]
                == lu_entry(lm, um, i, j) by {
                if j < size {
                    assert(matrix(b2, t_head)[i][j] == matrix(b2, t)[i][j]);
                    assert(matrix(b1, t_head)[i][j] == matrix(b1, t)[i][j]);
                } else {
                    lemma_block_entry(
                        matrix(b1, t_beside)[i][j - size],
                        lm,
                        um,
                        size as int,
                        0,
                        size as int,
                        size as int,
                        beside as int,
                        i,
                        j - size,
                    );
                    assert(matrix(b2, t_beside)[i][j - size] == matrix(b2, t)[i][j]);
                }
            }
        }
    }
    proof {
        let got = matrix(tmp@, t);
        let goal = lu_product(lm, um, m as int, n as int);
        assert forall|i: int| 0 <= i < m implies #[trigger] got[i] == goal[i] by {
            assert forall|j: int| 0 <= j < n implies got[i][j] == goal[i][j] by {
                assert(got[i][j] == lu_entry(lm, um, i, j));
            }
            assert(got[i] =~= goal[i]);
        }
        assert(got =~= goal);
    }
    permute_rows_raw(out.data, out.layout, tmp, t, row_perm.backward);
    Ok(())
}

/// The number of scalars that the scratch for an `nrows` by `ncols` output
/// holds: one for each entry, or as many as can be counted at all.
pub open spec fn scratch_len(nrows: usize, ncols: usize) -> int {
    if nrows * ncols <= usize::MAX {
        nrows * ncols
    } else {
        usize::MAX as int
    }
}

/// The scratch that `reconstruct` needs for an output of `nrows` by `ncols`
/// scalars: room for that many scalars, at the alignment of a scalar. Where
/// their size in bytes overflows, the requirement cannot be met and its
/// alignment reads zero.
pub fn reconstruct_scratch<T: ComplexField>(nrows: usize, ncols: usize, par: Par) -> (req: StackReq)
    ensures
        req_align(req) == scalars_align::<T>(scratch_len(nrows, ncols)),
        scratch_len(nrows, ncols) * size_of::<T>() <= usize::MAX ==> req_size(req) == scratch_len(nrows, ncols)
            * size_of::<T>(),
{
    match nrows.checked_mul(ncols) {
        Some(len) => scratch_req::<T>(len),
        None => scratch_req::<T>(usize::MAX),
    }
}

/// Rebuilds the matrix that was factored as `P * A = L * U`, with scratch
/// taken from `stack`, which must have room for it: row
/// `row_perm.forward[i]` of `out` becomes row `i` of `l * u`. Fails,
/// leaving `out` as it was, unless the shapes fit.
pub fn reconstruct<T: ComplexField>(
    out: MatMut<'_, T>,
    l: MatRef<'_, T>,
    u: MatRef<'_, T>,
    row_perm: PermRef<'_>,
    par: Par,
    stack: &mut MemStack,
) -> (r: Result<(), DimensionMismatch>)
    requires
        out.wf(),
        l.wf(),
        u.wf(),
        row_perm.wf(),
        scratch_fits::<T>(&*old(stack), out.layout.nrows * out.layout.ncols),
    ensures
        r is Ok <==> reconstructible(out.layout, l.layout, u.layout, row_perm.forward@.len() as int),
        r is Ok ==> matrix(final(out.data)@, out.layout) == permuted(
            lu_product(l@, u@, out.layout.nrows as int, out.layout.ncols as int),
            row_perm.backward@,
        ) && same_outside(old(out.data)@, final(out.data)@, out.layout),
        r is Err ==> final(out.data)@ == old(out.data)@,
{
    let len = out.nrows() * out.ncols();
    let mut scratch = take_zeroed::<T>(stack, len);
    let tmp = scratch_items(&mut scratch);
    reconstruct_with_scratch(out, l, u, row_perm, par, tmp)
}

/// Rebuilds the matrix as `reconstruct` does if `stack` has room for the
/// scratch, and says so; does nothing on a stack without room.
pub fn try_reconstruct<T: ComplexField>(
    out: MatMut<'_, T>,
    l: MatRef<'_, T>,
    u: MatRef<'_, T>,
    row_perm: PermRef<'_>,
    par: Par,
    stack: &mut MemStack,
) -> (r: Option<Result<(), DimensionMismatch>>)
    requires
        out.wf(),
        l.wf(),
        u.wf(),
        row_perm.wf(),
    ensures
        r is Some <==> scratch_fits::<T>(&*old(stack), out.layout.nrows * out.layout.ncols),
        r is Some ==> (r->0 is Ok <==> reconstructible(
            out.layout,
            l.layout,
            u.layout,
            row_perm.forward@.len() as int,
        )),
        r is Some && r->0 is Ok ==> matrix(final(out.data)@, out.layout) == permuted(
            lu_product(l@, u@, out.layout.nrows as int, out.layout.ncols as int),
            row_perm.backward@,
        ) && same_outside(old(out.data)@, final(out.data)@, out.layout),
        r is None || r->0 is Err ==> final(out.data)@ == old(out.data)@,
{
    let req = reconstruct_scratch::<T>(out.nrows(), out.ncols(), par);
    if req_align_bytes(&req) != 0 && stack_can_hold(stack, &req) {
        Some(reconstruct(out, l, u, row_perm, par, stack))
    } else {
        None
    }
}

} // verus!
