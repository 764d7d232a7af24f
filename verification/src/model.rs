//! Matrices as sequences of rows, and how buffers hold them.

use crate::layout::Layout;
use vstd::prelude::*;

verus! {

/// The matrix that a buffer holds under a layout, as a sequence of rows.
pub open spec fn matrix<T>(buf: Seq<T>, l: Layout) -> Seq<Seq<T>> {
    Seq::new(l.nrows as nat, |i: int| Seq::new(l.ncols as nat, |j: int| buf[l.index_of(i, j)]))
}

/// Whether `m` has `nrows` rows of `ncols` entries each.
pub open spec fn has_shape<T>(m: Seq<Seq<T>>, nrows: int, ncols: int) -> bool {
    &&& m.len() == nrows
    &&& forall|i: int| 0 <= i < nrows ==> (#[trigger] m[i]).len() == ncols
}

/// The `nr` by `nc` block of `m` whose first entry is `(r0, c0)`.
pub open spec fn block_of<T>(m: Seq<Seq<T>>, r0: int, c0: int, nr: int, nc: int) -> Seq<Seq<T>> {
    Seq::new(nr as nat, |i: int| Seq::new(nc as nat, |j: int| m[r0 + i][c0 + j]))
}

/// The matrix `m` with both axes reversed.
pub open spec fn reversed_matrix<T>(m: Seq<Seq<T>>) -> Seq<Seq<T>> {
    Seq::new(m.len(), |i: int| Seq::new(m[i].len(), |j: int| m[m.len() - 1 - i][m[i].len() - 1 - j]))
}

/// `m` with entry `(i, j)` replaced by `v`.
pub open spec fn set_entry<T>(m: Seq<Seq<T>>, i: int, j: int, v: T) -> Seq<Seq<T>> {
    m.update(i, m[i].update(j, v))
}

/// The matrix whose rows are those of `tl` beside `tr`, followed by those of
/// `bl` beside `br`.
pub open spec fn assemble<T>(tl: Seq<Seq<T>>, tr: Seq<Seq<T>>, bl: Seq<Seq<T>>, br: Seq<Seq<T>>) -> Seq<Seq<T>> {
    Seq::new(
        tl.len() + bl.len(),
        |i: int|
            if i < tl.len() {
                tl[i] + tr[i]
            } else {
                bl[i - tl.len()] + br[i - tl.len()]
            },
    )
}

/// Two buffers of one length agree wherever `l` holds no entry.
pub open spec fn same_outside<T>(before: Seq<T>, after: Seq<T>, l: Layout) -> bool {
    &&& after.len() == before.len()
    &&& forall|p: int| #![trigger after[p]] 0 <= p < before.len() && !l.covers(p) ==> after[p] == before[p]
}

/// Two buffers of one length agree wherever neither `a` nor `b` holds an
/// entry.
pub open spec fn same_outside_both<T>(before: Seq<T>, after: Seq<T>, a: Layout, b: Layout) -> bool {
    &&& after.len() == before.len()
    &&& forall|p: int|
        #![trigger after[p]]
        0 <= p < before.len() && !a.covers(p) && !b.covers(p) ==> after[p] == before[p]
}

/// Writing only where `v` and `w` hold entries leaves the matrix under a
/// layout disjoint from both as it was.
pub proof fn lemma_matrix_kept_both<T>(before: Seq<T>, after: Seq<T>, v: Layout, w: Layout, l: Layout)
    requires
        same_outside_both(before, after, v, w),
        l.fits(before.len() as int),
        v.disjoint_from(l),
        w.disjoint_from(l),
    ensures
        matrix(after, l) == matrix(before, l),
{
    let x = matrix(after, l);
    let y = matrix(before, l);
    assert forall|i: int| 0 <= i < l.nrows implies #[trigger] x[i] == y[i] by {
        assert forall|j: int| 0 <= j < l.ncols implies x[i][j] == y[i][j] by {
            assert(l.contains(i, j));
            let p = l.index_of(i, j);
            assert(0 <= p < before.len());
            assert(!v.covers(p));
            assert(!w.covers(p));
            assert(after[p] == before[p]);
        }
        assert(x[i] =~= y[i]);
    }
    assert(x =~= y);
}

/// A part of a buffer that holds all of a window holds the same matrix
/// under the window's layout lowered to the part.
pub proof fn lemma_matrix_in_part<T>(buf: Seq<T>, part: Seq<T>, l: Layout, from: int)
    requires
        l.fits(buf.len() as int),
        l.nrows > 0,
        l.ncols > 0,
        0 <= from <= l.lowest(),
        l.highest() < from + part.len() <= buf.len(),
        part == buf.subrange(from, from + part.len()),
    ensures
        l.lowered(from).fits(part.len() as int),
        matrix(part, l.lowered(from)) == matrix(buf, l),
{
    let low = l.lowered(from);
    l.lemma_extent(buf.len() as int);
    l.lemma_lowered(buf.len() as int, from);
    assert forall|i: int, j: int| #![trigger low.index_of(i, j)] low.contains(i, j) implies 0 <= low.index_of(
        i,
        j,
    ) < part.len() by {
        assert(l.lowest() <= l.index_of(i, j) <= l.highest());
    }
    let x = matrix(part, low);
    let y = matrix(buf, l);
    assert forall|i: int| 0 <= i < l.nrows implies #[trigger] x[i] == y[i] by {
        assert forall|j: int| 0 <= j < l.ncols implies x[i][j] == y[i][j] by {
            assert(low.contains(i, j));
            assert(low.index_of(i, j) == l.index_of(i, j) - from);
            assert(l.lowest() <= l.index_of(i, j) <= l.highest());
        }
        assert(x[i] =~= y[i]);
    }
    assert(x =~= y);
}

/// The matrix under a block of a layout is the block of the matrix.
pub proof fn lemma_matrix_block<T>(buf: Seq<T>, l: Layout, r0: int, c0: int, nr: int, nc: int)
    requires
        l.fits(buf.len() as int),
        0 <= r0,
        0 <= c0,
        0 <= nr,
        0 <= nc,
        r0 + nr <= l.nrows,
        c0 + nc <= l.ncols,
    ensures
        matrix(buf, l.block(r0, c0, nr, nc)) == block_of(matrix(buf, l), r0, c0, nr, nc),
{
    l.lemma_block(buf.len() as int, r0, c0, nr, nc);
    let b = l.block(r0, c0, nr, nc);
    let x = matrix(buf, b);
    let y = block_of(matrix(buf, l), r0, c0, nr, nc);
    assert(x.len() == y.len());
    assert forall|i: int| 0 <= i < nr implies #[trigger] x[i] == y[i] by {
        assert forall|j: int| 0 <= j < nc implies x[i][j] == y[i][j] by {
            assert(b.contains(i, j));
            assert(b.index_of(i, j) == l.index_of(r0 + i, c0 + j));
        }
        assert(x[i] =~= y[i]);
    }
    assert(x =~= y);
}

/// The matrix under a reversed layout is the reversed matrix.
pub proof fn lemma_matrix_reversed<T>(buf: Seq<T>, l: Layout)
    requires
        l.fits(buf.len() as int),
    ensures
        matrix(buf, l.reversed()) == reversed_matrix(matrix(buf, l)),
{
    l.lemma_reversed(buf.len() as int);
    let r = l.reversed();
    let x = matrix(buf, r);
    let y = reversed_matrix(matrix(buf, l));
    assert(x.len() == y.len());
    assert forall|i: int| 0 <= i < l.nrows implies #[trigger] x[i] == y[i] by {
        assert(matrix(buf, l)[i].len() == l.ncols);
        assert forall|j: int| 0 <= j < l.ncols implies x[i][j] == y[i][j] by {
            assert(l.contains(i, j));
            assert(r.index_of(i, j) == l.index_of(l.nrows - 1 - i, l.ncols - 1 - j));
        }
        assert(x[i] =~= y[i]);
    }
    assert(x =~= y);
}

/// Writing only where `w` holds entries leaves the matrix under a layout
/// disjoint from `w` as it was.
pub proof fn lemma_matrix_kept<T>(before: Seq<T>, after: Seq<T>, w: Layout, l: Layout)
    requires
        same_outside(before, after, w),
        l.fits(before.len() as int),
        w.disjoint_from(l),
    ensures
        matrix(after, l) == matrix(before, l),
{
    let x = matrix(after, l);
    let y = matrix(before, l);
    assert forall|i: int| 0 <= i < l.nrows implies #[trigger] x[i] == y[i] by {
        assert forall|j: int| 0 <= j < l.ncols implies x[i][j] == y[i][j] by {
            assert(l.contains(i, j));
            let p = l.index_of(i, j);
            assert(0 <= p < before.len());
            assert(!w.covers(p));
            assert(after[p] == before[p]);
        }
        assert(x[i] =~= y[i]);
    }
    assert(x =~= y);
}

/// Reversing both axes twice gives the matrix back.
pub proof fn lemma_reversed_twice<T>(m: Seq<Seq<T>>, nrows: int, ncols: int)
    requires
        has_shape(m, nrows, ncols),
    ensures
        reversed_matrix(reversed_matrix(m)) == m,
        has_shape(reversed_matrix(m), nrows, ncols),
{
    let r = reversed_matrix(m);
    let x = reversed_matrix(r);
    assert forall|i: int| 0 <= i < nrows implies (#[trigger] r[i]).len() == ncols by {
        assert(m[i].len() == ncols);
    }
    assert forall|i: int| 0 <= i < nrows implies #[trigger] x[i] == m[i] by {
        assert(r[i].len() == ncols);
        assert(m[i].len() == ncols);
        assert(x[i].len() == ncols);
        assert forall|j: int| 0 <= j < ncols implies x[i][j] == m[i][j] by {
            assert(r[nrows - 1 - i].len() == ncols);
            assert(m[nrows - 1 - i].len() == ncols);
        }
        assert(x[i] =~= m[i]);
    }
    assert(x =~= m);
}

/// Changes confined to the reversed layout are confined to the layout.
pub proof fn lemma_same_outside_reversed<T>(before: Seq<T>, after: Seq<T>, l: Layout)
    requires
        same_outside(before, after, l.reversed()),
        l.fits(before.len() as int),
    ensures
        same_outside(before, after, l),
{
    l.lemma_reversed_covers(before.len() as int);
}

/// Storing `v` at the position of entry `(i, j)` replaces that entry of the
/// matrix and nothing else.
pub proof fn lemma_store<T>(before: Seq<T>, l: Layout, i: int, j: int, v: T)
    requires
        l.fits(before.len() as int),
        l.injective(),
        l.contains(i, j),
    ensures
        matrix(before.update(l.index_of(i, j), v), l) == set_entry(matrix(before, l), i, j, v),
        same_outside(before, before.update(l.index_of(i, j), v), l),
{
    let after = before.update(l.index_of(i, j), v);
    let x = matrix(after, l);
    let y = set_entry(matrix(before, l), i, j, v);
    assert(0 <= l.index_of(i, j) < before.len());
    assert(l.covers(l.index_of(i, j)));
    assert forall|r: int| 0 <= r < l.nrows implies #[trigger] x[r] == y[r] by {
        assert forall|s: int| 0 <= s < l.ncols implies x[r][s] == y[r][s] by {
            assert(l.contains(r, s));
            if r != i || s != j {
                assert(l.index_of(r, s) != l.index_of(i, j));
            }
        }
        assert(x[r] =~= y[r]);
    }
    assert(x =~= y);
}

/// A matrix is its four quadrants put together.
pub proof fn lemma_assemble<T>(m: Seq<Seq<T>>, n: int, mid: int)
    requires
        has_shape(m, n, n),
        0 <= mid <= n,
    ensures
        m == assemble(
            block_of(m, 0, 0, mid, mid),
            block_of(m, 0, mid, mid, n - mid),
            block_of(m, mid, 0, n - mid, mid),
            block_of(m, mid, mid, n - mid, n - mid),
        ),
{
    let x = assemble(
        block_of(m, 0, 0, mid, mid),
        block_of(m, 0, mid, mid, n - mid),
        block_of(m, mid, 0, n - mid, mid),
        block_of(m, mid, mid, n - mid, n - mid),
    );
    assert(x.len() == n);
    assert forall|i: int| 0 <= i < n implies #[trigger] x[i] == m[i] by {
        assert(m[i].len() == n);
        assert(x[i] =~= m[i]);
    }
    assert(x =~= m);
}

/// Changes confined to a layout, made one after another, are confined to it.
pub proof fn lemma_same_outside_chain<T>(a: Seq<T>, b: Seq<T>, c: Seq<T>, l: Layout)
    requires
        same_outside(a, b, l),
        same_outside(b, c, l),
    ensures
        same_outside(a, c, l),
{
    assert forall|p: int| #![trigger c[p]] 0 <= p < a.len() && !l.covers(p) implies c[p] == a[p] by {
        assert(b[p] == a[p]);
    }
}

/// Changes confined to a block are confined to its parent.
pub proof fn lemma_same_outside_block<T>(
    before: Seq<T>,
    after: Seq<T>,
    l: Layout,
    r0: int,
    c0: int,
    nr: int,
    nc: int,
)
    requires
        same_outside(before, after, l.block(r0, c0, nr, nc)),
        l.fits(before.len() as int),
        0 <= r0,
        0 <= c0,
        0 <= nr,
        0 <= nc,
        r0 + nr <= l.nrows,
        c0 + nc <= l.ncols,
    ensures
        same_outside(before, after, l),
{
    l.lemma_block_covers(before.len() as int, r0, c0, nr, nc);
}

} // verus!
