//! Read-only and exclusive views of matrices.

use crate::layout::Layout;
use crate::model::matrix;
use vstd::prelude::*;

verus! {

/// A read-only view of a matrix: a buffer and the layout of the entries in it.
pub struct MatRef<'a, T> {
    pub data: &'a [T],
    pub layout: Layout,
}

/// An exclusive view of a matrix: a buffer and the layout of the entries in it.
pub struct MatMut<'a, T> {
    pub data: &'a mut [T],
    pub layout: Layout,
}

impl<'a, T> View for MatRef<'a, T> {
    type V = Seq<Seq<T>>;

    /// The matrix seen through the view, as a sequence of rows.
    open spec fn view(&self) -> Seq<Seq<T>> {
        matrix(self.data@, self.layout)
    }
}

impl<'a, T> MatRef<'a, T> {
    /// Every entry lies inside the buffer.
    pub open spec fn wf(self) -> bool {
        self.layout.fits(self.data@.len() as int)
    }

    /// The view of `data` as `nrows` by `ncols` entries stored column after
    /// column, if `data` holds exactly that many.
    pub fn from_column_major_slice(data: &'a [T], nrows: usize, ncols: usize) -> (r: Option<Self>)
        ensures
            r is Some <==> nrows * ncols == data@.len(),
            r is Some ==> r->0.wf() && r->0.data@ == data@ && r->0.layout == Layout::column_major(nrows, ncols),
    {
        let len = data.len();
        let total = nrows.checked_mul(ncols);
        if total.is_some() && total.unwrap() == len {
            proof {
                Layout::lemma_column_major(nrows, ncols);
            }
            Some(MatRef { data, layout: Layout::new_column_major(nrows, ncols) })
        } else {
            None
        }
    }

    /// The view of `data` as `nrows` by `ncols` entries stored row after
    /// row, if `data` holds exactly that many.
    pub fn from_row_major_slice(data: &'a [T], nrows: usize, ncols: usize) -> (r: Option<Self>)
        ensures
            r is Some <==> nrows * ncols == data@.len(),
            r is Some ==> r->0.wf() && r->0.data@ == data@ && r->0.layout == Layout::row_major(nrows, ncols),
    {
        proof {
            assert(nrows * ncols == ncols * nrows) by (nonlinear_arith);
        }
        match Self::from_column_major_slice(data, ncols, nrows) {
            Some(m) => Some(m.transpose()),
            None => None,
        }
    }

    /// The number of rows.
    pub fn nrows(&self) -> (n: usize)
        ensures
            n == self.layout.nrows,
    {
        self.layout.nrows
    }

    /// The number of columns.
    pub fn ncols(&self) -> (n: usize)
        ensures
            n == self.layout.ncols,
    {
        self.layout.ncols
    }

    /// Entry `(i, j)`.
    pub fn get(&self, i: usize, j: usize) -> (r: &T)
        requires
            self.wf(),
            i < self.layout.nrows,
            j < self.layout.ncols,
        ensures
            *r == self@[i as int][j as int],
    {
        &self.data[self.layout.position(i, j, self.data.len())]
    }

    /// The view of the `nr` by `nc` block whose first entry is `(r0, c0)`.
    pub fn submatrix(self, r0: usize, c0: usize, nr: usize, nc: usize) -> (r: Self)
        requires
            self.wf(),
            r0 + nr <= self.layout.nrows,
            c0 + nc <= self.layout.ncols,
        ensures
            r.wf(),
            r.data@ == self.data@,
            r.layout == self.layout.block(r0 as int, c0 as int, nr as int, nc as int),
            r@ == crate::model::block_of(self@, r0 as int, c0 as int, nr as int, nc as int),
    {
        proof {
            self.layout.lemma_block(self.data@.len() as int, r0 as int, c0 as int, nr as int, nc as int);
            crate::model::lemma_matrix_block(self.data@, self.layout, r0 as int, c0 as int, nr as int, nc as int);
        }
        MatRef { data: self.data, layout: self.layout.submatrix(r0, c0, nr, nc, self.data.len()) }
    }

    /// The same matrix with both axes running backwards.
    pub fn reverse_rows_and_cols(self) -> (r: Self)
        requires
            self.wf(),
        ensures
            r.wf(),
            r.data@ == self.data@,
            r.layout == self.layout.reversed(),
            r@ == crate::model::reversed_matrix(self@),
    {
        proof {
            self.layout.lemma_reversed(self.data@.len() as int);
            crate::model::lemma_matrix_reversed(self.data@, self.layout);
        }
        MatRef { data: self.data, layout: self.layout.reverse_rows_and_cols(self.data.len()) }
    }

    /// The transposed matrix.
    pub fn transpose(self) -> (r: Self)
        requires
            self.wf(),
        ensures
            r.wf(),
            r.data@ == self.data@,
            r.layout == self.layout.transposed(),
    {
        proof {
            self.layout.lemma_transposed(self.data@.len() as int);
        }
        MatRef { data: self.data, layout: self.layout.transpose() }
    }
}

impl<'a, T> MatMut<'a, T> {
    /// Every entry lies inside the buffer, at a position of its own.
    pub open spec fn wf(self) -> bool {
        &&& self.layout.fits(self.data@.len() as int)
        &&& self.layout.injective()
        &&& self.layout.nrows * self.layout.ncols <= self.data@.len()
    }

    /// The exclusive view of `data` as `nrows` by `ncols` entries stored
    /// column after column, if `data` holds exactly that many.
    pub fn from_column_major_slice_mut(data: &'a mut [T], nrows: usize, ncols: usize) -> (r: Option<Self>)
        ensures
            r is Some <==> nrows * ncols == old(data)@.len(),
            r is Some ==> r->0.wf() && r->0.data@ == old(data)@ && final(r->0.data)@ == final(data)@
                && r->0.layout == Layout::column_major(nrows, ncols),
            r is None ==> final(data)@ == old(data)@,
    {
        let len = data.len();
        let total = nrows.checked_mul(ncols);
        if total.is_some() && total.unwrap() == len {
            proof {
                Layout::lemma_column_major(nrows, ncols);
            }
            Some(MatMut { data, layout: Layout::new_column_major(nrows, ncols) })
        } else {
            None
        }
    }

    /// The exclusive view of `data` as `nrows` by `ncols` entries stored
    /// row after row, if `data` holds exactly that many.
    pub fn from_row_major_slice_mut(data: &'a mut [T], nrows: usize, ncols: usize) -> (r: Option<Self>)
        ensures
            r is Some <==> nrows * ncols == old(data)@.len(),
            r is Some ==> r->0.wf() && r->0.data@ == old(data)@ && final(r->0.data)@ == final(data)@
                && r->0.layout == Layout::row_major(nrows, ncols),
            r is None ==> final(data)@ == old(data)@,
    {
        proof {
            assert(nrows * ncols == ncols * nrows) by (nonlinear_arith);
        }
        match Self::from_column_major_slice_mut(data, ncols, nrows) {
            Some(m) => Some(m.transpose_mut()),
            None => None,
        }
    }

    /// The number of rows.
    pub fn nrows(&self) -> (n: usize)
        ensures
            n == self.layout.nrows,
    {
        self.layout.nrows
    }

    /// The number of columns.
    pub fn ncols(&self) -> (n: usize)
        ensures
            n == self.layout.ncols,
    {
        self.layout.ncols
    }

    /// The exclusive view of the `nr` by `nc` block whose first entry is
    /// `(r0, c0)`.
    pub fn submatrix_mut(self, r0: usize, c0: usize, nr: usize, nc: usize) -> (r: Self)
        requires
            self.wf(),
            r0 + nr <= self.layout.nrows,
            c0 + nc <= self.layout.ncols,
        ensures
            r.wf(),
            r.data@ == old(self.data)@,
            final(r.data)@ == final(self.data)@,
            r.layout == self.layout.block(r0 as int, c0 as int, nr as int, nc as int),
    {
        proof {
            self.layout.lemma_block(self.data@.len() as int, r0 as int, c0 as int, nr as int, nc as int);
            assert(nr * nc <= self.layout.nrows * self.layout.ncols) by (nonlinear_arith)
                requires
                    0 <= nr <= self.layout.nrows,
                    0 <= nc <= self.layout.ncols,
            ;
        }
        let layout = self.layout.submatrix(r0, c0, nr, nc, self.data.len());
        MatMut { data: self.data, layout }
    }

    /// The same matrix with both axes running backwards.
    pub fn reverse_rows_and_cols_mut(self) -> (r: Self)
        requires
            self.wf(),
        ensures
            r.wf(),
            r.data@ == old(self.data)@,
            final(r.data)@ == final(self.data)@,
            r.layout == self.layout.reversed(),
    {
        proof {
            self.layout.lemma_reversed(self.data@.len() as int);
        }
        let layout = self.layout.reverse_rows_and_cols(self.data.len());
        MatMut { data: self.data, layout }
    }

    /// The transposed matrix.
    pub fn transpose_mut(self) -> (r: Self)
        requires
            self.wf(),
        ensures
            r.wf(),
            r.data@ == old(self.data)@,
            final(r.data)@ == final(self.data)@,
            r.layout == self.layout.transposed(),
    {
        proof {
            self.layout.lemma_transposed(self.data@.len() as int);
            assert(self.layout.nrows * self.layout.ncols == self.layout.ncols * self.layout.nrows)
                by (nonlinear_arith);
        }
        let layout = self.layout.transpose();
        MatMut { data: self.data, layout }
    }
}

} // verus!
