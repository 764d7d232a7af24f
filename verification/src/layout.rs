//! Strided layouts of rectangular windows in linear buffers.

use vstd::prelude::*;

verus! {

/// Where the entries of a rectangular window lie in a linear buffer: entry
/// `(i, j)` is found at `offset + i * row_stride + j * col_stride`.
#[derive(Clone, Copy, Debug, PartialEq, Eq, Structural)]
pub struct Layout {
    pub offset: usize,
    pub nrows: usize,
    pub ncols: usize,
    pub row_stride: isize,
    pub col_stride: isize,
}

impl Layout {
    /// The buffer position of entry `(i, j)`.
    pub open spec fn index_of(self, i: int, j: int) -> int {
        self.offset + i * self.row_stride + j * self.col_stride
    }

    /// Whether `(i, j)` names an entry of the window.
    pub open spec fn contains(self, i: int, j: int) -> bool {
        0 <= i < self.nrows && 0 <= j < self.ncols
    }

    /// Every entry lies inside a buffer of length `len`, and both strides can
    /// be negated.
    pub open spec fn fits(self, len: int) -> bool {
        &&& len <= usize::MAX
        &&& self.row_stride > isize::MIN
        &&& self.col_stride > isize::MIN
        &&& forall|i: int, j: int|
            #![trigger self.index_of(i, j)]
            self.contains(i, j) ==> 0 <= self.index_of(i, j) < len
    }

    /// No two entries share a buffer position.
    pub open spec fn injective(self) -> bool {
        forall|i: int, j: int, k: int, l: int|
            #![trigger self.index_of(i, j), self.index_of(k, l)]
            self.contains(i, j) && self.contains(k, l) && self.index_of(i, j) == self.index_of(k, l)
                ==> i == k && j == l
    }

    /// Whether buffer position `p` holds an entry of the window.
    pub open spec fn covers(self, p: int) -> bool {
        exists|i: int, j: int|
            #![trigger self.index_of(i, j)]
            self.contains(i, j) && self.index_of(i, j) == p
    }

    /// No buffer position holds an entry of both windows.
    pub open spec fn disjoint_from(self, other: Layout) -> bool {
        forall|i: int, j: int, k: int, l: int|
            #![trigger self.index_of(i, j), other.index_of(k, l)]
            self.contains(i, j) && other.contains(k, l) ==> self.index_of(i, j) != other.index_of(k, l)
    }

    /// The window of `nr` by `nc` entries whose first entry is `(r0, c0)`.
    pub open spec fn block(self, r0: int, c0: int, nr: int, nc: int) -> Layout {
        Layout {
            offset: if nr > 0 && nc > 0 {
                self.index_of(r0, c0) as usize
            } else {
                self.offset
            },
            nrows: nr as usize,
            ncols: nc as usize,
            row_stride: self.row_stride,
            col_stride: self.col_stride,
        }
    }

    /// The same entries with both axes running backwards.
    pub open spec fn reversed(self) -> Layout {
        Layout {
            offset: if self.nrows > 0 && self.ncols > 0 {
                self.index_of(self.nrows - 1, self.ncols - 1) as usize
            } else {
                self.offset
            },
            nrows: self.nrows,
            ncols: self.ncols,
            row_stride: (-self.row_stride) as isize,
            col_stride: (-self.col_stride) as isize,
        }
    }

    /// The same entries with rows and columns exchanged.
    pub open spec fn transposed(self) -> Layout {
        Layout {
            offset: self.offset,
            nrows: self.ncols,
            ncols: self.nrows,
            row_stride: self.col_stride,
            col_stride: self.row_stride,
        }
    }

    /// The layout of `nrows * ncols` entries stored column after column.
    pub open spec fn column_major(nrows: usize, ncols: usize) -> Layout {
        Layout {
            offset: 0,
            nrows,
            ncols,
            row_stride: 1,
            col_stride: if nrows <= isize::MAX {
                nrows as isize
            } else {
                0
            },
        }
    }

    /// The layout of `nrows * ncols` entries stored row after row.
    pub open spec fn row_major(nrows: usize, ncols: usize) -> Layout {
        Layout::column_major(ncols, nrows).transposed()
    }

    /// A column-major layout fills a buffer of `nrows * ncols` entries, one
    /// entry to a position.
    pub proof fn lemma_column_major(nrows: usize, ncols: usize)
        requires
            nrows * ncols <= usize::MAX,
        ensures
            Layout::column_major(nrows, ncols).fits(nrows * ncols),
            Layout::column_major(nrows, ncols).injective(),
    {
        let l = Layout::column_major(nrows, ncols);
        let m = nrows as int;
        let n = ncols as int;
        let cs = l.col_stride as int;
        if m > isize::MAX {
            assert(usize::MAX == 2 * isize::MAX + 1);
            if n >= 2 {
                assert(m * n >= 2 * m) by (nonlinear_arith)
                    requires
                        n >= 2,
                        m >= 0,
                ;
            }
            assert(n <= 1);
        }
        assert forall|i: int, j: int| #![trigger l.index_of(i, j)] l.contains(i, j) implies 0 <= l.index_of(i, j) < m
            * n && l.index_of(i, j) == i + j * m by {
            if m > isize::MAX {
                assert(j * cs == j * m) by (nonlinear_arith)
                    requires
                        j == 0,
                ;
            }
            assert(0 <= j * m <= (n - 1) * m) by (nonlinear_arith)
                requires
                    0 <= j <= n - 1,
                    m >= 0,
            ;
            assert((n - 1) * m == m * n - m) by (nonlinear_arith);
        }
        assert forall|i: int, j: int, k: int, q: int|
            #![trigger l.index_of(i, j), l.index_of(k, q)]
            l.contains(i, j) && l.contains(k, q) && l.index_of(i, j) == l.index_of(k, q) implies i == k && j
            == q by {
            assert(l.index_of(i, j) == i + j * m);
            assert(l.index_of(k, q) == k + q * m);
            if j < q {
                assert(q * m - j * m >= m) by (nonlinear_arith)
                    requires
                        q - j >= 1,
                        m >= 0,
                ;
            }
            if q < j {
                assert(j * m - q * m >= m) by (nonlinear_arith)
                    requires
                        j - q >= 1,
                        m >= 0,
                ;
            }
        }
    }

    /// A buffer position that holds an entry of the reversed window holds an
    /// entry of the window itself.
    pub proof fn lemma_reversed_covers(self, len: int)
        requires
            self.fits(len),
        ensures
            forall|p: int| self.reversed().covers(p) ==> self.covers(p),
    {
        let r = self.reversed();
        self.lemma_reversed(len);
        assert forall|p: int| r.covers(p) implies self.covers(p) by {
            let (i, j) = choose|i: int, j: int|
                #![trigger r.index_of(i, j)]
                r.contains(i, j) && r.index_of(i, j) == p;
            assert(self.contains(i, j));
            assert(self.contains(self.nrows - 1 - i, self.ncols - 1 - j) && self.index_of(
                self.nrows - 1 - i,
                self.ncols - 1 - j,
            ) == p);
        }
    }

    /// Entry `(i, j)` of a block is entry `(r0 + i, c0 + j)` of its parent, so
    /// a block inherits its parent's bounds and injectivity.
    pub proof fn lemma_block(self, len: int, r0: int, c0: int, nr: int, nc: int)
        requires
            self.fits(len),
            0 <= r0,
            0 <= c0,
            0 <= nr,
            0 <= nc,
            r0 + nr <= self.nrows,
            c0 + nc <= self.ncols,
        ensures
            self.block(r0, c0, nr, nc).nrows == nr,
            self.block(r0, c0, nr, nc).ncols == nc,
            forall|i: int, j: int|
                #![trigger self.block(r0, c0, nr, nc).index_of(i, j)]
                self.block(r0, c0, nr, nc).contains(i, j) ==> self.block(r0, c0, nr, nc).index_of(i, j)
                    == self.index_of(r0 + i, c0 + j),
            self.block(r0, c0, nr, nc).fits(len),
            self.injective() ==> self.block(r0, c0, nr, nc).injective(),
    {
        let b = self.block(r0, c0, nr, nc);
        let rs = self.row_stride as int;
        let cs = self.col_stride as int;
        assert forall|i: int, j: int| #![trigger b.index_of(i, j)] b.contains(i, j) implies b.index_of(i, j)
            == self.index_of(r0 + i, c0 + j) by {
            assert(self.contains(r0, c0));
            assert(0 <= self.index_of(r0, c0) < len);
            assert(self.contains(r0 + i, c0 + j));
            assert((r0 + i) * rs == r0 * rs + i * rs) by (nonlinear_arith);
            assert((c0 + j) * cs == c0 * cs + j * cs) by (nonlinear_arith);
        }
        assert forall|i: int, j: int| #![trigger b.index_of(i, j)] b.contains(i, j) implies 0 <= b.index_of(i, j)
            < len by {
            assert(self.contains(r0 + i, c0 + j));
            assert(0 <= self.index_of(r0 + i, c0 + j) < len);
        }
        if self.injective() {
            assert forall|i: int, j: int, k: int, l: int|
                #![trigger b.index_of(i, j), b.index_of(k, l)]
                b.contains(i, j) && b.contains(k, l) && b.index_of(i, j) == b.index_of(k, l) implies i == k && j
                == l by {
                assert(self.contains(r0 + i, c0 + j) && self.contains(r0 + k, c0 + l));
                assert(self.index_of(r0 + i, c0 + j) == self.index_of(r0 + k, c0 + l));
            }
        }
    }

    /// A buffer position that holds an entry of a block holds an entry of
    /// its parent.
    pub proof fn lemma_block_covers(self, len: int, r0: int, c0: int, nr: int, nc: int)
        requires
            self.fits(len),
            0 <= r0,
            0 <= c0,
            0 <= nr,
            0 <= nc,
            r0 + nr <= self.nrows,
            c0 + nc <= self.ncols,
        ensures
            forall|p: int| self.block(r0, c0, nr, nc).covers(p) ==> self.covers(p),
    {
        let b = self.block(r0, c0, nr, nc);
        self.lemma_block(len, r0, c0, nr, nc);
        assert forall|p: int| b.covers(p) implies self.covers(p) by {
            let (i, j) = choose|i: int, j: int|
                #![trigger b.index_of(i, j)]
                b.contains(i, j) && b.index_of(i, j) == p;
            assert(self.contains(r0 + i, c0 + j) && self.index_of(r0 + i, c0 + j) == p);
        }
    }

    /// Entry `(i, j)` of the reversed window is entry
    /// `(nrows - 1 - i, ncols - 1 - j)` of the window itself.
    pub proof fn lemma_reversed(self, len: int)
        requires
            self.fits(len),
        ensures
            forall|i: int, j: int|
                #![trigger self.reversed().index_of(i, j)]
                self.contains(i, j) ==> self.reversed().index_of(i, j) == self.index_of(
                    self.nrows - 1 - i,
                    self.ncols - 1 - j,
                ),
            self.reversed().fits(len),
            self.injective() ==> self.reversed().injective(),
    {
        let r = self.reversed();
        let rs = self.row_stride as int;
        let cs = self.col_stride as int;
        let m = self.nrows as int;
        let n = self.ncols as int;
        assert forall|i: int, j: int| #![trigger r.index_of(i, j)] self.contains(i, j) implies r.index_of(i, j)
            == self.index_of(m - 1 - i, n - 1 - j) by {
            assert(self.contains(m - 1, n - 1));
            assert(0 <= self.index_of(m - 1, n - 1) < len);
            assert((m - 1 - i) * rs == (m - 1) * rs + i * (-rs)) by (nonlinear_arith);
            assert((n - 1 - j) * cs == (n - 1) * cs + j * (-cs)) by (nonlinear_arith);
        }
        assert forall|i: int, j: int| #![trigger r.index_of(i, j)] r.contains(i, j) implies 0 <= r.index_of(i, j)
            < len by {
            assert(self.contains(m - 1 - i, n - 1 - j));
            assert(0 <= self.index_of(m - 1 - i, n - 1 - j) < len);
        }
        if self.injective() {
            assert forall|i: int, j: int, k: int, l: int|
                #![trigger r.index_of(i, j), r.index_of(k, l)]
                r.contains(i, j) && r.contains(k, l) && r.index_of(i, j) == r.index_of(k, l) implies i == k && j
                == l by {
                assert(self.contains(m - 1 - i, n - 1 - j) && self.contains(m - 1 - k, n - 1 - l));
                assert(self.index_of(m - 1 - i, n - 1 - j) == self.index_of(m - 1 - k, n - 1 - l));
            }
        }
    }

    /// Entry `(i, j)` of the transposed window is entry `(j, i)` of the
    /// window itself.
    pub proof fn lemma_transposed(self, len: int)
        requires
            self.fits(len),
        ensures
            forall|i: int, j: int|
                #![trigger self.transposed().index_of(i, j)]
                self.transposed().index_of(i, j) == self.index_of(j, i),
            self.transposed().fits(len),
            self.injective() ==> self.transposed().injective(),
    {
        let t = self.transposed();
        assert forall|i: int, j: int| #![trigger t.index_of(i, j)] t.contains(i, j) implies 0 <= t.index_of(i, j)
            < len by {
            assert(self.contains(j, i));
            assert(0 <= self.index_of(j, i) < len);
        }
        if self.injective() {
            assert forall|i: int, j: int, k: int, l: int|
                #![trigger t.index_of(i, j), t.index_of(k, l)]
                t.contains(i, j) && t.contains(k, l) && t.index_of(i, j) == t.index_of(k, l) implies i == k && j
                == l by {
                assert(self.contains(j, i) && self.contains(l, k));
                assert(self.index_of(j, i) == self.index_of(l, k));
            }
        }
    }

    /// Two blocks of an injective window that share no entry share no buffer
    /// position.
    pub proof fn lemma_blocks_disjoint(
        self,
        len: int,
        r0: int,
        c0: int,
        nr: int,
        nc: int,
        r1: int,
        c1: int,
        mr: int,
        mc: int,
    )
        requires
            self.fits(len),
            self.injective(),
            0 <= r0 && 0 <= c0 && 0 <= nr && 0 <= nc && r0 + nr <= self.nrows && c0 + nc <= self.ncols,
            0 <= r1 && 0 <= c1 && 0 <= mr && 0 <= mc && r1 + mr <= self.nrows && c1 + mc <= self.ncols,
            r0 + nr <= r1 || r1 + mr <= r0 || c0 + nc <= c1 || c1 + mc <= c0,
        ensures
            self.block(r0, c0, nr, nc).disjoint_from(self.block(r1, c1, mr, mc)),
    {
        let a = self.block(r0, c0, nr, nc);
        let b = self.block(r1, c1, mr, mc);
        self.lemma_block(len, r0, c0, nr, nc);
        self.lemma_block(len, r1, c1, mr, mc);
        assert forall|i: int, j: int, k: int, l: int|
            #![trigger a.index_of(i, j), b.index_of(k, l)]
            a.contains(i, j) && b.contains(k, l) implies a.index_of(i, j) != b.index_of(k, l) by {
            assert(self.contains(r0 + i, c0 + j) && self.contains(r1 + k, c1 + l));
            if a.index_of(i, j) == b.index_of(k, l) {
                assert(self.index_of(r0 + i, c0 + j) == self.index_of(r1 + k, c1 + l));
            }
        }
    }

    /// The least buffer position of an entry of a window that has entries.
    pub open spec fn lowest(self) -> int {
        self.index_of(
            if self.row_stride < 0 {
                self.nrows - 1
            } else {
                0
            },
            if self.col_stride < 0 {
                self.ncols - 1
            } else {
                0
            },
        )
    }

    /// The greatest buffer position of an entry of a window that has entries.
    pub open spec fn highest(self) -> int {
        self.index_of(
            if self.row_stride < 0 {
                0
            } else {
                self.nrows - 1
            },
            if self.col_stride < 0 {
                0
            } else {
                self.ncols - 1
            },
        )
    }

    /// The same window in a buffer that starts `by` positions later.
    pub open spec fn lowered(self, by: int) -> Layout {
        Layout {
            offset: (self.offset - by) as usize,
            nrows: self.nrows,
            ncols: self.ncols,
            row_stride: self.row_stride,
            col_stride: self.col_stride,
        }
    }

    /// Every entry lies between the lowest and the highest position.
    pub proof fn lemma_extent(self, len: int)
        requires
            self.fits(len),
            self.nrows > 0,
            self.ncols > 0,
        ensures
            forall|i: int, j: int|
                #![trigger self.index_of(i, j)]
                self.contains(i, j) ==> self.lowest() <= self.index_of(i, j) <= self.highest(),
            0 <= self.lowest() <= self.highest() < len,
    {
        let rs = self.row_stride as int;
        let cs = self.col_stride as int;
        let m = self.nrows as int;
        let n = self.ncols as int;
        assert(self.contains(0, 0) && self.contains(m - 1, n - 1) && self.contains(0, n - 1) && self.contains(
            m - 1,
            0,
        ));
        assert(0 <= self.index_of(0, 0) < len);
        assert(0 <= self.index_of(m - 1, n - 1) < len);
        assert(0 <= self.index_of(0, n - 1) < len);
        assert(0 <= self.index_of(m - 1, 0) < len);
        assert forall|i: int, j: int| #![trigger self.index_of(i, j)] self.contains(i, j) implies self.lowest()
            <= self.index_of(i, j) <= self.highest() by {
            if rs >= 0 {
                assert(0 <= i * rs <= (m - 1) * rs) by (nonlinear_arith)
                    requires
                        0 <= i <= m - 1,
                        rs >= 0,
                ;
            } else {
                assert((m - 1) * rs <= i * rs <= 0) by (nonlinear_arith)
                    requires
                        0 <= i <= m - 1,
                        rs < 0,
                ;
            }
            if cs >= 0 {
                assert(0 <= j * cs <= (n - 1) * cs) by (nonlinear_arith)
                    requires
                        0 <= j <= n - 1,
                        cs >= 0,
                ;
            } else {
                assert((n - 1) * cs <= j * cs <= 0) by (nonlinear_arith)
                    requires
                        0 <= j <= n - 1,
                        cs < 0,
                ;
            }
        }
    }

    /// A window that starts no earlier than `by` keeps its entries, its
    /// bounds and its injectivity in the buffer that starts `by` positions
    /// later.
    pub proof fn lemma_lowered(self, len: int, by: int)
        requires
            self.fits(len),
            self.nrows > 0,
            self.ncols > 0,
            0 <= by <= self.lowest(),
        ensures
            forall|i: int, j: int|
                #![trigger self.lowered(by).index_of(i, j)]
                self.lowered(by).index_of(i, j) == self.index_of(i, j) - by,
            self.lowered(by).fits(len - by),
            self.injective() ==> self.lowered(by).injective(),
            forall|p: int| self.lowered(by).covers(p) ==> self.covers(p + by),
    {
        let l = self.lowered(by);
        self.lemma_extent(len);
        assert(self.contains(0, 0));
        assert(self.lowest() <= self.index_of(0, 0));
        assert forall|i: int, j: int| #![trigger l.index_of(i, j)] l.contains(i, j) implies 0 <= l.index_of(i, j)
            < len - by by {
            assert(self.lowest() <= self.index_of(i, j) < len);
        }
        if self.injective() {
            assert forall|i: int, j: int, k: int, q: int|
                #![trigger l.index_of(i, j), l.index_of(k, q)]
                l.contains(i, j) && l.contains(k, q) && l.index_of(i, j) == l.index_of(k, q) implies i == k && j
                == q by {
                assert(self.index_of(i, j) == self.index_of(k, q));
            }
        }
        assert forall|p: int| l.covers(p) implies self.covers(p + by) by {
            let (i, j) = choose|i: int, j: int|
                #![trigger l.index_of(i, j)]
                l.contains(i, j) && l.index_of(i, j) == p;
            assert(self.contains(i, j) && self.index_of(i, j) == p + by);
        }
    }

    /// The layout of `nrows * ncols` entries stored column after column.
    pub fn new_column_major(nrows: usize, ncols: usize) -> (l: Layout)
        ensures
            l == Layout::column_major(nrows, ncols),
    {
        let col_stride = if nrows <= isize::MAX as usize {
            nrows as isize
        } else {
            0
        };
        Layout { offset: 0, nrows, ncols, row_stride: 1, col_stride }
    }

    /// The buffer position of entry `(i, j)` in a buffer of length `len`.
    pub fn position(&self, i: usize, j: usize, len: usize) -> (p: usize)
        requires
            self.fits(len as int),
            self.contains(i as int, j as int),
        ensures
            p == self.index_of(i as int, j as int),
            p < len,
    {
        proof {
            assert(self.contains(i as int, 0) && self.contains(0, j as int) && self.contains(0, 0));
            assert(0 <= self.index_of(i as int, 0) < len);
            assert(0 <= self.index_of(0, j as int) < len);
            assert(0 <= self.index_of(0, 0) < len);
            assert(0 <= self.index_of(i as int, j as int) < len);
        }
        let down: i128 = (i as i128) * (self.row_stride as i128);
        let across: i128 = (j as i128) * (self.col_stride as i128);
        let p: i128 = self.offset as i128 + down + across;
        p as usize
    }

    /// The least and the greatest buffer position of an entry.
    pub fn extent(&self, len: usize) -> (r: (usize, usize))
        requires
            self.fits(len as int),
            self.nrows > 0,
            self.ncols > 0,
        ensures
            r.0 == self.lowest(),
            r.1 == self.highest(),
    {
        let last_row = self.nrows - 1;
        let last_col = self.ncols - 1;
        let (low_row, high_row) = if self.row_stride < 0 {
            (last_row, 0)
        } else {
            (0, last_row)
        };
        let (low_col, high_col) = if self.col_stride < 0 {
            (last_col, 0)
        } else {
            (0, last_col)
        };
        (self.position(low_row, low_col, len), self.position(high_row, high_col, len))
    }

    /// The same window in a buffer that starts `by` positions later.
    pub fn lower_by(&self, by: usize) -> (l: Layout)
        requires
            by <= self.offset,
        ensures
            l == self.lowered(by as int),
    {
        Layout {
            offset: self.offset - by,
            nrows: self.nrows,
            ncols: self.ncols,
            row_stride: self.row_stride,
            col_stride: self.col_stride,
        }
    }

    /// The window of `nr` by `nc` entries whose first entry is `(r0, c0)`.
    pub fn submatrix(&self, r0: usize, c0: usize, nr: usize, nc: usize, len: usize) -> (b: Layout)
        requires
            self.fits(len as int),
            r0 + nr <= self.nrows,
            c0 + nc <= self.ncols,
        ensures
            b == self.block(r0 as int, c0 as int, nr as int, nc as int),
    {
        let offset = if nr > 0 && nc > 0 {
            self.position(r0, c0, len)
        } else {
            self.offset
        };
        Layout { offset, nrows: nr, ncols: nc, row_stride: self.row_stride, col_stride: self.col_stride }
    }

    /// The same entries with both axes running backwards.
    pub fn reverse_rows_and_cols(&self, len: usize) -> (r: Layout)
        requires
            self.fits(len as int),
        ensures
            r == self.reversed(),
    {
        let offset = if self.nrows > 0 && self.ncols > 0 {
            self.position(self.nrows - 1, self.ncols - 1, len)
        } else {
            self.offset
        };
        Layout {
            offset,
            nrows: self.nrows,
            ncols: self.ncols,
            row_stride: -self.row_stride,
            col_stride: -self.col_stride,
        }
    }

    /// The same entries with rows and columns exchanged.
    pub fn transpose(&self) -> (t: Layout)
        ensures
            t == self.transposed(),
    {
        Layout {
            offset: self.offset,
            nrows: self.ncols,
            ncols: self.nrows,
            row_stride: self.col_stride,
            col_stride: self.row_stride,
        }
    }
}

} // verus!
