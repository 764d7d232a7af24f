//! The inversion stays inside its triangle: what it writes, what it reads,
//! and its closed forms in the smallest dimensions.

use crate::dot::{entry, lemma_dot_agree};
use crate::layout::Layout;
use crate::matmul::{lemma_matmul_shape, matmul_result};
use crate::model::{block_of, has_shape, lemma_reversed_twice, matrix, reversed_matrix, same_outside};
use crate::scalar::ComplexField;
use crate::structure::{Accum, BlockStructure};
use crate::triangular_inverse::{inverse_lower, inverse_upper};
use crate::triangular_solve::{lemma_solve_reads_triangle, lemma_solve_shape, solve_lower};
use vstd::prelude::*;

verus! {

/// Two matrices of dimension `n` agree in every entry that `s` stores.
pub open spec fn agree_within<T>(x: Seq<Seq<T>>, y: Seq<Seq<T>>, s: BlockStructure, n: int) -> bool {
    forall|i: int, j: int| 0 <= i < n && 0 <= j < n && s.holds(i, j) ==> x[i][j] == y[i][j]
}

/// Two matrices of dimension `n` agree in every entry that `s` does not store.
pub open spec fn agree_beyond<T>(x: Seq<Seq<T>>, y: Seq<Seq<T>>, s: BlockStructure, n: int) -> bool {
    forall|i: int, j: int| 0 <= i < n && 0 <= j < n && !s.holds(i, j) ==> x[i][j] == y[i][j]
}

/// In the closed forms, dimension 0 writes nothing, dimension 1 writes the
/// reciprocal of the one entry, or nothing where the diagonal is implicit,
/// and dimension 2 writes the two reciprocals and the entry below the
/// diagonal, or that entry alone.
pub proof fn lemma_inverse_lower_base_cases<T: ComplexField>(d: Seq<Seq<T>>, a: Seq<Seq<T>>, unit: bool)
    requires
        has_shape(d, a.len() as int, a.len() as int),
        a.len() <= 2,
    ensures
        a.len() == 0 ==> inverse_lower(d, a, unit) == d,
        a.len() == 1 && unit ==> inverse_lower(d, a, unit) == d,
        a.len() == 1 && !unit ==> inverse_lower(d, a, unit) == seq![seq![a[0][0].reciprocal()]],
        a.len() == 2 && unit ==> inverse_lower(d, a, unit) == seq![
            seq![d[0][0], d[0][1]],
            seq![a[1][0].negation(), d[1][1]],
        ],
        a.len() == 2 && !unit ==> inverse_lower(d, a, unit) == seq![
            seq![a[0][0].reciprocal(), d[0][1]],
            seq![
                a[1][1].reciprocal().negation().product(a[1][0]).product(a[0][0].reciprocal()),
                a[1][1].reciprocal(),
            ],
        ],
{
    let x = inverse_lower(d, a, unit);
    if a.len() == 1 && !unit {
        assert(d[0].len() == 1);
        let y = seq![seq![a[0][0].reciprocal()]];
        assert(x[0] =~= y[0]);
        assert(x =~= y);
    }
    if a.len() == 2 {
        assert(d[0].len() == 2 && d[1].len() == 2);
        if unit {
            let y = seq![seq![d[0][0], d[0][1]], seq![a[1][0].negation(), d[1][1]]];
            assert(x[0] =~= y[0]);
            assert(x[1] =~= y[1]);
            assert(x =~= y);
        } else {
            let y = seq![
                seq![a[0][0].reciprocal(), d[0][1]],
                seq![
                    a[1][1].reciprocal().negation().product(a[1][0]).product(a[0][0].reciprocal()),
                    a[1][1].reciprocal(),
                ],
            ];
            assert(x[0] =~= y[0]);
            assert(x[1] =~= y[1]);
            assert(x =~= y);
        }
    }
}

/// The inversion keeps the destination's shape, and keeps every entry that
/// lies outside the triangle: above the diagonal, and on it where the
/// diagonal is implicit.
pub proof fn lemma_inverse_lower_keeps<T: ComplexField>(d: Seq<Seq<T>>, a: Seq<Seq<T>>, unit: bool, n: int)
    requires
        has_shape(d, n, n),
        a.len() == n,
    ensures
        has_shape(inverse_lower(d, a, unit), n, n),
        agree_beyond(inverse_lower(d, a, unit), d, BlockStructure::lower_of(unit), n),
    decreases n,
{
    let x = inverse_lower(d, a, unit);
    if n <= 2 {
        assert forall|i: int| 0 <= i < n implies (#[trigger] x[i]).len() == n by {
            assert(d[i].len() == n);
        }
    } else {
        let mid = n / 2;
        let rest = n - mid;
        let d_tl = block_of(d, 0, 0, mid, mid);
        let d_br = block_of(d, mid, mid, rest, rest);
        let d_bl = block_of(d, mid, 0, rest, mid);
        let d_tr = block_of(d, 0, mid, mid, rest);
        let a_br = block_of(a, mid, mid, rest, rest);
        let tl = inverse_lower(d_tl, block_of(a, 0, 0, mid, mid), unit);
        let br = inverse_lower(d_br, a_br, unit);
        let coupled = matmul_result(
            d_bl,
            BlockStructure::Rectangular,
            Accum::Replace,
            T::one_value().negation(),
            block_of(a, mid, 0, rest, mid),
            BlockStructure::Rectangular,
            tl,
            BlockStructure::lower_of(unit),
        );
        let bl = solve_lower(a_br, unit, coupled);
        lemma_inverse_lower_keeps(d_tl, block_of(a, 0, 0, mid, mid), unit, mid);
        lemma_inverse_lower_keeps(d_br, a_br, unit, rest);
        lemma_matmul_shape(
            d_bl,
            BlockStructure::Rectangular,
            Accum::Replace,
            T::one_value().negation(),
            block_of(a, mid, 0, rest, mid),
            BlockStructure::Rectangular,
            tl,
            BlockStructure::lower_of(unit),
            rest,
            mid,
        );
        lemma_solve_shape(a_br, unit, coupled, rest as nat, rest, mid);
        assert forall|i: int| 0 <= i < n implies (#[trigger] x[i]).len() == n by {
            if i < mid {
                assert(tl[i].len() == mid && d_tr[i].len() == rest);
            } else {
                assert(bl[i - mid].len() == mid && br[i - mid].len() == rest);
            }
        }
        assert forall|i: int, j: int|
            0 <= i < n && 0 <= j < n && !BlockStructure::lower_of(unit).holds(i, j) implies x[i][j] == d[i][j] by {
            if i < mid {
                assert(tl[i].len() == mid && d_tr[i].len() == rest);
                if j < mid {
                    assert(!BlockStructure::lower_of(unit).holds(i, j));
                    assert(tl[i][j] == d_tl[i][j]);
                }
            } else {
                assert(bl[i - mid].len() == mid && br[i - mid].len() == rest);
                assert(!BlockStructure::lower_of(unit).holds(i - mid, j - mid));
                assert(br[i - mid][j - mid] == d_br[i - mid][j - mid]);
            }
        }
    }
}

/// The inversion reads its source inside the triangle only, and the
/// destination not at all: two sources that agree inside the triangle give
/// inverses that agree there, whatever the destinations held before.
pub proof fn lemma_inverse_lower_reads<T: ComplexField>(
    d1: Seq<Seq<T>>,
    a1: Seq<Seq<T>>,
    d2: Seq<Seq<T>>,
    a2: Seq<Seq<T>>,
    unit: bool,
    n: int,
)
    requires
        has_shape(d1, n, n),
        has_shape(d2, n, n),
        a1.len() == n,
        a2.len() == n,
        agree_within(a1, a2, BlockStructure::lower_of(unit), n),
    ensures
        agree_within(inverse_lower(d1, a1, unit), inverse_lower(d2, a2, unit), BlockStructure::lower_of(unit), n),
    decreases n,
{
    let s = BlockStructure::lower_of(unit);
    let x1 = inverse_lower(d1, a1, unit);
    let x2 = inverse_lower(d2, a2, unit);
    if n <= 2 {
        assert forall|i: int, j: int| 0 <= i < n && 0 <= j < n && s.holds(i, j) implies x1[i][j] == x2[i][j] by {
            assert(d1[i].len() == n && d2[i].len() == n);
            assert(d1[0].len() == n && d2[0].len() == n);
            assert(s.holds(i, j));
            if !unit {
                assert(s.holds(0, 0));
                if n == 2 {
                    assert(s.holds(1, 1) && s.holds(1, 0));
                }
            } else if n == 2 {
                assert(s.holds(1, 0));
            }
        }
    } else {
        let mid = n / 2;
        let rest = n - mid;
        let a1_tl = block_of(a1, 0, 0, mid, mid);
        let a2_tl = block_of(a2, 0, 0, mid, mid);
        let a1_br = block_of(a1, mid, mid, rest, rest);
        let a2_br = block_of(a2, mid, mid, rest, rest);
        let a1_bl = block_of(a1, mid, 0, rest, mid);
        let a2_bl = block_of(a2, mid, 0, rest, mid);
        let tl1 = inverse_lower(block_of(d1, 0, 0, mid, mid), a1_tl, unit);
        let tl2 = inverse_lower(block_of(d2, 0, 0, mid, mid), a2_tl, unit);
        let br1 = inverse_lower(block_of(d1, mid, mid, rest, rest), a1_br, unit);
        let br2 = inverse_lower(block_of(d2, mid, mid, rest, rest), a2_br, unit);
        let alpha = T::one_value().negation();
        let c1 = matmul_result(
            block_of(d1, mid, 0, rest, mid),
            BlockStructure::Rectangular,
            Accum::Replace,
            alpha,
            a1_bl,
            BlockStructure::Rectangular,
            tl1,
            s,
        );
        let c2 = matmul_result(
            block_of(d2, mid, 0, rest, mid),
            BlockStructure::Rectangular,
            Accum::Replace,
            alpha,
            a2_bl,
            BlockStructure::Rectangular,
            tl2,
            s,
        );
        assert forall|i: int, j: int| 0 <= i < mid && 0 <= j < mid && s.holds(i, j) implies a1_tl[i][j]
            == a2_tl[i][j] by {
            assert(s.holds(i, j));
        }
        assert forall|i: int, j: int| 0 <= i < rest && 0 <= j < rest && s.holds(i, j) implies a1_br[i][j]
            == a2_br[i][j] by {
            assert(s.holds(mid + i, mid + j));
        }
        lemma_inverse_lower_reads(block_of(d1, 0, 0, mid, mid), a1_tl, block_of(d2, 0, 0, mid, mid), a2_tl, unit, mid);
        lemma_inverse_lower_reads(
            block_of(d1, mid, mid, rest, rest),
            a1_br,
            block_of(d2, mid, mid, rest, rest),
            a2_br,
            unit,
            rest,
        );
        lemma_inverse_lower_keeps(block_of(d1, 0, 0, mid, mid), a1_tl, unit, mid);
        lemma_inverse_lower_keeps(block_of(d2, 0, 0, mid, mid), a2_tl, unit, mid);
        lemma_inverse_lower_keeps(block_of(d1, mid, mid, rest, rest), a1_br, unit, rest);
        lemma_inverse_lower_keeps(block_of(d2, mid, mid, rest, rest), a2_br, unit, rest);
        lemma_matmul_shape(
            block_of(d1, mid, 0, rest, mid),
            BlockStructure::Rectangular,
            Accum::Replace,
            alpha,
            a1_bl,
            BlockStructure::Rectangular,
            tl1,
            s,
            rest,
            mid,
        );
        lemma_matmul_shape(
            block_of(d2, mid, 0, rest, mid),
            BlockStructure::Rectangular,
            Accum::Replace,
            alpha,
            a2_bl,
            BlockStructure::Rectangular,
            tl2,
            s,
            rest,
            mid,
        );
        assert forall|i: int| 0 <= i < rest implies #[trigger] c1[i] == c2[i] by {
            assert forall|j: int| 0 <= j < mid implies c1[i][j] == c2[i][j] by {
                assert forall|k: int|
                    #![trigger entry(a1_bl, BlockStructure::Rectangular, i, k)]
                    #![trigger entry(tl1, s, k, j)]
                    j <= k < mid implies entry(a1_bl, BlockStructure::Rectangular, i, k) == entry(
                    a2_bl,
                    BlockStructure::Rectangular,
                    i,
                    k + 0,
                ) && entry(tl1, s, k, j) == entry(tl2, s, k + 0, j) by {
                    assert(s.holds(mid + i, k));
                    if k != j {
                        assert(s.holds(k, j));
                    }
                    if !unit {
                        assert(s.holds(k, j));
                    }
                }
                assert(tl1.len() == mid && tl2.len() == mid);
                lemma_dot_agree(
                    a1_bl,
                    BlockStructure::Rectangular,
                    i,
                    tl1,
                    s,
                    j,
                    a2_bl,
                    BlockStructure::Rectangular,
                    i,
                    tl2,
                    s,
                    j,
                    j,
                    mid,
                    0,
                );
            }
            assert(c1[i] =~= c2[i]);
        }
        assert(c1 =~= c2);
        lemma_solve_reads_triangle(a1_br, a2_br, unit, c1, rest as nat, rest, mid);
        lemma_solve_shape(a1_br, unit, c1, rest as nat, rest, mid);
        let bl = solve_lower(a1_br, unit, c1);
        assert(bl == solve_lower(a2_br, unit, c2));
        assert forall|i: int, j: int| 0 <= i < n && 0 <= j < n && s.holds(i, j) implies x1[i][j] == x2[i][j] by {
            if i < mid {
                assert(tl1[i].len() == mid && tl2[i].len() == mid);
                assert(s.holds(i, j));
                assert(tl1[i][j] == tl2[i][j]);
            } else {
                assert(bl[i - mid].len() == mid);
                if j >= mid {
                    assert(s.holds(i - mid, j - mid));
                    assert(br1[i - mid][j - mid] == br2[i - mid][j - mid]);
                }
            }
        }
    }
}

/// The inversion of an upper triangular matrix keeps the destination's
/// shape and every entry outside the triangle, and reads its source inside
/// the triangle only.
pub proof fn lemma_inverse_upper_confined<T: ComplexField>(
    d1: Seq<Seq<T>>,
    a1: Seq<Seq<T>>,
    d2: Seq<Seq<T>>,
    a2: Seq<Seq<T>>,
    unit: bool,
    n: int,
)
    requires
        has_shape(d1, n, n),
        has_shape(d2, n, n),
        has_shape(a1, n, n),
        has_shape(a2, n, n),
        agree_within(a1, a2, BlockStructure::upper_of(unit), n),
    ensures
        has_shape(inverse_upper(d1, a1, unit), n, n),
        agree_beyond(inverse_upper(d1, a1, unit), d1, BlockStructure::upper_of(unit), n),
        agree_within(inverse_upper(d1, a1, unit), inverse_upper(d2, a2, unit), BlockStructure::upper_of(unit), n),
{
    let lo = BlockStructure::lower_of(unit);
    let up = BlockStructure::upper_of(unit);
    let (rd1, rd2, ra1, ra2) = (reversed_matrix(d1), reversed_matrix(d2), reversed_matrix(a1), reversed_matrix(a2));
    lemma_reversed_twice(d1, n, n);
    lemma_reversed_twice(d2, n, n);
    lemma_reversed_twice(a1, n, n);
    lemma_reversed_twice(a2, n, n);
    assert forall|i: int, j: int| 0 <= i < n && 0 <= j < n && lo.holds(i, j) implies ra1[i][j] == ra2[i][j] by {
        assert(a1[i].len() == n && a2[i].len() == n);
        assert(up.holds(n - 1 - i, n - 1 - j));
    }
    lemma_inverse_lower_keeps(rd1, ra1, unit, n);
    lemma_inverse_lower_keeps(rd2, ra2, unit, n);
    lemma_inverse_lower_reads(rd1, ra1, rd2, ra2, unit, n);
    let y1 = inverse_lower(rd1, ra1, unit);
    let y2 = inverse_lower(rd2, ra2, unit);
    lemma_reversed_twice(y1, n, n);
    lemma_reversed_twice(y2, n, n);
    let x1 = inverse_upper(d1, a1, unit);
    let x2 = inverse_upper(d2, a2, unit);
    assert forall|i: int, j: int| 0 <= i < n && 0 <= j < n && !up.holds(i, j) implies x1[i][j] == d1[i][j] by {
        assert(y1[i].len() == n && d1[i].len() == n);
        assert(!lo.holds(n - 1 - i, n - 1 - j));
        assert(y1[n - 1 - i][n - 1 - j] == rd1[n - 1 - i][n - 1 - j]);
        assert(d1[n - 1 - i].len() == n);
    }
    assert forall|i: int, j: int| 0 <= i < n && 0 <= j < n && up.holds(i, j) implies x1[i][j] == x2[i][j] by {
        assert(y1[i].len() == n && y2[i].len() == n);
        assert(lo.holds(n - 1 - i, n - 1 - j));
        assert(y1[n - 1 - i][n - 1 - j] == y2[n - 1 - i][n - 1 - j]);
    }
}

/// Wherever buffer position `p` holds an entry of the window, `s` does not
/// store that entry.
pub open spec fn untouched(l: Layout, s: BlockStructure, p: int) -> bool {
    forall|i: int, j: int| #![trigger l.index_of(i, j)] l.contains(i, j) && l.index_of(i, j) == p ==> !s.holds(i, j)
}

/// Two buffers of one length agree at every position that holds no entry
/// of the window that `s` stores.
pub open spec fn written_within<T>(before: Seq<T>, after: Seq<T>, l: Layout, s: BlockStructure) -> bool {
    &&& after.len() == before.len()
    &&& forall|p: int| #![trigger after[p]] 0 <= p < before.len() && untouched(l, s, p) ==> after[p] == before[p]
}

/// A buffer changed inside a window only, whose matrix kept every entry
/// that `s` does not store, changed only where `s` stores an entry.
pub proof fn lemma_written_within<T>(before: Seq<T>, after: Seq<T>, l: Layout, s: BlockStructure)
    requires
        l.fits(before.len() as int),
        l.nrows == l.ncols,
        same_outside(before, after, l),
        agree_beyond(matrix(after, l), matrix(before, l), s, l.nrows as int),
    ensures
        written_within(before, after, l, s),
{
    assert forall|p: int| #![trigger after[p]] 0 <= p < before.len() && untouched(l, s, p) implies after[p]
        == before[p] by {
        if l.covers(p) {
            let (i, j) = choose|i: int, j: int|
                #![trigger l.index_of(i, j)]
                l.contains(i, j) && l.index_of(i, j) == p;
            assert(!s.holds(i, j));
            assert(matrix(after, l)[i][j] == matrix(before, l)[i][j]);
        }
    }
}

/// A buffer changed only where `s` stores an entry of the window changed
/// inside the window only.
pub proof fn lemma_written_outside<T>(before: Seq<T>, after: Seq<T>, l: Layout, s: BlockStructure)
    requires
        written_within(before, after, l, s),
    ensures
        same_outside(before, after, l),
{
    assert forall|p: int| #![trigger after[p]] 0 <= p < before.len() && !l.covers(p) implies after[p]
        == before[p] by {
        assert(untouched(l, s, p));
    }
}

} // verus!
