//! What the kernels compute in exact arithmetic: the solution of a
//! triangular system, the inverse of a triangular matrix, the dense product
//! of structured factors.

use crate::algebra::{
    field_laws, lemma_add_assoc, lemma_add_comm, lemma_add_neg, lemma_add_sub, lemma_add_zero, lemma_mul_div,
    lemma_mul_neg, lemma_mul_one, lemma_mul_recip, lemma_mul_zero,
};
use crate::confinement::lemma_inverse_lower_keeps;
use crate::dot::{dot, entry, lemma_dot_agree};
use crate::matmul::{k_hi, k_lo, lemma_matmul_shape, matmul_result};
use crate::model::{block_of, has_shape, lemma_reversed_twice, reversed_matrix};
use crate::perm::{mutually_inverse, permuted};
use crate::reconstruct::{lu_entry, lu_product};
use crate::scalar::ComplexField;
use crate::structure::{Accum, BlockStructure};
use crate::triangular_inverse::{inverse_lower, inverse_upper};
use crate::triangular_solve::{lemma_solve_shape, solve_lower, solve_lower_rows, solved_row};
use vstd::prelude::*;

verus! {

/// Entry `(i, j)` of the identity matrix.
pub open spec fn identity_entry<T: ComplexField>(i: int, j: int) -> T {
    if i == j {
        T::one_value()
    } else {
        T::zero_value()
    }
}

/// In a field, a sum over a range is the sum over its first part plus the
/// sum over the rest.
pub proof fn lemma_dot_split<T: ComplexField>(
    a: Seq<Seq<T>>,
    sa: BlockStructure,
    i: int,
    b: Seq<Seq<T>>,
    sb: BlockStructure,
    j: int,
    lo: int,
    mid: int,
    hi: int,
)
    requires
        field_laws::<T>(),
        lo <= mid <= hi,
    ensures
        dot(a, sa, i, b, sb, j, lo, hi) == dot(a, sa, i, b, sb, j, lo, mid).sum(dot(a, sa, i, b, sb, j, mid, hi)),
    decreases hi - mid,
{
    let head = dot(a, sa, i, b, sb, j, lo, mid);
    if hi == mid {
        lemma_add_zero(head);
    } else {
        lemma_dot_split(a, sa, i, b, sb, j, lo, mid, hi - 1);
        let t = entry(a, sa, i, hi - 1).product(entry(b, sb, hi - 1, j));
        lemma_add_assoc(head, dot(a, sa, i, b, sb, j, mid, hi - 1), t);
    }
}

/// In a field, a sum whose every term has a zero factor is zero.
pub proof fn lemma_dot_vanishes<T: ComplexField>(
    a: Seq<Seq<T>>,
    sa: BlockStructure,
    i: int,
    b: Seq<Seq<T>>,
    sb: BlockStructure,
    j: int,
    lo: int,
    hi: int,
)
    requires
        field_laws::<T>(),
        forall|k: int|
            #![trigger entry(a, sa, i, k)]
            #![trigger entry(b, sb, k, j)]
            lo <= k < hi ==> entry(a, sa, i, k) == T::zero_value() || entry(b, sb, k, j) == T::zero_value(),
    ensures
        dot(a, sa, i, b, sb, j, lo, hi) == T::zero_value(),
    decreases hi - lo,
{
    if hi > lo {
        lemma_dot_vanishes(a, sa, i, b, sb, j, lo, hi - 1);
        let x = entry(a, sa, i, hi - 1);
        let y = entry(b, sb, hi - 1, j);
        lemma_mul_zero(x);
        lemma_mul_zero(y);
        lemma_add_zero(T::zero_value());
    }
}

/// Row `i` of the right-hand side is replaced when the row is reached, by
/// what forward substitution computes from the rows above, and stays so.
pub proof fn lemma_solve_rows_settle<T: ComplexField>(
    l: Seq<Seq<T>>,
    unit: bool,
    b: Seq<Seq<T>>,
    r: nat,
    i: int,
    nrows: int,
    ncols: int,
)
    requires
        has_shape(b, nrows, ncols),
        r <= nrows,
        0 <= i < nrows,
    ensures
        solve_lower_rows(l, unit, b, r)[i] == if i < r {
            solved_row(l, unit, solve_lower_rows(l, unit, b, i as nat), i)
        } else {
            b[i]
        },
    decreases r,
{
    if r > 0 {
        lemma_solve_rows_settle(l, unit, b, (r - 1) as nat, i, nrows, ncols);
        lemma_solve_shape(l, unit, b, (r - 1) as nat, nrows, ncols);
    }
}

/// In a field, forward substitution solves the system: row `i` of the
/// lower triangular `l` times column `j` of the solution is entry `(i, j)`
/// of the right-hand side, provided the diagonal entry of that row, unless
/// implicit, is not zero.
pub proof fn lemma_solve_lower_solves<T: ComplexField>(
    l: Seq<Seq<T>>,
    unit: bool,
    b: Seq<Seq<T>>,
    nrows: int,
    ncols: int,
    i: int,
    j: int,
)
    requires
        field_laws::<T>(),
        has_shape(b, nrows, ncols),
        0 <= i < nrows,
        0 <= j < ncols,
        !unit ==> l[i][i] != T::zero_value(),
    ensures
        dot(
            l,
            BlockStructure::lower_of(unit),
            i,
            solve_lower(l, unit, b),
            BlockStructure::Rectangular,
            j,
            0,
            i + 1,
        ) == b[i][j],
{
    let s = BlockStructure::lower_of(unit);
    let rect = BlockStructure::Rectangular;
    let x = solve_lower(l, unit, b);
    let xp = solve_lower_rows(l, unit, b, i as nat);
    lemma_solve_shape(l, unit, b, i as nat, nrows, ncols);
    lemma_solve_rows_settle(l, unit, b, nrows as nat, i, nrows, ncols);
    lemma_solve_rows_settle(l, unit, b, i as nat, i, nrows, ncols);
    assert(xp[i].len() == ncols);
    assert(xp[i][j] == b[i][j]);
    let acc = dot(l, rect, i, xp, rect, j, 0, i);
    assert forall|k: int|
        #![trigger entry(l, s, i, k)]
        #![trigger entry(x, rect, k, j)]
        0 <= k < i implies entry(l, s, i, k) == entry(l, rect, i, k + 0) && entry(x, rect, k, j) == entry(
        xp,
        rect,
        k + 0,
        j,
    ) by {
        lemma_solve_rows_settle(l, unit, b, nrows as nat, k, nrows, ncols);
        lemma_solve_rows_settle(l, unit, b, i as nat, k, nrows, ncols);
    }
    lemma_dot_agree(l, s, i, x, rect, j, l, rect, i, xp, rect, j, 0, i, 0);
    assert(dot(l, s, i, x, rect, j, 0, i) == acc);
    let rest = b[i][j].difference(acc);
    lemma_add_sub(acc, b[i][j]);
    if unit {
        assert(x[i][j] == rest);
        lemma_mul_one(rest);
    } else {
        assert(x[i][j] == rest.product(l[i][i].reciprocal()));
        lemma_mul_div(l[i][i], rest);
    }
}

/// The closed forms invert: for dimension at most 2, row `i` of the source
/// times column `j` of the inverse is entry `(i, j)` of the identity.
proof fn lemma_small_inverts<T: ComplexField>(d: Seq<Seq<T>>, a: Seq<Seq<T>>, unit: bool, n: int, i: int, j: int)
    requires
        field_laws::<T>(),
        has_shape(d, n, n),
        a.len() == n,
        n <= 2,
        0 <= j <= i < n,
        !unit ==> forall|k: int| 0 <= k < n ==> (#[trigger] a[k])[k] != T::zero_value(),
    ensures
        dot(
            a,
            BlockStructure::lower_of(unit),
            i,
            inverse_lower(d, a, unit),
            BlockStructure::lower_of(unit),
            j,
            j,
            i + 1,
        ) == identity_entry::<T>(i, j),
{
    let s = BlockStructure::lower_of(unit);
    let x = inverse_lower(d, a, unit);
    let one = T::one_value();
    let zero = T::zero_value();
    assert(d[0].len() == n);
    if n == 2 {
        assert(d[1].len() == n);
    }
    if i == j {
        // one term: the diagonal entry times its reciprocal, or one times one
        assert(dot(a, s, i, x, s, j, j, j) == zero);
        let t = entry(a, s, i, i).product(entry(x, s, i, i));
        assert(dot(a, s, i, x, s, j, j, i + 1) == zero.sum(t));
        if unit {
            lemma_mul_one(one);
        } else {
            assert(a[i][i] != zero);
            assert(x[i][i] == a[i][i].reciprocal());
            lemma_mul_recip(a[i][i]);
        }
        lemma_add_zero(t);
    } else {
        // i == 1, j == 0
        assert(dot(a, s, 1, x, s, 0, 0, 0) == zero);
        let t0 = entry(a, s, 1, 0).product(entry(x, s, 0, 0));
        let t1 = entry(a, s, 1, 1).product(entry(x, s, 1, 0));
        assert(dot(a, s, 1, x, s, 0, 0, 1) == zero.sum(t0));
        assert(dot(a, s, 1, x, s, 0, 0, 2) == zero.sum(t0).sum(t1));
        lemma_add_zero(t0);
        if unit {
            assert(x[1][0] == a[1][0].negation());
            lemma_mul_one(a[1][0]);
            lemma_mul_one(a[1][0].negation());
            lemma_add_neg(a[1][0]);
        } else {
            assert(a[0][0] != zero && a[1][1] != zero);
            let r0 = a[0][0].reciprocal();
            let r1 = a[1][1].reciprocal();
            let a10 = a[1][0];
            assert(x[0][0] == r0);
            assert(x[1][0] == r1.negation().product(a10).product(r0));
            let t = a10.product(r0);
            assert(t0 == t);
            // a11 * (((-r1) * a10) * r0) = -(a10 * r0)
            lemma_mul_assoc_chain(a[1][1], r1.negation(), a10, r0);
            lemma_mul_neg(a[1][1], r1);
            lemma_mul_recip(a[1][1]);
            lemma_mul_neg(one, t);
            lemma_mul_one(t);
            assert(t1 == t.negation());
            lemma_add_neg(t);
        }
    }
}

/// `a * ((b * c) * d) = (a * b) * (c * d)`.
proof fn lemma_mul_assoc_chain<T: ComplexField>(a: T, b: T, c: T, d: T)
    requires
        field_laws::<T>(),
    ensures
        a.product(b.product(c).product(d)) == a.product(b).product(c.product(d)),
{
    crate::algebra::lemma_mul_assoc(b, c, d);
    crate::algebra::lemma_mul_assoc(a, b, c.product(d));
}

/// In a field, the blocked inversion inverts: for a lower triangular
/// source `a` of dimension `n` whose diagonal, unless implicit, has no
/// zero, row `i` of `a` times column `j` of its inverse, both read as lower
/// triangular, is entry `(i, j)` of the identity, wherever `j <= i`.
pub proof fn lemma_inverse_lower_inverts<T: ComplexField>(
    d: Seq<Seq<T>>,
    a: Seq<Seq<T>>,
    unit: bool,
    n: int,
    i: int,
    j: int,
)
    requires
        field_laws::<T>(),
        has_shape(d, n, n),
        a.len() == n,
        0 <= j <= i < n,
        !unit ==> forall|k: int| 0 <= k < n ==> (#[trigger] a[k])[k] != T::zero_value(),
    ensures
        dot(
            a,
            BlockStructure::lower_of(unit),
            i,
            inverse_lower(d, a, unit),
            BlockStructure::lower_of(unit),
            j,
            j,
            i + 1,
        ) == identity_entry::<T>(i, j),
    decreases n,
{
    let s = BlockStructure::lower_of(unit);
    let rect = BlockStructure::Rectangular;
    let x = inverse_lower(d, a, unit);
    if n <= 2 {
        lemma_small_inverts(d, a, unit, n, i, j);
    } else {
        let mid = n / 2;
        let rest = n - mid;
        let d_tl = block_of(d, 0, 0, mid, mid);
        let d_br = block_of(d, mid, mid, rest, rest);
        let d_bl = block_of(d, mid, 0, rest, mid);
        let a_tl = block_of(a, 0, 0, mid, mid);
        let a_br = block_of(a, mid, mid, rest, rest);
        let a_bl = block_of(a, mid, 0, rest, mid);
        let alpha = T::one_value().negation();
        let tl = inverse_lower(d_tl, a_tl, unit);
        let br = inverse_lower(d_br, a_br, unit);
        let coupled = matmul_result(d_bl, rect, Accum::Replace, alpha, a_bl, rect, tl, s);
        let bl = solve_lower(a_br, unit, coupled);
        if !unit {
            assert forall|k: int| 0 <= k < mid implies (#[trigger] a_tl[k])[k] != T::zero_value() by {
                assert(a[k][k] != T::zero_value());
            }
            assert forall|k: int| 0 <= k < rest implies (#[trigger] a_br[k])[k] != T::zero_value() by {
                assert(a[mid + k][mid + k] != T::zero_value());
            }
        }
        lemma_inverse_lower_keeps(d_tl, a_tl, unit, mid);
        lemma_inverse_lower_keeps(d_br, a_br, unit, rest);
        lemma_matmul_shape(d_bl, rect, Accum::Replace, alpha, a_bl, rect, tl, s, rest, mid);
        lemma_solve_shape(a_br, unit, coupled, rest as nat, rest, mid);
        if i < mid {
            lemma_inverse_lower_inverts(d_tl, a_tl, unit, mid, i, j);
            assert forall|k: int|
                #![trigger entry(a, s, i, k)]
                #![trigger entry(x, s, k, j)]
                j <= k < i + 1 implies entry(a, s, i, k) == entry(a_tl, s, i, k + 0) && entry(x, s, k, j) == entry(
                tl,
                s,
                k + 0,
                j,
            ) by {
                assert(tl[k].len() == mid);
            }
            lemma_dot_agree(a, s, i, x, s, j, a_tl, s, i, tl, s, j, j, i + 1, 0);
        } else if j >= mid {
            lemma_inverse_lower_inverts(d_br, a_br, unit, rest, i - mid, j - mid);
            assert forall|k: int|
                #![trigger entry(a_br, s, i - mid, k)]
                #![trigger entry(br, s, k, j - mid)]
                j - mid <= k < i - mid + 1 implies entry(a_br, s, i - mid, k) == entry(a, s, i, k + mid) && entry(
                br,
                s,
                k,
                j - mid,
            ) == entry(x, s, k + mid, j) by {
                assert(bl[k].len() == mid);
            }
            lemma_dot_agree(a_br, s, i - mid, br, s, j - mid, a, s, i, x, s, j, j - mid, i - mid + 1, mid);
        } else {
            let below = dot(a_bl, rect, i - mid, tl, s, j, j, mid);
            lemma_dot_split(a, s, i, x, s, j, j, mid, i + 1);
            assert forall|k: int|
                #![trigger entry(a, s, i, k)]
                #![trigger entry(x, s, k, j)]
                j <= k < mid implies entry(a, s, i, k) == entry(a_bl, rect, i - mid, k + 0) && entry(x, s, k, j)
                == entry(tl, s, k + 0, j) by {
                assert(tl[k].len() == mid);
            }
            lemma_dot_agree(a, s, i, x, s, j, a_bl, rect, i - mid, tl, s, j, j, mid, 0);
            assert forall|k: int|
                #![trigger entry(a_br, s, i - mid, k)]
                #![trigger entry(bl, rect, k, j)]
                0 <= k < i - mid + 1 implies entry(a_br, s, i - mid, k) == entry(a, s, i, k + mid) && entry(
                bl,
                rect,
                k,
                j,
            ) == entry(x, s, k + mid, j) by {
                assert(bl[k].len() == mid);
            }
            lemma_dot_agree(a_br, s, i - mid, bl, rect, j, a, s, i, x, s, j, 0, i - mid + 1, mid);
            if !unit {
                assert(a_br[i - mid][i - mid] != T::zero_value());
            }
            lemma_solve_lower_solves(a_br, unit, coupled, rest, mid, i - mid, j);
            assert(tl.len() == mid);
            assert(d_bl[i - mid].len() == mid);
            assert(coupled[i - mid][j] == alpha.product(below));
            lemma_mul_neg(T::one_value(), below);
            lemma_mul_one(below);
            lemma_add_neg(below);
        }
    }
}

/// In a field, a sum may be taken in reverse: two sums are equal if the
/// factors of each term of the first are those of the mirrored term of the
/// second, index `k` being mirrored to `c - k`.
pub proof fn lemma_dot_flip<T: ComplexField>(
    a: Seq<Seq<T>>,
    sa: BlockStructure,
    i: int,
    b: Seq<Seq<T>>,
    sb: BlockStructure,
    j: int,
    a2: Seq<Seq<T>>,
    sa2: BlockStructure,
    i2: int,
    b2: Seq<Seq<T>>,
    sb2: BlockStructure,
    j2: int,
    lo: int,
    hi: int,
    c: int,
)
    requires
        field_laws::<T>(),
        forall|k: int|
            #![trigger entry(a, sa, i, k)]
            #![trigger entry(b, sb, k, j)]
            lo <= k < hi ==> entry(a, sa, i, k) == entry(a2, sa2, i2, c - k) && entry(b, sb, k, j) == entry(
                b2,
                sb2,
                c - k,
                j2,
            ),
    ensures
        dot(a, sa, i, b, sb, j, lo, hi) == dot(a2, sa2, i2, b2, sb2, j2, c - hi + 1, c - lo + 1),
    decreases hi - lo,
{
    if hi > lo {
        lemma_dot_flip(a, sa, i, b, sb, j, a2, sa2, i2, b2, sb2, j2, lo, hi - 1, c);
        let t = entry(a, sa, i, hi - 1).product(entry(b, sb, hi - 1, j));
        let first = c - hi + 1;
        let others = dot(a2, sa2, i2, b2, sb2, j2, first + 1, c - lo + 1);
        lemma_dot_split(a2, sa2, i2, b2, sb2, j2, first, first + 1, c - lo + 1);
        assert(entry(a, sa, i, hi - 1) == entry(a2, sa2, i2, c - (hi - 1)));
        assert(dot(a2, sa2, i2, b2, sb2, j2, first, first) == T::zero_value());
        assert(dot(a2, sa2, i2, b2, sb2, j2, first, first + 1) == T::zero_value().sum(t));
        lemma_add_zero(t);
        lemma_add_comm(t, others);
    }
}

/// In a field, the inversion of an upper triangular matrix inverts: for an
/// upper triangular source `a` of dimension `n` whose diagonal, unless
/// implicit, has no zero, row `i` of `a` times column `j` of its inverse,
/// both read as upper triangular, is entry `(i, j)` of the identity,
/// wherever `i <= j`.
pub proof fn lemma_inverse_upper_inverts<T: ComplexField>(
    d: Seq<Seq<T>>,
    a: Seq<Seq<T>>,
    unit: bool,
    n: int,
    i: int,
    j: int,
)
    requires
        field_laws::<T>(),
        has_shape(d, n, n),
        has_shape(a, n, n),
        0 <= i <= j < n,
        !unit ==> forall|k: int| 0 <= k < n ==> (#[trigger] a[k])[k] != T::zero_value(),
    ensures
        dot(
            a,
            BlockStructure::upper_of(unit),
            i,
            inverse_upper(d, a, unit),
            BlockStructure::upper_of(unit),
            j,
            i,
            j + 1,
        ) == identity_entry::<T>(i, j),
{
    let lo = BlockStructure::lower_of(unit);
    let up = BlockStructure::upper_of(unit);
    let ra = reversed_matrix(a);
    let rd = reversed_matrix(d);
    let y = inverse_lower(rd, ra, unit);
    let x = inverse_upper(d, a, unit);
    let (i2, j2) = (n - 1 - i, n - 1 - j);
    lemma_reversed_twice(a, n, n);
    lemma_reversed_twice(d, n, n);
    lemma_inverse_lower_keeps(rd, ra, unit, n);
    if !unit {
        assert forall|k: int| 0 <= k < n implies (#[trigger] ra[k])[k] != T::zero_value() by {
            assert(a[k].len() == n);
            assert(a[n - 1 - k][n - 1 - k] != T::zero_value());
        }
    }
    lemma_inverse_lower_inverts(rd, ra, unit, n, i2, j2);
    assert forall|k: int|
        #![trigger entry(a, up, i, k)]
        #![trigger entry(x, up, k, j)]
        i <= k < j + 1 implies entry(a, up, i, k) == entry(ra, lo, i2, n - 1 - k) && entry(x, up, k, j) == entry(
        y,
        lo,
        n - 1 - k,
        j2,
    ) by {
        assert(a[i2].len() == n);
        assert(y[k].len() == n);
        assert(ra[i2][n - 1 - k] == a[n - 1 - i2][n - 1 - (n - 1 - k)]);
    }
    lemma_dot_flip(a, up, i, x, up, j, ra, lo, i2, y, lo, j2, i, j + 1, n - 1);
}

/// In a field, a triangular matrix times its inverse is the identity: the
/// structured product of the lower triangular `a`, whose diagonal, unless
/// implicit, has no zero, and of what the inversion leaves in `d`, both
/// read as lower triangular, is the identity in every entry.
pub proof fn lemma_lower_times_inverse_is_identity<T: ComplexField>(
    c: Seq<Seq<T>>,
    d: Seq<Seq<T>>,
    a: Seq<Seq<T>>,
    unit: bool,
    n: int,
    i: int,
    j: int,
)
    requires
        field_laws::<T>(),
        has_shape(c, n, n),
        has_shape(d, n, n),
        a.len() == n,
        0 <= i < n,
        0 <= j < n,
        !unit ==> forall|k: int| 0 <= k < n ==> (#[trigger] a[k])[k] != T::zero_value(),
    ensures
        matmul_result(
            c,
            BlockStructure::Rectangular,
            Accum::Replace,
            T::one_value(),
            a,
            BlockStructure::lower_of(unit),
            inverse_lower(d, a, unit),
            BlockStructure::lower_of(unit),
        )[i][j] == identity_entry::<T>(i, j),
{
    let s = BlockStructure::lower_of(unit);
    let x = inverse_lower(d, a, unit);
    lemma_inverse_lower_keeps(d, a, unit, n);
    assert(c[i].len() == n);
    assert(k_lo(s, s, i, j) == j);
    assert(k_hi(s, s, i, j, n) == i + 1);
    if j <= i {
        lemma_inverse_lower_inverts(d, a, unit, n, i, j);
    }
    lemma_mul_one(dot(a, s, i, x, s, j, j, i + 1));
}

/// In a field, an upper triangular matrix times its inverse is the
/// identity, as for lower triangular matrices.
pub proof fn lemma_upper_times_inverse_is_identity<T: ComplexField>(
    c: Seq<Seq<T>>,
    d: Seq<Seq<T>>,
    a: Seq<Seq<T>>,
    unit: bool,
    n: int,
    i: int,
    j: int,
)
    requires
        field_laws::<T>(),
        has_shape(c, n, n),
        has_shape(d, n, n),
        has_shape(a, n, n),
        0 <= i < n,
        0 <= j < n,
        !unit ==> forall|k: int| 0 <= k < n ==> (#[trigger] a[k])[k] != T::zero_value(),
    ensures
        matmul_result(
            c,
            BlockStructure::Rectangular,
            Accum::Replace,
            T::one_value(),
            a,
            BlockStructure::upper_of(unit),
            inverse_upper(d, a, unit),
            BlockStructure::upper_of(unit),
        )[i][j] == identity_entry::<T>(i, j),
{
    let s = BlockStructure::upper_of(unit);
    let x = inverse_upper(d, a, unit);
    crate::confinement::lemma_inverse_upper_confined(d, a, d, a, unit, n);
    assert(c[i].len() == n);
    assert(k_lo(s, s, i, j) == i);
    assert(k_hi(s, s, i, j, n) == j + 1);
    if i <= j {
        lemma_inverse_upper_inverts(d, a, unit, n, i, j);
    }
    lemma_mul_one(dot(a, s, i, x, s, j, i, j + 1));
}

/// Entry `(i, j)` of `m` in the dense reference: one on the diagonal of a
/// unit triangular matrix, the stored entry where the structure stores one,
/// zero elsewhere.
pub open spec fn full_entry<T: ComplexField>(m: Seq<Seq<T>>, s: BlockStructure, i: int, j: int) -> T {
    if s.unit() && i == j {
        T::one_value()
    } else if s.holds(i, j) {
        m[i][j]
    } else {
        T::zero_value()
    }
}

/// The dense matrix that `m` stands for under structure `s`.
pub open spec fn filled<T: ComplexField>(m: Seq<Seq<T>>, s: BlockStructure) -> Seq<Seq<T>> {
    Seq::new(m.len(), |i: int| Seq::new(m[i].len(), |j: int| full_entry(m, s, i, j)))
}

/// In a field, the sum over the structurally present terms is the sum of
/// the dense reference: row `i` of the filled `a` times column `j` of the
/// filled `b`, over all of the inner dimension.
pub proof fn lemma_dot_is_dense<T: ComplexField>(
    a: Seq<Seq<T>>,
    sa: BlockStructure,
    i: int,
    b: Seq<Seq<T>>,
    sb: BlockStructure,
    j: int,
    depth: int,
)
    requires
        field_laws::<T>(),
        0 <= i < a.len(),
        0 <= j,
        depth <= a[i].len(),
        depth <= b.len(),
        forall|k: int| 0 <= k < depth ==> j < (#[trigger] b[k]).len(),
        k_hi(sa, sb, i, j, depth) <= depth,
    ensures
        dot(filled(a, sa), BlockStructure::Rectangular, i, filled(b, sb), BlockStructure::Rectangular, j, 0, depth)
            == dot(a, sa, i, b, sb, j, k_lo(sa, sb, i, j), k_hi(sa, sb, i, j, depth)),
{
    let rect = BlockStructure::Rectangular;
    let fa = filled(a, sa);
    let fb = filled(b, sb);
    let lo = k_lo(sa, sb, i, j);
    let hi = k_hi(sa, sb, i, j, depth);
    let zero = T::zero_value();
    assert forall|k: int| 0 <= k < depth implies #[trigger] entry(fa, rect, i, k) == full_entry(a, sa, i, k)
        && #[trigger] entry(fb, rect, k, j) == full_entry(b, sb, k, j) by {
        assert(j < b[k].len());
    }
    if lo >= hi {
        assert forall|k: int|
            #![trigger entry(fa, rect, i, k)]
            #![trigger entry(fb, rect, k, j)]
            0 <= k < depth implies entry(fa, rect, i, k) == zero || entry(fb, rect, k, j) == zero by {
            assert(entry(fa, rect, i, k) == full_entry(a, sa, i, k));
            assert(entry(fb, rect, k, j) == full_entry(b, sb, k, j));
        }
        lemma_dot_vanishes(fa, rect, i, fb, rect, j, 0, depth);
    } else {
        let middle = dot(fa, rect, i, fb, rect, j, lo, hi);
        lemma_dot_split(fa, rect, i, fb, rect, j, 0, lo, depth);
        lemma_dot_split(fa, rect, i, fb, rect, j, lo, hi, depth);
        assert forall|k: int|
            #![trigger entry(fa, rect, i, k)]
            #![trigger entry(fb, rect, k, j)]
            0 <= k < lo implies entry(fa, rect, i, k) == zero || entry(fb, rect, k, j) == zero by {
            assert(entry(fa, rect, i, k) == full_entry(a, sa, i, k));
            assert(entry(fb, rect, k, j) == full_entry(b, sb, k, j));
        }
        lemma_dot_vanishes(fa, rect, i, fb, rect, j, 0, lo);
        assert forall|k: int|
            #![trigger entry(fa, rect, i, k)]
            #![trigger entry(fb, rect, k, j)]
            hi <= k < depth implies entry(fa, rect, i, k) == zero || entry(fb, rect, k, j) == zero by {
            assert(entry(fa, rect, i, k) == full_entry(a, sa, i, k));
            assert(entry(fb, rect, k, j) == full_entry(b, sb, k, j));
        }
        lemma_dot_vanishes(fa, rect, i, fb, rect, j, hi, depth);
        assert forall|k: int|
            #![trigger entry(fa, rect, i, k)]
            #![trigger entry(fb, rect, k, j)]
            lo <= k < hi implies entry(fa, rect, i, k) == entry(a, sa, i, k + 0) && entry(fb, rect, k, j) == entry(
            b,
            sb,
            k + 0,
            j,
        ) by {
            assert(entry(fa, rect, i, k) == full_entry(a, sa, i, k));
            assert(entry(fb, rect, k, j) == full_entry(b, sb, k, j));
        }
        lemma_dot_agree(fa, rect, i, fb, rect, j, a, sa, i, b, sb, j, lo, hi, 0);
        lemma_add_zero(middle);
    }
}

/// In a field, an entry of the reconstructed product is the entry of the
/// dense product: row `i` of `l`, filled as unit lower triangular, times
/// column `j` of `u`, filled as upper triangular, over all `size` columns
/// of `l`.
pub proof fn lemma_lu_entry_is_dense<T: ComplexField>(l: Seq<Seq<T>>, u: Seq<Seq<T>>, i: int, j: int, size: int)
    requires
        field_laws::<T>(),
        0 <= i < l.len(),
        0 <= j,
        size <= l[i].len(),
        size <= u.len(),
        forall|k: int| 0 <= k < size ==> j < (#[trigger] u[k]).len(),
        i < size || j < size,
    ensures
        lu_entry(l, u, i, j) == dot(
            filled(l, BlockStructure::UnitTriangularLower),
            BlockStructure::Rectangular,
            i,
            filled(u, BlockStructure::TriangularUpper),
            BlockStructure::Rectangular,
            j,
            0,
            size,
        ),
{
    lemma_dot_is_dense(l, BlockStructure::UnitTriangularLower, i, u, BlockStructure::TriangularUpper, j, size);
    lemma_mul_one(
        dot(
            l,
            BlockStructure::UnitTriangularLower,
            i,
            u,
            BlockStructure::TriangularUpper,
            j,
            0,
            if i <= j {
                i + 1
            } else {
                j + 1
            },
        ),
    );
}

/// In a field, reconstruction undoes the factorization's row exchanges on
/// the dense product: row `forward[i]` of the reconstructed matrix holds,
/// in column `j`, row `i` of the filled `l` times column `j` of the filled
/// `u`.
pub proof fn lemma_reconstruction_is_dense<T: ComplexField>(
    l: Seq<Seq<T>>,
    u: Seq<Seq<T>>,
    forward: Seq<usize>,
    backward: Seq<usize>,
    m: int,
    n: int,
    size: int,
    i: int,
    j: int,
)
    requires
        field_laws::<T>(),
        mutually_inverse(forward, backward),
        forward.len() == m,
        size == if m <= n {
            m
        } else {
            n
        },
        has_shape(l, m, l[0].len() as int),
        has_shape(u, u.len() as int, n),
        size <= l[0].len(),
        size <= u.len(),
        0 <= i < m,
        0 <= j < n,
    ensures
        permuted(lu_product(l, u, m, n), backward)[forward[i] as int][j] == dot(
            filled(l, BlockStructure::UnitTriangularLower),
            BlockStructure::Rectangular,
            i,
            filled(u, BlockStructure::TriangularUpper),
            BlockStructure::Rectangular,
            j,
            0,
            size,
        ),
{
    assert(backward[forward[i] as int] == i);
    assert(l[i].len() == l[0].len());
    assert forall|k: int| 0 <= k < size implies j < (#[trigger] u[k]).len() by {}
    lemma_lu_entry_is_dense(l, u, i, j, size);
}

} // verus!
