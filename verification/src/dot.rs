//! Sums of products along a row of one matrix and a column of another.

use crate::layout::Layout;
use crate::model::matrix;
use crate::scalar::ComplexField;
use crate::structure::BlockStructure;
use vstd::prelude::*;

verus! {

/// Entry `(i, j)` of `m` as a factor of a product: the implicit one on the
/// diagonal of a unit triangular matrix, the stored entry elsewhere.
pub open spec fn entry<T: ComplexField>(m: Seq<Seq<T>>, s: BlockStructure, i: int, j: int) -> T {
    if s.unit() && i == j {
        T::one_value()
    } else {
        m[i][j]
    }
}

/// The sum of `a[i][k] * b[k][j]` over `lo <= k < hi`, accumulated from zero
/// in the order of `k`.
pub open spec fn dot<T: ComplexField>(
    a: Seq<Seq<T>>,
    sa: BlockStructure,
    i: int,
    b: Seq<Seq<T>>,
    sb: BlockStructure,
    j: int,
    lo: int,
    hi: int,
) -> T
    decreases hi - lo,
{
    if hi <= lo {
        T::zero_value()
    } else {
        dot(a, sa, i, b, sb, j, lo, hi - 1).sum(entry(a, sa, i, hi - 1).product(entry(b, sb, hi - 1, j)))
    }
}

/// Two sums whose terms have equal factors, index by index, are equal; the
/// second may run over a range shifted by `d`.
pub proof fn lemma_dot_agree<T: ComplexField>(
    a: Seq<Seq<T>>,
    sa: BlockStructure,
    i: int,
    b: Seq<Seq<T>>,
    sb: BlockStructure,
    j: int,
    a2: Seq<Seq<T>>,
    sa2: BlockStructure,
    i2: int,
    b2: Seq<Seq<T>>,
    sb2: BlockStructure,
    j2: int,
    lo: int,
    hi: int,
    d: int,
)
    requires
        forall|k: int|
            #![trigger entry(a, sa, i, k)]
            #![trigger entry(b, sb, k, j)]
            lo <= k < hi ==> entry(a, sa, i, k) == entry(a2, sa2, i2, k + d) && entry(b, sb, k, j) == entry(
                b2,
                sb2,
                k + d,
                j2,
            ),
    ensures
        dot(a, sa, i, b, sb, j, lo, hi) == dot(a2, sa2, i2, b2, sb2, j2, lo + d, hi + d),
    decreases hi - lo,
{
    if hi > lo {
        lemma_dot_agree(a, sa, i, b, sb, j, a2, sa2, i2, b2, sb2, j2, lo, hi - 1, d);
        assert(entry(a, sa, i, hi - 1) == entry(a2, sa2, i2, hi - 1 + d));
    }
}

/// Computes the sum of `lhs[i][k] * rhs[k][j]` over `lo <= k < hi`, reading a
/// unit triangular factor's diagonal as one.
pub fn dot_product<T: ComplexField>(
    lhs: &[T],
    ll: Layout,
    ls: BlockStructure,
    i: usize,
    rhs: &[T],
    rl: Layout,
    rs: BlockStructure,
    j: usize,
    lo: usize,
    hi: usize,
) -> (r: T)
    requires
        ll.fits(lhs@.len() as int),
        rl.fits(rhs@.len() as int),
        i < ll.nrows,
        j < rl.ncols,
        lo < hi ==> hi <= ll.ncols && hi <= rl.nrows,
    ensures
        r == dot(matrix(lhs@, ll), ls, i as int, matrix(rhs@, rl), rs, j as int, lo as int, hi as int),
{
    let ghost a = matrix(lhs@, ll);
    let ghost b = matrix(rhs@, rl);
    let one = T::one();
    let mut acc = T::zero();
    let mut k = lo;
    while k < hi
        invariant
            ll.fits(lhs@.len() as int),
            rl.fits(rhs@.len() as int),
            i < ll.nrows,
            j < rl.ncols,
            lo < hi ==> hi <= ll.ncols && hi <= rl.nrows,
            a == matrix(lhs@, ll),
            b == matrix(rhs@, rl),
            one == T::one_value(),
            k == lo || lo <= k <= hi,
            acc == dot(a, ls, i as int, b, rs, j as int, lo as int, k as int),
        decreases hi - k,
    {
        let x = if ls.is_unit() && k == i {
            &one
        } else {
            &lhs[ll.position(i, k, lhs.len())]
        };
        let y = if rs.is_unit() && k == j {
            &one
        } else {
            &rhs[rl.position(k, j, rhs.len())]
        };
        assert(*x == entry(a, ls, i as int, k as int));
        assert(*y == entry(b, rs, k as int, j as int));
        acc = acc.add(&x.mul(y));
        k += 1;
    }
    acc
}

} // verus!
