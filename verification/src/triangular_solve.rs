//! Forward substitution for lower triangular systems.

use crate::dot::{dot, dot_product, lemma_dot_agree};
use crate::error::DimensionMismatch;
use crate::layout::Layout;
use crate::mat::{MatMut, MatRef};
use crate::model::{matrix, same_outside};
use crate::par::Par;
use crate::scalar::ComplexField;
use crate::structure::BlockStructure;
use vstd::prelude::*;

verus! {

/// Entry `(i, j)` of the solution by forward substitution, where the rows of
/// `x` above `i` are solved already and row `i` still holds the right-hand
/// side: `(x[i][j] - sum over k < i of l[i][k] * x[k][j]) / l[i][i]`, the
/// division left out for a unit diagonal.
pub open spec fn solved_entry<T: ComplexField>(l: Seq<Seq<T>>, unit: bool, x: Seq<Seq<T>>, i: int, j: int) -> T {
    let rest = x[i][j].difference(
        dot(l, BlockStructure::Rectangular, i, x, BlockStructure::Rectangular, j, 0, i),
    );
    if unit {
        rest
    } else {
        rest.product(l[i][i].reciprocal())
    }
}

/// Row `i` of the solution, given `x` as for `solved_entry`.
pub open spec fn solved_row<T: ComplexField>(l: Seq<Seq<T>>, unit: bool, x: Seq<Seq<T>>, i: int) -> Seq<T> {
    Seq::new(x[i].len(), |j: int| solved_entry(l, unit, x, i, j))
}

/// The right-hand side `b` with its first `r` rows replaced by the solution's.
pub open spec fn solve_lower_rows<T: ComplexField>(l: Seq<Seq<T>>, unit: bool, b: Seq<Seq<T>>, r: nat) -> Seq<
    Seq<T>,
>
    decreases r,
{
    if r == 0 {
        b
    } else {
        let x = solve_lower_rows(l, unit, b, (r - 1) as nat);
        x.update(r - 1, solved_row(l, unit, x, r - 1))
    }
}

/// The solution `x` of `l * x = b` by forward substitution, for lower
/// triangular `l`, with an implicit unit diagonal where `unit` is set.
pub open spec fn solve_lower<T: ComplexField>(l: Seq<Seq<T>>, unit: bool, b: Seq<Seq<T>>) -> Seq<Seq<T>> {
    solve_lower_rows(l, unit, b, b.len())
}

/// The solution has the shape of the right-hand side.
pub proof fn lemma_solve_shape<T: ComplexField>(
    l: Seq<Seq<T>>,
    unit: bool,
    b: Seq<Seq<T>>,
    r: nat,
    nrows: int,
    ncols: int,
)
    requires
        crate::model::has_shape(b, nrows, ncols),
        r <= nrows,
    ensures
        crate::model::has_shape(solve_lower_rows(l, unit, b, r), nrows, ncols),
    decreases r,
{
    if r > 0 {
        lemma_solve_shape(l, unit, b, (r - 1) as nat, nrows, ncols);
        let x = solve_lower_rows(l, unit, b, (r - 1) as nat);
        let y = solve_lower_rows(l, unit, b, r);
        assert(x[r - 1].len() == ncols);
        assert forall|i: int| 0 <= i < nrows implies (#[trigger] y[i]).len() == ncols by {
            assert(x[i].len() == ncols);
        }
    }
}

/// Forward substitution reads the coefficient matrix below its diagonal
/// and, unless the diagonal is implicit, on it: two coefficient matrices
/// that agree there give the same solution.
pub proof fn lemma_solve_reads_triangle<T: ComplexField>(
    l1: Seq<Seq<T>>,
    l2: Seq<Seq<T>>,
    unit: bool,
    b: Seq<Seq<T>>,
    r: nat,
    nrows: int,
    ncols: int,
)
    requires
        crate::model::has_shape(b, nrows, ncols),
        r <= nrows,
        forall|i: int, j: int|
            0 <= i < nrows && 0 <= j < nrows && BlockStructure::lower_of(unit).holds(i, j) ==> l1[i][j] == l2[i][j],
    ensures
        solve_lower_rows(l1, unit, b, r) == solve_lower_rows(l2, unit, b, r),
    decreases r,
{
    if r > 0 {
        lemma_solve_reads_triangle(l1, l2, unit, b, (r - 1) as nat, nrows, ncols);
        lemma_solve_shape(l1, unit, b, (r - 1) as nat, nrows, ncols);
        let x = solve_lower_rows(l1, unit, b, (r - 1) as nat);
        let i = r - 1;
        let row1 = solved_row(l1, unit, x, i);
        let row2 = solved_row(l2, unit, x, i);
        assert forall|j: int| 0 <= j < x[i].len() implies row1[j] == row2[j] by {
            assert forall|k: int|
                #![trigger crate::dot::entry(l1, BlockStructure::Rectangular, i, k)]
                #![trigger crate::dot::entry(x, BlockStructure::Rectangular, k, j)]
                0 <= k < i implies crate::dot::entry(l1, BlockStructure::Rectangular, i, k) == crate::dot::entry(
                l2,
                BlockStructure::Rectangular,
                i,
                k + 0,
            ) && crate::dot::entry(x, BlockStructure::Rectangular, k, j) == crate::dot::entry(
                x,
                BlockStructure::Rectangular,
                k + 0,
                j,
            ) by {
                assert(BlockStructure::lower_of(unit).holds(i, k));
            }
            lemma_dot_agree(
                l1,
                BlockStructure::Rectangular,
                i,
                x,
                BlockStructure::Rectangular,
                j,
                l2,
                BlockStructure::Rectangular,
                i,
                x,
                BlockStructure::Rectangular,
                j,
                0,
                i,
                0,
            );
            if !unit {
                assert(BlockStructure::lower_of(unit).holds(i, i));
            }
        }
        assert(row1 =~= row2);
    }
}

/// Forward substitution on raw buffers: overwrites the right-hand side under
/// `xl` with the solution of `coeff * x = rhs`, reading only the lower
/// triangle of `coeff`, and not its diagonal where `unit` is set.
#[verifier::loop_isolation(false)]
pub fn solve_lower_raw<T: ComplexField>(coeff: &[T], cl: Layout, unit: bool, rhs: &mut [T], xl: Layout, par: Par)
    requires
        cl.fits(coeff@.len() as int),
        xl.fits(old(rhs)@.len() as int),
        xl.injective(),
        cl.nrows == cl.ncols,
        cl.nrows == xl.nrows,
    ensures
        matrix(final(rhs)@, xl) == solve_lower(matrix(coeff@, cl), unit, matrix(old(rhs)@, xl)),
        same_outside(old(rhs)@, final(rhs)@, xl),
{
    let n = xl.nrows;
    let width = xl.ncols;
    let len = rhs.len();
    let ghost before = rhs@;
    let ghost l = matrix(coeff@, cl);
    let ghost b = matrix(before, xl);
    let mut i: usize = 0;
    while i < n
        invariant
            i <= n,
            same_outside(before, rhs@, xl),
            matrix(rhs@, xl) == solve_lower_rows(l, unit, b, i as nat),
        decreases n - i,
    {
        let ghost x = matrix(rhs@, xl);
        let scale = if unit {
            T::one()
        } else {
            coeff[cl.position(i, i, coeff.len())].recip()
        };
        let mut j: usize = 0;
        while j < width
            invariant
                i < n,
                j <= width,
                same_outside(before, rhs@, xl),
                !unit ==> scale == l[i as int][i as int].reciprocal(),
                forall|r: int, s: int|
                    #![trigger xl.index_of(r, s)]
                    xl.contains(r, s) ==> rhs@[xl.index_of(r, s)] == if r == i && s < j {
                        solved_entry(l, unit, x, r, s)
                    } else {
                        x[r][s]
                    },
            decreases width - j,
        {
            let ghost now = matrix(rhs@, xl);
            let acc = dot_product(
                coeff,
                cl,
                BlockStructure::Rectangular,
                i,
                rhs,
                xl,
                BlockStructure::Rectangular,
                j,
                0,
                i,
            );
            proof {
                assert forall|k: int| 0 <= k < i implies now[k][j as int] == x[k][j as int] by {
                    assert(xl.contains(k, j as int));
                }
                lemma_dot_agree(
                    l,
                    BlockStructure::Rectangular,
                    i as int,
                    now,
                    BlockStructure::Rectangular,
                    j as int,
                    l,
                    BlockStructure::Rectangular,
                    i as int,
                    x,
                    BlockStructure::Rectangular,
                    j as int,
                    0,
                    i as int,
                    0,
                );
            }
            let p = xl.position(i, j, len);
            let rest = rhs[p].sub(&acc);
            let v = if unit {
                rest
            } else {
                rest.mul(&scale)
            };
            proof {
                assert(xl.contains(i as int, j as int));
                assert(v == solved_entry(l, unit, x, i as int, j as int));
            }
            rhs[p] = v;
            proof {
                assert(xl.covers(p as int));
                assert forall|r: int, s: int| #![trigger xl.index_of(r, s)] xl.contains(r, s) implies rhs@[xl.index_of(
                    r,
                    s,
                )] == if r == i && s < j + 1 {
                    solved_entry(l, unit, x, r, s)
                } else {
                    x[r][s]
                } by {
                    if r == i && s == j {
                    } else {
                        assert(xl.index_of(r, s) != xl.index_of(i as int, j as int));
                    }
                }
            }
            j += 1;
        }
        proof {
            let got = matrix(rhs@, xl);
            let goal = solve_lower_rows(l, unit, b, (i + 1) as nat);
            assert(goal == x.update(i as int, solved_row(l, unit, x, i as int)));
            assert(x[i as int].len() == width);
            assert forall|r: int| 0 <= r < n implies #[trigger] got[r] == goal[r] by {
                assert forall|s: int| 0 <= s < width implies got[r][s] == goal[r][s] by {
                    assert(xl.contains(r, s));
                }
                assert(got[r] =~= goal[r]);
            }
            assert(got =~= goal);
        }
        i += 1;
    }
    proof {
        assert(b.len() == n);
    }
}

/// The coefficient matrix is square and has as many rows as the right-hand
/// side.
pub open spec fn solvable(cl: Layout, xl: Layout) -> bool {
    cl.nrows == cl.ncols && cl.nrows == xl.nrows
}

/// Solves `coeff * x = rhs` for lower triangular `coeff` and overwrites
/// `rhs` with `x`. Fails, leaving `rhs` as it was, unless `coeff` is square
/// and has as many rows as `rhs`.
pub fn solve_lower_triangular_in_place<T: ComplexField>(coeff: MatRef<'_, T>, rhs: MatMut<'_, T>, par: Par) -> (r:
    Result<(), DimensionMismatch>)
    requires
        coeff.wf(),
        rhs.wf(),
    ensures
        r is Ok <==> solvable(coeff.layout, rhs.layout),
        r is Ok ==> matrix(final(rhs.data)@, rhs.layout) == solve_lower(
            coeff@,
            false,
            matrix(old(rhs.data)@, rhs.layout),
        ) && same_outside(old(rhs.data)@, final(rhs.data)@, rhs.layout),
        r is Err ==> final(rhs.data)@ == old(rhs.data)@,
{
    if coeff.nrows() == coeff.ncols() && coeff.nrows() == rhs.nrows() {
        solve_lower_raw(coeff.data, coeff.layout, false, rhs.data, rhs.layout, par);
        Ok(())
    } else {
        Err(DimensionMismatch)
    }
}

/// Solves `coeff * x = rhs` for lower triangular `coeff` with an implicit
/// unit diagonal and overwrites `rhs` with `x`. Fails, leaving `rhs` as it
/// was, unless `coeff` is square and has as many rows as `rhs`.
pub fn solve_unit_lower_triangular_in_place<T: ComplexField>(
    coeff: MatRef<'_, T>,
    rhs: MatMut<'_, T>,
    par: Par,
) -> (r: Result<(), DimensionMismatch>)
    requires
        coeff.wf(),
        rhs.wf(),
    ensures
        r is Ok <==> solvable(coeff.layout, rhs.layout),
        r is Ok ==> matrix(final(rhs.data)@, rhs.layout) == solve_lower(
            coeff@,
            true,
            matrix(old(rhs.data)@, rhs.layout),
        ) && same_outside(old(rhs.data)@, final(rhs.data)@, rhs.layout),
        r is Err ==> final(rhs.data)@ == old(rhs.data)@,
{
    if coeff.nrows() == coeff.ncols() && coeff.nrows() == rhs.nrows() {
        solve_lower_raw(coeff.data, coeff.layout, true, rhs.data, rhs.layout, par);
        Ok(())
    } else {
        Err(DimensionMismatch)
    }
}

} // verus!
