//! Permutations of row indices and their application.

use crate::error::DimensionMismatch;
use crate::layout::Layout;
use crate::mat::{MatMut, MatRef};
use crate::model::{matrix, same_outside};
use crate::scalar::ComplexField;
use vstd::prelude::*;

verus! {

/// Whether `forward` and `backward` are permutations of `0..n` that undo each
/// other.
pub open spec fn mutually_inverse(forward: Seq<usize>, backward: Seq<usize>) -> bool {
    &&& forward.len() == backward.len()
    &&& forall|i: int|
        0 <= i < forward.len() ==> (#[trigger] forward[i]) < forward.len() && backward[forward[i] as int] == i
    &&& forall|i: int|
        0 <= i < backward.len() ==> (#[trigger] backward[i]) < backward.len() && forward[backward[i] as int] == i
}

/// A permutation of `0..n`, held as the array of images and the array of
/// preimages.
pub struct PermRef<'a> {
    pub forward: &'a [usize],
    pub backward: &'a [usize],
}

impl<'a> PermRef<'a> {
    /// The two arrays undo each other.
    pub open spec fn wf(self) -> bool {
        mutually_inverse(self.forward@, self.backward@)
    }

    /// The permutation with the roles of the two arrays exchanged.
    pub open spec fn inverted(self) -> PermRef<'a> {
        PermRef { forward: self.backward, backward: self.forward }
    }

    /// The permutation given by `forward` and `backward`, if they undo each
    /// other.
    pub fn new_checked(forward: &'a [usize], backward: &'a [usize]) -> (r: Option<Self>)
        ensures
            r is Some <==> mutually_inverse(forward@, backward@),
            r is Some ==> r->0.forward@ == forward@ && r->0.backward@ == backward@,
    {
        let n = forward.len();
        if backward.len() != n {
            return None;
        }
        let mut i: usize = 0;
        while i < n
            invariant
                i <= n,
                forward@.len() == n,
                backward@.len() == n,
                forall|k: int| 0 <= k < i ==> (#[trigger] forward@[k]) < n && backward@[forward@[k] as int] == k,
                forall|k: int| 0 <= k < i ==> (#[trigger] backward@[k]) < n && forward@[backward@[k] as int] == k,
            decreases n - i,
        {
            let f = forward[i];
            let b = backward[i];
            if f >= n || b >= n || backward[f] != i || forward[b] != i {
                return None;
            }
            i += 1;
        }
        Some(PermRef { forward, backward })
    }

    /// The number of indices permuted.
    pub fn len(&self) -> (n: usize)
        ensures
            n == self.forward@.len(),
    {
        self.forward.len()
    }

    /// The array of images and the array of preimages.
    pub fn arrays(self) -> (r: (&'a [usize], &'a [usize]))
        ensures
            r.0@ == self.forward@,
            r.1@ == self.backward@,
    {
        (self.forward, self.backward)
    }

    /// The inverse permutation: the same two arrays in exchanged roles.
    pub fn inverse(self) -> (r: Self)
        ensures
            r == self.inverted(),
            self.wf() ==> r.wf(),
    {
        PermRef { forward: self.backward, backward: self.forward }
    }
}

/// Inverting a permutation twice gives it back, index for index.
pub proof fn lemma_inverse_twice(p: PermRef<'_>)
    ensures
        p.inverted().inverted() == p,
        p.inverted().inverted().forward@ == p.forward@,
        p.inverted().inverted().backward@ == p.backward@,
{
}

/// The rows of `m` in the order given by `from`: row `i` is `m[from[i]]`.
pub open spec fn permuted<T>(m: Seq<Seq<T>>, from: Seq<usize>) -> Seq<Seq<T>> {
    Seq::new(from.len(), |i: int| m[from[i] as int])
}

/// Copies row `from[i]` of the source to row `i` of the destination, for
/// every `i`.
#[verifier::loop_isolation(false)]
pub fn permute_rows_raw<T: ComplexField>(dst: &mut [T], dl: Layout, src: &[T], sl: Layout, from: &[usize])
    requires
        dl.fits(old(dst)@.len() as int),
        dl.injective(),
        sl.fits(src@.len() as int),
        dl.nrows == sl.nrows,
        dl.ncols == sl.ncols,
        from@.len() == dl.nrows,
        forall|i: int| 0 <= i < from@.len() ==> (#[trigger] from@[i]) < dl.nrows,
    ensures
        matrix(final(dst)@, dl) == permuted(matrix(src@, sl), from@),
        same_outside(old(dst)@, final(dst)@, dl),
{
    let m = dl.nrows;
    let n = dl.ncols;
    let len = dst.len();
    let ghost before = dst@;
    let ghost a = matrix(src@, sl);
    let mut i: usize = 0;
    while i < m
        invariant
            i <= m,
            same_outside(before, dst@, dl),
            forall|r: int, s: int|
                #![trigger dl.index_of(r, s)]
                dl.contains(r, s) && r < i ==> dst@[dl.index_of(r, s)] == a[from@[r] as int][s],
        decreases m - i,
    {
        let row = from[i];
        let mut j: usize = 0;
        while j < n
            invariant
                i < m,
                j <= n,
                row == from@[i as int],
                same_outside(before, dst@, dl),
                forall|r: int, s: int|
                    #![trigger dl.index_of(r, s)]
                    dl.contains(r, s) && (r < i || (r == i && s < j)) ==> dst@[dl.index_of(r, s)]
                        == a[from@[r] as int][s],
            decreases n - j,
        {
            let v = src[sl.position(row, j, src.len())].copy();
            let p = dl.position(i, j, len);
            dst[p] = v;
            proof {
                assert(dl.covers(p as int));
                assert forall|r: int, s: int|
                    #![trigger dl.index_of(r, s)]
                    dl.contains(r, s) && (r < i || (r == i && s < j + 1)) implies dst@[dl.index_of(r, s)]
                    == a[from@[r] as int][s] by {
                    if r == i && s == j {
                    } else {
                        assert(dl.index_of(r, s) != dl.index_of(i as int, j as int));
                    }
                }
            }
            j += 1;
        }
        i += 1;
    }
    proof {
        let got = matrix(dst@, dl);
        let goal = permuted(a, from@);
        assert forall|r: int| 0 <= r < m implies #[trigger] got[r] == goal[r] by {
            assert(from@[r] < m);
            assert forall|s: int| 0 <= s < n implies got[r][s] == goal[r][s] by {
                assert(dl.contains(r, s));
            }
            assert(got[r] =~= goal[r]);
        }
        assert(got =~= goal);
    }
}

/// Copies row `perm.forward[i]` of `src` to row `i` of `dst`, for every `i`.
/// Fails, leaving `dst` as it was, unless both matrices have one shape and
/// the permutation has as many indices as they have rows.
pub fn permute_rows<T: ComplexField>(dst: MatMut<'_, T>, src: MatRef<'_, T>, perm: PermRef<'_>) -> (r: Result<
    (),
    DimensionMismatch,
>)
    requires
        dst.wf(),
        src.wf(),
        perm.wf(),
    ensures
        r is Ok <==> dst.layout.nrows == src.layout.nrows && dst.layout.ncols == src.layout.ncols
            && perm.forward@.len() == src.layout.nrows,
        r is Ok ==> matrix(final(dst.data)@, dst.layout) == permuted(src@, perm.forward@) && same_outside(
            old(dst.data)@,
            final(dst.data)@,
            dst.layout,
        ),
        r is Err ==> final(dst.data)@ == old(dst.data)@,
{
    if dst.nrows() == src.nrows() && dst.ncols() == src.ncols() && perm.len() == src.nrows() {
        permute_rows_raw(dst.data, dst.layout, src.data, src.layout, perm.forward);
        Ok(())
    } else {
        Err(DimensionMismatch)
    }
}

} // verus!
