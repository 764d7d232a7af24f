//! Scratch memory from a caller's stack, through the `dyn_stack` crate.

use crate::scalar::ComplexField;
use dyn_stack::{DynArray, MemStack, StackReq};
use vstd::layout::{align_of, size_of};
use vstd::prelude::*;

verus! {

/// `dyn_stack::StackReq`, the size and alignment that an allocation asks
/// for. Opaque here: its size and alignment go by the names below.
#[verifier::external_type_specification]
#[verifier::external_body]
pub struct ExStackReq(StackReq);

/// `dyn_stack::MemStack`, a stack of uninitialized bytes that hands out
/// arrays. Opaque here.
#[verifier::external_type_specification]
#[verifier::external_body]
pub struct ExMemStack(MemStack);

/// `dyn_stack::DynArray`, an array that lives on a stack. Opaque here.
#[verifier::external_type_specification]
#[verifier::external_body]
#[verifier::reject_recursive_types(T)]
pub struct ExDynArray<'a, T>(DynArray<'a, T>);

/// The number of bytes that an allocation requirement asks for, as
/// `StackReq::size_bytes` reads it.
pub uninterp spec fn req_size(req: StackReq) -> usize;

/// The alignment in bytes that an allocation requirement asks for, as
/// `StackReq::align_bytes` reads it; zero for a requirement whose size
/// computation overflowed.
pub uninterp spec fn req_align(req: StackReq) -> usize;

/// Whether a stack has room for `size` bytes aligned to `align`, as
/// `MemStack::can_hold` decides it.
pub uninterp spec fn stack_room(stack: &MemStack, size: usize, align: usize) -> bool;

/// The alignment of the requirement for `n` scalars: that of a scalar, or
/// zero where their size in bytes overflows.
pub open spec fn scalars_align<T>(n: int) -> int {
    if n * size_of::<T>() <= usize::MAX {
        align_of::<T>() as int
    } else {
        0
    }
}

/// Whether a stack has room for `n` scalars.
pub open spec fn scratch_fits<T>(stack: &MemStack, n: int) -> bool {
    &&& n * size_of::<T>() <= usize::MAX
    &&& stack_room(stack, (n * size_of::<T>()) as usize, align_of::<T>() as usize)
}

/// Calls `StackReq::new`. The requirement for `n` values of `T` asks for
/// `n` times the size of `T`, at the alignment of `T`; where that size
/// overflows it is the unsatisfiable requirement, whose alignment reads zero.
#[verifier::external_body]
pub(crate) fn scratch_req<T>(n: usize) -> (req: StackReq)
    ensures
        req_align(req) == scalars_align::<T>(n as int),
        n * size_of::<T>() <= usize::MAX ==> req_size(req) == n * size_of::<T>(),
{
    StackReq::new::<T>(n)
}

/// Calls `StackReq::align_bytes`, which reads the requirement's alignment.
#[verifier::external_body]
pub(crate) fn req_align_bytes(req: &StackReq) -> (align: usize)
    ensures
        align == req_align(*req),
{
    req.align_bytes()
}

/// Calls `MemStack::can_hold`, which decides by the requirement's size and
/// alignment alone whether the stack has room. It aligns the stack's start
/// to the requirement's alignment, which must not be zero.
#[verifier::external_body]
pub(crate) fn stack_can_hold(stack: &MemStack, req: &StackReq) -> (room: bool)
    requires
        req_align(*req) != 0,
    ensures
        room == stack_room(stack, req_size(*req), req_align(*req)),
{
    stack.can_hold(*req)
}

/// An array of scalars taken from a stack, with the number of its items.
/// Only `take_zeroed` makes one.
#[verifier::reject_recursive_types(T)]
pub struct Scratch<'a, T> {
    array: DynArray<'a, T>,
    len: usize,
}

impl<'a, T> Scratch<'a, T> {
    /// The number of items in the array.
    pub closed spec fn len(&self) -> nat {
        self.len as nat
    }
}

/// Calls `MemStack::make_with` for `n` zeros and keeps the array, which
/// has `n` items. The call panics on a stack without room for them.
#[verifier::external_body]
pub(crate) fn take_zeroed<'a, T: ComplexField>(stack: &'a mut MemStack, n: usize) -> (scratch: Scratch<'a, T>)
    requires
        scratch_fits::<T>(&*old(stack), n as int),
    ensures
        scratch.len() == n,
{
    Scratch { array: stack.make_with(n, |_| T::zero()).0, len: n }
}

/// Calls `DynArray::as_mut`, which hands out the array's items as a slice.
#[verifier::external_body]
pub(crate) fn scratch_items<'b, 'a, T>(scratch: &'b mut Scratch<'a, T>) -> (items: &'b mut [T])
    ensures
        items@.len() == old(scratch).len(),
{
    scratch.array.as_mut()
}

} // verus!
