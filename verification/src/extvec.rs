//! Trusted view of the fixed-capacity vector that records the additional
//! chunks: the outside type, a name for its contents, and wrappers for the
//! calls the pool makes.  Each chunk is carried as a `(base, size)` pair.

use vstd::prelude::*;

verus! {

#[verifier::external_type_specification]
#[verifier::external_body]
#[verifier::reject_recursive_types(T)]
pub struct ExArrayVec<T, const CAP: usize>(arrayvec::ArrayVec<T, CAP>);

/// The `(base, size)` pairs a chunk vector holds, in insertion order.
pub uninterp spec fn chunk_vec_contents(v: arrayvec::ArrayVec<(u64, u64), 32>) -> Seq<(u64, u64)>;

/// Relies on `arrayvec::ArrayVec::new`: a fresh vector is empty.
#[verifier::external_body]
pub(crate) fn chunk_vec_new() -> (r: arrayvec::ArrayVec<(u64, u64), 32>)
    ensures
        chunk_vec_contents(r) == Seq::<(u64, u64)>::empty(),
{
    arrayvec::ArrayVec::new()
}

/// Relies on `arrayvec::ArrayVec::len`: the number of elements held.
#[verifier::external_body]
pub(crate) fn chunk_vec_len(v: &arrayvec::ArrayVec<(u64, u64), 32>) -> (r: usize)
    ensures
        r == chunk_vec_contents(*v).len(),
{
    v.len()
}

/// Relies on `arrayvec::ArrayVec::capacity`: the compile-time bound.
#[verifier::external_body]
pub(crate) fn chunk_vec_capacity(v: &arrayvec::ArrayVec<(u64, u64), 32>) -> (r: usize)
    ensures
        r == 32,
{
    v.capacity()
}

/// Relies on `arrayvec::ArrayVec::push`: appends below capacity (and
/// panics at capacity, so a full vector is ruled out here).
#[verifier::external_body]
pub(crate) fn chunk_vec_push(v: &mut arrayvec::ArrayVec<(u64, u64), 32>, item: (u64, u64))
    requires
        chunk_vec_contents(*old(v)).len() < 32,
    ensures
        chunk_vec_contents(*final(v)) == chunk_vec_contents(*old(v)).push(item),
{
    v.push(item)
}

/// Relies on indexing through `arrayvec`'s slice view.
#[verifier::external_body]
pub(crate) fn chunk_vec_get(v: &arrayvec::ArrayVec<(u64, u64), 32>, i: usize) -> (r: (u64, u64))
    requires
        i < chunk_vec_contents(*v).len(),
    ensures
        r == chunk_vec_contents(*v)[i as int],
{
    v[i]
}

} // verus!
