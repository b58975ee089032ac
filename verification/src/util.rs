//! Small shared helpers: per-container randomness, the logical CPU count,
//! and the keyed hash entry point the nested map uses.

use vstd::prelude::*;

verus! {

use crate::key::MapKey;

/// The epoch-pin guard type of the `crossbeam_epoch` crate, opaque here:
/// the containers take it only to keep their callers' pinning pattern.
#[verifier::external_type_specification]
#[verifier::external_body]
pub struct ExGuard(crossbeam_epoch::Guard);

/// Relies on `rand::random::<u64>`: some 64-bit value; nothing is promised
/// of it, and two calls may differ.
#[verifier::external_body]
pub(crate) fn random_u64() -> u64 {
    rand::random()
}

/// Relies on `rand::random::<u8>`: some byte; nothing is promised of it,
/// and two calls may differ.
#[verifier::external_body]
pub(crate) fn random_u8() -> u8 {
    rand::random()
}

/// Relies on `num_cpus::get`: the number of available logical CPUs, which
/// its documentation promises is at least 1.
#[verifier::external_body]
pub(crate) fn cpu_count() -> (r: usize)
    ensures
        1 <= r,
{
    num_cpus::get()
}

use crate::uniform_allocator::UniformAllocator;

/// Allocation through a `UniformAllocator`, with `Self` as the handle the
/// allocator hands back.
pub trait UniformAllocExt<T>: Sized {
    fn uniform_alloc(allocator: &mut UniformAllocator<T>, tag: usize, v: T) -> (h: Self)
        requires
            old(allocator).wf(),
        ensures
            final(allocator).wf(),
            final(allocator).pool_count() == old(allocator).pool_count();
}

/// Release through a `UniformAllocator`, handing back the stored element.
pub trait UniformDeallocExt<T>: Sized {
    fn uniform_dealloc(&self, allocator: &mut UniformAllocator<T>, tag: usize) -> (r: Option<T>)
        requires
            old(allocator).wf(),
        ensures
            final(allocator).wf(),
            final(allocator).pool_count() == old(allocator).pool_count();
}

impl<T> UniformAllocExt<T> for (usize, usize) {
    fn uniform_alloc(allocator: &mut UniformAllocator<T>, tag: usize, v: T) -> (h: Self) {
        allocator.alloc_slot(tag, v)
    }
}

impl<T> UniformDeallocExt<T> for (usize, usize) {
    fn uniform_dealloc(&self, allocator: &mut UniformAllocator<T>, tag: usize) -> (r: Option<T>) {
        allocator.dealloc(tag, (self.0, self.1))
    }
}

/// Hash `v` under an 8-bit nonce, as the nested map does per table level.
pub fn hash_with_nonce<K: MapKey>(v: &K, nonce: u8) -> (h: u64)
    ensures
        h == K::hash_spec(v@, nonce as u64),
{
    v.key_hash(nonce as u64)
}

} // verus!
