//! The two fixed-capacity batches that keep cross-thread traffic low: the
//! append buffer of a producer and the cache of the consumer. Both are
//! `ArrayVec`s; what they hold is modelled as a sequence of descriptors,
//! oldest first.

use arrayvec::ArrayVec;
use vstd::prelude::*;

verus! {

/// Number of descriptors a producer collects before it flushes.
pub const BUFFER_LEN: usize = 16;

/// Number of descriptors the consumer can hold in its cache.
pub const CACHE_LEN: usize = 1024;

/// `arrayvec::ArrayVec`, a vector of at most `CAP` items that are stored
/// in the value itself.
#[verifier::external_type_specification]
#[verifier::external_body]
#[verifier::reject_recursive_types(T)]
pub struct ExArrayVec<T, const CAP: usize>(ArrayVec<T, CAP>);

/// The descriptors in a producer's append buffer, in the order they were
/// pushed.
pub uninterp spec fn buffer_items(buffer: ArrayVec<usize, 16>) -> Seq<usize>;

/// The descriptors in the consumer's cache, in the order they were cached.
pub uninterp spec fn cache_items(cache: ArrayVec<usize, 1024>) -> Seq<usize>;

/// `ArrayVec::new`: an empty buffer. The capacity of 16 is far below the
/// limit at which `ArrayVec::new` panics.
#[verifier::external_body]
pub(crate) fn buffer_new() -> (buffer: ArrayVec<usize, 16>)
    ensures
        buffer_items(buffer) == Seq::<usize>::empty(),
{
    ArrayVec::new()
}

/// `ArrayVec::len`: the number of buffered descriptors, never more than the
/// capacity.
#[verifier::external_body]
pub(crate) fn buffer_len(buffer: &ArrayVec<usize, 16>) -> (n: usize)
    ensures
        n == buffer_items(*buffer).len(),
        n <= BUFFER_LEN,
{
    buffer.len()
}

/// `ArrayVec::push`: appends `item` at the end. It panics on a full vector,
/// which the precondition excludes.
#[verifier::external_body]
pub(crate) fn buffer_push(buffer: &mut ArrayVec<usize, 16>, item: usize)
    requires
        buffer_items(*old(buffer)).len() < BUFFER_LEN,
    ensures
        buffer_items(*final(buffer)) == buffer_items(*old(buffer)).push(item),
{
    buffer.push(item)
}

/// `ArrayVec::clear`: removes every descriptor.
#[verifier::external_body]
pub(crate) fn buffer_clear(buffer: &mut ArrayVec<usize, 16>)
    ensures
        buffer_items(*final(buffer)) == Seq::<usize>::empty(),
{
    buffer.clear()
}

/// `ArrayVec::new`: an empty cache. The capacity of 1024 is far below the
/// limit at which `ArrayVec::new` panics.
#[verifier::external_body]
pub(crate) fn cache_new() -> (cache: ArrayVec<usize, 1024>)
    ensures
        cache_items(cache) == Seq::<usize>::empty(),
{
    ArrayVec::new()
}

/// `ArrayVec::len`: the number of cached descriptors, never more than the
/// capacity.
#[verifier::external_body]
pub(crate) fn cache_len(cache: &ArrayVec<usize, 1024>) -> (n: usize)
    ensures
        n == cache_items(*cache).len(),
        n <= CACHE_LEN,
{
    cache.len()
}

/// `ArrayVec::push`: appends `item` at the end. It panics on a full vector,
/// which the precondition excludes.
#[verifier::external_body]
pub(crate) fn cache_push(cache: &mut ArrayVec<usize, 1024>, item: usize)
    requires
        cache_items(*old(cache)).len() < CACHE_LEN,
    ensures
        cache_items(*final(cache)) == cache_items(*old(cache)).push(item),
{
    cache.push(item)
}

/// `ArrayVec::pop`: removes and returns the last descriptor, or returns
/// `None` and changes nothing when the cache is empty.
#[verifier::external_body]
pub(crate) fn cache_pop(cache: &mut ArrayVec<usize, 1024>) -> (item: Option<usize>)
    ensures
        cache_items(*old(cache)).len() == 0 ==> item is None && cache_items(*final(cache))
            == cache_items(*old(cache)),
        cache_items(*old(cache)).len() > 0 ==> item == Some(cache_items(*old(cache)).last())
            && cache_items(*final(cache)) == cache_items(*old(cache)).drop_last(),
{
    cache.pop()
}

} // verus!
