//! The registry of a channel: the lane table and the descriptors left
//! behind by lanes that are gone, shared by every producer and the one
//! consumer behind a lock.

use arrayvec::ArrayVec;
use std::collections::VecDeque;
use vstd::prelude::*;

use crate::batch::{cache_items, cache_len, cache_push, CACHE_LEN};
use crate::lane_table::{
    draining, joined, lane_drained, lemma_drain_begins, lemma_drain_ends, lemma_drain_goes_on,
    lemma_joined_holds_segment, lemma_scan_with_room_takes_all, scanned, LaneTable, MAX_LANES,
};
use crate::spsc;

verus! {

/// Why the registry refused a request.
#[derive(Clone, Copy, Debug, PartialEq, Eq, Structural)]
pub enum RegistryError {
    /// All `MAX_LANES` places are taken.
    Full,
    /// Every identity has been handed out.
    Exhausted,
    /// No lane is registered under the identity.
    NotRegistered,
}

/// The mutex of `lock_api` that `parking_lot::Mutex` is an instance of.
/// Nothing is known of what it holds until it is locked.
#[verifier::external_type_specification]
#[verifier::external_body]
#[verifier::reject_recursive_types(R)]
#[verifier::reject_recursive_types(T)]
pub struct ExMutex<R, T: ?Sized>(parking_lot::lock_api::Mutex<R, T>);

/// `parking_lot::RawMutex`, the lock inside a `parking_lot::Mutex`.
#[verifier::external_type_specification]
#[verifier::external_body]
pub struct ExRawMutex(parking_lot::RawMutex);

/// `triomphe::Arc`, a shared owner of one value. The value lives as long
/// as the last owner.
#[verifier::external_type_specification]
#[verifier::external_body]
#[verifier::reject_recursive_types(T)]
pub struct ExArc<T: ?Sized>(triomphe::Arc<T>);

/// What the lock of a channel protects.
pub struct Registry {
    table: LaneTable,
    stranded: VecDeque<usize>,
    lane_size: usize,
}

impl Registry {
    /// The identities of the registered lanes, in registration order.
    pub closed spec fn ids(&self) -> Seq<usize> {
        self.table.ids()
    }

    /// For each registered lane, in registration order, the descriptors
    /// that its receive side last saw waiting, oldest first.
    pub closed spec fn waiting(&self) -> Seq<Seq<usize>> {
        self.table.waiting()
    }

    /// The number of identities handed out so far.
    pub closed spec fn issued(&self) -> nat {
        self.table.issued()
    }

    /// The descriptors that removed lanes left behind and that the
    /// consumer has not fetched yet, oldest first.
    pub closed spec fn stranded(&self) -> Seq<usize> {
        self.stranded@
    }

    /// The capacity that every lane of the channel is made with.
    pub closed spec fn lane_size(&self) -> usize {
        self.lane_size
    }

    /// A registry without lanes, for lanes of `lane_size` descriptors.
    pub fn new(lane_size: usize) -> (registry: Self)
        ensures
            registry.ids() == Seq::<usize>::empty(),
            registry.waiting() == Seq::<Seq<usize>>::empty(),
            registry.stranded() == Seq::<usize>::empty(),
            registry.issued() == 0,
            registry.lane_size() == lane_size,
    {
        Self::numbered_from(0, lane_size)
    }

    /// A registry without lanes that numbers its lanes from `first` on,
    /// for a channel whose identities must not collide with those of
    /// another.
    pub fn numbered_from(first: usize, lane_size: usize) -> (registry: Self)
        ensures
            registry.ids() == Seq::<usize>::empty(),
            registry.waiting() == Seq::<Seq<usize>>::empty(),
            registry.stranded() == Seq::<usize>::empty(),
            registry.issued() == first,
            registry.lane_size() == lane_size,
    {
        Registry { table: LaneTable::numbered_from(first), stranded: VecDeque::new(), lane_size }
    }

    /// The number of registered lanes.
    pub fn len(&self) -> (n: usize)
        ensures
            n == self.ids().len(),
            n <= MAX_LANES,
    {
        self.table.len()
    }

    /// Tells whether every identity has been handed out.
    pub fn exhausted(&self) -> (b: bool)
        ensures
            b == (self.issued() >= usize::MAX),
    {
        self.table.exhausted()
    }

    /// Tells whether a lane is registered under `id`.
    pub fn holds(&self, id: usize) -> (b: bool)
        ensures
            b == self.ids().contains(id),
    {
        self.table.position(id).is_some()
    }

    /// Registers the receive side of a new lane behind the others and
    /// returns the identity it got: the next one that was never handed
    /// out. The registry must have a free place and an identity left; a
    /// registration beyond that is not supported.
    pub fn register(&mut self, receiver: spsc::Consumer) -> (id: usize)
        requires
            old(self).ids().len() < MAX_LANES,
            old(self).issued() < usize::MAX,
        ensures
            id == old(self).issued(),
            !old(self).ids().contains(id),
            final(self).ids() == old(self).ids().push(id),
            final(self).waiting() == old(self).waiting().push(spsc::lane_ready(receiver)),
            final(self).issued() == old(self).issued() + 1,
            final(self).stranded() == old(self).stranded(),
            final(self).lane_size() == old(self).lane_size(),
            final(self).ids().len() <= MAX_LANES,
    {
        self.table.register(receiver)
    }

    /// Removes the lane registered under `id`, which must be there, and
    /// keeps the order of the others. Exactly one lane goes, since no two
    /// share an identity. What still waits in the lane is not lost with
    /// it: up to a lane's capacity of descriptors, which is all that a
    /// lane can hold once its producer has stopped, is moved behind the
    /// stranded ones.
    pub fn remove(&mut self, id: usize)
        requires
            old(self).ids().contains(id),
        ensures
            final(self).ids() == old(self).ids().remove(old(self).ids().index_of(id)),
            final(self).waiting() == old(self).waiting().remove(old(self).ids().index_of(id)),
            final(self).ids().len() == old(self).ids().len() - 1,
            !final(self).ids().contains(id),
            old(self).stranded().is_prefix_of(final(self).stranded()),
            exists|left: Seq<usize>| #[trigger]
                lane_drained(
                    old(self).waiting()[old(self).ids().index_of(id)],
                    old(self).lane_size() as int,
                    final(self).stranded().skip(old(self).stranded().len() as int),
                    left,
                ),
            final(self).issued() == old(self).issued(),
            final(self).lane_size() == old(self).lane_size(),
    {
        let index = self.table.position(id).unwrap();
        let ghost kept = self.stranded@;
        let ghost seen = self.table.waiting()[index as int];
        let mut budget = self.lane_size;
        proof {
            lemma_drain_begins(seen, self.stranded@.skip(kept.len() as int));
        }
        while budget > 0
            invariant
                index < self.table.ids().len(),
                self.table.ids() == old(self).ids(),
                self.table.issued() == old(self).issued(),
                self.table.waiting().len() == old(self).waiting().len(),
                self.table.waiting().len() == self.table.ids().len(),
                forall|other: int|
                    0 <= other < self.table.waiting().len() && other != index
                        ==> self.table.waiting()[other] == old(self).waiting()[other],
                self.lane_size == old(self).lane_size,
                kept == old(self).stranded(),
                kept.is_prefix_of(self.stranded@),
                budget == self.lane_size - (self.stranded@.len() - kept.len()),
                draining(
                    seen,
                    self.stranded@.skip(kept.len() as int),
                    self.table.waiting()[index as int],
                ),
            ensures
                budget > 0 ==> self.table.waiting()[index as int].len() == 0,
            decreases budget,
        {
            let ghost took = self.stranded@.skip(kept.len() as int);
            let ghost waited = self.table.waiting()[index as int];
            match self.table.pop_lane(index) {
                Some(item) => {
                    self.stranded.push_back(item);
                    budget = budget - 1;
                    proof {
                        assert(self.stranded@.skip(kept.len() as int) =~= took.push(item));
                        lemma_drain_goes_on(
                            seen,
                            took,
                            waited,
                            item,
                            self.table.waiting()[index as int],
                        );
                    }
                },
                None => {
                    proof {
                        assert(self.table.waiting()[index as int] =~= waited);
                    }
                    break ;
                },
            }
        }
        let ghost left = self.table.waiting()[index as int];
        let ghost lanes = self.table.waiting();
        self.table.remove_at(index);
        proof {
            assert(lanes.remove(index as int) =~= old(self).waiting().remove(index as int));
            lemma_drain_ends(
                seen,
                old(self).lane_size() as int,
                self.stranded().skip(old(self).stranded().len() as int),
                left,
            );
            assert(lane_drained(
                old(self).waiting()[index as int],
                old(self).lane_size() as int,
                self.stranded().skip(old(self).stranded().len() as int),
                left,
            ));
        }
    }

    /// Registers the receive side of a new lane if the registry can take
    /// it, and says why not if it cannot. A full registry answers `Full`,
    /// one that has a place but no identity left answers `Exhausted`, and
    /// either is left exactly as it was. Every other registry registers
    /// the lane as `register` does and answers with its identity.
    pub fn try_register(&mut self, receiver: spsc::Consumer) -> (r: Result<usize, RegistryError>)
        ensures
            r == if old(self).ids().len() >= MAX_LANES {
                Err::<usize, RegistryError>(RegistryError::Full)
            } else if old(self).issued() >= usize::MAX {
                Err(RegistryError::Exhausted)
            } else {
                Ok(old(self).issued() as usize)
            },
            r is Err ==> {
                &&& final(self).ids() == old(self).ids()
                &&& final(self).waiting() == old(self).waiting()
                &&& final(self).stranded() == old(self).stranded()
                &&& final(self).issued() == old(self).issued()
                &&& final(self).lane_size() == old(self).lane_size()
            },
            r matches Ok(id) ==> {
                &&& !old(self).ids().contains(id)
                &&& final(self).ids() == old(self).ids().push(id)
                &&& final(self).waiting() == old(self).waiting().push(spsc::lane_ready(receiver))
                &&& final(self).issued() == old(self).issued() + 1
                &&& final(self).stranded() == old(self).stranded()
                &&& final(self).lane_size() == old(self).lane_size()
                &&& final(self).ids().len() <= MAX_LANES
            },
    {
        if self.len() >= MAX_LANES {
            return Err(RegistryError::Full);
        }
        if self.exhausted() {
            return Err(RegistryError::Exhausted);
        }
        Ok(self.register(receiver))
    }

    /// Removes the lane registered under `id` if there is one, and
    /// answers `NotRegistered` if there is none, leaving the registry
    /// exactly as it was. A registered lane is removed as `remove` does:
    /// it alone goes, and what waited in it is saved behind the stranded
    /// descriptors.
    pub fn try_remove(&mut self, id: usize) -> (r: Result<(), RegistryError>)
        ensures
            r == if old(self).ids().contains(id) {
                Ok::<(), RegistryError>(())
            } else {
                Err(RegistryError::NotRegistered)
            },
            r is Err ==> {
                &&& final(self).ids() == old(self).ids()
                &&& final(self).waiting() == old(self).waiting()
                &&& final(self).stranded() == old(self).stranded()
                &&& final(self).issued() == old(self).issued()
                &&& final(self).lane_size() == old(self).lane_size()
            },
            r is Ok ==> {
                &&& final(self).ids() == old(self).ids().remove(old(self).ids().index_of(id))
                &&& final(self).waiting() == old(self).waiting().remove(old(self).ids().index_of(id))
                &&& final(self).ids().len() == old(self).ids().len() - 1
                &&& !final(self).ids().contains(id)
                &&& old(self).stranded().is_prefix_of(final(self).stranded())
                &&& exists|left: Seq<usize>| #[trigger]
                    lane_drained(
                        old(self).waiting()[old(self).ids().index_of(id)],
                        old(self).lane_size() as int,
                        final(self).stranded().skip(old(self).stranded().len() as int),
                        left,
                    )
                &&& final(self).issued() == old(self).issued()
                &&& final(self).lane_size() == old(self).lane_size()
            },
    {
        if !self.holds(id) {
            return Err(RegistryError::NotRegistered);
        }
        self.remove(id);
        Ok(())
    }

    /// Fills `cache` as far as it has room: first with the stranded
    /// descriptors, oldest first, then from every lane in registration
    /// order. The lanes registered first are served first: each gets the
    /// room that was left over before it, and one that is reached when the
    /// cache is full gives nothing and keeps what it has.
    pub fn drain_into(&mut self, cache: &mut ArrayVec<usize, 1024>)
        ensures
            final(self).ids() == old(self).ids(),
            final(self).issued() == old(self).issued(),
            final(self).lane_size() == old(self).lane_size(),
            cache_items(*old(cache)).is_prefix_of(cache_items(*final(cache))),
            cache_items(*final(cache)).len() <= CACHE_LEN,
            synced(
                old(self).stranded(),
                old(self).waiting(),
                cache_items(*old(cache)),
                final(self).stranded(),
                final(self).waiting(),
                cache_items(*final(cache)),
            ),
    {
        let ghost held = cache_items(*cache);
        let ghost before = self.stranded@;
        let mut room = CACHE_LEN - cache_len(cache);
        assert(before.take(0) =~= Seq::<usize>::empty());
        assert(held + before.take(0) =~= held);
        assert(before.skip(0) =~= before);
        while room > 0 && self.stranded.len() > 0
            invariant
                self.table.ids() == old(self).ids(),
                self.table.issued() == old(self).issued(),
                self.table.waiting() == old(self).waiting(),
                self.lane_size == old(self).lane_size,
                held.len() <= CACHE_LEN,
                room == CACHE_LEN - cache_items(*cache).len(),
                0 <= cache_items(*cache).len() - held.len() <= before.len(),
                cache_items(*cache) == held + before.take(cache_items(*cache).len() - held.len()),
                self.stranded@ == before.skip(cache_items(*cache).len() - held.len()),
            decreases room,
        {
            let ghost moved = cache_items(*cache).len() - held.len();
            match self.stranded.pop_front() {
                Some(item) => {
                    cache_push(cache, item);
                    room = room - 1;
                    proof {
                        assert(before.take(moved + 1) =~= before.take(moved).push(item));
                        assert(cache_items(*cache) =~= held + before.take(moved + 1));
                        assert(self.stranded@ =~= before.skip(moved + 1));
                    }
                },
                None => {},
            }
        }
        let ghost cached = cache_items(*cache);
        self.table.drain_into(cache);
        proof {
            let moved = cached.len() - held.len();
            let took = choose|took: Seq<Seq<usize>>|
                {
                    &&& #[trigger] scanned(
                        old(self).waiting(),
                        CACHE_LEN - cached.len(),
                        took,
                        self.table.waiting(),
                    )
                    &&& cache_items(*cache) == cached + joined(took)
                };
            assert(fetched(before, CACHE_LEN - held.len()) == moved);
            assert(cache_items(*cache) =~= held + before.take(moved) + joined(took));
            assert(scanned(
                old(self).waiting(),
                CACHE_LEN - held.len() - moved,
                took,
                self.waiting(),
            ));
            assert(held.is_prefix_of(cache_items(*cache))) by {
                assert(held =~= cache_items(*cache).subrange(0, held.len() as int));
            }
        }
    }
}

/// The number of stranded descriptors that a cache with `room` free places
/// takes in: all of them, or as many as it has room for.
pub open spec fn fetched(stranded: Seq<usize>, room: int) -> int {
    if stranded.len() <= room {
        stranded.len() as int
    } else {
        room
    }
}

/// What one synchronisation does. The cache first takes in stranded
/// descriptors, oldest first, and then what one scan over the lanes gives
/// for the room that is left; `took[i]` is what it got from lane `i`.
pub open spec fn synced(
    stranded: Seq<usize>,
    waiting: Seq<Seq<usize>>,
    cached: Seq<usize>,
    stranded_after: Seq<usize>,
    left: Seq<Seq<usize>>,
    cached_after: Seq<usize>,
) -> bool {
    let room = CACHE_LEN - cached.len();
    let moved = fetched(stranded, room);
    &&& stranded_after == stranded.skip(moved)
    &&& exists|took: Seq<Seq<usize>>|
        {
            &&& #[trigger] scanned(waiting, room - moved, took, left)
            &&& cached_after == cached + stranded.take(moved) + joined(took)
        }
}

/// No loss on the way into the cache. A synchronisation that leaves room
/// in the cache has fetched every stranded descriptor and emptied every
/// lane: all that was stranded or seen waiting is in the cache now.
pub proof fn lemma_sync_with_room_takes_all(
    stranded: Seq<usize>,
    waiting: Seq<Seq<usize>>,
    cached: Seq<usize>,
    stranded_after: Seq<usize>,
    left: Seq<Seq<usize>>,
    cached_after: Seq<usize>,
)
    requires
        synced(stranded, waiting, cached, stranded_after, left, cached_after),
        cached_after.len() < CACHE_LEN,
    ensures
        stranded_after.len() == 0,
        (cached + stranded).is_prefix_of(cached_after),
        left.len() == waiting.len(),
        forall|index: int| 0 <= index < waiting.len() ==> (#[trigger] left[index]).len() == 0,
        cached_after.len() >= cached.len() + stranded.len() + total_len(waiting),
{
    let room = CACHE_LEN - cached.len();
    let moved = fetched(stranded, room);
    let took = choose|took: Seq<Seq<usize>>|
        {
            &&& #[trigger] scanned(waiting, room - moved, took, left)
            &&& cached_after == cached + stranded.take(moved) + joined(took)
        };
    assert(stranded.take(moved) =~= stranded);
    assert((cached + stranded) =~= cached_after.subrange(0, (cached + stranded).len() as int));
    assert forall|index: int| 0 <= index < waiting.len() implies (#[trigger] left[index]).len()
        == 0 by {
        lemma_scan_with_room_takes_all(waiting, room - moved, took, left, index);
    }
    assert forall|index: int| 0 <= index < waiting.len() implies (#[trigger] waiting[index]).len()
        <= took[index].len() by {
        lemma_scan_with_room_takes_all(waiting, room - moved, took, left, index);
    }
    lemma_total_len_grows(waiting, took);
}

/// A synchronisation that leaves room in the cache has put every
/// descriptor that was seen waiting in a lane into the cache.
pub proof fn lemma_sync_with_room_delivers(
    stranded: Seq<usize>,
    waiting: Seq<Seq<usize>>,
    cached: Seq<usize>,
    stranded_after: Seq<usize>,
    left: Seq<Seq<usize>>,
    cached_after: Seq<usize>,
    index: int,
    descriptor: usize,
)
    requires
        synced(stranded, waiting, cached, stranded_after, left, cached_after),
        cached_after.len() < CACHE_LEN,
        0 <= index < waiting.len(),
        waiting[index].contains(descriptor),
    ensures
        cached_after.contains(descriptor),
        cached_after.len() >= cached.len() + waiting[index].len(),
{
    let room = CACHE_LEN - cached.len();
    let moved = fetched(stranded, room);
    let took = choose|took: Seq<Seq<usize>>|
        {
            &&& #[trigger] scanned(waiting, room - moved, took, left)
            &&& cached_after == cached + stranded.take(moved) + joined(took)
        };
    lemma_scan_with_room_takes_all(waiting, room - moved, took, left, index);
    let seen = waiting[index];
    let at = choose|at: int| 0 <= at < seen.len() && seen[at] == descriptor;
    assert(took[index][at] == descriptor) by {
        assert(seen[at] == took[index].subrange(0, seen.len() as int)[at]);
    }
    lemma_joined_holds_segment(took, index, descriptor);
    let all = joined(took);
    let found = choose|found: int| 0 <= found < all.len() && all[found] == descriptor;
    let head = cached + stranded.take(moved);
    assert((head + all)[head.len() + found] == descriptor);
    lemma_joined_reaches(took, index);
}

/// All segments together hold at least as many descriptors as one of them.
proof fn lemma_joined_reaches(segments: Seq<Seq<usize>>, index: int)
    requires
        0 <= index < segments.len(),
    ensures
        joined(segments).len() >= segments[index].len(),
    decreases segments.len(),
{
    if index < segments.len() - 1 {
        lemma_joined_reaches(segments.drop_last(), index);
    }
}

/// The number of descriptors in all of `segments` together.
pub open spec fn total_len(segments: Seq<Seq<usize>>) -> nat {
    joined(segments).len()
}

/// Segments that are each at least as long as their counterparts hold at
/// least as many descriptors together.
proof fn lemma_total_len_grows(shorter: Seq<Seq<usize>>, longer: Seq<Seq<usize>>)
    requires
        shorter.len() == longer.len(),
        forall|index: int| 0 <= index < shorter.len() ==> shorter[index].len() <= longer[index].len(),
    ensures
        total_len(shorter) <= total_len(longer),
    decreases shorter.len(),
{
    if shorter.len() > 0 {
        lemma_total_len_grows(shorter.drop_last(), longer.drop_last());
    }
}

/// The lock on a shared registry, held: a `parking_lot::MutexGuard`. The
/// lock is released when this value goes out of scope.
#[verifier::external_body]
pub struct Locked<'a> {
    guard: parking_lot::MutexGuard<'a, Registry>,
}

/// `Mutex::new` and `Arc::new`: puts the registry behind a lock that handles
/// on any thread can share.
#[verifier::external_body]
fn shared_new(registry: Registry) -> (list: triomphe::Arc<parking_lot::Mutex<Registry>>) {
    triomphe::Arc::new(parking_lot::Mutex::new(registry))
}

/// `Arc::clone`: one more handle to the same lock and registry.
#[verifier::external_body]
fn shared_clone(list: &triomphe::Arc<parking_lot::Mutex<Registry>>) -> (other: triomphe::Arc<
    parking_lot::Mutex<Registry>,
>) {
    list.clone()
}

/// `Mutex::lock`: waits until no other handle holds the lock and takes it.
/// Nothing is known of the registry at that point: other handles may have
/// registered and removed lanes.
#[verifier::external_body]
fn shared_lock<'a>(list: &'a triomphe::Arc<parking_lot::Mutex<Registry>>) -> (guard: Locked<'a>) {
    Locked { guard: list.lock() }
}

/// `DerefMut::deref_mut` of the guard: the registry behind the held lock.
#[verifier::external_body]
fn locked_registry<'a, 'b>(guard: &'a mut Locked<'b>) -> (registry: &'a mut Registry) {
    &mut *guard.guard
}

/// A handle to the shared registry. Every producer and the consumer hold
/// one; the table behind it lives as long as the last of them.
pub struct ConsumerList {
    list: triomphe::Arc<parking_lot::Mutex<Registry>>,
    queue_len: usize,
}

impl Clone for ConsumerList {
    /// Another handle to the same registry.
    fn clone(&self) -> (other: Self)
        ensures
            other.lane_size() == self.lane_size(),
    {
        Self { list: shared_clone(&self.list), queue_len: self.queue_len }
    }
}

impl ConsumerList {
    /// The capacity that every lane of this channel is made with.
    pub closed spec fn lane_size(&self) -> usize {
        self.queue_len
    }

    /// The capacity that every lane of this channel is made with.
    pub fn queue_len(&self) -> (size: usize)
        ensures
            size == self.lane_size(),
    {
        self.queue_len
    }

    /// A handle to a new registry with no lanes, for a channel whose
    /// lanes hold `queue_len` descriptors each.
    pub fn new(queue_len: usize) -> (list: Self)
        ensures
            list.lane_size() == queue_len,
    {
        Self::with_registry(Registry::new(queue_len))
    }

    /// Puts `registry` behind a lock and returns the first handle to it.
    pub fn with_registry(registry: Registry) -> (list: Self)
        ensures
            list.lane_size() == registry.lane_size(),
    {
        let queue_len = registry.lane_size;
        Self { list: shared_new(registry), queue_len }
    }

    /// The number of lanes registered at the moment, under the lock. It
    /// may have changed by the time the caller looks at it.
    pub fn len(&self) -> (n: usize)
        ensures
            n <= MAX_LANES,
    {
        let mut guard = shared_lock(&self.list);
        let registry = locked_registry(&mut guard);
        registry.len()
    }

    /// Registers the receive side of a new lane under the lock, by
    /// `Registry::try_register`, and returns its identity. Whether there
    /// is room depends on what the other handles did: a registry that is
    /// full or out of identities is left as it is, and the refusal is
    /// reported for the caller to fail on.
    pub(crate) fn push(&self, consumer: spsc::Consumer) -> (r: Result<usize, RegistryError>)
        ensures
            r matches Err(e) ==> e == RegistryError::Full || e == RegistryError::Exhausted,
    {
        let mut guard = shared_lock(&self.list);
        let registry = locked_registry(&mut guard);
        registry.try_register(consumer)
    }

    /// Removes the lane registered under `id` under the lock, by
    /// `Registry::try_remove`. Whether it is registered depends on what
    /// the other handles did: a registry that holds no such lane is left
    /// as it is, and `NotRegistered` is reported for the caller to fail
    /// on. The handle itself stays what it was: a handle to the same
    /// registry, for lanes of the same size.
    pub fn remove(&mut self, id: usize) -> (r: Result<(), RegistryError>)
        ensures
            r matches Err(e) ==> e == RegistryError::NotRegistered,
            final(self).lane_size() == old(self).lane_size(),
    {
        let mut guard = shared_lock(&self.list);
        let registry = locked_registry(&mut guard);
        registry.try_remove(id)
    }
}

/// Pops what is ready in every registered lane into `v`, as far as `v` has
/// room. The lock is held for the whole scan, so no lane is removed while
/// it is being drained. What was cached before stays in place; what the
/// lanes gave comes behind it.
#[inline(never)]
pub fn pop_all(me: &mut ConsumerList, v: &mut ArrayVec<usize, 1024>)
    ensures
        final(me).lane_size() == old(me).lane_size(),
        cache_items(*old(v)).is_prefix_of(cache_items(*final(v))),
        cache_items(*final(v)).len() <= CACHE_LEN,
{
    let mut guard = shared_lock(&me.list);
    let registry = locked_registry(&mut guard);
    registry.drain_into(v);
}

} // verus!
