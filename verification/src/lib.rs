//! A multi-producer single-consumer channel for packet-buffer descriptors.
//!
//! Every producer handle feeds a bounded lane of its own and batches
//! descriptors locally before it hands them over; the one consumer handle
//! drains all registered lanes into a local cache and pops from there.
//! Delivery is best effort: a lane that is full drops what does not fit.

use arrayvec::ArrayVec;
use std::marker::PhantomData;
use vstd::prelude::*;

use crate::batch::{
    buffer_clear, buffer_items, buffer_len, buffer_new, buffer_push, cache_items, cache_len,
    cache_new, cache_pop, BUFFER_LEN, CACHE_LEN,
};
use crate::consumer_list::{
    lemma_sync_with_room_delivers, lemma_sync_with_room_takes_all, pop_all, synced, ConsumerList,
    Registry, RegistryError,
};
use crate::lane_table::{lane_drained, lemma_drain_saves_what_waited};
use crate::spsc::{
    capacity_supported, lane_after, lane_backlog, lane_capacity, lemma_bounded_load_is_kept,
};

pub mod batch;
pub mod consumer_list;
pub mod lane_table;
pub mod spsc;

verus! {

/// Marks the branch that calls it as the rarely taken one.
#[inline]
fn cold() {
}

/// Hints that `b` is expected to be `true`. Returns `b`.
#[inline]
pub fn likely(b: bool) -> (r: bool)
    ensures
        r == b,
{
    if !b {
        cold()
    }
    b
}

/// Hints that `b` is expected to be `false`. Returns `b`.
#[inline]
pub fn unlikely(b: bool) -> (r: bool)
    ensures
        r == b,
{
    if b {
        cold()
    }
    b
}

/// `From::from` of a value into its own type, which std documents as the
/// conversion that changes nothing.
pub assume_specification<V>[ <V as core::convert::From<V>>::from ](value: V) -> (same: V)
    ensures
        same == value,
;

/// What popping from a stack of descriptors gives: the one cached last,
/// or nothing from an empty stack, which stays as it is.
pub open spec fn stack_popped(before: Seq<usize>, item: Option<usize>, after: Seq<usize>) -> bool {
    if before.len() == 0 {
        item is None && after == before
    } else {
        item == Some(before.last()) && after == before.drop_last()
    }
}

/// Consumer side of the channel. There is one per channel, and it cannot
/// be duplicated.
pub struct Consumer<T> {
    consumer: ConsumerList,
    pub cached: ArrayVec<usize, 1024>,
    _marker: PhantomData<T>,
}

impl<T> Consumer<T> {
    /// The cached descriptors, in the order they were drained from the
    /// lanes. The next `pop` takes the last one.
    pub closed spec fn cached_items(&self) -> Seq<usize> {
        cache_items(self.cached)
    }

    /// The capacity of every lane of this channel.
    pub closed spec fn lane_size(&self) -> usize {
        self.consumer.lane_size()
    }

    /// Pops a single descriptor: the one cached last. Only when the cache
    /// is empty are the lanes drained first; if nothing is ready then
    /// either, the answer is `None`. It never waits for a producer.
    pub fn pop(&mut self) -> (item: Option<usize>)
        ensures
            final(self).lane_size() == old(self).lane_size(),
            exists|cached: Seq<usize>|
                {
                    &&& old(self).cached_items().len() > 0 ==> cached == old(self).cached_items()
                    &&& old(self).cached_items().is_prefix_of(cached)
                    &&& cached.len() <= CACHE_LEN
                    &&& #[trigger] stack_popped(cached, item, final(self).cached_items())
                },
    {
        if unlikely(cache_len(&self.cached) == 0) {
            self.sync();
        }
        let ghost cached = self.cached_items();
        let item = cache_pop(&mut self.cached);
        assert(stack_popped(cached, item, self.cached_items()));
        item
    }

    /// The number of descriptors in the cache. Drains nothing.
    pub fn available_len(&self) -> (n: usize)
        ensures
            n == self.cached_items().len(),
            n <= CACHE_LEN,
    {
        cache_len(&self.cached)
    }

    /// Drains every registered lane into the cache, in registration order,
    /// as far as the cache has room. What was cached stays where it was.
    pub fn sync(&mut self)
        ensures
            final(self).lane_size() == old(self).lane_size(),
            old(self).cached_items().is_prefix_of(final(self).cached_items()),
            final(self).cached_items().len() <= CACHE_LEN,
    {
        pop_all(&mut self.consumer, &mut self.cached);
    }
}

/// Producer side of the channel: the send side of one lane and a small
/// buffer in front of it.
pub struct Producer<T> {
    elem: spsc::Producer,
    list: ConsumerList,
    buffer: ArrayVec<usize, 16>,
    id: usize,
    _marker: PhantomData<T>,
}

impl<T> Producer<T> {
    /// Holds of every producer between two calls: the buffer has room for
    /// one more descriptor, and the lane is the size that the channel was
    /// made with.
    pub closed spec fn well_formed(&self) -> bool {
        &&& buffer_items(self.buffer).len() < BUFFER_LEN
        &&& lane_backlog(self.elem).len() <= lane_capacity(self.elem)
        &&& lane_capacity(self.elem) == self.list.lane_size()
        &&& capacity_supported(self.list.lane_size())
    }

    /// The descriptors pushed since the last flush, oldest first.
    pub closed spec fn buffered(&self) -> Seq<usize> {
        buffer_items(self.buffer)
    }

    /// The descriptors in this producer's lane as it last saw the lane,
    /// oldest first. The consumer may have taken some from the front since.
    pub closed spec fn backlog(&self) -> Seq<usize> {
        lane_backlog(self.elem)
    }

    /// The capacity of this producer's lane, which is that of every lane
    /// of the channel.
    pub closed spec fn lane_size(&self) -> usize {
        self.list.lane_size()
    }

    /// The identity under which this producer's lane is registered.
    pub closed spec fn lane_id(&self) -> usize {
        self.id
    }

    /// The identity under which this producer's lane is registered.
    pub fn id(&self) -> (id: usize)
        ensures
            id == self.lane_id(),
    {
        self.id
    }

    /// What a flush does to a producer: the buffer is empty afterwards, and
    /// its descriptors were offered to the lane in one bulk enqueue, of
    /// which the lane kept as many as fit. How many the consumer had freed
    /// by then is not for the producer to know.
    pub open spec fn flushed(before: Self, offered: Seq<usize>, after: Self) -> bool {
        &&& after.well_formed()
        &&& after.buffered() == Seq::<usize>::empty()
        &&& after.lane_size() == before.lane_size()
        &&& after.lane_id() == before.lane_id()
        &&& after.backlog().len() <= after.lane_size()
        &&& exists|freed: int|
            0 <= freed <= before.backlog().len() && after.backlog() == #[trigger] lane_after(
                before.backlog(),
                before.lane_size() as nat,
                offered,
                freed,
            )
    }

    /// What pushing `descriptor` does to a producer: it goes to the end of
    /// the buffer, and if that fills the buffer, the buffer is flushed.
    pub open spec fn pushed(before: Self, descriptor: usize, after: Self) -> bool {
        if before.buffered().len() + 1 < BUFFER_LEN {
            &&& after.well_formed()
            &&& after.buffered() == before.buffered().push(descriptor)
            &&& after.backlog() == before.backlog()
            &&& after.lane_size() == before.lane_size()
            &&& after.lane_id() == before.lane_id()
        } else {
            Self::flushed(before, before.buffered().push(descriptor), after)
        }
    }

    fn new(elem: spsc::Producer, list: ConsumerList, id: usize) -> (producer: Self)
        requires
            lane_backlog(elem) == Seq::<usize>::empty(),
            lane_capacity(elem) == list.lane_size(),
            capacity_supported(list.lane_size()),
        ensures
            producer.well_formed(),
            producer.buffered() == Seq::<usize>::empty(),
            producer.backlog() == Seq::<usize>::empty(),
            producer.lane_size() == list.lane_size(),
            producer.lane_id() == id,
    {
        Self { elem, buffer: buffer_new(), list, id, _marker: PhantomData }
    }

    /// Pushes an element: converts it into its descriptor and pushes that.
    /// Only the descriptor travels; the channel never converts it back.
    pub fn push<E: Into<usize>>(&mut self, elem: E)
        requires
            old(self).well_formed(),
        ensures
            exists|descriptor: usize|
                {
                    &&& call_ensures(E::into, (elem,), descriptor)
                    &&& #[trigger] Self::pushed(*old(self), descriptor, *final(self))
                },
    {
        self.push_descriptor(elem.into())
    }

    /// Pushes a descriptor. It is buffered; the sixteenth one buffered
    /// triggers a flush.
    pub fn push_descriptor(&mut self, descriptor: usize)
        requires
            old(self).well_formed(),
        ensures
            Self::pushed(*old(self), descriptor, *final(self)),
    {
        buffer_push(&mut self.buffer, descriptor);
        if buffer_len(&self.buffer) == BUFFER_LEN {
            let ghost full = *self;
            self.send();
            proof {
                let freed = choose|freed: int|
                    0 <= freed <= full.backlog().len() && self.backlog() == #[trigger] lane_after(
                        full.backlog(),
                        full.lane_size() as nat,
                        full.buffered(),
                        freed,
                    );
                assert(self.backlog() == lane_after(
                    old(self).backlog(),
                    old(self).lane_size() as nat,
                    old(self).buffered().push(descriptor),
                    freed,
                ));
            }
        }
    }

    /// Flushes all buffered descriptors to the lane. The lane keeps as
    /// many as fit, in order; the rest is dropped.
    #[inline(never)]
    pub fn flush(&mut self)
        requires
            old(self).well_formed(),
        ensures
            Self::flushed(*old(self), old(self).buffered(), *final(self)),
    {
        self.send();
    }

    /// Makes a lane of the size that `list` prescribes, registers its
    /// receive side there and returns a producer on its send side. The
    /// registry refuses when it is full or out of identities, which
    /// depends on what the other handles did; nothing is registered then.
    pub fn attach(list: &ConsumerList) -> (r: Result<Self, RegistryError>)
        requires
            capacity_supported(list.lane_size()),
        ensures
            r matches Ok(producer) ==> {
                &&& producer.well_formed()
                &&& producer.buffered() == Seq::<usize>::empty()
                &&& producer.backlog() == Seq::<usize>::empty()
                &&& producer.lane_size() == list.lane_size()
            },
            r matches Err(e) ==> e == RegistryError::Full || e == RegistryError::Exhausted,
    {
        let (p, c) = spsc::channel(list.queue_len());
        let list = list.clone();
        match list.push(c) {
            Ok(id) => Ok(Self::new(p, list, id)),
            Err(e) => Err(e),
        }
    }

    /// A further producer for the same channel, on a fresh lane of its
    /// own. Nothing of this producer's lane or buffer is shared or copied.
    pub fn try_clone(&self) -> (r: Result<Self, RegistryError>)
        requires
            self.well_formed(),
        ensures
            r matches Ok(producer) ==> {
                &&& producer.well_formed()
                &&& producer.buffered() == Seq::<usize>::empty()
                &&& producer.backlog() == Seq::<usize>::empty()
                &&& producer.lane_size() == self.lane_size()
            },
            r matches Err(e) ==> e == RegistryError::Full || e == RegistryError::Exhausted,
    {
        Self::attach(&self.list)
    }

    /// Ends this producer: flushes what is buffered, then takes its lane
    /// out of the registry. The one refusal is `NotRegistered`, when the
    /// registry no longer knew the lane.
    pub fn close(self) -> (r: Result<(), RegistryError>)
        requires
            self.well_formed(),
        ensures
            r matches Err(e) ==> e == RegistryError::NotRegistered,
    {
        let mut this = self;
        this.flush();
        this.list.remove(this.id)
    }

    fn send(&mut self)
        requires
            buffer_items(old(self).buffer).len() <= BUFFER_LEN,
            lane_backlog(old(self).elem).len() <= lane_capacity(old(self).elem),
            lane_capacity(old(self).elem) == old(self).list.lane_size(),
            capacity_supported(old(self).list.lane_size()),
        ensures
            Self::flushed(*old(self), buffer_items(old(self).buffer), *final(self)),
    {
        let _accepted = spsc::enqueue_many(&mut self.elem, &self.buffer);
        buffer_clear(&mut self.buffer);
        proof {
            let freed = choose|freed: int|
                0 <= freed <= old(self).backlog().len() && self.backlog() == #[trigger] lane_after(
                    old(self).backlog(),
                    lane_capacity(old(self).elem),
                    old(self).buffered(),
                    freed,
                );
            assert(self.backlog() == lane_after(
                old(self).backlog(),
                old(self).lane_size() as nat,
                old(self).buffered(),
                freed,
            ));
        }
    }
}

/// Flushing loses nothing under bounded load. When the descriptors that a
/// producer last saw in its lane and the ones it offers fit the lane
/// together, the lane holds all of the offer afterwards, at its end and in
/// the order they were pushed.
pub proof fn lemma_flush_keeps_bounded_load<T>(
    before: Producer<T>,
    offered: Seq<usize>,
    after: Producer<T>,
)
    requires
        Producer::flushed(before, offered, after),
        before.backlog().len() + offered.len() <= before.lane_size(),
    ensures
        offered.is_suffix_of(after.backlog()),
{
    let freed = choose|freed: int|
        0 <= freed <= before.backlog().len() && after.backlog() == #[trigger] lane_after(
            before.backlog(),
            before.lane_size() as nat,
            offered,
            freed,
        );
    lemma_bounded_load_is_kept(before.backlog(), before.lane_size() as nat, offered, freed);
    let kept = before.backlog().skip(freed);
    assert(offered =~= (kept + offered).subrange(kept.len() as int, (kept + offered).len() as int));
}

/// One round under bounded load loses nothing. A producer flushes into a
/// lane that has room for the whole offer; the receive side of that lane,
/// registered at `index`, then sees all that the send side holds; a
/// synchronisation follows that leaves room in the cache. Every offered
/// descriptor is in the cache after that, and the cache has grown by at
/// least their number.
pub proof fn lemma_bounded_round_delivers<T>(
    before: Producer<T>,
    offered: Seq<usize>,
    after: Producer<T>,
    stranded: Seq<usize>,
    waiting: Seq<Seq<usize>>,
    cached: Seq<usize>,
    stranded_after: Seq<usize>,
    left: Seq<Seq<usize>>,
    cached_after: Seq<usize>,
    index: int,
)
    requires
        Producer::flushed(before, offered, after),
        before.backlog().len() + offered.len() <= before.lane_size(),
        0 <= index < waiting.len(),
        waiting[index] == after.backlog(),
        synced(stranded, waiting, cached, stranded_after, left, cached_after),
        cached_after.len() < CACHE_LEN,
    ensures
        forall|at: int| 0 <= at < offered.len() ==> cached_after.contains(#[trigger] offered[at]),
        cached_after.len() >= cached.len() + offered.len(),
{
    lemma_flush_keeps_bounded_load(before, offered, after);
    let lane = after.backlog();
    assert forall|at: int| 0 <= at < offered.len() implies cached_after.contains(
        #[trigger] offered[at],
    ) by {
        let from = lane.len() - offered.len();
        assert(offered[at] == lane.subrange(from, lane.len() as int)[at]);
        assert(lane[from + at] == offered[at]);
        lemma_sync_with_room_delivers(
            stranded,
            waiting,
            cached,
            stranded_after,
            left,
            cached_after,
            index,
            offered[at],
        );
    }
    if offered.len() > 0 {
        assert(lane[lane.len() - offered.len()] == lane.subrange(
            lane.len() - offered.len(),
            lane.len() as int,
        )[0]);
        lemma_sync_with_room_delivers(
            stranded,
            waiting,
            cached,
            stranded_after,
            left,
            cached_after,
            index,
            lane[lane.len() - offered.len()],
        );
    }
}

/// Closing a producer loses nothing under bounded load. The producer
/// flushes into a lane that has room for the whole offer, and the receive
/// side of that lane then sees all that the send side holds, as `seen`.
/// The lane is removed, which saves `saved` behind the `stranded`
/// descriptors, and a synchronisation follows that leaves room in the
/// cache. Every offered descriptor is in the cache after that, and the
/// cache has grown by at least their number.
pub proof fn lemma_closed_producer_is_delivered<T>(
    before: Producer<T>,
    offered: Seq<usize>,
    after: Producer<T>,
    seen: Seq<usize>,
    saved: Seq<usize>,
    lost: Seq<usize>,
    stranded: Seq<usize>,
    waiting: Seq<Seq<usize>>,
    cached: Seq<usize>,
    stranded_after: Seq<usize>,
    left: Seq<Seq<usize>>,
    cached_after: Seq<usize>,
)
    requires
        Producer::flushed(before, offered, after),
        before.backlog().len() + offered.len() <= before.lane_size(),
        seen == after.backlog(),
        lane_drained(seen, after.lane_size() as int, saved, lost),
        synced(stranded + saved, waiting, cached, stranded_after, left, cached_after),
        cached_after.len() < CACHE_LEN,
    ensures
        forall|at: int| 0 <= at < offered.len() ==> cached_after.contains(#[trigger] offered[at]),
        cached_after.len() >= cached.len() + offered.len(),
{
    lemma_flush_keeps_bounded_load(before, offered, after);
    lemma_drain_saves_what_waited(seen, after.lane_size() as int, saved, lost);
    lemma_sync_with_room_takes_all(
        stranded + saved,
        waiting,
        cached,
        stranded_after,
        left,
        cached_after,
    );
    let from = seen.len() - offered.len();
    let all = cached + (stranded + saved);
    assert forall|at: int| 0 <= at < offered.len() implies cached_after.contains(
        #[trigger] offered[at],
    ) by {
        assert(offered[at] == seen.subrange(from, seen.len() as int)[at]);
        assert(seen[from + at] == saved.subrange(0, seen.len() as int)[from + at]);
        let place = cached.len() + stranded.len() + from + at;
        assert(all[place] == offered[at]);
        assert(all[place] == cached_after.subrange(0, all.len() as int)[place]);
        assert(cached_after[place] == offered[at]);
    }
}

/// Creates a channel whose lanes hold `size` descriptors each, and returns
/// its first producer and its consumer. The producer's lane is registered
/// under identity 0; every later producer gets a lane of the same size.
pub fn channel<T>(size: usize) -> (ends: (Producer<T>, Consumer<T>))
    requires
        capacity_supported(size),
    ensures
        ends.0.well_formed(),
        ends.0.buffered() == Seq::<usize>::empty(),
        ends.0.backlog() == Seq::<usize>::empty(),
        ends.0.lane_size() == size,
        ends.0.lane_id() == 0,
        ends.1.cached_items() == Seq::<usize>::empty(),
        ends.1.lane_size() == size,
{
    let (p, c) = spsc::channel(size);
    let mut registry = Registry::new(size);
    let id = registry.register(c);
    let list = ConsumerList::with_registry(registry);
    (
        Producer::new(p, list.clone(), id),
        Consumer { consumer: list, cached: cache_new(), _marker: PhantomData },
    )
}

} // verus!
