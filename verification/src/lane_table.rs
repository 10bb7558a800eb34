//! The table of registered lanes: a bounded list of receive sides, each
//! under an identity of its own, and the scan that drains them.

use arrayvec::ArrayVec;
use ringbuf::traits::Consumer as RingConsumer;
use vstd::prelude::*;

use crate::batch::{cache_items, cache_len, cache_push, CACHE_LEN};
use crate::spsc;

verus! {

/// Number of lanes that can be registered at one time.
pub const MAX_LANES: usize = 4096;

/// The receive side of one registered lane and the identity it was
/// registered under.
pub struct LaneEntry {
    id: usize,
    receiver: spsc::Consumer,
}

/// The identities of the lanes in the list, in the order they were
/// registered.
pub uninterp spec fn lane_ids(lanes: ArrayVec<LaneEntry, 4096>) -> Seq<usize>;

/// For each lane in the list, in the same order, the descriptors that its
/// receive side last saw waiting, oldest first.
pub uninterp spec fn lane_waiting(lanes: ArrayVec<LaneEntry, 4096>) -> Seq<Seq<usize>>;

/// `ArrayVec::new`: an empty list. The capacity of 4096 is far below the
/// limit at which `ArrayVec::new` panics.
#[verifier::external_body]
fn lanes_new() -> (lanes: ArrayVec<LaneEntry, 4096>)
    ensures
        lane_ids(lanes) == Seq::<usize>::empty(),
        lane_waiting(lanes) == Seq::<Seq<usize>>::empty(),
{
    ArrayVec::new()
}

/// `ArrayVec::len`: the number of lanes, never more than the capacity.
#[verifier::external_body]
fn lanes_len(lanes: &ArrayVec<LaneEntry, 4096>) -> (n: usize)
    ensures
        n == lane_ids(*lanes).len(),
        n == lane_waiting(*lanes).len(),
        n <= MAX_LANES,
{
    lanes.len()
}

/// `ArrayVec::push`: appends the lane at the end. It panics on a full
/// list, which the precondition excludes.
#[verifier::external_body]
fn lanes_push(lanes: &mut ArrayVec<LaneEntry, 4096>, lane: LaneEntry)
    requires
        lane_ids(*old(lanes)).len() < MAX_LANES,
    ensures
        lane_ids(*final(lanes)) == lane_ids(*old(lanes)).push(lane.id),
        lane_waiting(*final(lanes)) == lane_waiting(*old(lanes)).push(spsc::lane_ready(lane.receiver)),
    no_unwind
{
    lanes.push(lane)
}

/// The slice index of `ArrayVec`: the identity of the lane at `index`. It
/// panics past the end, which the precondition excludes.
#[verifier::external_body]
fn lanes_id_at(lanes: &ArrayVec<LaneEntry, 4096>, index: usize) -> (id: usize)
    requires
        index < lane_ids(*lanes).len(),
    ensures
        id == lane_ids(*lanes)[index as int],
{
    lanes[index].id
}

/// `ArrayVec::remove`: takes the lane at `index` out and closes the gap,
/// keeping the order of the others. It panics past the end, which the
/// precondition excludes.
#[verifier::external_body]
fn lanes_remove(lanes: &mut ArrayVec<LaneEntry, 4096>, index: usize)
    requires
        index < lane_ids(*old(lanes)).len(),
    ensures
        lane_ids(*final(lanes)) == lane_ids(*old(lanes)).remove(index as int),
        lane_waiting(*final(lanes)) == lane_waiting(*old(lanes)).remove(index as int),
    no_unwind
{
    lanes.remove(index);
}

/// `Consumer::try_pop` of the ring buffer, on the lane at `index`. While
/// the receive side has seen descriptors waiting, it gives the oldest of
/// them and keeps the rest, without looking at the lane again. Once they
/// are used up it looks again: `None` comes only when nothing has arrived,
/// and else the descriptor and what waits behind it are what has arrived.
/// It never blocks, and it touches no other lane.
#[verifier::external_body]
fn lanes_pop(lanes: &mut ArrayVec<LaneEntry, 4096>, index: usize) -> (item: Option<usize>)
    requires
        index < lane_ids(*old(lanes)).len(),
    ensures
        lane_ids(*final(lanes)) == lane_ids(*old(lanes)),
        lane_waiting(*final(lanes)).len() == lane_waiting(*old(lanes)).len(),
        forall|other: int|
            0 <= other < lane_waiting(*old(lanes)).len() && other != index ==> lane_waiting(
                *final(lanes),
            )[other] == lane_waiting(*old(lanes))[other],
        lane_waiting(*old(lanes))[index as int].len() > 0 ==> {
            &&& item == Some(lane_waiting(*old(lanes))[index as int][0])
            &&& lane_waiting(*final(lanes))[index as int] == lane_waiting(
                *old(lanes),
            )[index as int].skip(1)
        },
        item is None ==> lane_waiting(*final(lanes))[index as int].len() == 0,
    no_unwind
{
    lanes[index].receiver.ring.try_pop()
}

/// The table of registered lanes. No two lanes share an identity, and an
/// identity that was handed out once is never handed out again.
pub struct LaneTable {
    lanes: ArrayVec<LaneEntry, 4096>,
    next_id: usize,
}

impl LaneTable {
    #[verifier::type_invariant]
    spec fn well_formed(self) -> bool {
        &&& forall|i: int| 0 <= i < lane_ids(self.lanes).len() ==> lane_ids(self.lanes)[i] < self.next_id
        &&& lane_ids(self.lanes).no_duplicates()
        &&& lane_waiting(self.lanes).len() == lane_ids(self.lanes).len()
    }

    /// The identities of the registered lanes, in registration order.
    pub closed spec fn ids(&self) -> Seq<usize> {
        lane_ids(self.lanes)
    }

    /// For each registered lane, in registration order, the descriptors
    /// that its receive side last saw waiting, oldest first.
    pub closed spec fn waiting(&self) -> Seq<Seq<usize>> {
        lane_waiting(self.lanes)
    }

    /// The number of identities handed out so far. It is also the identity
    /// that the next lane gets.
    pub closed spec fn issued(&self) -> nat {
        self.next_id as nat
    }

    /// An empty table that numbers its lanes from 0 on.
    pub fn new() -> (table: Self)
        ensures
            table.ids() == Seq::<usize>::empty(),
            table.waiting() == Seq::<Seq<usize>>::empty(),
            table.issued() == 0,
    {
        Self::numbered_from(0)
    }

    /// An empty table that numbers its lanes from `first` on, for a
    /// channel whose identities must not collide with those of another.
    pub fn numbered_from(first: usize) -> (table: Self)
        ensures
            table.ids() == Seq::<usize>::empty(),
            table.waiting() == Seq::<Seq<usize>>::empty(),
            table.issued() == first,
    {
        LaneTable { lanes: lanes_new(), next_id: first }
    }

    /// The number of registered lanes.
    pub fn len(&self) -> (n: usize)
        ensures
            n == self.ids().len(),
            n == self.waiting().len(),
            n <= MAX_LANES,
            self.ids().no_duplicates(),
    {
        proof {
            use_type_invariant(self);
        }
        lanes_len(&self.lanes)
    }

    /// Tells whether every identity has been handed out.
    pub fn exhausted(&self) -> (b: bool)
        ensures
            b == (self.issued() >= usize::MAX),
    {
        self.next_id == usize::MAX
    }

    /// Registers the receive side of a new lane at the end of the table
    /// and returns the identity it got: the next one that was never handed
    /// out. The table must have a free place and an identity left.
    pub fn register(&mut self, receiver: spsc::Consumer) -> (id: usize)
        requires
            old(self).ids().len() < MAX_LANES,
            old(self).issued() < usize::MAX,
        ensures
            id == old(self).issued(),
            !old(self).ids().contains(id),
            final(self).ids() == old(self).ids().push(id),
            final(self).waiting() == old(self).waiting().push(spsc::lane_ready(receiver)),
            final(self).issued() == old(self).issued() + 1,
            final(self).ids().len() <= MAX_LANES,
            final(self).ids().no_duplicates(),
    {
        proof {
            use_type_invariant(&*self);
        }
        let id = self.next_id;
        let ghost before = lane_ids(self.lanes);
        assert(!before.contains(id));
        assert(before.push(id).no_duplicates());
        self.next_id = id + 1;
        lanes_push(&mut self.lanes, LaneEntry { id, receiver });
        id
    }

    /// The place of the lane registered under `id`, counted from the lane
    /// registered first, or `None` when no lane is registered under `id`.
    pub fn position(&self, id: usize) -> (at: Option<usize>)
        ensures
            self.waiting().len() == self.ids().len(),
            at is Some <==> self.ids().contains(id),
            at matches Some(index) ==> {
                &&& index < self.ids().len()
                &&& index < self.waiting().len()
                &&& self.ids()[index as int] == id
                &&& index == self.ids().index_of(id)
            },
    {
        proof {
            use_type_invariant(self);
        }
        let n = lanes_len(&self.lanes);
        let mut i: usize = 0;
        while i < n
            invariant
                i <= n,
                n == lane_ids(self.lanes).len(),
                n == lane_waiting(self.lanes).len(),
                lane_ids(self.lanes).no_duplicates(),
                forall|j: int|
                    0 <= j < lane_ids(self.lanes).len() ==> lane_ids(self.lanes)[j] < self.next_id,
                forall|j: int| 0 <= j < i ==> lane_ids(self.lanes)[j] != id,
            decreases n - i,
        {
            if lanes_id_at(&self.lanes, i) == id {
                proof {
                    lemma_remove_keeps_table(lane_ids(self.lanes), i as int, self.next_id as int);
                }
                return Some(i);
            }
            i = i + 1;
        }
        None
    }

    /// Takes the lane at `index` out of the table and lets go of its
    /// receive side, keeping the order of the other lanes.
    pub fn remove_at(&mut self, index: usize)
        requires
            index < old(self).ids().len(),
        ensures
            final(self).ids() == old(self).ids().remove(index as int),
            final(self).waiting() == old(self).waiting().remove(index as int),
            final(self).issued() == old(self).issued(),
            final(self).ids().len() == old(self).ids().len() - 1,
            !final(self).ids().contains(old(self).ids()[index as int]),
            final(self).ids().no_duplicates(),
    {
        proof {
            use_type_invariant(&*self);
            lemma_remove_keeps_table(lane_ids(self.lanes), index as int, self.next_id as int);
        }
        lanes_remove(&mut self.lanes, index);
    }

    /// Pops the oldest descriptor of the lane at `index`. While its receive
    /// side has seen descriptors waiting, that is the oldest of them, and
    /// the rest stays. Once they are used up the lane is looked at again:
    /// `None` comes only when nothing has arrived, and else the descriptor
    /// and what waits behind it are what has arrived. No other lane is
    /// touched.
    pub fn pop_lane(&mut self, index: usize) -> (item: Option<usize>)
        requires
            index < old(self).ids().len(),
        ensures
            final(self).ids() == old(self).ids(),
            final(self).issued() == old(self).issued(),
            final(self).waiting().len() == old(self).waiting().len(),
            forall|other: int|
                0 <= other < old(self).waiting().len() && other != index ==> final(self).waiting()[other]
                    == old(self).waiting()[other],
            old(self).waiting()[index as int].len() > 0 ==> {
                &&& item == Some(old(self).waiting()[index as int][0])
                &&& final(self).waiting()[index as int] == old(self).waiting()[index as int].skip(1)
            },
            item is None ==> final(self).waiting()[index as int].len() == 0,
    {
        proof {
            use_type_invariant(&*self);
        }
        lanes_pop(&mut self.lanes, index)
    }

    /// Moves descriptors from the lane at `index` to the end of `cache`,
    /// oldest first, until the lane has nothing waiting or the cache is
    /// full. No other lane is touched.
    pub fn drain_lane(&mut self, index: usize, cache: &mut ArrayVec<usize, 1024>)
        requires
            index < old(self).ids().len(),
        ensures
            final(self).ids() == old(self).ids(),
            final(self).issued() == old(self).issued(),
            final(self).waiting().len() == old(self).waiting().len(),
            forall|other: int|
                0 <= other < old(self).waiting().len() && other != index ==> final(self).waiting()[other]
                    == old(self).waiting()[other],
            cache_items(*old(cache)).is_prefix_of(cache_items(*final(cache))),
            cache_items(*final(cache)).len() <= CACHE_LEN,
            lane_drained(
                old(self).waiting()[index as int],
                CACHE_LEN - cache_items(*old(cache)).len(),
                cache_items(*final(cache)).skip(cache_items(*old(cache)).len() as int),
                final(self).waiting()[index as int],
            ),
    {
        proof {
            use_type_invariant(&*self);
        }
        let ghost held = cache_items(*cache);
        let ghost seen = self.waiting()[index as int];
        let mut room = CACHE_LEN - cache_len(cache);
        proof {
            lemma_drain_begins(seen, cache_items(*cache).skip(held.len() as int));
        }
        while room > 0
            invariant
                index < self.ids().len(),
                self.ids() == old(self).ids(),
                self.issued() == old(self).issued(),
                self.waiting().len() == old(self).waiting().len(),
                self.waiting().len() == self.ids().len(),
                forall|other: int|
                    0 <= other < self.waiting().len() && other != index ==> self.waiting()[other]
                        == old(self).waiting()[other],
                room == CACHE_LEN - cache_items(*cache).len(),
                held.is_prefix_of(cache_items(*cache)),
                draining(
                    seen,
                    cache_items(*cache).skip(held.len() as int),
                    self.waiting()[index as int],
                ),
            ensures
                room > 0 ==> self.waiting()[index as int].len() == 0,
            decreases room,
        {
            let ghost took = cache_items(*cache).skip(held.len() as int);
            let ghost waited = self.waiting()[index as int];
            match self.pop_lane(index) {
                Some(item) => {
                    cache_push(cache, item);
                    room = room - 1;
                    proof {
                        assert(cache_items(*cache).skip(held.len() as int) =~= took.push(item));
                        lemma_drain_goes_on(seen, took, waited, item, self.waiting()[index as int]);
                    }
                },
                None => {
                    proof {
                        assert(self.waiting()[index as int] =~= waited);
                    }
                    break ;
                },
            }
        }
        proof {
            lemma_drain_ends(
                seen,
                CACHE_LEN - held.len(),
                cache_items(*cache).skip(held.len() as int),
                self.waiting()[index as int],
            );
        }
    }

    /// Visits every lane once, in registration order, and drains it into
    /// `cache`. The lanes registered first are served first: each gets the
    /// room that the lanes before it left, and one that is reached when
    /// the cache is full gives nothing and keeps what it has.
    pub fn drain_into(&mut self, cache: &mut ArrayVec<usize, 1024>)
        ensures
            final(self).ids() == old(self).ids(),
            final(self).issued() == old(self).issued(),
            cache_items(*old(cache)).is_prefix_of(cache_items(*final(cache))),
            cache_items(*final(cache)).len() <= CACHE_LEN,
            exists|took: Seq<Seq<usize>>|
                {
                    &&& #[trigger] scanned(
                        old(self).waiting(),
                        CACHE_LEN - cache_items(*old(cache)).len(),
                        took,
                        final(self).waiting(),
                    )
                    &&& cache_items(*final(cache)) == cache_items(*old(cache)) + joined(took)
                },
    {
        let ghost held = cache_items(*cache);
        let ghost seen = self.waiting();
        let ghost room = CACHE_LEN - held.len();
        let n = self.len();
        if cache_len(cache) >= CACHE_LEN {
            proof {
                let took = Seq::new(n as nat, |i: int| Seq::<usize>::empty());
                assert forall|i: int| 0 <= i < n implies #[trigger] served(
                    seen,
                    room,
                    took,
                    seen,
                    i,
                ) by {
                    lemma_joined_nothing(took.take(i));
                    assert(took[i] =~= seen[i].take(0));
                    assert(seen[i] =~= seen[i].skip(0));
                }
                lemma_joined_nothing(took);
                assert(held + joined(took) =~= held);
                assert(scanned(seen, room, took, self.waiting()));
            }
            return ;
        }
        let ghost mut took = Seq::<Seq<usize>>::empty();
        let mut index: usize = 0;
        assert(held + joined(took) =~= held);
        while index < n
            invariant
                index <= n,
                n == self.ids().len(),
                n == self.waiting().len(),
                n == seen.len(),
                self.ids() == old(self).ids(),
                self.issued() == old(self).issued(),
                held.len() <= CACHE_LEN,
                room == CACHE_LEN - held.len(),
                took.len() == index,
                cache_items(*cache) == held + joined(took),
                cache_items(*cache).len() <= CACHE_LEN,
                forall|i: int| 0 <= i < index ==> #[trigger] served(seen, room, took, self.waiting(), i),
                forall|i: int| index <= i < n ==> self.waiting()[i] == seen[i],
            decreases n - index,
        {
            let ghost cached = cache_items(*cache);
            let ghost waited = self.waiting();
            let ghost earlier = took;
            self.drain_lane(index, cache);
            proof {
                let part = cache_items(*cache).skip(cached.len() as int);
                took = earlier.push(part);
                assert(took.drop_last() =~= earlier);
                assert(cache_items(*cache) =~= cached + part);
                assert(cache_items(*cache) =~= held + joined(took));
                assert forall|i: int| 0 <= i < index + 1 implies #[trigger] served(
                    seen,
                    room,
                    took,
                    self.waiting(),
                    i,
                ) by {
                    assert(took.take(i) =~= earlier.take(i));
                    if i < index {
                        assert(served(seen, room, earlier, waited, i));
                    } else {
                        assert(earlier.take(i) =~= earlier);
                    }
                }
            }
            index = index + 1;
        }
        proof {
            assert(scanned(seen, room, took, self.waiting()));
        }
    }
}

/// The descriptors of `segments` in one row, segment after segment.
pub open spec fn joined(segments: Seq<Seq<usize>>) -> Seq<usize>
    decreases segments.len(),
{
    if segments.len() == 0 {
        Seq::<usize>::empty()
    } else {
        joined(segments.drop_last()) + segments.last()
    }
}

/// What draining one lane into `room` free places does. The drain takes
/// `took` and leaves `left` waiting in the lane. When at least `room`
/// descriptors were seen `waiting`, it takes exactly the first `room` of
/// them and leaves exactly the rest. When fewer were seen, it takes them
/// all, in order, and goes on with what has arrived behind them, until
/// the room is used up or the lane has nothing left.
pub open spec fn lane_drained(waiting: Seq<usize>, room: int, took: Seq<usize>, left: Seq<usize>) -> bool {
    &&& took.len() <= room
    &&& waiting.len() >= room ==> took == waiting.take(room) && left == waiting.skip(room)
    &&& waiting.len() < room ==> waiting.is_prefix_of(took)
    &&& took.len() < room ==> left.len() == 0
}

/// Holds while a lane is being drained, when `took` has been taken so far
/// and `waits` is what its receive side sees waiting now. As long as the
/// drain is within what was `seen` at its start, it has taken exactly that
/// much of it and sees exactly the rest; beyond that, all that was seen
/// has been taken, first and in order.
pub open spec fn draining(seen: Seq<usize>, took: Seq<usize>, waits: Seq<usize>) -> bool {
    &&& took.len() <= seen.len() ==> took == seen.take(took.len() as int) && waits == seen.skip(
        took.len() as int,
    )
    &&& took.len() >= seen.len() ==> seen.is_prefix_of(took)
}

/// A drain that has taken nothing yet is under way.
pub proof fn lemma_drain_begins(seen: Seq<usize>, took: Seq<usize>)
    requires
        took.len() == 0,
    ensures
        draining(seen, took, seen),
{
    assert(took =~= seen.take(0));
    assert(seen =~= seen.skip(0));
    if seen.len() == 0 {
        assert(seen =~= took.subrange(0, 0));
    }
}

/// One more pop keeps a drain under way: `item` came out of a lane that
/// showed `waited` before the pop and shows `waits` after it.
pub proof fn lemma_drain_goes_on(
    seen: Seq<usize>,
    took: Seq<usize>,
    waited: Seq<usize>,
    item: usize,
    waits: Seq<usize>,
)
    requires
        draining(seen, took, waited),
        waited.len() > 0 ==> item == waited[0] && waits == waited.skip(1),
    ensures
        draining(seen, took.push(item), waits),
{
    let more = took.push(item);
    if took.len() < seen.len() {
        assert(more =~= seen.take(more.len() as int));
        assert(waits =~= seen.skip(more.len() as int));
        if more.len() == seen.len() {
            assert(seen =~= more.subrange(0, seen.len() as int));
        }
    } else {
        assert(seen =~= took.subrange(0, seen.len() as int));
        assert(seen =~= more.subrange(0, seen.len() as int));
    }
}

/// A drain that stopped, at used-up room or at an empty lane, has done
/// what `lane_drained` says.
pub proof fn lemma_drain_ends(seen: Seq<usize>, room: int, took: Seq<usize>, left: Seq<usize>)
    requires
        draining(seen, took, left),
        took.len() <= room,
        took.len() < room ==> left.len() == 0,
    ensures
        lane_drained(seen, room, took, left),
{
}

/// The lane at `index` was drained in its turn: into the room that the
/// lanes before it had not used.
pub open spec fn served(
    waiting: Seq<Seq<usize>>,
    room: int,
    took: Seq<Seq<usize>>,
    left: Seq<Seq<usize>>,
    index: int,
) -> bool {
    lane_drained(waiting[index], room - joined(took.take(index)).len(), took[index], left[index])
}

/// What one scan over all lanes does to them, for a cache with `room` free
/// places: lane after lane is drained, in registration order, and
/// `took[i]` is what the cache got from lane `i`.
pub open spec fn scanned(
    waiting: Seq<Seq<usize>>,
    room: int,
    took: Seq<Seq<usize>>,
    left: Seq<Seq<usize>>,
) -> bool {
    &&& took.len() == waiting.len()
    &&& left.len() == waiting.len()
    &&& forall|index: int|
        0 <= index < waiting.len() ==> #[trigger] served(waiting, room, took, left, index)
}

/// The first `count` segments join to no more than all of them do.
proof fn lemma_joined_grows(segments: Seq<Seq<usize>>, count: int)
    requires
        0 <= count <= segments.len(),
    ensures
        joined(segments.take(count)).len() <= joined(segments).len(),
    decreases segments.len() - count,
{
    if count == segments.len() {
        assert(segments.take(count) =~= segments);
    } else {
        lemma_joined_grows(segments, count + 1);
        assert(segments.take(count + 1).drop_last() =~= segments.take(count));
    }
}

/// A scan never gives the cache more than it has room for.
pub proof fn lemma_scan_fits(
    waiting: Seq<Seq<usize>>,
    room: int,
    took: Seq<Seq<usize>>,
    left: Seq<Seq<usize>>,
)
    requires
        scanned(waiting, room, took, left),
        0 <= room,
    ensures
        joined(took).len() <= room,
{
    if took.len() > 0 {
        let last = took.len() - 1;
        assert(served(waiting, room, took, left, last));
        assert(took.take(last) =~= took.drop_last());
    }
}

/// No loss on the way into the cache. A scan that leaves room in the cache
/// has emptied every lane: all that was seen waiting in a lane is in what
/// the cache took from it, at the front and in order.
pub proof fn lemma_scan_with_room_takes_all(
    waiting: Seq<Seq<usize>>,
    room: int,
    took: Seq<Seq<usize>>,
    left: Seq<Seq<usize>>,
    index: int,
)
    requires
        scanned(waiting, room, took, left),
        joined(took).len() < room,
        0 <= index < waiting.len(),
    ensures
        left[index].len() == 0,
        waiting[index].is_prefix_of(took[index]),
{
    assert(served(waiting, room, took, left, index));
    lemma_joined_grows(took, index + 1);
    assert(took.take(index + 1).drop_last() =~= took.take(index));
    assert(took[index] + left[index] =~= took[index]);
}

/// Lanes registered first are served first. When a scan leaves something
/// in a lane, the cache is full from that lane on, and every lane
/// registered later has given nothing.
pub proof fn lemma_scan_favours_earlier_lanes(
    waiting: Seq<Seq<usize>>,
    room: int,
    took: Seq<Seq<usize>>,
    left: Seq<Seq<usize>>,
    earlier: int,
    later: int,
)
    requires
        scanned(waiting, room, took, left),
        0 <= earlier < later < waiting.len(),
        left[earlier].len() > 0,
    ensures
        joined(took.take(earlier + 1)).len() == room,
        took[later].len() == 0,
{
    assert(served(waiting, room, took, left, earlier));
    assert(served(waiting, room, took, left, later));
    assert(took.take(earlier + 1).drop_last() =~= took.take(earlier));
    lemma_joined_grows(took.take(later), earlier + 1);
    assert(took.take(later).take(earlier + 1) =~= took.take(earlier + 1));
}

/// Every descriptor of a segment is among the joined descriptors.
pub proof fn lemma_joined_holds_segment(segments: Seq<Seq<usize>>, index: int, descriptor: usize)
    requires
        0 <= index < segments.len(),
        segments[index].contains(descriptor),
    ensures
        joined(segments).contains(descriptor),
    decreases segments.len(),
{
    let rest = joined(segments.drop_last());
    let last = segments.last();
    if index == segments.len() - 1 {
        let at = choose|at: int| 0 <= at < last.len() && last[at] == descriptor;
        assert((rest + last)[rest.len() + at] == descriptor);
    } else {
        lemma_joined_holds_segment(segments.drop_last(), index, descriptor);
        let at = choose|at: int| 0 <= at < rest.len() && rest[at] == descriptor;
        assert((rest + last)[at] == descriptor);
    }
}

/// Segments that are all empty join to nothing.
proof fn lemma_joined_nothing(segments: Seq<Seq<usize>>)
    requires
        forall|i: int| 0 <= i < segments.len() ==> segments[i].len() == 0,
    ensures
        joined(segments) == Seq::<usize>::empty(),
    decreases segments.len(),
{
    if segments.len() > 0 {
        lemma_joined_nothing(segments.drop_last());
        assert(joined(segments) =~= Seq::<usize>::empty());
    }
}

/// Removing a lane loses nothing that waited in it, as long as that is
/// no more than the removal has room to save: all of it is among what was
/// saved, at the front and in order.
pub proof fn lemma_drain_saves_what_waited(
    waiting: Seq<usize>,
    room: int,
    took: Seq<usize>,
    left: Seq<usize>,
)
    requires
        lane_drained(waiting, room, took, left),
        waiting.len() <= room,
    ensures
        waiting.is_prefix_of(took),
{
    if took.len() < room {
        assert(took + left =~= took);
    } else {
        assert(waiting =~= took.subrange(0, waiting.len() as int)) by {
            assert forall|i: int| 0 <= i < waiting.len() implies waiting[i] == took[i] by {
                assert(waiting[i] == (took + left).subrange(0, waiting.len() as int)[i]);
            }
        }
    }
}

/// Taking the item at `at` out of a list without duplicates leaves a list
/// without duplicates that no longer holds the item, found at its first
/// and only index, and keeps every bound on the items.
proof fn lemma_remove_keeps_table(ids: Seq<usize>, at: int, bound: int)
    requires
        0 <= at < ids.len(),
        ids.no_duplicates(),
        forall|j: int| 0 <= j < ids.len() ==> ids[j] < bound,
    ensures
        ids.contains(ids[at]),
        ids.index_of(ids[at]) == at,
        ids.remove(at).no_duplicates(),
        !ids.remove(at).contains(ids[at]),
        ids.remove(at).len() == ids.len() - 1,
        forall|j: int| 0 <= j < ids.remove(at).len() ==> ids.remove(at)[j] < bound,
{
    let rest = ids.remove(at);
    assert forall|j: int| 0 <= j < rest.len() implies rest[j] == ids[if j < at {
        j
    } else {
        j + 1
    }] by {}
    assert(ids.index_of(ids[at]) == at) by {
        let k = ids.index_of(ids[at]);
        assert(0 <= k < ids.len() && ids[k] == ids[at]);
    }
    assert(!rest.contains(ids[at])) by {
        if rest.contains(ids[at]) {
            let j = choose|j: int| 0 <= j < rest.len() && rest[j] == ids[at];
            assert(ids[if j < at {
                j
            } else {
                j + 1
            }] == ids[at]);
        }
    }
}

} // verus!
