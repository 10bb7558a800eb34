//! One lane: a bounded single-producer single-consumer ring buffer, split
//! into a send side and a receive side that may live on different threads.
//!
//! Each side is modelled by what it last saw of the lane. The other side
//! works at its own pace: the send side learns that descriptors were taken
//! out only when it enqueues again, the receive side learns that more
//! were put in only when it has used up what it saw. Every contract here
//! holds whatever the other side did in between.

use arrayvec::ArrayVec;
use ringbuf::traits::Producer as RingProducer;
use ringbuf::traits::Split;
use ringbuf::{HeapCons, HeapProd, HeapRb};
use vstd::prelude::*;

use crate::batch::buffer_items;

verus! {

/// The send side of a lane: the producer half of a `ringbuf::HeapRb`.
#[verifier::external_body]
pub struct Producer {
    ring: HeapProd<usize>,
}

/// The receive side of a lane: the consumer half of a `ringbuf::HeapRb`.
#[verifier::external_body]
pub struct Consumer {
    pub(crate) ring: HeapCons<usize>,
}

/// The descriptors in the lane as its send side last saw it, oldest first.
/// The receive side may have taken some of them from the front since.
pub uninterp spec fn lane_backlog(sender: Producer) -> Seq<usize>;

/// The descriptors that the receive side last saw waiting in the lane,
/// oldest first. The send side may have put more behind them since.
pub uninterp spec fn lane_ready(receiver: Consumer) -> Seq<usize>;

/// The number of descriptors the lane was made to hold.
pub uninterp spec fn lane_capacity(sender: Producer) -> nat;

/// The capacities a lane can be made with: at least one slot, and no more
/// slots than one allocation can hold.
pub open spec fn capacity_supported(size: usize) -> bool {
    0 < size && size * (usize::BITS / 8) <= isize::MAX
}

/// Tells whether a lane can be made with `size` slots.
pub fn supports_capacity(size: usize) -> (ok: bool)
    ensures
        ok == capacity_supported(size),
{
    let slot: usize = (usize::BITS / 8) as usize;
    let most: usize = (isize::MAX as usize) / slot;
    assert(size * slot <= isize::MAX <==> size <= most) by (nonlinear_arith)
        requires
            slot > 0,
            most == (isize::MAX as int) / (slot as int),
    ;
    size > 0 && size <= most
}

/// The number of descriptors a bulk enqueue takes in: as many of the
/// `offered` ones as fit once the receive side has taken `freed` of the
/// `before` ones out.
pub open spec fn lane_accepts(before: Seq<usize>, capacity: nat, offered: Seq<usize>, freed: int) -> int {
    let vacant = capacity - (before.len() - freed);
    if offered.len() <= vacant {
        offered.len() as int
    } else {
        vacant
    }
}

/// The lane after a bulk enqueue: the `freed` oldest descriptors are gone,
/// the accepted ones stand at the end in the order they were offered, and
/// the rest of the offer is not kept.
pub open spec fn lane_after(before: Seq<usize>, capacity: nat, offered: Seq<usize>, freed: int) -> Seq<
    usize,
> {
    before.skip(freed) + offered.take(lane_accepts(before, capacity, offered, freed))
}

/// The overflow policy of a lane. A bulk enqueue accepts a prefix of the
/// offer and never fills the lane beyond its capacity, and it turns
/// descriptors away only when that leaves the lane full.
pub proof fn lemma_enqueue_fills_to_capacity(
    before: Seq<usize>,
    capacity: nat,
    offered: Seq<usize>,
    freed: int,
)
    requires
        0 <= freed <= before.len() <= capacity,
    ensures
        0 <= lane_accepts(before, capacity, offered, freed) <= offered.len(),
        lane_after(before, capacity, offered, freed).len() == before.len() - freed + lane_accepts(
            before,
            capacity,
            offered,
            freed,
        ),
        lane_after(before, capacity, offered, freed).len() <= capacity,
        lane_accepts(before, capacity, offered, freed) < offered.len() ==> lane_after(
            before,
            capacity,
            offered,
            freed,
        ).len() == capacity,
{
}

/// No loss under bounded load. When what the send side last saw in the
/// lane and what it offers fit the capacity together, the whole offer is
/// accepted, in order, however much the receive side has taken out.
pub proof fn lemma_bounded_load_is_kept(
    before: Seq<usize>,
    capacity: nat,
    offered: Seq<usize>,
    freed: int,
)
    requires
        0 <= freed <= before.len(),
        before.len() + offered.len() <= capacity,
    ensures
        lane_accepts(before, capacity, offered, freed) == offered.len(),
        lane_after(before, capacity, offered, freed) == before.skip(freed) + offered,
{
    assert(offered.take(offered.len() as int) =~= offered);
}

/// `HeapRb::new` and `Split::split`: a fresh, empty lane of `size` slots
/// and its two sides. `HeapRb::new` panics on a size of zero and on one
/// that no allocation can hold, which the precondition excludes.
#[verifier::external_body]
pub(crate) fn channel(size: usize) -> (lane: (Producer, Consumer))
    requires
        capacity_supported(size),
    ensures
        lane_backlog(lane.0) == Seq::<usize>::empty(),
        lane_capacity(lane.0) == size,
        lane_ready(lane.1) == Seq::<usize>::empty(),
{
    let (ring_in, ring_out) = HeapRb::<usize>::new(size).split();
    (Producer { ring: ring_in }, Consumer { ring: ring_out })
}

/// `Producer::push_slice` of the ring buffer, on the descriptors of
/// `items`: it reads how far the receive side has come, copies as many
/// descriptors as then fit, in order, and returns their number. It never
/// blocks.
#[verifier::external_body]
pub(crate) fn enqueue_many(sender: &mut Producer, items: &ArrayVec<usize, 16>) -> (accepted: usize)
    ensures
        lane_capacity(*final(sender)) == lane_capacity(*old(sender)),
        lane_backlog(*final(sender)).len() <= lane_capacity(*old(sender)),
        exists|freed: int|
            {
                &&& 0 <= freed <= lane_backlog(*old(sender)).len()
                &&& accepted == lane_accepts(
                    lane_backlog(*old(sender)),
                    lane_capacity(*old(sender)),
                    buffer_items(*items),
                    freed,
                )
                &&& lane_backlog(*final(sender)) == #[trigger] lane_after(
                    lane_backlog(*old(sender)),
                    lane_capacity(*old(sender)),
                    buffer_items(*items),
                    freed,
                )
            },
{
    sender.ring.push_slice(items.as_slice())
}

} // verus!
