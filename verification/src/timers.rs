//! When a timer fires, and what else is in the queue then.

use vstd::prelude::*;
use crate::clock::{slot, Schedule, Timer};
use crate::dict::lemma_filtered;
use crate::engine::{deliveries, EventView};
use crate::faults::Direction;

verus! {

proof fn lemma_slot<V>(queue: Seq<Timer<V>>, due: i64)
    ensures
        0 <= slot(queue, due) <= queue.len(),
        forall|k: int| slot(queue, due) <= k < queue.len() ==> (#[trigger] queue[k]).due > due,
        slot(queue, due) > 0 ==> queue[slot(queue, due) - 1].due <= due,
    decreases queue.len(),
{
    if queue.len() > 0 && queue.last().due > due {
        let short = queue.drop_last();
        lemma_slot(short, due);
        assert forall|k: int| slot(queue, due) <= k < queue.len() implies (#[trigger] queue[k]).due > due by {
            if k < short.len() {
                assert(short[k].due > due);
            }
        }
        if slot(queue, due) > 0 {
            assert(short[slot(queue, due) - 1] == queue[slot(queue, due) - 1]);
        }
    }
}

/// An event that is scheduled comes due as many microseconds from now as it was to wait,
/// at once where that is not above zero, and never past the last instant. It stands in
/// the queue under a new handle, before all that is due later and behind all that stood
/// before those. The rest of the queue, and the time, stay as they were.
pub proof fn law_an_event_comes_due_after_its_delay<V>(c: Schedule<V>, delay: i64, event: V)
    requires
        c.seq < u64::MAX,
    ensures
        ({
            let after = c.scheduled(delay, event);
            &&& after.now == c.now
            &&& after.seq == c.seq + 1
            &&& exists|p: int|
                #![trigger after.queue[p]]
                0 <= p <= c.queue.len() && after.queue == c.queue.insert(p, after.queue[p]) && after.queue[p].event
                    == event && after.queue[p].handle == c.seq + 1 && after.queue[p].due == (if delay <= 0 {
                    c.now as int
                } else if c.now + delay <= i64::MAX {
                    c.now + delay
                } else {
                    i64::MAX as int
                }) && (forall|k: int| p <= k < c.queue.len() ==> (#[trigger] c.queue[k]).due > after.queue[p].due) && (p > 0
                    ==> c.queue[p - 1].due <= after.queue[p].due)
        }),
{
    let after = c.scheduled(delay, event);
    let due = crate::clock::instant_after(c.now, delay);
    lemma_slot(c.queue, due);
    let p = slot(c.queue, due);
    assert(after.queue[p].due == due);
    assert(after.queue == c.queue.insert(p, after.queue[p]));
}

/// What fires is the event at the head of the queue: it leaves the queue, nothing else
/// does, and the time is its own, or where it was if that is later.
pub proof fn law_what_fires_is_the_head<V>(c: Schedule<V>)
    requires
        c.queue.len() > 0,
    ensures
        c.popped().queue == c.queue.skip(1),
        c.popped().seq == c.seq,
        c.queue[0].due >= c.now ==> c.popped().now == c.queue[0].due,
        c.queue[0].due < c.now ==> c.popped().now == c.now,
{
    assert(c.popped().queue =~= c.queue.skip(1));
}

/// A cancelled event is out of the queue, and no other is.
pub proof fn law_a_cancelled_event_is_gone<V>(c: Schedule<V>, handle: u64, t: Timer<V>)
    ensures
        c.cancelled(handle).queue.contains(t) <==> c.queue.contains(t) && t.handle != handle,
        c.cancelled(handle).now == c.now,
        c.cancelled(handle).seq == c.seq,
{
    let keep = |t: Timer<V>| t.handle != handle;
    lemma_filtered(c.queue, keep);
    let left = c.cancelled(handle).queue;
    if left.contains(t) {
        assert(left[left.index_of(t)] == t);
    }
    if c.queue.contains(t) && keep(t) {
        assert(c.queue[c.queue.index_of(t)] == t);
    }
}

/// A clock that is parked stands at that instant, or where it was if that is later.
/// Nothing leaves the queue.
pub proof fn law_a_parked_clock_stands_there<V>(c: Schedule<V>, instant: i64)
    ensures
        instant >= c.now ==> c.parked(instant).now == instant,
        instant < c.now ==> c.parked(instant).now == c.now,
        c.parked(instant).queue == c.queue,
        c.parked(instant).seq == c.seq,
{
}

/// A frame that travels as a request is delivered to the server, one that travels as a
/// response to the client, on its connection; of several, each in turn.
pub proof fn law_frames_are_delivered_in_turn(
    clock: Schedule<EventView>,
    delay: i64,
    conn: Seq<char>,
    frames: Seq<Seq<u8>>,
    last: Seq<u8>,
)
    ensures
        deliveries(clock, delay, conn, Direction::Request, frames.push(last)) == deliveries(
            clock,
            delay,
            conn,
            Direction::Request,
            frames,
        ).scheduled(delay, EventView::DeliverToServer { conn, frame: last }),
        deliveries(clock, delay, conn, Direction::Response, frames.push(last)) == deliveries(
            clock,
            delay,
            conn,
            Direction::Response,
            frames,
        ).scheduled(delay, EventView::DeliverToClient { conn, frame: last }),
        deliveries(clock, delay, conn, Direction::Request, Seq::empty()) == clock,
        deliveries(clock, delay, conn, Direction::Response, Seq::empty()) == clock,
{
    assert(frames.push(last).drop_last() =~= frames);
}

} // verus!
