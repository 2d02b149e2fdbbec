//! The simulation clock: a virtual time value plus a queue of events ordered by
//! due time. Nothing in the simulation runs on wall-clock time: the engine pops
//! the earliest event, moves `now` to its due instant, applies it (which may
//! schedule more), and repeats.
//!
//! There is only stepped time here; the host decides how fast to advance it:
//! drain everything for a settled call, advance by a delta for real-time
//! playback, one event at a time for frame-by-frame stepping. The same schedule
//! drains in the same order every run, ties broken by insertion order.
//!
//! Time is kept as fixed-point microseconds, so that the queue orders on an
//! integer.

use vstd::prelude::*;
use crate::arith::{edge_of, millis_of};
use crate::dict::{lemma_filter_keeps_all, lemma_filter_skips};
use crate::double::Double;

verus! {

/// One queued event, with the instant that it is due at and the handle that it
/// was scheduled under.
#[verifier::ext_equal]
pub ghost struct Timer<V> {
    pub due: i64,
    pub handle: u64,
    pub event: V,
}

/// What a clock holds: the current instant, the handle given last, and the
/// queued events in the order in which they will fire.
#[verifier::ext_equal]
pub ghost struct Schedule<V> {
    pub now: i64,
    pub seq: u64,
    pub queue: Seq<Timer<V>>,
}

/// The instant `delay` after `now`, or the last one where there is none so late.
/// A delay below zero counts as none.
pub open spec fn instant_after(now: i64, delay: i64) -> i64 {
    if delay <= 0 {
        now
    } else if now + delay > i64::MAX {
        i64::MAX
    } else {
        (now + delay) as i64
    }
}

/// The number after `n`, or `n` where there is none.
pub open spec fn next_number(n: u64) -> u64 {
    if n == u64::MAX {
        n
    } else {
        (n + 1) as u64
    }
}

/// The number after `n`, or `n` where there is none.
pub fn number_after(n: u64) -> (r: u64)
    ensures
        r == next_number(n),
{
    if n == u64::MAX {
        n
    } else {
        n + 1
    }
}

/// The place in `queue` of an event due at `due`: behind every event at the end
/// of it that is due later.
pub open spec fn slot<V>(queue: Seq<Timer<V>>, due: i64) -> int
    decreases queue.len(),
{
    if queue.len() == 0 {
        0
    } else if queue.last().due <= due {
        queue.len() as int
    } else {
        slot(queue.drop_last(), due)
    }
}

impl<V> Schedule<V> {
    /// The current instant in milliseconds, as a count of 2^-1074.
    pub open spec fn millis(self) -> Option<int> {
        Some(millis_of(self.now as int))
    }

    /// With `event` queued to fire `delay` microseconds from now.
    pub open spec fn scheduled(self, delay: i64, event: V) -> Self {
        let due = instant_after(self.now, delay);
        let handle = next_number(self.seq);
        Schedule {
            now: self.now,
            seq: handle,
            queue: self.queue.insert(slot(self.queue, due), Timer { due, handle, event }),
        }
    }

    /// Without the event queued under `handle`.
    pub open spec fn cancelled(self, handle: u64) -> Self {
        Schedule {
            now: self.now,
            seq: self.seq,
            queue: self.queue.filter(|t: Timer<V>| t.handle != handle),
        }
    }

    /// With the first event fired: out of the queue, and the time at its due
    /// instant.
    pub open spec fn popped(self) -> Self {
        if self.queue.len() == 0 {
            self
        } else {
            Schedule {
                now: if self.queue[0].due > self.now {
                    self.queue[0].due
                } else {
                    self.now
                },
                seq: self.seq,
                queue: self.queue.drop_first(),
            }
        }
    }

    /// With the time at `instant`, or where it was if that is later.
    pub open spec fn parked(self, instant: i64) -> Self {
        Schedule {
            now: if instant > self.now {
                instant
            } else {
                self.now
            },
            seq: self.seq,
            queue: self.queue,
        }
    }

    /// The queue stands in the order in which it fires: by due instant, and
    /// among equals by handle, that is, in the order of scheduling. No handle is
    /// past the one given last.
    pub open spec fn ordered(self) -> bool {
        &&& forall|i: int, j: int|
            0 <= i < j < self.queue.len() ==> {
                ||| (#[trigger] self.queue[i]).due < (#[trigger] self.queue[j]).due
                ||| self.queue[i].due == self.queue[j].due && self.queue[i].handle < self.queue[j].handle
            }
        &&& forall|i: int| 0 <= i < self.queue.len() ==> (#[trigger] self.queue[i]).handle <= self.seq
    }
}

/// Whether nothing is queued that comes due by `t`.
pub open spec fn free_until<V>(clock: Schedule<V>, t: i64) -> bool {
    forall|k: int| 0 <= k < clock.queue.len() ==> (#[trigger] clock.queue[k]).due > t
}

// ── laws ────────────────────────────────────────────────────────────────

pub proof fn lemma_slot<V>(queue: Seq<Timer<V>>, due: i64)
    ensures
        0 <= slot(queue, due) <= queue.len(),
        slot(queue, due) > 0 ==> queue[slot(queue, due) - 1].due <= due,
        forall|i: int| slot(queue, due) <= i < queue.len() ==> (#[trigger] queue[i]).due > due,
    decreases queue.len(),
{
    if queue.len() > 0 && queue.last().due > due {
        let short = queue.drop_last();
        lemma_slot(short, due);
        assert forall|i: int| slot(queue, due) <= i < queue.len() implies (#[trigger] queue[i]).due > due by {
            if i < short.len() {
                assert(short[i].due > due);
            }
        }
    }
}

/// An event that comes before all that is queued goes to the front.
pub proof fn lemma_goes_first<V>(clock: Schedule<V>, delay: i64, event: V)
    requires
        free_until(clock, instant_after(clock.now, delay)),
    ensures
        clock.scheduled(delay, event).queue == seq![
            Timer { due: instant_after(clock.now, delay), handle: next_number(clock.seq), event },
        ] + clock.queue,
        clock.scheduled(delay, event).popped() == (Schedule {
            now: instant_after(clock.now, delay),
            seq: next_number(clock.seq),
            queue: clock.queue,
        }),
{
    let due = instant_after(clock.now, delay);
    let timer = Timer { due, handle: next_number(clock.seq), event };
    lemma_slot(clock.queue, due);
    assert(slot(clock.queue, due) == 0);
    let after = clock.scheduled(delay, event);
    assert(after.queue =~= seq![timer] + clock.queue);
    assert(after.queue.drop_first() =~= clock.queue);
}

/// Scheduling keeps the queue in firing order: a new event comes after all that
/// are due no later, also after those due at the same instant, and before all
/// that are due later.
pub proof fn law_scheduling_keeps_order<V>(c: Schedule<V>, delay: i64, event: V)
    requires
        c.ordered(),
        c.seq < u64::MAX,
    ensures
        c.scheduled(delay, event).ordered(),
{
    let due = instant_after(c.now, delay);
    let at = slot(c.queue, due);
    lemma_slot(c.queue, due);
    let after = c.scheduled(delay, event);
    assert forall|i: int, j: int| 0 <= i < j < after.queue.len() implies {
        ||| (#[trigger] after.queue[i]).due < (#[trigger] after.queue[j]).due
        ||| after.queue[i].due == after.queue[j].due && after.queue[i].handle < after.queue[j].handle
    } by {
        let i0 = if i < at {
            i
        } else {
            i - 1
        };
        let j0 = if j < at {
            j
        } else {
            j - 1
        };
        if i != at && j != at {
            assert(c.queue[i0].due <= c.queue[j0].due);
        } else if j == at {
            // the event just before the slot is due no later, and so are those before it
            assert(c.queue[at - 1].due <= due);
            if i < at - 1 {
                assert(c.queue[i].due <= c.queue[at - 1].due);
            }
            assert(c.queue[i].handle <= c.seq);
        } else {
            assert(c.queue[j0].due > due);
        }
    }
    assert forall|i: int| 0 <= i < after.queue.len() implies (#[trigger] after.queue[i]).handle <= after.seq by {
        if i < at {
            assert(c.queue[i].handle <= c.seq);
        } else if i > at {
            assert(c.queue[i - 1].handle <= c.seq);
        }
    }
}

/// Cancelling, firing and parking keep the queue in firing order.
pub proof fn law_firing_keeps_order<V>(c: Schedule<V>, handle: u64, instant: i64)
    requires
        c.ordered(),
    ensures
        c.cancelled(handle).ordered(),
        c.popped().ordered(),
        c.parked(instant).ordered(),
{
    lemma_filter_ordered(c, handle);
    if c.queue.len() > 0 {
        let after = c.popped();
        assert forall|i: int, j: int| 0 <= i < j < after.queue.len() implies {
            ||| (#[trigger] after.queue[i]).due < (#[trigger] after.queue[j]).due
            ||| after.queue[i].due == after.queue[j].due && after.queue[i].handle < after.queue[j].handle
        } by {
            assert(c.queue[i + 1].due <= c.queue[j + 1].due);
        }
    }
}

proof fn lemma_filter_ordered<V>(c: Schedule<V>, handle: u64)
    requires
        c.ordered(),
    ensures
        c.cancelled(handle).ordered(),
        forall|i: int|
            0 <= i < c.cancelled(handle).queue.len() ==> c.queue.contains(#[trigger] c.cancelled(handle).queue[i]),
    decreases c.queue.len(),
{
    reveal(Seq::filter);
    if c.queue.len() > 0 {
        let short = Schedule { now: c.now, seq: c.seq, queue: c.queue.drop_last() };
        assert(short.ordered());
        lemma_filter_ordered(short, handle);
        let rest = short.cancelled(handle).queue;
        let q = c.cancelled(handle).queue;
        assert forall|i: int| 0 <= i < rest.len() implies ({
            ||| (#[trigger] rest[i]).due < c.queue.last().due
            ||| rest[i].due == c.queue.last().due && rest[i].handle < c.queue.last().handle
        }) && c.queue.contains(rest[i]) by {
            assert(short.queue.contains(rest[i]));
            let k = short.queue.index_of(rest[i]);
            assert(c.queue[k] == rest[i]);
        }
        assert forall|i: int| 0 <= i < q.len() implies c.queue.contains(#[trigger] q[i]) by {
            if i < rest.len() {
                assert(q[i] == rest[i]);
            } else {
                assert(q[i] == c.queue.last());
            }
        }
        assert forall|i: int| 0 <= i < q.len() implies (#[trigger] q[i]).handle <= c.seq by {
            assert(c.queue.contains(q[i]));
            let k = c.queue.index_of(q[i]);
            assert(c.queue[k].handle <= c.seq);
        }
    }
}

/// Time never goes backwards, whatever is done to the clock.
pub proof fn law_time_never_goes_back<V>(c: Schedule<V>, delay: i64, event: V, handle: u64, instant: i64)
    ensures
        c.scheduled(delay, event).now == c.now,
        c.cancelled(handle).now == c.now,
        c.popped().now >= c.now,
        c.parked(instant).now >= c.now,
        c.parked(instant).now >= instant,
{
}

/// What was just scheduled is what cancelling its handle takes out again.
pub proof fn law_cancel_undoes_schedule<V>(c: Schedule<V>, delay: i64, event: V)
    requires
        c.ordered(),
        c.seq < u64::MAX,
    ensures
        c.scheduled(delay, event).cancelled(next_number(c.seq)).queue == c.queue,
{
    let due = instant_after(c.now, delay);
    let at = slot(c.queue, due);
    lemma_slot(c.queue, due);
    let after = c.scheduled(delay, event).queue;
    let pred = |t: Timer<V>| t.handle != next_number(c.seq);
    assert(after[at].handle == next_number(c.seq));
    assert(after.remove(at) =~= c.queue);
    lemma_filter_skips(after, at, pred);
    assert forall|i: int| 0 <= i < c.queue.len() implies pred(#[trigger] c.queue[i]) by {
        assert(c.queue[i].handle <= c.seq);
    }
    lemma_filter_keeps_all(c.queue, pred);
}

// ── the clock ───────────────────────────────────────────────────────────

struct Scheduled<E> {
    due: i64,
    handle: u64,
    event: E,
}

/// A virtual clock with a due-time-ordered event queue, generic over the event
/// payload so it needn't know anything about frames or the engine.
pub struct Clock<E> {
    now: i64,
    seq: u64,
    queue: Vec<Scheduled<E>>,
}

spec fn timers<E: View>(queue: Seq<Scheduled<E>>) -> Seq<Timer<E::V>> {
    Seq::new(
        queue.len(),
        |i: int| Timer { due: queue[i].due, handle: queue[i].handle, event: queue[i].event@ },
    )
}

impl<E: View> View for Clock<E> {
    type V = Schedule<E::V>;

    closed spec fn view(&self) -> Schedule<E::V> {
        Schedule { now: self.now, seq: self.seq, queue: timers(self.queue@) }
    }
}

impl<E: View> Default for Clock<E> {
    fn default() -> (r: Self)
        ensures
            r@ == (Schedule::<E::V> { now: 0, seq: 0, queue: Seq::empty() }),
    {
        Clock::new()
    }
}

impl<E: View> Clock<E> {
    pub fn new() -> (r: Self)
        ensures
            r@ == (Schedule::<E::V> { now: 0, seq: 0, queue: Seq::empty() }),
            r@.ordered(),
    {
        let r = Clock { now: 0, seq: 0, queue: Vec::new() };
        assert(r@.queue =~= Seq::empty());
        r
    }

    /// The current virtual time, in milliseconds.
    pub fn now(&self) -> (r: Double)
        ensures
            r.value() == self@.millis(),
            self@.now >= 0 ==> !r.negative(),
    {
        Double::of_micros(self.now)
    }

    /// Queues `event` to fire `delay_ms` from now (clamped to zero and above).
    /// Returns a handle to [`cancel`](Self::cancel) it with.
    pub fn schedule(&mut self, delay_ms: Double, event: E) -> (r: u64)
        ensures
            final(self)@ == old(self)@.scheduled(delay_ms.micros() as i64, event@),
            r == next_number(old(self)@.seq),
            r == final(self)@.seq,
    {
        self.schedule_micros(delay_ms.to_micros(), event)
    }

    /// Queues `event` to fire `delay` microseconds from now (clamped to zero and
    /// above).
    pub fn schedule_micros(&mut self, delay: i64, event: E) -> (r: u64)
        ensures
            final(self)@ == old(self)@.scheduled(delay, event@),
            r == next_number(old(self)@.seq),
            r == final(self)@.seq,
    {
        let ghost before = self@;
        let due: i64 = if delay <= 0 {
            self.now
        } else if self.now > i64::MAX - delay {
            i64::MAX
        } else {
            self.now + delay
        };
        if self.seq < u64::MAX {
            self.seq = self.seq + 1;
        }
        let handle: u64 = self.seq;
        let mut at: usize = self.queue.len();
        assert(before.queue.take(at as int) =~= before.queue);
        while at > 0 && self.queue[at - 1].due > due
            invariant
                at <= self.queue@.len(),
                timers(self.queue@) == before.queue,
                slot(before.queue, due) == slot(before.queue.take(at as int), due),
            decreases at,
        {
            proof {
                let t = before.queue.take(at as int);
                assert(t.last() == before.queue[at - 1]);
                assert(t.drop_last() =~= before.queue.take(at - 1));
            }
            at = at - 1;
        }
        proof {
            let t = before.queue.take(at as int);
            if at > 0 {
                assert(t.last() == before.queue[at - 1]);
            }
            assert(slot(before.queue, due) == at);
        }
        self.queue.insert(at, Scheduled { due, handle, event });
        assert(self@.queue =~= before.scheduled(delay, event@).queue);
        handle
    }

    /// Drops the queued event with this handle, if it hasn't fired. Nothing
    /// happens otherwise.
    pub fn cancel(&mut self, handle: u64)
        ensures
            final(self)@ == old(self)@.cancelled(handle),
    {
        let ghost before = self@;
        let ghost pred = |t: Timer<E::V>| t.handle != handle;
        let mut i: usize = 0;
        while i < self.queue.len()
            invariant
                i <= self.queue@.len(),
                self@.now == before.now,
                self@.seq == before.seq,
                self@.queue.filter(pred) == before.queue.filter(pred),
                pred == (|t: Timer<E::V>| t.handle != handle),
                forall|k: int| 0 <= k < i ==> pred(#[trigger] self@.queue[k]),
            decreases self.queue@.len() - i,
        {
            if self.queue[i].handle == handle {
                proof {
                    lemma_filter_skips(self@.queue, i as int, pred);
                }
                let ghost was = self@.queue;
                let _ = self.queue.remove(i);
                proof {
                    assert(self@.queue =~= was.remove(i as int));
                    assert forall|k: int| 0 <= k < i implies pred(#[trigger] self@.queue[k]) by {
                        assert(pred(was[k]));
                    }
                }
            } else {
                i = i + 1;
            }
        }
        proof {
            lemma_filter_keeps_all(self@.queue, pred);
        }
    }

    /// Timers queued and not yet fired.
    pub fn pending(&self) -> (r: usize)
        ensures
            r == self@.queue.len(),
    {
        self.queue.len()
    }

    /// The due time of the next event, in milliseconds, if any.
    pub fn peek_due(&self) -> (r: Option<Double>)
        ensures
            match r {
                Some(due) => self@.queue.len() > 0 && due.value() == Some(millis_of(self@.queue[0].due as int)),
                None => self@.queue.len() == 0,
            },
    {
        match self.peek_micros() {
            Some(due) => Some(Double::of_micros(due)),
            None => None,
        }
    }

    /// The due time of the next event, in microseconds, if any.
    pub fn peek_micros(&self) -> (r: Option<i64>)
        ensures
            r == (if self@.queue.len() > 0 {
                Some(self@.queue[0].due)
            } else {
                None
            }),
    {
        if self.queue.len() > 0 {
            Some(self.queue[0].due)
        } else {
            None
        }
    }

    /// Fires the single earliest event, moving `now` to its due instant. `None`
    /// when the queue is empty.
    pub fn pop_next(&mut self) -> (r: Option<E>)
        ensures
            final(self)@ == old(self)@.popped(),
            match r {
                Some(event) => old(self)@.queue.len() > 0 && event@ == old(self)@.queue[0].event,
                None => old(self)@.queue.len() == 0,
            },
    {
        if self.queue.len() == 0 {
            return None;
        }
        let ghost before = self@;
        let next = self.queue.remove(0);
        if next.due > self.now {
            self.now = next.due;
        }
        assert(self@.queue =~= before.queue.drop_first());
        Some(next.event)
    }

    /// Moves `now` forward to at least `abs_ms` milliseconds (never backwards), so
    /// that time parks at the edge of a window even when nothing was queued that far
    /// out.
    pub fn park_at_least(&mut self, abs_ms: Double)
        ensures
            final(self)@ == old(self)@.parked(edge_of(abs_ms.value()) as i64),
    {
        self.park_micros(abs_ms.to_signed_micros());
    }

    /// Moves `now` forward to at least the microsecond `instant`.
    pub fn park_micros(&mut self, instant: i64)
        ensures
            final(self)@ == old(self)@.parked(instant),
    {
        if instant > self.now {
            self.now = instant;
        }
    }
}

} // verus!
