//! One connection's wire: the frame [`Tap`], the mutable [`FaultSpec`], the
//! fixed per-frame latency, and a reorder buffer. [`Channel::send`] records the
//! frame and decides what the engine should do with it: drop it, deliver it
//! after a delay, or hold it for reordering. The engine schedules delivery on the
//! clock.

use vstd::prelude::*;
use crate::arith::{floor_of, law_nothing_added, lemma_floor_of, negated, not_below_zero, number, part, sum};
use crate::dict::views;
use crate::double::{micros_of, whole_of, Double};
use crate::faults::{
    corrupt_bytes, corrupted, corruption_state, fault_applies_to, Direction, FaultSpec,
};
use crate::frame::{classify, looks_like_handshake, maybe_text, FrameKind, Tap, TapView};
use crate::rng::{drawn, stepped, Mulberry32};
use crate::text::{append_decimal, copied, decimal};

verus! {

/// A held reorder batch is released after this long if it hasn't filled up, in
/// microseconds.
pub const REORDER_FLUSH: i64 = 40_000;

/// What [`Channel::send`] decided; the engine acts on it.
#[derive(Debug, PartialEq)]
pub enum SendOutcome {
    /// Recorded on the tap, not delivered.
    Dropped,
    /// Deliver these frames to the peer after `delay_ms` milliseconds of clock
    /// time. One frame for the normal path; a whole shuffled batch when a reorder
    /// buffer fills up (then `delay_ms` is 0: a flushed frame goes straight out).
    Deliver { frames: Vec<Vec<u8>>, delay_ms: Double },
    /// Held in the reorder buffer. `schedule_flush` is true when no flush timer
    /// was pending and the engine should queue one [`REORDER_FLUSH`] out.
    Buffered { schedule_flush: bool },
}

/// What a [`SendOutcome`] holds.
#[verifier::ext_equal]
pub ghost enum Fate {
    Dropped,
    Deliver { frames: Seq<Seq<u8>>, delay: Option<int> },
    Buffered { schedule_flush: bool },
}

impl View for SendOutcome {
    type V = Fate;

    open spec fn view(&self) -> Fate {
        match self {
            SendOutcome::Dropped => Fate::Dropped,
            SendOutcome::Deliver { frames, delay_ms } => Fate::Deliver {
                frames: views(frames@),
                delay: delay_ms.value(),
            },
            SendOutcome::Buffered { schedule_flush } => Fate::Buffered { schedule_flush: *schedule_flush },
        }
    }
}

/// One connection between a named client and a named server.
pub struct Channel {
    pub tap: Tap,
    pub client_name: String,
    pub server_name: String,
    pub faults: FaultSpec,
    pub latency_ms: Double,
    pub reorder_buf: Vec<Vec<u8>>,
    /// A flush timer is already queued: don't queue another.
    pub flush_pending: bool,
}

/// What a [`Channel`] holds.
#[verifier::ext_equal]
pub ghost struct ChannelView {
    pub tap: TapView,
    pub client: Seq<char>,
    pub server: Seq<char>,
    pub faults: FaultSpec,
    pub latency_ms: Double,
    pub held: Seq<Seq<u8>>,
    pub flush_pending: bool,
}

impl View for Channel {
    type V = ChannelView;

    open spec fn view(&self) -> ChannelView {
        ChannelView {
            tap: self.tap@,
            client: self.client_name@,
            server: self.server_name@,
            faults: self.faults,
            latency_ms: self.latency_ms,
            held: views(self.reorder_buf@),
            flush_pending: self.flush_pending,
        }
    }
}

/// What a send leaves: the channel, the state of the generator, and the fate of
/// the frame.
pub ghost struct Sent {
    pub channel: ChannelView,
    pub rng: u32,
    pub fate: Fate,
}

// ── delays ──────────────────────────────────────────────────────────────

/// The milliseconds that `draw` picks between the two delays of `f`, as a count of
/// 2^-1074: each step to the nearest double, and `None` where one comes to a NaN.
/// Zero where the upper delay is not above zero.
pub open spec fn jitter(f: FaultSpec, draw: u32) -> Option<int> {
    if !f.delay_max.positive() {
        Some(0)
    } else {
        let range = not_below_zero(sum(f.delay_max.value(), negated(f.delay_min.value())));
        sum(f.delay_min.value(), part(range, draw))
    }
}

/// The state of the generator after a jitter: one draw where there is any.
pub open spec fn jitter_state(f: FaultSpec, rng: u32) -> u32 {
    if f.delay_max.positive() {
        stepped(rng)
    } else {
        rng
    }
}

/// Exec form of [`jitter`].
fn jitter_millis(f: &FaultSpec, rng: &mut Mulberry32) -> (r: Double)
    ensures
        r.value() == jitter(*f, drawn(old(rng)@)),
        final(rng)@ == jitter_state(*f, old(rng)@),
{
    if !f.delay_max.is_positive() {
        return Double::zero();
    }
    let range = f.delay_max.plus(f.delay_min.minus()).max_zero();
    let draw: u32 = rng.next_u32();
    f.delay_min.plus(range.part_at(draw))
}

/// The delay of a frame: the channel's latency and the jitter.
pub open spec fn delay_of(latency_ms: Double, jitter: Option<int>) -> Option<int> {
    sum(latency_ms.value(), jitter)
}

/// The microseconds after which a clock fires what is delayed by `delay`
/// milliseconds.
pub open spec fn delay_micros(delay: Option<int>) -> i64 {
    micros_of(not_below_zero(delay)) as i64
}

// ── notes ───────────────────────────────────────────────────────────────

/// `+12 ms`: the milliseconds of a jitter above zero, to the nearest.
pub open spec fn jitter_note(jitter: Option<int>) -> Seq<char> {
    "+"@ + decimal(whole_of(not_below_zero(jitter) as nat) as nat) + " ms"@
}

/// What the log says of a frame that was corrupted, or delayed, or both.
pub open spec fn fault_note(corrupt: bool, jitter: Option<int>) -> Option<Seq<char>> {
    let delayed = not_below_zero(jitter) > 0;
    if corrupt && delayed {
        Some("corrupted"@ + " · "@ + jitter_note(jitter))
    } else if corrupt {
        Some("corrupted"@)
    } else if delayed {
        Some(jitter_note(jitter))
    } else {
        None
    }
}

fn note_of(corrupt: bool, jitter: Double) -> (r: Option<String>)
    ensures
        maybe_text(r) == fault_note(corrupt, jitter.value()),
{
    let delayed = jitter.is_positive();
    if !corrupt && !delayed {
        return None;
    }
    let mut note: String = String::new();
    if corrupt {
        note.append("corrupted");
        if delayed {
            note.append(" · ");
        }
    }
    if delayed {
        let ms: i64 = jitter.to_nearest();
        note.append("+");
        append_decimal(&mut note, ms as u64);
        note.append(" ms");
    }
    assert(note@ =~= fault_note(corrupt, jitter.value())->0);
    Some(note)
}

// ── shuffling ───────────────────────────────────────────────────────────

/// `batch` with the items at `i` and `j` swapped.
pub open spec fn swapped<A>(batch: Seq<A>, i: int, j: int) -> Seq<A> {
    batch.update(i, batch[j]).update(j, batch[i])
}

/// The place, up to `i`, that `draw` falls on: the part of `i` + 1 that it picks,
/// each step to the nearest double.
pub open spec fn shuffle_place(i: int, draw: u32) -> int {
    let places = not_below_zero(sum(Some(number(i as nat)), Some(number(1))));
    let j = floor_of(part(places, draw));
    if j < i {
        j
    } else {
        i
    }
}

/// `batch` shuffled from `i` down: each item swaps with one that is not behind
/// it, at the place that the next draw falls on.
pub open spec fn shuffled<A>(batch: Seq<A>, i: int, rng: u32) -> Seq<A>
    decreases i,
{
    if i <= 0 {
        batch
    } else {
        shuffled(swapped(batch, i, shuffle_place(i, drawn(rng))), i - 1, stepped(rng))
    }
}

/// The state of the generator after `n` draws.
pub open spec fn after_draws(rng: u32, n: int) -> u32
    decreases n,
{
    if n <= 0 {
        rng
    } else {
        after_draws(stepped(rng), n - 1)
    }
}

pub proof fn lemma_shuffle_place(i: int, draw: u32)
    requires
        0 <= i,
    ensures
        0 <= shuffle_place(i, draw) <= i,
{
    lemma_floor_of(part(not_below_zero(sum(Some(number(i as nat)), Some(number(1)))), draw));
}

proof fn lemma_swap_keeps_items<A>(batch: Seq<A>, i: int, j: int)
    requires
        0 <= i < batch.len(),
        0 <= j < batch.len(),
    ensures
        swapped(batch, i, j).to_multiset() == batch.to_multiset(),
        swapped(batch, i, j).len() == batch.len(),
{
    broadcast use vstd::seq_lib::group_to_multiset_ensures;

    let once = batch.update(i, batch[j]);
    let twice = once.update(j, batch[i]);
    if i != j {
        vstd::seq_lib::to_multiset_update(batch, i, batch[j]);
        vstd::seq_lib::to_multiset_update(once, j, batch[i]);
        let m = batch.to_multiset();
        assert(m.contains(batch[i]));
        assert(twice.to_multiset() =~= m);
    } else {
        assert(twice =~= batch);
    }
}

/// A shuffle loses nothing and invents nothing: what comes out is a permutation
/// of what went in.
pub proof fn law_reordering_is_a_permutation<A>(batch: Seq<A>, i: int, rng: u32)
    requires
        i < batch.len(),
    ensures
        shuffled(batch, i, rng).to_multiset() == batch.to_multiset(),
        shuffled(batch, i, rng).len() == batch.len(),
    decreases i,
{
    if i > 0 {
        let j = shuffle_place(i, drawn(rng));
        lemma_shuffle_place(i, drawn(rng));
        lemma_swap_keeps_items(batch, i, j);
        law_reordering_is_a_permutation(swapped(batch, i, j), i - 1, stepped(rng));
    }
}

// ── the channel ─────────────────────────────────────────────────────────

impl ChannelView {
    /// The fresh channel between `client` and `server`.
    pub open spec fn fresh(client: Seq<char>, server: Seq<char>) -> ChannelView {
        ChannelView {
            tap: TapView { counter: 0, frames: Seq::empty() },
            client,
            server,
            faults: FaultSpec::none(),
            latency_ms: Double { bits: 0 },
            held: Seq::empty(),
            flush_pending: false,
        }
    }

    /// With a frame in `dir` on the tap.
    pub open spec fn recorded(self, dir: Direction, bytes: Seq<u8>, now: Option<int>, fault: Option<Seq<char>>) -> ChannelView {
        let tap = match dir {
            Direction::Request => self.tap.recorded(self.client, self.server, bytes, now, FrameKind::Request, fault),
            Direction::Response => self.tap.recorded(
                self.server,
                self.client,
                bytes,
                now,
                FrameKind::Response,
                fault,
            ),
        };
        ChannelView { tap, ..self }
    }

    /// With the reorder buffer empty and no flush pending.
    pub open spec fn flushed(self) -> ChannelView {
        ChannelView { held: Seq::empty(), flush_pending: false, ..self }
    }

    /// The held frames, in the order in which a flush releases them.
    pub open spec fn released(self, rng: u32) -> Seq<Seq<u8>> {
        shuffled(self.held, self.held.len() - 1, rng)
    }

    /// The state of the generator after a flush: one draw for every held frame
    /// but the first.
    pub open spec fn flush_state(self, rng: u32) -> u32 {
        after_draws(rng, self.held.len() - 1)
    }

    /// Whether a frame in `dir` is exempt from all faults but a partition:
    /// handshakes, and what the fault spec does not act on.
    pub open spec fn exempt(self, dir: Direction, bytes: Seq<u8>) -> bool {
        looks_like_handshake(bytes) || !self.faults.covers(dir)
    }

    /// Whether a frame is corrupted, by the draw in `rng`.
    pub open spec fn corrupts(self, rng: u32) -> bool {
        self.faults.corrupt_prob.exceeds_draw(drawn(rng))
    }

    /// What goes out of `bytes` when the corruption roll is due from `rng`, with
    /// the state after it.
    pub open spec fn passed_on(self, bytes: Seq<u8>, rng: u32) -> (Seq<u8>, u32) {
        if !self.faults.corrupt_prob.positive() {
            (bytes, rng)
        } else if self.corrupts(rng) {
            (corrupted(bytes, drawn(stepped(rng))), corruption_state(bytes, stepped(rng)))
        } else {
            (bytes, stepped(rng))
        }
    }

    /// What a send of a frame in `dir` leaves.
    pub open spec fn sent(self, dir: Direction, bytes: Seq<u8>, now: Option<int>, rng: u32) -> Sent {
        if self.faults.partition {
            Sent { channel: self.recorded(dir, bytes, now, Some("dropped · partition"@)), rng, fate: Fate::Dropped }
        } else if self.exempt(dir, bytes) {
            Sent {
                channel: self.recorded(dir, bytes, now, None),
                rng,
                fate: Fate::Deliver { frames: seq![bytes], delay: self.latency_ms.value() },
            }
        } else if self.faults.drop_prob.exceeds_draw(drawn(rng)) {
            Sent {
                channel: self.recorded(dir, bytes, now, Some("dropped"@)),
                rng: stepped(rng),
                fate: Fate::Dropped,
            }
        } else {
            let corrupt = self.faults.corrupt_prob.positive() && self.corrupts(stepped(rng));
            let (out, rng2) = self.passed_on(bytes, stepped(rng));
            let jit = jitter(self.faults, drawn(rng2));
            let rng3 = jitter_state(self.faults, rng2);
            let logged = self.recorded(dir, out, now, fault_note(corrupt, jit));
            if self.faults.reorder_window == 0 {
                Sent {
                    channel: logged,
                    rng: rng3,
                    fate: Fate::Deliver { frames: seq![out], delay: delay_of(self.latency_ms, jit) },
                }
            } else {
                let full = ChannelView { held: self.held.push(out), ..logged };
                if full.held.len() >= self.faults.reorder_window {
                    Sent {
                        channel: full.flushed(),
                        rng: full.flush_state(rng3),
                        fate: Fate::Deliver { frames: full.released(rng3), delay: Some(0) },
                    }
                } else {
                    Sent {
                        channel: ChannelView { flush_pending: true, ..full },
                        rng: rng3,
                        fate: Fate::Buffered { schedule_flush: !self.flush_pending },
                    }
                }
            }
        }
    }
}

/// A partition cuts everything, handshakes included.
pub proof fn law_partition_drops_everything(c: ChannelView, dir: Direction, bytes: Seq<u8>, now: Option<int>, rng: u32)
    requires
        c.faults.partition,
    ensures
        c.sent(dir, bytes, now, rng).fate == Fate::Dropped,
        c.sent(dir, bytes, now, rng).rng == rng,
{
}

/// Every frame that is sent is recorded, whatever becomes of it.
pub proof fn law_every_frame_is_recorded(c: ChannelView, dir: Direction, bytes: Seq<u8>, now: Option<int>, rng: u32)
    ensures
        c.sent(dir, bytes, now, rng).channel.tap.frames.len() == c.tap.frames.len() + 1,
        c.sent(dir, bytes, now, rng).channel.tap.frames.drop_last() == c.tap.frames,
        c.sent(dir, bytes, now, rng).channel.tap.frames.last().at == now,
{
    assert(c.sent(dir, bytes, now, rng).channel.tap.frames.drop_last() =~= c.tap.frames);
}

/// Without faults a wire is a clean, ordered pass-through: the frame itself,
/// after the latency, with no note and no draw lost on delays or corruption.
pub proof fn law_clean_wire_passes_through(c: ChannelView, dir: Direction, bytes: Seq<u8>, now: Option<int>, rng: u32)
    requires
        !c.faults.active(),
    ensures
        c.sent(dir, bytes, now, rng).fate == (Fate::Deliver {
            frames: seq![bytes],
            delay: c.latency_ms.value(),
        }),
        c.sent(dir, bytes, now, rng).channel == c.recorded(dir, bytes, now, None),
{
    law_nothing_added(c.latency_ms);
}

impl Channel {
    pub fn new(client_name: String, server_name: String) -> (r: Self)
        ensures
            r@ == ChannelView::fresh(client_name@, server_name@),
    {
        let r = Channel {
            tap: Tap::new(),
            client_name,
            server_name,
            faults: FaultSpec::default(),
            latency_ms: Double { bits: 0 },
            reorder_buf: Vec::new(),
            flush_pending: false,
        };
        assert(r@.held =~= Seq::empty());
        r
    }

    /// The fault spec, mutable in place: a tweak takes effect on the next frame
    /// with no reconnect, exactly as the inspector expects.
    pub fn faults_mut(&mut self) -> (r: &mut FaultSpec)
        ensures
            *r == old(self)@.faults,
            final(self)@ == (ChannelView { faults: *final(r), ..old(self)@ }),
    {
        &mut self.faults
    }

    pub fn faults(&self) -> (r: &FaultSpec)
        ensures
            *r == self@.faults,
    {
        &self.faults
    }

    pub fn set_latency(&mut self, ms: Double)
        ensures
            final(self)@ == (ChannelView { latency_ms: ms.above_zero(), ..old(self)@ }),
    {
        self.latency_ms = ms.max_zero();
    }

    fn record(&mut self, dir: Direction, bytes: &[u8], now: Double, fault: Option<String>)
        ensures
            final(self)@ == old(self)@.recorded(dir, bytes@, now.value(), maybe_text(fault)),
    {
        match dir {
            Direction::Request => {
                self.tap.record(
                    self.client_name.as_str(),
                    self.server_name.as_str(),
                    bytes,
                    now,
                    FrameKind::Request,
                    fault,
                );
            },
            Direction::Response => {
                self.tap.record(
                    self.server_name.as_str(),
                    self.client_name.as_str(),
                    bytes,
                    now,
                    FrameKind::Response,
                    fault,
                );
            },
        }
    }

    /// Records a frame travelling in `dir` at clock time `now` and decides its
    /// fate against the fault spec. `rng` supplies the drop / corrupt / jitter
    /// rolls, in that order.
    pub fn send(&mut self, dir: Direction, bytes: &[u8], now: Double, rng: &mut Mulberry32) -> (r: SendOutcome)
        ensures
            final(self)@ == old(self)@.sent(dir, bytes@, now.value(), old(rng)@).channel,
            final(rng)@ == old(self)@.sent(dir, bytes@, now.value(), old(rng)@).rng,
            r@ == old(self)@.sent(dir, bytes@, now.value(), old(rng)@).fate,
    {
        let ghost before = self@;
        let ghost rng0 = rng@;
        // Partition cuts everything, handshakes included.
        if self.faults.partition {
            self.record(dir, bytes, now, Some("dropped · partition".to_owned()));
            return SendOutcome::Dropped;
        }
        // Handshakes and out-of-scope directions only see the latency knob.
        let is_handshake = classify(bytes) == FrameKind::Handshake;
        if is_handshake || !fault_applies_to(&self.faults, dir) {
            self.record(dir, bytes, now, None);
            return Self::deliver_one(copied(bytes), self.latency_ms);
        }
        if rng.chance(self.faults.drop_prob) {
            self.record(dir, bytes, now, Some("dropped".to_owned()));
            return SendOutcome::Dropped;
        }
        let mut out: Vec<u8> = copied(bytes);
        let mut corrupt: bool = false;
        if self.faults.corrupt_prob.is_positive() && rng.chance(self.faults.corrupt_prob) {
            out = corrupt_bytes(bytes, rng);
            corrupt = true;
        }
        assert((out@, rng@) == before.passed_on(bytes@, stepped(rng0)));
        let jit = jitter_millis(&self.faults, rng);
        self.record(dir, out.as_slice(), now, note_of(corrupt, jit));
        if self.faults.reorder_window > 0 {
            let ghost logged = self@;
            let ghost frame = out@;
            self.reorder_buf.push(out);
            assert(self@.held =~= before.held.push(frame));
            if self.reorder_buf.len() as u64 >= self.faults.reorder_window as u64 {
                let frames = self.flush_reorder(rng);
                return SendOutcome::Deliver { frames, delay_ms: Double::zero() };
            }
            let schedule_flush = !self.flush_pending;
            self.flush_pending = true;
            return SendOutcome::Buffered { schedule_flush };
        }
        Self::deliver_one(out, self.latency_ms.plus(jit))
    }

    fn deliver_one(bytes: Vec<u8>, delay_ms: Double) -> (r: SendOutcome)
        ensures
            r@ == (Fate::Deliver { frames: seq![bytes@], delay: delay_ms.value() }),
    {
        let ghost frame = bytes@;
        let mut frames: Vec<Vec<u8>> = Vec::new();
        frames.push(bytes);
        assert(views(frames@) =~= seq![frame]);
        SendOutcome::Deliver { frames, delay_ms }
    }

    /// Drains the reorder buffer, shuffled. Also fired by a flush timer: then
    /// the buffer may be empty and this returns nothing.
    pub fn flush_reorder(&mut self, rng: &mut Mulberry32) -> (r: Vec<Vec<u8>>)
        ensures
            views(r@) == old(self)@.released(old(rng)@),
            final(self)@ == old(self)@.flushed(),
            final(rng)@ == old(self)@.flush_state(old(rng)@),
    {
        let ghost before = self@;
        let ghost rng0 = rng@;
        let mut batch: Vec<Vec<u8>> = Vec::new();
        std::mem::swap(&mut batch, &mut self.reorder_buf);
        let mut i: usize = batch.len();
        while i > 1
            invariant
                i <= batch@.len(),
                views(batch@).len() == before.held.len(),
                shuffled(views(batch@), i - 1, rng@) == shuffled(before.held, before.held.len() - 1, rng0),
                after_draws(rng@, i - 1) == after_draws(rng0, before.held.len() - 1),
            decreases i,
        {
            i = i - 1;
            let draw: u32 = rng.next_u32();
            proof {
                lemma_shuffle_place(i as int, draw);
            }
            let places = Double::of_number(i as u64).plus(Double::of_number(1)).max_zero();
            let j: usize = places.part_at(draw).floor_up_to(i as u64) as usize;
            let ghost was = views(batch@);
            swap_frames(&mut batch, i, j);
            assert(views(batch@) =~= swapped(was, i as int, j as int));
        }
        self.flush_pending = false;
        assert(self@.held =~= Seq::empty());
        batch
    }
}

fn swap_frames(batch: &mut Vec<Vec<u8>>, i: usize, j: usize)
    requires
        j <= i < old(batch)@.len(),
    ensures
        final(batch)@ == swapped(old(batch)@, i as int, j as int),
{
    if i != j {
        let back: Vec<u8> = batch.remove(i);
        let front: Vec<u8> = batch.remove(j);
        batch.insert(j, back);
        batch.insert(i, front);
    }
    assert(batch@ =~= swapped(old(batch)@, i as int, j as int));
}

} // verus!
