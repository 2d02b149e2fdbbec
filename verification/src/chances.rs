//! What the faults of a wire come to: how often a roll succeeds, which frames are
//! lost, held, delayed or damaged, and by how much.

use vstd::arithmetic::div_mod::{
    lemma_div_multiples_vanish, lemma_fundamental_div_mod_converse, lemma_mod_multiples_vanish,
};
use vstd::arithmetic::mul::*;
use vstd::arithmetic::power2::{
    lemma2_to64, lemma2_to64_rest, lemma_pow2_adds, lemma_pow2_pos, pow2,
};
use vstd::prelude::*;
use crate::arith::{
    floor_of, half_of, law_whole_numbers, lemma_not_rounded, lemma_sum_not_rounded, negated, not_below_zero, number,
    part, sum,
};
use crate::double::{whole_of, Double};
use crate::faults::{
    corrupted, flip_place, law_corruption_flips_one_byte, Direction, FaultDir, FaultSpec,
};
use crate::frame::{FrameKind, FrameView};
use crate::rng::{drawn, product32, stepped};
use crate::text::decimal;
use crate::wire::{
    after_draws, delay_of, fault_note, jitter, jitter_state, law_every_frame_is_recorded,
    law_reordering_is_a_permutation, lemma_shuffle_place, shuffle_place, shuffled, swapped, ChannelView, Fate,
};

verus! {

// ── rolls ───────────────────────────────────────────────────────────────

/// A roll at probability `p` succeeds exactly when the draw, a count of 2^-32, is
/// below `p`: `draw` / 2^32 < `p`, as real numbers.
pub proof fn law_a_roll_succeeds_below_its_probability(p: Double, draw: u32)
    requires
        !p.is_nan(),
    ensures
        p.exceeds_draw(draw) <==> draw * pow2(1074) < p.scaled() * pow2(32),
{
    lemma_pow2_pos(32);
    lemma_pow2_pos(1042);
    lemma_pow2_adds(1042, 32);
    let x = draw * pow2(1042);
    lemma_mul_is_associative(draw as int, pow2(1042) as int, pow2(32) as int);
    if x < p.scaled() {
        lemma_mul_strict_inequality(x, p.scaled(), pow2(32) as int);
    } else {
        lemma_mul_inequality(p.scaled(), x, pow2(32) as int);
    }
    lemma_mul_nonnegative(draw as int, pow2(1042) as int);
}

/// At probability `k` / 2^32 the `k` lowest of the 2^32 draws succeed, and no others.
pub proof fn law_a_probability_counts_its_draws(p: Double, k: nat, draw: u32)
    requires
        !p.is_nan(),
        p.scaled() * pow2(32) == k * pow2(1074),
    ensures
        p.exceeds_draw(draw) <==> draw < k,
{
    law_a_roll_succeeds_below_its_probability(p, draw);
    lemma_pow2_pos(1074);
    if draw < k {
        lemma_mul_strict_inequality(draw as int, k as int, pow2(1074) as int);
    } else {
        lemma_mul_inequality(k as int, draw as int, pow2(1074) as int);
    }
}

/// A higher probability succeeds wherever a lower one does.
pub proof fn law_higher_probabilities_succeed_more_often(p: Double, q: Double, draw: u32)
    requires
        !p.is_nan(),
        !q.is_nan(),
        p.scaled() <= q.scaled(),
        p.exceeds_draw(draw),
    ensures
        q.exceeds_draw(draw),
{
}

// ── places ──────────────────────────────────────────────────────────────

/// A frame of no more than 2^20 bytes is damaged where the draw falls in its back
/// half: at `len` / 2 + `len` / 2 * `draw` / 2^32, as real numbers, rounded down.
pub proof fn law_the_draw_picks_the_damaged_byte(len: nat, draw: u32)
    requires
        0 < len <= 0x10_0000,
    ensures
        flip_place(len, draw) == len * (0x1_0000_0000 + draw) / 0x2_0000_0000,
        len / 2 <= flip_place(len, draw) < len,
{
    let unit = pow2(1041);
    lemma2_to64();
    lemma2_to64_rest();
    lemma_pow2_pos(1041);
    lemma_pow2_adds(32, 1041);
    lemma_pow2_adds(33, 1041);
    let h = len * pow2(1073);
    assert(h * 1 == h);
    lemma_not_rounded(h, 1, len, 1073);
    assert(half_of(len) == h);
    let m = (len * draw) as nat;
    assert(0 <= len * draw <= 0x10_0000 * 0x1_0000_0000) by (nonlinear_arith)
        requires
            0 < len <= 0x10_0000,
            0 <= draw < 0x1_0000_0000,
    ;
    assert(h * draw == m * unit * 0x1_0000_0000) by (nonlinear_arith)
        requires
            h == len * pow2(1073),
            pow2(1073) == 0x1_0000_0000 * unit,
            m == len * draw,
    ;
    lemma_not_rounded((h * draw) as nat, 0x1_0000_0000, m, 1041);
    assert(part(h as int, draw) == Some((m * unit) as int));
    let all = (len * (0x1_0000_0000 + draw)) as nat;
    assert(h + m * unit == all * unit) by (nonlinear_arith)
        requires
            h == len * pow2(1073),
            pow2(1073) == 0x1_0000_0000 * unit,
            m == len * draw,
            all == len * (0x1_0000_0000 + draw),
    ;
    assert(all <= 0x10_0000 * 0x2_0000_0000) by (nonlinear_arith)
        requires
            all == len * (0x1_0000_0000 + draw),
            0 < len <= 0x10_0000,
            0 <= draw < 0x1_0000_0000,
    ;
    lemma_mul_nonnegative(m as int, unit as int);
    lemma_sum_not_rounded(h, m * unit, all, 1041);
    lemma_mul_nonnegative(all as int, unit as int);
    lemma_floor_quotient(all, unit, 0x2_0000_0000);
    assert(len * 0x1_0000_0000 <= all < len * 0x2_0000_0000) by (nonlinear_arith)
        requires
            all == len * (0x1_0000_0000 + draw),
            0 < len,
            0 <= draw < 0x1_0000_0000,
    ;
    let q = all / 0x2_0000_0000;
    assert(len / 2 <= q < len);
}

/// Dividing both by the same changes no quotient.
proof fn lemma_floor_quotient(n: nat, unit: nat, d: nat)
    requires
        unit > 0,
        d > 0,
    ensures
        (n * unit) as int / ((d * unit) as int) == n as int / (d as int),
{
    vstd::arithmetic::div_mod::lemma_truncate_middle(n as int, d as int, unit as int);
    vstd::arithmetic::div_mod::lemma_div_denominator((n * unit) as int, unit as int, d as int);
    lemma_div_multiples_vanish(n as int, unit as int);
    lemma_mul_is_commutative(n as int, unit as int);
    lemma_mul_is_commutative(d as int, unit as int);
    lemma_mul_nonnegative(n as int, unit as int);
}

/// In a batch of no more than 2^20 frames the one at `i` swaps with the one that the
/// draw falls on among the first `i` + 1: at (`i` + 1) * `draw` / 2^32, rounded down.
pub proof fn law_the_draw_picks_the_swapped_frame(i: int, draw: u32)
    requires
        0 <= i < 0x10_0000,
    ensures
        shuffle_place(i, draw) == (i + 1) * draw / 0x1_0000_0000,
        0 <= shuffle_place(i, draw) <= i,
{
    let unit = pow2(1042);
    lemma2_to64();
    lemma2_to64_rest();
    lemma_pow2_pos(1042);
    lemma_pow2_pos(1074);
    lemma_pow2_adds(32, 1042);
    law_whole_numbers(i as nat);
    law_whole_numbers(1);
    let n = (i + 1) as nat;
    lemma_mul_is_distributive_add_other_way(pow2(1074) as int, i, 1);
    lemma_mul_nonnegative(i, pow2(1074) as int);
    lemma_sum_not_rounded((i * pow2(1074)) as nat, pow2(1074), n, 1074);
    let places = n * pow2(1074);
    assert(not_below_zero(sum(Some(number(i as nat)), Some(number(1)))) == places) by {
        lemma_mul_strictly_positive(n as int, pow2(1074) as int);
    }
    let m = (n * draw) as nat;
    assert(0 <= n * draw < n * 0x1_0000_0000 && n * draw <= 0x10_0000 * 0x1_0000_0000) by (nonlinear_arith)
        requires
            0 < n <= 0x10_0000,
            0 <= draw < 0x1_0000_0000,
    ;
    assert(places * draw == m * unit * 0x1_0000_0000) by (nonlinear_arith)
        requires
            places == n * pow2(1074),
            pow2(1074) == 0x1_0000_0000 * unit,
            m == n * draw,
    ;
    lemma_not_rounded((places * draw) as nat, 0x1_0000_0000, m, 1042);
    assert(part(places as int, draw) == Some((m * unit) as int));
    lemma_mul_nonnegative(m as int, unit as int);
    lemma_floor_quotient(m, unit, 0x1_0000_0000);
    assert(floor_of(part(places as int, draw)) == m as int / 0x1_0000_0000);
    assert(m / 0x1_0000_0000 < n);
}

// ── delays ──────────────────────────────────────────────────────────────

/// Between the whole milliseconds `a` and `b` the draw picks the jitter evenly: `a` +
/// (`b` - `a`) * `draw` / 2^32, as real numbers. A frame is late by the latency and
/// that.
pub proof fn law_the_draw_picks_the_jitter(f: FaultSpec, latency: Double, a: nat, b: nat, l: nat, draw: u32)
    requires
        a <= b <= 0x8_0000,
        l <= 0x8_0000,
        b > 0,
        f.delay_min.value() == Some((a * pow2(1074)) as int),
        f.delay_max.value() == Some((b * pow2(1074)) as int),
        latency.value() == Some((l * pow2(1074)) as int),
    ensures
        jitter(f, draw) matches Some(j) && j * pow2(32) == (a * pow2(32) + (b - a) * draw) * pow2(1074),
        delay_of(latency, jitter(f, draw)) matches Some(d) && d * pow2(32) == (l * pow2(32) + a * pow2(32) + (b - a)
            * draw) * pow2(1074),
{
    let unit = pow2(1042);
    let ms = pow2(1074);
    lemma2_to64();
    lemma2_to64_rest();
    lemma_pow2_pos(1042);
    lemma_pow2_pos(1074);
    lemma_pow2_pos(2098);
    lemma_pow2_adds(32, 1042);
    lemma_mul_strictly_positive(b as int, ms as int);
    lemma_mul_nonnegative(a as int, ms as int);
    let range = (b - a) as nat;
    lemma_mul_is_distributive_sub_other_way(ms as int, b as int, a as int);
    lemma_mul_nonnegative(range as int, ms as int);
    assert(range * ms * 1 == range * ms);
    lemma_not_rounded(range * ms, 1, range, 1074);
    assert(b * ms * 1 == b * ms);
    lemma_not_rounded(b * ms, 1, b, 1074);
    assert(a * ms * 1 == a * ms);
    lemma_not_rounded(a * ms, 1, a, 1074);
    assert(sum(f.delay_max.value(), negated(f.delay_min.value())) == Some((range * ms) as int));
    let m = (range * draw) as nat;
    assert(0 <= range * draw <= range * 0x1_0000_0000) by (nonlinear_arith)
        requires
            0 <= range,
            0 <= draw < 0x1_0000_0000,
    ;
    assert(range * ms * draw == m * unit * 0x1_0000_0000) by (nonlinear_arith)
        requires
            ms == 0x1_0000_0000 * unit,
            m == range * draw,
    ;
    lemma_not_rounded((range * ms * draw) as nat, 0x1_0000_0000, m, 1042);
    assert(part((range * ms) as int, draw) == Some((m * unit) as int));
    let all = (a * 0x1_0000_0000 + m) as nat;
    assert(a * ms + m * unit == all * unit) by (nonlinear_arith)
        requires
            ms == 0x1_0000_0000 * unit,
            all == a * 0x1_0000_0000 + m,
    ;
    lemma_mul_nonnegative(m as int, unit as int);
    lemma_sum_not_rounded(a * ms, m * unit, all, 1042);
    assert(jitter(f, draw) == Some((all * unit) as int));
    let late = (l * 0x1_0000_0000 + all) as nat;
    assert(l * ms + all * unit == late * unit) by (nonlinear_arith)
        requires
            ms == 0x1_0000_0000 * unit,
            late == l * 0x1_0000_0000 + all,
    ;
    lemma_mul_nonnegative(l as int, ms as int);
    lemma_mul_nonnegative(all as int, unit as int);
    lemma_sum_not_rounded(l * ms, all * unit, late, 1042);
    assert(all * unit * pow2(32) == all * ms) by (nonlinear_arith)
        requires
            ms == 0x1_0000_0000 * unit,
            pow2(32) == 0x1_0000_0000,
    ;
    assert(late * unit * pow2(32) == late * ms) by (nonlinear_arith)
        requires
            ms == 0x1_0000_0000 * unit,
            pow2(32) == 0x1_0000_0000,
    ;
}

/// A wire that has no upper delay set delays by its latency alone.
pub proof fn law_no_jitter_without_an_upper_delay(f: FaultSpec, draw: u32)
    requires
        f.delay_max.is_nan() || f.delay_max.scaled() <= 0,
    ensures
        jitter(f, draw) == Some(0int),
{
}

/// The generator steps by 0x6d2b79f5 from draw to draw, round 2^32.
pub proof fn law_the_generator_steps_evenly(rng: u32, n: nat)
    ensures
        after_draws(rng, n as int) == (rng + n * 0x6d2b_79f5) % 0x1_0000_0000,
    decreases n,
{
    if n > 0 {
        let gamma: int = 0x6d2b_79f5;
        let all: int = 0x1_0000_0000;
        let next = stepped(rng);
        let q = (rng + gamma) / all;
        law_the_generator_steps_evenly(next, (n - 1) as nat);
        assert(rng + gamma == all * q + next);
        assert(n * gamma == (n - 1) * gamma + gamma) by (nonlinear_arith);
        lemma_mod_multiples_vanish(q, next + (n - 1) * gamma, all);
    }
}

/// A draw is the next state of the generator, scrambled: multiplied by itself with its
/// lowest bit set, after its upper bits were folded in; that again, with other bits set
/// and folded, added and folded in; and the upper bits of the outcome folded in once
/// more. All in 32 bits.
pub proof fn law_a_draw_scrambles_the_next_state(rng: u32)
    ensures
        ({
            let s = ((rng + 0x6d2b_79f5) % 0x1_0000_0000) as u32;
            let t = (((s ^ (s >> 15)) * (s | 1u32)) % 0x1_0000_0000) as u32;
            let w = (((t ^ (t >> 7)) * (t | 61u32)) % 0x1_0000_0000) as u32;
            let u = (((t + w) % 0x1_0000_0000) as u32) ^ t;
            &&& stepped(rng) == s
            &&& drawn(rng) == u ^ (u >> 14)
        }),
{
    let s = stepped(rng);
    assert(1u32 | s == s | 1u32) by (bit_vector);
    let t = product32(s ^ (s >> 15), 1u32 | s);
    assert(61u32 | t == t | 61u32) by (bit_vector);
}

// ── what becomes of a frame ─────────────────────────────────────────────

/// Whether faults other than a partition act on a frame: on everything but handshakes
/// (31 bytes that start with `CO`), in the directions that they are set for.
pub open spec fn exposed(f: FaultSpec, dir: Direction, bytes: Seq<u8>) -> bool {
    &&& !(bytes.len() == 31 && bytes[0] == 0x43 && bytes[1] == 0x4f)
    &&& f.apply_to == FaultDir::Both || (f.apply_to == FaultDir::Requests && dir == Direction::Request) || (
    f.apply_to == FaultDir::Responses && dir == Direction::Response)
}

/// Whether a roll at `p` succeeds on `draw`: `draw` / 2^32 < `p`, as real numbers.
pub open spec fn rolls(p: Double, draw: u32) -> bool {
    !p.is_nan() && draw * pow2(1074) < p.scaled() * pow2(32)
}

/// Whether `out` is `bytes` with one byte flipped, in the back half.
pub open spec fn damaged(out: Seq<u8>, bytes: Seq<u8>) -> bool {
    &&& out.len() == bytes.len()
    &&& exists|i: int|
        bytes.len() / 2 <= i < bytes.len() && #[trigger] out[i] + bytes[i] == 0xff && forall|k: int|
            0 <= k < bytes.len() && k != i ==> #[trigger] out[k] == bytes[k]
}

/// The frame on the tap that a send leaves there.
pub open spec fn logged(c: ChannelView, dir: Direction, bytes: Seq<u8>, now: Option<int>, rng: u32) -> FrameView {
    c.sent(dir, bytes, now, rng).channel.tap.frames.last()
}

proof fn lemma_exposed(c: ChannelView, dir: Direction, bytes: Seq<u8>)
    ensures
        exposed(c.faults, dir, bytes) == !c.exempt(dir, bytes),
{
}

proof fn lemma_rolls(p: Double, draw: u32)
    ensures
        rolls(p, draw) == p.exceeds_draw(draw),
        rolls(p, draw) ==> p.positive(),
{
    if !p.is_nan() {
        law_a_roll_succeeds_below_its_probability(p, draw);
    }
}

/// A frame that faults act on is lost exactly when the first draw falls below the
/// probability of a loss. Nothing else is lost on a wire that is not cut.
pub proof fn law_frames_are_lost_by_the_first_draw(
    c: ChannelView,
    dir: Direction,
    bytes: Seq<u8>,
    now: Option<int>,
    rng: u32,
)
    requires
        !c.faults.partition,
    ensures
        c.sent(dir, bytes, now, rng).fate is Dropped <==> exposed(c.faults, dir, bytes) && rolls(
            c.faults.drop_prob,
            drawn(rng),
        ),
        !exposed(c.faults, dir, bytes) ==> {
            &&& c.sent(dir, bytes, now, rng).fate == (Fate::Deliver { frames: seq![bytes], delay: c.latency_ms.value() })
            &&& c.sent(dir, bytes, now, rng).rng == rng
            &&& logged(c, dir, bytes, now, rng).fault is None
        },
{
    lemma_exposed(c, dir, bytes);
    lemma_rolls(c.faults.drop_prob, drawn(rng));
}

/// What is on the tap of a send: one frame more, behind those that were there, under the
/// next number, between the two ends in the direction that it travels, at the time of
/// the send.
pub proof fn law_a_send_is_logged(c: ChannelView, dir: Direction, bytes: Seq<u8>, now: Option<int>, rng: u32)
    ensures
        c.sent(dir, bytes, now, rng).channel.tap.frames == c.tap.frames.push(logged(c, dir, bytes, now, rng)),
        c.sent(dir, bytes, now, rng).channel.tap.counter == logged(c, dir, bytes, now, rng).seq,
        c.tap.counter < u32::MAX ==> logged(c, dir, bytes, now, rng).seq == c.tap.counter + 1,
        logged(c, dir, bytes, now, rng).at == now,
        dir == Direction::Request ==> logged(c, dir, bytes, now, rng).from == c.client && logged(
            c,
            dir,
            bytes,
            now,
            rng,
        ).to == c.server,
        dir == Direction::Response ==> logged(c, dir, bytes, now, rng).from == c.server && logged(
            c,
            dir,
            bytes,
            now,
            rng,
        ).to == c.client,
{
    law_every_frame_is_recorded(c, dir, bytes, now, rng);
    let frames = c.sent(dir, bytes, now, rng).channel.tap.frames;
    assert(frames =~= c.tap.frames.push(frames.last()));
}

/// A handshake is logged as one, and as it is; any other frame by its direction.
pub proof fn law_the_log_tells_handshakes_apart(
    c: ChannelView,
    dir: Direction,
    bytes: Seq<u8>,
    now: Option<int>,
    rng: u32,
)
    requires
        bytes.len() == 31 && bytes[0] == 0x43 && bytes[1] == 0x4f,
    ensures
        logged(c, dir, bytes, now, rng).kind == FrameKind::Handshake,
        logged(c, dir, bytes, now, rng).bytes == bytes,
        c.sent(dir, bytes, now, rng).fate is Dropped <==> c.faults.partition,
{
}

/// A frame that is no handshake is logged by its direction, where what goes out of it is
/// no handshake either.
pub proof fn law_the_log_tells_requests_from_responses(
    c: ChannelView,
    dir: Direction,
    bytes: Seq<u8>,
    now: Option<int>,
    rng: u32,
)
    requires
        bytes.len() != 31,
    ensures
        dir == Direction::Request ==> logged(c, dir, bytes, now, rng).kind == FrameKind::Request,
        dir == Direction::Response ==> logged(c, dir, bytes, now, rng).kind == FrameKind::Response,
        logged(c, dir, bytes, now, rng).bytes.len() == bytes.len(),
{
    let draw = drawn(stepped(stepped(rng)));
    if bytes.len() > 0 {
        law_corruption_flips_one_byte(bytes, draw);
    }
}

/// A frame that faults act on and that is not lost is damaged exactly when there is a
/// probability of damage and the second draw falls below it: then one byte in its back
/// half is flipped, the place by the third draw. What goes out is what is on the tap.
pub proof fn law_frames_are_damaged_by_the_second_draw(
    c: ChannelView,
    dir: Direction,
    bytes: Seq<u8>,
    now: Option<int>,
    rng: u32,
)
    requires
        !c.faults.partition,
        exposed(c.faults, dir, bytes),
        !rolls(c.faults.drop_prob, drawn(rng)),
        0 < bytes.len() <= 0x10_0000,
    ensures
        ({
            let out = logged(c, dir, bytes, now, rng).bytes;
            let hit = rolls(c.faults.corrupt_prob, drawn(stepped(rng)));
            let place = bytes.len() * (0x1_0000_0000 + drawn(stepped(stepped(rng)))) / 0x2_0000_0000;
            &&& hit ==> damaged(out, bytes) && out[place as int] != bytes[place as int]
            &&& !hit ==> out == bytes
            &&& c.faults.reorder_window == 0 ==> (c.sent(dir, bytes, now, rng).fate matches Fate::Deliver {
                frames,
                ..
            } && frames == seq![out])
        }),
{
    lemma_exposed(c, dir, bytes);
    lemma_rolls(c.faults.drop_prob, drawn(rng));
    lemma_rolls(c.faults.corrupt_prob, drawn(stepped(rng)));
    let draw = drawn(stepped(stepped(rng)));
    let i = flip_place(bytes.len(), draw);
    law_corruption_flips_one_byte(bytes, draw);
    law_the_draw_picks_the_damaged_byte(bytes.len(), draw);
    let out = corrupted(bytes, draw);
    let b = bytes[i];
    assert((b ^ 0xffu8) + b == 0xff) by (bit_vector);
    assert(out[i] + bytes[i] == 0xff);
    assert(damaged(out, bytes));
}

/// How many draws a frame takes that faults act on: one for the loss; where it is not
/// lost, one for the damage and one for its place, and one for the jitter, where there
/// are such faults; and where the batch is full, one for every frame in it but the
/// first. A frame that they do not act on takes none.
pub proof fn law_a_send_takes_its_draws(c: ChannelView, dir: Direction, bytes: Seq<u8>, now: Option<int>, rng: u32)
    requires
        !c.faults.partition,
        bytes.len() > 0,
    ensures
        ({
            let f = c.faults;
            let damage: int = if f.corrupt_prob.is_nan() || f.corrupt_prob.scaled() <= 0 {
                0
            } else if rolls(f.corrupt_prob, drawn(stepped(rng))) {
                2
            } else {
                1
            };
            let jitter: int = if f.delay_max.is_nan() || f.delay_max.scaled() <= 0 {
                0
            } else {
                1
            };
            let batch: int = if f.reorder_window > 0 && c.held.len() + 1 >= f.reorder_window {
                c.held.len() as int
            } else {
                0
            };
            let draws: int = if !exposed(f, dir, bytes) {
                0
            } else if rolls(f.drop_prob, drawn(rng)) {
                1
            } else {
                1 + damage + jitter + batch
            };
            c.sent(dir, bytes, now, rng).rng == after_draws(rng, draws)
        }),
{
    lemma_exposed(c, dir, bytes);
    lemma_rolls(c.faults.drop_prob, drawn(rng));
    lemma_rolls(c.faults.corrupt_prob, drawn(stepped(rng)));
    reveal_with_fuel(after_draws, 5);
    let n = c.held.len() as int;
    lemma_more_draws(rng, 1, n);
    lemma_more_draws(rng, 2, n);
    lemma_more_draws(rng, 3, n);
    lemma_more_draws(rng, 4, n);
}

proof fn lemma_more_draws(rng: u32, n: int, m: int)
    requires
        0 <= n,
        0 <= m,
    ensures
        after_draws(rng, n + m) == after_draws(after_draws(rng, n), m),
    decreases n,
{
    if n > 0 {
        lemma_more_draws(stepped(rng), n - 1, m);
    }
}

// ── batches ─────────────────────────────────────────────────────────────

/// Where frames are reordered, one that is neither lost nor exempt is held until there
/// are as many as the window takes. The first to be held asks for a flush.
pub proof fn law_a_batch_is_held_until_it_is_full(
    c: ChannelView,
    dir: Direction,
    bytes: Seq<u8>,
    now: Option<int>,
    rng: u32,
)
    requires
        !c.faults.partition,
        exposed(c.faults, dir, bytes),
        !rolls(c.faults.drop_prob, drawn(rng)),
        0 < c.held.len() + 1 < c.faults.reorder_window,
    ensures
        c.sent(dir, bytes, now, rng).fate == (Fate::Buffered { schedule_flush: !c.flush_pending }),
        c.sent(dir, bytes, now, rng).channel.held == c.held.push(logged(c, dir, bytes, now, rng).bytes),
        c.sent(dir, bytes, now, rng).channel.flush_pending,
{
    lemma_exposed(c, dir, bytes);
    lemma_rolls(c.faults.drop_prob, drawn(rng));
}

/// A batch that is full goes out at once: all that was held and the frame that filled
/// it, each once, in some order. Nothing is held then, and no flush is waited for.
pub proof fn law_a_full_batch_goes_out(c: ChannelView, dir: Direction, bytes: Seq<u8>, now: Option<int>, rng: u32)
    requires
        !c.faults.partition,
        exposed(c.faults, dir, bytes),
        !rolls(c.faults.drop_prob, drawn(rng)),
        c.faults.reorder_window > 0,
        c.held.len() + 1 >= c.faults.reorder_window,
    ensures
        ({
            let sent = c.sent(dir, bytes, now, rng);
            &&& sent.fate is Deliver
            &&& sent.fate->delay == Some(0int)
            &&& sent.fate->frames.to_multiset() == c.held.push(logged(c, dir, bytes, now, rng).bytes).to_multiset()
            &&& sent.channel.held.len() == 0
            &&& !sent.channel.flush_pending
        }),
{
    lemma_exposed(c, dir, bytes);
    lemma_rolls(c.faults.drop_prob, drawn(rng));
    let (out, rng2) = c.passed_on(bytes, stepped(rng));
    let rng3 = jitter_state(c.faults, rng2);
    let held = c.held.push(out);
    law_reordering_is_a_permutation(held, held.len() - 1, rng3);
    assert(c.sent(dir, bytes, now, rng).fate->frames == shuffled(held, held.len() - 1, rng3));
}

/// A flush lets go of all that is held, each frame once, and waits for no other.
pub proof fn law_a_flush_lets_go_of_all(c: ChannelView, rng: u32)
    ensures
        c.released(rng).to_multiset() == c.held.to_multiset(),
        c.flushed().held.len() == 0,
        !c.flushed().flush_pending,
        c.flushed().tap == c.tap,
        c.flushed().faults == c.faults,
        c.flushed().latency_ms == c.latency_ms,
{
    if c.held.len() > 0 {
        law_reordering_is_a_permutation(c.held, c.held.len() - 1, rng);
    }
}

proof fn lemma_behind_stays<A>(batch: Seq<A>, i: int, rng: u32, k: int)
    requires
        i < k < batch.len(),
    ensures
        shuffled(batch, i, rng)[k] == batch[k],
        shuffled(batch, i, rng).len() == batch.len(),
    decreases i,
{
    if i > 0 {
        let j = shuffle_place(i, drawn(rng));
        lemma_shuffle_place(i, drawn(rng));
        lemma_behind_stays(swapped(batch, i, j), i - 1, stepped(rng), k);
    }
}

/// What stands last after a shuffle is what the first draw fell on, and what stood last
/// takes its place in the shuffle of the rest, by the draws that follow.
pub proof fn law_the_draw_places_the_last_frame<A>(batch: Seq<A>, rng: u32)
    requires
        1 < batch.len() < 0x10_0000,
    ensures
        ({
            let n = batch.len() as int;
            let place = n * drawn(rng) / 0x1_0000_0000;
            &&& 0 <= place < n
            &&& shuffled(batch, n - 1, rng)[n - 1] == batch[place]
            &&& shuffled(batch, n - 1, rng) == shuffled(
                batch.update(n - 1, batch[place]).update(place, batch[n - 1]),
                n - 2,
                stepped(rng),
            )
        }),
{
    let n = batch.len() as int;
    let j = shuffle_place(n - 1, drawn(rng));
    law_the_draw_picks_the_swapped_frame(n - 1, drawn(rng));
    let next = swapped(batch, n - 1, j);
    lemma_behind_stays(next, n - 2, stepped(rng), n - 1);
}

/// A frame that is neither lost nor damaged nor held goes out late by its latency and by
/// what the next draw picks between the two delays.
pub proof fn law_a_frame_is_late_by_its_draw(c: ChannelView, dir: Direction, bytes: Seq<u8>, now: Option<int>, rng: u32)
    requires
        !c.faults.partition,
        exposed(c.faults, dir, bytes),
        !rolls(c.faults.drop_prob, drawn(rng)),
        c.faults.corrupt_prob.is_nan() || c.faults.corrupt_prob.scaled() <= 0,
        c.faults.reorder_window == 0,
    ensures
        c.sent(dir, bytes, now, rng).fate == (Fate::Deliver {
            frames: seq![bytes],
            delay: delay_of(c.latency_ms, jitter(c.faults, drawn(stepped(rng)))),
        }),
{
    lemma_exposed(c, dir, bytes);
    lemma_rolls(c.faults.drop_prob, drawn(rng));
}

// ── what the log says ───────────────────────────────────────────────────

/// The log says why a frame was lost: it was cut off, or dropped. Of one that got
/// through it says neither.
pub proof fn law_the_log_says_why_a_frame_was_lost(
    c: ChannelView,
    dir: Direction,
    bytes: Seq<u8>,
    now: Option<int>,
    rng: u32,
)
    ensures
        c.faults.partition ==> logged(c, dir, bytes, now, rng).fault == Some("dropped · partition"@) && logged(
            c,
            dir,
            bytes,
            now,
            rng,
        ).bytes == bytes,
        !c.faults.partition && exposed(c.faults, dir, bytes) && rolls(c.faults.drop_prob, drawn(rng)) ==> logged(
            c,
            dir,
            bytes,
            now,
            rng,
        ).fault == Some("dropped"@) && logged(c, dir, bytes, now, rng).bytes == bytes,
        !c.faults.partition && !exposed(c.faults, dir, bytes) ==> logged(c, dir, bytes, now, rng).fault is None,
{
    lemma_exposed(c, dir, bytes);
    lemma_rolls(c.faults.drop_prob, drawn(rng));
}

/// Of a frame that got through without a delay the log says that it was damaged, where
/// it was, and nothing otherwise.
pub proof fn law_the_log_says_what_was_damaged(
    c: ChannelView,
    dir: Direction,
    bytes: Seq<u8>,
    now: Option<int>,
    rng: u32,
)
    requires
        !c.faults.partition,
        exposed(c.faults, dir, bytes),
        !rolls(c.faults.drop_prob, drawn(rng)),
        c.faults.delay_max.is_nan() || c.faults.delay_max.scaled() <= 0,
    ensures
        rolls(c.faults.corrupt_prob, drawn(stepped(rng))) ==> logged(c, dir, bytes, now, rng).fault == Some("corrupted"@),
        !rolls(c.faults.corrupt_prob, drawn(stepped(rng))) ==> logged(c, dir, bytes, now, rng).fault is None,
{
    lemma_exposed(c, dir, bytes);
    lemma_rolls(c.faults.drop_prob, drawn(rng));
    lemma_rolls(c.faults.corrupt_prob, drawn(stepped(rng)));
}

/// What the log says of a delay of `ms` milliseconds, and of damage beside it.
pub proof fn law_the_log_says_how_late(ms: nat)
    requires
        0 < ms <= 0x7fff_ffff,
    ensures
        fault_note(false, Some((ms * pow2(1074)) as int)) == Some(seq!['+'] + decimal(ms) + seq![' ', 'm', 's']),
        fault_note(true, Some((ms * pow2(1074)) as int)) == Some(
            "corrupted"@ + " · "@ + (seq!['+'] + decimal(ms) + seq![' ', 'm', 's']),
        ),
        fault_note(false, Some(0int)) is None,
        fault_note(true, Some(0int)) == Some("corrupted"@),
{
    reveal_strlit("+");
    reveal_strlit(" ms");
    assert("+"@ =~= seq!['+']);
    assert(" ms"@ =~= seq![' ', 'm', 's']);
    lemma_pow2_pos(1074);
    lemma_pow2_pos(1073);
    lemma_pow2_adds(1073, 1);
    lemma2_to64();
    let unit = pow2(1074) as int;
    let half = pow2(1073) as int;
    lemma_mul_strictly_positive(ms as int, unit);
    assert(unit == 2 * half);
    lemma_fundamental_div_mod_converse(ms * unit + half, unit, ms as int, half);
    assert(whole_of((ms * unit) as nat) == ms);
}

/// Whether any fault is set: a cut, a loss, damage, a window or an upper delay above
/// zero.
pub proof fn law_which_faults_are_active(f: FaultSpec)
    ensures
        f.active() <==> f.partition || (!f.drop_prob.is_nan() && f.drop_prob.scaled() > 0) || (!f.corrupt_prob.is_nan()
            && f.corrupt_prob.scaled() > 0) || f.reorder_window > 0 || (!f.delay_max.is_nan() && f.delay_max.scaled()
            > 0),
{
}

} // verus!
