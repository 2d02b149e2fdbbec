//! What an unreliable wire does to a frame. One [`FaultSpec`] per connection; the
//! engine applies it to that connection's frames in both directions, so a tweak
//! in the inspector takes effect on the next frame with no reconnect.

use vstd::arithmetic::power2::lemma2_to64_rest;
use vstd::prelude::*;
use crate::arith::{floor_of, half_of, lemma_back_half, lemma_floor_of, part, sum};
use crate::double::Double;
use crate::rng::{drawn, stepped, Mulberry32};
use crate::text::copied;

verus! {

/// Which frames a connection's faults act on.
#[derive(Clone, Copy, Debug, PartialEq, Eq, Structural)]
pub enum FaultDir {
    Requests,
    Responses,
    Both,
}

/// The direction of a frame currently in flight, matched against
/// [`FaultSpec::apply_to`] by [`fault_applies_to`].
#[derive(Clone, Copy, Debug, PartialEq, Eq, Structural)]
pub enum Direction {
    Request,
    Response,
}

/// The unreliable-wire spec for one connection.
#[derive(Clone, Copy, Debug, PartialEq, Eq, Structural)]
pub struct FaultSpec {
    /// `0..=1`: probability a frame is dropped outright.
    pub drop_prob: Double,
    /// Uniform delivery delay, ms. `0..0` = none.
    pub delay_min: Double,
    pub delay_max: Double,
    /// Hold up to N frames, then release them shuffled. `0` = keep order.
    pub reorder_window: u32,
    /// `0..=1`: probability a body byte is flipped before delivery.
    pub corrupt_prob: Double,
    /// Hard cut both directions: every frame dropped until cleared.
    pub partition: bool,
    /// Which direction the drop / delay / reorder / corrupt apply to.
    pub apply_to: FaultDir,
}

impl FaultSpec {
    /// No fault at all.
    pub open spec fn none() -> FaultSpec {
        FaultSpec {
            drop_prob: Double { bits: 0 },
            delay_min: Double { bits: 0 },
            delay_max: Double { bits: 0 },
            reorder_window: 0,
            corrupt_prob: Double { bits: 0 },
            partition: false,
            apply_to: FaultDir::Both,
        }
    }

    /// Any behaviour that isn't a clean, ordered, immediate pass-through.
    pub open spec fn active(self) -> bool {
        ||| self.partition
        ||| self.drop_prob.positive()
        ||| self.corrupt_prob.positive()
        ||| self.reorder_window > 0
        ||| self.delay_max.positive()
    }

    /// Whether this acts on frames travelling in `dir`.
    pub open spec fn covers(self, dir: Direction) -> bool {
        match self.apply_to {
            FaultDir::Both => true,
            FaultDir::Requests => dir == Direction::Request,
            FaultDir::Responses => dir == Direction::Response,
        }
    }
}

impl Default for FaultSpec {
    fn default() -> (r: Self)
        ensures
            r == FaultSpec::none(),
            !r.active(),
    {
        let zero = Double::zero();
        FaultSpec {
            drop_prob: zero,
            delay_min: zero,
            delay_max: zero,
            reorder_window: 0,
            corrupt_prob: zero,
            partition: false,
            apply_to: FaultDir::Both,
        }
    }
}

/// A clean, ordered, immediate pass-through.
pub fn no_faults() -> (r: FaultSpec)
    ensures
        r == FaultSpec::none(),
        !r.active(),
{
    FaultSpec::default()
}

/// Any behaviour that isn't a clean, ordered, immediate pass-through.
pub fn faults_active(f: &FaultSpec) -> (r: bool)
    ensures
        r == f.active(),
{
    f.partition || f.drop_prob.is_positive() || f.corrupt_prob.is_positive() || f.reorder_window > 0
        || f.delay_max.is_positive()
}

/// Whether `f` acts on a frame travelling in `dir`.
pub fn fault_applies_to(f: &FaultSpec, dir: Direction) -> (r: bool)
    ensures
        r == f.covers(dir),
{
    match f.apply_to {
        FaultDir::Both => true,
        FaultDir::Requests => dir == Direction::Request,
        FaultDir::Responses => dir == Direction::Response,
    }
}

/// The place in the back half of `len` bytes that `draw` falls on: half of `len`,
/// and as much of another half as the draw picks, each to the nearest double.
pub open spec fn flip_place(len: nat, draw: u32) -> int {
    let half = half_of(len);
    let i = floor_of(sum(Some(half), part(half, draw)));
    if i < len - 1 {
        i
    } else {
        len - 1
    }
}

/// `bytes` with the byte that `draw` falls on flipped.
pub open spec fn corrupted(bytes: Seq<u8>, draw: u32) -> Seq<u8> {
    if bytes.len() == 0 {
        bytes
    } else {
        let i = flip_place(bytes.len(), draw);
        bytes.update(i, bytes[i] ^ 0xffu8)
    }
}

/// The state of the generator after a corruption of `bytes`: an empty frame
/// takes no draw.
pub open spec fn corruption_state(bytes: Seq<u8>, rng: u32) -> u32 {
    if bytes.len() == 0 {
        rng
    } else {
        stepped(rng)
    }
}

/// Corruption flips one byte; and in a frame of no more than 2^53 bytes, where a
/// double can tell each place, it flips it in the back half.
pub proof fn law_corruption_flips_one_byte(bytes: Seq<u8>, draw: u32)
    requires
        bytes.len() > 0,
    ensures
        corrupted(bytes, draw).len() == bytes.len(),
        0 <= flip_place(bytes.len(), draw) < bytes.len(),
        bytes.len() <= 0x20_0000_0000_0000 ==> bytes.len() / 2 <= flip_place(bytes.len(), draw),
        forall|i: int|
            0 <= i < bytes.len() ==> (corrupted(bytes, draw)[i] != bytes[i] <==> i == flip_place(bytes.len(), draw)),
{
    let half = half_of(bytes.len());
    lemma_floor_of(sum(Some(half), part(half, draw)));
    if bytes.len() <= 0x20_0000_0000_0000 {
        lemma2_to64_rest();
        lemma_back_half(bytes.len(), draw);
    }
    let i = flip_place(bytes.len(), draw);
    let b = bytes[i];
    assert(b ^ 0xffu8 != b) by (bit_vector);
}

/// A copy of `bytes` with one byte in its back half flipped: enough to make the
/// body fail to decode without mangling the frame header.
pub fn corrupt_bytes(bytes: &[u8], rng: &mut Mulberry32) -> (r: Vec<u8>)
    ensures
        r@ == corrupted(bytes@, drawn(old(rng)@)),
        final(rng)@ == corruption_state(bytes@, old(rng)@),
{
    let mut out: Vec<u8> = copied(bytes);
    let len: usize = out.len();
    if len == 0 {
        return out;
    }
    let draw: u32 = rng.next_u32();
    proof {
        law_corruption_flips_one_byte(bytes@, draw);
    }
    let half = Double::of_half(len as u64);
    let i: usize = half.plus(half.part_at(draw)).floor_up_to(len as u64 - 1) as usize;
    let flipped: u8 = out[i] ^ 0xff;
    out.set(i, flipped);
    out
}

} // verus!
