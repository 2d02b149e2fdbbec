//! The frame tap: every byte that crosses a connection is recorded here for the
//! inspector to read, with a best-effort classification from the byte shape. The
//! engine owns the clock (it passes `at` into [`Tap::record`]) and the host polls
//! [`Tap::frames`].

use vstd::prelude::*;
use vstd::utf8::*;
use crate::dict::{views, Copied};
use crate::double::Double;
use crate::text::{copied, find_bytes, occurs, utf8_text};

verus! {

/// `[MAGIC:2][VERSION:1][ir_hash:8][wire:8][framing:8][caps:4]`
pub const HANDSHAKE_LEN: usize = 31;

/// Best-effort frame classification for the log.
#[derive(Clone, Copy, Debug, PartialEq, Eq, Structural)]
pub enum FrameKind {
    Handshake,
    Request,
    Response,
}

/// One recorded frame.
#[derive(Debug, PartialEq)]
pub struct Frame {
    /// Monotonic, assigned when the frame is recorded.
    pub seq: u32,
    pub from: String,
    pub to: String,
    /// The raw bytes on the wire.
    pub bytes: Vec<u8>,
    /// The clock at send, in milliseconds.
    pub at: Double,
    pub kind: FrameKind,
    /// What the wire's fault spec did to this frame, if anything.
    pub fault: Option<String>,
}

/// What a [`Frame`] holds.
#[verifier::ext_equal]
pub ghost struct FrameView {
    pub seq: u32,
    pub from: Seq<char>,
    pub to: Seq<char>,
    pub bytes: Seq<u8>,
    pub at: Option<int>,
    pub kind: FrameKind,
    pub fault: Option<Seq<char>>,
}

/// The text in an optional one.
pub open spec fn maybe_text(s: Option<String>) -> Option<Seq<char>> {
    match s {
        Some(t) => Some(t@),
        None => None,
    }
}

impl View for Frame {
    type V = FrameView;

    open spec fn view(&self) -> FrameView {
        FrameView {
            seq: self.seq,
            from: self.from@,
            to: self.to@,
            bytes: self.bytes@,
            at: self.at.value(),
            kind: self.kind,
            fault: maybe_text(self.fault),
        }
    }
}

impl Copied for Frame {
    fn copied(&self) -> (r: Self) {
        Frame {
            seq: self.seq,
            from: self.from.clone(),
            to: self.to.clone(),
            bytes: copied(self.bytes.as_slice()),
            at: self.at,
            kind: self.kind,
            fault: match &self.fault {
                Some(note) => Some(note.clone()),
                None => None,
            },
        }
    }
}

impl Clone for Frame {
    fn clone(&self) -> (r: Self)
        ensures
            r@ == self@,
    {
        self.copied()
    }
}

/// `"method"`, in its quotes.
pub open spec fn method_key() -> Seq<u8> {
    seq![0x22u8, 0x6d, 0x65, 0x74, 0x68, 0x6f, 0x64, 0x22]
}

/// Whether `bytes` have the length and the `CO` magic of a handshake.
pub open spec fn looks_like_handshake(bytes: Seq<u8>) -> bool {
    bytes.len() == HANDSHAKE_LEN && bytes[0] == 0x43 && bytes[1] == 0x4f
}

/// What `bytes` look like.
pub open spec fn looks_like(bytes: Seq<u8>) -> FrameKind {
    if looks_like_handshake(bytes) {
        FrameKind::Handshake
    } else if bytes.len() > 0 && bytes[0] == 0x7b && valid_utf8(bytes) && !occurs(bytes, method_key()) {
        FrameKind::Response
    } else {
        FrameKind::Request
    }
}

/// Best-effort label for the log. The handshake frame is unambiguous (fixed
/// length + `CO` magic); a JSON-RPC frame's `method` key marks it a request. A
/// binary datagram request and response can't be told apart from the bytes
/// alone, so those default to [`FrameKind::Request`]; the engine overrides `kind`
/// when it knows the direction.
pub fn classify(bytes: &[u8]) -> (r: FrameKind)
    ensures
        r == looks_like(bytes@),
{
    if bytes.len() == HANDSHAKE_LEN && bytes[0] == 0x43 && bytes[1] == 0x4f {
        return FrameKind::Handshake;
    }
    if bytes.len() > 0 && bytes[0] == 0x7b {
        // `{`: a JSON-RPC frame; the `"method"` key marks the request side.
        if utf8_text(bytes).is_some() {
            let key: Vec<u8> = vec![0x22u8, 0x6d, 0x65, 0x74, 0x68, 0x6f, 0x64, 0x22];
            assert(key@ =~= method_key());
            return if find_bytes(bytes, key.as_slice()).is_some() {
                FrameKind::Request
            } else {
                FrameKind::Response
            };
        }
    }
    FrameKind::Request
}

/// A shared sink for the frames on one connection.
#[derive(Debug)]
pub struct Tap {
    /// The number given last.
    pub counter: u32,
    pub frames: Vec<Frame>,
}

/// What a [`Tap`] holds: the number given last, and the frames in order.
#[verifier::ext_equal]
pub ghost struct TapView {
    pub counter: u32,
    pub frames: Seq<FrameView>,
}

/// The number after `n`, or `n` where there is none.
pub open spec fn next_seq(n: u32) -> u32 {
    if n == u32::MAX {
        n
    } else {
        (n + 1) as u32
    }
}

impl TapView {
    /// With one more frame.
    pub open spec fn recorded(
        self,
        from: Seq<char>,
        to: Seq<char>,
        bytes: Seq<u8>,
        at: Option<int>,
        kind_hint: FrameKind,
        fault: Option<Seq<char>>,
    ) -> TapView {
        let seq = next_seq(self.counter);
        let kind = if looks_like_handshake(bytes) {
            FrameKind::Handshake
        } else {
            kind_hint
        };
        TapView {
            counter: seq,
            frames: self.frames.push(FrameView { seq, from, to, bytes, at, kind, fault }),
        }
    }
}

impl View for Tap {
    type V = TapView;

    open spec fn view(&self) -> TapView {
        TapView { counter: self.counter, frames: views(self.frames@) }
    }
}

impl Default for Tap {
    fn default() -> (r: Self)
        ensures
            r@ == (TapView { counter: 0, frames: Seq::empty() }),
    {
        Tap::new()
    }
}

impl Tap {
    pub fn new() -> (r: Self)
        ensures
            r@ == (TapView { counter: 0, frames: Seq::empty() }),
    {
        let r = Tap { counter: 0, frames: Vec::new() };
        assert(r@.frames =~= Seq::empty());
        r
    }

    /// Records `bytes` crossing `from` → `to` at clock time `at`, tagged with an
    /// optional `fault` note. `kind_hint` is the sender's known direction, used
    /// unless the bytes are unambiguously a handshake (a binary datagram request
    /// and response are otherwise indistinguishable). Returns the new frame's
    /// `seq`.
    pub fn record(
        &mut self,
        from: &str,
        to: &str,
        bytes: &[u8],
        at: Double,
        kind_hint: FrameKind,
        fault: Option<String>,
    ) -> (r: u32)
        ensures
            final(self)@ == old(self)@.recorded(from@, to@, bytes@, at.value(), kind_hint, maybe_text(fault)),
            r == next_seq(old(self)@.counter),
    {
        let ghost before = self@;
        let kind = match classify(bytes) {
            FrameKind::Handshake => FrameKind::Handshake,
            _ => kind_hint,
        };
        if self.counter < u32::MAX {
            self.counter = self.counter + 1;
        }
        self.frames.push(
            Frame {
                seq: self.counter,
                from: from.to_owned(),
                to: to.to_owned(),
                bytes: copied(bytes),
                at,
                kind,
                fault,
            },
        );
        assert(self@.frames =~= before.recorded(from@, to@, bytes@, at.value(), kind_hint, maybe_text(fault)).frames);
        self.counter
    }

    /// Forgets the frames. The numbering goes on where it was.
    pub fn clear(&mut self)
        ensures
            final(self)@ == (TapView { counter: old(self)@.counter, frames: Seq::empty() }),
    {
        self.frames.clear();
        assert(self@.frames =~= Seq::empty());
    }
}

} // verus!
