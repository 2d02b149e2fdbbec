//! The same call over every transport: which framing / codec combinations the
//! compare panel runs, what a run starts from, and what is kept of it. The
//! decoded bodies should match across all of them; divergence is a framing or
//! codec bug.

use serde_json::Value;
use vstd::prelude::*;
use vstd::string::*;
use crate::dict::{copied_all, views, Copied};
use crate::engine::{CallResult, Engine, EngineView, ResultView};
use crate::format::Codec;
use crate::frame::{Frame, FrameView};
use crate::json::{content, parse_text, read_json, Json};
use crate::model::{FramingChoice, Session};
use crate::text::joined;

verus! {

/// The framing / codec combinations that are compared. JSON-RPC pairs only with
/// JSON.
pub open spec fn matrix() -> Seq<(FramingChoice, Codec)> {
    seq![
        (FramingChoice::Datagram, Codec::Json),
        (FramingChoice::Datagram, Codec::Msgpack),
        (FramingChoice::Jsonrpc, Codec::Json),
    ]
}

/// The framing / codec combinations that are compared: no JSON-RPC but over JSON.
pub fn transport_matrix() -> (r: Vec<(FramingChoice, Codec)>)
    ensures
        r@ == matrix(),
        forall|i: int| 0 <= i < r@.len() && (#[trigger] r@[i]).0 == FramingChoice::Jsonrpc ==> r@[i].1 == Codec::Json,
{
    let mut r: Vec<(FramingChoice, Codec)> = Vec::new();
    r.push((FramingChoice::Datagram, Codec::Json));
    r.push((FramingChoice::Datagram, Codec::Msgpack));
    r.push((FramingChoice::Jsonrpc, Codec::Json));
    assert(r@ =~= matrix());
    r
}

/// The params that `params_json` is the text of, or what is shown where it is no
/// JSON.
pub open spec fn params_of(params_json: Seq<char>) -> Result<Json, Seq<char>> {
    match read_json(params_json) {
        Ok(params) => Ok(params),
        Err(why) => Err("bad params json: "@ + why),
    }
}

/// Reads the params of a call, for [`transported`] runs or for
/// [`Sim::call_with`](crate::facade::Sim::call_with).
pub fn read_params(params_json: &str) -> (r: Result<Value, String>)
    ensures
        match r {
            Ok(params) => params_of(params_json@) == Ok::<Json, Seq<char>>(content(params)),
            Err(message) => params_of(params_json@) == Err::<Json, Seq<char>>(message@),
        },
{
    match parse_text(params_json) {
        Ok(params) => Ok(params),
        Err(why) => {
            let mut message = "bad params json: ".to_owned();
            message.append(why.as_str());
            Err(message)
        },
    }
}

/// What a framing is called in a label.
pub open spec fn framing_tag(f: FramingChoice) -> Seq<char> {
    match f {
        FramingChoice::Jsonrpc => "jsonrpc"@,
        _ => "datagram"@,
    }
}

/// What a framing is called in a label.
pub fn framing_label(f: FramingChoice) -> (r: &'static str)
    ensures
        r@ == framing_tag(f),
{
    match f {
        FramingChoice::Jsonrpc => "jsonrpc",
        _ => "datagram",
    }
}

/// One combo's run: its label, the frame log, and the settled call outcome.
#[derive(Debug)]
pub struct MatrixRun {
    pub label: String,
    pub frames: Vec<Frame>,
    pub result: Option<CallResult>,
}

/// What a [`MatrixRun`] holds.
#[verifier::ext_equal]
pub ghost struct RunView {
    pub label: Seq<char>,
    pub frames: Seq<FrameView>,
    pub result: Option<ResultView>,
}

impl View for MatrixRun {
    type V = RunView;

    open spec fn view(&self) -> RunView {
        RunView {
            label: self.label@,
            frames: views(self.frames@),
            result: match self.result {
                Some(r) => Some(r@),
                None => None,
            },
        }
    }
}

/// What is kept of a run over `framing` and `codec` that ended in `engine`, with
/// the call numbered `id`, where it was taken.
pub open spec fn run_of(
    engine: EngineView,
    conn: Seq<char>,
    framing: FramingChoice,
    codec: Codec,
    id: Option<u64>,
) -> RunView {
    RunView {
        label: framing_tag(framing) + "/"@ + codec.label(),
        frames: if engine.wires.dom().contains(conn) {
            engine.wires[conn].channel.tap.frames
        } else {
            Seq::empty()
        },
        result: match id {
            Some(id) if engine.results.dom().contains(id) => Some(engine.results[id]),
            _ => None,
        },
    }
}

/// The session that a run over `framing` and `codec` starts from: a copy, so the
/// session itself isn't disturbed.
pub fn transported(session: &Session, conn_id: &str, framing: FramingChoice, codec: Codec) -> (r: Session)
    ensures
        r@ == session@.with_transport(conn_id@, framing, codec),
{
    let mut s = session.copied();
    s.set_transport(conn_id, framing, codec);
    s
}

impl MatrixRun {
    /// What is kept of a run that ended in `engine`.
    pub fn of(engine: &Engine, conn_id: &str, framing: FramingChoice, codec: Codec, id: Option<u64>) -> (r: Self)
        ensures
            r@ == run_of(engine@, conn_id@, framing, codec, id),
    {
        let frames = match engine.tap(conn_id) {
            Some(tap) => copied_all(&tap.frames),
            None => Vec::new(),
        };
        let result = match id {
            Some(id) => match engine.result(id) {
                Some(r) => Some(r.copied()),
                None => None,
            },
            None => None,
        };
        let r = MatrixRun { label: joined(framing_label(framing), "/", codec.name()), frames, result };
        assert(r@.frames =~= run_of(engine@, conn_id@, framing, codec, id).frames);
        r
    }
}

} // verus!
