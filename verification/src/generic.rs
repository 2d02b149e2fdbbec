//! One dispatcher that reads a [`ProtocolShape`] and does what a generated
//! dispatcher does: resolve the call, decode the params, and run the instance's
//! behaviour for that function. So any compiled schema is driven without code
//! generation. Framing the outcome into a response is the engine's job; this type
//! stops at the [`BehaviorStep`].

use vstd::prelude::*;
use crate::behavior::{AskedView, BehaviorCtx, BehaviorStep, Handler, HandlerView, StepView};
use crate::contract::{CallView, RequestCall, RuntimeError};
use crate::dict::Dict;
use crate::format::Codec;
use crate::json;
use crate::json::Json;
use crate::shape::{FnView, ProtocolShape, ProtocolView};

verus! {

/// One behaviour per function name. The engine swaps entries live so a behaviour
/// change takes effect on the next call with no reconnect.
pub type BehaviorMap = Dict<Handler>;

/// The provider side for one protocol.
#[derive(Debug, PartialEq)]
pub struct GenericDispatch {
    pub proto: ProtocolShape,
}

/// The function that a call addresses: by its place, or the first of its name.
pub open spec fn resolved(proto: ProtocolView, call: CallView) -> Option<FnView> {
    match call {
        CallView::Id(id) => if id < proto.functions.len() {
            Some(proto.functions[id as int])
        } else {
            None
        },
        CallView::Name(name) => proto.function(name),
    }
}

/// The params of a call: none are `null`.
pub open spec fn call_params(codec: Codec, params: Seq<u8>) -> Option<Json> {
    if params.len() == 0 {
        Some(Json::Null)
    } else {
        codec.decoded(params)
    }
}

/// What a call comes to: the step of the behaviour bound to the function that it
/// addresses, or why there is none. An unknown or unbound function comes before
/// params that do not decode.
pub open spec fn dispatched(
    proto: ProtocolView,
    call: CallView,
    params: Seq<u8>,
    codec: Codec,
    behaviors: Map<Seq<char>, HandlerView>,
) -> Result<StepView, RuntimeError> {
    match resolved(proto, call) {
        None => Err(RuntimeError::UnknownCall),
        Some(function) => if !behaviors.dom().contains(function.name) {
            Err(RuntimeError::UnknownCall)
        } else {
            match call_params(codec, params) {
                None => Err(RuntimeError::Serialization),
                Some(params) => Ok(
                    behaviors[function.name].step(AskedView { params, function, protocol: proto }),
                ),
            }
        },
    }
}

/// The behaviours after a call: the one that ran has made its step.
pub open spec fn behaviors_after(
    proto: ProtocolView,
    call: CallView,
    params: Seq<u8>,
    codec: Codec,
    behaviors: Map<Seq<char>, HandlerView>,
) -> Map<Seq<char>, HandlerView> {
    if dispatched(proto, call, params, codec, behaviors) is Ok {
        let function = resolved(proto, call)->0;
        let asked = AskedView { params: call_params(codec, params)->0, function, protocol: proto };
        behaviors.insert(function.name, behaviors[function.name].stepped(asked))
    } else {
        behaviors
    }
}

/// What the outcome of a dispatch holds.
pub open spec fn step_of(r: Result<BehaviorStep, RuntimeError>) -> Result<StepView, RuntimeError> {
    match r {
        Ok(step) => Ok(step@),
        Err(e) => Err(e),
    }
}

impl GenericDispatch {
    pub fn new(proto: ProtocolShape) -> (r: Self)
        ensures
            r.proto == proto,
    {
        GenericDispatch { proto }
    }

    pub fn protocol(&self) -> (r: &ProtocolShape)
        ensures
            *r == self.proto,
    {
        &self.proto
    }

    /// Resolves the call and runs its behaviour. `behaviors` is passed in (not
    /// held) so the engine keeps ownership of the live, swappable map.
    pub fn dispatch(&self, call: &RequestCall, params: &[u8], codec: Codec, behaviors: &mut BehaviorMap) -> (r: Result<
        BehaviorStep,
        RuntimeError,
    >)
        ensures
            step_of(r) == dispatched(self.proto@, call@, params@, codec, old(behaviors)@),
            final(behaviors)@ == behaviors_after(self.proto@, call@, params@, codec, old(behaviors)@),
    {
        let ghost before = behaviors@;
        let idx: usize = match self.resolve(call) {
            Some(i) => i,
            None => return Err(RuntimeError::UnknownCall),
        };
        let function = &self.proto.functions[idx];
        assert(self.proto@.functions[idx as int] == function@);
        if !behaviors.contains_key(function.name.as_str()) {
            return Err(RuntimeError::UnknownCall);
        }
        let decoded = if params.len() == 0 {
            json::null()
        } else {
            match codec.decode(params) {
                Ok(value) => value,
                Err(e) => return Err(e),
            }
        };
        match behaviors.remove(function.name.as_str()) {
            Some(mut handler) => {
                let ctx = BehaviorCtx { params: decoded, function, protocol: &self.proto };
                let ghost asked = ctx@;
                let step = handler.run(ctx);
                behaviors.insert(function.name.clone(), handler);
                assert(behaviors@ =~= before.insert(function.name@, before[function.name@].stepped(asked)));
                Ok(step)
            },
            None => Err(RuntimeError::UnknownCall),
        }
    }

    fn resolve(&self, call: &RequestCall) -> (r: Option<usize>)
        ensures
            match r {
                Some(i) => i < self.proto@.functions.len() && resolved(self.proto@, call@) == Some(
                    self.proto@.functions[i as int],
                ),
                None => resolved(self.proto@, call@) is None,
            },
    {
        match call {
            RequestCall::Id(id) => {
                let idx: usize = *id as usize;
                if idx < self.proto.functions.len() {
                    Some(idx)
                } else {
                    None
                }
            },
            RequestCall::Name(name) => self.proto.position(name.as_str()),
        }
    }
}

} // verus!
