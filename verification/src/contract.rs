//! The words that the two ends of a wire speak in: a decoded request, the
//! envelope of a response, and what can go wrong with a call.

use vstd::prelude::*;

verus! {

/// Why a call was refused.
#[derive(Clone, Copy, Debug, PartialEq, Eq, Structural)]
pub enum RuntimeError {
    /// There is no such connection.
    Transport,
    /// The connection was refused when it was opened.
    Handshake,
    /// A call on the connection has timed out, and it was not reopened since.
    Timeout,
    /// The protocol has no such function.
    UnknownCall,
    /// A value could not be encoded or decoded.
    Serialization,
}

impl RuntimeError {
    /// What a refusal is called, where the host shows it.
    pub open spec fn tag(self) -> Seq<char> {
        match self {
            RuntimeError::Transport => "Transport"@,
            RuntimeError::Handshake => "Handshake"@,
            RuntimeError::Timeout => "Timeout"@,
            RuntimeError::UnknownCall => "UnknownCall"@,
            RuntimeError::Serialization => "Serialization"@,
        }
    }

    /// What a refusal is called, where the host shows it.
    pub fn name(self) -> (r: &'static str)
        ensures
            r@ == self.tag(),
    {
        match self {
            RuntimeError::Transport => "Transport",
            RuntimeError::Handshake => "Handshake",
            RuntimeError::Timeout => "Timeout",
            RuntimeError::UnknownCall => "UnknownCall",
            RuntimeError::Serialization => "Serialization",
        }
    }
}

/// How a request addresses its function.
#[derive(Debug, PartialEq)]
pub enum RequestCall {
    /// By its place in the protocol.
    Id(u16),
    /// By its name.
    Name(String),
}

/// What a [`RequestCall`] holds.
#[verifier::ext_equal]
pub ghost enum CallView {
    Id(u16),
    Name(Seq<char>),
}

impl View for RequestCall {
    type V = CallView;

    open spec fn view(&self) -> CallView {
        match self {
            RequestCall::Id(id) => CallView::Id(*id),
            RequestCall::Name(name) => CallView::Name(name@),
        }
    }
}

/// A decoded request frame.
#[derive(Debug, PartialEq)]
pub struct Request {
    pub call: RequestCall,
    pub request_id: u64,
    pub params: Vec<u8>,
}

/// What a [`Request`] holds.
#[verifier::ext_equal]
pub ghost struct RequestView {
    pub call: CallView,
    pub request_id: u64,
    pub params: Seq<u8>,
}

impl View for Request {
    type V = RequestView;

    open spec fn view(&self) -> RequestView {
        RequestView { call: self.call@, request_id: self.request_id, params: self.params@ }
    }
}

/// What an optional request holds.
pub open spec fn maybe_request(r: Option<Request>) -> Option<RequestView> {
    match r {
        Some(req) => Some(req@),
        None => None,
    }
}

/// The body of a response frame.
#[derive(Debug, PartialEq)]
pub enum Envelope {
    /// A result.
    Success(Vec<u8>),
    /// A raised error: its ordinal and its body.
    Failure { id: u16, body: Vec<u8> },
}

/// What an [`Envelope`] holds.
#[verifier::ext_equal]
pub ghost enum EnvelopeView {
    Success(Seq<u8>),
    Failure { id: u16, body: Seq<u8> },
}

impl View for Envelope {
    type V = EnvelopeView;

    open spec fn view(&self) -> EnvelopeView {
        match self {
            Envelope::Success(payload) => EnvelopeView::Success(payload@),
            Envelope::Failure { id, body } => EnvelopeView::Failure { id: *id, body: body@ },
        }
    }
}

/// What an optional response holds.
pub open spec fn maybe_response(r: Option<(u64, Envelope)>) -> Option<(u64, EnvelopeView)> {
    match r {
        Some((id, envelope)) => Some((id, envelope@)),
        None => None,
    }
}

} // verus!
