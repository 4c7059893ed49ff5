//! Identifiers for peer-to-peer query sessions.
//!
//! A node keeps one counter per direction; a session is addressed either by
//! the identifier it assigned when opening an outbound stream or by the one it
//! assigned when accepting an inbound stream.

use vstd::prelude::*;

verus! {

/// Identifier of a session this node opened towards a peer.
#[derive(Clone, Copy, Debug, Default, PartialEq, Eq, Structural, Hash)]
pub struct OutboundSessionId {
    pub value: usize,
}

/// Identifier of a session a peer opened towards this node.
#[derive(Clone, Copy, Debug, Default, PartialEq, Eq, Structural, Hash)]
pub struct InboundSessionId {
    pub value: usize,
}

/// A session timeout, kept as plain values: whole seconds and the
/// nanosecond remainder.
#[derive(Clone, Copy, Debug, Default, PartialEq, Eq, Structural, Hash)]
pub struct SessionTimeout {
    pub secs: u64,
    pub nanos: u32,
}

/// Configuration of the session layer.
#[derive(Clone, Copy, Debug, Default, PartialEq, Eq, Structural, Hash)]
pub struct Config {
    pub session_timeout: SessionTimeout,
}

/// Either kind of session identifier.
#[derive(Clone, Copy, Debug, PartialEq, Eq, Structural, Hash)]
pub enum SessionId {
    OutboundSessionId(OutboundSessionId),
    InboundSessionId(InboundSessionId),
}

impl From<OutboundSessionId> for SessionId {
    fn from(outbound_session_id: OutboundSessionId) -> (r: Self) {
        SessionId::OutboundSessionId(outbound_session_id)
    }
}

impl vstd::std_specs::convert::FromSpecImpl<OutboundSessionId> for SessionId {
    open spec fn obeys_from_spec() -> bool {
        true
    }

    open spec fn from_spec(t: OutboundSessionId) -> Self {
        SessionId::OutboundSessionId(t)
    }
}

impl From<InboundSessionId> for SessionId {
    fn from(inbound_session_id: InboundSessionId) -> (r: Self) {
        SessionId::InboundSessionId(inbound_session_id)
    }
}

impl vstd::std_specs::convert::FromSpecImpl<InboundSessionId> for SessionId {
    open spec fn obeys_from_spec() -> bool {
        true
    }

    open spec fn from_spec(t: InboundSessionId) -> Self {
        SessionId::InboundSessionId(t)
    }
}

} // verus!
