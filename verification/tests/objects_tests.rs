//! The plain node-level data types.

use state_store::exec_objects::{CallType, PriceUnit, RevertReason, TrackedResource};
use state_store::session::{Config, InboundSessionId, OutboundSessionId, SessionId, SessionTimeout};

#[test]
fn session_ids_convert() {
    let outbound = OutboundSessionId { value: 5 };
    let inbound = InboundSessionId { value: 6 };
    assert_eq!(SessionId::from(outbound), SessionId::OutboundSessionId(outbound));
    assert_eq!(SessionId::from(inbound), SessionId::InboundSessionId(inbound));
    assert_ne!(SessionId::from(outbound), SessionId::from(inbound));
    assert_eq!(OutboundSessionId::default().value, 0);
}

#[test]
fn execution_object_defaults() {
    assert_eq!(PriceUnit::default(), PriceUnit::Wei);
    assert_eq!(TrackedResource::default(), TrackedResource::CairoSteps);
    assert_ne!(CallType::Call, CallType::LibraryCall);
    let reason = RevertReason::RevertReason(String::from("out of gas"));
    assert_eq!(reason.clone(), reason);
}

#[test]
fn session_config_defaults_to_zero_timeout() {
    let config = Config::default();
    assert_eq!(config.session_timeout, SessionTimeout { secs: 0, nanos: 0 });
    let config2 = Config { session_timeout: SessionTimeout { secs: 10, nanos: 500 } };
    assert_ne!(config, config2);
}

