//! Guest-side helpers: building the import calls a guest makes.
//!
//! A guest serializes an action envelope into its scratch buffer and
//! invokes the single host import with the byte length and action code.
//! These helpers produce exactly those bytes and that code; carrying them
//! across the sandbox boundary is the execution backend's job. Log
//! serialization cannot fail here: the standard registry always holds the
//! log message type, so the one fatal error path of the protocol — a log
//! message that cannot be encoded — is proved unreachable.

use vstd::prelude::*;

use crate::action::Action;
use crate::log::LogMessage;
use crate::query::{filter_models, query_model, Filter, Query, QueryFetch, QueryModel};
use crate::registry::{
    create_type_registry, decode_payload, enc_payload, encode_payload, payload_model, Payload,
    PayloadModel,
};

verus! {

/// One call through the host import: the envelope bytes the guest placed
/// in its scratch buffer, and the action code it passes alongside.
pub struct GuestCall {
    pub bytes: Vec<u8>,
    pub action: u8,
}

/// Builds the import call for a log request with the given level.
pub fn log_message(level: u8, message: String) -> (c: GuestCall)
    ensures
        c.bytes@ == enc_payload(PayloadModel::Log(level, message@)),
        c.action == Action::LOG.spec_code(),
{
    let registry = create_type_registry();
    let payload = Payload::Log(LogMessage { level, message });
    match encode_payload(&registry, &payload) {
        Some(bytes) => GuestCall { bytes, action: Action::LOG.code() },
        None => vstd::pervasive::unreached(),
    }
}

/// Builds the import call for a log request at compile-time level `L`.
pub fn log<const L: u8>(message: String) -> (c: GuestCall)
    ensures
        c.bytes@ == enc_payload(PayloadModel::Log(L, message@)),
        c.action == Action::LOG.spec_code(),
{
    log_message(L, message)
}

/// Builds a trace-level log call.
pub fn trace(message: String) -> (c: GuestCall)
    ensures
        c.bytes@ == enc_payload(PayloadModel::Log(0, message@)),
        c.action == Action::LOG.spec_code(),
{
    log::<0>(message)
}

/// Builds a debug-level log call.
pub fn debug(message: String) -> (c: GuestCall)
    ensures
        c.bytes@ == enc_payload(PayloadModel::Log(1, message@)),
        c.action == Action::LOG.spec_code(),
{
    log::<1>(message)
}

/// Builds an info-level log call.
pub fn info(message: String) -> (c: GuestCall)
    ensures
        c.bytes@ == enc_payload(PayloadModel::Log(2, message@)),
        c.action == Action::LOG.spec_code(),
{
    log::<2>(message)
}

/// Builds a warn-level log call.
pub fn warn(message: String) -> (c: GuestCall)
    ensures
        c.bytes@ == enc_payload(PayloadModel::Log(3, message@)),
        c.action == Action::LOG.spec_code(),
{
    log::<3>(message)
}

/// Builds an error-level log call.
pub fn error(message: String) -> (c: GuestCall)
    ensures
        c.bytes@ == enc_payload(PayloadModel::Log(4, message@)),
        c.action == Action::LOG.spec_code(),
{
    log::<4>(message)
}

/// Builds the import call for a query over the given selected component
/// names and filter clauses.
pub fn query_call(query: Query) -> (c: GuestCall)
    ensures
        c.bytes@ == enc_payload(PayloadModel::Query(query_model(query))),
        c.action == Action::QUERY.spec_code(),
{
    let registry = create_type_registry();
    let payload = Payload::Query(query);
    match encode_payload(&registry, &payload) {
        Some(bytes) => GuestCall { bytes, action: Action::QUERY.code() },
        None => vstd::pervasive::unreached(),
    }
}

/// Builds the import call for a diagnostic echo of a log-shaped payload.
pub fn test_call(msg: LogMessage) -> (c: GuestCall)
    ensures
        c.bytes@ == enc_payload(PayloadModel::Log(msg.level, msg.message@)),
        c.action == Action::TEST.spec_code(),
{
    let registry = create_type_registry();
    let ghost level = msg.level;
    let ghost message = msg.message@;
    let payload = Payload::Log(msg);
    match encode_payload(&registry, &payload) {
        Some(bytes) => GuestCall { bytes, action: Action::TEST.code() },
        None => vstd::pervasive::unreached(),
    }
}

/// Decodes the response bytes of a query call back into a query result.
/// Succeeds exactly on the complete encoding of a well-formed result.
pub fn parse_query_response(bytes: &Vec<u8>) -> (r: Option<QueryFetch>)
    ensures
        r matches Some(f) ==> bytes@ == enc_payload(PayloadModel::Fetch(f.model())),
        forall|m: PayloadModel|
            crate::registry::payload_wf(m) && m is Fetch && bytes@ == #[trigger] enc_payload(m)
                ==> (r matches Some(f) && PayloadModel::Fetch(f.model()) == m),
{
    let registry = create_type_registry();
    match decode_payload(&registry, bytes) {
        Some(Payload::Fetch(f)) => Some(f),
        Some(_) => {
            proof {
                crate::registry::lemma_type_names_distinct();
            }
            None
        },
        None => None,
    }
}

} // verus!
