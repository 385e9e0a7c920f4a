//! Stateless dispatch of decoded actions, keyed by action code.
//!
//! `LOG` routes to one of five severities; any other numeric level
//! produces an error-severity line quoting the literal level value and
//! the message. `QUERY` delegates to the query engine and answers with
//! the encoded result. `TEST` echoes a diagnostic line. `INVALID` — the
//! decode of any unrecognized code — logs an error. Only `QUERY`
//! produces a response.

use vstd::prelude::*;

use crate::action::Action;
use crate::context::Context;
use crate::log::{LogLine, Severity};
use crate::query::query_model;
use crate::reflect_query::{dynamic_query, sel_resolved, spec_query_items};
use crate::registry::{
    decode_payload, enc_payload, encode_payload, payload_model, payload_type_name, payload_wf,
    Payload, PayloadModel, TypeRegistry,
};
use crate::runtime::WabiError;
use crate::store::{spec_resolve, Store};

verus! {

/// The decimal digits of a number, most significant first.
pub open spec fn dec_digits(n: nat) -> Seq<char>
    decreases n,
{
    if n < 10 {
        seq![((48 + n) as char)]
    } else {
        dec_digits(n / 10).push(((48 + n % 10) as char))
    }
}

/// Renders a number in decimal.
pub fn u8_to_dec(n: u8) -> (r: String)
    ensures
        r@ == dec_digits(n as nat),
    decreases n,
{
    if n < 10 {
        let mut s = String::new();
        let c = char::from_u32(48 + (n as u32));
        match c {
            Some(c) => {
                crate::codec::string_push_char(&mut s, c);
                proof {
                    vstd::utf8::char_u32_cast(c, (48 + (n as u32)) as u32);
                    assert(s@ =~= dec_digits(n as nat));
                }
                s
            },
            None => {
                proof {
                    assert(false);
                }
                s
            },
        }
    } else {
        let mut s = u8_to_dec(n / 10);
        let c = char::from_u32(48 + ((n % 10) as u32));
        match c {
            Some(c) => {
                crate::codec::string_push_char(&mut s, c);
                proof {
                    vstd::utf8::char_u32_cast(c, (48 + ((n % 10) as u32)) as u32);
                    assert(s@ =~= dec_digits(n as nat));
                }
                s
            },
            None => {
                proof {
                    assert(false);
                }
                s
            },
        }
    }
}

/// The severity a numeric log level routes to; levels above four are
/// reported as errors.
pub open spec fn spec_severity(level: u8) -> Severity {
    if level == 0 {
        Severity::Trace
    } else if level == 1 {
        Severity::Debug
    } else if level == 2 {
        Severity::Info
    } else if level == 3 {
        Severity::Warn
    } else {
        Severity::Error
    }
}

/// The text of the line a log request produces: the message itself for
/// levels zero through four, else an error line quoting the literal
/// level value and the message.
pub open spec fn spec_log_text(level: u8, message: Seq<char>) -> Seq<char> {
    if level <= 4 {
        message
    } else {
        "Invalid level received: "@ + dec_digits(level as nat) + ". Message: ("@ + message + ")"@
    }
}

/// Builds the log line a log request produces.
pub fn make_log_line(level: u8, message: String) -> (r: LogLine)
    ensures
        r.severity == spec_severity(level),
        r.text@ == spec_log_text(level, message@),
{
    let severity = if level == 0 {
        Severity::Trace
    } else if level == 1 {
        Severity::Debug
    } else if level == 2 {
        Severity::Info
    } else if level == 3 {
        Severity::Warn
    } else {
        Severity::Error
    };
    if level <= 4 {
        LogLine { severity, text: message }
    } else {
        let digits = u8_to_dec(level);
        let text = String::from_str("Invalid level received: ").concat(digits.as_str()).concat(
            ". Message: (",
        ).concat(message.as_str()).concat(")");
        proof {
            assert(text@ =~= spec_log_text(level, message@));
        }
        LogLine { severity, text }
    }
}

/// The model of a sequence of log lines.
pub open spec fn line_models(ls: Seq<LogLine>) -> Seq<(Severity, Seq<char>)> {
    ls.map_values(|l: LogLine| (l.severity, l.text@))
}

/// Whether an action outcome (response bytes and log lines) matches its
/// model.
pub open spec fn outcome_matches(
    r: (Option<Vec<u8>>, Vec<LogLine>),
    o: (Option<Seq<u8>>, Seq<(Severity, Seq<char>)>),
) -> bool {
    &&& match r.0 {
        Some(v) => o.0 == Some(v@),
        None => o.0 is None,
    }
    &&& line_models(r.1@) == o.1
}

/// The outcome of an undecodable or mismatched payload: no response and
/// one error line.
pub open spec fn protocol_failure() -> (Option<Seq<u8>>, Seq<(Severity, Seq<char>)>) {
    (None, seq![(Severity::Error, "Failed to decode action payload"@)])
}

/// The outcome dispatch owes for a decoded payload under a given action
/// code.
pub open spec fn spec_dispatch(store: Store, pm: PayloadModel, code: u8) -> (
    Option<Seq<u8>>,
    Seq<(Severity, Seq<char>)>,
) {
    match Action::spec_from_code(code) {
        Action::LOG => match pm {
            PayloadModel::Log(level, message) => (
                None,
                seq![(spec_severity(level), spec_log_text(level, message))],
            ),
            _ => protocol_failure(),
        },
        Action::QUERY => match pm {
            PayloadModel::Query(qm) => if sel_resolved(store, qm.components) {
                (
                    Some(enc_payload(PayloadModel::Fetch(spec_query_items(store, qm)))),
                    Seq::empty(),
                )
            } else {
                (
                    None,
                    seq![
                        (
                            Severity::Error,
                            "Unknown component name: "@ + first_unresolved(store, qm.components),
                        ),
                    ],
                )
            },
            _ => protocol_failure(),
        },
        Action::TEST => (None, seq![(Severity::Debug, "Received: "@ + payload_type_name(pm))]),
        Action::INVALID => (None, seq![(Severity::Error, "Invalid action received."@)]),
    }
}

/// The first selected component name that fails to resolve.
pub open spec fn first_unresolved(store: Store, sel: Seq<Seq<char>>) -> Seq<char> {
    sel[choose|t: int|
        0 <= t < sel.len() && spec_resolve(store.component_names@, sel[t]) is None && (forall|
            u: int,
        |
            0 <= u < t ==> spec_resolve(store.component_names@, #[trigger] sel[u]) is Some)]
}

/// Handles one incoming guest call: decodes the payload through the
/// registry, dispatches the action, and returns the response bytes (if
/// the action yields one) together with the host log lines produced.
///
/// The caller must have the context installed for exactly the calling
/// module. Undecodable payloads are logged and treated as a no-op.
pub fn process_action(
    ctx: &Context,
    registry: &TypeRegistry,
    store: &Store,
    module_id: u32,
    bytes: &Vec<u8>,
    action_code: u8,
) -> (r: (Option<Vec<u8>>, Vec<LogLine>))
    requires
        ctx.active_module() == Some(module_id),
        store.wf(),
        registry.spec_contains("QueryFetch"@),
    ensures
        forall|pm: PayloadModel|
            payload_wf(pm) && registry.spec_contains(payload_type_name(pm)) && bytes@
                == #[trigger] enc_payload(pm) ==> outcome_matches(
                r,
                spec_dispatch(*store, pm, action_code),
            ),
        (!exists|pm: PayloadModel|
            payload_wf(pm) && registry.spec_contains(payload_type_name(pm)) && bytes@
                == #[trigger] enc_payload(pm)) ==> outcome_matches(r, protocol_failure()),
{
    let payload = match decode_payload(registry, bytes) {
        Some(p) => p,
        None => {
            return protocol_failure_outcome();
        },
    };
    let ghost dm = payload_model(payload);
    match Action::from_code(action_code) {
        Action::LOG => match payload {
            Payload::Log(msg) => {
                let ghost level = msg.level;
                let ghost message = msg.message@;
                let line = make_log_line(msg.level, msg.message);
                let lines = vec![line];
                proof {
                    assert(line_models(lines@) =~= seq![
                        (spec_severity(level), spec_log_text(level, message)),
                    ]);
                }
                (None, lines)
            },
            _ => protocol_failure_outcome(),
        },
        Action::QUERY => match payload {
            Payload::Query(q) => {
                let ghost qm = query_model(q);
                match dynamic_query(store, &q) {
                    Ok(fetch) => {
                        let response = Payload::Fetch(fetch);
                        match encode_payload(registry, &response) {
                            Some(out) => {
                                proof {
                                    assert(payload_model(response) == PayloadModel::Fetch(
                                        spec_query_items(*store, qm),
                                    ));
                                    assert(line_models(Seq::<LogLine>::empty()) =~= Seq::<(
                                        Severity,
                                        Seq<char>,
                                    )>::empty());
                                }
                                let lines: Vec<LogLine> = Vec::new();
                                proof {
                                    assert(lines@ =~= Seq::<LogLine>::empty());
                                }
                                (Some(out), lines)
                            },
                            None => {
                                proof {
                                    assert(false);
                                }
                                protocol_failure_outcome()
                            },
                        }
                    },
                    Err(e) => {
                        let text = e.message();
                        let ghost nm = match e {
                            WabiError::QueryResolutionError(n) => n@,
                            _ => Seq::empty(),
                        };
                        let line = LogLine { severity: Severity::Error, text };
                        let lines = vec![line];
                        proof {
                            let t = choose|t: int|
                                0 <= t < qm.components.len() && spec_resolve(
                                    store.component_names@,
                                    #[trigger] qm.components[t],
                                ) is None && (forall|u: int|
                                    0 <= u < t ==> spec_resolve(
                                        store.component_names@,
                                        #[trigger] qm.components[u],
                                    ) is Some);
                            let w = choose|t2: int|
                                0 <= t2 < qm.components.len() && spec_resolve(
                                    store.component_names@,
                                    qm.components[t2],
                                ) is None && (forall|u: int|
                                    0 <= u < t2 ==> spec_resolve(
                                        store.component_names@,
                                        #[trigger] qm.components[u],
                                    ) is Some);
                            assert(nm == qm.components[w]);
                            if t < w {
                                assert(spec_resolve(
                                    store.component_names@,
                                    qm.components[t],
                                ) is Some);
                            }
                            if w < t {
                                assert(spec_resolve(
                                    store.component_names@,
                                    qm.components[w],
                                ) is Some);
                            }
                            assert(t == w);
                            assert(first_unresolved(*store, qm.components) == nm);
                            assert(line_models(lines@) =~= seq![
                                (Severity::Error, "Unknown component name: "@ + nm),
                            ]);
                        }
                        (None, lines)
                    },
                }
            },
            _ => protocol_failure_outcome(),
        },
        Action::TEST => {
            let name = match &payload {
                Payload::Log(_) => String::from_str("LogMessage"),
                Payload::Query(_) => String::from_str("Query"),
                Payload::Fetch(_) => String::from_str("QueryFetch"),
            };
            let text = String::from_str("Received: ").concat(name.as_str());
            let line = LogLine { severity: Severity::Debug, text };
            let lines = vec![line];
            proof {
                assert(line_models(lines@) =~= seq![
                    (Severity::Debug, "Received: "@ + payload_type_name(dm)),
                ]);
            }
            (None, lines)
        },
        Action::INVALID => {
            let line = LogLine {
                severity: Severity::Error,
                text: String::from_str("Invalid action received."),
            };
            let lines = vec![line];
            proof {
                assert(line_models(lines@) =~= seq![
                    (Severity::Error, "Invalid action received."@),
                ]);
            }
            (None, lines)
        },
    }
}

/// Builds the no-op outcome for an undecodable or mismatched payload.
fn protocol_failure_outcome() -> (r: (Option<Vec<u8>>, Vec<LogLine>))
    ensures
        outcome_matches(r, protocol_failure()),
{
    let line = LogLine { severity: Severity::Error, text: WabiError::ProtocolError.message() };
    let lines = vec![line];
    proof {
        assert(line_models(lines@) =~= seq![
            (Severity::Error, "Failed to decode action payload"@),
        ]);
    }
    (None, lines)
}

} // verus!
