use wabi::context::Context;
use wabi::dispatch::{process_action, u8_to_dec};
use wabi::ecs::{Component, Entity};
use wabi::guest::{debug, error, info, log, parse_query_response, trace, warn};
use wabi::log::{LogMessage, Severity};
use wabi::query::{Filter, Query};
use wabi::registry::{create_type_registry, decode_payload, encode_payload, Payload};
use wabi::runtime::{InstanceState, WabiError};
use wabi::store::{Archetype, Store};

fn small_store() -> Store {
    Store {
        component_names: vec!["Position".to_string()],
        archetypes: vec![Archetype {
            component_ids: vec![0],
            entities: vec![Entity { id: 1, generation: 0 }],
            rows: vec![vec![Component::Unsupported]],
        }],
    }
}

fn ready_context(id: u32) -> Context {
    let mut ctx = Context::new();
    assert!(ctx.is_empty());
    ctx.setup(id);
    assert!(!ctx.is_empty());
    ctx
}

#[test]
fn log_level_seven_produces_one_error_line() {
    let registry = create_type_registry();
    let store = small_store();
    let ctx = ready_context(1);
    let msg = LogMessage { level: 7, message: "engine overheated".to_string() };
    let bytes = encode_payload(&registry, &Payload::Log(msg)).unwrap();
    let (response, lines) = process_action(&ctx, &registry, &store, 1, &bytes, 0);
    assert!(response.is_none());
    assert_eq!(lines.len(), 1);
    assert_eq!(lines[0].severity, Severity::Error);
    assert!(lines[0].text.contains('7'));
    assert!(lines[0].text.contains("engine overheated"));
    assert_eq!(lines[0].text, "Invalid level received: 7. Message: (engine overheated)");
}

#[test]
fn log_levels_route_to_their_severities() {
    let registry = create_type_registry();
    let store = small_store();
    let ctx = ready_context(1);
    let expected = [
        Severity::Trace,
        Severity::Debug,
        Severity::Info,
        Severity::Warn,
        Severity::Error,
    ];
    for (level, severity) in expected.iter().enumerate() {
        let msg = LogMessage { level: level as u8, message: "tick".to_string() };
        let bytes = encode_payload(&registry, &Payload::Log(msg)).unwrap();
        let (response, lines) = process_action(&ctx, &registry, &store, 1, &bytes, 0);
        assert!(response.is_none());
        assert_eq!(lines.len(), 1);
        assert_eq!(lines[0].severity, *severity);
        assert_eq!(lines[0].text, "tick");
    }
}

#[test]
fn query_action_answers_with_encoded_fetch() {
    let registry = create_type_registry();
    let store = small_store();
    let ctx = ready_context(1);
    let query = Query { components: vec!["Position".to_string()], filters: vec![] };
    let bytes = encode_payload(&registry, &Payload::Query(query)).unwrap();
    let (response, lines) = process_action(&ctx, &registry, &store, 1, &bytes, 1);
    assert!(lines.is_empty());
    let fetch = parse_query_response(&response.unwrap()).unwrap();
    assert_eq!(fetch.items.len(), 1);
    assert_eq!(fetch.items[0].entity, Entity { id: 1, generation: 0 });
    assert_eq!(fetch.items[0].components, vec![Component::Unsupported]);
}

#[test]
fn query_with_unknown_selected_name_logs_and_omits_response() {
    let registry = create_type_registry();
    let store = small_store();
    let ctx = ready_context(1);
    let query = Query { components: vec!["Spin".to_string()], filters: vec![] };
    let bytes = encode_payload(&registry, &Payload::Query(query)).unwrap();
    let (response, lines) = process_action(&ctx, &registry, &store, 1, &bytes, 1);
    assert!(response.is_none());
    assert_eq!(lines.len(), 1);
    assert_eq!(lines[0].severity, Severity::Error);
    assert_eq!(lines[0].text, "Unknown component name: Spin");
}

#[test]
fn test_action_echoes_payload_type() {
    let registry = create_type_registry();
    let store = small_store();
    let ctx = ready_context(1);
    let msg = LogMessage { level: 0, message: "ping".to_string() };
    let bytes = encode_payload(&registry, &Payload::Log(msg)).unwrap();
    let (response, lines) = process_action(&ctx, &registry, &store, 1, &bytes, 254);
    assert!(response.is_none());
    assert_eq!(lines.len(), 1);
    assert_eq!(lines[0].severity, Severity::Debug);
    assert_eq!(lines[0].text, "Received: LogMessage");
}

#[test]
fn unrecognized_action_code_logs_an_error() {
    let registry = create_type_registry();
    let store = small_store();
    let ctx = ready_context(1);
    let msg = LogMessage { level: 0, message: "x".to_string() };
    let bytes = encode_payload(&registry, &Payload::Log(msg)).unwrap();
    let (response, lines) = process_action(&ctx, &registry, &store, 1, &bytes, 99);
    assert!(response.is_none());
    assert_eq!(lines.len(), 1);
    assert_eq!(lines[0].severity, Severity::Error);
    assert_eq!(lines[0].text, "Invalid action received.");
}

#[test]
fn undecodable_payload_is_a_logged_no_op() {
    let registry = create_type_registry();
    let store = small_store();
    let ctx = ready_context(1);
    let bytes = vec![9, 9, 9];
    let (response, lines) = process_action(&ctx, &registry, &store, 1, &bytes, 0);
    assert!(response.is_none());
    assert_eq!(lines.len(), 1);
    assert_eq!(lines[0].severity, Severity::Error);
    assert_eq!(lines[0].text, "Failed to decode action payload");
}

#[test]
fn mismatched_action_and_payload_is_a_logged_no_op() {
    let registry = create_type_registry();
    let store = small_store();
    let ctx = ready_context(1);
    let query = Query { components: vec![], filters: vec![] };
    let bytes = encode_payload(&registry, &Payload::Query(query)).unwrap();
    let (response, lines) = process_action(&ctx, &registry, &store, 1, &bytes, 0);
    assert!(response.is_none());
    assert_eq!(lines[0].text, "Failed to decode action payload");
}

#[test]
fn guest_helpers_build_decodable_log_calls() {
    let registry = create_type_registry();
    let cases: Vec<(wabi::guest::GuestCall, u8)> = vec![
        (trace("a".to_string()), 0),
        (debug("b".to_string()), 1),
        (info("c".to_string()), 2),
        (warn("d".to_string()), 3),
        (error("e".to_string()), 4),
        (log::<9>("f".to_string()), 9),
    ];
    for (call, level) in cases {
        assert_eq!(call.action, 0);
        match decode_payload(&registry, &call.bytes) {
            Some(Payload::Log(msg)) => assert_eq!(msg.level, level),
            other => panic!("expected a log payload, got {:?}", other),
        }
    }
}

#[test]
fn decimal_rendering_is_exact() {
    assert_eq!(u8_to_dec(0), "0");
    assert_eq!(u8_to_dec(7), "7");
    assert_eq!(u8_to_dec(10), "10");
    assert_eq!(u8_to_dec(42), "42");
    assert_eq!(u8_to_dec(255), "255");
}

#[test]
fn error_messages_name_their_subject() {
    assert_eq!(WabiError::ProtocolError.message(), "Failed to decode action payload");
    assert_eq!(
        WabiError::ModuleNotFound("dummy".to_string()).message(),
        "Module not found: dummy"
    );
    assert_eq!(
        WabiError::DuplicateModuleName("dummy".to_string()).message(),
        "Duplicate module name: dummy"
    );
    assert_eq!(
        WabiError::QueryResolutionError("Spin".to_string()).message(),
        "Unknown component name: Spin"
    );
}

#[test]
fn instance_state_transitions() {
    let state: InstanceState<u32> = InstanceState::Unloaded;
    assert!(state.is_none());
    assert!(!state.is_idle());
    assert!(!state.is_running());
    let state: InstanceState<u32> = InstanceState::Idle(11);
    assert!(state.is_idle());
    assert_eq!(state.take(), 11);
    let state: InstanceState<u32> = InstanceState::Running;
    assert!(state.is_running());
}

#[test]
fn context_setup_and_teardown() {
    let mut ctx = Context::new();
    assert!(ctx.is_empty());
    ctx.setup(3);
    assert!(!ctx.is_empty());
    ctx.teardown();
    assert!(ctx.is_empty());
    ctx.setup(4);
    ctx.teardown();
    assert!(ctx.is_empty());
}

#[test]
fn query_call_builds_a_decodable_query() {
    let registry = create_type_registry();
    let query = Query {
        components: vec!["Position".to_string()],
        filters: vec![Filter::Without("Frozen".to_string())],
    };
    let call = wabi::guest::query_call(query.clone());
    assert_eq!(call.action, 1);
    match decode_payload(&registry, &call.bytes) {
        Some(Payload::Query(back)) => assert_eq!(back, query),
        other => panic!("expected a query payload, got {:?}", other),
    }
}

#[test]
fn parse_query_response_accepts_only_fetch_payloads() {
    let registry = create_type_registry();
    let fetch = wabi::query::QueryFetch {
        items: vec![wabi::query::QueryFetchItem {
            entity: Entity { id: u32::MAX, generation: u32::MAX },
            components: vec![Component::Unsupported],
        }],
    };
    let bytes = encode_payload(&registry, &Payload::Fetch(fetch)).unwrap();
    let back = parse_query_response(&bytes).unwrap();
    assert_eq!(back.items[0].entity, Entity { id: u32::MAX, generation: u32::MAX });

    let log_bytes =
        encode_payload(&registry, &Payload::Log(LogMessage { level: 0, message: String::new() }))
            .unwrap();
    assert!(parse_query_response(&log_bytes).is_none());
    assert!(parse_query_response(&vec![1, 2, 3]).is_none());
}
