use wabi::action::Action;
use wabi::ecs::{clone_component, Component, Entity};
use wabi::log::LogMessage;
use wabi::query::{Filter, Query, QueryFetch, QueryFetchItem};
use wabi::registry::{create_type_registry, decode_payload, encode_payload, Payload, TypeRegistry};

fn fieldmap(fields: Vec<(&str, Component)>) -> Component {
    Component::FieldMap(fields.into_iter().map(|(n, c)| (n.to_string(), c)).collect())
}

fn sample_component() -> Component {
    fieldmap(vec![
        ("translation", fieldmap(vec![("x", Component::Unsupported), ("y", Component::Unsupported)])),
        (
            "shape",
            Component::TaggedVariant(
                "Circle".to_string(),
                Box::new(fieldmap(vec![("radius", Component::Unsupported)])),
            ),
        ),
        ("tag", Component::TaggedVariant("Empty".to_string(), Box::new(Component::Unsupported))),
    ])
}

#[test]
fn action_codes_round_trip() {
    assert_eq!(Action::LOG.code(), 0);
    assert_eq!(Action::QUERY.code(), 1);
    assert_eq!(Action::TEST.code(), 254);
    assert_eq!(Action::INVALID.code(), 255);
    for a in [Action::LOG, Action::QUERY, Action::TEST, Action::INVALID] {
        assert_eq!(Action::from_code(a.code()), a);
    }
}

#[test]
fn unrecognized_codes_decode_to_invalid() {
    for code in [2u8, 3, 7, 100, 253] {
        assert_eq!(Action::from_code(code), Action::INVALID);
    }
}

#[test]
fn log_payload_round_trip() {
    let registry = create_type_registry();
    let msg = LogMessage { level: 3, message: "grüße, 世界! 🎮".to_string() };
    let bytes = encode_payload(&registry, &Payload::Log(msg.clone())).unwrap();
    match decode_payload(&registry, &bytes) {
        Some(Payload::Log(back)) => assert_eq!(back, msg),
        other => panic!("expected a log payload, got {:?}", other),
    }
}

#[test]
fn query_payload_round_trip() {
    let registry = create_type_registry();
    let query = Query {
        components: vec!["Position".to_string(), "Velocity".to_string()],
        filters: vec![
            Filter::With("Player".to_string()),
            Filter::Without("Frozen".to_string()),
            Filter::Changed("Position".to_string()),
        ],
    };
    let bytes = encode_payload(&registry, &Payload::Query(query.clone())).unwrap();
    match decode_payload(&registry, &bytes) {
        Some(Payload::Query(back)) => assert_eq!(back, query),
        other => panic!("expected a query payload, got {:?}", other),
    }
}

fn sample_fetch() -> QueryFetch {
    QueryFetch {
        items: vec![
            QueryFetchItem {
                entity: Entity { id: 7, generation: 2 },
                components: vec![sample_component(), Component::Unsupported],
            },
            QueryFetchItem {
                entity: Entity { id: 9, generation: 1 },
                components: vec![Component::TaggedVariant(
                    "Leaf".to_string(),
                    Box::new(sample_component()),
                )],
            },
        ],
    }
}

#[test]
fn fetch_payload_round_trip_with_nested_components() {
    let registry = create_type_registry();
    let bytes = encode_payload(&registry, &Payload::Fetch(sample_fetch())).unwrap();
    match decode_payload(&registry, &bytes) {
        Some(Payload::Fetch(back)) => assert_eq!(back, sample_fetch()),
        other => panic!("expected a fetch payload, got {:?}", other),
    }
}

#[test]
fn empty_fetch_round_trip() {
    let registry = create_type_registry();
    let bytes = encode_payload(&registry, &Payload::Fetch(QueryFetch { items: vec![] })).unwrap();
    match decode_payload(&registry, &bytes) {
        Some(Payload::Fetch(back)) => assert_eq!(back, QueryFetch { items: vec![] }),
        other => panic!("expected a fetch payload, got {:?}", other),
    }
}

#[test]
fn encoding_is_not_the_identity() {
    // The wire bytes carry the type name inline, so they differ from any
    // naive image of the message fields.
    let registry = create_type_registry();
    let msg = LogMessage { level: 0, message: String::new() };
    let bytes = encode_payload(&registry, &Payload::Log(msg)).unwrap();
    // type name count (8) + "LogMessage" (40) + level (1) + text count (8)
    assert_eq!(bytes.len(), 8 + 40 + 1 + 8);
    assert_eq!(&bytes[0..8], &[10, 0, 0, 0, 0, 0, 0, 0]);
    assert_eq!(&bytes[8..12], &[b'L' as u8, 0, 0, 0]);
}

#[test]
fn decode_rejects_garbage() {
    let registry = create_type_registry();
    assert!(decode_payload(&registry, &vec![]).is_none());
    assert!(decode_payload(&registry, &vec![1, 2, 3]).is_none());
    let huge_count = vec![255u8; 16];
    assert!(decode_payload(&registry, &huge_count).is_none());
}

#[test]
fn decode_rejects_truncated_payload() {
    let registry = create_type_registry();
    let msg = LogMessage { level: 1, message: "hello".to_string() };
    let mut bytes = encode_payload(&registry, &Payload::Log(msg)).unwrap();
    bytes.pop();
    assert!(decode_payload(&registry, &bytes).is_none());
}

#[test]
fn decode_rejects_trailing_bytes() {
    let registry = create_type_registry();
    let msg = LogMessage { level: 1, message: "hello".to_string() };
    let mut bytes = encode_payload(&registry, &Payload::Log(msg)).unwrap();
    bytes.push(0);
    assert!(decode_payload(&registry, &bytes).is_none());
}

#[test]
fn decode_requires_registered_type_name() {
    let registry = create_type_registry();
    let empty = TypeRegistry::new();
    let msg = LogMessage { level: 2, message: "hi".to_string() };
    let bytes = encode_payload(&registry, &Payload::Log(msg)).unwrap();
    assert!(decode_payload(&empty, &bytes).is_none());
    assert!(encode_payload(&empty, &Payload::Log(LogMessage { level: 0, message: String::new() }))
        .is_none());
}

#[test]
fn registry_contains_api_types() {
    let registry = create_type_registry();
    for name in ["LogMessage", "Query", "QueryFetch", "QueryFetchItem"] {
        assert!(registry.contains(&name.to_string()));
    }
    assert!(!registry.contains(&"Position".to_string()));
    let empty = TypeRegistry::new();
    assert!(!empty.contains(&"LogMessage".to_string()));
}

#[test]
fn clone_component_preserves_structure() {
    let c = sample_component();
    let copy = clone_component(&c);
    assert_eq!(copy, c);
}
