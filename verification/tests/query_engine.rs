use wabi::ecs::{Component, Entity};
use wabi::query::{Filter, Query};
use wabi::reflect_query::dynamic_query;
use wabi::runtime::WabiError;
use wabi::store::{Archetype, Store};

fn scalar_row(n: usize) -> Vec<Component> {
    (0..n).map(|_| Component::Unsupported).collect()
}

/// Three entities in archetype {Position, Velocity}, two entities in
/// archetype {Position} only.
fn scenario_store() -> Store {
    Store {
        component_names: vec!["Position".to_string(), "Velocity".to_string()],
        archetypes: vec![
            Archetype {
                component_ids: vec![0, 1],
                entities: vec![
                    Entity { id: 1, generation: 0 },
                    Entity { id: 2, generation: 0 },
                    Entity { id: 3, generation: 1 },
                ],
                rows: vec![scalar_row(2), scalar_row(2), scalar_row(2)],
            },
            Archetype {
                component_ids: vec![0],
                entities: vec![Entity { id: 4, generation: 0 }, Entity { id: 5, generation: 2 }],
                rows: vec![scalar_row(1), scalar_row(1)],
            },
        ],
    }
}

fn names(v: &[&str]) -> Vec<String> {
    v.iter().map(|s| s.to_string()).collect()
}

#[test]
fn select_position_returns_all_five() {
    let store = scenario_store();
    let query = Query { components: names(&["Position"]), filters: vec![] };
    let fetch = dynamic_query(&store, &query).unwrap();
    assert_eq!(fetch.items.len(), 5);
    for item in &fetch.items {
        assert_eq!(item.components.len(), 1);
    }
    let ids: Vec<u32> = fetch.items.iter().map(|i| i.entity.id).collect();
    assert_eq!(ids, vec![1, 2, 3, 4, 5]);
}

#[test]
fn with_velocity_filter_keeps_first_archetype() {
    let store = scenario_store();
    let query = Query {
        components: names(&["Position"]),
        filters: vec![Filter::With("Velocity".to_string())],
    };
    let fetch = dynamic_query(&store, &query).unwrap();
    assert_eq!(fetch.items.len(), 3);
    let ids: Vec<u32> = fetch.items.iter().map(|i| i.entity.id).collect();
    assert_eq!(ids, vec![1, 2, 3]);
    for item in &fetch.items {
        assert_eq!(item.components.len(), 1);
    }
}

#[test]
fn without_velocity_filter_keeps_second_archetype() {
    let store = scenario_store();
    let query = Query {
        components: names(&["Position"]),
        filters: vec![Filter::Without("Velocity".to_string())],
    };
    let fetch = dynamic_query(&store, &query).unwrap();
    let ids: Vec<u32> = fetch.items.iter().map(|i| i.entity.id).collect();
    assert_eq!(ids, vec![4, 5]);
}

#[test]
fn changed_filter_constrains_nothing() {
    let store = scenario_store();
    let query = Query {
        components: names(&["Position"]),
        filters: vec![Filter::Changed("Position".to_string())],
    };
    let fetch = dynamic_query(&store, &query).unwrap();
    assert_eq!(fetch.items.len(), 5);
}

#[test]
fn unresolved_filter_clause_is_dropped() {
    let store = scenario_store();
    let query = Query {
        components: names(&["Position"]),
        filters: vec![Filter::With("NoSuchComponent".to_string())],
    };
    let fetch = dynamic_query(&store, &query).unwrap();
    assert_eq!(fetch.items.len(), 5);
}

#[test]
fn unknown_selected_component_fails_cleanly() {
    let store = scenario_store();
    let query = Query { components: names(&["Position", "Spin"]), filters: vec![] };
    match dynamic_query(&store, &query) {
        Err(WabiError::QueryResolutionError(name)) => assert_eq!(name, "Spin"),
        other => panic!("expected a resolution error, got {:?}", other),
    }
}

#[test]
fn repeated_queries_yield_equal_results() {
    let store = scenario_store();
    let query = Query {
        components: names(&["Position", "Velocity"]),
        filters: vec![Filter::With("Position".to_string())],
    };
    let first = dynamic_query(&store, &query).unwrap();
    let second = dynamic_query(&store, &query).unwrap();
    assert_eq!(first, second);
}

#[test]
fn selected_components_come_in_request_order() {
    let store = Store {
        component_names: vec!["A".to_string(), "B".to_string()],
        archetypes: vec![Archetype {
            component_ids: vec![1, 0],
            entities: vec![Entity { id: 1, generation: 0 }],
            rows: vec![vec![
                Component::TaggedVariant("IsB".to_string(), Box::new(Component::Unsupported)),
                Component::TaggedVariant("IsA".to_string(), Box::new(Component::Unsupported)),
            ]],
        }],
    };
    let query = Query { components: names(&["A", "B"]), filters: vec![] };
    let fetch = dynamic_query(&store, &query).unwrap();
    assert_eq!(fetch.items.len(), 1);
    let comps = &fetch.items[0].components;
    assert_eq!(
        comps[0],
        Component::TaggedVariant("IsA".to_string(), Box::new(Component::Unsupported))
    );
    assert_eq!(
        comps[1],
        Component::TaggedVariant("IsB".to_string(), Box::new(Component::Unsupported))
    );
}

#[test]
fn empty_store_yields_no_items() {
    let store = Store { component_names: vec!["Position".to_string()], archetypes: vec![] };
    let query = Query { components: names(&["Position"]), filters: vec![] };
    let fetch = dynamic_query(&store, &query).unwrap();
    assert!(fetch.items.is_empty());
}

#[test]
fn empty_selection_matches_every_entity() {
    let store = scenario_store();
    let query = Query { components: vec![], filters: vec![] };
    let fetch = dynamic_query(&store, &query).unwrap();
    assert_eq!(fetch.items.len(), 5);
    for item in &fetch.items {
        assert!(item.components.is_empty());
    }
}

#[test]
fn reused_slot_is_a_distinct_entity() {
    let a = Entity { id: 4, generation: 0 };
    let b = Entity { id: 4, generation: 1 };
    assert_ne!(a, b);
    assert_eq!(a, Entity { id: 4, generation: 0 });
}
