use wabi::ecs::{Component, Entity};
use wabi::log::{LogMessage, Severity};
use wabi::mock::{GuestStep, MockRuntime};
use wabi::query::Query;
use wabi::runtime::{WabiError, WabiRuntime};
use wabi::store::{Archetype, Store};

fn small_store() -> Store {
    Store {
        component_names: vec!["Position".to_string()],
        archetypes: vec![Archetype {
            component_ids: vec![0],
            entities: vec![Entity { id: 1, generation: 0 }],
            rows: vec![vec![Component::Unsupported]],
        }],
    }
}

fn empty_bytes() -> Vec<u8> {
    Vec::new()
}

#[test]
fn load_then_run_logs_the_guest_lines() {
    let mut platform = MockRuntime::new();
    platform.push_script(vec![
        GuestStep::Log(2, "booted".to_string()),
        GuestStep::Log(4, "problem".to_string()),
    ]);
    let mut runtime = WabiRuntime::new(platform);
    let id = runtime.load_module("dummy", &empty_bytes()).unwrap();
    assert_eq!(id, 1);
    runtime.run(&small_store(), "dummy").unwrap();
    let log = runtime.take_log();
    assert_eq!(log.len(), 2);
    assert_eq!(log[0].severity, Severity::Info);
    assert_eq!(log[0].text, "booted");
    assert_eq!(log[1].severity, Severity::Error);
    assert_eq!(log[1].text, "problem");
    assert!(runtime.take_log().is_empty());
}

#[test]
fn duplicate_name_fails_and_changes_nothing() {
    let mut runtime = WabiRuntime::new(MockRuntime::new());
    let first = runtime.load_module("dummy", &empty_bytes()).unwrap();
    assert_eq!(first, 1);
    match runtime.load_module("dummy", &empty_bytes()) {
        Err(WabiError::DuplicateModuleName(name)) => assert_eq!(name, "dummy"),
        other => panic!("expected a duplicate-name error, got {:?}", other),
    }
    // The original module is still there and still runnable.
    assert_eq!(runtime.get_module_id("dummy").unwrap(), 1);
    runtime.run(&small_store(), "dummy").unwrap();
    let second = runtime.load_module("other", &empty_bytes()).unwrap();
    assert_eq!(second, 2);
}

#[test]
fn run_unknown_name_fails_without_guest_calls() {
    let mut runtime = WabiRuntime::new(MockRuntime::new());
    match runtime.run(&small_store(), "ghost") {
        Err(WabiError::ModuleNotFound(name)) => assert_eq!(name, "ghost"),
        other => panic!("expected a not-found error, got {:?}", other),
    }
    assert!(runtime.take_log().is_empty());
    match runtime.get_module_id("ghost") {
        Err(WabiError::ModuleNotFound(name)) => assert_eq!(name, "ghost"),
        other => panic!("expected a not-found error, got {:?}", other),
    }
}

#[test]
fn two_modules_run_sequentially_with_fresh_contexts() {
    let mut platform = MockRuntime::new();
    platform.push_script(vec![GuestStep::Log(2, "from a".to_string())]);
    platform.push_script(vec![GuestStep::Log(2, "from b".to_string())]);
    let mut runtime = WabiRuntime::new(platform);
    runtime.load_module("a", &empty_bytes()).unwrap();
    runtime.load_module("b", &empty_bytes()).unwrap();
    let store = small_store();
    runtime.run(&store, "a").unwrap();
    runtime.run(&store, "b").unwrap();
    let log = runtime.take_log();
    let texts: Vec<&str> = log.iter().map(|l| l.text.as_str()).collect();
    assert_eq!(texts, vec!["from a", "from b"]);
    // Running again: contexts were fully torn down, so both still run.
    runtime.run(&store, "a").unwrap();
    runtime.run(&store, "b").unwrap();
}

#[test]
fn run_all_runs_every_module_in_insertion_order() {
    let mut platform = MockRuntime::new();
    platform.push_script(vec![GuestStep::Log(1, "one".to_string())]);
    platform.push_script(vec![GuestStep::Log(1, "two".to_string())]);
    platform.push_script(vec![GuestStep::Log(1, "three".to_string())]);
    let mut runtime = WabiRuntime::new(platform);
    runtime.load_module("m1", &empty_bytes()).unwrap();
    runtime.load_module("m2", &empty_bytes()).unwrap();
    runtime.load_module("m3", &empty_bytes()).unwrap();
    runtime.run_all(&small_store());
    let log = runtime.take_log();
    let texts: Vec<&str> = log.iter().map(|l| l.text.as_str()).collect();
    assert_eq!(texts, vec!["one", "two", "three"]);
}

#[test]
fn guest_query_round_trips_through_the_coordinator() {
    let mut platform = MockRuntime::new();
    platform.push_script(vec![
        GuestStep::Query(Query { components: vec!["Position".to_string()], filters: vec![] }),
        GuestStep::Log(0, "queried".to_string()),
    ]);
    let mut runtime = WabiRuntime::new(platform);
    runtime.load_module("dummy", &empty_bytes()).unwrap();
    runtime.run(&small_store(), "dummy").unwrap();
    let log = runtime.take_log();
    // The query itself produces no host lines; the trailing log does.
    assert_eq!(log.len(), 1);
    assert_eq!(log[0].text, "queried");
}

#[test]
fn misbehaving_guest_bytes_are_logged_and_survived() {
    let mut platform = MockRuntime::new();
    platform.push_script(vec![
        GuestStep::Raw(vec![1, 2, 3, 4], 0),
        GuestStep::Test(LogMessage { level: 0, message: "still here".to_string() }),
    ]);
    let mut runtime = WabiRuntime::new(platform);
    runtime.load_module("dummy", &empty_bytes()).unwrap();
    runtime.run(&small_store(), "dummy").unwrap();
    let log = runtime.take_log();
    assert_eq!(log.len(), 2);
    assert_eq!(log[0].severity, Severity::Error);
    assert_eq!(log[0].text, "Failed to decode action payload");
    assert_eq!(log[1].severity, Severity::Debug);
    assert_eq!(log[1].text, "Received: LogMessage");
}
