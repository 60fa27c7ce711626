use wr::graph::would_create_cycle;
use wr::models::{Dependency, Status, Wire, WireId};
use wr::store::Store;

fn make_dep(wire_id: &str, depends_on: &str) -> Dependency {
    Dependency {
        wire_id: WireId::from_trusted(wire_id.to_string()),
        depends_on: WireId::from_trusted(depends_on.to_string()),
    }
}

fn make_wire(id: &str) -> Wire {
    Wire {
        id: WireId::from_trusted(id.to_string()),
        title: format!("Wire {}", id),
        description: None,
        status: Status::Todo,
        created_at: 0,
        updated_at: 0,
        priority: 0,
    }
}

fn insert_test_wire(store: &mut Store, id: &str) {
    store.insert_wire(make_wire(id));
}

fn insert_test_dep(store: &mut Store, wire_id: &str, depends_on: &str) {
    store.add_dependency(wire_id, depends_on).unwrap();
}

#[test]
fn test_cycle_detection_self_reference() {
    let deps: Vec<Dependency> = vec![];

    let result = would_create_cycle(&deps, "a", "a");

    assert!(result.is_some());
    let cycle = result.unwrap();
    assert_eq!(cycle, vec!["a", "a"]);
}

#[test]
fn test_cycle_detection_direct_cycle() {
    // a depends on b
    let deps = vec![make_dep("a", "b")];

    // Would b -> a create a cycle? Yes: b -> a -> b
    let result = would_create_cycle(&deps, "b", "a");

    assert!(result.is_some());
}

#[test]
fn test_cycle_detection_indirect_cycle() {
    // Chain: a -> b -> c
    let deps = vec![make_dep("a", "b"), make_dep("b", "c")];

    // Would c -> a create a cycle? Yes: c -> a -> b -> c
    let result = would_create_cycle(&deps, "c", "a");

    assert!(result.is_some());
}

#[test]
fn test_cycle_detection_no_cycle() {
    // a -> b (no chain to c)
    let deps = vec![make_dep("a", "b")];

    // Would c -> a create a cycle? No, there's no path from a to c
    let result = would_create_cycle(&deps, "c", "a");

    assert!(result.is_none());
}

#[test]
fn test_cycle_detection_diamond_allowed() {
    // Diamond: d -> b, d -> c, b -> a, c -> a
    let deps = vec![
        make_dep("d", "b"),
        make_dep("d", "c"),
        make_dep("b", "a"),
        make_dep("c", "a"),
    ];

    // This is a valid DAG (diamond shape), not a cycle
    // Adding another dep from d to a should be allowed
    let result = would_create_cycle(&deps, "d", "a");

    assert!(result.is_none());
}

#[test]
fn test_fetch_wire_deps_empty() {
    let mut store = Store::new();
    insert_test_wire(&mut store, "a1b2c3d");

    let (depends_on, blocks) = store.fetch_wire_deps("a1b2c3d");

    assert!(depends_on.is_empty());
    assert!(blocks.is_empty());
}

#[test]
fn test_fetch_wire_deps_with_dependencies() {
    let mut store = Store::new();
    insert_test_wire(&mut store, "a1b2c3d");
    insert_test_wire(&mut store, "b2c3d4e");
    insert_test_dep(&mut store, "a1b2c3d", "b2c3d4e"); // a depends on b

    let (depends_on, blocks) = store.fetch_wire_deps("a1b2c3d");

    assert_eq!(depends_on.len(), 1);
    assert_eq!(depends_on[0].id.as_str(), "b2c3d4e");
    assert!(blocks.is_empty());
}

#[test]
fn test_fetch_wire_deps_with_blocks() {
    let mut store = Store::new();
    insert_test_wire(&mut store, "a1b2c3d");
    insert_test_wire(&mut store, "b2c3d4e");
    insert_test_dep(&mut store, "b2c3d4e", "a1b2c3d"); // b depends on a, so a blocks b

    let (depends_on, blocks) = store.fetch_wire_deps("a1b2c3d");

    assert!(depends_on.is_empty());
    assert_eq!(blocks.len(), 1);
    assert_eq!(blocks[0].id.as_str(), "b2c3d4e");
}

#[test]
fn test_fetch_wire_deps_both_directions() {
    let mut store = Store::new();
    insert_test_wire(&mut store, "a1b2c3d");
    insert_test_wire(&mut store, "b2c3d4e");
    insert_test_wire(&mut store, "c3d4e5f");

    // a depends on b, c depends on a
    insert_test_dep(&mut store, "a1b2c3d", "b2c3d4e");
    insert_test_dep(&mut store, "c3d4e5f", "a1b2c3d");

    let (depends_on, blocks) = store.fetch_wire_deps("a1b2c3d");

    assert_eq!(depends_on.len(), 1);
    assert_eq!(depends_on[0].id.as_str(), "b2c3d4e");
    assert_eq!(blocks.len(), 1);
    assert_eq!(blocks[0].id.as_str(), "c3d4e5f");
}

#[test]
fn test_list_wires_with_deps_empty() {
    let store = Store::new();

    let result = store.list_wires_with_deps(None);

    assert!(result.is_empty());
}

#[test]
fn test_list_wires_with_deps_includes_dependencies() {
    let mut store = Store::new();
    insert_test_wire(&mut store, "a1b2c3d");
    insert_test_wire(&mut store, "b2c3d4e");
    insert_test_dep(&mut store, "a1b2c3d", "b2c3d4e");

    let result = store.list_wires_with_deps(None);

    assert_eq!(result.len(), 2);

    // Find the wire that has a dependency
    let wire_a = result
        .iter()
        .find(|w| w.wire.id.as_str() == "a1b2c3d")
        .unwrap();
    assert_eq!(wire_a.depends_on.len(), 1);
    assert_eq!(wire_a.depends_on[0].id.as_str(), "b2c3d4e");

    // Find the wire that is depended on
    let wire_b = result
        .iter()
        .find(|w| w.wire.id.as_str() == "b2c3d4e")
        .unwrap();
    assert_eq!(wire_b.blocks.len(), 1);
    assert_eq!(wire_b.blocks[0].id.as_str(), "a1b2c3d");
}

#[test]
fn test_list_wires_with_deps_respects_status_filter() {
    let mut store = Store::new();
    insert_test_wire(&mut store, "a1b2c3d");

    // Change wire to DONE
    store
        .update_wire("a1b2c3d", None, None, Some(Status::Done), None, 1)
        .unwrap();

    // Filter by TODO should return empty
    let todo_result = store.list_wires_with_deps(Some(Status::Todo));
    assert!(todo_result.is_empty());

    // Filter by DONE should return the wire
    let done_result = store.list_wires_with_deps(Some(Status::Done));
    assert_eq!(done_result.len(), 1);
}

#[test]
fn test_list_wires_newest_first() {
    let mut store = Store::new();
    let mut early = make_wire("a1b2c3d");
    early.created_at = 100;
    let mut late = make_wire("b2c3d4e");
    late.created_at = 200;
    store.insert_wire(early);
    store.insert_wire(late);

    let listed = store.list_wires(None);
    assert_eq!(listed.len(), 2);
    assert_eq!(listed[0].id.as_str(), "b2c3d4e");
    assert_eq!(listed[1].id.as_str(), "a1b2c3d");
}
