use wr::id_from;
use wr::models::{Status, Wire, WireError, WireId};
use wr::store::Store;

fn make_wire(id: &str, status: Status, priority: i32) -> Wire {
    Wire {
        id: WireId::from_trusted(id.to_string()),
        title: format!("Wire {}", id),
        description: None,
        status,
        created_at: 0,
        updated_at: 0,
        priority,
    }
}

fn add_todo(store: &mut Store, id: &str) {
    store.insert_wire(make_wire(id, Status::Todo, 0));
}

#[test]
fn test_self_dependency_rejected_with_path() {
    let mut store = Store::new();
    add_todo(&mut store, "aaaaaaa");

    let result = store.add_dependency("aaaaaaa", "aaaaaaa");

    match result {
        Err(WireError::CircularDependency(path)) => {
            assert_eq!(path, vec!["aaaaaaa", "aaaaaaa"]);
        }
        other => panic!("expected a circular dependency, got {:?}", other),
    }
}

#[test]
fn test_indirect_cycle_rejected_with_covering_path() {
    let mut store = Store::new();
    add_todo(&mut store, "aaaaaaa");
    add_todo(&mut store, "bbbbbbb");
    add_todo(&mut store, "ccccccc");
    store.add_dependency("aaaaaaa", "bbbbbbb").unwrap();
    store.add_dependency("bbbbbbb", "ccccccc").unwrap();

    let result = store.add_dependency("ccccccc", "aaaaaaa");

    match result {
        Err(WireError::CircularDependency(path)) => {
            assert!(path.contains(&"aaaaaaa".to_string()));
            assert!(path.contains(&"bbbbbbb".to_string()));
            assert!(path.contains(&"ccccccc".to_string()));
            assert_eq!(path.first().map(String::as_str), Some("ccccccc"));
            assert_eq!(path.last().map(String::as_str), Some("ccccccc"));
        }
        other => panic!("expected a circular dependency, got {:?}", other),
    }
    // nothing was inserted
    let (depends_on, _) = store.fetch_wire_deps("ccccccc");
    assert!(depends_on.is_empty());
}

#[test]
fn test_diamond_is_accepted() {
    let mut store = Store::new();
    for id in ["dddaaaa", "bbbaaaa", "cccaaaa", "aaabbbb"] {
        add_todo(&mut store, id);
    }
    store.add_dependency("dddaaaa", "bbbaaaa").unwrap();
    store.add_dependency("dddaaaa", "cccaaaa").unwrap();
    store.add_dependency("bbbaaaa", "aaabbbb").unwrap();
    store.add_dependency("cccaaaa", "aaabbbb").unwrap();

    // two paths from d already reach a; the direct edge is still no cycle
    assert!(store.add_dependency("dddaaaa", "aaabbbb").is_ok());
}

#[test]
fn test_dependency_on_missing_wire_fails() {
    let mut store = Store::new();
    add_todo(&mut store, "aaaaaaa");

    match store.add_dependency("aaaaaaa", "zzzzzzz") {
        Err(WireError::WireNotFound(id)) => assert_eq!(id, "zzzzzzz"),
        other => panic!("expected wire-not-found, got {:?}", other),
    }
    match store.add_dependency("yyyyyyy", "aaaaaaa") {
        Err(WireError::WireNotFound(id)) => assert_eq!(id, "yyyyyyy"),
        other => panic!("expected wire-not-found, got {:?}", other),
    }
}

#[test]
fn test_idempotent_edge_add() {
    let mut store = Store::new();
    add_todo(&mut store, "aaaaaaa");
    add_todo(&mut store, "bbbbbbb");

    assert!(store.add_dependency("aaaaaaa", "bbbbbbb").is_ok());
    // adding the same valid edge twice does not error
    assert!(store.add_dependency("aaaaaaa", "bbbbbbb").is_ok());

    // and does not duplicate the edge
    let detail = store.get_wire_with_deps("aaaaaaa").unwrap();
    assert_eq!(detail.depends_on.len(), 1);
    assert_eq!(detail.depends_on[0].id.as_str(), "bbbbbbb");
}

#[test]
fn test_cascade_on_delete() {
    let mut store = Store::new();
    add_todo(&mut store, "aaaaaaa");
    add_todo(&mut store, "bbbbbbb");
    store.add_dependency("aaaaaaa", "bbbbbbb").unwrap();

    // deleting B removes the A -> B edge
    store.remove_wire("bbbbbbb").unwrap();

    let detail = store.get_wire_with_deps("aaaaaaa").unwrap();
    assert!(detail.depends_on.is_empty());
    assert!(detail.blocks.is_empty());
    // A itself is unaffected
    assert_eq!(detail.wire.title, "Wire aaaaaaa");
    assert_eq!(detail.wire.status, Status::Todo);
    assert!(!store.contains_wire("bbbbbbb"));
}

#[test]
fn test_remove_missing_wire_fails() {
    let mut store = Store::new();
    match store.remove_wire("zzzzzzz") {
        Err(WireError::WireNotFound(id)) => assert_eq!(id, "zzzzzzz"),
        other => panic!("expected wire-not-found, got {:?}", other),
    }
}

#[test]
fn test_remove_dependency_is_silent_when_absent() {
    let mut store = Store::new();
    add_todo(&mut store, "aaaaaaa");
    add_todo(&mut store, "bbbbbbb");

    // removing a dependency that was never added succeeds silently
    store.remove_dependency("aaaaaaa", "bbbbbbb");

    store.add_dependency("aaaaaaa", "bbbbbbb").unwrap();
    store.remove_dependency("aaaaaaa", "bbbbbbb");
    let detail = store.get_wire_with_deps("aaaaaaa").unwrap();
    assert!(detail.depends_on.is_empty());
}

#[test]
fn test_readiness_blocked_until_dependency_done() {
    let mut store = Store::new();
    add_todo(&mut store, "xxxxxxx");
    add_todo(&mut store, "ddddddd");
    store.add_dependency("xxxxxxx", "ddddddd").unwrap();

    // X depends on D (Todo): D is ready, X is not
    let ready = store.get_ready_wires();
    let ids: Vec<&str> = ready.iter().map(|w| w.id.as_str()).collect();
    assert!(ids.contains(&"ddddddd"));
    assert!(!ids.contains(&"xxxxxxx"));

    // after D is Done, X appears and D leaves
    store.set_status("ddddddd", Status::Done, 5).unwrap();
    let ready = store.get_ready_wires();
    let ids: Vec<&str> = ready.iter().map(|w| w.id.as_str()).collect();
    assert!(ids.contains(&"xxxxxxx"));
    assert!(!ids.contains(&"ddddddd"));
}

#[test]
fn test_readiness_cancelled_prerequisite_still_blocks() {
    let mut store = Store::new();
    add_todo(&mut store, "xxxxxxx");
    add_todo(&mut store, "ddddddd");
    store.add_dependency("xxxxxxx", "ddddddd").unwrap();

    store.set_status("ddddddd", Status::Cancelled, 5).unwrap();
    let ready = store.get_ready_wires();
    let ids: Vec<&str> = ready.iter().map(|w| w.id.as_str()).collect();
    assert!(!ids.contains(&"xxxxxxx"));
}

#[test]
fn test_readiness_ordering_in_progress_first() {
    let mut store = Store::new();
    store.insert_wire(make_wire("aaaaaaa", Status::InProgress, 1));
    store.insert_wire(make_wire("bbbbbbb", Status::Todo, 10));

    let ready = store.get_ready_wires();
    assert_eq!(ready.len(), 2);
    // the InProgress wire comes first despite its lower priority
    assert_eq!(ready[0].id.as_str(), "aaaaaaa");
    assert_eq!(ready[1].id.as_str(), "bbbbbbb");
}

#[test]
fn test_readiness_ordering_by_priority_within_status() {
    let mut store = Store::new();
    store.insert_wire(make_wire("aaaaaaa", Status::Todo, 2));
    store.insert_wire(make_wire("bbbbbbb", Status::Todo, 10));
    store.insert_wire(make_wire("ccccccc", Status::Todo, -1));

    let ready = store.get_ready_wires();
    let priorities: Vec<i32> = ready.iter().map(|w| w.priority).collect();
    assert_eq!(priorities, vec![10, 2, -1]);
}

#[test]
fn test_readiness_excludes_done_and_cancelled() {
    let mut store = Store::new();
    store.insert_wire(make_wire("aaaaaaa", Status::Done, 0));
    store.insert_wire(make_wire("bbbbbbb", Status::Cancelled, 0));
    store.insert_wire(make_wire("ccccccc", Status::Todo, 0));

    let ready = store.get_ready_wires();
    assert_eq!(ready.len(), 1);
    assert_eq!(ready[0].id.as_str(), "ccccccc");
}

#[test]
fn test_done_with_warnings() {
    let mut store = Store::new();
    add_todo(&mut store, "xxxxxxx");
    add_todo(&mut store, "ddddddd");
    store.add_dependency("xxxxxxx", "ddddddd").unwrap();

    // marking X Done while D is still Todo succeeds and warns about D
    let warnings = store.set_status("xxxxxxx", Status::Done, 42).unwrap();
    assert_eq!(warnings.len(), 1);
    assert_eq!(warnings[0].id.as_str(), "ddddddd");
    assert_eq!(warnings[0].status, Status::Todo);

    let detail = store.get_wire_with_deps("xxxxxxx").unwrap();
    assert_eq!(detail.wire.status, Status::Done);
    assert_eq!(detail.wire.updated_at, 42);
}

#[test]
fn test_done_without_incomplete_deps_has_no_warnings() {
    let mut store = Store::new();
    add_todo(&mut store, "xxxxxxx");
    add_todo(&mut store, "ddddddd");
    store.add_dependency("xxxxxxx", "ddddddd").unwrap();
    store.set_status("ddddddd", Status::Done, 1).unwrap();

    let warnings = store.set_status("xxxxxxx", Status::Done, 2).unwrap();
    assert!(warnings.is_empty());
}

#[test]
fn test_update_wire_fields() {
    let mut store = Store::new();
    add_todo(&mut store, "aaaaaaa");

    store
        .update_wire(
            "aaaaaaa",
            Some("New title"),
            Some(Some("New description")),
            Some(Status::InProgress),
            Some(7),
            99,
        )
        .unwrap();

    let detail = store.get_wire_with_deps("aaaaaaa").unwrap();
    assert_eq!(detail.wire.title, "New title");
    assert_eq!(detail.wire.description, Some("New description".to_string()));
    assert_eq!(detail.wire.status, Status::InProgress);
    assert_eq!(detail.wire.priority, 7);
    assert_eq!(detail.wire.updated_at, 99);
    assert_eq!(detail.wire.created_at, 0);
}

#[test]
fn test_update_wire_empty_description_clears_it() {
    let mut store = Store::new();
    add_todo(&mut store, "aaaaaaa");
    store
        .update_wire("aaaaaaa", None, Some(Some("something")), None, None, 1)
        .unwrap();
    store
        .update_wire("aaaaaaa", None, Some(Some("")), None, None, 2)
        .unwrap();

    let detail = store.get_wire_with_deps("aaaaaaa").unwrap();
    assert_eq!(detail.wire.description, None);
}

#[test]
fn test_update_missing_wire_fails() {
    let mut store = Store::new();
    match store.update_wire("zzzzzzz", Some("t"), None, None, None, 1) {
        Err(WireError::WireNotFound(id)) => assert_eq!(id, "zzzzzzz"),
        other => panic!("expected wire-not-found, got {:?}", other),
    }
}

#[test]
fn test_get_missing_wire_fails() {
    let store = Store::new();
    match store.get_wire_with_deps("zzzzzzz") {
        Err(WireError::WireNotFound(id)) => assert_eq!(id, "zzzzzzz"),
        Ok(_) => panic!("expected wire-not-found"),
        Err(other) => panic!("expected wire-not-found, got {:?}", other),
    }
}

#[test]
fn test_accepted_insertions_stay_acyclic_in_sequence() {
    let mut store = Store::new();
    for id in ["aaaaaaa", "bbbbbbb", "ccccccc", "ddddddd"] {
        add_todo(&mut store, id);
    }
    assert!(store.add_dependency("aaaaaaa", "bbbbbbb").is_ok());
    assert!(store.add_dependency("bbbbbbb", "ccccccc").is_ok());
    assert!(store.add_dependency("ccccccc", "ddddddd").is_ok());
    // every edge closing a loop is refused, at any distance
    assert!(matches!(
        store.add_dependency("ddddddd", "aaaaaaa"),
        Err(WireError::CircularDependency(_))
    ));
    assert!(matches!(
        store.add_dependency("ccccccc", "aaaaaaa"),
        Err(WireError::CircularDependency(_))
    ));
    assert!(matches!(
        store.add_dependency("bbbbbbb", "aaaaaaa"),
        Err(WireError::CircularDependency(_))
    ));
    // while edges that only extend the partial order still pass
    assert!(store.add_dependency("aaaaaaa", "ccccccc").is_ok());
    assert!(store.add_dependency("aaaaaaa", "ddddddd").is_ok());

    // a full traversal confirms the accepted edge set holds no cycle: an
    // existing edge (a, b) with b reaching back to a would be one
    let snapshot = store.graph_snapshot();
    let edges: Vec<wr::models::Dependency> = snapshot
        .edges
        .iter()
        .map(|e| wr::models::Dependency {
            wire_id: WireId::from_trusted(e.from.as_str().to_string()),
            depends_on: WireId::from_trusted(e.to.as_str().to_string()),
        })
        .collect();
    for e in &snapshot.edges {
        assert!(wr::graph::would_create_cycle(&edges, e.from.as_str(), e.to.as_str()).is_none());
    }
}

#[test]
fn test_graph_snapshot_contents() {
    let mut store = Store::new();
    add_todo(&mut store, "aaaaaaa");
    add_todo(&mut store, "bbbbbbb");
    store.add_dependency("aaaaaaa", "bbbbbbb").unwrap();

    let snapshot = store.graph_snapshot();
    assert_eq!(snapshot.nodes.len(), 2);
    assert_eq!(snapshot.nodes[0].id.as_str(), "aaaaaaa");
    assert_eq!(snapshot.nodes[0].title, "Wire aaaaaaa");
    assert_eq!(snapshot.nodes[1].id.as_str(), "bbbbbbb");
    assert_eq!(snapshot.edges.len(), 1);
    assert_eq!(snapshot.edges[0].from.as_str(), "aaaaaaa");
    assert_eq!(snapshot.edges[0].to.as_str(), "bbbbbbb");
}

#[test]
fn test_status_label_round_trip() {
    for st in [Status::Todo, Status::InProgress, Status::Done, Status::Cancelled] {
        assert_eq!(Status::parse(st.as_str()), Ok(st));
    }
}

#[test]
fn test_id_from_known_answer() {
    // SHA-256("Test wire123456789") begins 5253fa5...
    assert_eq!(id_from("Test wire", 123456789), "5253fa5");
    // SHA-256("alpha1") begins b24997a...
    assert_eq!(id_from("alpha", 1), "b24997a");
}

#[test]
fn test_generate_id_length() {
    let id = wr::generate_id("Test wire");
    assert_eq!(id.len(), 7);
}

#[test]
fn test_generate_id_uniqueness() {
    let id1 = wr::generate_id("Test wire");
    let id2 = wr::generate_id("Test wire");
    // Same title but different timestamps should produce different IDs
    assert_ne!(id1, id2);
}

#[test]
fn test_generate_id_hex_characters() {
    let id = wr::generate_id("Test wire");
    assert!(id.chars().all(|c| c.is_ascii_hexdigit()));
}

#[test]
fn test_generated_ids_validate() {
    let id = wr::generate_id("Another wire");
    assert!(WireId::new(&id).is_ok());
}
