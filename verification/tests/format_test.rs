use wr::format::{format_graph_dot, format_wire_detail_table, format_wire_table, Graph, GraphEdge,
    GraphNode};
use wr::models::{DependencyInfo, Status, Wire, WireId, WireWithDeps};

fn make_test_wire(id: &str, title: &str, status: Status) -> Wire {
    Wire {
        id: WireId::new(id).unwrap(),
        title: title.to_string(),
        description: None,
        status,
        created_at: 0,
        updated_at: 0,
        priority: 0,
    }
}

fn make_test_dep(id: &str, title: &str, status: Status) -> DependencyInfo {
    DependencyInfo {
        id: WireId::new(id).unwrap(),
        title: title.to_string(),
        status,
    }
}

#[test]
fn test_format_wire_table_empty() {
    let wires = vec![];
    let output = format_wire_table(&wires);
    assert_eq!(output, "No wires found.");
}

#[test]
fn test_format_wire_table_single_wire() {
    let wire = make_test_wire("a1b2c3d", "Test wire", Status::Todo);
    let wire_with_deps = WireWithDeps {
        wire,
        depends_on: vec![],
        blocks: vec![],
    };
    let output = format_wire_table(&[wire_with_deps]);

    assert!(output.contains("a1b2c3d"));
    assert!(output.contains("Test wire"));
    assert!(output.contains(Status::Todo.symbol()));
}

#[test]
fn test_format_wire_table_shows_blockers() {
    let wire = make_test_wire("a1b2c3d", "Blocked wire", Status::Todo);
    let dep = make_test_dep("b2c3d4e", "Blocker", Status::InProgress);
    let wire_with_deps = WireWithDeps {
        wire,
        depends_on: vec![dep],
        blocks: vec![],
    };
    let output = format_wire_table(&[wire_with_deps]);

    assert!(output.contains("Blocked wire"));
    assert!(output.contains("← blocked by b2c3d4e"));
}

#[test]
fn test_format_wire_table_no_blocker_for_done_deps() {
    let wire = make_test_wire("a1b2c3d", "Unblocked wire", Status::Todo);
    let dep = make_test_dep("b2c3d4e", "Done blocker", Status::Done);
    let wire_with_deps = WireWithDeps {
        wire,
        depends_on: vec![dep],
        blocks: vec![],
    };
    let output = format_wire_table(&[wire_with_deps]);

    assert!(output.contains("Unblocked wire"));
    assert!(!output.contains("← blocked by"));
}

#[test]
fn test_format_wire_table_no_blocker_for_cancelled_deps() {
    let wire = make_test_wire("a1b2c3d", "Unblocked wire", Status::Todo);
    let dep = make_test_dep("b2c3d4e", "Cancelled blocker", Status::Cancelled);
    let wire_with_deps = WireWithDeps {
        wire,
        depends_on: vec![dep],
        blocks: vec![],
    };
    let output = format_wire_table(&[wire_with_deps]);

    assert!(output.contains("Unblocked wire"));
    assert!(!output.contains("← blocked by"));
}

#[test]
fn test_format_wire_table_multiple_blockers() {
    let wire = make_test_wire("a1b2c3d", "Multi-blocked", Status::Todo);
    let dep1 = make_test_dep("b2c3d4e", "Blocker 1", Status::Todo);
    let dep2 = make_test_dep("c3d4e5f", "Blocker 2", Status::InProgress);
    let wire_with_deps = WireWithDeps {
        wire,
        depends_on: vec![dep1, dep2],
        blocks: vec![],
    };
    let output = format_wire_table(&[wire_with_deps]);

    assert!(output.contains("← blocked by b2c3d4e, c3d4e5f"));
}

#[test]
fn test_format_wire_detail_table_compact_header() {
    let wire = make_test_wire("a1b2c3d", "Test wire", Status::InProgress);
    let wire_with_deps = WireWithDeps {
        wire: Wire { priority: 2, ..wire },
        depends_on: vec![],
        blocks: vec![],
    };
    let output = format_wire_detail_table(&wire_with_deps);

    // Should have compact header with symbol, id, title, priority
    assert!(output.contains("a1b2c3d"));
    assert!(output.contains("Test wire"));
    assert!(output.contains("[pri:2]"));
    assert!(output.contains(Status::InProgress.symbol()));
}

#[test]
fn test_format_wire_detail_table_with_description() {
    let wire = Wire {
        description: Some("Test description".to_string()),
        ..make_test_wire("a1b2c3d", "Test wire", Status::Todo)
    };
    let wire_with_deps = WireWithDeps {
        wire,
        depends_on: vec![],
        blocks: vec![],
    };
    let output = format_wire_detail_table(&wire_with_deps);

    assert!(output.contains("Test description"));
}

#[test]
fn test_format_wire_detail_table_with_dependencies() {
    let wire = make_test_wire("a1b2c3d", "Test wire", Status::Todo);
    let dep = make_test_dep("b2c3d4e", "Dependency", Status::Done);
    let wire_with_deps = WireWithDeps {
        wire,
        depends_on: vec![dep],
        blocks: vec![],
    };
    let output = format_wire_detail_table(&wire_with_deps);

    assert!(output.contains("Depends on:"));
    assert!(output.contains("b2c3d4e"));
    assert!(output.contains("Dependency"));
    assert!(output.contains(Status::Done.symbol()));
}

#[test]
fn test_format_wire_detail_table_with_blocks() {
    let wire = make_test_wire("a1b2c3d", "Test wire", Status::Done);
    let blocker = make_test_dep("b2c3d4e", "Blocked task", Status::Todo);
    let wire_with_deps = WireWithDeps {
        wire,
        depends_on: vec![],
        blocks: vec![blocker],
    };
    let output = format_wire_detail_table(&wire_with_deps);

    assert!(output.contains("Blocks:"));
    assert!(output.contains("b2c3d4e"));
    assert!(output.contains("Blocked task"));
}

#[test]
fn test_format_wire_detail_table_exact_output() {
    let wire = Wire {
        description: Some("Why it matters".to_string()),
        priority: -1,
        ..make_test_wire("a1b2c3d", "Test wire", Status::Todo)
    };
    let dep = make_test_dep("b2c3d4e", "Dependency", Status::Done);
    let wire_with_deps = WireWithDeps {
        wire,
        depends_on: vec![dep],
        blocks: vec![],
    };
    let output = format_wire_detail_table(&wire_with_deps);
    let expected = format!(
        "{} a1b2c3d  Test wire  [pri:-1]\n\nWhy it matters\n\nDepends on:\n  {} b2c3d4e  Dependency\n",
        Status::Todo.symbol(),
        Status::Done.symbol()
    );
    assert_eq!(output, expected);
}

#[test]
fn test_format_graph_dot_structure() {
    let graph = Graph {
        nodes: vec![
            GraphNode {
                id: WireId::new("a1b2c3d").unwrap(),
                title: "Say \"hi\"".to_string(),
                status: Status::Todo,
                priority: 0,
            },
            GraphNode {
                id: WireId::new("b2c3d4e").unwrap(),
                title: "Other".to_string(),
                status: Status::Done,
                priority: 1,
            },
        ],
        edges: vec![GraphEdge {
            from: WireId::new("a1b2c3d").unwrap(),
            to: WireId::new("b2c3d4e").unwrap(),
        }],
    };
    let output = format_graph_dot(&graph);
    assert!(output.starts_with("digraph wires {\n"));
    assert!(output.contains("    rankdir=LR;\n"));
    assert!(output.contains("    node [shape=box];\n"));
    assert!(output.contains("    \"a1b2c3d\" [label=\"Say \\\"hi\\\"\\nTODO\"];\n"));
    assert!(output.contains("    \"b2c3d4e\" [label=\"Other\\nDONE\"];\n"));
    assert!(output.contains("    \"a1b2c3d\" -> \"b2c3d4e\";\n"));
    assert!(output.ends_with("}\n"));
}
