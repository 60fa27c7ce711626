//! Output formatting, specified to the character: the wire table, the
//! wire detail view, and the DOT export of the dependency graph.

use crate::models::{
    spec_is_blocking, status_label, status_symbol, DependencyInfo, Status, Wire, WireId,
    WireWithDeps,
};
use crate::text::{dec_int, i32_to_string, join_view, join_with, seq_views, string_from_chars};
use vstd::prelude::*;
use vstd::string::*;

verus! {

/// Output format options: machine-readable JSON or a human-readable
/// table. Which one is in effect is decided at the presentation layer.
#[derive(Debug, Clone, Copy, PartialEq, Eq, Structural)]
pub enum Format {
    /// JSON output for programmatic parsing
    Json,
    /// Human-readable table format
    Table,
}

/// Keeps the dependencies that still block their dependents.
pub open spec fn blocking_pred() -> spec_fn(DependencyInfo) -> bool {
    |d: DependencyInfo| spec_is_blocking(d.status)
}

/// The ids of the dependencies that still block, in listing order.
pub open spec fn blocker_ids(deps: Seq<DependencyInfo>) -> Seq<Seq<char>> {
    deps.filter(blocking_pred()).map_values(|d: DependencyInfo| d.id@)
}

/// The table row suffix naming a wire's blockers, empty when none block.
pub open spec fn blocked_suffix(deps: Seq<DependencyInfo>) -> Seq<char> {
    if blocker_ids(deps).len() == 0 {
        Seq::empty()
    } else {
        "  ← blocked by "@ + join_view(blocker_ids(deps), ", "@)
    }
}

/// One row of the wire table: symbol, id, title, and the blocker suffix.
pub open spec fn wire_row_view(w: WireWithDeps) -> Seq<char> {
    status_symbol(w.wire.status) + " "@ + w.wire.id@ + "  "@ + w.wire.title@ + blocked_suffix(
        w.depends_on@,
    ) + "\n"@
}

/// The rows of the wire table, one per wire, in order.
pub open spec fn rows_view(ws: Seq<WireWithDeps>) -> Seq<char>
    decreases ws.len(),
{
    if ws.len() == 0 {
        Seq::empty()
    } else {
        rows_view(ws.drop_last()) + wire_row_view(ws.last())
    }
}

/// The whole wire table; an empty listing renders as a fixed message.
pub open spec fn wire_table_view(ws: Seq<WireWithDeps>) -> Seq<char> {
    if ws.len() == 0 {
        "No wires found."@
    } else {
        rows_view(ws)
    }
}

proof fn lemma_blocker_ids_push(deps: Seq<DependencyInfo>, d: DependencyInfo)
    ensures
        blocker_ids(deps.push(d)) == if spec_is_blocking(d.status) {
            blocker_ids(deps).push(d.id@)
        } else {
            blocker_ids(deps)
        },
{
    deps.lemma_filter_push(d, blocking_pred());
    if spec_is_blocking(d.status) {
        assert(blocker_ids(deps.push(d)) =~= blocker_ids(deps).push(d.id@));
    } else {
        assert(blocker_ids(deps.push(d)) =~= blocker_ids(deps));
    }
}

/// Collects the ids of the blocking dependencies, as strings.
fn collect_blockers(deps: &Vec<DependencyInfo>) -> (r: Vec<String>)
    ensures
        seq_views(r@) == blocker_ids(deps@),
{
    let mut out: Vec<String> = Vec::new();
    let mut j: usize = 0;
    proof {
        reveal(Seq::filter);
        assert(blocker_ids(deps@.take(0)) =~= Seq::<Seq<char>>::empty());
        assert(seq_views(out@) =~= blocker_ids(deps@.take(0)));
    }
    while j < deps.len()
        invariant
            j <= deps@.len(),
            seq_views(out@) == blocker_ids(deps@.take(j as int)),
        decreases deps@.len() - j,
    {
        if deps[j].status.is_blocking() {
            let ghost out0 = out@;
            out.push(deps[j].id.as_str().to_owned());
            proof {
                assert(seq_views(out@) =~= seq_views(out0).push(deps@[j as int].id@));
            }
        }
        proof {
            assert(deps@.take(j + 1 as int) =~= deps@.take(j as int).push(deps@[j as int]));
            lemma_blocker_ids_push(deps@.take(j as int), deps@[j as int]);
        }
        j = j + 1;
    }
    proof {
        assert(deps@.take(deps@.len() as int) =~= deps@);
    }
    out
}

/// Formats a list of wires as a table: one row per wire with its status
/// symbol, id and title, and — when blocking dependencies remain — the
/// ids that block it. An empty list renders as "No wires found.".
pub fn format_wire_table(wires: &[WireWithDeps]) -> (r: String)
    ensures
        r@ == wire_table_view(wires@),
{
    if wires.len() == 0 {
        return "No wires found.".to_owned();
    }
    let mut out = String::new();
    let mut i: usize = 0;
    proof {
        assert(out@ =~= rows_view(wires@.take(0)));
    }
    while i < wires.len()
        invariant
            i <= wires@.len(),
            out@ == rows_view(wires@.take(i as int)),
        decreases wires@.len() - i,
    {
        let ghost row_start = out@;
        let w = &wires[i];
        out.append(w.wire.status.symbol());
        out.append(" ");
        out.append(w.wire.id.as_str());
        out.append("  ");
        out.append(w.wire.title.as_str());
        let blockers = collect_blockers(&w.depends_on);
        if blockers.len() > 0 {
            out.append("  ← blocked by ");
            let joined = join_with(&blockers, ", ");
            out.append(joined.as_str());
        }
        out.append("\n");
        proof {
            assert(seq_views(blockers@).len() == blockers@.len());
            assert(out@ =~= row_start + wire_row_view(wires@[i as int]));
            assert(wires@.take(i + 1 as int).drop_last() =~= wires@.take(i as int));
            assert(wires@.take(i + 1 as int).last() == wires@[i as int]);
            assert(out@ =~= rows_view(wires@.take(i + 1 as int)));
        }
        i = i + 1;
    }
    proof {
        assert(wires@.take(wires@.len() as int) =~= wires@);
    }
    out
}

/// One line of a dependency listing in the detail view.
pub open spec fn info_line_view(d: DependencyInfo) -> Seq<char> {
    "  "@ + status_symbol(d.status) + " "@ + d.id@ + "  "@ + d.title@ + "\n"@
}

/// The lines of a dependency listing, in order.
pub open spec fn info_lines_view(ds: Seq<DependencyInfo>) -> Seq<char>
    decreases ds.len(),
{
    if ds.len() == 0 {
        Seq::empty()
    } else {
        info_lines_view(ds.drop_last()) + info_line_view(ds.last())
    }
}

/// The detail view of one wire: a compact header with symbol, id, title
/// and priority; the description when present; then the depends-on and
/// blocks listings when non-empty.
pub open spec fn wire_detail_view(w: WireWithDeps) -> Seq<char> {
    status_symbol(w.wire.status) + " "@ + w.wire.id@ + "  "@ + w.wire.title@ + "  [pri:"@ + dec_int(
        w.wire.priority as int,
    ) + "]\n"@ + (match w.wire.description {
        Some(d) => "\n"@ + d@ + "\n"@,
        None => Seq::<char>::empty(),
    }) + (if w.depends_on@.len() == 0 {
        Seq::<char>::empty()
    } else {
        "\nDepends on:\n"@ + info_lines_view(w.depends_on@)
    }) + (if w.blocks@.len() == 0 {
        Seq::<char>::empty()
    } else {
        "\nBlocks:\n"@ + info_lines_view(w.blocks@)
    })
}

/// Appends a dependency listing, one line per entry.
fn append_info_lines(out: &mut String, ds: &Vec<DependencyInfo>)
    ensures
        final (out)@ == old(out)@ + info_lines_view(ds@),
{
    let mut j: usize = 0;
    proof {
        assert(out@ =~= old(out)@ + info_lines_view(ds@.take(0)));
    }
    while j < ds.len()
        invariant
            j <= ds@.len(),
            out@ == old(out)@ + info_lines_view(ds@.take(j as int)),
        decreases ds@.len() - j,
    {
        let ghost line_start = out@;
        out.append("  ");
        out.append(ds[j].status.symbol());
        out.append(" ");
        out.append(ds[j].id.as_str());
        out.append("  ");
        out.append(ds[j].title.as_str());
        out.append("\n");
        proof {
            assert(out@ =~= line_start + info_line_view(ds@[j as int]));
            assert(ds@.take(j + 1 as int).drop_last() =~= ds@.take(j as int));
            assert(ds@.take(j + 1 as int).last() == ds@[j as int]);
            assert(out@ =~= old(out)@ + info_lines_view(ds@.take(j + 1 as int)));
        }
        j = j + 1;
    }
    proof {
        assert(ds@.take(ds@.len() as int) =~= ds@);
    }
}

/// Formats a wire's details: a compact single-line header, the
/// description when present, and the dependency listings.
pub fn format_wire_detail_table(wire: &WireWithDeps) -> (r: String)
    ensures
        r@ == wire_detail_view(*wire),
{
    let mut out = String::new();
    out.append(wire.wire.status.symbol());
    out.append(" ");
    out.append(wire.wire.id.as_str());
    out.append("  ");
    out.append(wire.wire.title.as_str());
    out.append("  [pri:");
    let pri = i32_to_string(wire.wire.priority);
    out.append(pri.as_str());
    out.append("]\n");
    let ghost after_header = out@;
    match &wire.wire.description {
        Some(d) => {
            out.append("\n");
            out.append(d.as_str());
            out.append("\n");
        },
        None => {},
    }
    let ghost after_desc = out@;
    if wire.depends_on.len() > 0 {
        out.append("\nDepends on:\n");
        append_info_lines(&mut out, &wire.depends_on);
    }
    let ghost after_deps = out@;
    if wire.blocks.len() > 0 {
        out.append("\nBlocks:\n");
        append_info_lines(&mut out, &wire.blocks);
    }
    proof {
        assert(out@ =~= wire_detail_view(*wire));
    }
    out
}

/// A node of the exported dependency graph.
pub struct GraphNode {
    /// Wire ID
    pub id: WireId,
    /// Wire title
    pub title: String,
    /// Current status
    pub status: Status,
    /// Priority level
    pub priority: i32,
}

/// A directed edge of the exported dependency graph: `from` depends on `to`.
pub struct GraphEdge {
    /// The wire that has the dependency
    pub from: WireId,
    /// The wire it depends on
    pub to: WireId,
}

/// The exported dependency graph: every wire as a node, every dependency
/// as an edge.
pub struct Graph {
    /// All wires, as nodes
    pub nodes: Vec<GraphNode>,
    /// All dependencies, as edges
    pub edges: Vec<GraphEdge>,
}

/// The node a wire exports as: id, title, status and priority.
pub open spec fn node_of(w: Wire) -> GraphNode {
    GraphNode { id: w.id, title: w.title, status: w.status, priority: w.priority }
}

/// All wires as nodes, in store order.
pub open spec fn graph_nodes_view(wires: Seq<Wire>) -> Seq<GraphNode> {
    wires.map_values(|w: Wire| node_of(w))
}

/// The edge a dependency exports as.
pub open spec fn edge_of(e: crate::models::Dependency) -> GraphEdge {
    GraphEdge { from: e.wire_id, to: e.depends_on }
}

/// All dependencies as edges, in store order.
pub open spec fn graph_edges_view(deps: Seq<crate::models::Dependency>) -> Seq<GraphEdge> {
    deps.map_values(|e: crate::models::Dependency| edge_of(e))
}

/// `title` with every double quote escaped for a DOT string.
pub open spec fn escape_quotes(s: Seq<char>) -> Seq<char>
    decreases s.len(),
{
    if s.len() == 0 {
        Seq::empty()
    } else {
        escape_quotes(s.drop_last()) + (if s.last() == '"' {
            seq!['\\', '"']
        } else {
            seq![s.last()]
        })
    }
}

/// One node line of the DOT output.
pub open spec fn dot_node_line(n: GraphNode) -> Seq<char> {
    "    \""@ + n.id@ + "\" [label=\""@ + escape_quotes(n.title@) + "\\n"@ + status_label(n.status)
        + "\"];\n"@
}

/// One edge line of the DOT output.
pub open spec fn dot_edge_line(e: GraphEdge) -> Seq<char> {
    "    \""@ + e.from@ + "\" -> \""@ + e.to@ + "\";\n"@
}

/// The node lines, in order.
pub open spec fn dot_node_lines(ns: Seq<GraphNode>) -> Seq<char>
    decreases ns.len(),
{
    if ns.len() == 0 {
        Seq::empty()
    } else {
        dot_node_lines(ns.drop_last()) + dot_node_line(ns.last())
    }
}

/// The edge lines, in order.
pub open spec fn dot_edge_lines(es: Seq<GraphEdge>) -> Seq<char>
    decreases es.len(),
{
    if es.len() == 0 {
        Seq::empty()
    } else {
        dot_edge_lines(es.drop_last()) + dot_edge_line(es.last())
    }
}

/// The whole DOT document for a graph.
pub open spec fn dot_view(g: Graph) -> Seq<char> {
    "digraph wires {\n    rankdir=LR;\n    node [shape=box];\n"@ + dot_node_lines(g.nodes@)
        + dot_edge_lines(g.edges@) + "}\n"@
}

/// Escapes double quotes in a title for DOT output.
fn escape_quotes_exec(s: &str) -> (r: String)
    ensures
        r@ == escape_quotes(s@),
{
    let mut chars: Vec<char> = Vec::new();
    let mut i: usize = 0;
    let n = s.unicode_len();
    proof {
        assert(chars@ =~= escape_quotes(s@.take(0)));
    }
    while i < n
        invariant
            n == s@.len(),
            i <= n,
            chars@ == escape_quotes(s@.take(i as int)),
        decreases n - i,
    {
        let c = s.get_char(i);
        if c == '"' {
            chars.push('\\');
            chars.push('"');
        } else {
            chars.push(c);
        }
        proof {
            assert(s@.take(i + 1 as int).drop_last() =~= s@.take(i as int));
            assert(s@.take(i + 1 as int).last() == s@[i as int]);
            if s@[i as int] == '"' {
                assert(chars@ =~= escape_quotes(s@.take(i as int)) + seq!['\\', '"']);
            } else {
                assert(chars@ =~= escape_quotes(s@.take(i as int)) + seq![s@[i as int]]);
            }
            assert(chars@ =~= escape_quotes(s@.take(i + 1 as int)));
        }
        i = i + 1;
    }
    proof {
        assert(s@.take(s@.len() as int) =~= s@);
    }
    string_from_chars(&chars)
}

/// Renders a graph in DOT form, for visualization.
pub fn format_graph_dot(g: &Graph) -> (r: String)
    ensures
        r@ == dot_view(*g),
{
    let mut out = String::new();
    out.append("digraph wires {\n    rankdir=LR;\n    node [shape=box];\n");
    let mut i: usize = 0;
    let ghost head = out@;
    while i < g.nodes.len()
        invariant
            i <= g.nodes@.len(),
            out@ == head + dot_node_lines(g.nodes@.take(i as int)),
        decreases g.nodes@.len() - i,
    {
        let ghost line_start = out@;
        let n = &g.nodes[i];
        out.append("    \"");
        out.append(n.id.as_str());
        out.append("\" [label=\"");
        let esc = escape_quotes_exec(n.title.as_str());
        out.append(esc.as_str());
        out.append("\\n");
        out.append(n.status.as_str());
        out.append("\"];\n");
        proof {
            assert(out@ =~= line_start + dot_node_line(g.nodes@[i as int]));
            assert(g.nodes@.take(i + 1 as int).drop_last() =~= g.nodes@.take(i as int));
            assert(g.nodes@.take(i + 1 as int).last() == g.nodes@[i as int]);
            assert(out@ =~= head + dot_node_lines(g.nodes@.take(i + 1 as int)));
        }
        i = i + 1;
    }
    proof {
        assert(g.nodes@.take(g.nodes@.len() as int) =~= g.nodes@);
    }
    let ghost after_nodes = out@;
    let mut j: usize = 0;
    while j < g.edges.len()
        invariant
            j <= g.edges@.len(),
            out@ == after_nodes + dot_edge_lines(g.edges@.take(j as int)),
        decreases g.edges@.len() - j,
    {
        let ghost line_start = out@;
        let e = &g.edges[j];
        out.append("    \"");
        out.append(e.from.as_str());
        out.append("\" -> \"");
        out.append(e.to.as_str());
        out.append("\";\n");
        proof {
            assert(out@ =~= line_start + dot_edge_line(g.edges@[j as int]));
            assert(g.edges@.take(j + 1 as int).drop_last() =~= g.edges@.take(j as int));
            assert(g.edges@.take(j + 1 as int).last() == g.edges@[j as int]);
            assert(out@ =~= after_nodes + dot_edge_lines(g.edges@.take(j + 1 as int)));
        }
        j = j + 1;
    }
    proof {
        assert(g.edges@.take(g.edges@.len() as int) =~= g.edges@);
    }
    out.append("}\n");
    proof {
        assert(out@ =~= dot_view(*g));
    }
    out
}

} // verus!
