//! The cycle guard: a mathematical model of the dependency graph
//! (edges, walks, reachability, acyclicity), the lemmas the engine's
//! invariant rests on, and the verified depth-first search that decides
//! whether a proposed edge would close a cycle.

use crate::models::Dependency;
use crate::text::str_eq;
use vstd::prelude::*;
use vstd::string::*;

verus! {

/// Whether the edge set holds a direct dependency of `a` on `b`.
pub open spec fn has_edge(deps: Seq<Dependency>, a: Seq<char>, b: Seq<char>) -> bool {
    exists|i: int|
        0 <= i < deps.len() && (#[trigger] deps[i]).wire_id@ == a && deps[i].depends_on@ == b
}

/// Whether `p` is a walk through the edge set: at least one node, and
/// each node depends directly on the next.
pub open spec fn is_path(deps: Seq<Dependency>, p: Seq<Seq<char>>) -> bool {
    p.len() >= 1 && forall|i: int| 0 <= i < p.len() - 1 ==> has_edge(deps, #[trigger] p[i], p[i + 1])
}

/// Whether `b` can be reached from `a` by following dependency edges
/// (trivially true when `a == b`).
pub open spec fn reaches(deps: Seq<Dependency>, a: Seq<char>, b: Seq<char>) -> bool {
    exists|p: Seq<Seq<char>>| #[trigger] is_path(deps, p) && p.first() == a && p.last() == b
}

/// Whether the edge set is free of cycles: no walk of two or more nodes
/// returns to its starting node.
pub open spec fn acyclic(deps: Seq<Dependency>) -> bool {
    forall|p: Seq<Seq<char>>| #[trigger] is_path(deps, p) && p.len() >= 2 ==> p.first() != p.last()
}

/// Every node reaches itself.
pub proof fn lemma_reaches_self(deps: Seq<Dependency>, a: Seq<char>)
    ensures
        reaches(deps, a, a),
{
    let p = seq![a];
    assert(is_path(deps, p));
    assert(p.first() == a && p.last() == a);
}

/// Reachability extends along an edge.
pub proof fn lemma_reaches_push(deps: Seq<Dependency>, a: Seq<char>, b: Seq<char>, c: Seq<char>)
    requires
        reaches(deps, a, b),
        has_edge(deps, b, c),
    ensures
        reaches(deps, a, c),
{
    let p = choose|p: Seq<Seq<char>>| #[trigger] is_path(deps, p) && p.first() == a && p.last()
        == b;
    let q = p.push(c);
    assert forall|i: int| 0 <= i < q.len() - 1 implies has_edge(deps, #[trigger] q[i], q[i + 1]) by {
        if i < p.len() - 1 {
            assert(has_edge(deps, p[i], p[i + 1]));
        } else {
            assert(q[i] == p.last() && q[i + 1] == c);
        }
    }
    assert(is_path(deps, q) && q.first() == a && q.last() == c);
}

/// A set of ids (given as the views of a vector of strings) holds `x`.
pub open spec fn id_in(v: Seq<String>, x: Seq<char>) -> bool {
    exists|i: int| 0 <= i < v.len() && (#[trigger] v[i])@ == x
}

/// Everything reachable from a member of a successor-closed id set is a
/// member of the set.
proof fn lemma_closed_reach(deps: Seq<Dependency>, vis: Seq<String>, p: Seq<Seq<char>>)
    requires
        is_path(deps, p),
        id_in(vis, p.first()),
        forall|x: Seq<char>, y: Seq<char>|
            #[trigger] id_in(vis, x) && #[trigger] has_edge(deps, x, y) ==> id_in(vis, y),
    ensures
        id_in(vis, p.last()),
    decreases p.len(),
{
    if p.len() == 1 {
    } else {
        assert(has_edge(deps, p[0], p[1]));
        assert(id_in(vis, p[1]));
        let q = p.drop_first();
        assert(is_path(deps, q)) by {
            assert forall|i: int| 0 <= i < q.len() - 1 implies has_edge(
                deps,
                #[trigger] q[i],
                q[i + 1],
            ) by {
                assert(q[i] == p[i + 1] && q[i + 1] == p[i + 2]);
                assert(has_edge(deps, p[i + 1], p[i + 2]));
            }
        }
        lemma_closed_reach(deps, vis, q);
        assert(q.last() == p.last());
    }
}

/// A walk through an edge set extended by one edge that runs from the new
/// edge's target back to its source witnesses reachability in the old set.
proof fn lemma_path_in_extended(deps: Seq<Dependency>, e: Dependency, p: Seq<Seq<char>>)
    requires
        is_path(deps.push(e), p),
        p.first() == e.depends_on@,
        p.last() == e.wire_id@,
        e.wire_id@ != e.depends_on@,
    ensures
        reaches(deps, e.depends_on@, e.wire_id@),
    decreases p.len(),
{
    let w = e.wire_id@;
    let d = e.depends_on@;
    if exists|k: int| 0 <= k < p.len() - 1 && #[trigger] p[k] == w && p[k + 1] == d {
        let k = choose|k: int| 0 <= k < p.len() - 1 && #[trigger] p[k] == w && p[k + 1] == d;
        if k == 0 {
            assert(p[0] == d && p[0] == w);
            assert(false);
        }
        let q = p.subrange(0, k + 1);
        assert(is_path(deps.push(e), q)) by {
            assert forall|i: int| 0 <= i < q.len() - 1 implies has_edge(
                deps.push(e),
                #[trigger] q[i],
                q[i + 1],
            ) by {
                assert(q[i] == p[i] && q[i + 1] == p[i + 1]);
                assert(has_edge(deps.push(e), p[i], p[i + 1]));
            }
        }
        assert(q.first() == d && q.last() == p[k]);
        lemma_path_in_extended(deps, e, q);
    } else {
        assert(is_path(deps, p)) by {
            assert forall|i: int| 0 <= i < p.len() - 1 implies has_edge(
                deps,
                #[trigger] p[i],
                p[i + 1],
            ) by {
                assert(has_edge(deps.push(e), p[i], p[i + 1]));
                let j = choose|j: int|
                    0 <= j < deps.push(e).len() && (#[trigger] deps.push(e)[j]).wire_id@ == p[i]
                        && deps.push(e)[j].depends_on@ == p[i + 1];
                if j < deps.len() {
                    assert(deps[j] == deps.push(e)[j]);
                } else {
                    assert(deps.push(e)[j] == e);
                    assert(p[i] == w && p[i + 1] == d);
                    assert(false);
                }
            }
        }
        assert(reaches(deps, d, w));
    }
}

/// Adding an edge whose target does not already reach its source keeps
/// the edge set acyclic. This is the heart of the engine's invariant:
/// every state grown by checked insertions stays a directed acyclic graph.
pub proof fn lemma_insert_preserves_acyclic(deps: Seq<Dependency>, e: Dependency)
    requires
        acyclic(deps),
        e.wire_id@ != e.depends_on@,
        !reaches(deps, e.depends_on@, e.wire_id@),
    ensures
        acyclic(deps.push(e)),
{
    let w = e.wire_id@;
    let d = e.depends_on@;
    let deps2 = deps.push(e);
    assert forall|p: Seq<Seq<char>>| #[trigger] is_path(deps2, p) && p.len() >= 2 implies p.first()
        != p.last() by {
        if p.first() == p.last() {
            if exists|k: int| 0 <= k < p.len() - 1 && #[trigger] p[k] == w && p[k + 1] == d {
                let k = choose|k: int|
                    0 <= k < p.len() - 1 && #[trigger] p[k] == w && p[k + 1] == d;
                let n = p.len() as int;
                let r = p.subrange(k + 1, n) + p.subrange(1, k + 1);
                assert(r.len() == n - 1);
                assert(r.first() == p[k + 1]);
                assert(r.last() == if k == 0 {
                    p[n - 1]
                } else {
                    p[k]
                });
                assert(is_path(deps2, r)) by {
                    assert forall|i: int| 0 <= i < r.len() - 1 implies has_edge(
                        deps2,
                        #[trigger] r[i],
                        r[i + 1],
                    ) by {
                        if i < n - k - 2 {
                            assert(r[i] == p[k + 1 + i] && r[i + 1] == p[k + 2 + i]);
                            assert(has_edge(deps2, p[k + 1 + i], p[k + 2 + i]));
                        } else if i == n - k - 2 {
                            assert(r[i] == p[n - 1] && r[i + 1] == p[1]);
                            assert(p[n - 1] == p[0]);
                            assert(has_edge(deps2, p[0], p[1]));
                        } else {
                            let m = i - (n - k - 1);
                            assert(r[i] == p[1 + m] && r[i + 1] == p[2 + m]);
                            assert(has_edge(deps2, p[1 + m], p[2 + m]));
                        }
                    }
                }
                if k == 0 {
                    assert(r.last() == p[n - 1] && p[n - 1] == p[0] && p[0] == w);
                } else {
                    assert(r.last() == w);
                }
                lemma_path_in_extended(deps, e, r);
                assert(false);
            } else {
                assert(is_path(deps, p)) by {
                    assert forall|i: int| 0 <= i < p.len() - 1 implies has_edge(
                        deps,
                        #[trigger] p[i],
                        p[i + 1],
                    ) by {
                        assert(has_edge(deps2, p[i], p[i + 1]));
                        let j = choose|j: int|
                            0 <= j < deps2.len() && (#[trigger] deps2[j]).wire_id@ == p[i]
                                && deps2[j].depends_on@ == p[i + 1];
                        if j < deps.len() {
                            assert(deps[j] == deps2[j]);
                        } else {
                            assert(deps2[j] == e);
                            assert(false);
                        }
                    }
                }
                assert(false);
            }
        }
    }
}

/// In an acyclic edge set, the target of an existing edge never reaches
/// the edge's source: re-proposing an edge that is already present can
/// never be reported as a cycle.
pub proof fn lemma_edge_no_back_reach(deps: Seq<Dependency>, w: Seq<char>, d: Seq<char>)
    requires
        acyclic(deps),
        has_edge(deps, w, d),
        w != d,
    ensures
        !reaches(deps, d, w),
{
    if reaches(deps, d, w) {
        let p = choose|p: Seq<Seq<char>>| #[trigger] is_path(deps, p) && p.first() == d && p.last()
            == w;
        let q = p.push(d);
        assert(is_path(deps, q)) by {
            assert forall|i: int| 0 <= i < q.len() - 1 implies has_edge(
                deps,
                #[trigger] q[i],
                q[i + 1],
            ) by {
                if i < p.len() - 1 {
                    assert(has_edge(deps, p[i], p[i + 1]));
                } else {
                    assert(q[i] == p.last() && q[i + 1] == d);
                }
            }
        }
        assert(q.len() >= 2 && q.first() == d && q.last() == d);
        assert(false);
    }
}

/// An acyclic edge set has no self-edge.
pub proof fn lemma_acyclic_no_self_edge(deps: Seq<Dependency>, x: Seq<char>)
    requires
        acyclic(deps),
    ensures
        !has_edge(deps, x, x),
{
    if has_edge(deps, x, x) {
        let p = seq![x, x];
        assert(p.first() == x && p.last() == x && p.len() == 2);
        assert(forall|i: int| 0 <= i < p.len() - 1 ==> has_edge(deps, #[trigger] p[i], p[i + 1]));
        assert(is_path(deps, p));
        assert(false);
    }
}

/// The shape of the evidence returned when a proposed edge `(w, d)` is
/// rejected: a concrete walk that begins and ends at `w`, enters the
/// existing graph at `d`, and follows existing edges back to `w`.
pub open spec fn cycle_path_ok(
    deps: Seq<Dependency>,
    p: Seq<String>,
    w: Seq<char>,
    d: Seq<char>,
) -> bool {
    &&& p.len() >= 2
    &&& p[0]@ == w
    &&& p.last()@ == w
    &&& (p.len() == 2 ==> w == d)
    &&& (p.len() > 2 ==> p[1]@ == d)
    &&& forall|i: int| 1 <= i < p.len() - 1 ==> has_edge(deps, (#[trigger] p[i])@, p[i + 1]@)
}

/// Whether some entry of the parent map keys `x`.
pub open spec fn pm_keyed(pm: Seq<(String, String)>, x: Seq<char>) -> bool {
    exists|i: int| 0 <= i < pm.len() && (#[trigger] pm[i]).0@ == x
}

/// The parent map built by the search is well-formed: each entry's parent
/// depends directly on its child, no entry keys the search root, keys are
/// unique, and every parent is the root or keyed by an earlier entry.
pub open spec fn pm_wf(deps: Seq<Dependency>, pm: Seq<(String, String)>, d: Seq<char>) -> bool {
    &&& forall|i: int|
        0 <= i < pm.len() ==> has_edge(deps, (#[trigger] pm[i]).1@, pm[i].0@)
    &&& forall|i: int| 0 <= i < pm.len() ==> (#[trigger] pm[i]).0@ != d
    &&& forall|i: int, j: int| 0 <= i < j < pm.len() ==> pm[i].0@ != pm[j].0@
    &&& forall|i: int|
        0 <= i < pm.len() ==> ((#[trigger] pm[i]).1@ == d || exists|j: int|
            0 <= j < i && (#[trigger] pm[j]).0@ == pm[i].1@)
}

/// Whether `x` occurs as an endpoint of some edge.
pub open spec fn node_in_graph(deps: Seq<Dependency>, x: Seq<char>) -> bool {
    exists|i: int|
        0 <= i < deps.len() && ((#[trigger] deps[i]).wire_id@ == x || deps[i].depends_on@ == x)
}

/// A duplicate-free list of ids that are all `d` or endpoints of edges is
/// no longer than one plus twice the number of edges.
proof fn lemma_distinct_ids_bound(deps: Seq<Dependency>, d: Seq<char>, vis: Seq<String>)
    requires
        forall|i: int, j: int| 0 <= i < j < vis.len() ==> (#[trigger] vis[i])@ != (#[trigger] vis[j])@,
        forall|i: int|
            0 <= i < vis.len() ==> ((#[trigger] vis[i])@ == d || node_in_graph(deps, vis[i]@)),
    ensures
        vis.len() <= 2 * deps.len() + 1,
{
    broadcast use vstd::seq_lib::seq_to_set_is_finite;
    broadcast use vstd::set::group_set_axioms;

    let vseq = crate::text::seq_views(vis);
    assert(vseq.no_duplicates()) by {
        assert forall|i: int, j: int|
            0 <= i < vseq.len() && 0 <= j < vseq.len() && i != j implies vseq[i] != vseq[j] by {
            if i < j {
                assert(vis[i]@ != vis[j]@);
            } else {
                assert(vis[j]@ != vis[i]@);
            }
        }
    }
    vseq.unique_seq_to_set();
    let from_ids = deps.map_values(|e: Dependency| e.wire_id@);
    let to_ids = deps.map_values(|e: Dependency| e.depends_on@);
    let univ = from_ids.to_set().union(to_ids.to_set()).insert(d);
    assert forall|x: Seq<char>| vseq.to_set().contains(x) implies univ.contains(x) by {
        let i = choose|i: int| 0 <= i < vseq.len() && vseq[i] == x;
        assert(vis[i]@ == x);
        if x == d {
        } else {
            let k = choose|k: int|
                0 <= k < deps.len() && ((#[trigger] deps[k]).wire_id@ == x || deps[k].depends_on@
                    == x);
            if deps[k].wire_id@ == x {
                assert(from_ids[k] == x);
                assert(from_ids.contains(x));
            } else {
                assert(to_ids[k] == x);
                assert(to_ids.contains(x));
            }
        }
    }
    vstd::set_lib::lemma_len_subset(vseq.to_set(), univ);
    vstd::set_lib::lemma_len_union(from_ids.to_set(), to_ids.to_set());
    vstd::set::axiom_set_insert_len(from_ids.to_set().union(to_ids.to_set()), d);
    from_ids.lemma_cardinality_of_set();
    to_ids.lemma_cardinality_of_set();
}

/// Whether the views of a vector of strings hold `x`, decided by scan.
fn vec_contains_id(v: &Vec<String>, x: &str) -> (b: bool)
    ensures
        b == id_in(v@, x@),
{
    let mut i: usize = 0;
    while i < v.len()
        invariant
            i <= v.len(),
            forall|j: int| 0 <= j < i ==> (#[trigger] v@[j])@ != x@,
        decreases v.len() - i,
    {
        if str_eq(v[i].as_str(), x) {
            return true;
        }
        i = i + 1;
    }
    false
}

/// Finds the index of the parent-map entry keying `x`, if any.
fn pm_find(pm: &Vec<(String, String)>, x: &str) -> (r: Option<usize>)
    ensures
        r matches Some(k) ==> k < pm@.len() && pm@[k as int].0@ == x@,
        r is None ==> !pm_keyed(pm@, x@),
{
    let mut i: usize = 0;
    while i < pm.len()
        invariant
            i <= pm.len(),
            forall|j: int| 0 <= j < i ==> (#[trigger] pm@[j]).0@ != x@,
        decreases pm.len() - i,
    {
        if str_eq(pm[i].0.as_str(), x) {
            return Some(i);
        }
        i = i + 1;
    }
    None
}

/// Rebuilds the concrete cycle path from the parent map once the search
/// has found `wire_id`: the chain of parents from `wire_id` back to
/// `depends_on`, bracketed by `wire_id` at both ends.
#[verifier::rlimit(100)]
fn build_cycle_path(
    deps: &Vec<Dependency>,
    pm: &Vec<(String, String)>,
    wire_id: &str,
    depends_on: &str,
) -> (r: Vec<String>)
    requires
        pm_wf(deps@, pm@, depends_on@),
        pm_keyed(pm@, wire_id@),
        wire_id@ != depends_on@,
    ensures
        cycle_path_ok(deps@, r@, wire_id@, depends_on@),
{
    let mut rev: Vec<String> = Vec::new();
    rev.push(wire_id.to_owned());
    let mut k = pm_find(pm, wire_id).unwrap();
    loop
        invariant_except_break
            pm_wf(deps@, pm@, depends_on@),
            wire_id@ != depends_on@,
            k < pm@.len(),
            rev@.len() >= 1,
            rev@[0]@ == wire_id@,
            pm@[k as int].0@ == rev@.last()@,
            forall|m: int|
                0 <= m < rev@.len() - 1 ==> has_edge(deps@, rev@[m + 1]@, (#[trigger] rev@[m])@),
            forall|m: int| 0 <= m < rev@.len() ==> (#[trigger] rev@[m])@ != depends_on@,
        ensures
            rev@.len() >= 2,
            rev@[0]@ == wire_id@,
            rev@.last()@ == depends_on@,
            forall|m: int|
                0 <= m < rev@.len() - 1 ==> has_edge(deps@, rev@[m + 1]@, (#[trigger] rev@[m])@),
        decreases k,
    {
        let ghost old_k = k as int;
        let ghost rev0 = rev@;
        let parent = pm[k].1.clone();
        rev.push(parent.clone());
        proof {
            assert(rev@ =~= rev0.push(parent));
            assert(has_edge(deps@, pm@[old_k].1@, pm@[old_k].0@));
            assert forall|m: int| 0 <= m < rev@.len() - 1 implies has_edge(
                deps@,
                rev@[m + 1]@,
                (#[trigger] rev@[m])@,
            ) by {
                if m < rev0.len() - 1 {
                    assert(rev@[m] == rev0[m] && rev@[m + 1] == rev0[m + 1]);
                    assert(has_edge(deps@, rev0[m + 1]@, rev0[m]@));
                } else {
                    assert(rev@[m]@ == rev0.last()@ && rev@[m + 1]@ == parent@);
                    assert(parent@ == pm@[old_k].1@);
                }
            }
        }
        if str_eq(parent.as_str(), depends_on) {
            break;
        }
        proof {
            assert(pm@[old_k].1@ == parent@);
            assert(pm@[old_k].1@ == depends_on@ || exists|j: int|
                0 <= j < old_k && (#[trigger] pm@[j]).0@ == pm@[old_k].1@);
            let j = choose|j: int| 0 <= j < old_k && (#[trigger] pm@[j]).0@ == pm@[old_k].1@;
            assert(pm_keyed(pm@, parent@));
        }
        let k2 = pm_find(pm, parent.as_str()).unwrap();
        proof {
            let j = choose|j: int| 0 <= j < old_k && (#[trigger] pm@[j]).0@ == pm@[old_k].1@;
            if k2 as int != j {
                assert(pm@[j].0@ == pm@[k2 as int].0@);
                assert(false);
            }
            assert forall|m: int| 0 <= m < rev@.len() implies (#[trigger] rev@[m])@
                != depends_on@ by {
                if m == rev@.len() - 1 {
                    assert(rev@[m]@ == parent@);
                }
            }
        }
        k = k2;
    }
    assemble_cycle_path(deps, &rev, wire_id, depends_on)
}

/// Turns the parent chain (running from `wire_id` back to `depends_on`)
/// into the reported cycle path: `wire_id`, then the chain reversed.
fn assemble_cycle_path(
    deps: &Vec<Dependency>,
    rev: &Vec<String>,
    wire_id: &str,
    depends_on: &str,
) -> (r: Vec<String>)
    requires
        rev@.len() >= 2,
        rev@[0]@ == wire_id@,
        rev@.last()@ == depends_on@,
        forall|m: int|
            0 <= m < rev@.len() - 1 ==> has_edge(deps@, rev@[m + 1]@, (#[trigger] rev@[m])@),
        wire_id@ != depends_on@,
    ensures
        cycle_path_ok(deps@, r@, wire_id@, depends_on@),
{
    let mut out: Vec<String> = Vec::new();
    out.push(wire_id.to_owned());
    let mut j: usize = rev.len();
    while j > 0
        invariant
            j <= rev@.len(),
            rev@.len() >= 2,
            rev@[0]@ == wire_id@,
            rev@.last()@ == depends_on@,
            forall|m: int|
                0 <= m < rev@.len() - 1 ==> has_edge(deps@, rev@[m + 1]@, (#[trigger] rev@[m])@),
            out@.len() == 1 + rev@.len() - j,
            out@[0]@ == wire_id@,
            forall|t: int|
                0 <= t < out@.len() - 1 ==> (#[trigger] out@[t + 1])@ == rev@[rev@.len() - 1 - t]@,
            wire_id@ != depends_on@,
        decreases j,
    {
        j = j - 1;
        out.push(rev[j].clone());
    }
    proof {
        let n = rev@.len() as int;
        assert(out@.len() == n + 1);
        assert(out@[(n - 1) + 1]@ == rev@[rev@.len() - 1 - (n - 1)]@);
        assert(out@[n]@ == rev@[0]@);
        assert(out@[0int + 1]@ == rev@[rev@.len() - 1 - 0int]@);
        assert(out@[1]@ == rev@[n - 1]@);
        assert(rev@[n - 1]@ == depends_on@);
        assert forall|i: int| 1 <= i < out@.len() - 1 implies has_edge(
            deps@,
            (#[trigger] out@[i])@,
            out@[i + 1]@,
        ) by {
            assert(out@[(i - 1) + 1]@ == rev@[rev@.len() - 1 - (i - 1)]@);
            assert(out@[((i + 1) - 1) + 1]@ == rev@[rev@.len() - 1 - ((i + 1) - 1)]@);
            assert(out@[i]@ == rev@[n - i]@);
            assert(out@[i + 1]@ == rev@[n - i - 1]@);
            assert(has_edge(deps@, rev@[(n - i - 1) + 1]@, rev@[n - i - 1]@));
        }
    }
    out
}

/// Decides whether inserting the edge `(wire_id, depends_on)` would close a
/// cycle: a self-edge always would; otherwise a depth-first search follows
/// existing prerequisite edges from `depends_on`, looking for `wire_id`.
/// On success returns one concrete path that would close the loop,
/// beginning and ending at `wire_id`.
pub fn would_create_cycle(deps: &Vec<Dependency>, wire_id: &str, depends_on: &str) -> (r: Option<
    Vec<String>,
>)
    ensures
        r is Some <==> (wire_id@ == depends_on@ || reaches(deps@, depends_on@, wire_id@)),
        r matches Some(p) ==> cycle_path_ok(deps@, p@, wire_id@, depends_on@),
{
    if str_eq(wire_id, depends_on) {
        let mut p: Vec<String> = Vec::new();
        p.push(wire_id.to_owned());
        p.push(wire_id.to_owned());
        proof {
            lemma_reaches_self(deps@, depends_on@);
        }
        return Some(p);
    }
    let ghost we = wire_id@;
    let ghost de = depends_on@;
    let mut visited: Vec<String> = Vec::new();
    let mut stack: Vec<String> = Vec::new();
    let mut pm: Vec<(String, String)> = Vec::new();
    stack.push(depends_on.to_owned());
    proof {
        lemma_reaches_self(deps@, de);
        assert(stack@[0]@ == de);
        assert(id_in(stack@, de));
    }
    while stack.len() > 0
        invariant
            we == wire_id@,
            de == depends_on@,
            we != de,
            forall|j: int| 0 <= j < stack@.len() ==> reaches(deps@, de, (#[trigger] stack@[j])@),
            forall|j: int| 0 <= j < visited@.len() ==> reaches(deps@, de, (#[trigger] visited@[j])@),
            forall|j: int, y: Seq<char>|
                0 <= j < visited@.len() && #[trigger] has_edge(deps@, visited@[j]@, y) ==> id_in(
                    visited@,
                    y,
                ) || id_in(stack@, y),
            id_in(visited@, de) || id_in(stack@, de),
            !id_in(visited@, we),
            forall|i: int, j: int|
                0 <= i < j < visited@.len() ==> (#[trigger] visited@[i])@ != (
                #[trigger] visited@[j])@,
            forall|i: int|
                0 <= i < visited@.len() ==> ((#[trigger] visited@[i])@ == de || node_in_graph(
                    deps@,
                    visited@[i]@,
                )),
            visited@.len() <= 2 * deps@.len() + 1,
            pm_wf(deps@, pm@, de),
            forall|j: int|
                0 <= j < stack@.len() ==> ((#[trigger] stack@[j])@ == de || pm_keyed(
                    pm@,
                    stack@[j]@,
                )),
        decreases 2 * deps@.len() + 1 - visited@.len(), stack@.len(),
    {
        let ghost stack0 = stack@;
        let ghost vis0 = visited@;
        let current = stack.pop().unwrap();
        proof {
            assert(stack@ =~= stack0.drop_last());
            assert(current@ == stack0.last()@);
            assert(reaches(deps@, de, current@));
            assert(current@ == de || pm_keyed(pm@, current@));
        }
        if !vec_contains_id(&visited, current.as_str()) {
            if str_eq(current.as_str(), wire_id) {
                proof {
                    assert(pm_keyed(pm@, we));
                }
                let path = build_cycle_path(deps, &pm, wire_id, depends_on);
                return Some(path);
            }
            visited.push(current.clone());
            proof {
                assert(visited@ =~= vis0.push(current));
                assert forall|i: int, j: int|
                    0 <= i < j < visited@.len() implies (#[trigger] visited@[i])@ != (
                #[trigger] visited@[j])@ by {
                    if j == visited@.len() - 1 {
                        assert(!id_in(vis0, current@));
                        assert(visited@[i] == vis0[i]);
                    } else {
                        assert(visited@[i] == vis0[i] && visited@[j] == vis0[j]);
                    }
                }
                if current@ != de {
                    // current was keyed in the parent map, so it is the
                    // child end of some edge
                    let i = choose|i: int| 0 <= i < pm@.len() && (#[trigger] pm@[i]).0@ == current@;
                    assert(has_edge(deps@, pm@[i].1@, current@));
                    let k = choose|k: int|
                        0 <= k < deps@.len() && (#[trigger] deps@[k]).wire_id@ == pm@[i].1@
                            && deps@[k].depends_on@ == current@;
                    assert(node_in_graph(deps@, current@));
                }
                lemma_distinct_ids_bound(deps@, de, visited@);
                // closure for the previously visited nodes survives the pop:
                // anything the popped entry covered is now covered by the
                // newly visited node itself
                assert forall|j: int, y: Seq<char>|
                    0 <= j < visited@.len() - 1 && #[trigger] has_edge(
                        deps@,
                        visited@[j]@,
                        y,
                    ) implies id_in(visited@, y) || id_in(stack@, y) by {
                    assert(visited@[j] == vis0[j]);
                    assert(has_edge(deps@, vis0[j]@, y));
                    assert(id_in(vis0, y) || id_in(stack0, y));
                    if id_in(vis0, y) {
                        let t = choose|t: int| 0 <= t < vis0.len() && (#[trigger] vis0[t])@ == y;
                        assert(visited@[t]@ == y);
                    } else {
                        let t = choose|t: int| 0 <= t < stack0.len() && (#[trigger] stack0[t])@
                            == y;
                        if t < stack0.len() - 1 {
                            assert(stack@[t]@ == y);
                        } else {
                            assert(y == current@);
                            assert(visited@[visited@.len() - 1]@ == y);
                        }
                    }
                }
                // the search root stays covered
                if id_in(vis0, de) {
                    let t = choose|t: int| 0 <= t < vis0.len() && (#[trigger] vis0[t])@ == de;
                    assert(visited@[t]@ == de);
                } else {
                    let t = choose|t: int| 0 <= t < stack0.len() && (#[trigger] stack0[t])@ == de;
                    if t < stack0.len() - 1 {
                        assert(stack@[t]@ == de);
                    } else {
                        assert(visited@[visited@.len() - 1]@ == de);
                    }
                }
            }
            let mut i: usize = 0;
            while i < deps.len()
                invariant
                    we == wire_id@,
                    de == depends_on@,
                    we != de,
                    i <= deps@.len(),
                    visited@.len() >= 1,
                    visited@[visited@.len() - 1]@ == current@,
                    current@ != we,
                    current@ == de || pm_keyed(pm@, current@),
                    forall|j: int|
                        0 <= j < stack@.len() ==> reaches(deps@, de, (#[trigger] stack@[j])@),
                    forall|j: int|
                        0 <= j < visited@.len() ==> reaches(deps@, de, (#[trigger] visited@[j])@),
                    forall|j: int, y: Seq<char>|
                        0 <= j < visited@.len() - 1 && #[trigger] has_edge(
                            deps@,
                            visited@[j]@,
                            y,
                        ) ==> id_in(visited@, y) || id_in(stack@, y),
                    forall|k: int|
                        0 <= k < i && (#[trigger] deps@[k]).wire_id@ == current@ ==> id_in(
                            visited@,
                            deps@[k].depends_on@,
                        ) || id_in(stack@, deps@[k].depends_on@),
                    id_in(visited@, de) || id_in(stack@, de),
                    !id_in(visited@, we),
                    forall|a: int, b: int|
                        0 <= a < b < visited@.len() ==> (#[trigger] visited@[a])@ != (
                        #[trigger] visited@[b])@,
                    forall|a: int|
                        0 <= a < visited@.len() ==> ((#[trigger] visited@[a])@ == de
                            || node_in_graph(deps@, visited@[a]@)),
                    visited@.len() <= 2 * deps@.len() + 1,
                    pm_wf(deps@, pm@, de),
                    forall|j: int|
                        0 <= j < stack@.len() ==> ((#[trigger] stack@[j])@ == de || pm_keyed(
                            pm@,
                            stack@[j]@,
                        )),
                decreases deps@.len() - i,
            {
                if str_eq(deps[i].wire_id.as_str(), current.as_str()) {
                    let dep = deps[i].depends_on.as_str().to_owned();
                    let ghost depv = dep@;
                    let ghost stack_in = stack@;
                    let ghost pm_in = pm@;
                    proof {
                        assert(deps@[i as int].wire_id@ == current@ && deps@[i as int].depends_on@
                            == depv);
                        assert(has_edge(deps@, current@, depv));
                        lemma_reaches_push(deps@, de, current@, depv);
                    }
                    if !vec_contains_id(&visited, dep.as_str()) {
                        if !str_eq(dep.as_str(), depends_on) {
                            if pm_find(&pm, dep.as_str()).is_none() {
                                pm.push((dep.clone(), current.clone()));
                                proof {
                                    let n = pm@.len() - 1;
                                    assert(forall|t: int| 0 <= t < n ==> pm@[t] == pm_in[t]);
                                    assert(pm@[n].0@ == depv && pm@[n].1@ == current@);
                                    assert(pm_wf(deps@, pm@, de)) by {
                                        assert forall|a: int|
                                            0 <= a < pm@.len() implies has_edge(
                                            deps@,
                                            (#[trigger] pm@[a]).1@,
                                            pm@[a].0@,
                                        ) by {
                                            if a < n {
                                                assert(pm@[a] == pm_in[a]);
                                            }
                                        }
                                        assert forall|a: int|
                                            0 <= a < pm@.len() implies (#[trigger] pm@[a]).0@
                                            != de by {
                                            if a < n {
                                                assert(pm@[a] == pm_in[a]);
                                            }
                                        }
                                        assert forall|a: int, b: int|
                                            0 <= a < b < pm@.len() implies pm@[a].0@
                                            != pm@[b].0@ by {
                                            if b < n {
                                                assert(pm@[a] == pm_in[a] && pm@[b] == pm_in[b]);
                                            } else {
                                                assert(pm@[a] == pm_in[a]);
                                                assert(!pm_keyed(pm_in, depv));
                                            }
                                        }
                                        assert forall|a: int|
                                            0 <= a < pm@.len() implies ((#[trigger] pm@[a]).1@
                                            == de || exists|b: int|
                                            0 <= b < a && (#[trigger] pm@[b]).0@ == pm@[a].1@) by {
                                            if a < n {
                                                assert(pm@[a] == pm_in[a]);
                                                if pm_in[a].1@ != de {
                                                    let b = choose|b: int|
                                                        0 <= b < a && (#[trigger] pm_in[b]).0@
                                                            == pm_in[a].1@;
                                                    assert(pm@[b].0@ == pm@[a].1@);
                                                }
                                            } else {
                                                if current@ != de {
                                                    let b = choose|b: int|
                                                        0 <= b < pm_in.len() && (
                                                        #[trigger] pm_in[b]).0@ == current@;
                                                    assert(pm@[b].0@ == pm@[n].1@);
                                                }
                                            }
                                        }
                                    }
                                    assert(pm_keyed(pm@, depv));
                                }
                            }
                        }
                        proof {
                            assert(depv == de || pm_keyed(pm@, depv)) by {
                                if depv != de {
                                    if pm_keyed(pm_in, depv) {
                                        let t = choose|t: int|
                                            0 <= t < pm_in.len() && (#[trigger] pm_in[t]).0@
                                                == depv;
                                        assert(pm@[t].0@ == depv);
                                    }
                                }
                            }
                        }
                        stack.push(dep);
                        proof {
                            // the stack and the parent map only grew, so every
                            // membership fact carries over, and the new top
                            // covers the edge just scanned
                            assert(stack@[stack@.len() - 1]@ == depv);
                            assert(id_in(stack@, depv));
                            assert forall|y: Seq<char>| id_in(stack_in, y) implies id_in(
                                stack@,
                                y,
                            ) by {
                                let t = choose|t: int|
                                    0 <= t < stack_in.len() && (#[trigger] stack_in[t])@ == y;
                                assert(stack@[t]@ == y);
                            }
                            assert forall|y: Seq<char>| pm_keyed(pm_in, y) implies pm_keyed(
                                pm@,
                                y,
                            ) by {
                                let t = choose|t: int|
                                    0 <= t < pm_in.len() && (#[trigger] pm_in[t]).0@ == y;
                                assert(pm@[t].0@ == y);
                            }
                            assert forall|j: int, y: Seq<char>|
                                0 <= j < visited@.len() - 1 && #[trigger] has_edge(
                                    deps@,
                                    visited@[j]@,
                                    y,
                                ) implies id_in(visited@, y) || id_in(stack@, y) by {
                                assert(id_in(visited@, y) || id_in(stack_in, y));
                            }
                            assert forall|k: int|
                                0 <= k < i + 1 && (#[trigger] deps@[k]).wire_id@
                                == current@ implies id_in(visited@, deps@[k].depends_on@) || id_in(
                                stack@,
                                deps@[k].depends_on@,
                            ) by {
                                if k < i {
                                    assert(id_in(visited@, deps@[k].depends_on@) || id_in(
                                        stack_in,
                                        deps@[k].depends_on@,
                                    ));
                                } else {
                                    assert(deps@[k].depends_on@ == depv);
                                }
                            }
                            assert forall|j: int| 0 <= j < stack@.len() implies ((
                            #[trigger] stack@[j])@ == de || pm_keyed(pm@, stack@[j]@)) by {
                                if j < stack_in.len() {
                                    assert(stack@[j] == stack_in[j]);
                                    assert(stack_in[j]@ == de || pm_keyed(pm_in, stack_in[j]@));
                                } else {
                                    assert(stack@[j]@ == depv);
                                }
                            }
                            assert forall|j: int| 0 <= j < stack@.len() implies reaches(
                                deps@,
                                de,
                                (#[trigger] stack@[j])@,
                            ) by {
                                if j < stack_in.len() {
                                    assert(stack@[j] == stack_in[j]);
                                    assert(reaches(deps@, de, stack_in[j]@));
                                } else {
                                    assert(stack@[j]@ == depv);
                                }
                            }
                            if id_in(visited@, de) {
                            } else {
                                let t = choose|t: int|
                                    0 <= t < stack_in.len() && (#[trigger] stack_in[t])@ == de;
                                assert(stack@[t]@ == de);
                            }
                        }
                    } else {
                        proof {
                            assert(id_in(visited@, depv));
                        }
                    }
                }
                i = i + 1;
            }
            proof {
                // with the successor scan complete, the closure invariant
                // holds for the newly visited node as well
                assert forall|j: int, y: Seq<char>|
                    0 <= j < visited@.len() && #[trigger] has_edge(
                        deps@,
                        visited@[j]@,
                        y,
                    ) implies id_in(visited@, y) || id_in(stack@, y) by {
                    if j == visited@.len() - 1 {
                        let k = choose|k: int|
                            0 <= k < deps@.len() && (#[trigger] deps@[k]).wire_id@ == visited@[j]@
                                && deps@[k].depends_on@ == y;
                    }
                }
            }
        } else {
            proof {
                // the popped node was already visited: anything it covered
                // on the stack is covered by its visited copy
                assert forall|j: int, y: Seq<char>|
                    0 <= j < visited@.len() && #[trigger] has_edge(
                        deps@,
                        visited@[j]@,
                        y,
                    ) implies id_in(visited@, y) || id_in(stack@, y) by {
                    assert(id_in(vis0, y) || id_in(stack0, y));
                    if id_in(stack0, y) && !id_in(vis0, y) {
                        let t = choose|t: int| 0 <= t < stack0.len() && (#[trigger] stack0[t])@
                            == y;
                        if t < stack0.len() - 1 {
                            assert(stack@[t]@ == y);
                        } else {
                            assert(y == current@);
                            assert(id_in(visited@, current@));
                        }
                    }
                }
                if !id_in(vis0, de) {
                    let t = choose|t: int| 0 <= t < stack0.len() && (#[trigger] stack0[t])@ == de;
                    if t < stack0.len() - 1 {
                        assert(stack@[t]@ == de);
                    } else {
                        assert(id_in(visited@, de));
                    }
                }
            }
        }
    }
    proof {
        if reaches(deps@, de, we) {
            let p = choose|p: Seq<Seq<char>>| #[trigger] is_path(deps@, p) && p.first() == de
                && p.last() == we;
            assert forall|x: Seq<char>, y: Seq<char>|
                #[trigger] id_in(visited@, x) && #[trigger] has_edge(deps@, x, y) implies id_in(
                visited@,
                y,
            ) by {
                let j = choose|j: int| 0 <= j < visited@.len() && (#[trigger] visited@[j])@ == x;
                assert(has_edge(deps@, visited@[j]@, y));
                assert(id_in(visited@, y) || id_in(stack@, y));
            }
            lemma_closed_reach(deps@, visited@, p);
            assert(false);
        }
    }
    None
}

/// Removing edges keeps an acyclic set acyclic.
pub proof fn lemma_sub_edges_acyclic(sub: Seq<Dependency>, full: Seq<Dependency>)
    requires
        acyclic(full),
        forall|a: Seq<char>, b: Seq<char>| #[trigger] has_edge(sub, a, b) ==> has_edge(full, a, b),
    ensures
        acyclic(sub),
{
    assert forall|p: Seq<Seq<char>>| #[trigger] is_path(sub, p) && p.len() >= 2 implies p.first()
        != p.last() by {
        assert(is_path(full, p)) by {
            assert forall|i: int| 0 <= i < p.len() - 1 implies has_edge(
                full,
                #[trigger] p[i],
                p[i + 1],
            ) by {
                assert(has_edge(sub, p[i], p[i + 1]));
            }
        }
    }
}

} // verus!
