//! The engine's state: an in-memory store of wires and dependency edges,
//! with every mutation verified to preserve the store invariant — unique
//! ids, referential integrity of edges, no duplicate edges, and an acyclic
//! dependency graph.

use crate::graph::{
    acyclic, cycle_path_ok, has_edge, lemma_acyclic_no_self_edge, lemma_edge_no_back_reach,
    lemma_insert_preserves_acyclic, lemma_sub_edges_acyclic, reaches, would_create_cycle,
};
use crate::models::{Dependency, DependencyInfo, Status, Wire, WireError, WireId, WireWithDeps};
use crate::text::str_eq;
use vstd::prelude::*;
use vstd::string::*;

verus! {

/// Whether some wire in the list carries the id `id`.
pub open spec fn has_wire(wires: Seq<Wire>, id: Seq<char>) -> bool {
    exists|i: int| 0 <= i < wires.len() && (#[trigger] wires[i]).id@ == id
}

/// The index of the wire carrying `id` (meaningful when `has_wire` holds
/// and ids are unique).
pub open spec fn wire_index(wires: Seq<Wire>, id: Seq<char>) -> int {
    choose|i: int| 0 <= i < wires.len() && (#[trigger] wires[i]).id@ == id
}

/// The wire carrying `id`.
pub open spec fn wire_at(wires: Seq<Wire>, id: Seq<char>) -> Wire {
    wires[wire_index(wires, id)]
}

/// Whether the wire carrying `id` exists and is Done.
pub open spec fn wire_is_done(wires: Seq<Wire>, id: Seq<char>) -> bool {
    exists|i: int|
        0 <= i < wires.len() && (#[trigger] wires[i]).id@ == id && wires[i].status == Status::Done
}

/// No two wires share an id.
pub open spec fn wires_unique(wires: Seq<Wire>) -> bool {
    forall|i: int, j: int|
        0 <= i < j < wires.len() ==> (#[trigger] wires[i]).id@ != (#[trigger] wires[j]).id@
}

/// No two edges relate the same pair of wires.
pub open spec fn edges_unique(deps: Seq<Dependency>) -> bool {
    forall|i: int, j: int|
        0 <= i < j < deps.len() ==> !((#[trigger] deps[i]).wire_id@ == (
        #[trigger] deps[j]).wire_id@ && deps[i].depends_on@ == deps[j].depends_on@)
}

/// Every edge endpoint names an existing wire.
pub open spec fn edges_reference(wires: Seq<Wire>, deps: Seq<Dependency>) -> bool {
    forall|i: int|
        0 <= i < deps.len() ==> has_wire(wires, (#[trigger] deps[i]).wire_id@) && has_wire(
            wires,
            deps[i].depends_on@,
        )
}

/// Keeps every edge other than `(w, d)`.
pub open spec fn edge_filter(w: Seq<char>, d: Seq<char>) -> spec_fn(Dependency) -> bool {
    |e: Dependency| !(e.wire_id@ == w && e.depends_on@ == d)
}

/// Keeps every edge that does not touch the wire `x` at either end.
pub open spec fn endpoint_filter(x: Seq<char>) -> spec_fn(Dependency) -> bool {
    |e: Dependency| !(e.wire_id@ == x || e.depends_on@ == x)
}

/// The view of an optional string.
pub open spec fn opt_str_view(o: Option<String>) -> Option<Seq<char>> {
    match o {
        Some(s) => Some(s@),
        None => None,
    }
}

/// The summary shown for the wire carrying `tid` when it appears in a
/// dependency listing.
pub open spec fn dep_info_of(wires: Seq<Wire>, tid: Seq<char>) -> DependencyInfo {
    DependencyInfo {
        id: wire_at(wires, tid).id,
        title: wire_at(wires, tid).title,
        status: wire_at(wires, tid).status,
    }
}

/// Keeps the edges out of `id` whose prerequisite is not yet Done.
pub open spec fn incomplete_pred(wires: Seq<Wire>, id: Seq<char>) -> spec_fn(Dependency) -> bool {
    |e: Dependency| e.wire_id@ == id && !wire_is_done(wires, e.depends_on@)
}

/// The not-yet-Done direct dependencies of `id`, annotated with their
/// current state, in edge order.
pub open spec fn incomplete_of(wires: Seq<Wire>, deps: Seq<Dependency>, id: Seq<char>) -> Seq<
    DependencyInfo,
> {
    deps.filter(incomplete_pred(wires, id)).map_values(
        |e: Dependency| dep_info_of(wires, e.depends_on@),
    )
}

/// Keeps the edges out of `id`.
pub open spec fn depends_pred(id: Seq<char>) -> spec_fn(Dependency) -> bool {
    |e: Dependency| e.wire_id@ == id
}

/// Keeps the edges into `id`.
pub open spec fn blocks_pred(id: Seq<char>) -> spec_fn(Dependency) -> bool {
    |e: Dependency| e.depends_on@ == id
}

/// The direct dependencies of `id`, annotated with their current state.
pub open spec fn deps_of(wires: Seq<Wire>, deps: Seq<Dependency>, id: Seq<char>) -> Seq<
    DependencyInfo,
> {
    deps.filter(depends_pred(id)).map_values(|e: Dependency| dep_info_of(wires, e.depends_on@))
}

/// The wires that depend on `id`, annotated with their current state.
pub open spec fn blocks_of(wires: Seq<Wire>, deps: Seq<Dependency>, id: Seq<char>) -> Seq<
    DependencyInfo,
> {
    deps.filter(blocks_pred(id)).map_values(|e: Dependency| dep_info_of(wires, e.wire_id@))
}

/// If ids are unique and `wires[t]` carries `id`, then `t` is the index
/// `wire_index` denotes.
pub proof fn lemma_wire_index_unique(wires: Seq<Wire>, id: Seq<char>, t: int)
    requires
        wires_unique(wires),
        0 <= t < wires.len(),
        wires[t].id@ == id,
    ensures
        wire_index(wires, id) == t,
        wire_at(wires, id) == wires[t],
        has_wire(wires, id),
{
    assert(has_wire(wires, id));
    let k = wire_index(wires, id);
    if k != t {
        if k < t {
            assert(wires[k].id@ != wires[t].id@);
        } else {
            assert(wires[t].id@ != wires[k].id@);
        }
        assert(false);
    }
}

/// A wire with an id other than the one at position `k` survives removing
/// position `k`.
proof fn lemma_has_wire_after_remove(wires: Seq<Wire>, k: int, x: Seq<char>)
    requires
        0 <= k < wires.len(),
        has_wire(wires, x),
        wires[k].id@ != x,
    ensures
        has_wire(wires.remove(k), x),
{
    let t = choose|t: int| 0 <= t < wires.len() && (#[trigger] wires[t]).id@ == x;
    if t < k {
        assert(wires.remove(k)[t].id@ == x);
    } else {
        assert(wires.remove(k)[t - 1].id@ == x);
    }
}

/// The in-memory store of wires and dependency edges: the state the
/// engine's operations read and mutate.
pub struct Store {
    wires: Vec<Wire>,
    deps: Vec<Dependency>,
}

impl Store {
    /// The wires, in insertion order.
    pub closed spec fn wire_seq(self) -> Seq<Wire> {
        self.wires@
    }

    /// The dependency edges, in insertion order.
    pub closed spec fn dep_seq(self) -> Seq<Dependency> {
        self.deps@
    }

    /// The store invariant: unique ids, unique edges, referential
    /// integrity, and — above all — an acyclic dependency graph.
    ///
    /// `new` establishes it and every operation re-establishes it, so any
    /// store reached through the engine — in particular one grown by any
    /// sequence of accepted edge insertions — has an acyclic edge set.
    pub open spec fn wf(self) -> bool {
        &&& wires_unique(self.wire_seq())
        &&& edges_unique(self.dep_seq())
        &&& edges_reference(self.wire_seq(), self.dep_seq())
        &&& acyclic(self.dep_seq())
    }

    /// Creates an empty store.
    pub fn new() -> (r: Store)
        ensures
            r.wire_seq() == Seq::<Wire>::empty(),
            r.dep_seq() == Seq::<Dependency>::empty(),
            r.wf(),
    {
        let r = Store { wires: Vec::new(), deps: Vec::new() };
        proof {
            assert(r.wire_seq() =~= Seq::<Wire>::empty());
            assert(r.dep_seq() =~= Seq::<Dependency>::empty());
        }
        r
    }

    /// Finds the position of the wire carrying `id`, if it exists.
    fn find_wire_index(&self, id: &str) -> (r: Option<usize>)
        ensures
            r matches Some(k) ==> k < self.wire_seq().len() && self.wire_seq()[k as int].id@ == id@,
            r is None ==> !has_wire(self.wire_seq(), id@),
    {
        let mut i: usize = 0;
        while i < self.wires.len()
            invariant
                i <= self.wires@.len(),
                forall|j: int| 0 <= j < i ==> (#[trigger] self.wires@[j]).id@ != id@,
            decreases self.wires@.len() - i,
        {
            if str_eq(self.wires[i].id.as_str(), id) {
                return Some(i);
            }
            i = i + 1;
        }
        None
    }

    /// Whether a wire carrying `id` exists.
    pub fn contains_wire(&self, id: &str) -> (r: bool)
        ensures
            r == has_wire(self.wire_seq(), id@),
    {
        self.find_wire_index(id).is_some()
    }

    /// Whether the edge `(wire_id, depends_on)` is present.
    fn find_edge(&self, wire_id: &str, depends_on: &str) -> (r: bool)
        ensures
            r == has_edge(self.dep_seq(), wire_id@, depends_on@),
    {
        let mut i: usize = 0;
        while i < self.deps.len()
            invariant
                i <= self.deps@.len(),
                forall|j: int|
                    0 <= j < i ==> !((#[trigger] self.deps@[j]).wire_id@ == wire_id@
                        && self.deps@[j].depends_on@ == depends_on@),
            decreases self.deps@.len() - i,
        {
            if str_eq(self.deps[i].wire_id.as_str(), wire_id) && str_eq(
                self.deps[i].depends_on.as_str(),
                depends_on,
            ) {
                return true;
            }
            i = i + 1;
        }
        false
    }

    /// Inserts a new wire. The id must be fresh: ids are generated to be
    /// unique and are never reused.
    pub fn insert_wire(&mut self, wire: Wire)
        requires
            old(self).wf(),
            !has_wire(old(self).wire_seq(), wire.id@),
        ensures
            final (self).wf(),
            final (self).wire_seq() == old(self).wire_seq().push(wire),
            final (self).dep_seq() == old(self).dep_seq(),
    {
        let ghost w0 = self.wires@;
        self.wires.push(wire);
        proof {
            assert forall|i: int, j: int|
                0 <= i < j < self.wires@.len() implies (#[trigger] self.wires@[i]).id@ != (
            #[trigger] self.wires@[j]).id@ by {
                if j == self.wires@.len() - 1 {
                    assert(self.wires@[i] == w0[i]);
                    assert(!has_wire(w0, wire.id@));
                } else {
                    assert(self.wires@[i] == w0[i] && self.wires@[j] == w0[j]);
                }
            }
            assert forall|i: int| 0 <= i < self.deps@.len() implies has_wire(
                self.wires@,
                (#[trigger] self.deps@[i]).wire_id@,
            ) && has_wire(self.wires@, self.deps@[i].depends_on@) by {
                let a = choose|t: int| 0 <= t < w0.len() && (#[trigger] w0[t]).id@
                    == self.deps@[i].wire_id@;
                assert(self.wires@[a].id@ == self.deps@[i].wire_id@);
                let b = choose|t: int| 0 <= t < w0.len() && (#[trigger] w0[t]).id@
                    == self.deps@[i].depends_on@;
                assert(self.wires@[b].id@ == self.deps@[i].depends_on@);
            }
        }
    }

    /// Adds a dependency: `wire_id` comes to depend on `depends_on`.
    ///
    /// Both wires must exist; an edge that would close a cycle is rejected
    /// with one concrete path as evidence; re-adding an edge that is
    /// already present succeeds without duplicating it.
    pub fn add_dependency(&mut self, wire_id: &str, depends_on: &str) -> (r: Result<(), WireError>)
        requires
            old(self).wf(),
        ensures
            final (self).wf(),
            final (self).wire_seq() == old(self).wire_seq(),
            r is Ok <==> has_wire(old(self).wire_seq(), wire_id@) && has_wire(
                old(self).wire_seq(),
                depends_on@,
            ) && !(wire_id@ == depends_on@ || reaches(
                old(self).dep_seq(),
                depends_on@,
                wire_id@,
            )),
            !has_wire(old(self).wire_seq(), wire_id@) ==> (r matches Err(
                WireError::WireNotFound(m),
            ) && m@ == wire_id@ && final (self).dep_seq() == old(self).dep_seq()),
            has_wire(old(self).wire_seq(), wire_id@) && !has_wire(
                old(self).wire_seq(),
                depends_on@,
            ) ==> (r matches Err(WireError::WireNotFound(m)) && m@ == depends_on@ && final (self).dep_seq() == old(self).dep_seq()),
            has_wire(old(self).wire_seq(), wire_id@) && has_wire(
                old(self).wire_seq(),
                depends_on@,
            ) && (wire_id@ == depends_on@ || reaches(old(self).dep_seq(), depends_on@, wire_id@))
                ==> (r matches Err(WireError::CircularDependency(p)) && cycle_path_ok(
                old(self).dep_seq(),
                p@,
                wire_id@,
                depends_on@,
            ) && final (self).dep_seq() == old(self).dep_seq()),
            r is Ok && has_edge(old(self).dep_seq(), wire_id@, depends_on@) ==> final (self).dep_seq() == old(self).dep_seq(),
            r is Ok && !has_edge(old(self).dep_seq(), wire_id@, depends_on@) ==> (final (self).dep_seq().len() == old(self).dep_seq().len() + 1 && final (self).dep_seq().drop_last() == old(self).dep_seq() && final (self).dep_seq().last().wire_id@ == wire_id@ && final (self).dep_seq().last().depends_on@
                == depends_on@),
            has_wire(old(self).wire_seq(), wire_id@) && has_wire(
                old(self).wire_seq(),
                depends_on@,
            ) && has_edge(old(self).dep_seq(), wire_id@, depends_on@) ==> r is Ok && final (self).dep_seq() == old(self).dep_seq(),
    {
        proof {
            if has_edge(self.dep_seq(), wire_id@, depends_on@) {
                lemma_acyclic_no_self_edge(self.dep_seq(), wire_id@);
                lemma_edge_no_back_reach(self.dep_seq(), wire_id@, depends_on@);
            }
        }
        if !self.contains_wire(wire_id) {
            return Err(WireError::WireNotFound(wire_id.to_owned()));
        }
        if !self.contains_wire(depends_on) {
            return Err(WireError::WireNotFound(depends_on.to_owned()));
        }
        match would_create_cycle(&self.deps, wire_id, depends_on) {
            Some(cycle) => Err(WireError::CircularDependency(cycle)),
            None => {
                if !self.find_edge(wire_id, depends_on) {
                    let ghost d0 = self.deps@;
                    let edge = Dependency {
                        wire_id: WireId::from_trusted(wire_id.to_owned()),
                        depends_on: WireId::from_trusted(depends_on.to_owned()),
                    };
                    self.deps.push(edge);
                    proof {
                        assert(self.deps@.drop_last() =~= d0);
                        lemma_insert_preserves_acyclic(d0, self.deps@.last());
                        assert forall|i: int, j: int|
                            0 <= i < j < self.deps@.len() implies !((
                        #[trigger] self.deps@[i]).wire_id@ == (#[trigger] self.deps@[j]).wire_id@
                            && self.deps@[i].depends_on@ == self.deps@[j].depends_on@) by {
                            if j == self.deps@.len() - 1 {
                                assert(self.deps@[i] == d0[i]);
                                assert(!has_edge(d0, wire_id@, depends_on@));
                            } else {
                                assert(self.deps@[i] == d0[i] && self.deps@[j] == d0[j]);
                            }
                        }
                        assert forall|i: int| 0 <= i < self.deps@.len() implies has_wire(
                            self.wires@,
                            (#[trigger] self.deps@[i]).wire_id@,
                        ) && has_wire(self.wires@, self.deps@[i].depends_on@) by {
                            if i < self.deps@.len() - 1 {
                                assert(self.deps@[i] == d0[i]);
                            }
                        }
                    }
                }
                Ok(())
            },
        }
    }

    /// Removes the dependency of `wire_id` on `depends_on`, if present.
    /// Removing an absent edge succeeds silently.
    pub fn remove_dependency(&mut self, wire_id: &str, depends_on: &str)
        requires
            old(self).wf(),
        ensures
            final (self).wf(),
            final (self).wire_seq() == old(self).wire_seq(),
            final (self).dep_seq() == old(self).dep_seq().filter(
                edge_filter(wire_id@, depends_on@),
            ),
    {
        let ghost keep = edge_filter(wire_id@, depends_on@);
        let ghost d0 = self.deps@;
        let mut kept: Vec<Dependency> = Vec::new();
        let mut i: usize = 0;
        while i < self.deps.len()
            invariant
                i <= self.deps@.len(),
                d0 == self.deps@,
                keep == edge_filter(wire_id@, depends_on@),
                edges_unique(d0),
                kept@ == d0.take(i as int).filter(keep),
                forall|m: int| #![trigger kept@[m]]
                    0 <= m < kept@.len() ==> exists|j: int|
                        #![trigger d0[j]]
                        0 <= j < i && kept@[m] == d0[j],
                edges_unique(kept@),
            decreases self.deps@.len() - i,
        {
            let matched = str_eq(self.deps[i].wire_id.as_str(), wire_id) && str_eq(
                self.deps[i].depends_on.as_str(),
                depends_on,
            );
            if !matched {
                let ghost k0 = kept@;
                kept.push(self.deps[i].clone());
                proof {
                    assert(kept@ =~= k0.push(d0[i as int]));
                    assert forall|m: int| #![trigger kept@[m]] 0 <= m
                        < kept@.len() implies exists|j: int|
                        #![trigger d0[j]]
                        0 <= j < i + 1 && kept@[m] == d0[j] by {
                        if m < k0.len() {
                            assert(kept@[m] == k0[m]);
                            let j = choose|j: int| 0 <= j < i && k0[m] == d0[j];
                            assert(kept@[m] == d0[j]);
                        } else {
                            assert(kept@[m] == d0[i as int]);
                        }
                    }
                    assert forall|m: int, n: int|
                        0 <= m < n < kept@.len() implies !((#[trigger] kept@[m]).wire_id@ == (
                    #[trigger] kept@[n]).wire_id@ && kept@[m].depends_on@
                        == kept@[n].depends_on@) by {
                        if n == kept@.len() - 1 {
                            assert(kept@[m] == k0[m]);
                            let j = choose|j: int| 0 <= j < i && k0[m] == d0[j];
                            assert(!(d0[j].wire_id@ == d0[i as int].wire_id@ && d0[j].depends_on@
                                == d0[i as int].depends_on@));
                        } else {
                            assert(kept@[m] == k0[m] && kept@[n] == k0[n]);
                        }
                    }
                }
            }
            proof {
                assert(d0.take(i + 1 as int) =~= d0.take(i as int).push(d0[i as int]));
                d0.take(i as int).lemma_filter_push(d0[i as int], keep);
            }
            i = i + 1;
        }
        proof {
            assert(d0.take(d0.len() as int) =~= d0);
        }
        self.deps = kept;
        proof {
            assert forall|m: int| 0 <= m < self.deps@.len() implies has_wire(
                self.wires@,
                (#[trigger] self.deps@[m]).wire_id@,
            ) && has_wire(self.wires@, self.deps@[m].depends_on@) by {
                assert(self.deps@[m] == kept@[m]);
                let j = choose|j: int| 0 <= j < i && kept@[m] == d0[j];
                assert(has_wire(self.wires@, d0[j].wire_id@) && has_wire(
                    self.wires@,
                    d0[j].depends_on@,
                ));
            }
            assert forall|a: Seq<char>, b: Seq<char>| #[trigger] has_edge(
                self.deps@,
                a,
                b,
            ) implies has_edge(d0, a, b) by {
                let m = choose|m: int|
                    0 <= m < self.deps@.len() && (#[trigger] self.deps@[m]).wire_id@ == a
                        && self.deps@[m].depends_on@ == b;
                assert(self.deps@[m] == kept@[m]);
                let j = choose|j: int| 0 <= j < i && kept@[m] == d0[j];
                assert(d0[j].wire_id@ == a && d0[j].depends_on@ == b);
            }
            lemma_sub_edges_acyclic(self.deps@, d0);
        }
    }

    /// Deletes the wire carrying `id` and, with it, every edge where it
    /// appears as either endpoint (cascade).
    pub fn remove_wire(&mut self, id: &str) -> (r: Result<(), WireError>)
        requires
            old(self).wf(),
        ensures
            final (self).wf(),
            r is Ok <==> has_wire(old(self).wire_seq(), id@),
            r matches Err(e) ==> (e matches WireError::WireNotFound(m) && m@ == id@ && final (self).wire_seq() == old(self).wire_seq() && final (self).dep_seq() == old(self).dep_seq()),
            r is Ok ==> final (self).wire_seq() == old(self).wire_seq().remove(
                wire_index(old(self).wire_seq(), id@),
            ),
            r is Ok ==> final (self).dep_seq() == old(self).dep_seq().filter(endpoint_filter(id@)),
    {
        let k = match self.find_wire_index(id) {
            Some(k) => k,
            None => {
                return Err(WireError::WireNotFound(id.to_owned()));
            },
        };
        let ghost w0 = self.wires@;
        let ghost d0 = self.deps@;
        proof {
            lemma_wire_index_unique(w0, id@, k as int);
        }
        self.wires.remove(k);
        let ghost keep = endpoint_filter(id@);
        let mut kept: Vec<Dependency> = Vec::new();
        let mut i: usize = 0;
        while i < self.deps.len()
            invariant
                i <= self.deps@.len(),
                d0 == self.deps@,
                keep == endpoint_filter(id@),
                edges_unique(d0),
                kept@ == d0.take(i as int).filter(keep),
                forall|m: int| #![trigger kept@[m]]
                    0 <= m < kept@.len() ==> exists|j: int|
                        #![trigger d0[j]]
                        0 <= j < i && kept@[m] == d0[j],
                edges_unique(kept@),
                forall|m: int|
                    0 <= m < kept@.len() ==> (#[trigger] kept@[m]).wire_id@ != id@
                        && kept@[m].depends_on@ != id@,
            decreases self.deps@.len() - i,
        {
            let matched = str_eq(self.deps[i].wire_id.as_str(), id) || str_eq(
                self.deps[i].depends_on.as_str(),
                id,
            );
            if !matched {
                let ghost k0 = kept@;
                kept.push(self.deps[i].clone());
                proof {
                    assert(kept@ =~= k0.push(d0[i as int]));
                    assert forall|m: int| #![trigger kept@[m]] 0 <= m
                        < kept@.len() implies exists|j: int|
                        #![trigger d0[j]]
                        0 <= j < i + 1 && kept@[m] == d0[j] by {
                        if m < k0.len() {
                            assert(kept@[m] == k0[m]);
                            let j = choose|j: int| 0 <= j < i && k0[m] == d0[j];
                            assert(kept@[m] == d0[j]);
                        } else {
                            assert(kept@[m] == d0[i as int]);
                        }
                    }
                    assert forall|m: int, n: int|
                        0 <= m < n < kept@.len() implies !((#[trigger] kept@[m]).wire_id@ == (
                    #[trigger] kept@[n]).wire_id@ && kept@[m].depends_on@
                        == kept@[n].depends_on@) by {
                        if n == kept@.len() - 1 {
                            assert(kept@[m] == k0[m]);
                            let j = choose|j: int| 0 <= j < i && k0[m] == d0[j];
                            assert(!(d0[j].wire_id@ == d0[i as int].wire_id@ && d0[j].depends_on@
                                == d0[i as int].depends_on@));
                        } else {
                            assert(kept@[m] == k0[m] && kept@[n] == k0[n]);
                        }
                    }
                }
            }
            proof {
                assert(d0.take(i + 1 as int) =~= d0.take(i as int).push(d0[i as int]));
                d0.take(i as int).lemma_filter_push(d0[i as int], keep);
            }
            i = i + 1;
        }
        proof {
            assert(d0.take(d0.len() as int) =~= d0);
        }
        self.deps = kept;
        proof {
            // ids stay unique after removal
            assert forall|a: int, b: int|
                0 <= a < b < self.wires@.len() implies (#[trigger] self.wires@[a]).id@ != (
            #[trigger] self.wires@[b]).id@ by {
                let a0: int = if a < k as int {
                    a
                } else {
                    a + 1
                };
                let b0: int = if b < k as int {
                    b
                } else {
                    b + 1
                };
                assert(self.wires@[a] == w0[a0] && self.wires@[b] == w0[b0]);
            }
            // every surviving edge endpoint survives as a wire
            assert forall|m: int| 0 <= m < self.deps@.len() implies has_wire(
                self.wires@,
                (#[trigger] self.deps@[m]).wire_id@,
            ) && has_wire(self.wires@, self.deps@[m].depends_on@) by {
                assert(self.deps@[m] == kept@[m]);
                let j = choose|j: int| 0 <= j < i && kept@[m] == d0[j];
                assert(self.deps@[m] == d0[j]);
                assert(has_wire(w0, d0[j].wire_id@) && has_wire(w0, d0[j].depends_on@));
                lemma_has_wire_after_remove(w0, k as int, d0[j].wire_id@);
                lemma_has_wire_after_remove(w0, k as int, d0[j].depends_on@);
            }
            // acyclicity survives: every surviving edge was an edge before
            assert forall|a: Seq<char>, b: Seq<char>| #[trigger] has_edge(
                self.deps@,
                a,
                b,
            ) implies has_edge(d0, a, b) by {
                let m = choose|m: int|
                    0 <= m < self.deps@.len() && (#[trigger] self.deps@[m]).wire_id@ == a
                        && self.deps@[m].depends_on@ == b;
                assert(self.deps@[m] == kept@[m]);
                let j = choose|j: int| 0 <= j < i && kept@[m] == d0[j];
                assert(d0[j].wire_id@ == a && d0[j].depends_on@ == b);
            }
            lemma_sub_edges_acyclic(self.deps@, d0);
        }
        Ok(())
    }

    /// Updates one or more fields of a wire in one atomic step. Fields not
    /// supplied are left unchanged; supplying an empty description clears
    /// it. When any field is supplied, `updated_at` is set to `now`; when
    /// none is, the wire is left untouched.
    pub fn update_wire(
        &mut self,
        wire_id: &str,
        title: Option<&str>,
        description: Option<Option<&str>>,
        status: Option<Status>,
        priority: Option<i32>,
        now: i64,
    ) -> (r: Result<(), WireError>)
        requires
            old(self).wf(),
        ensures
            final (self).wf(),
            final (self).dep_seq() == old(self).dep_seq(),
            r is Ok <==> has_wire(old(self).wire_seq(), wire_id@),
            r matches Err(e) ==> (e matches WireError::WireNotFound(m) && m@ == wire_id@ && final (self).wire_seq() == old(self).wire_seq()),
            r is Ok && title is None && description is None && status is None && priority is None
                ==> final (self).wire_seq() == old(self).wire_seq(),
            r is Ok && !(title is None && description is None && status is None && priority
                is None) ==> ({
                let k = wire_index(old(self).wire_seq(), wire_id@);
                let w0 = old(self).wire_seq()[k];
                let w1 = final (self).wire_seq()[k];
                &&& final (self).wire_seq().len() == old(self).wire_seq().len()
                &&& (forall|j: int|
                    0 <= j < old(self).wire_seq().len() && j != k ==> final (self).wire_seq()[j]
                        == old(self).wire_seq()[j])
                &&& w1.id == w0.id
                &&& w1.created_at == w0.created_at
                &&& w1.updated_at == now
                &&& w1.title@ == (match title {
                    Some(t) => t@,
                    None => w0.title@,
                })
                &&& (title is None ==> w1.title == w0.title)
                &&& (description is None ==> w1.description == w0.description)
                &&& opt_str_view(w1.description) == (match description {
                    None => opt_str_view(w0.description),
                    Some(None) => None::<Seq<char>>,
                    Some(Some(d)) => if d@.len() == 0 {
                        None::<Seq<char>>
                    } else {
                        Some(d@)
                    },
                })
                &&& w1.status == (match status {
                    Some(st) => st,
                    None => w0.status,
                })
                &&& w1.priority == (match priority {
                    Some(p) => p,
                    None => w0.priority,
                })
            }),
    {
        let k = match self.find_wire_index(wire_id) {
            Some(k) => k,
            None => {
                return Err(WireError::WireNotFound(wire_id.to_owned()));
            },
        };
        if title.is_none() && description.is_none() && status.is_none() && priority.is_none() {
            return Ok(());
        }
        let ghost w0seq = self.wires@;
        proof {
            lemma_wire_index_unique(w0seq, wire_id@, k as int);
        }
        let w = self.wires.remove(k);
        let new_wire = Wire {
            id: w.id,
            title: match title {
                Some(t) => t.to_owned(),
                None => w.title,
            },
            description: match description {
                None => w.description,
                Some(None) => None,
                Some(Some(d)) => if d.is_empty() {
                    None
                } else {
                    Some(d.to_owned())
                },
            },
            status: match status {
                Some(st) => st,
                None => w.status,
            },
            created_at: w.created_at,
            updated_at: now,
            priority: match priority {
                Some(p) => p,
                None => w.priority,
            },
        };
        let ghost nwv = new_wire;
        self.wires.insert(k, new_wire);
        proof {
            assert(self.wires@ =~= w0seq.update(k as int, nwv));
            assert forall|a: int, b: int|
                0 <= a < b < self.wires@.len() implies (#[trigger] self.wires@[a]).id@ != (
            #[trigger] self.wires@[b]).id@ by {
                assert(self.wires@[a].id@ == w0seq[a].id@);
                assert(self.wires@[b].id@ == w0seq[b].id@);
            }
            assert forall|m: int| 0 <= m < self.deps@.len() implies has_wire(
                self.wires@,
                (#[trigger] self.deps@[m]).wire_id@,
            ) && has_wire(self.wires@, self.deps@[m].depends_on@) by {
                let a = choose|t: int| 0 <= t < w0seq.len() && (#[trigger] w0seq[t]).id@
                    == self.deps@[m].wire_id@;
                assert(self.wires@[a].id@ == self.deps@[m].wire_id@);
                let b = choose|t: int| 0 <= t < w0seq.len() && (#[trigger] w0seq[t]).id@
                    == self.deps@[m].depends_on@;
                assert(self.wires@[b].id@ == self.deps@[m].depends_on@);
            }
        }
        Ok(())
    }

    /// Sets a wire's status as one atomic operation, refreshing
    /// `updated_at`. Marking a wire Done additionally reports, as
    /// non-fatal warnings, those of its direct dependencies that are not
    /// themselves Done; the transition goes through regardless.
    pub fn set_status(&mut self, wire_id: &str, status: Status, now: i64) -> (r: Result<
        Vec<DependencyInfo>,
        WireError,
    >)
        requires
            old(self).wf(),
        ensures
            final (self).wf(),
            final (self).dep_seq() == old(self).dep_seq(),
            r is Ok <==> has_wire(old(self).wire_seq(), wire_id@),
            r matches Err(e) ==> (e matches WireError::WireNotFound(m) && m@ == wire_id@ && final (self).wire_seq() == old(self).wire_seq()),
            r is Ok ==> ({
                let k = wire_index(old(self).wire_seq(), wire_id@);
                let w0 = old(self).wire_seq()[k];
                let w1 = final (self).wire_seq()[k];
                &&& final (self).wire_seq().len() == old(self).wire_seq().len()
                &&& (forall|j: int|
                    0 <= j < old(self).wire_seq().len() && j != k ==> final (self).wire_seq()[j]
                        == old(self).wire_seq()[j])
                &&& w1.id == w0.id
                &&& w1.title == w0.title
                &&& w1.description == w0.description
                &&& w1.created_at == w0.created_at
                &&& w1.priority == w0.priority
                &&& w1.status == status
                &&& w1.updated_at == now
            }),
            r matches Ok(warnings) ==> warnings@ == (if status is Done {
                incomplete_of(old(self).wire_seq(), old(self).dep_seq(), wire_id@)
            } else {
                Seq::<DependencyInfo>::empty()
            }),
    {
        let warnings = match status {
            Status::Done => self.check_incomplete_dependencies(wire_id),
            _ => {
                let v: Vec<DependencyInfo> = Vec::new();
                proof {
                    assert(v@ =~= Seq::<DependencyInfo>::empty());
                }
                v
            },
        };
        match self.update_wire(wire_id, None, None, Some(status), None, now) {
            Ok(()) => Ok(warnings),
            Err(e) => Err(e),
        }
    }

    /// Exports the whole graph: every wire as a node and every dependency
    /// as an edge, in store order.
    pub fn graph_snapshot(&self) -> (r: crate::format::Graph)
        requires
            self.wf(),
        ensures
            r.nodes@ == crate::format::graph_nodes_view(self.wire_seq()),
            r.edges@ == crate::format::graph_edges_view(self.dep_seq()),
    {
        let mut nodes: Vec<crate::format::GraphNode> = Vec::new();
        let mut i: usize = 0;
        while i < self.wires.len()
            invariant
                i <= self.wires@.len(),
                nodes@ == crate::format::graph_nodes_view(self.wire_seq().take(i as int)),
            decreases self.wires@.len() - i,
        {
            let w = &self.wires[i];
            nodes.push(
                crate::format::GraphNode {
                    id: w.id.clone(),
                    title: w.title.clone(),
                    status: w.status,
                    priority: w.priority,
                },
            );
            proof {
                assert(nodes@ =~= crate::format::graph_nodes_view(
                    self.wire_seq().take(i + 1 as int),
                ));
            }
            i = i + 1;
        }
        let mut edges: Vec<crate::format::GraphEdge> = Vec::new();
        let mut j: usize = 0;
        while j < self.deps.len()
            invariant
                j <= self.deps@.len(),
                edges@ == crate::format::graph_edges_view(self.dep_seq().take(j as int)),
            decreases self.deps@.len() - j,
        {
            let e = &self.deps[j];
            edges.push(
                crate::format::GraphEdge { from: e.wire_id.clone(), to: e.depends_on.clone() },
            );
            proof {
                assert(edges@ =~= crate::format::graph_edges_view(
                    self.dep_seq().take(j + 1 as int),
                ));
            }
            j = j + 1;
        }
        proof {
            assert(self.wires@.take(self.wires@.len() as int) =~= self.wires@);
            assert(self.deps@.take(self.deps@.len() as int) =~= self.deps@);
        }
        crate::format::Graph { nodes, edges }
    }

    /// Builds the dependency summary for the wire carrying `tid`.
    fn info_for(&self, tid: &str) -> (r: DependencyInfo)
        requires
            self.wf(),
            has_wire(self.wire_seq(), tid@),
        ensures
            r == dep_info_of(self.wire_seq(), tid@),
    {
        let t = match self.find_wire_index(tid) {
            Some(t) => t,
            None => {
                proof {
                    assert(false);
                }
                0
            },
        };
        proof {
            lemma_wire_index_unique(self.wires@, tid@, t as int);
        }
        DependencyInfo {
            id: self.wires[t].id.clone(),
            title: self.wires[t].title.clone(),
            status: self.wires[t].status,
        }
    }

    /// Whether the wire carrying `tid` exists and is Done, with the
    /// uniqueness of ids bridging the scan to the specification.
    fn is_done_wire(&self, tid: &str) -> (r: bool)
        requires
            self.wf(),
        ensures
            r == wire_is_done(self.wire_seq(), tid@),
    {
        match self.find_wire_index(tid) {
            Some(t) => {
                let done = match self.wires[t].status {
                    Status::Done => true,
                    _ => false,
                };
                proof {
                    if !done && wire_is_done(self.wires@, tid@) {
                        let u = choose|u: int|
                            0 <= u < self.wires@.len() && (#[trigger] self.wires@[u]).id@ == tid@
                                && self.wires@[u].status == Status::Done;
                        lemma_wire_index_unique(self.wires@, tid@, u);
                        lemma_wire_index_unique(self.wires@, tid@, t as int);
                        assert(false);
                    }
                }
                done
            },
            None => {
                proof {
                    if wire_is_done(self.wires@, tid@) {
                        let u = choose|u: int|
                            0 <= u < self.wires@.len() && (#[trigger] self.wires@[u]).id@ == tid@
                                && self.wires@[u].status == Status::Done;
                        assert(has_wire(self.wires@, tid@));
                    }
                }
                false
            },
        }
    }

    /// Lists the direct dependencies of `wire_id` that are not yet Done,
    /// annotated with their current status: the warnings surfaced when a
    /// wire is marked Done.
    pub fn check_incomplete_dependencies(&self, wire_id: &str) -> (r: Vec<DependencyInfo>)
        requires
            self.wf(),
        ensures
            r@ == incomplete_of(self.wire_seq(), self.dep_seq(), wire_id@),
    {
        let mut out: Vec<DependencyInfo> = Vec::new();
        let mut i: usize = 0;
        proof {
            reveal(Seq::filter);
            assert(self.deps@.take(0).filter(incomplete_pred(self.wires@, wire_id@))
                =~= Seq::<Dependency>::empty());
            assert(out@ =~= incomplete_of(self.wires@, self.deps@.take(0), wire_id@));
        }
        while i < self.deps.len()
            invariant
                i <= self.deps@.len(),
                self.wf(),
                out@ == incomplete_of(self.wire_seq(), self.dep_seq().take(i as int), wire_id@),
            decreases self.deps@.len() - i,
        {
            if str_eq(self.deps[i].wire_id.as_str(), wire_id) {
                if !self.is_done_wire(self.deps[i].depends_on.as_str()) {
                    let info = self.info_for(self.deps[i].depends_on.as_str());
                    out.push(info);
                }
            }
            proof {
                assert(self.deps@.take(i + 1 as int) =~= self.deps@.take(i as int).push(
                    self.deps@[i as int],
                ));
                lemma_incomplete_push(
                    self.wires@,
                    self.deps@.take(i as int),
                    self.deps@[i as int],
                    wire_id@,
                );
            }
            i = i + 1;
        }
        proof {
            assert(self.deps@.take(self.deps@.len() as int) =~= self.deps@);
        }
        out
    }

    /// The two neighbour lists of a wire: the wires it depends on and the
    /// wires it blocks, each annotated with its current status.
    pub fn fetch_wire_deps(&self, wire_id: &str) -> (r: (Vec<DependencyInfo>, Vec<DependencyInfo>))
        requires
            self.wf(),
        ensures
            r.0@ == deps_of(self.wire_seq(), self.dep_seq(), wire_id@),
            r.1@ == blocks_of(self.wire_seq(), self.dep_seq(), wire_id@),
    {
        let mut depends: Vec<DependencyInfo> = Vec::new();
        let mut blocks: Vec<DependencyInfo> = Vec::new();
        let mut i: usize = 0;
        proof {
            reveal(Seq::filter);
            assert(self.deps@.take(0).filter(depends_pred(wire_id@)) =~= Seq::<
                Dependency,
            >::empty());
            assert(self.deps@.take(0).filter(blocks_pred(wire_id@)) =~= Seq::<Dependency>::empty());
            assert(depends@ =~= deps_of(self.wires@, self.deps@.take(0), wire_id@));
            assert(blocks@ =~= blocks_of(self.wires@, self.deps@.take(0), wire_id@));
        }
        while i < self.deps.len()
            invariant
                i <= self.deps@.len(),
                self.wf(),
                depends@ == deps_of(self.wire_seq(), self.dep_seq().take(i as int), wire_id@),
                blocks@ == blocks_of(self.wire_seq(), self.dep_seq().take(i as int), wire_id@),
            decreases self.deps@.len() - i,
        {
            if str_eq(self.deps[i].wire_id.as_str(), wire_id) {
                let info = self.info_for(self.deps[i].depends_on.as_str());
                depends.push(info);
            }
            if str_eq(self.deps[i].depends_on.as_str(), wire_id) {
                let info = self.info_for(self.deps[i].wire_id.as_str());
                blocks.push(info);
            }
            proof {
                assert(self.deps@.take(i + 1 as int) =~= self.deps@.take(i as int).push(
                    self.deps@[i as int],
                ));
                lemma_deps_of_push(
                    self.wires@,
                    self.deps@.take(i as int),
                    self.deps@[i as int],
                    wire_id@,
                );
                lemma_blocks_of_push(
                    self.wires@,
                    self.deps@.take(i as int),
                    self.deps@[i as int],
                    wire_id@,
                );
            }
            i = i + 1;
        }
        proof {
            assert(self.deps@.take(self.deps@.len() as int) =~= self.deps@);
        }
        (depends, blocks)
    }

    /// Gets a wire together with its full dependency information.
    pub fn get_wire_with_deps(&self, wire_id: &str) -> (r: Result<WireWithDeps, WireError>)
        requires
            self.wf(),
        ensures
            r is Ok <==> has_wire(self.wire_seq(), wire_id@),
            r matches Ok(w) ==> w.wire == wire_at(self.wire_seq(), wire_id@) && w.depends_on@
                == deps_of(self.wire_seq(), self.dep_seq(), wire_id@) && w.blocks@ == blocks_of(
                self.wire_seq(),
                self.dep_seq(),
                wire_id@,
            ),
            r matches Err(e) ==> (e matches WireError::WireNotFound(m) && m@ == wire_id@),
    {
        let k = match self.find_wire_index(wire_id) {
            Some(k) => k,
            None => {
                return Err(WireError::WireNotFound(wire_id.to_owned()));
            },
        };
        proof {
            lemma_wire_index_unique(self.wires@, wire_id@, k as int);
        }
        let wire = self.wires[k].clone();
        let (depends_on, blocks) = self.fetch_wire_deps(wire_id);
        Ok(WireWithDeps { wire, depends_on, blocks })
    }

    /// Lists wires, optionally filtered by status, newest first.
    pub fn list_wires(&self, status_filter: Option<Status>) -> (r: Vec<Wire>)
        requires
            self.wf(),
        ensures
            r@.to_multiset() == self.wire_seq().filter(
                crate::ready::status_pred(status_filter),
            ).to_multiset(),
            forall|a: int, b: int|
                0 <= a < b < r@.len() ==> crate::ready::created_desc(
                    #[trigger] r@[a],
                    #[trigger] r@[b],
                ),
    {
        let ghost pred = crate::ready::status_pred(status_filter);
        let mut picked: Vec<Wire> = Vec::new();
        let mut i: usize = 0;
        proof {
            reveal(Seq::filter);
            assert(picked@ =~= self.wires@.take(0).filter(pred));
        }
        while i < self.wires.len()
            invariant
                i <= self.wires@.len(),
                pred == crate::ready::status_pred(status_filter),
                picked@ == self.wire_seq().take(i as int).filter(pred),
            decreases self.wires@.len() - i,
        {
            let keep = match status_filter {
                None => true,
                Some(s) => match (self.wires[i].status, s) {
                    (Status::Todo, Status::Todo) => true,
                    (Status::InProgress, Status::InProgress) => true,
                    (Status::Done, Status::Done) => true,
                    (Status::Cancelled, Status::Cancelled) => true,
                    _ => false,
                },
            };
            proof {
                assert(keep == pred(self.wires@[i as int]));
            }
            if keep {
                picked.push(self.wires[i].clone());
            }
            proof {
                assert(self.wires@.take(i + 1 as int) =~= self.wires@.take(i as int).push(
                    self.wires@[i as int],
                ));
                self.wires@.take(i as int).lemma_filter_push(self.wires@[i as int], pred);
            }
            i = i + 1;
        }
        proof {
            assert(self.wires@.take(self.wires@.len() as int) =~= self.wires@);
        }
        crate::ready::sort_by_created_desc(picked)
    }

    /// Lists wires with their dependency information, optionally filtered
    /// by status, newest first.
    pub fn list_wires_with_deps(&self, status_filter: Option<Status>) -> (r: Vec<WireWithDeps>)
        requires
            self.wf(),
        ensures
            r@.map_values(|x: WireWithDeps| x.wire).to_multiset() == self.wire_seq().filter(
                crate::ready::status_pred(status_filter),
            ).to_multiset(),
            forall|a: int, b: int|
                0 <= a < b < r@.len() ==> crate::ready::created_desc(
                    (#[trigger] r@[a]).wire,
                    (#[trigger] r@[b]).wire,
                ),
            forall|m: int|
                0 <= m < r@.len() ==> (#[trigger] r@[m]).depends_on@ == deps_of(
                    self.wire_seq(),
                    self.dep_seq(),
                    r@[m].wire.id@,
                ) && r@[m].blocks@ == blocks_of(self.wire_seq(), self.dep_seq(), r@[m].wire.id@),
    {
        let wires = self.list_wires(status_filter);
        let mut out: Vec<WireWithDeps> = Vec::new();
        let mut i: usize = 0;
        while i < wires.len()
            invariant
                i <= wires@.len(),
                self.wf(),
                out@.len() == i,
                forall|m: int| 0 <= m < i ==> (#[trigger] out@[m]).wire == wires@[m],
                forall|m: int|
                    0 <= m < i ==> (#[trigger] out@[m]).depends_on@ == deps_of(
                        self.wire_seq(),
                        self.dep_seq(),
                        out@[m].wire.id@,
                    ) && out@[m].blocks@ == blocks_of(
                        self.wire_seq(),
                        self.dep_seq(),
                        out@[m].wire.id@,
                    ),
            decreases wires@.len() - i,
        {
            let wire = wires[i].clone();
            let (depends_on, blocks) = self.fetch_wire_deps(wire.id.as_str());
            out.push(WireWithDeps { wire, depends_on, blocks });
            i = i + 1;
        }
        proof {
            assert(out@.map_values(|x: WireWithDeps| x.wire) =~= wires@);
        }
        out
    }

    /// Whether every wire that `wire_id` directly depends on is Done.
    fn deps_done(&self, wire_id: &str) -> (r: bool)
        requires
            self.wf(),
        ensures
            r == (forall|k: int|
                0 <= k < self.dep_seq().len() && (#[trigger] self.dep_seq()[k]).wire_id@
                    == wire_id@ ==> wire_is_done(self.wire_seq(), self.dep_seq()[k].depends_on@)),
    {
        let mut i: usize = 0;
        while i < self.deps.len()
            invariant
                i <= self.deps@.len(),
                self.wf(),
                forall|k: int|
                    0 <= k < i && (#[trigger] self.deps@[k]).wire_id@ == wire_id@ ==> wire_is_done(
                        self.wires@,
                        self.deps@[k].depends_on@,
                    ),
            decreases self.deps@.len() - i,
        {
            if str_eq(self.deps[i].wire_id.as_str(), wire_id) {
                if !self.is_done_wire(self.deps[i].depends_on.as_str()) {
                    proof {
                        assert(self.deps@[i as int].wire_id@ == wire_id@ && !wire_is_done(
                            self.wires@,
                            self.deps@[i as int].depends_on@,
                        ));
                    }
                    return false;
                }
            }
            i = i + 1;
        }
        true
    }

    /// The wires ready to be worked on: status Todo or InProgress, and
    /// every direct dependency Done. Ordered with InProgress before Todo,
    /// then by priority, higher first.
    pub fn get_ready_wires(&self) -> (r: Vec<Wire>)
        requires
            self.wf(),
        ensures
            r@.to_multiset() == self.wire_seq().filter(
                crate::ready::ready_pred(self.wire_seq(), self.dep_seq()),
            ).to_multiset(),
            forall|a: int, b: int|
                0 <= a < b < r@.len() ==> crate::ready::ready_le(
                    #[trigger] r@[a],
                    #[trigger] r@[b],
                ),
            forall|w: Wire|
                r@.contains(w) <==> (self.wire_seq().contains(w) && crate::ready::is_ready(
                    self.wire_seq(),
                    self.dep_seq(),
                    w,
                )),
    {
        let ghost pred = crate::ready::ready_pred(self.wire_seq(), self.dep_seq());
        let mut picked: Vec<Wire> = Vec::new();
        let mut i: usize = 0;
        proof {
            reveal(Seq::filter);
            assert(picked@ =~= self.wires@.take(0).filter(pred));
        }
        while i < self.wires.len()
            invariant
                i <= self.wires@.len(),
                self.wf(),
                pred == crate::ready::ready_pred(self.wire_seq(), self.dep_seq()),
                picked@ == self.wire_seq().take(i as int).filter(pred),
            decreases self.wires@.len() - i,
        {
            let status_ok = match self.wires[i].status {
                Status::Todo => true,
                Status::InProgress => true,
                _ => false,
            };
            let keep = status_ok && self.deps_done(self.wires[i].id.as_str());
            proof {
                assert(keep == pred(self.wires@[i as int]));
            }
            if keep {
                picked.push(self.wires[i].clone());
            }
            proof {
                assert(self.wires@.take(i + 1 as int) =~= self.wires@.take(i as int).push(
                    self.wires@[i as int],
                ));
                self.wires@.take(i as int).lemma_filter_push(self.wires@[i as int], pred);
            }
            i = i + 1;
        }
        proof {
            assert(self.wires@.take(self.wires@.len() as int) =~= self.wires@);
        }
        let sorted = crate::ready::sort_ready(picked);
        proof {
            let f = self.wire_seq().filter(pred);
            sorted@.to_multiset_ensures();
            f.to_multiset_ensures();
            assert forall|w: Wire| sorted@.contains(w) implies (self.wire_seq().contains(w)
                && crate::ready::is_ready(self.wire_seq(), self.dep_seq(), w)) by {
                assert(sorted@.to_multiset().count(w) > 0);
                assert(f.contains(w));
                crate::ready::lemma_filter_elem_of(self.wire_seq(), pred, w);
            }
            assert forall|w: Wire|
                self.wire_seq().contains(w) && crate::ready::is_ready(
                    self.wire_seq(),
                    self.dep_seq(),
                    w,
                ) implies sorted@.contains(w) by {
                let t = choose|t: int|
                    0 <= t < self.wire_seq().len() && self.wire_seq()[t] == w;
                assert(pred(self.wire_seq()[t]));
                self.wire_seq().lemma_filter_contains(pred, t);
                assert(f.to_multiset().count(w) > 0);
            }
        }
        sorted
    }
}

/// Extending the edge list by one edge extends the incomplete-dependency
/// listing exactly when the new edge is a not-yet-Done dependency of `id`.
proof fn lemma_incomplete_push(w: Seq<Wire>, s: Seq<Dependency>, e: Dependency, id: Seq<char>)
    ensures
        incomplete_of(w, s.push(e), id) == if incomplete_pred(w, id)(e) {
            incomplete_of(w, s, id).push(dep_info_of(w, e.depends_on@))
        } else {
            incomplete_of(w, s, id)
        },
{
    s.lemma_filter_push(e, incomplete_pred(w, id));
    if incomplete_pred(w, id)(e) {
        assert(incomplete_of(w, s.push(e), id) =~= incomplete_of(w, s, id).push(
            dep_info_of(w, e.depends_on@),
        ));
    } else {
        assert(incomplete_of(w, s.push(e), id) =~= incomplete_of(w, s, id));
    }
}

/// Extending the edge list by one edge extends the depends-on listing
/// exactly when the new edge leaves `id`.
proof fn lemma_deps_of_push(w: Seq<Wire>, s: Seq<Dependency>, e: Dependency, id: Seq<char>)
    ensures
        deps_of(w, s.push(e), id) == if depends_pred(id)(e) {
            deps_of(w, s, id).push(dep_info_of(w, e.depends_on@))
        } else {
            deps_of(w, s, id)
        },
{
    s.lemma_filter_push(e, depends_pred(id));
    if depends_pred(id)(e) {
        assert(deps_of(w, s.push(e), id) =~= deps_of(w, s, id).push(
            dep_info_of(w, e.depends_on@),
        ));
    } else {
        assert(deps_of(w, s.push(e), id) =~= deps_of(w, s, id));
    }
}

/// Extending the edge list by one edge extends the blocks listing exactly
/// when the new edge enters `id`.
proof fn lemma_blocks_of_push(w: Seq<Wire>, s: Seq<Dependency>, e: Dependency, id: Seq<char>)
    ensures
        blocks_of(w, s.push(e), id) == if blocks_pred(id)(e) {
            blocks_of(w, s, id).push(dep_info_of(w, e.wire_id@))
        } else {
            blocks_of(w, s, id)
        },
{
    s.lemma_filter_push(e, blocks_pred(id));
    if blocks_pred(id)(e) {
        assert(blocks_of(w, s.push(e), id) =~= blocks_of(w, s, id).push(
            dep_info_of(w, e.wire_id@),
        ));
    } else {
        assert(blocks_of(w, s.push(e), id) =~= blocks_of(w, s, id));
    }
}

} // verus!
