//! The readiness model and the orderings the engine's listings use: what
//! it means for a wire to be ready, how the ready listing is ordered, and
//! verified sorting routines for both listings.

use crate::models::{status_rank, Status, Wire};
use crate::store::wire_is_done;
use vstd::prelude::*;

verus! {

/// A wire is ready exactly when its own status permits work (Todo or
/// InProgress) and every wire it directly depends on is Done. A Cancelled
/// prerequisite does not satisfy readiness; only Done does.
pub open spec fn is_ready(wires: Seq<Wire>, deps: Seq<crate::models::Dependency>, w: Wire) -> bool {
    (w.status == Status::Todo || w.status == Status::InProgress) && forall|k: int|
        0 <= k < deps.len() && (#[trigger] deps[k]).wire_id@ == w.id@ ==> wire_is_done(
            wires,
            deps[k].depends_on@,
        )
}

/// Readiness as a predicate over wires, for filtering.
pub open spec fn ready_pred(wires: Seq<Wire>, deps: Seq<crate::models::Dependency>) -> spec_fn(
    Wire,
) -> bool {
    |w: Wire| is_ready(wires, deps, w)
}

/// The order of the ready listing: status rank first (InProgress before
/// Todo), then priority, higher first. Ties are left unordered.
pub open spec fn ready_le(a: Wire, b: Wire) -> bool {
    status_rank(a.status) < status_rank(b.status) || (status_rank(a.status) == status_rank(b.status)
        && a.priority >= b.priority)
}

/// The order of the general listing: newest first.
pub open spec fn created_desc(a: Wire, b: Wire) -> bool {
    a.created_at >= b.created_at
}

/// The status filter of the general listing: no filter admits every wire.
pub open spec fn status_pred(filter: Option<Status>) -> spec_fn(Wire) -> bool {
    |w: Wire| match filter {
        None => true,
        Some(s) => w.status == s,
    }
}

/// Everything a filter keeps comes from the source and satisfies the
/// predicate.
pub proof fn lemma_filter_elem_of<A>(s: Seq<A>, pred: spec_fn(A) -> bool, x: A)
    requires
        s.filter(pred).contains(x),
    ensures
        s.contains(x),
        pred(x),
    decreases s.len(),
{
    reveal(Seq::filter);
    if s.len() == 0 {
    } else {
        if pred(s.last()) && x == s.last() {
            assert(s.contains(x)) by {
                assert(s[s.len() - 1] == x);
            }
        } else {
            assert(s.drop_last().filter(pred).contains(x)) by {
                let f = s.filter(pred);
                let m = choose|m: int| 0 <= m < f.len() && f[m] == x;
                if pred(s.last()) {
                    assert(f == s.drop_last().filter(pred).push(s.last()));
                    assert(m < f.len() - 1);
                    assert(s.drop_last().filter(pred)[m] == x);
                } else {
                    assert(f == s.drop_last().filter(pred));
                }
            }
            lemma_filter_elem_of(s.drop_last(), pred, x);
            let t = choose|t: int| 0 <= t < s.drop_last().len() && s.drop_last()[t] == x;
            assert(s[t] == x);
        }
    }
}

fn ready_le_exec(a: &Wire, b: &Wire) -> (r: bool)
    ensures
        r == ready_le(*a, *b),
{
    let ra = a.status.rank();
    let rb = b.status.rank();
    ra < rb || (ra == rb && a.priority >= b.priority)
}

fn created_desc_exec(a: &Wire, b: &Wire) -> (r: bool)
    ensures
        r == created_desc(*a, *b),
{
    a.created_at >= b.created_at
}

/// Sorts wires for the ready listing: by status rank, then priority
/// descending. Returns some permutation of the input in that order.
pub fn sort_ready(input: Vec<Wire>) -> (r: Vec<Wire>)
    ensures
        r@.to_multiset() == input@.to_multiset(),
        forall|a: int, b: int| 0 <= a < b < r@.len() ==> ready_le(#[trigger] r@[a], #[trigger] r@[b]),
{
    let mut src = input;
    let ghost orig = src@;
    let mut out: Vec<Wire> = Vec::new();
    proof {
        out@.to_multiset_ensures();
        src@.to_multiset_ensures();
        assert(out@.to_multiset().add(src@.to_multiset()) =~= orig.to_multiset());
    }
    while src.len() > 0
        invariant
            out@.to_multiset().add(src@.to_multiset()) == orig.to_multiset(),
            forall|a: int, b: int|
                0 <= a < b < out@.len() ==> ready_le(#[trigger] out@[a], #[trigger] out@[b]),
            forall|a: int, b: int|
                0 <= a < out@.len() && 0 <= b < src@.len() ==> ready_le(
                    #[trigger] out@[a],
                    #[trigger] src@[b],
                ),
        decreases src@.len(),
    {
        let mut m: usize = 0;
        let mut t: usize = 1;
        while t < src.len()
            invariant
                src@.len() > 0,
                m < src@.len(),
                t <= src@.len(),
                forall|k: int| 0 <= k < t ==> ready_le(src@[m as int], #[trigger] src@[k]),
            decreases src@.len() - t,
        {
            if !ready_le_exec(&src[m], &src[t]) {
                let ghost m0 = m as int;
                m = t;
                proof {
                    assert(ready_le(src@[t as int], src@[m0]));
                    assert forall|k: int| 0 <= k < t + 1 implies ready_le(
                        src@[m as int],
                        #[trigger] src@[k],
                    ) by {
                        if k < t {
                            assert(ready_le(src@[m0], src@[k]));
                        }
                    }
                }
            }
            t = t + 1;
        }
        let ghost src0 = src@;
        let ghost out0 = out@;
        let x = src.remove(m);
        out.push(x);
        proof {
            src0.to_multiset_ensures();
            out0.to_multiset_ensures();
            assert(src@.to_multiset() == src0.to_multiset().remove(src0[m as int]));
            assert(out@.to_multiset() == out0.to_multiset().insert(src0[m as int]));
            assert(out@.to_multiset().add(src@.to_multiset()) =~= orig.to_multiset());
            assert forall|a: int, b: int|
                0 <= a < b < out@.len() implies ready_le(
                #[trigger] out@[a],
                #[trigger] out@[b],
            ) by {
                if b == out@.len() - 1 {
                    assert(out@[a] == out0[a]);
                    assert(ready_le(out0[a], src0[m as int]));
                }
            }
            assert forall|a: int, b: int|
                0 <= a < out@.len() && 0 <= b < src@.len() implies ready_le(
                #[trigger] out@[a],
                #[trigger] src@[b],
            ) by {
                let b0: int = if b < m as int {
                    b
                } else {
                    b + 1
                };
                assert(src@[b] == src0[b0]);
                if a < out0.len() {
                    assert(out@[a] == out0[a]);
                    assert(ready_le(out0[a], src0[b0]));
                } else {
                    assert(out@[a] == src0[m as int]);
                    assert(ready_le(src0[m as int], src0[b0]));
                }
            }
        }
    }
    proof {
        src@.to_multiset_ensures();
        assert(src@ =~= Seq::<Wire>::empty());
        assert(src@.to_multiset().len() == 0);
        assert(out@.to_multiset().add(src@.to_multiset()) =~= out@.to_multiset());
    }
    out
}

/// Sorts wires for the general listing: newest first. Returns some
/// permutation of the input in that order.
pub fn sort_by_created_desc(input: Vec<Wire>) -> (r: Vec<Wire>)
    ensures
        r@.to_multiset() == input@.to_multiset(),
        forall|a: int, b: int|
            0 <= a < b < r@.len() ==> created_desc(#[trigger] r@[a], #[trigger] r@[b]),
{
    let mut src = input;
    let ghost orig = src@;
    let mut out: Vec<Wire> = Vec::new();
    proof {
        out@.to_multiset_ensures();
        src@.to_multiset_ensures();
        assert(out@.to_multiset().add(src@.to_multiset()) =~= orig.to_multiset());
    }
    while src.len() > 0
        invariant
            out@.to_multiset().add(src@.to_multiset()) == orig.to_multiset(),
            forall|a: int, b: int|
                0 <= a < b < out@.len() ==> created_desc(#[trigger] out@[a], #[trigger] out@[b]),
            forall|a: int, b: int|
                0 <= a < out@.len() && 0 <= b < src@.len() ==> created_desc(
                    #[trigger] out@[a],
                    #[trigger] src@[b],
                ),
        decreases src@.len(),
    {
        let mut m: usize = 0;
        let mut t: usize = 1;
        while t < src.len()
            invariant
                src@.len() > 0,
                m < src@.len(),
                t <= src@.len(),
                forall|k: int| 0 <= k < t ==> created_desc(src@[m as int], #[trigger] src@[k]),
            decreases src@.len() - t,
        {
            if !created_desc_exec(&src[m], &src[t]) {
                let ghost m0 = m as int;
                m = t;
                proof {
                    assert(created_desc(src@[t as int], src@[m0]));
                    assert forall|k: int| 0 <= k < t + 1 implies created_desc(
                        src@[m as int],
                        #[trigger] src@[k],
                    ) by {
                        if k < t {
                            assert(created_desc(src@[m0], src@[k]));
                        }
                    }
                }
            }
            t = t + 1;
        }
        let ghost src0 = src@;
        let ghost out0 = out@;
        let x = src.remove(m);
        out.push(x);
        proof {
            src0.to_multiset_ensures();
            out0.to_multiset_ensures();
            assert(src@.to_multiset() == src0.to_multiset().remove(src0[m as int]));
            assert(out@.to_multiset() == out0.to_multiset().insert(src0[m as int]));
            assert(out@.to_multiset().add(src@.to_multiset()) =~= orig.to_multiset());
            assert forall|a: int, b: int|
                0 <= a < b < out@.len() implies created_desc(
                #[trigger] out@[a],
                #[trigger] out@[b],
            ) by {
                if b == out@.len() - 1 {
                    assert(out@[a] == out0[a]);
                    assert(created_desc(out0[a], src0[m as int]));
                }
            }
            assert forall|a: int, b: int|
                0 <= a < out@.len() && 0 <= b < src@.len() implies created_desc(
                #[trigger] out@[a],
                #[trigger] src@[b],
            ) by {
                let b0: int = if b < m as int {
                    b
                } else {
                    b + 1
                };
                assert(src@[b] == src0[b0]);
                if a < out0.len() {
                    assert(out@[a] == out0[a]);
                    assert(created_desc(out0[a], src0[b0]));
                } else {
                    assert(out@[a] == src0[m as int]);
                    assert(created_desc(src0[m as int], src0[b0]));
                }
            }
        }
    }
    proof {
        src@.to_multiset_ensures();
        assert(src@ =~= Seq::<Wire>::empty());
        assert(src@.to_multiset().len() == 0);
        assert(out@.to_multiset().add(src@.to_multiset()) =~= out@.to_multiset());
    }
    out
}

} // verus!
