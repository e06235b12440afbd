use std::collections::HashMap;
use vstd::prelude::*;
use vstd::std_specs::hash::group_hash_axioms;

use crate::entry::{Entry, EntryView};
use crate::scope::{entry_of, Child, Scope};

verus! {

broadcast use group_hash_axioms;

pub open spec fn opt_entry_view(o: Option<Entry>) -> Option<EntryView> {
    match o {
        Some(e) => Some(e@),
        None => None,
    }
}

/// Removes `id` and, depth first, every span it reaches, from `m`. Returns
/// the resolved tree (`None` when `id` is not resident) and what is left of
/// the registry. `fuel` bounds the depth and is never reached when it is at
/// least the size of `m`.
pub open spec fn drain(m: Map<u64, Scope>, id: u64, fuel: nat) -> (Option<EntryView>, Map<
    u64,
    Scope,
>)
    decreases fuel, 0nat,
{
    if fuel == 0 || !m.contains_key(id) {
        (None, m)
    } else {
        let kids = drain_children(m.remove(id), m[id].children@, (fuel - 1) as nat);
        (Some(entry_of(m[id], kids.0)), kids.1)
    }
}

/// Resolves `cs` in order: events directly, spans by [`drain`], each drain
/// working on what the earlier ones left. A span that is no longer resident
/// is skipped.
pub open spec fn drain_children(m: Map<u64, Scope>, cs: Seq<Child>, fuel: nat) -> (Seq<EntryView>, Map<
    u64,
    Scope,
>)
    decreases fuel, 1nat, cs.len(),
{
    if cs.len() == 0 {
        (Seq::empty(), m)
    } else {
        let prev = drain_children(m, cs.drop_last(), fuel);
        match cs.last() {
            Child::Event(s) => (prev.0.push(entry_of(s, Seq::empty())), prev.1),
            Child::Span(c) => {
                let d = drain(prev.1, c, fuel);
                match d.0 {
                    Some(e) => (prev.0.push(e), d.1),
                    None => (prev.0, d.1),
                }
            },
        }
    }
}

/// Subtree extraction of `id` from the registry `m`.
pub open spec fn snapshot(m: Map<u64, Scope>, id: u64) -> (Option<EntryView>, Map<u64, Scope>) {
    drain(m, id, m.len())
}

fn drain_span(id: u64, spans: &mut HashMap<u64, Scope>, Ghost(fuel): Ghost<nat>) -> (r: Option<Entry>)
    requires
        old(spans)@.len() <= fuel,
    ensures
        opt_entry_view(r) == drain(old(spans)@, id, fuel).0,
        final(spans)@ == drain(old(spans)@, id, fuel).1,
        final(spans)@.len() <= old(spans)@.len(),
    decreases fuel,
{
    let ghost m0 = spans@;
    let removed = spans.remove(&id);
    match removed {
        None => {
            assert(spans@ =~= m0);
            None
        },
        Some(scope) => {
            assert(m0.dom().finite());
            assert(spans@.len() == m0.len() - 1);
            let ghost m1 = spans@;
            let ghost cs = scope.children@;
            let mut entry = scope.to_entry();
            let mut kids: Vec<Entry> = Vec::new();
            let mut i: usize = 0;
            while i < scope.children.len()
                invariant
                    fuel > 0,
                    m0.contains_key(id),
                    m0[id] == scope,
                    m1 == m0.remove(id),
                    cs == scope.children@,
                    i <= cs.len(),
                    spans@.len() <= m1.len(),
                    m1.len() <= fuel - 1,
                    kids@.len() == drain_children(m1, cs.take(i as int), (fuel - 1) as nat).0.len(),
                    forall|j: int|
                        0 <= j < kids@.len() ==> #[trigger] kids@[j]@ == drain_children(
                            m1,
                            cs.take(i as int),
                            (fuel - 1) as nat,
                        ).0[j],
                    spans@ == drain_children(m1, cs.take(i as int), (fuel - 1) as nat).1,
                decreases cs.len() - i,
            {
                proof {
                    assert(cs.take(i as int + 1).drop_last() =~= cs.take(i as int));
                    assert(cs.take(i as int + 1).last() == cs[i as int]);
                }
                match &scope.children[i] {
                    Child::Event(ev) => {
                        kids.push(ev.to_entry());
                    },
                    Child::Span(cid) => {
                        let sub = drain_span(*cid, spans, Ghost((fuel - 1) as nat));
                        match sub {
                            Some(e) => kids.push(e),
                            None => {},
                        }
                    },
                }
                i = i + 1;
            }
            proof {
                assert(cs.take(cs.len() as int) =~= cs);
            }
            entry.children = kids;
            let ghost want = entry_of(scope, drain_children(m1, cs, (fuel - 1) as nat).0);
            proof {
                entry.lemma_children_view();
            }
            assert forall|j: int| 0 <= j < want.children.len() implies entry@.children[j]
                == want.children[j] by {
                assert(entry.children@[j]@ == want.children[j]);
            }
            assert(entry@.children =~= want.children);
            assert(entry@ =~= want);
            Some(entry)
        },
    }
}

/// Removes the span `root_id` and everything it reaches from `spans`, and
/// returns the resolved tree; `None` when `root_id` is not resident.
pub fn extract_span_root(root_id: u64, spans: &mut HashMap<u64, Scope>) -> (r: Option<Entry>)
    ensures
        opt_entry_view(r) == snapshot(old(spans)@, root_id).0,
        final(spans)@ == snapshot(old(spans)@, root_id).1,
{
    drain_span(root_id, spans, Ghost(spans@.len()))
}

} // verus!
