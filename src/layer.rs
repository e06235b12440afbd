use std::collections::HashMap;
use vstd::prelude::*;
use vstd::std_specs::hash::group_hash_axioms;

use crate::entry::Entry;
use crate::registry::{extract_span_root, opt_entry_view, snapshot};
use crate::scope::{entry_of, Child, Scope};

verus! {

broadcast use group_hash_axioms;

/// Observer of how many spans are still resident, told after every close.
pub struct Monitor {
    pub span_count: usize,
}

impl Monitor {
    pub fn notify(&mut self, spans: &HashMap<u64, Scope>)
        ensures
            final(self).span_count == spans@.len(),
    {
        self.span_count = spans.len();
    }
}

/// Microseconds between `since` and `now`; nothing when the clock went back.
pub open spec fn elapsed(since: u64, now: u64) -> nat {
    if now >= since {
        (now - since) as nat
    } else {
        0
    }
}

/// `took + d`, held at the largest `u128`.
pub open spec fn add_held(took: u128, d: nat) -> u128 {
    if took + d > u128::MAX {
        u128::MAX
    } else {
        (took + d) as u128
    }
}

/// `a` and `b` agree on everything but their children.
pub open spec fn same_but_children(a: Scope, b: Scope) -> bool {
    &&& a.stamp == b.stamp
    &&& a.level == b.level
    &&& a.name == b.name
    &&& a.parent_id == b.parent_id
    &&& a.file == b.file
    &&& a.line == b.line
    &&& a.start_time == b.start_time
    &&& a.took == b.took
    &&& a.fields == b.fields
}

/// `a` and `b` agree on everything but their timing.
pub open spec fn same_but_timing(a: Scope, b: Scope) -> bool {
    &&& a.stamp == b.stamp
    &&& a.level == b.level
    &&& a.name == b.name
    &&& a.parent_id == b.parent_id
    &&& a.children == b.children
    &&& a.file == b.file
    &&& a.line == b.line
    &&& a.fields == b.fields
}

/// `after` is `before` with `c` appended to the children of `p`, when `p` is
/// resident; otherwise `after` is `before`.
pub open spec fn child_appended(before: Map<u64, Scope>, after: Map<u64, Scope>, p: u64, c: Child) -> bool {
    if before.contains_key(p) {
        &&& after.contains_key(p)
        &&& same_but_children(after[p], before[p])
        &&& after[p].children@ == before[p].children@.push(c)
        &&& after.remove(p) == before.remove(p)
    } else {
        after == before
    }
}

/// `after` is `before` with the timing of resident span `id` set to
/// `start_time` and `took`.
pub open spec fn timing_set(
    before: Map<u64, Scope>,
    after: Map<u64, Scope>,
    id: u64,
    start_time: Option<u64>,
    took: u128,
) -> bool {
    &&& after.contains_key(id)
    &&& same_but_timing(after[id], before[id])
    &&& after[id].start_time == start_time
    &&& after[id].took == took
    &&& after.remove(id) == before.remove(id)
}

/// The registry effect of creating span `id` with record `scope`.
pub open spec fn span_created(before: Map<u64, Scope>, after: Map<u64, Scope>, id: u64, scope: Scope) -> bool {
    &&& after.contains_key(id)
    &&& after[id] == scope
    &&& match scope.parent_id {
        Some(p) if p != id => child_appended(before.remove(id), after.remove(id), p, Child::Span(id)),
        _ => after.remove(id) == before.remove(id),
    }
}

/// The registry effect of an event with record `scope`.
pub open spec fn event_recorded(before: Map<u64, Scope>, after: Map<u64, Scope>, scope: Scope) -> bool {
    match scope.parent_id {
        Some(p) => child_appended(before, after, p, Child::Event(scope)),
        None => after == before,
    }
}

/// The registry effect of entering span `id` at `now`.
pub open spec fn entered(before: Map<u64, Scope>, after: Map<u64, Scope>, id: u64, now: u64) -> bool {
    if before.contains_key(id) {
        timing_set(before, after, id, Some(now), before[id].took)
    } else {
        after == before
    }
}

/// The registry effect of exiting span `id` at `now`.
pub open spec fn exited(before: Map<u64, Scope>, after: Map<u64, Scope>, id: u64, now: u64) -> bool {
    match before.get(id) {
        Some(s) => match s.start_time {
            Some(t) => timing_set(before, after, id, None, add_held(s.took, elapsed(t, now))),
            None => after == before,
        },
        None => after == before,
    }
}

/// The registry effect of closing span `id`: a resident root leaves with
/// its subtree, anything else stays as it is.
pub open spec fn closed(before: Map<u64, Scope>, after: Map<u64, Scope>, id: u64) -> bool {
    if before.contains_key(id) && before[id].parent_id is None {
        after == snapshot(before, id).1
    } else {
        after == before
    }
}

/// The monitor after being told that `n` spans are resident.
pub open spec fn notified(m: Option<Monitor>, n: nat) -> Option<Monitor> {
    match m {
        Some(_) => Some(Monitor { span_count: n as usize }),
        None => None,
    }
}

/// The aggregation engine: the registry of open spans, keyed by span
/// identifier, and an optional liveness monitor.
pub struct RootSpanLayer {
    spans: HashMap<u64, Scope>,
    monitor: Option<Monitor>,
}

fn append_child(spans: &mut HashMap<u64, Scope>, p: u64, c: Child)
    ensures
        child_appended(old(spans)@, final(spans)@, p, c),
{
    let ghost m0 = spans@;
    match spans.remove(&p) {
        Some(mut ps) => {
            ps.children.push(c);
            spans.insert(p, ps);
            assert(final(spans)@.remove(p) =~= m0.remove(p));
        },
        None => {
            assert(spans@ =~= m0);
        },
    }
}

impl RootSpanLayer {
    /// The registry: each resident span under its identifier.
    pub closed spec fn registry(&self) -> Map<u64, Scope> {
        self.spans@
    }

    pub closed spec fn monitor_state(&self) -> Option<Monitor> {
        self.monitor
    }

    /// An empty registry with the given monitor.
    pub fn new(monitor: Option<Monitor>) -> (r: RootSpanLayer)
        ensures
            r.registry() == Map::<u64, Scope>::empty(),
            r.monitor_state() == monitor,
    {
        RootSpanLayer { spans: HashMap::new(), monitor }
    }

    pub fn spans(&self) -> (r: &HashMap<u64, Scope>)
        ensures
            r@ == self.registry(),
    {
        &self.spans
    }

    pub fn monitor(&self) -> (r: &Option<Monitor>)
        ensures
            *r == self.monitor_state(),
    {
        &self.monitor
    }

    /// A span was created under `id`: it is linked as the newest child of
    /// its parent, when that parent is resident, and enters the registry,
    /// replacing any record still held under the same identifier.
    pub fn on_new_span(&mut self, id: u64, scope: Scope)
        ensures
            span_created(old(self).registry(), final(self).registry(), id, scope),
            final(self).monitor_state() == old(self).monitor_state(),
    {
        let ghost m0 = self.spans@;
        match scope.parent_id {
            Some(p) => {
                append_child(&mut self.spans, p, Child::Span(id));
                proof {
                    let m1 = self.spans@;
                    if p != id {
                        if m0.contains_key(p) {
                            assert(m1.remove(p).remove(id) == m0.remove(p).remove(id));
                            assert(m1.remove(id).remove(p) =~= m1.remove(p).remove(id));
                            assert(m0.remove(id).remove(p) =~= m0.remove(p).remove(id));
                        }
                    } else if m0.contains_key(p) {
                        assert(m1.remove(id) =~= m0.remove(id));
                    }
                }
            },
            None => {},
        }
        let ghost m1 = self.spans@;
        self.spans.insert(id, scope);
        assert(self.spans@.remove(id) =~= m1.remove(id));
    }

    /// An event occurred. Under a parent it becomes the parent's newest
    /// child (dropped when the parent is not resident) and `None` is
    /// returned; without a parent it is returned at once as a single-node
    /// tree, and the registry is untouched.
    pub fn on_event(&mut self, scope: Scope) -> (r: Option<Entry>)
        ensures
            event_recorded(old(self).registry(), final(self).registry(), scope),
            scope.parent_id is Some ==> r is None,
            scope.parent_id is None ==> opt_entry_view(r) == Some(entry_of(scope, Seq::empty())),
            final(self).monitor_state() == old(self).monitor_state(),
    {
        match scope.parent_id {
            Some(p) => {
                append_child(&mut self.spans, p, Child::Event(scope));
                None
            },
            None => Some(scope.to_entry()),
        }
    }

    /// Span `id` became active at `now` (monotonic microseconds). A later
    /// enter before the matching exit replaces the earlier start. Unknown
    /// identifiers are ignored.
    pub fn on_enter(&mut self, id: u64, now: u64)
        ensures
            entered(old(self).registry(), final(self).registry(), id, now),
            final(self).monitor_state() == old(self).monitor_state(),
    {
        let ghost m0 = self.spans@;
        match self.spans.remove(&id) {
            Some(mut s) => {
                s.start_time = Some(now);
                self.spans.insert(id, s);
                assert(self.spans@.remove(id) =~= m0.remove(id));
            },
            None => {
                assert(self.spans@ =~= m0);
            },
        }
    }

    /// Span `id` stopped being active at `now`: the interval since its
    /// enter is added to its accumulated time. Ignored when `id` is unknown
    /// or not active.
    pub fn on_exit(&mut self, id: u64, now: u64)
        ensures
            exited(old(self).registry(), final(self).registry(), id, now),
            final(self).monitor_state() == old(self).monitor_state(),
    {
        let ghost m0 = self.spans@;
        match self.spans.remove(&id) {
            Some(mut s) => {
                match s.start_time {
                    Some(t) => {
                        let d: u64 = if now >= t { now - t } else { 0 };
                        s.took = s.took.saturating_add(d as u128);
                        s.start_time = None;
                        self.spans.insert(id, s);
                        assert(self.spans@.remove(id) =~= m0.remove(id));
                    },
                    None => {
                        self.spans.insert(id, s);
                        assert(self.spans@ =~= m0);
                    },
                }
            },
            None => {
                assert(self.spans@ =~= m0);
            },
        }
    }

    /// Span `id` closed. A resident root is extracted with its whole subtree
    /// and the tree is returned for publication; a resident non-root stays
    /// until its root closes. In both cases the monitor is then told how
    /// many spans remain. Unknown identifiers are ignored.
    pub fn on_close(&mut self, id: u64) -> (r: Option<Entry>)
        ensures
            closed(old(self).registry(), final(self).registry(), id),
            !old(self).registry().contains_key(id) ==> {
                &&& r is None
                &&& final(self).registry() == old(self).registry()
                &&& final(self).monitor_state() == old(self).monitor_state()
            },
            old(self).registry().contains_key(id) && old(self).registry()[id].parent_id is None
                ==> {
                &&& opt_entry_view(r) == snapshot(old(self).registry(), id).0
                &&& final(self).registry() == snapshot(old(self).registry(), id).1
                &&& final(self).monitor_state() == notified(
                    old(self).monitor_state(),
                    final(self).registry().len(),
                )
            },
            old(self).registry().contains_key(id) && old(self).registry()[id].parent_id is Some
                ==> {
                &&& r is None
                &&& final(self).registry() == old(self).registry()
                &&& final(self).monitor_state() == notified(
                    old(self).monitor_state(),
                    old(self).registry().len(),
                )
            },
    {
        let is_root = match self.spans.get(&id) {
            None => {
                return None;
            },
            Some(s) => s.parent_id.is_none(),
        };
        let r = if is_root {
            extract_span_root(id, &mut self.spans)
        } else {
            None
        };
        match &mut self.monitor {
            Some(m) => m.notify(&self.spans),
            None => {},
        }
        r
    }
}

} // verus!
