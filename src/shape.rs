use vstd::prelude::*;
use vstd::set_lib::lemma_len_subset;

use crate::entry::EntryView;
use crate::registry::{drain, drain_children, snapshot};
use crate::layer::{closed, entered, event_recorded, exited, span_created};
use crate::scope::{entry_of, Child, Scope};

verus! {

/// The span `n` parent links above `k`, following resident spans only;
/// `k` itself at `n == 0`.
pub open spec fn ancestor(m: Map<u64, Scope>, k: u64, n: nat) -> Option<u64>
    decreases n,
{
    if !m.contains_key(k) {
        None
    } else if n == 0 {
        Some(k)
    } else {
        match m[k].parent_id {
            Some(p) => ancestor(m, p, (n - 1) as nat),
            None => None,
        }
    }
}

/// `k` is `id` or lies below it.
pub open spec fn descends(m: Map<u64, Scope>, k: u64, id: u64) -> bool {
    exists|n: nat| ancestor(m, k, n) == Some(id)
}

/// The spans of the subtree rooted at `id`.
pub open spec fn subtree(m: Map<u64, Scope>, id: u64) -> Set<u64> {
    Set::new(|k: u64| descends(m, k, id))
}

/// The registry's links describe a forest: every span reference names a
/// resident span whose parent is the referring span, and occurs once among
/// its siblings; every resident span whose parent is resident is among that
/// parent's children; and no span is its own ancestor.
pub open spec fn well_linked(m: Map<u64, Scope>) -> bool {
    &&& forall|k: u64, i: int|
        #![trigger m[k].children@[i]]
        m.contains_key(k) && 0 <= i < m[k].children@.len() && m[k].children@[i] is Span ==> {
            let c = m[k].children@[i]->Span_0;
            &&& m.contains_key(c)
            &&& m[c].parent_id == Some(k)
            &&& forall|j: int|
                0 <= j < m[k].children@.len() && j != i ==> m[k].children@[j] != Child::Span(c)
        }
    &&& forall|k: u64|
        #![trigger m[k].parent_id]
        m.contains_key(k) && m[k].parent_id is Some && m.contains_key(m[k].parent_id->Some_0)
            ==> m[m[k].parent_id->Some_0].children@.contains(Child::Span(k))
    &&& forall|k: u64, n: nat| n > 0 ==> #[trigger] ancestor(m, k, n) != Some(k)
}

/// `e` resolves the child `c` of a record in `m`.
pub open spec fn child_mirrors(e: EntryView, m: Map<u64, Scope>, c: Child) -> bool
    decreases e, 1nat,
{
    match c {
        Child::Span(x) => mirrors(e, m, x),
        Child::Event(s) => e == entry_of(s, Seq::empty()),
    }
}

/// `e` is span `id` of `m` with the same nesting below it: one child entry
/// per child of the record, in the same order, each resolving that child.
pub open spec fn mirrors(e: EntryView, m: Map<u64, Scope>, id: u64) -> bool
    decreases e, 0nat,
{
    &&& m.contains_key(id)
    &&& e.children.len() == m[id].children@.len()
    &&& e == entry_of(m[id], e.children)
    &&& forall|i: int|
        0 <= i < e.children.len() ==> child_mirrors(e.children[i], m, m[id].children@[i])
}

proof fn lemma_ancestor_add(m: Map<u64, Scope>, k: u64, a: nat, b: nat, x: u64)
    requires
        ancestor(m, k, a) == Some(x),
    ensures
        ancestor(m, k, a + b) == ancestor(m, x, b),
    decreases a,
{
    if a > 0 {
        let p = m[k].parent_id->Some_0;
        lemma_ancestor_add(m, p, (a - 1) as nat, b, x);
        assert((a + b - 1) as nat == ((a - 1) as nat + b));
    }
}

proof fn lemma_ancestor_last_step(m: Map<u64, Scope>, k: u64, n: nat, id: u64)
    requires
        n > 0,
        ancestor(m, k, n) == Some(id),
    ensures
        ancestor(m, k, (n - 1) as nat) is Some,
        m.contains_key(ancestor(m, k, (n - 1) as nat)->Some_0),
        m[ancestor(m, k, (n - 1) as nat)->Some_0].parent_id == Some(id),
        m.contains_key(id),
    decreases n,
{
    let p = m[k].parent_id->Some_0;
    if n > 1 {
        lemma_ancestor_last_step(m, p, (n - 1) as nat, id);
    } else {
        assert(ancestor(m, k, 1) == ancestor(m, p, 0));
        assert(ancestor(m, k, 0) == Some(k));
    }
}

proof fn lemma_ancestor_one(m: Map<u64, Scope>, c: u64, p: u64)
    requires
        m.contains_key(c),
        m.contains_key(p),
        m[c].parent_id == Some(p),
    ensures
        ancestor(m, c, 1) == Some(p),
{
    assert(ancestor(m, p, 0) == Some(p));
}

/// Two different children of one span have disjoint subtrees.
proof fn lemma_siblings_disjoint(m: Map<u64, Scope>, id: u64, c1: u64, c2: u64, k: u64)
    requires
        well_linked(m),
        m.contains_key(id),
        m.contains_key(c1),
        m.contains_key(c2),
        m[c1].parent_id == Some(id),
        m[c2].parent_id == Some(id),
        c1 != c2,
    ensures
        !(descends(m, k, c1) && descends(m, k, c2)),
{
    if descends(m, k, c1) && descends(m, k, c2) {
        let n1 = choose|n: nat| ancestor(m, k, n) == Some(c1);
        let n2 = choose|n: nat| ancestor(m, k, n) == Some(c2);
        lemma_ancestor_one(m, c1, id);
        lemma_ancestor_one(m, c2, id);
        if n1 <= n2 {
            let d = (n2 - n1) as nat;
            lemma_ancestor_add(m, k, n1, d, c1);
            assert(n1 + d == n2);
            assert(ancestor(m, c1, d) == Some(c2));
            assert(d > 0);
            lemma_ancestor_add(m, c1, 1, (d - 1) as nat, id);
            assert(ancestor(m, id, (d - 1) as nat) == Some(c2));
            lemma_ancestor_add(m, id, (d - 1) as nat, 1, c2);
            assert(ancestor(m, id, d) == Some(id));
        } else {
            let d = (n1 - n2) as nat;
            lemma_ancestor_add(m, k, n2, d, c2);
            assert(n2 + d == n1);
            assert(ancestor(m, c2, d) == Some(c1));
            lemma_ancestor_add(m, c2, 1, (d - 1) as nat, id);
            assert(ancestor(m, id, (d - 1) as nat) == Some(c1));
            lemma_ancestor_add(m, id, (d - 1) as nat, 1, c1);
            assert(ancestor(m, id, d) == Some(id));
        }
    }
}

/// A child's subtree lies inside its parent's and does not hold the parent.
proof fn lemma_child_subtree(m: Map<u64, Scope>, id: u64, c: u64)
    requires
        well_linked(m),
        m.contains_key(id),
        m.contains_key(c),
        m[c].parent_id == Some(id),
    ensures
        subtree(m, c).subset_of(subtree(m, id).remove(id)),
        subtree(m, c).contains(c),
{
    lemma_ancestor_one(m, c, id);
    assert(ancestor(m, c, 0) == Some(c));
    assert forall|k: u64| subtree(m, c).contains(k) implies subtree(m, id).remove(id).contains(
        k,
    ) by {
        let n = choose|n: nat| ancestor(m, k, n) == Some(c);
        lemma_ancestor_add(m, k, n, 1, c);
        assert(ancestor(m, k, n + 1) == Some(id));
        if k == id {
            assert(ancestor(m, id, n + 1) == Some(id));
        }
    }
}

/// Keys under any of the first `i` span children of `cs`.
pub open spec fn under_prefix(m: Map<u64, Scope>, cs: Seq<Child>, i: int) -> Set<u64> {
    Set::new(
        |k: u64|
            exists|j: int| 0 <= j < i && cs[j] is Span && descends(m, k, cs[j]->Span_0),
    )
}

proof fn lemma_drain_children_mirror(
    m0: Map<u64, Scope>,
    m: Map<u64, Scope>,
    id: u64,
    i: int,
    fuel: nat,
)
    requires
        well_linked(m0),
        m0.dom().finite(),
        m.submap_of(m0),
        m0.contains_key(id),
        !m.contains_key(id),
        subtree(m0, id).remove(id).subset_of(m.dom()),
        m.len() <= fuel,
        0 <= i <= m0[id].children@.len(),
    ensures
        ({
            let cs = m0[id].children@;
            let r = drain_children(m, cs.take(i), fuel);
            &&& r.0.len() == i
            &&& forall|j: int| 0 <= j < i ==> child_mirrors(#[trigger] r.0[j], m0, cs[j])
            &&& r.1 == m.remove_keys(under_prefix(m0, cs, i))
        }),
    decreases fuel, 1nat, i,
{
    let cs = m0[id].children@;
    if i == 0 {
        assert(cs.take(0).len() == 0);
        assert(m.remove_keys(under_prefix(m0, cs, 0)) =~= m);
    } else {
        lemma_drain_children_mirror(m0, m, id, i - 1, fuel);
        assert(cs.take(i).drop_last() =~= cs.take(i - 1));
        assert(cs.take(i).last() == cs[i - 1]);
        let prev = drain_children(m, cs.take(i - 1), fuel);
        let cur = prev.1;
        match cs[i - 1] {
            Child::Event(s) => {
                assert(under_prefix(m0, cs, i) =~= under_prefix(m0, cs, i - 1));
            },
            Child::Span(c) => {
                assert(cs[i - 1] == m0[id].children@[i - 1]);
                assert(m0.contains_key(c) && m0[c].parent_id == Some(id));
                lemma_child_subtree(m0, id, c);
                assert forall|k: u64| subtree(m0, c).contains(k) implies cur.contains_key(k) by {
                    if under_prefix(m0, cs, i - 1).contains(k) {
                        let j = choose|j: int|
                            0 <= j < i - 1 && cs[j] is Span && descends(m0, k, cs[j]->Span_0);
                        let c2 = cs[j]->Span_0;
                        assert(m0[id].children@[j] is Span);
                        assert(cs[j] != Child::Span(c));
                        lemma_siblings_disjoint(m0, id, c, c2, k);
                    }
                }
                assert(cur.submap_of(m0));
                lemma_len_subset(m.dom(), m0.dom());
                assert(cur.dom().subset_of(m.dom()));
                lemma_len_subset(cur.dom(), m.dom());
                lemma_drain_mirror(m0, cur, c, fuel);
                assert(under_prefix(m0, cs, i) =~= under_prefix(m0, cs, i - 1).union(
                    subtree(m0, c),
                ));
                assert(drain(cur, c, fuel).1 =~= m.remove_keys(under_prefix(m0, cs, i)));
            },
        }
        let r = drain_children(m, cs.take(i), fuel);
        assert forall|j: int| 0 <= j < i implies child_mirrors(#[trigger] r.0[j], m0, cs[j]) by {
            if j < i - 1 {
                assert(r.0[j] == prev.0[j]);
            }
        }
    }
}

proof fn lemma_drain_mirror(m0: Map<u64, Scope>, m: Map<u64, Scope>, id: u64, fuel: nat)
    requires
        well_linked(m0),
        m0.dom().finite(),
        m.submap_of(m0),
        m.contains_key(id),
        subtree(m0, id).subset_of(m.dom()),
        m.len() <= fuel,
    ensures
        drain(m, id, fuel).0 is Some,
        mirrors(drain(m, id, fuel).0->Some_0, m0, id),
        drain(m, id, fuel).1 == m.remove_keys(subtree(m0, id)),
    decreases fuel, 0nat,
{
    lemma_len_subset(m.dom(), m0.dom());
    assert(m.dom().finite());
    let m1 = m.remove(id);
    assert(m1.len() == m.len() - 1);
    let cs = m0[id].children@;
    assert(m0.dom().contains(id));
    assert(m[id] == m0[id]);
    lemma_drain_children_mirror(m0, m1, id, cs.len() as int, (fuel - 1) as nat);
    assert(cs.take(cs.len() as int) =~= cs);
    let kids = drain_children(m1, cs, (fuel - 1) as nat);
    let e = entry_of(m0[id], kids.0);
    assert(mirrors(e, m0, id));
    assert forall|k: u64| subtree(m0, id).contains(k) && k != id implies under_prefix(
        m0,
        cs,
        cs.len() as int,
    ).contains(k) by {
        let n = choose|n: nat| ancestor(m0, k, n) == Some(id);
        assert(n > 0);
        lemma_ancestor_last_step(m0, k, n, id);
        let c = ancestor(m0, k, (n - 1) as nat)->Some_0;
        assert(m0[id].children@.contains(Child::Span(c)));
        let j = choose|j: int| 0 <= j < cs.len() && cs[j] == Child::Span(c);
        assert(descends(m0, k, c));
    }
    assert forall|k: u64| under_prefix(m0, cs, cs.len() as int).contains(k) implies subtree(
        m0,
        id,
    ).remove(id).contains(k) by {
        let j = choose|j: int|
            0 <= j < cs.len() && cs[j] is Span && descends(m0, k, cs[j]->Span_0);
        assert(m0[id].children@[j] is Span);
        lemma_child_subtree(m0, id, cs[j]->Span_0);
    }
    assert(ancestor(m0, id, 0) == Some(id));
    assert(subtree(m0, id) =~= under_prefix(m0, cs, cs.len() as int).insert(id));
    assert(kids.1 == m1.remove_keys(under_prefix(m0, cs, cs.len() as int)));
    assert(kids.1 =~= m.remove_keys(subtree(m0, id)));
}

/// A published tree has the nesting the notifications described: in a
/// well-linked registry, extracting `root` yields a tree that mirrors the
/// records node for node (every span below `root` once, children in the
/// order of their records) and takes exactly that subtree out.
pub proof fn lemma_snapshot_mirrors_nesting(m: Map<u64, Scope>, root: u64)
    requires
        well_linked(m),
        m.dom().finite(),
        m.contains_key(root),
    ensures
        snapshot(m, root).0 is Some,
        mirrors(snapshot(m, root).0->Some_0, m, root),
        snapshot(m, root).1 == m.remove_keys(subtree(m, root)),
{
    assert forall|k: u64| subtree(m, root).contains(k) implies m.contains_key(k) by {
        let n = choose|n: nat| ancestor(m, k, n) == Some(root);
    }
    lemma_drain_mirror(m, m, root, m.len());
}

/// An empty registry, as a new layer starts with, is well linked.
pub proof fn lemma_empty_well_linked()
    ensures
        well_linked(Map::<u64, Scope>::empty()),
{
    assert forall|k: u64, n: nat| n > 0 implies #[trigger] ancestor(
        Map::<u64, Scope>::empty(),
        k,
        n,
    ) != Some(k) by {}
}

/// `id` names no resident span and no resident span's parent.
pub open spec fn fresh(m: Map<u64, Scope>, id: u64) -> bool {
    &&& !m.contains_key(id)
    &&& forall|k: u64| #[trigger] m.contains_key(k) ==> m[k].parent_id != Some(id)
}

/// `after` keeps every record of `before` with its parent, and adds at most
/// `extra`, which no record of `before` names as parent.
proof fn lemma_ancestor_grow(
    before: Map<u64, Scope>,
    after: Map<u64, Scope>,
    extra: u64,
    k: u64,
    n: nat,
)
    requires
        fresh(before, extra),
        after.dom() == before.dom().insert(extra) || after.dom() == before.dom(),
        forall|x: u64| #[trigger]
            before.contains_key(x) ==> after[x].parent_id == before[x].parent_id,
        before.contains_key(k),
    ensures
        ancestor(after, k, n) == ancestor(before, k, n),
    decreases n,
{
    if n > 0 {
        assert(after.contains_key(k));
        match before[k].parent_id {
            Some(q) => {
                if before.contains_key(q) {
                    lemma_ancestor_grow(before, after, extra, q, (n - 1) as nat);
                } else {
                    assert(!after.contains_key(q));
                }
            },
            None => {},
        }
    }
}

proof fn lemma_ancestor_resident(m: Map<u64, Scope>, k: u64, n: nat)
    requires
        ancestor(m, k, n) is Some,
    ensures
        m.contains_key(ancestor(m, k, n)->Some_0),
    decreases n,
{
    if n > 0 {
        lemma_ancestor_resident(m, m[k].parent_id->Some_0, (n - 1) as nat);
    }
}

/// Chains in a part of a registry are chains of the whole.
proof fn lemma_ancestor_shrink(part: Map<u64, Scope>, whole: Map<u64, Scope>, k: u64, n: nat)
    requires
        part.submap_of(whole),
        ancestor(part, k, n) is Some,
    ensures
        ancestor(whole, k, n) == ancestor(part, k, n),
    decreases n,
{
    assert(whole.dom().contains(k));
    if n > 0 {
        lemma_ancestor_shrink(part, whole, part[k].parent_id->Some_0, (n - 1) as nat);
    }
}

proof fn lemma_same_shape_keeps_links(before: Map<u64, Scope>, after: Map<u64, Scope>)
    requires
        well_linked(before),
        after.dom() == before.dom(),
        forall|x: u64| #[trigger]
            before.contains_key(x) ==> after[x].parent_id == before[x].parent_id,
        forall|x: u64, i: int|
            #![trigger after[x].children@[i]]
            before.contains_key(x) && 0 <= i < after[x].children@.len() && after[x].children@[i] is Span
                ==> i < before[x].children@.len() && before[x].children@[i] == after[x].children@[i],
        forall|x: u64| #[trigger]
            before.contains_key(x) ==> before[x].children@ == after[x].children@ || exists|e: Scope|
                after[x].children@ == before[x].children@.push(Child::Event(e)),
    ensures
        well_linked(after),
{
    assert forall|k: u64, n: nat| n > 0 implies #[trigger] ancestor(after, k, n) != Some(k) by {
        if after.contains_key(k) {
            assert(fresh(before, k) || before.contains_key(k));
            lemma_ancestor_grow_same(before, after, k, n);
        }
    }
    assert forall|k: u64|
        #![trigger after[k].parent_id]
        after.contains_key(k) && after[k].parent_id is Some && after.contains_key(
            after[k].parent_id->Some_0,
        ) implies after[after[k].parent_id->Some_0].children@.contains(Child::Span(k)) by {
        let p = after[k].parent_id->Some_0;
        assert(before[k].parent_id == Some(p));
        let i = choose|i: int|
            0 <= i < before[p].children@.len() && before[p].children@[i] == Child::Span(k);
        if before[p].children@ != after[p].children@ {
            let e = choose|e: Scope| after[p].children@ == before[p].children@.push(Child::Event(e));
            assert(after[p].children@[i] == Child::Span(k));
        }
    }
    assert forall|k: u64, i: int|
        #![trigger after[k].children@[i]]
        after.contains_key(k) && 0 <= i < after[k].children@.len() && after[k].children@[i] is Span implies {
            let c = after[k].children@[i]->Span_0;
            &&& after.contains_key(c)
            &&& after[c].parent_id == Some(k)
            &&& forall|j: int|
                0 <= j < after[k].children@.len() && j != i ==> after[k].children@[j] != Child::Span(c)
        } by {
        let c = after[k].children@[i]->Span_0;
        assert(before[k].children@[i] == Child::Span(c));
        assert forall|j: int|
            0 <= j < after[k].children@.len() && j != i implies after[k].children@[j] != Child::Span(c) by {
            if after[k].children@[j] == Child::Span(c) {
                assert(after[k].children@[j] is Span);
                assert(before[k].children@[j] == Child::Span(c));
            }
        }
    }
}

proof fn lemma_ancestor_grow_same(before: Map<u64, Scope>, after: Map<u64, Scope>, k: u64, n: nat)
    requires
        after.dom() == before.dom(),
        forall|x: u64| #[trigger]
            before.contains_key(x) ==> after[x].parent_id == before[x].parent_id,
    ensures
        ancestor(after, k, n) == ancestor(before, k, n),
    decreases n,
{
    if n > 0 && before.contains_key(k) {
        match before[k].parent_id {
            Some(q) => lemma_ancestor_grow_same(before, after, q, (n - 1) as nat),
            None => {},
        }
    }
}

/// Recording an event keeps the registry well linked.
pub proof fn lemma_event_keeps_links(before: Map<u64, Scope>, after: Map<u64, Scope>, scope: Scope)
    requires
        well_linked(before),
        event_recorded(before, after, scope),
    ensures
        well_linked(after),
{
    match scope.parent_id {
        Some(p) => {
            if before.contains_key(p) {
                assert(after.dom() =~= before.dom()) by {
                    assert(after.remove(p).dom() == before.remove(p).dom());
                }
                assert forall|x: u64| #[trigger]
                    before.contains_key(x) implies after[x].parent_id == before[x].parent_id by {
                    if x != p {
                        assert(after.remove(p)[x] == before.remove(p)[x]);
                    }
                }
                assert forall|x: u64| #[trigger]
                    before.contains_key(x) implies before[x].children@ == after[x].children@ || exists|e: Scope|
                        after[x].children@ == before[x].children@.push(Child::Event(e)) by {
                    if x != p {
                        assert(after.remove(p)[x] == before.remove(p)[x]);
                    }
                }
                assert forall|x: u64, i: int|
                    #![trigger after[x].children@[i]]
                    before.contains_key(x) && 0 <= i < after[x].children@.len()
                        && after[x].children@[i] is Span implies i < before[x].children@.len()
                        && before[x].children@[i] == after[x].children@[i] by {
                    if x != p {
                        assert(after.remove(p)[x] == before.remove(p)[x]);
                    } else {
                        assert(after[p].children@ == before[p].children@.push(Child::Event(scope)));
                    }
                }
                lemma_same_shape_keeps_links(before, after);
            }
        },
        None => {},
    }
}

/// Entering or exiting a span keeps the registry well linked.
pub proof fn lemma_timing_keeps_links(before: Map<u64, Scope>, after: Map<u64, Scope>, id: u64, now: u64)
    requires
        well_linked(before),
        entered(before, after, id, now) || exited(before, after, id, now),
    ensures
        well_linked(after),
{
    if after != before {
        assert(before.contains_key(id));
        assert(after.dom() =~= before.dom()) by {
            assert(after.remove(id).dom() == before.remove(id).dom());
        }
        assert forall|x: u64| #[trigger]
            before.contains_key(x) implies after[x] == before[x] || (x == id
                && after[x].parent_id == before[x].parent_id && after[x].children
                == before[x].children) by {
            if x != id {
                assert(after.remove(id)[x] == before.remove(id)[x]);
            }
        }
        lemma_same_shape_keeps_links(before, after);
    }
}

/// Closing a span keeps the registry well linked.
pub proof fn lemma_close_keeps_links(before: Map<u64, Scope>, after: Map<u64, Scope>, id: u64)
    requires
        well_linked(before),
        before.dom().finite(),
        closed(before, after, id),
    ensures
        well_linked(after),
{
    if before.contains_key(id) && before[id].parent_id is None {
        lemma_snapshot_mirrors_nesting(before, id);
        let gone = subtree(before, id);
        assert(after == before.remove_keys(gone));
        assert(after.submap_of(before));
        assert forall|k: u64, n: nat| n > 0 implies #[trigger] ancestor(after, k, n) != Some(k) by {
            if ancestor(after, k, n) is Some {
                lemma_ancestor_shrink(after, before, k, n);
            }
        }
        assert forall|k: u64, i: int|
            #![trigger after[k].children@[i]]
            after.contains_key(k) && 0 <= i < after[k].children@.len() && after[k].children@[i] is Span implies {
                let c = after[k].children@[i]->Span_0;
                &&& after.contains_key(c)
                &&& after[c].parent_id == Some(k)
                &&& forall|j: int|
                    0 <= j < after[k].children@.len() && j != i ==> after[k].children@[j] != Child::Span(c)
            } by {
            let c = after[k].children@[i]->Span_0;
            assert(before[k].children@[i] == after[k].children@[i]);
            if gone.contains(c) {
                let n = choose|n: nat| ancestor(before, c, n) == Some(id);
                if n == 0 {
                    assert(before[c].parent_id is None);
                } else {
                    lemma_ancestor_add(before, c, 1, (n - 1) as nat, k);
                    assert(ancestor(before, c, 1) == ancestor(before, k, 0));
                    assert(gone.contains(k));
                }
            }
        }
        assert forall|k: u64|
            #![trigger after[k].parent_id]
            after.contains_key(k) && after[k].parent_id is Some && after.contains_key(
                after[k].parent_id->Some_0,
            ) implies after[after[k].parent_id->Some_0].children@.contains(Child::Span(k)) by {
            assert(before[k].parent_id == after[k].parent_id);
        }
    }
}

/// Creating a span under an identifier that is fresh, with a record that
/// has no children yet, keeps the registry well linked.
pub proof fn lemma_create_keeps_links(
    before: Map<u64, Scope>,
    after: Map<u64, Scope>,
    id: u64,
    scope: Scope,
)
    requires
        well_linked(before),
        fresh(before, id),
        scope.parent_id != Some(id),
        scope.children@.len() == 0,
        span_created(before, after, id, scope),
    ensures
        well_linked(after),
{
    assert(before.remove(id) =~= before);
    let p = scope.parent_id->Some_0;
    let linked = scope.parent_id is Some && before.contains_key(p);
    if linked {
        assert(p != id);
        assert(after.remove(id).remove(p) == before.remove(p));
    } else {
        assert(after.remove(id) == before);
    }
    assert(after.dom() =~= before.dom().insert(id)) by {
        if linked {
            assert(after.remove(id).dom() =~= before.dom());
        }
    }
    assert forall|x: u64| #[trigger]
        before.contains_key(x) implies after[x].parent_id == before[x].parent_id && (x == p && linked
            || after[x] == before[x]) by {
        assert(after.remove(id)[x] == after[x]);
        if !(linked && x == p) {
            if linked {
                assert(after.remove(id).remove(p)[x] == before.remove(p)[x]);
            }
        }
    }
    assert forall|k: u64, n: nat| n > 0 implies #[trigger] ancestor(after, k, n) != Some(k) by {
        if before.contains_key(k) {
            lemma_ancestor_grow(before, after, id, k, n);
            assert(ancestor(before, k, n) != Some(k));
        } else if k == id && ancestor(after, id, n) is Some {
            assert(after[id].parent_id is Some);
            assert(ancestor(after, id, n) == ancestor(after, p, (n - 1) as nat));
            if before.contains_key(p) {
                lemma_ancestor_grow(before, after, id, p, (n - 1) as nat);
                lemma_ancestor_resident(before, p, (n - 1) as nat);
            } else {
                assert(!after.contains_key(p));
            }
        }
    }
    assert forall|k: u64, i: int|
        #![trigger after[k].children@[i]]
        after.contains_key(k) && 0 <= i < after[k].children@.len() && after[k].children@[i] is Span implies {
            let c = after[k].children@[i]->Span_0;
            &&& after.contains_key(c)
            &&& after[c].parent_id == Some(k)
            &&& forall|j: int|
                0 <= j < after[k].children@.len() && j != i ==> after[k].children@[j] != Child::Span(c)
        } by {
        let c = after[k].children@[i]->Span_0;
        if linked && k == p {
            let old_len = before[p].children@.len();
            if i < old_len {
                assert(before[p].children@[i] == after[p].children@[i]);
                assert(c != id);
                assert forall|j: int|
                    0 <= j < after[k].children@.len() && j != i implies after[k].children@[j]
                        != Child::Span(c) by {
                    if j < old_len {
                        assert(before[p].children@[j] == after[p].children@[j]);
                    }
                }
            } else {
                assert(c == id);
                assert forall|j: int|
                    0 <= j < after[k].children@.len() && j != i implies after[k].children@[j]
                        != Child::Span(c) by {
                    assert(before[p].children@[j] == after[p].children@[j]);
                    if before[p].children@[j] == Child::Span(id) {
                        assert(before[p].children@[j] is Span);
                    }
                }
            }
        } else {
            assert(k != id);
            assert(before[k].children@[i] == after[k].children@[i]);
            assert(c != id);
        }
    }
    assert forall|k: u64|
        #![trigger after[k].parent_id]
        after.contains_key(k) && after[k].parent_id is Some && after.contains_key(
            after[k].parent_id->Some_0,
        ) implies after[after[k].parent_id->Some_0].children@.contains(Child::Span(k)) by {
        let q = after[k].parent_id->Some_0;
        if k == id {
            assert(linked);
            assert(after.remove(id)[p] == after[p]);
            assert(after[p].children@ == before[p].children@.push(Child::Span(id)));
            assert(after[p].children@[after[p].children@.len() - 1] == Child::Span(id));
        } else {
            assert(q != id);
            let i = choose|i: int|
                0 <= i < before[q].children@.len() && before[q].children@[i] == Child::Span(k);
            assert(after[q].children@[i] == Child::Span(k));
        }
    }
}

} // verus!
