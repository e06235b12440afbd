use vstd::prelude::*;

use crate::layer::{add_held, child_appended, closed, elapsed, entered, exited};
use crate::registry::snapshot;
use crate::scope::{Child, Scope};

verus! {

/// Sum of the active intervals `(enter, exit)`.
pub open spec fn active_total(intervals: Seq<(u64, u64)>) -> nat
    decreases intervals.len(),
{
    if intervals.len() == 0 {
        0
    } else {
        active_total(intervals.drop_last()) + elapsed(
            intervals.last().0,
            intervals.last().1,
        )
    }
}

/// Registries `regs` go through one enter and one exit of span `id` per
/// interval, in order.
pub open spec fn enters_and_exits(regs: Seq<Map<u64, Scope>>, id: u64, intervals: Seq<(u64, u64)>) -> bool {
    &&& regs.len() == 2 * intervals.len() + 1
    &&& forall|k: int|
        0 <= k < intervals.len() ==> {
            &&& #[trigger] entered(regs[2 * k], regs[2 * k + 1], id, intervals[k].0)
            &&& exited(regs[2 * k + 1], regs[2 * k + 2], id, intervals[k].1)
        }
}

/// A span's accumulated time is the sum of its enter-to-exit intervals:
/// after any number of enter/exit pairs on a resident, inactive span, its
/// time has grown by exactly the sum of the intervals (as long as that sum
/// fits in a `u128`), and it is inactive again.
pub proof fn lemma_took_is_sum_of_intervals(
    regs: Seq<Map<u64, Scope>>,
    id: u64,
    intervals: Seq<(u64, u64)>,
)
    requires
        enters_and_exits(regs, id, intervals),
        regs[0].contains_key(id),
        regs[0][id].start_time is None,
        regs[0][id].took + active_total(intervals) <= u128::MAX,
    ensures
        regs.last().contains_key(id),
        regs.last()[id].start_time is None,
        regs.last()[id].took == regs[0][id].took + active_total(intervals),
        regs.last()[id].name == regs[0][id].name,
        regs.last()[id].children == regs[0][id].children,
    decreases intervals.len(),
{
    let n = intervals.len();
    if n > 0 {
        let prev = intervals.drop_last();
        let rp = regs.take(2 * n - 1);
        assert forall|k: int| 0 <= k < prev.len() implies {
            &&& #[trigger] entered(rp[2 * k], rp[2 * k + 1], id, prev[k].0)
            &&& exited(rp[2 * k + 1], rp[2 * k + 2], id, prev[k].1)
        } by {
            assert(entered(regs[2 * k], regs[2 * k + 1], id, intervals[k].0));
        }
        lemma_took_is_sum_of_intervals(rp, id, prev);
        let k = n - 1;
        assert(entered(regs[2 * k], regs[2 * k + 1], id, intervals[k].0));
        assert(rp.last() == regs[2 * k]);
        let t0 = regs[2 * k][id].took;
        assert(regs[2 * k + 1][id].start_time == Some(intervals[k].0));
        assert(regs[2 * k + 1][id].took == t0);
        assert(t0 + elapsed(intervals[k].0, intervals[k].1) <= u128::MAX);
        assert(add_held(t0, elapsed(intervals[k].0, intervals[k].1)) == t0 + elapsed(
            intervals[k].0,
            intervals[k].1,
        ));
    }
}

/// Children are kept in order of arrival: when children `cs` arrive one by
/// one under the resident span `p`, its children afterwards are the earlier
/// ones followed by `cs`, in that order.
pub proof fn lemma_children_in_arrival_order(regs: Seq<Map<u64, Scope>>, p: u64, cs: Seq<Child>)
    requires
        regs.len() == cs.len() + 1,
        regs[0].contains_key(p),
        forall|k: int| 0 <= k < cs.len() ==> #[trigger] child_appended(regs[k], regs[k + 1], p, cs[k]),
    ensures
        regs.last().contains_key(p),
        regs.last()[p].children@ == regs[0][p].children@ + cs,
    decreases cs.len(),
{
    let n = cs.len();
    if n == 0 {
        assert(regs[0][p].children@ + cs =~= regs[0][p].children@);
    } else {
        let rp = regs.take(n as int);
        let prev = cs.drop_last();
        assert forall|k: int| 0 <= k < prev.len() implies #[trigger] child_appended(
            rp[k],
            rp[k + 1],
            p,
            prev[k],
        ) by {
            assert(child_appended(regs[k], regs[k + 1], p, cs[k]));
        }
        lemma_children_in_arrival_order(rp, p, prev);
        assert(child_appended(regs[n - 1], regs[n as int], p, cs[n - 1]));
        assert(rp.last() == regs[n - 1]);
        assert(regs[0][p].children@ + cs =~= (regs[0][p].children@ + prev).push(cs[n - 1]));
    }
}

/// Closing a span that has a parent takes nothing out of view: every
/// root's eventual snapshot, tree and remaining registry alike, is what it
/// would have been without that close.
pub proof fn lemma_close_non_root_keeps_snapshots(
    before: Map<u64, Scope>,
    after: Map<u64, Scope>,
    id: u64,
    root: u64,
)
    requires
        closed(before, after, id),
        before.contains_key(id),
        before[id].parent_id is Some,
    ensures
        after.contains_key(id),
        snapshot(after, root) == snapshot(before, root),
{
}

} // verus!
