//! The cross-cutting guarantees of the store, stated on their own: the
//! standing acyclicity of the edge set, the exact membership of the ready
//! queue and of filtered listings, the single epic tag, and the strict
//! advance of update stamps. Each is proved from the contracts the
//! operations already carry.

use vstd::prelude::*;

use crate::graph::{acyclic, blocker_unresolved, ready_f};
use crate::model::{Status, TaskView};
use crate::query::{filter_f, matches_filter, TaskFilterView};
use crate::sortspec::{leq_total, leq_trans, lemma_sort_by_spec_props, sort_by_spec, sorted_by_leq};
use crate::store::{has_task_id, task_by_id, task_index, task_le, task_le_f, Store};

verus! {

/// Acyclicity is an invariant, not a one-off check: it is a conjunct of
/// the store's well-formedness, which every operation requires and
/// re-establishes, so any sequence of accepted mutations leaves the edge
/// set acyclic.
pub proof fn lemma_wf_implies_acyclic(s: &Store)
    requires
        s.wf(),
    ensures
        acyclic(s.deps_v()),
{
}

/// The listing order relates every pair of tasks and is transitive.
pub proof fn lemma_task_le_total_trans()
    ensures
        leq_total(task_le_f()),
        leq_trans(task_le_f()),
{
    assert forall|a: TaskView, b: TaskView| #[trigger] task_le(a, b) || #[trigger] task_le(
        b,
        a,
    ) by {}
}

/// A sorted filtering holds exactly the tasks of the store that pass the
/// predicate, in the listing order.
proof fn lemma_sorted_filter_exact(
    tasks: Seq<TaskView>,
    pred: spec_fn(TaskView) -> bool,
    out: Seq<TaskView>,
    t: TaskView,
)
    requires
        out == sort_by_spec(tasks.filter(pred), task_le_f()),
    ensures
        out.contains(t) <==> (tasks.contains(t) && pred(t)),
        sorted_by_leq(out, task_le_f()),
{
    lemma_task_le_total_trans();
    lemma_sort_by_spec_props(tasks.filter(pred), task_le_f());
    crate::sortspec::lemma_sort_by_spec_contains(tasks.filter(pred), task_le_f(), t);
    if out.contains(t) {
        assert(tasks.filter(pred).contains(t));
        let w = choose|w: int|
            0 <= w < tasks.filter(pred).len() && tasks.filter(pred)[w] == t;
        tasks.lemma_filter_pred(pred, w);
        tasks.lemma_filter_contains_rev(pred, t);
    }
    if tasks.contains(t) && pred(t) {
        let i = choose|i: int| 0 <= i < tasks.len() && tasks[i] == t;
        tasks.lemma_filter_contains(pred, i);
    }
}

/// Ready-set correctness: a task stands in the unlimited ready queue
/// exactly when its status is Open and no blocker of it is unresolved,
/// and the queue is in the listing order.
pub proof fn lemma_ready_set_correct(s: &Store, out: Seq<TaskView>, t: TaskView)
    requires
        s.wf(),
        out == sort_by_spec(
            s.tasks_v().filter(ready_f(s.tasks_v(), s.deps_v())),
            task_le_f(),
        ),
    ensures
        out.contains(t) <==> (s.tasks_v().contains(t) && t.status == Status::Open
            && !blocker_unresolved(s.tasks_v(), s.deps_v(), t.id)),
        sorted_by_leq(out, task_le_f()),
{
    lemma_sorted_filter_exact(s.tasks_v(), ready_f(s.tasks_v(), s.deps_v()), out, t);
}

/// Filter composition: a listing holds exactly the tasks that pass every
/// predicate of the filter, ordered by priority ascending with ties broken
/// by age.
pub proof fn lemma_list_exact(s: &Store, f: TaskFilterView, out: Seq<TaskView>, t: TaskView)
    requires
        s.wf(),
        out == sort_by_spec(s.tasks_v().filter(filter_f(f)), task_le_f()),
    ensures
        out.contains(t) <==> (s.tasks_v().contains(t) && matches_filter(t, f)),
        sorted_by_leq(out, task_le_f()),
{
    lemma_sorted_filter_exact(s.tasks_v(), filter_f(f), out, t);
}

/// Epic auto-tag: adding the "epic" tag to a previously untagged parent
/// leaves exactly one "epic" entry in its tag set.
pub proof fn lemma_epic_tag_once(old_tags: Seq<Seq<char>>, new_tags: Seq<Seq<char>>)
    requires
        !old_tags.contains("epic"@),
        new_tags == old_tags.push("epic"@),
    ensures
        new_tags.filter(|t: Seq<char>| t == "epic"@).len() == 1,
{
    let pred = |t: Seq<char>| t == "epic"@;
    crate::seqext::lemma_filter_push(old_tags, "epic"@, pred);
    assert(forall|i: int| 0 <= i < old_tags.len() ==> !pred(#[trigger] old_tags[i]));
    old_tags.lemma_all_neg_filter_empty(pred);
    assert(old_tags.filter(pred).len() == 0);
    assert(new_tags.filter(pred) == old_tags.filter(pred).push("epic"@));
}

/// Stamps advance strictly: every stamp in a well-formed store lies at or
/// below the clock, so the stamp a mutation draws from the advanced clock
/// is strictly above the task's previous `updated_at`, while `created_at`
/// is never rewritten.
pub proof fn lemma_stamp_strictly_increases(s: &Store, id: Seq<char>, new_stamp: i64)
    requires
        s.wf(),
        has_task_id(s.tasks_v(), id),
        new_stamp > s.clock,
    ensures
        new_stamp > task_by_id(s.tasks_v(), id).updated_at,
        task_by_id(s.tasks_v(), id).created_at <= s.clock,
{
    let i = task_index(s.tasks_v(), id);
    assert(0 <= i < s.tasks_v().len() && s.tasks_v()[i].id == id);
    assert(s.tasks_v()[i].updated_at <= s.clock);
}

} // verus!
