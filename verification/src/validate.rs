//! A runtime check of the store invariant, for records assembled from
//! outside the library (a loaded database file, hand-built fixtures).
//! `Store::validate` returning true is a proof that `wf()` holds, so an
//! unverified loader can establish the precondition of every operation.

use vstd::prelude::*;
use vstd::string::StrSliceExecFns;

use crate::graph::{acyclic, has_edge, lemma_acyclic_push, reaches_exec};
use crate::model::{
    comment_views, dep_views, task_views, Comment, Dependency, Task,
};
use crate::store::{comments_wf, deps_wf, edge_ok, has_task_id, stamps_wf, unique_ids, Store};
use crate::strutil::str_eq;

verus! {

/// Some task of the list carries the given id; no uniqueness is assumed.
fn id_exists(tasks: &Vec<Task>, id: &str) -> (r: bool)
    ensures
        r == has_task_id(task_views(tasks@), id@),
{
    let n = tasks.len();
    let mut i: usize = 0;
    while i < n
        invariant
            i <= n,
            n == tasks@.len(),
            forall|j: int| 0 <= j < i ==> (#[trigger] task_views(tasks@)[j]).id != id@,
        decreases n - i,
    {
        if str_eq(tasks[i].id.as_str(), id) {
            proof {
                assert(task_views(tasks@)[i as int].id == id@);
            }
            return true;
        }
        i = i + 1;
    }
    false
}

/// No two tasks share an id.
fn ids_unique(tasks: &Vec<Task>) -> (r: bool)
    ensures
        r ==> unique_ids(task_views(tasks@)),
{
    let n = tasks.len();
    let mut i: usize = 0;
    while i < n
        invariant
            i <= n,
            n == tasks@.len(),
            forall|a: int, b: int|
                #![trigger task_views(tasks@)[a], task_views(tasks@)[b]]
                0 <= a < b < n && a < i ==> task_views(tasks@)[a].id != task_views(
                    tasks@,
                )[b].id,
        decreases n - i,
    {
        let mut j: usize = i + 1;
        while j < n
            invariant
                i < j <= n,
                i < n,
                n == tasks@.len(),
                forall|a: int, b: int|
                    #![trigger task_views(tasks@)[a], task_views(tasks@)[b]]
                    0 <= a < b < n && a < i ==> task_views(tasks@)[a].id != task_views(
                        tasks@,
                    )[b].id,
                forall|b: int|
                    i < b < j ==> (#[trigger] task_views(tasks@)[b]).id != task_views(
                        tasks@,
                    )[i as int].id,
            decreases n - j,
        {
            if str_eq(tasks[i].id.as_str(), tasks[j].id.as_str()) {
                return false;
            }
            j = j + 1;
        }
        i = i + 1;
    }
    true
}

/// Every task stamp lies at or below the clock.
fn task_stamps_ok(tasks: &Vec<Task>, clock: i64) -> (r: bool)
    ensures
        r ==> forall|i: int|
            0 <= i < tasks@.len() ==> (#[trigger] task_views(tasks@)[i]).created_at <= clock
                && task_views(tasks@)[i].updated_at <= clock,
{
    let n = tasks.len();
    let mut i: usize = 0;
    while i < n
        invariant
            i <= n,
            n == tasks@.len(),
            forall|j: int|
                0 <= j < i ==> (#[trigger] task_views(tasks@)[j]).created_at <= clock
                    && task_views(tasks@)[j].updated_at <= clock,
        decreases n - i,
    {
        if tasks[i].created_at > clock || tasks[i].updated_at > clock {
            return false;
        }
        i = i + 1;
    }
    true
}

/// Every edge joins two distinct, existing tasks.
fn edges_ok(tasks: &Vec<Task>, deps: &Vec<Dependency>) -> (r: bool)
    ensures
        r ==> forall|k: int|
            0 <= k < deps@.len() ==> edge_ok(task_views(tasks@), #[trigger] dep_views(deps@)[k]),
{
    let n = deps.len();
    let mut k: usize = 0;
    while k < n
        invariant
            k <= n,
            n == deps@.len(),
            forall|j: int|
                0 <= j < k ==> edge_ok(task_views(tasks@), #[trigger] dep_views(deps@)[j]),
        decreases n - k,
    {
        if str_eq(deps[k].child_id.as_str(), deps[k].parent_id.as_str()) {
            return false;
        }
        if !id_exists(tasks, deps[k].child_id.as_str()) {
            return false;
        }
        if !id_exists(tasks, deps[k].parent_id.as_str()) {
            return false;
        }
        k = k + 1;
    }
    true
}

/// No edge repeats.
fn edges_distinct(deps: &Vec<Dependency>) -> (r: bool)
    ensures
        r ==> forall|a: int, b: int|
            #![trigger dep_views(deps@)[a], dep_views(deps@)[b]]
            0 <= a < b < deps@.len() ==> !(dep_views(deps@)[a].child_id == dep_views(
                deps@,
            )[b].child_id && dep_views(deps@)[a].parent_id == dep_views(deps@)[b].parent_id),
{
    let n = deps.len();
    let mut i: usize = 0;
    while i < n
        invariant
            i <= n,
            n == deps@.len(),
            forall|a: int, b: int|
                #![trigger dep_views(deps@)[a], dep_views(deps@)[b]]
                0 <= a < b < n && a < i ==> !(dep_views(deps@)[a].child_id == dep_views(
                    deps@,
                )[b].child_id && dep_views(deps@)[a].parent_id == dep_views(
                    deps@,
                )[b].parent_id),
        decreases n - i,
    {
        let mut j: usize = i + 1;
        while j < n
            invariant
                i < j <= n,
                i < n,
                n == deps@.len(),
                forall|a: int, b: int|
                    #![trigger dep_views(deps@)[a], dep_views(deps@)[b]]
                    0 <= a < b < n && a < i ==> !(dep_views(deps@)[a].child_id == dep_views(
                        deps@,
                    )[b].child_id && dep_views(deps@)[a].parent_id == dep_views(
                        deps@,
                    )[b].parent_id),
                forall|b: int|
                    i < b < j ==> !((#[trigger] dep_views(deps@)[b]).child_id == dep_views(
                        deps@,
                    )[i as int].child_id && dep_views(deps@)[b].parent_id == dep_views(
                        deps@,
                    )[i as int].parent_id),
            decreases n - j,
        {
            if str_eq(deps[i].child_id.as_str(), deps[j].child_id.as_str()) && str_eq(
                deps[i].parent_id.as_str(),
                deps[j].parent_id.as_str(),
            ) {
                return false;
            }
            j = j + 1;
        }
        i = i + 1;
    }
    true
}

/// Every comment belongs to an existing task, ids grow strictly with
/// position and stay below the counter, and creation stamps never decrease
/// and lie at or below the clock.
fn comments_ok(tasks: &Vec<Task>, comments: &Vec<Comment>, next_id: i64, clock: i64) -> (r:
    bool)
    ensures
        r ==> comments_wf(task_views(tasks@), comment_views(comments@), next_id),
        r ==> forall|i: int|
            0 <= i < comments@.len() ==> (#[trigger] comment_views(comments@)[i]).created_at
                <= clock,
{
    let n = comments.len();
    let mut i: usize = 0;
    while i < n
        invariant
            i <= n,
            n == comments@.len(),
            forall|j: int|
                0 <= j < i ==> has_task_id(
                    task_views(tasks@),
                    (#[trigger] comment_views(comments@)[j]).task_id,
                ) && comment_views(comments@)[j].id < next_id && comment_views(
                    comments@,
                )[j].created_at <= clock,
            forall|a: int, b: int|
                #![trigger comment_views(comments@)[a], comment_views(comments@)[b]]
                0 <= a < b < i ==> comment_views(comments@)[a].id < comment_views(
                    comments@,
                )[b].id && comment_views(comments@)[a].created_at <= comment_views(
                    comments@,
                )[b].created_at,
        decreases n - i,
    {
        if !id_exists(tasks, comments[i].task_id.as_str()) {
            return false;
        }
        if comments[i].id >= next_id || comments[i].created_at > clock {
            return false;
        }
        if i > 0 {
            if comments[i - 1].id >= comments[i].id || comments[i - 1].created_at > comments[
                i].created_at {
                return false;
            }
            proof {
                assert forall|a: int, b: int|
                    #![trigger comment_views(comments@)[a], comment_views(comments@)[b]]
                    0 <= a < b < i + 1 implies comment_views(comments@)[a].id < comment_views(
                    comments@,
                )[b].id && comment_views(comments@)[a].created_at <= comment_views(
                    comments@,
                )[b].created_at by {
                    if b == i {
                        if a < i - 1 {
                            assert(comment_views(comments@)[a].id < comment_views(
                                comments@,
                            )[i - 1].id);
                        }
                    }
                }
            }
        }
        i = i + 1;
    }
    true
}

/// The edge list holds no directed cycle: each edge is admitted only when
/// its parent side does not already reach its child side, the same guard
/// the live insertion uses.
fn edges_acyclic(deps: &Vec<Dependency>) -> (r: bool)
    ensures
        r ==> acyclic(dep_views(deps@)),
{
    let mut acc: Vec<Dependency> = Vec::new();
    proof {
        let accv = dep_views(acc@);
        assert(accv =~= dep_views(deps@).take(0));
        assert forall|p: Seq<Seq<char>>|
            (#[trigger] crate::graph::is_chain(accv, p) && p.len() >= 2 && p[0] == p.last())
            implies false by {
            assert(!has_edge(accv, p[0], p[1]));
        }
    }
    let n = deps.len();
    let mut k: usize = 0;
    while k < n
        invariant
            k <= n,
            n == deps@.len(),
            dep_views(acc@) == dep_views(deps@).take(k as int),
            acyclic(dep_views(acc@)),
        decreases n - k,
    {
        if reaches_exec(&acc, deps[k].parent_id.as_str(), deps[k].child_id.as_str()) {
            return false;
        }
        let ghost prev = dep_views(acc@);
        let ghost e = dep_views(deps@)[k as int];
        acc.push(deps[k].duplicate());
        proof {
            assert(dep_views(acc@) =~= prev.push(e));
            assert(dep_views(deps@).take(k + 1) =~= prev.push(e));
            lemma_acyclic_push(prev, e);
        }
        k = k + 1;
    }
    proof {
        assert(dep_views(deps@).take(n as int) =~= dep_views(deps@));
    }
    true
}

impl Store {
    /// Check the whole invariant of a store assembled outside the library.
    /// A true answer carries the proof of `wf()`, so every operation's
    /// precondition is then established.
    pub fn validate(&self) -> (r: bool)
        ensures
            r ==> self.wf(),
    {
        if self.clock < 0 || self.next_comment_id < 1 {
            return false;
        }
        if !ids_unique(&self.tasks) {
            return false;
        }
        if !task_stamps_ok(&self.tasks, self.clock) {
            return false;
        }
        if !edges_ok(&self.tasks, &self.deps) {
            return false;
        }
        if !edges_distinct(&self.deps) {
            return false;
        }
        if !comments_ok(&self.tasks, &self.comments, self.next_comment_id, self.clock) {
            return false;
        }
        if !edges_acyclic(&self.deps) {
            return false;
        }
        proof {
            assert(deps_wf(self.tasks_v(), self.deps_v()));
            assert(stamps_wf(self.tasks_v(), self.comments_v(), self.clock));
            assert(self.wf());
        }
        true
    }
}

} // verus!
