//! The dependency-graph engine: blocking edges, reachability, the proof
//! that accepted insertions keep the edge set acyclic, and the derived
//! queries (blockers, dependents, ready and blocked tasks).

use vstd::prelude::*;
use vstd::string::{StrSliceExecFns, StringExecFns};

use crate::model::{
    dep_views, str_views, task_views, vec_contains_str, AppError, DepView, Dependency, Status,
    Task, TaskView,
};
use crate::query::sort_tasks;
use crate::seqext::lemma_filter_push;
use crate::sortspec::{capped, sort_by_spec};
use crate::store::{
    edge_ok, has_task_id, task_by_id, task_le_f, Store,
};
use crate::strutil::str_eq;

verus! {

/// There is an edge "`from` is blocked by `to`" in the edge set.
pub open spec fn has_edge(deps: Seq<DepView>, from: Seq<char>, to: Seq<char>) -> bool {
    exists|i: int|
        0 <= i < deps.len() && (#[trigger] deps[i]).child_id == from && deps[i].parent_id == to
}

/// A walk along "depends on" edges: each node of `p` is blocked by the next.
pub open spec fn is_chain(deps: Seq<DepView>, p: Seq<Seq<char>>) -> bool {
    forall|i: int| 0 <= i < p.len() - 1 ==> has_edge(deps, #[trigger] p[i], p[i + 1])
}

/// `b` can be reached from `a` along "depends on" edges (trivially when
/// `a == b`).
pub open spec fn reaches(deps: Seq<DepView>, a: Seq<char>, b: Seq<char>) -> bool {
    exists|p: Seq<Seq<char>>|
        #[trigger] is_chain(deps, p) && p.len() >= 1 && p[0] == a && p.last() == b
}

/// No walk of at least one edge returns to its starting node.
pub open spec fn acyclic(deps: Seq<DepView>) -> bool {
    forall|p: Seq<Seq<char>>|
        (#[trigger] is_chain(deps, p) && p.len() >= 2 && p[0] == p.last()) ==> false
}

/// Every node reaches itself.
pub proof fn lemma_reaches_self(deps: Seq<DepView>, a: Seq<char>)
    ensures
        reaches(deps, a, a),
{
    let p = seq![a];
    assert(is_chain(deps, p));
    assert(p.len() >= 1 && p[0] == a && p.last() == a);
}

/// Reachability extends along one more edge.
pub proof fn lemma_reaches_step(deps: Seq<DepView>, a: Seq<char>, b: Seq<char>, c: Seq<char>)
    requires
        reaches(deps, a, b),
        has_edge(deps, b, c),
    ensures
        reaches(deps, a, c),
{
    let p = choose|p: Seq<Seq<char>>|
        #[trigger] is_chain(deps, p) && p.len() >= 1 && p[0] == a && p.last() == b;
    let q = p.push(c);
    assert forall|i: int| 0 <= i < q.len() - 1 implies has_edge(deps, #[trigger] q[i], q[i + 1]) by {
        if i < p.len() - 1 {
            assert(has_edge(deps, p[i], p[i + 1]));
        } else {
            assert(q[i] == b && q[i + 1] == c);
        }
    }
    assert(is_chain(deps, q) && q.len() >= 1 && q[0] == a && q.last() == c);
}

/// An edge of a sub-edge-set is an edge of the larger set; chains and
/// reachability transfer, and acyclicity transfers back.
pub open spec fn edge_subset(sub: Seq<DepView>, sup: Seq<DepView>) -> bool {
    forall|x: Seq<char>, y: Seq<char>| #[trigger] has_edge(sub, x, y) ==> has_edge(sup, x, y)
}

/// Acyclicity restricts to any subset of the edges.
pub proof fn lemma_acyclic_subset(sub: Seq<DepView>, sup: Seq<DepView>)
    requires
        edge_subset(sub, sup),
        acyclic(sup),
    ensures
        acyclic(sub),
{
    assert forall|p: Seq<Seq<char>>|
        (#[trigger] is_chain(sub, p) && p.len() >= 2 && p[0] == p.last()) implies false by {
        assert forall|i: int| 0 <= i < p.len() - 1 implies has_edge(
            sup,
            #[trigger] p[i],
            p[i + 1],
        ) by {
            assert(has_edge(sub, p[i], p[i + 1]));
        }
        assert(is_chain(sup, p));
    }
}

/// A chain of the enlarged edge set from the new edge's parent side to its
/// child side yields reachability in the old edge set alone.
proof fn lemma_chain_to_reach(deps: Seq<DepView>, e: DepView, q: Seq<Seq<char>>)
    requires
        is_chain(deps.push(e), q),
        q.len() >= 1,
        q[0] == e.parent_id,
        q.last() == e.child_id,
    ensures
        reaches(deps, e.parent_id, e.child_id),
    decreases q.len(),
{
    let deps2 = deps.push(e);
    if forall|i: int| 0 <= i < q.len() - 1 ==> has_edge(deps, #[trigger] q[i], q[i + 1]) {
        assert(is_chain(deps, q));
        assert(reaches(deps, e.parent_id, e.child_id));
    } else {
        let i = choose|i: int|
            0 <= i < q.len() - 1 && !has_edge(deps, #[trigger] q[i], q[i + 1]);
        assert(has_edge(deps2, q[i], q[i + 1]));
        let k = choose|k: int|
            0 <= k < deps2.len() && (#[trigger] deps2[k]).child_id == q[i] && deps2[k].parent_id
                == q[i + 1];
        if k < deps.len() {
            assert(deps[k] == deps2[k]);
            assert(has_edge(deps, q[i], q[i + 1]));
        }
        assert(deps2[k] == e);
        assert(q[i] == e.child_id && q[i + 1] == e.parent_id);
        let q2 = q.skip(i + 1);
        assert forall|j: int| 0 <= j < q2.len() - 1 implies has_edge(
            deps2,
            #[trigger] q2[j],
            q2[j + 1],
        ) by {
            assert(q2[j] == q[j + i + 1] && q2[j + 1] == q[j + i + 2]);
            assert(has_edge(deps2, q[j + i + 1], q[j + i + 2]));
        }
        assert(is_chain(deps2, q2));
        assert(q2[0] == e.parent_id);
        assert(q2.last() == q.last());
        lemma_chain_to_reach(deps, e, q2);
    }
}

/// The heart of the cycle guard: if the old edge set is acyclic and the
/// parent side of a new edge does not reach its child side, the edge set
/// with the new edge is still acyclic.
pub proof fn lemma_acyclic_push(deps: Seq<DepView>, e: DepView)
    requires
        acyclic(deps),
        !reaches(deps, e.parent_id, e.child_id),
    ensures
        acyclic(deps.push(e)),
{
    let deps2 = deps.push(e);
    assert forall|p: Seq<Seq<char>>|
        (#[trigger] is_chain(deps2, p) && p.len() >= 2 && p[0] == p.last()) implies false by {
        if forall|i: int| 0 <= i < p.len() - 1 ==> has_edge(deps, #[trigger] p[i], p[i + 1]) {
            assert(is_chain(deps, p));
        } else {
            let i = choose|i: int|
                0 <= i < p.len() - 1 && !has_edge(deps, #[trigger] p[i], p[i + 1]);
            assert(has_edge(deps2, p[i], p[i + 1]));
            let k = choose|k: int|
                0 <= k < deps2.len() && (#[trigger] deps2[k]).child_id == p[i]
                    && deps2[k].parent_id == p[i + 1];
            if k < deps.len() {
                assert(deps[k] == deps2[k]);
                assert(has_edge(deps, p[i], p[i + 1]));
            }
            assert(deps2[k] == e);
            assert(p[i] == e.child_id && p[i + 1] == e.parent_id);
            let r = p.skip(i + 1) + p.subrange(1, i + 1);
            let n1 = p.len() - i - 1;
            assert(r.len() == p.len() - 1);
            assert(r[0] == p[i + 1]);
            assert forall|j: int| 0 <= j < r.len() - 1 implies has_edge(
                deps2,
                #[trigger] r[j],
                r[j + 1],
            ) by {
                if j < n1 - 1 {
                    assert(r[j] == p[i + 1 + j] && r[j + 1] == p[i + 2 + j]);
                    assert(has_edge(deps2, p[i + 1 + j], p[i + 2 + j]));
                } else if j == n1 - 1 {
                    assert(r[j] == p[p.len() - 1]);
                    assert(r[j + 1] == p[1]);
                    assert(has_edge(deps2, p[0], p[1]));
                    assert(p[p.len() - 1] == p[0]);
                } else {
                    assert(r[j] == p[j - n1 + 1] && r[j + 1] == p[j - n1 + 2]);
                    assert(has_edge(deps2, p[j - n1 + 1], p[j - n1 + 2]));
                }
            }
            assert(is_chain(deps2, r));
            if i == 0 {
                assert(r =~= p.skip(1));
                assert(r.last() == p[p.len() - 1]);
                assert(r.last() == e.child_id);
            } else {
                assert(r.last() == p[i]);
            }
            lemma_chain_to_reach(deps, e, r);
        }
    }
}

/// Once a node set is closed under "depends on" successors, a chain that
/// starts inside it stays inside it.
pub open spec fn closed_under_succ(deps: Seq<DepView>, q: Seq<Seq<char>>) -> bool {
    forall|i: int, k: int|
        #![trigger q[i], deps[k]]
        0 <= i < q.len() && 0 <= k < deps.len() && deps[k].child_id == q[i] ==> q.contains(
            deps[k].parent_id,
        )
}

proof fn lemma_chain_stays(deps: Seq<DepView>, q: Seq<Seq<char>>, p: Seq<Seq<char>>)
    requires
        closed_under_succ(deps, q),
        is_chain(deps, p),
        p.len() >= 1,
        q.contains(p[0]),
    ensures
        q.contains(p.last()),
    decreases p.len(),
{
    if p.len() > 1 {
        assert(has_edge(deps, p[0], p[1]));
        let k = choose|k: int|
            0 <= k < deps.len() && (#[trigger] deps[k]).child_id == p[0] && deps[k].parent_id
                == p[1];
        let i = choose|i: int| 0 <= i < q.len() && q[i] == p[0];
        assert(q.contains(deps[k].parent_id));
        let p2 = p.drop_first();
        assert forall|j: int| 0 <= j < p2.len() - 1 implies has_edge(
            deps,
            #[trigger] p2[j],
            p2[j + 1],
        ) by {
            assert(p2[j] == p[j + 1] && p2[j + 1] == p[j + 2]);
            assert(has_edge(deps, p[j + 1], p[j + 2]));
        }
        assert(is_chain(deps, p2));
        assert(p2[0] == p[1]);
        assert(p2.last() == p.last());
        lemma_chain_stays(deps, q, p2);
    }
}

/// A duplicate-free node list whose members are all either `start` or the
/// parent side of some edge cannot outgrow the edge count by more than one.
proof fn lemma_queue_bound(q: Seq<Seq<char>>, deps: Seq<DepView>, start: Seq<char>)
    requires
        q.no_duplicates(),
        forall|i: int|
            0 <= i < q.len() ==> (#[trigger] q[i]) == start || exists|k: int|
                0 <= k < deps.len() && (#[trigger] deps[k]).parent_id == q[i],
    ensures
        q.len() <= deps.len() + 1,
{
    broadcast use vstd::seq_lib::seq_to_set_is_finite;
    broadcast use vstd::set::group_set_axioms;

    let parents = deps.map_values(|d: DepView| d.parent_id);
    q.unique_seq_to_set();
    parents.lemma_cardinality_of_set();
    let target = parents.to_set().insert(start);
    assert(q.to_set().subset_of(target)) by {
        assert forall|x: Seq<char>| q.to_set().contains(x) implies target.contains(x) by {
            assert(q.contains(x));
            let i = choose|i: int| 0 <= i < q.len() && q[i] == x;
            if q[i] == start {
            } else {
                let k = choose|k: int|
                    0 <= k < deps.len() && (#[trigger] deps[k]).parent_id == q[i];
                assert(parents[k] == x);
                assert(parents.contains(x));
            }
        }
    }
    vstd::set_lib::lemma_len_subset(q.to_set(), target);
    assert(target.len() <= parents.to_set().len() + 1);
}

impl Store {
    /// There is an edge from `from` to `to`; its index, if so.
    fn find_edge(&self, from: &str, to: &str) -> (r: Option<usize>)
        ensures
            match r {
                Some(k) => k < self.deps@.len() && self.deps_v()[k as int].child_id == from@
                    && self.deps_v()[k as int].parent_id == to@ && has_edge(
                    self.deps_v(),
                    from@,
                    to@,
                ),
                None => !has_edge(self.deps_v(), from@, to@),
            },
    {
        let n = self.deps.len();
        let mut k: usize = 0;
        while k < n
            invariant
                k <= n,
                n == self.deps@.len(),
                forall|j: int|
                    0 <= j < k ==> !((#[trigger] self.deps_v()[j]).child_id == from@
                        && self.deps_v()[j].parent_id == to@),
            decreases n - k,
        {
            if str_eq(self.deps[k].child_id.as_str(), from) && str_eq(
                self.deps[k].parent_id.as_str(),
                to,
            ) {
                return Some(k);
            }
            k = k + 1;
        }
        proof {
            if has_edge(self.deps_v(), from@, to@) {
                let j = choose|j: int|
                    0 <= j < self.deps_v().len() && (#[trigger] self.deps_v()[j]).child_id == from@
                        && self.deps_v()[j].parent_id == to@;
                assert(!(self.deps_v()[j].child_id == from@));
            }
        }
        None
    }

    /// Would inserting the edge "`child` is blocked by `parent`" close a
    /// cycle, that is: does `parent` already reach `child` along "depends
    /// on" edges?
    fn would_create_cycle(&self, child: &str, parent: &str) -> (r: bool)
        ensures
            r == reaches(self.deps_v(), parent@, child@),
    {
        reaches_exec(&self.deps, parent, child)
    }

    /// Add the blocking edge "`child` is blocked by `parent`". Both tasks
    /// must exist; a duplicate edge and an edge that would close a cycle
    /// are rejected, and nothing is written on any rejection.
    pub fn add_dependency(&mut self, child: &str, parent: &str) -> (r: Result<(), AppError>)
        requires
            old(self).wf(),
        ensures
            final(self).wf(),
            match r {
                Ok(()) => {
                    &&& has_task_id(old(self).tasks_v(), child@)
                    &&& has_task_id(old(self).tasks_v(), parent@)
                    &&& !has_edge(old(self).deps_v(), child@, parent@)
                    &&& !reaches(old(self).deps_v(), parent@, child@)
                    &&& final(self).deps_v() == old(self).deps_v().push(
                        DepView { child_id: child@, parent_id: parent@ },
                    )
                    &&& final(self).tasks@ == old(self).tasks@
                    &&& final(self).comments@ == old(self).comments@
                    &&& final(self).config@ == old(self).config@
                    &&& final(self).clock == old(self).clock
                    &&& final(self).next_comment_id == old(self).next_comment_id
                },
                Err(e) => *final(self) == *old(self) && match e {
                    AppError::NotFound(_) => !has_task_id(old(self).tasks_v(), child@)
                        || !has_task_id(old(self).tasks_v(), parent@),
                    AppError::Conflict(m) => has_task_id(old(self).tasks_v(), child@)
                        && has_task_id(old(self).tasks_v(), parent@) && ((has_edge(
                        old(self).deps_v(),
                        child@,
                        parent@,
                    ) && m@ == "dependency already exists: "@ + child@
                        + " is already blocked by "@ + parent@) || (!has_edge(
                        old(self).deps_v(),
                        child@,
                        parent@,
                    ) && reaches(old(self).deps_v(), parent@, child@) && m@
                        == "circular dependency detected: adding this dependency would create a cycle"@)),
                    _ => false,
                },
            },
    {
        if self.get_task(child).is_none() {
            let mut m = String::new();
            m.append("task not found: ");
            m.append(child);
            return Err(AppError::NotFound(m));
        }
        if self.get_task(parent).is_none() {
            let mut m = String::new();
            m.append("task not found: ");
            m.append(parent);
            return Err(AppError::NotFound(m));
        }
        if self.find_edge(child, parent).is_some() {
            let mut m = String::new();
            m.append("dependency already exists: ");
            m.append(child);
            m.append(" is already blocked by ");
            m.append(parent);
            return Err(AppError::Conflict(m));
        }
        if self.would_create_cycle(child, parent) {
            let m =
                "circular dependency detected: adding this dependency would create a cycle".to_owned();
            return Err(AppError::Conflict(m));
        }
        let ghost old_deps = self.deps_v();
        let ghost e = DepView { child_id: child@, parent_id: parent@ };
        let edge = Dependency { child_id: child.to_owned(), parent_id: parent.to_owned() };
        self.deps.push(edge);
        proof {
            assert(self.deps_v() =~= old_deps.push(e));
            lemma_reaches_self(old_deps, parent@);
            assert(e.child_id != e.parent_id);
            let new_deps = self.deps_v();
            assert forall|i: int| 0 <= i < new_deps.len() implies edge_ok(
                self.tasks_v(),
                #[trigger] new_deps[i],
            ) by {
                if i < new_deps.len() - 1 {
                    assert(edge_ok(self.tasks_v(), old_deps[i]));
                }
            }
            assert forall|i: int, j: int|
                #![trigger new_deps[i], new_deps[j]]
                0 <= i < j < new_deps.len() implies !(new_deps[i].child_id
                == new_deps[j].child_id && new_deps[i].parent_id == new_deps[j].parent_id) by {
                if j < new_deps.len() - 1 {
                    assert(!(old_deps[i].child_id == old_deps[j].child_id
                        && old_deps[i].parent_id == old_deps[j].parent_id));
                } else {
                    if new_deps[i].child_id == e.child_id && new_deps[i].parent_id
                        == e.parent_id {
                        assert(has_edge(old_deps, child@, parent@));
                    }
                }
            }
            lemma_acyclic_push(old_deps, e);
            assert(self.wf());
        }
        Ok(())
    }

    /// Delete the edge "`child` is blocked by `parent`". Removing an edge
    /// that is not there changes nothing and is not an error.
    pub fn remove_dependency(&mut self, child: &str, parent: &str) -> (r: Result<(), AppError>)
        requires
            old(self).wf(),
        ensures
            final(self).wf(),
            r is Ok,
            !has_edge(final(self).deps_v(), child@, parent@),
            forall|x: Seq<char>, y: Seq<char>|
                #[trigger] has_edge(final(self).deps_v(), x, y) ==> has_edge(
                    old(self).deps_v(),
                    x,
                    y,
                ),
            forall|x: Seq<char>, y: Seq<char>|
                #[trigger] has_edge(old(self).deps_v(), x, y) && !(x == child@ && y == parent@)
                    ==> has_edge(final(self).deps_v(), x, y),
            final(self).tasks@ == old(self).tasks@,
            final(self).comments@ == old(self).comments@,
            final(self).config@ == old(self).config@,
            final(self).clock == old(self).clock,
            final(self).next_comment_id == old(self).next_comment_id,
            if has_edge(old(self).deps_v(), child@, parent@) {
                final(self).deps@.len() == old(self).deps@.len() - 1
            } else {
                *final(self) == *old(self)
            },
    {
        let idx = match self.find_edge(child, parent) {
            Some(k) => k,
            None => {
                return Ok(());
            },
        };
        let ghost old_deps = self.deps_v();
        self.deps.remove(idx);
        proof {
            let new_deps = self.deps_v();
            assert(new_deps =~= old_deps.remove(idx as int));
            assert forall|j: int| 0 <= j < new_deps.len() implies #[trigger] new_deps[j]
                == (if j < idx as int {
                old_deps[j]
            } else {
                old_deps[j + 1]
            }) by {}
            assert forall|x: Seq<char>, y: Seq<char>|
                #[trigger] has_edge(new_deps, x, y) implies has_edge(old_deps, x, y) by {
                let j = choose|j: int|
                    0 <= j < new_deps.len() && (#[trigger] new_deps[j]).child_id == x
                        && new_deps[j].parent_id == y;
                if j < idx as int {
                    assert(old_deps[j].child_id == x && old_deps[j].parent_id == y);
                } else {
                    assert(old_deps[j + 1].child_id == x && old_deps[j + 1].parent_id == y);
                }
            }
            assert forall|x: Seq<char>, y: Seq<char>|
                #[trigger] has_edge(old_deps, x, y) && !(x == child@ && y == parent@)
                    implies has_edge(new_deps, x, y) by {
                let j = choose|j: int|
                    0 <= j < old_deps.len() && (#[trigger] old_deps[j]).child_id == x
                        && old_deps[j].parent_id == y;
                if j < idx as int {
                    assert(new_deps[j].child_id == x && new_deps[j].parent_id == y);
                } else if j > idx as int {
                    assert(new_deps[j - 1].child_id == x && new_deps[j - 1].parent_id == y);
                }
            }
            if has_edge(new_deps, child@, parent@) {
                let j = choose|j: int|
                    0 <= j < new_deps.len() && (#[trigger] new_deps[j]).child_id == child@
                        && new_deps[j].parent_id == parent@;
                if j < idx as int {
                    assert(!(old_deps[j].child_id == old_deps[idx as int].child_id
                        && old_deps[j].parent_id == old_deps[idx as int].parent_id));
                } else {
                    assert(!(old_deps[idx as int].child_id == old_deps[j + 1].child_id
                        && old_deps[idx as int].parent_id == old_deps[j + 1].parent_id));
                }
            }
            assert forall|i: int| 0 <= i < new_deps.len() implies edge_ok(
                self.tasks_v(),
                #[trigger] new_deps[i],
            ) by {
                if i < idx as int {
                    assert(edge_ok(self.tasks_v(), old_deps[i]));
                } else {
                    assert(edge_ok(self.tasks_v(), old_deps[i + 1]));
                }
            }
            assert forall|i: int, j: int|
                #![trigger new_deps[i], new_deps[j]]
                0 <= i < j < new_deps.len() implies !(new_deps[i].child_id
                == new_deps[j].child_id && new_deps[i].parent_id == new_deps[j].parent_id) by {
                let i0 = if i < idx as int { i } else { i + 1 };
                let j0 = if j < idx as int { j } else { j + 1 };
                assert(new_deps[i] == old_deps[i0] && new_deps[j] == old_deps[j0]);
                assert(!(old_deps[i0].child_id == old_deps[j0].child_id && old_deps[
                    i0].parent_id == old_deps[j0].parent_id));
            }
            lemma_acyclic_subset(new_deps, old_deps);
            assert(self.wf());
        }
        Ok(())
    }
}


/// Membership of an edge in one task's blocker list.
pub open spec fn edge_from(id: Seq<char>) -> spec_fn(DepView) -> bool {
    |e: DepView| e.child_id == id
}

/// The task has at least one blocker edge whose parent-side task is not
/// Done: the graph-derived notion of "blocked", independent of the task's
/// own status field.
pub open spec fn blocker_unresolved(
    tasks: Seq<TaskView>,
    deps: Seq<DepView>,
    id: Seq<char>,
) -> bool {
    exists|k: int|
        0 <= k < deps.len() && (#[trigger] deps[k]).child_id == id && task_by_id(
            tasks,
            deps[k].parent_id,
        ).status != Status::Done
}

/// Ready: status Open, and every blocker (if any) is Done.
pub open spec fn ready_f(tasks: Seq<TaskView>, deps: Seq<DepView>) -> spec_fn(TaskView) -> bool {
    |t: TaskView| t.status == Status::Open && !blocker_unresolved(tasks, deps, t.id)
}

/// Graph-blocked: some blocker is unresolved, whatever the status field says.
pub open spec fn blocked_f(tasks: Seq<TaskView>, deps: Seq<DepView>) -> spec_fn(
    TaskView,
) -> bool {
    |t: TaskView| blocker_unresolved(tasks, deps, t.id)
}

/// Waiting on the given task: there is an edge from the task to it.
pub open spec fn dependent_f(deps: Seq<DepView>, id: Seq<char>) -> spec_fn(TaskView) -> bool {
    |t: TaskView| has_edge(deps, t.id, id)
}

impl Store {
    /// The edges that block the given task directly (one hop).
    pub fn get_blockers(&self, task_id: &str) -> (r: Vec<Dependency>)
        ensures
            dep_views(r@) == self.deps_v().filter(edge_from(task_id@)),
    {
        let mut out: Vec<Dependency> = Vec::new();
        let n = self.deps.len();
        let mut i: usize = 0;
        while i < n
            invariant
                i <= n,
                n == self.deps@.len(),
                dep_views(out@) == self.deps_v().take(i as int).filter(edge_from(task_id@)),
            decreases n - i,
        {
            let ghost prefix = self.deps_v().take(i as int);
            let ghost x = self.deps_v()[i as int];
            let ghost prev_out = dep_views(out@);
            proof {
                assert(self.deps_v().take(i + 1) =~= prefix.push(x));
                lemma_filter_push(prefix, x, edge_from(task_id@));
            }
            if str_eq(self.deps[i].child_id.as_str(), task_id) {
                out.push(self.deps[i].duplicate());
                proof {
                    assert(edge_from(task_id@)(x));
                    assert(dep_views(out@) =~= prev_out.push(x));
                }
            } else {
                proof {
                    assert(!edge_from(task_id@)(x));
                }
            }
            i = i + 1;
        }
        proof {
            assert(self.deps_v().take(n as int) =~= self.deps_v());
        }
        out
    }

    /// Whether some blocker of the task with this id is unresolved.
    fn blocker_unresolved_exec(&self, id: &str) -> (r: bool)
        requires
            self.wf(),
        ensures
            r == blocker_unresolved(self.tasks_v(), self.deps_v(), id@),
    {
        let n = self.deps.len();
        let mut k: usize = 0;
        while k < n
            invariant
                self.wf(),
                k <= n,
                n == self.deps@.len(),
                forall|j: int|
                    0 <= j < k ==> !((#[trigger] self.deps_v()[j]).child_id == id@ && task_by_id(
                        self.tasks_v(),
                        self.deps_v()[j].parent_id,
                    ).status != Status::Done),
            decreases n - k,
        {
            if str_eq(self.deps[k].child_id.as_str(), id) {
                let unresolved = match self.find_task(self.deps[k].parent_id.as_str()) {
                    Some(pi) => {
                        proof {
                            assert(task_by_id(self.tasks_v(), self.deps_v()[k as int].parent_id)
                                == self.tasks_v()[pi as int]);
                        }
                        self.tasks[pi].status != Status::Done
                    },
                    None => {
                        proof {
                            assert(edge_ok(self.tasks_v(), self.deps_v()[k as int]));
                            assert(false);
                        }
                        false
                    },
                };
                if unresolved {
                    return true;
                }
            }
            k = k + 1;
        }
        proof {
            if blocker_unresolved(self.tasks_v(), self.deps_v(), id@) {
                let j = choose|j: int|
                    0 <= j < self.deps_v().len() && (#[trigger] self.deps_v()[j]).child_id == id@
                        && task_by_id(self.tasks_v(), self.deps_v()[j].parent_id).status
                        != Status::Done;
                assert(!(self.deps_v()[j].child_id == id@ && task_by_id(
                    self.tasks_v(),
                    self.deps_v()[j].parent_id,
                ).status != Status::Done));
            }
        }
        false
    }

    /// The tasks that the given task blocks, resolved to full records and
    /// in the system-wide listing order.
    pub fn get_dependents(&self, task_id: &str) -> (r: Vec<Task>)
        requires
            self.wf(),
        ensures
            task_views(r@) == sort_by_spec(
                self.tasks_v().filter(dependent_f(self.deps_v(), task_id@)),
                task_le_f(),
            ),
    {
        let mut picked: Vec<Task> = Vec::new();
        let n = self.tasks.len();
        let mut i: usize = 0;
        while i < n
            invariant
                self.wf(),
                i <= n,
                n == self.tasks@.len(),
                task_views(picked@) == self.tasks_v().take(i as int).filter(
                    dependent_f(self.deps_v(), task_id@),
                ),
            decreases n - i,
        {
            let ghost prefix = self.tasks_v().take(i as int);
            let ghost x = self.tasks_v()[i as int];
            let ghost prev = task_views(picked@);
            proof {
                assert(self.tasks_v().take(i + 1) =~= prefix.push(x));
                lemma_filter_push(prefix, x, dependent_f(self.deps_v(), task_id@));
            }
            if self.find_edge(self.tasks[i].id.as_str(), task_id).is_some() {
                picked.push(self.tasks[i].duplicate());
                proof {
                    assert(dependent_f(self.deps_v(), task_id@)(x));
                    assert(task_views(picked@) =~= prev.push(x));
                }
            } else {
                proof {
                    assert(!dependent_f(self.deps_v(), task_id@)(x));
                }
            }
            i = i + 1;
        }
        proof {
            assert(self.tasks_v().take(n as int) =~= self.tasks_v());
        }
        sort_tasks(&picked)
    }

    /// The ready queue: Open tasks with no unresolved blocker, in the
    /// system-wide listing order, optionally capped to the first `limit`.
    pub fn get_ready_tasks(&self, limit: Option<u32>) -> (r: Vec<Task>)
        requires
            self.wf(),
        ensures
            task_views(r@) == capped(
                sort_by_spec(
                    self.tasks_v().filter(ready_f(self.tasks_v(), self.deps_v())),
                    task_le_f(),
                ),
                limit,
            ),
    {
        let mut picked: Vec<Task> = Vec::new();
        let n = self.tasks.len();
        let mut i: usize = 0;
        while i < n
            invariant
                self.wf(),
                i <= n,
                n == self.tasks@.len(),
                task_views(picked@) == self.tasks_v().take(i as int).filter(
                    ready_f(self.tasks_v(), self.deps_v()),
                ),
            decreases n - i,
        {
            let ghost prefix = self.tasks_v().take(i as int);
            let ghost x = self.tasks_v()[i as int];
            let ghost prev = task_views(picked@);
            proof {
                assert(self.tasks_v().take(i + 1) =~= prefix.push(x));
                lemma_filter_push(prefix, x, ready_f(self.tasks_v(), self.deps_v()));
            }
            let is_open = self.tasks[i].status == Status::Open;
            if is_open && !self.blocker_unresolved_exec(self.tasks[i].id.as_str()) {
                picked.push(self.tasks[i].duplicate());
                proof {
                    assert(ready_f(self.tasks_v(), self.deps_v())(x));
                    assert(task_views(picked@) =~= prev.push(x));
                }
            } else {
                proof {
                    assert(!ready_f(self.tasks_v(), self.deps_v())(x));
                }
            }
            i = i + 1;
        }
        proof {
            assert(self.tasks_v().take(n as int) =~= self.tasks_v());
        }
        let mut out = sort_tasks(&picked);
        if let Some(cap) = limit {
            let cap_usize = cap as usize;
            if out.len() > cap_usize {
                out.truncate(cap_usize);
                proof {
                    assert(task_views(out@) =~= capped(
                        sort_by_spec(
                            self.tasks_v().filter(ready_f(self.tasks_v(), self.deps_v())),
                            task_le_f(),
                        ),
                        limit,
                    ));
                }
            }
        }
        out
    }

    /// The graph-blocked tasks: those with at least one unresolved blocker,
    /// whatever their own status field says, in the listing order.
    pub fn get_blocked_tasks(&self) -> (r: Vec<Task>)
        requires
            self.wf(),
        ensures
            task_views(r@) == sort_by_spec(
                self.tasks_v().filter(blocked_f(self.tasks_v(), self.deps_v())),
                task_le_f(),
            ),
    {
        let mut picked: Vec<Task> = Vec::new();
        let n = self.tasks.len();
        let mut i: usize = 0;
        while i < n
            invariant
                self.wf(),
                i <= n,
                n == self.tasks@.len(),
                task_views(picked@) == self.tasks_v().take(i as int).filter(
                    blocked_f(self.tasks_v(), self.deps_v()),
                ),
            decreases n - i,
        {
            let ghost prefix = self.tasks_v().take(i as int);
            let ghost x = self.tasks_v()[i as int];
            let ghost prev = task_views(picked@);
            proof {
                assert(self.tasks_v().take(i + 1) =~= prefix.push(x));
                lemma_filter_push(prefix, x, blocked_f(self.tasks_v(), self.deps_v()));
            }
            if self.blocker_unresolved_exec(self.tasks[i].id.as_str()) {
                picked.push(self.tasks[i].duplicate());
                proof {
                    assert(blocked_f(self.tasks_v(), self.deps_v())(x));
                    assert(task_views(picked@) =~= prev.push(x));
                }
            } else {
                proof {
                    assert(!blocked_f(self.tasks_v(), self.deps_v())(x));
                }
            }
            i = i + 1;
        }
        proof {
            assert(self.tasks_v().take(n as int) =~= self.tasks_v());
        }
        sort_tasks(&picked)
    }
}


impl Store {
    /// Split a task list into the graph-blocked part and the rest, each in
    /// their input order; the board view files dep-blocked Open tasks
    /// under its Blocked column.
    pub fn split_by_blocked(&self, tasks: Vec<Task>) -> (r: (Vec<Task>, Vec<Task>))
        requires
            self.wf(),
        ensures
            task_views(r.0@) == task_views(tasks@).filter(
                blocked_f(self.tasks_v(), self.deps_v()),
            ),
            task_views(r.1@) == task_views(tasks@).filter(
                unblocked_f(self.tasks_v(), self.deps_v()),
            ),
    {
        let mut blocked: Vec<Task> = Vec::new();
        let mut free: Vec<Task> = Vec::new();
        let n = tasks.len();
        let mut i: usize = 0;
        while i < n
            invariant
                self.wf(),
                i <= n,
                n == tasks@.len(),
                task_views(blocked@) == task_views(tasks@).take(i as int).filter(
                    blocked_f(self.tasks_v(), self.deps_v()),
                ),
                task_views(free@) == task_views(tasks@).take(i as int).filter(
                    unblocked_f(self.tasks_v(), self.deps_v()),
                ),
            decreases n - i,
        {
            let ghost prefix = task_views(tasks@).take(i as int);
            let ghost x = task_views(tasks@)[i as int];
            let ghost prev_b = task_views(blocked@);
            let ghost prev_f = task_views(free@);
            proof {
                assert(task_views(tasks@).take(i + 1) =~= prefix.push(x));
                lemma_filter_push(prefix, x, blocked_f(self.tasks_v(), self.deps_v()));
                lemma_filter_push(prefix, x, unblocked_f(self.tasks_v(), self.deps_v()));
            }
            if self.blocker_unresolved_exec(tasks[i].id.as_str()) {
                blocked.push(tasks[i].duplicate());
                proof {
                    assert(blocked_f(self.tasks_v(), self.deps_v())(x));
                    assert(!unblocked_f(self.tasks_v(), self.deps_v())(x));
                    assert(task_views(blocked@) =~= prev_b.push(x));
                }
            } else {
                free.push(tasks[i].duplicate());
                proof {
                    assert(!blocked_f(self.tasks_v(), self.deps_v())(x));
                    assert(unblocked_f(self.tasks_v(), self.deps_v())(x));
                    assert(task_views(free@) =~= prev_f.push(x));
                }
            }
            i = i + 1;
        }
        proof {
            assert(task_views(tasks@).take(n as int) =~= task_views(tasks@));
        }
        (blocked, free)
    }
}

/// No blocker of the task is unresolved.
pub open spec fn unblocked_f(tasks: Seq<TaskView>, deps: Seq<DepView>) -> spec_fn(
    TaskView,
) -> bool {
    |t: TaskView| !blocker_unresolved(tasks, deps, t.id)
}

/// Can `to` be reached from `from` along "depends on" edges of the given
/// edge list? A breadth-first walk from `from` that marks nodes before it
/// queues them; sound and complete for any edge list.
pub(crate) fn reaches_exec(deps_vec: &Vec<Dependency>, from: &str, to: &str) -> (r: bool)
ensures
    r == reaches(dep_views(deps_vec@), from@, to@),
{
    proof {
        lemma_reaches_self(dep_views(deps_vec@), from@);
    }
    if str_eq(from, to) {
        return true;
    }
    let ghost deps = dep_views(deps_vec@);
    let mut queue: Vec<String> = Vec::new();
    queue.push(from.to_owned());
    let mut head: usize = 0;
    while head < queue.len()
        invariant
            deps == dep_views(deps_vec@),
            head <= queue@.len(),
            queue@.len() >= 1,
            queue@[0]@ == from@,
            str_views(queue@).no_duplicates(),
            forall|i: int|
                0 <= i < queue@.len() ==> reaches(deps, from@, (#[trigger] queue@[i])@),
            forall|i: int| 0 <= i < queue@.len() ==> (#[trigger] queue@[i])@ != to@,
            forall|i: int|
                0 <= i < queue@.len() ==> (#[trigger] queue@[i])@ == from@ || exists|k: int|
                    0 <= k < deps.len() && (#[trigger] deps[k]).parent_id == queue@[i]@,
            forall|i: int, k: int|
                #![trigger queue@[i], deps[k]]
                0 <= i < head && 0 <= k < deps.len() && deps[k].child_id == queue@[i]@
                    ==> str_views(queue@).contains(deps[k].parent_id),
            queue@.len() <= deps.len() + 1,
        decreases deps.len() + 1 - head,
    {
        let current = queue[head].clone();
        let ghost cur = current@;
        let n = deps_vec.len();
        let mut k: usize = 0;
        while k < n
            invariant
                deps == dep_views(deps_vec@),
                k <= n,
                n == deps.len(),
                head < queue@.len(),
                queue@.len() >= 1,
                queue@[0]@ == from@,
                cur == queue@[head as int]@,
                current@ == cur,
                str_views(queue@).no_duplicates(),
                forall|i: int|
                    0 <= i < queue@.len() ==> reaches(deps, from@, (#[trigger] queue@[i])@),
                forall|i: int| 0 <= i < queue@.len() ==> (#[trigger] queue@[i])@ != to@,
                forall|i: int|
                    0 <= i < queue@.len() ==> (#[trigger] queue@[i])@ == from@ || exists|
                        kk: int,
                    |
                        0 <= kk < deps.len() && (#[trigger] deps[kk]).parent_id
                            == queue@[i]@,
                forall|i: int, kk: int|
                    #![trigger queue@[i], deps[kk]]
                    0 <= i < head && 0 <= kk < deps.len() && deps[kk].child_id == queue@[i]@
                        ==> str_views(queue@).contains(deps[kk].parent_id),
                forall|kk: int|
                    0 <= kk < k && (#[trigger] deps[kk]).child_id == cur ==> str_views(
                        queue@,
                    ).contains(deps[kk].parent_id),
                queue@.len() <= deps.len() + 1,
            decreases n - k,
        {
            if str_eq(deps_vec[k].child_id.as_str(), current.as_str()) {
                let y = deps_vec[k].parent_id.clone();
                proof {
                    assert(deps[k as int].child_id == cur && deps[k as int].parent_id == y@);
                    assert(reaches(deps, from@, cur));
                    assert(has_edge(deps, cur, y@));
                    lemma_reaches_step(deps, from@, cur, y@);
                }
                if str_eq(y.as_str(), to) {
                    return true;
                }
                if !vec_contains_str(&queue, y.as_str()) {
                    let ghost oldq = queue@;
                    queue.push(y);
                    proof {
                        assert(str_views(queue@) =~= str_views(oldq).push(
                            deps[k as int].parent_id,
                        ));
                        lemma_queue_bound(str_views(queue@), deps, from@);
                        assert forall|w: int|
                            0 <= w < oldq.len() implies #[trigger] str_views(queue@)[w]
                            == str_views(oldq)[w] by {}
                        assert forall|kk: int|
                            0 <= kk < deps.len() && str_views(oldq).contains(
                                (#[trigger] deps[kk]).parent_id,
                            ) implies str_views(queue@).contains(deps[kk].parent_id) by {
                            let w = choose|w: int|
                                0 <= w < str_views(oldq).len() && (#[trigger] str_views(
                                    oldq,
                                )[w]) == deps[kk].parent_id;
                            assert(str_views(queue@)[w] == deps[kk].parent_id);
                        }
                        assert(str_views(queue@)[oldq.len() as int] == deps[
                            k as int].parent_id);
                        assert(str_views(queue@).contains(deps[k as int].parent_id));
                        assert forall|i: int, kk: int|
                            #![trigger queue@[i], deps[kk]]
                            0 <= i < head && 0 <= kk < deps.len() && deps[kk].child_id
                                == queue@[i]@ implies str_views(queue@).contains(
                            deps[kk].parent_id,
                        ) by {
                            assert(queue@[i] == oldq[i]);
                            assert(str_views(oldq).contains(deps[kk].parent_id));
                        }
                    }
                } else {
                    proof {
                        assert(str_views(queue@).contains(deps[k as int].parent_id));
                    }
                }
            } else {
                proof {
                    assert(deps[k as int].child_id != cur);
                }
            }
            k = k + 1;
        }
        head = head + 1;
    }
    proof {
        let qv = str_views(queue@);
        assert(closed_under_succ(deps, qv)) by {
            assert forall|i: int, k: int|
                #![trigger qv[i], deps[k]]
                0 <= i < qv.len() && 0 <= k < deps.len() && deps[k].child_id == qv[i]
                    implies qv.contains(deps[k].parent_id) by {
                assert(deps[k].child_id == queue@[i]@);
            }
        }
        if reaches(deps, from@, to@) {
            let p = choose|p: Seq<Seq<char>>|
                #[trigger] is_chain(deps, p) && p.len() >= 1 && p[0] == from@ && p.last()
                    == to@;
            assert(qv[0] == from@);
            assert(qv.contains(p[0]));
            lemma_chain_stays(deps, qv, p);
            let i = choose|i: int| 0 <= i < qv.len() && qv[i] == to@;
            assert(queue@[i]@ != to@);
        }
    }
    false
}

} // verus!
