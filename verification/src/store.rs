//! The entity store: tasks, comments, dependency edges and configuration,
//! held in memory with a well-formedness invariant that every operation
//! preserves: unique task ids, valid edge endpoints, an acyclic edge set,
//! and timestamps bounded by a strictly increasing logical clock.

use vstd::prelude::*;
use vstd::string::{StrSliceExecFns, StringExecFns};

use crate::clock::{now_millis, NOW_CLAMP};
use crate::graph::acyclic;
use crate::model::{
    clone_string_vec, comment_views, dep_views, opt_view, str_views, task_views, AppError, Comment, CommentView,
    DepView, Dependency, Status, Task, TaskView,
};
use crate::model::status_of_str;
use crate::seqext::lemma_filter_push;
use crate::strutil::str_eq;

verus! {

/// The clock value above which mutating operations refuse to run; far
/// beyond any reachable stamp, it keeps stamp arithmetic from overflowing.
pub const CLOCK_LIMIT: i64 = 0x7fff_ffff_ffff_0000;

/// Some task of `tasks` has id `id`.
pub open spec fn has_task_id(tasks: Seq<TaskView>, id: Seq<char>) -> bool {
    exists|i: int| 0 <= i < tasks.len() && (#[trigger] tasks[i]).id == id
}

/// The index of the task with id `id`.
pub open spec fn task_index(tasks: Seq<TaskView>, id: Seq<char>) -> int {
    choose|i: int| 0 <= i < tasks.len() && (#[trigger] tasks[i]).id == id
}

/// The task of `tasks` with id `id`.
pub open spec fn task_by_id(tasks: Seq<TaskView>, id: Seq<char>) -> TaskView {
    tasks[task_index(tasks, id)]
}

/// No two tasks share an id.
pub open spec fn unique_ids(tasks: Seq<TaskView>) -> bool {
    forall|i: int, j: int|
        #![trigger tasks[i], tasks[j]]
        0 <= i < j < tasks.len() ==> tasks[i].id != tasks[j].id
}

/// With unique ids, an index holding `id` is the index `task_index` picks.
pub proof fn lemma_task_index_unique(tasks: Seq<TaskView>, id: Seq<char>, j: int)
    requires
        unique_ids(tasks),
        0 <= j < tasks.len(),
        tasks[j].id == id,
    ensures
        has_task_id(tasks, id),
        task_index(tasks, id) == j,
        task_by_id(tasks, id) == tasks[j],
{
    assert(has_task_id(tasks, id));
    let k = task_index(tasks, id);
    assert(0 <= k < tasks.len() && tasks[k].id == id);
    if k != j {
        assert(tasks[k].id != tasks[j].id);
    }
}

/// Two task sequences with pointwise equal ids agree on which ids exist and
/// where they stand.
pub proof fn lemma_same_ids(a: Seq<TaskView>, b: Seq<TaskView>)
    requires
        a.len() == b.len(),
        forall|i: int| 0 <= i < a.len() ==> (#[trigger] a[i]).id == (#[trigger] b[i]).id,
    ensures
        forall|x: Seq<char>| #[trigger] has_task_id(a, x) ==> has_task_id(b, x),
        forall|x: Seq<char>| #[trigger] has_task_id(b, x) ==> has_task_id(a, x),
        unique_ids(a) ==> unique_ids(b),
{
    assert forall|x: Seq<char>| #[trigger] has_task_id(a, x) implies has_task_id(b, x) by {
        let i = choose|i: int| 0 <= i < a.len() && (#[trigger] a[i]).id == x;
        assert(b[i].id == x);
    }
    assert forall|x: Seq<char>| #[trigger] has_task_id(b, x) implies has_task_id(a, x) by {
        let i = choose|i: int| 0 <= i < b.len() && (#[trigger] b[i]).id == x;
        assert(a[i].id == x);
    }
    if unique_ids(a) {
        assert forall|i: int, j: int|
            #![trigger b[i], b[j]]
            0 <= i < j < b.len() implies b[i].id != b[j].id by {
            assert(a[i].id != a[j].id);
        }
    }
}

/// A well-formed edge: both endpoints exist and differ.
pub open spec fn edge_ok(tasks: Seq<TaskView>, e: DepView) -> bool {
    has_task_id(tasks, e.child_id) && has_task_id(tasks, e.parent_id) && e.child_id != e.parent_id
}

/// Edge-set well-formedness: every edge is well-formed and no edge repeats.
pub open spec fn deps_wf(tasks: Seq<TaskView>, deps: Seq<DepView>) -> bool {
    &&& forall|i: int| 0 <= i < deps.len() ==> edge_ok(tasks, #[trigger] deps[i])
    &&& forall|i: int, j: int|
        #![trigger deps[i], deps[j]]
        0 <= i < j < deps.len() ==> !(deps[i].child_id == deps[j].child_id
            && deps[i].parent_id == deps[j].parent_id)
}

/// Comment well-formedness: each comment belongs to an existing task, ids
/// grow strictly in creation order and stay below the id counter, and
/// creation times never decrease.
pub open spec fn comments_wf(
    tasks: Seq<TaskView>,
    comments: Seq<CommentView>,
    next_id: i64,
) -> bool {
    &&& forall|i: int|
        0 <= i < comments.len() ==> has_task_id(tasks, (#[trigger] comments[i]).task_id)
    &&& forall|i: int, j: int|
        #![trigger comments[i], comments[j]]
        0 <= i < j < comments.len() ==> comments[i].id < comments[j].id
            && comments[i].created_at <= comments[j].created_at
    &&& forall|i: int| 0 <= i < comments.len() ==> (#[trigger] comments[i]).id < next_id
}

/// Every timestamp in the store is bounded by the clock.
pub open spec fn stamps_wf(tasks: Seq<TaskView>, comments: Seq<CommentView>, clock: i64) -> bool {
    &&& forall|i: int|
        0 <= i < tasks.len() ==> (#[trigger] tasks[i]).created_at <= clock
            && tasks[i].updated_at <= clock
    &&& forall|i: int| 0 <= i < comments.len() ==> (#[trigger] comments[i]).created_at <= clock
}

/// Lookup in the configuration list: the first pair with the key wins.
pub open spec fn cfg_lookup(
    cfg: Seq<(Seq<char>, Seq<char>)>,
    key: Seq<char>,
) -> Option<Seq<char>>
    decreases cfg.len(),
{
    if cfg.len() == 0 {
        None
    } else if cfg[0].0 == key {
        Some(cfg[0].1)
    } else {
        cfg_lookup(cfg.drop_first(), key)
    }
}

proof fn lemma_cfg_lookup_skip(cfg: Seq<(Seq<char>, Seq<char>)>, key: Seq<char>, i: int)
    requires
        0 <= i <= cfg.len(),
        forall|j: int| 0 <= j < i ==> (#[trigger] cfg[j]).0 != key,
    ensures
        cfg_lookup(cfg, key) == cfg_lookup(cfg.skip(i), key),
    decreases i,
{
    if i > 0 {
        assert(cfg.len() > 0);
        assert(cfg[0].0 != key);
        assert(cfg.drop_first() =~= cfg.skip(1));
        assert forall|j: int| 0 <= j < i - 1 implies (#[trigger] cfg.skip(1)[j]).0 != key by {
            assert(cfg.skip(1)[j] == cfg[j + 1]);
        }
        lemma_cfg_lookup_skip(cfg.skip(1), key, i - 1);
        assert(cfg.skip(1).skip(i - 1) =~= cfg.skip(i));
    } else {
        assert(cfg.skip(0) =~= cfg);
    }
}

/// The system-wide listing order: priority ascending, then age (creation
/// stamp) ascending.
pub open spec fn task_le(a: TaskView, b: TaskView) -> bool {
    a.priority < b.priority || (a.priority == b.priority && a.created_at <= b.created_at)
}

/// `task_le` as a first-class relation, for the sort specifications.
pub open spec fn task_le_f() -> spec_fn(TaskView, TaskView) -> bool {
    |a: TaskView, b: TaskView| task_le(a, b)
}

/// The entity store. All fields are public so that the specifications can
/// speak about them; the operations keep `wf()`.
pub struct Store {
    pub tasks: Vec<Task>,
    pub comments: Vec<Comment>,
    pub deps: Vec<Dependency>,
    pub config: Vec<(String, String)>,
    pub next_comment_id: i64,
    pub clock: i64,
}

impl Store {
    /// The tasks of the store, as mathematical values.
    pub open spec fn tasks_v(&self) -> Seq<TaskView> {
        task_views(self.tasks@)
    }

    /// The comments of the store, as mathematical values.
    pub open spec fn comments_v(&self) -> Seq<CommentView> {
        comment_views(self.comments@)
    }

    /// The dependency edges of the store, as mathematical values.
    pub open spec fn deps_v(&self) -> Seq<DepView> {
        dep_views(self.deps@)
    }

    /// The configuration pairs of the store, as mathematical values.
    pub open spec fn cfg_v(&self) -> Seq<(Seq<char>, Seq<char>)> {
        self.config@.map_values(|p: (String, String)| (p.0@, p.1@))
    }

    /// The well-formedness invariant of the store.
    pub open spec fn wf(&self) -> bool {
        &&& unique_ids(self.tasks_v())
        &&& deps_wf(self.tasks_v(), self.deps_v())
        &&& acyclic(self.deps_v())
        &&& comments_wf(self.tasks_v(), self.comments_v(), self.next_comment_id)
        &&& stamps_wf(self.tasks_v(), self.comments_v(), self.clock)
        &&& 0 <= self.clock
        &&& 1 <= self.next_comment_id
    }

    /// Everything except tasks and the clock is unchanged.
    pub open spec fn same_but_tasks(&self, other: &Store) -> bool {
        &&& self.comments@ == other.comments@
        &&& self.deps@ == other.deps@
        &&& self.config@ == other.config@
        &&& self.next_comment_id == other.next_comment_id
    }

    /// A fresh, empty store.
    pub fn new() -> (r: Store)
        ensures
            r.wf(),
            r.tasks_v() == Seq::<TaskView>::empty(),
            r.comments_v() == Seq::<CommentView>::empty(),
            r.deps_v() == Seq::<DepView>::empty(),
            r.cfg_v() == Seq::<(Seq<char>, Seq<char>)>::empty(),
            r.clock == 0,
            r.next_comment_id == 1,
    {
        let r = Store {
            tasks: Vec::new(),
            comments: Vec::new(),
            deps: Vec::new(),
            config: Vec::new(),
            next_comment_id: 1,
            clock: 0,
        };
        proof {
            assert(r.tasks_v() =~= Seq::<TaskView>::empty());
            assert(r.comments_v() =~= Seq::<CommentView>::empty());
            assert(r.deps_v() =~= Seq::<DepView>::empty());
            assert(r.cfg_v() =~= Seq::<(Seq<char>, Seq<char>)>::empty());
        }
        r
    }

    /// Raise the clock at least to `to`; used when loading persisted records
    /// whose stamps must stay in the past.
    pub fn raise_clock(&mut self, to: i64)
        ensures
            final(self).clock == if to > old(self).clock { to } else { old(self).clock },
            final(self).tasks@ == old(self).tasks@,
            final(self).same_but_tasks(old(self)),
            old(self).wf() ==> final(self).wf(),
    {
        if to > self.clock {
            self.clock = to;
        }
    }

    /// Advance the clock and hand out a stamp strictly above every stamp
    /// issued before.
    pub(crate) fn next_stamp(&mut self) -> (r: i64)
        requires
            old(self).clock < CLOCK_LIMIT,
            old(self).clock >= 0,
        ensures
            r == final(self).clock,
            r > old(self).clock,
            r <= NOW_CLAMP || r == old(self).clock + 1,
            final(self).clock < i64::MAX,
            final(self).tasks@ == old(self).tasks@,
            final(self).same_but_tasks(old(self)),
    {
        let now = now_millis();
        let s: i64 = if now > self.clock {
            now
        } else {
            self.clock + 1
        };
        self.clock = s;
        s
    }

    /// Set a configuration key, replacing any earlier value.
    pub fn set_config(&mut self, key: &str, value: &str)
        ensures
            cfg_lookup(final(self).cfg_v(), key@) == Some(value@),
            forall|k: Seq<char>|
                k != key@ ==> #[trigger] cfg_lookup(final(self).cfg_v(), k) == cfg_lookup(
                    old(self).cfg_v(),
                    k,
                ),
            final(self).tasks@ == old(self).tasks@,
            final(self).comments@ == old(self).comments@,
            final(self).deps@ == old(self).deps@,
            final(self).next_comment_id == old(self).next_comment_id,
            final(self).clock == old(self).clock,
            old(self).wf() ==> final(self).wf(),
    {
        let pair = (key.to_owned(), value.to_owned());
        self.config.insert(0, pair);
        proof {
            assert(self.cfg_v() =~= old(self).cfg_v().insert(0, (key@, value@)));
            assert(self.cfg_v()[0].0 == key@);
            assert forall|k: Seq<char>| k != key@ implies #[trigger] cfg_lookup(self.cfg_v(), k)
                == cfg_lookup(old(self).cfg_v(), k) by {
                assert(self.cfg_v().drop_first() =~= old(self).cfg_v());
            }
        }
    }

    /// Read a configuration key.
    pub fn get_config(&self, key: &str) -> (r: Option<String>)
        ensures
            opt_view(r) == cfg_lookup(self.cfg_v(), key@),
    {
        let n = self.config.len();
        let mut i: usize = 0;
        while i < n
            invariant
                i <= n,
                n == self.config@.len(),
                forall|j: int| 0 <= j < i ==> (#[trigger] self.cfg_v()[j]).0 != key@,
            decreases n - i,
        {
            if str_eq(self.config[i].0.as_str(), key) {
                proof {
                    lemma_cfg_lookup_skip(self.cfg_v(), key@, i as int);
                    assert(cfg_lookup(self.cfg_v().skip(i as int), key@) == Some(
                        self.cfg_v()[i as int].1,
                    ));
                }
                return Some(self.config[i].1.clone());
            }
            i = i + 1;
        }
        proof {
            lemma_cfg_lookup_skip(self.cfg_v(), key@, n as int);
            assert(self.cfg_v().skip(n as int) =~= Seq::<(Seq<char>, Seq<char>)>::empty());
        }
        None
    }

    /// The index of the task with the given id, if any.
    pub(crate) fn find_task(&self, id: &str) -> (r: Option<usize>)
        requires
            self.wf(),
        ensures
            match r {
                Some(j) => j < self.tasks@.len() && self.tasks_v()[j as int].id == id@
                    && has_task_id(self.tasks_v(), id@) && task_index(self.tasks_v(), id@)
                    == j as int,
                None => !has_task_id(self.tasks_v(), id@),
            },
    {
        let n = self.tasks.len();
        let mut i: usize = 0;
        while i < n
            invariant
                i <= n,
                n == self.tasks@.len(),
                unique_ids(self.tasks_v()),
                forall|j: int| 0 <= j < i ==> (#[trigger] self.tasks_v()[j]).id != id@,
            decreases n - i,
        {
            if str_eq(self.tasks[i].id.as_str(), id) {
                proof {
                    lemma_task_index_unique(self.tasks_v(), id@, i as int);
                }
                return Some(i);
            }
            i = i + 1;
        }
        None
    }

    /// Fetch a task by id; absence is an answer, not an error.
    pub fn get_task(&self, id: &str) -> (r: Option<Task>)
        requires
            self.wf(),
        ensures
            match r {
                Some(t) => has_task_id(self.tasks_v(), id@) && t@ == task_by_id(
                    self.tasks_v(),
                    id@,
                ),
                None => !has_task_id(self.tasks_v(), id@),
            },
    {
        match self.find_task(id) {
            Some(i) => Some(self.tasks[i].duplicate()),
            None => None,
        }
    }

    /// Insert a task record; fails with Conflict if the id is taken.
    pub fn insert_task(&mut self, t: Task) -> (r: Result<(), AppError>)
        requires
            old(self).wf(),
            t@.created_at <= old(self).clock,
            t@.updated_at <= old(self).clock,
        ensures
            final(self).wf(),
            match r {
                Ok(()) => !has_task_id(old(self).tasks_v(), t@.id) && final(self).tasks_v()
                    == old(self).tasks_v().push(t@) && final(self).same_but_tasks(old(self))
                    && final(self).clock == old(self).clock,
                Err(e) => has_task_id(old(self).tasks_v(), t@.id) && (e matches
                    AppError::Conflict(_)) && *final(self) == *old(self),
            },
    {
        match self.find_task(t.id.as_str()) {
            Some(_) => {
                let mut m = String::new();
                m.append("task already exists: ");
                m.append(t.id.as_str());
                Err(AppError::Conflict(m))
            },
            None => {
                let ghost old_tasks = self.tasks_v();
                let ghost tv = t@;
                self.tasks.push(t);
                proof {
                    assert(self.tasks_v() =~= old_tasks.push(tv));
                    let new_tasks = self.tasks_v();
                    assert forall|x: Seq<char>| #[trigger] has_task_id(old_tasks, x)
                        implies has_task_id(new_tasks, x) by {
                        let i = choose|i: int|
                            0 <= i < old_tasks.len() && (#[trigger] old_tasks[i]).id == x;
                        assert(new_tasks[i].id == x);
                    }
                    assert forall|i: int, j: int|
                        #![trigger new_tasks[i], new_tasks[j]]
                        0 <= i < j < new_tasks.len() implies new_tasks[i].id != new_tasks[j].id by {
                        if j < new_tasks.len() - 1 {
                            assert(old_tasks[i].id != old_tasks[j].id);
                        } else {
                            if new_tasks[i].id == tv.id {
                                assert(old_tasks[i].id == tv.id);
                                assert(has_task_id(old_tasks, tv.id));
                            }
                        }
                    }
                    assert(deps_wf(new_tasks, self.deps_v())) by {
                        assert forall|k: int| 0 <= k < self.deps_v().len() implies edge_ok(
                            new_tasks,
                            #[trigger] self.deps_v()[k],
                        ) by {
                            assert(edge_ok(old_tasks, self.deps_v()[k]));
                        }
                    }
                    assert(comments_wf(new_tasks, self.comments_v(), self.next_comment_id)) by {
                        assert forall|k: int| 0 <= k < self.comments_v().len() implies has_task_id(
                            new_tasks,
                            (#[trigger] self.comments_v()[k]).task_id,
                        ) by {
                            assert(has_task_id(old_tasks, self.comments_v()[k].task_id));
                        }
                    }
                    assert(stamps_wf(new_tasks, self.comments_v(), self.clock)) by {
                        assert forall|k: int| 0 <= k < new_tasks.len() implies (
                        #[trigger] new_tasks[k]).created_at <= self.clock && new_tasks[k].updated_at
                            <= self.clock by {
                            if k < new_tasks.len() - 1 {
                                assert(new_tasks[k] == old_tasks[k]);
                            }
                        }
                    }
                    assert(self.wf());
                }
                Ok(())
            },
        }
    }
}


/// A partial task update: only the fields that are present are applied.
pub struct UpdateFields {
    pub title: Option<String>,
    pub priority: Option<u8>,
    pub status: Option<String>,
    pub description: Option<String>,
    pub assignee: Option<String>,
    pub notes: Option<String>,
}

/// The mathematical value of a partial update.
#[verifier::ext_equal]
pub ghost struct UpdateFieldsView {
    pub title: Option<Seq<char>>,
    pub priority: Option<u8>,
    pub status: Option<Seq<char>>,
    pub description: Option<Seq<char>>,
    pub assignee: Option<Seq<char>>,
    pub notes: Option<Seq<char>>,
}

impl View for UpdateFields {
    type V = UpdateFieldsView;

    open spec fn view(&self) -> UpdateFieldsView {
        UpdateFieldsView {
            title: opt_view(self.title),
            priority: self.priority,
            status: opt_view(self.status),
            description: opt_view(self.description),
            assignee: opt_view(self.assignee),
            notes: opt_view(self.notes),
        }
    }
}

impl UpdateFields {
    /// No field is present: the update is a no-op.
    pub open spec fn is_empty_v(&self) -> bool {
        self@.title is None && self@.priority is None && self@.status is None
            && self@.description is None && self@.assignee is None && self@.notes is None
    }

    /// An update with no fields set.
    pub fn none() -> (r: UpdateFields)
        ensures
            r.is_empty_v(),
            r@.title is None,
            r@.priority is None,
            r@.status is None,
            r@.description is None,
            r@.assignee is None,
            r@.notes is None,
    {
        UpdateFields {
            title: None,
            priority: None,
            status: None,
            description: None,
            assignee: None,
            notes: None,
        }
    }

    fn is_empty(&self) -> (r: bool)
        ensures
            r == self.is_empty_v(),
    {
        self.title.is_none() && self.priority.is_none() && self.status.is_none()
            && self.description.is_none() && self.assignee.is_none() && self.notes.is_none()
    }
}

/// Membership of a comment in one task's comment list.
pub open spec fn comment_of(task_id: Seq<char>) -> spec_fn(CommentView) -> bool {
    |c: CommentView| c.task_id == task_id
}

/// The task with its tag set replaced and its update stamp bumped.
pub open spec fn with_tags(t: TaskView, tags: Seq<Seq<char>>, stamp: i64) -> TaskView {
    TaskView {
        id: t.id,
        title: t.title,
        description: t.description,
        status: t.status,
        priority: t.priority,
        assignee: t.assignee,
        parent_id: t.parent_id,
        tags: tags,
        created_at: t.created_at,
        updated_at: stamp,
        close_reason: t.close_reason,
        notes: t.notes,
    }
}

/// The task after a partial update: present fields replace the old values,
/// a present status string is parsed, and `updated_at` becomes `stamp`.
pub open spec fn apply_update(t: TaskView, f: UpdateFieldsView, stamp: i64) -> TaskView {
    TaskView {
        id: t.id,
        title: match f.title { Some(x) => x, None => t.title },
        priority: match f.priority { Some(x) => x, None => t.priority },
        status: match f.status {
            Some(x) => match status_of_str(x) { Some(st) => st, None => t.status },
            None => t.status,
        },
        description: match f.description { Some(x) => Some(x), None => t.description },
        assignee: match f.assignee { Some(x) => Some(x), None => t.assignee },
        close_reason: t.close_reason,
        notes: match f.notes { Some(x) => Some(x), None => t.notes },
        parent_id: t.parent_id,
        tags: t.tags,
        created_at: t.created_at,
        updated_at: stamp,
    }
}

impl Store {
    /// Apply a partial update to the task with the given id. An absent
    /// field set is a no-op even for an unknown id; an invalid status is
    /// rejected before any check or write; a missing task is NotFound.
    pub fn update_task(&mut self, id: &str, f: &UpdateFields) -> (r: Result<(), AppError>)
        requires
            old(self).wf(),
            old(self).clock < CLOCK_LIMIT,
        ensures
            final(self).wf(),
            final(self).clock <= NOW_CLAMP || final(self).clock <= old(self).clock + 1,
            match r {
                Ok(()) => if f.is_empty_v() {
                    *final(self) == *old(self)
                } else {
                    &&& has_task_id(old(self).tasks_v(), id@)
                    &&& (f@.status matches Some(sv) ==> status_of_str(sv) is Some)
                    &&& final(self).clock > old(self).clock
                    &&& final(self).tasks_v() == old(self).tasks_v().update(
                        task_index(old(self).tasks_v(), id@),
                        apply_update(
                            task_by_id(old(self).tasks_v(), id@),
                            f@,
                            final(self).clock,
                        ),
                    )
                    &&& final(self).same_but_tasks(old(self))
                },
                Err(e) => *final(self) == *old(self) && match e {
                    AppError::Validation(_) => f@.status matches Some(sv) && status_of_str(sv)
                        is None,
                    AppError::NotFound(_) => !f.is_empty_v() && !has_task_id(
                        old(self).tasks_v(),
                        id@,
                    ) && (f@.status matches Some(sv) ==> status_of_str(sv) is Some),
                    _ => false,
                },
            },
    {
        let st: Option<Status> = match &f.status {
            Some(sv) => match Status::from_str(sv.as_str()) {
                Ok(parsed) => Some(parsed),
                Err(m) => {
                    return Err(AppError::Validation(m));
                },
            },
            None => None,
        };
        if f.is_empty() {
            return Ok(());
        }
        let idx = match self.find_task(id) {
            Some(i) => i,
            None => {
                let mut m = String::new();
                m.append("task not found: ");
                m.append(id);
                return Err(AppError::NotFound(m));
            },
        };
        let ghost old_tasks = self.tasks_v();
        let stamp = self.next_stamp();
        let old_t = self.tasks[idx].duplicate();
        let new_t = Task {
            id: old_t.id,
            title: match &f.title { Some(x) => x.clone(), None => old_t.title },
            priority: match f.priority { Some(x) => x, None => old_t.priority },
            status: match st { Some(x) => x, None => old_t.status },
            description: match &f.description { Some(x) => Some(x.clone()), None => old_t.description },
            assignee: match &f.assignee { Some(x) => Some(x.clone()), None => old_t.assignee },
            close_reason: old_t.close_reason,
            notes: match &f.notes { Some(x) => Some(x.clone()), None => old_t.notes },
            parent_id: old_t.parent_id,
            tags: old_t.tags,
            created_at: old_t.created_at,
            updated_at: stamp,
        };
        self.tasks[idx] = new_t;
        proof {
            let new_tasks = self.tasks_v();
            assert(new_tasks[idx as int] =~= apply_update(old_tasks[idx as int], f@, stamp));
            assert(new_tasks =~= old_tasks.update(
                idx as int,
                apply_update(task_by_id(old_tasks, id@), f@, stamp),
            ));
            self.lemma_restore_wf(old(self), old_tasks, idx as int);
        }
        Ok(())
    }

    /// After one task at `idx` was replaced by a record with the same id,
    /// creation stamp no later than the clock, and update stamp no later
    /// than the clock, the invariant holds again.
    pub(crate) proof fn lemma_restore_wf(&self, prev: &Store, old_tasks: Seq<TaskView>, idx: int)
        requires
            prev.wf(),
            old_tasks == prev.tasks_v(),
            0 <= idx < old_tasks.len(),
            self.tasks_v().len() == old_tasks.len(),
            forall|i: int|
                0 <= i < old_tasks.len() && i != idx ==> self.tasks_v()[i] == old_tasks[i],
            self.tasks_v()[idx].id == old_tasks[idx].id,
            self.tasks_v()[idx].created_at == old_tasks[idx].created_at,
            self.tasks_v()[idx].updated_at <= self.clock,
            self.deps@ == prev.deps@,
            self.comments@ == prev.comments@,
            self.next_comment_id == prev.next_comment_id,
            self.clock >= prev.clock,
        ensures
            self.wf(),
    {
        let new_tasks = self.tasks_v();
        assert forall|i: int| 0 <= i < old_tasks.len() implies (#[trigger] new_tasks[i]).id
            == old_tasks[i].id by {}
        lemma_same_ids(old_tasks, new_tasks);
        assert(unique_ids(new_tasks));
        assert forall|k: int| 0 <= k < self.deps_v().len() implies edge_ok(
            new_tasks,
            #[trigger] self.deps_v()[k],
        ) by {
            assert(edge_ok(old_tasks, self.deps_v()[k]));
        }
        assert forall|k: int| 0 <= k < self.comments_v().len() implies has_task_id(
            new_tasks,
            (#[trigger] self.comments_v()[k]).task_id,
        ) by {
            assert(has_task_id(old_tasks, self.comments_v()[k].task_id));
        }
        assert forall|k: int| 0 <= k < new_tasks.len() implies (
        #[trigger] new_tasks[k]).created_at <= self.clock && new_tasks[k].updated_at
            <= self.clock by {
            assert(old_tasks[k].created_at <= prev.clock);
            if k != idx {
                assert(new_tasks[k] == old_tasks[k]);
            }
        }
    }

    /// Replace the tag set of a task and bump its update stamp. Replacing
    /// the tags of an unknown id changes nothing and is not an error.
    pub fn update_tags(&mut self, id: &str, tags: &Vec<String>) -> (r: Result<(), AppError>)
        requires
            old(self).wf(),
            old(self).clock < CLOCK_LIMIT,
        ensures
            final(self).wf(),
            final(self).clock <= NOW_CLAMP || final(self).clock <= old(self).clock + 1,
            r is Ok,
            if has_task_id(old(self).tasks_v(), id@) {
                &&& final(self).clock > old(self).clock
                &&& final(self).tasks_v() == old(self).tasks_v().update(
                    task_index(old(self).tasks_v(), id@),
                    with_tags(
                        task_by_id(old(self).tasks_v(), id@),
                        str_views(tags@),
                        final(self).clock,
                    ),
                )
                &&& final(self).same_but_tasks(old(self))
            } else {
                *final(self) == *old(self)
            },
    {
        let idx = match self.find_task(id) {
            Some(i) => i,
            None => {
                return Ok(());
            },
        };
        let ghost old_tasks = self.tasks_v();
        let stamp = self.next_stamp();
        let old_t = self.tasks[idx].duplicate();
        let new_t = Task {
            id: old_t.id,
            title: old_t.title,
            description: old_t.description,
            status: old_t.status,
            priority: old_t.priority,
            assignee: old_t.assignee,
            parent_id: old_t.parent_id,
            tags: clone_string_vec(tags),
            created_at: old_t.created_at,
            updated_at: stamp,
            close_reason: old_t.close_reason,
            notes: old_t.notes,
        };
        self.tasks[idx] = new_t;
        proof {
            let new_tasks = self.tasks_v();
            assert(new_tasks[idx as int] =~= with_tags(
                task_by_id(old_tasks, id@),
                str_views(tags@),
                stamp,
            ));
            assert(new_tasks =~= old_tasks.update(
                idx as int,
                with_tags(task_by_id(old_tasks, id@), str_views(tags@), stamp),
            ));
            self.lemma_restore_wf(old(self), old_tasks, idx as int);
        }
        Ok(())
    }

    /// The tag list of a task.
    pub fn get_task_tags(&self, id: &str) -> (r: Result<Vec<String>, AppError>)
        requires
            self.wf(),
        ensures
            match r {
                Ok(v) => has_task_id(self.tasks_v(), id@) && str_views(v@) == task_by_id(
                    self.tasks_v(),
                    id@,
                ).tags,
                Err(e) => !has_task_id(self.tasks_v(), id@) && (e matches AppError::NotFound(_)),
            },
    {
        match self.find_task(id) {
            Some(i) => Ok(clone_string_vec(&self.tasks[i].tags)),
            None => {
                let mut m = String::new();
                m.append("task not found: ");
                m.append(id);
                Err(AppError::NotFound(m))
            },
        }
    }

    /// Append a comment to a task; the store assigns the next comment id
    /// and a fresh creation stamp.
    pub fn add_comment(&mut self, task_id: &str, body: &str) -> (r: Result<Comment, AppError>)
        requires
            old(self).wf(),
            old(self).clock < CLOCK_LIMIT,
            old(self).next_comment_id < i64::MAX,
        ensures
            final(self).wf(),
            final(self).clock <= NOW_CLAMP || final(self).clock <= old(self).clock + 1,
            match r {
                Ok(c) => {
                    &&& has_task_id(old(self).tasks_v(), task_id@)
                    &&& c@.task_id == task_id@
                    &&& c@.body == body@
                    &&& c@.id == old(self).next_comment_id
                    &&& c@.created_at == final(self).clock
                    &&& final(self).clock > old(self).clock
                    &&& final(self).comments_v() == old(self).comments_v().push(c@)
                    &&& final(self).tasks@ == old(self).tasks@
                    &&& final(self).deps@ == old(self).deps@
                    &&& final(self).config@ == old(self).config@
                    &&& final(self).next_comment_id == old(self).next_comment_id + 1
                },
                Err(e) => !has_task_id(old(self).tasks_v(), task_id@) && (e matches
                    AppError::NotFound(_)) && *final(self) == *old(self),
            },
    {
        if self.find_task(task_id).is_none() {
            let mut m = String::new();
            m.append("task not found: ");
            m.append(task_id);
            return Err(AppError::NotFound(m));
        }
        let ghost old_comments = self.comments_v();
        let stamp = self.next_stamp();
        let c = Comment {
            id: self.next_comment_id,
            task_id: task_id.to_owned(),
            body: body.to_owned(),
            created_at: stamp,
        };
        let out = c.duplicate();
        self.next_comment_id = self.next_comment_id + 1;
        self.comments.push(c);
        proof {
            let new_comments = self.comments_v();
            assert(new_comments =~= old_comments.push(CommentView {
                id: old(self).next_comment_id,
                task_id: task_id@,
                body: body@,
                created_at: stamp,
            }));
            assert forall|i: int, j: int|
                #![trigger new_comments[i], new_comments[j]]
                0 <= i < j < new_comments.len() implies new_comments[i].id < new_comments[j].id
                && new_comments[i].created_at <= new_comments[j].created_at by {
                if j < new_comments.len() - 1 {
                    assert(old_comments[i].id < old_comments[j].id);
                } else {
                    assert(old_comments[i].id < old(self).next_comment_id);
                    assert(old_comments[i].created_at <= old(self).clock);
                }
            }
            assert(self.wf());
        }
        Ok(out)
    }

    /// The comments of a task, in creation order.
    pub fn get_comments(&self, task_id: &str) -> (r: Vec<Comment>)
        ensures
            comment_views(r@) == self.comments_v().filter(comment_of(task_id@)),
    {
        let mut out: Vec<Comment> = Vec::new();
        let n = self.comments.len();
        let mut i: usize = 0;
        while i < n
            invariant
                i <= n,
                n == self.comments@.len(),
                comment_views(out@) == self.comments_v().take(i as int).filter(
                    comment_of(task_id@),
                ),
            decreases n - i,
        {
            let ghost prefix = self.comments_v().take(i as int);
            let ghost x = self.comments_v()[i as int];
            let ghost prev_out = comment_views(out@);
            proof {
                assert(self.comments_v().take(i + 1) =~= prefix.push(x));
                lemma_filter_push(prefix, x, comment_of(task_id@));
            }
            if str_eq(self.comments[i].task_id.as_str(), task_id) {
                out.push(self.comments[i].duplicate());
                proof {
                    assert(comment_of(task_id@)(x));
                    assert(comment_views(out@) =~= prev_out.push(x));
                }
            } else {
                proof {
                    assert(!comment_of(task_id@)(x));
                }
            }
            i = i + 1;
        }
        proof {
            assert(self.comments_v().take(n as int) =~= self.comments_v());
        }
        out
    }
}

} // verus!
