//! The task lifecycle: creation with id allocation and epic auto-tagging,
//! claiming, and closing with the open-children guard.

use vstd::prelude::*;
use vstd::string::{StrSliceExecFns, StringExecFns};

use crate::model::{
    clone_string_vec, is_valid_close_reason, opt_view, str_views, validate_close_reason,
    vec_contains_str, AppError, Status, Task, TaskView,
};
use crate::query::child_of;
use crate::seqext::lemma_filter_push;
use crate::clock::NOW_CLAMP;
use crate::store::{
    cfg_lookup, has_task_id, task_by_id, task_index, with_tags, Store, CLOCK_LIMIT,
};
use crate::strutil::{dec_str, dec_u64, hex4, hex4_str, str_eq};

verus! {

/// Relies on `uuid::Uuid::new_v4` and `Uuid::as_u128`: a fresh random
/// 128-bit value. Nothing is promised of it; id generation checks
/// freshness itself.
#[verifier::external_body]
fn random_u128() -> u128 {
    uuid::Uuid::new_v4().as_u128()
}

/// How many random draws id generation tries before giving up.
pub const ID_ATTEMPTS: u32 = 16;

/// The number of containment children of `pid`.
pub open spec fn child_count(tasks: Seq<TaskView>, pid: Seq<char>) -> int {
    tasks.filter(child_of(pid)).len() as int
}

/// The id of the next child of `pid`: the parent id, a dot, and the
/// one-based index among its children.
pub open spec fn child_id_spec(tasks: Seq<TaskView>, pid: Seq<char>) -> Seq<char> {
    pid + "."@ + dec_str(child_count(tasks, pid) + 1)
}

/// Some task is an unfinished containment child of `pid`.
pub open spec fn open_child_exists(tasks: Seq<TaskView>, pid: Seq<char>) -> bool {
    exists|i: int|
        0 <= i < tasks.len() && (#[trigger] tasks[i]).parent_id == Some(pid) && tasks[i].status
            != Status::Done
}

/// The task after a successful close: Done, with the given close reason and
/// a fresh update stamp.
pub open spec fn closed_view(t: TaskView, reason: Seq<char>, stamp: i64) -> TaskView {
    TaskView {
        id: t.id,
        title: t.title,
        description: t.description,
        status: Status::Done,
        priority: t.priority,
        assignee: t.assignee,
        parent_id: t.parent_id,
        tags: t.tags,
        created_at: t.created_at,
        updated_at: stamp,
        close_reason: Some(reason),
        notes: t.notes,
    }
}

/// The task after a claim: InProgress, with the given assignee and a fresh
/// update stamp.
pub open spec fn claimed_view(t: TaskView, assignee: Seq<char>, stamp: i64) -> TaskView {
    TaskView {
        id: t.id,
        title: t.title,
        description: t.description,
        status: Status::InProgress,
        priority: t.priority,
        assignee: Some(assignee),
        parent_id: t.parent_id,
        tags: t.tags,
        created_at: t.created_at,
        updated_at: stamp,
        close_reason: t.close_reason,
        notes: t.notes,
    }
}

impl Store {
    /// The configured id prefix, defaulting to "tk".
    pub open spec fn id_prefix(&self) -> Seq<char> {
        match cfg_lookup(self.cfg_v(), "prefix"@) {
            Some(p) => p,
            None => "tk"@,
        }
    }

    /// Allocate a fresh top-level id of the shape `<prefix>-<4 hex>` from a
    /// random draw, retrying on collision a bounded number of times. Failure
    /// is owed only to collisions: on a store holding no id of that shape,
    /// every draw succeeds.
    pub fn generate_id(&self) -> (r: Result<String, AppError>)
        requires
            self.wf(),
        ensures
            match r {
                Ok(id) => !has_task_id(self.tasks_v(), id@) && exists|v: u128|
                    id@ == self.id_prefix() + "-"@ + hex4(v),
                Err(e) => (e matches AppError::Internal(_)) && exists|v: u128|
                    has_task_id(self.tasks_v(), self.id_prefix() + "-"@ + hex4(v)),
            },
    {
        let prefix: String = match self.get_config("prefix") {
            Some(p) => p,
            None => "tk".to_owned(),
        };
        let mut attempts: u32 = 0;
        while attempts < ID_ATTEMPTS
            invariant
                self.wf(),
                prefix@ == self.id_prefix(),
                attempts > 0 ==> exists|v: u128|
                    has_task_id(self.tasks_v(), self.id_prefix() + "-"@ + hex4(v)),
            decreases ID_ATTEMPTS - attempts,
        {
            let v = random_u128();
            let mut id = prefix.clone();
            id.append("-");
            let hex = hex4_str(v);
            id.append(hex.as_str());
            proof {
                assert(id@ == self.id_prefix() + "-"@ + hex4(v));
            }
            if self.find_task(id.as_str()).is_none() {
                return Ok(id);
            }
            proof {
                assert(has_task_id(self.tasks_v(), self.id_prefix() + "-"@ + hex4(v)));
            }
            attempts = attempts + 1;
        }
        Err(AppError::Internal("could not allocate a fresh task id".to_owned()))
    }

    /// The id for the next child of `parent_id`: the parent id, a dot, and
    /// the one-based index among its existing children.
    pub fn generate_child_id(&self, parent_id: &str) -> (r: String)
        requires
            self.wf(),
            self.tasks@.len() < u64::MAX,
        ensures
            r@ == child_id_spec(self.tasks_v(), parent_id@),
    {
        let n = self.tasks.len();
        let mut count: u64 = 0;
        let mut i: usize = 0;
        while i < n
            invariant
                i <= n,
                n == self.tasks@.len(),
                count <= i,
                count == self.tasks_v().take(i as int).filter(child_of(parent_id@)).len(),
            decreases n - i,
        {
            let ghost prefix = self.tasks_v().take(i as int);
            let ghost x = self.tasks_v()[i as int];
            proof {
                assert(self.tasks_v().take(i + 1) =~= prefix.push(x));
                lemma_filter_push(prefix, x, child_of(parent_id@));
            }
            let is_child = match &self.tasks[i].parent_id {
                Some(p) => str_eq(p.as_str(), parent_id),
                None => false,
            };
            if is_child {
                proof {
                    assert(child_of(parent_id@)(x));
                }
                count = count + 1;
            } else {
                proof {
                    assert(!child_of(parent_id@)(x));
                }
            }
            i = i + 1;
        }
        proof {
            assert(self.tasks_v().take(n as int) =~= self.tasks_v());
        }
        let mut id = parent_id.to_owned();
        id.append(".");
        let num = dec_u64(count + 1);
        id.append(num.as_str());
        proof {
            assert(id@ == child_id_spec(self.tasks_v(), parent_id@));
        }
        id
    }

    /// Create a task: validate the title and the parent, allocate an id,
    /// stamp and insert the record, then auto-tag the parent as an epic if
    /// it was not one already.
    pub fn create(
        &mut self,
        title: &str,
        priority: u8,
        description: Option<&str>,
        tags: &Vec<String>,
        parent: Option<&str>,
    ) -> (r: Result<Task, AppError>)
        requires
            old(self).wf(),
            old(self).clock < CLOCK_LIMIT - 1,
            old(self).tasks@.len() < u64::MAX,
        ensures
            final(self).wf(),
            final(self).clock <= NOW_CLAMP + 1 || final(self).clock <= old(self).clock + 2,
            match r {
                Ok(t) => {
                    &&& title@.len() > 0
                    &&& t@.title == title@
                    &&& t@.priority == priority
                    &&& t@.description == (match description {
                        Some(d) => Some(d@),
                        None => None,
                    })
                    &&& t@.status == Status::Open
                    &&& t@.assignee is None
                    &&& t@.close_reason is None
                    &&& t@.notes is None
                    &&& t@.tags == str_views(tags@)
                    &&& t@.created_at == t@.updated_at
                    &&& t@.created_at > old(self).clock
                    &&& !has_task_id(old(self).tasks_v(), t@.id)
                    &&& has_task_id(final(self).tasks_v(), t@.id)
                    &&& final(self).same_but_tasks(old(self))
                    &&& match parent {
                        Some(pid) => {
                            &&& has_task_id(old(self).tasks_v(), pid@)
                            &&& t@.parent_id == Some(pid@)
                            &&& t@.id == child_id_spec(old(self).tasks_v(), pid@)
                            &&& {
                                let with_new = old(self).tasks_v().push(t@);
                                let pi = task_index(old(self).tasks_v(), pid@);
                                let pt = task_by_id(old(self).tasks_v(), pid@);
                                if pt.tags.contains("epic"@) {
                                    final(self).tasks_v() == with_new
                                } else {
                                    final(self).tasks_v() == with_new.update(
                                        pi,
                                        with_tags(
                                            pt,
                                            pt.tags.push("epic"@),
                                            final(self).clock,
                                        ),
                                    )
                                }
                            }
                            &&& task_by_id(final(self).tasks_v(), pid@).tags == (if task_by_id(
                                old(self).tasks_v(),
                                pid@,
                            ).tags.contains("epic"@) {
                                task_by_id(old(self).tasks_v(), pid@).tags
                            } else {
                                task_by_id(old(self).tasks_v(), pid@).tags.push("epic"@)
                            })
                            &&& task_by_id(final(self).tasks_v(), pid@).tags.contains("epic"@)
                        },
                        None => {
                            &&& t@.parent_id is None
                            &&& final(self).tasks_v() == old(self).tasks_v().push(t@)
                        },
                    }
                },
                Err(e) => *final(self) == *old(self) && match e {
                    AppError::Validation(_) => title@.len() == 0,
                    AppError::NotFound(_) => title@.len() > 0 && (parent matches Some(pid)
                        && !has_task_id(old(self).tasks_v(), pid@)),
                    AppError::Internal(_) => title@.len() > 0 && match parent {
                        Some(pid) => has_task_id(old(self).tasks_v(), pid@) && has_task_id(
                            old(self).tasks_v(),
                            child_id_spec(old(self).tasks_v(), pid@),
                        ),
                        None => exists|v: u128|
                            has_task_id(
                                old(self).tasks_v(),
                                old(self).id_prefix() + "-"@ + hex4(v),
                            ),
                    },
                    AppError::Conflict(_) => false,
                },
            },
    {
        if title.unicode_len() == 0 {
            return Err(AppError::Validation("title must not be empty".to_owned()));
        }
        let id: String = match parent {
            Some(pid) => {
                if self.find_task(pid).is_none() {
                    let mut m = String::new();
                    m.append("parent task not found: ");
                    m.append(pid);
                    return Err(AppError::NotFound(m));
                }
                self.generate_child_id(pid)
            },
            None => {
                match self.generate_id() {
                    Ok(v) => v,
                    Err(e) => {
                        return Err(AppError::Internal(e.message().clone()));
                    },
                }
            },
        };
        if self.find_task(id.as_str()).is_some() {
            let mut m = String::new();
            m.append("task already exists: ");
            m.append(id.as_str());
            return Err(AppError::Internal(m));
        }
        let ghost old_tasks = self.tasks_v();
        let stamp = self.next_stamp();
        let t = Task {
            id,
            title: title.to_owned(),
            description: match description {
                Some(d) => Some(d.to_owned()),
                None => None,
            },
            status: Status::Open,
            priority,
            assignee: None,
            parent_id: match parent {
                Some(p) => Some(p.to_owned()),
                None => None,
            },
            tags: clone_string_vec(tags),
            created_at: stamp,
            updated_at: stamp,
            close_reason: None,
            notes: None,
        };
        let out = t.duplicate();
        let ghost tv = t@;
        match self.insert_task(t) {
            Ok(()) => {},
            Err(_) => {
                proof {
                    assert(false);
                }
                return Err(AppError::Internal("task already exists".to_owned()));
            },
        }
        let ghost with_new = old_tasks.push(tv);
        if let Some(pid) = parent {
            proof {
                let pi = task_index(old_tasks, pid@);
                assert(0 <= pi < old_tasks.len() && old_tasks[pi].id == pid@);
                assert(with_new[pi].id == pid@);
                crate::store::lemma_task_index_unique(with_new, pid@, pi);
            }
            let ptags = match self.get_task_tags(pid) {
                Ok(v) => v,
                Err(_) => {
                    proof {
                        assert(false);
                    }
                    return Err(AppError::Internal("parent task not found".to_owned()));
                },
            };
            if !vec_contains_str(&ptags, "epic") {
                let mut newtags = ptags;
                newtags.push("epic".to_owned());
                proof {
                    assert(str_views(newtags@) =~= task_by_id(old_tasks, pid@).tags.push(
                        "epic"@,
                    ));
                }
                match self.update_tags(pid, &newtags) {
                    Ok(()) => {},
                    Err(_) => {
                        proof {
                            assert(false);
                        }
                        return Err(AppError::Internal("parent task not found".to_owned()));
                    },
                }
                proof {
                    let pi = task_index(old_tasks, pid@);
                    let pt = task_by_id(old_tasks, pid@);
                    assert(self.tasks_v() == with_new.update(
                        pi,
                        with_tags(pt, pt.tags.push("epic"@), self.clock),
                    ));
                    crate::store::lemma_task_index_unique(self.tasks_v(), pid@, pi);
                    assert(task_by_id(self.tasks_v(), pid@).tags == pt.tags.push("epic"@));
                    assert(task_by_id(self.tasks_v(), pid@).tags.contains("epic"@)) by {
                        assert(pt.tags.push("epic"@).last() == "epic"@);
                    }
                    assert(has_task_id(self.tasks_v(), tv.id)) by {
                        assert(self.tasks_v()[old_tasks.len() as int].id == tv.id);
                    }
                }
            } else {
                proof {
                    let pi = task_index(old_tasks, pid@);
                    let pt = task_by_id(old_tasks, pid@);
                    assert(task_by_id(self.tasks_v(), pid@) == pt);
                    assert(pt.tags.contains("epic"@)) by {
                        let j = choose|j: int|
                            0 <= j < ptags@.len() && (#[trigger] str_views(ptags@)[j])
                                == "epic"@;
                        assert(pt.tags[j] == "epic"@);
                    }
                    assert(has_task_id(self.tasks_v(), tv.id)) by {
                        assert(self.tasks_v()[old_tasks.len() as int].id == tv.id);
                    }
                }
            }
        } else {
            proof {
                assert(has_task_id(self.tasks_v(), tv.id)) by {
                    assert(self.tasks_v()[old_tasks.len() as int].id == tv.id);
                }
            }
        }
        Ok(out)
    }

    /// Claim a task: force its status to InProgress and set the assignee,
    /// defaulting to the automated actor "agent".
    pub fn claim(&mut self, id: &str, assignee: Option<&str>) -> (r: Result<(), AppError>)
        requires
            old(self).wf(),
            old(self).clock < CLOCK_LIMIT,
        ensures
            final(self).wf(),
            final(self).clock <= NOW_CLAMP || final(self).clock <= old(self).clock + 1,
            match r {
                Ok(()) => {
                    &&& has_task_id(old(self).tasks_v(), id@)
                    &&& final(self).clock > old(self).clock
                    &&& final(self).tasks_v() == old(self).tasks_v().update(
                        task_index(old(self).tasks_v(), id@),
                        claimed_view(
                            task_by_id(old(self).tasks_v(), id@),
                            match assignee {
                                Some(a) => a@,
                                None => "agent"@,
                            },
                            final(self).clock,
                        ),
                    )
                    &&& final(self).same_but_tasks(old(self))
                },
                Err(e) => !has_task_id(old(self).tasks_v(), id@) && (e matches
                    AppError::NotFound(_)) && *final(self) == *old(self),
            },
    {
        let idx = match self.find_task(id) {
            Some(i) => i,
            None => {
                let mut m = String::new();
                m.append("task not found: ");
                m.append(id);
                return Err(AppError::NotFound(m));
            },
        };
        let ghost old_tasks = self.tasks_v();
        let stamp = self.next_stamp();
        let old_t = self.tasks[idx].duplicate();
        let who: String = match assignee {
            Some(a) => a.to_owned(),
            None => "agent".to_owned(),
        };
        let new_t = Task {
            id: old_t.id,
            title: old_t.title,
            description: old_t.description,
            status: Status::InProgress,
            priority: old_t.priority,
            assignee: Some(who),
            parent_id: old_t.parent_id,
            tags: old_t.tags,
            created_at: old_t.created_at,
            updated_at: stamp,
            close_reason: old_t.close_reason,
            notes: old_t.notes,
        };
        self.tasks[idx] = new_t;
        proof {
            let expect = claimed_view(
                task_by_id(old_tasks, id@),
                match assignee {
                    Some(a) => a@,
                    None => "agent"@,
                },
                stamp,
            );
            assert(self.tasks_v()[idx as int] =~= expect);
            assert(self.tasks_v() =~= old_tasks.update(idx as int, expect));
            self.lemma_restore_wf(old(self), old_tasks, idx as int);
        }
        Ok(())
    }

    /// Close a task. The reason must come from the fixed enumeration; a
    /// parent whose containment children are not all Done is refused unless
    /// `force` is set; on success the status becomes Done, the reason
    /// (default "done") is recorded, and an optional comment is appended
    /// after the close.
    pub fn close(
        &mut self,
        id: &str,
        reason: Option<&str>,
        comment: Option<&str>,
        force: bool,
    ) -> (r: Result<(), AppError>)
        requires
            old(self).wf(),
            old(self).clock < CLOCK_LIMIT - 1,
            old(self).next_comment_id < i64::MAX,
        ensures
            final(self).wf(),
            final(self).clock <= NOW_CLAMP + 1 || final(self).clock <= old(self).clock + 2,
            match r {
                Ok(()) => {
                    &&& (reason matches Some(rs) ==> is_valid_close_reason(rs@))
                    &&& has_task_id(old(self).tasks_v(), id@)
                    &&& (force || !open_child_exists(old(self).tasks_v(), id@))
                    &&& final(self).tasks_v() == old(self).tasks_v().update(
                        task_index(old(self).tasks_v(), id@),
                        closed_view(
                            task_by_id(old(self).tasks_v(), id@),
                            match reason {
                                Some(rs) => rs@,
                                None => "done"@,
                            },
                            task_by_id(final(self).tasks_v(), id@).updated_at,
                        ),
                    )
                    &&& task_by_id(final(self).tasks_v(), id@).updated_at > old(self).clock
                    &&& task_by_id(final(self).tasks_v(), id@).status == Status::Done
                    &&& match comment {
                        Some(b) => {
                            &&& final(self).comments_v() == old(self).comments_v().push(
                                (crate::model::CommentView {
                                    id: old(self).next_comment_id,
                                    task_id: id@,
                                    body: b@,
                                    created_at: final(self).clock,
                                }),
                            )
                            &&& final(self).next_comment_id == old(self).next_comment_id + 1
                        },
                        None => {
                            &&& final(self).comments@ == old(self).comments@
                            &&& final(self).next_comment_id == old(self).next_comment_id
                        },
                    }
                    &&& final(self).deps@ == old(self).deps@
                    &&& final(self).config@ == old(self).config@
                    &&& final(self).clock > old(self).clock
                },
                Err(e) => *final(self) == *old(self) && match e {
                    AppError::Validation(_) => reason matches Some(rs)
                        && !is_valid_close_reason(rs@),
                    AppError::NotFound(_) => (reason matches Some(rs)
                        ==> is_valid_close_reason(rs@)) && !has_task_id(
                        old(self).tasks_v(),
                        id@,
                    ),
                    AppError::Conflict(_) => (reason matches Some(rs) ==> is_valid_close_reason(
                        rs@,
                    )) && has_task_id(old(self).tasks_v(), id@) && !force && open_child_exists(
                        old(self).tasks_v(),
                        id@,
                    ),
                    AppError::Internal(_) => false,
                },
            },
    {
        if let Some(rs) = reason {
            if let Err(m) = validate_close_reason(rs) {
                return Err(AppError::Validation(m));
            }
        }
        let idx = match self.find_task(id) {
            Some(i) => i,
            None => {
                let mut m = String::new();
                m.append("task not found: ");
                m.append(id);
                return Err(AppError::NotFound(m));
            },
        };
        if !force {
            let n = self.tasks.len();
            let mut found_open: bool = false;
            let mut names = String::new();
            let mut count: u64 = 0;
            let mut i: usize = 0;
            while i < n
                invariant
                    i <= n,
                    n == self.tasks@.len(),
                    found_open == exists|j: int|
                        0 <= j < i && (#[trigger] self.tasks_v()[j]).parent_id == Some(id@)
                            && self.tasks_v()[j].status != Status::Done,
                decreases n - i,
            {
                let is_open_child = match &self.tasks[i].parent_id {
                    Some(p) => str_eq(p.as_str(), id) && !(self.tasks[i].status
                        == Status::Done),
                    None => false,
                };
                if is_open_child {
                    if count > 0 {
                        names.append(", ");
                    }
                    names.append(self.tasks[i].id.as_str());
                    names.append(" (");
                    names.append(self.tasks[i].title.as_str());
                    names.append(")");
                    if count < u64::MAX {
                        count = count + 1;
                    }
                    found_open = true;
                    proof {
                        assert(self.tasks_v()[i as int].parent_id == Some(id@)
                            && self.tasks_v()[i as int].status != Status::Done);
                    }
                }
                i = i + 1;
            }
            if found_open {
                let mut m = String::new();
                m.append("task ");
                m.append(id);
                m.append(" has ");
                let cnt = dec_u64(count);
                m.append(cnt.as_str());
                m.append(" open dependent(s): ");
                m.append(names.as_str());
                m.append(". use --force to close anyway");
                return Err(AppError::Conflict(m));
            }
        }
        let ghost old_tasks = self.tasks_v();
        let stamp = self.next_stamp();
        let old_t = self.tasks[idx].duplicate();
        let reason_s: String = match reason {
            Some(rs) => rs.to_owned(),
            None => "done".to_owned(),
        };
        let new_t = Task {
            id: old_t.id,
            title: old_t.title,
            description: old_t.description,
            status: Status::Done,
            priority: old_t.priority,
            assignee: old_t.assignee,
            parent_id: old_t.parent_id,
            tags: old_t.tags,
            created_at: old_t.created_at,
            updated_at: stamp,
            close_reason: Some(reason_s),
            notes: old_t.notes,
        };
        self.tasks[idx] = new_t;
        proof {
            let expect = closed_view(
                task_by_id(old_tasks, id@),
                match reason {
                    Some(rs) => rs@,
                    None => "done"@,
                },
                stamp,
            );
            assert(self.tasks_v()[idx as int] =~= expect);
            assert(self.tasks_v() =~= old_tasks.update(idx as int, expect));
            self.lemma_restore_wf(old(self), old_tasks, idx as int);
            crate::store::lemma_task_index_unique(self.tasks_v(), id@, idx as int);
        }
        if let Some(b) = comment {
            let ghost mid_tasks = self.tasks_v();
            proof {
                assert(has_task_id(mid_tasks, id@));
            }
            match self.add_comment(id, b) {
                Ok(_) => {},
                Err(_) => {
                    proof {
                        assert(false);
                    }
                    return Err(AppError::Internal("task not found".to_owned()));
                },
            }
            proof {
                crate::store::lemma_task_index_unique(self.tasks_v(), id@, idx as int);
            }
        }
        Ok(())
    }
}


/// Tags after adding each of `adds` in order, skipping ones already there.
pub open spec fn add_all(cur: Seq<Seq<char>>, adds: Seq<Seq<char>>) -> Seq<Seq<char>>
    decreases adds.len(),
{
    if adds.len() == 0 {
        cur
    } else {
        add_all(
            if cur.contains(adds[0]) {
                cur
            } else {
                cur.push(adds[0])
            },
            adds.drop_first(),
        )
    }
}

/// Not a member of the removal list.
pub open spec fn not_in(rems: Seq<Seq<char>>) -> spec_fn(Seq<char>) -> bool {
    |t: Seq<char>| !rems.contains(t)
}

/// The tag set after an update: additions first, then removals, so a tag
/// present in both lists ends up removed.
pub open spec fn tags_after(
    cur: Seq<Seq<char>>,
    adds: Option<Seq<Seq<char>>>,
    rems: Option<Seq<Seq<char>>>,
) -> Seq<Seq<char>> {
    let added = match adds {
        Some(a) => add_all(cur, a),
        None => cur,
    };
    match rems {
        Some(rv) => added.filter(not_in(rv)),
        None => added,
    }
}

/// One step of `add_all` from the right.
proof fn lemma_add_all_push(cur: Seq<Seq<char>>, adds: Seq<Seq<char>>, x: Seq<char>)
    ensures
        add_all(cur, adds.push(x)) == (if add_all(cur, adds).contains(x) {
            add_all(cur, adds)
        } else {
            add_all(cur, adds).push(x)
        }),
    decreases adds.len(),
{
    if adds.len() == 0 {
        assert(adds.push(x).drop_first() =~= adds);
        assert(adds.push(x)[0] == x);
        let step = if cur.contains(x) {
            cur
        } else {
            cur.push(x)
        };
        assert(add_all(cur, adds.push(x)) == add_all(step, adds.push(x).drop_first()));
        assert(add_all(step, adds) == step);
        assert(add_all(cur, adds) == cur);
    } else {
        let step = if cur.contains(adds[0]) {
            cur
        } else {
            cur.push(adds[0])
        };
        assert(adds.push(x)[0] == adds[0]);
        assert(adds.push(x).drop_first() =~= adds.drop_first().push(x));
        assert(add_all(cur, adds.push(x)) == add_all(step, adds.drop_first().push(x)));
        assert(add_all(cur, adds) == add_all(step, adds.drop_first()));
        lemma_add_all_push(step, adds.drop_first(), x);
    }
}

impl Store {
    /// Apply a field update plus optional tag additions and removals to a
    /// task: fields first, then added tags (skipping duplicates), then
    /// removed tags, each step bumping the update stamp.
    pub fn update(
        &mut self,
        id: &str,
        f: &crate::store::UpdateFields,
        add_tags: Option<&Vec<String>>,
        remove_tags: Option<&Vec<String>>,
    ) -> (r: Result<(), AppError>)
        requires
            old(self).wf(),
            old(self).clock < CLOCK_LIMIT - 1,
        ensures
            final(self).wf(),
            final(self).clock <= NOW_CLAMP + 1 || final(self).clock <= old(self).clock + 2,
            match r {
                Ok(()) => if f.is_empty_v() && add_tags is None && remove_tags is None {
                    *final(self) == *old(self)
                } else {
                    let idx = task_index(old(self).tasks_v(), id@);
                    let told = task_by_id(old(self).tasks_v(), id@);
                    let tnew = final(self).tasks_v()[idx];
                    &&& has_task_id(old(self).tasks_v(), id@)
                    &&& (f@.status matches Some(sv) ==> crate::model::status_of_str(sv)
                        is Some)
                    &&& final(self).clock > old(self).clock
                    &&& final(self).same_but_tasks(old(self))
                    &&& final(self).tasks_v().len() == old(self).tasks_v().len()
                    &&& forall|j: int|
                        0 <= j < old(self).tasks_v().len() && j != idx
                            ==> final(self).tasks_v()[j] == old(self).tasks_v()[j]
                    &&& tnew.id == told.id
                    &&& tnew.created_at == told.created_at
                    &&& tnew.parent_id == told.parent_id
                    &&& tnew.updated_at == final(self).clock
                    &&& tnew.title == (match f@.title {
                        Some(x) => x,
                        None => told.title,
                    })
                    &&& tnew.priority == (match f@.priority {
                        Some(x) => x,
                        None => told.priority,
                    })
                    &&& tnew.status == (match f@.status {
                        Some(x) => match crate::model::status_of_str(x) {
                            Some(st) => st,
                            None => told.status,
                        },
                        None => told.status,
                    })
                    &&& tnew.description == (match f@.description {
                        Some(x) => Some(x),
                        None => told.description,
                    })
                    &&& tnew.assignee == (match f@.assignee {
                        Some(x) => Some(x),
                        None => told.assignee,
                    })
                    &&& tnew.close_reason == told.close_reason
                    &&& tnew.notes == (match f@.notes {
                        Some(x) => Some(x),
                        None => told.notes,
                    })
                    &&& tnew.tags == tags_after(
                        told.tags,
                        match add_tags {
                            Some(a) => Some(str_views(a@)),
                            None => None,
                        },
                        match remove_tags {
                            Some(rv) => Some(str_views(rv@)),
                            None => None,
                        },
                    )
                },
                Err(e) => *final(self) == *old(self) && match e {
                    AppError::Validation(_) => f@.status matches Some(sv)
                        && crate::model::status_of_str(sv) is None,
                    AppError::NotFound(_) => !(f.is_empty_v() && add_tags is None
                        && remove_tags is None) && !has_task_id(old(self).tasks_v(), id@)
                        && (f@.status matches Some(sv) ==> crate::model::status_of_str(sv)
                        is Some),
                    _ => false,
                },
            },
    {
        let ghost old_tasks = old(self).tasks_v();
        match self.update_task(id, f) {
            Ok(()) => {},
            Err(e) => {
                return Err(e);
            },
        }
        if add_tags.is_none() && remove_tags.is_none() {
            return Ok(());
        }
        let mut cur: Vec<String> = match self.get_task_tags(id) {
            Ok(v) => v,
            Err(e) => {
                proof {
                    if !f.is_empty_v() {
                        assert(false);
                    }
                }
                return Err(e);
            },
        };
        let ghost idx = task_index(old_tasks, id@);
        let ghost told = task_by_id(old_tasks, id@);
        let ghost mid_tasks = self.tasks_v();
        proof {
            if !f.is_empty_v() {
                assert(mid_tasks[idx].id == id@);
                crate::store::lemma_task_index_unique(mid_tasks, id@, idx);
            } else {
                crate::store::lemma_task_index_unique(mid_tasks, id@, idx);
            }
            assert(str_views(cur@) == task_by_id(mid_tasks, id@).tags);
            assert(task_by_id(mid_tasks, id@).tags == told.tags);
        }
        if let Some(adds) = add_tags {
            let n = adds.len();
            let mut i: usize = 0;
            while i < n
                invariant
                    i <= n,
                    n == adds@.len(),
                    str_views(cur@) == add_all(told.tags, str_views(adds@).take(i as int)),
                decreases n - i,
            {
                proof {
                    assert(str_views(adds@).take(i + 1) =~= str_views(adds@).take(
                        i as int,
                    ).push(adds@[i as int]@));
                    lemma_add_all_push(told.tags, str_views(adds@).take(i as int), adds@[
                        i as int]@);
                }
                if !vec_contains_str(&cur, adds[i].as_str()) {
                    let ghost prev = str_views(cur@);
                    cur.push(adds[i].clone());
                    proof {
                        assert(str_views(cur@) =~= prev.push(adds@[i as int]@));
                    }
                }
                i = i + 1;
            }
            proof {
                assert(str_views(adds@).take(n as int) =~= str_views(adds@));
            }
        }
        let newtags: Vec<String> = match remove_tags {
            Some(rems) => {
                let ghost added = str_views(cur@);
                let mut kept: Vec<String> = Vec::new();
                let n = cur.len();
                let mut i: usize = 0;
                while i < n
                    invariant
                        i <= n,
                        n == cur@.len(),
                        added == str_views(cur@),
                        str_views(kept@) == added.take(i as int).filter(
                            not_in(str_views(rems@)),
                        ),
                    decreases n - i,
                {
                    let ghost prefix = added.take(i as int);
                    let ghost x = added[i as int];
                    let ghost prev = str_views(kept@);
                    proof {
                        assert(added.take(i + 1) =~= prefix.push(x));
                        lemma_filter_push(prefix, x, not_in(str_views(rems@)));
                    }
                    if !vec_contains_str(rems, cur[i].as_str()) {
                        kept.push(cur[i].clone());
                        proof {
                            assert(not_in(str_views(rems@))(x));
                            assert(str_views(kept@) =~= prev.push(x));
                        }
                    } else {
                        proof {
                            assert(!not_in(str_views(rems@))(x));
                        }
                    }
                    i = i + 1;
                }
                proof {
                    assert(added.take(n as int) =~= added);
                }
                kept
            },
            None => cur,
        };
        proof {
            assert(str_views(newtags@) == tags_after(
                told.tags,
                match add_tags {
                    Some(a) => Some(str_views(a@)),
                    None => None,
                },
                match remove_tags {
                    Some(rv) => Some(str_views(rv@)),
                    None => None,
                },
            ));
        }
        match self.update_tags(id, &newtags) {
            Ok(()) => {},
            Err(_) => {
                proof {
                    assert(false);
                }
                return Err(AppError::Internal("task not found".to_owned()));
            },
        }
        proof {
            crate::store::lemma_task_index_unique(self.tasks_v(), id@, idx);
        }
        Ok(())
    }
}

} // verus!
