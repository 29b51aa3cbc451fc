//! Ordered views over the store: the executable sorts whose results are
//! pinned to the specification-level insertion sort.

use vstd::prelude::*;
use vstd::string::{StrSliceExecFns, StringExecFns};

use crate::model::{
    opt_view, status_str, task_views, vec_contains_str, Status, Task, TaskView,
};
use crate::seqext::lemma_filter_push;
use crate::sortspec::{insert_sorted, lemma_insert_sorted_position, sort_by_spec};
use crate::store::{task_le, task_le_f, Store};
use crate::strutil::{ascii_lower, contains_sub, is_substring, lex_le, lex_leq, lower_str, str_eq};

verus! {

/// Compare two tasks by the system-wide listing order.
fn task_le_exec(a: &Task, b: &Task) -> (r: bool)
    ensures
        r == task_le(a@, b@),
{
    a.priority < b.priority || (a.priority == b.priority && a.created_at <= b.created_at)
}

/// Insert a task into a run sorted by the listing order.
fn insert_task_sorted(out: &mut Vec<Task>, t: Task)
    ensures
        task_views(final(out)@) == insert_sorted(t@, task_views(old(out)@), task_le_f()),
{
    let ghost olds = task_views(out@);
    let ghost tv = t@;
    let mut j: usize = 0;
    while j < out.len() && task_le_exec(&out[j], &t)
        invariant
            j <= out@.len(),
            olds == task_views(out@),
            tv == t@,
            forall|k: int| 0 <= k < j ==> task_le(#[trigger] olds[k], tv),
        decreases out@.len() - j,
    {
        j = j + 1;
    }
    proof {
        lemma_insert_sorted_position(tv, olds, task_le_f(), j as int);
    }
    out.insert(j, t);
    proof {
        assert(task_views(out@) =~= olds.take(j as int) + seq![tv] + olds.skip(j as int));
    }
}

/// Sort tasks by the system-wide listing order: priority ascending, ties by
/// creation stamp ascending.
pub fn sort_tasks(v: &Vec<Task>) -> (r: Vec<Task>)
    ensures
        task_views(r@) == sort_by_spec(task_views(v@), task_le_f()),
{
    let mut out: Vec<Task> = Vec::new();
    let mut i: usize = 0;
    while i < v.len()
        invariant
            i <= v@.len(),
            task_views(out@) == sort_by_spec(task_views(v@.take(i as int)), task_le_f()),
        decreases v@.len() - i,
    {
        proof {
            assert(task_views(v@.take(i + 1)).drop_last() =~= task_views(v@.take(i as int)));
            assert(task_views(v@.take(i + 1)).last() == v@[i as int]@);
        }
        insert_task_sorted(&mut out, v[i].duplicate());
        i = i + 1;
    }
    proof {
        assert(v@.take(v@.len() as int) =~= v@);
    }
    out
}


/// A conjunction of optional predicates over tasks: the typed filter every
/// list-like read takes. Unless a status is asked for, Done tasks are
/// excluded when `include_done` is false.
pub struct TaskFilter {
    pub include_done: bool,
    pub status: Option<String>,
    pub priority: Option<u8>,
    pub tag: Option<String>,
    pub parent: Option<String>,
    pub search: Option<String>,
}

/// The mathematical value of a task filter.
#[verifier::ext_equal]
pub ghost struct TaskFilterView {
    pub include_done: bool,
    pub status: Option<Seq<char>>,
    pub priority: Option<u8>,
    pub tag: Option<Seq<char>>,
    pub parent: Option<Seq<char>>,
    pub search: Option<Seq<char>>,
}

impl View for TaskFilter {
    type V = TaskFilterView;

    open spec fn view(&self) -> TaskFilterView {
        TaskFilterView {
            include_done: self.include_done,
            status: opt_view(self.status),
            priority: self.priority,
            tag: opt_view(self.tag),
            parent: opt_view(self.parent),
            search: opt_view(self.search),
        }
    }
}

impl TaskFilter {
    /// A filter that matches every task except, by default, Done ones.
    pub fn open_tasks() -> (r: TaskFilter)
        ensures
            r@ == (TaskFilterView {
                include_done: false,
                status: None,
                priority: None,
                tag: None,
                parent: None,
                search: None,
            }),
    {
        TaskFilter {
            include_done: false,
            status: None,
            priority: None,
            tag: None,
            parent: None,
            search: None,
        }
    }
}

/// Whether a task passes every predicate of the filter. A status filter is
/// compared against the canonical status spelling; a tag filter asks for
/// exact membership; a search filter asks for a case-insensitive substring
/// of the title.
pub open spec fn matches_filter(t: TaskView, f: TaskFilterView) -> bool {
    &&& match f.status {
        Some(s) => status_str(t.status) == s,
        None => f.include_done || t.status != Status::Done,
    }
    &&& match f.priority {
        Some(p) => t.priority == p,
        None => true,
    }
    &&& match f.tag {
        Some(tg) => t.tags.contains(tg),
        None => true,
    }
    &&& match f.parent {
        Some(p) => t.parent_id == Some(p),
        None => true,
    }
    &&& match f.search {
        Some(q) => is_substring(ascii_lower(q), ascii_lower(t.title)),
        None => true,
    }
}

/// `matches_filter` as a first-class predicate.
pub open spec fn filter_f(f: TaskFilterView) -> spec_fn(TaskView) -> bool {
    |t: TaskView| matches_filter(t, f)
}

/// Whether a task passes the filter.
fn matches_filter_exec(t: &Task, f: &TaskFilter) -> (r: bool)
    ensures
        r == matches_filter(t@, f@),
{
    let status_ok = match &f.status {
        Some(s) => str_eq(t.status.as_str(), s.as_str()),
        None => f.include_done || !(t.status == Status::Done),
    };
    let pri_ok = match f.priority {
        Some(p) => t.priority == p,
        None => true,
    };
    let tag_ok = match &f.tag {
        Some(tg) => vec_contains_str(&t.tags, tg.as_str()),
        None => true,
    };
    let parent_ok = match (&f.parent, &t.parent_id) {
        (Some(p), Some(tp)) => str_eq(p.as_str(), tp.as_str()),
        (Some(_), None) => false,
        (None, _) => true,
    };
    let search_ok = match &f.search {
        Some(q) => {
            let lt = lower_str(t.title.as_str());
            let lq = lower_str(q.as_str());
            contains_sub(lt.as_str(), lq.as_str())
        },
        None => true,
    };
    status_ok && pri_ok && tag_ok && parent_ok && search_ok
}

/// Membership in one parent's set of containment children.
pub open spec fn child_of(pid: Seq<char>) -> spec_fn(TaskView) -> bool {
    |t: TaskView| t.parent_id == Some(pid)
}

/// The order of children listings: id ascending, lexicographically.
pub open spec fn id_le_f() -> spec_fn(TaskView, TaskView) -> bool {
    |a: TaskView, b: TaskView| lex_leq(a.id, b.id)
}

/// Insert a task into a run sorted by id.
fn insert_task_sorted_by_id(out: &mut Vec<Task>, t: Task)
    ensures
        task_views(final(out)@) == insert_sorted(t@, task_views(old(out)@), id_le_f()),
{
    let ghost olds = task_views(out@);
    let ghost tv = t@;
    let mut j: usize = 0;
    while j < out.len() && lex_le(out[j].id.as_str(), t.id.as_str())
        invariant
            j <= out@.len(),
            olds == task_views(out@),
            tv == t@,
            forall|k: int| 0 <= k < j ==> lex_leq((#[trigger] olds[k]).id, tv.id),
        decreases out@.len() - j,
    {
        j = j + 1;
    }
    proof {
        lemma_insert_sorted_position(tv, olds, id_le_f(), j as int);
    }
    out.insert(j, t);
    proof {
        assert(task_views(out@) =~= olds.take(j as int) + seq![tv] + olds.skip(j as int));
    }
}

/// Sort tasks by id, lexicographically ascending.
pub fn sort_tasks_by_id(v: &Vec<Task>) -> (r: Vec<Task>)
    ensures
        task_views(r@) == sort_by_spec(task_views(v@), id_le_f()),
{
    let mut out: Vec<Task> = Vec::new();
    let mut i: usize = 0;
    while i < v.len()
        invariant
            i <= v@.len(),
            task_views(out@) == sort_by_spec(task_views(v@.take(i as int)), id_le_f()),
        decreases v@.len() - i,
    {
        proof {
            assert(task_views(v@.take(i + 1)).drop_last() =~= task_views(v@.take(i as int)));
            assert(task_views(v@.take(i + 1)).last() == v@[i as int]@);
        }
        insert_task_sorted_by_id(&mut out, v[i].duplicate());
        i = i + 1;
    }
    proof {
        assert(v@.take(v@.len() as int) =~= v@);
    }
    out
}

impl Store {
    /// List the tasks that pass the filter, in the system-wide listing
    /// order: priority ascending, ties broken by age.
    pub fn list_tasks(&self, f: &TaskFilter) -> (r: Vec<Task>)
        requires
            self.wf(),
        ensures
            task_views(r@) == sort_by_spec(self.tasks_v().filter(filter_f(f@)), task_le_f()),
    {
        let mut picked: Vec<Task> = Vec::new();
        let n = self.tasks.len();
        let mut i: usize = 0;
        while i < n
            invariant
                i <= n,
                n == self.tasks@.len(),
                task_views(picked@) == self.tasks_v().take(i as int).filter(filter_f(f@)),
            decreases n - i,
        {
            let ghost prefix = self.tasks_v().take(i as int);
            let ghost x = self.tasks_v()[i as int];
            let ghost prev = task_views(picked@);
            proof {
                assert(self.tasks_v().take(i + 1) =~= prefix.push(x));
                lemma_filter_push(prefix, x, filter_f(f@));
            }
            if matches_filter_exec(&self.tasks[i], f) {
                picked.push(self.tasks[i].duplicate());
                proof {
                    assert(filter_f(f@)(x));
                    assert(task_views(picked@) =~= prev.push(x));
                }
            } else {
                proof {
                    assert(!filter_f(f@)(x));
                }
            }
            i = i + 1;
        }
        proof {
            assert(self.tasks_v().take(n as int) =~= self.tasks_v());
        }
        sort_tasks(&picked)
    }

    /// The containment children of a task, ordered by id ascending
    /// (lexicographic: callers that need numeric subtask order re-sort by
    /// the numeric suffix).
    pub fn get_children(&self, parent_id: &str) -> (r: Vec<Task>)
        ensures
            task_views(r@) == sort_by_spec(
                self.tasks_v().filter(child_of(parent_id@)),
                id_le_f(),
            ),
    {
        let mut picked: Vec<Task> = Vec::new();
        let n = self.tasks.len();
        let mut i: usize = 0;
        while i < n
            invariant
                i <= n,
                n == self.tasks@.len(),
                task_views(picked@) == self.tasks_v().take(i as int).filter(
                    child_of(parent_id@),
                ),
            decreases n - i,
        {
            let ghost prefix = self.tasks_v().take(i as int);
            let ghost x = self.tasks_v()[i as int];
            let ghost prev = task_views(picked@);
            proof {
                assert(self.tasks_v().take(i + 1) =~= prefix.push(x));
                lemma_filter_push(prefix, x, child_of(parent_id@));
            }
            let is_child = match &self.tasks[i].parent_id {
                Some(p) => str_eq(p.as_str(), parent_id),
                None => false,
            };
            if is_child {
                picked.push(self.tasks[i].duplicate());
                proof {
                    assert(child_of(parent_id@)(x));
                    assert(task_views(picked@) =~= prev.push(x));
                }
            } else {
                proof {
                    assert(!child_of(parent_id@)(x));
                }
            }
            i = i + 1;
        }
        proof {
            assert(self.tasks_v().take(n as int) =~= self.tasks_v());
        }
        sort_tasks_by_id(&picked)
    }
}


/// The index of the last dot of an id, or -1 when there is none.
pub open spec fn last_dot(s: Seq<char>) -> int
    decreases s.len(),
{
    if s.len() == 0 {
        -1
    } else if s.last() == '.' {
        s.len() - 1
    } else {
        last_dot(s.drop_last())
    }
}

proof fn lemma_last_dot_is(s: Seq<char>, d: int)
    requires
        0 <= d < s.len(),
        s[d] == '.',
        forall|j: int| d < j < s.len() ==> s[j] != '.',
    ensures
        last_dot(s) == d,
    decreases s.len(),
{
    if d < s.len() - 1 {
        assert(s.last() != '.');
        assert(s.drop_last()[d] == s[d]);
        assert forall|j: int| d < j < s.drop_last().len() implies s.drop_last()[j] != '.' by {
            assert(s.drop_last()[j] == s[j]);
        }
        lemma_last_dot_is(s.drop_last(), d);
    }
}

proof fn lemma_last_dot_none(s: Seq<char>)
    requires
        forall|j: int| 0 <= j < s.len() ==> s[j] != '.',
    ensures
        last_dot(s) == -1,
    decreases s.len(),
{
    if s.len() > 0 {
        assert forall|j: int| 0 <= j < s.drop_last().len() implies s.drop_last()[j] != '.' by {
            assert(s.drop_last()[j] == s[j]);
        }
        lemma_last_dot_none(s.drop_last());
    }
}

/// The numeric suffix of a hierarchical id: the digits after the last dot,
/// or zero when there is no dot or the suffix is not a number that fits.
pub open spec fn suffix_key(id: Seq<char>) -> int {
    let d = last_dot(id);
    if d < 0 {
        0
    } else {
        let suf = id.skip(d + 1);
        if suf.len() > 0 && crate::strutil::all_digits(suf) && crate::strutil::digits_val(suf)
            <= u64::MAX {
            crate::strutil::digits_val(suf)
        } else {
            0
        }
    }
}

/// The order of subtasks in an epic view: numeric suffix ascending, so that
/// index 10 follows index 9 rather than index 1.
pub open spec fn suffix_le_f() -> spec_fn(TaskView, TaskView) -> bool {
    |a: TaskView, b: TaskView| suffix_key(a.id) <= suffix_key(b.id)
}

/// The numeric suffix of a task id.
fn suffix_key_exec(id: &str) -> (r: u64)
    ensures
        r == suffix_key(id@),
{
    let n = id.unicode_len();
    let mut i: usize = n;
    while i > 0 && id.get_char(i - 1) != '.'
        invariant
            i <= n,
            n == id@.len(),
            forall|j: int| i <= j < n ==> id@[j] != '.',
        decreases i,
    {
        i = i - 1;
    }
    if i == 0 {
        proof {
            lemma_last_dot_none(id@);
        }
        return 0;
    }
    proof {
        lemma_last_dot_is(id@, i - 1);
    }
    let ghost suf = id@.skip(i as int);
    if i == n {
        proof {
            assert(suf.len() == 0);
        }
        return 0;
    }
    let mut acc: u64 = 0;
    let mut k: usize = i;
    while k < n
        invariant
            1 <= i <= k <= n,
            i < n,
            n == id@.len(),
            last_dot(id@) == i - 1,
            suf == id@.skip(i as int),
            forall|j: int| i <= j < k ==> crate::strutil::is_digit(#[trigger] id@[j]),
            acc == crate::strutil::digits_val(suf.take(k - i)),
        decreases n - k,
    {
        let c = id.get_char(k);
        let u = c as u32;
        if !(48 <= u && u <= 57) {
            proof {
                assert(suf[k - i] == id@[k as int]);
                assert(!crate::strutil::all_digits(suf)) by {
                    assert(!crate::strutil::is_digit(suf[k - i]));
                }
            }
            return 0;
        }
        proof {
            assert(suf[k - i] == id@[k as int]);
            assert(suf.take(k - i + 1).drop_last() =~= suf.take(k - i));
            assert(suf.take(k - i + 1).last() == suf[k - i]);
            crate::strutil::lemma_digits_val_nonneg(suf.take(k - i));
        }
        let d = (u - 48) as u64;
        if acc > 0x1999_9999_9999_9999 || (acc == 0x1999_9999_9999_9999 && d > 5) {
            proof {
                assert(crate::strutil::digits_val(suf.take(k - i + 1)) == acc * 10 + d);
                if crate::strutil::all_digits(suf) {
                    crate::strutil::lemma_digits_val_grows(suf, k - i + 1, u64::MAX as int);
                }
            }
            return 0;
        }
        acc = acc * 10 + d;
        k = k + 1;
    }
    proof {
        assert(suf.take(k - i) =~= suf);
        assert(crate::strutil::all_digits(suf)) by {
            assert(forall|j: int|
                0 <= j < suf.len() ==> crate::strutil::is_digit(#[trigger] suf[j]) && suf[j]
                    == id@[j + i]);
        }
    }
    acc
}

fn suffix_le_exec(a: &Task, b: &Task) -> (r: bool)
    ensures
        r == suffix_le_f()(a@, b@),
{
    suffix_key_exec(a.id.as_str()) <= suffix_key_exec(b.id.as_str())
}

fn insert_task_by_suffix(out: &mut Vec<Task>, t: Task)
    ensures
        task_views(final(out)@) == insert_sorted(t@, task_views(old(out)@), suffix_le_f()),
{
    let ghost olds = task_views(out@);
    let ghost tv = t@;
    let mut j: usize = 0;
    while j < out.len() && suffix_le_exec(&out[j], &t)
        invariant
            j <= out@.len(),
            olds == task_views(out@),
            tv == t@,
            forall|k: int| 0 <= k < j ==> suffix_le_f()(#[trigger] olds[k], tv),
        decreases out@.len() - j,
    {
        j = j + 1;
    }
    proof {
        lemma_insert_sorted_position(tv, olds, suffix_le_f(), j as int);
    }
    out.insert(j, t);
    proof {
        assert(task_views(out@) =~= olds.take(j as int) + seq![tv] + olds.skip(j as int));
    }
}

/// Sort subtasks by the numeric suffix of their hierarchical ids, so that
/// ordering runs 1, 2, 3 ... 10, 11 rather than lexicographically.
pub fn sort_tasks_by_index(v: &Vec<Task>) -> (r: Vec<Task>)
    ensures
        task_views(r@) == sort_by_spec(task_views(v@), suffix_le_f()),
{
    let mut out: Vec<Task> = Vec::new();
    let mut i: usize = 0;
    while i < v.len()
        invariant
            i <= v@.len(),
            task_views(out@) == sort_by_spec(task_views(v@.take(i as int)), suffix_le_f()),
        decreases v@.len() - i,
    {
        proof {
            assert(task_views(v@.take(i + 1)).drop_last() =~= task_views(v@.take(i as int)));
            assert(task_views(v@.take(i + 1)).last() == v@[i as int]@);
        }
        insert_task_by_suffix(&mut out, v[i].duplicate());
        i = i + 1;
    }
    proof {
        assert(v@.take(v@.len() as int) =~= v@);
    }
    out
}

} // verus!
