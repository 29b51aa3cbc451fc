//! Core data types: task status, tasks, comments, dependency edges, and the
//! error kinds every operation reports.

use vstd::prelude::*;
use vstd::string::{StrSliceExecFns, StringExecFns};

use crate::strutil::{ascii_lower, lower_str, str_eq};

verus! {

/// Lifecycle state of a task. `Blocked` is an explicit status value, distinct
/// from the derived notion of "has an unresolved blocker edge".
#[derive(Clone, Copy, PartialEq, Eq, Structural, Debug)]
pub enum Status {
    Open,
    InProgress,
    Done,
    Blocked,
}

/// The canonical spelling of each status value.
pub open spec fn status_str(s: Status) -> Seq<char> {
    match s {
        Status::Open => "open"@,
        Status::InProgress => "in_progress"@,
        Status::Done => "done"@,
        Status::Blocked => "blocked"@,
    }
}

/// The normalization table for status input: several spellings are accepted
/// for each status, compared after ASCII lowercasing.
pub open spec fn status_of_str(s: Seq<char>) -> Option<Status> {
    let l = ascii_lower(s);
    if l == "open"@ {
        Some(Status::Open)
    } else if l == "in_progress"@ || l == "in-progress"@ || l == "inprogress"@ {
        Some(Status::InProgress)
    } else if l == "done"@ || l == "closed"@ {
        Some(Status::Done)
    } else if l == "blocked"@ {
        Some(Status::Blocked)
    } else {
        None
    }
}

impl Status {
    /// The canonical string form of this status.
    pub fn as_str(&self) -> (r: &'static str)
        ensures
            r@ == status_str(*self),
    {
        match self {
            Status::Open => "open",
            Status::InProgress => "in_progress",
            Status::Done => "done",
            Status::Blocked => "blocked",
        }
    }

    /// Parse a status, accepting every spelling of the normalization table.
    pub fn from_str(s: &str) -> (r: Result<Status, String>)
        ensures
            match r {
                Ok(st) => status_of_str(s@) == Some(st),
                Err(_) => status_of_str(s@) is None,
            },
    {
        let low = lower_str(s);
        let l = low.as_str();
        if str_eq(l, "open") {
            Ok(Status::Open)
        } else if str_eq(l, "in_progress") || str_eq(l, "in-progress") || str_eq(l, "inprogress") {
            Ok(Status::InProgress)
        } else if str_eq(l, "done") || str_eq(l, "closed") {
            Ok(Status::Done)
        } else if str_eq(l, "blocked") {
            Ok(Status::Blocked)
        } else {
            let mut m = String::new();
            m.append("unknown status: ");
            m.append(s);
            Err(m)
        }
    }
}

/// A task record. Timestamps are logical: the store hands out strictly
/// increasing stamps, so `updated_at` comparisons are exact.
pub struct Task {
    pub id: String,
    pub title: String,
    pub description: Option<String>,
    pub status: Status,
    pub priority: u8,
    pub assignee: Option<String>,
    pub parent_id: Option<String>,
    pub tags: Vec<String>,
    pub created_at: i64,
    pub updated_at: i64,
    pub close_reason: Option<String>,
    pub notes: Option<String>,
}

/// The mathematical value of a task: every string is a sequence of
/// characters.
#[verifier::ext_equal]
pub ghost struct TaskView {
    pub id: Seq<char>,
    pub title: Seq<char>,
    pub description: Option<Seq<char>>,
    pub status: Status,
    pub priority: u8,
    pub assignee: Option<Seq<char>>,
    pub parent_id: Option<Seq<char>>,
    pub tags: Seq<Seq<char>>,
    pub created_at: i64,
    pub updated_at: i64,
    pub close_reason: Option<Seq<char>>,
    pub notes: Option<Seq<char>>,
}

/// The view of an optional string.
pub open spec fn opt_view(o: Option<String>) -> Option<Seq<char>> {
    match o {
        Some(s) => Some(s@),
        None => None,
    }
}

/// The views of a sequence of strings.
pub open spec fn str_views(s: Seq<String>) -> Seq<Seq<char>> {
    s.map_values(|x: String| x@)
}

impl View for Task {
    type V = TaskView;

    open spec fn view(&self) -> TaskView {
        TaskView {
            id: self.id@,
            title: self.title@,
            description: opt_view(self.description),
            status: self.status,
            priority: self.priority,
            assignee: opt_view(self.assignee),
            parent_id: opt_view(self.parent_id),
            tags: str_views(self.tags@),
            created_at: self.created_at,
            updated_at: self.updated_at,
            close_reason: opt_view(self.close_reason),
            notes: opt_view(self.notes),
        }
    }
}

/// The views of a sequence of tasks.
pub open spec fn task_views(s: Seq<Task>) -> Seq<TaskView> {
    s.map_values(|t: Task| t@)
}

/// A comment on a task, immutable once created.
pub struct Comment {
    pub id: i64,
    pub task_id: String,
    pub body: String,
    pub created_at: i64,
}

/// The mathematical value of a comment.
#[verifier::ext_equal]
pub ghost struct CommentView {
    pub id: i64,
    pub task_id: Seq<char>,
    pub body: Seq<char>,
    pub created_at: i64,
}

impl View for Comment {
    type V = CommentView;

    open spec fn view(&self) -> CommentView {
        CommentView {
            id: self.id,
            task_id: self.task_id@,
            body: self.body@,
            created_at: self.created_at,
        }
    }
}

/// The views of a sequence of comments.
pub open spec fn comment_views(s: Seq<Comment>) -> Seq<CommentView> {
    s.map_values(|c: Comment| c@)
}

/// A blocking edge: `child_id` is blocked by `parent_id` and cannot be ready
/// while `parent_id` is unresolved. Unrelated to the containment relation of
/// the `parent_id` *field* of a task.
pub struct Dependency {
    pub child_id: String,
    pub parent_id: String,
}

/// The mathematical value of a dependency edge.
#[verifier::ext_equal]
pub ghost struct DepView {
    pub child_id: Seq<char>,
    pub parent_id: Seq<char>,
}

impl View for Dependency {
    type V = DepView;

    open spec fn view(&self) -> DepView {
        DepView { child_id: self.child_id@, parent_id: self.parent_id@ }
    }
}

/// The views of a sequence of dependency edges.
pub open spec fn dep_views(s: Seq<Dependency>) -> Seq<DepView> {
    s.map_values(|d: Dependency| d@)
}

/// The error kinds every operation reports: a missing referent, malformed
/// input rejected before any mutation, a violated graph or lifecycle
/// invariant, or a storage-level failure.
#[derive(Debug)]
pub enum AppError {
    NotFound(String),
    Validation(String),
    Conflict(String),
    Internal(String),
}

impl AppError {
    /// The message carried by this error.
    pub fn message(&self) -> (r: &String)
        ensures
            r@ == self.msg(),
    {
        match self {
            AppError::NotFound(m) => m,
            AppError::Validation(m) => m,
            AppError::Conflict(m) => m,
            AppError::Internal(m) => m,
        }
    }

    /// The message of this error, as a spec value.
    pub open spec fn msg(&self) -> Seq<char> {
        match self {
            AppError::NotFound(m) => m@,
            AppError::Validation(m) => m@,
            AppError::Conflict(m) => m@,
            AppError::Internal(m) => m@,
        }
    }
}

/// Copy an optional string, preserving its view.
pub fn clone_opt_string(o: &Option<String>) -> (r: Option<String>)
    ensures
        opt_view(r) == opt_view(*o),
{
    match o {
        Some(s) => Some(s.clone()),
        None => None,
    }
}

/// Copy a list of strings, preserving its views.
pub fn clone_string_vec(v: &Vec<String>) -> (r: Vec<String>)
    ensures
        str_views(r@) == str_views(v@),
{
    let mut out: Vec<String> = Vec::new();
    let mut i: usize = 0;
    while i < v.len()
        invariant
            i <= v.len(),
            out@.len() == i,
            forall|j: int| 0 <= j < i ==> out@[j]@ == v@[j]@,
        decreases v.len() - i,
    {
        out.push(v[i].clone());
        i = i + 1;
    }
    proof {
        assert(str_views(out@) =~= str_views(v@));
    }
    out
}

impl Task {
    /// A fresh task record with the same contents.
    pub fn duplicate(&self) -> (r: Task)
        ensures
            r@ == self@,
    {
        let r = Task {
            id: self.id.clone(),
            title: self.title.clone(),
            description: clone_opt_string(&self.description),
            status: self.status,
            priority: self.priority,
            assignee: clone_opt_string(&self.assignee),
            parent_id: clone_opt_string(&self.parent_id),
            tags: clone_string_vec(&self.tags),
            created_at: self.created_at,
            updated_at: self.updated_at,
            close_reason: clone_opt_string(&self.close_reason),
            notes: clone_opt_string(&self.notes),
        };
        proof {
            assert(r@ =~= self@);
        }
        r
    }
}

impl Comment {
    /// A fresh comment record with the same contents.
    pub fn duplicate(&self) -> (r: Comment)
        ensures
            r@ == self@,
    {
        let r = Comment {
            id: self.id,
            task_id: self.task_id.clone(),
            body: self.body.clone(),
            created_at: self.created_at,
        };
        proof {
            assert(r@ =~= self@);
        }
        r
    }
}

impl Dependency {
    /// A fresh edge record with the same contents.
    pub fn duplicate(&self) -> (r: Dependency)
        ensures
            r@ == self@,
    {
        let r = Dependency { child_id: self.child_id.clone(), parent_id: self.parent_id.clone() };
        proof {
            assert(r@ =~= self@);
        }
        r
    }
}

/// Whether a list of strings holds one with the given view.
pub fn vec_contains_str(v: &Vec<String>, s: &str) -> (r: bool)
    ensures
        r == str_views(v@).contains(s@),
{
    let mut i: usize = 0;
    while i < v.len()
        invariant
            i <= v@.len(),
            forall|j: int| 0 <= j < i ==> str_views(v@)[j] != s@,
        decreases v@.len() - i,
    {
        if crate::strutil::str_eq(v[i].as_str(), s) {
            proof {
                assert(str_views(v@)[i as int] == s@);
            }
            return true;
        }
        i = i + 1;
    }
    proof {
        if str_views(v@).contains(s@) {
            let j = choose|j: int| 0 <= j < str_views(v@).len() && str_views(v@)[j] == s@;
            assert(str_views(v@)[j] != s@);
        }
    }
    false
}

/// The label of a priority: "P" followed by the number.
pub fn format_priority(p: u8) -> (r: String)
    ensures
        r@ == "P"@ + crate::strutil::dec_str(p as int),
{
    let mut out = String::new();
    out.append("P");
    let num = crate::strutil::dec_u64(p as u64);
    out.append(num.as_str());
    out
}

/// The display form of a status: its canonical spelling.
pub fn format_status(s: &Status) -> (r: String)
    ensures
        r@ == status_str(*s),
{
    let mut out = String::new();
    out.append(s.as_str());
    proof {
        assert(out@ =~= status_str(*s));
    }
    out
}

/// Whether a string is one of the accepted close reasons.
pub open spec fn is_valid_close_reason(s: Seq<char>) -> bool {
    s == "done"@ || s == "duplicate"@ || s == "absorbed"@ || s == "stale"@ || s == "superseded"@
}

/// Validate a close reason string against the fixed enumeration
/// {done, duplicate, absorbed, stale, superseded}.
pub fn validate_close_reason(reason: &str) -> (r: Result<(), String>)
    ensures
        r is Ok <==> is_valid_close_reason(reason@),
{
    if str_eq(reason, "done") || str_eq(reason, "duplicate") || str_eq(reason, "absorbed")
        || str_eq(reason, "stale") || str_eq(reason, "superseded") {
        Ok(())
    } else {
        let mut m = String::new();
        m.append("invalid close reason: ");
        m.append(reason);
        m.append(". valid reasons: done, duplicate, absorbed, stale, superseded");
        Err(m)
    }
}

} // verus!
