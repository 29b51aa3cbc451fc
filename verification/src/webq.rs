//! The request and query shapes of the HTTP front end, and the parsing of
//! their comma-separated multi-select values. The front end itself stays
//! outside the library; these are the values it hands in and the helpers
//! that interpret them.

use vstd::prelude::*;
use vstd::string::{StrSliceExecFns, StringExecFns};

use crate::model::{str_views, task_views, Task, TaskView};
use crate::seqext::lemma_filter_push;
use crate::strutil::{parse_u8, parse_u8_spec, str_eq, trim_spec, trim_str};

verus! {

/// Request body for creating a task.
pub struct CreateTaskBody {
    pub title: Option<String>,
    pub description: Option<String>,
    pub priority: Option<u8>,
    pub tags: Option<Vec<String>>,
    pub parent_id: Option<String>,
}

/// Request body for updating a task.
pub struct UpdateTaskBody {
    pub title: Option<String>,
    pub description: Option<String>,
    pub status: Option<String>,
    pub priority: Option<u8>,
    pub assignee: Option<String>,
    pub tags: Option<Vec<String>>,
    pub notes: Option<String>,
}

/// Request body for closing a task.
pub struct CloseTaskBody {
    pub reason: Option<String>,
    pub comment: Option<String>,
}

/// Request body for adding a dependency edge.
pub struct AddDepBody {
    pub parent_id: String,
}

/// Request body for adding a comment.
pub struct AddCommentBody {
    pub body: String,
}

/// Query parameters for listing tasks. `status` and `priority` accept
/// comma-separated values for multi-select filtering.
pub struct ListTasksQuery {
    pub status: Option<String>,
    pub priority: Option<String>,
    pub tag: Option<String>,
    pub all: Option<bool>,
    pub parent: Option<String>,
    pub search: Option<String>,
}

/// Query parameters for the ready queue.
pub struct ReadyTasksQuery {
    pub limit: Option<u32>,
}

/// Query parameters for the board view.
pub struct BoardQuery {
    pub epic: Option<String>,
    pub priority: Option<String>,
}

/// Query parameters for the epic detail view.
pub struct EpicDetailQuery {
    pub view: Option<String>,
}

/// Form body for the create-task form.
pub struct CreateTaskFormBody {
    pub title: String,
    pub description: Option<String>,
    pub priority: Option<u8>,
}

/// The index of the first comma, or the length when there is none.
pub open spec fn first_comma(s: Seq<char>) -> int
    decreases s.len(),
{
    if s.len() == 0 {
        0
    } else if s[0] == ',' {
        0
    } else {
        1 + first_comma(s.drop_first())
    }
}

proof fn lemma_first_comma_bounds(s: Seq<char>)
    ensures
        0 <= first_comma(s) <= s.len(),
        first_comma(s) < s.len() ==> s[first_comma(s)] == ',',
        forall|j: int| 0 <= j < first_comma(s) ==> s[j] != ',',
    decreases s.len(),
{
    if s.len() > 0 && s[0] != ',' {
        lemma_first_comma_bounds(s.drop_first());
        assert forall|j: int| 0 <= j < first_comma(s) implies s[j] != ',' by {
            if j > 0 {
                assert(s.drop_first()[j - 1] != ',');
            }
        }
        if first_comma(s) < s.len() {
            assert(s[first_comma(s)] == s.drop_first()[first_comma(s.drop_first())]);
        }
    }
}

proof fn lemma_first_comma_is(s: Seq<char>, k: int)
    requires
        0 <= k < s.len(),
        s[k] == ',',
        forall|j: int| 0 <= j < k ==> s[j] != ',',
    ensures
        first_comma(s) == k,
    decreases k,
{
    if k > 0 {
        assert(s[0] != ',');
        assert(s.drop_first()[k - 1] == s[k]);
        assert forall|j: int| 0 <= j < k - 1 implies s.drop_first()[j] != ',' by {
            assert(s.drop_first()[j] == s[j + 1]);
        }
        lemma_first_comma_is(s.drop_first(), k - 1);
    }
}

proof fn lemma_first_comma_none(s: Seq<char>)
    requires
        forall|j: int| 0 <= j < s.len() ==> s[j] != ',',
    ensures
        first_comma(s) == s.len(),
    decreases s.len(),
{
    if s.len() > 0 {
        assert forall|j: int| 0 <= j < s.drop_first().len() implies s.drop_first()[j]
            != ',' by {
            assert(s.drop_first()[j] == s[j + 1]);
        }
        lemma_first_comma_none(s.drop_first());
    }
}

/// Split on commas, in order.
pub open spec fn split_commas(s: Seq<char>) -> Seq<Seq<char>>
    decreases s.len(),
{
    let k = first_comma(s);
    if 0 <= k < s.len() {
        seq![s.take(k)] + split_commas(s.skip(k + 1))
    } else {
        seq![s]
    }
}

/// Trimming, as a first-class function.
pub open spec fn trim_f() -> spec_fn(Seq<char>) -> Seq<char> {
    |p: Seq<char>| trim_spec(p)
}

/// Non-emptiness, as a first-class predicate.
pub open spec fn nonempty_f() -> spec_fn(Seq<char>) -> bool {
    |p: Seq<char>| p.len() > 0
}

/// `u8` parsing, as a first-class partial function.
pub open spec fn parse_u8_f() -> spec_fn(Seq<char>) -> Option<u8> {
    |p: Seq<char>| parse_u8_spec(p)
}

/// The trimmed, non-empty pieces of a comma-separated list.
pub open spec fn comma_pieces(s: Seq<char>) -> Seq<Seq<char>> {
    split_commas(s).map_values(trim_f()).filter(nonempty_f())
}

/// Split a string on commas, returning each trimmed, non-empty piece.
pub fn split_list(s: &str) -> (r: Vec<String>)
    ensures
        str_views(r@) == comma_pieces(s@),
{
    let mut out: Vec<String> = Vec::new();
    split_into(s, &mut out);
    out
}

fn split_into(s: &str, out: &mut Vec<String>)
    ensures
        str_views(final(out)@) == str_views(old(out)@) + comma_pieces(s@),
    decreases s@.len(),
{
    let n = s.unicode_len();
    let mut k: usize = 0;
    let mut found: bool = false;
    while k < n && !found
        invariant
            k <= n,
            n == s@.len(),
            !found ==> forall|j: int| 0 <= j < k ==> s@[j] != ',',
            found ==> k < n && s@[k as int] == ',' && forall|j: int| 0 <= j < k ==> s@[j]
                != ',',
        decreases n - k + (if found { 0int } else { 1int }),
    {
        if s.get_char(k) == ',' {
            found = true;
        } else {
            k = k + 1;
        }
    }
    if found {
        proof {
            lemma_first_comma_is(s@, k as int);
        }
        let piece = s.substring_char(0, k);
        let rest = s.substring_char(k + 1, n);
        let ghost prev = str_views(out@);
        let trimmed = trim_str(piece);
        if trimmed.unicode_len() > 0 {
            out.push(trimmed);
        }
        proof {
            assert(piece@ =~= s@.take(k as int));
            assert(rest@ =~= s@.skip(k + 1));
        }
        split_into(rest, out);
        proof {
            assert(split_commas(s@) == seq![s@.take(k as int)] + split_commas(
                s@.skip(k + 1),
            ));
            lemma_comma_pieces_cons(s@, k as int);
            assert(str_views(out@) =~= prev + comma_pieces(s@));
        }
    } else {
        proof {
            lemma_first_comma_none(s@);
            assert(split_commas(s@) == seq![s@]);
        }
        let ghost prev = str_views(out@);
        let trimmed = trim_str(s);
        if trimmed.unicode_len() > 0 {
            out.push(trimmed);
        }
        proof {
            lemma_pieces_singleton(s@);
            assert(str_views(out@) =~= prev + comma_pieces(s@));
        }
    }
}

/// `comma_pieces` of a string with its first comma at `k`: the trimmed
/// head piece (if non-empty), then the pieces of the rest.
proof fn lemma_comma_pieces_cons(s: Seq<char>, k: int)
    requires
        0 <= k < s.len(),
        first_comma(s) == k,
    ensures
        comma_pieces(s) == (if trim_spec(s.take(k)).len() > 0 {
            seq![trim_spec(s.take(k))]
        } else {
            Seq::<Seq<char>>::empty()
        }) + comma_pieces(s.skip(k + 1)),
{
    assert(split_commas(s) == seq![s.take(k)] + split_commas(s.skip(k + 1)));
    let mapped = split_commas(s).map_values(trim_f());
    let mrest = split_commas(s.skip(k + 1)).map_values(trim_f());
    assert(mapped =~= seq![trim_spec(s.take(k))] + mrest);
    lemma_filter_add_one(trim_spec(s.take(k)), mrest, nonempty_f());
}

/// `comma_pieces` of a comma-free string: the trimmed string, if non-empty.
proof fn lemma_pieces_singleton(s: Seq<char>)
    requires
        split_commas(s) == seq![s],
    ensures
        comma_pieces(s) == (if trim_spec(s).len() > 0 {
            seq![trim_spec(s)]
        } else {
            Seq::<Seq<char>>::empty()
        }),
{
    let mapped = split_commas(s).map_values(trim_f());
    assert(mapped =~= Seq::<Seq<char>>::empty() + seq![trim_spec(s)]);
    lemma_filter_add_one(trim_spec(s), Seq::<Seq<char>>::empty(), nonempty_f());
    assert(Seq::<Seq<char>>::empty() + seq![trim_spec(s)] =~= seq![trim_spec(s)] + Seq::<
        Seq<char>,
    >::empty());
    assert(Seq::<Seq<char>>::empty().filter(nonempty_f()) =~= Seq::<Seq<char>>::empty()) by {
        reveal(Seq::filter);
    }
    if trim_spec(s).len() > 0 {
        assert(comma_pieces(s) =~= seq![trim_spec(s)]);
    } else {
        assert(comma_pieces(s) =~= Seq::<Seq<char>>::empty());
    }
}

/// Filtering after prepending one element.
proof fn lemma_filter_add_one<A>(x: A, rest: Seq<A>, pred: spec_fn(A) -> bool)
    ensures
        (seq![x] + rest).filter(pred) == (if pred(x) {
            seq![x]
        } else {
            Seq::<A>::empty()
        }) + rest.filter(pred),
    decreases rest.len(),
{
    reveal(Seq::filter);
    if rest.len() == 0 {
        assert(seq![x] + rest =~= seq![x]);
        assert(seq![x].drop_last() =~= Seq::<A>::empty());
        if pred(x) {
            assert((if pred(x) {
                seq![x]
            } else {
                Seq::<A>::empty()
            }) + rest.filter(pred) =~= seq![x]);
            assert(seq![x].filter(pred) =~= seq![x]);
        } else {
            assert((if pred(x) {
                seq![x]
            } else {
                Seq::<A>::empty()
            }) + rest.filter(pred) =~= Seq::<A>::empty());
            assert(seq![x].filter(pred) =~= Seq::<A>::empty());
        }
    } else {
        assert((seq![x] + rest).drop_last() =~= seq![x] + rest.drop_last());
        lemma_filter_add_one(x, rest.drop_last(), pred);
        assert((seq![x] + rest).last() == rest.last());
        if pred(rest.last()) {
            assert((if pred(x) {
                seq![x]
            } else {
                Seq::<A>::empty()
            }) + rest.drop_last().filter(pred).push(rest.last()) =~= ((if pred(x) {
                seq![x]
            } else {
                Seq::<A>::empty()
            }) + rest.drop_last().filter(pred)).push(rest.last()));
        }
    }
}

/// Parse an optional comma-separated tag parameter into trimmed, non-empty
/// tags.
pub fn parse_tags(tag_param: Option<&str>) -> (r: Vec<String>)
    ensures
        str_views(r@) == (match tag_param {
            Some(s) => comma_pieces(s@),
            None => Seq::<Seq<char>>::empty(),
        }),
{
    match tag_param {
        Some(s) => split_list(s),
        None => {
            let r: Vec<String> = Vec::new();
            proof {
                assert(str_views(r@) =~= Seq::<Seq<char>>::empty());
            }
            r
        },
    }
}

/// The priorities named by a comma-separated parameter: each trimmed piece
/// that parses as a `u8`, empty pieces and failures skipped.
pub open spec fn priority_values(s: Seq<char>) -> Seq<u8> {
    split_commas(s).map_values(trim_f()).filter_map(parse_u8_f())
}

/// Parse comma-separated priority values; pieces that do not parse are
/// skipped.
pub fn parse_priority_values(s: &Option<String>) -> (r: Vec<u8>)
    ensures
        r@ == (match s {
            Some(v) => priority_values(v@),
            None => Seq::<u8>::empty(),
        }),
{
    match s {
        Some(v) => {
            let mut out: Vec<u8> = Vec::new();
            parse_priorities_into(v.as_str(), &mut out);
            out
        },
        None => Vec::new(),
    }
}

fn parse_priorities_into(s: &str, out: &mut Vec<u8>)
    ensures
        final(out)@ == old(out)@ + priority_values(s@),
    decreases s@.len(),
{
    let n = s.unicode_len();
    let mut k: usize = 0;
    let mut found: bool = false;
    while k < n && !found
        invariant
            k <= n,
            n == s@.len(),
            !found ==> forall|j: int| 0 <= j < k ==> s@[j] != ',',
            found ==> k < n && s@[k as int] == ',' && forall|j: int| 0 <= j < k ==> s@[j]
                != ',',
        decreases n - k + (if found { 0int } else { 1int }),
    {
        if s.get_char(k) == ',' {
            found = true;
        } else {
            k = k + 1;
        }
    }
    if found {
        proof {
            lemma_first_comma_is(s@, k as int);
        }
        let piece = s.substring_char(0, k);
        let rest = s.substring_char(k + 1, n);
        let ghost prev = out@;
        let trimmed = trim_str(piece);
        if let Some(p) = parse_u8(trimmed.as_str()) {
            out.push(p);
        }
        proof {
            assert(piece@ =~= s@.take(k as int));
            assert(rest@ =~= s@.skip(k + 1));
            split_commas_unfold_proof(s@, k as int);
        }
        parse_priorities_into(rest, out);
        proof {
            assert(out@ =~= prev + priority_values(s@));
        }
    } else {
        proof {
            lemma_first_comma_none(s@);
            assert(split_commas(s@) == seq![s@]);
        }
        let ghost prev = out@;
        let trimmed = trim_str(s);
        if let Some(p) = parse_u8(trimmed.as_str()) {
            out.push(p);
        }
        proof {
            let mapped = split_commas(s@).map_values(trim_f());
            assert(mapped =~= seq![trim_spec(s@)]);
            lemma_filter_map_singleton(trim_spec(s@), parse_u8_f());
            assert(out@ =~= prev + priority_values(s@));
        }
    }
}

/// The status strings named by a comma-separated parameter: each trimmed,
/// non-empty piece, kept verbatim.
pub fn parse_status_values(s: &Option<String>) -> (r: Vec<String>)
    ensures
        str_views(r@) == (match s {
            Some(v) => comma_pieces(v@),
            None => Seq::<Seq<char>>::empty(),
        }),
{
    match s {
        Some(v) => split_list(v.as_str()),
        None => {
            let r: Vec<String> = Vec::new();
            proof {
                assert(str_views(r@) =~= Seq::<Seq<char>>::empty());
            }
            r
        },
    }
}

/// Keep the tasks that carry at least one of the given tags; with no tags,
/// keep everything.
pub open spec fn any_tag_f(tags: Seq<Seq<char>>) -> spec_fn(TaskView) -> bool {
    |t: TaskView| exists|i: int| 0 <= i < tags.len() && t.tags.contains(#[trigger] tags[i])
}

/// Filter a task list to the tasks that carry at least one of the given
/// tags; an empty tag list keeps every task.
pub fn filter_by_tags(tasks: Vec<Task>, tags: &Vec<String>) -> (r: Vec<Task>)
    ensures
        task_views(r@) == if tags@.len() == 0 {
            task_views(tasks@)
        } else {
            task_views(tasks@).filter(any_tag_f(str_views(tags@)))
        },
{
    if tags.len() == 0 {
        return tasks;
    }
    let mut out: Vec<Task> = Vec::new();
    let n = tasks.len();
    let mut i: usize = 0;
    while i < n
        invariant
            i <= n,
            n == tasks@.len(),
            tags@.len() > 0,
            task_views(out@) == task_views(tasks@).take(i as int).filter(
                any_tag_f(str_views(tags@)),
            ),
        decreases n - i,
    {
        let ghost prefix = task_views(tasks@).take(i as int);
        let ghost x = task_views(tasks@)[i as int];
        let ghost prev = task_views(out@);
        proof {
            assert(task_views(tasks@).take(i + 1) =~= prefix.push(x));
            lemma_filter_push(prefix, x, any_tag_f(str_views(tags@)));
        }
        let mut has_any: bool = false;
        let m = tags.len();
        let mut j: usize = 0;
        while j < m && !has_any
            invariant
                j <= m,
                m == tags@.len(),
                i < n,
                n == tasks@.len(),
                x == task_views(tasks@)[i as int],
                !has_any ==> forall|jj: int|
                    0 <= jj < j ==> !x.tags.contains(#[trigger] str_views(tags@)[jj]),
                has_any ==> any_tag_f(str_views(tags@))(x),
            decreases m - j + (if has_any { 0int } else { 1int }),
        {
            if crate::model::vec_contains_str(&tasks[i].tags, tags[j].as_str()) {
                has_any = true;
                proof {
                    assert(x.tags.contains(str_views(tags@)[j as int]));
                }
            } else {
                j = j + 1;
            }
        }
        proof {
            if !has_any {
                assert(!any_tag_f(str_views(tags@))(x)) by {
                    if any_tag_f(str_views(tags@))(x) {
                        let w = choose|w: int|
                            0 <= w < str_views(tags@).len() && x.tags.contains(
                                #[trigger] str_views(tags@)[w],
                            );
                        assert(!x.tags.contains(str_views(tags@)[w]));
                    }
                }
            }
        }
        if has_any {
            out.push(tasks[i].duplicate());
            proof {
                assert(task_views(out@) =~= prev.push(x));
            }
        }
        i = i + 1;
    }
    proof {
        assert(task_views(tasks@).take(n as int) =~= task_views(tasks@));
    }
    out
}

proof fn split_commas_unfold_proof(s: Seq<char>, k: int)
    requires
        0 <= k < s.len(),
        first_comma(s) == k,
    ensures
        split_commas(s) == seq![s.take(k)] + split_commas(s.skip(k + 1)),
        priority_values(s) == (match parse_u8_spec(trim_spec(s.take(k))) {
            Some(p) => seq![p],
            None => Seq::<u8>::empty(),
        }) + priority_values(s.skip(k + 1)),
{
    assert(split_commas(s) == seq![s.take(k)] + split_commas(s.skip(k + 1)));
    let whole = split_commas(s);
    let mapped = whole.map_values(trim_f());
    assert(mapped =~= seq![trim_spec(s.take(k))] + split_commas(s.skip(k + 1)).map_values(
        trim_f(),
    ));
    lemma_filter_map_add(
        seq![trim_spec(s.take(k))],
        split_commas(s.skip(k + 1)).map_values(trim_f()),
        parse_u8_f(),
    );
    lemma_filter_map_singleton(trim_spec(s.take(k)), parse_u8_f());
}

proof fn lemma_filter_map_add<A, B>(a: Seq<A>, b: Seq<A>, f: spec_fn(A) -> Option<B>)
    ensures
        (a + b).filter_map(f) == a.filter_map(f) + b.filter_map(f),
    decreases b.len(),
{
    if b.len() == 0 {
        assert(a + b =~= a);
        assert(b.filter_map(f) == Seq::<B>::empty());
        assert(a.filter_map(f) + Seq::<B>::empty() =~= a.filter_map(f));
    } else {
        assert((a + b).drop_last() =~= a + b.drop_last());
        lemma_filter_map_add(a, b.drop_last(), f);
        assert((a + b).last() == b.last());
        assert(b.filter_map(f) == (match f(b.last()) {
            Some(x) => b.drop_last().filter_map(f).push(x),
            None => b.drop_last().filter_map(f),
        }));
        if f(b.last()) is Some {
            assert((a.filter_map(f) + b.drop_last().filter_map(f)).push(
                f(b.last()).unwrap(),
            ) =~= a.filter_map(f) + b.drop_last().filter_map(f).push(f(b.last()).unwrap()));
        }
    }
}

proof fn lemma_filter_map_singleton<A, B>(x: A, f: spec_fn(A) -> Option<B>)
    ensures
        seq![x].filter_map(f) == (match f(x) {
            Some(y) => seq![y],
            None => Seq::<B>::empty(),
        }),
{
    assert(seq![x].drop_last() =~= Seq::<A>::empty());
    assert(Seq::<A>::empty().filter_map(f) == Seq::<B>::empty());
    if f(x) is Some {
        assert(Seq::<B>::empty().push(f(x).unwrap()) =~= seq![f(x).unwrap()]);
    }
}

/// The poll query string for the list view: the given filters, in order,
/// joined with '&' behind a '?', or empty when no filter is set.
pub fn build_poll_query(
    status: &Option<String>,
    priority: &Option<String>,
    tag: &Option<String>,
    search: &Option<String>,
) -> (r: String)
    ensures
        r@ == poll_query_of(
            opt_part("status"@, crate::model::opt_view(*status)) + opt_part(
                "priority"@,
                crate::model::opt_view(*priority),
            ) + opt_part("tag"@, crate::model::opt_view(*tag)) + opt_part(
                "search"@,
                crate::model::opt_view(*search),
            ),
        ),
{
    let mut parts: Vec<String> = Vec::new();
    if let Some(s) = status {
        let mut p = String::new();
        p.append("status");
        p.append("=");
        p.append(s.as_str());
        parts.push(p);
    }
    if let Some(s) = priority {
        let mut p = String::new();
        p.append("priority");
        p.append("=");
        p.append(s.as_str());
        parts.push(p);
    }
    if let Some(s) = tag {
        let mut p = String::new();
        p.append("tag");
        p.append("=");
        p.append(s.as_str());
        parts.push(p);
    }
    if let Some(s) = search {
        let mut p = String::new();
        p.append("search");
        p.append("=");
        p.append(s.as_str());
        parts.push(p);
    }
    proof {
        assert(str_views(parts@) =~= opt_part("status"@, crate::model::opt_view(*status))
            + opt_part("priority"@, crate::model::opt_view(*priority)) + opt_part(
            "tag"@,
            crate::model::opt_view(*tag),
        ) + opt_part("search"@, crate::model::opt_view(*search)));
    }
    join_query(&parts)
}

/// The poll query string for the board view: epic and priority filters.
pub fn build_board_poll_query(epic: &Option<String>, priority: &Option<String>) -> (r: String)
    ensures
        r@ == poll_query_of(
            opt_part("epic"@, crate::model::opt_view(*epic)) + opt_part(
                "priority"@,
                crate::model::opt_view(*priority),
            ),
        ),
{
    let mut parts: Vec<String> = Vec::new();
    if let Some(s) = epic {
        let mut p = String::new();
        p.append("epic");
        p.append("=");
        p.append(s.as_str());
        parts.push(p);
    }
    if let Some(s) = priority {
        let mut p = String::new();
        p.append("priority");
        p.append("=");
        p.append(s.as_str());
        parts.push(p);
    }
    proof {
        assert(str_views(parts@) =~= opt_part("epic"@, crate::model::opt_view(*epic))
            + opt_part("priority"@, crate::model::opt_view(*priority)));
    }
    join_query(&parts)
}

/// The query piece of one optional parameter: `key=value` when present.
pub open spec fn opt_part(key: Seq<char>, v: Option<Seq<char>>) -> Seq<Seq<char>> {
    match v {
        Some(x) => seq![key + "="@ + x],
        None => Seq::<Seq<char>>::empty(),
    }
}

/// A poll query: '?' and the '&'-joined parts, or empty with no parts.
pub open spec fn poll_query_of(parts: Seq<Seq<char>>) -> Seq<char> {
    if parts.len() == 0 {
        Seq::empty()
    } else {
        "?"@ + join_amp(parts)
    }
}

/// Parts joined with '&'.
pub open spec fn join_amp(parts: Seq<Seq<char>>) -> Seq<char>
    decreases parts.len(),
{
    if parts.len() == 0 {
        Seq::empty()
    } else if parts.len() == 1 {
        parts[0]
    } else {
        join_amp(parts.drop_last()) + "&"@ + parts.last()
    }
}

fn join_query(parts: &Vec<String>) -> (r: String)
    ensures
        r@ == (if str_views(parts@).len() == 0 {
            Seq::<char>::empty()
        } else {
            "?"@ + join_amp(str_views(parts@))
        }),
{
    if parts.len() == 0 {
        let r = String::new();
        return r;
    }
    let mut acc = String::new();
    acc.append("?");
    let n = parts.len();
    let mut i: usize = 0;
    while i < n
        invariant
            1 <= n,
            i <= n,
            n == parts@.len(),
            acc@ == "?"@ + (if i == 0 {
                Seq::<char>::empty()
            } else {
                join_amp(str_views(parts@).take(i as int))
            }),
        decreases n - i,
    {
        if i > 0 {
            acc.append("&");
        }
        acc.append(parts[i].as_str());
        proof {
            let sv = str_views(parts@);
            assert(sv.take(i + 1).drop_last() =~= sv.take(i as int));
            assert(sv.take(i + 1).last() == sv[i as int]);
            if i == 0 {
                assert(sv.take(1) =~= seq![sv[0]]);
                assert(join_amp(sv.take(1)) == sv[0]);
            }
        }
        i = i + 1;
    }
    proof {
        assert(str_views(parts@).take(n as int) =~= str_views(parts@));
    }
    acc
}


/// Carrying one of the listed statuses (by canonical spelling).
pub open spec fn any_status_f(statuses: Seq<Seq<char>>) -> spec_fn(TaskView) -> bool {
    |t: TaskView| statuses.contains(crate::model::status_str(t.status))
}

/// Keep the tasks whose status is among the given canonical spellings; an
/// empty list keeps every task.
pub fn filter_by_statuses(tasks: Vec<Task>, statuses: &Vec<String>) -> (r: Vec<Task>)
    ensures
        task_views(r@) == if statuses@.len() == 0 {
            task_views(tasks@)
        } else {
            task_views(tasks@).filter(any_status_f(str_views(statuses@)))
        },
{
    if statuses.len() == 0 {
        return tasks;
    }
    let mut out: Vec<Task> = Vec::new();
    let n = tasks.len();
    let mut i: usize = 0;
    while i < n
        invariant
            i <= n,
            n == tasks@.len(),
            statuses@.len() > 0,
            task_views(out@) == task_views(tasks@).take(i as int).filter(
                any_status_f(str_views(statuses@)),
            ),
        decreases n - i,
    {
        let ghost prefix = task_views(tasks@).take(i as int);
        let ghost x = task_views(tasks@)[i as int];
        let ghost prev = task_views(out@);
        proof {
            assert(task_views(tasks@).take(i + 1) =~= prefix.push(x));
            lemma_filter_push(prefix, x, any_status_f(str_views(statuses@)));
        }
        if crate::model::vec_contains_str(statuses, tasks[i].status.as_str()) {
            out.push(tasks[i].duplicate());
            proof {
                assert(any_status_f(str_views(statuses@))(x));
                assert(task_views(out@) =~= prev.push(x));
            }
        } else {
            proof {
                assert(!any_status_f(str_views(statuses@))(x));
            }
        }
        i = i + 1;
    }
    proof {
        assert(task_views(tasks@).take(n as int) =~= task_views(tasks@));
    }
    out
}

/// Carrying one of the listed priorities.
pub open spec fn any_priority_f(priorities: Seq<u8>) -> spec_fn(TaskView) -> bool {
    |t: TaskView| priorities.contains(t.priority)
}

/// Keep the tasks whose priority is among the given values; an empty list
/// keeps every task.
pub fn filter_by_priorities(tasks: Vec<Task>, priorities: &Vec<u8>) -> (r: Vec<Task>)
    ensures
        task_views(r@) == if priorities@.len() == 0 {
            task_views(tasks@)
        } else {
            task_views(tasks@).filter(any_priority_f(priorities@))
        },
{
    if priorities.len() == 0 {
        return tasks;
    }
    let mut out: Vec<Task> = Vec::new();
    let n = tasks.len();
    let mut i: usize = 0;
    while i < n
        invariant
            i <= n,
            n == tasks@.len(),
            priorities@.len() > 0,
            task_views(out@) == task_views(tasks@).take(i as int).filter(
                any_priority_f(priorities@),
            ),
        decreases n - i,
    {
        let ghost prefix = task_views(tasks@).take(i as int);
        let ghost x = task_views(tasks@)[i as int];
        let ghost prev = task_views(out@);
        proof {
            assert(task_views(tasks@).take(i + 1) =~= prefix.push(x));
            lemma_filter_push(prefix, x, any_priority_f(priorities@));
        }
        let mut hit: bool = false;
        let m = priorities.len();
        let mut j: usize = 0;
        while j < m && !hit
            invariant
                j <= m,
                m == priorities@.len(),
                i < n,
                n == tasks@.len(),
                x == task_views(tasks@)[i as int],
                !hit ==> forall|jj: int| 0 <= jj < j ==> priorities@[jj] != x.priority,
                hit ==> priorities@.contains(x.priority),
            decreases m - j + (if hit { 0int } else { 1int }),
        {
            if priorities[j] == tasks[i].priority {
                hit = true;
            } else {
                j = j + 1;
            }
        }
        proof {
            if !hit {
                assert(!priorities@.contains(x.priority)) by {
                    if priorities@.contains(x.priority) {
                        let w = choose|w: int|
                            0 <= w < priorities@.len() && priorities@[w] == x.priority;
                        assert(priorities@[w] != x.priority);
                    }
                }
            }
        }
        if hit {
            out.push(tasks[i].duplicate());
            proof {
                assert(any_priority_f(priorities@)(x));
                assert(task_views(out@) =~= prev.push(x));
            }
        } else {
            proof {
                assert(!any_priority_f(priorities@)(x));
            }
        }
        i = i + 1;
    }
    proof {
        assert(task_views(tasks@).take(n as int) =~= task_views(tasks@));
    }
    out
}

} // verus!
