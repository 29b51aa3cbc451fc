//! The read-only aggregation layer: grouped counts over tasks, epic
//! progress, and the context summary the prime command is built from.

use vstd::prelude::*;
use vstd::string::{StrSliceExecFns, StringExecFns};

use crate::model::{
    status_str, str_views, task_views, vec_contains_str, Status, Task, TaskView,
};
use crate::query::{child_of, filter_f, TaskFilter};
use crate::seqext::lemma_filter_push;
use crate::sortspec::{
    capped, insert_sorted, lemma_insert_sorted_position, lemma_sort_by_spec_props, leq_total,
    leq_trans, sort_by_spec, sorted_by_leq,
};
use crate::store::{task_le_f, Store};
use crate::strutil::{lemma_lex_total, lemma_lex_trans, lex_le, lex_leq, str_eq};

verus! {

/// Carrying a given status.
pub open spec fn has_status_f(st: Status) -> spec_fn(TaskView) -> bool {
    |t: TaskView| t.status == st
}

/// Carrying a given priority.
pub open spec fn has_priority_f(p: u8) -> spec_fn(TaskView) -> bool {
    |t: TaskView| t.priority == p
}

/// Carrying a given tag.
pub open spec fn carries_f(tag: Seq<char>) -> spec_fn(TaskView) -> bool {
    |t: TaskView| t.tags.contains(tag)
}

/// How many tasks have the given status.
pub open spec fn status_count(tasks: Seq<TaskView>, st: Status) -> int {
    tasks.filter(has_status_f(st)).len() as int
}

/// How many tasks have the given priority.
pub open spec fn priority_count(tasks: Seq<TaskView>, p: u8) -> int {
    tasks.filter(has_priority_f(p)).len() as int
}

/// How many tasks carry the given tag.
pub open spec fn tag_count(tasks: Seq<TaskView>, tag: Seq<char>) -> int {
    tasks.filter(carries_f(tag)).len() as int
}

/// Some task carries the tag.
pub open spec fn tag_appears(tasks: Seq<TaskView>, tag: Seq<char>) -> bool {
    exists|i: int| 0 <= i < tasks.len() && (#[trigger] tasks[i]).tags.contains(tag)
}

/// The entry for one status: its canonical name and count, absent when the
/// count is zero.
pub open spec fn status_entry(tasks: Seq<TaskView>, st: Status) -> Seq<(Seq<char>, i64)> {
    if status_count(tasks, st) > 0 {
        seq![(status_str(st), status_count(tasks, st) as i64)]
    } else {
        Seq::<(Seq<char>, i64)>::empty()
    }
}

/// The by-status listing: counts grouped by status, statuses in
/// alphabetical order of their canonical names, zero counts omitted.
pub open spec fn status_counts_spec(tasks: Seq<TaskView>) -> Seq<(Seq<char>, i64)> {
    status_entry(tasks, Status::Blocked) + status_entry(tasks, Status::Done) + status_entry(
        tasks,
        Status::InProgress,
    ) + status_entry(tasks, Status::Open)
}

/// The views of (String, i64) count pairs.
pub open spec fn count_views(s: Seq<(String, i64)>) -> Seq<(Seq<char>, i64)> {
    s.map_values(|p: (String, i64)| (p.0@, p.1))
}

/// The by-priority entries for all priorities below `p`, ascending, zero
/// counts omitted.
pub open spec fn pri_entries_upto(tasks: Seq<TaskView>, p: int) -> Seq<(u8, i64)>
    decreases p,
{
    if p <= 0 {
        Seq::<(u8, i64)>::empty()
    } else {
        pri_entries_upto(tasks, p - 1) + (if priority_count(tasks, (p - 1) as u8) > 0 {
            seq![((p - 1) as u8, priority_count(tasks, (p - 1) as u8) as i64)]
        } else {
            Seq::<(u8, i64)>::empty()
        })
    }
}

/// The order of the by-tag listing: count descending, ties by tag name
/// ascending.
pub open spec fn tag_order(a: (Seq<char>, i64), b: (Seq<char>, i64)) -> bool {
    a.1 > b.1 || (a.1 == b.1 && lex_leq(a.0, b.0))
}

/// `tag_order` as a first-class relation.
pub open spec fn tag_order_f() -> spec_fn((Seq<char>, i64), (Seq<char>, i64)) -> bool {
    |a: (Seq<char>, i64), b: (Seq<char>, i64)| tag_order(a, b)
}

impl Store {
    /// How many tasks currently have the given status.
    fn count_status(&self, st: Status) -> (r: usize)
        ensures
            r == status_count(self.tasks_v(), st),
            r <= self.tasks@.len(),
    {
        let n = self.tasks.len();
        let mut count: usize = 0;
        let mut i: usize = 0;
        while i < n
            invariant
                i <= n,
                n == self.tasks@.len(),
                count <= i,
                count == self.tasks_v().take(i as int).filter(has_status_f(st)).len(),
            decreases n - i,
        {
            let ghost prefix = self.tasks_v().take(i as int);
            let ghost x = self.tasks_v()[i as int];
            proof {
                assert(self.tasks_v().take(i + 1) =~= prefix.push(x));
                lemma_filter_push(prefix, x, has_status_f(st));
            }
            if self.tasks[i].status == st {
                proof {
                    assert(has_status_f(st)(x));
                }
                count = count + 1;
            } else {
                proof {
                    assert(!has_status_f(st)(x));
                }
            }
            i = i + 1;
        }
        proof {
            assert(self.tasks_v().take(n as int) =~= self.tasks_v());
        }
        count
    }

    /// How many tasks currently have the given priority.
    fn count_priority(&self, p: u8) -> (r: usize)
        ensures
            r == priority_count(self.tasks_v(), p),
            r <= self.tasks@.len(),
    {
        let n = self.tasks.len();
        let mut count: usize = 0;
        let mut i: usize = 0;
        while i < n
            invariant
                i <= n,
                n == self.tasks@.len(),
                count <= i,
                count == self.tasks_v().take(i as int).filter(has_priority_f(p)).len(),
            decreases n - i,
        {
            let ghost prefix = self.tasks_v().take(i as int);
            let ghost x = self.tasks_v()[i as int];
            proof {
                assert(self.tasks_v().take(i + 1) =~= prefix.push(x));
                lemma_filter_push(prefix, x, has_priority_f(p));
            }
            if self.tasks[i].priority == p {
                proof {
                    assert(has_priority_f(p)(x));
                }
                count = count + 1;
            } else {
                proof {
                    assert(!has_priority_f(p)(x));
                }
            }
            i = i + 1;
        }
        proof {
            assert(self.tasks_v().take(n as int) =~= self.tasks_v());
        }
        count
    }

    /// How many tasks carry the given tag.
    fn count_tag(&self, tag: &str) -> (r: usize)
        ensures
            r == tag_count(self.tasks_v(), tag@),
            r <= self.tasks@.len(),
    {
        let n = self.tasks.len();
        let mut count: usize = 0;
        let mut i: usize = 0;
        while i < n
            invariant
                i <= n,
                n == self.tasks@.len(),
                count <= i,
                count == self.tasks_v().take(i as int).filter(carries_f(tag@)).len(),
            decreases n - i,
        {
            let ghost prefix = self.tasks_v().take(i as int);
            let ghost x = self.tasks_v()[i as int];
            proof {
                assert(self.tasks_v().take(i + 1) =~= prefix.push(x));
                lemma_filter_push(prefix, x, carries_f(tag@));
            }
            if vec_contains_str(&self.tasks[i].tags, tag) {
                proof {
                    assert(carries_f(tag@)(x));
                }
                count = count + 1;
            } else {
                proof {
                    assert(!carries_f(tag@)(x));
                }
            }
            i = i + 1;
        }
        proof {
            assert(self.tasks_v().take(n as int) =~= self.tasks_v());
        }
        count
    }

    /// Task counts grouped by status, in alphabetical status order, with
    /// zero counts omitted.
    pub fn task_count_by_status(&self) -> (r: Vec<(String, i64)>)
        requires
            self.tasks@.len() <= i64::MAX,
        ensures
            count_views(r@) == status_counts_spec(self.tasks_v()),
    {
        let mut out: Vec<(String, i64)> = Vec::new();
        let cb = self.count_status(Status::Blocked);
        if cb > 0 {
            out.push(("blocked".to_owned(), cb as i64));
        }
        let cd = self.count_status(Status::Done);
        if cd > 0 {
            out.push(("done".to_owned(), cd as i64));
        }
        let ci = self.count_status(Status::InProgress);
        if ci > 0 {
            out.push(("in_progress".to_owned(), ci as i64));
        }
        let co = self.count_status(Status::Open);
        if co > 0 {
            out.push(("open".to_owned(), co as i64));
        }
        proof {
            assert(count_views(out@) =~= status_counts_spec(self.tasks_v()));
        }
        out
    }

    /// Task counts grouped by priority, ascending, with zero counts
    /// omitted.
    pub fn task_count_by_priority(&self) -> (r: Vec<(u8, i64)>)
        requires
            self.tasks@.len() <= i64::MAX,
        ensures
            r@ == pri_entries_upto(self.tasks_v(), 256),
    {
        let mut out: Vec<(u8, i64)> = Vec::new();
        let mut p: usize = 0;
        while p < 256
            invariant
                p <= 256,
                self.tasks@.len() <= i64::MAX,
                out@ == pri_entries_upto(self.tasks_v(), p as int),
            decreases 256 - p,
        {
            let c = self.count_priority(p as u8);
            proof {
                assert(pri_entries_upto(self.tasks_v(), p + 1) == pri_entries_upto(
                    self.tasks_v(),
                    p as int,
                ) + (if priority_count(self.tasks_v(), p as u8) > 0 {
                    seq![(p as u8, priority_count(self.tasks_v(), p as u8) as i64)]
                } else {
                    Seq::<(u8, i64)>::empty()
                }));
            }
            if c > 0 {
                out.push((p as u8, c as i64));
                proof {
                    assert(out@ =~= pri_entries_upto(self.tasks_v(), p + 1));
                }
            } else {
                proof {
                    assert(out@ =~= pri_entries_upto(self.tasks_v(), p + 1));
                }
            }
            p = p + 1;
        }
        out
    }

    /// Task counts grouped by tag, ordered by count descending and tag name
    /// ascending; a task contributes to each tag it carries. The result
    /// holds exactly the tags that appear, each once, with its live count.
    pub fn task_count_by_tag(&self) -> (r: Vec<(String, i64)>)
        requires
            self.tasks@.len() <= i64::MAX,
        ensures
            sorted_by_leq(count_views(r@), tag_order_f()),
            forall|i: int, j: int|
                #![trigger count_views(r@)[i], count_views(r@)[j]]
                0 <= i < j < r@.len() ==> count_views(r@)[i].0 != count_views(r@)[j].0,
            forall|i: int|
                0 <= i < r@.len() ==> (#[trigger] count_views(r@)[i]).1 == tag_count(
                    self.tasks_v(),
                    count_views(r@)[i].0,
                ) && count_views(r@)[i].1 > 0,
            forall|tag: Seq<char>|
                #[trigger] tag_appears(self.tasks_v(), tag) <==> exists|i: int|
                    0 <= i < r@.len() && (#[trigger] count_views(r@)[i]).0 == tag,
    {
        let keys = self.collect_tag_keys();
        let n = keys.len();
        let mut pairs: Vec<(String, i64)> = Vec::new();
        let mut i: usize = 0;
        while i < n
            invariant
                self.tasks@.len() <= i64::MAX,
                i <= n,
                n == keys@.len(),
                pairs@.len() == i,
                forall|k: int|
                    0 <= k < i ==> (#[trigger] count_views(pairs@)[k]).0 == str_views(keys@)[k]
                        && count_views(pairs@)[k].1 == tag_count(
                        self.tasks_v(),
                        str_views(keys@)[k],
                    ),
            decreases n - i,
        {
            let c = self.count_tag(keys[i].as_str());
            let ghost old_pairs = pairs@;
            pairs.push((keys[i].clone(), c as i64));
            proof {
                assert(count_views(pairs@) =~= count_views(old_pairs).push(
                    (str_views(keys@)[i as int], c as i64),
                ));
            }
            i = i + 1;
        }
        let sorted = sort_tag_pairs(&pairs);
        proof {
            let kv = str_views(keys@);
            let pv = count_views(pairs@);
            let sv = count_views(sorted@);
            assert(leq_total(tag_order_f())) by {
                assert forall|a: (Seq<char>, i64), b: (Seq<char>, i64)| #[trigger] tag_order(
                    a,
                    b,
                ) || #[trigger] tag_order(b, a) by {
                    lemma_lex_total(a.0, b.0);
                }
            }
            assert(leq_trans(tag_order_f())) by {
                assert forall|a: (Seq<char>, i64), b: (Seq<char>, i64), c: (Seq<char>, i64)|
                    #[trigger] tag_order(a, b) && #[trigger] tag_order(b, c) implies tag_order(
                    a,
                    c,
                ) by {
                    if a.1 == b.1 && b.1 == c.1 {
                        lemma_lex_trans(a.0, b.0, c.0);
                    }
                }
            }
            lemma_sort_by_spec_props(pv, tag_order_f());
            broadcast use vstd::seq_lib::group_to_multiset_ensures;

            assert forall|k: int| 0 <= k < sv.len() implies (#[trigger] sv[k]).1 == tag_count(
                self.tasks_v(),
                sv[k].0,
            ) && sv[k].1 > 0 && tag_appears(self.tasks_v(), sv[k].0) by {
                assert(sv.contains(sv[k]));
                assert(sv.to_multiset().count(sv[k]) > 0);
                assert(pv.to_multiset().count(sv[k]) > 0);
                assert(pv.contains(sv[k]));
                let w = choose|w: int| 0 <= w < pv.len() && pv[w] == sv[k];
                assert(pv[w].0 == kv[w]);
                assert(tag_appears(self.tasks_v(), kv[w]));
                lemma_appears_count(self.tasks_v(), kv[w]);
            }
            assert forall|tag: Seq<char>| #[trigger] tag_appears(self.tasks_v(), tag)
                implies exists|i2: int| 0 <= i2 < sorted@.len() && (#[trigger] sv[i2]).0
                == tag by {
                let w = choose|w: int| 0 <= w < kv.len() && kv[w] == tag;
                assert(pv[w].0 == tag);
                assert(pv.contains(pv[w]));
                assert(pv.to_multiset().count(pv[w]) > 0);
                assert(sv.to_multiset().count(pv[w]) > 0);
                assert(sv.contains(pv[w]));
                let w2 = choose|w2: int| 0 <= w2 < sv.len() && sv[w2] == pv[w];
                assert(sv[w2].0 == tag);
            }
            assert forall|i2: int, j2: int|
                #![trigger sv[i2], sv[j2]]
                0 <= i2 < j2 < sv.len() implies sv[i2].0 != sv[j2].0 by {
                if sv[i2].0 == sv[j2].0 {
                    assert(sv[i2].1 == tag_count(self.tasks_v(), sv[i2].0));
                    assert(sv[j2].1 == tag_count(self.tasks_v(), sv[j2].0));
                    assert(sv[i2] == sv[j2]);
                    lemma_dup_in_multiset(sv, i2, j2);
                    assert(pv.to_multiset().count(sv[i2]) >= 2);
                    lemma_count_two_dup(pv, sv[i2]);
                    let a = choose|a: int, b: int|
                        0 <= a < b < pv.len() && pv[a] == sv[i2] && pv[b] == sv[i2];
                }
            }
        }
        sorted
    }

    /// The distinct tags that appear on any task, in first-appearance order.
    fn collect_tag_keys(&self) -> (r: Vec<String>)
        ensures
            str_views(r@).no_duplicates(),
            forall|k: int|
                0 <= k < r@.len() ==> tag_appears(self.tasks_v(), #[trigger] str_views(r@)[k]),
            forall|tag: Seq<char>|
                #[trigger] tag_appears(self.tasks_v(), tag) ==> str_views(r@).contains(tag),
    {
        let mut keys: Vec<String> = Vec::new();
        let n = self.tasks.len();
        let mut i: usize = 0;
        while i < n
            invariant
                i <= n,
                n == self.tasks@.len(),
                str_views(keys@).no_duplicates(),
                forall|k: int|
                    0 <= k < keys@.len() ==> tag_appears(
                        self.tasks_v(),
                        #[trigger] str_views(keys@)[k],
                    ),
                forall|ii: int, jj: int|
                    #![trigger self.tasks_v()[ii].tags[jj]]
                    0 <= ii < i && 0 <= jj < self.tasks_v()[ii].tags.len() ==> str_views(
                        keys@,
                    ).contains(self.tasks_v()[ii].tags[jj]),
            decreases n - i,
        {
            let m = self.tasks[i].tags.len();
            let mut j: usize = 0;
            while j < m
                invariant
                    i < n,
                    n == self.tasks@.len(),
                    j <= m,
                    m == self.tasks@[i as int].tags@.len(),
                    str_views(keys@).no_duplicates(),
                    forall|k: int|
                        0 <= k < keys@.len() ==> tag_appears(
                            self.tasks_v(),
                            #[trigger] str_views(keys@)[k],
                        ),
                    forall|ii: int, jj: int|
                        #![trigger self.tasks_v()[ii].tags[jj]]
                        0 <= ii < i && 0 <= jj < self.tasks_v()[ii].tags.len() ==> str_views(
                            keys@,
                        ).contains(self.tasks_v()[ii].tags[jj]),
                    forall|jj: int|
                        0 <= jj < j ==> str_views(keys@).contains(
                            #[trigger] self.tasks_v()[i as int].tags[jj],
                        ),
                decreases m - j,
            {
                let ghost oldkeys = str_views(keys@);
                if !vec_contains_str(&keys, self.tasks[i].tags[j].as_str()) {
                    keys.push(self.tasks[i].tags[j].clone());
                    proof {
                        assert(str_views(keys@) =~= oldkeys.push(
                            self.tasks_v()[i as int].tags[j as int],
                        ));
                        assert forall|w: int| 0 <= w < oldkeys.len() implies #[trigger] str_views(
                            keys@,
                        )[w] == oldkeys[w] by {}
                        assert(str_views(keys@).no_duplicates()) by {
                            assert forall|a: int, b: int|
                                0 <= a < b < str_views(keys@).len() implies #[trigger] str_views(
                                keys@,
                            )[a] != #[trigger] str_views(keys@)[b] by {
                                if b < oldkeys.len() {
                                    assert(oldkeys[a] != oldkeys[b]);
                                } else {
                                    if str_views(keys@)[a] == str_views(keys@)[b] {
                                        assert(oldkeys.contains(
                                            self.tasks_v()[i as int].tags[j as int],
                                        ));
                                    }
                                }
                            }
                        }
                        assert forall|k: int| 0 <= k < keys@.len() implies tag_appears(
                            self.tasks_v(),
                            #[trigger] str_views(keys@)[k],
                        ) by {
                            if k < oldkeys.len() {
                                assert(str_views(keys@)[k] == oldkeys[k]);
                            } else {
                                assert(str_views(keys@)[k] == self.tasks_v()[
                                    i as int].tags[j as int]);
                                assert(self.tasks_v()[i as int].tags.contains(
                                    self.tasks_v()[i as int].tags[j as int],
                                ));
                            }
                        }
                        assert forall|jj: int| 0 <= jj < j + 1 implies str_views(
                            keys@,
                        ).contains(#[trigger] self.tasks_v()[i as int].tags[jj]) by {
                            if jj < j {
                                assert(oldkeys.contains(self.tasks_v()[i as int].tags[jj]));
                                let w = choose|w: int|
                                    0 <= w < oldkeys.len() && oldkeys[w] == self.tasks_v()[
                                        i as int].tags[jj];
                                assert(str_views(keys@)[w] == self.tasks_v()[i as int].tags[
                                    jj]);
                            } else {
                                assert(str_views(keys@)[oldkeys.len() as int]
                                    == self.tasks_v()[i as int].tags[jj]);
                            }
                        }
                        assert(tag_appears(
                            self.tasks_v(),
                            self.tasks_v()[i as int].tags[j as int],
                        )) by {
                            assert(self.tasks_v()[i as int].tags.contains(
                                self.tasks_v()[i as int].tags[j as int],
                            ));
                        }
                        assert forall|ii: int, jj: int|
                            #![trigger self.tasks_v()[ii].tags[jj]]
                            0 <= ii < i && 0 <= jj < self.tasks_v()[ii].tags.len()
                            implies str_views(keys@).contains(
                            self.tasks_v()[ii].tags[jj],
                        ) by {
                            assert(oldkeys.contains(self.tasks_v()[ii].tags[jj]));
                            let w = choose|w: int|
                                0 <= w < oldkeys.len() && oldkeys[w] == self.tasks_v()[
                                    ii].tags[jj];
                            assert(str_views(keys@)[w] == self.tasks_v()[ii].tags[jj]);
                        }
                    }
                } else {
                    proof {
                        assert(str_views(keys@).contains(
                            self.tasks_v()[i as int].tags[j as int],
                        ));
                    }
                }
                j = j + 1;
            }
            i = i + 1;
        }
        proof {
            assert forall|tag: Seq<char>| #[trigger] tag_appears(self.tasks_v(), tag)
                implies str_views(keys@).contains(tag) by {
                let ii = choose|ii: int|
                    0 <= ii < self.tasks_v().len() && (#[trigger] self.tasks_v()[
                        ii]).tags.contains(tag);
                let jj = choose|jj: int|
                    0 <= jj < self.tasks_v()[ii].tags.len() && self.tasks_v()[ii].tags[jj]
                        == tag;
                assert(str_views(keys@).contains(self.tasks_v()[ii].tags[jj]));
            }
        }
        keys
    }
}

/// A tag appears on some task exactly when its count is positive.
pub proof fn lemma_appears_count(tasks: Seq<TaskView>, tag: Seq<char>)
    ensures
        tag_appears(tasks, tag) <==> tag_count(tasks, tag) > 0,
{
    broadcast use vstd::seq_lib::group_to_multiset_ensures;

    if tag_appears(tasks, tag) {
        let i = choose|i: int|
            0 <= i < tasks.len() && (#[trigger] tasks[i]).tags.contains(tag);
        assert(carries_f(tag)(tasks[i]));
        tasks.lemma_filter_contains(carries_f(tag), i);
        assert(tasks.filter(carries_f(tag)).contains(tasks[i]));
        assert(tasks.filter(carries_f(tag)).len() > 0);
    }
    if tag_count(tasks, tag) > 0 {
        let f = tasks.filter(carries_f(tag));
        assert(f.contains(f[0]));
        tasks.lemma_filter_contains_rev(carries_f(tag), f[0]);
        assert(tasks.contains(f[0]));
        tasks.lemma_filter_pred(carries_f(tag), 0);
        assert(f[0].tags.contains(tag));
        let w = choose|w: int| 0 <= w < tasks.len() && tasks[w] == f[0];
        assert(tasks[w].tags.contains(tag));
    }
}

proof fn lemma_dup_in_multiset<A>(s: Seq<A>, i: int, j: int)
    requires
        0 <= i < j < s.len(),
        s[i] == s[j],
    ensures
        s.to_multiset().count(s[i]) >= 2,
{
    broadcast use vstd::seq_lib::group_to_multiset_ensures;

    assert(s =~= s.remove(j).insert(j, s[j]));
    assert(s.remove(j).to_multiset() =~= s.to_multiset().remove(s[j]));
    assert(s.remove(j).contains(s[i])) by {
        assert(s.remove(j)[i] == s[i]);
    }
    assert(s.remove(j).to_multiset().count(s[i]) > 0);
}

proof fn lemma_count_two_dup<A>(s: Seq<A>, x: A)
    requires
        s.to_multiset().count(x) >= 2,
    ensures
        exists|a: int, b: int| 0 <= a < b < s.len() && s[a] == x && s[b] == x,
    decreases s.len(),
{
    broadcast use vstd::seq_lib::group_to_multiset_ensures;

    assert(s.len() > 0) by {
        if s.len() == 0 {
            assert(s.to_multiset().len() == 0);
        }
    }
    if s.last() == x {
        assert(s =~= s.drop_last().push(s.last()));
        assert(s.to_multiset() =~= s.drop_last().to_multiset().insert(x));
        if s.drop_last().to_multiset().count(x) >= 1 {
            assert(s.drop_last().contains(x));
            let a = choose|a: int|
                0 <= a < s.drop_last().len() && s.drop_last()[a] == x;
            assert(s[a] == x && s[s.len() - 1] == x && a < s.len() - 1);
        } else {
            assert(false);
        }
    } else {
        assert(s =~= s.drop_last().push(s.last()));
        assert(s.to_multiset() =~= s.drop_last().to_multiset().insert(s.last()));
        assert(s.drop_last().to_multiset().count(x) >= 2);
        lemma_count_two_dup(s.drop_last(), x);
        let (a, b) = choose|a: int, b: int|
            0 <= a < b < s.drop_last().len() && s.drop_last()[a] == x && s.drop_last()[b]
                == x;
        assert(s[a] == x && s[b] == x);
    }
}

/// Compare two tag count pairs in the listing order.
fn tag_pair_le(a: &(String, i64), b: &(String, i64)) -> (r: bool)
    ensures
        r == tag_order((a.0@, a.1), (b.0@, b.1)),
{
    a.1 > b.1 || (a.1 == b.1 && lex_le(a.0.as_str(), b.0.as_str()))
}

fn insert_tag_pair(out: &mut Vec<(String, i64)>, x: (String, i64))
    ensures
        count_views(final(out)@) == insert_sorted(
            (x.0@, x.1),
            count_views(old(out)@),
            tag_order_f(),
        ),
{
    let ghost olds = count_views(out@);
    let ghost xv = (x.0@, x.1);
    let mut j: usize = 0;
    while j < out.len() && tag_pair_le(&out[j], &x)
        invariant
            j <= out@.len(),
            olds == count_views(out@),
            xv == (x.0@, x.1),
            forall|k: int| 0 <= k < j ==> tag_order(#[trigger] olds[k], xv),
        decreases out@.len() - j,
    {
        j = j + 1;
    }
    proof {
        lemma_insert_sorted_position(xv, olds, tag_order_f(), j as int);
    }
    out.insert(j, x);
    proof {
        assert(count_views(out@) =~= olds.take(j as int) + seq![xv] + olds.skip(j as int));
    }
}

/// Sort tag count pairs by count descending, then tag ascending.
fn sort_tag_pairs(v: &Vec<(String, i64)>) -> (r: Vec<(String, i64)>)
    ensures
        count_views(r@) == sort_by_spec(count_views(v@), tag_order_f()),
{
    let mut out: Vec<(String, i64)> = Vec::new();
    let mut i: usize = 0;
    while i < v.len()
        invariant
            i <= v@.len(),
            count_views(out@) == sort_by_spec(count_views(v@.take(i as int)), tag_order_f()),
        decreases v@.len() - i,
    {
        proof {
            assert(count_views(v@.take(i + 1)).drop_last() =~= count_views(v@.take(i as int)));
            assert(count_views(v@.take(i + 1)).last() == (v@[i as int].0@, v@[i as int].1));
        }
        insert_tag_pair(&mut out, (v[i].0.clone(), v[i].1));
        i = i + 1;
    }
    proof {
        assert(v@.take(v@.len() as int) =~= v@);
    }
    out
}


/// An unfinished or finished containment child of `pid` that is Done.
pub open spec fn done_child_f(pid: Seq<char>) -> spec_fn(TaskView) -> bool {
    |t: TaskView| t.parent_id == Some(pid) && t.status == Status::Done
}

/// How many containment children of `pid` are Done.
pub open spec fn done_child_count(tasks: Seq<TaskView>, pid: Seq<char>) -> int {
    tasks.filter(done_child_f(pid)).len() as int
}

/// The progress percentage: completed hundredths, rounded down, zero for a
/// childless epic.
pub open spec fn pct_spec(done: int, total: int) -> int {
    if total == 0 {
        0
    } else {
        done * 100 / total
    }
}

/// A filter that implies another keeps at most as many elements.
proof fn lemma_filter_implies_le<A>(s: Seq<A>, p: spec_fn(A) -> bool, q: spec_fn(A) -> bool)
    requires
        forall|x: A| #[trigger] p(x) ==> q(x),
    ensures
        s.filter(p).len() <= s.filter(q).len(),
    decreases s.len(),
{
    reveal(Seq::filter);
    if s.len() > 0 {
        lemma_filter_implies_le(s.drop_last(), p, q);
    }
}

/// An epic with its child completion counts.
pub struct EpicProgress {
    pub task: Task,
    pub children_total: u64,
    pub children_done: u64,
    pub progress_pct: u64,
}

/// The mathematical value of an epic progress row.
#[verifier::ext_equal]
pub ghost struct EpicProgressView {
    pub task: TaskView,
    pub children_total: int,
    pub children_done: int,
    pub progress_pct: int,
}

impl View for EpicProgress {
    type V = EpicProgressView;

    open spec fn view(&self) -> EpicProgressView {
        EpicProgressView {
            task: self.task@,
            children_total: self.children_total as int,
            children_done: self.children_done as int,
            progress_pct: self.progress_pct as int,
        }
    }
}

/// The filter that selects epics: tasks carrying the "epic" tag.
pub open spec fn epic_filter_v(include_done: bool) -> crate::query::TaskFilterView {
    crate::query::TaskFilterView {
        include_done: include_done,
        status: None,
        priority: None,
        tag: Some("epic"@),
        parent: None,
        search: None,
    }
}

impl Store {
    /// How many containment children the task with this id has.
    fn count_children(&self, pid: &str) -> (r: usize)
        ensures
            r == crate::lifecycle::child_count(self.tasks_v(), pid@),
            r <= self.tasks@.len(),
    {
        let n = self.tasks.len();
        let mut count: usize = 0;
        let mut i: usize = 0;
        while i < n
            invariant
                i <= n,
                n == self.tasks@.len(),
                count <= i,
                count == self.tasks_v().take(i as int).filter(child_of(pid@)).len(),
            decreases n - i,
        {
            let ghost prefix = self.tasks_v().take(i as int);
            let ghost x = self.tasks_v()[i as int];
            proof {
                assert(self.tasks_v().take(i + 1) =~= prefix.push(x));
                lemma_filter_push(prefix, x, child_of(pid@));
            }
            let is_child = match &self.tasks[i].parent_id {
                Some(p) => str_eq(p.as_str(), pid),
                None => false,
            };
            if is_child {
                proof {
                    assert(child_of(pid@)(x));
                }
                count = count + 1;
            } else {
                proof {
                    assert(!child_of(pid@)(x));
                }
            }
            i = i + 1;
        }
        proof {
            assert(self.tasks_v().take(n as int) =~= self.tasks_v());
        }
        count
    }

    /// How many containment children of the task with this id are Done.
    fn count_done_children(&self, pid: &str) -> (r: usize)
        ensures
            r == done_child_count(self.tasks_v(), pid@),
            r <= self.tasks@.len(),
    {
        let n = self.tasks.len();
        let mut count: usize = 0;
        let mut i: usize = 0;
        while i < n
            invariant
                i <= n,
                n == self.tasks@.len(),
                count <= i,
                count == self.tasks_v().take(i as int).filter(done_child_f(pid@)).len(),
            decreases n - i,
        {
            let ghost prefix = self.tasks_v().take(i as int);
            let ghost x = self.tasks_v()[i as int];
            proof {
                assert(self.tasks_v().take(i + 1) =~= prefix.push(x));
                lemma_filter_push(prefix, x, done_child_f(pid@));
            }
            let is_done_child = match &self.tasks[i].parent_id {
                Some(p) => str_eq(p.as_str(), pid) && self.tasks[i].status == Status::Done,
                None => false,
            };
            if is_done_child {
                proof {
                    assert(done_child_f(pid@)(x));
                }
                count = count + 1;
            } else {
                proof {
                    assert(!done_child_f(pid@)(x));
                }
            }
            i = i + 1;
        }
        proof {
            assert(self.tasks_v().take(n as int) =~= self.tasks_v());
        }
        count
    }

    /// Epic progress: every task tagged "epic" (optionally including Done
    /// ones), in the listing order, with its child totals and completion
    /// percentage, rounded down.
    pub fn epic_progress(&self, include_done: bool) -> (r: Vec<EpicProgress>)
        requires
            self.wf(),
            self.tasks@.len() < u64::MAX,
        ensures
            ({
                let epics = sort_by_spec(
                    self.tasks_v().filter(filter_f(epic_filter_v(include_done))),
                    task_le_f(),
                );
                &&& r@.len() == epics.len()
                &&& forall|i: int|
                    0 <= i < r@.len() ==> {
                        let total = crate::lifecycle::child_count(
                            self.tasks_v(),
                            epics[i].id,
                        );
                        let done = done_child_count(self.tasks_v(), epics[i].id);
                        &&& (#[trigger] r@[i])@.task == epics[i]
                        &&& r@[i]@.children_total == total
                        &&& r@[i]@.children_done == done
                        &&& r@[i]@.progress_pct == pct_spec(done, total)
                    }
            }),
    {
        let filt = TaskFilter {
            include_done,
            status: None,
            priority: None,
            tag: Some("epic".to_owned()),
            parent: None,
            search: None,
        };
        proof {
            assert(filt@ =~= epic_filter_v(include_done));
        }
        let epics = self.list_tasks(&filt);
        let ghost epics_v = sort_by_spec(
            self.tasks_v().filter(filter_f(epic_filter_v(include_done))),
            task_le_f(),
        );
        let mut out: Vec<EpicProgress> = Vec::new();
        let n = epics.len();
        let mut i: usize = 0;
        while i < n
            invariant
                self.wf(),
                self.tasks@.len() < u64::MAX,
                i <= n,
                n == epics@.len(),
                task_views(epics@) == epics_v,
                out@.len() == i,
                forall|k: int|
                    0 <= k < i ==> {
                        let total = crate::lifecycle::child_count(
                            self.tasks_v(),
                            epics_v[k].id,
                        );
                        let done = done_child_count(self.tasks_v(), epics_v[k].id);
                        &&& (#[trigger] out@[k])@.task == epics_v[k]
                        &&& out@[k]@.children_total == total
                        &&& out@[k]@.children_done == done
                        &&& out@[k]@.progress_pct == pct_spec(done, total)
                    },
            decreases n - i,
        {
            let total = self.count_children(epics[i].id.as_str());
            let done = self.count_done_children(epics[i].id.as_str());
            proof {
                assert forall|x: TaskView| #[trigger] done_child_f(epics_v[i as int].id)(x)
                    implies child_of(epics_v[i as int].id)(x) by {}
                lemma_filter_implies_le(
                    self.tasks_v(),
                    done_child_f(epics_v[i as int].id),
                    child_of(epics_v[i as int].id),
                );
            }
            let pct: u64 = if total == 0 {
                0
            } else {
                let w = (done as u128) * 100 / (total as u128);
                proof {
                    assert(done * 100 / (total as int) <= 100) by (nonlinear_arith)
                        requires
                            0 < total as int,
                            0 <= done as int <= total as int,
                    ;
                    assert(w <= 100);
                }
                w as u64
            };
            out.push(
                EpicProgress {
                    task: epics[i].duplicate(),
                    children_total: total as u64,
                    children_done: done as u64,
                    progress_pct: pct,
                },
            );
            i = i + 1;
        }
        out
    }
}

/// The command reference lines of the context summary.
pub fn command_reference() -> (r: Vec<String>)
    ensures
        str_views(r@) =~= command_reference_spec(),
{
    let mut out: Vec<String> = Vec::new();
    out.push("tk create <title> [-p priority] [-d desc] [-t tags] [--parent id]".to_owned());
    out.push("tk list [-s status] [-p pri] [-t tag] [--json]".to_owned());
    out.push("tk ready [--limit N] [--json]".to_owned());
    out.push("tk show <id> [--json]".to_owned());
    out.push("tk update <id> [fields...] [--claim]".to_owned());
    out.push("tk close <id> [-c comment]".to_owned());
    out.push("tk dep add|remove <child> <parent>".to_owned());
    out.push("tk comment <id> <body>".to_owned());
    out.push("tk stats [--oneline] [--json]".to_owned());
    proof {
        assert(str_views(out@) =~= command_reference_spec());
    }
    out
}

/// The nine lines of the command reference.
pub open spec fn command_reference_spec() -> Seq<Seq<char>> {
    seq![
        "tk create <title> [-p priority] [-d desc] [-t tags] [--parent id]"@,
        "tk list [-s status] [-p pri] [-t tag] [--json]"@,
        "tk ready [--limit N] [--json]"@,
        "tk show <id> [--json]"@,
        "tk update <id> [fields...] [--claim]"@,
        "tk close <id> [-c comment]"@,
        "tk dep add|remove <child> <parent>"@,
        "tk comment <id> <body>"@,
        "tk stats [--oneline] [--json]"@,
    ]
}

/// The canonical by-status counts of the context summary: all four
/// statuses, zeros included, in the canonical order.
pub open spec fn canonical_status_counts(tasks: Seq<TaskView>) -> Seq<(Seq<char>, i64)> {
    seq![
        ("open"@, status_count(tasks, Status::Open) as i64),
        ("in_progress"@, status_count(tasks, Status::InProgress) as i64),
        ("blocked"@, status_count(tasks, Status::Blocked) as i64),
        ("done"@, status_count(tasks, Status::Done) as i64),
    ]
}

/// The in-progress listing filter of the context summary.
pub open spec fn in_progress_filter_v() -> crate::query::TaskFilterView {
    crate::query::TaskFilterView {
        include_done: false,
        status: Some("in_progress"@),
        priority: None,
        tag: None,
        parent: None,
        search: None,
    }
}

/// The context summary for session bootstrapping: status counts, the
/// in-progress list, the first five ready tasks, and the command reference.
pub struct PrimeData {
    pub by_status: Vec<(String, i64)>,
    pub in_progress: Vec<Task>,
    pub ready: Vec<Task>,
    pub command_reference: Vec<String>,
}

impl Store {
    /// Assemble the context summary.
    pub fn prime_data(&self) -> (r: PrimeData)
        requires
            self.wf(),
            self.tasks@.len() <= i64::MAX,
        ensures
            count_views(r.by_status@) == canonical_status_counts(self.tasks_v()),
            task_views(r.in_progress@) == sort_by_spec(
                self.tasks_v().filter(filter_f(in_progress_filter_v())),
                task_le_f(),
            ),
            task_views(r.ready@) == capped(
                sort_by_spec(
                    self.tasks_v().filter(
                        crate::graph::ready_f(self.tasks_v(), self.deps_v()),
                    ),
                    task_le_f(),
                ),
                Some(5u32),
            ),
            str_views(r.command_reference@) == command_reference_spec(),
    {
        let mut by_status: Vec<(String, i64)> = Vec::new();
        let co = self.count_status(Status::Open);
        by_status.push(("open".to_owned(), co as i64));
        let ci = self.count_status(Status::InProgress);
        by_status.push(("in_progress".to_owned(), ci as i64));
        let cb = self.count_status(Status::Blocked);
        by_status.push(("blocked".to_owned(), cb as i64));
        let cd = self.count_status(Status::Done);
        by_status.push(("done".to_owned(), cd as i64));
        proof {
            assert(count_views(by_status@) =~= canonical_status_counts(self.tasks_v()));
        }
        let filt = TaskFilter {
            include_done: false,
            status: Some("in_progress".to_owned()),
            priority: None,
            tag: None,
            parent: None,
            search: None,
        };
        proof {
            assert(filt@ =~= in_progress_filter_v());
        }
        let in_progress = self.list_tasks(&filt);
        let ready = self.get_ready_tasks(Some(5));
        let command_reference = command_reference();
        PrimeData { by_status, in_progress, ready, command_reference }
    }
}

} // verus!
