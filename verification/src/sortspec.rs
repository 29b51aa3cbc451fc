//! A deterministic insertion sort at the specification level, with the
//! lemmas that connect it to sortedness and to the multiset of its input.
//! Executable sorts state their result as exactly `sort_by_spec` of their
//! input, so every ordered query has one pinned answer.

use vstd::prelude::*;

verus! {

/// Insert `x` into `s` before the first element not `leq` it.
pub open spec fn insert_sorted<A>(x: A, s: Seq<A>, leq: spec_fn(A, A) -> bool) -> Seq<A>
    decreases s.len(),
{
    if s.len() == 0 {
        seq![x]
    } else if leq(s[0], x) {
        seq![s[0]] + insert_sorted(x, s.drop_first(), leq)
    } else {
        seq![x] + s
    }
}

/// Insertion sort: a deterministic, stable ordering of `s` under `leq`.
pub open spec fn sort_by_spec<A>(s: Seq<A>, leq: spec_fn(A, A) -> bool) -> Seq<A>
    decreases s.len(),
{
    if s.len() == 0 {
        Seq::empty()
    } else {
        insert_sorted(s.last(), sort_by_spec(s.drop_last(), leq), leq)
    }
}

/// A sequence cut down to an optional limit on its length.
pub open spec fn capped<A>(s: Seq<A>, limit: Option<u32>) -> Seq<A> {
    match limit {
        None => s,
        Some(n) => if s.len() <= n { s } else { s.take(n as int) },
    }
}

/// Pairwise order of a sequence under `leq`.
pub open spec fn sorted_by_leq<A>(s: Seq<A>, leq: spec_fn(A, A) -> bool) -> bool {
    forall|i: int, j: int| 0 <= i < j < s.len() ==> #[trigger] leq(s[i], s[j])
}

/// `leq` relates every pair of values, one way or the other.
pub open spec fn leq_total<A>(leq: spec_fn(A, A) -> bool) -> bool {
    forall|a: A, b: A| #[trigger] leq(a, b) || #[trigger] leq(b, a)
}

/// `leq` is transitive.
pub open spec fn leq_trans<A>(leq: spec_fn(A, A) -> bool) -> bool {
    forall|a: A, b: A, c: A| #[trigger] leq(a, b) && #[trigger] leq(b, c) ==> leq(a, c)
}

/// Inserting adds one element and keeps the rest: the multiset grows by `x`.
pub proof fn lemma_insert_sorted_multiset<A>(x: A, s: Seq<A>, leq: spec_fn(A, A) -> bool)
    ensures
        insert_sorted(x, s, leq).len() == s.len() + 1,
        insert_sorted(x, s, leq).to_multiset() =~= s.to_multiset().insert(x),
    decreases s.len(),
{
    broadcast use vstd::seq_lib::group_to_multiset_ensures;

    if s.len() == 0 {
        assert(seq![x] =~= Seq::<A>::empty().push(x));
        assert(Seq::<A>::empty().push(x).to_multiset() =~= Seq::<A>::empty().to_multiset().insert(x));
    } else if leq(s[0], x) {
        lemma_insert_sorted_multiset(x, s.drop_first(), leq);
        let inner = insert_sorted(x, s.drop_first(), leq);
        lemma_cons_multiset(s[0], inner);
        lemma_cons_multiset(s[0], s.drop_first());
        assert(seq![s[0]] + s.drop_first() =~= s);
    } else {
        lemma_cons_multiset(x, s);
    }
}

/// Prepending one element inserts it into the multiset.
proof fn lemma_cons_multiset<A>(x: A, s: Seq<A>)
    ensures
        (seq![x] + s).to_multiset() =~= s.to_multiset().insert(x),
    decreases s.len(),
{
    broadcast use vstd::seq_lib::group_to_multiset_ensures;

    if s.len() == 0 {
        assert(seq![x] + s =~= Seq::<A>::empty().push(x));
    } else {
        assert(seq![x] + s =~= (seq![x] + s.drop_last()).push(s.last()));
        lemma_cons_multiset(x, s.drop_last());
        assert(s =~= s.drop_last().push(s.last()));
        assert(s.to_multiset() =~= s.drop_last().to_multiset().insert(s.last()));
    }
}

/// Inserting into a sorted sequence keeps it sorted.
pub proof fn lemma_insert_sorted_sorted<A>(x: A, s: Seq<A>, leq: spec_fn(A, A) -> bool)
    requires
        leq_total(leq),
        leq_trans(leq),
        sorted_by_leq(s, leq),
    ensures
        sorted_by_leq(insert_sorted(x, s, leq), leq),
    decreases s.len(),
{
    broadcast use vstd::seq_lib::group_to_multiset_ensures;

    if s.len() == 0 {
    } else if leq(s[0], x) {
        assert(sorted_by_leq(s.drop_first(), leq));
        lemma_insert_sorted_sorted(x, s.drop_first(), leq);
        let inner = insert_sorted(x, s.drop_first(), leq);
        lemma_insert_sorted_multiset(x, s.drop_first(), leq);
        let r = seq![s[0]] + inner;
        assert forall|i: int, j: int| 0 <= i < j < r.len() implies #[trigger] leq(r[i], r[j]) by {
            if i == 0 {
                assert(inner.to_multiset().contains(inner[j - 1]));
                if inner[j - 1] == x {
                    assert(leq(s[0], r[j]));
                } else {
                    assert(s.drop_first().to_multiset().contains(inner[j - 1]));
                    assert(s.drop_first().contains(inner[j - 1]));
                    let k = choose|k: int| 0 <= k < s.drop_first().len() && s.drop_first()[k] == inner[j - 1];
                    assert(leq(s[0], s[k + 1]));
                }
            } else {
                assert(leq(inner[i - 1], inner[j - 1]));
            }
        }
    } else {
        let r = seq![x] + s;
        assert forall|i: int, j: int| 0 <= i < j < r.len() implies #[trigger] leq(r[i], r[j]) by {
            if i == 0 {
                assert(leq(x, s[0]));
                if j > 1 {
                    assert(leq(s[0], s[j - 1]));
                }
            } else {
                assert(leq(s[i - 1], s[j - 1]));
            }
        }
    }
}

/// The sort is a permutation of its input, and it is sorted.
pub proof fn lemma_sort_by_spec_props<A>(s: Seq<A>, leq: spec_fn(A, A) -> bool)
    requires
        leq_total(leq),
        leq_trans(leq),
    ensures
        sort_by_spec(s, leq).len() == s.len(),
        sort_by_spec(s, leq).to_multiset() =~= s.to_multiset(),
        sorted_by_leq(sort_by_spec(s, leq), leq),
    decreases s.len(),
{
    broadcast use vstd::seq_lib::group_to_multiset_ensures;

    if s.len() == 0 {
    } else {
        lemma_sort_by_spec_props(s.drop_last(), leq);
        lemma_insert_sorted_multiset(s.last(), sort_by_spec(s.drop_last(), leq), leq);
        lemma_insert_sorted_sorted(s.last(), sort_by_spec(s.drop_last(), leq), leq);
        assert(s =~= s.drop_last().push(s.last()));
        assert(s.to_multiset() =~= s.drop_last().to_multiset().insert(s.last()));
    }
}

/// Membership transfers through the sort, in both directions.
pub proof fn lemma_sort_by_spec_contains<A>(s: Seq<A>, leq: spec_fn(A, A) -> bool, x: A)
    requires
        leq_total(leq),
        leq_trans(leq),
    ensures
        s.contains(x) <==> sort_by_spec(s, leq).contains(x),
{
    broadcast use vstd::seq_lib::group_to_multiset_ensures;

    lemma_sort_by_spec_props(s, leq);
    assert(s.contains(x) <==> s.to_multiset().count(x) > 0);
    assert(sort_by_spec(s, leq).contains(x) <==> sort_by_spec(s, leq).to_multiset().count(x) > 0);
}

/// Where the walk of the executable insertion lands is where the
/// specification-level insertion puts the element: before index `j`, the
/// first position whose element is not `leq x`.
pub proof fn lemma_insert_sorted_position<A>(x: A, s: Seq<A>, leq: spec_fn(A, A) -> bool, j: int)
    requires
        0 <= j <= s.len(),
        forall|k: int| 0 <= k < j ==> leq(#[trigger] s[k], x),
        j < s.len() ==> !leq(s[j], x),
    ensures
        insert_sorted(x, s, leq) =~= s.take(j) + seq![x] + s.skip(j),
    decreases s.len(),
{
    if s.len() == 0 {
        assert(insert_sorted(x, s, leq) =~= seq![x]);
    } else if j == 0 {
        assert(!leq(s[0], x));
    } else {
        assert(leq(s[0], x));
        lemma_insert_sorted_position(x, s.drop_first(), leq, j - 1);
        assert(insert_sorted(x, s, leq) =~= seq![s[0]] + (s.drop_first().take(j - 1) + seq![x]
            + s.drop_first().skip(j - 1)));
    }
}

} // verus!
