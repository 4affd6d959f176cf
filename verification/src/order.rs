//! What it means for rows to be sorted by a key column, and the facts about
//! sorted sequences that the sorts are proved from.

use vstd::prelude::*;
use crate::row::Row;
use crate::row::key_le;

verus! {

/// Every row stands before every later one in the key order.
pub open spec fn sorted_by_key(rows: Seq<Row>, idx: int, descending: bool, nulls_last: bool) -> bool {
    forall|i: int, j: int|
        0 <= i < j < rows.len() ==> key_le(
            (#[trigger] rows[i]).key(idx),
            (#[trigger] rows[j]).key(idx),
            descending,
            nulls_last,
        )
}

/// The rows whose key is `k`, in the order in which they stand in `rows`.
pub open spec fn with_key(rows: Seq<Row>, idx: int, k: Option<i64>) -> Seq<Row> {
    rows.filter(|r: Row| r.key(idx) == k)
}

/// Rows with equal keys stand in `out` as they stand in `inp`, and no row is
/// lost or made up.
pub open spec fn same_rows_by_key(out: Seq<Row>, inp: Seq<Row>, idx: int) -> bool {
    forall|k: Option<i64>| #[trigger] with_key(out, idx, k) == with_key(inp, idx, k)
}

/// `out` is `inp` sorted by the key in column `idx`, rows with equal keys left
/// in their order. There is exactly one such `out` for each `inp`.
pub open spec fn is_stable_sort_of(
    out: Seq<Row>,
    inp: Seq<Row>,
    idx: int,
    descending: bool,
    nulls_last: bool,
) -> bool {
    &&& sorted_by_key(out, idx, descending, nulls_last)
    &&& same_rows_by_key(out, inp, idx)
}

/// A filter that no element passes leaves nothing.
pub proof fn lemma_filter_none<A>(s: Seq<A>, pred: spec_fn(A) -> bool)
    requires
        forall|i: int| 0 <= i < s.len() ==> !pred(#[trigger] s[i]),
    ensures
        s.filter(pred) == Seq::<A>::empty(),
    decreases s.len(),
{
    reveal(Seq::filter);
    if s.len() > 0 {
        lemma_filter_none(s.drop_last(), pred);
    }
}

/// A filter that every element passes leaves all.
pub proof fn lemma_filter_all<A>(s: Seq<A>, pred: spec_fn(A) -> bool)
    requires
        forall|i: int| 0 <= i < s.len() ==> pred(#[trigger] s[i]),
    ensures
        s.filter(pred) == s,
    decreases s.len(),
{
    reveal(Seq::filter);
    if s.len() > 0 {
        lemma_filter_all(s.drop_last(), pred);
        assert(s.drop_last().push(s.last()) =~= s);
    }
}

/// What a filter leaves of a sequence into which an element was inserted.
pub proof fn lemma_filter_insert<A>(s: Seq<A>, p: int, a: A, pred: spec_fn(A) -> bool)
    requires
        0 <= p <= s.len(),
    ensures
        s.insert(p, a).filter(pred) == s.take(p).filter(pred) + (if pred(a) {
            seq![a]
        } else {
            Seq::<A>::empty()
        }) + s.skip(p).filter(pred),
        s.filter(pred) == s.take(p).filter(pred) + s.skip(p).filter(pred),
{
    assert(s.insert(p, a) =~= s.take(p).push(a) + s.skip(p));
    assert(s =~= s.take(p) + s.skip(p));
    Seq::filter_distributes_over_add(s.take(p).push(a), s.skip(p), pred);
    Seq::filter_distributes_over_add(s.take(p), s.skip(p), pred);
    s.take(p).lemma_filter_push(a, pred);
    if pred(a) {
        assert(s.take(p).filter(pred).push(a) =~= s.take(p).filter(pred) + seq![a]);
    } else {
        assert(s.take(p).filter(pred) + Seq::<A>::empty() =~= s.take(p).filter(pred));
    }
}

/// The multiset of rows follows from the rows of each key: sequences that
/// agree key by key hold the same rows.
pub proof fn lemma_same_rows_multiset(a: Seq<Row>, b: Seq<Row>, idx: int)
    requires
        same_rows_by_key(a, b, idx),
    ensures
        a.to_multiset() == b.to_multiset(),
{
    assert forall|r: Row| a.to_multiset().count(r) == b.to_multiset().count(r) by {
        let k = r.key(idx);
        assert(with_key(a, idx, k) == with_key(b, idx, k));
        lemma_count_through_filter(a, idx, r);
        lemma_count_through_filter(b, idx, r);
    }
    assert(a.to_multiset() =~= b.to_multiset());
}

/// A row occurs in a sequence as often as among the rows of its own key.
pub proof fn lemma_count_through_filter(s: Seq<Row>, idx: int, r: Row)
    ensures
        s.to_multiset().count(r) == with_key(s, idx, r.key(idx)).to_multiset().count(r),
    decreases s.len(),
{
    broadcast use vstd::seq_lib::group_to_multiset_ensures;

    let pred = |x: Row| x.key(idx) == r.key(idx);
    reveal(Seq::filter);
    if s.len() == 0 {
    } else {
        let front = s.drop_last();
        lemma_count_through_filter(front, idx, r);
        assert(front.push(s.last()) =~= s);
        assert(s.to_multiset() == front.to_multiset().insert(s.last()));
        front.lemma_filter_push(s.last(), pred);
    }
}

/// A filter that leaves something found an element that passes.
pub proof fn lemma_filter_some<A>(s: Seq<A>, pred: spec_fn(A) -> bool) -> (i: int)
    requires
        s.filter(pred).len() > 0,
    ensures
        0 <= i < s.len(),
        pred(s[i]),
{
    if forall|j: int| 0 <= j < s.len() ==> !pred(#[trigger] s[j]) {
        lemma_filter_none(s, pred);
    }
    choose|j: int| 0 <= j < s.len() && pred(#[trigger] s[j])
}

/// What a filter leaves of a sequence, told by its first element.
pub proof fn lemma_filter_first<A>(s: Seq<A>, pred: spec_fn(A) -> bool)
    requires
        s.len() > 0,
    ensures
        s.filter(pred) == (if pred(s[0]) {
            seq![s[0]]
        } else {
            Seq::<A>::empty()
        }) + s.skip(1).filter(pred),
{
    assert(s =~= Seq::<A>::empty().insert(0, s[0]) + s.skip(1));
    assert(s =~= s.skip(1).insert(0, s[0]));
    lemma_filter_insert(s.skip(1), 0, s[0], pred);
    assert(s.skip(1).take(0) =~= Seq::<A>::empty());
    assert(s.skip(1).skip(0) =~= s.skip(1));
    lemma_filter_none(Seq::<A>::empty(), pred);
}

/// Inserting a row in front of the first row that it may stand before keeps
/// the sequence a stable sort, now of the input with that row in front.
pub proof fn lemma_insert_sorted(
    out: Seq<Row>,
    inp: Seq<Row>,
    r: Row,
    p: int,
    idx: int,
    descending: bool,
    nulls_last: bool,
)
    requires
        is_stable_sort_of(out, inp, idx, descending, nulls_last),
        0 <= p <= out.len(),
        forall|i: int| 0 <= i < p ==> !key_le(r.key(idx), (#[trigger] out[i]).key(idx), descending, nulls_last),
        p < out.len() ==> key_le(r.key(idx), out[p].key(idx), descending, nulls_last),
    ensures
        is_stable_sort_of(out.insert(p, r), seq![r] + inp, idx, descending, nulls_last),
{
    let grown = out.insert(p, r);
    assert forall|i: int, j: int| 0 <= i < j < grown.len() implies key_le(
        (#[trigger] grown[i]).key(idx),
        (#[trigger] grown[j]).key(idx),
        descending,
        nulls_last,
    ) by {
        if i < p && j == p {
            assert(grown[i] == out[i]);
        } else if i == p {
            assert(grown[j] == out[j - 1]);
            if j - 1 > p {
                assert(key_le(out[p].key(idx), out[j - 1].key(idx), descending, nulls_last));
            }
        } else if i < p && j < p {
            assert(grown[i] == out[i]);
            assert(grown[j] == out[j]);
        } else if i < p {
            assert(grown[i] == out[i]);
            assert(grown[j] == out[j - 1]);
        } else {
            assert(grown[i] == out[i - 1]);
            assert(grown[j] == out[j - 1]);
        }
    }
    assert forall|k: Option<i64>| #[trigger] with_key(grown, idx, k) == with_key(seq![r] + inp, idx, k) by {
        let pred = |x: Row| x.key(idx) == k;
        lemma_filter_insert(out, p, r, pred);
        lemma_filter_first(seq![r] + inp, pred);
        assert((seq![r] + inp).skip(1) =~= inp);
        assert(with_key(out, idx, k) == with_key(inp, idx, k));
        if pred(r) {
            assert forall|i: int| 0 <= i < out.take(p).len() implies !pred(#[trigger] out.take(p)[i]) by {
                assert(out.take(p)[i] == out[i]);
            }
            lemma_filter_none(out.take(p), pred);
            assert(Seq::<Row>::empty() + seq![r] =~= seq![r]);
            assert(Seq::<Row>::empty() + out.skip(p).filter(pred) =~= out.skip(p).filter(pred));
        } else {
            assert(out.take(p).filter(pred) + Seq::<Row>::empty() =~= out.take(p).filter(pred));
            assert(Seq::<Row>::empty() + inp.filter(pred) =~= inp.filter(pred));
        }
    }
}

/// Two sorted sequences that agree key by key are one sequence.
pub proof fn lemma_sorted_unique(a: Seq<Row>, b: Seq<Row>, idx: int, descending: bool, nulls_last: bool)
    requires
        sorted_by_key(a, idx, descending, nulls_last),
        sorted_by_key(b, idx, descending, nulls_last),
        same_rows_by_key(a, b, idx),
    ensures
        a == b,
    decreases a.len() + b.len(),
{
    if a.len() == 0 && b.len() == 0 {
        assert(a =~= b);
    } else {
        // The first row in either sequence has the smallest key of both.
        let k = if a.len() > 0 {
            a[0].key(idx)
        } else {
            b[0].key(idx)
        };
        let pred = |x: Row| x.key(idx) == k;
        assert(with_key(a, idx, k) == with_key(b, idx, k));
        if a.len() > 0 {
            lemma_filter_first(a, pred);
        } else {
            lemma_filter_first(b, pred);
        }
        let ia = lemma_filter_some(a, pred);
        let ib = lemma_filter_some(b, pred);
        let ka = a[0].key(idx);
        let kb = b[0].key(idx);
        assert(with_key(a, idx, kb) == with_key(b, idx, kb));
        lemma_filter_first(b, |x: Row| x.key(idx) == kb);
        lemma_filter_first(a, |x: Row| x.key(idx) == ka);
        assert(with_key(a, idx, ka) == with_key(b, idx, ka));
        let ja = lemma_filter_some(a, |x: Row| x.key(idx) == kb);
        let jb = lemma_filter_some(b, |x: Row| x.key(idx) == ka);
        assert(key_le(ka, kb, descending, nulls_last)) by {
            if ja > 0 {
                assert(key_le(a[0].key(idx), a[ja].key(idx), descending, nulls_last));
            }
        }
        assert(key_le(kb, ka, descending, nulls_last)) by {
            if jb > 0 {
                assert(key_le(b[0].key(idx), b[jb].key(idx), descending, nulls_last));
            }
        }
        assert(ka == kb);
        let first = |x: Row| x.key(idx) == ka;
        let fa = seq![a[0]] + a.skip(1).filter(first);
        let fb = seq![b[0]] + b.skip(1).filter(first);
        assert(fa == fb);
        assert(fa[0] == fb[0]);
        assert(a[0] == b[0]);
        assert forall|q: Option<i64>| #[trigger] with_key(a.skip(1), idx, q) == with_key(b.skip(1), idx, q) by {
            let pq = |x: Row| x.key(idx) == q;
            lemma_filter_first(a, pq);
            lemma_filter_first(b, pq);
            assert(with_key(a, idx, q) == with_key(b, idx, q));
            let ta = a.skip(1).filter(pq);
            let tb = b.skip(1).filter(pq);
            if pq(a[0]) {
                assert((seq![a[0]] + ta).skip(1) =~= ta);
                assert((seq![b[0]] + tb).skip(1) =~= tb);
            } else {
                assert(Seq::<Row>::empty() + ta =~= ta);
                assert(Seq::<Row>::empty() + tb =~= tb);
            }
        }
        assert(sorted_by_key(a.skip(1), idx, descending, nulls_last)) by {
            assert forall|i: int, j: int| 0 <= i < j < a.skip(1).len() implies key_le(
                (#[trigger] a.skip(1)[i]).key(idx),
                (#[trigger] a.skip(1)[j]).key(idx),
                descending,
                nulls_last,
            ) by {
                assert(a.skip(1)[i] == a[i + 1]);
                assert(a.skip(1)[j] == a[j + 1]);
            }
        }
        assert(sorted_by_key(b.skip(1), idx, descending, nulls_last)) by {
            assert forall|i: int, j: int| 0 <= i < j < b.skip(1).len() implies key_le(
                (#[trigger] b.skip(1)[i]).key(idx),
                (#[trigger] b.skip(1)[j]).key(idx),
                descending,
                nulls_last,
            ) by {
                assert(b.skip(1)[i] == b[i + 1]);
                assert(b.skip(1)[j] == b[j + 1]);
            }
        }
        lemma_sorted_unique(a.skip(1), b.skip(1), idx, descending, nulls_last);
        assert(a =~= seq![a[0]] + a.skip(1));
        assert(b =~= seq![b[0]] + b.skip(1));
    }
}

/// A stable sort of one input is unique.
pub proof fn lemma_stable_sort_unique(
    a: Seq<Row>,
    b: Seq<Row>,
    inp: Seq<Row>,
    idx: int,
    descending: bool,
    nulls_last: bool,
)
    requires
        is_stable_sort_of(a, inp, idx, descending, nulls_last),
        is_stable_sort_of(b, inp, idx, descending, nulls_last),
    ensures
        a == b,
{
    assert forall|k: Option<i64>| #[trigger] with_key(a, idx, k) == with_key(b, idx, k) by {
        assert(with_key(a, idx, k) == with_key(inp, idx, k));
        assert(with_key(b, idx, k) == with_key(inp, idx, k));
    }
    lemma_sorted_unique(a, b, idx, descending, nulls_last);
}

/// The stable sort of `inp` by the key in column `idx`.
pub open spec fn stable_sorted(inp: Seq<Row>, idx: int, descending: bool, nulls_last: bool) -> Seq<Row> {
    choose|out: Seq<Row>| is_stable_sort_of(out, inp, idx, descending, nulls_last)
}

/// Finds where a row with key `k` goes into the sorted `w`: behind every row
/// that it may not stand before.
proof fn lemma_find_slot(w: Seq<Row>, k: Option<i64>, from: int, idx: int, descending: bool, nulls_last: bool) -> (p: int)
    requires
        0 <= from <= w.len(),
        forall|i: int| 0 <= i < from ==> !key_le(k, (#[trigger] w[i]).key(idx), descending, nulls_last),
    ensures
        0 <= p <= w.len(),
        forall|i: int| 0 <= i < p ==> !key_le(k, (#[trigger] w[i]).key(idx), descending, nulls_last),
        p < w.len() ==> key_le(k, w[p].key(idx), descending, nulls_last),
    decreases w.len() - from,
{
    if from == w.len() || key_le(k, w[from].key(idx), descending, nulls_last) {
        from
    } else {
        lemma_find_slot(w, k, from + 1, idx, descending, nulls_last)
    }
}

/// Every input has a stable sort, and `stable_sorted` is it.
pub proof fn lemma_stable_sorted(inp: Seq<Row>, idx: int, descending: bool, nulls_last: bool)
    ensures
        is_stable_sort_of(stable_sorted(inp, idx, descending, nulls_last), inp, idx, descending, nulls_last),
    decreases inp.len(),
{
    if inp.len() == 0 {
        assert(is_stable_sort_of(inp, inp, idx, descending, nulls_last));
    } else {
        let rest = inp.skip(1);
        lemma_stable_sorted(rest, idx, descending, nulls_last);
        let w = stable_sorted(rest, idx, descending, nulls_last);
        let p = lemma_find_slot(w, inp[0].key(idx), 0, idx, descending, nulls_last);
        lemma_insert_sorted(w, rest, inp[0], p, idx, descending, nulls_last);
        assert(seq![inp[0]] + rest =~= inp);
    }
}

/// Whatever is a stable sort of `inp` is `stable_sorted` of it.
pub proof fn lemma_is_stable_sorted(out: Seq<Row>, inp: Seq<Row>, idx: int, descending: bool, nulls_last: bool)
    requires
        is_stable_sort_of(out, inp, idx, descending, nulls_last),
    ensures
        out == stable_sorted(inp, idx, descending, nulls_last),
{
    lemma_stable_sort_unique(out, stable_sorted(inp, idx, descending, nulls_last), inp, idx, descending, nulls_last);
}

/// Sorting keeps the number of rows.
pub proof fn lemma_stable_sorted_len(inp: Seq<Row>, idx: int, descending: bool, nulls_last: bool)
    ensures
        stable_sorted(inp, idx, descending, nulls_last).len() == inp.len(),
        stable_sorted(inp, idx, descending, nulls_last).to_multiset() == inp.to_multiset(),
{
    let out = stable_sorted(inp, idx, descending, nulls_last);
    lemma_stable_sorted(inp, idx, descending, nulls_last);
    lemma_same_rows_multiset(out, inp, idx);
    vstd::seq_lib::to_multiset_len(out);
    vstd::seq_lib::to_multiset_len(inp);
}

} // verus!
