//! The out-of-core sort: the spilled rows are dealt into partitions by the
//! sampled keys, each partition is sorted by itself, and the sorted partitions
//! follow one another.

use std::collections::VecDeque;
use vstd::prelude::*;
use crate::chunk::Chunk;
use crate::chunk::all_rows;
use crate::chunk::chunks_have_width;
use crate::chunk::accumulate_vertical;
use crate::chunk::lemma_filter_keeps_width;
use crate::chunk::rows_have_width;
use crate::order::is_stable_sort_of;
use crate::order::lemma_filter_all;
use crate::order::lemma_filter_first;
use crate::order::lemma_filter_none;
use crate::order::lemma_filter_some;
use crate::order::lemma_is_stable_sorted;
use crate::order::lemma_stable_sorted;
use crate::order::stable_sorted;
use crate::order::with_key;
use crate::row::Row;
use crate::row::key_le;
use crate::row::key_precedes;
use crate::sort::slice_chunk;
use crate::sort::sort_chunk;
use crate::sort::sorted_window;

verus! {

/// The first boundary from `from` on that key `k` may stand before, or the
/// number of boundaries if there is none.
pub open spec fn partition_from(
    k: Option<i64>,
    bounds: Seq<Option<i64>>,
    from: int,
    descending: bool,
    nulls_last: bool,
) -> int
    decreases bounds.len() - from,
{
    if from < 0 || from >= bounds.len() {
        bounds.len() as int
    } else if key_le(k, bounds[from], descending, nulls_last) {
        from
    } else {
        partition_from(k, bounds, from + 1, descending, nulls_last)
    }
}

/// The partition of a row with key `k`: the first boundary that `k` may stand
/// before; the last partition takes the keys behind every boundary.
pub open spec fn partition_of(k: Option<i64>, bounds: Seq<Option<i64>>, descending: bool, nulls_last: bool) -> int {
    partition_from(k, bounds, 0, descending, nulls_last)
}

/// What `partition_from` finds.
pub proof fn lemma_partition_from(
    k: Option<i64>,
    bounds: Seq<Option<i64>>,
    from: int,
    descending: bool,
    nulls_last: bool,
)
    requires
        0 <= from <= bounds.len(),
    ensures
        from <= partition_from(k, bounds, from, descending, nulls_last) <= bounds.len(),
        forall|i: int|
            from <= i < partition_from(k, bounds, from, descending, nulls_last) ==> !key_le(
                k,
                #[trigger] bounds[i],
                descending,
                nulls_last,
            ),
        partition_from(k, bounds, from, descending, nulls_last) < bounds.len() ==> key_le(
            k,
            bounds[partition_from(k, bounds, from, descending, nulls_last)],
            descending,
            nulls_last,
        ),
    decreases bounds.len() - from,
{
    if from < bounds.len() && !key_le(k, bounds[from], descending, nulls_last) {
        lemma_partition_from(k, bounds, from + 1, descending, nulls_last);
    }
}

/// A key that may stand before another is in no later partition.
pub proof fn lemma_partition_monotone(
    a: Option<i64>,
    b: Option<i64>,
    bounds: Seq<Option<i64>>,
    descending: bool,
    nulls_last: bool,
)
    requires
        key_le(a, b, descending, nulls_last),
    ensures
        partition_of(a, bounds, descending, nulls_last) <= partition_of(b, bounds, descending, nulls_last),
{
    lemma_partition_from(a, bounds, 0, descending, nulls_last);
    lemma_partition_from(b, bounds, 0, descending, nulls_last);
    let pb = partition_of(b, bounds, descending, nulls_last);
    if pb < bounds.len() {
        assert(key_le(a, bounds[pb], descending, nulls_last));
    }
}

/// Finds the partition of `key`.
pub fn partition_index(key: Option<i64>, bounds: &Vec<Option<i64>>, descending: bool, nulls_last: bool) -> (p:
    usize)
    ensures
        p == partition_of(key, bounds@, descending, nulls_last),
        p <= bounds@.len(),
{
    let mut p: usize = 0;
    while p < bounds.len() && !key_precedes(key, bounds[p], descending, nulls_last)
        invariant
            p <= bounds@.len(),
            partition_of(key, bounds@, descending, nulls_last) == partition_from(
                key,
                bounds@,
                p as int,
                descending,
                nulls_last,
            ),
        decreases bounds@.len() - p,
    {
        p += 1;
    }
    p
}

/// The test of whether a row is in partition `p`.
pub open spec fn in_partition(
    p: int,
    idx: int,
    bounds: Seq<Option<i64>>,
    descending: bool,
    nulls_last: bool,
) -> spec_fn(Row) -> bool {
    |r: Row| partition_of(r.key(idx), bounds, descending, nulls_last) == p
}

/// The test of whether a row is in a partition before `p`.
pub open spec fn below_partition(
    p: int,
    idx: int,
    bounds: Seq<Option<i64>>,
    descending: bool,
    nulls_last: bool,
) -> spec_fn(Row) -> bool {
    |r: Row| partition_of(r.key(idx), bounds, descending, nulls_last) < p
}

/// The test of whether a row is in partition `p` or a later one.
pub open spec fn from_partition(
    p: int,
    idx: int,
    bounds: Seq<Option<i64>>,
    descending: bool,
    nulls_last: bool,
) -> spec_fn(Row) -> bool {
    |r: Row| partition_of(r.key(idx), bounds, descending, nulls_last) >= p
}

/// Filters that agree on every element of a sequence leave the same.
pub proof fn lemma_filter_agree<A>(s: Seq<A>, f: spec_fn(A) -> bool, g: spec_fn(A) -> bool)
    requires
        forall|i: int| 0 <= i < s.len() ==> f(#[trigger] s[i]) == g(s[i]),
    ensures
        s.filter(f) == s.filter(g),
    decreases s.len(),
{
    reveal(Seq::filter);
    if s.len() > 0 {
        lemma_filter_agree(s.drop_last(), f, g);
    }
}

/// Filtering twice is filtering by both tests at once.
pub proof fn lemma_filter_twice<A>(s: Seq<A>, f: spec_fn(A) -> bool, g: spec_fn(A) -> bool)
    ensures
        s.filter(f).filter(g) == s.filter(|x: A| f(x) && g(x)),
    decreases s.len(),
{
    reveal(Seq::filter);
    if s.len() > 0 {
        lemma_filter_twice(s.drop_last(), f, g);
        if f(s.last()) {
            s.drop_last().filter(f).lemma_filter_push(s.last(), g);
        }
    }
}

/// The rows of one key that a filter leaves, where the filter treats all rows
/// of that key alike: all of them, or none.
pub proof fn lemma_with_key_of_filter(
    all: Seq<Row>,
    keep: spec_fn(Row) -> bool,
    idx: int,
    k: Option<i64>,
    holds: bool,
)
    requires
        forall|r: Row| r.key(idx) == k ==> #[trigger] keep(r) == holds,
    ensures
        with_key(all.filter(keep), idx, k) == if holds {
            with_key(all, idx, k)
        } else {
            Seq::<Row>::empty()
        },
{
    let has_key = |r: Row| r.key(idx) == k;
    let both = |r: Row| keep(r) && has_key(r);
    lemma_filter_twice(all, keep, has_key);
    if holds {
        lemma_filter_agree(all, both, has_key);
    } else {
        lemma_filter_none(all, both);
    }
}

/// A row of a sequence has its key in common with a row of every sequence
/// that agrees with the first key by key.
pub proof fn lemma_key_occurs(out: Seq<Row>, inp: Seq<Row>, idx: int, i: int) -> (j: int)
    requires
        crate::order::same_rows_by_key(out, inp, idx),
        0 <= i < out.len(),
    ensures
        0 <= j < inp.len(),
        inp[j].key(idx) == out[i].key(idx),
{
    let k = out[i].key(idx);
    let has_key = |r: Row| r.key(idx) == k;
    out.lemma_filter_contains(has_key, i);
    assert(with_key(out, idx, k) == with_key(inp, idx, k));
    lemma_filter_some(inp, has_key)
}

/// A row that a filter left passes the filter's test, as does every row with
/// the same key where the test goes by the key.
pub proof fn lemma_filtered_row(all: Seq<Row>, keep: spec_fn(Row) -> bool, j: int)
    requires
        0 <= j < all.filter(keep).len(),
    ensures
        keep(all.filter(keep)[j]),
{
    all.lemma_filter_pred(keep, j);
}

/// The sorted rows of the partitions before `p`, followed by the sorted rows
/// of partition `p`, are the sorted rows of the partitions up to `p`.
pub proof fn lemma_merge_partition(
    out: Seq<Row>,
    part: Seq<Row>,
    all: Seq<Row>,
    p: int,
    idx: int,
    bounds: Seq<Option<i64>>,
    descending: bool,
    nulls_last: bool,
)
    requires
        is_stable_sort_of(
            out,
            all.filter(below_partition(p, idx, bounds, descending, nulls_last)),
            idx,
            descending,
            nulls_last,
        ),
        is_stable_sort_of(
            part,
            all.filter(in_partition(p, idx, bounds, descending, nulls_last)),
            idx,
            descending,
            nulls_last,
        ),
    ensures
        is_stable_sort_of(
            out + part,
            all.filter(below_partition(p + 1, idx, bounds, descending, nulls_last)),
            idx,
            descending,
            nulls_last,
        ),
{
    let below = below_partition(p, idx, bounds, descending, nulls_last);
    let inside = in_partition(p, idx, bounds, descending, nulls_last);
    let upto = below_partition(p + 1, idx, bounds, descending, nulls_last);
    let joined = out + part;
    assert forall|i: int, j: int| 0 <= i < j < joined.len() implies key_le(
        (#[trigger] joined[i]).key(idx),
        (#[trigger] joined[j]).key(idx),
        descending,
        nulls_last,
    ) by {
        if j < out.len() {
            assert(joined[i] == out[i] && joined[j] == out[j]);
        } else if i >= out.len() {
            assert(joined[i] == part[i - out.len()] && joined[j] == part[j - out.len()]);
        } else {
            let a = out[i];
            let b = part[j - out.len()];
            assert(joined[i] == a && joined[j] == b);
            let ja = lemma_key_occurs(out, all.filter(below), idx, i);
            lemma_filtered_row(all, below, ja);
            let jb = lemma_key_occurs(part, all.filter(inside), idx, j - out.len());
            lemma_filtered_row(all, inside, jb);
            assert(partition_of(a.key(idx), bounds, descending, nulls_last) < p);
            assert(partition_of(b.key(idx), bounds, descending, nulls_last) == p);
            if !key_le(a.key(idx), b.key(idx), descending, nulls_last) {
                lemma_partition_monotone(b.key(idx), a.key(idx), bounds, descending, nulls_last);
            }
        }
    }
    assert forall|k: Option<i64>| #[trigger]
        with_key(joined, idx, k) == with_key(all.filter(upto), idx, k) by {
        let has_key = |r: Row| r.key(idx) == k;
        let q = partition_of(k, bounds, descending, nulls_last);
        Seq::filter_distributes_over_add(out, part, has_key);
        assert(with_key(out, idx, k) == with_key(all.filter(below), idx, k));
        assert(with_key(part, idx, k) == with_key(all.filter(inside), idx, k));
        lemma_with_key_of_filter(all, below, idx, k, q < p);
        lemma_with_key_of_filter(all, inside, idx, k, q == p);
        lemma_with_key_of_filter(all, upto, idx, k, q < p + 1);
        if q < p {
            assert(with_key(all, idx, k) + Seq::<Row>::empty() =~= with_key(all, idx, k));
        } else if q == p {
            assert(Seq::<Row>::empty() + with_key(all, idx, k) =~= with_key(all, idx, k));
        } else {
            assert(Seq::<Row>::empty() + Seq::<Row>::empty() =~= Seq::<Row>::empty());
        }
    }
}

/// Deals the rows of partition `p` out of `rows`: `taken` gets them, `left`
/// the others, both in the order in which they stood.
pub fn take_partition(
    rows: Vec<Row>,
    p: usize,
    sort_idx: usize,
    bounds: &Vec<Option<i64>>,
    descending: bool,
    nulls_last: bool,
) -> (dealt: (Vec<Row>, Vec<Row>))
    requires
        forall|i: int| 0 <= i < rows@.len() ==> sort_idx < (#[trigger] rows@[i]).width(),
    ensures
        dealt.0@ == rows@.filter(in_partition(p as int, sort_idx as int, bounds@, descending, nulls_last)),
        dealt.1@ == rows@.filter(
            |r: Row| !in_partition(p as int, sort_idx as int, bounds@, descending, nulls_last)(r),
        ),
{
    let ghost start = rows@;
    let ghost is_in = in_partition(p as int, sort_idx as int, bounds@, descending, nulls_last);
    let ghost is_out = |r: Row| !in_partition(p as int, sort_idx as int, bounds@, descending, nulls_last)(r);
    let mut rest: Vec<Row> = rows;
    let mut taken: Vec<Row> = Vec::new();
    let mut left: Vec<Row> = Vec::new();
    proof {
        assert(start.take(start.len() as int) =~= start);
        assert(start.skip(start.len() as int) =~= Seq::<Row>::empty());
        lemma_filter_none(Seq::<Row>::empty(), is_in);
        lemma_filter_none(Seq::<Row>::empty(), is_out);
    }
    while rest.len() > 0
        invariant
            rest@.len() <= start.len(),
            rest@ == start.take(rest@.len() as int),
            taken@ == start.skip(rest@.len() as int).filter(is_in),
            left@ == start.skip(rest@.len() as int).filter(is_out),
            is_in == in_partition(p as int, sort_idx as int, bounds@, descending, nulls_last),
            is_out == |r: Row| !in_partition(p as int, sort_idx as int, bounds@, descending, nulls_last)(r),
            forall|i: int| 0 <= i < start.len() ==> sort_idx < (#[trigger] start[i]).width(),
        decreases rest@.len(),
    {
        let ghost n = rest@.len() as int;
        let row: Row = rest.pop().unwrap();
        proof {
            assert(row == start[n - 1]);
            assert(start.take(n).subrange(0, n - 1) =~= start.take(n - 1));
            let tail = start.skip(n - 1);
            assert(tail[0] == row);
            assert(tail.skip(1) =~= start.skip(n));
            lemma_filter_first(tail, is_in);
            lemma_filter_first(tail, is_out);
        }
        if partition_index(row.get(sort_idx), bounds, descending, nulls_last) == p {
            assert(Seq::<Row>::empty() + left@ =~= left@);
            assert(taken@.insert(0, row) =~= seq![row] + taken@);
            taken.insert(0, row);
        } else {
            assert(Seq::<Row>::empty() + taken@ =~= taken@);
            assert(left@.insert(0, row) =~= seq![row] + left@);
            left.insert(0, row);
        }
    }
    assert(start.skip(0) =~= start);
    (taken, left)
}

/// Deals partition `p` out of `rest`, sorts it and puts it behind `out`.
/// Returns the rows of the other partitions.
fn merge_partition(
    out: &mut Vec<Row>,
    rest: Vec<Row>,
    p: usize,
    width: usize,
    sort_idx: usize,
    bounds: &Vec<Option<i64>>,
    descending: bool,
    nulls_last: bool,
) -> (left: Vec<Row>)
    requires
        sort_idx < width,
        rows_have_width(rest@, width as nat),
        rows_have_width(old(out)@, width as nat),
    ensures
        final(out)@ == old(out)@ + stable_sorted(
            rest@.filter(in_partition(p as int, sort_idx as int, bounds@, descending, nulls_last)),
            sort_idx as int,
            descending,
            nulls_last,
        ),
        left@ == rest@.filter(
            |r: Row| !in_partition(p as int, sort_idx as int, bounds@, descending, nulls_last)(r),
        ),
        rows_have_width(left@, width as nat),
        rows_have_width(final(out)@, width as nat),
{
    proof {
        lemma_filter_keeps_width(
            rest@,
            in_partition(p as int, sort_idx as int, bounds@, descending, nulls_last),
            width as nat,
        );
        lemma_filter_keeps_width(
            rest@,
            |r: Row| !in_partition(p as int, sort_idx as int, bounds@, descending, nulls_last)(r),
            width as nat,
        );
    }
    let dealt: (Vec<Row>, Vec<Row>) = take_partition(rest, p, sort_idx, bounds, descending, nulls_last);
    let mut sorted: Chunk = sort_chunk(Chunk { width, rows: dealt.0 }, sort_idx, descending, nulls_last);
    out.append(&mut sorted.rows);
    dealt.1
}

/// Where the merge stands before round `p`: the rows of the partitions before
/// `p` are sorted in `out`, and `rest` holds the rows of the partitions from
/// `p` on as they stood in `all`.
#[verifier::opaque]
pub open spec fn merged_before(
    p: int,
    out: Seq<Row>,
    rest: Seq<Row>,
    all: Seq<Row>,
    idx: int,
    bounds: Seq<Option<i64>>,
    descending: bool,
    nulls_last: bool,
) -> bool {
    &&& is_stable_sort_of(
        out,
        all.filter(below_partition(p, idx, bounds, descending, nulls_last)),
        idx,
        descending,
        nulls_last,
    )
    &&& rest == all.filter(from_partition(p, idx, bounds, descending, nulls_last))
}

/// Sorts the rows of the spilled `runs` by the key in column `sort_idx` and
/// cuts the slice out of the sorted rows.
///
/// The keys in `dist` bound the partitions: a row goes to the first boundary
/// that its key may stand before. Whatever the boundaries are, the rows come
/// out as one in-memory sort of all of them would leave them.
pub fn sort_ooc(
    runs: VecDeque<Chunk>,
    width: usize,
    dist: &Vec<Option<i64>>,
    sort_idx: usize,
    descending: bool,
    nulls_last: bool,
    slice: Option<(i64, usize)>,
) -> (df: Chunk)
    requires
        chunks_have_width(runs@, width as nat),
        sort_idx < width,
    ensures
        df.wf(),
        df.width == width,
        df@ == sorted_window(all_rows(runs@), sort_idx as int, descending, nulls_last, slice),
{
    let spilled: Chunk = accumulate_vertical(runs, width);
    let ghost all = spilled@;
    let mut rest: Vec<Row> = spilled.rows;
    let mut out: Vec<Row> = Vec::new();
    let mut p: usize = 0;
    proof {
        lemma_first_round(all, sort_idx as int, dist@, descending, nulls_last);
    }
    while p < dist.len()
        invariant
            p <= dist@.len(),
            sort_idx < width,
            rows_have_width(rest@, width as nat),
            rows_have_width(out@, width as nat),
            merged_before(p as int, out@, rest@, all, sort_idx as int, dist@, descending, nulls_last),
        decreases dist@.len() - p,
    {
        let ghost sorted = out@;
        let ghost dealt = rest@;
        let left: Vec<Row> = merge_partition(&mut out, rest, p, width, sort_idx, dist, descending, nulls_last);
        proof {
            lemma_next_partition(
                sorted,
                out@,
                dealt,
                left@,
                all,
                p as int,
                sort_idx as int,
                dist@,
                descending,
                nulls_last,
            );
        }
        rest = left;
        p += 1;
    }
    let ghost sorted = out@;
    let ghost dealt = rest@;
    let left: Vec<Row> = merge_partition(&mut out, rest, p, width, sort_idx, dist, descending, nulls_last);
    proof {
        lemma_next_partition(
            sorted,
            out@,
            dealt,
            left@,
            all,
            p as int,
            sort_idx as int,
            dist@,
            descending,
            nulls_last,
        );
        lemma_last_round(out@, left@, all, sort_idx as int, dist@, descending, nulls_last);
    }
    slice_chunk(Chunk { width, rows: out }, slice)
}

/// Before the first round nothing is sorted and every row is left.
proof fn lemma_first_round(all: Seq<Row>, idx: int, bounds: Seq<Option<i64>>, descending: bool, nulls_last: bool)
    ensures
        merged_before(0, Seq::<Row>::empty(), all, all, idx, bounds, descending, nulls_last),
{
    reveal(merged_before);
    let below = below_partition(0, idx, bounds, descending, nulls_last);
    let from = from_partition(0, idx, bounds, descending, nulls_last);
    assert forall|i: int| 0 <= i < all.len() implies !below(#[trigger] all[i]) && from(all[i]) by {
        lemma_partition_from(all[i].key(idx), bounds, 0, descending, nulls_last);
    }
    lemma_filter_none(all, below);
    lemma_filter_all(all, from);
}

/// After the last round all rows are sorted.
proof fn lemma_last_round(
    out: Seq<Row>,
    rest: Seq<Row>,
    all: Seq<Row>,
    idx: int,
    bounds: Seq<Option<i64>>,
    descending: bool,
    nulls_last: bool,
)
    requires
        merged_before(bounds.len() as int + 1, out, rest, all, idx, bounds, descending, nulls_last),
    ensures
        out == stable_sorted(all, idx, descending, nulls_last),
{
    reveal(merged_before);
    let below = below_partition(bounds.len() as int + 1, idx, bounds, descending, nulls_last);
    assert forall|i: int| 0 <= i < all.len() implies below(#[trigger] all[i]) by {
        lemma_partition_from(all[i].key(idx), bounds, 0, descending, nulls_last);
    }
    lemma_filter_all(all, below);
    lemma_is_stable_sorted(out, all, idx, descending, nulls_last);
}

/// One round of the merge: with partition `p` dealt out of the rows from `p`
/// on, sorted and put behind the sorted rows before `p`, the merge stands
/// before round `p + 1`.
proof fn lemma_next_partition(
    sorted: Seq<Row>,
    out: Seq<Row>,
    dealt: Seq<Row>,
    left: Seq<Row>,
    all: Seq<Row>,
    p: int,
    idx: int,
    bounds: Seq<Option<i64>>,
    descending: bool,
    nulls_last: bool,
)
    requires
        merged_before(p, sorted, dealt, all, idx, bounds, descending, nulls_last),
        out == sorted + stable_sorted(
            dealt.filter(in_partition(p, idx, bounds, descending, nulls_last)),
            idx,
            descending,
            nulls_last,
        ),
        left == dealt.filter(|r: Row| !in_partition(p, idx, bounds, descending, nulls_last)(r)),
    ensures
        merged_before(p + 1, out, left, all, idx, bounds, descending, nulls_last),
{
    reveal(merged_before);
    let from = from_partition(p, idx, bounds, descending, nulls_last);
    let inside = in_partition(p, idx, bounds, descending, nulls_last);
    let outside = |r: Row| !in_partition(p, idx, bounds, descending, nulls_last)(r);
    let next = from_partition(p + 1, idx, bounds, descending, nulls_last);
    lemma_filter_twice(all, from, inside);
    lemma_filter_agree(all, |r: Row| from(r) && inside(r), inside);
    lemma_filter_twice(all, from, outside);
    lemma_filter_agree(all, |r: Row| from(r) && outside(r), next);
    lemma_stable_sorted(all.filter(inside), idx, descending, nulls_last);
    lemma_merge_partition(
        sorted,
        stable_sorted(all.filter(inside), idx, descending, nulls_last),
        all,
        p,
        idx,
        bounds,
        descending,
        nulls_last,
    );
}

} // verus!
