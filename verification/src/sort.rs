//! The in-memory sort of a chunk by one key column, and the row slice that
//! may be cut from the sorted rows.

use vstd::prelude::*;
use crate::chunk::Chunk;
use crate::chunk::rows_have_width;
use crate::error::SinkError;
use crate::order::is_stable_sort_of;
use crate::order::lemma_insert_sorted;
use crate::order::lemma_is_stable_sorted;
use crate::order::lemma_same_rows_multiset;
use crate::order::stable_sorted;
use crate::row::Row;
use crate::row::key_le;
use crate::row::key_precedes;

verus! {

/// Where a slice of `(offset, length)` starts in `len` rows. A negative offset
/// counts from the end.
pub open spec fn slice_start(offset: int, len: int) -> int {
    if offset < 0 {
        if -offset <= len {
            len + offset
        } else {
            0
        }
    } else if offset <= len {
        offset
    } else {
        len
    }
}

/// How many rows a slice of `(offset, length)` takes of `len` rows.
pub open spec fn slice_count(offset: int, length: int, len: int) -> int {
    if offset < 0 {
        if -offset <= len {
            if length < -offset {
                length
            } else {
                -offset
            }
        } else if length < len {
            length
        } else {
            len
        }
    } else if offset <= len {
        if length < len - offset {
            length
        } else {
            len - offset
        }
    } else {
        0
    }
}

/// The rows that a slice keeps: one contiguous window, or all rows without a
/// slice.
pub open spec fn window(rows: Seq<Row>, slice: Option<(i64, usize)>) -> Seq<Row> {
    match slice {
        None => rows,
        Some((offset, length)) => rows.subrange(
            slice_start(offset as int, rows.len() as int),
            slice_start(offset as int, rows.len() as int) + slice_count(
                offset as int,
                length as int,
                rows.len() as int,
            ),
        ),
    }
}

/// The sorted rows that a sort with a slice returns.
pub open spec fn sorted_window(
    rows: Seq<Row>,
    idx: int,
    descending: bool,
    nulls_last: bool,
    slice: Option<(i64, usize)>,
) -> Seq<Row> {
    window(stable_sorted(rows, idx, descending, nulls_last), slice)
}

/// Computes where a slice starts and how many rows it takes.
pub fn slice_bounds(offset: i64, length: usize, len: usize) -> (bounds: (usize, usize))
    ensures
        bounds.0 == slice_start(offset as int, len as int),
        bounds.1 == slice_count(offset as int, length as int, len as int),
        bounds.0 + bounds.1 <= len,
{
    if offset < 0 {
        let back: u64 = (-(offset + 1)) as u64 + 1;
        if back <= len as u64 {
            let back_rows: usize = back as usize;
            (len - back_rows, if length < back_rows {
                length
            } else {
                back_rows
            })
        } else {
            (0, if length < len {
                length
            } else {
                len
            })
        }
    } else if offset as u64 <= len as u64 {
        let start: usize = offset as usize;
        (start, if length < len - start {
            length
        } else {
            len - start
        })
    } else {
        (len, 0)
    }
}

/// Cuts the window of a slice out of `rows`.
pub fn slice_rows(rows: Vec<Row>, slice: Option<(i64, usize)>) -> (kept: Vec<Row>)
    ensures
        kept@ == window(rows@, slice),
{
    match slice {
        None => rows,
        Some((offset, length)) => {
            let ghost all = rows@;
            let mut rows = rows;
            let bounds: (usize, usize) = slice_bounds(offset, length, rows.len());
            rows.truncate(bounds.0 + bounds.1);
            let kept: Vec<Row> = rows.split_off(bounds.0);
            assert(kept@ =~= window(all, slice));
            kept
        },
    }
}

/// Every key stands before every later one in the key order.
pub open spec fn keys_sorted(keys: Seq<Option<i64>>, descending: bool, nulls_last: bool) -> bool {
    forall|i: int, j: int|
        0 <= i < j < keys.len() ==> key_le(#[trigger] keys[i], #[trigger] keys[j], descending, nulls_last)
}

/// Sorts keys. The sorted keys of a sample bound the partitions of the
/// out-of-core sort.
pub fn sort_keys(keys: &Vec<Option<i64>>, descending: bool, nulls_last: bool) -> (sorted: Vec<Option<i64>>)
    ensures
        keys_sorted(sorted@, descending, nulls_last),
        sorted@.to_multiset() == keys@.to_multiset(),
        sorted@.len() == keys@.len(),
{
    let mut sorted: Vec<Option<i64>> = Vec::new();
    let mut n: usize = 0;
    assert(keys@.take(0) =~= Seq::<Option<i64>>::empty());
    while n < keys.len()
        invariant
            n <= keys@.len(),
            sorted@.len() == n,
            keys_sorted(sorted@, descending, nulls_last),
            sorted@.to_multiset() == keys@.take(n as int).to_multiset(),
        decreases keys@.len() - n,
    {
        let key: Option<i64> = keys[n];
        let mut p: usize = 0;
        while p < sorted.len() && !key_precedes(key, sorted[p], descending, nulls_last)
            invariant
                p <= sorted@.len(),
                forall|i: int| 0 <= i < p ==> !key_le(key, #[trigger] sorted@[i], descending, nulls_last),
            decreases sorted@.len() - p,
        {
            p += 1;
        }
        proof {
            let grown = sorted@.insert(p as int, key);
            assert forall|i: int, j: int| 0 <= i < j < grown.len() implies key_le(
                #[trigger] grown[i],
                #[trigger] grown[j],
                descending,
                nulls_last,
            ) by {
                if j < p {
                    assert(grown[i] == sorted@[i] && grown[j] == sorted@[j]);
                } else if j == p {
                    assert(grown[i] == sorted@[i]);
                } else if i < p {
                    assert(grown[i] == sorted@[i] && grown[j] == sorted@[j - 1]);
                } else if i == p {
                    assert(grown[j] == sorted@[j - 1]);
                    if j - 1 > p {
                        assert(key_le(sorted@[p as int], sorted@[j - 1], descending, nulls_last));
                    }
                } else {
                    assert(grown[i] == sorted@[i - 1] && grown[j] == sorted@[j - 1]);
                }
            }
            assert(keys@.take(n + 1) =~= keys@.take(n as int).push(key));
            vstd::seq_lib::to_multiset_insert(sorted@, p as int, key);
            vstd::seq_lib::to_multiset_build(keys@.take(n as int), key);
        }
        sorted.insert(p, key);
        n += 1;
    }
    assert(keys@.take(keys@.len() as int) =~= keys@);
    sorted
}

/// Sorts the rows of `chunk` by the key in column `sort_idx`. Rows with equal
/// keys keep their order.
pub fn sort_chunk(chunk: Chunk, sort_idx: usize, descending: bool, nulls_last: bool) -> (sorted: Chunk)
    requires
        chunk.wf(),
        sort_idx < chunk.width,
    ensures
        sorted.wf(),
        sorted.width == chunk.width,
        sorted@ == stable_sorted(chunk@, sort_idx as int, descending, nulls_last),
        is_stable_sort_of(sorted@, chunk@, sort_idx as int, descending, nulls_last),
        sorted@.to_multiset() == chunk@.to_multiset(),
{
    let ghost inp = chunk@;
    let width: usize = chunk.width;
    let mut rest: Vec<Row> = chunk.rows;
    let mut out: Vec<Row> = Vec::new();
    assert(inp.take(inp.len() as int) =~= inp);
    assert(inp.skip(inp.len() as int) =~= Seq::<Row>::empty());
    while rest.len() > 0
        invariant
            sort_idx < width,
            rest@.len() <= inp.len(),
            rest@ == inp.take(rest@.len() as int),
            rows_have_width(inp, width as nat),
            rows_have_width(out@, width as nat),
            is_stable_sort_of(
                out@,
                inp.skip(rest@.len() as int),
                sort_idx as int,
                descending,
                nulls_last,
            ),
        decreases rest@.len(),
    {
        let ghost n = rest@.len() as int;
        let row: Row = rest.pop().unwrap();
        assert(row == inp[n - 1]);
        let key: Option<i64> = row.get(sort_idx);
        let mut p: usize = 0;
        while p < out.len() && !key_precedes(key, out[p].get(sort_idx), descending, nulls_last)
            invariant
                sort_idx < width,
                p <= out@.len(),
                rows_have_width(out@, width as nat),
                forall|i: int|
                    0 <= i < p ==> !key_le(
                        key,
                        (#[trigger] out@[i]).key(sort_idx as int),
                        descending,
                        nulls_last,
                    ),
            decreases out@.len() - p,
        {
            p += 1;
        }
        proof {
            lemma_insert_sorted(
                out@,
                inp.skip(n),
                row,
                p as int,
                sort_idx as int,
                descending,
                nulls_last,
            );
            assert(seq![row] + inp.skip(n) =~= inp.skip(n - 1));
            assert(inp.take(n).subrange(0, n - 1) =~= inp.take(n - 1));
        }
        out.insert(p, row);
    }
    proof {
        assert(inp.skip(0) =~= inp);
        lemma_is_stable_sorted(out@, inp, sort_idx as int, descending, nulls_last);
        lemma_same_rows_multiset(out@, inp, sort_idx as int);
    }
    Chunk { width, rows: out }
}

/// Sorts `df` by the key in column `sort_idx`, nulls in front, and cuts the
/// slice out of the sorted rows. It never fails.
pub fn sort_accumulated(df: Chunk, sort_idx: usize, descending: bool, slice: Option<(i64, usize)>) -> (res:
    Result<Chunk, SinkError>)
    requires
        df.wf(),
        sort_idx < df.width,
    ensures
        res matches Ok(sorted) && sorted.wf() && sorted.width == df.width && sorted@ == sorted_window(
            df@,
            sort_idx as int,
            descending,
            false,
            slice,
        ),
{
    Ok(sort_with(df, sort_idx, descending, false, slice))
}

/// Sorts `df` by the key in column `sort_idx`, nulls where `nulls_last` puts
/// them, and cuts the slice out of the sorted rows.
pub fn sort_with(
    df: Chunk,
    sort_idx: usize,
    descending: bool,
    nulls_last: bool,
    slice: Option<(i64, usize)>,
) -> (sorted: Chunk)
    requires
        df.wf(),
        sort_idx < df.width,
    ensures
        sorted.wf(),
        sorted.width == df.width,
        sorted@ == sorted_window(df@, sort_idx as int, descending, nulls_last, slice),
{
    let all: Chunk = sort_chunk(df, sort_idx, descending, nulls_last);
    slice_chunk(all, slice)
}

/// Cuts the window of a slice out of the rows of `df`.
pub fn slice_chunk(df: Chunk, slice: Option<(i64, usize)>) -> (kept: Chunk)
    requires
        df.wf(),
    ensures
        kept.wf(),
        kept.width == df.width,
        kept@ == window(df@, slice),
{
    let width: usize = df.width;
    let ghost full = df@;
    let rows: Vec<Row> = slice_rows(df.rows, slice);
    assert(rows_have_width(rows@, width as nat)) by {
        assert forall|i: int| 0 <= i < rows@.len() implies (#[trigger] rows@[i]).width() == width by {
            match slice {
                None => {},
                Some((offset, length)) => {
                    let s = slice_start(offset as int, full.len() as int);
                    assert(rows@[i] == full[s + i]);
                },
            }
        }
    }
    Chunk { width, rows }
}

} // verus!
