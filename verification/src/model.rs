//! The sink as a state machine over plain values, and what holds of every run
//! of it.

use vstd::prelude::*;
use crate::chunk::Chunk;
use crate::chunk::all_rows;
use crate::chunk::first_keys;
use crate::chunk::lemma_all_rows_add;
use crate::chunk::lemma_all_rows_non_empty;
use crate::chunk::lemma_all_rows_push;
use crate::chunk::non_empty;
use crate::order::lemma_filter_none;
use crate::order::lemma_same_rows_multiset;
use crate::order::lemma_stable_sorted;
use crate::order::sorted_by_key;
use crate::order::stable_sorted;
use crate::row::Row;
use crate::row::key_le;
use crate::sort::slice_count;
use crate::sort::slice_start;
use crate::sort::sorted_window;
use crate::sort::window;

verus! {

/// What one sink and the spill store of its group hold.
#[verifier::ext_equal]
pub struct SortState {
    /// Whether the sink is out of core.
    pub ooc: bool,
    /// The chunks buffered in memory, oldest first.
    pub buffered: Seq<Chunk>,
    /// The chunks spilled, oldest first.
    pub spilled: Seq<Chunk>,
    /// The keys sampled.
    pub sample: Seq<Option<i64>>,
}

impl SortState {
    /// A sink that has taken nothing, out of core from the start if `forced`.
    pub open spec fn fresh(forced: bool) -> SortState {
        SortState {
            ooc: forced,
            buffered: Seq::<Chunk>::empty(),
            spilled: Seq::<Chunk>::empty(),
            sample: Seq::<Option<i64>>::empty(),
        }
    }

    /// The state once everything buffered is spilled.
    pub open spec fn flush(self, idx: int) -> SortState {
        SortState {
            ooc: self.ooc,
            buffered: Seq::<Chunk>::empty(),
            spilled: self.spilled + non_empty(self.buffered),
            sample: self.sample + first_keys(self.buffered, idx),
        }
    }

    /// The state after the sink took `chunk`. `over` says whether the group
    /// was over its memory budget with it.
    pub open spec fn sink(self, chunk: Chunk, over: bool, idx: int) -> SortState {
        let stored = SortState {
            ooc: self.ooc || over,
            buffered: self.buffered.push(chunk),
            spilled: self.spilled,
            sample: self.sample,
        };
        if stored.ooc {
            stored.flush(idx)
        } else {
            stored
        }
    }

    /// The state after a sibling that buffered `chunks` and sampled `sample`
    /// was folded into the sink.
    pub open spec fn combine(self, ooc: bool, chunks: Seq<Chunk>, sample: Seq<Option<i64>>, idx: int) -> SortState {
        let joined = SortState {
            ooc: self.ooc || ooc,
            buffered: self.buffered + chunks,
            spilled: self.spilled,
            sample: self.sample + sample,
        };
        if joined.ooc {
            joined.flush(idx)
        } else {
            joined
        }
    }

    /// The state after the sink took `chunks` one after the other. `over[i]`
    /// says whether the group was over its budget with chunk `i`.
    pub open spec fn sink_all(self, chunks: Seq<Chunk>, over: Seq<bool>, idx: int) -> SortState
        recommends
            chunks.len() == over.len(),
        decreases chunks.len(),
    {
        if chunks.len() == 0 {
            self
        } else {
            self.sink_all(chunks.drop_last(), over.drop_last(), idx).sink(chunks.last(), over.last(), idx)
        }
    }

    /// A sink that is out of core buffers nothing.
    pub open spec fn flushed(self) -> bool {
        self.ooc ==> self.buffered.len() == 0
    }

    /// All rows held, the spilled ones first.
    pub open spec fn rows(self) -> Seq<Row> {
        all_rows(self.spilled) + all_rows(self.buffered)
    }

    /// The rows that the sink sorts at the end: the spilled ones once it is
    /// out of core, the buffered ones until then.
    pub open spec fn held_rows(self) -> Seq<Row> {
        if self.ooc {
            all_rows(self.spilled)
        } else {
            all_rows(self.buffered)
        }
    }

    /// The rows that the sink hands out at the end.
    pub open spec fn result(
        self,
        idx: int,
        descending: bool,
        nulls_last: bool,
        slice: Option<(i64, usize)>,
    ) -> Seq<Row> {
        sorted_window(self.held_rows(), idx, descending, nulls_last, slice)
    }
}

/// Once a sink is out of core it stays out of core, whatever it takes and
/// whatever memory is free then.
pub proof fn lemma_mode_monotone(s: SortState, chunks: Seq<Chunk>, over: Seq<bool>, idx: int)
    requires
        chunks.len() == over.len(),
        s.ooc,
    ensures
        s.sink_all(chunks, over, idx).ooc,
    decreases chunks.len(),
{
    if chunks.len() > 0 {
        lemma_mode_monotone(s, chunks.drop_last(), over.drop_last(), idx);
    }
}

/// A sink folded into one that is out of core, or itself out of core, leaves
/// the sink out of core.
pub proof fn lemma_combine_monotone(
    s: SortState,
    ooc: bool,
    chunks: Seq<Chunk>,
    sample: Seq<Option<i64>>,
    idx: int,
)
    ensures
        s.combine(ooc, chunks, sample, idx).ooc == (s.ooc || ooc),
{
}

/// Flushing with nothing buffered spills nothing and samples nothing.
pub proof fn lemma_flush_idempotent(s: SortState, idx: int)
    requires
        s.buffered.len() == 0,
    ensures
        s.flush(idx) == s,
        s.flush(idx).flush(idx) == s.flush(idx),
{
    lemma_filter_none(s.buffered, |c: Chunk| c@.len() > 0);
    assert(s.spilled + non_empty(s.buffered) =~= s.spilled);
    assert(s.sample + first_keys(s.buffered, idx) =~= s.sample);
    assert(s.flush(idx) =~= s);
}

/// A flush keeps every row, and leaves the sink with nothing buffered.
pub proof fn lemma_flush_keeps_rows(s: SortState, idx: int)
    ensures
        s.flush(idx).rows() == s.rows(),
        s.flush(idx).buffered.len() == 0,
        s.flush(idx).flush(idx) == s.flush(idx),
{
    lemma_all_rows_add(s.spilled, non_empty(s.buffered));
    lemma_all_rows_non_empty(s.buffered);
    assert(all_rows(Seq::<Chunk>::empty()) =~= Seq::<Row>::empty());
    assert(s.flush(idx).rows() =~= s.rows());
    lemma_flush_idempotent(s.flush(idx), idx);
}

/// Taking a chunk adds its rows behind the rows held, and loses none.
pub proof fn lemma_sink_keeps_rows(s: SortState, chunk: Chunk, over: bool, idx: int)
    requires
        s.flushed(),
    ensures
        s.sink(chunk, over, idx).rows() == s.rows() + chunk@,
        s.sink(chunk, over, idx).flushed(),
{
    let stored = SortState {
        ooc: s.ooc || over,
        buffered: s.buffered.push(chunk),
        spilled: s.spilled,
        sample: s.sample,
    };
    lemma_all_rows_push(s.buffered, chunk);
    assert(stored.rows() =~= s.rows() + chunk@);
    lemma_flush_keeps_rows(stored, idx);
}

/// Folding a sibling in adds the rows that it buffered, and loses none.
pub proof fn lemma_combine_keeps_rows(
    s: SortState,
    ooc: bool,
    chunks: Seq<Chunk>,
    sample: Seq<Option<i64>>,
    idx: int,
)
    ensures
        s.combine(ooc, chunks, sample, idx).rows() == s.rows() + all_rows(chunks),
        s.ooc || ooc ==> s.combine(ooc, chunks, sample, idx).flushed(),
{
    let joined = SortState {
        ooc: s.ooc || ooc,
        buffered: s.buffered + chunks,
        spilled: s.spilled,
        sample: s.sample + sample,
    };
    lemma_all_rows_add(s.buffered, chunks);
    assert(joined.rows() =~= s.rows() + all_rows(chunks));
    lemma_flush_keeps_rows(joined, idx);
}

/// After any run of a fresh sink, the rows held are the rows of the chunks
/// that it took, in the order in which they came, and they are the rows that
/// the sink sorts at the end.
pub proof fn lemma_run_keeps_rows(forced: bool, chunks: Seq<Chunk>, over: Seq<bool>, idx: int)
    requires
        chunks.len() == over.len(),
    ensures
        SortState::fresh(forced).sink_all(chunks, over, idx).rows() == all_rows(chunks),
        SortState::fresh(forced).sink_all(chunks, over, idx).held_rows() == all_rows(chunks),
        SortState::fresh(forced).sink_all(chunks, over, idx).flushed(),
        !SortState::fresh(forced).sink_all(chunks, over, idx).ooc ==> SortState::fresh(forced).sink_all(
            chunks,
            over,
            idx,
        ).spilled.len() == 0,
    decreases chunks.len(),
{
    let start = SortState::fresh(forced);
    assert(all_rows(Seq::<Chunk>::empty()) =~= Seq::<Row>::empty());
    if chunks.len() == 0 {
        assert(start.rows() =~= all_rows(chunks));
    } else {
        let before = start.sink_all(chunks.drop_last(), over.drop_last(), idx);
        lemma_run_keeps_rows(forced, chunks.drop_last(), over.drop_last(), idx);
        lemma_sink_keeps_rows(before, chunks.last(), over.last(), idx);
        let after = before.sink(chunks.last(), over.last(), idx);
        assert(after.rows() == all_rows(chunks));
        if after.ooc {
            assert(after.rows() =~= all_rows(after.spilled));
        } else {
            assert(after.spilled.len() == 0);
            assert(after.rows() =~= all_rows(after.buffered));
        }
    }
}

/// No row is lost and none is made up: without a slice, the rows that a sink
/// hands out at the end are, as a multiset, the rows of all chunks that it
/// took.
pub proof fn lemma_no_data_loss(
    forced: bool,
    chunks: Seq<Chunk>,
    over: Seq<bool>,
    idx: int,
    descending: bool,
    nulls_last: bool,
)
    requires
        chunks.len() == over.len(),
    ensures
        SortState::fresh(forced).sink_all(chunks, over, idx).result(idx, descending, nulls_last, None).to_multiset()
            == all_rows(chunks).to_multiset(),
{
    lemma_run_keeps_rows(forced, chunks, over, idx);
    lemma_stable_sorted(all_rows(chunks), idx, descending, nulls_last);
    lemma_same_rows_multiset(stable_sorted(all_rows(chunks), idx, descending, nulls_last), all_rows(chunks), idx);
}

/// With a slice, the rows handed out are one contiguous window of the rows
/// that would be handed out without it, in their order.
pub proof fn lemma_slice_is_window(rows: Seq<Row>, idx: int, descending: bool, nulls_last: bool, offset: i64, length: usize)
    ensures
        ({
            let full = sorted_window(rows, idx, descending, nulls_last, None);
            let cut = sorted_window(rows, idx, descending, nulls_last, Some((offset, length)));
            let start = slice_start(offset as int, full.len() as int);
            &&& 0 <= start <= start + cut.len() <= full.len()
            &&& cut.len() == slice_count(offset as int, length as int, full.len() as int)
            &&& forall|i: int| 0 <= i < cut.len() ==> cut[i] == full[start + i]
        }),
{
}

/// The rows handed out are sorted: each stands before every later one in the
/// order of the keys, with the nulls where `nulls_last` puts them.
pub proof fn lemma_result_sorted(
    rows: Seq<Row>,
    idx: int,
    descending: bool,
    nulls_last: bool,
    slice: Option<(i64, usize)>,
)
    ensures
        sorted_by_key(sorted_window(rows, idx, descending, nulls_last, slice), idx, descending, nulls_last),
{
    lemma_stable_sorted(rows, idx, descending, nulls_last);
    let full = stable_sorted(rows, idx, descending, nulls_last);
    let cut = window(full, slice);
    match slice {
        None => {},
        Some((offset, length)) => {
            let start = slice_start(offset as int, full.len() as int);
            assert forall|i: int, j: int| 0 <= i < j < cut.len() implies key_le(
                (#[trigger] cut[i]).key(idx),
                (#[trigger] cut[j]).key(idx),
                descending,
                nulls_last,
            ) by {
                assert(cut[i] == full[start + i]);
                assert(cut[j] == full[start + j]);
            }
        },
    }
}

/// In memory or out of core, the same chunks give the same rows in the same
/// order: what a sink hands out does not depend on when, or whether, it went
/// out of core.
pub proof fn lemma_mode_equivalence(
    forced: bool,
    over: Seq<bool>,
    other_forced: bool,
    other_over: Seq<bool>,
    chunks: Seq<Chunk>,
    idx: int,
    descending: bool,
    nulls_last: bool,
    slice: Option<(i64, usize)>,
)
    requires
        chunks.len() == over.len(),
        chunks.len() == other_over.len(),
    ensures
        SortState::fresh(forced).sink_all(chunks, over, idx).result(idx, descending, nulls_last, slice)
            == SortState::fresh(other_forced).sink_all(chunks, other_over, idx).result(
            idx,
            descending,
            nulls_last,
            slice,
        ),
        SortState::fresh(forced).sink_all(chunks, over, idx).result(idx, descending, nulls_last, slice)
            == sorted_window(all_rows(chunks), idx, descending, nulls_last, slice),
{
    lemma_run_keeps_rows(forced, chunks, over, idx);
    lemma_run_keeps_rows(other_forced, chunks, other_over, idx);
}

} // verus!
