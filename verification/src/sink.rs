//! The sort sink: it buffers chunks while memory allows, spills them once it
//! does not, and hands out the sorted rows at the end.

use std::collections::VecDeque;
use vstd::prelude::*;
use crate::chunk::Chunk;
use crate::chunk::accumulate_vertical;
use crate::chunk::all_rows;
use crate::chunk::chunks_have_width;
use crate::chunk::estimated_bytes;
use crate::chunk::first_keys;
use crate::chunk::lemma_first_keys_push;
use crate::chunk::lemma_non_empty_push;
use crate::chunk::non_empty;
use crate::error::SinkError;
use crate::group::SinkGroup;
use crate::memory::exceeds_budget;
use crate::memory::over_budget;
use crate::model::SortState;
use crate::model::lemma_result_sorted;
use crate::ooc::sort_ooc;
use crate::order::lemma_filter_none;
use crate::order::sorted_by_key;
use crate::row::Row;
use crate::sort::sort_keys;
use crate::sort::sort_with;
use crate::sort::sorted_window;

verus! {

/// The name under which a sort spills its chunks.
pub const SPILL_LABEL: &'static str = "sort";

/// How the rows are to be sorted.
#[derive(Debug, Clone, PartialEq, Eq)]
pub struct SortArguments {
    /// For each sort key whether it runs downwards. The first one rules the
    /// leading key, by which the sink sorts.
    pub descending: Vec<bool>,
    /// Whether nulls stand behind the values.
    pub nulls_last: bool,
    /// The window of `(offset, length)` to cut from the sorted rows.
    pub slice: Option<(i64, usize)>,
}

/// What a sink says after it has taken a chunk.
#[derive(Debug, Clone, Copy, PartialEq, Eq, Structural)]
pub enum SinkResult {
    /// The sink needs no more input.
    Finished,
    /// The sink takes more input.
    CanHaveMoreInput,
}

/// What a sink hands out at the end.
#[derive(Debug)]
pub enum FinalizedSink {
    /// The finished result.
    Finished(Chunk),
}

/// The bytes that a group counts as used once `bytes` more are added to
/// `used`.
pub open spec fn used_after(used: nat, bytes: int) -> nat {
    if used + bytes > usize::MAX {
        usize::MAX as nat
    } else {
        (used + bytes) as nat
    }
}

/// One sink of a group. Each thread of the pipeline drives its own.
#[derive(Debug)]
pub struct SortSink {
    schema: usize,
    chunks: VecDeque<Chunk>,
    ooc: bool,
    sort_idx: usize,
    sort_args: SortArguments,
    dist_sample: Vec<Option<i64>>,
}

impl SortSink {
    /// The number of columns of the chunks that the sink takes.
    pub closed spec fn width(self) -> nat {
        self.schema as nat
    }

    /// The chunks buffered in memory, oldest first.
    pub closed spec fn buffered(self) -> Seq<Chunk> {
        self.chunks@
    }

    /// Whether the sink has gone out of core.
    pub closed spec fn ooc(self) -> bool {
        self.ooc
    }

    /// The column by which the sink sorts.
    pub closed spec fn sort_idx(self) -> nat {
        self.sort_idx as nat
    }

    /// How the sink sorts.
    pub closed spec fn sort_args(self) -> SortArguments {
        self.sort_args
    }

    /// The keys sampled so far, one for each chunk spilled by this sink or by
    /// one that was combined into it.
    pub closed spec fn dist_sample(self) -> Seq<Option<i64>> {
        self.dist_sample@
    }

    /// Whether the leading key runs downwards.
    pub open spec fn descending(self) -> bool {
        self.sort_args().descending@[0]
    }

    /// The sort column exists, a direction is given for it, and the buffered
    /// chunks fit the schema.
    pub open spec fn wf(self) -> bool {
        &&& self.sort_idx() < self.width()
        &&& self.sort_args().descending@.len() > 0
        &&& chunks_have_width(self.buffered(), self.width())
    }

    /// A sink that is out of core buffers nothing: what it took is spilled.
    pub open spec fn flushed(self) -> bool {
        self.ooc() ==> self.buffered().len() == 0
    }

    /// A sink that is out of core has a spill store in `group`, and a store
    /// there takes chunks of the sink's schema.
    pub open spec fn fits(self, group: SinkGroup) -> bool {
        &&& self.ooc() ==> group.spill() is Some
        &&& group.spill() matches Some(store) ==> store.width() == self.width()
    }

    /// `self` sorts what `other` sorts, in the same way.
    pub open spec fn same_settings(self, other: SortSink) -> bool {
        &&& self.width() == other.width()
        &&& self.sort_idx() == other.sort_idx()
        &&& self.sort_args().descending@ == other.sort_args().descending@
        &&& self.sort_args().nulls_last == other.sort_args().nulls_last
        &&& self.sort_args().slice == other.sort_args().slice
    }

    /// Whether taking a chunk of `height` rows makes the sink go out of
    /// core: it is not there yet, and with the chunk's bytes counted three
    /// times what the group uses no longer fits in what is free.
    pub open spec fn goes_ooc(self, group: SinkGroup, height: nat) -> bool {
        &&& !self.ooc()
        &&& over_budget(
            used_after(group.mem().used(), estimated_bytes(height, self.width())),
            group.mem().available(),
        )
    }

    /// Whether the spill store that a sink going out of core needs can be had.
    pub open spec fn can_spill(group: SinkGroup) -> bool {
        group.spill() is Some || group.scratch_ok()
    }

    /// A sink that sorts chunks of `schema` columns by column `sort_idx`. With
    /// `force_ooc` it is out of core from the start, whatever memory is free.
    pub fn new(
        sort_idx: usize,
        sort_args: SortArguments,
        schema: usize,
        force_ooc: bool,
        group: &mut SinkGroup,
    ) -> (sink: SortSink)
        requires
            sort_idx < schema,
            sort_args.descending@.len() > 0,
            old(group).wf(),
            old(group).spill() matches Some(store) ==> store.width() == schema,
            force_ooc ==> Self::can_spill(*old(group)),
        ensures
            sink.wf(),
            sink.flushed(),
            sink.fits(*final(group)),
            sink.width() == schema,
            sink.sort_idx() == sort_idx,
            sink.sort_args() == sort_args,
            sink.ooc() == force_ooc,
            sink.buffered() == Seq::<Chunk>::empty(),
            sink.dist_sample() == Seq::<Option<i64>>::empty(),
            old(group).spilled().len() == 0 ==> sink.state(*final(group)) == SortState::fresh(force_ooc),
            final(group).wf(),
            final(group).mem() == old(group).mem(),
            final(group).scratch_ok() == old(group).scratch_ok(),
            final(group).spilled() == old(group).spilled(),
            !force_ooc ==> final(group).spill() == old(group).spill(),
            force_ooc ==> final(group).has_store(*old(group), schema as nat, SPILL_LABEL@),
    {
        let mut out = SortSink {
            schema,
            chunks: VecDeque::new(),
            ooc: false,
            sort_idx,
            sort_args,
            dist_sample: Vec::new(),
        };
        if force_ooc {
            let made: Result<(), SinkError> = out.init_ooc(group);
            assert(made is Ok);
        }
        out
    }

    /// Takes the sink out of core: the group gets its spill store unless it
    /// has one. It fails only if the store cannot be made; then nothing
    /// changes.
    pub fn init_ooc(&mut self, group: &mut SinkGroup) -> (res: Result<(), SinkError>)
        requires
            old(self).wf(),
            old(group).wf(),
            old(self).fits(*old(group)),
        ensures
            res is Ok <==> Self::can_spill(*old(group)),
            res is Err ==> res == Err::<(), SinkError>(SinkError::SpillUnavailable) && *final(self)
                == *old(self) && final(group).spill() is None,
            res is Ok ==> final(self).ooc(),
            final(self).wf(),
            final(self).fits(*final(group)),
            final(self).same_settings(*old(self)),
            final(self).sort_args() == old(self).sort_args(),
            final(self).buffered() == old(self).buffered(),
            final(self).dist_sample() == old(self).dist_sample(),
            final(group).wf(),
            final(group).mem() == old(group).mem(),
            final(group).scratch_ok() == old(group).scratch_ok(),
            final(group).spilled() == old(group).spilled(),
            old(group).spill() is Some ==> final(group).spill() == old(group).spill(),
            res is Ok ==> final(group).has_store(*old(group), old(self).width(), SPILL_LABEL@),
    {
        match group.init_spill(self.schema, SPILL_LABEL) {
            Ok(()) => {
                self.ooc = true;
                Ok(())
            },
            Err(e) => Err(e),
        }
    }

    /// Accounts the bytes of `chunk`, unless the sink is out of core already,
    /// takes the sink out of core if the group is over its budget with them,
    /// and buffers the chunk. It fails only if the sink must go out of core
    /// and the spill store cannot be made; the chunk is then lost with the
    /// stage.
    pub fn store_chunk(&mut self, group: &mut SinkGroup, chunk: Chunk) -> (res: Result<(), SinkError>)
        requires
            old(self).wf(),
            old(group).wf(),
            old(self).fits(*old(group)),
            chunk.wf(),
            chunk.width == old(self).width(),
        ensures
            res is Err <==> old(self).goes_ooc(*old(group), chunk@.len()) && !Self::can_spill(
                *old(group),
            ),
            res is Err ==> res == Err::<(), SinkError>(SinkError::SpillUnavailable),
            final(self).ooc() == (old(self).ooc() || (res is Ok && old(self).goes_ooc(
                *old(group),
                chunk@.len(),
            ))),
            final(self).buffered() == if res is Ok {
                old(self).buffered().push(chunk)
            } else {
                old(self).buffered()
            },
            final(self).dist_sample() == old(self).dist_sample(),
            final(self).sort_args() == old(self).sort_args(),
            final(self).same_settings(*old(self)),
            final(self).wf(),
            final(self).fits(*final(group)),
            final(group).wf(),
            final(group).spilled() == old(group).spilled(),
            final(group).scratch_ok() == old(group).scratch_ok(),
            old(group).spill() is Some ==> final(group).spill() == old(group).spill(),
            final(self).ooc() ==> final(group).has_store(*old(group), old(self).width(), SPILL_LABEL@),
            !final(self).ooc() ==> final(group).spill() == old(group).spill(),
            final(group).mem().used() == if old(self).ooc() {
                old(group).mem().used()
            } else {
                used_after(old(group).mem().used(), estimated_bytes(chunk@.len(), old(self).width()))
            },
            final(group).mem().available() == old(group).mem().available(),
            final(group).mem().fetch_count() == old(group).mem().fetch_count(),
            final(group).mem().thread_count() == old(group).mem().thread_count(),
    {
        if !self.ooc {
            let chunk_bytes: usize = chunk.estimated_size();
            let used: usize = group.fetch_add(chunk_bytes);
            let free: usize = group.get_available();
            // The sort needs memory of its own: three times the data must fit.
            if exceeds_budget(used, free) {
                match self.init_ooc(group) {
                    Ok(()) => {},
                    Err(e) => {
                        return Err(e);
                    },
                }
            }
        }
        self.chunks.push_back(chunk);
        Ok(())
    }

    /// Spills every buffered chunk, oldest first. Of each chunk with rows the
    /// key of the first row joins the sample and the chunk goes to the spill
    /// store; a chunk without rows is dropped. With nothing buffered nothing
    /// is spilled and nothing sampled.
    pub fn dump(&mut self, group: &mut SinkGroup)
        requires
            old(self).wf(),
            old(self).ooc(),
            old(group).wf(),
            old(self).fits(*old(group)),
        ensures
            final(self).buffered() == Seq::<Chunk>::empty(),
            final(group).spilled() == old(group).spilled() + non_empty(old(self).buffered()),
            final(self).dist_sample() == old(self).dist_sample() + first_keys(
                old(self).buffered(),
                old(self).sort_idx() as int,
            ),
            old(self).buffered().len() == 0 ==> final(group).spilled() == old(group).spilled()
                && final(self).dist_sample() == old(self).dist_sample(),
            final(self).state(*final(group)) == old(self).state(*old(group)).flush(
                old(self).sort_idx() as int,
            ),
            final(self).ooc(),
            final(self).sort_args() == old(self).sort_args(),
            final(self).same_settings(*old(self)),
            final(self).wf(),
            final(self).flushed(),
            final(self).fits(*final(group)),
            final(group).wf(),
            final(group).mem() == old(group).mem(),
            final(group).scratch_ok() == old(group).scratch_ok(),
            final(group).spill() is Some,
            final(group).keeps_store(*old(group)),
    {
        let ghost start = self.chunks@;
        let ghost spilled = group.spilled();
        let ghost sample = self.dist_sample@;
        let ghost idx = self.sort_idx as int;
        proof {
            assert(start.skip(0) =~= start);
            assert(start.take(0) =~= Seq::<Chunk>::empty());
            lemma_filter_none(Seq::<Chunk>::empty(), |c: Chunk| c@.len() > 0);
            assert(spilled + non_empty(start.take(0)) =~= spilled);
            assert(sample + first_keys(start.take(0), idx) =~= sample);
        }
        // Take from the front, so that what was sorted stays sorted as it is
        // written.
        while self.chunks.len() > 0
            invariant
                self.chunks@.len() <= start.len(),
                self.chunks@ == start.skip(start.len() - self.chunks@.len()),
                group.spilled() == spilled + non_empty(start.take(start.len() - self.chunks@.len())),
                self.dist_sample@ == sample + first_keys(
                    start.take(start.len() - self.chunks@.len()),
                    idx,
                ),
                idx == self.sort_idx,
                self.ooc,
                self.sort_args == old(self).sort_args,
                self.same_settings(*old(self)),
                self.wf(),
                self.fits(*group),
                group.wf(),
                group.mem() == old(group).mem(),
                group.scratch_ok() == old(group).scratch_ok(),
                group.spill() is Some,
                group.keeps_store(*old(group)),
            decreases self.chunks@.len(),
        {
            let ghost done = start.len() - self.chunks@.len();
            let df: Chunk = self.chunks.pop_front().unwrap();
            proof {
                assert(df == start[done]);
                assert(start.take(done + 1) =~= start.take(done).push(df));
                assert(start.skip(done).subrange(1, start.skip(done).len() as int) =~= start.skip(
                    done + 1,
                ));
                lemma_non_empty_push(start.take(done), df);
                lemma_first_keys_push(start.take(done), df, idx);
            }
            // A chunk without rows has no key to sample and nothing to spill.
            match df.first_key(self.sort_idx) {
                Some(key) => {
                    self.dist_sample.push(key);
                    group.dump_chunk(df);
                    proof {
                        assert(spilled + non_empty(start.take(done)).push(df) =~= (spilled + non_empty(
                            start.take(done),
                        )).push(df));
                        assert(sample + first_keys(start.take(done), idx).push(key) =~= (sample
                            + first_keys(start.take(done), idx)).push(key));
                    }
                },
                None => {},
            }
        }
        proof {
            assert(start.take(start.len() as int) =~= start);
            assert(self.chunks@ =~= Seq::<Chunk>::empty());
            if start.len() == 0 {
                lemma_filter_none(start, |c: Chunk| c@.len() > 0);
                assert(spilled + non_empty(start) =~= spilled);
                assert(sample + first_keys(start, idx) =~= sample);
            }
        }
    }

    /// Takes `chunk`. While the sink sorts in memory the chunk is buffered;
    /// once it is out of core, everything buffered is spilled at once, this
    /// chunk last. The sink always takes more input. It fails only if it must
    /// go out of core and the spill store cannot be made.
    pub fn sink(&mut self, group: &mut SinkGroup, chunk: Chunk) -> (res: Result<SinkResult, SinkError>)
        requires
            old(self).wf(),
            old(group).wf(),
            old(self).fits(*old(group)),
            chunk.wf(),
            chunk.width == old(self).width(),
        ensures
            res is Err <==> old(self).goes_ooc(*old(group), chunk@.len()) && !Self::can_spill(
                *old(group),
            ),
            res is Err ==> res == Err::<SinkResult, SinkError>(SinkError::SpillUnavailable),
            res is Ok ==> res == Ok::<SinkResult, SinkError>(SinkResult::CanHaveMoreInput),
            res is Ok ==> final(self).state(*final(group)) == old(self).state(*old(group)).sink(
                chunk,
                old(self).goes_ooc(*old(group), chunk@.len()),
                old(self).sort_idx() as int,
            ),
            res is Err ==> final(self).state(*final(group)) == old(self).state(*old(group)),
            old(self).ooc() ==> final(self).ooc(),
            final(self).ooc() == (old(self).ooc() || (res is Ok && old(self).goes_ooc(
                *old(group),
                chunk@.len(),
            ))),
            res is Err ==> final(self).buffered() == old(self).buffered() && final(group).spilled()
                == old(group).spilled() && final(self).dist_sample() == old(self).dist_sample(),
            res is Ok && !final(self).ooc() ==> final(self).buffered() == old(self).buffered().push(
                chunk,
            ) && final(group).spilled() == old(group).spilled() && final(self).dist_sample() == old(self).dist_sample(),
            res is Ok && final(self).ooc() ==> final(self).buffered() == Seq::<Chunk>::empty()
                && final(group).spilled() == old(group).spilled() + non_empty(
                old(self).buffered().push(chunk),
            ) && final(self).dist_sample() == old(self).dist_sample() + first_keys(
                old(self).buffered().push(chunk),
                old(self).sort_idx() as int,
            ),
            final(self).sort_args() == old(self).sort_args(),
            final(self).same_settings(*old(self)),
            final(self).wf(),
            old(self).flushed() ==> final(self).flushed(),
            final(self).fits(*final(group)),
            final(group).wf(),
            final(group).scratch_ok() == old(group).scratch_ok(),
            final(group).mem().used() == if old(self).ooc() {
                old(group).mem().used()
            } else {
                used_after(old(group).mem().used(), estimated_bytes(chunk@.len(), old(self).width()))
            },
            final(group).mem().available() == old(group).mem().available(),
            final(group).mem().fetch_count() == old(group).mem().fetch_count(),
            final(group).mem().thread_count() == old(group).mem().thread_count(),
            final(self).ooc() ==> final(group).has_store(*old(group), old(self).width(), SPILL_LABEL@),
            !final(self).ooc() ==> final(group).spill() == old(group).spill(),
    {
        match self.store_chunk(group, chunk) {
            Ok(()) => {},
            Err(e) => {
                return Err(e);
            },
        }
        if self.ooc {
            self.dump(group);
        }
        Ok(SinkResult::CanHaveMoreInput)
    }

    /// What the sink and the spill store of `group` hold, as plain values.
    pub open spec fn state(self, group: SinkGroup) -> SortState {
        SortState {
            ooc: self.ooc(),
            buffered: self.buffered(),
            spilled: group.spilled(),
            sample: self.dist_sample(),
        }
    }

    /// The rows that the sink answers for: those spilled by the group once it
    /// is out of core, those that it buffers until then.
    pub open spec fn held_rows(self, group: SinkGroup) -> Seq<Row> {
        if self.ooc() {
            all_rows(group.spilled())
        } else {
            all_rows(self.buffered())
        }
    }

    /// The rows that `finalize` returns: the held rows sorted by the leading
    /// key, nulls where the sort arguments put them, cut to the slice.
    pub open spec fn result_rows(self, group: SinkGroup) -> Seq<Row> {
        sorted_window(
            self.held_rows(group),
            self.sort_idx() as int,
            self.descending(),
            self.sort_args().nulls_last,
            self.sort_args().slice,
        )
    }

    /// Folds the sibling `other` into this sink: its buffered chunks and its
    /// sample go behind this sink's, and it keeps none. The sink is out of
    /// core if either was; then everything buffered is spilled at once.
    pub fn combine(&mut self, other: &mut SortSink, group: &mut SinkGroup)
        requires
            old(self).wf(),
            old(other).wf(),
            old(self).same_settings(*old(other)),
            old(group).wf(),
            old(self).fits(*old(group)),
            old(other).fits(*old(group)),
        ensures
            final(self).ooc() == (old(self).ooc() || old(other).ooc()),
            final(self).state(*final(group)) == old(self).state(*old(group)).combine(
                old(other).ooc(),
                old(other).buffered(),
                old(other).dist_sample(),
                old(self).sort_idx() as int,
            ),
            !final(self).ooc() ==> final(self).buffered() == old(self).buffered() + old(other).buffered()
                && final(group).spilled() == old(group).spilled() && final(self).dist_sample() == old(self).dist_sample() + old(other).dist_sample(),
            final(self).ooc() ==> final(self).buffered() == Seq::<Chunk>::empty() && final(group).spilled() == old(group).spilled() + non_empty(
                old(self).buffered() + old(other).buffered(),
            ) && final(self).dist_sample() == old(self).dist_sample() + old(other).dist_sample()
                + first_keys(
                old(self).buffered() + old(other).buffered(),
                old(self).sort_idx() as int,
            ),
            final(other).buffered() == Seq::<Chunk>::empty(),
            final(other).dist_sample() == Seq::<Option<i64>>::empty(),
            final(other).ooc() == old(other).ooc(),
            final(other).sort_args() == old(other).sort_args(),
            final(other).same_settings(*old(other)),
            final(other).wf(),
            final(other).flushed(),
            final(other).fits(*final(group)),
            final(self).sort_args() == old(self).sort_args(),
            final(self).same_settings(*old(self)),
            final(self).wf(),
            final(self).flushed(),
            final(self).fits(*final(group)),
            final(group).wf(),
            final(group).mem() == old(group).mem(),
            final(group).scratch_ok() == old(group).scratch_ok(),
            final(group).keeps_store(*old(group)),
            !final(self).ooc() ==> final(group).spill() == old(group).spill(),
    {
        self.chunks.append(&mut other.chunks);
        self.ooc = self.ooc || other.ooc;
        self.dist_sample.append(&mut other.dist_sample);
        if self.ooc {
            self.dump(group);
        }
    }

    /// A sibling for thread `thread_no`: it sorts what this sink sorts, in the
    /// same way and in the same mode, and has taken nothing yet.
    pub fn split(&self, thread_no: usize) -> (sibling: SortSink)
        requires
            self.wf(),
        ensures
            sibling.same_settings(*self),
            sibling.ooc() == self.ooc(),
            sibling.buffered() == Seq::<Chunk>::empty(),
            sibling.dist_sample() == Seq::<Option<i64>>::empty(),
            sibling.wf(),
            sibling.flushed(),
            forall|group: SinkGroup| self.fits(group) ==> sibling.fits(group),
    {
        let _ = thread_no;
        SortSink {
            schema: self.schema,
            chunks: VecDeque::new(),
            ooc: self.ooc,
            sort_idx: self.sort_idx,
            sort_args: SortArguments {
                descending: copy_flags(&self.sort_args.descending),
                nulls_last: self.sort_args.nulls_last,
                slice: self.sort_args.slice,
            },
            dist_sample: Vec::new(),
        }
    }

    /// Ends the sink and hands out the sorted rows.
    ///
    /// In memory, the buffered chunks are stacked and sorted. Out of core, the
    /// sample is sorted into partition boundaries and the spilled chunks are
    /// merged by them; this fails if a write of a spilled chunk has failed, or
    /// if one still waits to be written. A sink that took no rows hands out a
    /// chunk without rows.
    pub fn finalize(&mut self, group: &mut SinkGroup) -> (res: Result<FinalizedSink, SinkError>)
        requires
            old(self).wf(),
            old(group).wf(),
            old(self).fits(*old(group)),
        ensures
            res is Err <==> old(self).ooc() && (old(group).spill()->0.failed() || !old(group).spill()->0.drained()),
            res is Err ==> res->Err_0 == (if old(group).spill()->0.failed() {
                SinkError::SpillFailed
            } else {
                SinkError::SpillPending
            }) && *final(self) == *old(self) && *final(group) == *old(group),
            res matches Ok(FinalizedSink::Finished(df)) ==> df.wf() && df.width == old(self).width()
                && df@ == old(self).result_rows(*old(group)) && df@ == old(self).state(
                *old(group),
            ).result(
                old(self).sort_idx() as int,
                old(self).descending(),
                old(self).sort_args().nulls_last,
                old(self).sort_args().slice,
            ) && sorted_by_key(
                df@,
                old(self).sort_idx() as int,
                old(self).descending(),
                old(self).sort_args().nulls_last,
            ),
            res is Ok && old(self).ooc() ==> final(group).spilled() == Seq::<Chunk>::empty()
                && final(self).buffered() == old(self).buffered(),
            res is Ok && !old(self).ooc() ==> final(group).spilled() == old(group).spilled()
                && final(self).buffered() == Seq::<Chunk>::empty(),
            final(self).ooc() == old(self).ooc(),
            final(self).dist_sample() == old(self).dist_sample(),
            final(self).sort_args() == old(self).sort_args(),
            final(self).same_settings(*old(self)),
            final(self).wf(),
            final(self).fits(*final(group)),
            final(group).wf(),
            final(group).mem() == old(group).mem(),
            final(group).scratch_ok() == old(group).scratch_ok(),
            !old(self).ooc() ==> final(group).spill() == old(group).spill(),
            final(group).spill() is Some <==> old(group).spill() is Some,
    {
        let descending: bool = self.sort_args.descending[0];
        if self.ooc {
            if group.spill_failed() {
                return Err(SinkError::SpillFailed);
            }
            // Every spilled chunk must be written before the merge reads it.
            if !group.spill_drained() {
                return Err(SinkError::SpillPending);
            }
            let dist: Vec<Option<i64>> = sort_keys(&self.dist_sample, descending, self.sort_args.nulls_last);
            let runs: VecDeque<Chunk> = group.take_spilled();
            let df: Chunk = sort_ooc(
                runs,
                self.schema,
                &dist,
                self.sort_idx,
                descending,
                self.sort_args.nulls_last,
                self.sort_args.slice,
            );
            proof {
                lemma_result_sorted(
                    all_rows(old(group).spilled()),
                    self.sort_idx as int,
                    descending,
                    self.sort_args.nulls_last,
                    self.sort_args.slice,
                );
            }
            Ok(FinalizedSink::Finished(df))
        } else {
            let mut chunks: VecDeque<Chunk> = VecDeque::new();
            std::mem::swap(&mut self.chunks, &mut chunks);
            let df: Chunk = accumulate_vertical(chunks, self.schema);
            let df: Chunk = sort_with(
                df,
                self.sort_idx,
                descending,
                self.sort_args.nulls_last,
                self.sort_args.slice,
            );
            proof {
                lemma_result_sorted(
                    all_rows(old(self).buffered()),
                    self.sort_idx as int,
                    descending,
                    self.sort_args.nulls_last,
                    self.sort_args.slice,
                );
            }
            Ok(FinalizedSink::Finished(df))
        }
    }

    /// Whether the sink has gone out of core.
    pub fn is_ooc(&self) -> (ooc: bool)
        ensures
            ooc == self.ooc(),
    {
        self.ooc
    }

    /// The number of chunks buffered in memory.
    pub fn buffered_chunks(&self) -> (n: usize)
        ensures
            n == self.buffered().len(),
    {
        self.chunks.len()
    }

    /// The keys sampled so far.
    pub fn sample(&self) -> (keys: &Vec<Option<i64>>)
        ensures
            keys@ == self.dist_sample(),
    {
        &self.dist_sample
    }

    /// The name of this kind of sink.
    pub fn fmt(&self) -> (name: &'static str)
        ensures
            name@ == SPILL_LABEL@,
    {
        SPILL_LABEL
    }
}

/// Copies the flags.
fn copy_flags(flags: &Vec<bool>) -> (copy: Vec<bool>)
    ensures
        copy@ == flags@,
{
    let mut copy: Vec<bool> = Vec::new();
    let mut i: usize = 0;
    while i < flags.len()
        invariant
            i <= flags@.len(),
            copy@ == flags@.take(i as int),
        decreases flags@.len() - i,
    {
        copy.push(flags[i]);
        assert(flags@.take(i + 1) =~= flags@.take(i as int).push(flags@[i as int]));
        i += 1;
    }
    assert(flags@.take(flags@.len() as int) =~= flags@);
    copy
}

} // verus!
