//! What the sinks of one group share: the memory tracker and the slot of the
//! spill store.

use std::collections::VecDeque;
use vstd::prelude::*;
use crate::chunk::Chunk;
use crate::error::SinkError;
use crate::memory::MemTracker;
use crate::spill::SpillStore;

verus! {

/// The state shared by the sinks that were split from one sink.
///
/// The spill store is made when the first sink of the group needs it, and is
/// never made again.
#[derive(Debug)]
pub struct SinkGroup {
    mem_track: MemTracker,
    spill: Option<SpillStore>,
    scratch_ok: bool,
}

impl SinkGroup {
    /// The memory tracker.
    pub closed spec fn mem(self) -> MemTracker {
        self.mem_track
    }

    /// The spill store, once it is made.
    pub closed spec fn spill(self) -> Option<SpillStore> {
        self.spill
    }

    /// Whether there is scratch space in which a spill store can be made.
    pub closed spec fn scratch_ok(self) -> bool {
        self.scratch_ok
    }

    /// The spill store, if there is one, is well formed.
    pub open spec fn wf(self) -> bool {
        self.spill() matches Some(store) ==> store.wf()
    }

    /// The chunks spilled so far, oldest first.
    pub open spec fn spilled(self) -> Seq<Chunk> {
        match self.spill() {
            Some(store) => store.runs(),
            None => Seq::<Chunk>::empty(),
        }
    }

    /// Whether the store that `before` had, if it had one, is still the store
    /// of the group, with the same record of writes: a store is never made a
    /// second time.
    pub open spec fn keeps_store(self, before: SinkGroup) -> bool {
        before.spill() matches Some(was) ==> (self.spill() matches Some(now) && now.width() == was.width()
            && now.label() == was.label() && now.written() == was.written() && now.failed()
            == was.failed())
    }

    /// Whether the group has a store, and one without a record of writes
    /// where `before` had none.
    pub open spec fn has_store(self, before: SinkGroup, width: nat, label: Seq<char>) -> bool {
        &&& self.spill() is Some
        &&& self.keeps_store(before)
        &&& before.spill() is None ==> self.spill()->0.width() == width && self.spill()->0.label() == label
            && self.spill()->0.written() == 0 && !self.spill()->0.failed()
    }

    /// A group of `thread_count` threads without a spill store, with
    /// `available` bytes of memory free.
    pub fn new(thread_count: usize, available: usize, scratch_ok: bool) -> (group: SinkGroup)
        ensures
            group.wf(),
            group.spill() is None,
            group.scratch_ok() == scratch_ok,
            group.mem().used() == 0,
            group.mem().available() == available,
            group.mem().fetch_count() == 0,
            group.mem().thread_count() == thread_count,
    {
        SinkGroup { mem_track: MemTracker::new(thread_count, available), spill: None, scratch_ok }
    }

    /// Makes the spill store unless the group has one. It fails only if there
    /// is no store and no scratch space to make one in; then nothing changes.
    pub fn init_spill(&mut self, width: usize, label: &'static str) -> (res: Result<(), SinkError>)
        requires
            old(self).wf(),
        ensures
            final(self).wf(),
            final(self).mem() == old(self).mem(),
            final(self).scratch_ok() == old(self).scratch_ok(),
            res is Ok <==> old(self).spill() is Some || old(self).scratch_ok(),
            res is Err ==> res == Err::<(), SinkError>(SinkError::SpillUnavailable) && final(self).spill()
                is None,
            res is Ok && old(self).spill() is Some ==> final(self).spill() == old(self).spill(),
            res is Ok && old(self).spill() is None ==> (final(self).spill() matches Some(store)
                && store.width() == width && store.label() == label@ && store.runs() == Seq::<
                Chunk,
            >::empty() && store.written() == 0 && !store.failed()),
    {
        if self.spill.is_some() {
            Ok(())
        } else if self.scratch_ok {
            self.spill = Some(SpillStore::new(width, label));
            Ok(())
        } else {
            Err(SinkError::SpillUnavailable)
        }
    }

    /// Whether the group has a spill store.
    pub fn has_spill(&self) -> (has: bool)
        ensures
            has == self.spill() is Some,
    {
        self.spill.is_some()
    }

    /// The spill store, once it is made.
    pub fn store(&self) -> (store: Option<&SpillStore>)
        ensures
            store is Some <==> self.spill() is Some,
            store matches Some(s) ==> Some(*s) == self.spill(),
    {
        self.spill.as_ref()
    }

    /// Hands `chunk` to the spill store, behind the chunks spilled before.
    pub fn dump_chunk(&mut self, chunk: Chunk)
        requires
            old(self).wf(),
            old(self).spill() matches Some(store) && store.width() == chunk.width,
            chunk.wf(),
        ensures
            final(self).wf(),
            final(self).mem() == old(self).mem(),
            final(self).scratch_ok() == old(self).scratch_ok(),
            final(self).spilled() == old(self).spilled().push(chunk),
            final(self).spill() matches Some(store) && store.width() == old(self).spill()->0.width()
                && store.label() == old(self).spill()->0.label() && store.written() == old(
                self,
            ).spill()->0.written() && store.failed() == old(self).spill()->0.failed(),
    {
        let mut store: SpillStore = self.spill.take().unwrap();
        store.dump_chunk(chunk);
        self.spill = Some(store);
    }

    /// Records that the spilled chunk that was to be written next is written.
    /// Without a store, or with no chunk waiting, nothing changes.
    pub fn mark_written(&mut self)
        requires
            old(self).wf(),
        ensures
            final(self).wf(),
            final(self).mem() == old(self).mem(),
            final(self).scratch_ok() == old(self).scratch_ok(),
            final(self).spilled() == old(self).spilled(),
            final(self).spill() is Some <==> old(self).spill() is Some,
            final(self).spill() matches Some(store) ==> store.width() == old(self).spill()->0.width()
                && store.label() == old(self).spill()->0.label() && store.failed() == old(
                self,
            ).spill()->0.failed() && store.written() == if old(self).spill()->0.drained() {
                old(self).spill()->0.written()
            } else {
                old(self).spill()->0.written() + 1
            },
    {
        if self.spill.is_some() {
            let mut store: SpillStore = self.spill.take().unwrap();
            store.mark_written();
            self.spill = Some(store);
        }
    }

    /// Records that a write of a spilled chunk failed. Without a store nothing
    /// changes.
    pub fn mark_failed(&mut self)
        requires
            old(self).wf(),
        ensures
            final(self).wf(),
            final(self).mem() == old(self).mem(),
            final(self).scratch_ok() == old(self).scratch_ok(),
            final(self).spilled() == old(self).spilled(),
            final(self).spill() is Some <==> old(self).spill() is Some,
            final(self).spill() matches Some(store) ==> store.width() == old(self).spill()->0.width()
                && store.label() == old(self).spill()->0.label() && store.failed()
                && store.written() == old(self).spill()->0.written(),
    {
        if self.spill.is_some() {
            let mut store: SpillStore = self.spill.take().unwrap();
            store.mark_failed();
            self.spill = Some(store);
        }
    }

    /// Whether a write of a spilled chunk has failed. Without a store none
    /// has.
    pub fn spill_failed(&self) -> (failed: bool)
        ensures
            failed == (self.spill() matches Some(store) && store.failed()),
    {
        match &self.spill {
            Some(store) => store.has_failed(),
            None => false,
        }
    }

    /// Whether every spilled chunk has been written. Without a store none
    /// waits.
    pub fn spill_drained(&self) -> (done: bool)
        requires
            self.wf(),
        ensures
            done == (self.spill() matches Some(store) ==> store.drained()),
    {
        match &self.spill {
            Some(store) => store.is_drained(),
            None => true,
        }
    }

    /// The spilled chunk that is to be written next, if one waits.
    pub fn next_unwritten(&self) -> (next: Option<&Chunk>)
        requires
            self.wf(),
        ensures
            next == match self.spill() {
                Some(store) => if store.drained() {
                    None
                } else {
                    Some(&store.runs()[store.written() as int])
                },
                None => None,
            },
    {
        match &self.spill {
            Some(store) => store.next_unwritten(),
            None => None,
        }
    }

    /// Hands out the spilled chunks, oldest first. The store stays, without
    /// chunks.
    pub fn take_spilled(&mut self) -> (runs: VecDeque<Chunk>)
        requires
            old(self).wf(),
        ensures
            runs@ == old(self).spilled(),
            final(self).wf(),
            final(self).spilled() == Seq::<Chunk>::empty(),
            final(self).mem() == old(self).mem(),
            final(self).scratch_ok() == old(self).scratch_ok(),
            final(self).spill() is Some <==> old(self).spill() is Some,
            final(self).spill() matches Some(store) ==> store.width() == old(self).spill()->0.width()
                && store.label() == old(self).spill()->0.label() && store.failed() == old(
                self,
            ).spill()->0.failed() && store.written() == 0,
    {
        if self.spill.is_some() {
            let mut store: SpillStore = self.spill.take().unwrap();
            let runs: VecDeque<Chunk> = store.take_runs();
            self.spill = Some(store);
            runs
        } else {
            VecDeque::new()
        }
    }

    /// Accounts `bytes` more as buffered and returns the new total.
    pub fn fetch_add(&mut self, bytes: usize) -> (used: usize)
        ensures
            used == final(self).mem().used(),
            final(self).mem().used() == if old(self).mem().used() + bytes > usize::MAX {
                usize::MAX as nat
            } else {
                old(self).mem().used() + bytes as nat
            },
            final(self).mem().available() == old(self).mem().available(),
            final(self).mem().fetch_count() == old(self).mem().fetch_count(),
            final(self).mem().thread_count() == old(self).mem().thread_count(),
            final(self).spill() == old(self).spill(),
            final(self).scratch_ok() == old(self).scratch_ok(),
    {
        self.mem_track.fetch_add(bytes)
    }

    /// The free memory as last read.
    pub fn get_available(&self) -> (free: usize)
        ensures
            free == self.mem().available(),
    {
        self.mem_track.get_available()
    }

    /// Counts one look at the free memory and says whether the figure is due
    /// to be read anew.
    pub fn refresh_due(&mut self) -> (due: bool)
        ensures
            due == (old(self).mem().fetch_count() as int % crate::memory::refresh_interval(
                old(self).mem().thread_count(),
            ) == 0),
            final(self).mem().used() == old(self).mem().used(),
            final(self).mem().available() == old(self).mem().available(),
            final(self).mem().thread_count() == old(self).mem().thread_count(),
            final(self).spill() == old(self).spill(),
            final(self).scratch_ok() == old(self).scratch_ok(),
    {
        self.mem_track.refresh_due()
    }

    /// Takes a new reading of the free memory.
    pub fn refresh(&mut self, free: usize)
        ensures
            final(self).mem().available() == free,
            final(self).mem().used() == old(self).mem().used(),
            final(self).mem().fetch_count() == old(self).mem().fetch_count(),
            final(self).mem().thread_count() == old(self).mem().thread_count(),
            final(self).spill() == old(self).spill(),
            final(self).scratch_ok() == old(self).scratch_ok(),
    {
        self.mem_track.refresh(free);
    }
}

} // verus!
