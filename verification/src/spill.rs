//! The ledger of spilled chunks, and the state that the sinks of one group
//! share.

use std::collections::VecDeque;
use vstd::prelude::*;
use crate::chunk::Chunk;
use crate::chunk::chunks_have_width;

verus! {

/// The chunks handed over for spilling, in the order in which they came, and
/// how far writing them has got.
#[derive(Debug)]
pub struct SpillStore {
    width: usize,
    label: &'static str,
    runs: VecDeque<Chunk>,
    written: usize,
    failed: bool,
}

impl SpillStore {
    /// The number of columns of the chunks kept here.
    pub closed spec fn width(self) -> nat {
        self.width as nat
    }

    /// The name under which the chunks are spilled.
    pub closed spec fn label(self) -> Seq<char> {
        self.label@
    }

    /// The chunks handed over so far, oldest first.
    pub closed spec fn runs(self) -> Seq<Chunk> {
        self.runs@
    }

    /// How many of the chunks have been written.
    pub closed spec fn written(self) -> nat {
        self.written as nat
    }

    /// Whether a write has failed.
    pub closed spec fn failed(self) -> bool {
        self.failed
    }

    /// The chunks fit the schema, and no more are written than were handed
    /// over.
    pub open spec fn wf(self) -> bool {
        &&& chunks_have_width(self.runs(), self.width())
        &&& self.written() <= self.runs().len()
    }

    /// Every chunk handed over has been written.
    pub open spec fn drained(self) -> bool {
        self.written() == self.runs().len()
    }

    /// A store without chunks.
    pub fn new(width: usize, label: &'static str) -> (store: SpillStore)
        ensures
            store.wf(),
            store.width() == width,
            store.label() == label@,
            store.runs() == Seq::<Chunk>::empty(),
            store.written() == 0,
            !store.failed(),
    {
        SpillStore { width, label, runs: VecDeque::new(), written: 0, failed: false }
    }

    /// Takes `chunk` in behind the chunks that came before. It waits there to
    /// be written.
    pub fn dump_chunk(&mut self, chunk: Chunk)
        requires
            old(self).wf(),
            chunk.wf(),
            chunk.width == old(self).width(),
        ensures
            final(self).wf(),
            final(self).runs() == old(self).runs().push(chunk),
            final(self).width() == old(self).width(),
            final(self).label() == old(self).label(),
            final(self).written() == old(self).written(),
            final(self).failed() == old(self).failed(),
    {
        self.runs.push_back(chunk);
    }

    /// The chunk that is to be written next, if one waits.
    pub fn next_unwritten(&self) -> (next: Option<&Chunk>)
        requires
            self.wf(),
        ensures
            next == if self.drained() {
                None
            } else {
                Some(&self.runs()[self.written() as int])
            },
    {
        if self.written < self.runs.len() {
            Some(&self.runs[self.written])
        } else {
            None
        }
    }

    /// Records that the chunk that was to be written next is written. With no
    /// chunk waiting nothing changes.
    pub fn mark_written(&mut self)
        requires
            old(self).wf(),
        ensures
            final(self).wf(),
            final(self).written() == if old(self).drained() {
                old(self).written()
            } else {
                old(self).written() + 1
            },
            final(self).runs() == old(self).runs(),
            final(self).width() == old(self).width(),
            final(self).label() == old(self).label(),
            final(self).failed() == old(self).failed(),
    {
        if self.written < self.runs.len() {
            self.written = self.written + 1;
        }
    }

    /// Records that a write failed. It stays recorded.
    pub fn mark_failed(&mut self)
        ensures
            final(self).failed(),
            final(self).written() == old(self).written(),
            final(self).runs() == old(self).runs(),
            final(self).width() == old(self).width(),
            final(self).label() == old(self).label(),
    {
        self.failed = true;
    }

    /// Whether every chunk handed over has been written.
    pub fn is_drained(&self) -> (done: bool)
        requires
            self.wf(),
        ensures
            done == self.drained(),
    {
        self.written == self.runs.len()
    }

    /// Whether a write has failed.
    pub fn has_failed(&self) -> (failed: bool)
        ensures
            failed == self.failed(),
    {
        self.failed
    }

    /// Hands out the chunks taken in so far, oldest first, and keeps none.
    pub fn take_runs(&mut self) -> (runs: VecDeque<Chunk>)
        ensures
            runs@ == old(self).runs(),
            final(self).runs() == Seq::<Chunk>::empty(),
            final(self).written() == 0,
            final(self).width() == old(self).width(),
            final(self).label() == old(self).label(),
            final(self).failed() == old(self).failed(),
            final(self).wf(),
    {
        let mut runs: VecDeque<Chunk> = VecDeque::new();
        std::mem::swap(&mut self.runs, &mut runs);
        self.written = 0;
        runs
    }

    /// The number of chunks written so far.
    pub fn written_count(&self) -> (n: usize)
        ensures
            n == self.written(),
    {
        self.written
    }

    /// The number of chunks handed over so far.
    pub fn run_count(&self) -> (n: usize)
        ensures
            n == self.runs().len(),
    {
        self.runs.len()
    }

    /// The chunks handed over so far, oldest first.
    pub fn spilled_runs(&self) -> (runs: &VecDeque<Chunk>)
        ensures
            runs@ == self.runs(),
    {
        &self.runs
    }
}

} // verus!
