//! The ways in which a sink fails.

use vstd::prelude::*;

verus! {

/// Why a sink could not go on. Each one ends the pipeline stage: no partial
/// result is produced.
#[derive(Debug, Clone, Copy, PartialEq, Eq, Structural)]
pub enum SinkError {
    /// The spill store could not be created: no scratch space to write to.
    SpillUnavailable,
    /// A write of a spilled chunk failed.
    SpillFailed,
    /// Spilled chunks are still waiting to be written.
    SpillPending,
}

impl SinkError {
    /// A description for people to read.
    pub fn message(&self) -> (text: &'static str)
        ensures
            text@.len() > 0,
            text@ == self.spec_message(),
    {
        proof {
            reveal_strlit("no scratch space to spill to");
            reveal_strlit("a spilled chunk could not be written");
            reveal_strlit("spilled chunks are still waiting to be written");
        }
        match self {
            SinkError::SpillUnavailable => "no scratch space to spill to",
            SinkError::SpillFailed => "a spilled chunk could not be written",
            SinkError::SpillPending => "spilled chunks are still waiting to be written",
        }
    }

    /// The text that `message` returns.
    pub open spec fn spec_message(self) -> Seq<char> {
        match self {
            SinkError::SpillUnavailable => "no scratch space to spill to"@,
            SinkError::SpillFailed => "a spilled chunk could not be written"@,
            SinkError::SpillPending => "spilled chunks are still waiting to be written"@,
        }
    }
}

} // verus!
