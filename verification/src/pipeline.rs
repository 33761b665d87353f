//! The producer loop's control state.
//!
//! The serving pipeline runs a producer that sweeps the input paths in
//! passes, pushing every sample into the batcher and draining batches into a
//! queue.  The I/O, the thread and the queue live outside the library; the
//! one decision of the loop — rewind for another pass, or stop because no
//! path produced a sample — is taken here.

use vstd::prelude::*;

verus! {

/// What the producer does when a full pass over the input paths ends.
#[derive(Clone, Copy, Debug, PartialEq, Eq, Structural)]
pub enum PassOutcome {
    /// Some sample was produced: sweep the paths again.
    Rewind,
    /// No path produced a sample: no forward progress is possible.
    Stop,
}

/// Tracks whether the current pass over the input paths has produced any
/// non-empty sample.
pub struct ProducerControl {
    any_produced: bool,
}

impl ProducerControl {
    /// Whether the current pass has produced a non-empty sample so far.
    pub closed spec fn any_produced_spec(&self) -> bool {
        self.any_produced
    }

    /// Control for a fresh pass: nothing has been produced yet.
    pub fn new() -> (r: Self)
        ensures
            !r.any_produced_spec(),
    {
        ProducerControl { any_produced: false }
    }

    /// Records the outcome of one `push_sample` call.
    pub fn note_push(&mut self, produced: bool)
        ensures
            final (self).any_produced_spec() == (old(self).any_produced_spec() || produced),
    {
        if produced {
            self.any_produced = true;
        }
    }

    /// Ends the pass: rewind when it produced anything, stop when it was
    /// empty; either way the next pass starts with a clean slate.
    pub fn finish_pass(&mut self) -> (o: PassOutcome)
        ensures
            o == if old(self).any_produced_spec() {
                PassOutcome::Rewind
            } else {
                PassOutcome::Stop
            },
            !final (self).any_produced_spec(),
    {
        let o = if self.any_produced {
            PassOutcome::Rewind
        } else {
            PassOutcome::Stop
        };
        self.any_produced = false;
        o
    }
}

} // verus!
