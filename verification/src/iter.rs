//! The control state of a rewinding lazy sequence.
//!
//! A rewinding sequence drains an inner sequence and, when the inner
//! sequence ends, invokes a factory to open a fresh one from the beginning;
//! a factory failure is surfaced as the next element.  Pulling the inner
//! sequence and invoking the factory happen outside the library; the
//! decisions between them are taken here.

use vstd::prelude::*;

verus! {

/// What a pull of the rewinding sequence does next.
#[derive(Clone, Copy, Debug, PartialEq, Eq, Structural)]
pub enum PullStep {
    /// An inner sequence is open: pull it.
    PullInner,
    /// No inner sequence is open: invoke the factory.
    InvokeFactory,
}

/// The control state of the rewinding sequence: whether an inner sequence is
/// currently open.
pub struct FlatRepeatResult {
    has_inner: bool,
}

impl FlatRepeatResult {
    /// Whether an inner sequence is currently open.
    pub closed spec fn inner_open(&self) -> bool {
        self.has_inner
    }

    /// A fresh rewinding sequence; no inner sequence is open yet, so the
    /// first pull invokes the factory.
    pub fn new() -> (r: Self)
        ensures
            !r.inner_open(),
    {
        FlatRepeatResult { has_inner: false }
    }

    /// What a pull does next: drain the open inner sequence, or invoke the
    /// factory where none is open.
    pub fn next_step(&self) -> (s: PullStep)
        ensures
            s == if self.inner_open() {
                PullStep::PullInner
            } else {
                PullStep::InvokeFactory
            },
    {
        if self.has_inner {
            PullStep::PullInner
        } else {
            PullStep::InvokeFactory
        }
    }

    /// The open inner sequence ended: the next pull invokes the factory.
    pub fn on_inner_exhausted(&mut self)
        ensures
            !final (self).inner_open(),
    {
        self.has_inner = false;
    }

    /// The factory was invoked: success opens a fresh inner sequence, and a
    /// failure leaves none open, so the pull after the surfaced error
    /// invokes the factory again.
    pub fn on_factory_result(&mut self, ok: bool)
        ensures
            final (self).inner_open() == ok,
    {
        self.has_inner = ok;
    }
}

} // verus!
