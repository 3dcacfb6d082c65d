use vstd::prelude::*;

use crate::eventloop::error::{CallbackOutcome, EventLoopError};
use crate::sys::Event;

verus! {

/// One call of a read or write callback: the fd and event it was given and
/// what it came to.
pub struct ReadyCall {
    pub fd: i32,
    pub event: Event,
    pub outcome: CallbackOutcome,
}

/// A read or write callback, as the loop's user supplies it. Its `history`
/// is the record of its calls; the loop relies on nothing else of it.
///
/// Each callback trait gives `history` a default, an empty record, so that
/// implementations in ordinary Rust, outside `verus!`, compile without one.
/// Verus assumes the `ensures` of `call` after every call, and an
/// implementation that keeps the default cannot meet it: what is proved
/// through these histories holds of implementations that define `history`
/// and are verified against `call`'s `ensures`, and is assumed, not checked,
/// of the others.
pub trait ReadyCallback {
    /// The calls made so far, in order.
    open spec fn history(&self) -> Seq<ReadyCall> {
        Seq::empty()
    }

    /// Runs the callback for `event` on `fd`; a panic inside it is caught and
    /// reported as `CallbackOutcome::Panicked`.
    fn call(&mut self, fd: i32, event: &Event) -> (r: CallbackOutcome)
        ensures
            final(self).history() == old(self).history().push(
                ReadyCall { fd, event: *event, outcome: r },
            ),
    ;
}

/// A per-fd error handler; a panic inside it is swallowed.
pub trait ErrorCallback {
    /// The (fd, error) pairs it was handed so far, in order.
    open spec fn history(&self) -> Seq<(i32, EventLoopError)> {
        Seq::empty()
    }

    fn call(&mut self, fd: i32, err: &EventLoopError)
        ensures
            final(self).history() == old(self).history().push((fd, *err)),
    ;
}

/// A timer callback; a panic inside it is caught and reported as
/// `CallbackOutcome::Panicked`.
pub trait TimerCallback {
    /// What its calls came to so far, in order.
    open spec fn history(&self) -> Seq<CallbackOutcome> {
        Seq::empty()
    }

    fn call(&mut self) -> (r: CallbackOutcome)
        ensures
            final(self).history() == old(self).history().push(r),
    ;
}

} // verus!
