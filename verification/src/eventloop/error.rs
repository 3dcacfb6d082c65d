use vstd::prelude::*;

use vstd::string::StringExecFns;

use crate::eventloop::eventloop::format_with_fd;
use crate::eventloop::model::decimal;
use crate::sys::kqueue::{io_error_text, starts_with, KqueueError};

verus! {

/// Errors of the event loop.
#[derive(Debug)]
pub enum EventLoopError {
    Kqueue(KqueueError),
    Io(std::io::Error),
    CallbackPanic(String),
    HandlerNotFound(i32),
    Shutdown,
}

impl From<KqueueError> for EventLoopError {
    fn from(err: KqueueError) -> (r: Self) {
        EventLoopError::Kqueue(err)
    }
}

impl vstd::std_specs::convert::FromSpecImpl<KqueueError> for EventLoopError {
    open spec fn obeys_from_spec() -> bool {
        true
    }

    open spec fn from_spec(err: KqueueError) -> Self {
        EventLoopError::Kqueue(err)
    }
}

impl From<std::io::Error> for EventLoopError {
    fn from(err: std::io::Error) -> (r: Self) {
        EventLoopError::Io(err)
    }
}

impl vstd::std_specs::convert::FromSpecImpl<std::io::Error> for EventLoopError {
    open spec fn obeys_from_spec() -> bool {
        true
    }

    open spec fn from_spec(err: std::io::Error) -> Self {
        EventLoopError::Io(err)
    }
}

impl EventLoopError {
    /// What went wrong, in words: the kind of error, then its details.
    pub fn message(&self) -> (s: String)
        ensures
            match self {
                EventLoopError::Kqueue(k) => starts_with(s@, "kqueue error: "@) && starts_with(
                    s@.skip(14),
                    match k {
                        KqueueError::Create(_) => "kqueue creation failed: "@,
                        KqueueError::Kevent(_) => "kevent call failed: "@,
                    },
                ),
                EventLoopError::Io(_) => starts_with(s@, "io error: "@),
                EventLoopError::CallbackPanic(msg) => s@ == "callback panic: "@ + msg@,
                EventLoopError::HandlerNotFound(fd) => s@ == "handler not found for fd "@ + decimal(
                    *fd as int,
                ),
                EventLoopError::Shutdown => s@ == "event loop shutdown"@,
            },
    {
        match self {
            EventLoopError::Kqueue(k) => {
                let prefix = String::from_str("kqueue error: ");
                let inner = k.message();
                let s = prefix.concat(inner.as_str());
                proof {
                    reveal_strlit("kqueue error: ");
                    assert(s@.subrange(0, 14) =~= prefix@);
                    assert(s@.skip(14) =~= inner@);
                }
                s
            },
            EventLoopError::Io(e) => {
                let prefix = String::from_str("io error: ");
                let s = prefix.concat(io_error_text(e).as_str());
                assert(s@.subrange(0, prefix@.len() as int) =~= prefix@);
                s
            },
            EventLoopError::CallbackPanic(msg) => String::from_str("callback panic: ").concat(
                msg.as_str(),
            ),
            EventLoopError::HandlerNotFound(fd) => format_with_fd("handler not found for fd ", *fd),
            EventLoopError::Shutdown => String::from_str("event loop shutdown"),
        }
    }
}

pub type Result<T> = core::result::Result<T, EventLoopError>;

/// What a read or write callback came to: it returned `Ok`, it returned an
/// error, or it panicked (and the panic was caught).
#[derive(Debug)]
pub enum CallbackOutcome {
    Completed,
    Failed(EventLoopError),
    Panicked,
}

/// A report that the loop leaves for its owner to print: a read or write
/// callback error that no error handler took, a timer callback's error or
/// panic, or an event for an fd with no handler.
#[derive(Debug)]
pub enum Diagnostic {
    TimerCallbackFailed(EventLoopError),
    TimerCallbackPanicked,
    ReadCallbackFailed(i32, EventLoopError),
    WriteCallbackFailed(i32, EventLoopError),
    UnknownFd(i32),
}

} // verus!
