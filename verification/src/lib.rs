//! A kqueue-driven event loop: fd readiness registration, single-shot and
//! interval timers, deadline-aware poll timeouts, panic-isolated dispatch
//! and metrics, with its decisions verified.
pub mod eventloop;
pub mod sys;

pub use eventloop::callback::{ErrorCallback, ReadyCallback, TimerCallback};
pub use eventloop::config::{EventLoopConfig, EventLoopMetrics, MetricsSnapshot};
pub use eventloop::error::{CallbackOutcome, Diagnostic, EventLoopError, Result};
pub use eventloop::eventloop::{EventLoop, FdEvent, ShutdownHandle, Timer, TimerId};
pub use eventloop::model::MAX_DURATION_NANOS;
pub use sys::kqueue::KqueueError;
pub use sys::{Event, Filter};
