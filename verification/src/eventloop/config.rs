use vstd::prelude::*;

verus! {

/// Event loop configuration.
#[derive(Debug, Clone)]
pub struct EventLoopConfig {
    pub max_events: usize,
    pub poll_timeout_ms: Option<i32>,
    pub enable_metrics: bool,
}

impl Default for EventLoopConfig {
    fn default() -> (c: Self)
        ensures
            c.max_events == 1024,
            c.poll_timeout_ms == Some(100i32),
            c.enable_metrics,
    {
        EventLoopConfig { max_events: 1024, poll_timeout_ms: Some(100), enable_metrics: true }
    }
}

/// Counters of the loop's work.
#[derive(Debug, Clone, Copy, PartialEq, Eq, Structural)]
pub struct EventLoopMetrics {
    pub poll_count: u64,
    pub events_dispatched: u64,
    pub callbacks_executed: u64,
    pub errors_handled: u64,
    pub timers_fired: u64,
}

impl Default for EventLoopMetrics {
    fn default() -> (m: Self)
        ensures
            m == EventLoopMetrics::zero(),
    {
        EventLoopMetrics {
            poll_count: 0,
            events_dispatched: 0,
            callbacks_executed: 0,
            errors_handled: 0,
            timers_fired: 0,
        }
    }
}

/// A copy of the counters at one moment.
#[derive(Debug, Clone, Copy, PartialEq, Eq, Structural)]
pub struct MetricsSnapshot {
    pub poll_count: u64,
    pub events_dispatched: u64,
    pub callbacks_executed: u64,
    pub errors_handled: u64,
    pub timers_fired: u64,
}

impl EventLoopMetrics {
    pub open spec fn zero() -> EventLoopMetrics {
        EventLoopMetrics {
            poll_count: 0,
            events_dispatched: 0,
            callbacks_executed: 0,
            errors_handled: 0,
            timers_fired: 0,
        }
    }

    pub fn snapshot(&self) -> (s: MetricsSnapshot)
        ensures
            s.poll_count == self.poll_count,
            s.events_dispatched == self.events_dispatched,
            s.callbacks_executed == self.callbacks_executed,
            s.errors_handled == self.errors_handled,
            s.timers_fired == self.timers_fired,
    {
        MetricsSnapshot {
            poll_count: self.poll_count,
            events_dispatched: self.events_dispatched,
            callbacks_executed: self.callbacks_executed,
            errors_handled: self.errors_handled,
            timers_fired: self.timers_fired,
        }
    }
}

} // verus!
