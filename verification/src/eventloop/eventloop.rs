use std::collections::HashMap;
use std::sync::atomic::AtomicBool;
use std::sync::atomic::Ordering;
use std::sync::Arc;
use std::time::Instant;

use vstd::prelude::*;

use crate::eventloop::callback::{ErrorCallback, ReadyCall, ReadyCallback, TimerCallback};
use crate::eventloop::config::{EventLoopConfig, EventLoopMetrics, MetricsSnapshot};
use crate::eventloop::error::{CallbackOutcome, Diagnostic, EventLoopError, Result};
use crate::eventloop::laws::{law_dispatch_call_order, law_dispatch_frame, routed_log};
use crate::eventloop::model::{
    after_callback, after_timer_outcome, after_timer_outcomes, apply_additions_model, apply_removals_model, bump,
    count_due, decimal, deregister_model, deregistration_request, dispatch_all, dispatch_one,
    due_ids, filter_additions, filter_removals, fired, handlers_wf, set_error_handler_model,
    lemma_dispatch_step, lemma_process_done, lemma_process_fire, lemma_process_skip,
    lemma_process_start, lemma_without_id, min_remaining, new_handler, outcomes, poll_timeout,
    process_inv, record_fits, records_fit, counters_match, lemma_wrap_step, no_counts, totals_le,
    CounterTotals, register_model, registration_request, remaining,
    timers_processed, timers_wf, without_id, CallRecord, HandlerView, LoopView, TimerView,
    MAX_DURATION_NANOS,
};
use crate::sys::kqueue::KqueueError;
use crate::sys::{Event, Filter};

verus! {

/// `std::time::Instant`, the clock reading that the loop's instants count
/// from.
#[verifier::external_type_specification]
#[verifier::external_body]
pub struct ExInstant(Instant);

/// Calls `Instant::now`. Nothing is claimed of the reading.
#[verifier::external_body]
fn clock_origin() -> Instant {
    Instant::now()
}

/// Calls `Instant::elapsed` on `origin` and gives the `Duration` in
/// nanoseconds (`Duration::as_nanos`). The claim is only that a `Duration`
/// never holds more than `MAX_DURATION_NANOS`.
#[verifier::external_body]
fn clock_elapsed_nanos(origin: &Instant) -> (n: u128)
    ensures
        n <= MAX_DURATION_NANOS,
{
    origin.elapsed().as_nanos()
}

/// Calls `Arc::clone` on the shared running flag. The claim is what
/// `Arc::clone` documents: the clone points to the same allocation, so it is
/// the same flag. Nothing is claimed of the flag's value, an atomic that
/// Verus does not track.
#[verifier::external_body]
fn share_flag(flag: &Arc<AtomicBool>) -> (r: Arc<AtomicBool>)
    ensures
        r == *flag,
{
    Arc::clone(flag)
}

/// Formats `prefix` followed by `fd` in decimal (`format!` with `Display`
/// for `i32`). The claim is that `Display` writes an `i32` in decimal,
/// with a leading '-' when negative.
#[verifier::external_body]
pub(crate) fn format_with_fd(prefix: &str, fd: i32) -> (s: String)
    ensures
        s@ == prefix@ + decimal(fd as int),
{
    format!("{}{}", prefix, fd)
}

/// Identifies a timer of one loop; ids are drawn in increasing order.
#[derive(Debug, Clone, Copy, PartialEq, Eq, Hash, Structural)]
pub struct TimerId(u64);

impl TimerId {
    pub closed spec fn id(self) -> u64 {
        self.0
    }
}

/// A timer: its deadline and, for an interval timer, its period, in
/// nanoseconds, and its callback.
pub struct Timer<T> {
    id: TimerId,
    deadline: u128,
    interval: Option<u128>,
    callback: T,
}

impl<T: TimerCallback> View for Timer<T> {
    type V = TimerView;

    closed spec fn view(&self) -> TimerView {
        TimerView {
            id: self.id.0,
            deadline: self.deadline,
            interval: self.interval,
            calls: self.callback.history(),
        }
    }
}

pub open spec fn timer_views<T: TimerCallback>(s: Seq<Timer<T>>) -> Seq<TimerView> {
    s.map_values(|t: Timer<T>| t@)
}

/// Stops the loop from another place than the loop's owner, such as a
/// callback.
#[derive(Clone)]
pub struct ShutdownHandle {
    running: Arc<AtomicBool>,
}

impl ShutdownHandle {
    /// The running flag this handle clears.
    pub closed spec fn flag(&self) -> Arc<AtomicBool> {
        self.running
    }

    /// Clears the running flag; the loop stops before its next iteration.
    pub fn shutdown(&self) {
        self.running.store(false, Ordering::Release);
    }
}

/// The event loop: fd handlers, pending readiness events, timers, metrics
/// and the reports left for the owner. The kernel queue itself is driven by
/// the owner, which tells the loop what each kernel call answered.
pub struct EventLoop<F, E, T> {
    handlers: HashMap<i32, FdEvent<F, E>>,
    ready_events: Vec<Event>,
    timers: Vec<Timer<T>>,
    next_timer_id: u64,
    config: EventLoopConfig,
    metrics: EventLoopMetrics,
    diagnostics: Vec<Diagnostic>,
    running: Arc<AtomicBool>,
    origin: Instant,
    last_now: u128,
    fired: Ghost<Seq<TimerView>>,
    call_log: Ghost<Seq<(bool, ReadyCall)>>,
    counted: Ghost<CounterTotals>,
}

/// The fd handler: its registered interest and callbacks.
pub struct FdEvent<F, E> {
    pub fd: i32,
    filter: Filter,
    on_read: Option<F>,
    on_write: Option<F>,
    on_error: Option<E>,
    events_processed: u64,
}

/// The call history of an optional read or write callback; empty without one.
pub open spec fn ready_calls<F: ReadyCallback>(c: Option<F>) -> Seq<ReadyCall> {
    match c {
        Some(cb) => cb.history(),
        None => Seq::empty(),
    }
}

/// The call history of an optional error handler; empty without one.
pub open spec fn error_calls<E: ErrorCallback>(c: Option<E>) -> Seq<(i32, EventLoopError)> {
    match c {
        Some(cb) => cb.history(),
        None => Seq::empty(),
    }
}

/// The call history of a new callback, if one is given.
pub open spec fn new_calls<F: ReadyCallback>(c: Option<F>) -> Option<Seq<ReadyCall>> {
    match c {
        Some(cb) => Some(cb.history()),
        None => None,
    }
}

impl<F: ReadyCallback, E: ErrorCallback> View for FdEvent<F, E> {
    type V = HandlerView;

    closed spec fn view(&self) -> HandlerView {
        HandlerView {
            fd: self.fd,
            filter: self.filter,
            has_read: self.on_read is Some,
            has_write: self.on_write is Some,
            has_error: self.on_error is Some,
            read_calls: ready_calls(self.on_read),
            write_calls: ready_calls(self.on_write),
            error_calls: error_calls(self.on_error),
            events_processed: self.events_processed,
        }
    }
}

impl<F, E> FdEvent<F, E> {
    /// The handler's read, write and error callbacks.
    pub closed spec fn callbacks(&self) -> (Option<F>, Option<F>, Option<E>) {
        (self.on_read, self.on_write, self.on_error)
    }
}

impl<F: ReadyCallback, E: ErrorCallback> FdEvent<F, E> {
    /// A handler for `fd` with no interest and no callbacks.
    pub fn new(fd: i32) -> (h: Self)
        ensures
            h@ == new_handler(fd),
            h.callbacks() == (None::<F>, None::<F>, None::<E>),
    {
        FdEvent {
            fd,
            filter: Filter::empty(),
            on_read: None,
            on_write: None,
            on_error: None,
            events_processed: 0,
        }
    }

    /// Whether a read or a write callback is set.
    pub fn has_callbacks(&self) -> (b: bool)
        ensures
            b == (self@.has_read || self@.has_write),
    {
        self.on_read.is_some() || self.on_write.is_some()
    }
}

pub open spec fn handler_views<F: ReadyCallback, E: ErrorCallback>(m: Map<i32, FdEvent<F, E>>) -> Map<i32, HandlerView> {
    m.map_values(|h: FdEvent<F, E>| h@)
}

impl<F: ReadyCallback, E: ErrorCallback, T: TimerCallback> EventLoop<F, E, T> {
    /// The callbacks of the handler of `fd`; none without a handler.
    pub closed spec fn callbacks_of(&self, fd: i32) -> (Option<F>, Option<F>, Option<E>) {
        if self.handlers@.contains_key(fd) {
            self.handlers@[fd].callbacks()
        } else {
            (None, None, None)
        }
    }

    /// The running flag, shared with the loop's shutdown handles.
    pub closed spec fn running_flag(&self) -> Arc<AtomicBool> {
        self.running
    }

    pub closed spec fn timers_view(&self) -> Seq<TimerView> {
        timer_views(self.timers@)
    }

    /// The timers' callbacks, in the order of `timers_view`.
    pub closed spec fn timer_callbacks(&self) -> Seq<T> {
        self.timers@.map_values(|t: Timer<T>| t.callback)
    }

    pub closed spec fn handlers_view(&self) -> Map<i32, HandlerView> {
        handler_views(self.handlers@)
    }

    pub closed spec fn next_timer_id_view(&self) -> u64 {
        self.next_timer_id
    }

    pub closed spec fn config_view(&self) -> EventLoopConfig {
        self.config
    }

    pub closed spec fn metrics_view(&self) -> EventLoopMetrics {
        self.metrics
    }

    pub closed spec fn diagnostics_view(&self) -> Seq<Diagnostic> {
        self.diagnostics@
    }

    /// The part of the loop that dispatching changes.
    pub open spec fn loop_view(&self) -> LoopView {
        LoopView {
            handlers: self.handlers_view(),
            metrics: self.metrics_view(),
            diagnostics: self.diagnostics_view(),
            call_log: self.call_log_view(),
        }
    }

    pub closed spec fn ready_view(&self) -> Seq<Event> {
        self.ready_events@
    }

    /// The latest clock reading the loop has acted on, in nanoseconds since
    /// its origin; readings never go back before it.
    pub closed spec fn last_now_view(&self) -> u128 {
        self.last_now
    }

    /// The log of fired timers: each one right after its callback was
    /// called, in firing order.
    pub closed spec fn fired_view(&self) -> Seq<TimerView> {
        self.fired@
    }

    /// The log of read (`true`) and write callback calls made while
    /// dispatching, in order, across all callbacks.
    pub closed spec fn call_log_view(&self) -> Seq<(bool, ReadyCall)> {
        self.call_log@
    }

    /// How many times each counter was advanced, counted without wrapping.
    pub closed spec fn totals_view(&self) -> CounterTotals {
        self.counted@
    }

    /// What every operation keeps: the configuration and the running flag
    /// stay; the timer id counter, the clock's latest reading and the
    /// counters' totals never go back; the logs of fired timers and of
    /// callback calls are only appended to; and with metrics disabled the
    /// counters do not move.
    pub open spec fn evolves_to(&self, next: &Self) -> bool {
        &&& next.config_view() == self.config_view()
        &&& next.running_flag() == self.running_flag()
        &&& self.next_timer_id_view() <= next.next_timer_id_view()
        &&& self.last_now_view() <= next.last_now_view()
        &&& self.fired_view().is_prefix_of(next.fired_view())
        &&& self.call_log_view().is_prefix_of(next.call_log_view())
        &&& totals_le(self.totals_view(), next.totals_view())
        &&& !self.config_view().enable_metrics ==> next.metrics_view() == self.metrics_view()
    }

    /// The loop's invariant: distinct timer ids drawn before the next one,
    /// positive interval periods, each handler stored under its own fd with
    /// an interest of read and write bits only, and no clock reading beyond
    /// a `Duration`.
    pub open spec fn wf(&self) -> bool {
        &&& timers_wf(self.timers_view(), self.next_timer_id_view())
        &&& handlers_wf(self.handlers_view())
        &&& self.last_now_view() <= MAX_DURATION_NANOS
        &&& counters_match(self.metrics_view(), self.totals_view())
    }

    /// The handlers' callbacks are those of `other`.
    pub open spec fn same_callbacks(&self, other: &Self) -> bool {
        forall|fd: i32| #[trigger] self.callbacks_of(fd) == other.callbacks_of(fd)
    }

    /// Everything but the handlers is as in `other`.
    pub open spec fn same_except_handlers(&self, other: &Self) -> bool {
        &&& self.running_flag() == other.running_flag()
        &&& self.last_now_view() == other.last_now_view()
        &&& self.fired_view() == other.fired_view()
        &&& self.timers_view() == other.timers_view()
        &&& self.ready_view() == other.ready_view()
        &&& self.config_view() == other.config_view()
        &&& self.next_timer_id_view() == other.next_timer_id_view()
        &&& self.metrics_view() == other.metrics_view()
        &&& self.diagnostics_view() == other.diagnostics_view()
        &&& self.call_log_view() == other.call_log_view()
        &&& self.totals_view() == other.totals_view()
    }

    /// Everything but the timers, the counters and the reports is as in
    /// `other`.
    pub open spec fn same_except_timers(&self, other: &Self) -> bool {
        &&& self.running_flag() == other.running_flag()
        &&& self.call_log_view() == other.call_log_view()
        &&& self.same_callbacks(other)
        &&& self.handlers_view() == other.handlers_view()
        &&& self.ready_view() == other.ready_view()
        &&& self.config_view() == other.config_view()
        &&& self.next_timer_id_view() == other.next_timer_id_view()
    }

    /// Everything but the timer list and the id counter is as in `other`.
    pub open spec fn same_except_timer_list(&self, other: &Self) -> bool {
        &&& self.running_flag() == other.running_flag()
        &&& self.call_log_view() == other.call_log_view()
        &&& self.totals_view() == other.totals_view()
        &&& self.same_callbacks(other)
        &&& self.handlers_view() == other.handlers_view()
        &&& self.ready_view() == other.ready_view()
        &&& self.config_view() == other.config_view()
        &&& self.metrics_view() == other.metrics_view()
        &&& self.diagnostics_view() == other.diagnostics_view()
        &&& self.fired_view() == other.fired_view()
    }
}

broadcast use Filter::lemma_bits_of_from_bits, Filter::lemma_complement_wf,
    Filter::lemma_intersection_wf, Filter::lemma_difference_wf, Filter::lemma_union_wf;

impl<F: ReadyCallback, E: ErrorCallback, T: TimerCallback> EventLoop<F, E, T> {
    /// A loop with the default configuration.
    pub fn new() -> (el: Self)
        ensures
            el.wf(),
            el.handlers_view() == Map::<i32, HandlerView>::empty(),
            el.timers_view() == Seq::<TimerView>::empty(),
            el.next_timer_id_view() == 0,
            el.ready_view() == Seq::<Event>::empty(),
            el.metrics_view() == EventLoopMetrics::zero(),
            el.diagnostics_view() == Seq::<Diagnostic>::empty(),
            el.last_now_view() == 0,
            el.fired_view() == Seq::<TimerView>::empty(),
            el.config_view().max_events == 1024,
            el.config_view().poll_timeout_ms == Some(100i32),
            el.config_view().enable_metrics,
    {
        Self::with_config(EventLoopConfig::default())
    }

    /// A loop with the given configuration, not yet running.
    pub fn with_config(config: EventLoopConfig) -> (el: Self)
        ensures
            el.wf(),
            el.handlers_view() == Map::<i32, HandlerView>::empty(),
            el.timers_view() == Seq::<TimerView>::empty(),
            el.next_timer_id_view() == 0,
            el.ready_view() == Seq::<Event>::empty(),
            el.metrics_view() == EventLoopMetrics::zero(),
            el.diagnostics_view() == Seq::<Diagnostic>::empty(),
            el.last_now_view() == 0,
            el.fired_view() == Seq::<TimerView>::empty(),
            el.config_view() == config,
    {
        let max_events = config.max_events;
        let el = EventLoop {
            handlers: HashMap::with_capacity(max_events),
            ready_events: Vec::with_capacity(max_events),
            timers: Vec::new(),
            next_timer_id: 0,
            config,
            metrics: EventLoopMetrics::default(),
            diagnostics: Vec::new(),
            running: Arc::new(AtomicBool::new(false)),
            origin: clock_origin(),
            last_now: 0,
            fired: Ghost(Seq::empty()),
            call_log: Ghost(Seq::empty()),
            counted: Ghost(no_counts()),
        };
        assert(el.timers_view() =~= Seq::<TimerView>::empty());
        assert(el.handlers_view() =~= Map::<i32, HandlerView>::empty());
        el
    }

    /// Whether the loop is running. The flag is an atomic shared with the
    /// shutdown handles, so nothing is stated of the reading.
    pub fn is_running(&self) -> bool {
        self.running.load(Ordering::Acquire)
    }

    /// Sets the running flag, as `run` does before its first iteration.
    pub fn start(&self) {
        self.running.store(true, Ordering::Release);
    }

    /// Clears the running flag.
    pub fn shutdown(&self) {
        self.running.store(false, Ordering::Release);
    }

    /// A handle that clears this loop's running flag.
    pub fn shutdown_handle(&self) -> (h: ShutdownHandle)
        ensures
            h.flag() == self.running_flag(),
    {
        ShutdownHandle { running: share_flag(&self.running) }
    }

    /// The loop's counters.
    pub fn metrics(&self) -> (s: MetricsSnapshot)
        ensures
            s.poll_count == self.metrics_view().poll_count,
            s.events_dispatched == self.metrics_view().events_dispatched,
            s.callbacks_executed == self.metrics_view().callbacks_executed,
            s.errors_handled == self.metrics_view().errors_handled,
            s.timers_fired == self.metrics_view().timers_fired,
    {
        self.metrics.snapshot()
    }

    /// Hands out the reports gathered since the last call.
    pub fn take_diagnostics(&mut self) -> (d: Vec<Diagnostic>)
        requires
            old(self).wf(),
        ensures
            final(self).wf(),
            old(self).evolves_to(final(self)),
            d@ == old(self).diagnostics_view(),
            final(self).diagnostics_view() == Seq::<Diagnostic>::empty(),
            final(self).same_except_timers(old(self)),
            final(self).timers_view() == old(self).timers_view(),
            final(self).metrics_view() == old(self).metrics_view(),
            final(self).last_now_view() == old(self).last_now_view(),
            final(self).fired_view() == old(self).fired_view(),
            final(self).totals_view() == old(self).totals_view(),
    {
        let mut d: Vec<Diagnostic> = Vec::new();
        std::mem::swap(&mut d, &mut self.diagnostics);
        d
    }

    /// The number of timers.
    pub fn timer_count(&self) -> (n: usize)
        ensures
            n == self.timers_view().len(),
    {
        self.timers.len()
    }

    /// The clock's reading, in nanoseconds since the loop was made, but no
    /// earlier than the latest reading the loop acted on.
    fn clock_reading(&self) -> (n: u128)
        requires
            self.wf(),
        ensures
            self.last_now_view() <= n <= MAX_DURATION_NANOS,
    {
        let elapsed = clock_elapsed_nanos(&self.origin);
        if elapsed < self.last_now {
            self.last_now
        } else {
            elapsed
        }
    }

    /// Nanoseconds since the loop was made, by the monotonic clock; the
    /// reading never goes back before an earlier one, and becomes the
    /// latest.
    pub fn now(&mut self) -> (n: u128)
        requires
            old(self).wf(),
        ensures
            final(self).wf(),
            old(self).evolves_to(final(self)),
            old(self).last_now_view() <= n <= MAX_DURATION_NANOS,
            final(self).last_now_view() == n,
            final(self).same_except_timers(old(self)),
            final(self).timers_view() == old(self).timers_view(),
            final(self).metrics_view() == old(self).metrics_view(),
            final(self).diagnostics_view() == old(self).diagnostics_view(),
            final(self).fired_view() == old(self).fired_view(),
            final(self).totals_view() == old(self).totals_view(),
            final(self).timer_callbacks() == old(self).timer_callbacks(),
    {
        let n = self.clock_reading();
        self.last_now = n;
        n
    }

    fn push_timer(&mut self, now: u128, delay: u128, interval: Option<u128>, callback: T) -> (id:
        TimerId)
        requires
            old(self).wf(),
            old(self).last_now_view() <= now <= MAX_DURATION_NANOS,
            delay <= MAX_DURATION_NANOS,
            old(self).next_timer_id_view() < u64::MAX,
            interval matches Some(iv) ==> 0 < iv <= MAX_DURATION_NANOS,
        ensures
            final(self).wf(),
            old(self).evolves_to(final(self)),
            id.id() == old(self).next_timer_id_view(),
            final(self).next_timer_id_view() == old(self).next_timer_id_view() + 1,
            final(self).timers_view() == old(self).timers_view().push(
                TimerView {
                    id: id.id(),
                    deadline: (now + delay) as u128,
                    interval,
                    calls: callback.history(),
                },
            ),
            final(self).last_now_view() == now,
            final(self).timer_callbacks() == old(self).timer_callbacks().push(callback),
            final(self).same_except_timer_list(old(self)),
    {
        let id = TimerId(self.next_timer_id);
        self.next_timer_id = self.next_timer_id + 1;
        self.last_now = now;
        let ghost before = self.timers_view();
        let ghost cbs = self.timer_callbacks();
        let ghost calls = callback.history();
        self.timers.push(Timer { id, deadline: now + delay, interval, callback });
        proof {
            assert(self.timer_callbacks() =~= cbs.push(callback));
            let t = TimerView { id: id.id(), deadline: (now + delay) as u128, interval, calls };
            assert(self.timers_view() =~= before.push(t));
            let s = self.timers_view();
            assert forall|i: int, j: int|
                0 <= i < s.len() && 0 <= j < s.len() && i != j implies #[trigger] s[i].id
                != #[trigger] s[j].id by {
                if i < before.len() && j < before.len() {
                    assert(s[i] == before[i] && s[j] == before[j]);
                } else if i < before.len() {
                    assert(s[i] == before[i]);
                } else if j < before.len() {
                    assert(s[j] == before[j]);
                }
            }
            assert forall|i: int| 0 <= i < s.len() implies #[trigger] s[i].id
                < self.next_timer_id by {
                if i < before.len() {
                    assert(s[i] == before[i]);
                }
            }
            assert forall|i: int| 0 <= i < s.len() implies ((#[trigger] s[i]).interval matches Some(
                iv,
            ) ==> 0 < iv <= MAX_DURATION_NANOS) by {
                if i < before.len() {
                    assert(s[i] == before[i]);
                }
            }
        }
        id
    }

    /// Adds a single-shot timer due `delay` nanoseconds after `now`, which
    /// is no earlier than the loop's latest reading and becomes it.
    pub fn add_timer_at(&mut self, now: u128, delay: u128, callback: T) -> (id: TimerId)
        requires
            old(self).wf(),
            old(self).last_now_view() <= now <= MAX_DURATION_NANOS,
            delay <= MAX_DURATION_NANOS,
            old(self).next_timer_id_view() < u64::MAX,
        ensures
            final(self).wf(),
            old(self).evolves_to(final(self)),
            id.id() == old(self).next_timer_id_view(),
            final(self).next_timer_id_view() == old(self).next_timer_id_view() + 1,
            final(self).timers_view() == old(self).timers_view().push(
                TimerView {
                    id: id.id(),
                    deadline: (now + delay) as u128,
                    interval: None,
                    calls: callback.history(),
                },
            ),
            final(self).last_now_view() == now,
            final(self).timer_callbacks() == old(self).timer_callbacks().push(callback),
            final(self).same_except_timer_list(old(self)),
    {
        self.push_timer(now, delay, None, callback)
    }

    /// Adds a single-shot timer due `delay` nanoseconds after the clock's
    /// reading, which becomes the loop's latest.
    pub fn add_timer(&mut self, delay: u128, callback: T) -> (id: TimerId)
        requires
            old(self).wf(),
            delay <= MAX_DURATION_NANOS,
            old(self).next_timer_id_view() < u64::MAX,
        ensures
            final(self).wf(),
            old(self).evolves_to(final(self)),
            id.id() == old(self).next_timer_id_view(),
            final(self).next_timer_id_view() == old(self).next_timer_id_view() + 1,
            old(self).last_now_view() <= final(self).last_now_view() <= MAX_DURATION_NANOS,
            final(self).timers_view() == old(self).timers_view().push(
                TimerView {
                    id: id.id(),
                    deadline: (final(self).last_now_view() + delay) as u128,
                    interval: None,
                    calls: callback.history(),
                },
            ),
            final(self).timer_callbacks() == old(self).timer_callbacks().push(callback),
            final(self).same_except_timer_list(old(self)),
    {
        let now = self.now();
        self.add_timer_at(now, delay, callback)
    }

    /// Adds an interval timer, first due `interval` nanoseconds after `now`
    /// (no earlier than the loop's latest reading, and becoming it) and then
    /// every `interval` after each firing. A zero interval is not accepted:
    /// such a timer would be due again as soon as it fired, and processing
    /// the timers would never end.
    pub fn add_interval_at(&mut self, now: u128, interval: u128, callback: T) -> (id: TimerId)
        requires
            old(self).wf(),
            old(self).last_now_view() <= now <= MAX_DURATION_NANOS,
            0 < interval <= MAX_DURATION_NANOS,
            old(self).next_timer_id_view() < u64::MAX,
        ensures
            final(self).wf(),
            old(self).evolves_to(final(self)),
            id.id() == old(self).next_timer_id_view(),
            final(self).next_timer_id_view() == old(self).next_timer_id_view() + 1,
            final(self).timers_view() == old(self).timers_view().push(
                TimerView {
                    id: id.id(),
                    deadline: (now + interval) as u128,
                    interval: Some(interval),
                    calls: callback.history(),
                },
            ),
            final(self).last_now_view() == now,
            final(self).timer_callbacks() == old(self).timer_callbacks().push(callback),
            final(self).same_except_timer_list(old(self)),
    {
        self.push_timer(now, interval, Some(interval), callback)
    }

    /// Adds an interval timer, first due `interval` nanoseconds after the
    /// clock's reading, which becomes the loop's latest.
    pub fn add_interval(&mut self, interval: u128, callback: T) -> (id: TimerId)
        requires
            old(self).wf(),
            0 < interval <= MAX_DURATION_NANOS,
            old(self).next_timer_id_view() < u64::MAX,
        ensures
            final(self).wf(),
            old(self).evolves_to(final(self)),
            id.id() == old(self).next_timer_id_view(),
            final(self).next_timer_id_view() == old(self).next_timer_id_view() + 1,
            old(self).last_now_view() <= final(self).last_now_view() <= MAX_DURATION_NANOS,
            final(self).timers_view() == old(self).timers_view().push(
                TimerView {
                    id: id.id(),
                    deadline: (final(self).last_now_view() + interval) as u128,
                    interval: Some(interval),
                    calls: callback.history(),
                },
            ),
            final(self).timer_callbacks() == old(self).timer_callbacks().push(callback),
            final(self).same_except_timer_list(old(self)),
    {
        let now = self.now();
        self.add_interval_at(now, interval, callback)
    }

    /// Cancels the timer with id `id`; the other timers keep their order.
    pub fn cancel_timer(&mut self, id: TimerId)
        requires
            old(self).wf(),
        ensures
            final(self).wf(),
            old(self).evolves_to(final(self)),
            final(self).timers_view() == without_id(old(self).timers_view(), id.id()),
            final(self).next_timer_id_view() == old(self).next_timer_id_view(),
            final(self).last_now_view() == old(self).last_now_view(),
            final(self).same_except_timer_list(old(self)),
    {
        let mut rest: Vec<Timer<T>> = Vec::new();
        std::mem::swap(&mut rest, &mut self.timers);
        let ghost orig = timer_views(rest@);
        let ghost mut k: int = 0;
        assert(self.timers_view() =~= without_id(orig.take(0), id.id()));
        while rest.len() > 0
            invariant
                orig == old(self).timers_view(),
                0 <= k <= orig.len(),
                timer_views(rest@) == orig.skip(k),
                self.timers_view() == without_id(orig.take(k), id.id()),
                self.next_timer_id == old(self).next_timer_id,
                self.last_now == old(self).last_now,
                self.handlers@ == old(self).handlers@,
                self.same_except_timer_list(old(self)),
            decreases rest.len(),
        {
            let ghost rv = timer_views(rest@);
            assert(rv.len() == rest@.len());
            assert(rv[0] == rest@[0]@);
            let t = rest.remove(0);
            proof {
                assert(timer_views(rest@) =~= rv.drop_first());
                assert(orig.skip(k)[0] == orig[k]);
                assert(timer_views(rest@) =~= orig.skip(k + 1));
                assert(orig.take(k + 1).drop_last() =~= orig.take(k));
                assert(orig.take(k + 1).last() == t@);
            }
            let ghost before = self.timers_view();
            if t.id.0 != id.0 {
                self.timers.push(t);
                assert(self.timers_view() =~= before.push(t@));
            }
            proof {
                k = k + 1;
            }
        }
        proof {
            assert(orig.take(k) =~= orig);
            lemma_without_id(orig, self.next_timer_id, id.id());
        }
    }

    /// The time left until the earliest timer deadline as seen at `now`,
    /// zero for a deadline already passed; `None` without timers.
    pub fn next_timer_deadline_at(&self, now: u128) -> (d: Option<u128>)
        ensures
            d == min_remaining(self.timers_view(), now),
    {
        let mut best: Option<u128> = None;
        let mut i: usize = 0;
        while i < self.timers.len()
            invariant
                i <= self.timers@.len(),
                best == min_remaining(self.timers_view().take(i as int), now),
            decreases self.timers@.len() - i,
        {
            let deadline = self.timers[i].deadline;
            let r: u128 = if deadline > now {
                deadline - now
            } else {
                0
            };
            proof {
                let v = self.timers_view();
                assert(v.take(i + 1).drop_last() =~= v.take(i as int));
                assert(v.take(i + 1).last() == self.timers@[i as int]@);
                assert(r == remaining(v.take(i + 1).last(), now));
            }
            best = match best {
                None => Some(r),
                Some(m) => Some(
                    if m <= r {
                        m
                    } else {
                        r
                    },
                ),
            };
            i = i + 1;
        }
        assert(self.timers_view().take(i as int) =~= self.timers_view());
        best
    }

    /// Counts and reports what a timer callback came to.
    fn account_timer_outcome(&mut self, out: CallbackOutcome)
        requires
            counters_match(old(self).metrics, old(self).counted@),
        ensures
            counters_match(final(self).metrics, final(self).counted@),
            totals_le(old(self).counted@, final(self).counted@),
            (final(self).metrics, final(self).diagnostics@) == after_timer_outcome(
                old(self).metrics,
                old(self).diagnostics@,
                out,
                old(self).config.enable_metrics,
            ),
            final(self).handlers == old(self).handlers,
            final(self).ready_events == old(self).ready_events,
            final(self).timers == old(self).timers,
            final(self).next_timer_id == old(self).next_timer_id,
            final(self).config == old(self).config,
            final(self).running == old(self).running,
            final(self).origin == old(self).origin,
            final(self).last_now == old(self).last_now,
            final(self).fired == old(self).fired,
            final(self).call_log == old(self).call_log,
    {
        match out {
            CallbackOutcome::Completed => {
                if self.config.enable_metrics {
                    proof {
                        lemma_wrap_step(self.counted@.timers_fired, self.metrics.timers_fired, 1);
                    }
                    self.metrics.timers_fired = self.metrics.timers_fired.wrapping_add(1);
                    self.counted = Ghost(CounterTotals { timers_fired: (self.counted@.timers_fired + 1) as nat, ..self.counted@ });
                }
            },
            CallbackOutcome::Failed(e) => {
                if self.config.enable_metrics {
                    proof {
                        lemma_wrap_step(self.counted@.errors_handled, self.metrics.errors_handled, 1);
                    }
                    self.metrics.errors_handled = self.metrics.errors_handled.wrapping_add(1);
                    self.counted = Ghost(CounterTotals { errors_handled: (self.counted@.errors_handled + 1) as nat, ..self.counted@ });
                }
                self.diagnostics.push(Diagnostic::TimerCallbackFailed(e));
            },
            CallbackOutcome::Panicked => {
                if self.config.enable_metrics {
                    proof {
                        lemma_wrap_step(self.counted@.errors_handled, self.metrics.errors_handled, 1);
                    }
                    self.metrics.errors_handled = self.metrics.errors_handled.wrapping_add(1);
                    self.counted = Ghost(CounterTotals { errors_handled: (self.counted@.errors_handled + 1) as nat, ..self.counted@ });
                }
                self.diagnostics.push(Diagnostic::TimerCallbackPanicked);
            },
        }
    }

    /// The time left until the earliest timer deadline, by the clock.
    pub fn next_timer_deadline(&self) -> (d: Option<u128>)
        requires
            self.wf(),
        ensures
            exists|now: u128|
                #![trigger min_remaining(self.timers_view(), now)]
                self.last_now_view() <= now <= MAX_DURATION_NANOS && d == min_remaining(
                    self.timers_view(),
                    now,
                ),
    {
        let now = self.clock_reading();
        self.next_timer_deadline_at(now)
    }

    /// Fires every timer due at `now`, which is no earlier than the loop's
    /// latest reading and becomes it: each due timer's callback is called
    /// once, and no other; a single-shot timer is then dropped and an
    /// interval timer is due again its period after `now`. Each fired timer,
    /// right after its call, is added to the log of fired timers. Successes
    /// count as `timers_fired`; errors and panics as `errors_handled` (when
    /// metrics are enabled), and each is left as a report. The order in
    /// which due timers fire is left open here.
    pub fn process_timers_at(&mut self, now: u128) -> (r: Result<()>)
        requires
            old(self).wf(),
            old(self).last_now_view() <= now <= MAX_DURATION_NANOS,
        ensures
            final(self).wf(),
            old(self).evolves_to(final(self)),
            r is Ok,
            final(self).last_now_view() == now,
            exists|calls: Seq<TimerView>|
                #![trigger timers_processed(old(self).timers_view(), final(self).timers_view(), calls, now)]
                {
                    &&& timers_processed(
                        old(self).timers_view(),
                        final(self).timers_view(),
                        calls,
                        now,
                    )
                    &&& final(self).fired_view() == old(self).fired_view() + calls
                    &&& (final(self).metrics_view(), final(self).diagnostics_view())
                        == after_timer_outcomes(
                        old(self).metrics_view(),
                        old(self).diagnostics_view(),
                        outcomes(calls),
                        old(self).config_view().enable_metrics,
                    )
                },
            final(self).same_except_timers(old(self)),
    {
        self.last_now = now;
        let ghost s0 = self.timers_view();
        let ghost m0 = self.metrics;
        let ghost d0 = self.diagnostics@;
        let ghost f0 = self.fired@;
        let ghost mut pending: Set<u64> = due_ids(s0, now);
        let ghost mut calls: Seq<TimerView> = Seq::empty();
        proof {
            lemma_process_start(s0, self.next_timer_id, now);
            assert(outcomes(calls) =~= Seq::<CallbackOutcome>::empty());
            assert(f0 + calls =~= f0);
        }
        let mut i: usize = 0;
        while i < self.timers.len()
            invariant
                s0 == old(self).timers_view(),
                m0 == old(self).metrics,
                d0 == old(self).diagnostics@,
                f0 == old(self).fired@,
                self.last_now == now,
                self.handlers == old(self).handlers,
                timers_wf(s0, self.next_timer_id),
                timers_wf(self.timers_view(), self.next_timer_id),
                now <= MAX_DURATION_NANOS,
                self.same_except_timers(old(self)),
                process_inv(s0, self.timers_view(), pending, calls, now, i as int),
                i <= self.timers@.len(),
                calls.len() + pending.len() == count_due(s0, now),
                self.fired@ == f0 + calls,
                counters_match(self.metrics, self.counted@),
                totals_le(old(self).counted@, self.counted@),
                !self.config.enable_metrics ==> self.metrics == m0,
                (self.metrics, self.diagnostics@) == after_timer_outcomes(
                    m0,
                    d0,
                    outcomes(calls),
                    self.config.enable_metrics,
                ),
            decreases (self.timers@.len() - i) + pending.len(),
        {
            let ghost cur = self.timers_view();
            assert(self.timers@[i as int]@ == cur[i as int]);
            if self.timers[i].deadline <= now {
                let mut timer = self.timers.swap_remove(i);
                assert(self.timers_view() =~= cur.update(i as int, cur.last()).drop_last());
                let res = timer.callback.call();
                let ghost out = res;
                proof {
                    lemma_process_fire(s0, self.next_timer_id, cur, pending, calls, now, i as int, out);
                }
                self.account_timer_outcome(res);
                if let Some(interval) = timer.interval {
                    timer.deadline = now + interval;
                }
                let ghost c = fired(cur[i as int], now, out);
                assert(timer@ == c);
                proof {
                    let oc = outcomes(calls.push(c));
                    assert(oc.drop_last() =~= outcomes(calls));
                    assert(oc.last() == out);
                    assert(f0 + calls.push(c) =~= (f0 + calls).push(c));
                    calls = calls.push(c);
                    pending = pending.remove(cur[i as int].id);
                }
                self.fired = Ghost(self.fired@.push(c));
                if timer.interval.is_some() {
                    let ghost r = self.timers_view();
                    self.timers.push(timer);
                    assert(self.timers_view() =~= r.push(c));
                }
            } else {
                proof {
                    lemma_process_skip(s0, cur, pending, calls, now, i as int);
                }
                i = i + 1;
            }
        }
        proof {
            assert(self.timers_view().len() == i);
            lemma_process_done(s0, self.timers_view(), pending, calls, now);
            assert((f0 + calls).subrange(0, f0.len() as int) =~= f0);
        }
        Ok(())
    }

    /// Fires every timer that is due by the clock's reading, which is no
    /// earlier than the loop's latest and becomes it (see
    /// `process_timers_at`).
    pub fn process_timers(&mut self) -> (r: Result<()>)
        requires
            old(self).wf(),
        ensures
            final(self).wf(),
            old(self).evolves_to(final(self)),
            r is Ok,
            old(self).last_now_view() <= final(self).last_now_view() <= MAX_DURATION_NANOS,
            exists|calls: Seq<TimerView>|
                #![trigger timers_processed(old(self).timers_view(), final(self).timers_view(), calls, final(self).last_now_view())]
                {
                    &&& timers_processed(
                        old(self).timers_view(),
                        final(self).timers_view(),
                        calls,
                        final(self).last_now_view(),
                    )
                    &&& final(self).fired_view() == old(self).fired_view() + calls
                    &&& (final(self).metrics_view(), final(self).diagnostics_view())
                        == after_timer_outcomes(
                        old(self).metrics_view(),
                        old(self).diagnostics_view(),
                        outcomes(calls),
                        old(self).config_view().enable_metrics,
                    )
                },
            final(self).same_except_timers(old(self)),
    {
        let now = self.now();
        self.process_timers_at(now)
    }

    /// The handler for `fd` taken out of the map, or a new one.
    fn take_handler(&mut self, fd: i32) -> (h: FdEvent<F, E>)
        requires
            old(self).wf(),
        ensures
            final(self).wf(),
            old(self).evolves_to(final(self)),
            h@.fd == fd,
            h@.filter.wf(),
            final(self).handlers@ == old(self).handlers@.remove(fd),
            old(self).handlers@.contains_key(fd) ==> h == old(self).handlers@[fd],
            !old(self).handlers@.contains_key(fd) ==> h.callbacks() == (None::<F>, None::<F>, None::<E>),
            h@ == (if old(self).handlers_view().contains_key(fd) {
                old(self).handlers_view()[fd]
            } else {
                new_handler(fd)
            }),
            final(self).timers@ == old(self).timers@,
            final(self).ready_events@ == old(self).ready_events@,
            final(self).config == old(self).config,
            final(self).next_timer_id == old(self).next_timer_id,
            final(self).metrics == old(self).metrics,
            final(self).diagnostics@ == old(self).diagnostics@,
            final(self).same_except_handlers(old(self)),
    {
        broadcast use vstd::std_specs::hash::group_hash_axioms;
        let h = match self.handlers.remove(&fd) {
            Some(h) => {
                assert(old(self).handlers_view().contains_key(fd));
                assert(old(self).handlers_view()[fd] == h@);
                h
            },
            None => FdEvent::new(fd),
        };
        assert(self.handlers_view() =~= old(self).handlers_view().remove(fd));
        h
    }

    /// Puts a handler back under `fd`.
    fn put_handler(&mut self, fd: i32, h: FdEvent<F, E>)
        requires
            old(self).wf(),
            h@.fd == fd,
            h@.filter.wf(),
        ensures
            final(self).wf(),
            old(self).evolves_to(final(self)),
            final(self).handlers@ == old(self).handlers@.insert(fd, h),
            final(self).handlers_view() == old(self).handlers_view().insert(fd, h@),
            final(self).timers@ == old(self).timers@,
            final(self).ready_events@ == old(self).ready_events@,
            final(self).config == old(self).config,
            final(self).next_timer_id == old(self).next_timer_id,
            final(self).metrics == old(self).metrics,
            final(self).diagnostics@ == old(self).diagnostics@,
            final(self).same_except_handlers(old(self)),
    {
        broadcast use vstd::std_specs::hash::group_hash_axioms;
        self.handlers.insert(fd, h);
        assert(self.handlers_view() =~= old(self).handlers_view().insert(fd, h@));
    }

    /// The interest that registering `filter` on `fd` would ask the kernel
    /// for: the part not registered yet. When it is empty, no kernel call is
    /// needed.
    pub fn registration_request(&self, fd: i32, filter: Filter) -> (f: Filter)
        ensures
            f == registration_request(self.handlers_view(), fd, filter),
    {
        broadcast use vstd::std_specs::hash::group_hash_axioms;
        let current = match self.handlers.get(&fd) {
            Some(h) => h.filter,
            None => Filter::empty(),
        };
        filter.intersection(current.complement())
    }

    fn register(
        &mut self,
        fd: i32,
        filter: Filter,
        on_read: Option<F>,
        on_write: Option<F>,
        on_error: Option<E>,
        reply: core::result::Result<(), KqueueError>,
    ) -> (r: Result<()>)
        requires
            old(self).wf(),
            on_error is None,
        ensures
            final(self).wf(),
            old(self).evolves_to(final(self)),
            (final(self).handlers_view(), r) == register_model(
                old(self).handlers_view(),
                fd,
                filter,
                new_calls(on_read),
                new_calls(on_write),
                reply,
            ),
            final(self).same_except_handlers(old(self)),
            forall|k: i32| k != fd ==> #[trigger] final(self).callbacks_of(k) == old(self).callbacks_of(k),
            final(self).callbacks_of(fd) == (if r is Ok {
                (
                    if on_read is Some { on_read } else { old(self).callbacks_of(fd).0 },
                    if on_write is Some { on_write } else { old(self).callbacks_of(fd).1 },
                    old(self).callbacks_of(fd).2,
                )
            } else {
                old(self).callbacks_of(fd)
            }),
    {
        let ghost h0 = self.handlers_view();
        let ghost c0 = *old(self);
        let mut handler = self.take_handler(fd);
        let new_filter = filter.intersection(handler.filter.complement());
        if !new_filter.is_empty() {
            match reply {
                Err(e) => {
                    self.put_handler(fd, handler);
                    proof {
                        assert(self.handlers_view() =~= register_model(
                            h0,
                            fd,
                            filter,
                            new_calls(on_read),
                            new_calls(on_write),
                            reply,
                        ).0);
                        assert forall|k: i32| k != fd implies #[trigger] self.callbacks_of(k) == c0.callbacks_of(k) by {}
                    }
                    return Err(EventLoopError::Kqueue(e));
                },
                Ok(()) => {},
            }
            handler.filter.insert(new_filter);
        }
        if let Some(cb) = on_read {
            handler.on_read = Some(cb);
        }
        if let Some(cb) = on_write {
            handler.on_write = Some(cb);
        }
        if let Some(cb) = on_error {
            handler.on_error = Some(cb);
        }
        self.put_handler(fd, handler);
        proof {
            assert(self.handlers_view() =~= register_model(
                h0,
                fd,
                filter,
                new_calls(on_read),
                new_calls(on_write),
                reply,
            ).0);
            assert forall|k: i32| k != fd implies #[trigger] self.callbacks_of(k) == c0.callbacks_of(k) by {}
        }
        Ok(())
    }

    /// Registers a read callback on `fd`; `reply` is what the kernel
    /// answered to `registration_request(fd, Filter::read())`, and counts only
    /// when that request was not empty.
    pub fn register_read(
        &mut self,
        fd: i32,
        callback: F,
        reply: core::result::Result<(), KqueueError>,
    ) -> (r: Result<()>)
        requires
            old(self).wf(),
        ensures
            final(self).wf(),
            old(self).evolves_to(final(self)),
            (final(self).handlers_view(), r) == register_model(
                old(self).handlers_view(),
                fd,
                Filter::from_bits(1),
                Some(callback.history()),
                None,
                reply,
            ),
            final(self).same_except_handlers(old(self)),
            forall|k: i32| k != fd ==> #[trigger] final(self).callbacks_of(k) == old(self).callbacks_of(k),
            final(self).callbacks_of(fd) == (if r is Ok {
                (Some(callback), old(self).callbacks_of(fd).1, old(self).callbacks_of(fd).2)
            } else {
                old(self).callbacks_of(fd)
            }),
    {
        self.register(fd, Filter::read(), Some(callback), None, None, reply)
    }

    /// Registers a write callback on `fd`; `reply` answers
    /// `registration_request(fd, Filter::write())`.
    pub fn register_write(
        &mut self,
        fd: i32,
        callback: F,
        reply: core::result::Result<(), KqueueError>,
    ) -> (r: Result<()>)
        requires
            old(self).wf(),
        ensures
            final(self).wf(),
            old(self).evolves_to(final(self)),
            (final(self).handlers_view(), r) == register_model(
                old(self).handlers_view(),
                fd,
                Filter::from_bits(2),
                None,
                Some(callback.history()),
                reply,
            ),
            final(self).same_except_handlers(old(self)),
            forall|k: i32| k != fd ==> #[trigger] final(self).callbacks_of(k) == old(self).callbacks_of(k),
            final(self).callbacks_of(fd) == (if r is Ok {
                (old(self).callbacks_of(fd).0, Some(callback), old(self).callbacks_of(fd).2)
            } else {
                old(self).callbacks_of(fd)
            }),
    {
        self.register(fd, Filter::write(), None, Some(callback), None, reply)
    }

    /// Registers read and write callbacks on `fd`; `reply` answers
    /// `registration_request(fd, Filter::all())`.
    pub fn register_read_write(
        &mut self,
        fd: i32,
        read_cb: F,
        write_cb: F,
        reply: core::result::Result<(), KqueueError>,
    ) -> (r: Result<()>)
        requires
            old(self).wf(),
        ensures
            final(self).wf(),
            old(self).evolves_to(final(self)),
            (final(self).handlers_view(), r) == register_model(
                old(self).handlers_view(),
                fd,
                Filter::from_bits(3),
                Some(read_cb.history()),
                Some(write_cb.history()),
                reply,
            ),
            final(self).same_except_handlers(old(self)),
            forall|k: i32| k != fd ==> #[trigger] final(self).callbacks_of(k) == old(self).callbacks_of(k),
            final(self).callbacks_of(fd) == (if r is Ok {
                (Some(read_cb), Some(write_cb), old(self).callbacks_of(fd).2)
            } else {
                old(self).callbacks_of(fd)
            }),
    {
        self.register(fd, Filter::all(), Some(read_cb), Some(write_cb), None, reply)
    }

    /// Attaches `callback` as the error handler of `fd`, in place of the old
    /// one: it is handed each error of the fd's read and write callbacks, and
    /// each of their panics as `CallbackPanic`. Without a handler for `fd`
    /// nothing changes and the answer is `HandlerNotFound`.
    pub fn set_error_handler(&mut self, fd: i32, callback: E) -> (r: Result<()>)
        requires
            old(self).wf(),
        ensures
            final(self).wf(),
            old(self).evolves_to(final(self)),
            (final(self).handlers_view(), r) == set_error_handler_model(
                old(self).handlers_view(),
                fd,
                callback.history(),
            ),
            final(self).same_except_handlers(old(self)),
            forall|k: i32| k != fd ==> #[trigger] final(self).callbacks_of(k) == old(self).callbacks_of(k),
            final(self).callbacks_of(fd) == (if r is Ok {
                (old(self).callbacks_of(fd).0, old(self).callbacks_of(fd).1, Some(callback))
            } else {
                old(self).callbacks_of(fd)
            }),
    {
        broadcast use vstd::std_specs::hash::group_hash_axioms;
        let ghost h0 = self.handlers_view();
        let ghost c0 = *old(self);
        if !self.handlers.contains_key(&fd) {
            return Err(EventLoopError::HandlerNotFound(fd));
        }
        let mut handler = self.take_handler(fd);
        handler.on_error = Some(callback);
        self.put_handler(fd, handler);
        proof {
            assert(self.handlers_view() =~= set_error_handler_model(h0, fd, callback.history()).0);
            assert forall|k: i32| k != fd implies #[trigger] self.callbacks_of(k) == c0.callbacks_of(k) by {}
        }
        Ok(())
    }

    /// The interest that deregistering `filter` from `fd` would ask the
    /// kernel to drop: the registered part of it.
    pub fn deregistration_request(&self, fd: i32, filter: Filter) -> (f: Filter)
        ensures
            f == deregistration_request(self.handlers_view(), fd, filter),
    {
        broadcast use vstd::std_specs::hash::group_hash_axioms;
        let current = match self.handlers.get(&fd) {
            Some(h) => h.filter,
            None => Filter::empty(),
        };
        filter.intersection(current)
    }

    /// Deregisters `filter` from `fd`; `reply` answers
    /// `deregistration_request(fd, filter)` and counts only when that request
    /// was not empty.
    pub fn deregister(
        &mut self,
        fd: i32,
        filter: Filter,
        reply: core::result::Result<(), KqueueError>,
    ) -> (r: Result<()>)
        requires
            old(self).wf(),
        ensures
            final(self).wf(),
            old(self).evolves_to(final(self)),
            (final(self).handlers_view(), r) == deregister_model(
                old(self).handlers_view(),
                fd,
                filter,
                reply,
            ),
            final(self).same_except_handlers(old(self)),
            forall|k: i32| k != fd ==> #[trigger] final(self).callbacks_of(k) == old(self).callbacks_of(k),
            final(self).callbacks_of(fd) == (
                if final(self).handlers_view().contains_key(fd) && final(self).handlers_view()[fd].has_read {
                    old(self).callbacks_of(fd).0
                } else {
                    None
                },
                if final(self).handlers_view().contains_key(fd) && final(self).handlers_view()[fd].has_write {
                    old(self).callbacks_of(fd).1
                } else {
                    None
                },
                if final(self).handlers_view().contains_key(fd) {
                    old(self).callbacks_of(fd).2
                } else {
                    None
                },
            ),
    {
        broadcast use vstd::std_specs::hash::group_hash_axioms;
        let ghost h0 = self.handlers_view();
        if !self.handlers.contains_key(&fd) {
            return Ok(());
        }
        let mut handler = self.take_handler(fd);
        let to_remove = filter.intersection(handler.filter);
        if to_remove.is_empty() {
            self.put_handler(fd, handler);
            assert(self.handlers_view() =~= h0);
            return Ok(());
        }
        match reply {
            Err(e) => {
                self.put_handler(fd, handler);
                assert(self.handlers_view() =~= h0);
                return Err(EventLoopError::Kqueue(e));
            },
            Ok(()) => {},
        }
        handler.filter.remove(to_remove);
        if to_remove.contains(Filter::read()) {
            handler.on_read = None;
        }
        if to_remove.contains(Filter::write()) {
            handler.on_write = None;
        }
        if handler.has_callbacks() {
            self.put_handler(fd, handler);
        } else {
            assert(self.handlers_view() =~= h0.remove(fd));
        }
        Ok(())
    }

    /// The interest that changing `fd`'s filter to `filter` adds first.
    pub fn filter_additions(&self, fd: i32, filter: Filter) -> (f: Filter)
        ensures
            f == filter_additions(self.handlers_view(), fd, filter),
    {
        broadcast use vstd::std_specs::hash::group_hash_axioms;
        match self.handlers.get(&fd) {
            Some(h) => filter.intersection(h.filter.complement()),
            None => Filter::empty(),
        }
    }

    /// The interest that changing `fd`'s filter to `filter` then drops.
    pub fn filter_removals(&self, fd: i32, filter: Filter) -> (f: Filter)
        ensures
            f == filter_removals(self.handlers_view(), fd, filter),
    {
        broadcast use vstd::std_specs::hash::group_hash_axioms;
        match self.handlers.get(&fd) {
            Some(h) => h.filter.intersection(filter.complement()),
            None => Filter::empty(),
        }
    }

    /// Registers the additions of a filter change, given the kernel's
    /// answer to registering `filter_additions(fd, filter)`.
    pub fn apply_filter_additions(
        &mut self,
        fd: i32,
        filter: Filter,
        reply: core::result::Result<(), KqueueError>,
    ) -> (r: Result<()>)
        requires
            old(self).wf(),
        ensures
            final(self).wf(),
            old(self).evolves_to(final(self)),
            (final(self).handlers_view(), r) == apply_additions_model(
                old(self).handlers_view(),
                fd,
                filter,
                reply,
            ),
            final(self).same_except_handlers(old(self)),
            final(self).same_callbacks(old(self)),
    {
        broadcast use vstd::std_specs::hash::group_hash_axioms;
        let ghost h0 = self.handlers_view();
        if !self.handlers.contains_key(&fd) {
            return Ok(());
        }
        let mut handler = self.take_handler(fd);
        let to_add = filter.intersection(handler.filter.complement());
        if !to_add.is_empty() {
            match reply {
                Err(e) => {
                    self.put_handler(fd, handler);
                    assert(self.handlers_view() =~= h0);
                    return Err(EventLoopError::Kqueue(e));
                },
                Ok(()) => {},
            }
            handler.filter.insert(to_add);
        }
        self.put_handler(fd, handler);
        assert(self.handlers_view() =~= apply_additions_model(h0, fd, filter, reply).0);
        Ok(())
    }

    /// Deregisters the removals of a filter change, given the kernel's
    /// answer to deregistering `filter_removals(fd, filter)`.
    pub fn apply_filter_removals(
        &mut self,
        fd: i32,
        filter: Filter,
        reply: core::result::Result<(), KqueueError>,
    ) -> (r: Result<()>)
        requires
            old(self).wf(),
        ensures
            final(self).wf(),
            old(self).evolves_to(final(self)),
            (final(self).handlers_view(), r) == apply_removals_model(
                old(self).handlers_view(),
                fd,
                filter,
                reply,
            ),
            final(self).same_except_handlers(old(self)),
            final(self).same_callbacks(old(self)),
    {
        broadcast use vstd::std_specs::hash::group_hash_axioms;
        let ghost h0 = self.handlers_view();
        if !self.handlers.contains_key(&fd) {
            return Ok(());
        }
        let mut handler = self.take_handler(fd);
        let to_remove = handler.filter.intersection(filter.complement());
        if !to_remove.is_empty() {
            match reply {
                Err(e) => {
                    self.put_handler(fd, handler);
                    assert(self.handlers_view() =~= h0);
                    return Err(EventLoopError::Kqueue(e));
                },
                Ok(()) => {},
            }
            handler.filter.remove(to_remove);
        }
        self.put_handler(fd, handler);
        assert(self.handlers_view() =~= apply_removals_model(h0, fd, filter, reply).0);
        Ok(())
    }

    /// The timeout for the next poll as seen at `now`: the configured one,
    /// cut short by the time left until the next timer deadline.
    pub fn poll_timeout_at(&self, now: u128) -> (t: Option<u128>)
        ensures
            t == poll_timeout(self.config_view().poll_timeout_ms, min_remaining(self.timers_view(), now)),
    {
        let next = self.next_timer_deadline_at(now);
        match self.config.poll_timeout_ms {
            Some(ms) => {
                let configured: u128 = (ms as u64) as u128 * 1_000_000u128;
                match next {
                    Some(td) => Some(
                        if td <= configured {
                            td
                        } else {
                            configured
                        },
                    ),
                    None => Some(configured),
                }
            },
            None => next,
        }
    }

    /// The timeout for the next poll, by the clock.
    pub fn poll_timeout(&self) -> (t: Option<u128>)
        requires
            self.wf(),
        ensures
            exists|now: u128|
                #![trigger min_remaining(self.timers_view(), now)]
                self.last_now_view() <= now <= MAX_DURATION_NANOS && t == poll_timeout(
                    self.config_view().poll_timeout_ms,
                    min_remaining(self.timers_view(), now),
                ),
    {
        let now = self.clock_reading();
        self.poll_timeout_at(now)
    }

    /// Takes in the kernel's answer to a poll: the events it reported and
    /// its count `n`. The first `n` events become the pending ones; a
    /// successful poll counts in `poll_count`, and `n` in
    /// `events_dispatched`, when metrics are enabled. A failed poll changes
    /// nothing.
    pub fn complete_poll(
        &mut self,
        reply: core::result::Result<(Vec<Event>, usize), KqueueError>,
    ) -> (r: Result<usize>)
        requires
            old(self).wf(),
        ensures
            final(self).wf(),
            old(self).evolves_to(final(self)),
            final(self).timers_view() == old(self).timers_view(),
            final(self).next_timer_id_view() == old(self).next_timer_id_view(),
            final(self).handlers_view() == old(self).handlers_view(),
            final(self).config_view() == old(self).config_view(),
            final(self).diagnostics_view() == old(self).diagnostics_view(),
            final(self).running_flag() == old(self).running_flag(),
            final(self).same_callbacks(old(self)),
            final(self).last_now_view() == old(self).last_now_view(),
            final(self).fired_view() == old(self).fired_view(),
            match reply {
                Ok((events, n)) => {
                    &&& r == Ok::<usize, EventLoopError>(n)
                    &&& final(self).ready_view() == (if n <= events@.len() {
                        events@.subrange(0, n as int)
                    } else {
                        events@
                    })
                    &&& final(self).metrics_view() == (if old(self).config_view().enable_metrics {
                        EventLoopMetrics {
                            poll_count: bump(old(self).metrics_view().poll_count),
                            events_dispatched: vstd::wrapping::u64_specs::wrapping_add(
                                old(self).metrics_view().events_dispatched,
                                n as u64,
                            ),
                            ..old(self).metrics_view()
                        }
                    } else {
                        old(self).metrics_view()
                    })
                },
                Err(e) => {
                    &&& r == Err::<usize, EventLoopError>(EventLoopError::Kqueue(e))
                    &&& final(self).ready_view() == old(self).ready_view()
                    &&& final(self).metrics_view() == old(self).metrics_view()
                },
            },
    {
        match reply {
            Err(e) => Err(EventLoopError::Kqueue(e)),
            Ok((events, n)) => {
                let mut events = events;
                events.truncate(n);
                self.ready_events = events;
                if self.config.enable_metrics {
                    proof {
                        lemma_wrap_step(self.counted@.poll_count, self.metrics.poll_count, 1);
                    }
                    self.metrics.poll_count = self.metrics.poll_count.wrapping_add(1);
                    self.counted = Ghost(CounterTotals { poll_count: (self.counted@.poll_count + 1) as nat, ..self.counted@ });
                    proof {
                        lemma_wrap_step(self.counted@.events_dispatched, self.metrics.events_dispatched, n as u64);
                    }
                    self.metrics.events_dispatched = self.metrics.events_dispatched.wrapping_add(
                        n as u64,
                    );
                    self.counted = Ghost(
                        CounterTotals {
                            events_dispatched: (self.counted@.events_dispatched + n as u64) as nat,
                            ..self.counted@
                        },
                    );
                }
                Ok(n)
            },
        }
    }

    /// The pending readiness events.
    pub fn pending_events(&self) -> (n: usize)
        ensures
            n == self.ready_view().len(),
    {
        self.ready_events.len()
    }

    /// Runs the read (`is_read`) or write callback of `handler` on `event`,
    /// if it has one, and accounts for what it came to (see
    /// `after_callback`).
    fn run_callback(
        &mut self,
        handler: &mut FdEvent<F, E>,
        event: &Event,
        is_read: bool,
    ) -> (rec: Ghost<CallRecord>)
        requires
            old(self).wf(),
            !old(self).handlers@.contains_key(event.fd),
            old(handler)@.fd == event.fd,
        ensures
            final(self).wf(),
            old(self).evolves_to(final(self)),
            final(self).handlers@ == old(self).handlers@,
            final(self).timers@ == old(self).timers@,
            final(self).ready_events@ == old(self).ready_events@,
            final(self).config == old(self).config,
            final(self).next_timer_id == old(self).next_timer_id,
            final(self).running == old(self).running,
            final(self).last_now == old(self).last_now,
            final(self).fired@ == old(self).fired@,
            final(handler)@.fd == event.fd,
            final(handler)@.filter == old(handler)@.filter,
            record_fits(rec@, is_read, event.fd),
            ({
                let v = LoopView {
                    handlers: old(self).handlers_view().insert(event.fd, old(handler)@),
                    metrics: old(self).metrics,
                    diagnostics: old(self).diagnostics@,
                    call_log: old(self).call_log@,
                };
                let has = if is_read {
                    old(handler)@.has_read
                } else {
                    old(handler)@.has_write
                };
                LoopView {
                    handlers: final(self).handlers_view().insert(event.fd, final(handler)@),
                    metrics: final(self).metrics,
                    diagnostics: final(self).diagnostics@,
                    call_log: final(self).call_log@,
                } == if has {
                    after_callback(v, *event, is_read, rec@, old(self).config.enable_metrics)
                } else {
                    v
                }
            }),
    {
        let fd = event.fd;
        let ghost h0 = handler@;
        let ghost hmap = self.handlers_view();
        let ghost v = LoopView {
            handlers: hmap.insert(fd, h0),
            metrics: self.metrics,
            diagnostics: self.diagnostics@,
            call_log: self.call_log@,
        };
        let taken = if is_read {
            handler.on_read.take()
        } else {
            handler.on_write.take()
        };
        let mut cb = match taken {
            Some(cb) => cb,
            None => {
                assert(handler@ == h0);
                return Ghost(
                    CallRecord {
                        outcome: CallbackOutcome::Completed,
                        panic_error: EventLoopError::Shutdown,
                    },
                );
            },
        };
        let outcome = cb.call(fd, event);
        if is_read {
            handler.on_read = Some(cb);
        } else {
            handler.on_write = Some(cb);
        }
        let ghost out = outcome;
        let ghost call = ReadyCall { fd, event: *event, outcome: out };
        self.call_log = Ghost(self.call_log@.push((is_read, call)));
        let ghost h1 = handler@;
        assert(h1 == if is_read {
            HandlerView { read_calls: h0.read_calls.push(call), ..h0 }
        } else {
            HandlerView { write_calls: h0.write_calls.push(call), ..h0 }
        });
        let ghost mut pe = EventLoopError::Shutdown;
        match outcome {
            CallbackOutcome::Completed => {
                if self.config.enable_metrics {
                    proof {
                        lemma_wrap_step(self.counted@.callbacks_executed, self.metrics.callbacks_executed, 1);
                    }
                    self.metrics.callbacks_executed = self.metrics.callbacks_executed.wrapping_add(1);
                    self.counted = Ghost(CounterTotals { callbacks_executed: (self.counted@.callbacks_executed + 1) as nat, ..self.counted@ });
                }
            },
            CallbackOutcome::Failed(err) => {
                if self.config.enable_metrics {
                    proof {
                        lemma_wrap_step(self.counted@.errors_handled, self.metrics.errors_handled, 1);
                    }
                    self.metrics.errors_handled = self.metrics.errors_handled.wrapping_add(1);
                    self.counted = Ghost(CounterTotals { errors_handled: (self.counted@.errors_handled + 1) as nat, ..self.counted@ });
                }
                match handler.on_error.take() {
                    Some(mut err_cb) => {
                        err_cb.call(fd, &err);
                        handler.on_error = Some(err_cb);
                    },
                    None => {
                        if is_read {
                            self.diagnostics.push(Diagnostic::ReadCallbackFailed(fd, err));
                        } else {
                            self.diagnostics.push(Diagnostic::WriteCallbackFailed(fd, err));
                        }
                    },
                }
            },
            CallbackOutcome::Panicked => {
                let msg = if is_read {
                    format_with_fd("read callback panicked on fd ", fd)
                } else {
                    format_with_fd("write callback panicked on fd ", fd)
                };
                let err = EventLoopError::CallbackPanic(msg);
                proof {
                    pe = err;
                }
                match handler.on_error.take() {
                    Some(mut err_cb) => {
                        err_cb.call(fd, &err);
                        handler.on_error = Some(err_cb);
                    },
                    None => {},
                }
            },
        }
        let ghost rec = CallRecord { outcome: out, panic_error: pe };
        proof {
            let w = after_callback(v, *event, is_read, rec, old(self).config.enable_metrics);
            assert(v.handlers[fd] == h0);
            assert(hmap.insert(fd, handler@) =~= w.handlers);
        }
        Ghost(rec)
    }

    /// Dispatches one event (see `dispatch_one`).
    fn dispatch_event(&mut self, event: Event) -> (recs: Ghost<(CallRecord, CallRecord)>)
        requires
            old(self).wf(),
        ensures
            final(self).wf(),
            old(self).evolves_to(final(self)),
            final(self).ready_events@ == old(self).ready_events@,
            final(self).timers@ == old(self).timers@,
            final(self).config == old(self).config,
            final(self).next_timer_id == old(self).next_timer_id,
            final(self).running == old(self).running,
            final(self).last_now == old(self).last_now,
            final(self).fired@ == old(self).fired@,
            record_fits(recs@.0, true, event.fd),
            record_fits(recs@.1, false, event.fd),
            final(self).loop_view() == dispatch_one(
                old(self).loop_view(),
                event,
                recs@,
                old(self).config.enable_metrics,
            ),
    {
        broadcast use vstd::std_specs::hash::group_hash_axioms;
        let fd = event.fd;
        let ghost vi = self.loop_view();
        let ghost enabled = self.config.enable_metrics;
        let ghost dummy = CallRecord { outcome: CallbackOutcome::Completed, panic_error: EventLoopError::Shutdown };
        let mut rec_r: Ghost<CallRecord> = Ghost(dummy);
        let mut rec_w: Ghost<CallRecord> = Ghost(dummy);
        if !self.handlers.contains_key(&fd) {
            if self.config.enable_metrics {
                proof {
                    lemma_wrap_step(self.counted@.errors_handled, self.metrics.errors_handled, 1);
                }
                self.metrics.errors_handled = self.metrics.errors_handled.wrapping_add(1);
                self.counted = Ghost(CounterTotals { errors_handled: (self.counted@.errors_handled + 1) as nat, ..self.counted@ });
            }
            self.diagnostics.push(Diagnostic::UnknownFd(fd));
            return Ghost((rec_r@, rec_w@));
        }
        let mut handler = self.take_handler(fd);
        handler.events_processed = handler.events_processed.wrapping_add(1);
        let ghost h1 = handler@;
        let ghost v1 = LoopView { handlers: vi.handlers.insert(fd, h1), ..vi };
        assert(self.handlers_view().insert(fd, h1) =~= v1.handlers);
        let ghost v2 = if event.filter.spec_contains(Filter::from_bits(1)) && h1.has_read {
            after_callback(v1, event, true, rec_r@, enabled)
        } else {
            v1
        };
        if event.filter.contains(Filter::read()) {
            rec_r = self.run_callback(&mut handler, &event, true);
        }
        proof {
            let a = if event.filter.spec_contains(Filter::from_bits(1)) && h1.has_read {
                after_callback(v1, event, true, rec_r@, enabled)
            } else {
                v1
            };
            assert(self.handlers_view().insert(fd, handler@) == a.handlers);
            assert(a.handlers[fd] == handler@);
        }
        if event.filter.contains(Filter::write()) {
            rec_w = self.run_callback(&mut handler, &event, false);
        }
        self.put_handler(fd, handler);
        proof {
            assert(self.handlers_view() =~= self.handlers_view().remove(fd).insert(fd, handler@));
        }
        Ghost((rec_r@, rec_w@))
    }

    /// Dispatches the pending events in order, taking them all out first
    /// (see `dispatch_all`). For an event on an fd with a handler, the
    /// handler counts it; a read event calls the read callback with the fd
    /// and the event, and a write event the write callback; each call is
    /// recorded in that callback's history and in the log of calls, with
    /// what it came to. Successes count as `callbacks_executed`; errors count
    /// as `errors_handled` and go to the fd's error handler, or are left as
    /// reports; a panic goes to the error handler as `CallbackPanic` and is
    /// otherwise neither counted nor reported. An event for an fd without
    /// handler calls nothing, counts as `errors_handled` and is reported.
    /// Dispatching always goes through every event.
    pub fn dispatch(&mut self) -> (r: Result<()>)
        requires
            old(self).wf(),
        ensures
            final(self).wf(),
            old(self).evolves_to(final(self)),
            r is Ok,
            final(self).ready_view() == Seq::<Event>::empty(),
            final(self).timers_view() == old(self).timers_view(),
            final(self).next_timer_id_view() == old(self).next_timer_id_view(),
            final(self).config_view() == old(self).config_view(),
            final(self).running_flag() == old(self).running_flag(),
            final(self).last_now_view() == old(self).last_now_view(),
            final(self).fired_view() == old(self).fired_view(),
            exists|outs: Seq<(CallRecord, CallRecord)>|
                #![trigger dispatch_all(old(self).loop_view(), old(self).ready_view(), outs, old(self).config_view().enable_metrics)]
                records_fit(old(self).ready_view(), outs) && final(self).loop_view()
                    == dispatch_all(
                    old(self).loop_view(),
                    old(self).ready_view(),
                    outs,
                    old(self).config_view().enable_metrics,
                ),
    {
        let mut events: Vec<Event> = Vec::new();
        std::mem::swap(&mut events, &mut self.ready_events);
        let ghost v0 = self.loop_view();
        let ghost evs = events@;
        let ghost enabled = self.config.enable_metrics;
        let ghost mut outs: Seq<(CallRecord, CallRecord)> = Seq::empty();
        assert(evs.take(0) =~= Seq::<Event>::empty());
        let mut i: usize = 0;
        while i < events.len()
            invariant
                evs == events@,
                v0 == old(self).loop_view(),
                evs == old(self).ready_view(),
                enabled == self.config.enable_metrics,
                self.wf(),
                self.ready_events@ == Seq::<Event>::empty(),
                self.timers@ == old(self).timers@,
                self.config == old(self).config,
                self.next_timer_id == old(self).next_timer_id,
                self.running == old(self).running,
                self.last_now == old(self).last_now,
                self.fired@ == old(self).fired@,
                totals_le(old(self).counted@, self.counted@),
                i <= events@.len(),
                outs.len() == i,
                records_fit(evs.take(i as int), outs),
                dispatch_all(v0, evs.take(i as int), outs, enabled) == self.loop_view(),
            decreases events@.len() - i,
        {
            let recs = self.dispatch_event(events[i]);
            proof {
                lemma_dispatch_step(v0, evs, outs, recs@, enabled, i as int);
                let t = evs.take(i + 1);
                let o2 = outs.push(recs@);
                assert forall|j: int| 0 <= j < t.len() implies record_fits((#[trigger] o2[j]).0, true, t[j].fd)
                    && record_fits(o2[j].1, false, t[j].fd) by {
                    if j < i {
                        assert(o2[j] == outs[j]);
                        assert(t[j] == evs.take(i as int)[j]);
                    }
                }
                outs = o2;
            }
            i = i + 1;
        }
        proof {
            assert(evs.take(i as int) =~= evs);
            law_dispatch_call_order(v0, evs, outs, enabled);
            law_dispatch_frame(v0, evs, outs, enabled);
            let r = routed_log(v0.handlers, evs, outs);
            assert((v0.call_log + r).subrange(0, v0.call_log.len() as int) =~= v0.call_log);
        }
        Ok(())
    }

    /// The interest registered for `fd`, if it has a handler.
    pub fn handler_filter(&self, fd: i32) -> (f: Option<Filter>)
        ensures
            f == (if self.handlers_view().contains_key(fd) {
                Some(self.handlers_view()[fd].filter)
            } else {
                None::<Filter>
            }),
    {
        broadcast use vstd::std_specs::hash::group_hash_axioms;
        match self.handlers.get(&fd) {
            Some(h) => Some(h.filter),
            None => None,
        }
    }

    /// How many events reached the handler of `fd`, if it has one.
    pub fn events_processed(&self, fd: i32) -> (n: Option<u64>)
        ensures
            n == (if self.handlers_view().contains_key(fd) {
                Some(self.handlers_view()[fd].events_processed)
            } else {
                None::<u64>
            }),
    {
        broadcast use vstd::std_specs::hash::group_hash_axioms;
        match self.handlers.get(&fd) {
            Some(h) => Some(h.events_processed),
            None => None,
        }
    }

    /// The id the next timer will get.
    pub fn next_timer_id(&self) -> (id: u64)
        ensures
            id == self.next_timer_id_view(),
    {
        self.next_timer_id
    }
}

} // verus!
