use std::sync::{Arc, Mutex};
use std::time::Duration;

use kqloop::{
    CallbackOutcome, Diagnostic, ErrorCallback, Event, EventLoop, EventLoopConfig,
    EventLoopError, EventLoopMetrics, FdEvent, Filter, KqueueError, ReadyCallback,
    TimerCallback,
};

/// What a test callback does when called.
#[derive(Clone, Copy)]
enum Behaviour {
    Succeed,
    Fail,
    Panic,
}

struct Probe {
    calls: Arc<Mutex<u32>>,
    seen: Arc<Mutex<Vec<(i32, Event)>>>,
    behaviour: Behaviour,
}

impl ReadyCallback for Probe {
    fn call(&mut self, fd: i32, event: &Event) -> CallbackOutcome {
        *self.calls.lock().unwrap() += 1;
        self.seen.lock().unwrap().push((fd, *event));
        match self.behaviour {
            Behaviour::Succeed => CallbackOutcome::Completed,
            Behaviour::Fail => CallbackOutcome::Failed(EventLoopError::HandlerNotFound(-1)),
            Behaviour::Panic => CallbackOutcome::Panicked,
        }
    }
}

impl TimerCallback for Probe {
    fn call(&mut self) -> CallbackOutcome {
        *self.calls.lock().unwrap() += 1;
        match self.behaviour {
            Behaviour::Succeed => CallbackOutcome::Completed,
            Behaviour::Fail => CallbackOutcome::Failed(EventLoopError::Shutdown),
            Behaviour::Panic => CallbackOutcome::Panicked,
        }
    }
}

struct ErrorSink {
    seen: Arc<Mutex<Vec<(i32, String)>>>,
}

impl ErrorCallback for ErrorSink {
    fn call(&mut self, fd: i32, err: &EventLoopError) {
        self.seen.lock().unwrap().push((fd, err.message()));
    }
}

fn sink() -> (ErrorSink, Arc<Mutex<Vec<(i32, String)>>>) {
    let seen = Arc::new(Mutex::new(Vec::new()));
    (ErrorSink { seen: seen.clone() }, seen)
}

type Loop = EventLoop<Probe, ErrorSink, Probe>;

fn probe(behaviour: Behaviour) -> (Probe, Arc<Mutex<u32>>) {
    let calls = Arc::new(Mutex::new(0));
    (Probe { calls: calls.clone(), seen: Arc::new(Mutex::new(Vec::new())), behaviour }, calls)
}

fn watched(behaviour: Behaviour) -> (Probe, Arc<Mutex<Vec<(i32, Event)>>>) {
    let seen = Arc::new(Mutex::new(Vec::new()));
    (Probe { calls: Arc::new(Mutex::new(0)), seen: seen.clone(), behaviour }, seen)
}

fn refused() -> KqueueError {
    KqueueError::Kevent(std::io::Error::from_raw_os_error(9))
}

fn nanos(d: Duration) -> u128 {
    d.as_nanos()
}

#[test]
fn test_event_loop_single_and_interval_timers() {
    let mut el: Loop = EventLoop::new();

    let (single, single_counter) = probe(Behaviour::Succeed);
    el.add_timer(nanos(Duration::from_millis(0)), single);

    let (interval, interval_counter) = probe(Behaviour::Succeed);
    el.add_interval(nanos(Duration::from_millis(1)), interval);

    el.start();

    while *single_counter.lock().unwrap() == 0 || *interval_counter.lock().unwrap() < 3 {
        el.process_timers().unwrap();
    }

    assert_eq!(*single_counter.lock().unwrap(), 1, "Single-shot timer should fire once");
    assert!(*interval_counter.lock().unwrap() >= 3, "Interval timer should fire at least 3 times");
}

#[test]
fn config_and_metrics_defaults() {
    let c = EventLoopConfig::default();
    assert_eq!(c.max_events, 1024);
    assert_eq!(c.poll_timeout_ms, Some(100));
    assert!(c.enable_metrics);
    let m = EventLoopMetrics::default();
    let s = m.snapshot();
    assert_eq!(s.poll_count, 0);
    assert_eq!(s.timers_fired, 0);
    let m2 = EventLoopMetrics { poll_count: 3, events_dispatched: 4, callbacks_executed: 5, errors_handled: 6, timers_fired: 7 };
    let s2 = m2.snapshot();
    assert_eq!((s2.poll_count, s2.events_dispatched, s2.callbacks_executed, s2.errors_handled, s2.timers_fired), (3, 4, 5, 6, 7));
}

#[test]
fn new_handler_has_no_callbacks() {
    let h: FdEvent<Probe, ErrorSink> = FdEvent::new(3);
    assert_eq!(h.fd, 3);
    assert!(!h.has_callbacks());
}

#[test]
fn timer_ids_are_fresh_and_cancel_removes_one() {
    let mut el: Loop = EventLoop::new();
    let a = el.add_timer_at(0, 10, probe(Behaviour::Succeed).0);
    let b = el.add_timer_at(0, 20, probe(Behaviour::Succeed).0);
    assert_ne!(a, b);
    assert_eq!(el.timer_count(), 2);
    el.cancel_timer(a);
    assert_eq!(el.timer_count(), 1);
    assert_eq!(el.next_timer_deadline_at(5), Some(15));
    el.cancel_timer(a);
    assert_eq!(el.timer_count(), 1);
    el.cancel_timer(b);
    assert_eq!(el.timer_count(), 0);
    assert_eq!(el.next_timer_deadline_at(5), None);
}

#[test]
fn next_deadline_is_the_least_time_left() {
    let mut el: Loop = EventLoop::new();
    el.add_timer_at(100, 50, probe(Behaviour::Succeed).0);
    el.add_timer_at(100, 30, probe(Behaviour::Succeed).0);
    el.add_interval_at(100, 40, probe(Behaviour::Succeed).0);
    assert_eq!(el.next_timer_deadline_at(100), Some(30));
    assert_eq!(el.next_timer_deadline_at(125), Some(5));
    // a deadline already passed leaves no time
    assert_eq!(el.next_timer_deadline_at(1000), Some(0));
}

#[test]
fn process_fires_due_timers_once_and_reschedules_intervals() {
    let mut el: Loop = EventLoop::new();
    let (once, once_calls) = probe(Behaviour::Succeed);
    let (every, every_calls) = probe(Behaviour::Succeed);
    let (later, later_calls) = probe(Behaviour::Succeed);
    el.add_timer_at(0, 10, once);
    el.add_interval_at(0, 10, every);
    el.add_timer_at(0, 1000, later);

    el.process_timers_at(5).unwrap();
    assert_eq!(*once_calls.lock().unwrap(), 0);
    assert_eq!(el.timer_count(), 3);

    el.process_timers_at(10).unwrap();
    assert_eq!(*once_calls.lock().unwrap(), 1);
    assert_eq!(*every_calls.lock().unwrap(), 1);
    assert_eq!(*later_calls.lock().unwrap(), 0);
    assert_eq!(el.timer_count(), 2);
    assert_eq!(el.metrics().timers_fired, 2);
    // the interval timer is due again 10 after the firing
    assert_eq!(el.next_timer_deadline_at(10), Some(10));

    el.process_timers_at(10).unwrap();
    assert_eq!(*every_calls.lock().unwrap(), 1);

    el.process_timers_at(25).unwrap();
    assert_eq!(*once_calls.lock().unwrap(), 1);
    assert_eq!(*every_calls.lock().unwrap(), 2);
    assert_eq!(el.next_timer_deadline_at(25), Some(10));
}

#[test]
fn failing_timer_is_counted_and_reported() {
    let mut el: Loop = EventLoop::new();
    el.add_timer_at(0, 0, probe(Behaviour::Fail).0);
    el.process_timers_at(0).unwrap();
    let m = el.metrics();
    assert_eq!(m.errors_handled, 1);
    assert_eq!(m.timers_fired, 0);
    let d = el.take_diagnostics();
    assert_eq!(d.len(), 1);
    assert!(matches!(d[0], Diagnostic::TimerCallbackFailed(EventLoopError::Shutdown)));
    assert!(el.take_diagnostics().is_empty());
    assert_eq!(el.timer_count(), 0);
}

#[test]
fn metrics_disabled_counts_nothing() {
    let config = EventLoopConfig { max_events: 8, poll_timeout_ms: None, enable_metrics: false };
    let mut el: Loop = EventLoop::with_config(config);
    el.add_timer_at(0, 0, probe(Behaviour::Succeed).0);
    el.process_timers_at(0).unwrap();
    el.complete_poll(Ok((vec![Event { fd: 1, filter: Filter::read() }], 1))).unwrap();
    el.dispatch().unwrap();
    let m = el.metrics();
    assert_eq!((m.poll_count, m.events_dispatched, m.callbacks_executed, m.errors_handled, m.timers_fired), (0, 0, 0, 0, 0));
    // the unknown fd is still reported
    assert!(matches!(el.take_diagnostics()[..], [Diagnostic::UnknownFd(1)]));
}

#[test]
fn poll_timeout_is_cut_by_the_next_deadline() {
    let mut el: Loop = EventLoop::new();
    // 100 ms configured, no timers
    assert_eq!(el.poll_timeout_at(0), Some(100_000_000));
    el.add_timer_at(0, 5_000_000, probe(Behaviour::Succeed).0);
    assert_eq!(el.poll_timeout_at(0), Some(5_000_000));
    assert_eq!(el.poll_timeout_at(10_000_000), Some(0));
    let none: Loop = EventLoop::with_config(EventLoopConfig { max_events: 1, poll_timeout_ms: None, enable_metrics: true });
    assert_eq!(none.poll_timeout_at(0), None);
    let mut far: Loop = EventLoop::with_config(EventLoopConfig { max_events: 1, poll_timeout_ms: None, enable_metrics: true });
    far.add_timer_at(0, 7, probe(Behaviour::Succeed).0);
    assert_eq!(far.poll_timeout_at(3), Some(4));
    // a negative configured timeout is taken as `ms as u64` milliseconds
    let neg: Loop = EventLoop::with_config(EventLoopConfig { max_events: 1, poll_timeout_ms: Some(-1), enable_metrics: true });
    assert_eq!(neg.poll_timeout_at(0), Some(u64::MAX as u128 * 1_000_000));
}

#[test]
fn registration_asks_the_kernel_once() {
    let mut el: Loop = EventLoop::new();
    assert_eq!(el.registration_request(4, Filter::read()), Filter::read());
    el.register_read(4, probe(Behaviour::Succeed).0, Ok(())).unwrap();
    assert_eq!(el.handler_filter(4), Some(Filter::read()));
    assert!(el.registration_request(4, Filter::read()).is_empty());
    assert_eq!(el.registration_request(4, Filter::all()), Filter::write());
    // nothing to ask, so the reply is not consulted
    el.register_read(4, probe(Behaviour::Succeed).0, Err(refused())).unwrap();
    el.register_write(4, probe(Behaviour::Succeed).0, Ok(())).unwrap();
    assert_eq!(el.handler_filter(4), Some(Filter::all()));
}

#[test]
fn refused_registration_changes_nothing() {
    let mut el: Loop = EventLoop::new();
    let r = el.register_read_write(6, probe(Behaviour::Succeed).0, probe(Behaviour::Succeed).0, Err(refused()));
    assert!(matches!(r, Err(EventLoopError::Kqueue(KqueueError::Kevent(_)))));
    // the handler stays, empty
    assert_eq!(el.handler_filter(6), Some(Filter::empty()));
    el.complete_poll(Ok((vec![Event { fd: 6, filter: Filter::read() }], 1))).unwrap();
    el.dispatch().unwrap();
    assert_eq!(el.metrics().callbacks_executed, 0);
    assert_eq!(el.events_processed(6), Some(1));
}

#[test]
fn deregister_undoes_register() {
    let mut el: Loop = EventLoop::new();
    el.register_read(3, probe(Behaviour::Succeed).0, Ok(())).unwrap();
    assert_eq!(el.deregistration_request(3, Filter::all()), Filter::read());
    el.deregister(3, Filter::read(), Ok(())).unwrap();
    assert_eq!(el.handler_filter(3), None);
    // without a handler there is nothing to do
    el.deregister(3, Filter::read(), Err(refused())).unwrap();

    el.register_read_write(5, probe(Behaviour::Succeed).0, probe(Behaviour::Succeed).0, Ok(())).unwrap();
    let r = el.deregister(5, Filter::write(), Err(refused()));
    assert!(matches!(r, Err(EventLoopError::Kqueue(_))));
    assert_eq!(el.handler_filter(5), Some(Filter::all()));
    el.deregister(5, Filter::write(), Ok(())).unwrap();
    // the read callback keeps the handler
    assert_eq!(el.handler_filter(5), Some(Filter::read()));
}

#[test]
fn update_filter_in_two_steps() {
    let mut el: Loop = EventLoop::new();
    el.register_read(7, probe(Behaviour::Succeed).0, Ok(())).unwrap();
    assert_eq!(el.filter_additions(7, Filter::write()), Filter::write());
    assert_eq!(el.filter_removals(7, Filter::write()), Filter::read());
    el.apply_filter_additions(7, Filter::write(), Ok(())).unwrap();
    assert_eq!(el.handler_filter(7), Some(Filter::all()));
    assert_eq!(el.filter_removals(7, Filter::write()), Filter::read());
    el.apply_filter_removals(7, Filter::write(), Ok(())).unwrap();
    assert_eq!(el.handler_filter(7), Some(Filter::write()));
    // no handler: no change asked for
    assert!(el.filter_additions(8, Filter::all()).is_empty());
    assert!(el.filter_removals(8, Filter::all()).is_empty());
    let r = el.apply_filter_additions(7, Filter::all(), Err(refused()));
    assert!(r.is_err());
    assert_eq!(el.handler_filter(7), Some(Filter::write()));
}

#[test]
fn poll_then_dispatch_runs_the_callbacks() {
    let mut el: Loop = EventLoop::new();
    let (r, r_calls) = probe(Behaviour::Succeed);
    let (w, w_calls) = probe(Behaviour::Succeed);
    el.register_read_write(10, r, w, Ok(())).unwrap();
    let n = el
        .complete_poll(Ok((
            vec![
                Event { fd: 10, filter: Filter::read() },
                Event { fd: 10, filter: Filter::write() },
                Event { fd: 10, filter: Filter::all() },
            ],
            3,
        )))
        .unwrap();
    assert_eq!(n, 3);
    assert_eq!(el.pending_events(), 3);
    el.dispatch().unwrap();
    assert_eq!(el.pending_events(), 0);
    assert_eq!(*r_calls.lock().unwrap(), 2);
    assert_eq!(*w_calls.lock().unwrap(), 2);
    assert_eq!(el.events_processed(10), Some(3));
    let m = el.metrics();
    assert_eq!(m.poll_count, 1);
    assert_eq!(m.events_dispatched, 3);
    assert_eq!(m.callbacks_executed, 4);
    assert_eq!(m.errors_handled, 0);
}

#[test]
fn poll_keeps_only_the_counted_events() {
    let mut el: Loop = EventLoop::new();
    let evs = vec![Event { fd: 1, filter: Filter::read() }, Event { fd: 2, filter: Filter::read() }];
    assert_eq!(el.complete_poll(Ok((evs, 1))).unwrap(), 1);
    assert_eq!(el.pending_events(), 1);
    assert!(matches!(el.complete_poll(Err(refused())), Err(EventLoopError::Kqueue(_))));
    assert_eq!(el.pending_events(), 1);
    assert_eq!(el.metrics().poll_count, 1);
}

#[test]
fn unknown_fd_is_counted_and_reported() {
    let mut el: Loop = EventLoop::new();
    el.complete_poll(Ok((vec![Event { fd: 42, filter: Filter::read() }], 1))).unwrap();
    el.dispatch().unwrap();
    assert_eq!(el.metrics().errors_handled, 1);
    assert!(matches!(el.take_diagnostics()[..], [Diagnostic::UnknownFd(42)]));
}

#[test]
fn failing_callback_without_error_handler_is_reported() {
    let mut el: Loop = EventLoop::new();
    el.register_write(11, probe(Behaviour::Fail).0, Ok(())).unwrap();
    el.complete_poll(Ok((vec![Event { fd: 11, filter: Filter::write() }], 1))).unwrap();
    el.dispatch().unwrap();
    assert_eq!(el.metrics().errors_handled, 1);
    assert_eq!(el.metrics().callbacks_executed, 0);
    assert!(matches!(el.take_diagnostics()[..], [Diagnostic::WriteCallbackFailed(11, _)]));
}

#[test]
fn panicking_callback_is_isolated_and_dispatch_goes_on() {
    let mut el: Loop = EventLoop::new();
    let (p, p_calls) = probe(Behaviour::Panic);
    let (w, w_calls) = probe(Behaviour::Succeed);
    let (ok, ok_calls) = probe(Behaviour::Succeed);
    el.register_read_write(7, p, w, Ok(())).unwrap();
    el.register_read(-3, ok, Ok(())).unwrap();
    el.complete_poll(Ok((
        vec![
            Event { fd: 7, filter: Filter::all() },
            Event { fd: -3, filter: Filter::read() },
        ],
        2,
    )))
    .unwrap();
    el.dispatch().unwrap();
    assert_eq!(*p_calls.lock().unwrap(), 1);
    assert_eq!(*w_calls.lock().unwrap(), 1);
    assert_eq!(*ok_calls.lock().unwrap(), 1);
    assert_eq!(el.pending_events(), 0);
    assert_eq!(el.events_processed(7), Some(1));
    assert_eq!(el.events_processed(-3), Some(1));
    let m = el.metrics();
    // a panic is neither counted nor reported
    assert_eq!(m.errors_handled, 0);
    assert_eq!(m.callbacks_executed, 2);
    assert!(el.take_diagnostics().is_empty());
}

#[test]
fn panic_message_names_negative_fds() {
    let mut el: Loop = EventLoop::new();
    el.register_write(-12, probe(Behaviour::Panic).0, Ok(())).unwrap();
    let (errs, seen) = sink();
    el.set_error_handler(-12, errs).unwrap();
    el.complete_poll(Ok((vec![Event { fd: -12, filter: Filter::write() }], 1))).unwrap();
    assert!(el.dispatch().is_ok());
    let got = seen.lock().unwrap().clone();
    assert_eq!(got, vec![(-12, "callback panic: write callback panicked on fd -12".to_string())]);
    assert!(el.take_diagnostics().is_empty());
}

#[test]
fn error_handler_gets_failures_and_panics() {
    let mut el: Loop = EventLoop::new();
    el.register_read_write(7, probe(Behaviour::Fail).0, probe(Behaviour::Panic).0, Ok(())).unwrap();
    let (errs, seen) = sink();
    el.set_error_handler(7, errs).unwrap();
    el.complete_poll(Ok((vec![Event { fd: 7, filter: Filter::all() }], 1))).unwrap();
    el.dispatch().unwrap();
    let got = seen.lock().unwrap().clone();
    assert_eq!(
        got,
        vec![
            (7, "handler not found for fd -1".to_string()),
            (7, "callback panic: write callback panicked on fd 7".to_string()),
        ]
    );
    let m = el.metrics();
    assert_eq!((m.callbacks_executed, m.errors_handled), (0, 1));
    // the error handler took the failure, so nothing is left as a report
    assert!(el.take_diagnostics().is_empty());
}

#[test]
fn error_handler_needs_a_registered_fd() {
    let mut el: Loop = EventLoop::new();
    let r = el.set_error_handler(3, sink().0);
    assert!(matches!(r, Err(EventLoopError::HandlerNotFound(3))));
    assert_eq!(el.handler_filter(3), None);
    el.register_read(3, probe(Behaviour::Succeed).0, Ok(())).unwrap();
    assert!(el.set_error_handler(3, sink().0).is_ok());
    assert_eq!(el.handler_filter(3), Some(Filter::read()));
}

#[test]
fn error_messages() {
    assert_eq!(EventLoopError::Shutdown.message(), "event loop shutdown");
    assert_eq!(EventLoopError::HandlerNotFound(-5).message(), "handler not found for fd -5");
    assert_eq!(EventLoopError::CallbackPanic("boom".to_string()).message(), "callback panic: boom");
    let io = std::io::Error::from_raw_os_error(9);
    let text = io.to_string();
    assert_eq!(
        EventLoopError::Kqueue(KqueueError::Kevent(std::io::Error::from_raw_os_error(9))).message(),
        format!("kqueue error: kevent call failed: {}", text)
    );
    assert_eq!(KqueueError::Create(std::io::Error::from_raw_os_error(9)).message(), format!("kqueue creation failed: {}", text));
    assert_eq!(EventLoopError::Io(io).message(), format!("io error: {}", text));
}

#[test]
fn callbacks_get_their_fd_and_event() {
    let mut el: Loop = EventLoop::new();
    let (r, r_seen) = watched(Behaviour::Succeed);
    let (w, w_seen) = watched(Behaviour::Succeed);
    el.register_read_write(5, r, w, Ok(())).unwrap();
    let read = Event { fd: 5, filter: Filter::read() };
    let both = Event { fd: 5, filter: Filter::all() };
    let other = Event { fd: 9, filter: Filter::all() };
    el.complete_poll(Ok((vec![other, read, both], 3))).unwrap();
    el.dispatch().unwrap();
    let r_got = r_seen.lock().unwrap().clone();
    let w_got = w_seen.lock().unwrap().clone();
    assert!(r_got == vec![(5, read), (5, both)]);
    assert!(w_got == vec![(5, both)]);
    assert_eq!(el.events_processed(5), Some(2));
    let m = el.metrics();
    assert_eq!((m.callbacks_executed, m.errors_handled), (3, 1));
}

#[test]
fn panicking_timer_is_counted_and_reported() {
    let mut el: Loop = EventLoop::new();
    let (p, p_calls) = probe(Behaviour::Panic);
    let (ok, ok_calls) = probe(Behaviour::Succeed);
    el.add_timer_at(0, 0, p);
    el.add_interval_at(0, 5, ok);
    el.process_timers_at(5).unwrap();
    assert_eq!(*p_calls.lock().unwrap(), 1);
    assert_eq!(*ok_calls.lock().unwrap(), 1);
    let m = el.metrics();
    assert_eq!((m.timers_fired, m.errors_handled), (1, 1));
    assert!(matches!(el.take_diagnostics()[..], [Diagnostic::TimerCallbackPanicked]));
    assert_eq!(el.timer_count(), 1);
}

#[test]
fn zero_delay_timers_fire_on_the_next_processing() {
    let mut el: Loop = EventLoop::new();
    let (a, a_calls) = probe(Behaviour::Succeed);
    let (b, b_calls) = probe(Behaviour::Succeed);
    el.add_timer(0, a);
    el.add_timer(0, b);
    el.process_timers().unwrap();
    assert_eq!(*a_calls.lock().unwrap(), 1);
    assert_eq!(*b_calls.lock().unwrap(), 1);
    assert_eq!(el.next_timer_deadline(), None);
}

#[test]
fn shutdown_handle_clears_running() {
    let el: Loop = EventLoop::new();
    assert!(!el.is_running());
    el.start();
    assert!(el.is_running());
    let handle = el.shutdown_handle();
    handle.shutdown();
    assert!(!el.is_running());
    el.start();
    el.shutdown();
    assert!(!el.is_running());
}

#[test]
fn clock_stays_within_a_duration() {
    let mut el: Loop = EventLoop::new();
    let a = el.now();
    let mut b = el.now();
    while b < a + 1_000_000 {
        b = el.now();
    }
    assert!(b >= a);
    assert!(b <= kqloop::MAX_DURATION_NANOS);
}
