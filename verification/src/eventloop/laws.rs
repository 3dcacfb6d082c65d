//! Properties that relate several operations of the loop, stated over the
//! models that the operations' contracts use.
use vstd::prelude::*;

use crate::eventloop::callback::{ErrorCallback, ReadyCall, ReadyCallback, TimerCallback};
use crate::eventloop::eventloop::EventLoop;
use crate::eventloop::config::EventLoopMetrics;
use crate::eventloop::error::{CallbackOutcome, Diagnostic, EventLoopError};
use crate::eventloop::model::{
    after_timer_outcome, after_timer_outcomes, apply_additions_model, apply_removals_model,
    deregister_model, deregistration_request, dispatch_all, dispatch_one, filter_additions, lemma_unwrapped, filter_removals, fired_from, has_id, is_due, lemma_fired_not_due,
    lemma_min_remaining, lemma_unique_contains, lemma_wf_contains, millis_to_nanos, min_remaining,
    poll_timeout, register_model, registration_request, remaining, timers_processed, timers_wf,
    without_id, CallRecord, HandlerView, LoopView, TimerView, MAX_DURATION_NANOS,
};
use crate::sys::kqueue::KqueueError;
use crate::sys::{Event, Filter};

verus! {

broadcast use Filter::lemma_bits_of_from_bits;

/// Once a registration went through, registering the same filter again asks
/// nothing of the kernel.
pub proof fn law_registration_is_idempotent(
    h: Map<i32, HandlerView>,
    fd: i32,
    filter: Filter,
    on_read: Option<Seq<ReadyCall>>,
    on_write: Option<Seq<ReadyCall>>,
)
    ensures
        ({
            let (h1, r) = register_model(h, fd, filter, on_read, on_write, Ok(()));
            &&& r is Ok
            &&& h1.contains_key(fd)
            &&& registration_request(h1, fd, filter).spec_is_empty()
        }),
{
    let hv = if h.contains_key(fd) {
        h[fd]
    } else {
        crate::eventloop::model::new_handler(fd)
    };
    let f = hv.filter.bits();
    let g = filter.bits();
    let add = g & (!f & 3);
    assert(add == 0 ==> g & (!f & 3) == 0);
    assert(g & (!(f | add) & 3) == 0) by (bit_vector)
        requires
            add == g & (!f & 3),
    ;
}

/// Registering read and/or write interest on an fd without a handler, with
/// callbacks of those kinds, and then deregistering the same interest,
/// leaves the handlers as they were, when the kernel accepts both.
pub proof fn law_deregister_undoes_register(
    h: Map<i32, HandlerView>,
    fd: i32,
    filter: Filter,
    read_calls: Seq<ReadyCall>,
    write_calls: Seq<ReadyCall>,
)
    requires
        !h.contains_key(fd),
        filter.wf(),
        !filter.spec_is_empty(),
    ensures
        ({
            let on_read = if filter.reads() { Some(read_calls) } else { None };
            let on_write = if filter.writes() { Some(write_calls) } else { None };
            let (h1, r1) = register_model(h, fd, filter, on_read, on_write, Ok(()));
            let (h2, r2) = deregister_model(h1, fd, filter, Ok(()));
            &&& r1 is Ok
            &&& r2 is Ok
            &&& h2 == h
        }),
{
    let g = filter.bits();
    let on_read = if filter.reads() { Some(read_calls) } else { None };
    let on_write = if filter.writes() { Some(write_calls) } else { None };
    let (h1, r1) = register_model(h, fd, filter, on_read, on_write, Ok(()));
    assert((g & (!0u8 & 3)) == g && (0u8 | g) == g) by (bit_vector)
        requires
            g <= 3,
    ;
    assert(h1[fd].filter == filter) by {
        Filter::lemma_eq_by_bits(h1[fd].filter, filter);
    }
    assert((g & g) == g && (g & 1 != 0) == (g & 1 == 1) && (g & 2 != 0) == (g & 2 == 2)) by (
    bit_vector)
        requires
            g <= 3,
    ;
    let (h2, r2) = deregister_model(h1, fd, filter, Ok(()));
    assert(h2 =~= h);
}

/// A registration that the kernel refuses changes no interest and no
/// callback; at most it leaves an empty handler for the fd.
pub proof fn law_refused_registration(
    h: Map<i32, HandlerView>,
    fd: i32,
    filter: Filter,
    on_read: Option<Seq<ReadyCall>>,
    on_write: Option<Seq<ReadyCall>>,
    e: KqueueError,
)
    requires
        !registration_request(h, fd, filter).spec_is_empty(),
    ensures
        ({
            let (h1, r) = register_model(h, fd, filter, on_read, on_write, Err(e));
            &&& r == Err::<(), EventLoopError>(EventLoopError::Kqueue(e))
            &&& h1.remove(fd) == h.remove(fd)
            &&& h1[fd] == (if h.contains_key(fd) {
                h[fd]
            } else {
                crate::eventloop::model::new_handler(fd)
            })
        }),
{
    let (h1, r) = register_model(h, fd, filter, on_read, on_write, Err(e));
    assert(h1.remove(fd) =~= h.remove(fd));
}

/// Changing a handler's filter in two steps, additions then removals, with
/// the kernel accepting both, leaves exactly the requested filter and the
/// handler's callbacks; and the removals asked for after the additions are
/// those that were due before them.
pub proof fn law_update_filter(h: Map<i32, HandlerView>, fd: i32, filter: Filter)
    requires
        h.contains_key(fd),
        h[fd].filter.wf(),
        filter.wf(),
    ensures
        ({
            let (h1, r1) = apply_additions_model(h, fd, filter, Ok(()));
            let (h2, r2) = apply_removals_model(h1, fd, filter, Ok(()));
            &&& r1 is Ok
            &&& r2 is Ok
            &&& filter_removals(h1, fd, filter) == filter_removals(h, fd, filter)
            &&& h2[fd] == HandlerView { filter, ..h[fd] }
            &&& h2.remove(fd) == h.remove(fd)
        }),
{
    let f = h[fd].filter.bits();
    let g = filter.bits();
    let (h1, r1) = apply_additions_model(h, fd, filter, Ok(()));
    let add = g & (!f & 3);
    let f1 = if add == 0 {
        f
    } else {
        f | add
    };
    assert(h1[fd].filter.bits() == f1);
    assert(f1 & (!g & 3) == f & (!g & 3)) by (bit_vector)
        requires
            add == g & (!f & 3),
            f1 == (if add == 0 {
                f
            } else {
                f | add
            }),
    ;
    Filter::lemma_eq_by_bits(filter_removals(h1, fd, filter), filter_removals(h, fd, filter));
    let rm = f & (!g & 3);
    let f2 = if rm == 0 {
        f1
    } else {
        f1 & !rm
    };
    assert(f2 == g) by (bit_vector)
        requires
            f <= 3,
            g <= 3,
            add == g & (!f & 3),
            f1 == (if add == 0 {
                f
            } else {
                f | add
            }),
            rm == f & (!g & 3),
            f2 == (if rm == 0 {
                f1
            } else {
                f1 & !rm
            }),
    ;
    let (h2, r2) = apply_removals_model(h1, fd, filter, Ok(()));
    Filter::lemma_eq_by_bits(h2[fd].filter, filter);
    assert(h2.remove(fd) =~= h.remove(fd));
}

/// `without_id` keeps a list whose ids all differ from `id`.
proof fn lemma_without_absent_id(s: Seq<TimerView>, id: u64)
    requires
        forall|i: int| 0 <= i < s.len() ==> #[trigger] s[i].id != id,
    ensures
        without_id(s, id) == s,
    decreases s.len(),
{
    if s.len() > 0 {
        assert forall|i: int| 0 <= i < s.len() - 1 implies #[trigger] s.drop_last()[i].id != id by {
            assert(s.drop_last()[i] == s[i]);
        }
        lemma_without_absent_id(s.drop_last(), id);
        assert(s[s.len() - 1] == s.last());
        assert(s.drop_last().push(s.last()) =~= s);
    }
}

/// The id a new timer gets is used by no timer, and cancelling the new
/// timer gives back the timers as they were.
pub proof fn law_cancel_undoes_add(s: Seq<TimerView>, next_id: u64, t: TimerView)
    requires
        timers_wf(s, next_id),
        t.id == next_id,
    ensures
        forall|i: int| 0 <= i < s.len() ==> #[trigger] s[i].id != next_id,
        without_id(s.push(t), next_id) == s,
{
    assert(s.push(t).drop_last() =~= s);
    lemma_without_absent_id(s, next_id);
}

/// After processing the timers at `now`: a due timer's callback was called
/// exactly once and a timer not due had no call; a due single-shot timer is
/// gone; a due interval timer is there again after its call, due its period
/// after `now`; a timer that was not due is there unchanged; no timer is due
/// at `now` any more; and the ids left are those of the timers that were
/// not due single-shot timers.
pub proof fn law_timers_after_processing(
    old: Seq<TimerView>,
    new: Seq<TimerView>,
    calls: Seq<TimerView>,
    next_id: u64,
    now: u128,
    t: TimerView,
)
    requires
        timers_wf(old, next_id),
        timers_processed(old, new, calls, now),
        old.contains(t),
        now <= MAX_DURATION_NANOS,
    ensures
        is_due(t, now) ==> exists|k: int| 0 <= k < calls.len() && fired_from(t, #[trigger] calls[k], now),
        forall|k: int|
            0 <= k < calls.len() && (#[trigger] calls[k]).id == t.id ==> is_due(t, now) && fired_from(
                t,
                calls[k],
                now,
            ),
        forall|k1: int, k2: int|
            0 <= k1 < calls.len() && 0 <= k2 < calls.len() && (#[trigger] calls[k1]).id == t.id
                && (#[trigger] calls[k2]).id == t.id ==> k1 == k2,
        is_due(t, now) && t.interval is None ==> forall|i: int|
            0 <= i < new.len() ==> #[trigger] new[i].id != t.id,
        is_due(t, now) && t.interval is Some ==> exists|k: int|
            0 <= k < calls.len() && fired_from(t, #[trigger] calls[k], now) && new.contains(calls[k])
                && !is_due(calls[k], now),
        !is_due(t, now) ==> new.contains(t),
        forall|i: int| 0 <= i < new.len() ==> !is_due(#[trigger] new[i], now),
        forall|p: u64|
            #[trigger] has_id(new, p) <==> (exists|o: TimerView|
                #![trigger old.contains(o)]
                old.contains(o) && o.id == p && !(is_due(o, now) && o.interval is None)),
{
    lemma_wf_contains(old, next_id, t);
    assert forall|k: int|
        0 <= k < calls.len() && (#[trigger] calls[k]).id == t.id implies is_due(t, now) && fired_from(
        t,
        calls[k],
        now,
    ) by {
        let o = choose|o: TimerView| old.contains(o) && is_due(o, now) && fired_from(o, calls[k], now);
        lemma_unique_contains(old, o, t);
    }
    assert forall|i: int| 0 <= i < new.len() implies !is_due(#[trigger] new[i], now) by {
        assert(new.contains(new[i]));
        if !(old.contains(new[i]) && !is_due(new[i], now)) {
            let k = choose|k: int| 0 <= k < calls.len() && (#[trigger] calls[k]).interval is Some && new[i] == calls[k];
            let o = choose|o: TimerView| old.contains(o) && is_due(o, now) && fired_from(o, calls[k], now);
            lemma_fired_not_due(old, next_id, o, calls[k], now);
        }
    }
    if is_due(t, now) && t.interval is None {
        assert forall|i: int| 0 <= i < new.len() implies #[trigger] new[i].id != t.id by {
            assert(new.contains(new[i]));
            if new[i].id == t.id {
                if old.contains(new[i]) && !is_due(new[i], now) {
                    lemma_unique_contains(old, new[i], t);
                } else {
                    let k = choose|k: int| 0 <= k < calls.len() && (#[trigger] calls[k]).interval is Some && new[i] == calls[k];
                    assert(fired_from(t, calls[k], now));
                }
            }
        }
    }
    if is_due(t, now) && t.interval is Some {
        let k = choose|k: int| 0 <= k < calls.len() && fired_from(t, #[trigger] calls[k], now);
        assert(new.contains(calls[k]));
        let o = choose|o: TimerView| old.contains(o) && is_due(o, now) && fired_from(o, calls[k], now);
        lemma_fired_not_due(old, next_id, o, calls[k], now);
    }
    assert forall|p: u64|
        #[trigger] has_id(new, p) <==> (exists|o: TimerView|
            #![trigger old.contains(o)]
            old.contains(o) && o.id == p && !(is_due(o, now) && o.interval is None)) by {
        if exists|i: int| 0 <= i < new.len() && (#[trigger] new[i]).id == p {
            let i = choose|i: int| 0 <= i < new.len() && (#[trigger] new[i]).id == p;
            assert(new.contains(new[i]));
            if !(old.contains(new[i]) && !is_due(new[i], now)) {
                let k = choose|k: int| 0 <= k < calls.len() && (#[trigger] calls[k]).interval is Some && new[i] == calls[k];
                let o = choose|o: TimerView| old.contains(o) && is_due(o, now) && fired_from(o, calls[k], now);
                assert(old.contains(o) && o.id == p);
            }
        }
        if exists|o: TimerView|
            #![trigger old.contains(o)]
            old.contains(o) && o.id == p && !(is_due(o, now) && o.interval is None) {
            let o = choose|o: TimerView| old.contains(o) && o.id == p && !(is_due(o, now) && o.interval is None);
            if is_due(o, now) {
                let k = choose|k: int| 0 <= k < calls.len() && fired_from(o, #[trigger] calls[k], now);
                assert(new.contains(calls[k]));
                let i = choose|i: int| 0 <= i < new.len() && new[i] == calls[k];
                assert(new[i].id == p);
            } else {
                assert(new.contains(o));
                let i = choose|i: int| 0 <= i < new.len() && new[i] == o;
                assert(new[i].id == p);
            }
        }
    }
}

/// Each timer callback outcome is accounted exactly once: with metrics
/// enabled and no counter wrapping, `timers_fired` and `errors_handled`
/// together grow by the number of outcomes, and every error is reported
/// once. With metrics disabled the counters do not move.
pub proof fn law_timer_accounting(
    m: EventLoopMetrics,
    d: Seq<Diagnostic>,
    outs: Seq<CallbackOutcome>,
    enabled: bool,
)
    requires
        m.timers_fired + outs.len() <= u64::MAX,
        m.errors_handled + outs.len() <= u64::MAX,
    ensures
        ({
            let (m1, d1) = after_timer_outcomes(m, d, outs, enabled);
            &&& d1.len() >= d.len()
            &&& enabled ==> m1.timers_fired + m1.errors_handled == m.timers_fired
                + m.errors_handled + outs.len()
            &&& enabled ==> m1.errors_handled - m.errors_handled == d1.len() - d.len()
            &&& enabled ==> m.timers_fired <= m1.timers_fired <= m.timers_fired + outs.len()
            &&& enabled ==> m.errors_handled <= m1.errors_handled <= m.errors_handled + outs.len()
            &&& !enabled ==> m1 == m
            &&& m1.poll_count == m.poll_count
            &&& m1.events_dispatched == m.events_dispatched
            &&& m1.callbacks_executed == m.callbacks_executed
        }),
    decreases outs.len(),
{
    if outs.len() > 0 {
        law_timer_accounting(m, d, outs.drop_last(), enabled);
        let (m1, d1) = after_timer_outcomes(m, d, outs.drop_last(), enabled);
        assert(after_timer_outcomes(m, d, outs, enabled) == after_timer_outcome(
            m1,
            d1,
            outs.last(),
            enabled,
        ));
    }
}

/// The poll timeout never outlasts the configured timeout nor the time
/// left until any timer is due, and it is one of them; there is no timeout
/// only when none is configured and there are no timers.
pub proof fn law_poll_timeout_bounds(
    configured_ms: Option<i32>,
    timers: Seq<TimerView>,
    now: u128,
)
    ensures
        ({
            let t = poll_timeout(configured_ms, min_remaining(timers, now));
            &&& t is None <==> (configured_ms is None && timers.len() == 0)
            &&& t matches Some(d) ==> (configured_ms matches Some(ms) ==> d <= millis_to_nanos(ms))
                && (forall|i: int| 0 <= i < timers.len() ==> d <= remaining(#[trigger] timers[i], now))
                && ((configured_ms matches Some(ms) && d == millis_to_nanos(ms)) || exists|i: int|
                0 <= i < timers.len() && d == remaining(#[trigger] timers[i], now))
        }),
{
    lemma_min_remaining(timers, now);
}

/// Dispatching keeps the set of handlers and each handler's interest and
/// callbacks; it only appends to the callbacks' call histories; it touches
/// no counter but those of callbacks and errors, and none at all with
/// metrics disabled; and it only adds reports.
#[verifier::rlimit(40)]
pub proof fn law_dispatch_frame(
    v: LoopView,
    events: Seq<crate::sys::Event>,
    outs: Seq<(CallRecord, CallRecord)>,
    enabled: bool,
)
    requires
        events.len() == outs.len(),
    ensures
        ({
            let v1 = dispatch_all(v, events, outs, enabled);
            &&& v1.handlers.dom() == v.handlers.dom()
            &&& forall|fd: i32|
                #[trigger] v1.handlers.contains_key(fd) ==> {
                    let a = v.handlers[fd];
                    let b = v1.handlers[fd];
                    &&& b.filter == a.filter
                    &&& b.has_read == a.has_read
                    &&& b.has_write == a.has_write
                    &&& b.has_error == a.has_error
                    &&& b.fd == a.fd
                    &&& a.read_calls.len() <= b.read_calls.len()
                    &&& b.read_calls.subrange(0, a.read_calls.len() as int) == a.read_calls
                    &&& a.write_calls.len() <= b.write_calls.len()
                    &&& b.write_calls.subrange(0, a.write_calls.len() as int) == a.write_calls
                    &&& a.error_calls.len() <= b.error_calls.len()
                    &&& b.error_calls.subrange(0, a.error_calls.len() as int) == a.error_calls
                }
            &&& !enabled ==> v1.metrics == v.metrics
            &&& v1.metrics.poll_count == v.metrics.poll_count
            &&& v1.metrics.events_dispatched == v.metrics.events_dispatched
            &&& v1.metrics.timers_fired == v.metrics.timers_fired
            &&& v.diagnostics.len() <= v1.diagnostics.len()
            &&& v1.diagnostics.subrange(0, v.diagnostics.len() as int) == v.diagnostics
        }),
    decreases events.len(),
{
    if events.len() > 0 {
        law_dispatch_frame(v, events.drop_last(), outs.drop_last(), enabled);
        let p = dispatch_all(v, events.drop_last(), outs.drop_last(), enabled);
        let ev = events.last();
        let v1 = dispatch_all(v, events, outs, enabled);
        assert(v1.handlers.dom() =~= p.handlers.dom());
        assert forall|fd: i32| #[trigger] v1.handlers.contains_key(fd) implies {
            let a = p.handlers[fd];
            let b = v1.handlers[fd];
            &&& b.filter == a.filter
            &&& b.has_read == a.has_read
            &&& b.has_write == a.has_write
            &&& b.has_error == a.has_error
            &&& b.fd == a.fd
            &&& a.read_calls.len() <= b.read_calls.len()
            &&& b.read_calls.subrange(0, a.read_calls.len() as int) == a.read_calls
            &&& a.write_calls.len() <= b.write_calls.len()
            &&& b.write_calls.subrange(0, a.write_calls.len() as int) == a.write_calls
            &&& a.error_calls.len() <= b.error_calls.len()
            &&& b.error_calls.subrange(0, a.error_calls.len() as int) == a.error_calls
        } by {
            let a = p.handlers[fd];
            let b = v1.handlers[fd];
            assert(b.read_calls.subrange(0, a.read_calls.len() as int) =~= a.read_calls);
            assert(b.write_calls.subrange(0, a.write_calls.len() as int) =~= a.write_calls);
            assert(b.error_calls.subrange(0, a.error_calls.len() as int) =~= a.error_calls);
        }
        assert forall|fd: i32| #[trigger] v1.handlers.contains_key(fd) implies {
            let a = v.handlers[fd];
            let b = v1.handlers[fd];
            &&& b.read_calls.subrange(0, a.read_calls.len() as int) == a.read_calls
            &&& b.write_calls.subrange(0, a.write_calls.len() as int) == a.write_calls
            &&& b.error_calls.subrange(0, a.error_calls.len() as int) == a.error_calls
        } by {
            let a = v.handlers[fd];
            let m = p.handlers[fd];
            let b = v1.handlers[fd];
            assert(b.read_calls.subrange(0, a.read_calls.len() as int) =~= m.read_calls.subrange(0, a.read_calls.len() as int));
            assert(b.write_calls.subrange(0, a.write_calls.len() as int) =~= m.write_calls.subrange(0, a.write_calls.len() as int));
            assert(b.error_calls.subrange(0, a.error_calls.len() as int) =~= m.error_calls.subrange(0, a.error_calls.len() as int));
        }
        assert(v1.diagnostics.subrange(0, p.diagnostics.len() as int) =~= p.diagnostics);
        assert(v1.diagnostics.subrange(0, v.diagnostics.len() as int) =~= p.diagnostics.subrange(
            0,
            v.diagnostics.len() as int,
        ));
    }
}

/// The read (`is_read`) or write calls that dispatching `events` makes to
/// the callback of `fd`, when the handler has one, given what they came to:
/// one for each event on `fd` of that kind, in order, with the fd and the
/// event.
pub open spec fn routed_calls(
    events: Seq<Event>,
    outs: Seq<(CallRecord, CallRecord)>,
    fd: i32,
    is_read: bool,
) -> Seq<ReadyCall>
    decreases events.len(),
{
    if events.len() == 0 {
        Seq::empty()
    } else {
        let r = routed_calls(events.drop_last(), outs.drop_last(), fd, is_read);
        let ev = events.last();
        let kind = if is_read {
            Filter::from_bits(1)
        } else {
            Filter::from_bits(2)
        };
        if ev.fd == fd && ev.filter.spec_contains(kind) {
            r.push(
                ReadyCall {
                    fd,
                    event: ev,
                    outcome: if is_read {
                        outs.last().0.outcome
                    } else {
                        outs.last().1.outcome
                    },
                },
            )
        } else {
            r
        }
    }
}

/// How many of `events` are on `fd`.
pub open spec fn events_on(events: Seq<Event>, fd: i32) -> nat
    decreases events.len(),
{
    if events.len() == 0 {
        0
    } else {
        events_on(events.drop_last(), fd) + if events.last().fd == fd {
            1nat
        } else {
            0nat
        }
    }
}

/// Dispatching hands each event to the callbacks of its fd and to no
/// other: the read callback of an fd with a handler receives exactly the
/// read events on that fd, in order, each with the fd and the event, and
/// the write callback the write events; and the handler counts every event
/// on its fd (when the count does not wrap).
pub proof fn law_dispatch_routes_calls(
    v: LoopView,
    events: Seq<Event>,
    outs: Seq<(CallRecord, CallRecord)>,
    enabled: bool,
    fd: i32,
)
    requires
        events.len() == outs.len(),
        v.handlers.contains_key(fd),
    ensures
        ({
            let a = v.handlers[fd];
            let b = dispatch_all(v, events, outs, enabled).handlers[fd];
            &&& b.read_calls == (if a.has_read {
                a.read_calls + routed_calls(events, outs, fd, true)
            } else {
                a.read_calls
            })
            &&& b.write_calls == (if a.has_write {
                a.write_calls + routed_calls(events, outs, fd, false)
            } else {
                a.write_calls
            })
            &&& a.events_processed + events_on(events, fd) <= u64::MAX ==> b.events_processed
                == a.events_processed + events_on(events, fd)
        }),
    decreases events.len(),
{
    if events.len() > 0 {
        let ev = events.last();
        let o = outs.last();
        law_dispatch_routes_calls(v, events.drop_last(), outs.drop_last(), enabled, fd);
        law_dispatch_frame(v, events.drop_last(), outs.drop_last(), enabled);
        let p = dispatch_all(v, events.drop_last(), outs.drop_last(), enabled);
        let a = v.handlers[fd];
        let m = p.handlers[fd];
        let b = dispatch_all(v, events, outs, enabled).handlers[fd];
        assert(p.handlers.contains_key(fd));
        let rr = routed_calls(events.drop_last(), outs.drop_last(), fd, true);
        let rw = routed_calls(events.drop_last(), outs.drop_last(), fd, false);
        if ev.fd == fd {
            assert(a.read_calls + rr.push(ReadyCall { fd, event: ev, outcome: o.0.outcome })
                =~= (a.read_calls + rr).push(ReadyCall { fd, event: ev, outcome: o.0.outcome }));
            assert(a.write_calls + rw.push(ReadyCall { fd, event: ev, outcome: o.1.outcome })
                =~= (a.write_calls + rw).push(ReadyCall { fd, event: ev, outcome: o.1.outcome }));
            if a.events_processed + events_on(events, fd) <= u64::MAX {
                assert(m.events_processed + 1 <= u64::MAX);
            }
        }
    }
}

/// How many callback calls that did not panic, and events on an fd without
/// handler, dispatching `events` with the handlers `h` makes, the calls
/// coming to `outs`: one for each event on an fd without handler, otherwise
/// one for each kind of the event that the handler has a callback for, unless
/// that callback panicked.
pub open spec fn dispatch_work(
    h: Map<i32, HandlerView>,
    events: Seq<Event>,
    outs: Seq<(CallRecord, CallRecord)>,
) -> nat
    decreases events.len(),
{
    if events.len() == 0 {
        0
    } else {
        let ev = events.last();
        let o = outs.last();
        dispatch_work(h, events.drop_last(), outs.drop_last()) + if !h.contains_key(ev.fd) {
            1nat
        } else {
            (if ev.filter.spec_contains(Filter::from_bits(1)) && h[ev.fd].has_read
                && !(o.0.outcome is Panicked) {
                1nat
            } else {
                0nat
            }) + (if ev.filter.spec_contains(Filter::from_bits(2)) && h[ev.fd].has_write
                && !(o.1.outcome is Panicked) {
                1nat
            } else {
                0nat
            })
        }
    }
}

/// With metrics enabled and no counter wrapping, every callback call that
/// did not panic and every event on an fd without handler is counted exactly
/// once, as a success (`callbacks_executed`) or as an error
/// (`errors_handled`); panics are not counted.
pub proof fn law_dispatch_accounting(
    v: LoopView,
    events: Seq<Event>,
    outs: Seq<(CallRecord, CallRecord)>,
)
    requires
        events.len() == outs.len(),
        v.metrics.callbacks_executed + dispatch_work(v.handlers, events, outs) <= u64::MAX,
        v.metrics.errors_handled + dispatch_work(v.handlers, events, outs) <= u64::MAX,
    ensures
        ({
            let m = v.metrics;
            let m1 = dispatch_all(v, events, outs, true).metrics;
            &&& m1.callbacks_executed + m1.errors_handled == m.callbacks_executed
                + m.errors_handled + dispatch_work(v.handlers, events, outs)
            &&& m.callbacks_executed <= m1.callbacks_executed
            &&& m.errors_handled <= m1.errors_handled
        }),
    decreases events.len(),
{
    if events.len() > 0 {
        let pre = events.drop_last();
        let ev = events.last();
        law_dispatch_accounting(v, pre, outs.drop_last());
        law_dispatch_frame(v, pre, outs.drop_last(), true);
        let p = dispatch_all(v, pre, outs.drop_last(), true);
        assert(p.handlers.contains_key(ev.fd) == v.handlers.contains_key(ev.fd));
    }
}

/// The calls that dispatching `events` with the handlers `h` makes, in
/// order, the calls coming to `outs`: for each event on an fd with a
/// handler, first its read callback if it is a read event and the handler
/// has one, then its write callback likewise.
pub open spec fn routed_log(
    h: Map<i32, HandlerView>,
    events: Seq<Event>,
    outs: Seq<(CallRecord, CallRecord)>,
) -> Seq<(bool, ReadyCall)>
    decreases events.len(),
{
    if events.len() == 0 {
        Seq::empty()
    } else {
        let ev = events.last();
        let o = outs.last();
        let r = routed_log(h, events.drop_last(), outs.drop_last());
        if !h.contains_key(ev.fd) {
            r
        } else {
            let r1 = if ev.filter.spec_contains(Filter::from_bits(1)) && h[ev.fd].has_read {
                r.push((true, ReadyCall { fd: ev.fd, event: ev, outcome: o.0.outcome }))
            } else {
                r
            };
            if ev.filter.spec_contains(Filter::from_bits(2)) && h[ev.fd].has_write {
                r1.push((false, ReadyCall { fd: ev.fd, event: ev, outcome: o.1.outcome }))
            } else {
                r1
            }
        }
    }
}

/// Dispatching calls the callbacks in event order, and for one event the
/// read callback before the write callback: the log of calls grows by
/// exactly `routed_log`.
pub proof fn law_dispatch_call_order(
    v: LoopView,
    events: Seq<Event>,
    outs: Seq<(CallRecord, CallRecord)>,
    enabled: bool,
)
    requires
        events.len() == outs.len(),
    ensures
        dispatch_all(v, events, outs, enabled).call_log == v.call_log + routed_log(
            v.handlers,
            events,
            outs,
        ),
    decreases events.len(),
{
    if events.len() > 0 {
        let pre = events.drop_last();
        let ev = events.last();
        let o = outs.last();
        law_dispatch_call_order(v, pre, outs.drop_last(), enabled);
        law_dispatch_frame(v, pre, outs.drop_last(), enabled);
        let p = dispatch_all(v, pre, outs.drop_last(), enabled);
        let r = routed_log(v.handlers, pre, outs.drop_last());
        assert(p.handlers.contains_key(ev.fd) == v.handlers.contains_key(ev.fd));
        let rc = (true, ReadyCall { fd: ev.fd, event: ev, outcome: o.0.outcome });
        let wc = (false, ReadyCall { fd: ev.fd, event: ev, outcome: o.1.outcome });
        assert(v.call_log + r.push(rc) =~= (v.call_log + r).push(rc));
        assert(v.call_log + r.push(wc) =~= (v.call_log + r).push(wc));
        assert(v.call_log + r.push(rc).push(wc) =~= (v.call_log + r).push(rc).push(wc));
    }
}

/// What every operation keeps holds across any run of operations.
pub proof fn law_evolves_transitive<F: ReadyCallback, E: ErrorCallback, T: TimerCallback>(
    a: EventLoop<F, E, T>,
    b: EventLoop<F, E, T>,
    c: EventLoop<F, E, T>,
)
    requires
        a.evolves_to(&b),
        b.evolves_to(&c),
    ensures
        a.evolves_to(&c),
{
    assert(c.fired_view().subrange(0, a.fired_view().len() as int) =~= b.fired_view().subrange(
        0,
        a.fired_view().len() as int,
    ));
    assert(c.call_log_view().subrange(0, a.call_log_view().len() as int)
        =~= b.call_log_view().subrange(0, a.call_log_view().len() as int));
}

/// Along a run of operations, each state evolves from every earlier one.
pub proof fn law_trace<F: ReadyCallback, E: ErrorCallback, T: TimerCallback>(
    states: Seq<EventLoop<F, E, T>>,
)
    requires
        forall|i: int| 0 <= i < states.len() - 1 ==> (#[trigger] states[i]).evolves_to(&states[i + 1]),
    ensures
        forall|i: int, j: int|
            #![trigger states[i], states[j]]
            0 <= i <= j < states.len() ==> states[i].evolves_to(&states[j]),
    decreases states.len(),
{
    if states.len() > 1 {
        let pre = states.drop_last();
        assert forall|i: int| 0 <= i < pre.len() - 1 implies (#[trigger] pre[i]).evolves_to(&pre[i + 1]) by {
            assert(pre[i] == states[i] && pre[i + 1] == states[i + 1]);
        }
        law_trace(pre);
        let n = states.len() - 1;
        assert forall|i: int, j: int|
            #![trigger states[i], states[j]]
            0 <= i <= j < states.len() implies states[i].evolves_to(&states[j]) by {
            if j < n {
                assert(pre[i] == states[i] && pre[j] == states[j]);
            } else if i == j {
                assert(states[i].fired_view().subrange(0, states[i].fired_view().len() as int) =~= states[i].fired_view());
                assert(states[i].call_log_view().subrange(0, states[i].call_log_view().len() as int) =~= states[i].call_log_view());
            } else {
                assert(pre[i] == states[i] && pre[n - 1] == states[n - 1]);
                if i < n - 1 {
                    assert(states[i].evolves_to(&states[n - 1]));
                    law_evolves_transitive(states[i], states[n - 1], states[n]);
                }
            }
        }
    }
}

/// With metrics disabled, the counters stay as they were over any run of
/// operations: those of a new loop stay zero.
pub proof fn law_metrics_off<F: ReadyCallback, E: ErrorCallback, T: TimerCallback>(
    states: Seq<EventLoop<F, E, T>>,
)
    requires
        states.len() > 0,
        !states[0].config_view().enable_metrics,
        forall|i: int| 0 <= i < states.len() - 1 ==> (#[trigger] states[i]).evolves_to(&states[i + 1]),
    ensures
        forall|i: int| 0 <= i < states.len() ==> (#[trigger] states[i]).metrics_view() == states[0].metrics_view(),
{
    law_trace(states);
    assert forall|i: int| 0 <= i < states.len() implies (#[trigger] states[i]).metrics_view() == states[0].metrics_view() by {
        assert(states[0].evolves_to(&states[i]));
    }
}

/// No counter goes back from one state to a later one, unless it wrapped:
/// when none of the later totals has gone past `u64::MAX`, each counter is
/// at least what it was.
pub proof fn law_counters_never_decrease<F: ReadyCallback, E: ErrorCallback, T: TimerCallback>(
    a: EventLoop<F, E, T>,
    b: EventLoop<F, E, T>,
)
    requires
        a.wf(),
        b.wf(),
        a.evolves_to(&b),
        b.totals_view().poll_count <= u64::MAX,
        b.totals_view().events_dispatched <= u64::MAX,
        b.totals_view().callbacks_executed <= u64::MAX,
        b.totals_view().errors_handled <= u64::MAX,
        b.totals_view().timers_fired <= u64::MAX,
    ensures
        a.metrics_view().poll_count <= b.metrics_view().poll_count,
        a.metrics_view().events_dispatched <= b.metrics_view().events_dispatched,
        a.metrics_view().callbacks_executed <= b.metrics_view().callbacks_executed,
        a.metrics_view().errors_handled <= b.metrics_view().errors_handled,
        a.metrics_view().timers_fired <= b.metrics_view().timers_fired,
{
    let (ta, tb) = (a.totals_view(), b.totals_view());
    let (ma, mb) = (a.metrics_view(), b.metrics_view());
    lemma_unwrapped(ta.poll_count, ma.poll_count);
    lemma_unwrapped(tb.poll_count, mb.poll_count);
    lemma_unwrapped(ta.events_dispatched, ma.events_dispatched);
    lemma_unwrapped(tb.events_dispatched, mb.events_dispatched);
    lemma_unwrapped(ta.callbacks_executed, ma.callbacks_executed);
    lemma_unwrapped(tb.callbacks_executed, mb.callbacks_executed);
    lemma_unwrapped(ta.errors_handled, ma.errors_handled);
    lemma_unwrapped(tb.errors_handled, mb.errors_handled);
    lemma_unwrapped(ta.timers_fired, ma.timers_fired);
    lemma_unwrapped(tb.timers_fired, mb.timers_fired);
}

/// Timer ids are never reused: an id handed out before a state (every id
/// handed out is the id counter at that time, which then grows by one) is
/// below the id counter of every later state, so it differs from every id
/// handed out from then on; and the timers of a loop carry distinct ids,
/// all handed out before.
pub proof fn law_timer_ids_never_reused<F: ReadyCallback, E: ErrorCallback, T: TimerCallback>(
    a: EventLoop<F, E, T>,
    b: EventLoop<F, E, T>,
    id: u64,
)
    requires
        a.wf(),
        b.wf(),
        a.evolves_to(&b),
        id < a.next_timer_id_view(),
    ensures
        id < b.next_timer_id_view(),
        forall|i: int|
            0 <= i < b.timers_view().len() ==> #[trigger] b.timers_view()[i].id
                < b.next_timer_id_view(),
        forall|i: int, j: int|
            0 <= i < b.timers_view().len() && 0 <= j < b.timers_view().len() && i != j
                ==> #[trigger] b.timers_view()[i].id != #[trigger] b.timers_view()[j].id,
{
}

/// What a call of a read or write callback hands to the fd's error handler:
/// its error if it failed, the loop's `CallbackPanic` if it panicked, and
/// nothing if it succeeded.
pub open spec fn handed_to_error_handler(fd: i32, r: CallRecord) -> Seq<(i32, EventLoopError)> {
    match r.outcome {
        CallbackOutcome::Completed => Seq::empty(),
        CallbackOutcome::Failed(e) => seq![(fd, e)],
        CallbackOutcome::Panicked => seq![(fd, r.panic_error)],
    }
}

/// On an fd with an error handler, dispatching an event leaves no report,
/// whichever callbacks run: every error and every panic of its read and of
/// its write callback goes to the error handler, in that order, and nothing
/// else does.
pub proof fn law_error_handler_takes_every_failure(
    v: LoopView,
    ev: Event,
    recs: (CallRecord, CallRecord),
    enabled: bool,
)
    requires
        v.handlers.contains_key(ev.fd),
        v.handlers[ev.fd].has_error,
    ensures
        ({
            let h = v.handlers[ev.fd];
            let v1 = dispatch_one(v, ev, recs, enabled);
            let from_read = if ev.filter.reads() && h.has_read {
                handed_to_error_handler(ev.fd, recs.0)
            } else {
                Seq::empty()
            };
            let from_write = if ev.filter.writes() && h.has_write {
                handed_to_error_handler(ev.fd, recs.1)
            } else {
                Seq::empty()
            };
            &&& v1.diagnostics == v.diagnostics
            &&& v1.handlers[ev.fd].error_calls == h.error_calls + from_read + from_write
        }),
{
    let fd = ev.fd;
    let h = v.handlers[fd];
    let x = ev.filter.bits();
    assert((x & 1 != 0) == (x & 1 == 1) && (x & 2 != 0) == (x & 2 == 2)) by (bit_vector);
    broadcast use Filter::lemma_bits_of_from_bits;
    let from_read = if ev.filter.reads() && h.has_read {
        handed_to_error_handler(fd, recs.0)
    } else {
        Seq::empty()
    };
    let from_write = if ev.filter.writes() && h.has_write {
        handed_to_error_handler(fd, recs.1)
    } else {
        Seq::empty()
    };
    assert(h.error_calls + from_read + Seq::empty() =~= h.error_calls + from_read);
    assert(h.error_calls + Seq::empty() =~= h.error_calls);
    assert(h.error_calls + Seq::<(i32, EventLoopError)>::empty() + from_write =~= h.error_calls + from_write);
}

/// The report a call of a read (`is_read`) or write callback on `fd` leaves
/// when the fd has no error handler: one for an error, naming the kind of
/// callback, and none for a success or a panic.
pub open spec fn reported_without_error_handler(fd: i32, is_read: bool, r: CallRecord) -> Seq<
    Diagnostic,
> {
    match r.outcome {
        CallbackOutcome::Failed(e) => seq![
            if is_read {
                Diagnostic::ReadCallbackFailed(fd, e)
            } else {
                Diagnostic::WriteCallbackFailed(fd, e)
            },
        ],
        _ => Seq::empty(),
    }
}

/// On an fd without an error handler, dispatching an event reports each
/// error of its read and of its write callback, in that order, naming the
/// kind of callback; panics and successes leave no report.
pub proof fn law_failures_without_error_handler(
    v: LoopView,
    ev: Event,
    recs: (CallRecord, CallRecord),
    enabled: bool,
)
    requires
        v.handlers.contains_key(ev.fd),
        !v.handlers[ev.fd].has_error,
    ensures
        ({
            let h = v.handlers[ev.fd];
            let v1 = dispatch_one(v, ev, recs, enabled);
            let from_read = if ev.filter.reads() && h.has_read {
                reported_without_error_handler(ev.fd, true, recs.0)
            } else {
                Seq::empty()
            };
            let from_write = if ev.filter.writes() && h.has_write {
                reported_without_error_handler(ev.fd, false, recs.1)
            } else {
                Seq::empty()
            };
            &&& v1.diagnostics == v.diagnostics + from_read + from_write
            &&& v1.handlers[ev.fd].error_calls == h.error_calls
        }),
{
    let fd = ev.fd;
    let h = v.handlers[fd];
    let x = ev.filter.bits();
    assert((x & 1 != 0) == (x & 1 == 1) && (x & 2 != 0) == (x & 2 == 2)) by (bit_vector);
    broadcast use Filter::lemma_bits_of_from_bits;
    let from_read = if ev.filter.reads() && h.has_read {
        reported_without_error_handler(fd, true, recs.0)
    } else {
        Seq::empty()
    };
    let from_write = if ev.filter.writes() && h.has_write {
        reported_without_error_handler(fd, false, recs.1)
    } else {
        Seq::empty()
    };
    assert(v.diagnostics + from_read + Seq::empty() =~= v.diagnostics + from_read);
    assert(v.diagnostics + Seq::empty() =~= v.diagnostics);
    assert(v.diagnostics + Seq::<Diagnostic>::empty() + from_write =~= v.diagnostics + from_write);
}

/// Deregistering keeps what it is not asked to drop: a callback of a kind
/// that `filter` does not name stays, with its call history, and keeps the
/// handler; a kind that `filter` names and that is registered loses its
/// callback; the interest left is the registered one without `filter`; and
/// when something was dropped, the handler stays exactly when a callback is
/// left. The kernel is assumed to accept.
pub proof fn law_deregister_keeps_other_kind(h: Map<i32, HandlerView>, fd: i32, filter: Filter)
    requires
        h.contains_key(fd),
    ensures
        ({
            let a = h[fd];
            let (h1, r) = deregister_model(h, fd, filter, Ok(()));
            &&& r is Ok
            &&& !filter.writes() && a.has_write ==> h1.contains_key(fd) && h1[fd].has_write
                && h1[fd].write_calls == a.write_calls
            &&& !filter.reads() && a.has_read ==> h1.contains_key(fd) && h1[fd].has_read
                && h1[fd].read_calls == a.read_calls
            &&& filter.reads() && a.filter.reads() ==> !(h1.contains_key(fd) && h1[fd].has_read)
            &&& filter.writes() && a.filter.writes() ==> !(h1.contains_key(fd) && h1[fd].has_write)
            &&& h1.contains_key(fd) ==> h1[fd].filter.reads() == (a.filter.reads() && !filter.reads())
                && h1[fd].filter.writes() == (a.filter.writes() && !filter.writes())
            &&& (filter.reads() && a.filter.reads()) || (filter.writes() && a.filter.writes())
                ==> (h1.contains_key(fd) <==> (a.has_read && !(filter.reads() && a.filter.reads()))
                || (a.has_write && !(filter.writes() && a.filter.writes())))
        }),
{
    broadcast use Filter::lemma_bits_of_from_bits;

    let x = filter.bits();
    let y = h[fd].filter.bits();
    assert(((x & y) & 1 != 0) == (x & 1 == 1 && y & 1 == 1)) by (bit_vector);
    assert(((x & y) & 2 != 0) == (x & 2 == 2 && y & 2 == 2)) by (bit_vector);
    assert((x & y) == 0 ==> !(x & 1 == 1 && y & 1 == 1) && !(x & 2 == 2 && y & 2 == 2)) by (bit_vector);
    let rm = deregistration_request(h, fd, filter);
    assert(rm.bits() == x & y);
    assert(((y & !(x & y)) & 1 == 1) == (y & 1 == 1 && !(x & 1 == 1))) by (bit_vector);
    assert(((y & !(x & y)) & 2 == 2) == (y & 2 == 2 && !(x & 2 == 2))) by (bit_vector);
    assert((x & y) == 0 ==> ((y & 1 == 1) == (y & 1 == 1 && !(x & 1 == 1))) && ((y & 2 == 2) == (y & 2 == 2 && !(x & 2 == 2)))) by (bit_vector);
}

/// The interest a filter change adds is exactly what the new filter has and
/// the registered one lacks, and the interest it drops exactly what the
/// registered one has and the new filter lacks; both hold only read and
/// write bits, and without a handler neither asks anything.
pub proof fn law_filter_change_requests(h: Map<i32, HandlerView>, fd: i32, filter: Filter)
    ensures
        ({
            let add = filter_additions(h, fd, filter);
            let rm = filter_removals(h, fd, filter);
            &&& add.wf() && rm.wf()
            &&& h.contains_key(fd) ==> {
                &&& add.reads() == (filter.reads() && !h[fd].filter.reads())
                &&& add.writes() == (filter.writes() && !h[fd].filter.writes())
                &&& rm.reads() == (h[fd].filter.reads() && !filter.reads())
                &&& rm.writes() == (h[fd].filter.writes() && !filter.writes())
            }
            &&& !h.contains_key(fd) ==> add.spec_is_empty() && rm.spec_is_empty()
        }),
{
    broadcast use Filter::lemma_bits_of_from_bits;

    let x = filter.bits();
    if h.contains_key(fd) {
        let y = h[fd].filter.bits();
        assert((x & (!y & 3)) <= 3 && (y & (!x & 3)) <= 3) by (bit_vector);
        assert(((x & (!y & 3)) & 1 == 1) == (x & 1 == 1 && !(y & 1 == 1))) by (bit_vector);
        assert(((x & (!y & 3)) & 2 == 2) == (x & 2 == 2 && !(y & 2 == 2))) by (bit_vector);
        assert(((y & (!x & 3)) & 1 == 1) == (y & 1 == 1 && !(x & 1 == 1))) by (bit_vector);
        assert(((y & (!x & 3)) & 2 == 2) == (y & 2 == 2 && !(x & 2 == 2))) by (bit_vector);
    }
}

} // verus!
