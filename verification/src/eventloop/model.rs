//! Mathematical models of the loop's state and of what each operation does
//! to it. The executable operations in `eventloop.rs` are proved to follow
//! these definitions.
use vstd::prelude::*;

use crate::eventloop::config::EventLoopMetrics;
use crate::eventloop::callback::ReadyCall;
use crate::eventloop::error::{CallbackOutcome, Diagnostic, EventLoopError};
use crate::sys::kqueue::KqueueError;
use crate::sys::{Event, Filter};

verus! {

/// The largest number of nanoseconds that a `std::time::Duration` holds
/// (`u64::MAX` seconds and 999 999 999 nanoseconds). Instants and delays are
/// nanosecond counts no larger than this.
pub const MAX_DURATION_NANOS: u128 = 18_446_744_073_709_551_615_999_999_999;

/// What the loop knows of a timer: its id, its deadline (in nanoseconds
/// since the loop's origin), for an interval timer its period, and what the
/// calls of its callback came to so far.
pub struct TimerView {
    pub id: u64,
    pub deadline: u128,
    pub interval: Option<u128>,
    pub calls: Seq<CallbackOutcome>,
}

pub open spec fn is_due(t: TimerView, now: u128) -> bool {
    t.deadline <= now
}

/// A timer after its callback was called at `now` and came to `out`: an
/// interval timer is due again its period after `now`.
pub open spec fn fired(t: TimerView, now: u128, out: CallbackOutcome) -> TimerView {
    TimerView {
        deadline: match t.interval {
            Some(iv) => (now + iv) as u128,
            None => t.deadline,
        },
        calls: t.calls.push(out),
        ..t
    }
}

/// `c` is `o` after one call of its callback at `now`.
pub open spec fn fired_from(o: TimerView, c: TimerView, now: u128) -> bool {
    c == fired(o, now, c.calls.last())
}

/// `c` is a timer of `s` that was due at `now`, right after its call.
pub open spec fn fired_due(s: Seq<TimerView>, c: TimerView, now: u128) -> bool {
    exists|o: TimerView|
        #![trigger s.contains(o)]
        s.contains(o) && is_due(o, now) && fired_from(o, c, now)
}

/// `c` is a timer of `s` that was due at `now` and is no longer pending,
/// right after its call.
pub open spec fn fired_settled(s: Seq<TimerView>, pending: Set<u64>, c: TimerView, now: u128) -> bool {
    exists|o: TimerView|
        #![trigger s.contains(o)]
        s.contains(o) && is_due(o, now) && !pending.contains(o.id) && fired_from(o, c, now)
}

/// What the calls recorded in `calls` came to, in order.
pub open spec fn outcomes(calls: Seq<TimerView>) -> Seq<CallbackOutcome> {
    calls.map_values(|c: TimerView| c.calls.last())
}

pub open spec fn ids_unique(s: Seq<TimerView>) -> bool {
    forall|i: int, j: int|
        #![trigger s[i], s[j]]
        0 <= i < s.len() && 0 <= j < s.len() && i != j ==> s[i].id != s[j].id
}

/// The timer list's invariant: distinct ids, all drawn before `next_id`,
/// and interval periods positive and within a `Duration`.
pub open spec fn timers_wf(s: Seq<TimerView>, next_id: u64) -> bool {
    &&& ids_unique(s)
    &&& forall|i: int| 0 <= i < s.len() ==> #[trigger] s[i].id < next_id
    &&& forall|i: int|
        0 <= i < s.len() ==> ((#[trigger] s[i]).interval matches Some(iv) ==> 0 < iv
            <= MAX_DURATION_NANOS)
}

/// Some timer of `s` has id `p`.
pub open spec fn has_id(s: Seq<TimerView>, p: u64) -> bool {
    exists|i: int| 0 <= i < s.len() && (#[trigger] s[i]).id == p
}

/// How many of the timers are due at `now`.
pub open spec fn count_due(s: Seq<TimerView>, now: u128) -> nat
    decreases s.len(),
{
    if s.len() == 0 {
        0
    } else {
        count_due(s.drop_last(), now) + if is_due(s.last(), now) {
            1nat
        } else {
            0nat
        }
    }
}

/// The ids of the timers that are due at `now`.
pub open spec fn due_ids(s: Seq<TimerView>, now: u128) -> Set<u64>
    decreases s.len(),
{
    if s.len() == 0 {
        Set::empty()
    } else {
        let r = due_ids(s.drop_last(), now);
        if is_due(s.last(), now) {
            r.insert(s.last().id)
        } else {
            r
        }
    }
}

/// Processing the timers `old` at `now` gave `new`, firing `calls` (each
/// fired timer right after its call, in firing order): every due timer was
/// fired exactly once and no other; timers not due stay as they were, fired
/// interval timers come back due again, fired single-shot timers are gone,
/// and nothing else appears.
pub open spec fn timers_processed(
    old: Seq<TimerView>,
    new: Seq<TimerView>,
    calls: Seq<TimerView>,
    now: u128,
) -> bool {
    &&& calls.len() == count_due(old, now)
    &&& ids_unique(calls)
    &&& forall|k: int| 0 <= k < calls.len() ==> fired_due(old, #[trigger] calls[k], now)
    &&& forall|o: TimerView|
        #[trigger] old.contains(o) && is_due(o, now) ==> exists|k: int|
            0 <= k < calls.len() && fired_from(o, #[trigger] calls[k], now)
    &&& forall|t: TimerView|
        #[trigger] new.contains(t) <==> ((old.contains(t) && !is_due(t, now)) || exists|k: int|
            0 <= k < calls.len() && (#[trigger] calls[k]).interval is Some && t == calls[k])
}

pub open spec fn bump(x: u64) -> u64 {
    vstd::wrapping::u64_specs::wrapping_add(x, 1)
}

/// Counters and reports after one timer callback came to `out`: a success
/// counts as `timers_fired`; an error or a panic counts as `errors_handled`
/// and is reported.
pub open spec fn after_timer_outcome(
    m: EventLoopMetrics,
    d: Seq<Diagnostic>,
    out: CallbackOutcome,
    enabled: bool,
) -> (EventLoopMetrics, Seq<Diagnostic>) {
    let failed = if enabled {
        EventLoopMetrics { errors_handled: bump(m.errors_handled), ..m }
    } else {
        m
    };
    match out {
        CallbackOutcome::Completed => (
            if enabled {
                EventLoopMetrics { timers_fired: bump(m.timers_fired), ..m }
            } else {
                m
            },
            d,
        ),
        CallbackOutcome::Failed(e) => (failed, d.push(Diagnostic::TimerCallbackFailed(e))),
        CallbackOutcome::Panicked => (failed, d.push(Diagnostic::TimerCallbackPanicked)),
    }
}

/// Counters and reports after timer callbacks came to `outs`, in order.
pub open spec fn after_timer_outcomes(
    m: EventLoopMetrics,
    d: Seq<Diagnostic>,
    outs: Seq<CallbackOutcome>,
    enabled: bool,
) -> (EventLoopMetrics, Seq<Diagnostic>)
    decreases outs.len(),
{
    if outs.len() == 0 {
        (m, d)
    } else {
        let (m1, d1) = after_timer_outcomes(m, d, outs.drop_last(), enabled);
        after_timer_outcome(m1, d1, outs.last(), enabled)
    }
}

/// Time left until `t` is due, zero if it already is
/// (`Instant::saturating_duration_since`).
pub open spec fn remaining(t: TimerView, now: u128) -> u128 {
    if t.deadline > now {
        (t.deadline - now) as u128
    } else {
        0
    }
}

/// The least time left over all timers, `None` when there are none.
pub open spec fn min_remaining(s: Seq<TimerView>, now: u128) -> Option<u128>
    decreases s.len(),
{
    if s.len() == 0 {
        None
    } else {
        let r = remaining(s.last(), now);
        match min_remaining(s.drop_last(), now) {
            None => Some(r),
            Some(m) => Some(
                if m <= r {
                    m
                } else {
                    r
                },
            ),
        }
    }
}

/// `Duration::from_millis(ms as u64)`, in nanoseconds.
pub open spec fn millis_to_nanos(ms: i32) -> u128 {
    ((ms as u64) as u128 * 1_000_000u128) as u128
}

/// The timeout of a poll: the configured one, cut short by the next timer
/// deadline; no timeout when neither is there.
pub open spec fn poll_timeout(configured_ms: Option<i32>, next_deadline: Option<u128>) -> Option<
    u128,
> {
    match (configured_ms, next_deadline) {
        (Some(ms), Some(td)) => Some(
            if td <= millis_to_nanos(ms) {
                td
            } else {
                millis_to_nanos(ms)
            },
        ),
        (Some(ms), None) => Some(millis_to_nanos(ms)),
        (None, Some(td)) => Some(td),
        (None, None) => None,
    }
}

/// The timers after the one with id `id` is cancelled: the others, in
/// their order.
pub open spec fn without_id(s: Seq<TimerView>, id: u64) -> Seq<TimerView>
    decreases s.len(),
{
    if s.len() == 0 {
        Seq::empty()
    } else {
        let r = without_id(s.drop_last(), id);
        if s.last().id != id {
            r.push(s.last())
        } else {
            r
        }
    }
}

pub proof fn lemma_ids_unique_drop_last(s: Seq<TimerView>)
    requires
        ids_unique(s),
        s.len() > 0,
    ensures
        ids_unique(s.drop_last()),
        forall|k: int| 0 <= k < s.len() - 1 ==> #[trigger] s[k].id != s.last().id,
{
    assert forall|k: int| 0 <= k < s.len() - 1 implies #[trigger] s[k].id != s.last().id by {
        assert(s[k] == s[k]);
        assert(s[s.len() - 1] == s.last());
    }
    let r = s.drop_last();
    assert forall|i: int, j: int|
        0 <= i < r.len() && 0 <= j < r.len() && i != j implies r[i].id != r[j].id by {
        assert(r[i] == s[i] && r[j] == s[j]);
    }
}

/// The due ids are finite, as many as the due timers, and are the ids of
/// the due timers.
pub proof fn lemma_due_ids(s: Seq<TimerView>, now: u128)
    requires
        ids_unique(s),
    ensures
        due_ids(s, now).finite(),
        due_ids(s, now).len() == count_due(s, now),
        forall|p: u64|
            #[trigger] due_ids(s, now).contains(p) <==> exists|o: TimerView|
                #![trigger s.contains(o)]
                s.contains(o) && is_due(o, now) && o.id == p,
    decreases s.len(),
{
    if s.len() > 0 {
        let r = s.drop_last();
        lemma_ids_unique_drop_last(s);
        lemma_due_ids(r, now);
        assert forall|o: TimerView| #[trigger] s.contains(o) <==> (r.contains(o) || o == s.last()) by {
            if s.contains(o) {
                let k = choose|k: int| 0 <= k < s.len() && s[k] == o;
                if k < s.len() - 1 {
                    assert(r[k] == o);
                }
            }
            if r.contains(o) {
                let k = choose|k: int| 0 <= k < r.len() && r[k] == o;
                assert(s[k] == o);
            }
            if o == s.last() {
                assert(s[s.len() - 1] == o);
            }
        }
        assert forall|p: u64|
            #[trigger] due_ids(s, now).contains(p) <==> exists|o: TimerView|
                #![trigger s.contains(o)]
                s.contains(o) && is_due(o, now) && o.id == p by {
            if due_ids(s, now).contains(p) {
                if due_ids(r, now).contains(p) {
                    let o = choose|o: TimerView| r.contains(o) && is_due(o, now) && o.id == p;
                    assert(s.contains(o));
                } else {
                    assert(s.contains(s.last()));
                }
            }
            if exists|o: TimerView| #![trigger s.contains(o)] s.contains(o) && is_due(o, now) && o.id == p {
                let o = choose|o: TimerView| s.contains(o) && is_due(o, now) && o.id == p;
                if r.contains(o) {
                    assert(due_ids(r, now).contains(p));
                }
            }
        }
        if is_due(s.last(), now) {
            if due_ids(r, now).contains(s.last().id) {
                let o = choose|o: TimerView| r.contains(o) && is_due(o, now) && o.id == s.last().id;
                let k = choose|k: int| 0 <= k < r.len() && r[k] == o;
                assert(s[k] == o);
            }
        }
    }
}

pub proof fn lemma_min_remaining(s: Seq<TimerView>, now: u128)
    ensures
        min_remaining(s, now) is None <==> s.len() == 0,
        min_remaining(s, now) matches Some(m) ==> (forall|i: int|
            0 <= i < s.len() ==> m <= remaining(#[trigger] s[i], now)) && exists|i: int|
            0 <= i < s.len() && m == remaining(#[trigger] s[i], now),
    decreases s.len(),
{
    if s.len() > 0 {
        let r = s.drop_last();
        lemma_min_remaining(r, now);
        let last = s.len() - 1;
        assert(s[last] == s.last());
        assert forall|i: int| 0 <= i < r.len() implies r[i] == #[trigger] s[i] by {}
        match min_remaining(r, now) {
            None => {},
            Some(m) => {
                let i = choose|i: int| 0 <= i < r.len() && m == remaining(#[trigger] r[i], now);
                assert(r[i] == s[i]);
            },
        }
    }
}


/// Two timers of a list with distinct ids that share an id are the same.
pub proof fn lemma_unique_contains(s: Seq<TimerView>, x: TimerView, y: TimerView)
    requires
        ids_unique(s),
        s.contains(x),
        s.contains(y),
        x.id == y.id,
    ensures
        x == y,
{
    let i = choose|i: int| 0 <= i < s.len() && s[i] == x;
    let j = choose|j: int| 0 <= j < s.len() && s[j] == y;
    if i != j {
        assert(s[i].id != s[j].id);
    }
}

/// What `Vec::swap_remove` leaves of a list with distinct ids.
pub proof fn lemma_swap_remove(s: Seq<TimerView>, i: int)
    requires
        ids_unique(s),
        0 <= i < s.len(),
    ensures
        ({
            let r = s.update(i, s.last()).drop_last();
            &&& r.len() == s.len() - 1
            &&& ids_unique(r)
            &&& forall|j: int| 0 <= j < i ==> r[j] == #[trigger] s[j]
            &&& forall|x: TimerView| #[trigger] r.contains(x) <==> (s.contains(x) && x != s[i])
        }),
{
    let r = s.update(i, s.last()).drop_last();
    let n = s.len();
    assert forall|j: int| 0 <= j < r.len() implies (#[trigger] r[j] == s[j] || (j == i && r[j]
        == s[n - 1])) by {}
    assert forall|a: int, b: int|
        0 <= a < r.len() && 0 <= b < r.len() && a != b implies #[trigger] r[a].id
        != #[trigger] r[b].id by {
        if a == i {
            assert(r[a] == s[n - 1]);
            assert(s[b].id != s[n - 1].id);
        } else if b == i {
            assert(r[b] == s[n - 1]);
            assert(s[a].id != s[n - 1].id);
        } else {
            assert(s[a].id != s[b].id);
        }
    }
    assert forall|x: TimerView| #[trigger] r.contains(x) <==> (s.contains(x) && x != s[i]) by {
        if r.contains(x) {
            let j = choose|j: int| 0 <= j < r.len() && r[j] == x;
            if j == i {
                assert(x == s[n - 1]);
                assert(s[n - 1].id != s[i].id);
            } else {
                assert(x == s[j]);
                assert(s[j].id != s[i].id);
            }
        }
        if s.contains(x) && x != s[i] {
            let j = choose|j: int| 0 <= j < s.len() && s[j] == x;
            if j == n - 1 {
                assert(r[i] == x);
            } else {
                assert(r[j] == x);
            }
        }
    }
}

/// The invariant of the timer-processing loop at index `i`: `pending`
/// holds the ids of the due timers not yet fired and `calls` the timers
/// fired so far; the list holds the timers that were not due, the due ones
/// not yet fired, and the fired interval timers; and nothing before `i` is
/// due.
pub closed spec fn process_inv(
    s0: Seq<TimerView>,
    cur: Seq<TimerView>,
    pending: Set<u64>,
    calls: Seq<TimerView>,
    now: u128,
    i: int,
) -> bool {
    &&& 0 <= i <= cur.len()
    &&& pending.finite()
    &&& ids_unique(calls)
    &&& forall|j: int| 0 <= j < i ==> !is_due(#[trigger] cur[j], now)
    &&& forall|t: TimerView|
        #[trigger] cur.contains(t) ==> (s0.contains(t) && !is_due(t, now)) || (s0.contains(t)
            && is_due(t, now) && pending.contains(t.id)) || exists|k: int|
            0 <= k < calls.len() && (#[trigger] calls[k]).interval is Some && t == calls[k]
    &&& forall|o: TimerView| #[trigger] s0.contains(o) && !is_due(o, now) ==> cur.contains(o)
    &&& forall|o: TimerView|
        #[trigger] s0.contains(o) && is_due(o, now) && pending.contains(o.id) ==> cur.contains(o)
    &&& forall|k: int|
        0 <= k < calls.len() && (#[trigger] calls[k]).interval is Some ==> cur.contains(calls[k])
    &&& forall|p: u64| #[trigger] pending.contains(p) ==> due_ids(s0, now).contains(p)
    &&& forall|k: int| 0 <= k < calls.len() ==> fired_settled(s0, pending, #[trigger] calls[k], now)
    &&& forall|o: TimerView|
        #[trigger] s0.contains(o) && is_due(o, now) && !pending.contains(o.id) ==> exists|k: int|
            0 <= k < calls.len() && fired_from(o, #[trigger] calls[k], now)
}

pub proof fn lemma_wf_contains(s: Seq<TimerView>, next_id: u64, t: TimerView)
    requires
        timers_wf(s, next_id),
        s.contains(t),
    ensures
        t.id < next_id,
        t.interval matches Some(iv) ==> 0 < iv <= MAX_DURATION_NANOS,
{
    let k = choose|k: int| 0 <= k < s.len() && s[k] == t;
    assert(s[k].id < next_id);
}

/// The loop's invariant holds when it starts.
pub proof fn lemma_process_start(s0: Seq<TimerView>, next_id: u64, now: u128)
    requires
        timers_wf(s0, next_id),
    ensures
        process_inv(s0, s0, due_ids(s0, now), Seq::empty(), now, 0),
        due_ids(s0, now).len() == count_due(s0, now),
{
    lemma_due_ids(s0, now);
}

/// Skipping a timer that is not due keeps the invariant.
pub proof fn lemma_process_skip(
    s0: Seq<TimerView>,
    cur: Seq<TimerView>,
    pending: Set<u64>,
    calls: Seq<TimerView>,
    now: u128,
    i: int,
)
    requires
        process_inv(s0, cur, pending, calls, now, i),
        i < cur.len(),
        !is_due(cur[i], now),
    ensures
        process_inv(s0, cur, pending, calls, now, i + 1),
{
    assert forall|j: int| 0 <= j < i + 1 implies !is_due(#[trigger] cur[j], now) by {
        if j < i {
        }
    }
}

/// A fired interval timer is not due again at `now`.
pub proof fn lemma_fired_not_due(s0: Seq<TimerView>, next_id: u64, o: TimerView, c: TimerView, now: u128)
    requires
        timers_wf(s0, next_id),
        s0.contains(o),
        fired_from(o, c, now),
        c.interval is Some,
        now <= MAX_DURATION_NANOS,
    ensures
        !is_due(c, now),
{
    lemma_wf_contains(s0, next_id, o);
}

/// Firing the due timer at `i` (taking it out by `swap_remove`, calling its
/// callback, which comes to `out`, and pushing it back if it is an interval
/// timer) keeps the invariant with its id no longer pending.
pub proof fn lemma_process_fire(
    s0: Seq<TimerView>,
    next_id: u64,
    cur: Seq<TimerView>,
    pending: Set<u64>,
    calls: Seq<TimerView>,
    now: u128,
    i: int,
    out: CallbackOutcome,
)
    requires
        timers_wf(s0, next_id),
        timers_wf(cur, next_id),
        now <= MAX_DURATION_NANOS,
        process_inv(s0, cur, pending, calls, now, i),
        i < cur.len(),
        is_due(cur[i], now),
    ensures
        ({
            let x = cur[i];
            let c = fired(x, now, out);
            let r = cur.update(i, cur.last()).drop_last();
            let cur2 = if x.interval is Some {
                r.push(c)
            } else {
                r
            };
            &&& pending.contains(x.id)
            &&& pending.remove(x.id).len() == pending.len() - 1
            &&& r.len() == cur.len() - 1
            &&& timers_wf(cur2, next_id)
            &&& process_inv(s0, cur2, pending.remove(x.id), calls.push(c), now, i)
        }),
{
    let x = cur[i];
    let c = fired(x, now, out);
    assert(c.calls.last() == out);
    assert(fired_from(x, c, now));
    assert(cur.contains(x));
    lemma_wf_contains(cur, next_id, x);
    if exists|k: int| 0 <= k < calls.len() && (#[trigger] calls[k]).interval is Some && x == calls[k] {
        let k = choose|k: int| 0 <= k < calls.len() && (#[trigger] calls[k]).interval is Some && x == calls[k];
        let o = choose|o: TimerView|
            s0.contains(o) && is_due(o, now) && !pending.contains(o.id) && fired_from(o, calls[k], now);
        lemma_fired_not_due(s0, next_id, o, calls[k], now);
        assert(false);
    }
    assert(s0.contains(x) && pending.contains(x.id));
    let p2 = pending.remove(x.id);
    let calls2 = calls.push(c);
    lemma_swap_remove(cur, i);
    let r = cur.update(i, cur.last()).drop_last();
    let cur2 = if x.interval is Some {
        r.push(c)
    } else {
        r
    };
    assert forall|k: int| 0 <= k < calls.len() implies #[trigger] calls[k].id != x.id by {
        let o = choose|o: TimerView|
            s0.contains(o) && is_due(o, now) && !pending.contains(o.id) && fired_from(o, calls[k], now);
    }
    assert forall|a: int, b: int|
        0 <= a < calls2.len() && 0 <= b < calls2.len() && a != b implies #[trigger] calls2[a].id
        != #[trigger] calls2[b].id by {
        if a < calls.len() && b < calls.len() {
            assert(calls2[a] == calls[a] && calls2[b] == calls[b]);
        } else if a < calls.len() {
            assert(calls2[a] == calls[a]);
        } else {
            assert(calls2[b] == calls[b]);
        }
    }
    assert forall|t: TimerView| #[trigger] cur2.contains(t) <==> (r.contains(t) || (x.interval is Some && t == c)) by {
        if x.interval is Some {
            if cur2.contains(t) {
                let k = choose|k: int| 0 <= k < cur2.len() && cur2[k] == t;
                if k < r.len() {
                    assert(r[k] == t);
                }
            }
            if r.contains(t) {
                let k = choose|k: int| 0 <= k < r.len() && r[k] == t;
                assert(cur2[k] == t);
            }
            if t == c {
                assert(cur2[r.len() as int] == c);
            }
        }
    }
    // Entries of r keep ids different from x's.
    assert forall|t: TimerView| #[trigger] r.contains(t) implies t.id != x.id by {
        if t.id == x.id {
            lemma_unique_contains(cur, t, x);
        }
    }
    // The invariant of the list.
    assert forall|a: int, b: int|
        0 <= a < cur2.len() && 0 <= b < cur2.len() && a != b implies #[trigger] cur2[a].id
        != #[trigger] cur2[b].id by {
        if a < r.len() && b < r.len() {
            assert(cur2[a] == r[a] && cur2[b] == r[b]);
        } else if a < r.len() {
            assert(cur2[a] == r[a]);
            assert(r.contains(r[a]));
        } else {
            assert(cur2[b] == r[b]);
            assert(r.contains(r[b]));
        }
    }
    assert forall|a: int| 0 <= a < cur2.len() implies #[trigger] cur2[a].id < next_id && (
    cur2[a].interval matches Some(iv) ==> 0 < iv <= MAX_DURATION_NANOS) by {
        assert(cur2.contains(cur2[a]));
        if r.contains(cur2[a]) {
            lemma_wf_contains(cur, next_id, cur2[a]);
        }
    }
    // The loop invariant.
    assert forall|j: int| 0 <= j < i implies !is_due(#[trigger] cur2[j], now) by {
        assert(cur2[j] == r[j]);
        assert(r[j] == cur[j]);
    }
    assert forall|t: TimerView| #[trigger] cur2.contains(t) implies (s0.contains(t) && !is_due(t, now))
        || (s0.contains(t) && is_due(t, now) && p2.contains(t.id)) || exists|k: int|
        0 <= k < calls2.len() && (#[trigger] calls2[k]).interval is Some && t == calls2[k] by {
        if r.contains(t) {
            assert(cur.contains(t));
            if exists|k: int| 0 <= k < calls.len() && (#[trigger] calls[k]).interval is Some && t == calls[k] {
                let k = choose|k: int| 0 <= k < calls.len() && (#[trigger] calls[k]).interval is Some && t == calls[k];
                assert(calls2[k] == calls[k]);
            }
        } else {
            assert(t == c);
            assert(calls2[calls.len() as int] == c);
        }
    }
    assert forall|o: TimerView| #[trigger] s0.contains(o) && !is_due(o, now) implies cur2.contains(o) by {
        assert(cur.contains(o));
        assert(r.contains(o));
    }
    assert forall|o: TimerView| #[trigger] s0.contains(o) && is_due(o, now) && p2.contains(o.id) implies cur2.contains(o) by {
        assert(cur.contains(o));
        assert(r.contains(o));
    }
    assert forall|k: int| 0 <= k < calls2.len() && (#[trigger] calls2[k]).interval is Some implies cur2.contains(calls2[k]) by {
        if k < calls.len() {
            assert(calls2[k] == calls[k]);
            assert(cur.contains(calls[k]));
            assert(calls[k].id != x.id);
            assert(r.contains(calls[k]));
        }
    }
    assert forall|k: int| 0 <= k < calls2.len() implies fired_settled(s0, p2, #[trigger] calls2[k], now) by {
        if k < calls.len() {
            assert(calls2[k] == calls[k]);
            let o = choose|o: TimerView|
                s0.contains(o) && is_due(o, now) && !pending.contains(o.id) && fired_from(o, calls[k], now);
            assert(s0.contains(o) && !p2.contains(o.id));
        } else {
            assert(calls2[k] == c);
            assert(s0.contains(x) && !p2.contains(x.id));
        }
    }
    assert forall|o: TimerView| #[trigger] s0.contains(o) && is_due(o, now) && !p2.contains(o.id) implies exists|k: int|
        0 <= k < calls2.len() && fired_from(o, #[trigger] calls2[k], now) by {
        if o.id == x.id {
            lemma_unique_contains(s0, o, x);
            assert(calls2[calls.len() as int] == c);
        } else {
            let k = choose|k: int| 0 <= k < calls.len() && fired_from(o, #[trigger] calls[k], now);
            assert(calls2[k] == calls[k]);
        }
    }
}

/// When the loop ends no due timer is left pending, and the list and the
/// fired timers are what `timers_processed` describes.
pub proof fn lemma_process_done(
    s0: Seq<TimerView>,
    cur: Seq<TimerView>,
    pending: Set<u64>,
    calls: Seq<TimerView>,
    now: u128,
)
    requires
        ids_unique(s0),
        process_inv(s0, cur, pending, calls, now, cur.len() as int),
        calls.len() + pending.len() == count_due(s0, now),
    ensures
        pending.len() == 0,
        timers_processed(s0, cur, calls, now),
{
    lemma_due_ids(s0, now);
    assert forall|p: u64| !pending.contains(p) by {
        if pending.contains(p) {
            assert(due_ids(s0, now).contains(p));
            let o = choose|o: TimerView| s0.contains(o) && is_due(o, now) && o.id == p;
            assert(cur.contains(o));
            let k = choose|k: int| 0 <= k < cur.len() && cur[k] == o;
            assert(!is_due(cur[k], now));
        }
    }
    assert(pending =~= Set::<u64>::empty());
    assert forall|k: int| 0 <= k < calls.len() implies fired_due(s0, #[trigger] calls[k], now) by {
        let o = choose|o: TimerView|
            s0.contains(o) && is_due(o, now) && !pending.contains(o.id) && fired_from(o, calls[k], now);
    }
    assert forall|t: TimerView| #[trigger] cur.contains(t) <==> ((s0.contains(t) && !is_due(t, now))
        || exists|k: int| 0 <= k < calls.len() && (#[trigger] calls[k]).interval is Some && t == calls[k]) by {
    }
}


/// Cancelling keeps exactly the timers of another id, and the list's
/// invariant.
pub proof fn lemma_without_id(s: Seq<TimerView>, next_id: u64, id: u64)
    requires
        timers_wf(s, next_id),
    ensures
        timers_wf(without_id(s, id), next_id),
        forall|t: TimerView| #[trigger] without_id(s, id).contains(t) <==> (s.contains(t) && t.id != id),
    decreases s.len(),
{
    if s.len() > 0 {
        let r = s.drop_last();
        lemma_ids_unique_drop_last(s);
        assert forall|i: int| 0 <= i < r.len() implies #[trigger] r[i] == s[i] by {}
        lemma_without_id(r, next_id, id);
        let w = without_id(s, id);
        let wr = without_id(r, id);
        assert(s[s.len() - 1] == s.last());
        assert forall|t: TimerView| #[trigger] s.contains(t) <==> (r.contains(t) || t == s.last()) by {
            if s.contains(t) {
                let k = choose|k: int| 0 <= k < s.len() && s[k] == t;
                if k < r.len() {
                    assert(r[k] == t);
                }
            }
            if r.contains(t) {
                let k = choose|k: int| 0 <= k < r.len() && r[k] == t;
                assert(s[k] == t);
            }
        }
        if s.last().id != id {
            assert forall|t: TimerView| #[trigger] w.contains(t) <==> (wr.contains(t) || t == s.last()) by {
                if w.contains(t) {
                    let k = choose|k: int| 0 <= k < w.len() && w[k] == t;
                    if k < wr.len() {
                        assert(wr[k] == t);
                    }
                }
                if wr.contains(t) {
                    let k = choose|k: int| 0 <= k < wr.len() && wr[k] == t;
                    assert(w[k] == t);
                }
                if t == s.last() {
                    assert(w[wr.len() as int] == t);
                }
            }
            assert forall|a: int, b: int|
                0 <= a < w.len() && 0 <= b < w.len() && a != b implies #[trigger] w[a].id
                != #[trigger] w[b].id by {
                if a < wr.len() && b < wr.len() {
                    assert(w[a] == wr[a] && w[b] == wr[b]);
                } else if a < wr.len() {
                    assert(w[a] == wr[a]);
                    assert(wr.contains(wr[a]));
                    let k = choose|k: int| 0 <= k < r.len() && r[k] == wr[a];
                    assert(s[k] == r[k]);
                } else {
                    assert(w[b] == wr[b]);
                    assert(wr.contains(wr[b]));
                    let k = choose|k: int| 0 <= k < r.len() && r[k] == wr[b];
                    assert(s[k] == r[k]);
                }
            }
            assert forall|a: int| 0 <= a < w.len() implies #[trigger] w[a].id < next_id && (
            w[a].interval matches Some(iv) ==> 0 < iv <= MAX_DURATION_NANOS) by {
                assert(w.contains(w[a]));
                lemma_wf_contains(s, next_id, w[a]);
            }
        }
    }
}


/// What the loop knows of an fd handler: its fd, its registered interest,
/// which callbacks it has and the calls each of them received, and how many
/// events reached it.
pub struct HandlerView {
    pub fd: i32,
    pub filter: Filter,
    pub has_read: bool,
    pub has_write: bool,
    pub has_error: bool,
    pub read_calls: Seq<ReadyCall>,
    pub write_calls: Seq<ReadyCall>,
    pub error_calls: Seq<(i32, EventLoopError)>,
    pub events_processed: u64,
}

/// A handler with no interest and no callbacks.
pub open spec fn new_handler(fd: i32) -> HandlerView {
    HandlerView {
        fd,
        filter: Filter::from_bits(0),
        has_read: false,
        has_write: false,
        has_error: false,
        read_calls: Seq::empty(),
        write_calls: Seq::empty(),
        error_calls: Seq::empty(),
        events_processed: 0,
    }
}

/// Each handler is stored under its own fd, with an interest made of the
/// read and write bits only.
pub open spec fn handlers_wf(h: Map<i32, HandlerView>) -> bool {
    forall|fd: i32| #[trigger] h.contains_key(fd) ==> h[fd].fd == fd && h[fd].filter.wf()
}

/// Attaching an error handler, given by its call history, to `fd`: it takes
/// the place of the old one; without a handler for `fd` nothing changes and
/// the answer is `HandlerNotFound`.
pub open spec fn set_error_handler_model(
    h: Map<i32, HandlerView>,
    fd: i32,
    calls: Seq<(i32, EventLoopError)>,
) -> (Map<i32, HandlerView>, Result<(), EventLoopError>) {
    if h.contains_key(fd) {
        (h.insert(fd, HandlerView { has_error: true, error_calls: calls, ..h[fd] }), Ok(()))
    } else {
        (h, Err(EventLoopError::HandlerNotFound(fd)))
    }
}

/// The interest registered for `fd`; none without a handler.
pub open spec fn current_filter(h: Map<i32, HandlerView>, fd: i32) -> Filter {
    if h.contains_key(fd) {
        h[fd].filter
    } else {
        Filter::from_bits(0)
    }
}

/// What registering `filter` on `fd` asks of the kernel: the part of the
/// filter not registered yet.
pub open spec fn registration_request(h: Map<i32, HandlerView>, fd: i32, filter: Filter) -> Filter {
    filter.spec_intersection(current_filter(h, fd).spec_complement())
}

/// Registering `filter` on `fd`, with read and/or write callbacks (given by
/// their call histories), when the kernel answered `reply` to the
/// registration request. A new callback takes the place of the old one. The handler is made
/// if there was none (and stays, even when the kernel refuses). The kernel's
/// answer counts only when there was something to ask; when it refuses,
/// neither interest nor callbacks change.
pub open spec fn register_model(
    h: Map<i32, HandlerView>,
    fd: i32,
    filter: Filter,
    on_read: Option<Seq<ReadyCall>>,
    on_write: Option<Seq<ReadyCall>>,
    reply: Result<(), KqueueError>,
) -> (Map<i32, HandlerView>, Result<(), EventLoopError>) {
    let hv = if h.contains_key(fd) {
        h[fd]
    } else {
        new_handler(fd)
    };
    let add = registration_request(h, fd, filter);
    if !add.spec_is_empty() && reply is Err {
        (h.insert(fd, hv), Err(EventLoopError::Kqueue(reply->Err_0)))
    } else {
        let f = if add.spec_is_empty() {
            hv.filter
        } else {
            hv.filter.spec_union(add)
        };
        (
            h.insert(
                fd,
                HandlerView {
                    filter: f,
                    has_read: hv.has_read || on_read is Some,
                    has_write: hv.has_write || on_write is Some,
                    read_calls: match on_read {
                        Some(c) => c,
                        None => hv.read_calls,
                    },
                    write_calls: match on_write {
                        Some(c) => c,
                        None => hv.write_calls,
                    },
                    ..hv
                },
            ),
            Ok(()),
        )
    }
}

/// What deregistering `filter` from `fd` asks of the kernel: the part of
/// the filter that is registered.
pub open spec fn deregistration_request(h: Map<i32, HandlerView>, fd: i32, filter: Filter) -> Filter {
    filter.spec_intersection(current_filter(h, fd))
}

/// Deregistering `filter` from `fd` when the kernel answered `reply`.
/// Without a handler, or with nothing of the filter registered, nothing
/// happens. Otherwise, unless the kernel refuses, the interest is dropped
/// with the callbacks of its kinds, and the handler goes when it has no
/// read or write callback left.
pub open spec fn deregister_model(
    h: Map<i32, HandlerView>,
    fd: i32,
    filter: Filter,
    reply: Result<(), KqueueError>,
) -> (Map<i32, HandlerView>, Result<(), EventLoopError>) {
    let rm = deregistration_request(h, fd, filter);
    if !h.contains_key(fd) || rm.spec_is_empty() {
        (h, Ok(()))
    } else if reply is Err {
        (h, Err(EventLoopError::Kqueue(reply->Err_0)))
    } else {
        let hv = h[fd];
        let drop_read = rm.spec_contains(Filter::from_bits(1));
        let drop_write = rm.spec_contains(Filter::from_bits(2));
        let hv1 = HandlerView {
            filter: hv.filter.spec_difference(rm),
            has_read: hv.has_read && !drop_read,
            has_write: hv.has_write && !drop_write,
            read_calls: if drop_read {
                Seq::empty()
            } else {
                hv.read_calls
            },
            write_calls: if drop_write {
                Seq::empty()
            } else {
                hv.write_calls
            },
            ..hv
        };
        if !(hv1.has_read || hv1.has_write) {
            (h.remove(fd), Ok(()))
        } else {
            (h.insert(fd, hv1), Ok(()))
        }
    }
}

/// The interest that changing `fd`'s filter to `filter` adds; none without
/// a handler.
pub open spec fn filter_additions(h: Map<i32, HandlerView>, fd: i32, filter: Filter) -> Filter {
    if h.contains_key(fd) {
        filter.spec_intersection(h[fd].filter.spec_complement())
    } else {
        Filter::from_bits(0)
    }
}

/// The interest that changing `fd`'s filter to `filter` drops; none
/// without a handler.
pub open spec fn filter_removals(h: Map<i32, HandlerView>, fd: i32, filter: Filter) -> Filter {
    if h.contains_key(fd) {
        h[fd].filter.spec_intersection(filter.spec_complement())
    } else {
        Filter::from_bits(0)
    }
}

/// The first half of a filter change: the additions, when the kernel
/// answered `reply` to registering them.
pub open spec fn apply_additions_model(
    h: Map<i32, HandlerView>,
    fd: i32,
    filter: Filter,
    reply: Result<(), KqueueError>,
) -> (Map<i32, HandlerView>, Result<(), EventLoopError>) {
    let add = filter_additions(h, fd, filter);
    if !h.contains_key(fd) || add.spec_is_empty() {
        (h, Ok(()))
    } else if reply is Err {
        (h, Err(EventLoopError::Kqueue(reply->Err_0)))
    } else {
        (h.insert(fd, HandlerView { filter: h[fd].filter.spec_union(add), ..h[fd] }), Ok(()))
    }
}

/// The second half of a filter change: the removals, when the kernel
/// answered `reply` to deregistering them. Callbacks stay.
pub open spec fn apply_removals_model(
    h: Map<i32, HandlerView>,
    fd: i32,
    filter: Filter,
    reply: Result<(), KqueueError>,
) -> (Map<i32, HandlerView>, Result<(), EventLoopError>) {
    let rm = filter_removals(h, fd, filter);
    if !h.contains_key(fd) || rm.spec_is_empty() {
        (h, Ok(()))
    } else if reply is Err {
        (h, Err(EventLoopError::Kqueue(reply->Err_0)))
    } else {
        (h.insert(fd, HandlerView { filter: h[fd].filter.spec_difference(rm), ..h[fd] }), Ok(()))
    }
}


/// The decimal digits of `n`.
pub open spec fn decimal_digits(n: nat) -> Seq<char>
    decreases n,
{
    if n < 10 {
        seq![((n + 48) as u8) as char]
    } else {
        decimal_digits(n / 10).push((((n % 10) + 48) as u8) as char)
    }
}

/// `i` written in decimal, with a leading '-' when negative (`Display` for
/// integers).
pub open spec fn decimal(i: int) -> Seq<char> {
    if i < 0 {
        seq!['-'] + decimal_digits((-i) as nat)
    } else {
        decimal_digits(i as nat)
    }
}

/// The message of the error a panicking read or write callback on `fd`
/// gives.
pub open spec fn panic_message(is_read: bool, fd: i32) -> Seq<char> {
    (if is_read {
        "read callback panicked on fd "@
    } else {
        "write callback panicked on fd "@
    }) + decimal(fd as int)
}

/// How many times each counter was advanced since the loop was made,
/// counted without wrapping.
pub struct CounterTotals {
    pub poll_count: nat,
    pub events_dispatched: nat,
    pub callbacks_executed: nat,
    pub errors_handled: nat,
    pub timers_fired: nat,
}

pub open spec fn no_counts() -> CounterTotals {
    CounterTotals {
        poll_count: 0,
        events_dispatched: 0,
        callbacks_executed: 0,
        errors_handled: 0,
        timers_fired: 0,
    }
}

/// A 64-bit counter that was advanced `t` times in all holds `t` modulo
/// 2^64.
pub open spec fn wraps_to(t: nat, x: u64) -> bool {
    x == t % 0x1_0000_0000_0000_0000
}

/// Each counter holds its total modulo 2^64.
pub open spec fn counters_match(m: EventLoopMetrics, t: CounterTotals) -> bool {
    &&& wraps_to(t.poll_count, m.poll_count)
    &&& wraps_to(t.events_dispatched, m.events_dispatched)
    &&& wraps_to(t.callbacks_executed, m.callbacks_executed)
    &&& wraps_to(t.errors_handled, m.errors_handled)
    &&& wraps_to(t.timers_fired, m.timers_fired)
}

/// No total of `a` is above that of `b`.
pub open spec fn totals_le(a: CounterTotals, b: CounterTotals) -> bool {
    &&& a.poll_count <= b.poll_count
    &&& a.events_dispatched <= b.events_dispatched
    &&& a.callbacks_executed <= b.callbacks_executed
    &&& a.errors_handled <= b.errors_handled
    &&& a.timers_fired <= b.timers_fired
}

/// Advancing a counter by `d` with wrapping addition advances its total by
/// `d`.
pub proof fn lemma_wrap_step(t: nat, x: u64, d: u64)
    requires
        wraps_to(t, x),
    ensures
        wraps_to((t + d) as nat, vstd::wrapping::u64_specs::wrapping_add(x, d)),
{
    let m: int = 0x1_0000_0000_0000_0000;
    vstd::arithmetic::div_mod::lemma_add_mod_noop(t as int, d as int, m);
    vstd::arithmetic::div_mod::lemma_small_mod(d as nat, m as nat);
    if x + d < m {
        vstd::arithmetic::div_mod::lemma_small_mod((x + d) as nat, m as nat);
    } else {
        vstd::arithmetic::div_mod::lemma_small_mod((x + d - m) as nat, m as nat);
        vstd::arithmetic::div_mod::lemma_mod_add_multiples_vanish((x + d - m) as int, m);
    }
}

/// A total below 2^64 is the counter itself.
pub proof fn lemma_unwrapped(t: nat, x: u64)
    requires
        wraps_to(t, x),
        t <= u64::MAX,
    ensures
        x == t,
{
    vstd::arithmetic::div_mod::lemma_small_mod(t, 0x1_0000_0000_0000_0000);
}

/// The part of the loop that dispatching changes.
pub struct LoopView {
    pub handlers: Map<i32, HandlerView>,
    pub metrics: EventLoopMetrics,
    pub diagnostics: Seq<Diagnostic>,
    /// Every read (`true`) or write callback call made while dispatching,
    /// in order, across all callbacks.
    pub call_log: Seq<(bool, ReadyCall)>,
}

/// One read or write callback call as dispatching sees it: what the
/// callback came to, and the error the loop made of it if it panicked.
pub struct CallRecord {
    pub outcome: CallbackOutcome,
    pub panic_error: EventLoopError,
}

/// The error made of a panic in the read (`is_read`) or write callback of
/// `fd` is `CallbackPanic` with the panic message.
pub open spec fn record_fits(r: CallRecord, is_read: bool, fd: i32) -> bool {
    r.outcome is Panicked ==> (r.panic_error matches EventLoopError::CallbackPanic(m) && m@
        == panic_message(is_read, fd))
}

pub open spec fn records_fit(events: Seq<Event>, outs: Seq<(CallRecord, CallRecord)>) -> bool {
    &&& outs.len() == events.len()
    &&& forall|i: int|
        0 <= i < events.len() ==> record_fits((#[trigger] outs[i]).0, true, events[i].fd)
            && record_fits(outs[i].1, false, events[i].fd)
}

/// The loop after the read (`is_read`) or write callback of `ev.fd` was
/// called with `(ev.fd, &ev)` and came to `r`: the call is recorded in the
/// callback's history and in the log of calls. A success counts as
/// `callbacks_executed`. An error counts as `errors_handled` and goes to the
/// fd's error handler, or else is left as a report. A panic goes to the
/// error handler as `CallbackPanic`, and is neither counted nor reported
/// otherwise. Dispatching goes on either way.
pub open spec fn after_callback(v: LoopView, ev: Event, is_read: bool, r: CallRecord, enabled: bool) -> LoopView {
    let fd = ev.fd;
    let h = v.handlers[fd];
    let call = ReadyCall { fd, event: ev, outcome: r.outcome };
    let h1 = if is_read {
        HandlerView { read_calls: h.read_calls.push(call), ..h }
    } else {
        HandlerView { write_calls: h.write_calls.push(call), ..h }
    };
    let v1 = LoopView {
        handlers: v.handlers.insert(fd, h1),
        call_log: v.call_log.push((is_read, call)),
        ..v
    };
    match r.outcome {
        CallbackOutcome::Completed => LoopView {
            metrics: if enabled {
                EventLoopMetrics {
                    callbacks_executed: bump(v.metrics.callbacks_executed),
                    ..v.metrics
                }
            } else {
                v.metrics
            },
            ..v1
        },
        CallbackOutcome::Failed(e) => {
            let m = if enabled {
                EventLoopMetrics { errors_handled: bump(v.metrics.errors_handled), ..v.metrics }
            } else {
                v.metrics
            };
            if h.has_error {
                LoopView {
                    handlers: v.handlers.insert(
                        fd,
                        HandlerView { error_calls: h1.error_calls.push((fd, e)), ..h1 },
                    ),
                    metrics: m,
                    ..v1
                }
            } else {
                LoopView {
                    metrics: m,
                    diagnostics: v.diagnostics.push(
                        if is_read {
                            Diagnostic::ReadCallbackFailed(fd, e)
                        } else {
                            Diagnostic::WriteCallbackFailed(fd, e)
                        },
                    ),
                    ..v1
                }
            }
        },
        CallbackOutcome::Panicked => if h.has_error {
            LoopView {
                handlers: v.handlers.insert(
                    fd,
                    HandlerView { error_calls: h1.error_calls.push((fd, r.panic_error)), ..h1 },
                ),
                ..v1
            }
        } else {
            v1
        },
    }
}

/// The loop after dispatching one event, its read and write callbacks (those
/// that run) coming to `recs.0` and `recs.1`. An event for an fd without
/// handler calls nothing, counts as `errors_handled` and is reported;
/// otherwise the handler counts the event, its read callback is called if
/// the event is a read event, and then its write callback if it is a write
/// event.
pub open spec fn dispatch_one(v: LoopView, ev: Event, recs: (CallRecord, CallRecord), enabled: bool) -> LoopView {
    let fd = ev.fd;
    if !v.handlers.contains_key(fd) {
        LoopView {
            metrics: if enabled {
                EventLoopMetrics { errors_handled: bump(v.metrics.errors_handled), ..v.metrics }
            } else {
                v.metrics
            },
            diagnostics: v.diagnostics.push(Diagnostic::UnknownFd(fd)),
            ..v
        }
    } else {
        let h = v.handlers[fd];
        let v1 = LoopView {
            handlers: v.handlers.insert(
                fd,
                HandlerView {
                    events_processed: vstd::wrapping::u64_specs::wrapping_add(
                        h.events_processed,
                        1,
                    ),
                    ..h
                },
            ),
            ..v
        };
        let v2 = if ev.filter.spec_contains(Filter::from_bits(1)) && h.has_read {
            after_callback(v1, ev, true, recs.0, enabled)
        } else {
            v1
        };
        if ev.filter.spec_contains(Filter::from_bits(2)) && h.has_write {
            after_callback(v2, ev, false, recs.1, enabled)
        } else {
            v2
        }
    }
}

/// The loop after dispatching `events` in order, the i-th one's callbacks
/// coming to `outs[i]`.
pub open spec fn dispatch_all(
    v: LoopView,
    events: Seq<Event>,
    outs: Seq<(CallRecord, CallRecord)>,
    enabled: bool,
) -> LoopView
    decreases events.len(),
{
    if events.len() == 0 {
        v
    } else {
        dispatch_one(
            dispatch_all(v, events.drop_last(), outs.drop_last(), enabled),
            events.last(),
            outs.last(),
            enabled,
        )
    }
}

/// One more event extends dispatching by one step.
pub proof fn lemma_dispatch_step(
    v: LoopView,
    events: Seq<Event>,
    outs: Seq<(CallRecord, CallRecord)>,
    o: (CallRecord, CallRecord),
    enabled: bool,
    i: int,
)
    requires
        0 <= i < events.len(),
        outs.len() == i,
    ensures
        dispatch_all(v, events.take(i + 1), outs.push(o), enabled) == dispatch_one(
            dispatch_all(v, events.take(i), outs, enabled),
            events[i],
            o,
            enabled,
        ),
{
    assert(events.take(i + 1).drop_last() =~= events.take(i));
    assert(outs.push(o).drop_last() =~= outs);
}

} // verus!
