use vstd::prelude::*;
use vstd::string::StringExecFns;

use crate::sys::{Event, Filter};

verus! {

/// `std::io::Error`, carried through unchanged.
#[verifier::external_type_specification]
#[verifier::external_body]
pub struct ExIoError(std::io::Error);

/// kqueue-specific errors: the OS error of a failed `kqueue()` or
/// `kevent()` call.
#[derive(Debug)]
pub enum KqueueError {
    Create(std::io::Error),
    Kevent(std::io::Error),
}

/// Writes an OS error as its `Display` does (`format!`). Nothing is claimed
/// of the text: it comes from the operating system.
#[verifier::external_body]
pub(crate) fn io_error_text(e: &std::io::Error) -> String {
    format!("{}", e)
}

/// `s` begins with `p`.
pub open spec fn starts_with(s: Seq<char>, p: Seq<char>) -> bool {
    p.len() <= s.len() && s.subrange(0, p.len() as int) == p
}

impl KqueueError {
    /// What went wrong, in words: which call failed, then the OS error.
    pub fn message(&self) -> (s: String)
        ensures
            match self {
                KqueueError::Create(_) => starts_with(s@, "kqueue creation failed: "@),
                KqueueError::Kevent(_) => starts_with(s@, "kevent call failed: "@),
            },
    {
        let (prefix, err) = match self {
            KqueueError::Create(e) => (String::from_str("kqueue creation failed: "), e),
            KqueueError::Kevent(e) => (String::from_str("kevent call failed: "), e),
        };
        let text = io_error_text(err);
        let s = prefix.concat(text.as_str());
        assert(s@.subrange(0, prefix@.len() as int) =~= prefix@);
        s
    }
}

/// The kernel filter a change list entry names.
#[derive(Clone, Copy, Debug, PartialEq, Eq, Structural)]
pub enum KeventFilter {
    Read,
    Write,
}

/// What a change list entry asks of the kernel.
#[derive(Clone, Copy, Debug, PartialEq, Eq, Structural)]
pub enum KeventAction {
    Add,
    Delete,
}

/// One entry of a kevent change list.
#[derive(Clone, Copy, Debug, PartialEq, Eq, Structural)]
pub struct KeventChange {
    pub fd: i32,
    pub filter: KeventFilter,
    pub action: KeventAction,
}

/// The filter of a kevent that the kernel reported, as far as the loop
/// tells them apart.
#[derive(Clone, Copy, Debug, PartialEq, Eq, Structural)]
pub enum ReadyKind {
    Read,
    Write,
    Other,
}

/// A kevent that the kernel reported: its ident and its filter.
#[derive(Clone, Copy, Debug, PartialEq, Eq, Structural)]
pub struct RawKevent {
    pub ident: usize,
    pub filter: ReadyKind,
}

/// The change list for `filter` on `fd`: a READ entry if the filter
/// overlaps READ, then a WRITE entry if it overlaps WRITE.
pub open spec fn spec_changes(fd: i32, filter: Filter, action: KeventAction) -> Seq<KeventChange> {
    (if filter.spec_contains(Filter::from_bits(1)) {
        seq![KeventChange { fd, filter: KeventFilter::Read, action }]
    } else {
        Seq::empty()
    }) + (if filter.spec_contains(Filter::from_bits(2)) {
        seq![KeventChange { fd, filter: KeventFilter::Write, action }]
    } else {
        Seq::empty()
    })
}

/// The event a reported kevent stands for, if its filter is READ or WRITE.
pub open spec fn spec_event_of(raw: RawKevent) -> Option<Event> {
    match raw.filter {
        ReadyKind::Read => Some(Event { fd: raw.ident as i32, filter: Filter::from_bits(1) }),
        ReadyKind::Write => Some(Event { fd: raw.ident as i32, filter: Filter::from_bits(2) }),
        ReadyKind::Other => None,
    }
}

/// The events that a list of reported kevents stands for, in order, the
/// kevents of other filters skipped.
pub open spec fn spec_events(raw: Seq<RawKevent>) -> Seq<Event>
    decreases raw.len(),
{
    if raw.len() == 0 {
        Seq::empty()
    } else {
        spec_events(raw.drop_last()) + match spec_event_of(raw.last()) {
            Some(e) => seq![e],
            None => Seq::empty(),
        }
    }
}

fn changes(fd: i32, filter: Filter, action: KeventAction) -> (v: Vec<KeventChange>)
    ensures
        v@ == spec_changes(fd, filter, action),
{
    let mut v: Vec<KeventChange> = Vec::new();
    if filter.contains(Filter::read()) {
        v.push(KeventChange { fd, filter: KeventFilter::Read, action });
    }
    if filter.contains(Filter::write()) {
        v.push(KeventChange { fd, filter: KeventFilter::Write, action });
    }
    proof {
        assert(v@ =~= spec_changes(fd, filter, action));
    }
    v
}

/// The change list that registers interest in `filter` on `fd`.
pub fn registration_changes(fd: i32, filter: Filter) -> (v: Vec<KeventChange>)
    ensures
        v@ == spec_changes(fd, filter, KeventAction::Add),
{
    changes(fd, filter, KeventAction::Add)
}

/// The change list that withdraws interest in `filter` on `fd`.
pub fn deregistration_changes(fd: i32, filter: Filter) -> (v: Vec<KeventChange>)
    ensures
        v@ == spec_changes(fd, filter, KeventAction::Delete),
{
    changes(fd, filter, KeventAction::Delete)
}

/// The readiness events that the reported kevents stand for.
pub fn events_from_kevents(raw: &Vec<RawKevent>) -> (v: Vec<Event>)
    ensures
        v@ == spec_events(raw@),
{
    let mut v: Vec<Event> = Vec::new();
    let mut i: usize = 0;
    while i < raw.len()
        invariant
            i <= raw@.len(),
            v@ == spec_events(raw@.take(i as int)),
        decreases raw@.len() - i,
    {
        let kev = raw[i];
        proof {
            assert(raw@.take(i as int + 1).drop_last() =~= raw@.take(i as int));
        }
        match kev.filter {
            ReadyKind::Read => {
                v.push(Event { fd: kev.ident as i32, filter: Filter::read() });
            },
            ReadyKind::Write => {
                v.push(Event { fd: kev.ident as i32, filter: Filter::write() });
            },
            ReadyKind::Other => {},
        }
        proof {
            assert(v@ =~= spec_events(raw@.take(i as int + 1)));
        }
        i = i + 1;
    }
    proof {
        assert(raw@.take(i as int) =~= raw@);
    }
    v
}


/// A change list names the fd and the action throughout, has a READ entry
/// exactly for READ interest and a WRITE entry exactly for WRITE interest,
/// READ first.
pub proof fn law_change_list(fd: i32, filter: Filter, action: KeventAction)
    requires
        filter.wf(),
    ensures
        ({
            let c = spec_changes(fd, filter, action);
            &&& c.len() == (if filter.reads() {
                1int
            } else {
                0int
            }) + (if filter.writes() {
                1int
            } else {
                0int
            })
            &&& forall|i: int| 0 <= i < c.len() ==> (#[trigger] c[i]).fd == fd && c[i].action == action
            &&& filter.reads() ==> c[0].filter == KeventFilter::Read
            &&& filter.writes() ==> c.last().filter == KeventFilter::Write
        }),
{
    broadcast use Filter::lemma_bits_of_from_bits;

    let x = filter.bits();
    assert(x <= 3 ==> ((x & 1 != 0) == (x & 1 == 1)) && ((x & 2 != 0) == (x & 2 == 2))) by (bit_vector);
}

/// Every event made from reported kevents is a READ or a WRITE event, and
/// there are no more events than kevents.
pub proof fn law_events_from_kevents(raw: Seq<RawKevent>)
    ensures
        spec_events(raw).len() <= raw.len(),
        forall|i: int|
            0 <= i < spec_events(raw).len() ==> (#[trigger] spec_events(raw)[i]).filter
                == Filter::from_bits(1) || spec_events(raw)[i].filter == Filter::from_bits(2),
    decreases raw.len(),
{
    if raw.len() > 0 {
        law_events_from_kevents(raw.drop_last());
        let r = spec_events(raw.drop_last());
        assert forall|i: int|
            0 <= i < spec_events(raw).len() implies (#[trigger] spec_events(raw)[i]).filter
            == Filter::from_bits(1) || spec_events(raw)[i].filter == Filter::from_bits(2) by {
            if i < r.len() {
                assert(spec_events(raw)[i] == r[i]);
            }
        }
    }
}


/// How many of the reported kevents have a READ or a WRITE filter.
pub open spec fn ready_kevents(raw: Seq<RawKevent>) -> nat
    decreases raw.len(),
{
    if raw.len() == 0 {
        0
    } else {
        ready_kevents(raw.drop_last()) + if raw.last().filter is Other {
            0nat
        } else {
            1nat
        }
    }
}

/// The event a READ or WRITE kevent must give: on the fd that is its ident,
/// READ for a READ kevent and WRITE for a WRITE kevent.
pub open spec fn event_for(k: RawKevent) -> Event {
    Event {
        fd: k.ident as i32,
        filter: if k.filter is Read {
            Filter::from_bits(1)
        } else {
            Filter::from_bits(2)
        },
    }
}

/// Every reported READ or WRITE kevent, whatever its ident, gives exactly
/// one event, in the order reported: the kevent at `i` gives the event at
/// the count of READ and WRITE kevents before it, on the fd that is its
/// ident, READ for a READ kevent and WRITE for a WRITE kevent. Kevents of
/// other filters give none.
pub proof fn law_every_ready_kevent_is_an_event(raw: Seq<RawKevent>)
    ensures
        spec_events(raw).len() == ready_kevents(raw),
        forall|i: int|
            0 <= i < raw.len() && !((#[trigger] raw[i]).filter is Other) ==> ready_kevents(raw.take(i))
                < ready_kevents(raw) && spec_events(raw)[ready_kevents(raw.take(i)) as int]
                == event_for(raw[i]),
    decreases raw.len(),
{
    if raw.len() > 0 {
        let pre = raw.drop_last();
        law_every_ready_kevent_is_an_event(pre);
        let n = raw.len() - 1;
        let e = spec_events(raw);
        let ep = spec_events(pre);
        assert(e.len() == ready_kevents(raw));
        assert forall|i: int|
            0 <= i < raw.len() && !((#[trigger] raw[i]).filter is Other) implies ready_kevents(
            raw.take(i),
        ) < ready_kevents(raw) && e[ready_kevents(raw.take(i)) as int] == event_for(raw[i]) by {
            if i < n {
                assert(raw.take(i) =~= pre.take(i));
                assert(raw[i] == pre[i]);
                let k = ready_kevents(pre.take(i)) as int;
                assert(k < ep.len());
                assert(e[k] == ep[k]);
            } else {
                assert(raw.take(i) =~= pre);
                assert(raw[i] == raw.last());
            }
        }
    }
}

} // verus!
