use kqloop::sys::kqueue::{
    deregistration_changes, events_from_kevents, registration_changes, KeventAction,
    KeventChange, KeventFilter, RawKevent, ReadyKind,
};
use kqloop::{Event, Filter};

#[test]
fn filter_contains_is_overlap() {
    assert!(Filter::all().contains(Filter::read()));
    assert!(Filter::read().contains(Filter::all()));
    assert!(!Filter::read().contains(Filter::write()));
    assert!(!Filter::empty().contains(Filter::empty()));
    assert!(!Filter::all().contains(Filter::empty()));
    assert!(Filter::write().contains(Filter::write()));
}

#[test]
fn filter_set_operations() {
    assert!(Filter::empty().is_empty());
    assert!(!Filter::read().is_empty());
    assert_eq!(Filter::read().union(Filter::write()), Filter::all());
    assert_eq!(Filter::all().intersection(Filter::write()), Filter::write());
    assert_eq!(Filter::read().complement(), Filter::write());
    assert_eq!(Filter::all().complement(), Filter::empty());
    assert_eq!(Filter::empty().complement(), Filter::all());

    let mut f = Filter::empty();
    f.insert(Filter::read());
    assert_eq!(f, Filter::read());
    f.insert(Filter::write());
    assert_eq!(f, Filter::all());
    f.remove(Filter::read());
    assert_eq!(f, Filter::write());
    assert!(!f.contains(Filter::read()));
    // what is new in a filter never overlaps what was there
    let added = Filter::all().intersection(Filter::read().complement());
    assert_eq!(added, Filter::write());
    assert!(!added.contains(Filter::read()));
}

#[test]
fn change_lists_follow_the_filter() {
    assert_eq!(
        registration_changes(5, Filter::all()),
        vec![
            KeventChange { fd: 5, filter: KeventFilter::Read, action: KeventAction::Add },
            KeventChange { fd: 5, filter: KeventFilter::Write, action: KeventAction::Add },
        ]
    );
    assert_eq!(
        deregistration_changes(9, Filter::write()),
        vec![KeventChange { fd: 9, filter: KeventFilter::Write, action: KeventAction::Delete }]
    );
    assert_eq!(registration_changes(3, Filter::empty()), vec![]);
}

#[test]
fn kevents_become_read_and_write_events() {
    let raw = vec![
        RawKevent { ident: 4, filter: ReadyKind::Read },
        RawKevent { ident: 8, filter: ReadyKind::Other },
        RawKevent { ident: 6, filter: ReadyKind::Write },
    ];
    assert_eq!(
        events_from_kevents(&raw),
        vec![
            Event { fd: 4, filter: Filter::read() },
            Event { fd: 6, filter: Filter::write() },
        ]
    );
    assert_eq!(events_from_kevents(&vec![]), vec![]);
}
