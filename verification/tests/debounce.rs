use terrain::{Debouncer, EventKind, EventPath, FsEvent, PathStyle, WatchAction, WatchInput};

fn event(kind: EventKind, path: &str) -> WatchInput {
    WatchInput::Event(FsEvent {
        kind,
        paths: vec![EventPath { path: path.to_string(), exists: false }],
    })
}

#[test]
fn events_are_gathered_until_a_quiet_period() {
    let mut d = Debouncer::new();
    assert!(matches!(d.step(event(EventKind::Create, "/kb/a.md")), WatchAction::WaitWithTimeout));
    assert!(matches!(d.step(event(EventKind::Modify, "/kb/b.md")), WatchAction::WaitWithTimeout));
    assert!(matches!(d.step(event(EventKind::Remove, "/kb/a.md")), WatchAction::WaitWithTimeout));
    match d.step(WatchInput::Timeout) {
        WatchAction::Apply(plan) => {
            assert_eq!(plan.to_index, vec!["/kb/b.md".to_string()]);
            assert_eq!(plan.to_remove, vec!["/kb/a.md".to_string()]);
        }
        _ => panic!("expected a batch"),
    }
    // The next wait has no time limit, and nothing is left over.
    assert!(matches!(d.step(WatchInput::Timeout), WatchAction::WaitForEvent));
}

#[test]
fn disconnect_flushes_then_stops() {
    let mut d = Debouncer::new();
    d.step(event(EventKind::Create, "/kb/a.md"));
    match d.step(WatchInput::Disconnected) {
        WatchAction::Apply(plan) => assert_eq!(plan.to_index, vec!["/kb/a.md".to_string()]),
        _ => panic!("expected a batch"),
    }
    assert!(matches!(d.step(WatchInput::Disconnected), WatchAction::Stop));
    assert!(matches!(d.step(event(EventKind::Create, "/kb/b.md")), WatchAction::Stop));
}

#[test]
fn disconnect_while_idle_stops() {
    let mut d = Debouncer::new();
    assert!(matches!(d.step(WatchInput::Disconnected), WatchAction::Stop));
}

#[test]
fn batch_of_ignored_events_is_empty() {
    let mut d = Debouncer::new();
    d.step(event(EventKind::Create, "/kb/a.txt"));
    match d.step(WatchInput::Timeout) {
        WatchAction::Apply(plan) => assert!(plan.to_index.is_empty() && plan.to_remove.is_empty()),
        _ => panic!("expected a batch"),
    }
}

#[test]
fn windows_loop_reads_backslash_paths() {
    let mut d = Debouncer::with_style(PathStyle::Windows);
    d.step(event(EventKind::Create, "C:\\kb\\a.md"));
    d.step(event(EventKind::Modify, "C:/kb/a.md"));
    match d.step(WatchInput::Timeout) {
        WatchAction::Apply(plan) => assert_eq!(plan.to_index, vec!["C:\\kb\\a.md".to_string()]),
        _ => panic!("expected a batch"),
    }
}
