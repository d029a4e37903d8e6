use terrain::{accumulate, EventKind, EventPath, FsEvent, PathStyle, PendingEvents, RenameMode};

fn event(kind: EventKind, paths: &[&str]) -> FsEvent {
    FsEvent {
        kind,
        paths: paths.iter().map(|p| EventPath { path: p.to_string(), exists: false }).collect(),
    }
}

fn sorted(mut v: Vec<String>) -> Vec<String> {
    v.sort();
    v
}

fn strings(v: &[&str]) -> Vec<String> {
    v.iter().map(|s| s.to_string()).collect()
}

#[test]
fn non_markdown_paths_are_ignored() {
    let mut pending = PendingEvents::new();
    accumulate(&mut pending, &event(EventKind::Create, &["/kb/a.txt", "/kb/b.md"]));
    let plan = pending.take_batch();
    assert_eq!(plan.to_index, strings(&["/kb/b.md"]));
    assert!(plan.to_remove.is_empty());
}

#[test]
fn latest_event_per_path_wins() {
    let mut pending = PendingEvents::new();
    accumulate(&mut pending, &event(EventKind::Create, &["/kb/a.md"]));
    accumulate(&mut pending, &event(EventKind::Remove, &["/kb/a.md"]));
    accumulate(&mut pending, &event(EventKind::Modify, &["/kb/b.md"]));
    let plan = pending.take_batch();
    assert_eq!(plan.to_index, strings(&["/kb/b.md"]));
    assert_eq!(plan.to_remove, strings(&["/kb/a.md"]));
}

#[test]
fn access_event_after_create_drops_the_path() {
    let mut pending = PendingEvents::new();
    accumulate(&mut pending, &event(EventKind::Create, &["/kb/a.md"]));
    accumulate(&mut pending, &event(EventKind::Access, &["/kb/a.md"]));
    let plan = pending.take_batch();
    assert!(plan.to_index.is_empty());
    assert!(plan.to_remove.is_empty());
}

#[test]
fn renames_become_remove_and_create() {
    let mut pending = PendingEvents::new();
    accumulate(&mut pending, &event(EventKind::Rename(RenameMode::Both), &["/kb/old.md", "/kb/new.md"]));
    accumulate(&mut pending, &event(EventKind::Rename(RenameMode::From), &["/kb/gone.md"]));
    accumulate(&mut pending, &event(EventKind::Rename(RenameMode::To), &["/kb/came.md"]));
    let plan = pending.take_batch();
    assert_eq!(sorted(plan.to_index), strings(&["/kb/came.md", "/kb/new.md"]));
    assert_eq!(sorted(plan.to_remove), strings(&["/kb/gone.md", "/kb/old.md"]));
}

#[test]
fn rename_to_non_markdown_only_removes() {
    let mut pending = PendingEvents::new();
    accumulate(&mut pending, &event(EventKind::Rename(RenameMode::Both), &["/kb/a.md", "/kb/a.txt"]));
    let plan = pending.take_batch();
    assert!(plan.to_index.is_empty());
    assert_eq!(plan.to_remove, strings(&["/kb/a.md"]));
}

#[test]
fn rename_of_unknown_direction_goes_by_existence() {
    let mut pending = PendingEvents::new();
    let ev = FsEvent {
        kind: EventKind::Rename(RenameMode::Any),
        paths: vec![
            EventPath { path: "/kb/here.md".to_string(), exists: true },
            EventPath { path: "/kb/away.md".to_string(), exists: false },
        ],
    };
    accumulate(&mut pending, &ev);
    let plan = pending.take_batch();
    assert_eq!(plan.to_index, strings(&["/kb/here.md"]));
    assert_eq!(plan.to_remove, strings(&["/kb/away.md"]));
}

#[test]
fn rename_without_paths_changes_nothing() {
    let mut pending = PendingEvents::new();
    accumulate(&mut pending, &event(EventKind::Rename(RenameMode::From), &[]));
    accumulate(&mut pending, &event(EventKind::Rename(RenameMode::Both), &["/kb/a.md"]));
    let plan = pending.take_batch();
    assert!(plan.to_index.is_empty());
    assert_eq!(plan.to_remove, strings(&["/kb/a.md"]));
}

#[test]
fn taking_a_batch_empties_the_pending_events() {
    let mut pending = PendingEvents::new();
    accumulate(&mut pending, &event(EventKind::Modify, &["/kb/a.md"]));
    let first = pending.take_batch();
    assert_eq!(first.to_index, strings(&["/kb/a.md"]));
    let second = pending.take_batch();
    assert!(second.to_index.is_empty() && second.to_remove.is_empty());
}

#[test]
fn other_and_any_events_are_kept_but_not_applied() {
    let mut pending = PendingEvents::new();
    accumulate(&mut pending, &event(EventKind::Any, &["/kb/a.md"]));
    accumulate(&mut pending, &event(EventKind::Other, &["/kb/b.md"]));
    let plan = pending.take_batch();
    assert!(plan.to_index.is_empty() && plan.to_remove.is_empty());
}

#[test]
fn spellings_of_one_path_share_an_entry() {
    let mut pending = PendingEvents::new();
    accumulate(&mut pending, &event(EventKind::Create, &["/kb/a.md"]));
    accumulate(&mut pending, &event(EventKind::Remove, &["/kb//a.md"]));
    let plan = pending.take_batch();
    assert!(plan.to_index.is_empty());
    assert_eq!(plan.to_remove, strings(&["/kb/a.md"]));
}

#[test]
fn windows_style_recognises_backslash_paths() {
    let mut pending = PendingEvents::with_style(PathStyle::Windows);
    accumulate(&mut pending, &event(EventKind::Create, &["C:\\kb\\a.md\\", "C:.md", "x\\.md"]));
    let plan = pending.take_batch();
    assert_eq!(plan.to_index, strings(&["C:\\kb\\a.md\\"]));
}

#[test]
fn unix_style_reads_backslash_as_a_character() {
    let mut pending = PendingEvents::with_style(PathStyle::Unix);
    accumulate(&mut pending, &event(EventKind::Create, &["a.md\\", "x\\.md"]));
    let plan = pending.take_batch();
    assert_eq!(plan.to_index, strings(&["x\\.md"]));
}

#[test]
fn folding_an_event_twice_equals_once() {
    let ev = event(EventKind::Rename(RenameMode::Both), &["/kb/old.md", "/kb/new.md"]);
    let mut once = PendingEvents::new();
    accumulate(&mut once, &ev);
    let mut twice = PendingEvents::new();
    accumulate(&mut twice, &ev);
    accumulate(&mut twice, &ev);
    let (a, b) = (once.take_batch(), twice.take_batch());
    assert_eq!(a.to_index, b.to_index);
    assert_eq!(a.to_remove, b.to_remove);
}

#[test]
fn an_event_leaves_other_paths_alone() {
    let mut pending = PendingEvents::new();
    accumulate(&mut pending, &event(EventKind::Remove, &["/kb/keep.md"]));
    accumulate(&mut pending, &event(EventKind::Create, &["/kb/other.md", "/kb/keep.txt"]));
    let plan = pending.take_batch();
    assert_eq!(plan.to_remove, strings(&["/kb/keep.md"]));
    assert_eq!(plan.to_index, strings(&["/kb/other.md"]));
}

#[test]
fn windows_spellings_of_one_path_share_an_entry() {
    let mut pending = PendingEvents::with_style(PathStyle::Windows);
    accumulate(&mut pending, &event(EventKind::Create, &["C:\\kb\\a.md"]));
    accumulate(&mut pending, &event(EventKind::Modify, &["C:/kb//a.md"]));
    let plan = pending.take_batch();
    assert_eq!(plan.to_index, strings(&["C:\\kb\\a.md"]));
}
