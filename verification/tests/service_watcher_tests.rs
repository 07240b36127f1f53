use notes_core::paths::{check_logical, check_valid_path};
use notes_core::watcher::{check_content_file_name, check_index_artifact};
use notes_core::{Error, EventClass, NotesEvent, NotesService, NoteWatcher, ScanEntry, WatcherEvent};

#[test]
fn test_service_emits_events_in_order() {
    let mut svc = NotesService::new("notes");
    svc.create_note("a", 1).unwrap();
    svc.save_note("a", "text", 2).unwrap();
    svc.rename_note("a", "b").unwrap();
    svc.archive_note("b").unwrap();
    svc.unarchive_note("b").unwrap();
    svc.delete_note("b").unwrap();

    let events = svc.take_events();
    assert_eq!(
        events,
        vec![
            NotesEvent::NoteCreated { path: "a".to_string() },
            NotesEvent::NoteRenamed { old_path: "a".to_string(), new_path: "b".to_string() },
            NotesEvent::NoteArchived { path: "b".to_string() },
            NotesEvent::NoteUnarchived { path: "b".to_string() },
            NotesEvent::NoteDeleted { path: "b".to_string() },
        ]
    );
    assert_eq!(svc.take_events(), vec![]);
}

#[test]
fn test_service_failed_mutation_emits_nothing() {
    let mut svc = NotesService::new("notes");
    assert_eq!(svc.delete_note("missing").unwrap_err(), Error::NotFound);
    assert_eq!(svc.take_events(), vec![]);
}

#[test]
fn test_service_rescan_emits_reindexed() {
    let mut svc = NotesService::new("notes");
    let scan = vec![ScanEntry { path: "n".to_string(), mtime: 1, content: "hello".to_string() }];
    svc.startup_sync(&scan).unwrap();
    assert_eq!(svc.take_events(), vec![NotesEvent::NotesReindexed]);
    assert_eq!(svc.get_note("n").unwrap().content, "hello");
}

#[test]
fn test_service_queries() {
    let mut svc = NotesService::new("notes");
    svc.create_note("p", 1).unwrap();
    svc.create_note("p/c", 2).unwrap();
    svc.save_note("p/c", "needle here", 3).unwrap();

    assert!(svc.note_exists("p").unwrap());
    let children = svc.get_children("p").unwrap();
    assert_eq!(children.len(), 1);
    assert_eq!(children[0].path, "p/c");
    assert_eq!(svc.get_parent("p/c").unwrap().unwrap().path, "p");
    let anc = svc.get_ancestors("p/c").unwrap();
    assert_eq!(anc.len(), 1);
    assert_eq!(anc[0].path, "p");
    let roots = svc.get_root_notes().unwrap();
    assert_eq!(roots.len(), 1);
    assert_eq!(roots[0].path, "p");
    let hits = svc.search("NEEDLE").unwrap();
    assert_eq!(hits.len(), 1);
    assert_eq!(hits[0].path, "p/c");
}

#[test]
fn test_counter_survives_restart() {
    // First run of the store: one note is created under identity 1.
    let mut svc = NotesService::new("notes");
    let n = svc.create_note("a", 1).unwrap();
    assert_eq!(n.id, 1);
    let persisted = svc.current_next_id();
    assert_eq!(persisted, 2);

    // A later run restarts from the persisted counter and rebuilds the
    // index from a scan that no longer reports the old note: the old
    // identity is never handed out again.
    let mut restarted = NotesService::new_with_counter("notes", persisted);
    let scan = vec![ScanEntry { path: "b".to_string(), mtime: 5, content: "new".to_string() }];
    restarted.startup_sync(&scan).unwrap();
    assert_eq!(restarted.get_note("b").unwrap().id, 2);
    let fresh = restarted.create_note("c", 6).unwrap();
    assert_eq!(fresh.id, 3);
}

#[test]
fn test_debounce_coalesces_burst() {
    let mut w = NoteWatcher::new(0);
    // Past the initial window, the first event triggers a rescan.
    let first = w.step(EventClass::ContentChange, false, true, 1000);
    assert_eq!(first, Some(WatcherEvent::NotesChanged));
    // A second event for the same change inside the window is dropped.
    let second = w.step(EventClass::ContentChange, false, true, 1200);
    assert_eq!(second, None);
    // After the window has elapsed, events trigger again.
    let third = w.step(EventClass::RenameMove, false, false, 1600);
    assert_eq!(third, Some(WatcherEvent::NotesRenamed));
}

#[test]
fn test_watcher_initial_window_coalesces() {
    let mut w = NoteWatcher::new(100);
    assert_eq!(w.step(EventClass::ContentChange, false, true, 300), None);
    assert_eq!(
        w.step(EventClass::ContentChange, false, true, 700),
        Some(WatcherEvent::NotesChanged)
    );
}

#[test]
fn test_watcher_filters_index_artifacts() {
    let mut w = NoteWatcher::new(0);
    // Events touching the index's own files never trigger, whatever the class.
    assert_eq!(w.step(EventClass::RenameMove, true, true, 5000), None);
    assert_eq!(w.step(EventClass::ContentChange, true, true, 6000), None);
    // The window was never opened, so a real event still triggers.
    assert_eq!(
        w.step(EventClass::ContentChange, false, true, 6001),
        Some(WatcherEvent::NotesChanged)
    );
}

#[test]
fn test_watcher_ignores_unrelated_events() {
    let mut w = NoteWatcher::new(0);
    // Content events not related to a note are dropped.
    assert_eq!(w.step(EventClass::ContentChange, false, false, 1000), None);
    // Irrelevant event kinds are dropped.
    assert_eq!(w.step(EventClass::Irrelevant, false, true, 2000), None);
    // Rename events need no note relation: identity may shift anywhere.
    assert_eq!(
        w.step(EventClass::RenameMove, false, false, 3000),
        Some(WatcherEvent::NotesRenamed)
    );
}

#[test]
fn test_index_artifact_names() {
    assert!(check_index_artifact(".notes.db"));
    assert!(check_index_artifact(".notes.db-journal"));
    assert!(check_index_artifact(".notes.db-wal"));
    assert!(!check_index_artifact(".notes.dbx"));
    assert!(!check_index_artifact("notes.db"));
    assert!(!check_index_artifact("_index.md"));
}

#[test]
fn test_content_file_name() {
    assert!(check_content_file_name("_index.md"));
    assert!(!check_content_file_name("index.md"));
    assert!(!check_content_file_name("_index.md.bak"));
}

#[test]
fn test_path_checks() {
    assert!(check_valid_path(""));
    assert!(check_valid_path("a/b/c"));
    assert!(!check_valid_path("/a"));
    assert!(!check_valid_path("a/"));
    assert!(!check_valid_path("a//b"));
    assert!(check_logical("a/_archive/b"));
    assert!(!check_logical("_archive"));
    assert!(!check_logical("_archive/x"));
    assert!(check_logical("_archiveish"));
}
