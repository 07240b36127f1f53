use notes_core::{Error, NotesApi, ScanEntry};

fn entry(path: &str, mtime: u64, content: &str) -> ScanEntry {
    ScanEntry {
        path: path.to_string(),
        mtime,
        content: content.to_string(),
    }
}

#[test]
fn test_create_then_get_returns_empty() {
    let mut api = NotesApi::new("notes");
    let n = api.create_note("inbox", 10).unwrap();
    assert_eq!(n.content, "");
    assert_eq!(n.path, "inbox");

    let got = api.get_note("inbox").unwrap();
    assert_eq!(got.content, "");
    assert_eq!(got.id, n.id);
    assert_eq!(got.modified, 10);

    let again = api.create_note("inbox", 11);
    assert_eq!(again.unwrap_err(), Error::AlreadyExists);
}

#[test]
fn test_get_missing_is_not_found() {
    let api = NotesApi::new("notes");
    assert_eq!(api.get_note("missing").unwrap_err(), Error::NotFound);
}

#[test]
fn test_save_updates_content_and_time() {
    let mut api = NotesApi::new("notes");
    api.create_note("a", 1).unwrap();
    api.save_note("a", "hello", 2).unwrap();
    let n = api.get_note("a").unwrap();
    assert_eq!(n.content, "hello");
    assert_eq!(n.modified, 2);
}

#[test]
fn test_save_missing_is_not_found() {
    let mut api = NotesApi::new("notes");
    assert_eq!(api.save_note("a", "x", 1).unwrap_err(), Error::NotFound);
}

#[test]
fn test_delete_removes_note_and_descendants() {
    let mut api = NotesApi::new("notes");
    api.create_note("parent", 1).unwrap();
    api.create_note("parent/child", 2).unwrap();
    api.create_note("parent/child/grand", 3).unwrap();
    api.create_note("other", 4).unwrap();

    api.delete_note("parent").unwrap();
    assert_eq!(api.get_note("parent").unwrap_err(), Error::NotFound);
    assert_eq!(api.get_note("parent/child").unwrap_err(), Error::NotFound);
    assert_eq!(
        api.get_note("parent/child/grand").unwrap_err(),
        Error::NotFound
    );
    assert!(api.get_note("other").is_ok());
}

#[test]
fn test_delete_missing_is_not_found() {
    let mut api = NotesApi::new("notes");
    assert_eq!(api.delete_note("a").unwrap_err(), Error::NotFound);
}

#[test]
fn test_rename_preserves_identity_and_content() {
    let mut api = NotesApi::new("notes");
    let na = api.create_note("a", 1).unwrap();
    api.save_note("a", "X", 2).unwrap();
    let nb = api.create_note("a/b", 3).unwrap();
    api.save_note("a/b", "Y", 4).unwrap();

    api.rename_note("a", "c").unwrap();

    let c = api.get_note("c").unwrap();
    assert_eq!(c.content, "X");
    assert_eq!(c.id, na.id);
    let cb = api.get_note("c/b").unwrap();
    assert_eq!(cb.content, "Y");
    assert_eq!(cb.id, nb.id);
    assert_eq!(api.get_note("a").unwrap_err(), Error::NotFound);
    assert_eq!(api.get_note("a/b").unwrap_err(), Error::NotFound);
}

#[test]
fn test_rename_to_occupied_fails() {
    let mut api = NotesApi::new("notes");
    api.create_note("a", 1).unwrap();
    api.create_note("b", 2).unwrap();
    assert_eq!(api.rename_note("a", "b").unwrap_err(), Error::AlreadyExists);
}

#[test]
fn test_rename_missing_is_not_found() {
    let mut api = NotesApi::new("notes");
    assert_eq!(api.rename_note("a", "b").unwrap_err(), Error::NotFound);
}

#[test]
fn test_archive_unarchive_round_trip() {
    let mut api = NotesApi::new("notes");
    let n = api.create_note("keep", 1).unwrap();
    api.save_note("keep", "precious", 2).unwrap();
    api.create_note("keep/sub", 3).unwrap();

    api.archive_note("keep").unwrap();
    assert_eq!(api.get_note("keep").unwrap_err(), Error::NotFound);

    api.unarchive_note("keep").unwrap();
    let back = api.get_note("keep").unwrap();
    assert_eq!(back.content, "precious");
    assert_eq!(back.id, n.id);
    assert!(api.get_note("keep/sub").is_ok());
}

#[test]
fn test_archive_missing_is_not_found() {
    let mut api = NotesApi::new("notes");
    assert_eq!(api.archive_note("a").unwrap_err(), Error::NotFound);
}

#[test]
fn test_unarchive_missing_is_not_found() {
    let mut api = NotesApi::new("notes");
    assert_eq!(api.unarchive_note("a").unwrap_err(), Error::NotFound);
}

#[test]
fn test_archive_twice_fails() {
    let mut api = NotesApi::new("notes");
    api.create_note("a", 1).unwrap();
    api.archive_note("a").unwrap();
    assert_eq!(api.archive_note("a").unwrap_err(), Error::NotFound);
}

#[test]
fn test_unarchive_onto_occupied_fails() {
    let mut api = NotesApi::new("notes");
    api.create_note("a", 1).unwrap();
    api.archive_note("a").unwrap();
    api.create_note("a", 2).unwrap();
    assert_eq!(api.unarchive_note("a").unwrap_err(), Error::AlreadyExists);
}

#[test]
fn test_root_notes_exclude_archived_and_nested() {
    let mut api = NotesApi::new("notes");
    api.create_note("a", 1).unwrap();
    api.create_note("a/b", 2).unwrap();
    api.create_note("c", 3).unwrap();
    api.create_note("d", 4).unwrap();
    api.archive_note("c").unwrap();

    let roots = api.get_root_notes().unwrap();
    let paths: Vec<_> = roots.iter().map(|m| m.path.as_str()).collect();
    assert_eq!(roots.len(), 2);
    assert!(paths.contains(&"a"));
    assert!(paths.contains(&"d"));
}

#[test]
fn test_root_notes_skip_gap_levels() {
    let mut api = NotesApi::new("notes");
    // "x/y" exists as a note while "x" is only a directory.
    api.create_note("x/y", 1).unwrap();
    api.create_note("z", 2).unwrap();

    let roots = api.get_root_notes().unwrap();
    let paths: Vec<_> = roots.iter().map(|m| m.path.as_str()).collect();
    assert_eq!(roots.len(), 2);
    assert!(paths.contains(&"x/y"));
    assert!(paths.contains(&"z"));
}

#[test]
fn test_get_children_lists_direct_notes() {
    let mut api = NotesApi::new("notes");
    api.create_note("p", 1).unwrap();
    api.create_note("p/a", 2).unwrap();
    api.create_note("p/b", 3).unwrap();
    api.create_note("p/a/deep", 4).unwrap();
    api.create_note("q", 5).unwrap();

    let children = api.get_children("p").unwrap();
    let paths: Vec<_> = children.iter().map(|m| m.path.as_str()).collect();
    assert_eq!(children.len(), 2);
    assert!(paths.contains(&"p/a"));
    assert!(paths.contains(&"p/b"));
}

#[test]
fn test_get_children_exclude_archived() {
    let mut api = NotesApi::new("notes");
    api.create_note("p", 1).unwrap();
    api.create_note("p/a", 2).unwrap();
    api.create_note("p/b", 3).unwrap();
    api.archive_note("p/b").unwrap();

    let children = api.get_children("p").unwrap();
    let paths: Vec<_> = children.iter().map(|m| m.path.as_str()).collect();
    assert_eq!(children.len(), 1);
    assert!(paths.contains(&"p/a"));
}

#[test]
fn test_get_parent_and_ancestors() {
    let mut api = NotesApi::new("notes");
    api.create_note("a", 1).unwrap();
    api.create_note("a/b/c", 2).unwrap();

    let parent = api.get_parent("a/b/c").unwrap();
    assert!(parent.is_none()); // "a/b" is a bare directory, not a note

    let parent = api.get_parent("a/b").unwrap().unwrap();
    assert_eq!(parent.path, "a");

    // Ancestors skip levels that are not notes, from root to parent.
    let anc = api.get_ancestors("a/b/c").unwrap();
    assert_eq!(anc.len(), 1);
    assert_eq!(anc[0].path, "a");
}

#[test]
fn test_rescan_discovers_external_note() {
    let mut api = NotesApi::new("notes");
    let scan = vec![
        entry("memo", 7, "remember the milk"),
        entry("memo/sub", 8, "details"),
    ];
    api.rescan(&scan).unwrap();

    let n = api.get_note("memo").unwrap();
    assert_eq!(n.content, "remember the milk");
    assert_eq!(n.modified, 7);

    let hits = api.search("MILK").unwrap();
    assert_eq!(hits.len(), 1);
    assert_eq!(hits[0].path, "memo");
}

#[test]
fn test_rescan_preserves_identity_per_path() {
    let mut api = NotesApi::new("notes");
    let n = api.create_note("stable", 1).unwrap();
    api.rescan(&vec![entry("stable", 9, "changed on disk")]).unwrap();
    let after = api.get_note("stable").unwrap();
    assert_eq!(after.id, n.id);
    assert_eq!(after.content, "changed on disk");
    assert_eq!(after.modified, 9);
}

#[test]
fn test_rescan_keeps_identity_across_external_archive_move() {
    let mut api = NotesApi::new("notes");
    let n = api.create_note("moved", 1).unwrap();
    // An external tool moved the note under the archive namespace.
    api.rescan(&vec![entry("_archive/moved", 2, "")]).unwrap();
    assert_eq!(api.get_note("moved").unwrap_err(), Error::NotFound);
    api.unarchive_note("moved").unwrap();
    assert_eq!(api.get_note("moved").unwrap().id, n.id);
}

#[test]
fn test_rescan_drops_deleted_notes() {
    let mut api = NotesApi::new("notes");
    api.create_note("gone", 1).unwrap();
    api.rescan(&vec![]).unwrap();
    assert_eq!(api.get_note("gone").unwrap_err(), Error::NotFound);
}

#[test]
fn test_startup_sync_idempotent() {
    let mut api = NotesApi::new("notes");
    let scan = vec![entry("a", 1, "one"), entry("b", 2, "two")];
    api.startup_sync(&scan).unwrap();
    let ida = api.get_note("a").unwrap().id;
    api.startup_sync(&scan).unwrap();
    assert_eq!(api.get_note("a").unwrap().id, ida);
    assert_eq!(api.get_note("a").unwrap().content, "one");
    assert_eq!(api.get_note("b").unwrap().content, "two");
}

#[test]
fn test_sync_note_updates_and_removes() {
    let mut api = NotesApi::new("notes");
    api.sync_note("seen", Some(("fresh text".to_string(), 5)))
        .unwrap();
    let n = api.get_note("seen").unwrap();
    assert_eq!(n.content, "fresh text");
    assert_eq!(n.modified, 5);

    api.sync_note("seen", None).unwrap();
    assert_eq!(api.get_note("seen").unwrap_err(), Error::NotFound);
}

#[test]
fn test_search_case_insensitive_substring() {
    let mut api = NotesApi::new("notes");
    api.create_note("one", 1).unwrap();
    api.save_note("one", "The Quick Brown Fox", 2).unwrap();
    api.create_note("two", 3).unwrap();
    api.save_note("two", "lazy dog", 4).unwrap();
    api.create_note("three", 5).unwrap();
    api.save_note("three", "QUICKSILVER", 6).unwrap();

    let hits = api.search("quick").unwrap();
    let paths: Vec<_> = hits.iter().map(|m| m.path.as_str()).collect();
    assert_eq!(hits.len(), 2);
    assert!(paths.contains(&"one"));
    assert!(paths.contains(&"three"));

    let hits = api.search("qUiCk BrOwN").unwrap();
    assert_eq!(hits.len(), 1);
    assert_eq!(hits[0].path, "one");

    let none = api.search("wolf").unwrap();
    assert_eq!(none.len(), 0);
}

#[test]
fn test_search_includes_archived_with_flag() {
    let mut api = NotesApi::new("notes");
    api.create_note("boxed", 1).unwrap();
    api.save_note("boxed", "special cargo", 2).unwrap();
    api.archive_note("boxed").unwrap();

    let hits = api.search("cargo").unwrap();
    assert_eq!(hits.len(), 1);
    assert_eq!(hits[0].path, "boxed");
    assert!(hits[0].archived);
}

#[test]
fn test_note_exists() {
    let mut api = NotesApi::new("notes");
    assert_eq!(api.note_exists("a").unwrap(), false);
    api.create_note("a", 1).unwrap();
    assert_eq!(api.note_exists("a").unwrap(), true);
}

#[test]
fn test_root_note_lifecycle() {
    let mut api = NotesApi::new("notes");
    api.create_note("", 1).unwrap();
    api.save_note("", "top of the store", 2).unwrap();
    assert_eq!(api.get_note("").unwrap().content, "top of the store");
    // The root note is a root-level note and an ancestor of everything.
    api.create_note("child", 3).unwrap();
    let roots = api.get_root_notes().unwrap();
    assert_eq!(roots.len(), 1);
    assert_eq!(roots[0].path, "");
    let anc = api.get_ancestors("child").unwrap();
    assert_eq!(anc.len(), 1);
    assert_eq!(anc[0].path, "");
}

#[test]
fn test_delete_root_note_clears_store() {
    let mut api = NotesApi::new("notes");
    api.create_note("", 1).unwrap();
    api.create_note("a", 2).unwrap();
    api.create_note("b", 3).unwrap();
    api.archive_note("b").unwrap();

    // The root note's directory is the store root: deleting it removes
    // everything, the archive namespace included.
    api.delete_note("").unwrap();
    assert_eq!(api.get_note("").unwrap_err(), Error::NotFound);
    assert_eq!(api.get_note("a").unwrap_err(), Error::NotFound);
    assert_eq!(api.unarchive_note("b").unwrap_err(), Error::NotFound);
}

#[test]
fn test_delete_leaves_archived_descendant_aside() {
    let mut api = NotesApi::new("notes");
    api.create_note("a", 1).unwrap();
    api.create_note("a/b", 2).unwrap();
    api.save_note("a/b", "kept aside", 3).unwrap();
    api.archive_note("a/b").unwrap();

    // Deleting `a` removes its physical subtree; the archived copy of
    // `a/b` lives under the archive namespace and survives.
    api.delete_note("a").unwrap();
    assert_eq!(api.get_note("a").unwrap_err(), Error::NotFound);
    assert_eq!(api.get_note("a/b").unwrap_err(), Error::NotFound);
    api.unarchive_note("a/b").unwrap();
    assert_eq!(api.get_note("a/b").unwrap().content, "kept aside");
}

#[test]
fn test_fresh_ids_never_reused() {
    let mut api = NotesApi::new("notes");
    let a = api.create_note("a", 1).unwrap();
    api.delete_note("a").unwrap();
    let b = api.create_note("b", 2).unwrap();
    assert_ne!(a.id, b.id);
}
