use notes_core::filesystem::NoteFilesystem;

#[test]
fn test_create_and_read_note() {
    let mut fs = NoteFilesystem::new("notes");

    fs.create_note("test", 1).unwrap();
    let content = fs.read_note("test").unwrap();
    assert_eq!(content, "");
}

#[test]
fn test_write_and_read_note() {
    let mut fs = NoteFilesystem::new("notes");

    fs.write_note("test", "Hello, World!", 1);
    let content = fs.read_note("test").unwrap();
    assert_eq!(content, "Hello, World!");
}

#[test]
fn test_create_nested_note() {
    let mut fs = NoteFilesystem::new("notes");

    fs.create_note("projects/rust", 1).unwrap();
    let content = fs.read_note("projects/rust").unwrap();
    assert_eq!(content, "");
}

#[test]
fn test_delete_note() {
    let mut fs = NoteFilesystem::new("notes");

    fs.create_note("test", 1).unwrap();
    fs.delete_note("test").unwrap();
    assert!(fs.read_note("test").is_err());
}

#[test]
fn test_delete_note_with_children() {
    let mut fs = NoteFilesystem::new("notes");

    fs.write_note("parent", "Parent content", 1);
    fs.write_note("parent/child", "Child content", 2);

    fs.delete_note("parent").unwrap();
    assert!(fs.read_note("parent").is_err());
    assert!(fs.read_note("parent/child").is_err());
}

#[test]
fn test_scan_all() {
    let mut fs = NoteFilesystem::new("notes");

    fs.write_note("inbox", "Inbox content", 1);
    fs.write_note("projects", "Projects content", 2);
    fs.write_note("projects/rust-app", "Rust app content", 3);

    let notes = fs.scan_all();
    assert_eq!(notes.len(), 3);

    let paths: Vec<_> = notes.iter().map(|n| n.path.as_str()).collect();
    assert!(paths.contains(&"inbox"));
    assert!(paths.contains(&"projects"));
    assert!(paths.contains(&"projects/rust-app"));
}

#[test]
fn test_get_parent_path() {
    let fs = NoteFilesystem::new("notes");

    assert_eq!(fs.get_parent_path(""), None);
    assert_eq!(fs.get_parent_path("inbox"), None);
    assert_eq!(
        fs.get_parent_path("projects/rust-app"),
        Some("projects".to_string())
    );
    assert_eq!(
        fs.get_parent_path("projects/rust-app/architecture"),
        Some("projects/rust-app".to_string())
    );
}

#[test]
fn test_list_children() {
    let mut fs = NoteFilesystem::new("notes");

    fs.write_note("parent", "Parent content", 1);
    fs.write_note("parent/child1", "Child 1", 2);
    fs.write_note("parent/child2", "Child 2", 3);

    let children = fs.list_children("parent").unwrap();
    assert_eq!(children.len(), 2);
    assert!(children.contains(&"parent/child1".to_string()));
    assert!(children.contains(&"parent/child2".to_string()));
}

#[test]
fn test_special_characters_in_path() {
    let mut fs = NoteFilesystem::new("notes");

    fs.write_note("note-with-dashes", "Content", 1);
    let content = fs.read_note("note-with-dashes").unwrap();
    assert_eq!(content, "Content");

    fs.write_note("note_with_underscores", "Content", 2);
    let content = fs.read_note("note_with_underscores").unwrap();
    assert_eq!(content, "Content");
}

#[test]
fn test_deep_nesting() {
    let mut fs = NoteFilesystem::new("notes");

    fs.write_note("a/b/c/d/e", "Deep content", 1);
    let content = fs.read_note("a/b/c/d/e").unwrap();
    assert_eq!(content, "Deep content");

    let parent = fs.get_parent_path("a/b/c/d/e");
    assert_eq!(parent, Some("a/b/c/d".to_string()));
}

#[test]
fn test_read_nonexistent_note() {
    let fs = NoteFilesystem::new("notes");

    assert!(fs.read_note("nonexistent").is_err());
}

#[test]
fn test_create_duplicate_note() {
    let mut fs = NoteFilesystem::new("notes");

    fs.create_note("test", 1).unwrap();
    assert!(fs.create_note("test", 2).is_err());
}

#[test]
fn test_scan_nested_structure() {
    let mut fs = NoteFilesystem::new("notes");

    fs.write_note("inbox", "Inbox", 1);
    fs.write_note("projects", "Projects", 2);
    fs.write_note("projects/rust-app", "Rust app", 3);
    fs.write_note("projects/rust-app/architecture", "Architecture", 4);

    let notes = fs.scan_all();
    assert_eq!(notes.len(), 4);
}

#[test]
fn test_mtime_tracking() {
    let mut fs = NoteFilesystem::new("notes");

    fs.write_note("test", "Content", 42);
    let notes = fs.scan_all();

    assert_eq!(notes.len(), 1);
    assert_eq!(notes[0].mtime, 42);
}

#[test]
fn test_list_children_empty() {
    let mut fs = NoteFilesystem::new("notes");

    fs.write_note("parent", "Parent content", 1);
    let children = fs.list_children("parent").unwrap();
    assert_eq!(children.len(), 0);
}

#[test]
fn test_root_note() {
    let mut fs = NoteFilesystem::new("notes");

    fs.write_note("", "Root content", 1);
    let content = fs.read_note("").unwrap();
    assert_eq!(content, "Root content");
}

#[test]
fn test_list_children_missing_dir() {
    let fs = NoteFilesystem::new("notes");
    assert_eq!(
        fs.list_children("nowhere").unwrap_err(),
        notes_core::Error::NotFound
    );
}

#[test]
fn test_move_subtree_relocates_notes() {
    let mut fs = NoteFilesystem::new("notes");
    fs.write_note("a", "A", 1);
    fs.write_note("a/b", "B", 2);
    fs.write_note("other", "O", 3);

    fs.move_subtree("a", "c");
    assert_eq!(fs.read_note("c").unwrap(), "A");
    assert_eq!(fs.read_note("c/b").unwrap(), "B");
    assert_eq!(fs.read_note("other").unwrap(), "O");
    assert!(fs.read_note("a").is_err());
    assert!(fs.read_note("a/b").is_err());
}

#[test]
fn test_note_to_fs_path() {
    let fs = NoteFilesystem::new("notes");
    assert_eq!(fs.note_to_fs_path(""), "_index.md");
    assert_eq!(fs.note_to_fs_path("a/b"), "a/b/_index.md");
}
