//! Core of a hierarchical note store: a path mapper, an in-memory model of
//! the note file tree, a derived queryable index, the sync engine that keeps
//! tree and index consistent, and the debounced change-watcher state machine.

pub mod filesystem;
pub mod index;
pub mod laws;
pub mod notes;
pub mod paths;
pub mod service;
pub mod watcher;

pub use filesystem::NoteFilesystem;
pub use notes::{Error, Note, NoteMetadata, NotesApi, ScanEntry};
pub use service::{NotesEvent, NotesService};
pub use watcher::{EventClass, NoteWatcher, WatcherEvent};
