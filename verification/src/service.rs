//! The service surface over the engine: the same operations, with a
//! queue of coarse events that mutations append to, for a surrounding
//! shell to drain and deliver.

use vstd::prelude::*;

use crate::filesystem::dir_exists;
use crate::index::{children_rows, ancestor_rows, md_matches, root_rows, search_hits};
use crate::notes::{
    archive_effect, create_effect, delete_effect, rename_effect, rescan_effect, save_effect,
    spec_get_note, sync_remove_effect, sync_upsert_effect, unarchive_effect, Error, Note,
    NoteMetadata, NotesApi, ScanEntry,
};
use crate::paths::{in_subtree, logical_ok, parent_seq, phys_path, valid_path};

verus! {

/// The events a service emits for its mutation operations.
#[derive(Clone, Debug, PartialEq)]
pub enum NotesEvent {
    NoteCreated { path: String },
    NoteUpdated { path: String },
    NoteDeleted { path: String },
    NoteRenamed { old_path: String, new_path: String },
    NoteArchived { path: String },
    NoteUnarchived { path: String },
    NoteSynced { path: String },
    NotesReindexed,
}

/// The ghost form of an emitted event.
pub ghost enum EventRec {
    Created(Seq<char>),
    Updated(Seq<char>),
    Deleted(Seq<char>),
    Renamed(Seq<char>, Seq<char>),
    Archived(Seq<char>),
    Unarchived(Seq<char>),
    Synced(Seq<char>),
    Reindexed,
}

impl View for NotesEvent {
    type V = EventRec;

    open spec fn view(&self) -> EventRec {
        match self {
            NotesEvent::NoteCreated { path } => EventRec::Created(path@),
            NotesEvent::NoteUpdated { path } => EventRec::Updated(path@),
            NotesEvent::NoteDeleted { path } => EventRec::Deleted(path@),
            NotesEvent::NoteRenamed { old_path, new_path } => EventRec::Renamed(
                old_path@,
                new_path@,
            ),
            NotesEvent::NoteArchived { path } => EventRec::Archived(path@),
            NotesEvent::NoteUnarchived { path } => EventRec::Unarchived(path@),
            NotesEvent::NoteSynced { path } => EventRec::Synced(path@),
            NotesEvent::NotesReindexed => EventRec::Reindexed,
        }
    }
}

/// The engine together with the queue of events its mutations emitted.
pub struct NotesService {
    api: NotesApi,
    events: Vec<NotesEvent>,
}

impl NotesService {
    /// The note file tree of the underlying engine.
    pub closed spec fn fs_model(&self) -> Map<Seq<char>, crate::filesystem::FileRec> {
        self.api.fs_model()
    }

    /// The index of the underlying engine.
    pub closed spec fn ix_model(&self) -> Map<(Seq<char>, bool), crate::index::EntryRec> {
        self.api.ix_model()
    }

    /// The next identity the underlying engine will assign.
    pub closed spec fn next_id_model(&self) -> i64 {
        self.api.next_id_model()
    }

    /// The events emitted so far and not yet drained.
    pub closed spec fn events_model(&self) -> Seq<EventRec> {
        self.events@.map(|i: int, e: NotesEvent| e@)
    }

    /// The underlying engine is well-formed.
    pub closed spec fn wf(&self) -> bool {
        self.api.wf()
    }

    /// A fresh service over an empty engine for the given store root.
    pub fn new(notes_root: &str) -> (r: Self)
        ensures
            r.wf(),
            r.fs_model() == Map::<Seq<char>, crate::filesystem::FileRec>::empty(),
            r.ix_model() == Map::<(Seq<char>, bool), crate::index::EntryRec>::empty(),
            r.events_model() == Seq::<EventRec>::empty(),
            r.next_id_model() == 1,
    {
        let r = NotesService { api: NotesApi::new(notes_root), events: Vec::new() };
        proof {
            assert(r.events_model() =~= Seq::<EventRec>::empty());
        }
        r
    }

    /// A fresh service whose identity counter starts at `next_id`:
    /// restarting from a persisted counter keeps identities stable for
    /// the lifetime of the store.
    pub fn new_with_counter(notes_root: &str, next_id: i64) -> (r: Self)
        requires
            next_id >= 1,
        ensures
            r.wf(),
            r.fs_model() == Map::<Seq<char>, crate::filesystem::FileRec>::empty(),
            r.ix_model() == Map::<(Seq<char>, bool), crate::index::EntryRec>::empty(),
            r.events_model() == Seq::<EventRec>::empty(),
            r.next_id_model() == next_id,
    {
        let r = NotesService {
            api: NotesApi::new_with_counter(notes_root, next_id),
            events: Vec::new(),
        };
        proof {
            assert(r.events_model() =~= Seq::<EventRec>::empty());
        }
        r
    }

    /// The identity the next fresh row will get; persisting it across
    /// runs keeps identities stable for the lifetime of the store.
    pub fn current_next_id(&self) -> (r: i64)
        requires
            self.wf(),
        ensures
            r == self.next_id_model(),
            r >= 1,
    {
        self.api.current_next_id()
    }

    /// Drains the queued events, oldest first.
    pub fn take_events(&mut self) -> (r: Vec<NotesEvent>)
        ensures
            final(self).fs_model() == old(self).fs_model(),
            final(self).ix_model() == old(self).ix_model(),
            final(self).next_id_model() == old(self).next_id_model(),
            final(self).wf() == old(self).wf(),
            r@.map(|i: int, e: NotesEvent| e@) == old(self).events_model(),
            final(self).events_model() == Seq::<EventRec>::empty(),
    {
        let mut out: Vec<NotesEvent> = Vec::new();
        core::mem::swap(&mut out, &mut self.events);
        proof {
            assert(final(self).events_model() =~= Seq::<EventRec>::empty());
        }
        out
    }

    /// Creates a new empty note and queues `NoteCreated`.
    pub fn create_note(&mut self, path: &str, now: u64) -> (r: Result<Note, Error>)
        requires
            old(self).wf(),
            logical_ok(path@),
        ensures
            final(self).wf(),
            match r {
                Ok(n) => {
                    &&& create_effect(
                        old(self).fs_model(),
                        old(self).ix_model(),
                        final(self).fs_model(),
                        final(self).ix_model(),
                        path@,
                        now,
                        n.id,
                    )
                    &&& n.id == old(self).next_id_model()
                    &&& n.path@ == path@
                    &&& n.content@ == Seq::<char>::empty()
                    &&& n.modified == now
                    &&& final(self).events_model() == old(self).events_model().push(
                        EventRec::Created(path@),
                    )
                },
                Err(e) => {
                    &&& final(self).fs_model() == old(self).fs_model()
                    &&& final(self).ix_model() == old(self).ix_model()
                    &&& final(self).events_model() == old(self).events_model()
                    &&& (e == Error::AlreadyExists || e == Error::IOFailure)
                    &&& (e == Error::AlreadyExists <==> old(self).fs_model().contains_key(path@))
                    &&& (e == Error::IOFailure ==> old(self).next_id_model() == i64::MAX)
                },
            },
    {
        let n = self.api.create_note(path, now)?;
        self.events.push(NotesEvent::NoteCreated { path: String::from_str(path) });
        proof {
            assert(final(self).events_model() =~= old(self).events_model().push(
                EventRec::Created(path@),
            ));
        }
        Ok(n)
    }

    /// Overwrites a note's content; emits no event.
    pub fn save_note(&mut self, path: &str, content: &str, now: u64) -> (r: Result<(), Error>)
        requires
            old(self).wf(),
            logical_ok(path@),
        ensures
            final(self).wf(),
            final(self).events_model() == old(self).events_model(),
            match r {
                Ok(()) => save_effect(
                    old(self).fs_model(),
                    old(self).ix_model(),
                    final(self).fs_model(),
                    final(self).ix_model(),
                    path@,
                    content@,
                    now,
                ),
                Err(e) => {
                    &&& e == Error::NotFound
                    &&& !old(self).fs_model().contains_key(path@)
                    &&& final(self).fs_model() == old(self).fs_model()
                    &&& final(self).ix_model() == old(self).ix_model()
                },
            },
    {
        self.api.save_note(path, content, now)
    }

    /// Deletes a note and its whole subtree and queues `NoteDeleted`.
    pub fn delete_note(&mut self, path: &str) -> (r: Result<(), Error>)
        requires
            old(self).wf(),
            logical_ok(path@),
        ensures
            final(self).wf(),
            match r {
                Ok(()) => delete_effect(
                    old(self).fs_model(),
                    old(self).ix_model(),
                    final(self).fs_model(),
                    final(self).ix_model(),
                    path@,
                ) && final(self).events_model() == old(self).events_model().push(
                    EventRec::Deleted(path@),
                ),
                Err(e) => {
                    &&& e == Error::NotFound
                    &&& !old(self).fs_model().contains_key(path@)
                    &&& final(self).fs_model() == old(self).fs_model()
                    &&& final(self).ix_model() == old(self).ix_model()
                    &&& final(self).events_model() == old(self).events_model()
                },
            },
    {
        self.api.delete_note(path)?;
        self.events.push(NotesEvent::NoteDeleted { path: String::from_str(path) });
        proof {
            assert(final(self).events_model() =~= old(self).events_model().push(
                EventRec::Deleted(path@),
            ));
        }
        Ok(())
    }

    /// Renames a note and every descendant and queues `NoteRenamed`.
    pub fn rename_note(&mut self, old_path: &str, new_path: &str) -> (r: Result<(), Error>)
        requires
            old(self).wf(),
            logical_ok(old_path@),
            logical_ok(new_path@),
            old_path@.len() > 0,
            new_path@.len() > 0,
        ensures
            final(self).wf(),
            match r {
                Ok(()) => rename_effect(
                    old(self).fs_model(),
                    old(self).ix_model(),
                    final(self).fs_model(),
                    final(self).ix_model(),
                    old_path@,
                    new_path@,
                ) && final(self).events_model() == old(self).events_model().push(
                    EventRec::Renamed(old_path@, new_path@),
                ),
                Err(e) => {
                    &&& final(self).fs_model() == old(self).fs_model()
                    &&& final(self).ix_model() == old(self).ix_model()
                    &&& final(self).events_model() == old(self).events_model()
                    &&& (e == Error::NotFound || e == Error::AlreadyExists)
                    &&& (e == Error::NotFound <==> !old(self).fs_model().contains_key(old_path@))
                    &&& (e == Error::AlreadyExists <==> old(self).fs_model().contains_key(
                        old_path@,
                    ) && (dir_exists(old(self).fs_model(), new_path@) || in_subtree(
                        new_path@,
                        old_path@,
                    )))
                },
            },
    {
        self.api.rename_note(old_path, new_path)?;
        self.events.push(
            NotesEvent::NoteRenamed {
                old_path: String::from_str(old_path),
                new_path: String::from_str(new_path),
            },
        );
        proof {
            assert(final(self).events_model() =~= old(self).events_model().push(
                EventRec::Renamed(old_path@, new_path@),
            ));
        }
        Ok(())
    }

    /// Archives a note and its subtree and queues `NoteArchived`.
    pub fn archive_note(&mut self, path: &str) -> (r: Result<(), Error>)
        requires
            old(self).wf(),
            logical_ok(path@),
            path@.len() > 0,
        ensures
            final(self).wf(),
            match r {
                Ok(()) => archive_effect(
                    old(self).fs_model(),
                    old(self).ix_model(),
                    final(self).fs_model(),
                    final(self).ix_model(),
                    path@,
                ) && final(self).events_model() == old(self).events_model().push(
                    EventRec::Archived(path@),
                ),
                Err(e) => {
                    &&& final(self).fs_model() == old(self).fs_model()
                    &&& final(self).ix_model() == old(self).ix_model()
                    &&& final(self).events_model() == old(self).events_model()
                    &&& (e == Error::NotFound || e == Error::AlreadyExists)
                    &&& (e == Error::NotFound <==> !old(self).fs_model().contains_key(path@))
                    &&& (e == Error::AlreadyExists <==> old(self).fs_model().contains_key(path@)
                        && dir_exists(old(self).fs_model(), phys_path(path@, true)))
                },
            },
    {
        self.api.archive_note(path)?;
        self.events.push(NotesEvent::NoteArchived { path: String::from_str(path) });
        proof {
            assert(final(self).events_model() =~= old(self).events_model().push(
                EventRec::Archived(path@),
            ));
        }
        Ok(())
    }

    /// Restores an archived note and its subtree and queues
    /// `NoteUnarchived`.
    pub fn unarchive_note(&mut self, path: &str) -> (r: Result<(), Error>)
        requires
            old(self).wf(),
            logical_ok(path@),
            path@.len() > 0,
        ensures
            final(self).wf(),
            match r {
                Ok(()) => unarchive_effect(
                    old(self).fs_model(),
                    old(self).ix_model(),
                    final(self).fs_model(),
                    final(self).ix_model(),
                    path@,
                ) && final(self).events_model() == old(self).events_model().push(
                    EventRec::Unarchived(path@),
                ),
                Err(e) => {
                    &&& final(self).fs_model() == old(self).fs_model()
                    &&& final(self).ix_model() == old(self).ix_model()
                    &&& final(self).events_model() == old(self).events_model()
                    &&& (e == Error::NotFound || e == Error::AlreadyExists)
                    &&& (e == Error::NotFound <==> !old(self).fs_model().contains_key(
                        phys_path(path@, true),
                    ))
                    &&& (e == Error::AlreadyExists <==> old(self).fs_model().contains_key(
                        phys_path(path@, true),
                    ) && dir_exists(old(self).fs_model(), path@))
                },
            },
    {
        self.api.unarchive_note(path)?;
        self.events.push(NotesEvent::NoteUnarchived { path: String::from_str(path) });
        proof {
            assert(final(self).events_model() =~= old(self).events_model().push(
                EventRec::Unarchived(path@),
            ));
        }
        Ok(())
    }

    /// Reconciles one path against an observation and queues
    /// `NoteSynced`.
    pub fn sync_note(&mut self, path: &str, observed: Option<(String, u64)>) -> (r: Result<
        (),
        Error,
    >)
        requires
            old(self).wf(),
            logical_ok(path@),
        ensures
            final(self).wf(),
            match r {
                Ok(()) => {
                    &&& match observed {
                        Some(o) => sync_upsert_effect(
                            old(self).fs_model(),
                            old(self).ix_model(),
                            final(self).fs_model(),
                            final(self).ix_model(),
                            path@,
                            o.0@,
                            o.1,
                            if old(self).ix_model().contains_key((path@, false)) {
                                old(self).ix_model()[(path@, false)].id
                            } else {
                                old(self).next_id_model()
                            },
                        ),
                        None => sync_remove_effect(
                            old(self).fs_model(),
                            old(self).ix_model(),
                            final(self).fs_model(),
                            final(self).ix_model(),
                            path@,
                        ),
                    }
                    &&& final(self).events_model() == old(self).events_model().push(
                        EventRec::Synced(path@),
                    )
                },
                Err(e) => {
                    &&& e == Error::IOFailure
                    &&& old(self).next_id_model() == i64::MAX
                    &&& final(self).fs_model() == old(self).fs_model()
                    &&& final(self).ix_model() == old(self).ix_model()
                    &&& final(self).events_model() == old(self).events_model()
                },
            },
    {
        self.api.sync_note(path, observed)?;
        self.events.push(NotesEvent::NoteSynced { path: String::from_str(path) });
        proof {
            assert(final(self).events_model() =~= old(self).events_model().push(
                EventRec::Synced(path@),
            ));
        }
        Ok(())
    }

    /// Full reconciliation against a scan and queues `NotesReindexed`.
    pub fn rescan(&mut self, scan: &Vec<ScanEntry>) -> (r: Result<(), Error>)
        requires
            old(self).wf(),
            crate::notes::scan_wf(scan@),
        ensures
            final(self).wf(),
            match r {
                Ok(()) => rescan_effect(
                    old(self).ix_model(),
                    final(self).fs_model(),
                    final(self).ix_model(),
                    scan@,
                    old(self).next_id_model(),
                ) && final(self).events_model() == old(self).events_model().push(
                    EventRec::Reindexed,
                ),
                Err(e) => {
                    &&& e == Error::IOFailure
                    &&& old(self).next_id_model() + scan@.len() > i64::MAX
                    &&& final(self).fs_model() == old(self).fs_model()
                    &&& final(self).ix_model() == old(self).ix_model()
                    &&& final(self).events_model() == old(self).events_model()
                },
            },
    {
        self.api.rescan(scan)?;
        self.events.push(NotesEvent::NotesReindexed);
        proof {
            assert(final(self).events_model() =~= old(self).events_model().push(
                EventRec::Reindexed,
            ));
        }
        Ok(())
    }

    /// Full reconciliation at startup; same contract as `rescan`.
    pub fn startup_sync(&mut self, scan: &Vec<ScanEntry>) -> (r: Result<(), Error>)
        requires
            old(self).wf(),
            crate::notes::scan_wf(scan@),
        ensures
            final(self).wf(),
            match r {
                Ok(()) => rescan_effect(
                    old(self).ix_model(),
                    final(self).fs_model(),
                    final(self).ix_model(),
                    scan@,
                    old(self).next_id_model(),
                ) && final(self).events_model() == old(self).events_model().push(
                    EventRec::Reindexed,
                ),
                Err(e) => {
                    &&& e == Error::IOFailure
                    &&& old(self).next_id_model() + scan@.len() > i64::MAX
                    &&& final(self).fs_model() == old(self).fs_model()
                    &&& final(self).ix_model() == old(self).ix_model()
                    &&& final(self).events_model() == old(self).events_model()
                },
            },
    {
        self.rescan(scan)
    }

    /// Retrieves a note with its full content.
    pub fn get_note(&self, path: &str) -> (r: Result<Note, Error>)
        requires
            self.wf(),
            logical_ok(path@),
        ensures
            match r {
                Ok(n) => spec_get_note(self.fs_model(), self.ix_model(), path@) == Some(
                    (n.id, n.content@, n.modified),
                ) && n.path@ == path@,
                Err(e) => e == Error::NotFound && spec_get_note(
                    self.fs_model(),
                    self.ix_model(),
                    path@,
                ) is None,
            },
    {
        self.api.get_note(path)
    }

    /// Whether an unarchived note exists at the path.
    pub fn note_exists(&self, path: &str) -> (r: Result<bool, Error>)
        requires
            self.wf(),
            logical_ok(path@),
        ensures
            r == Result::<bool, Error>::Ok(self.fs_model().contains_key(path@)),
    {
        self.api.note_exists(path)
    }

    /// All direct children of a note position.
    pub fn get_children(&self, path: &str) -> (r: Result<Vec<NoteMetadata>, Error>)
        requires
            self.wf(),
        ensures
            match r {
                Ok(v) => children_rows(self.ix_model(), path@, v@),
                Err(_) => false,
            },
    {
        self.api.get_children(path)
    }

    /// The parent note's metadata, when the parent position holds one.
    pub fn get_parent(&self, path: &str) -> (r: Result<Option<NoteMetadata>, Error>)
        requires
            self.wf(),
        ensures
            match r {
                Ok(o) => match o {
                    Some(md) => path@.len() > 0 && md.path@ == parent_seq(path@) && md.archived
                        == false && md_matches(self.ix_model(), md),
                    None => path@.len() == 0 || !self.ix_model().contains_key(
                        (parent_seq(path@), false),
                    ),
                },
                Err(_) => false,
            },
    {
        self.api.get_parent(path)
    }

    /// All ancestor notes from the root down to the parent.
    pub fn get_ancestors(&self, path: &str) -> (r: Result<Vec<NoteMetadata>, Error>)
        requires
            self.wf(),
            valid_path(path@),
        ensures
            match r {
                Ok(v) => ancestor_rows(self.ix_model(), path@, v@),
                Err(_) => false,
            },
    {
        self.api.get_ancestors(path)
    }

    /// All top-level notes: those without an ancestor note.
    pub fn get_root_notes(&self) -> (r: Result<Vec<NoteMetadata>, Error>)
        requires
            self.wf(),
        ensures
            match r {
                Ok(v) => root_rows(self.ix_model(), v@),
                Err(_) => false,
            },
    {
        self.api.get_root_notes()
    }

    /// Full-text search across all note content.
    pub fn search(&self, query: &str) -> (r: Result<Vec<NoteMetadata>, Error>)
        requires
            self.wf(),
        ensures
            match r {
                Ok(v) => search_hits(self.ix_model(), query@, v@),
                Err(_) => false,
            },
    {
        self.api.search(query)
    }
}

} // verus!
