//! The sync engine: note records, the typed error taxonomy, and the
//! operations that keep the note file tree and the derived index mutually
//! consistent.
//!
//! Every operation leaves tree and index consistent for the subtree it
//! touched before it returns; the well-formedness predicate `wf` states
//! that consistency and is preserved by every operation.

use vstd::prelude::*;

use crate::filesystem::{dir_exists, FileRec, NoteFilesystem};
use crate::index::{flipped_key, md_matches, renamed_key, EntryRec, NoteIndex};
use crate::paths::{
    archive_seg, in_archive, in_subtree, lemma_archive_phys_outside, lemma_archive_seg_valid,
    lemma_join_subtree_iff, lemma_join_valid, lemma_phys_strip, lemma_rewrite_from_archive,
    lemma_rewrite_logical, lemma_rewrite_to_archive, lemma_strip_phys_id,
    lemma_subtree_in_archive, logical_ok, moved_path, parent_seq, phys_path, rewrite_prefix,
    strip_archive, to_phys, valid_path,
};

verus! {

/// Typed failure taxonomy of the engine and its surroundings.
#[derive(Clone, Copy, Debug, PartialEq, Eq, Structural)]
pub enum Error {
    /// The operation addressed a path with no corresponding note.
    NotFound,
    /// A create-style operation addressed a path that already has content.
    AlreadyExists,
    /// The underlying storage medium failed, or an internal resource such
    /// as the identity counter is exhausted.
    IOFailure,
    /// A prior operation panicked while holding the engine lock; the
    /// engine instance is unrecoverable.
    PoisonedState,
    /// A raw filesystem event could not be read or interpreted; the
    /// watcher logs it and continues.
    WatcherObservation,
}

/// A full note record: stable identity, logical path, content, and the
/// last-modified timestamp in seconds.
#[derive(Clone, Debug)]
pub struct Note {
    pub id: i64,
    pub path: String,
    pub content: String,
    pub modified: u64,
}

/// A lightweight index-resident record: identity, logical path,
/// last-modified timestamp, and whether the note lives in the archive
/// namespace. Content is deliberately excluded.
#[derive(Clone, Debug)]
pub struct NoteMetadata {
    pub id: i64,
    pub path: String,
    pub modified: u64,
    pub archived: bool,
}

/// What an external scan reports of one note: its physical path, the
/// last-modified time of its content file, and its text.
#[derive(Clone, Debug)]
pub struct ScanEntry {
    pub path: String,
    pub mtime: u64,
    pub content: String,
}

/// The index exactly reflects the note file tree: every index row points
/// at an existing file with the same content and time, and every file has
/// its row under the logical form of its path.
pub open spec fn consistent(
    fsm: Map<Seq<char>, FileRec>,
    ixm: Map<(Seq<char>, bool), EntryRec>,
) -> bool {
    &&& forall|k: (Seq<char>, bool)| #[trigger] ixm.contains_key(k) ==> {
        &&& logical_ok(k.0)
        &&& fsm.contains_key(phys_path(k.0, k.1))
        &&& fsm[phys_path(k.0, k.1)].content == ixm[k].content
        &&& fsm[phys_path(k.0, k.1)].mtime == ixm[k].mtime
    }
    &&& forall|k: Seq<char>| #[trigger] fsm.contains_key(k) ==> logical_ok(strip_archive(k))
        && ixm.contains_key((strip_archive(k), in_archive(k)))
}

/// What fetching the note at logical path `l` returns: the content file
/// at the unarchived location, with identity and time from the index.
pub open spec fn spec_get_note(
    fsm: Map<Seq<char>, FileRec>,
    ixm: Map<(Seq<char>, bool), EntryRec>,
    l: Seq<char>,
) -> Option<(i64, Seq<char>, u64)> {
    if fsm.contains_key(l) && ixm.contains_key((l, false)) {
        Some((ixm[(l, false)].id, fsm[l].content, ixm[(l, false)].mtime))
    } else {
        None
    }
}

/// The state change of creating an empty note at `l` under identity `id`.
pub open spec fn create_effect(
    fs0: Map<Seq<char>, FileRec>,
    ix0: Map<(Seq<char>, bool), EntryRec>,
    fs1: Map<Seq<char>, FileRec>,
    ix1: Map<(Seq<char>, bool), EntryRec>,
    l: Seq<char>,
    now: u64,
    id: i64,
) -> bool {
    &&& !fs0.contains_key(l)
    &&& fs1 == fs0.insert(l, FileRec { content: Seq::<char>::empty(), mtime: now })
    &&& ix1 == ix0.insert((l, false), EntryRec { id: id, mtime: now, content: Seq::<char>::empty() })
}

/// The state change of overwriting the note at `l` with `c`, keeping its
/// identity.
pub open spec fn save_effect(
    fs0: Map<Seq<char>, FileRec>,
    ix0: Map<(Seq<char>, bool), EntryRec>,
    fs1: Map<Seq<char>, FileRec>,
    ix1: Map<(Seq<char>, bool), EntryRec>,
    l: Seq<char>,
    c: Seq<char>,
    now: u64,
) -> bool {
    &&& fs0.contains_key(l)
    &&& ix0.contains_key((l, false))
    &&& fs1 == fs0.insert(l, FileRec { content: c, mtime: now })
    &&& ix1 == ix0.insert((l, false), EntryRec { id: ix0[(l, false)].id, mtime: now, content: c })
}

/// The state change of deleting the note at `l` with its whole physical
/// subtree: archived descendants live elsewhere and survive.
pub open spec fn delete_effect(
    fs0: Map<Seq<char>, FileRec>,
    ix0: Map<(Seq<char>, bool), EntryRec>,
    fs1: Map<Seq<char>, FileRec>,
    ix1: Map<(Seq<char>, bool), EntryRec>,
    l: Seq<char>,
) -> bool {
    &&& fs0.contains_key(l)
    &&& forall|k: Seq<char>|
        #[trigger] fs1.contains_key(k) <==> (fs0.contains_key(k) && !in_subtree(k, l))
    &&& forall|k: Seq<char>| fs1.contains_key(k) ==> #[trigger] fs1[k] == fs0[k]
    &&& forall|k: (Seq<char>, bool)|
        #[trigger] ix1.contains_key(k) <==> (ix0.contains_key(k) && !in_subtree(
            phys_path(k.0, k.1),
            l,
        ))
    &&& forall|k: (Seq<char>, bool)| ix1.contains_key(k) ==> #[trigger] ix1[k] == ix0[k]
}

/// The state change of reconciling one path against an observation: the
/// note is updated (keeping its identity where it had one) or removed.
pub open spec fn sync_upsert_effect(
    fs0: Map<Seq<char>, FileRec>,
    ix0: Map<(Seq<char>, bool), EntryRec>,
    fs1: Map<Seq<char>, FileRec>,
    ix1: Map<(Seq<char>, bool), EntryRec>,
    l: Seq<char>,
    c: Seq<char>,
    t: u64,
    id: i64,
) -> bool {
    &&& fs1 == fs0.insert(l, FileRec { content: c, mtime: t })
    &&& ix1 == ix0.insert((l, false), EntryRec { id: id, mtime: t, content: c })
    &&& (ix0.contains_key((l, false)) ==> id == ix0[(l, false)].id)
}

/// The state change of reconciling one path whose content file is gone.
pub open spec fn sync_remove_effect(
    fs0: Map<Seq<char>, FileRec>,
    ix0: Map<(Seq<char>, bool), EntryRec>,
    fs1: Map<Seq<char>, FileRec>,
    ix1: Map<(Seq<char>, bool), EntryRec>,
    l: Seq<char>,
) -> bool {
    &&& fs1 == fs0.remove(l)
    &&& ix1 == ix0.remove((l, false))
}

/// The index key a scan record stands for.
pub open spec fn scan_key(e: ScanEntry) -> (Seq<char>, bool) {
    (strip_archive(e.path@), in_archive(e.path@))
}

/// A well-formed scan: normalized physical paths whose logical forms are
/// note paths, no path reported twice.
pub open spec fn scan_wf(s: Seq<ScanEntry>) -> bool {
    &&& forall|j: int|
        0 <= j < s.len() ==> valid_path((#[trigger] s[j]).path@) && logical_ok(
            strip_archive(s[j].path@),
        )
    &&& forall|j1: int, j2: int| 0 <= j1 < j2 < s.len() ==> s[j1].path@ != s[j2].path@
}

/// Whether a scan reports the physical path `k`.
pub open spec fn scan_has(s: Seq<ScanEntry>, k: Seq<char>) -> bool {
    exists|j: int| 0 <= j < s.len() && (#[trigger] s[j]).path@ == k
}

/// The state change of a full reconciliation against a scan: the file
/// tree becomes exactly what the scan reported; the index holds exactly
/// the matching rows; a row keeps the identity its logical path had
/// (preferring the same archive side, else the other side if that side's
/// file is gone), and otherwise gets one never assigned before.
pub open spec fn rescan_effect(
    ix0: Map<(Seq<char>, bool), EntryRec>,
    fs1: Map<Seq<char>, FileRec>,
    ix1: Map<(Seq<char>, bool), EntryRec>,
    s: Seq<ScanEntry>,
    next0: i64,
) -> bool {
    &&& forall|k: Seq<char>| #[trigger] fs1.contains_key(k) <==> scan_has(s, k)
    &&& forall|j: int|
        0 <= j < s.len() ==> fs1.contains_key((#[trigger] s[j]).path@) && fs1[s[j].path@]
            == (FileRec { content: s[j].content@, mtime: s[j].mtime })
    &&& forall|k: (Seq<char>, bool)|
        #[trigger] ix1.contains_key(k) <==> (logical_ok(k.0) && scan_has(s, phys_path(k.0, k.1)))
    &&& forall|j: int|
        0 <= j < s.len() ==> ix1.contains_key(scan_key(#[trigger] s[j]))
            && ix1[scan_key(s[j])].content == s[j].content@ && ix1[scan_key(s[j])].mtime
            == s[j].mtime
    &&& forall|j: int| 0 <= j < s.len() ==> {
        let k = scan_key(#[trigger] s[j]);
        if ix0.contains_key(k) {
            ix1[k].id == ix0[k].id
        } else if ix0.contains_key((k.0, !k.1)) && !scan_has(s, phys_path(k.0, !k.1)) {
            ix1[k].id == ix0[(k.0, !k.1)].id
        } else {
            ix1[k].id >= next0
        }
    }
}

/// Whether a scan vector reports the given physical path.
fn scan_has_exec(scan: &Vec<ScanEntry>, path: &str) -> (r: bool)
    ensures
        r == scan_has(scan@, path@),
{
    let mut j: usize = 0;
    while j < scan.len()
        invariant
            j <= scan@.len(),
            forall|j0: int| 0 <= j0 < j ==> (#[trigger] scan@[j0]).path@ != path@,
        decreases scan@.len() - j,
    {
        if crate::paths::str_eq(scan[j].path.as_str(), path) {
            return true;
        }
        j = j + 1;
    }
    false
}

/// The pointwise description of a physical subtree move from `a` to `b`:
/// files outside the subtree stay, files inside land under `b`, and
/// nothing else appears.
pub open spec fn fs_move_effect(
    fs0: Map<Seq<char>, FileRec>,
    fs1: Map<Seq<char>, FileRec>,
    a: Seq<char>,
    b: Seq<char>,
) -> bool {
    &&& forall|k: Seq<char>|
        #[trigger] fs0.contains_key(k) && !in_subtree(k, a) ==> fs1.contains_key(k) && fs1[k]
            == fs0[k]
    &&& forall|k: Seq<char>|
        #[trigger] fs0.contains_key(k) && in_subtree(k, a) ==> fs1.contains_key(
            rewrite_prefix(k, a, b),
        ) && fs1[rewrite_prefix(k, a, b)] == fs0[k]
    &&& forall|k: Seq<char>| #[trigger] fs1.contains_key(k) ==> exists|k0: Seq<char>|
        #[trigger] fs0.contains_key(k0) && k == moved_path(k0, a, b)
}

/// The state change of renaming the note at `a` to `b`: the physical
/// subtree moves, unarchived rows under `a` are re-keyed under `b` with
/// identities preserved, archived rows stay put.
pub open spec fn rename_effect(
    fs0: Map<Seq<char>, FileRec>,
    ix0: Map<(Seq<char>, bool), EntryRec>,
    fs1: Map<Seq<char>, FileRec>,
    ix1: Map<(Seq<char>, bool), EntryRec>,
    a: Seq<char>,
    b: Seq<char>,
) -> bool {
    &&& fs0.contains_key(a)
    &&& !dir_exists(fs0, b)
    &&& !in_subtree(b, a)
    &&& fs_move_effect(fs0, fs1, a, b)
    &&& forall|k: (Seq<char>, bool)|
        #[trigger] ix0.contains_key(k) ==> ix1.contains_key(renamed_key(k, a, b))
            && ix1[renamed_key(k, a, b)] == ix0[k]
    &&& forall|k: (Seq<char>, bool)| #[trigger] ix1.contains_key(k) ==> exists|
        k0: (Seq<char>, bool),
    | #[trigger] ix0.contains_key(k0) && k == renamed_key(k0, a, b)
}

/// The state change of archiving the note at `p`: its physical subtree
/// moves under the reserved namespace and the matching rows flip their
/// archive flag, identities preserved.
pub open spec fn archive_effect(
    fs0: Map<Seq<char>, FileRec>,
    ix0: Map<(Seq<char>, bool), EntryRec>,
    fs1: Map<Seq<char>, FileRec>,
    ix1: Map<(Seq<char>, bool), EntryRec>,
    p: Seq<char>,
) -> bool {
    &&& fs0.contains_key(p)
    &&& !dir_exists(fs0, phys_path(p, true))
    &&& fs_move_effect(fs0, fs1, p, phys_path(p, true))
    &&& forall|k: (Seq<char>, bool)|
        #[trigger] ix0.contains_key(k) ==> ix1.contains_key(flipped_key(k, p, false))
            && ix1[flipped_key(k, p, false)] == ix0[k]
    &&& forall|k: (Seq<char>, bool)| #[trigger] ix1.contains_key(k) ==> exists|
        k0: (Seq<char>, bool),
    | #[trigger] ix0.contains_key(k0) && k == flipped_key(k0, p, false)
}

/// The state change of restoring the archived note at `p`: the reverse
/// of archiving, identities preserved.
pub open spec fn unarchive_effect(
    fs0: Map<Seq<char>, FileRec>,
    ix0: Map<(Seq<char>, bool), EntryRec>,
    fs1: Map<Seq<char>, FileRec>,
    ix1: Map<(Seq<char>, bool), EntryRec>,
    p: Seq<char>,
) -> bool {
    &&& fs0.contains_key(phys_path(p, true))
    &&& !dir_exists(fs0, p)
    &&& fs_move_effect(fs0, fs1, phys_path(p, true), p)
    &&& forall|k: (Seq<char>, bool)|
        #[trigger] ix0.contains_key(k) ==> ix1.contains_key(flipped_key(k, p, true))
            && ix1[flipped_key(k, p, true)] == ix0[k]
    &&& forall|k: (Seq<char>, bool)| #[trigger] ix1.contains_key(k) ==> exists|
        k0: (Seq<char>, bool),
    | #[trigger] ix0.contains_key(k0) && k == flipped_key(k0, p, true)
}

/// After inserting a note file and its row with matching payloads, a
/// consistent state stays consistent.
proof fn lemma_consistent_insert(
    fs0: Map<Seq<char>, FileRec>,
    ix0: Map<(Seq<char>, bool), EntryRec>,
    l: Seq<char>,
    archived: bool,
    c: Seq<char>,
    t: u64,
    id: i64,
)
    requires
        consistent(fs0, ix0),
        logical_ok(l),
    ensures
        consistent(
            fs0.insert(phys_path(l, archived), FileRec { content: c, mtime: t }),
            ix0.insert((l, archived), EntryRec { id: id, mtime: t, content: c }),
        ),
{
    let fs1 = fs0.insert(phys_path(l, archived), FileRec { content: c, mtime: t });
    let ix1 = ix0.insert((l, archived), EntryRec { id: id, mtime: t, content: c });
    lemma_phys_strip(l, archived);
    assert forall|k: (Seq<char>, bool)| #[trigger] ix1.contains_key(k) implies {
        &&& logical_ok(k.0)
        &&& fs1.contains_key(phys_path(k.0, k.1))
        &&& fs1[phys_path(k.0, k.1)].content == ix1[k].content
        &&& fs1[phys_path(k.0, k.1)].mtime == ix1[k].mtime
    } by {
        if k != (l, archived) {
            assert(ix0.contains_key(k));
            if phys_path(k.0, k.1) == phys_path(l, archived) {
                lemma_phys_strip(k.0, k.1);
                assert(k.0 == l && k.1 == archived);
                assert(false);
            }
        }
    }
    assert forall|k: Seq<char>| #[trigger] fs1.contains_key(k) implies logical_ok(strip_archive(k))
        && ix1.contains_key((strip_archive(k), in_archive(k))) by {
        if k == phys_path(l, archived) {
            assert(strip_archive(k) == l && in_archive(k) == archived);
        } else {
            assert(fs0.contains_key(k));
        }
    }
}

/// The engine: the note file tree and the index it keeps consistent.
pub struct NotesApi {
    fs: NoteFilesystem,
    index: NoteIndex,
}

impl NotesApi {
    /// The note file tree, as a map from physical paths to file records.
    pub closed spec fn fs_model(&self) -> Map<Seq<char>, FileRec> {
        self.fs@
    }

    /// The index, as a map from (logical path, archive flag) to rows.
    pub closed spec fn ix_model(&self) -> Map<(Seq<char>, bool), EntryRec> {
        self.index@
    }

    /// The next identity the index will assign.
    pub closed spec fn next_id_model(&self) -> i64 {
        self.index.next_id()
    }

    /// Both components are well-formed and mutually consistent.
    pub closed spec fn wf(&self) -> bool {
        &&& self.fs.wf()
        &&& self.index.wf()
        &&& consistent(self.fs_model(), self.ix_model())
    }

    /// Identities of distinct rows are distinct.
    pub proof fn lemma_ids_distinct(&self, k1: (Seq<char>, bool), k2: (Seq<char>, bool))
        requires
            self.wf(),
            self.ix_model().contains_key(k1),
            self.ix_model().contains_key(k2),
            k1 != k2,
        ensures
            self.ix_model()[k1].id != self.ix_model()[k2].id,
    {
        self.index.lemma_ids_distinct(k1, k2);
    }

    /// Every identity the index holds is positive and below the counter.
    pub proof fn lemma_ids_below_counter(&self, k: (Seq<char>, bool))
        requires
            self.wf(),
            self.ix_model().contains_key(k),
        ensures
            0 < self.ix_model()[k].id < self.next_id_model(),
    {
        self.index.lemma_ids_below_counter(k);
    }

    /// An empty engine over the store rooted at the given directory.
    pub fn new(notes_root: &str) -> (r: Self)
        ensures
            r.wf(),
            r.fs_model() == Map::<Seq<char>, FileRec>::empty(),
            r.ix_model() == Map::<(Seq<char>, bool), EntryRec>::empty(),
            r.next_id_model() == 1,
            r.notes_root_spec() == notes_root@,
    {
        NotesApi { fs: NoteFilesystem::new(notes_root), index: NoteIndex::new() }
    }

    /// An empty engine whose identity counter starts at `next_id`:
    /// restarting from a persisted counter keeps identities stable for
    /// the lifetime of the store, never reassigning one handed out in an
    /// earlier run.
    pub fn new_with_counter(notes_root: &str, next_id: i64) -> (r: Self)
        requires
            next_id >= 1,
        ensures
            r.wf(),
            r.fs_model() == Map::<Seq<char>, FileRec>::empty(),
            r.ix_model() == Map::<(Seq<char>, bool), EntryRec>::empty(),
            r.next_id_model() == next_id,
            r.notes_root_spec() == notes_root@,
    {
        NotesApi {
            fs: NoteFilesystem::new(notes_root),
            index: NoteIndex::new_with_counter(next_id),
        }
    }

    /// The identity the next fresh row will get; persisting it across
    /// runs keeps identities stable for the lifetime of the store.
    pub fn current_next_id(&self) -> (r: i64)
        requires
            self.wf(),
        ensures
            r == self.next_id_model(),
            r >= 1,
    {
        self.index.current_next_id()
    }

    /// The store root this engine was initialized with.
    pub closed spec fn notes_root_spec(&self) -> Seq<char> {
        self.fs.root()
    }

    /// The store root, as a string.
    pub fn notes_root(&self) -> (r: String)
        ensures
            r@ == self.notes_root_spec(),
    {
        self.fs.root_path()
    }

    /// Whether an unarchived note is present at the logical path.
    pub fn note_exists(&self, path: &str) -> (r: Result<bool, Error>)
        requires
            self.wf(),
            logical_ok(path@),
        ensures
            r == Result::<bool, Error>::Ok(self.fs_model().contains_key(path@)),
    {
        Ok(self.fs.note_exists(path))
    }

    /// Fetches the note at the logical path: content from the file tree
    /// (authoritative), identity and time from the index; fails with
    /// `NotFound` when no unarchived note is there. The consistency
    /// invariant rules out a missing index row while the file exists, so
    /// there is nothing to self-heal between operations; external
    /// divergence enters only through reconciliation.
    pub fn get_note(&self, path: &str) -> (r: Result<Note, Error>)
        requires
            self.wf(),
            logical_ok(path@),
        ensures
            match r {
                Ok(n) => {
                    &&& spec_get_note(self.fs_model(), self.ix_model(), path@) == Some(
                        (n.id, n.content@, n.modified),
                    )
                    &&& n.path@ == path@
                },
                Err(e) => e == Error::NotFound && spec_get_note(
                    self.fs_model(),
                    self.ix_model(),
                    path@,
                ) is None,
            },
    {
        let content = match self.fs.read_note(path) {
            Ok(c) => c,
            Err(_) => {
                proof {
                    lemma_phys_strip(path@, false);
                }
                return Err(Error::NotFound);
            },
        };
        proof {
            lemma_phys_strip(path@, false);
            assert(self.ix_model().contains_key((path@, false)));
        }
        let e = match self.index.lookup(path, false) {
            Some(e) => e,
            None => {
                proof {
                    assert(false);
                }
                return Err(Error::NotFound);
            },
        };
        Ok(Note { id: e.id, path: String::from_str(path), content, modified: e.mtime })
    }

    /// Creates an empty note at the logical path under a fresh identity;
    /// fails with `AlreadyExists` when an unarchived note is already
    /// there, and with `IOFailure` when the identity counter is
    /// exhausted.
    pub fn create_note(&mut self, path: &str, now: u64) -> (r: Result<Note, Error>)
        requires
            old(self).wf(),
            logical_ok(path@),
        ensures
            final(self).wf(),
            final(self).notes_root_spec() == old(self).notes_root_spec(),
            match r {
                Ok(n) => {
                    &&& create_effect(
                        old(self).fs_model(),
                        old(self).ix_model(),
                        final(self).fs_model(),
                        final(self).ix_model(),
                        path@,
                        now,
                        n.id,
                    )
                    &&& n.id == old(self).next_id_model()
                    &&& final(self).next_id_model() == old(self).next_id_model() + 1
                    &&& n.path@ == path@
                    &&& n.content@ == Seq::<char>::empty()
                    &&& n.modified == now
                },
                Err(e) => {
                    &&& final(self).fs_model() == old(self).fs_model()
                    &&& final(self).ix_model() == old(self).ix_model()
                    &&& final(self).next_id_model() == old(self).next_id_model()
                    &&& (e == Error::AlreadyExists <==> old(self).fs_model().contains_key(path@))
                    &&& (e == Error::AlreadyExists || e == Error::IOFailure)
                    &&& (e == Error::IOFailure ==> old(self).next_id_model() == i64::MAX)
                },
            },
    {
        if self.fs.note_exists(path) {
            return Err(Error::AlreadyExists);
        }
        proof {
            lemma_phys_strip(path@, false);
            if self.ix_model().contains_key((path@, false)) {
                assert(self.fs_model().contains_key(phys_path(path@, false)));
                assert(false);
            }
        }
        let id = match self.index.insert_fresh(path, false, now, "") {
            Ok(id) => id,
            Err(e) => {
                return Err(e);
            },
        };
        self.fs.write_note(path, "", now);
        proof {
            reveal_strlit("");
            assert(""@ =~= Seq::<char>::empty());
            lemma_consistent_insert(
                old(self).fs_model(),
                old(self).ix_model(),
                path@,
                false,
                Seq::<char>::empty(),
                now,
                id,
            );
        }
        Ok(Note { id, path: String::from_str(path), content: String::new(), modified: now })
    }

    /// Overwrites the content of the note at the logical path and stamps
    /// its modification time; fails with `NotFound` when no unarchived
    /// note is there.
    pub fn save_note(&mut self, path: &str, content: &str, now: u64) -> (r: Result<(), Error>)
        requires
            old(self).wf(),
            logical_ok(path@),
        ensures
            final(self).wf(),
            final(self).notes_root_spec() == old(self).notes_root_spec(),
            final(self).next_id_model() == old(self).next_id_model(),
            match r {
                Ok(()) => save_effect(
                    old(self).fs_model(),
                    old(self).ix_model(),
                    final(self).fs_model(),
                    final(self).ix_model(),
                    path@,
                    content@,
                    now,
                ),
                Err(e) => {
                    &&& e == Error::NotFound
                    &&& !old(self).fs_model().contains_key(path@)
                    &&& final(self).fs_model() == old(self).fs_model()
                    &&& final(self).ix_model() == old(self).ix_model()
                },
            },
    {
        if !self.fs.note_exists(path) {
            return Err(Error::NotFound);
        }
        proof {
            lemma_phys_strip(path@, false);
            assert(self.ix_model().contains_key((path@, false)));
        }
        self.fs.write_note(path, content, now);
        self.index.update(path, false, now, content);
        proof {
            lemma_consistent_insert(
                old(self).fs_model(),
                old(self).ix_model(),
                path@,
                false,
                content@,
                now,
                old(self).ix_model()[(path@, false)].id,
            );
        }
        Ok(())
    }

    /// Deletes the note at the logical path together with its whole
    /// physical subtree, and drops the matching index rows; fails with
    /// `NotFound` when no unarchived note is there.
    pub fn delete_note(&mut self, path: &str) -> (r: Result<(), Error>)
        requires
            old(self).wf(),
            logical_ok(path@),
        ensures
            final(self).wf(),
            final(self).notes_root_spec() == old(self).notes_root_spec(),
            final(self).next_id_model() == old(self).next_id_model(),
            match r {
                Ok(()) => delete_effect(
                    old(self).fs_model(),
                    old(self).ix_model(),
                    final(self).fs_model(),
                    final(self).ix_model(),
                    path@,
                ),
                Err(e) => {
                    &&& e == Error::NotFound
                    &&& !old(self).fs_model().contains_key(path@)
                    &&& final(self).fs_model() == old(self).fs_model()
                    &&& final(self).ix_model() == old(self).ix_model()
                },
            },
    {
        if !self.fs.note_exists(path) {
            return Err(Error::NotFound);
        }
        let dr = self.fs.delete_note(path);
        proof {
            if dr is Err {
                assert(dir_exists(old(self).fs_model(), path@)) by {
                    assert(old(self).fs_model().dom().contains(path@) && in_subtree(
                        path@,
                        path@,
                    ));
                }
                assert(false);
            }
        }
        self.index.remove_phys_subtree(path);
        proof {
            let fs1 = self.fs_model();
            let ix1 = self.ix_model();
            let fs0 = old(self).fs_model();
            let ix0 = old(self).ix_model();
            assert forall|k: (Seq<char>, bool)| #[trigger] ix1.contains_key(k) implies {
                &&& logical_ok(k.0)
                &&& fs1.contains_key(phys_path(k.0, k.1))
                &&& fs1[phys_path(k.0, k.1)].content == ix1[k].content
                &&& fs1[phys_path(k.0, k.1)].mtime == ix1[k].mtime
            } by {
                self.index.lemma_keys_logical(k);
            }
            assert forall|k: Seq<char>| #[trigger] fs1.contains_key(k) implies logical_ok(
                strip_archive(k),
            ) && ix1.contains_key((strip_archive(k), in_archive(k))) by {
                old(self).fs.lemma_keys_valid(k);
                lemma_strip_phys_id(k);
            }
        }
        Ok(())
    }

    /// Moves the note at `old_path` together with its whole physical
    /// subtree to `new_path`, re-keying the matching index rows while
    /// preserving every identity. Fails with `NotFound` when `old_path`
    /// holds no unarchived note, and with `AlreadyExists` when the
    /// target directory exists or lies inside the moved subtree.
    pub fn rename_note(&mut self, old_path: &str, new_path: &str) -> (r: Result<(), Error>)
        requires
            old(self).wf(),
            logical_ok(old_path@),
            logical_ok(new_path@),
            old_path@.len() > 0,
            new_path@.len() > 0,
        ensures
            final(self).wf(),
            final(self).notes_root_spec() == old(self).notes_root_spec(),
            final(self).next_id_model() == old(self).next_id_model(),
            match r {
                Ok(()) => rename_effect(
                    old(self).fs_model(),
                    old(self).ix_model(),
                    final(self).fs_model(),
                    final(self).ix_model(),
                    old_path@,
                    new_path@,
                ),
                Err(e) => {
                    &&& final(self).fs_model() == old(self).fs_model()
                    &&& final(self).ix_model() == old(self).ix_model()
                    &&& (e == Error::NotFound || e == Error::AlreadyExists)
                    &&& (e == Error::NotFound <==> !old(self).fs_model().contains_key(old_path@))
                    &&& (e == Error::AlreadyExists <==> old(self).fs_model().contains_key(
                        old_path@,
                    ) && (dir_exists(old(self).fs_model(), new_path@) || in_subtree(
                        new_path@,
                        old_path@,
                    )))
                },
            },
    {
        if !self.fs.note_exists(old_path) {
            return Err(Error::NotFound);
        }
        if self.fs.check_dir(new_path) || crate::paths::check_in_subtree(new_path, old_path) {
            return Err(Error::AlreadyExists);
        }
        self.fs.move_subtree(old_path, new_path);
        proof {
            assert forall|l: Seq<char>|
                #[trigger] old(self).ix_model().contains_key((l, false)) implies !in_subtree(
                l,
                new_path@,
            ) by {
                assert(old(self).fs_model().contains_key(phys_path(l, false)));
                if in_subtree(l, new_path@) {
                    assert(old(self).fs_model().dom().contains(l) && in_subtree(l, new_path@));
                    assert(false);
                }
            }
        }
        self.index.rename_subtree(old_path, new_path);
        proof {
            let a = old_path@;
            let b = new_path@;
            let fs0 = old(self).fs_model();
            let ix0 = old(self).ix_model();
            let fs1 = self.fs_model();
            let ix1 = self.ix_model();
            assert forall|k: (Seq<char>, bool)| #[trigger] ix1.contains_key(k) implies {
                &&& logical_ok(k.0)
                &&& fs1.contains_key(phys_path(k.0, k.1))
                &&& fs1[phys_path(k.0, k.1)].content == ix1[k].content
                &&& fs1[phys_path(k.0, k.1)].mtime == ix1[k].mtime
            } by {
                self.index.lemma_keys_logical(k);
                let k0 = choose|k0: (Seq<char>, bool)|
                    #[trigger] ix0.contains_key(k0) && k == renamed_key(k0, a, b);
                old(self).index.lemma_keys_logical(k0);
                assert(ix1[k] == ix0[k0]);
                if !k0.1 && in_subtree(k0.0, a) {
                    assert(k == (rewrite_prefix(k0.0, a, b), false));
                    assert(fs0.contains_key(k0.0) && in_subtree(k0.0, a));
                    assert(fs1.contains_key(rewrite_prefix(k0.0, a, b)));
                    assert(fs1[rewrite_prefix(k0.0, a, b)] == fs0[k0.0]);
                } else if !k0.1 {
                    assert(k == k0);
                    assert(fs0.contains_key(k0.0) && !in_subtree(k0.0, a));
                } else {
                    assert(k == k0);
                    lemma_archive_phys_outside(k0.0, a);
                    assert(fs0.contains_key(phys_path(k0.0, true)) && !in_subtree(
                        phys_path(k0.0, true),
                        a,
                    ));
                }
            }
            assert forall|k: Seq<char>| #[trigger] fs1.contains_key(k) implies logical_ok(
                strip_archive(k),
            ) && ix1.contains_key((strip_archive(k), in_archive(k))) by {
                let k0 = choose|k0: Seq<char>|
                    #[trigger] fs0.contains_key(k0) && k == moved_path(k0, a, b);
                old(self).fs.lemma_keys_valid(k0);
                lemma_strip_phys_id(k0);
                let pair0 = (strip_archive(k0), in_archive(k0));
                assert(ix0.contains_key(pair0));
                if in_subtree(k0, a) {
                    if in_archive(k0) {
                        lemma_archive_phys_outside(strip_archive(k0), a);
                        assert(false);
                    }
                    assert(pair0 == (k0, false));
                    assert(k == rewrite_prefix(k0, a, b));
                    lemma_rewrite_logical(k0, a, b);
                    assert(renamed_key(pair0, a, b) == (k, false));
                    assert(ix1.contains_key((k, false)));
                    assert(strip_archive(k) == k && !in_archive(k));
                } else {
                    assert(k == k0);
                    assert(renamed_key(pair0, a, b) == pair0) by {
                        if !pair0.1 {
                            assert(strip_archive(k0) == k0);
                        }
                    }
                    assert(ix1.contains_key(pair0));
                }
            }
            assert(consistent(fs1, ix1));
        }
        Ok(())
    }

    /// Moves the note at `p` together with its whole physical subtree
    /// under the reserved archive namespace and flips the archive flag
    /// of the matching rows, preserving identities. Fails with
    /// `NotFound` when `p` holds no unarchived note, and with
    /// `AlreadyExists` when the archive location is already occupied.
    pub fn archive_note(&mut self, path: &str) -> (r: Result<(), Error>)
        requires
            old(self).wf(),
            logical_ok(path@),
            path@.len() > 0,
        ensures
            final(self).wf(),
            final(self).notes_root_spec() == old(self).notes_root_spec(),
            final(self).next_id_model() == old(self).next_id_model(),
            match r {
                Ok(()) => archive_effect(
                    old(self).fs_model(),
                    old(self).ix_model(),
                    final(self).fs_model(),
                    final(self).ix_model(),
                    path@,
                ),
                Err(e) => {
                    &&& final(self).fs_model() == old(self).fs_model()
                    &&& final(self).ix_model() == old(self).ix_model()
                    &&& (e == Error::NotFound || e == Error::AlreadyExists)
                    &&& (e == Error::NotFound <==> !old(self).fs_model().contains_key(path@))
                    &&& (e == Error::AlreadyExists <==> old(self).fs_model().contains_key(path@)
                        && dir_exists(old(self).fs_model(), phys_path(path@, true)))
                },
            },
    {
        if !self.fs.note_exists(path) {
            return Err(Error::NotFound);
        }
        let ap = to_phys(path, true);
        if self.fs.check_dir(ap.as_str()) {
            return Err(Error::AlreadyExists);
        }
        proof {
            lemma_archive_seg_valid();
            lemma_join_valid(archive_seg(), path@);
            assert(ap@.len() > 0);
        }
        self.fs.move_subtree(path, ap.as_str());
        proof {
            assert forall|k: (Seq<char>, bool)|
                #[trigger] old(self).ix_model().contains_key(k) && k.1 == true implies
                !in_subtree(k.0, path@) by {
                old(self).index.lemma_keys_logical(k);
                if in_subtree(k.0, path@) {
                    assert(old(self).fs_model().contains_key(phys_path(k.0, true)));
                    lemma_join_subtree_iff(archive_seg(), k.0, path@);
                    assert(in_subtree(phys_path(k.0, true), ap@));
                    assert(old(self).fs_model().dom().contains(phys_path(k.0, true))
                        && in_subtree(phys_path(k.0, true), ap@));
                    assert(false);
                }
            }
        }
        self.index.flip_archived_subtree(path, false);
        proof {
            let p = path@;
            let fs0 = old(self).fs_model();
            let ix0 = old(self).ix_model();
            let fs1 = self.fs_model();
            let ix1 = self.ix_model();
            assert forall|k: (Seq<char>, bool)| #[trigger] ix1.contains_key(k) implies {
                &&& logical_ok(k.0)
                &&& fs1.contains_key(phys_path(k.0, k.1))
                &&& fs1[phys_path(k.0, k.1)].content == ix1[k].content
                &&& fs1[phys_path(k.0, k.1)].mtime == ix1[k].mtime
            } by {
                self.index.lemma_keys_logical(k);
                let k0 = choose|k0: (Seq<char>, bool)|
                    #[trigger] ix0.contains_key(k0) && k == flipped_key(k0, p, false);
                old(self).index.lemma_keys_logical(k0);
                assert(ix1[k] == ix0[k0]);
                if !k0.1 && in_subtree(k0.0, p) {
                    assert(k == (k0.0, true));
                    assert(fs0.contains_key(k0.0) && in_subtree(k0.0, p));
                    assert(fs1.contains_key(rewrite_prefix(k0.0, p, ap@)));
                    lemma_rewrite_to_archive(k0.0, p);
                    assert(rewrite_prefix(k0.0, p, ap@) == phys_path(k0.0, true));
                } else if !k0.1 {
                    assert(k == k0);
                    assert(fs0.contains_key(k0.0) && !in_subtree(k0.0, p));
                } else {
                    assert(k == k0);
                    lemma_archive_phys_outside(k0.0, p);
                    assert(fs0.contains_key(phys_path(k0.0, true)) && !in_subtree(
                        phys_path(k0.0, true),
                        p,
                    ));
                }
            }
            assert forall|k: Seq<char>| #[trigger] fs1.contains_key(k) implies logical_ok(
                strip_archive(k),
            ) && ix1.contains_key((strip_archive(k), in_archive(k))) by {
                let k0 = choose|k0: Seq<char>|
                    #[trigger] fs0.contains_key(k0) && k == moved_path(k0, p, ap@);
                old(self).fs.lemma_keys_valid(k0);
                lemma_strip_phys_id(k0);
                let pair0 = (strip_archive(k0), in_archive(k0));
                assert(ix0.contains_key(pair0));
                if in_subtree(k0, p) {
                    if in_archive(k0) {
                        lemma_archive_phys_outside(strip_archive(k0), p);
                        assert(false);
                    }
                    assert(pair0 == (k0, false));
                    assert(k == rewrite_prefix(k0, p, ap@));
                    lemma_rewrite_to_archive(k0, p);
                    assert(k == phys_path(k0, true));
                    assert(flipped_key(pair0, p, false) == (k0, true));
                    assert(ix1.contains_key((k0, true)));
                    old(self).index.lemma_keys_logical(pair0);
                    lemma_phys_strip(k0, true);
                    assert(strip_archive(k) == k0 && in_archive(k));
                } else {
                    assert(k == k0);
                    assert(flipped_key(pair0, p, false) == pair0) by {
                        if !pair0.1 {
                            assert(strip_archive(k0) == k0);
                        }
                    }
                    assert(ix1.contains_key(pair0));
                }
            }
            assert(consistent(fs1, ix1));
        }
        Ok(())
    }

    /// Moves the archived note at `p` together with its whole physical
    /// subtree back out of the reserved namespace and flips the archive
    /// flag of the matching rows, preserving identities. Fails with
    /// `NotFound` when the archive location holds no note, and with
    /// `AlreadyExists` when the restored location is already occupied.
    pub fn unarchive_note(&mut self, path: &str) -> (r: Result<(), Error>)
        requires
            old(self).wf(),
            logical_ok(path@),
            path@.len() > 0,
        ensures
            final(self).wf(),
            final(self).notes_root_spec() == old(self).notes_root_spec(),
            final(self).next_id_model() == old(self).next_id_model(),
            match r {
                Ok(()) => unarchive_effect(
                    old(self).fs_model(),
                    old(self).ix_model(),
                    final(self).fs_model(),
                    final(self).ix_model(),
                    path@,
                ),
                Err(e) => {
                    &&& final(self).fs_model() == old(self).fs_model()
                    &&& final(self).ix_model() == old(self).ix_model()
                    &&& (e == Error::NotFound || e == Error::AlreadyExists)
                    &&& (e == Error::NotFound <==> !old(self).fs_model().contains_key(
                        phys_path(path@, true),
                    ))
                    &&& (e == Error::AlreadyExists <==> old(self).fs_model().contains_key(
                        phys_path(path@, true),
                    ) && dir_exists(old(self).fs_model(), path@))
                },
            },
    {
        let ap = to_phys(path, true);
        if !self.fs.note_exists(ap.as_str()) {
            return Err(Error::NotFound);
        }
        if self.fs.check_dir(path) {
            return Err(Error::AlreadyExists);
        }
        proof {
            lemma_archive_seg_valid();
            lemma_join_valid(archive_seg(), path@);
            assert(ap@.len() > 0);
        }
        self.fs.move_subtree(ap.as_str(), path);
        proof {
            assert forall|k: (Seq<char>, bool)|
                #[trigger] old(self).ix_model().contains_key(k) && k.1 == false implies
                !in_subtree(k.0, path@) by {
                if in_subtree(k.0, path@) {
                    assert(old(self).fs_model().contains_key(phys_path(k.0, false)));
                    assert(old(self).fs_model().dom().contains(k.0) && in_subtree(k.0, path@));
                    assert(false);
                }
            }
        }
        self.index.flip_archived_subtree(path, true);
        proof {
            let p = path@;
            let fs0 = old(self).fs_model();
            let ix0 = old(self).ix_model();
            let fs1 = self.fs_model();
            let ix1 = self.ix_model();
            assert forall|k: (Seq<char>, bool)| #[trigger] ix1.contains_key(k) implies {
                &&& logical_ok(k.0)
                &&& fs1.contains_key(phys_path(k.0, k.1))
                &&& fs1[phys_path(k.0, k.1)].content == ix1[k].content
                &&& fs1[phys_path(k.0, k.1)].mtime == ix1[k].mtime
            } by {
                self.index.lemma_keys_logical(k);
                let k0 = choose|k0: (Seq<char>, bool)|
                    #[trigger] ix0.contains_key(k0) && k == flipped_key(k0, p, true);
                old(self).index.lemma_keys_logical(k0);
                assert(ix1[k] == ix0[k0]);
                if k0.1 && in_subtree(k0.0, p) {
                    assert(k == (k0.0, false));
                    assert(fs0.contains_key(phys_path(k0.0, true)));
                    lemma_join_subtree_iff(archive_seg(), k0.0, p);
                    assert(in_subtree(phys_path(k0.0, true), ap@));
                    assert(fs1.contains_key(rewrite_prefix(phys_path(k0.0, true), ap@, p)));
                    lemma_rewrite_from_archive(k0.0, p);
                    assert(rewrite_prefix(phys_path(k0.0, true), ap@, p) == k0.0);
                } else if k0.1 {
                    assert(k == k0);
                    lemma_join_subtree_iff(archive_seg(), k0.0, p);
                    assert(fs0.contains_key(phys_path(k0.0, true)) && !in_subtree(
                        phys_path(k0.0, true),
                        ap@,
                    ));
                } else {
                    assert(k == k0);
                    assert(fs0.contains_key(k0.0));
                    if in_subtree(k0.0, ap@) {
                        lemma_phys_strip(p, true);
                        lemma_subtree_in_archive(k0.0, ap@);
                        assert(false);
                    }
                }
            }
            assert forall|k: Seq<char>| #[trigger] fs1.contains_key(k) implies logical_ok(
                strip_archive(k),
            ) && ix1.contains_key((strip_archive(k), in_archive(k))) by {
                let k0 = choose|k0: Seq<char>|
                    #[trigger] fs0.contains_key(k0) && k == moved_path(k0, ap@, p);
                old(self).fs.lemma_keys_valid(k0);
                lemma_strip_phys_id(k0);
                let pair0 = (strip_archive(k0), in_archive(k0));
                assert(ix0.contains_key(pair0));
                old(self).index.lemma_keys_logical(pair0);
                if in_subtree(k0, ap@) {
                    lemma_phys_strip(p, true);
                    lemma_subtree_in_archive(k0, ap@);
                    assert(in_archive(k0));
                    assert(k0 == phys_path(pair0.0, true));
                    lemma_join_subtree_iff(archive_seg(), pair0.0, p);
                    assert(in_subtree(pair0.0, p));
                    assert(k == rewrite_prefix(k0, ap@, p));
                    lemma_rewrite_from_archive(pair0.0, p);
                    assert(k == pair0.0);
                    assert(flipped_key(pair0, p, true) == (pair0.0, false));
                    assert(ix1.contains_key((pair0.0, false)));
                    lemma_phys_strip(pair0.0, false);
                    assert(strip_archive(k) == pair0.0 && !in_archive(k));
                } else {
                    assert(k == k0);
                    assert(flipped_key(pair0, p, true) == pair0) by {
                        if pair0.1 {
                            if in_subtree(pair0.0, p) {
                                lemma_join_subtree_iff(archive_seg(), pair0.0, p);
                                assert(in_subtree(k0, ap@));
                                assert(false);
                            }
                        }
                    }
                    assert(ix1.contains_key(pair0));
                }
            }
            assert(consistent(fs1, ix1));
        }
        Ok(())
    }

    /// Full reconciliation against a scan of the store: rebuilds the
    /// file-tree model and the index from what the scan reported,
    /// preserving the identity each logical path already had and never
    /// reassigning an identity that was handed out before. Fails only
    /// with `IOFailure`, when the identity counter cannot cover the scan.
    pub fn rescan(&mut self, scan: &Vec<ScanEntry>) -> (r: Result<(), Error>)
        requires
            old(self).wf(),
            scan_wf(scan@),
        ensures
            final(self).wf(),
            final(self).notes_root_spec() == old(self).notes_root_spec(),
            final(self).next_id_model() >= old(self).next_id_model(),
            match r {
                Ok(()) => rescan_effect(
                    old(self).ix_model(),
                    final(self).fs_model(),
                    final(self).ix_model(),
                    scan@,
                    old(self).next_id_model(),
                ),
                Err(e) => {
                    &&& e == Error::IOFailure
                    &&& final(self).fs_model() == old(self).fs_model()
                    &&& final(self).ix_model() == old(self).ix_model()
                    &&& final(self).next_id_model() == old(self).next_id_model()
                    &&& old(self).next_id_model() + scan@.len() > i64::MAX
                },
            },
    {
        let root = self.fs.root_path();
        let mut newfs = NoteFilesystem::new(root.as_str());
        let mut i: usize = 0;
        while i < scan.len()
            invariant
                scan_wf(scan@),
                newfs.wf(),
                newfs.root() == root@,
                i <= scan@.len(),
                forall|k: Seq<char>| #[trigger] newfs@.contains_key(k) <==> exists|j: int|
                    0 <= j < i && (#[trigger] scan@[j]).path@ == k,
                forall|j: int|
                    0 <= j < i ==> newfs@.contains_key((#[trigger] scan@[j]).path@)
                        && newfs@[scan@[j].path@] == (FileRec {
                        content: scan@[j].content@,
                        mtime: scan@[j].mtime,
                    }),
            decreases scan@.len() - i,
        {
            let ghost pre = newfs@;
            newfs.write_note(scan[i].path.as_str(), scan[i].content.as_str(), scan[i].mtime);
            proof {
                assert forall|k: Seq<char>| #[trigger] newfs@.contains_key(k) implies exists|
                    j: int,
                | 0 <= j < i + 1 && (#[trigger] scan@[j]).path@ == k by {
                    if k == scan@[i as int].path@ {
                        assert((scan@[i as int]).path@ == k);
                    } else {
                        assert(pre.contains_key(k));
                        let j = choose|j: int| 0 <= j < i && (#[trigger] scan@[j]).path@ == k;
                        assert((scan@[j]).path@ == k);
                    }
                }
                assert forall|k: Seq<char>|
                    (exists|j: int| 0 <= j < i + 1 && (#[trigger] scan@[j]).path@ == k) implies
                    #[trigger] newfs@.contains_key(k) by {
                    let j = choose|j: int| 0 <= j < i + 1 && (#[trigger] scan@[j]).path@ == k;
                    if j < i {
                        assert(pre.contains_key(k));
                    }
                }
                assert forall|j: int| 0 <= j < i + 1 implies newfs@.contains_key(
                    (#[trigger] scan@[j]).path@,
                ) && newfs@[scan@[j].path@] == (FileRec {
                    content: scan@[j].content@,
                    mtime: scan@[j].mtime,
                }) by {
                    if j < i {
                        assert(scan@[j].path@ != scan@[i as int].path@);
                    }
                }
            }
            i = i + 1;
        }
        let next0 = self.index.current_next_id();
        let mut newix = NoteIndex::new_with_counter(next0);
        let mut i2: usize = 0;
        while i2 < scan.len()
            invariant
                scan_wf(scan@),
                self.wf(),
                next0 == self.index.next_id(),
                newix.wf(),
                i2 <= scan@.len(),
                next0 <= newix.next_id(),
                newix.next_id() <= next0 + i2,
                forall|k: (Seq<char>, bool)| #[trigger] newix@.contains_key(k) <==> exists|j: int|
                    0 <= j < i2 && scan_key(#[trigger] scan@[j]) == k,
                forall|j: int|
                    0 <= j < i2 ==> newix@.contains_key(scan_key(#[trigger] scan@[j]))
                        && newix@[scan_key(scan@[j])].content == scan@[j].content@
                        && newix@[scan_key(scan@[j])].mtime == scan@[j].mtime,
                forall|j: int| 0 <= j < i2 ==> {
                    let k = scan_key(#[trigger] scan@[j]);
                    if self.index@.contains_key(k) {
                        newix@[k].id == self.index@[k].id
                    } else if self.index@.contains_key((k.0, !k.1)) && !scan_has(
                        scan@,
                        phys_path(k.0, !k.1),
                    ) {
                        newix@[k].id == self.index@[(k.0, !k.1)].id
                    } else {
                        newix@[k].id >= next0
                    }
                },
                forall|k: (Seq<char>, bool)| #[trigger] newix@.contains_key(k) ==> {
                    ||| (self.index@.contains_key(k) && newix@[k].id == self.index@[k].id)
                    ||| (!self.index@.contains_key(k) && self.index@.contains_key((k.0, !k.1))
                        && !scan_has(scan@, phys_path(k.0, !k.1)) && newix@[k].id
                        == self.index@[(k.0, !k.1)].id)
                    ||| newix@[k].id >= next0
                },
            decreases scan@.len() - i2,
        {
            let (l, archived) = crate::paths::from_phys(scan[i2].path.as_str());
            let ghost key = scan_key(scan@[i2 as int]);
            let ghost pre = newix@;
            proof {
                assert((l@, archived) == key);
                assert(logical_ok(l@));
                lemma_strip_phys_id(scan@[i2 as int].path@);
                assert(phys_path(key.0, key.1) == scan@[i2 as int].path@);
                if newix@.contains_key(key) {
                    let j = choose|j: int| 0 <= j < i2 && scan_key(#[trigger] scan@[j]) == key;
                    lemma_strip_phys_id(scan@[j].path@);
                    assert(scan@[j].path@ == phys_path(key.0, key.1));
                    assert(false);
                }
            }
            match self.index.lookup(l.as_str(), archived) {
                Some(old_e) => {
                    proof {
                        self.index.lemma_ids_below_counter(key);
                        assert forall|k2: (Seq<char>, bool)|
                            #[trigger] newix@.contains_key(k2) implies newix@[k2].id
                            != old_e.id by {
                            assert(k2 != key);
                            let j2 = choose|j: int|
                                0 <= j < i2 && scan_key(#[trigger] scan@[j]) == k2;
                            lemma_strip_phys_id(scan@[j2].path@);
                            assert(scan_has(scan@, phys_path(k2.0, k2.1))) by {
                                assert(scan@[j2].path@ == phys_path(k2.0, k2.1));
                            }
                            if self.index@.contains_key(k2) && newix@[k2].id
                                == self.index@[k2].id {
                                self.index.lemma_ids_distinct(k2, key);
                            } else if !self.index@.contains_key(k2)
                                && self.index@.contains_key((k2.0, !k2.1)) && !scan_has(
                                scan@,
                                phys_path(k2.0, !k2.1),
                            ) && newix@[k2].id == self.index@[(k2.0, !k2.1)].id {
                                if (k2.0, !k2.1) == key {
                                    assert(scan_has(scan@, phys_path(key.0, key.1))) by {
                                        assert(scan@[i2 as int].path@ == phys_path(
                                            key.0,
                                            key.1,
                                        ));
                                    }
                                    assert(false);
                                } else {
                                    self.index.lemma_ids_distinct((k2.0, !k2.1), key);
                                }
                            } else {
                                assert(newix@[k2].id >= next0);
                            }
                        }
                    }
                    newix.insert_with_id(
                        l.as_str(),
                        archived,
                        old_e.id,
                        scan[i2].mtime,
                        scan[i2].content.as_str(),
                    );
                },
                None => {
                    let mut used: Option<i64> = None;
                    match self.index.lookup(l.as_str(), !archived) {
                        Some(e2) => {
                            let opp = to_phys(l.as_str(), !archived);
                            if !scan_has_exec(scan, opp.as_str()) {
                                used = Some(e2.id);
                                proof {
                                    self.index.lemma_ids_below_counter((key.0, !key.1));
                                }
                            }
                        },
                        None => {},
                    }
                    match used {
                        Some(idv) => {
                            proof {
                                let kk = (key.0, !key.1);
                                assert(self.index@.contains_key(kk) && idv == self.index@[kk].id
                                    && !scan_has(scan@, phys_path(kk.0, kk.1)));
                                assert forall|k2: (Seq<char>, bool)|
                                    #[trigger] newix@.contains_key(k2) implies newix@[k2].id
                                    != idv by {
                                    assert(k2 != key);
                                    let j2 = choose|j: int|
                                        0 <= j < i2 && scan_key(#[trigger] scan@[j]) == k2;
                                    lemma_strip_phys_id(scan@[j2].path@);
                                    assert(scan_has(scan@, phys_path(k2.0, k2.1))) by {
                                        assert(scan@[j2].path@ == phys_path(k2.0, k2.1));
                                    }
                                    if self.index@.contains_key(k2) && newix@[k2].id
                                        == self.index@[k2].id {
                                        assert(k2 != kk);
                                        self.index.lemma_ids_distinct(k2, kk);
                                    } else if !self.index@.contains_key(k2)
                                        && self.index@.contains_key((k2.0, !k2.1)) && !scan_has(
                                        scan@,
                                        phys_path(k2.0, !k2.1),
                                    ) && newix@[k2].id == self.index@[(k2.0, !k2.1)].id {
                                        if (k2.0, !k2.1) == kk {
                                            assert(k2 == key);
                                            assert(false);
                                        } else {
                                            self.index.lemma_ids_distinct((k2.0, !k2.1), kk);
                                        }
                                    } else {
                                        assert(newix@[k2].id >= next0);
                                    }
                                }
                            }
                            newix.insert_with_id(
                                l.as_str(),
                                archived,
                                idv,
                                scan[i2].mtime,
                                scan[i2].content.as_str(),
                            );
                        },
                        None => {
                            let fr = newix.insert_fresh(
                                l.as_str(),
                                archived,
                                scan[i2].mtime,
                                scan[i2].content.as_str(),
                            );
                            match fr {
                                Ok(_) => {},
                                Err(er) => {
                                    proof {
                                        assert(newix.next_id() == i64::MAX);
                                        assert(next0 + scan@.len() > i64::MAX);
                                    }
                                    return Err(er);
                                },
                            }
                        },
                    }
                },
            }
            proof {
                assert(newix@ == pre.insert(
                    key,
                    EntryRec {
                        id: newix@[key].id,
                        mtime: scan@[i2 as int].mtime,
                        content: scan@[i2 as int].content@,
                    },
                ));
                assert forall|k: (Seq<char>, bool)| #[trigger] newix@.contains_key(k) implies
                    exists|j: int| 0 <= j < i2 + 1 && scan_key(#[trigger] scan@[j]) == k by {
                    if k == key {
                        assert(scan_key(scan@[i2 as int]) == k);
                    } else {
                        assert(pre.contains_key(k));
                        let j = choose|j: int| 0 <= j < i2 && scan_key(#[trigger] scan@[j]) == k;
                        assert(scan_key(scan@[j]) == k);
                    }
                }
                assert forall|k: (Seq<char>, bool)|
                    (exists|j: int| 0 <= j < i2 + 1 && scan_key(#[trigger] scan@[j]) == k)
                        implies #[trigger] newix@.contains_key(k) by {
                    let j = choose|j: int| 0 <= j < i2 + 1 && scan_key(#[trigger] scan@[j]) == k;
                    if j < i2 {
                        assert(pre.contains_key(k));
                    }
                }
                assert forall|j: int| 0 <= j < i2 + 1 implies newix@.contains_key(
                    scan_key(#[trigger] scan@[j]),
                ) && newix@[scan_key(scan@[j])].content == scan@[j].content@
                    && newix@[scan_key(scan@[j])].mtime == scan@[j].mtime by {
                    if j < i2 {
                        lemma_strip_phys_id(scan@[j].path@);
                        lemma_strip_phys_id(scan@[i2 as int].path@);
                        if scan_key(scan@[j]) == key {
                            assert(scan@[j].path@ == scan@[i2 as int].path@);
                            assert(false);
                        }
                    }
                }
                assert forall|j: int| 0 <= j < i2 + 1 implies {
                    let k = scan_key(#[trigger] scan@[j]);
                    if self.index@.contains_key(k) {
                        newix@[k].id == self.index@[k].id
                    } else if self.index@.contains_key((k.0, !k.1)) && !scan_has(
                        scan@,
                        phys_path(k.0, !k.1),
                    ) {
                        newix@[k].id == self.index@[(k.0, !k.1)].id
                    } else {
                        newix@[k].id >= next0
                    }
                } by {
                    if j < i2 {
                        lemma_strip_phys_id(scan@[j].path@);
                        lemma_strip_phys_id(scan@[i2 as int].path@);
                        if scan_key(scan@[j]) == key {
                            assert(scan@[j].path@ == scan@[i2 as int].path@);
                            assert(false);
                        }
                        assert(newix@[scan_key(scan@[j])] == pre[scan_key(scan@[j])]);
                    }
                }
            }
            i2 = i2 + 1;
        }
        self.fs = newfs;
        self.index = newix;
        proof {
            let fs1 = self.fs_model();
            let ix1 = self.ix_model();
            assert forall|k: (Seq<char>, bool)| #[trigger] ix1.contains_key(k) implies {
                &&& logical_ok(k.0)
                &&& fs1.contains_key(phys_path(k.0, k.1))
                &&& fs1[phys_path(k.0, k.1)].content == ix1[k].content
                &&& fs1[phys_path(k.0, k.1)].mtime == ix1[k].mtime
            } by {
                self.index.lemma_keys_logical(k);
                let j = choose|j: int|
                    0 <= j < scan@.len() && scan_key(#[trigger] scan@[j]) == k;
                lemma_strip_phys_id(scan@[j].path@);
                assert(phys_path(k.0, k.1) == scan@[j].path@);
            }
            assert forall|k: Seq<char>| #[trigger] fs1.contains_key(k) implies logical_ok(
                strip_archive(k),
            ) && ix1.contains_key((strip_archive(k), in_archive(k))) by {
                let j = choose|j: int| 0 <= j < scan@.len() && (#[trigger] scan@[j]).path@ == k;
                assert(scan_key(scan@[j]) == (strip_archive(k), in_archive(k)));
            }
            assert(consistent(fs1, ix1));
            assert forall|k: Seq<char>| #[trigger] fs1.contains_key(k) <==> scan_has(
                scan@,
                k,
            ) by {}
            assert forall|k: (Seq<char>, bool)| #[trigger] ix1.contains_key(k) <==> (
            logical_ok(k.0) && scan_has(scan@, phys_path(k.0, k.1))) by {
                if ix1.contains_key(k) {
                    self.index.lemma_keys_logical(k);
                    let j = choose|j: int|
                        0 <= j < scan@.len() && scan_key(#[trigger] scan@[j]) == k;
                    lemma_strip_phys_id(scan@[j].path@);
                    assert(scan@[j].path@ == phys_path(k.0, k.1));
                }
                if logical_ok(k.0) && scan_has(scan@, phys_path(k.0, k.1)) {
                    let j = choose|j: int|
                        0 <= j < scan@.len() && (#[trigger] scan@[j]).path@ == phys_path(
                            k.0,
                            k.1,
                        );
                    lemma_phys_strip(k.0, k.1);
                    assert(scan_key(scan@[j]) == k);
                }
            }
        }
        Ok(())
    }

    /// Full reconciliation at startup: rebuilds the index from a scan of
    /// the store; idempotent and safe on an index that is already
    /// accurate.
    pub fn startup_sync(&mut self, scan: &Vec<ScanEntry>) -> (r: Result<(), Error>)
        requires
            old(self).wf(),
            scan_wf(scan@),
        ensures
            final(self).wf(),
            final(self).notes_root_spec() == old(self).notes_root_spec(),
            final(self).next_id_model() >= old(self).next_id_model(),
            match r {
                Ok(()) => rescan_effect(
                    old(self).ix_model(),
                    final(self).fs_model(),
                    final(self).ix_model(),
                    scan@,
                    old(self).next_id_model(),
                ),
                Err(e) => {
                    &&& e == Error::IOFailure
                    &&& final(self).fs_model() == old(self).fs_model()
                    &&& final(self).ix_model() == old(self).ix_model()
                    &&& final(self).next_id_model() == old(self).next_id_model()
                    &&& old(self).next_id_model() + scan@.len() > i64::MAX
                },
            },
    {
        self.rescan(scan)
    }

    /// Incremental reconciliation of one path against what an external
    /// observer read from disk: a content file with its time, or nothing.
    /// Identity is kept where the path already had a row; a fresh row can
    /// fail only with `IOFailure` on identity exhaustion.
    pub fn sync_note(&mut self, path: &str, observed: Option<(String, u64)>) -> (r: Result<
        (),
        Error,
    >)
        requires
            old(self).wf(),
            logical_ok(path@),
        ensures
            final(self).wf(),
            final(self).notes_root_spec() == old(self).notes_root_spec(),
            match r {
                Ok(()) => match observed {
                    Some(o) => sync_upsert_effect(
                        old(self).fs_model(),
                        old(self).ix_model(),
                        final(self).fs_model(),
                        final(self).ix_model(),
                        path@,
                        o.0@,
                        o.1,
                        if old(self).ix_model().contains_key((path@, false)) {
                            old(self).ix_model()[(path@, false)].id
                        } else {
                            old(self).next_id_model()
                        },
                    ),
                    None => sync_remove_effect(
                        old(self).fs_model(),
                        old(self).ix_model(),
                        final(self).fs_model(),
                        final(self).ix_model(),
                        path@,
                    ) && final(self).next_id_model() == old(self).next_id_model(),
                },
                Err(e) => {
                    &&& e == Error::IOFailure
                    &&& old(self).next_id_model() == i64::MAX
                    &&& final(self).fs_model() == old(self).fs_model()
                    &&& final(self).ix_model() == old(self).ix_model()
                },
            },
    {
        match observed {
            Some((content, mtime)) => {
                let id = match self.index.lookup(path, false) {
                    Some(e) => {
                        self.index.update(path, false, mtime, content.as_str());
                        e.id
                    },
                    None => {
                        match self.index.insert_fresh(path, false, mtime, content.as_str()) {
                            Ok(id) => id,
                            Err(e) => {
                                return Err(e);
                            },
                        }
                    },
                };
                self.fs.write_note(path, content.as_str(), mtime);
                proof {
                    lemma_consistent_insert(
                        old(self).fs_model(),
                        old(self).ix_model(),
                        path@,
                        false,
                        content@,
                        mtime,
                        id,
                    );
                }
                Ok(())
            },
            None => {
                self.fs.remove_note(path);
                self.index.remove(path, false);
                proof {
                    let fs1 = self.fs_model();
                    let ix1 = self.ix_model();
                    assert forall|k: (Seq<char>, bool)| #[trigger] ix1.contains_key(k) implies {
                        &&& logical_ok(k.0)
                        &&& fs1.contains_key(phys_path(k.0, k.1))
                        &&& fs1[phys_path(k.0, k.1)].content == ix1[k].content
                        &&& fs1[phys_path(k.0, k.1)].mtime == ix1[k].mtime
                    } by {
                        self.index.lemma_keys_logical(k);
                        if phys_path(k.0, k.1) == path@ {
                            lemma_phys_strip(k.0, k.1);
                            lemma_phys_strip(path@, false);
                            assert(k == (path@, false));
                            assert(false);
                        }
                    }
                    assert forall|k: Seq<char>| #[trigger] fs1.contains_key(k) implies logical_ok(
                        strip_archive(k),
                    ) && ix1.contains_key((strip_archive(k), in_archive(k))) by {
                        old(self).fs.lemma_keys_valid(k);
                        lemma_strip_phys_id(k);
                    }
                }
                Ok(())
            },
        }
    }

    /// The metadata of every unarchived note whose direct parent position
    /// is the given path; a pure index read.
    pub fn get_children(&self, path: &str) -> (r: Result<Vec<NoteMetadata>, Error>)
        requires
            self.wf(),
        ensures
            match r {
                Ok(v) => crate::index::children_rows(self.ix_model(), path@, v@),
                Err(_) => false,
            },
    {
        Ok(self.index.children_of(path))
    }

    /// The metadata of the direct parent position's note, if that
    /// position holds an unarchived note; a pure index read.
    pub fn get_parent(&self, path: &str) -> (r: Result<Option<NoteMetadata>, Error>)
        requires
            self.wf(),
        ensures
            match r {
                Ok(o) => match o {
                    Some(md) => path@.len() > 0 && md.path@ == parent_seq(path@) && md.archived
                        == false && md_matches(self.ix_model(), md),
                    None => path@.len() == 0 || !self.ix_model().contains_key(
                        (parent_seq(path@), false),
                    ),
                },
                Err(_) => false,
            },
    {
        if path.is_empty() {
            return Ok(None);
        }
        let par = crate::paths::parent_of(path);
        match self.index.lookup(par.as_str(), false) {
            Some(e) => Ok(
                Some(
                    NoteMetadata {
                        id: e.id,
                        path: e.path,
                        modified: e.mtime,
                        archived: false,
                    },
                ),
            ),
            None => Ok(None),
        }
    }

    /// The metadata of every unarchived note strictly above the given
    /// path, from the root down to the parent; a pure index read.
    pub fn get_ancestors(&self, path: &str) -> (r: Result<Vec<NoteMetadata>, Error>)
        requires
            self.wf(),
            valid_path(path@),
        ensures
            match r {
                Ok(v) => crate::index::ancestor_rows(self.ix_model(), path@, v@),
                Err(_) => false,
            },
    {
        Ok(self.index.ancestors_of(path))
    }

    /// The metadata of every unarchived note with no other note above it;
    /// a pure index read.
    pub fn get_root_notes(&self) -> (r: Result<Vec<NoteMetadata>, Error>)
        requires
            self.wf(),
        ensures
            match r {
                Ok(v) => crate::index::root_rows(self.ix_model(), v@),
                Err(_) => false,
            },
    {
        Ok(self.index.root_notes())
    }

    /// The metadata of every note whose content contains the query,
    /// ASCII-case-insensitively; a pure index read.
    pub fn search(&self, query: &str) -> (r: Result<Vec<NoteMetadata>, Error>)
        requires
            self.wf(),
        ensures
            match r {
                Ok(v) => crate::index::search_hits(self.ix_model(), query@, v@),
                Err(_) => false,
            },
    {
        Ok(self.index.search_rows(query))
    }
}

} // verus!
