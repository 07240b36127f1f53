//! An explicit model of the note file tree: every note directory that
//! holds a content file, keyed by its physical path, with content and
//! last-modified time.
//!
//! The store is viewed as a map from physical paths to file records. The
//! surrounding process mirrors every mutation to the durable directory
//! tree and feeds external changes back in through the sync engine.

use vstd::prelude::*;

use crate::notes::Error;
use crate::paths::{
    apply_rewrite, check_in_subtree, child_of, content_file_name, has_slash, in_subtree,
    join_paths, last_slash_idx, lemma_child_unique, lemma_last_slash_unique,
    lemma_rewrite_in_subtree, lemma_rewrite_injective, lemma_rewrite_valid,
    lemma_subtree_prefix_valid, lemma_subtree_trans, moved_path, parent_seq, rewrite_prefix,
    spec_join, str_eq, valid_path,
};

verus! {

/// What the store knows of one note file: its text and its last-modified
/// time in seconds.
pub ghost struct FileRec {
    pub content: Seq<char>,
    pub mtime: u64,
}

/// A scan record: the physical path of a note directory and the
/// last-modified time of its content file.
#[derive(Clone, Debug)]
pub struct NoteMetadata {
    pub path: String,
    pub mtime: u64,
}

struct FsEntry {
    path: String,
    content: String,
    mtime: u64,
}

/// Whether the directory at physical path `p` exists in store `m`: it is
/// the store root, or some note lives at or below it.
pub open spec fn dir_exists(m: Map<Seq<char>, FileRec>, p: Seq<char>) -> bool {
    p.len() == 0 || exists|k: Seq<char>| #[trigger] m.dom().contains(k) && in_subtree(k, p)
}

/// What a successful children listing satisfies: exactly the direct
/// child directory positions under `p` that exist in store `m`, each
/// once.
pub open spec fn children_listing(m: Map<Seq<char>, FileRec>, p: Seq<char>, vs: Seq<String>) -> bool {
    &&& forall|j: int| 0 <= j < vs.len() ==> child_of(#[trigger] vs[j]@, p) && dir_exists(m, vs[j]@)
    &&& forall|j1: int, j2: int| 0 <= j1 < j2 < vs.len() ==> vs[j1]@ != vs[j2]@
    &&& forall|c: Seq<char>|
        child_of(c, p) && dir_exists(m, c) ==> exists|j: int| 0 <= j < vs.len() && #[trigger] vs[j]@ == c
}

#[verifier::opaque]
spec fn fs_map(s: Seq<FsEntry>) -> Map<Seq<char>, FileRec> {
    Map::new(
        |k: Seq<char>| exists|i: int| 0 <= i < s.len() && s[i].path@ == k,
        |k: Seq<char>|
            {
                let i = choose|i: int| 0 <= i < s.len() && s[i].path@ == k;
                FileRec { content: s[i].content@, mtime: s[i].mtime }
            },
    )
}

spec fn entries_wf(s: Seq<FsEntry>) -> bool {
    &&& forall|i: int| 0 <= i < s.len() ==> valid_path(#[trigger] s[i].path@)
    &&& forall|i: int, j: int| 0 <= i < j < s.len() ==> s[i].path@ != s[j].path@
}

proof fn lemma_map_contains(s: Seq<FsEntry>, k: Seq<char>)
    ensures
        fs_map(s).contains_key(k) <==> exists|i: int| 0 <= i < s.len() && s[i].path@ == k,
{
    reveal(fs_map);
}

proof fn lemma_map_value(s: Seq<FsEntry>, i: int)
    requires
        entries_wf(s),
        0 <= i < s.len(),
    ensures
        fs_map(s).contains_key(s[i].path@),
        fs_map(s)[s[i].path@] == (FileRec { content: s[i].content@, mtime: s[i].mtime }),
{
    reveal(fs_map);
    let k = s[i].path@;
    let j = choose|j: int| 0 <= j < s.len() && s[j].path@ == k;
    assert(j == i);
}

/// The note file tree, modelled in memory.
pub struct NoteFilesystem {
    root_path: String,
    entries: Vec<FsEntry>,
}

impl View for NoteFilesystem {
    type V = Map<Seq<char>, FileRec>;

    closed spec fn view(&self) -> Map<Seq<char>, FileRec> {
        fs_map(self.entries@)
    }
}

impl NoteFilesystem {
    /// Paths are normalized and no two entries share one.
    pub closed spec fn wf(&self) -> bool {
        entries_wf(self.entries@)
    }

    /// The directory all physical paths are relative to.
    pub closed spec fn root(&self) -> Seq<char> {
        self.root_path@
    }

    /// Every physical path the store holds is normalized.
    pub proof fn lemma_keys_valid(&self, k: Seq<char>)
        requires
            self.wf(),
            self@.contains_key(k),
        ensures
            valid_path(k),
    {
        lemma_map_contains(self.entries@, k);
    }

    /// The directory all physical paths are relative to, as a string.
    pub fn root_path(&self) -> (r: String)
        ensures
            r@ == self.root(),
    {
        self.root_path.clone()
    }

    /// An empty store rooted at the given directory.
    pub fn new(root_path: &str) -> (r: Self)
        ensures
            r.wf(),
            r@ == Map::<Seq<char>, FileRec>::empty(),
            r.root() == root_path@,
    {
        let r = NoteFilesystem { root_path: String::from_str(root_path), entries: Vec::new() };
        proof {
            assert forall|k: Seq<char>| !(#[trigger] r@.contains_key(k)) by {
                lemma_map_contains(r.entries@, k);
            }
            assert(r@ =~= Map::<Seq<char>, FileRec>::empty());
        }
        r
    }

    fn find_entry(&self, path: &str) -> (r: Option<usize>)
        requires
            self.wf(),
        ensures
            match r {
                Some(i) => i < self.entries@.len() && self.entries@[i as int].path@ == path@
                    && self@.contains_key(path@),
                None => !self@.contains_key(path@),
            },
    {
        let mut i: usize = 0;
        while i < self.entries.len()
            invariant
                self.wf(),
                i <= self.entries@.len(),
                forall|j: int| 0 <= j < i ==> self.entries@[j].path@ != path@,
            decreases self.entries@.len() - i,
        {
            if str_eq(self.entries[i].path.as_str(), path) {
                proof {
                    lemma_map_value(self.entries@, i as int);
                }
                return Some(i);
            }
            i = i + 1;
        }
        proof {
            lemma_map_contains(self.entries@, path@);
        }
        None
    }

    /// Whether a note (a directory with a content file) is present at the
    /// given physical path.
    pub fn note_exists(&self, path: &str) -> (r: bool)
        requires
            self.wf(),
        ensures
            r == self@.contains_key(path@),
    {
        self.find_entry(path).is_some()
    }

    /// Whether the directory for the given physical path exists: it holds
    /// a note itself or somewhere below, or is the store root.
    pub fn check_dir(&self, path: &str) -> (r: bool)
        requires
            self.wf(),
        ensures
            r == dir_exists(self@, path@),
    {
        if path.is_empty() {
            return true;
        }
        let mut i: usize = 0;
        while i < self.entries.len()
            invariant
                self.wf(),
                i <= self.entries@.len(),
                forall|j: int| 0 <= j < i ==> !in_subtree(self.entries@[j].path@, path@),
            decreases self.entries@.len() - i,
        {
            if check_in_subtree(self.entries[i].path.as_str(), path) {
                proof {
                    lemma_map_value(self.entries@, i as int);
                }
                return true;
            }
            i = i + 1;
        }
        proof {
            assert forall|k: Seq<char>| self@.dom().contains(k) implies !in_subtree(k, path@) by {
                lemma_map_contains(self.entries@, k);
            }
        }
        false
    }

    /// Reads a note's content; fails with `NotFound` when the content
    /// file is absent.
    pub fn read_note(&self, path: &str) -> (r: Result<String, Error>)
        requires
            self.wf(),
        ensures
            match r {
                Ok(c) => self@.contains_key(path@) && c@ == self@[path@].content,
                Err(e) => e == Error::NotFound && !self@.contains_key(path@),
            },
    {
        match self.find_entry(path) {
            Some(i) => {
                proof {
                    lemma_map_value(self.entries@, i as int);
                }
                Ok(self.entries[i].content.clone())
            },
            None => Err(Error::NotFound),
        }
    }

    /// Writes a note's content, creating the note if absent and
    /// overwriting it otherwise; parent directories come into being as
    /// needed.
    pub fn write_note(&mut self, path: &str, content: &str, now: u64)
        requires
            old(self).wf(),
            valid_path(path@),
        ensures
            final(self).wf(),
            final(self)@ == old(self)@.insert(path@, FileRec { content: content@, mtime: now }),
            final(self).root() == old(self).root(),
    {
        let ghost m = old(self)@.insert(path@, FileRec { content: content@, mtime: now });
        let found = self.find_entry(path);
        match found {
            Some(i) => {
                self.entries[i].content = String::from_str(content);
                self.entries[i].mtime = now;
                proof {
                    assert(self.entries@.len() == old(self).entries@.len());
                    assert(forall|j: int|
                        0 <= j < self.entries@.len() && j != i ==> self.entries@[j] == old(
                            self,
                        ).entries@[j]);
                    assert(forall|j: int|
                        0 <= j < self.entries@.len() ==> #[trigger] self.entries@[j].path@ == old(
                            self,
                        ).entries@[j].path@);
                    assert(self.wf());
                    assert forall|k: Seq<char>| #[trigger] self@.contains_key(k) implies
                        m.contains_key(k) && self@[k] == m[k] by {
                        lemma_map_contains(self.entries@, k);
                        let j = choose|j: int|
                            0 <= j < self.entries@.len() && self.entries@[j].path@ == k;
                        lemma_map_value(old(self).entries@, j);
                        lemma_map_value(self.entries@, j);
                        if k == path@ {
                            assert(j == i as int);
                        }
                    }
                    assert forall|k: Seq<char>| #[trigger] m.contains_key(k) implies
                        self@.contains_key(k) by {
                        lemma_map_contains(self.entries@, k);
                        if k == path@ {
                            assert(self.entries@[i as int].path@ == k);
                        } else {
                            lemma_map_contains(old(self).entries@, k);
                            let j = choose|j: int|
                                0 <= j < old(self).entries@.len() && old(self).entries@[j].path@
                                    == k;
                            assert(self.entries@[j].path@ == k);
                        }
                    }
                    assert(self@ =~= m);
                }
            },
            None => {
                self.entries.push(
                    FsEntry {
                        path: String::from_str(path),
                        content: String::from_str(content),
                        mtime: now,
                    },
                );
                proof {
                    let n = old(self).entries@.len() as int;
                    assert(forall|j: int|
                        0 <= j < n ==> self.entries@[j] == old(self).entries@[j]);
                    assert(self.entries@[n].path@ == path@);
                    assert forall|j: int| 0 <= j < n implies #[trigger] self.entries@[j].path@
                        != path@ by {
                        lemma_map_value(old(self).entries@, j);
                    }
                    assert(self.wf());
                    assert forall|k: Seq<char>| #[trigger] self@.contains_key(k) implies
                        m.contains_key(k) && self@[k] == m[k] by {
                        lemma_map_contains(self.entries@, k);
                        let j = choose|j: int|
                            0 <= j < self.entries@.len() && self.entries@[j].path@ == k;
                        lemma_map_value(self.entries@, j);
                        if j < n {
                            lemma_map_value(old(self).entries@, j);
                        }
                    }
                    assert forall|k: Seq<char>| #[trigger] m.contains_key(k) implies
                        self@.contains_key(k) by {
                        lemma_map_contains(self.entries@, k);
                        if k == path@ {
                            assert(self.entries@[n].path@ == k);
                        } else {
                            lemma_map_contains(old(self).entries@, k);
                            let j = choose|j: int|
                                0 <= j < old(self).entries@.len() && old(self).entries@[j].path@
                                    == k;
                            assert(self.entries@[j].path@ == k);
                        }
                    }
                    assert(self@ =~= m);
                }
            },
        }
    }

    /// Creates an empty note; fails with `AlreadyExists` when a content
    /// file is already present at the path.
    pub fn create_note(&mut self, path: &str, now: u64) -> (r: Result<(), Error>)
        requires
            old(self).wf(),
            valid_path(path@),
        ensures
            final(self).wf(),
            final(self).root() == old(self).root(),
            match r {
                Ok(()) => !old(self)@.contains_key(path@) && final(self)@ == old(self)@.insert(
                    path@,
                    FileRec { content: Seq::<char>::empty(), mtime: now },
                ),
                Err(e) => e == Error::AlreadyExists && old(self)@.contains_key(path@)
                    && final(self)@ == old(self)@,
            },
    {
        if self.note_exists(path) {
            return Err(Error::AlreadyExists);
        }
        proof {
            reveal_strlit("");
            assert(""@ =~= Seq::<char>::empty());
        }
        self.write_note(path, "", now);
        Ok(())
    }

    /// Removes the entire subtree rooted at the note's directory; fails
    /// with `NotFound` when that directory does not exist.
    pub fn delete_note(&mut self, path: &str) -> (r: Result<(), Error>)
        requires
            old(self).wf(),
        ensures
            final(self).wf(),
            final(self).root() == old(self).root(),
            match r {
                Ok(()) => {
                    &&& dir_exists(old(self)@, path@)
                    &&& forall|k: Seq<char>| #[trigger] final(self)@.contains_key(k)
                        <==> (old(self)@.contains_key(k) && !in_subtree(k, path@))
                    &&& forall|k: Seq<char>| final(self)@.contains_key(k)
                        ==> #[trigger] final(self)@[k] == old(self)@[k]
                },
                Err(e) => e == Error::NotFound && !dir_exists(old(self)@, path@) && final(self)@
                    == old(self)@,
            },
    {
        if !self.check_dir(path) {
            return Err(Error::NotFound);
        }
        let mut kept: Vec<FsEntry> = Vec::new();
        let ghost mut src: Seq<int> = Seq::empty();
        let mut i: usize = 0;
        while i < self.entries.len()
            invariant
                self.wf(),
                i <= self.entries@.len(),
                src.len() == kept@.len(),
                forall|j: int| 0 <= j < src.len() ==> 0 <= #[trigger] src[j] < i,
                forall|j: int|
                    0 <= j < src.len() ==> kept@[j] == self.entries@[#[trigger] src[j]],
                forall|j: int|
                    0 <= j < src.len() ==> !in_subtree(
                        self.entries@[#[trigger] src[j]].path@,
                        path@,
                    ),
                forall|j1: int, j2: int| 0 <= j1 < j2 < src.len() ==> src[j1] < src[j2],
                forall|i0: int|
                    0 <= i0 < i && !in_subtree(#[trigger] self.entries@[i0].path@, path@)
                        ==> exists|j: int| 0 <= j < src.len() && src[j] == i0,
            decreases self.entries@.len() - i,
        {
            if !check_in_subtree(self.entries[i].path.as_str(), path) {
                let e = FsEntry {
                    path: self.entries[i].path.clone(),
                    content: self.entries[i].content.clone(),
                    mtime: self.entries[i].mtime,
                };
                proof {
                    assert(e == self.entries@[i as int]);
                }
                kept.push(e);
                proof {
                    let src0 = src;
                    src = src.push(i as int);
                    assert forall|i0: int|
                        0 <= i0 < i + 1 && !in_subtree(
                            #[trigger] self.entries@[i0].path@,
                            path@,
                        ) implies exists|j: int| 0 <= j < src.len() && src[j] == i0 by {
                        if i0 < i {
                            let w = choose|j: int| 0 <= j < src0.len() && src0[j] == i0;
                            assert(src[w] == i0);
                        } else {
                            assert(src[src.len() - 1] == i0);
                        }
                    }
                }
            }
            i = i + 1;
        }
        let ghost pre = *self;
        self.entries = kept;
        proof {
            assert forall|j1: int, j2: int| 0 <= j1 < j2 < self.entries@.len() implies
                self.entries@[j1].path@ != self.entries@[j2].path@ by {
                assert(src[j1] < src[j2]);
            }
            assert forall|j: int| 0 <= j < self.entries@.len() implies valid_path(
                #[trigger] self.entries@[j].path@,
            ) by {
                assert(self.entries@[j] == pre.entries@[src[j]]);
            }
            assert(self.wf());
            assert forall|k: Seq<char>| #[trigger] self@.contains_key(k) implies pre@.contains_key(
                k,
            ) && !in_subtree(k, path@) && self@[k] == pre@[k] by {
                lemma_map_contains(self.entries@, k);
                let j = choose|j: int| 0 <= j < self.entries@.len() && self.entries@[j].path@ == k;
                lemma_map_value(self.entries@, j);
                lemma_map_value(pre.entries@, src[j]);
            }
            assert forall|k: Seq<char>| pre@.contains_key(k) && !in_subtree(k, path@) implies
                #[trigger] self@.contains_key(k) by {
                lemma_map_contains(pre.entries@, k);
                let i0 = choose|i0: int|
                    0 <= i0 < pre.entries@.len() && pre.entries@[i0].path@ == k;
                let j = choose|j: int| 0 <= j < src.len() && src[j] == i0;
                assert(self.entries@[j].path@ == k);
                lemma_map_contains(self.entries@, k);
            }
        }
        Ok(())
    }

    /// Removes the note file at one physical path, if present, leaving
    /// everything below the directory alone.
    pub fn remove_note(&mut self, path: &str)
        requires
            old(self).wf(),
        ensures
            final(self).wf(),
            final(self).root() == old(self).root(),
            final(self)@ == old(self)@.remove(path@),
    {
        let mut kept: Vec<FsEntry> = Vec::new();
        let ghost mut src: Seq<int> = Seq::empty();
        let mut i: usize = 0;
        while i < self.entries.len()
            invariant
                self.wf(),
                i <= self.entries@.len(),
                src.len() == kept@.len(),
                forall|j: int| 0 <= j < src.len() ==> 0 <= #[trigger] src[j] < i,
                forall|j: int|
                    0 <= j < src.len() ==> kept@[j] == self.entries@[#[trigger] src[j]],
                forall|j: int|
                    0 <= j < src.len() ==> self.entries@[#[trigger] src[j]].path@ != path@,
                forall|j1: int, j2: int| 0 <= j1 < j2 < src.len() ==> src[j1] < src[j2],
                forall|i0: int|
                    0 <= i0 < i && (#[trigger] self.entries@[i0]).path@ != path@
                        ==> exists|j: int| 0 <= j < src.len() && src[j] == i0,
            decreases self.entries@.len() - i,
        {
            if !str_eq(self.entries[i].path.as_str(), path) {
                let e = FsEntry {
                    path: self.entries[i].path.clone(),
                    content: self.entries[i].content.clone(),
                    mtime: self.entries[i].mtime,
                };
                proof {
                    assert(e == self.entries@[i as int]);
                }
                kept.push(e);
                proof {
                    let src0 = src;
                    src = src.push(i as int);
                    assert forall|i0: int|
                        0 <= i0 < i + 1 && (#[trigger] self.entries@[i0]).path@ != path@
                            implies exists|j: int| 0 <= j < src.len() && src[j] == i0 by {
                        if i0 < i {
                            let w = choose|j: int| 0 <= j < src0.len() && src0[j] == i0;
                            assert(src[w] == i0);
                        } else {
                            assert(src[src.len() - 1] == i0);
                        }
                    }
                }
            }
            i = i + 1;
        }
        let ghost pre = *self;
        self.entries = kept;
        proof {
            assert forall|j1: int, j2: int| 0 <= j1 < j2 < self.entries@.len() implies
                self.entries@[j1].path@ != self.entries@[j2].path@ by {
                assert(src[j1] < src[j2]);
            }
            assert forall|j: int| 0 <= j < self.entries@.len() implies valid_path(
                #[trigger] self.entries@[j].path@,
            ) by {
                assert(self.entries@[j] == pre.entries@[src[j]]);
            }
            assert(self.wf());
            let m = pre@.remove(path@);
            assert forall|k: Seq<char>| #[trigger] self@.contains_key(k) implies m.contains_key(k)
                && self@[k] == m[k] by {
                lemma_map_contains(self.entries@, k);
                let j = choose|j: int| 0 <= j < self.entries@.len() && self.entries@[j].path@ == k;
                lemma_map_value(self.entries@, j);
                lemma_map_value(pre.entries@, src[j]);
            }
            assert forall|k: Seq<char>| #[trigger] m.contains_key(k) implies self@.contains_key(
                k,
            ) by {
                lemma_map_contains(pre.entries@, k);
                let i0 = choose|i0: int|
                    0 <= i0 < pre.entries@.len() && pre.entries@[i0].path@ == k;
                let j = choose|j: int| 0 <= j < src.len() && src[j] == i0;
                assert(self.entries@[j].path@ == k);
                lemma_map_contains(self.entries@, k);
            }
            assert(self@ =~= m);
        }
    }

    /// Moves the whole subtree at physical path `a` to physical path `b`,
    /// which must not yet exist as a directory.
    pub fn move_subtree(&mut self, a: &str, b: &str)
        requires
            old(self).wf(),
            a@.len() > 0,
            b@.len() > 0,
            valid_path(b@),
            !dir_exists(old(self)@, b@),
        ensures
            final(self).wf(),
            final(self).root() == old(self).root(),
            forall|k: Seq<char>|
                #[trigger] old(self)@.contains_key(k) && !in_subtree(k, a@) ==> final(self)@.contains_key(k) && final(self)@[k] == old(self)@[k],
            forall|k: Seq<char>|
                #[trigger] old(self)@.contains_key(k) && in_subtree(k, a@) ==> final(self)@.contains_key(rewrite_prefix(k, a@, b@)) && final(self)@[rewrite_prefix(
                    k,
                    a@,
                    b@,
                )] == old(self)@[k],
            forall|k: Seq<char>| #[trigger] final(self)@.contains_key(k) ==> exists|k0: Seq<char>|
                #[trigger] old(self)@.contains_key(k0) && k == moved_path(k0, a@, b@),
    {
        let mut out: Vec<FsEntry> = Vec::new();
        let mut i: usize = 0;
        while i < self.entries.len()
            invariant
                self.wf(),
                a@.len() > 0,
                b@.len() > 0,
                valid_path(b@),
                i <= self.entries@.len(),
                out@.len() == i,
                forall|j: int|
                    0 <= j < i ==> #[trigger] out@[j].path@ == moved_path(
                        self.entries@[j].path@,
                        a@,
                        b@,
                    ),
                forall|j: int|
                    0 <= j < i ==> #[trigger] out@[j].content@ == self.entries@[j].content@
                        && out@[j].mtime == self.entries@[j].mtime,
            decreases self.entries@.len() - i,
        {
            let newpath: String = if check_in_subtree(self.entries[i].path.as_str(), a) {
                apply_rewrite(self.entries[i].path.as_str(), a, b)
            } else {
                self.entries[i].path.clone()
            };
            out.push(
                FsEntry {
                    path: newpath,
                    content: self.entries[i].content.clone(),
                    mtime: self.entries[i].mtime,
                },
            );
            i = i + 1;
        }
        let ghost pre = *self;
        self.entries = out;
        proof {
            let n = pre.entries@.len() as int;
            assert forall|j: int| 0 <= j < n implies valid_path(
                #[trigger] self.entries@[j].path@,
            ) by {
                if in_subtree(pre.entries@[j].path@, a@) {
                    lemma_rewrite_valid(pre.entries@[j].path@, a@, b@);
                }
            }
            assert forall|j1: int, j2: int| 0 <= j1 < j2 < n implies self.entries@[j1].path@
                != self.entries@[j2].path@ by {
                let k1 = pre.entries@[j1].path@;
                let k2 = pre.entries@[j2].path@;
                if in_subtree(k1, a@) && in_subtree(k2, a@) {
                    lemma_rewrite_injective(k1, k2, a@, b@);
                } else if in_subtree(k1, a@) && !in_subtree(k2, a@) {
                    lemma_rewrite_in_subtree(k1, a@, b@);
                    if self.entries@[j1].path@ == self.entries@[j2].path@ {
                        lemma_map_value(pre.entries@, j2);
                        assert(pre@.dom().contains(k2) && in_subtree(k2, b@));
                        assert(false);
                    }
                } else if !in_subtree(k1, a@) && in_subtree(k2, a@) {
                    lemma_rewrite_in_subtree(k2, a@, b@);
                    if self.entries@[j1].path@ == self.entries@[j2].path@ {
                        lemma_map_value(pre.entries@, j1);
                        assert(pre@.dom().contains(k1) && in_subtree(k1, b@));
                        assert(false);
                    }
                }
            }
            assert(self.wf());
            assert forall|k: Seq<char>| #[trigger] pre@.contains_key(k) && !in_subtree(k, a@)
                implies self@.contains_key(k) && self@[k] == pre@[k] by {
                lemma_map_contains(pre.entries@, k);
                let j = choose|j: int| 0 <= j < n && pre.entries@[j].path@ == k;
                lemma_map_value(pre.entries@, j);
                assert(self.entries@[j].path@ == k);
                lemma_map_value(self.entries@, j);
            }
            assert forall|k: Seq<char>| #[trigger] pre@.contains_key(k) && in_subtree(k, a@)
                implies self@.contains_key(rewrite_prefix(k, a@, b@)) && self@[rewrite_prefix(
                k,
                a@,
                b@,
            )] == pre@[k] by {
                lemma_map_contains(pre.entries@, k);
                let j = choose|j: int| 0 <= j < n && pre.entries@[j].path@ == k;
                lemma_map_value(pre.entries@, j);
                assert(self.entries@[j].path@ == rewrite_prefix(k, a@, b@));
                lemma_map_value(self.entries@, j);
            }
            assert forall|k: Seq<char>| #[trigger] self@.contains_key(k) implies exists|
                k0: Seq<char>,
            |
                #[trigger] pre@.contains_key(k0) && k == moved_path(k0, a@, b@) by {
                lemma_map_contains(self.entries@, k);
                let j = choose|j: int| 0 <= j < self.entries@.len() && self.entries@[j].path@ == k;
                lemma_map_value(pre.entries@, j);
                assert(pre@.contains_key(pre.entries@[j].path@) && k == moved_path(
                    pre.entries@[j].path@,
                    a@,
                    b@,
                ));
            }
        }
    }

    /// Reports every note in the store, each exactly once, with its
    /// physical path and last-modified time; order is not significant.
    pub fn scan_all(&self) -> (r: Vec<NoteMetadata>)
        requires
            self.wf(),
        ensures
            forall|j: int|
                0 <= j < r@.len() ==> self@.contains_key(#[trigger] r@[j].path@) && r@[j].mtime
                    == self@[r@[j].path@].mtime,
            forall|j1: int, j2: int| 0 <= j1 < j2 < r@.len() ==> r@[j1].path@ != r@[j2].path@,
            forall|k: Seq<char>| #[trigger] self@.contains_key(k) ==> exists|j: int|
                0 <= j < r@.len() && #[trigger] r@[j].path@ == k,
    {
        let mut r: Vec<NoteMetadata> = Vec::new();
        let mut i: usize = 0;
        while i < self.entries.len()
            invariant
                self.wf(),
                i <= self.entries@.len(),
                r@.len() == i,
                forall|j: int| 0 <= j < i ==> #[trigger] r@[j].path@ == self.entries@[j].path@
                    && r@[j].mtime == self.entries@[j].mtime,
            decreases self.entries@.len() - i,
        {
            r.push(NoteMetadata { path: self.entries[i].path.clone(), mtime: self.entries[i].mtime });
            i = i + 1;
        }
        proof {
            assert forall|j: int| 0 <= j < r@.len() implies self@.contains_key(
                #[trigger] r@[j].path@,
            ) && r@[j].mtime == self@[r@[j].path@].mtime by {
                lemma_map_value(self.entries@, j);
            }
            assert forall|k: Seq<char>| #[trigger] self@.contains_key(k) implies exists|j: int|
                0 <= j < r@.len() && #[trigger] r@[j].path@ == k by {
                lemma_map_contains(self.entries@, k);
                let j = choose|j: int| 0 <= j < self.entries@.len() && self.entries@[j].path@ == k;
                assert(r@[j].path@ == k);
            }
        }
        r
    }

    /// The parent note path, or `None` for the root and for single-segment
    /// paths.
    pub fn get_parent_path(&self, path: &str) -> (r: Option<String>)
        ensures
            match r {
                Some(s) => path@.len() > 0 && has_slash(path@) && s@ == parent_seq(path@),
                None => path@.len() == 0 || !has_slash(path@),
            },
    {
        if path.is_empty() {
            return None;
        }
        match last_slash_idx(path) {
            Some(i) => {
                proof {
                    lemma_last_slash_unique(path@, i as int);
                }
                Some(String::from_str(path.substring_char(0, i)))
            },
            None => None,
        }
    }

    /// Lists the immediate sub-directory positions under `path`, whether
    /// or not they hold a note themselves; fails with `NotFound` when the
    /// directory for `path` does not exist.
    #[verifier::rlimit(100)]
    pub fn list_children(&self, path: &str) -> (r: Result<Vec<String>, Error>)
        requires
            self.wf(),
        ensures
            match r {
                Ok(v) => dir_exists(self@, path@) && children_listing(self@, path@, v@),
                Err(e) => e == Error::NotFound && !dir_exists(self@, path@),
            },
    {
        if !self.check_dir(path) {
            return Err(Error::NotFound);
        }
        let lp: usize = path.unicode_len();
        let mut v: Vec<String> = Vec::new();
        let mut i: usize = 0;
        while i < self.entries.len()
            invariant
                self.wf(),
                lp == path@.len(),
                i <= self.entries@.len(),
                forall|j: int|
                    0 <= j < v@.len() ==> child_of(#[trigger] v@[j]@, path@) && valid_path(v@[j]@)
                        && dir_exists(self@, v@[j]@),
                forall|j1: int, j2: int| 0 <= j1 < j2 < v@.len() ==> v@[j1]@ != v@[j2]@,
                forall|i0: int|
                    0 <= i0 < i && in_subtree(#[trigger] self.entries@[i0].path@, path@)
                        && self.entries@[i0].path@.len() > path@.len() ==> exists|j: int|
                        0 <= j < v@.len() && child_of(#[trigger] v@[j]@, path@) && in_subtree(
                            self.entries@[i0].path@,
                            v@[j]@,
                        ),
            decreases self.entries@.len() - i,
        {
            let ghost v0 = v@;
            let k = &self.entries[i].path;
            let lk: usize = k.unicode_len();
            if check_in_subtree(k.as_str(), path) && lk > lp {
                let start: usize = if lp == 0 {
                    0
                } else {
                    lp + 1
                };
                proof {
                    let ks = k@;
                    if lp > 0 {
                        assert(ks[lp as int] == '/');
                        if lk == lp + 1 {
                            assert(ks.last() == '/');
                            assert(false);
                        }
                    }
                }
                let mut end: usize = start;
                while end < lk && k.get_char(end) != '/'
                    invariant
                        lk == k@.len(),
                        start <= end <= lk,
                        forall|m: int| start <= m < end ==> k@[m] != '/',
                    decreases lk - end,
                {
                    end = end + 1;
                }
                let c = String::from_str(k.as_str().substring_char(0, end));
                proof {
                    let cs = c@;
                    let ks = k@;
                    assert(cs =~= ks.subrange(0, end as int));
                    if lp == 0 {
                        if end == 0 {
                            assert(end < lk);
                            assert(ks[0] == '/');
                            assert(ks.first() == '/');
                            assert(false);
                        }
                        assert(cs.len() > 0);
                        assert forall|m: int| 0 <= m < cs.len() implies cs[m] != '/' by {
                            assert(cs[m] == ks[m]);
                        }
                        assert(!has_slash(cs));
                        assert(parent_seq(cs) =~= path@);
                    } else {
                        assert(end >= lp + 1);
                        assert(cs.len() > lp);
                        assert(cs[lp as int] == ks[lp as int]);
                        assert(cs[lp as int] == '/');
                        assert forall|m: int| lp < m < cs.len() implies cs[m] != '/' by {
                            assert(cs[m] == ks[m]);
                        }
                        lemma_last_slash_unique(cs, lp as int);
                        assert(parent_seq(cs) =~= cs.subrange(0, lp as int));
                        assert(cs.subrange(0, lp as int) =~= ks.subrange(0, lp as int));
                        assert(ks.subrange(0, lp as int) =~= path@);
                    }
                    assert(child_of(cs, path@));
                    if end < lk {
                        assert(ks[end as int] == '/');
                        assert(in_subtree(ks, cs));
                    } else {
                        assert(cs =~= ks);
                        assert(in_subtree(ks, cs));
                    }
                    lemma_subtree_prefix_valid(ks, cs);
                    lemma_map_value(self.entries@, i as int);
                    assert(self@.dom().contains(ks) && in_subtree(ks, cs));
                    assert(dir_exists(self@, cs));
                }
                let mut seen = false;
                let mut j: usize = 0;
                while j < v.len() && !seen
                    invariant
                        j <= v@.len(),
                        seen ==> exists|j0: int| 0 <= j0 < v@.len() && #[trigger] v@[j0]@ == c@,
                        !seen ==> forall|j0: int| 0 <= j0 < j ==> v@[j0]@ != c@,
                    decreases v@.len() - j,
                {
                    if str_eq(v[j].as_str(), c.as_str()) {
                        seen = true;
                        proof {
                            assert(v@[j as int]@ == c@);
                        }
                    }
                    j = j + 1;
                }
                let ghost cs = c@;
                if !seen {
                    v.push(c);
                    proof {
                        assert(v@[v@.len() - 1]@ == cs);
                    }
                }
                proof {
                    assert(exists|j0: int| 0 <= j0 < v@.len() && #[trigger] v@[j0]@ == cs);
                    let w = choose|j0: int| 0 <= j0 < v@.len() && #[trigger] v@[j0]@ == cs;
                    assert(child_of(v@[w]@, path@) && in_subtree(
                        self.entries@[i as int].path@,
                        v@[w]@,
                    ));
                }
            }
            proof {
                assert(forall|j: int| 0 <= j < v0.len() ==> v@[j] == v0[j]);
                assert forall|i0: int|
                    0 <= i0 < i + 1 && in_subtree(#[trigger] self.entries@[i0].path@, path@)
                        && self.entries@[i0].path@.len() > path@.len() implies exists|j: int|
                    0 <= j < v@.len() && child_of(#[trigger] v@[j]@, path@) && in_subtree(
                        self.entries@[i0].path@,
                        v@[j]@,
                    ) by {
                    if i0 < i {
                        let w = choose|j: int|
                            0 <= j < v0.len() && child_of(#[trigger] v0[j]@, path@) && in_subtree(
                                self.entries@[i0].path@,
                                v0[j]@,
                            );
                        assert(v@[w]@ == v0[w]@);
                        assert(0 <= w < v@.len() && child_of(v@[w]@, path@) && in_subtree(
                            self.entries@[i0].path@,
                            v@[w]@,
                        ));
                    }
                }
            }
            i = i + 1;
        }
        proof {
            assert forall|c: Seq<char>| child_of(c, path@) && dir_exists(self@, c) implies exists|
                j: int,
            | 0 <= j < v@.len() && #[trigger] v@[j]@ == c by {
                let k = choose|k: Seq<char>| #[trigger] self@.dom().contains(k) && in_subtree(k, c);
                lemma_map_contains(self.entries@, k);
                let i0 = choose|i0: int|
                    0 <= i0 < self.entries@.len() && self.entries@[i0].path@ == k;
                lemma_subtree_prefix_valid(k, c);
                crate::paths::lemma_child_shape(c, path@);
                lemma_subtree_trans(k, c, path@);
                assert(k.len() >= c.len());
                assert(k.len() > path@.len());
                let j = choose|j: int|
                    0 <= j < v@.len() && child_of(#[trigger] v@[j]@, path@) && in_subtree(
                        k,
                        v@[j]@,
                    );
                lemma_child_unique(k, path@, c, v@[j]@);
            }
            assert(dir_exists(self@, path@));
            assert(children_listing(self@, path@, v@));
        }
        Ok(v)
    }

    /// The physical path of a note's content file, relative to the store
    /// root: the fixed file name directly under the note's directory, or
    /// the bare file name for the root note. Whoever touches the disk
    /// joins it onto the root directory.
    pub fn note_to_fs_path(&self, path: &str) -> (r: String)
        ensures
            r@ == spec_join(path@, content_file_name()),
    {
        let name = "_index.md";
        proof {
            reveal_strlit("_index.md");
            assert(name@ =~= content_file_name());
        }
        join_paths(path, name)
    }
}

} // verus!
