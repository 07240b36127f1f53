//! The derived note index: a queryable structure keyed by logical path
//! and archive flag, holding identity, last-modified time and searchable
//! content.
//!
//! The index is a cache derived from the note file tree; the sync engine
//! keeps the two consistent. Identity is assigned from a counter that
//! never hands out the same number twice.

use vstd::prelude::*;

use crate::notes::Error;
use crate::notes::NoteMetadata;
use crate::paths::{
    apply_rewrite, check_in_subtree, child_of, in_subtree, logical_ok, parent_of, str_eq,
    valid_path,
};

verus! {

/// What the index knows of one note, besides its key.
pub ghost struct EntryRec {
    pub id: i64,
    pub mtime: u64,
    pub content: Seq<char>,
}

/// One index row: identity, logical path, archive flag, last-modified
/// time, and the note's text for search.
#[derive(Clone, Debug)]
pub struct IndexEntry {
    pub id: i64,
    pub path: String,
    pub archived: bool,
    pub mtime: u64,
    pub content: String,
}

/// The key of an index row: logical path and archive flag.
pub open spec fn entry_key(e: IndexEntry) -> (Seq<char>, bool) {
    (e.path@, e.archived)
}

/// Where an index key lands when the unarchived subtree at `a` is
/// renamed to `b`: archived rows and rows outside the subtree stay put.
pub open spec fn renamed_key(
    k: (Seq<char>, bool),
    a: Seq<char>,
    b: Seq<char>,
) -> (Seq<char>, bool) {
    if !k.1 && in_subtree(k.0, a) {
        (crate::paths::rewrite_prefix(k.0, a, b), false)
    } else {
        k
    }
}

/// Where an index key lands when the subtree at `p` on archive side
/// `from` moves to the other side: rows elsewhere stay put.
pub open spec fn flipped_key(k: (Seq<char>, bool), p: Seq<char>, from: bool) -> (Seq<char>, bool) {
    if k.1 == from && in_subtree(k.0, p) {
        (k.0, !from)
    } else {
        k
    }
}

/// The payload of an index row.
pub open spec fn entry_rec(e: IndexEntry) -> EntryRec {
    EntryRec { id: e.id, mtime: e.mtime, content: e.content@ }
}

/// The code point of a character with an upper-case ASCII letter folded
/// to its lower-case form.
pub open spec fn lower_u(c: char) -> u32 {
    if 65 <= c as u32 && c as u32 <= 90 {
        (c as u32 + 32) as u32
    } else {
        c as u32
    }
}

/// Whether the query occurs in the text at offset `i`, compared with
/// ASCII letters folded to lower case.
pub open spec fn matches_at(hay: Seq<char>, q: Seq<char>, i: int) -> bool {
    forall|j: int| 0 <= j < q.len() ==> lower_u(#[trigger] hay[i + j]) == lower_u(q[j])
}

/// Whether the query occurs somewhere in the text, compared with ASCII
/// letters folded to lower case; the empty query occurs everywhere.
pub open spec fn contains_ci(hay: Seq<char>, q: Seq<char>) -> bool {
    exists|i: int| 0 <= i <= hay.len() - q.len() && matches_at(hay, q, i)
}

/// A metadata record that faithfully reports an index row.
pub open spec fn md_matches(m: Map<(Seq<char>, bool), EntryRec>, md: NoteMetadata) -> bool {
    &&& m.contains_key((md.path@, md.archived))
    &&& md.id == m[(md.path@, md.archived)].id
    &&& md.modified == m[(md.path@, md.archived)].mtime
}

/// What a children query returns: exactly the unarchived rows whose
/// direct parent position is `p`, each once, reported faithfully.
pub open spec fn children_rows(
    m: Map<(Seq<char>, bool), EntryRec>,
    p: Seq<char>,
    vs: Seq<NoteMetadata>,
) -> bool {
    &&& forall|j: int|
        0 <= j < vs.len() ==> (#[trigger] vs[j]).archived == false && child_of(vs[j].path@, p)
            && md_matches(m, vs[j])
    &&& forall|j1: int, j2: int| 0 <= j1 < j2 < vs.len() ==> vs[j1].path@ != vs[j2].path@
    &&& forall|l: Seq<char>|
        #[trigger] m.contains_key((l, false)) && child_of(l, p) ==> exists|j: int|
            0 <= j < vs.len() && (#[trigger] vs[j]).path@ == l
}

/// What a root-note query returns: exactly the unarchived rows with no
/// other unarchived row above them, each once, reported faithfully.
pub open spec fn root_rows(m: Map<(Seq<char>, bool), EntryRec>, vs: Seq<NoteMetadata>) -> bool {
    &&& forall|j: int|
        0 <= j < vs.len() ==> (#[trigger] vs[j]).archived == false && is_root_note(m, vs[j].path@)
            && md_matches(m, vs[j])
    &&& forall|j1: int, j2: int| 0 <= j1 < j2 < vs.len() ==> vs[j1].path@ != vs[j2].path@
    &&& forall|l: Seq<char>| is_root_note(m, l) ==> exists|j: int|
        0 <= j < vs.len() && (#[trigger] vs[j]).path@ == l
}

/// What an ancestor query returns: exactly the unarchived rows strictly
/// above `p`, ordered from the root down, reported faithfully.
pub open spec fn ancestor_rows(
    m: Map<(Seq<char>, bool), EntryRec>,
    p: Seq<char>,
    vs: Seq<NoteMetadata>,
) -> bool {
    &&& forall|j: int|
        0 <= j < vs.len() ==> (#[trigger] vs[j]).archived == false && in_subtree(p, vs[j].path@)
            && vs[j].path@ != p && md_matches(m, vs[j])
    &&& forall|j1: int, j2: int| 0 <= j1 < j2 < vs.len() ==> vs[j1].path@.len() < vs[j2].path@.len()
    &&& forall|q: Seq<char>|
        #[trigger] m.contains_key((q, false)) && in_subtree(p, q) && q != p ==> exists|j: int|
            0 <= j < vs.len() && (#[trigger] vs[j]).path@ == q
}

/// What a search returns: exactly the rows whose content contains the
/// query, ASCII-case-insensitively, each once, reported faithfully.
pub open spec fn search_hits(
    m: Map<(Seq<char>, bool), EntryRec>,
    q: Seq<char>,
    vs: Seq<NoteMetadata>,
) -> bool {
    &&& forall|j: int|
        0 <= j < vs.len() ==> md_matches(m, #[trigger] vs[j]) && contains_ci(
            m[(vs[j].path@, vs[j].archived)].content,
            q,
        )
    &&& forall|j1: int, j2: int|
        0 <= j1 < j2 < vs.len() ==> (vs[j1].path@, vs[j1].archived) != (
            vs[j2].path@,
            vs[j2].archived,
        )
    &&& forall|k: (Seq<char>, bool)|
        #[trigger] m.contains_key(k) && contains_ci(m[k].content, q) ==> exists|j: int|
            0 <= j < vs.len() && (#[trigger] vs[j]).path@ == k.0 && vs[j].archived == k.1
}

/// A logical path with no other note above it among the unarchived rows
/// of `m` (the root path has none by construction). Archived rows do not
/// count as ancestors: an archived note has left its hierarchy position
/// for the reserved namespace, and archive state must not leak into
/// ordinary hierarchy listings.
pub open spec fn is_root_note(m: Map<(Seq<char>, bool), EntryRec>, l: Seq<char>) -> bool {
    &&& m.contains_key((l, false))
    &&& forall|q: Seq<char>|
        #[trigger] m.contains_key((q, false)) && q != l ==> !in_subtree(l, q)
}

fn lower_char(c: char) -> (r: u32)
    ensures
        r == lower_u(c),
{
    let u = c as u32;
    if 65 <= u && u <= 90 {
        u + 32
    } else {
        u
    }
}

fn match_at(hay: &str, q: &str, i: usize) -> (r: bool)
    requires
        i + q@.len() <= hay@.len(),
    ensures
        r == matches_at(hay@, q@, i as int),
{
    let lh: usize = hay.unicode_len();
    let lq: usize = q.unicode_len();
    let mut j: usize = 0;
    while j < lq
        invariant
            lq == q@.len(),
            lh == hay@.len(),
            i + lq <= lh,
            j <= lq,
            forall|j0: int| 0 <= j0 < j ==> lower_u(#[trigger] hay@[i + j0]) == lower_u(q@[j0]),
        decreases lq - j,
    {
        if lower_char(hay.get_char(i + j)) != lower_char(q.get_char(j)) {
            return false;
        }
        j = j + 1;
    }
    true
}

/// Whether `q` occurs in `hay`, ASCII-case-insensitively.
pub fn contains_ci_exec(hay: &str, q: &str) -> (r: bool)
    ensures
        r == contains_ci(hay@, q@),
{
    let lh: usize = hay.unicode_len();
    let lq: usize = q.unicode_len();
    if lq > lh {
        return false;
    }
    let mut i: usize = 0;
    while i <= lh - lq
        invariant
            lh == hay@.len(),
            lq == q@.len(),
            lq <= lh,
            i <= lh - lq + 1,
            forall|i0: int| 0 <= i0 < i ==> !matches_at(hay@, q@, i0),
        decreases lh - lq - i + 1,
    {
        if match_at(hay, q, i) {
            return true;
        }
        i = i + 1;
    }
    false
}

#[verifier::opaque]
spec fn ix_map(s: Seq<IndexEntry>) -> Map<(Seq<char>, bool), EntryRec> {
    Map::new(
        |k: (Seq<char>, bool)| exists|i: int| 0 <= i < s.len() && entry_key(s[i]) == k,
        |k: (Seq<char>, bool)|
            {
                let i = choose|i: int| 0 <= i < s.len() && entry_key(s[i]) == k;
                entry_rec(s[i])
            },
    )
}

spec fn ix_entries_wf(s: Seq<IndexEntry>) -> bool {
    &&& forall|i: int| 0 <= i < s.len() ==> logical_ok(#[trigger] s[i].path@)
    &&& forall|i: int, j: int| 0 <= i < j < s.len() ==> entry_key(s[i]) != entry_key(s[j])
}

proof fn lemma_ix_contains(s: Seq<IndexEntry>, k: (Seq<char>, bool))
    ensures
        ix_map(s).contains_key(k) <==> exists|i: int| 0 <= i < s.len() && entry_key(s[i]) == k,
{
    reveal(ix_map);
}

proof fn lemma_ix_value(s: Seq<IndexEntry>, i: int)
    requires
        ix_entries_wf(s),
        0 <= i < s.len(),
    ensures
        ix_map(s).contains_key(entry_key(s[i])),
        ix_map(s)[entry_key(s[i])] == entry_rec(s[i]),
{
    reveal(ix_map);
    let k = entry_key(s[i]);
    let j = choose|j: int| 0 <= j < s.len() && entry_key(s[j]) == k;
    assert(j == i);
}

/// The queryable note index.
pub struct NoteIndex {
    entries: Vec<IndexEntry>,
    next_id: i64,
}

impl View for NoteIndex {
    type V = Map<(Seq<char>, bool), EntryRec>;

    closed spec fn view(&self) -> Map<(Seq<char>, bool), EntryRec> {
        ix_map(self.entries@)
    }
}

impl NoteIndex {
    /// The next identity to assign; identities are never reused.
    pub closed spec fn next_id(&self) -> i64 {
        self.next_id
    }

    /// Keys are logical paths, no two rows share a key, identities are
    /// distinct, positive and below the counter.
    pub closed spec fn wf(&self) -> bool {
        &&& ix_entries_wf(self.entries@)
        &&& self.next_id >= 1
        &&& forall|i: int|
            0 <= i < self.entries@.len() ==> 0 < #[trigger] self.entries@[i].id < self.next_id
        &&& forall|i: int, j: int|
            0 <= i < j < self.entries@.len() ==> self.entries@[i].id != self.entries@[j].id
    }

    /// Every key the index holds is a logical path.
    pub proof fn lemma_keys_logical(&self, k: (Seq<char>, bool))
        requires
            self.wf(),
            self@.contains_key(k),
        ensures
            logical_ok(k.0),
    {
        lemma_ix_contains(self.entries@, k);
    }

    /// Every identity the index holds is positive and below the counter.
    pub proof fn lemma_ids_below_counter(&self, k: (Seq<char>, bool))
        requires
            self.wf(),
            self@.contains_key(k),
        ensures
            0 < self@[k].id < self.next_id(),
    {
        lemma_ix_contains(self.entries@, k);
        let i = choose|i: int| 0 <= i < self.entries@.len() && entry_key(self.entries@[i]) == k;
        lemma_ix_value(self.entries@, i);
    }

    /// Distinct keys hold distinct identities.
    pub proof fn lemma_ids_distinct(&self, k1: (Seq<char>, bool), k2: (Seq<char>, bool))
        requires
            self.wf(),
            self@.contains_key(k1),
            self@.contains_key(k2),
            k1 != k2,
        ensures
            self@[k1].id != self@[k2].id,
    {
        lemma_ix_contains(self.entries@, k1);
        lemma_ix_contains(self.entries@, k2);
        let i1 = choose|i: int| 0 <= i < self.entries@.len() && entry_key(self.entries@[i]) == k1;
        let i2 = choose|i: int| 0 <= i < self.entries@.len() && entry_key(self.entries@[i]) == k2;
        lemma_ix_value(self.entries@, i1);
        lemma_ix_value(self.entries@, i2);
        assert(i1 != i2);
    }

    /// An empty index; the first identity to be assigned is 1.
    pub fn new() -> (r: Self)
        ensures
            r.wf(),
            r@ == Map::<(Seq<char>, bool), EntryRec>::empty(),
            r.next_id() == 1,
    {
        NoteIndex::new_with_counter(1)
    }

    /// An empty index whose counter starts above identities already
    /// assigned in the past, so that none of them is handed out again.
    pub fn new_with_counter(next_id: i64) -> (r: Self)
        requires
            next_id >= 1,
        ensures
            r.wf(),
            r@ == Map::<(Seq<char>, bool), EntryRec>::empty(),
            r.next_id() == next_id,
    {
        let r = NoteIndex { entries: Vec::new(), next_id };
        proof {
            assert forall|k: (Seq<char>, bool)| !(#[trigger] r@.contains_key(k)) by {
                lemma_ix_contains(r.entries@, k);
            }
            assert(r@ =~= Map::<(Seq<char>, bool), EntryRec>::empty());
        }
        r
    }

    /// The counter value: the identity the next fresh row would get.
    pub fn current_next_id(&self) -> (r: i64)
        requires
            self.wf(),
        ensures
            r == self.next_id(),
            r >= 1,
    {
        self.next_id
    }

    fn find(&self, path: &str, archived: bool) -> (r: Option<usize>)
        requires
            self.wf(),
        ensures
            match r {
                Some(i) => i < self.entries@.len() && entry_key(self.entries@[i as int]) == (
                    path@,
                    archived,
                ) && self@.contains_key((path@, archived)),
                None => !self@.contains_key((path@, archived)),
            },
    {
        let mut i: usize = 0;
        while i < self.entries.len()
            invariant
                self.wf(),
                i <= self.entries@.len(),
                forall|j: int|
                    0 <= j < i ==> entry_key(#[trigger] self.entries@[j]) != (path@, archived),
            decreases self.entries@.len() - i,
        {
            if self.entries[i].archived == archived && str_eq(
                self.entries[i].path.as_str(),
                path,
            ) {
                proof {
                    lemma_ix_value(self.entries@, i as int);
                }
                return Some(i);
            }
            i = i + 1;
        }
        proof {
            lemma_ix_contains(self.entries@, (path@, archived));
        }
        None
    }

    /// The row at a key, if any.
    pub fn lookup(&self, path: &str, archived: bool) -> (r: Option<IndexEntry>)
        requires
            self.wf(),
        ensures
            match r {
                Some(e) => self@.contains_key((path@, archived)) && entry_key(e) == (
                    path@,
                    archived,
                ) && entry_rec(e) == self@[(path@, archived)],
                None => !self@.contains_key((path@, archived)),
            },
    {
        match self.find(path, archived) {
            Some(i) => {
                proof {
                    lemma_ix_value(self.entries@, i as int);
                }
                let e = IndexEntry {
                    id: self.entries[i].id,
                    path: self.entries[i].path.clone(),
                    archived: self.entries[i].archived,
                    mtime: self.entries[i].mtime,
                    content: self.entries[i].content.clone(),
                };
                proof {
                    assert(e == self.entries@[i as int]);
                }
                Some(e)
            },
            None => None,
        }
    }

    /// Inserts a row under a fresh identity, which it returns; fails with
    /// `IOFailure` only when the identity counter is exhausted.
    pub fn insert_fresh(
        &mut self,
        path: &str,
        archived: bool,
        mtime: u64,
        content: &str,
    ) -> (r: Result<i64, Error>)
        requires
            old(self).wf(),
            logical_ok(path@),
            !old(self)@.contains_key((path@, archived)),
        ensures
            final(self).wf(),
            match r {
                Ok(id) => {
                    &&& id == old(self).next_id()
                    &&& final(self).next_id() == old(self).next_id() + 1
                    &&& final(self)@ == old(self)@.insert(
                        (path@, archived),
                        EntryRec { id: id, mtime: mtime, content: content@ },
                    )
                },
                Err(e) => {
                    &&& e == Error::IOFailure
                    &&& old(self).next_id() == i64::MAX
                    &&& final(self)@ == old(self)@
                    &&& final(self).next_id() == old(self).next_id()
                },
            },
    {
        if self.next_id == i64::MAX {
            return Err(Error::IOFailure);
        }
        let id = self.next_id;
        self.next_id = self.next_id + 1;
        let e = IndexEntry {
            id,
            path: String::from_str(path),
            archived,
            mtime,
            content: String::from_str(content),
        };
        proof {
            let s0 = self.entries@;
            lemma_ix_contains(s0, (path@, archived));
        }
        self.entries.push(e);
        proof {
            let m = old(self)@.insert(
                (path@, archived),
                EntryRec { id: id, mtime: mtime, content: content@ },
            );
            let n = old(self).entries@.len() as int;
            assert(forall|j: int| 0 <= j < n ==> self.entries@[j] == old(self).entries@[j]);
            assert(entry_key(self.entries@[n]) == (path@, archived));
            assert forall|j: int| 0 <= j < n implies entry_key(#[trigger] self.entries@[j]) != (
                path@,
                archived,
            ) by {
                lemma_ix_value(old(self).entries@, j);
            }
            assert(self.wf());
            assert forall|k: (Seq<char>, bool)| #[trigger] self@.contains_key(k) implies
                m.contains_key(k) && self@[k] == m[k] by {
                lemma_ix_contains(self.entries@, k);
                let j = choose|j: int|
                    0 <= j < self.entries@.len() && entry_key(self.entries@[j]) == k;
                lemma_ix_value(self.entries@, j);
                if j < n {
                    lemma_ix_value(old(self).entries@, j);
                }
            }
            assert forall|k: (Seq<char>, bool)| #[trigger] m.contains_key(k) implies
                self@.contains_key(k) by {
                lemma_ix_contains(self.entries@, k);
                if k == (path@, archived) {
                    assert(entry_key(self.entries@[n]) == k);
                } else {
                    lemma_ix_contains(old(self).entries@, k);
                    let j = choose|j: int|
                        0 <= j < old(self).entries@.len() && entry_key(old(self).entries@[j]) == k;
                    assert(entry_key(self.entries@[j]) == k);
                }
            }
            assert(self@ =~= m);
        }
        Ok(id)
    }

    /// Overwrites the payload of an existing row, keeping its identity.
    pub fn update(&mut self, path: &str, archived: bool, mtime: u64, content: &str)
        requires
            old(self).wf(),
            old(self)@.contains_key((path@, archived)),
        ensures
            final(self).wf(),
            final(self).next_id() == old(self).next_id(),
            final(self)@ == old(self)@.insert(
                (path@, archived),
                EntryRec {
                    id: old(self)@[(path@, archived)].id,
                    mtime: mtime,
                    content: content@,
                },
            ),
    {
        let i = match self.find(path, archived) {
            Some(i) => i,
            None => {
                proof {
                    assert(false);
                }
                0
            },
        };
        let ghost oldid = self@[(path@, archived)].id;
        proof {
            lemma_ix_value(self.entries@, i as int);
        }
        self.entries[i].mtime = mtime;
        self.entries[i].content = String::from_str(content);
        proof {
            let m = old(self)@.insert(
                (path@, archived),
                EntryRec { id: oldid, mtime: mtime, content: content@ },
            );
            assert(self.entries@.len() == old(self).entries@.len());
            assert(forall|j: int|
                0 <= j < self.entries@.len() && j != i ==> self.entries@[j] == old(
                    self,
                ).entries@[j]);
            assert(forall|j: int|
                0 <= j < self.entries@.len() ==> entry_key(#[trigger] self.entries@[j])
                    == entry_key(old(self).entries@[j]) && self.entries@[j].id == old(
                    self,
                ).entries@[j].id);
            assert(self.wf());
            assert forall|k: (Seq<char>, bool)| #[trigger] self@.contains_key(k) implies
                m.contains_key(k) && self@[k] == m[k] by {
                lemma_ix_contains(self.entries@, k);
                let j = choose|j: int|
                    0 <= j < self.entries@.len() && entry_key(self.entries@[j]) == k;
                lemma_ix_value(old(self).entries@, j);
                lemma_ix_value(self.entries@, j);
                if k == (path@, archived) {
                    assert(j == i as int);
                }
            }
            assert forall|k: (Seq<char>, bool)| #[trigger] m.contains_key(k) implies
                self@.contains_key(k) by {
                lemma_ix_contains(self.entries@, k);
                if k == (path@, archived) {
                    assert(entry_key(self.entries@[i as int]) == k);
                } else {
                    lemma_ix_contains(old(self).entries@, k);
                    let j = choose|j: int|
                        0 <= j < old(self).entries@.len() && entry_key(old(self).entries@[j]) == k;
                    assert(entry_key(self.entries@[j]) == k);
                }
            }
            assert(self@ =~= m);
        }
    }

    /// Removes the row at a key, if present.
    pub fn remove(&mut self, path: &str, archived: bool)
        requires
            old(self).wf(),
        ensures
            final(self).wf(),
            final(self).next_id() == old(self).next_id(),
            final(self)@ == old(self)@.remove((path@, archived)),
    {
        let mut kept: Vec<IndexEntry> = Vec::new();
        let ghost mut src: Seq<int> = Seq::empty();
        let mut i: usize = 0;
        while i < self.entries.len()
            invariant
                self.wf(),
                i <= self.entries@.len(),
                src.len() == kept@.len(),
                forall|j: int| 0 <= j < src.len() ==> 0 <= #[trigger] src[j] < i,
                forall|j: int|
                    0 <= j < src.len() ==> kept@[j] == self.entries@[#[trigger] src[j]],
                forall|j: int|
                    0 <= j < src.len() ==> entry_key(self.entries@[#[trigger] src[j]]) != (path@, archived),
                forall|j1: int, j2: int| 0 <= j1 < j2 < src.len() ==> src[j1] < src[j2],
                forall|i0: int|
                    0 <= i0 < i && entry_key(#[trigger] self.entries@[i0]) != (path@, archived)
                        ==> exists|j: int| 0 <= j < src.len() && src[j] == i0,
            decreases self.entries@.len() - i,
        {
            let keep = !(self.entries[i].archived == archived && str_eq(
                self.entries[i].path.as_str(),
                path,
            ));
            if keep {
                let e = IndexEntry {
                    id: self.entries[i].id,
                    path: self.entries[i].path.clone(),
                    archived: self.entries[i].archived,
                    mtime: self.entries[i].mtime,
                    content: self.entries[i].content.clone(),
                };
                proof {
                    assert(e == self.entries@[i as int]);
                }
                kept.push(e);
                proof {
                    assert(self.entries@[i as int].path@ != path@ || self.entries@[i as int].archived
                        != archived);
                    if entry_key(self.entries@[i as int]) == (path@, archived) {
                        assert(entry_key(self.entries@[i as int]).0 == (path@, archived).0);
                        assert(entry_key(self.entries@[i as int]).1 == (path@, archived).1);
                        assert(false);
                    }
                    assert(entry_key(self.entries@[i as int]) != (path@, archived));
                    let src0 = src;
                    src = src.push(i as int);
                    assert forall|i0: int|
                        0 <= i0 < i + 1 && entry_key(#[trigger] self.entries@[i0]) != (path@, archived)
                            implies exists|j: int| 0 <= j < src.len() && src[j] == i0 by {
                        if i0 < i {
                            let w = choose|j: int| 0 <= j < src0.len() && src0[j] == i0;
                            assert(src[w] == i0);
                        } else {
                            assert(src[src.len() - 1] == i0);
                        }
                    }
                }
            } else {
                proof {
                    assert(self.entries@[i as int].path@ == path@ && self.entries@[i as int].archived
                        == archived);
                    assert(entry_key(self.entries@[i as int]) == (path@, archived));
                }
            }
            i = i + 1;
        }
        let ghost pre = *self;
        self.entries = kept;
        proof {
            assert forall|j1: int, j2: int| 0 <= j1 < j2 < self.entries@.len() implies entry_key(
                self.entries@[j1],
            ) != entry_key(self.entries@[j2]) by {
                assert(src[j1] < src[j2]);
                assert(self.entries@[j1] == pre.entries@[src[j1]]);
                assert(self.entries@[j2] == pre.entries@[src[j2]]);
                assert(entry_key(pre.entries@[src[j1]]) != entry_key(pre.entries@[src[j2]]));
            }
            assert forall|j: int| 0 <= j < self.entries@.len() implies logical_ok(
                #[trigger] self.entries@[j].path@,
            ) by {
                assert(self.entries@[j] == pre.entries@[src[j]]);
                assert(logical_ok(pre.entries@[src[j]].path@));
            }
            assert forall|j: int| 0 <= j < self.entries@.len() implies 0 < #[trigger] self
                .entries@[j].id < self.next_id by {
                assert(self.entries@[j] == pre.entries@[src[j]]);
                assert(0 < pre.entries@[src[j]].id < pre.next_id);
            }
            assert forall|j1: int, j2: int| 0 <= j1 < j2 < self.entries@.len() implies
                self.entries@[j1].id != self.entries@[j2].id by {
                assert(src[j1] < src[j2]);
                assert(self.entries@[j1] == pre.entries@[src[j1]]);
                assert(self.entries@[j2] == pre.entries@[src[j2]]);
                assert(pre.entries@[src[j1]].id != pre.entries@[src[j2]].id);
            }
            assert(self.wf());
            let m = pre@.remove((path@, archived));
            assert forall|k: (Seq<char>, bool)| #[trigger] self@.contains_key(k) implies
                m.contains_key(k) && self@[k] == m[k] by {
                lemma_ix_contains(self.entries@, k);
                let j = choose|j: int|
                    0 <= j < self.entries@.len() && entry_key(self.entries@[j]) == k;
                lemma_ix_value(self.entries@, j);
                lemma_ix_value(pre.entries@, src[j]);
            }
            assert forall|k: (Seq<char>, bool)| #[trigger] m.contains_key(k) implies
                self@.contains_key(k) by {
                lemma_ix_contains(pre.entries@, k);
                let i0 = choose|i0: int|
                    0 <= i0 < pre.entries@.len() && entry_key(pre.entries@[i0]) == k;
                let j = choose|j: int| 0 <= j < src.len() && src[j] == i0;
                assert(entry_key(self.entries@[j]) == k);
                lemma_ix_contains(self.entries@, k);
            }
            assert(self@ =~= m);
        }
    }

    /// Inserts a row under a given identity, already assigned in the past
    /// and used by no current row.
    pub fn insert_with_id(&mut self, path: &str, archived: bool, id: i64, mtime: u64, content: &str)
        requires
            old(self).wf(),
            logical_ok(path@),
            !old(self)@.contains_key((path@, archived)),
            0 < id < old(self).next_id(),
            forall|k: (Seq<char>, bool)|
                #[trigger] old(self)@.contains_key(k) ==> old(self)@[k].id != id,
        ensures
            final(self).wf(),
            final(self).next_id() == old(self).next_id(),
            final(self)@ == old(self)@.insert(
                (path@, archived),
                EntryRec { id: id, mtime: mtime, content: content@ },
            ),
    {
        let e = IndexEntry {
            id,
            path: String::from_str(path),
            archived,
            mtime,
            content: String::from_str(content),
        };
        self.entries.push(e);
        proof {
            let m = old(self)@.insert(
                (path@, archived),
                EntryRec { id: id, mtime: mtime, content: content@ },
            );
            let n = old(self).entries@.len() as int;
            assert(forall|j: int| 0 <= j < n ==> self.entries@[j] == old(self).entries@[j]);
            assert(entry_key(self.entries@[n]) == (path@, archived));
            assert forall|j: int| 0 <= j < n implies entry_key(#[trigger] self.entries@[j]) != (
                path@,
                archived,
            ) && self.entries@[j].id != id by {
                lemma_ix_value(old(self).entries@, j);
            }
            assert(self.wf());
            assert forall|k: (Seq<char>, bool)| #[trigger] self@.contains_key(k) implies
                m.contains_key(k) && self@[k] == m[k] by {
                lemma_ix_contains(self.entries@, k);
                let j = choose|j: int|
                    0 <= j < self.entries@.len() && entry_key(self.entries@[j]) == k;
                lemma_ix_value(self.entries@, j);
                if j < n {
                    lemma_ix_value(old(self).entries@, j);
                }
            }
            assert forall|k: (Seq<char>, bool)| #[trigger] m.contains_key(k) implies
                self@.contains_key(k) by {
                lemma_ix_contains(self.entries@, k);
                if k == (path@, archived) {
                    assert(entry_key(self.entries@[n]) == k);
                } else {
                    lemma_ix_contains(old(self).entries@, k);
                    let j = choose|j: int|
                        0 <= j < old(self).entries@.len() && entry_key(old(self).entries@[j]) == k;
                    assert(entry_key(self.entries@[j]) == k);
                }
            }
            assert(self@ =~= m);
        }
    }

    /// Removes every row whose physical location lies in the subtree at
    /// physical path `p`.
    pub fn remove_phys_subtree(&mut self, p: &str)
        requires
            old(self).wf(),
        ensures
            final(self).wf(),
            final(self).next_id() == old(self).next_id(),
            forall|k: (Seq<char>, bool)|
                #[trigger] final(self)@.contains_key(k) <==> (old(self)@.contains_key(k)
                    && !in_subtree(crate::paths::phys_path(k.0, k.1), p@)),
            forall|k: (Seq<char>, bool)|
                final(self)@.contains_key(k) ==> #[trigger] final(self)@[k] == old(self)@[k],
    {
        let mut kept: Vec<IndexEntry> = Vec::new();
        let ghost mut src: Seq<int> = Seq::empty();
        let mut i: usize = 0;
        while i < self.entries.len()
            invariant
                self.wf(),
                i <= self.entries@.len(),
                src.len() == kept@.len(),
                forall|j: int| 0 <= j < src.len() ==> 0 <= #[trigger] src[j] < i,
                forall|j: int|
                    0 <= j < src.len() ==> kept@[j] == self.entries@[#[trigger] src[j]],
                forall|j: int|
                    0 <= j < src.len() ==> !in_subtree(
                        crate::paths::phys_path(
                            self.entries@[#[trigger] src[j]].path@,
                            self.entries@[src[j]].archived,
                        ),
                        p@,
                    ),
                forall|j1: int, j2: int| 0 <= j1 < j2 < src.len() ==> src[j1] < src[j2],
                forall|i0: int|
                    0 <= i0 < i && !in_subtree(
                        crate::paths::phys_path(
                            (#[trigger] self.entries@[i0]).path@,
                            self.entries@[i0].archived,
                        ),
                        p@,
                    ) ==> exists|j: int| 0 <= j < src.len() && src[j] == i0,
            decreases self.entries@.len() - i,
        {
            let ph = crate::paths::to_phys(self.entries[i].path.as_str(), self.entries[i].archived);
            if !check_in_subtree(ph.as_str(), p) {
                let e = IndexEntry {
                    id: self.entries[i].id,
                    path: self.entries[i].path.clone(),
                    archived: self.entries[i].archived,
                    mtime: self.entries[i].mtime,
                    content: self.entries[i].content.clone(),
                };
                proof {
                    assert(e == self.entries@[i as int]);
                }
                kept.push(e);
                proof {
                    let src0 = src;
                    src = src.push(i as int);
                    assert forall|i0: int|
                        0 <= i0 < i + 1 && !in_subtree(
                            crate::paths::phys_path(
                                (#[trigger] self.entries@[i0]).path@,
                                self.entries@[i0].archived,
                            ),
                            p@,
                        ) implies exists|j: int| 0 <= j < src.len() && src[j] == i0 by {
                        if i0 < i {
                            let w = choose|j: int| 0 <= j < src0.len() && src0[j] == i0;
                            assert(src[w] == i0);
                        } else {
                            assert(src[src.len() - 1] == i0);
                        }
                    }
                }
            }
            i = i + 1;
        }
        let ghost pre = *self;
        self.entries = kept;
        proof {
            assert forall|j1: int, j2: int| 0 <= j1 < j2 < self.entries@.len() implies entry_key(
                self.entries@[j1],
            ) != entry_key(self.entries@[j2]) by {
                assert(src[j1] < src[j2]);
                assert(self.entries@[j1] == pre.entries@[src[j1]]);
                assert(self.entries@[j2] == pre.entries@[src[j2]]);
                assert(entry_key(pre.entries@[src[j1]]) != entry_key(pre.entries@[src[j2]]));
            }
            assert forall|j: int| 0 <= j < self.entries@.len() implies logical_ok(
                #[trigger] self.entries@[j].path@,
            ) by {
                assert(self.entries@[j] == pre.entries@[src[j]]);
                assert(logical_ok(pre.entries@[src[j]].path@));
            }
            assert forall|j: int| 0 <= j < self.entries@.len() implies 0 < #[trigger] self
                .entries@[j].id < self.next_id by {
                assert(self.entries@[j] == pre.entries@[src[j]]);
                assert(0 < pre.entries@[src[j]].id < pre.next_id);
            }
            assert forall|j1: int, j2: int| 0 <= j1 < j2 < self.entries@.len() implies
                self.entries@[j1].id != self.entries@[j2].id by {
                assert(src[j1] < src[j2]);
                assert(self.entries@[j1] == pre.entries@[src[j1]]);
                assert(self.entries@[j2] == pre.entries@[src[j2]]);
                assert(pre.entries@[src[j1]].id != pre.entries@[src[j2]].id);
            }
            assert(self.wf());
            assert forall|k: (Seq<char>, bool)| #[trigger] self@.contains_key(k) implies (
            pre@.contains_key(k) && !in_subtree(crate::paths::phys_path(k.0, k.1), p@) && self@[k]
                == pre@[k]) by {
                lemma_ix_contains(self.entries@, k);
                let j = choose|j: int|
                    0 <= j < self.entries@.len() && entry_key(self.entries@[j]) == k;
                lemma_ix_value(self.entries@, j);
                lemma_ix_value(pre.entries@, src[j]);
            }
            assert forall|k: (Seq<char>, bool)|
                pre@.contains_key(k) && !in_subtree(
                    crate::paths::phys_path(k.0, k.1),
                    p@,
                ) implies #[trigger] self@.contains_key(k) by {
                lemma_ix_contains(pre.entries@, k);
                let i0 = choose|i0: int|
                    0 <= i0 < pre.entries@.len() && entry_key(pre.entries@[i0]) == k;
                let j = choose|j: int| 0 <= j < src.len() && src[j] == i0;
                assert(entry_key(self.entries@[j]) == k);
                lemma_ix_contains(self.entries@, k);
            }
        }
    }

    /// Rewrites the path prefix of every unarchived row in the subtree at
    /// `a` to `b`, preserving identities; archived rows stay put.
    pub fn rename_subtree(&mut self, a: &str, b: &str)
        requires
            old(self).wf(),
            a@.len() > 0,
            b@.len() > 0,
            logical_ok(b@),
            forall|l: Seq<char>|
                #[trigger] old(self)@.contains_key((l, false)) ==> !in_subtree(l, b@),
        ensures
            final(self).wf(),
            final(self).next_id() == old(self).next_id(),
            forall|k: (Seq<char>, bool)| #[trigger] old(self)@.contains_key(k) ==> final(self)@.contains_key(renamed_key(k, a@, b@)) && final(self)@[renamed_key(k, a@, b@)] == old(
                self,
            )@[k],
            forall|k: (Seq<char>, bool)| #[trigger] final(self)@.contains_key(k) ==> exists|
                k0: (Seq<char>, bool),
            | #[trigger] old(self)@.contains_key(k0) && k == renamed_key(k0, a@, b@),
    {
        let mut out: Vec<IndexEntry> = Vec::new();
        let mut i: usize = 0;
        while i < self.entries.len()
            invariant
                self.wf(),
                a@.len() > 0,
                b@.len() > 0,
                logical_ok(b@),
                i <= self.entries@.len(),
                out@.len() == i,
                forall|j: int|
                    0 <= j < i ==> entry_key(#[trigger] out@[j]) == renamed_key(
                        entry_key(self.entries@[j]),
                        a@,
                        b@,
                    ),
                forall|j: int|
                    0 <= j < i ==> entry_rec(#[trigger] out@[j]) == entry_rec(self.entries@[j]),
            decreases self.entries@.len() - i,
        {
            let path_new: String = if !self.entries[i].archived && check_in_subtree(
                self.entries[i].path.as_str(),
                a,
            ) {
                apply_rewrite(self.entries[i].path.as_str(), a, b)
            } else {
                self.entries[i].path.clone()
            };
            let e = IndexEntry {
                id: self.entries[i].id,
                path: path_new,
                archived: self.entries[i].archived,
                mtime: self.entries[i].mtime,
                content: self.entries[i].content.clone(),
            };
            out.push(e);
            i = i + 1;
        }
        let ghost pre = *self;
        self.entries = out;
        proof {
            let n = pre.entries@.len() as int;
            assert forall|j: int| 0 <= j < n implies logical_ok(
                #[trigger] self.entries@[j].path@,
            ) by {
                let k0 = entry_key(pre.entries@[j]);
                assert(logical_ok(k0.0));
                if !k0.1 && in_subtree(k0.0, a@) {
                    crate::paths::lemma_rewrite_logical(k0.0, a@, b@);
                    assert(self.entries@[j].path@ == crate::paths::rewrite_prefix(k0.0, a@, b@));
                }
            }
            assert forall|j1: int, j2: int| 0 <= j1 < j2 < n implies entry_key(self.entries@[j1])
                != entry_key(self.entries@[j2]) by {
                let k1 = entry_key(pre.entries@[j1]);
                let k2 = entry_key(pre.entries@[j2]);
                assert(k1 != k2);
                let m1 = renamed_key(k1, a@, b@);
                let m2 = renamed_key(k2, a@, b@);
                if !k1.1 && in_subtree(k1.0, a@) && !k2.1 && in_subtree(k2.0, a@) {
                    if k1.0 != k2.0 {
                        crate::paths::lemma_rewrite_injective(k1.0, k2.0, a@, b@);
                    }
                } else if (!k1.1 && in_subtree(k1.0, a@)) && !(!k2.1 && in_subtree(k2.0, a@)) {
                    crate::paths::lemma_rewrite_in_subtree(k1.0, a@, b@);
                    if m1 == m2 {
                        lemma_ix_value(pre.entries@, j2);
                        assert(pre@.contains_key((k2.0, false)) && in_subtree(k2.0, b@));
                        assert(false);
                    }
                } else if !(!k1.1 && in_subtree(k1.0, a@)) && (!k2.1 && in_subtree(k2.0, a@)) {
                    crate::paths::lemma_rewrite_in_subtree(k2.0, a@, b@);
                    if m1 == m2 {
                        lemma_ix_value(pre.entries@, j1);
                        assert(pre@.contains_key((k1.0, false)) && in_subtree(k1.0, b@));
                        assert(false);
                    }
                }
            }
            assert forall|j1: int, j2: int| 0 <= j1 < j2 < n implies self.entries@[j1].id
                != self.entries@[j2].id by {
                assert(entry_rec(self.entries@[j1]).id == entry_rec(pre.entries@[j1]).id);
                assert(entry_rec(self.entries@[j2]).id == entry_rec(pre.entries@[j2]).id);
                assert(pre.entries@[j1].id != pre.entries@[j2].id);
            }
            assert forall|j: int| 0 <= j < n implies 0 < #[trigger] self.entries@[j].id
                < self.next_id by {
                assert(entry_rec(self.entries@[j]).id == entry_rec(pre.entries@[j]).id);
                assert(0 < pre.entries@[j].id < pre.next_id);
            }
            assert(self.wf());
            assert forall|k: (Seq<char>, bool)| #[trigger] pre@.contains_key(k) implies
                self@.contains_key(renamed_key(k, a@, b@)) && self@[renamed_key(k, a@, b@)]
                == pre@[k] by {
                lemma_ix_contains(pre.entries@, k);
                let j = choose|j: int| 0 <= j < n && entry_key(pre.entries@[j]) == k;
                lemma_ix_value(pre.entries@, j);
                assert(entry_key(self.entries@[j]) == renamed_key(k, a@, b@));
                lemma_ix_value(self.entries@, j);
            }
            assert forall|k: (Seq<char>, bool)| #[trigger] self@.contains_key(k) implies exists|
                k0: (Seq<char>, bool),
            | #[trigger] pre@.contains_key(k0) && k == renamed_key(k0, a@, b@) by {
                lemma_ix_contains(self.entries@, k);
                let j = choose|j: int|
                    0 <= j < self.entries@.len() && entry_key(self.entries@[j]) == k;
                lemma_ix_value(pre.entries@, j);
                assert(pre@.contains_key(entry_key(pre.entries@[j])) && k == renamed_key(
                    entry_key(pre.entries@[j]),
                    a@,
                    b@,
                ));
            }
        }
    }

    /// Moves every row on archive side `from` in the subtree at `p` to
    /// the other side, preserving identities.
    pub fn flip_archived_subtree(&mut self, p: &str, from: bool)
        requires
            old(self).wf(),
            p@.len() > 0,
            forall|k: (Seq<char>, bool)|
                #[trigger] old(self)@.contains_key(k) && k.1 == !from ==> !in_subtree(k.0, p@),
        ensures
            final(self).wf(),
            final(self).next_id() == old(self).next_id(),
            forall|k: (Seq<char>, bool)| #[trigger] old(self)@.contains_key(k) ==> final(self)@.contains_key(flipped_key(k, p@, from)) && final(self)@[flipped_key(k, p@, from)]
                == old(self)@[k],
            forall|k: (Seq<char>, bool)| #[trigger] final(self)@.contains_key(k) ==> exists|
                k0: (Seq<char>, bool),
            | #[trigger] old(self)@.contains_key(k0) && k == flipped_key(k0, p@, from),
    {
        let mut out: Vec<IndexEntry> = Vec::new();
        let mut i: usize = 0;
        while i < self.entries.len()
            invariant
                self.wf(),
                p@.len() > 0,
                i <= self.entries@.len(),
                out@.len() == i,
                forall|j: int|
                    0 <= j < i ==> entry_key(#[trigger] out@[j]) == flipped_key(
                        entry_key(self.entries@[j]),
                        p@,
                        from,
                    ),
                forall|j: int|
                    0 <= j < i ==> entry_rec(#[trigger] out@[j]) == entry_rec(self.entries@[j]),
            decreases self.entries@.len() - i,
        {
            let arch_new: bool = if self.entries[i].archived == from && check_in_subtree(
                self.entries[i].path.as_str(),
                p,
            ) {
                !from
            } else {
                self.entries[i].archived
            };
            let e = IndexEntry {
                id: self.entries[i].id,
                path: self.entries[i].path.clone(),
                archived: arch_new,
                mtime: self.entries[i].mtime,
                content: self.entries[i].content.clone(),
            };
            out.push(e);
            i = i + 1;
        }
        let ghost pre = *self;
        self.entries = out;
        proof {
            let n = pre.entries@.len() as int;
            assert forall|j: int| 0 <= j < n implies logical_ok(
                #[trigger] self.entries@[j].path@,
            ) by {
                assert(self.entries@[j].path@ == pre.entries@[j].path@);
                assert(logical_ok(pre.entries@[j].path@));
            }
            assert forall|j1: int, j2: int| 0 <= j1 < j2 < n implies entry_key(self.entries@[j1])
                != entry_key(self.entries@[j2]) by {
                let k1 = entry_key(pre.entries@[j1]);
                let k2 = entry_key(pre.entries@[j2]);
                assert(k1 != k2);
                let m1 = flipped_key(k1, p@, from);
                let m2 = flipped_key(k2, p@, from);
                if m1 == m2 && k1.1 == from && in_subtree(k1.0, p@) && !(k2.1 == from
                    && in_subtree(k2.0, p@)) {
                    lemma_ix_value(pre.entries@, j2);
                    assert(pre@.contains_key((k1.0, !from)) && in_subtree(k1.0, p@));
                    assert(false);
                }
                if m1 == m2 && k2.1 == from && in_subtree(k2.0, p@) && !(k1.1 == from
                    && in_subtree(k1.0, p@)) {
                    lemma_ix_value(pre.entries@, j1);
                    assert(pre@.contains_key((k2.0, !from)) && in_subtree(k2.0, p@));
                    assert(false);
                }
            }
            assert forall|j1: int, j2: int| 0 <= j1 < j2 < n implies self.entries@[j1].id
                != self.entries@[j2].id by {
                assert(entry_rec(self.entries@[j1]).id == entry_rec(pre.entries@[j1]).id);
                assert(entry_rec(self.entries@[j2]).id == entry_rec(pre.entries@[j2]).id);
                assert(pre.entries@[j1].id != pre.entries@[j2].id);
            }
            assert forall|j: int| 0 <= j < n implies 0 < #[trigger] self.entries@[j].id
                < self.next_id by {
                assert(entry_rec(self.entries@[j]).id == entry_rec(pre.entries@[j]).id);
                assert(0 < pre.entries@[j].id < pre.next_id);
            }
            assert(self.wf());
            assert forall|k: (Seq<char>, bool)| #[trigger] pre@.contains_key(k) implies
                self@.contains_key(flipped_key(k, p@, from)) && self@[flipped_key(k, p@, from)]
                == pre@[k] by {
                lemma_ix_contains(pre.entries@, k);
                let j = choose|j: int| 0 <= j < n && entry_key(pre.entries@[j]) == k;
                lemma_ix_value(pre.entries@, j);
                assert(entry_key(self.entries@[j]) == flipped_key(k, p@, from));
                lemma_ix_value(self.entries@, j);
            }
            assert forall|k: (Seq<char>, bool)| #[trigger] self@.contains_key(k) implies exists|
                k0: (Seq<char>, bool),
            | #[trigger] pre@.contains_key(k0) && k == flipped_key(k0, p@, from) by {
                lemma_ix_contains(self.entries@, k);
                let j = choose|j: int|
                    0 <= j < self.entries@.len() && entry_key(self.entries@[j]) == k;
                lemma_ix_value(pre.entries@, j);
                assert(pre@.contains_key(entry_key(pre.entries@[j])) && k == flipped_key(
                    entry_key(pre.entries@[j]),
                    p@,
                    from,
                ));
            }
        }
    }

    /// The metadata of every unarchived row whose direct parent position
    /// is `p`, each exactly once; order is not significant.
    pub fn children_of(&self, p: &str) -> (r: Vec<NoteMetadata>)
        requires
            self.wf(),
        ensures
            children_rows(self@, p@, r@),
    {
        let mut r: Vec<NoteMetadata> = Vec::new();
        let ghost mut src: Seq<int> = Seq::empty();
        let mut i: usize = 0;
        while i < self.entries.len()
            invariant
                self.wf(),
                i <= self.entries@.len(),
                src.len() == r@.len(),
                forall|j: int| 0 <= j < src.len() ==> 0 <= #[trigger] src[j] < i,
                forall|j1: int, j2: int| 0 <= j1 < j2 < src.len() ==> src[j1] < src[j2],
                forall|j: int|
                    0 <= j < src.len() ==> (#[trigger] r@[j]).path@ == self.entries@[src[j]].path@
                        && r@[j].archived == false && self.entries@[src[j]].archived == false
                        && r@[j].id == self.entries@[src[j]].id && r@[j].modified
                        == self.entries@[src[j]].mtime && child_of(r@[j].path@, p@),
                forall|i0: int|
                    0 <= i0 < i && (#[trigger] self.entries@[i0]).archived == false && child_of(
                        self.entries@[i0].path@,
                        p@,
                    ) ==> exists|j: int| 0 <= j < src.len() && src[j] == i0,
            decreases self.entries@.len() - i,
        {
            let mut is_child = false;
            if !self.entries[i].archived && !self.entries[i].path.as_str().is_empty() {
                let par = parent_of(self.entries[i].path.as_str());
                is_child = str_eq(par.as_str(), p);
            }
            if is_child {
                proof {
                    assert(child_of(self.entries@[i as int].path@, p@));
                }
                r.push(
                    NoteMetadata {
                        id: self.entries[i].id,
                        path: self.entries[i].path.clone(),
                        modified: self.entries[i].mtime,
                        archived: false,
                    },
                );
                proof {
                    let src0 = src;
                    src = src.push(i as int);
                    assert forall|i0: int|
                        0 <= i0 < i + 1 && (#[trigger] self.entries@[i0]).archived == false
                            && child_of(self.entries@[i0].path@, p@) implies exists|j: int|
                        0 <= j < src.len() && src[j] == i0 by {
                        if i0 < i {
                            let w = choose|j: int| 0 <= j < src0.len() && src0[j] == i0;
                            assert(src[w] == i0);
                        } else {
                            assert(src[src.len() - 1] == i0);
                        }
                    }
                }
            } else {
                proof {
                    assert(!(self.entries@[i as int].archived == false && child_of(
                        self.entries@[i as int].path@,
                        p@,
                    )));
                }
            }
            i = i + 1;
        }
        proof {
            assert forall|j: int| 0 <= j < r@.len() implies (#[trigger] r@[j]).archived == false
                && child_of(r@[j].path@, p@) && md_matches(self@, r@[j]) by {
                lemma_ix_value(self.entries@, src[j]);
                assert(entry_key(self.entries@[src[j]]) == (r@[j].path@, false));
            }
            assert forall|j1: int, j2: int| 0 <= j1 < j2 < r@.len() implies r@[j1].path@
                != r@[j2].path@ by {
                assert(src[j1] < src[j2]);
                assert(entry_key(self.entries@[src[j1]]) != entry_key(self.entries@[src[j2]]));
            }
            assert forall|l: Seq<char>|
                #[trigger] self@.contains_key((l, false)) && child_of(l, p@) implies exists|j: int|
                0 <= j < r@.len() && (#[trigger] r@[j]).path@ == l by {
                lemma_ix_contains(self.entries@, (l, false));
                let i0 = choose|i0: int|
                    0 <= i0 < self.entries@.len() && entry_key(self.entries@[i0]) == (l, false);
                assert(self.entries@[i0].archived == false && child_of(self.entries@[i0].path@, p@));
                let j = choose|j: int| 0 <= j < src.len() && src[j] == i0;
                assert(r@[j].path@ == l);
            }
            assert(children_rows(self@, p@, r@));
        }
        r
    }

    /// The metadata of every unarchived row with no other unarchived row
    /// above it, each exactly once; order is not significant.
    pub fn root_notes(&self) -> (r: Vec<NoteMetadata>)
        requires
            self.wf(),
        ensures
            root_rows(self@, r@),
    {
        let mut r: Vec<NoteMetadata> = Vec::new();
        let ghost mut src: Seq<int> = Seq::empty();
        let mut i: usize = 0;
        while i < self.entries.len()
            invariant
                self.wf(),
                i <= self.entries@.len(),
                src.len() == r@.len(),
                forall|j: int| 0 <= j < src.len() ==> 0 <= #[trigger] src[j] < i,
                forall|j1: int, j2: int| 0 <= j1 < j2 < src.len() ==> src[j1] < src[j2],
                forall|j: int|
                    0 <= j < src.len() ==> (#[trigger] r@[j]).path@ == self.entries@[src[j]].path@
                        && r@[j].archived == false && self.entries@[src[j]].archived == false
                        && r@[j].id == self.entries@[src[j]].id && r@[j].modified
                        == self.entries@[src[j]].mtime && is_root_note(self@, r@[j].path@),
                forall|i0: int|
                    0 <= i0 < i && (#[trigger] self.entries@[i0]).archived == false
                        && is_root_note(self@, self.entries@[i0].path@) ==> exists|j: int|
                        0 <= j < src.len() && src[j] == i0,
            decreases self.entries@.len() - i,
        {
            if !self.entries[i].archived {
                let mut has_anc = false;
                let mut w: usize = 0;
                while w < self.entries.len()
                    invariant
                        self.wf(),
                        i < self.entries@.len(),
                        w <= self.entries@.len(),
                        has_anc ==> exists|w0: int|
                            0 <= w0 < self.entries@.len() && (#[trigger] self.entries@[w0]).archived
                                == false && self.entries@[w0].path@ != self.entries@[i as int].path@
                                && in_subtree(
                                self.entries@[i as int].path@,
                                self.entries@[w0].path@,
                            ),
                        !has_anc ==> forall|w0: int|
                            0 <= w0 < w ==> !((#[trigger] self.entries@[w0]).archived == false
                                && self.entries@[w0].path@ != self.entries@[i as int].path@
                                && in_subtree(
                                self.entries@[i as int].path@,
                                self.entries@[w0].path@,
                            )),
                    decreases self.entries@.len() - w,
                {
                    if !has_anc && !self.entries[w].archived && w != i {
                        if !str_eq(self.entries[w].path.as_str(), self.entries[i].path.as_str())
                            && check_in_subtree(
                            self.entries[i].path.as_str(),
                            self.entries[w].path.as_str(),
                        ) {
                            has_anc = true;
                        }
                    }
                    proof {
                        if w == i && !has_anc {
                            assert(self.entries@[w as int].path@ == self.entries@[i as int].path@);
                        }
                    }
                    w = w + 1;
                }
                proof {
                    if has_anc {
                        let w0 = choose|w0: int|
                            0 <= w0 < self.entries@.len() && (#[trigger] self.entries@[w0]).archived
                                == false && self.entries@[w0].path@ != self.entries@[i as int].path@
                                && in_subtree(
                                self.entries@[i as int].path@,
                                self.entries@[w0].path@,
                            );
                        lemma_ix_value(self.entries@, w0);
                        assert(self@.contains_key((self.entries@[w0].path@, false)));
                        assert(!is_root_note(self@, self.entries@[i as int].path@));
                    } else {
                        lemma_ix_value(self.entries@, i as int);
                        assert forall|q: Seq<char>|
                            #[trigger] self@.contains_key((q, false)) && q
                                != self.entries@[i as int].path@ implies !in_subtree(
                            self.entries@[i as int].path@,
                            q,
                        ) by {
                            lemma_ix_contains(self.entries@, (q, false));
                            let w0 = choose|w0: int|
                                0 <= w0 < self.entries@.len() && entry_key(self.entries@[w0]) == (
                                    q,
                                    false,
                                );
                            assert(!(self.entries@[w0].archived == false && self.entries@[w0].path@
                                != self.entries@[i as int].path@ && in_subtree(
                                self.entries@[i as int].path@,
                                self.entries@[w0].path@,
                            )));
                        }
                        assert(is_root_note(self@, self.entries@[i as int].path@));
                    }
                }
                if !has_anc {
                    r.push(
                        NoteMetadata {
                            id: self.entries[i].id,
                            path: self.entries[i].path.clone(),
                            modified: self.entries[i].mtime,
                            archived: false,
                        },
                    );
                    proof {
                        let src0 = src;
                        src = src.push(i as int);
                        assert forall|i0: int|
                            0 <= i0 < i + 1 && (#[trigger] self.entries@[i0]).archived == false
                                && is_root_note(self@, self.entries@[i0].path@) implies exists|
                            j: int,
                        | 0 <= j < src.len() && src[j] == i0 by {
                            if i0 < i {
                                let w2 = choose|j: int| 0 <= j < src0.len() && src0[j] == i0;
                                assert(src[w2] == i0);
                            } else {
                                assert(src[src.len() - 1] == i0);
                            }
                        }
                    }
                }
            }
            i = i + 1;
        }
        proof {
            assert forall|j: int| 0 <= j < r@.len() implies (#[trigger] r@[j]).archived == false
                && is_root_note(self@, r@[j].path@) && md_matches(self@, r@[j]) by {
                lemma_ix_value(self.entries@, src[j]);
                assert(entry_key(self.entries@[src[j]]) == (r@[j].path@, false));
            }
            assert forall|j1: int, j2: int| 0 <= j1 < j2 < r@.len() implies r@[j1].path@
                != r@[j2].path@ by {
                assert(src[j1] < src[j2]);
                assert(entry_key(self.entries@[src[j1]]) != entry_key(self.entries@[src[j2]]));
            }
            assert forall|l: Seq<char>| is_root_note(self@, l) implies exists|j: int|
                0 <= j < r@.len() && (#[trigger] r@[j]).path@ == l by {
                lemma_ix_contains(self.entries@, (l, false));
                let i0 = choose|i0: int|
                    0 <= i0 < self.entries@.len() && entry_key(self.entries@[i0]) == (l, false);
                assert(self.entries@[i0].archived == false && is_root_note(
                    self@,
                    self.entries@[i0].path@,
                ));
                let j = choose|j: int| 0 <= j < src.len() && src[j] == i0;
                assert(r@[j].path@ == l);
            }
            assert(root_rows(self@, r@));
        }
        r
    }

    /// The metadata of every unarchived row strictly above `p`, ordered
    /// from the root down to the parent.
    pub fn ancestors_of(&self, p: &str) -> (r: Vec<NoteMetadata>)
        requires
            self.wf(),
            valid_path(p@),
        ensures
            ancestor_rows(self@, p@, r@),
    {
        let mut r: Vec<NoteMetadata> = Vec::new();
        let lp: usize = p.unicode_len();
        if lp == 0 {
            proof {
                assert forall|q: Seq<char>|
                    #[trigger] self@.contains_key((q, false)) && in_subtree(p@, q) && q != p@
                        implies false by {
                    assert(q.len() == 0);
                    assert(q =~= p@);
                }
                assert(ancestor_rows(self@, p@, r@));
            }
            return r;
        }
        proof {
            reveal_strlit("");
        }
        match self.lookup("", false) {
            Some(e) => {
                proof {
                    assert(e.path@ =~= Seq::<char>::empty());
                    assert(in_subtree(p@, e.path@));
                }
                r.push(
                    NoteMetadata {
                        id: e.id,
                        path: e.path,
                        modified: e.mtime,
                        archived: false,
                    },
                );
                proof {
                    assert(r@[0].path@ =~= Seq::<char>::empty());
                }
            },
            None => {},
        }
        proof {
            assert(""@ =~= Seq::<char>::empty());
            assert forall|q: Seq<char>|
                #[trigger] self@.contains_key((q, false)) && in_subtree(p@, q) && q != p@
                    && q.len() < 1 implies exists|j: int|
                0 <= j < r@.len() && (#[trigger] r@[j]).path@ == q by {
                assert(q.len() == 0);
                assert(q =~= ""@);
                assert(self@.contains_key((""@, false)));
                assert(r@.len() > 0);
                assert(r@[0].path@ == q);
            }
        }
        let ghost r0 = r@;
        let mut i: usize = 1;
        while i < lp
            invariant
                self.wf(),
                lp == p@.len(),
                lp > 0,
                1 <= i <= lp,
                forall|j: int|
                    0 <= j < r@.len() ==> (#[trigger] r@[j]).archived == false && in_subtree(
                        p@,
                        r@[j].path@,
                    ) && r@[j].path@ != p@ && md_matches(self@, r@[j]) && r@[j].path@.len() < i,
                forall|j1: int, j2: int|
                    0 <= j1 < j2 < r@.len() ==> r@[j1].path@.len() < r@[j2].path@.len(),
                forall|q: Seq<char>|
                    #[trigger] self@.contains_key((q, false)) && in_subtree(p@, q) && q != p@
                        && q.len() < i ==> exists|j: int|
                        0 <= j < r@.len() && (#[trigger] r@[j]).path@ == q,
            decreases lp - i,
        {
            let ghost rpre = r@;
            if p.get_char(i) == '/' {
                let q = String::from_str(p.substring_char(0, i));
                proof {
                    assert(q@ =~= p@.subrange(0, i as int));
                    assert(p@[i as int] == '/');
                    assert(in_subtree(p@, q@));
                    assert(q@.len() == i);
                }
                match self.lookup(q.as_str(), false) {
                    Some(e) => {
                        proof {
                            assert(e.path@ == q@);
                        }
                        r.push(
                            NoteMetadata {
                                id: e.id,
                                path: e.path,
                                modified: e.mtime,
                                archived: false,
                            },
                        );
                    },
                    None => {},
                }
            }
            proof {
                assert(forall|j: int| 0 <= j < rpre.len() ==> r@[j] == rpre[j]);
                assert forall|q: Seq<char>|
                    #[trigger] self@.contains_key((q, false)) && in_subtree(p@, q) && q != p@
                        && q.len() < i + 1 implies exists|j: int|
                    0 <= j < r@.len() && (#[trigger] r@[j]).path@ == q by {
                    if q.len() < i {
                        let w = choose|j: int| 0 <= j < rpre.len() && (#[trigger] rpre[j]).path@
                            == q;
                        assert(r@[w].path@ == q);
                    } else {
                        assert(q.len() == i);
                        assert(q == p@.subrange(0, i as int));
                        assert(p@[i as int] == '/');
                        let w = r@.len() - 1;
                        assert(r@[w].path@ == q);
                    }
                }
            }
            i = i + 1;
        }
        proof {
            assert forall|q: Seq<char>|
                #[trigger] self@.contains_key((q, false)) && in_subtree(p@, q) && q != p@
                    implies exists|j: int| 0 <= j < r@.len() && (#[trigger] r@[j]).path@ == q by {
                assert(q.len() < lp);
            }
            assert(ancestor_rows(self@, p@, r@));
        }
        r
    }

    /// The metadata of every row whose content contains the query,
    /// ASCII-case-insensitively, each row exactly once.
    pub fn search_rows(&self, q: &str) -> (r: Vec<NoteMetadata>)
        requires
            self.wf(),
        ensures
            search_hits(self@, q@, r@),
    {
        let mut r: Vec<NoteMetadata> = Vec::new();
        let ghost mut src: Seq<int> = Seq::empty();
        let mut i: usize = 0;
        while i < self.entries.len()
            invariant
                self.wf(),
                i <= self.entries@.len(),
                src.len() == r@.len(),
                forall|j: int| 0 <= j < src.len() ==> 0 <= #[trigger] src[j] < i,
                forall|j1: int, j2: int| 0 <= j1 < j2 < src.len() ==> src[j1] < src[j2],
                forall|j: int|
                    0 <= j < src.len() ==> (#[trigger] r@[j]).path@ == self.entries@[src[j]].path@
                        && r@[j].archived == self.entries@[src[j]].archived && r@[j].id
                        == self.entries@[src[j]].id && r@[j].modified
                        == self.entries@[src[j]].mtime && contains_ci(
                        self.entries@[src[j]].content@,
                        q@,
                    ),
                forall|i0: int|
                    0 <= i0 < i && contains_ci((#[trigger] self.entries@[i0]).content@, q@)
                        ==> exists|j: int| 0 <= j < src.len() && src[j] == i0,
            decreases self.entries@.len() - i,
        {
            if contains_ci_exec(self.entries[i].content.as_str(), q) {
                r.push(
                    NoteMetadata {
                        id: self.entries[i].id,
                        path: self.entries[i].path.clone(),
                        modified: self.entries[i].mtime,
                        archived: self.entries[i].archived,
                    },
                );
                proof {
                    let src0 = src;
                    src = src.push(i as int);
                    assert forall|i0: int|
                        0 <= i0 < i + 1 && contains_ci(
                            (#[trigger] self.entries@[i0]).content@,
                            q@,
                        ) implies exists|j: int| 0 <= j < src.len() && src[j] == i0 by {
                        if i0 < i {
                            let w = choose|j: int| 0 <= j < src0.len() && src0[j] == i0;
                            assert(src[w] == i0);
                        } else {
                            assert(src[src.len() - 1] == i0);
                        }
                    }
                }
            }
            i = i + 1;
        }
        proof {
            assert forall|j: int| 0 <= j < r@.len() implies md_matches(self@, #[trigger] r@[j])
                && contains_ci(self@[(r@[j].path@, r@[j].archived)].content, q@) by {
                lemma_ix_value(self.entries@, src[j]);
                assert(entry_key(self.entries@[src[j]]) == (r@[j].path@, r@[j].archived));
            }
            assert forall|j1: int, j2: int| 0 <= j1 < j2 < r@.len() implies (
                r@[j1].path@,
                r@[j1].archived,
            ) != (r@[j2].path@, r@[j2].archived) by {
                assert(src[j1] < src[j2]);
                assert(entry_key(self.entries@[src[j1]]) != entry_key(self.entries@[src[j2]]));
            }
            assert forall|k: (Seq<char>, bool)|
                #[trigger] self@.contains_key(k) && contains_ci(self@[k].content, q@) implies
                exists|j: int|
                0 <= j < r@.len() && (#[trigger] r@[j]).path@ == k.0 && r@[j].archived == k.1 by {
                lemma_ix_contains(self.entries@, k);
                let i0 = choose|i0: int|
                    0 <= i0 < self.entries@.len() && entry_key(self.entries@[i0]) == k;
                lemma_ix_value(self.entries@, i0);
                assert(contains_ci(self.entries@[i0].content@, q@));
                let j = choose|j: int| 0 <= j < src.len() && src[j] == i0;
                assert(r@[j].path@ == k.0 && r@[j].archived == k.1);
            }
            assert(search_hits(self@, q@, r@));
        }
        r
    }
}

} // verus!
