//! Laws that relate several engine operations, proved once and for all
//! over the operations' published state-change descriptions.

use vstd::prelude::*;

use crate::filesystem::{dir_exists, FileRec};
use crate::index::{contains_ci, lower_u, matches_at, EntryRec};
use crate::notes::{
    archive_effect, consistent, create_effect, delete_effect, rename_effect, rescan_effect,
    scan_wf, spec_get_note, unarchive_effect, ScanEntry,
};
use crate::paths::{
    in_archive, in_subtree, lemma_phys_strip, lemma_rewrite_from_archive,
    lemma_rewrite_in_subtree, lemma_rewrite_to_archive, lemma_subtree_comparable, logical_ok,
    moved_path, phys_path, rewrite_prefix, strip_archive,
};

verus! {

/// Creating a note and then fetching it returns the empty content, the
/// fresh identity and the creation time; and the note now occupies its
/// path, so a second creation there must fail with `AlreadyExists` by
/// the creation contract.
pub proof fn lemma_create_then_get(
    fs0: Map<Seq<char>, FileRec>,
    ix0: Map<(Seq<char>, bool), EntryRec>,
    fs1: Map<Seq<char>, FileRec>,
    ix1: Map<(Seq<char>, bool), EntryRec>,
    l: Seq<char>,
    now: u64,
    id: i64,
)
    requires
        create_effect(fs0, ix0, fs1, ix1, l, now, id),
    ensures
        spec_get_note(fs1, ix1, l) == Some((id, Seq::<char>::empty(), now)),
        fs1.contains_key(l),
{
}

/// After deleting a note, fetching it or any path below it fails: the
/// whole subtree is gone from tree and index alike.
pub proof fn lemma_delete_removes_subtree(
    fs0: Map<Seq<char>, FileRec>,
    ix0: Map<(Seq<char>, bool), EntryRec>,
    fs1: Map<Seq<char>, FileRec>,
    ix1: Map<(Seq<char>, bool), EntryRec>,
    l: Seq<char>,
)
    requires
        delete_effect(fs0, ix0, fs1, ix1, l),
    ensures
        forall|q: Seq<char>|
            in_subtree(q, l) ==> spec_get_note(fs1, ix1, q) is None,
{
    assert forall|q: Seq<char>| in_subtree(q, l) implies spec_get_note(fs1, ix1, q) is None by {
        if fs1.contains_key(q) {
            assert(!in_subtree(q, l));
        }
    }
}

/// Renaming preserves identity, content and time for the note and every
/// descendant at its rewritten position, and leaves nothing fetchable
/// under the old prefix.
pub proof fn lemma_rename_preserves(
    fs0: Map<Seq<char>, FileRec>,
    ix0: Map<(Seq<char>, bool), EntryRec>,
    fs1: Map<Seq<char>, FileRec>,
    ix1: Map<(Seq<char>, bool), EntryRec>,
    a: Seq<char>,
    b: Seq<char>,
)
    requires
        rename_effect(fs0, ix0, fs1, ix1, a, b),
        a.len() > 0,
        b.len() > 0,
    ensures
        forall|q: Seq<char>|
            in_subtree(q, a) && (#[trigger] spec_get_note(fs0, ix0, q)) is Some
                ==> spec_get_note(fs1, ix1, rewrite_prefix(q, a, b)) == spec_get_note(
                fs0,
                ix0,
                q,
            ),
        forall|q: Seq<char>| in_subtree(q, a) ==> #[trigger] spec_get_note(fs1, ix1, q) is None,
{
    assert forall|q: Seq<char>|
        in_subtree(q, a) && (#[trigger] spec_get_note(fs0, ix0, q)) is Some implies
        spec_get_note(fs1, ix1, rewrite_prefix(q, a, b)) == spec_get_note(fs0, ix0, q) by {
        let rq = rewrite_prefix(q, a, b);
        assert(fs0.contains_key(q) && in_subtree(q, a));
        assert(fs1.contains_key(rq) && fs1[rq] == fs0[q]);
        assert(ix0.contains_key((q, false)));
        assert(crate::index::renamed_key((q, false), a, b) == (rq, false));
        assert(ix1.contains_key((rq, false)) && ix1[(rq, false)] == ix0[(q, false)]);
    }
    assert forall|q: Seq<char>| in_subtree(q, a) implies #[trigger] spec_get_note(
        fs1,
        ix1,
        q,
    ) is None by {
        if fs1.contains_key(q) {
            let k0 = choose|k0: Seq<char>|
                #[trigger] fs0.contains_key(k0) && q == moved_path(k0, a, b);
            if in_subtree(k0, a) {
                lemma_rewrite_in_subtree(k0, a, b);
                assert(in_subtree(q, b));
                lemma_subtree_comparable(q, a, b);
                if in_subtree(a, b) {
                    assert(fs0.dom().contains(a) && in_subtree(a, b));
                    assert(dir_exists(fs0, b));
                    assert(false);
                }
                assert(in_subtree(b, a));
                assert(false);
            } else {
                assert(q == k0);
                assert(false);
            }
        }
    }
}

/// Archiving a note and then unarchiving it restores tree and index
/// exactly: content and identity after the round trip equal those
/// before.
pub proof fn lemma_archive_round_trip(
    fs0: Map<Seq<char>, FileRec>,
    ix0: Map<(Seq<char>, bool), EntryRec>,
    fs1: Map<Seq<char>, FileRec>,
    ix1: Map<(Seq<char>, bool), EntryRec>,
    fs2: Map<Seq<char>, FileRec>,
    ix2: Map<(Seq<char>, bool), EntryRec>,
    p: Seq<char>,
)
    requires
        consistent(fs0, ix0),
        archive_effect(fs0, ix0, fs1, ix1, p),
        unarchive_effect(fs1, ix1, fs2, ix2, p),
        logical_ok(p),
        p.len() > 0,
    ensures
        fs2 == fs0,
        ix2 == ix0,
{
    let ap = phys_path(p, true);
    lemma_phys_strip(p, true);
    assert forall|k: Seq<char>| #[trigger] fs0.contains_key(k) implies fs2.contains_key(k)
        && fs2[k] == fs0[k] by {
        if in_subtree(k, ap) {
            assert(fs0.dom().contains(k) && in_subtree(k, ap));
            assert(dir_exists(fs0, ap));
            assert(false);
        }
        if in_subtree(k, p) {
            assert(fs1.contains_key(rewrite_prefix(k, p, ap)) && fs1[rewrite_prefix(k, p, ap)]
                == fs0[k]);
            lemma_rewrite_to_archive(k, p);
            crate::paths::lemma_join_subtree_iff(crate::paths::archive_seg(), k, p);
            assert(in_subtree(phys_path(k, true), ap));
            assert(fs2.contains_key(rewrite_prefix(phys_path(k, true), ap, p)));
            lemma_rewrite_from_archive(k, p);
            assert(rewrite_prefix(phys_path(k, true), ap, p) == k);
            assert(fs2[k] == fs1[phys_path(k, true)]);
        } else {
            assert(fs1.contains_key(k) && fs1[k] == fs0[k]);
            assert(fs2.contains_key(k) && fs2[k] == fs1[k]);
        }
    }
    assert forall|k: Seq<char>| #[trigger] fs2.contains_key(k) implies fs0.contains_key(k) by {
        let k1 = choose|k1: Seq<char>|
            #[trigger] fs1.contains_key(k1) && k == moved_path(k1, ap, p);
        let k0 = choose|k0: Seq<char>|
            #[trigger] fs0.contains_key(k0) && k1 == moved_path(k0, p, ap);
        if in_subtree(k0, ap) {
            assert(fs0.dom().contains(k0) && in_subtree(k0, ap));
            assert(dir_exists(fs0, ap));
            assert(false);
        }
        if in_subtree(k0, p) {
            lemma_rewrite_to_archive(k0, p);
            assert(k1 == phys_path(k0, true));
            crate::paths::lemma_join_subtree_iff(crate::paths::archive_seg(), k0, p);
            assert(in_subtree(k1, ap));
            lemma_rewrite_from_archive(k0, p);
            assert(k == k0);
        } else {
            assert(k1 == k0);
            assert(!in_subtree(k1, ap));
            assert(k == k1);
        }
    }
    assert(fs2 =~= fs0);
    assert forall|k: (Seq<char>, bool)| #[trigger] ix0.contains_key(k) implies ix2.contains_key(
        k,
    ) && ix2[k] == ix0[k] by {
        if k.1 && in_subtree(k.0, p) {
            assert(fs0.contains_key(phys_path(k.0, true)));
            crate::paths::lemma_join_subtree_iff(crate::paths::archive_seg(), k.0, p);
            assert(fs0.dom().contains(phys_path(k.0, true)) && in_subtree(
                phys_path(k.0, true),
                ap,
            ));
            assert(dir_exists(fs0, ap));
            assert(false);
        }
        if !k.1 && in_subtree(k.0, p) {
            assert(crate::index::flipped_key(k, p, false) == (k.0, true));
            assert(ix1.contains_key((k.0, true)) && ix1[(k.0, true)] == ix0[k]);
            assert(crate::index::flipped_key((k.0, true), p, true) == k);
            assert(ix2.contains_key(k) && ix2[k] == ix1[(k.0, true)]);
        } else {
            assert(crate::index::flipped_key(k, p, false) == k);
            assert(ix1.contains_key(k) && ix1[k] == ix0[k]);
            assert(crate::index::flipped_key(k, p, true) == k);
            assert(ix2.contains_key(k) && ix2[k] == ix1[k]);
        }
    }
    assert forall|k: (Seq<char>, bool)| #[trigger] ix2.contains_key(k) implies ix0.contains_key(
        k,
    ) by {
        let k1 = choose|k1: (Seq<char>, bool)|
            #[trigger] ix1.contains_key(k1) && k == crate::index::flipped_key(k1, p, true);
        let k0 = choose|k0: (Seq<char>, bool)|
            #[trigger] ix0.contains_key(k0) && k1 == crate::index::flipped_key(k0, p, false);
        if k0.1 && in_subtree(k0.0, p) {
            assert(fs0.contains_key(phys_path(k0.0, true)));
            crate::paths::lemma_join_subtree_iff(crate::paths::archive_seg(), k0.0, p);
            assert(fs0.dom().contains(phys_path(k0.0, true)) && in_subtree(
                phys_path(k0.0, true),
                ap,
            ));
            assert(dir_exists(fs0, ap));
            assert(false);
        }
        if !k0.1 && in_subtree(k0.0, p) {
            assert(k1 == (k0.0, true));
            assert(k == k0);
        } else {
            assert(k1 == k0);
            assert(k == k0);
        }
    }
    assert(ix2 =~= ix0);
}

/// After an external tool creates a note directly on disk and a rescan
/// runs over a scan that reports it, fetching the note succeeds with
/// that content, and the index row that search completeness speaks of
/// holds that content.
pub proof fn lemma_rescan_discovers(
    ix0: Map<(Seq<char>, bool), EntryRec>,
    fs1: Map<Seq<char>, FileRec>,
    ix1: Map<(Seq<char>, bool), EntryRec>,
    s: Seq<ScanEntry>,
    next0: i64,
    j: int,
)
    requires
        rescan_effect(ix0, fs1, ix1, s, next0),
        scan_wf(s),
        0 <= j < s.len(),
        !in_archive(s[j].path@),
    ensures
        spec_get_note(fs1, ix1, s[j].path@) is Some,
        spec_get_note(fs1, ix1, s[j].path@)->Some_0.1 == s[j].content@,
        ix1.contains_key((s[j].path@, false)),
        ix1[(s[j].path@, false)].content == s[j].content@,
{
    let l = s[j].path@;
    assert(strip_archive(l) == l);
    assert(crate::notes::scan_key(s[j]) == (l, false));
    assert(ix1.contains_key((l, false)) && ix1[(l, false)].content == s[j].content@);
    assert(fs1.contains_key(l) && fs1[l].content == s[j].content@);
}

/// Search is insensitive to ASCII letter case in the query: two queries
/// that agree after case folding match exactly the same texts.
pub proof fn lemma_search_case_fold(hay: Seq<char>, q1: Seq<char>, q2: Seq<char>)
    requires
        q1.len() == q2.len(),
        forall|j: int| 0 <= j < q1.len() ==> lower_u(#[trigger] q1[j]) == lower_u(q2[j]),
    ensures
        contains_ci(hay, q1) == contains_ci(hay, q2),
{
    assert forall|i: int| matches_at(hay, q1, i) == matches_at(hay, q2, i) by {
        if matches_at(hay, q1, i) {
            assert forall|j: int| 0 <= j < q2.len() implies lower_u(#[trigger] hay[i + j])
                == lower_u(q2[j]) by {
                assert(lower_u(hay[i + j]) == lower_u(q1[j]));
            }
        }
        if matches_at(hay, q2, i) {
            assert forall|j: int| 0 <= j < q1.len() implies lower_u(#[trigger] hay[i + j])
                == lower_u(q1[j]) by {
                assert(lower_u(hay[i + j]) == lower_u(q2[j]));
            }
        }
    }
}

} // verus!
