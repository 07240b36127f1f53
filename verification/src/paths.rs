//! Pure translation between logical note paths and the physical directory
//! layout.
//!
//! A note path is a normalized, forward-slash-delimited string; the empty
//! string denotes the root note. Each note occupies a directory whose path
//! equals its note path, and the directory holds a fixed-name content file.
//! Archived subtrees live under a reserved root-level namespace directory,
//! so a physical path is either a logical path itself or the reserved
//! segment followed by the logical path.

use vstd::prelude::*;

verus! {

/// The reserved root-level directory name that holds archived subtrees.
pub open spec fn archive_seg() -> Seq<char> {
    seq!['_', 'a', 'r', 'c', 'h', 'i', 'v', 'e']
}

/// The fixed name of the content file inside each note directory.
pub open spec fn content_file_name() -> Seq<char> {
    seq!['_', 'i', 'n', 'd', 'e', 'x', '.', 'm', 'd']
}

/// A normalized path: empty, or slash-separated non-empty segments
/// (no leading, trailing or doubled slash).
pub open spec fn valid_path(p: Seq<char>) -> bool {
    p.len() == 0 || {
        &&& p.first() != '/'
        &&& p.last() != '/'
        &&& forall|i: int| 0 <= i < p.len() - 1 ==> !(#[trigger] p[i] == '/' && p[i + 1] == '/')
    }
}

/// Whether a physical path lies in the archive namespace: it is the
/// reserved directory itself or anything below it.
pub open spec fn in_archive(k: Seq<char>) -> bool {
    &&& k.len() >= 8
    &&& k.subrange(0, 8) == archive_seg()
    &&& (k.len() == 8 || k[8] == '/')
}

/// A logical note path: normalized and outside the reserved namespace.
pub open spec fn logical_ok(p: Seq<char>) -> bool {
    valid_path(p) && !in_archive(p)
}

/// Joining two path fragments with a slash; an empty side disappears.
pub open spec fn spec_join(a: Seq<char>, b: Seq<char>) -> Seq<char> {
    if a.len() == 0 {
        b
    } else if b.len() == 0 {
        a
    } else {
        a + seq!['/'] + b
    }
}

/// The physical path of the note at logical path `l`: the path itself, or
/// under the archive namespace when the note is archived.
pub open spec fn phys_path(l: Seq<char>, archived: bool) -> Seq<char> {
    if archived {
        spec_join(archive_seg(), l)
    } else {
        l
    }
}

/// The logical path a physical path stands for: the archive namespace
/// prefix, if any, is removed.
pub open spec fn strip_archive(k: Seq<char>) -> Seq<char> {
    if in_archive(k) {
        if k.len() == 8 {
            Seq::<char>::empty()
        } else {
            k.skip(9)
        }
    } else {
        k
    }
}

/// Whether path `k` lies in the subtree rooted at `p` (including `p`
/// itself). Every path lies in the root's subtree.
pub open spec fn in_subtree(k: Seq<char>, p: Seq<char>) -> bool {
    ||| p.len() == 0
    ||| k == p
    ||| (k.len() > p.len() && k.subrange(0, p.len() as int) == p && k[p.len() as int] == '/')
}

/// Where a path in the subtree at `a` lands when that subtree moves to `b`
/// (`a` non-empty): the prefix `a` is replaced by `b`.
pub open spec fn rewrite_prefix(k: Seq<char>, a: Seq<char>, b: Seq<char>) -> Seq<char> {
    b + k.skip(a.len() as int)
}

/// Where a path lands when the subtree at `a` moves to `b`: rewritten if
/// it lies in that subtree, untouched otherwise.
pub open spec fn moved_path(k: Seq<char>, a: Seq<char>, b: Seq<char>) -> Seq<char> {
    if in_subtree(k, a) {
        rewrite_prefix(k, a, b)
    } else {
        k
    }
}

/// The parent path: everything before the last slash, or the root path
/// for a single-segment path.
pub open spec fn parent_seq(p: Seq<char>) -> Seq<char> {
    if has_slash(p) {
        p.subrange(0, last_slash(p))
    } else {
        Seq::<char>::empty()
    }
}

/// Whether a path has more than one segment.
pub open spec fn has_slash(p: Seq<char>) -> bool {
    exists|i: int| 0 <= i < p.len() && p[i] == '/'
}

/// The index of the last slash of `p` (meaningful only when one exists).
pub open spec fn last_slash(p: Seq<char>) -> int {
    choose|i: int| 0 <= i < p.len() && p[i] == '/' && forall|j: int|
        i < j < p.len() ==> p[j] != '/'
}

/// Whether logical path `c` is a direct child position of logical path `p`
/// (the root counts as the parent of single-segment paths).
pub open spec fn child_of(c: Seq<char>, p: Seq<char>) -> bool {
    c.len() > 0 && parent_seq(c) == p
}

/// Character-wise equality of two string slices.
pub fn str_eq(a: &str, b: &str) -> (r: bool)
    ensures
        r == (a@ == b@),
{
    let la: usize = a.unicode_len();
    let lb: usize = b.unicode_len();
    if la != lb {
        return false;
    }
    let mut i: usize = 0;
    while i < la
        invariant
            la == a@.len(),
            la == b@.len(),
            i <= la,
            forall|j: int| 0 <= j < i ==> a@[j] == b@[j],
        decreases la - i,
    {
        if a.get_char(i) != b.get_char(i) {
            return false;
        }
        i = i + 1;
    }
    proof {
        assert(a@ =~= b@);
    }
    true
}

/// Whether a string is a normalized path.
pub fn check_valid_path(p: &str) -> (r: bool)
    ensures
        r == valid_path(p@),
{
    let l: usize = p.unicode_len();
    if l == 0 {
        return true;
    }
    if p.get_char(0) == '/' || p.get_char(l - 1) == '/' {
        return false;
    }
    let mut i: usize = 0;
    while i + 1 < l
        invariant
            l == p@.len(),
            i < l,
            forall|j: int| 0 <= j < i ==> !(#[trigger] p@[j] == '/' && p@[j + 1] == '/'),
        decreases l - i,
    {
        if p.get_char(i) == '/' && p.get_char(i + 1) == '/' {
            return false;
        }
        i = i + 1;
    }
    true
}

/// Whether a string lies in the archive namespace.
pub fn check_in_archive(k: &str) -> (r: bool)
    ensures
        r == in_archive(k@),
{
    let pat = "_archive";
    proof {
        reveal_strlit("_archive");
        assert(pat@ =~= archive_seg());
    }
    let l: usize = k.unicode_len();
    if l < 8 {
        return false;
    }
    let mut i: usize = 0;
    while i < 8
        invariant
            l == k@.len(),
            l >= 8,
            i <= 8,
            pat@ == archive_seg(),
            pat@.len() == 8,
            forall|j: int| 0 <= j < i ==> k@[j] == archive_seg()[j],
        decreases 8 - i,
    {
        if k.get_char(i) != pat.get_char(i) {
            proof {
                assert(k@.subrange(0, 8)[i as int] != archive_seg()[i as int]);
            }
            return false;
        }
        i = i + 1;
    }
    proof {
        assert(k@.subrange(0, 8) =~= archive_seg());
    }
    if l == 8 {
        true
    } else {
        k.get_char(8) == '/'
    }
}

/// Whether a string is a logical note path.
pub fn check_logical(p: &str) -> (r: bool)
    ensures
        r == logical_ok(p@),
{
    check_valid_path(p) && !check_in_archive(p)
}

/// Joins two path fragments with a slash.
pub fn join_paths(a: &str, b: &str) -> (r: String)
    ensures
        r@ == spec_join(a@, b@),
{
    proof {
        reveal_strlit("/");
    }
    if a.is_empty() {
        String::from_str(b)
    } else if b.is_empty() {
        String::from_str(a)
    } else {
        let mut s = String::from_str(a);
        s.append("/");
        s.append(b);
        proof {
            assert(s@ =~= a@ + seq!['/'] + b@);
        }
        s
    }
}

/// Whether `k` lies in the subtree rooted at `p`.
pub fn check_in_subtree(k: &str, p: &str) -> (r: bool)
    ensures
        r == in_subtree(k@, p@),
{
    let lp: usize = p.unicode_len();
    let lk: usize = k.unicode_len();
    if lp == 0 {
        return true;
    }
    if lk == lp {
        return str_eq(k, p);
    }
    if lk < lp {
        return false;
    }
    let mut i: usize = 0;
    while i < lp
        invariant
            lp == p@.len(),
            lk == k@.len(),
            lk > lp,
            i <= lp,
            forall|j: int| 0 <= j < i ==> k@[j] == p@[j],
        decreases lp - i,
    {
        if k.get_char(i) != p.get_char(i) {
            proof {
                assert(k@.subrange(0, lp as int)[i as int] != p@[i as int]);
            }
            return false;
        }
        i = i + 1;
    }
    proof {
        assert(k@.subrange(0, lp as int) =~= p@);
    }
    k.get_char(lp) == '/'
}

/// Replaces the prefix `a` of `k` by `b`.
pub fn apply_rewrite(k: &str, a: &str, b: &str) -> (r: String)
    requires
        a@.len() > 0,
        in_subtree(k@, a@),
    ensures
        r@ == rewrite_prefix(k@, a@, b@),
{
    let la: usize = a.unicode_len();
    let lk: usize = k.unicode_len();
    let suffix = k.substring_char(la, lk);
    let mut s = String::from_str(b);
    s.append(suffix);
    proof {
        assert(k@.subrange(la as int, lk as int) =~= k@.skip(la as int));
    }
    s
}

/// The physical path of the note at logical path `l`.
pub fn to_phys(l: &str, archived: bool) -> (r: String)
    ensures
        r@ == phys_path(l@, archived),
{
    if archived {
        let pat = "_archive";
        proof {
            reveal_strlit("_archive");
            assert(pat@ =~= archive_seg());
        }
        join_paths(pat, l)
    } else {
        String::from_str(l)
    }
}

/// The logical path and archive flag a physical path stands for.
pub fn from_phys(k: &str) -> (r: (String, bool))
    ensures
        r.0@ == strip_archive(k@),
        r.1 == in_archive(k@),
{
    if check_in_archive(k) {
        let l: usize = k.unicode_len();
        if l == 8 {
            (String::new(), true)
        } else {
            proof {
                assert(k@[8] == '/');
            }
            (String::from_str(k.substring_char(9, l)), true)
        }
    } else {
        (String::from_str(k), false)
    }
}

/// The index of the last slash of a string, if any.
pub(crate) fn last_slash_idx(p: &str) -> (r: Option<usize>)
    ensures
        match r {
            Some(i) => i < p@.len() && p@[i as int] == '/' && forall|j: int|
                i < j < p@.len() ==> p@[j] != '/',
            None => !has_slash(p@),
        },
{
    let l: usize = p.unicode_len();
    let mut i: usize = l;
    while i > 0
        invariant
            l == p@.len(),
            i <= l,
            forall|j: int| i <= j < l ==> p@[j] != '/',
        decreases i,
    {
        i = i - 1;
        if p.get_char(i) == '/' {
            return Some(i);
        }
    }
    None
}

/// The parent path of `p`: everything before the last slash, or the root
/// path when `p` has a single segment.
pub fn parent_of(p: &str) -> (r: String)
    ensures
        r@ == parent_seq(p@),
{
    match last_slash_idx(p) {
        Some(i) => {
            proof {
                lemma_last_slash_unique(p@, i as int);
            }
            String::from_str(p.substring_char(0, i))
        },
        None => String::new(),
    }
}

/// A maximal slash position is the `last_slash` position.
pub proof fn lemma_last_slash_unique(p: Seq<char>, i: int)
    requires
        0 <= i < p.len(),
        p[i] == '/',
        forall|j: int| i < j < p.len() ==> p[j] != '/',
    ensures
        has_slash(p),
        last_slash(p) == i,
{
    assert(has_slash(p));
    assert(p[i] == '/' && forall|j: int| i < j < p.len() ==> p[j] != '/');
    let c = last_slash(p);
    assert(0 <= c < p.len() && p[c] == '/' && forall|j: int| c < j < p.len() ==> p[j] != '/');
    if c < i {
        assert(p[i] != '/');
        assert(false);
    }
    if c > i {
        assert(p[c] != '/');
        assert(false);
    }
}

/// Round trip between the logical and the physical form of a note path.
pub proof fn lemma_phys_strip(l: Seq<char>, archived: bool)
    requires
        logical_ok(l),
    ensures
        strip_archive(phys_path(l, archived)) == l,
        in_archive(phys_path(l, archived)) == archived,
{
    if archived {
        let k = phys_path(l, true);
        if l.len() == 0 {
            assert(k == archive_seg());
            assert(k.subrange(0, 8) =~= archive_seg());
            assert(strip_archive(k) =~= l);
        } else {
            assert(k == archive_seg() + seq!['/'] + l);
            assert(k.subrange(0, 8) =~= archive_seg());
            assert(k[8] == '/');
            assert(in_archive(k));
            assert(k.skip(9) =~= l);
        }
    }
}

/// Subtree membership is transitive.
pub proof fn lemma_subtree_trans(k: Seq<char>, c: Seq<char>, p: Seq<char>)
    requires
        in_subtree(k, c),
        in_subtree(c, p),
    ensures
        in_subtree(k, p),
{
    if p.len() != 0 && k != p && c != p && k != c {
        assert(c.len() > p.len());
        assert(k.len() > c.len());
        assert forall|i: int| 0 <= i < p.len() implies k.subrange(0, p.len() as int)[i]
            == p[i] by {
            assert(k.subrange(0, c.len() as int)[i] == c[i]);
            assert(c.subrange(0, p.len() as int)[i] == p[i]);
        }
        assert(k.subrange(0, p.len() as int) =~= p);
        assert(k[p.len() as int] == k.subrange(0, c.len() as int)[p.len() as int]);
        assert(k[p.len() as int] == c[p.len() as int]);
        assert(c[p.len() as int] == '/');
    }
}

/// A rewritten path lies in the subtree of the new prefix.
pub proof fn lemma_rewrite_in_subtree(k: Seq<char>, a: Seq<char>, b: Seq<char>)
    requires
        a.len() > 0,
        b.len() > 0,
        in_subtree(k, a),
    ensures
        in_subtree(rewrite_prefix(k, a, b), b),
{
    let r = rewrite_prefix(k, a, b);
    if k == a {
        assert(r =~= b);
    } else {
        assert(k.len() > a.len());
        assert(r.subrange(0, b.len() as int) =~= b);
        assert(r[b.len() as int] == k[a.len() as int]);
        assert(k[a.len() as int] == '/');
    }
}

/// Rewriting a prefix is injective on the subtree of the old prefix.
pub proof fn lemma_rewrite_injective(k1: Seq<char>, k2: Seq<char>, a: Seq<char>, b: Seq<char>)
    requires
        a.len() > 0,
        in_subtree(k1, a),
        in_subtree(k2, a),
        k1 != k2,
    ensures
        rewrite_prefix(k1, a, b) != rewrite_prefix(k2, a, b),
{
    let s1 = k1.skip(a.len() as int);
    let s2 = k2.skip(a.len() as int);
    assert(k1 =~= a + s1);
    assert(k2 =~= a + s2);
    if rewrite_prefix(k1, a, b) == rewrite_prefix(k2, a, b) {
        assert(b + s1 == b + s2);
        assert(s1.len() == s2.len());
        assert forall|i: int| 0 <= i < s1.len() implies s1[i] == s2[i] by {
            assert((b + s1)[b.len() + i] == (b + s2)[b.len() + i]);
        }
        assert(s1 =~= s2);
        assert(false);
    }
}

/// Rewriting into a normalized prefix keeps a path normalized.
pub proof fn lemma_rewrite_valid(k: Seq<char>, a: Seq<char>, b: Seq<char>)
    requires
        valid_path(k),
        a.len() > 0,
        b.len() > 0,
        in_subtree(k, a),
        valid_path(b),
    ensures
        valid_path(rewrite_prefix(k, a, b)),
{
    let r = rewrite_prefix(k, a, b);
    if k == a {
        assert(r =~= b);
    } else {
        let s = k.skip(a.len() as int);
        assert(k.len() > a.len());
        assert(s[0] == k[a.len() as int]);
        assert(s[0] == '/');
        if s.len() == 1 {
            assert(k.last() == k[k.len() - 1]);
            assert(k[k.len() - 1] == s[0]);
            assert(false);
        }
        assert(s.len() >= 2);
        assert(r.first() == b.first());
        assert(r.last() == s.last());
        assert(s.last() == k.last());
        assert forall|i: int| 0 <= i < r.len() - 1 implies !(#[trigger] r[i] == '/' && r[i + 1]
            == '/') by {
            if i < b.len() - 1 {
                assert(r[i] == b[i] && r[i + 1] == b[i + 1]);
            } else if i == b.len() - 1 {
                assert(r[i] == b.last());
            } else {
                let j = i - b.len() + a.len();
                assert(r[i] == k[j] && r[i + 1] == k[j + 1]);
            }
        }
    }
}

/// Rewriting into a normalized non-reserved prefix keeps a path
/// normalized and outside the archive namespace.
pub proof fn lemma_rewrite_logical(k: Seq<char>, a: Seq<char>, b: Seq<char>)
    requires
        valid_path(k),
        a.len() > 0,
        b.len() > 0,
        in_subtree(k, a),
        logical_ok(b),
    ensures
        logical_ok(rewrite_prefix(k, a, b)),
{
    lemma_rewrite_valid(k, a, b);
    let r = rewrite_prefix(k, a, b);
    if k == a {
        assert(r =~= b);
    } else {
        let s = k.skip(a.len() as int);
        assert(k.len() > a.len());
        assert(s[0] == k[a.len() as int]);
        assert(s[0] == '/');
        if in_archive(r) {
            if b.len() >= 9 {
                assert(b.subrange(0, 8) =~= r.subrange(0, 8));
                assert(b[8] == r[8]);
                assert(in_archive(b));
                assert(false);
            } else if b.len() == 8 {
                assert(b =~= r.subrange(0, 8));
                assert(b =~= b.subrange(0, 8));
                assert(in_archive(b));
                assert(false);
            } else {
                assert(r[b.len() as int] == s[0]);
                assert(r.subrange(0, 8)[b.len() as int] == '/');
                assert(archive_seg()[b.len() as int] != '/');
                assert(false);
            }
        }
    }
}

/// Joining normalized fragments yields a normalized path.
pub proof fn lemma_join_valid(a: Seq<char>, b: Seq<char>)
    requires
        valid_path(a),
        valid_path(b),
    ensures
        valid_path(spec_join(a, b)),
{
    if a.len() > 0 && b.len() > 0 {
        let r = spec_join(a, b);
        assert(r.first() == a.first());
        assert(r.last() == b.last());
        assert forall|i: int| 0 <= i < r.len() - 1 implies !(#[trigger] r[i] == '/' && r[i + 1]
            == '/') by {
            if i < a.len() - 1 {
                assert(r[i] == a[i] && r[i + 1] == a[i + 1]);
            } else if i == a.len() - 1 {
                assert(r[i] == a.last());
            } else if i == a.len() {
                assert(r[i + 1] == b[0]);
                assert(b.first() != '/');
            } else {
                assert(r[i] == b[i - a.len() - 1] && r[i + 1] == b[i - a.len()]);
            }
        }
    }
}

/// Prepending a common fragment preserves subtree membership in both
/// directions.
pub proof fn lemma_join_subtree_iff(x: Seq<char>, k: Seq<char>, p: Seq<char>)
    requires
        x.len() > 0,
        p.len() > 0,
    ensures
        in_subtree(spec_join(x, k), spec_join(x, p)) == in_subtree(k, p),
{
    let jk = spec_join(x, k);
    let jp = spec_join(x, p);
    assert(jp =~= x + seq!['/'] + p);
    if k.len() == 0 {
        assert(jk == x);
        assert(jk.len() < jp.len());
        assert(!in_subtree(jk, jp));
        assert(!in_subtree(k, p));
    } else {
        assert(jk =~= x + seq!['/'] + k);
        if in_subtree(k, p) {
            if k == p {
                assert(in_subtree(jk, jp));
            } else {
                assert(k.len() > p.len());
                assert(jk.len() > jp.len());
                assert(jk.subrange(0, jp.len() as int) =~= jp);
                assert(jk[jp.len() as int] == k[p.len() as int]);
            }
        }
        if in_subtree(jk, jp) {
            if jk == jp {
                assert(k =~= jk.skip(x.len() as int + 1));
                assert(p =~= jp.skip(x.len() as int + 1));
                assert(in_subtree(k, p));
            } else {
                assert(jk.len() > jp.len());
                assert(k.len() > p.len());
                assert forall|i: int| 0 <= i < p.len() implies k.subrange(0, p.len() as int)[i]
                    == p[i] by {
                    assert(jk.subrange(0, jp.len() as int)[x.len() + 1 + i] == jp[x.len() + 1
                        + i]);
                }
                assert(k.subrange(0, p.len() as int) =~= p);
                assert(k[p.len() as int] == jk[jp.len() as int]);
                assert(jk[jp.len() as int] == jp.len() < jk.len() ==> jk[jp.len() as int]
                    == jk[jp.len() as int]);
                assert(jk[jp.len() as int] == '/');
            }
        }
    }
}

/// Moving the subtree at `p` under the archive namespace sends each of
/// its paths to the same path under the namespace.
pub proof fn lemma_rewrite_to_archive(k: Seq<char>, p: Seq<char>)
    requires
        p.len() > 0,
        in_subtree(k, p),
    ensures
        rewrite_prefix(k, p, spec_join(archive_seg(), p)) == spec_join(archive_seg(), k),
{
    let jp = spec_join(archive_seg(), p);
    let r = rewrite_prefix(k, p, jp);
    assert(k.len() >= p.len());
    assert(r =~= spec_join(archive_seg(), k));
}

/// Moving an archived subtree back out of the archive namespace restores
/// each of its paths.
pub proof fn lemma_rewrite_from_archive(k: Seq<char>, p: Seq<char>)
    requires
        p.len() > 0,
        in_subtree(k, p),
    ensures
        rewrite_prefix(spec_join(archive_seg(), k), spec_join(archive_seg(), p), p) == k,
{
    let jk = spec_join(archive_seg(), k);
    let jp = spec_join(archive_seg(), p);
    assert(k.len() >= p.len());
    assert(rewrite_prefix(jk, jp, p) =~= k);
}

/// When a path has a slash, `last_slash` really is its rightmost slash.
pub proof fn lemma_last_slash_props(p: Seq<char>)
    requires
        has_slash(p),
    ensures
        0 <= last_slash(p) < p.len(),
        p[last_slash(p)] == '/',
        forall|j: int| last_slash(p) < j < p.len() ==> p[j] != '/',
    decreases p.len(),
{
    if p.last() == '/' {
        let w = p.len() - 1;
        assert(0 <= w < p.len() && p[w] == '/' && forall|j: int| w < j < p.len() ==> p[j] != '/');
    } else {
        let q = p.drop_last();
        let i = choose|i: int| 0 <= i < p.len() && p[i] == '/';
        assert(q[i] == p[i]);
        assert(has_slash(q));
        lemma_last_slash_props(q);
        let w = last_slash(q);
        assert(p[w] == q[w]);
        assert forall|j: int| w < j < p.len() implies p[j] != '/' by {
            if j < p.len() - 1 {
                assert(p[j] == q[j]);
            }
        }
        assert(0 <= w < p.len() && p[w] == '/' && forall|j: int| w < j < p.len() ==> p[j] != '/');
        lemma_last_slash_unique(p, w);
    }
}

/// A non-empty prefix position inside a normalized tree path is itself
/// normalized.
pub proof fn lemma_subtree_prefix_valid(k: Seq<char>, c: Seq<char>)
    requires
        valid_path(k),
        in_subtree(k, c),
        c.len() > 0,
    ensures
        valid_path(c),
{
    if k != c {
        assert(c == k.subrange(0, c.len() as int));
        assert(c.first() == k.first());
        assert(c.last() == k[c.len() - 1]);
        if k[c.len() - 1] == '/' {
            assert(k[c.len() as int] == '/');
            assert(false);
        }
        assert forall|i: int| 0 <= i < c.len() - 1 implies !(#[trigger] c[i] == '/' && c[i + 1]
            == '/') by {
            assert(c[i] == k[i] && c[i + 1] == k[i + 1]);
        }
    }
}

/// The shape of a direct child position: the parent, a slash, and a
/// slash-free final segment.
pub proof fn lemma_child_shape(c: Seq<char>, p: Seq<char>)
    requires
        child_of(c, p),
        valid_path(c),
    ensures
        p.len() == 0 ==> !has_slash(c),
        p.len() > 0 ==> c.len() > p.len() && c.subrange(0, p.len() as int) == p && c[p.len() as int]
            == '/',
        forall|j: int| p.len() < j < c.len() ==> c[j] != '/',
        in_subtree(c, p),
{
    if has_slash(c) {
        lemma_last_slash_props(c);
        assert(p == c.subrange(0, last_slash(c)));
        assert(p.len() == last_slash(c));
        if last_slash(c) == 0 {
            assert(c.first() == '/');
            assert(false);
        }
        assert(c[p.len() as int] == '/');
    } else {
        assert(p.len() == 0);
        assert forall|j: int| p.len() < j < c.len() implies c[j] != '/' by {
            assert(!(c[j] == '/'));
        }
    }
}

/// Two child positions of the same parent that both contain a common
/// tree path are the same position.
pub proof fn lemma_child_unique(k: Seq<char>, p: Seq<char>, c1: Seq<char>, c2: Seq<char>)
    requires
        valid_path(c1),
        valid_path(c2),
        child_of(c1, p),
        child_of(c2, p),
        in_subtree(k, c1),
        in_subtree(k, c2),
    ensures
        c1 == c2,
{
    lemma_child_shape(c1, p);
    lemma_child_shape(c2, p);
    if c1.len() < c2.len() {
        assert(k.len() >= c2.len());
        assert(k != c1);
        assert(k[c1.len() as int] == '/');
        assert(c2[c1.len() as int] == k.subrange(0, c2.len() as int)[c1.len() as int] || k == c2);
        assert(c2[c1.len() as int] == '/');
        assert(p.len() < c1.len() < c2.len());
        assert(false);
    }
    if c2.len() < c1.len() {
        assert(k.len() >= c1.len());
        assert(k != c2);
        assert(k[c2.len() as int] == '/');
        assert(c1[c2.len() as int] == k.subrange(0, c1.len() as int)[c2.len() as int] || k == c1);
        assert(c1[c2.len() as int] == '/');
        assert(p.len() < c2.len() < c1.len());
        assert(false);
    }
    if c1 != c2 {
        let i = choose|i: int| 0 <= i < c1.len() && c1[i] != c2[i];
        if k == c1 {
            assert(c2 =~= k.subrange(0, c2.len() as int));
        } else if k == c2 {
            assert(c1 =~= k.subrange(0, c1.len() as int));
        }
        assert forall|i: int| 0 <= i < c1.len() implies c1[i] == c2[i] by {
            assert(c1 == k.subrange(0, c1.len() as int) || k == c1);
            assert(c2 == k.subrange(0, c2.len() as int) || k == c2);
        }
        assert(c1 =~= c2);
    }
}

/// The reserved namespace directory name is a normalized path.
pub proof fn lemma_archive_seg_valid()
    ensures
        valid_path(archive_seg()),
{
    assert(archive_seg().first() == '_');
    assert(archive_seg().last() == 'e');
}

/// Splitting a physical path into logical path and archive flag and
/// mapping back is the identity.
pub proof fn lemma_strip_phys_id(k: Seq<char>)
    requires
        valid_path(k),
    ensures
        phys_path(strip_archive(k), in_archive(k)) == k,
{
    if in_archive(k) {
        if k.len() == 8 {
            assert(k =~= archive_seg());
            assert(phys_path(strip_archive(k), true) == archive_seg());
        } else {
            assert(k[8] == '/');
            if k.len() == 9 {
                assert(k.last() == k[8]);
                assert(false);
            }
            assert(k.skip(9).len() > 0);
            assert(phys_path(k.skip(9), true) =~= k);
        }
    }
}

/// A path inside the subtree of an archive-side path is itself on the
/// archive side.
pub proof fn lemma_subtree_in_archive(l: Seq<char>, q: Seq<char>)
    requires
        in_subtree(l, q),
        in_archive(q),
    ensures
        in_archive(l),
{
    if l != q {
        assert(l.len() > q.len());
        assert(q.len() >= 8);
        assert forall|i: int| 0 <= i < 8 implies l.subrange(0, 8)[i] == archive_seg()[i] by {
            assert(l.subrange(0, q.len() as int)[i] == q[i]);
            assert(q.subrange(0, 8)[i] == q[i]);
        }
        assert(l.subrange(0, 8) =~= archive_seg());
        if q.len() == 8 {
            assert(l[8] == '/');
        } else {
            assert(l[8] == l.subrange(0, q.len() as int)[8]);
            assert(l[8] == q[8]);
        }
    }
}

/// An archive-side physical path never lies in the subtree of a
/// non-reserved path other than the root.
pub proof fn lemma_archive_phys_outside(l: Seq<char>, p: Seq<char>)
    requires
        logical_ok(p),
        p.len() > 0,
    ensures
        !in_subtree(phys_path(l, true), p),
{
    let k = phys_path(l, true);
    assert(k.subrange(0, 8) =~= archive_seg()) by {
        if l.len() == 0 {
            assert(k == archive_seg());
            assert(k.subrange(0, 8) =~= archive_seg());
        } else {
            assert(k == archive_seg() + seq!['/'] + l);
            assert(k.subrange(0, 8) =~= archive_seg());
        }
    }
    assert(k.len() == 8 || k[8] == '/');
    assert(in_archive(k));
    if in_subtree(k, p) {
        if k == p {
            assert(in_archive(p));
            assert(false);
        } else {
            assert(p == k.subrange(0, p.len() as int));
            if p.len() >= 8 {
                assert forall|i: int| 0 <= i < 8 implies p.subrange(0, 8)[i]
                    == archive_seg()[i] by {
                    assert(p.subrange(0, 8)[i] == p[i]);
                    assert(p[i] == k.subrange(0, p.len() as int)[i]);
                    assert(k[i] == k.subrange(0, 8)[i]);
                }
                assert(p.subrange(0, 8) =~= archive_seg());
                if p.len() == 8 {
                    assert(in_archive(p));
                    assert(false);
                } else {
                    assert(p[8] == k[8]);
                    assert(k.len() > 8);
                    assert(k[8] == '/');
                    assert(in_archive(p));
                    assert(false);
                }
            } else {
                assert(k[p.len() as int] == '/');
                assert(k[p.len() as int] == k.subrange(0, 8)[p.len() as int]);
                assert(archive_seg()[p.len() as int] != '/');
                assert(false);
            }
        }
    }
}

/// Two subtree roots that share a common path are comparable.
pub proof fn lemma_subtree_comparable(k: Seq<char>, a: Seq<char>, b: Seq<char>)
    requires
        in_subtree(k, a),
        in_subtree(k, b),
    ensures
        in_subtree(a, b) || in_subtree(b, a),
{
    if a.len() != 0 && b.len() != 0 && a != b {
        if a.len() <= b.len() {
            assert(a == k.subrange(0, a.len() as int) || k == a);
            assert(b == k.subrange(0, b.len() as int) || k == b);
            if a.len() == b.len() {
                assert(a =~= b);
            } else {
                assert forall|i: int| 0 <= i < a.len() implies b.subrange(0, a.len() as int)[i]
                    == a[i] by {
                    assert(b[i] == k[i]);
                    assert(a[i] == k[i]);
                }
                assert(b.subrange(0, a.len() as int) =~= a);
                assert(b[a.len() as int] == k[a.len() as int]);
                assert(k.len() > a.len());
                assert(k[a.len() as int] == '/');
                assert(in_subtree(b, a));
            }
        } else {
            assert(b == k.subrange(0, b.len() as int) || k == b);
            assert(a == k.subrange(0, a.len() as int) || k == a);
            assert forall|i: int| 0 <= i < b.len() implies a.subrange(0, b.len() as int)[i]
                == b[i] by {
                assert(a[i] == k[i]);
                assert(b[i] == k[i]);
            }
            assert(a.subrange(0, b.len() as int) =~= b);
            assert(a[b.len() as int] == k[b.len() as int]);
            assert(k.len() > b.len());
            assert(k[b.len() as int] == '/');
            assert(in_subtree(a, b));
        }
    }
}

} // verus!
