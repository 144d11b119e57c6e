//! File-metadata snapshot records and the differ that compares two of them.
//!
//! A snapshot is a list of [`FileIndexMetadata`] records, one per file,
//! keyed by path.  The differ compares a previous snapshot against a fresh
//! walk of the tree and splits the outcome into added, modified, and removed
//! records.

use vstd::prelude::*;

verus! {

/// Metadata of one file: its path (the identity key), its size in bytes,
/// and its modification time in seconds since the epoch.
#[derive(Debug, Clone, PartialEq, Eq)]
pub struct FileIndexMetadata {
    pub path: String,
    pub size: u64,
    pub modified_time: u64,
}

/// The mathematical value of a record: the path as a character sequence,
/// with the two numeric fields.
pub struct RecView {
    pub path: Seq<char>,
    pub size: u64,
    pub modified_time: u64,
}

impl View for FileIndexMetadata {
    type V = RecView;

    open spec fn view(&self) -> RecView {
        RecView { path: self.path@, size: self.size, modified_time: self.modified_time }
    }
}

impl FileIndexMetadata {
    /// A record with the same path, size and modification time.
    pub fn duplicate(&self) -> (r: Self)
        ensures
            r@ == self@,
    {
        FileIndexMetadata {
            path: self.path.clone(),
            size: self.size,
            modified_time: self.modified_time,
        }
    }
}

/// The views of a list of records.
pub open spec fn views(s: Seq<FileIndexMetadata>) -> Seq<RecView> {
    s.map_values(|r: FileIndexMetadata| r@)
}

/// Whether some record in `s` has path `p`.
pub open spec fn has_path(s: Seq<RecView>, p: Seq<char>) -> bool
    decreases s.len(),
{
    s.len() != 0 && (s.last().path == p || has_path(s.drop_last(), p))
}

/// The last record in `s` whose path is `p`; the last occurrence is the one
/// that counts when a path appears more than once.
pub open spec fn lookup(s: Seq<RecView>, p: Seq<char>) -> RecView
    recommends
        has_path(s, p),
    decreases s.len(),
{
    if s.len() == 0 {
        arbitrary()
    } else if s.last().path == p {
        s.last()
    } else {
        lookup(s.drop_last(), p)
    }
}

/// The records of `s`, in order, whose paths do not occur in `other`.
pub open spec fn absent_from(other: Seq<RecView>, s: Seq<RecView>) -> Seq<RecView>
    decreases s.len(),
{
    if s.len() == 0 {
        Seq::empty()
    } else {
        let rest = absent_from(other, s.drop_last());
        if !has_path(other, s.last().path) {
            rest.push(s.last())
        } else {
            rest
        }
    }
}

/// Whether `r` counts as modified with respect to `prev`: its path occurs
/// there, and the record it is held against differs in size or time.
pub open spec fn is_modified(prev: Seq<RecView>, r: RecView) -> bool {
    has_path(prev, r.path) && {
        let p = lookup(prev, r.path);
        p.size != r.size || p.modified_time != r.modified_time
    }
}

/// The records of `cur`, in order, that count as modified against `prev`.
pub open spec fn modified_in(prev: Seq<RecView>, cur: Seq<RecView>) -> Seq<RecView>
    decreases cur.len(),
{
    if cur.len() == 0 {
        Seq::empty()
    } else {
        let rest = modified_in(prev, cur.drop_last());
        if is_modified(prev, cur.last()) {
            rest.push(cur.last())
        } else {
            rest
        }
    }
}

/// The outcome of comparing two snapshots.
pub struct Delta {
    pub added: Vec<FileIndexMetadata>,
    pub modified: Vec<FileIndexMetadata>,
    pub removed: Vec<FileIndexMetadata>,
}

/// The index of the last record in `s` whose path equals `p`.
fn find_last_by_path(s: &[FileIndexMetadata], p: &String) -> (r: Option<usize>)
    ensures
        match r {
            Some(j) => j < s@.len() && s@[j as int]@.path == p@ && has_path(views(s@), p@)
                && lookup(views(s@), p@) == s@[j as int]@,
            None => !has_path(views(s@), p@),
        },
{
    let mut j = s.len();
    while j > 0
        invariant
            j <= s@.len(),
            forall|m: int| j <= m < s@.len() ==> views(s@)[m].path != p@,
        decreases j,
    {
        j = j - 1;
        if str_eq_strings(&s[j].path, p) {
            proof {
                lemma_has_path_index(views(s@).skip(j + 1), p@);
                assert forall|m: int| 0 <= m < views(s@).skip(j + 1).len() implies (#[trigger]
                views(s@).skip(j + 1)[m]).path != p@ by {
                    assert(views(s@).skip(j + 1)[m] == views(s@)[m + j + 1]);
                }
                lemma_lookup_at_last_match(views(s@), p@, j as int);
            }
            return Some(j);
        }
    }
    proof {
        lemma_has_path_index(views(s@), p@);
    }
    None
}

/// Whether two `String`s hold the same characters.
fn str_eq_strings(a: &String, b: &String) -> (r: bool)
    ensures
        r == (a@ == b@),
{
    a.eq(b)
}

/// If position `j` holds path `p` and no later position does, the last
/// occurrence of `p` in `s` is position `j`.
proof fn lemma_lookup_at_last_match(s: Seq<RecView>, p: Seq<char>, j: int)
    requires
        0 <= j < s.len(),
        s[j].path == p,
        !has_path(s.skip(j + 1), p),
    ensures
        has_path(s, p),
        lookup(s, p) == s[j],
    decreases s.len(),
{
    if j == s.len() - 1 {
    } else {
        assert(s.skip(j + 1).last() == s.last());
        assert(s.skip(j + 1).drop_last() =~= s.drop_last().skip(j + 1));
        lemma_lookup_at_last_match(s.drop_last(), p, j);
    }
}

/// A successful lookup returns a record with the path looked up.
pub proof fn lemma_lookup_path(s: Seq<RecView>, p: Seq<char>)
    requires
        has_path(s, p),
    ensures
        lookup(s, p).path == p,
    decreases s.len(),
{
    if s.len() != 0 && s.last().path != p {
        lemma_lookup_path(s.drop_last(), p);
    }
}

/// `has_path` holds exactly when some position holds the path.
pub proof fn lemma_has_path_index(s: Seq<RecView>, p: Seq<char>)
    ensures
        has_path(s, p) <==> exists|i: int| 0 <= i < s.len() && s[i].path == p,
    decreases s.len(),
{
    if s.len() != 0 {
        lemma_has_path_index(s.drop_last(), p);
        if s.last().path == p {
        } else if has_path(s.drop_last(), p) {
            let i = choose|i: int| 0 <= i < s.drop_last().len() && s.drop_last()[i].path == p;
            assert(s[i].path == p);
        } else {
            assert forall|i: int| 0 <= i < s.len() && s[i].path == p implies false by {
                if i < s.len() - 1 {
                    assert(s.drop_last()[i].path == p);
                }
            }
        }
    }
}

/// Compares two snapshots.  A record of `current` whose path is new is
/// added; one whose path is known but whose size or time differs from the
/// record held before is modified; a record of `previous` whose path is gone
/// is removed.  Order within each list follows the input order, and when a
/// path occurs more than once in `previous` the last occurrence is the one
/// a current record is held against.
pub fn diff_file_index_metadata(
    previous: &[FileIndexMetadata],
    current: &[FileIndexMetadata],
) -> (delta: Delta)
    ensures
        views(delta.added@) == absent_from(views(previous@), views(current@)),
        views(delta.modified@) == modified_in(views(previous@), views(current@)),
        views(delta.removed@) == absent_from(views(current@), views(previous@)),
{
    let ghost prevs = views(previous@);
    let ghost curs = views(current@);
    let mut added: Vec<FileIndexMetadata> = Vec::new();
    let mut modified: Vec<FileIndexMetadata> = Vec::new();
    let mut removed: Vec<FileIndexMetadata> = Vec::new();

    let mut i: usize = 0;
    while i < current.len()
        invariant
            i <= curs.len(),
            curs == views(current@),
            prevs == views(previous@),
            views(added@) == absent_from(prevs, curs.take(i as int)),
            views(modified@) == modified_in(prevs, curs.take(i as int)),
        decreases current@.len() - i,
    {
        proof {
            assert(curs.take(i + 1).drop_last() =~= curs.take(i as int));
            assert(curs.take(i + 1).last() == curs[i as int]);
        }
        match find_last_by_path(previous, &current[i].path) {
            None => {
                added.push(current[i].duplicate());
                proof {
                    assert(views(added@) =~= absent_from(prevs, curs.take(i + 1)));
                    assert(views(modified@) =~= modified_in(prevs, curs.take(i + 1)));
                }
            },
            Some(j) => {
                let prev_file = &previous[j];
                if prev_file.size != current[i].size
                    || prev_file.modified_time != current[i].modified_time {
                    modified.push(current[i].duplicate());
                    proof {
                        assert(views(modified@) =~= modified_in(prevs, curs.take(i + 1)));
                    }
                }
                proof {
                    assert(views(added@) =~= absent_from(prevs, curs.take(i + 1)));
                    assert(views(modified@) =~= modified_in(prevs, curs.take(i + 1)));
                }
            },
        }
        i = i + 1;
    }

    let mut k: usize = 0;
    while k < previous.len()
        invariant
            k <= prevs.len(),
            curs == views(current@),
            prevs == views(previous@),
            views(removed@) == absent_from(curs, prevs.take(k as int)),
        decreases previous@.len() - k,
    {
        proof {
            assert(prevs.take(k + 1).drop_last() =~= prevs.take(k as int));
            assert(prevs.take(k + 1).last() == prevs[k as int]);
        }
        match find_last_by_path(current, &previous[k].path) {
            None => {
                removed.push(previous[k].duplicate());
                proof {
                    assert(views(removed@) =~= absent_from(curs, prevs.take(k + 1)));
                }
            },
            Some(_) => {
                proof {
                    assert(views(removed@) =~= absent_from(curs, prevs.take(k + 1)));
                }
            },
        }
        k = k + 1;
    }

    proof {
        assert(curs.take(curs.len() as int) =~= curs);
        assert(prevs.take(prevs.len() as int) =~= prevs);
    }
    Delta { added, modified, removed }
}

/// Whether no two records of `s` share a path.
pub open spec fn paths_distinct(s: Seq<RecView>) -> bool {
    forall|i: int, j: int| 0 <= i < j < s.len() ==> s[i].path != s[j].path
}

/// A path found among the records that `absent_from` keeps occurs in `s`
/// and not in `other`.
proof fn lemma_absent_from_paths(other: Seq<RecView>, s: Seq<RecView>, p: Seq<char>)
    requires
        has_path(absent_from(other, s), p),
    ensures
        has_path(s, p),
        !has_path(other, p),
    decreases s.len(),
{
    if s.len() != 0 {
        let rest = absent_from(other, s.drop_last());
        if !has_path(other, s.last().path) {
            assert(rest.push(s.last()).drop_last() =~= rest);
            if s.last().path != p {
                lemma_absent_from_paths(other, s.drop_last(), p);
            }
        } else {
            lemma_absent_from_paths(other, s.drop_last(), p);
        }
    }
}

/// A path found among the records that `modified_in` keeps occurs both in
/// `prev` and in `cur`.
proof fn lemma_modified_in_paths(prev: Seq<RecView>, cur: Seq<RecView>, p: Seq<char>)
    requires
        has_path(modified_in(prev, cur), p),
    ensures
        has_path(cur, p),
        has_path(prev, p),
    decreases cur.len(),
{
    if cur.len() != 0 {
        let rest = modified_in(prev, cur.drop_last());
        if is_modified(prev, cur.last()) {
            assert(rest.push(cur.last()).drop_last() =~= rest);
            if cur.last().path != p {
                lemma_modified_in_paths(prev, cur.drop_last(), p);
            }
        } else {
            lemma_modified_in_paths(prev, cur.drop_last(), p);
        }
    }
}

/// Law: the three lists of a delta are pairwise disjoint on path.  No path
/// occurs both among the added and the modified records, both among the
/// added and the removed records, or both among the modified and the
/// removed records.
pub proof fn lemma_delta_disjoint(prev: Seq<RecView>, cur: Seq<RecView>, p: Seq<char>)
    ensures
        !(has_path(absent_from(prev, cur), p) && has_path(modified_in(prev, cur), p)),
        !(has_path(absent_from(prev, cur), p) && has_path(absent_from(cur, prev), p)),
        !(has_path(modified_in(prev, cur), p) && has_path(absent_from(cur, prev), p)),
{
    if has_path(absent_from(prev, cur), p) {
        lemma_absent_from_paths(prev, cur, p);
    }
    if has_path(modified_in(prev, cur), p) {
        lemma_modified_in_paths(prev, cur, p);
    }
    if has_path(absent_from(cur, prev), p) {
        lemma_absent_from_paths(cur, prev, p);
    }
}

/// In a snapshot without duplicate paths, every record is the one that a
/// lookup of its own path returns.
proof fn lemma_lookup_self(x: Seq<RecView>, i: int)
    requires
        paths_distinct(x),
        0 <= i < x.len(),
    ensures
        has_path(x, x[i].path),
        lookup(x, x[i].path) == x[i],
    decreases x.len(),
{
    if i == x.len() - 1 {
    } else {
        assert(x.drop_last()[i] == x[i]);
        lemma_lookup_self(x.drop_last(), i);
    }
}

proof fn lemma_diff_self_prefix(x: Seq<RecView>, k: int)
    requires
        paths_distinct(x),
        0 <= k <= x.len(),
    ensures
        absent_from(x, x.take(k)) == Seq::<RecView>::empty(),
        modified_in(x, x.take(k)) == Seq::<RecView>::empty(),
    decreases k,
{
    if k > 0 {
        assert(x.take(k).drop_last() =~= x.take(k - 1));
        assert(x.take(k).last() == x[k - 1]);
        lemma_lookup_self(x, k - 1);
        lemma_diff_self_prefix(x, k - 1);
    }
}

/// Law: comparing a snapshot against itself yields an empty delta, for any
/// snapshot without duplicate paths.  (With duplicates the comparison is
/// made against the last record of a path, so an earlier record of the same
/// path can come out as modified.)
pub proof fn lemma_diff_self(x: Seq<RecView>)
    requires
        paths_distinct(x),
    ensures
        absent_from(x, x) == Seq::<RecView>::empty(),
        modified_in(x, x) == Seq::<RecView>::empty(),
{
    lemma_diff_self_prefix(x, x.len() as int);
    assert(x.take(x.len() as int) =~= x);
}

/// Law: against an empty previous snapshot every record of the walk is
/// added and none is modified; an empty walk marks every record of the
/// previous snapshot as removed and none as added or modified.
pub proof fn lemma_diff_against_empty(xs: Seq<RecView>)
    ensures
        absent_from(Seq::<RecView>::empty(), xs) == xs,
        modified_in(Seq::<RecView>::empty(), xs) == Seq::<RecView>::empty(),
        absent_from(xs, Seq::<RecView>::empty()) == Seq::<RecView>::empty(),
        modified_in(xs, Seq::<RecView>::empty()) == Seq::<RecView>::empty(),
    decreases xs.len(),
{
    if xs.len() != 0 {
        lemma_diff_against_empty(xs.drop_last());
        assert(absent_from(Seq::<RecView>::empty(), xs) =~= xs);
    }
}

/// The differ under its object-style name.
pub struct IndexDiffer;

impl IndexDiffer {
    /// Same comparison as [`diff_file_index_metadata`].
    pub fn diff(snapshot: &[FileIndexMetadata], manifest: &[FileIndexMetadata]) -> (delta: Delta)
        ensures
            views(delta.added@) == absent_from(views(snapshot@), views(manifest@)),
            views(delta.modified@) == modified_in(views(snapshot@), views(manifest@)),
            views(delta.removed@) == absent_from(views(manifest@), views(snapshot@)),
    {
        diff_file_index_metadata(snapshot, manifest)
    }
}

} // verus!
