//! The plan an incremental index run follows.
//!
//! A run loads the previous snapshot, walks the tree, and turns the two
//! record lists into an [`UpdatePlan`]: the paths whose documents must be
//! deleted, and the records whose files must be read and (re)indexed.  The
//! caller performs the deletes, then the upserts, then commits; only after a
//! successful commit may it persist the new snapshot.  The laws at the end
//! of this module show that applying a plan to an index that mirrored the
//! previous snapshot leaves exactly one document per file of the tree and
//! none for a file that is gone.

use vstd::prelude::*;

verus! {

use crate::change::{FileIndexMetadata, RecView, views, has_path, lookup, is_modified, absent_from,
    modified_in, paths_distinct, diff_file_index_metadata, lemma_has_path_index};
use crate::codec::{decode, spec_decode};
use crate::text::string_views;

/// How many records one indexing batch holds at most.
pub const DEFAULT_BATCH_SIZE: usize = 100;

/// The snapshot a previous run left behind, as read from its blob: no blob,
/// or one that does not decode, counts as an empty snapshot, so the next run
/// simply treats every file of the tree as new.
pub open spec fn spec_loaded(blob: Option<Seq<u8>>) -> Seq<RecView> {
    match blob {
        None => Seq::empty(),
        Some(b) => match spec_decode(b) {
            Ok(rs) => rs,
            Err(_) => Seq::empty(),
        },
    }
}

/// Decodes the previous snapshot blob, treating an absent or unreadable
/// blob as an empty snapshot.
pub fn load_snapshot_records(blob: Option<&Vec<u8>>) -> (r: Vec<FileIndexMetadata>)
    ensures
        views(r@) == spec_loaded(match blob {
            Some(b) => Some(b@),
            None => None,
        }),
{
    match blob {
        None => {
            let r = Vec::new();
            proof {
                assert(views(r@) =~= Seq::<RecView>::empty());
            }
            r
        },
        Some(b) => match decode(b.as_slice()) {
            Ok(rs) => rs,
            Err(_) => {
                let r = Vec::new();
                proof {
                    assert(views(r@) =~= Seq::<RecView>::empty());
                }
                r
            },
        },
    }
}

/// The paths of a list of records, in order.
pub open spec fn paths_of(rs: Seq<RecView>) -> Seq<Seq<char>> {
    rs.map_values(|r: RecView| r.path)
}

/// The paths whose documents an update deletes: those of removed files,
/// then those of modified files (a modified file is deleted and re-added,
/// so that exactly one document per path survives the commit).
pub open spec fn delete_paths(prev: Seq<RecView>, cur: Seq<RecView>) -> Seq<Seq<char>> {
    paths_of(absent_from(cur, prev)) + paths_of(modified_in(prev, cur))
}

/// The records an update (re)indexes: the added files, then the modified
/// files.
pub open spec fn upsert_records(prev: Seq<RecView>, cur: Seq<RecView>) -> Seq<RecView> {
    absent_from(prev, cur) + modified_in(prev, cur)
}

/// The work one incremental run performs, in order: delete the documents of
/// `deletes`, then read and add a document for each record of `upserts`.
pub struct UpdatePlan {
    pub deletes: Vec<String>,
    pub upserts: Vec<FileIndexMetadata>,
}

/// Builds the plan for one incremental run from the previous snapshot and
/// the fresh walk.
pub fn plan_update(previous: &Vec<FileIndexMetadata>, current: &Vec<FileIndexMetadata>) -> (plan:
    UpdatePlan)
    ensures
        string_views(plan.deletes@) == delete_paths(views(previous@), views(current@)),
        views(plan.upserts@) == upsert_records(views(previous@), views(current@)),
{
    let ghost prevs = views(previous@);
    let ghost curs = views(current@);
    let delta = diff_file_index_metadata(previous.as_slice(), current.as_slice());

    let mut deletes: Vec<String> = Vec::new();
    let mut i: usize = 0;
    while i < delta.removed.len()
        invariant
            i <= delta.removed@.len(),
            views(delta.removed@) == absent_from(curs, prevs),
            string_views(deletes@) == paths_of(views(delta.removed@).subrange(0, i as int)),
        decreases delta.removed@.len() - i,
    {
        let ghost old_d = deletes@;
        let cloned = delta.removed[i].path.clone();
        proof {
            assert(cloned@ == delta.removed@[i as int].path@);
        }
        deletes.push(cloned);
        proof {
            assert(deletes@ == old_d.push(cloned));
            assert(string_views(deletes@) =~~= string_views(old_d).push(cloned@));
            assert(views(delta.removed@).subrange(0, i + 1) =~~= views(delta.removed@).subrange(
                0,
                i as int,
            ).push(views(delta.removed@)[i as int]));
            assert(paths_of(views(delta.removed@).subrange(0, i + 1)) =~~= string_views(deletes@));
        }
        i = i + 1;
    }
    let mut k: usize = 0;
    while k < delta.modified.len()
        invariant
            k <= delta.modified@.len(),
            views(delta.removed@) == absent_from(curs, prevs),
            views(delta.modified@) == modified_in(prevs, curs),
            string_views(deletes@) == paths_of(views(delta.removed@)) + paths_of(
                views(delta.modified@).subrange(0, k as int),
            ),
        decreases delta.modified@.len() - k,
    {
        let ghost old_d = deletes@;
        let cloned = delta.modified[k].path.clone();
        proof {
            assert(cloned@ == delta.modified@[k as int].path@);
        }
        deletes.push(cloned);
        proof {
            assert(deletes@ == old_d.push(cloned));
            assert(string_views(deletes@) =~~= string_views(old_d).push(cloned@));
            assert(views(delta.modified@).subrange(0, k + 1) =~~= views(delta.modified@).subrange(
                0,
                k as int,
            ).push(views(delta.modified@)[k as int]));
            assert(paths_of(views(delta.removed@)) + paths_of(
                views(delta.modified@).subrange(0, k + 1),
            ) =~~= string_views(deletes@));
        }
        k = k + 1;
    }
    proof {
        assert(views(delta.removed@).subrange(0, views(delta.removed@).len() as int) =~= views(
            delta.removed@,
        ));
        assert(views(delta.modified@).subrange(0, views(delta.modified@).len() as int) =~= views(
            delta.modified@,
        ));
        assert(string_views(deletes@) =~~= delete_paths(prevs, curs));
    }

    let mut upserts: Vec<FileIndexMetadata> = delta.added;
    let mut modified = delta.modified;
    let ghost added_v = views(upserts@);
    let ghost modified_v = views(modified@);
    upserts.append(&mut modified);
    proof {
        assert(views(upserts@) =~= added_v + modified_v);
    }
    UpdatePlan { deletes, upserts }
}

/// Splits the upsert records into batches of at most `batch_size` records;
/// the batches, in order, hold exactly the input records.
pub fn split_batches(records: &Vec<FileIndexMetadata>, batch_size: usize) -> (batches: Vec<
    Vec<FileIndexMetadata>,
>)
    requires
        batch_size > 0,
    ensures
        flat_views(batches@) == views(records@),
        forall|i: int| 0 <= i < batches@.len() ==> 0 < (#[trigger] batches@[i])@.len()
            <= batch_size,
{
    let mut batches: Vec<Vec<FileIndexMetadata>> = Vec::new();
    let mut cur: Vec<FileIndexMetadata> = Vec::new();
    let mut i: usize = 0;
    while i < records.len()
        invariant
            i <= records@.len(),
            batch_size > 0,
            cur@.len() < batch_size,
            flat_views(batches@) + views(cur@) == views(records@.subrange(0, i as int)),
            forall|j: int| 0 <= j < batches@.len() ==> 0 < (#[trigger] batches@[j])@.len()
                <= batch_size,
        decreases records@.len() - i,
    {
        cur.push(records[i].duplicate());
        proof {
            assert(views(records@.subrange(0, i + 1)) =~= views(records@.subrange(0, i as int)).push(
                records@[i as int]@,
            ));
            assert(flat_views(batches@) + views(cur@) =~= views(records@.subrange(0, i + 1)));
        }
        i = i + 1;
        if cur.len() == batch_size {
            let ghost old_batches = batches@;
            let full = cur;
            cur = Vec::new();
            batches.push(full);
            proof {
                assert(batches@.drop_last() =~= old_batches);
                assert(flat_views(batches@) + views(cur@) =~= views(records@.subrange(0, i as int)));
            }
        }
    }
    if cur.len() > 0 {
        let ghost old_batches = batches@;
        batches.push(cur);
        proof {
            assert(batches@.drop_last() =~= old_batches);
        }
    }
    proof {
        assert(records@.subrange(0, records@.len() as int) =~= records@);
        assert(flat_views(batches@) + views(Seq::<FileIndexMetadata>::empty()) =~= flat_views(
            batches@,
        ));
    }
    batches
}

/// The records of a list of batches, in order.
pub open spec fn flat_views(bs: Seq<Vec<FileIndexMetadata>>) -> Seq<RecView>
    decreases bs.len(),
{
    if bs.len() == 0 {
        Seq::empty()
    } else {
        flat_views(bs.drop_last()) + views(bs.last()@)
    }
}

/// The snapshot blob to persist once the backend has committed: `None`
/// when the commit did not succeed, so that the snapshot on disk never runs
/// ahead of the index.
pub fn snapshot_to_persist(commit_ok: bool, encoded: Vec<u8>) -> (r: Option<Vec<u8>>)
    ensures
        commit_ok ==> (r matches Some(v) && v@ == encoded@),
        !commit_ok ==> r is None,
{
    if commit_ok {
        Some(encoded)
    } else {
        None
    }
}

// ---------------------------------------------------------------------------
// The document model: an index is, for this purpose, the sequence of paths
// of the documents it holds.  Deleting a path removes every document with
// that path; adding appends one document.
// ---------------------------------------------------------------------------

/// How many documents of `docs` have path `p`.
pub open spec fn path_count(docs: Seq<Seq<char>>, p: Seq<char>) -> nat
    decreases docs.len(),
{
    if docs.len() == 0 {
        0
    } else {
        (if docs[0] == p {
            1nat
        } else {
            0nat
        }) + path_count(docs.drop_first(), p)
    }
}

/// The documents that survive deleting every document with path `q`.
pub open spec fn delete_path(docs: Seq<Seq<char>>, q: Seq<char>) -> Seq<Seq<char>>
    decreases docs.len(),
{
    if docs.len() == 0 {
        Seq::empty()
    } else if docs[0] == q {
        delete_path(docs.drop_first(), q)
    } else {
        seq![docs[0]] + delete_path(docs.drop_first(), q)
    }
}

/// The documents that survive deleting every path of `dels`, in order.
pub open spec fn apply_deletes(docs: Seq<Seq<char>>, dels: Seq<Seq<char>>) -> Seq<Seq<char>>
    decreases dels.len(),
{
    if dels.len() == 0 {
        docs
    } else {
        apply_deletes(delete_path(docs, dels[0]), dels.drop_first())
    }
}

/// The documents of an index after one run: the deletes are applied first,
/// then one document is added per upserted record.
pub open spec fn apply_plan(
    docs: Seq<Seq<char>>,
    dels: Seq<Seq<char>>,
    ups: Seq<RecView>,
) -> Seq<Seq<char>> {
    apply_deletes(docs, dels) + paths_of(ups)
}

proof fn lemma_count_push(docs: Seq<Seq<char>>, d: Seq<char>, p: Seq<char>)
    ensures
        path_count(docs.push(d), p) == path_count(docs, p) + if d == p {
            1nat
        } else {
            0nat
        },
    decreases docs.len(),
{
    if docs.len() == 0 {
        let e = Seq::<Seq<char>>::empty();
        assert(docs.push(d)[0] == d);
        assert(docs.push(d).drop_first() =~~= e);
        assert(path_count(e, p) == 0);
        assert(path_count(docs.push(d), p) == (if d == p {
            1nat
        } else {
            0nat
        }) + path_count(e, p));
    } else {
        assert(docs.push(d)[0] == docs[0]);
        assert(docs.push(d).drop_first() =~~= docs.drop_first().push(d));
        lemma_count_push(docs.drop_first(), d, p);
        assert(path_count(docs.push(d), p) == (if docs[0] == p {
            1nat
        } else {
            0nat
        }) + path_count(docs.drop_first().push(d), p));
    }
}

proof fn lemma_count_concat(a: Seq<Seq<char>>, b: Seq<Seq<char>>, p: Seq<char>)
    ensures
        path_count(a + b, p) == path_count(a, p) + path_count(b, p),
    decreases a.len(),
{
    if a.len() == 0 {
        assert(a + b =~~= b);
    } else {
        assert((a + b)[0] == a[0]);
        assert((a + b).drop_first() =~~= a.drop_first() + b);
        lemma_count_concat(a.drop_first(), b, p);
    }
}

proof fn lemma_count_delete(docs: Seq<Seq<char>>, q: Seq<char>, p: Seq<char>)
    ensures
        path_count(delete_path(docs, q), p) == if p == q {
            0nat
        } else {
            path_count(docs, p)
        },
    decreases docs.len(),
{
    if docs.len() == 0 {
        assert(path_count(delete_path(docs, q), p) == 0);
    } else {
        lemma_count_delete(docs.drop_first(), q, p);
        if docs[0] != q {
            lemma_count_concat(seq![docs[0]], delete_path(docs.drop_first(), q), p);
            let e = Seq::<Seq<char>>::empty();
            assert(seq![docs[0]].drop_first() =~~= e);
            assert(path_count(e, p) == 0);
            assert(path_count(seq![docs[0]], p) == (if docs[0] == p {
                1nat
            } else {
                0nat
            }) + path_count(e, p));
        }
    }
}

proof fn lemma_count_apply_deletes(docs: Seq<Seq<char>>, dels: Seq<Seq<char>>, p: Seq<char>)
    ensures
        path_count(apply_deletes(docs, dels), p) == if path_count(dels, p) > 0 {
            0nat
        } else {
            path_count(docs, p)
        },
    decreases dels.len(),
{
    if dels.len() > 0 {
        lemma_count_delete(docs, dels[0], p);
        lemma_count_apply_deletes(delete_path(docs, dels[0]), dels.drop_first(), p);
    }
}

proof fn lemma_count_paths_distinct(rs: Seq<RecView>, p: Seq<char>)
    requires
        paths_distinct(rs),
    ensures
        path_count(paths_of(rs), p) == if has_path(rs, p) {
            1nat
        } else {
            0nat
        },
    decreases rs.len(),
{
    if rs.len() == 0 {
        assert(paths_of(rs) =~~= Seq::<Seq<char>>::empty());
    } else {
        let dl = rs.drop_last();
        assert(paths_of(rs) =~~= paths_of(dl).push(rs.last().path));
        lemma_count_push(paths_of(dl), rs.last().path, p);
        assert(paths_distinct(dl)) by {
            assert(forall|i: int| 0 <= i < dl.len() ==> #[trigger] dl[i] == rs[i]);
        }
        lemma_count_paths_distinct(dl, p);
        if rs.last().path == p {
            assert(!has_path(dl, p)) by {
                lemma_has_path_index(dl, p);
            }
        }
    }
}

proof fn lemma_count_absent(other: Seq<RecView>, s: Seq<RecView>, p: Seq<char>)
    requires
        paths_distinct(s),
    ensures
        path_count(paths_of(absent_from(other, s)), p) == if has_path(s, p) && !has_path(other, p) {
            1nat
        } else {
            0nat
        },
    decreases s.len(),
{
    if s.len() == 0 {
        assert(paths_of(absent_from(other, s)) =~~= Seq::<Seq<char>>::empty());
    } else {
        let dl = s.drop_last();
        assert(paths_distinct(dl)) by {
            assert(forall|i: int| 0 <= i < dl.len() ==> #[trigger] dl[i] == s[i]);
        }
        lemma_count_absent(other, dl, p);
        if s.last().path == p {
            assert(!has_path(dl, p)) by {
                lemma_has_path_index(dl, p);
            }
        }
        if !has_path(other, s.last().path) {
            assert(paths_of(absent_from(other, s)) =~~= paths_of(absent_from(other, dl)).push(
                s.last().path,
            ));
            lemma_count_push(paths_of(absent_from(other, dl)), s.last().path, p);
        }
    }
}

proof fn lemma_count_modified(prev: Seq<RecView>, cur: Seq<RecView>, p: Seq<char>)
    requires
        paths_distinct(cur),
    ensures
        path_count(paths_of(modified_in(prev, cur)), p) == if has_path(cur, p) && is_modified(
            prev,
            lookup(cur, p),
        ) {
            1nat
        } else {
            0nat
        },
    decreases cur.len(),
{
    if cur.len() == 0 {
        assert(paths_of(modified_in(prev, cur)) =~~= Seq::<Seq<char>>::empty());
    } else {
        let dl = cur.drop_last();
        assert(paths_distinct(dl)) by {
            assert(forall|i: int| 0 <= i < dl.len() ==> #[trigger] dl[i] == cur[i]);
        }
        lemma_count_modified(prev, dl, p);
        if cur.last().path == p {
            assert(!has_path(dl, p)) by {
                lemma_has_path_index(dl, p);
            }
        }
        if is_modified(prev, cur.last()) {
            assert(paths_of(modified_in(prev, cur)) =~~= paths_of(modified_in(prev, dl)).push(
                cur.last().path,
            ));
            lemma_count_push(paths_of(modified_in(prev, dl)), cur.last().path, p);
        }
    }
}

/// Law: after a run whose plan is applied to an index that mirrored the
/// previous snapshot, every path of the walked tree has exactly one
/// document, and a path that is no longer in the tree has none.  The two
/// snapshots are lists without duplicate paths, as a walk of a directory
/// tree produces.
pub proof fn lemma_update_synchronizes(
    docs: Seq<Seq<char>>,
    prev: Seq<RecView>,
    cur: Seq<RecView>,
    p: Seq<char>,
)
    requires
        paths_distinct(prev),
        paths_distinct(cur),
        docs == paths_of(prev),
    ensures
        has_path(cur, p) ==> path_count(
            apply_plan(docs, delete_paths(prev, cur), upsert_records(prev, cur)),
            p,
        ) == 1,
        !has_path(cur, p) ==> path_count(
            apply_plan(docs, delete_paths(prev, cur), upsert_records(prev, cur)),
            p,
        ) == 0,
{
    let dels = delete_paths(prev, cur);
    let ups = upsert_records(prev, cur);
    lemma_count_concat(paths_of(absent_from(cur, prev)), paths_of(modified_in(prev, cur)), p);
    lemma_count_absent(cur, prev, p);
    lemma_count_modified(prev, cur, p);
    lemma_count_apply_deletes(docs, dels, p);
    lemma_count_paths_distinct(prev, p);
    assert(paths_of(ups) =~~= paths_of(absent_from(prev, cur)) + paths_of(modified_in(prev, cur)));
    lemma_count_concat(paths_of(absent_from(prev, cur)), paths_of(modified_in(prev, cur)), p);
    lemma_count_absent(prev, cur, p);
    lemma_count_concat(apply_deletes(docs, dels), paths_of(ups), p);
    if has_path(cur, p) {
        crate::change::lemma_lookup_path(cur, p);
    }
}

} // verus!
