use beetle::change::{diff_file_index_metadata, FileIndexMetadata, IndexDiffer};

fn rec(path: &str, size: u64, modified_time: u64) -> FileIndexMetadata {
    FileIndexMetadata {
        path: path.to_string(),
        size,
        modified_time,
    }
}

#[test]
fn change_test_file_addition() {
    let snapshot = vec![rec("a.c", 100, 1622547800)];
    let manifest = vec![rec("a.c", 100, 1622547800), rec("b.c", 200, 1622547800)];

    let delta = diff_file_index_metadata(&snapshot, &manifest);

    assert_eq!(delta.modified.len(), 0);
    assert_eq!(delta.removed.len(), 0);

    assert_eq!(delta.added.len(), 1);
    assert_eq!(delta.added[0].path, "b.c");
    assert_eq!(delta.added[0].size, 200);
    assert_eq!(delta.added[0].modified_time, 1622547800);
}

#[test]
fn change_test_file_modification() {
    let snapshot = vec![rec("a.c", 100, 1622547800)];
    let manifest = vec![rec("a.c", 150, 1622547900)];

    let delta = diff_file_index_metadata(&snapshot, &manifest);

    assert_eq!(delta.added.len(), 0);
    assert_eq!(delta.removed.len(), 0);

    assert_eq!(delta.modified.len(), 1);
    assert_eq!(delta.modified[0].path, "a.c");
    assert_eq!(delta.modified[0].size, 150);
    assert_eq!(delta.modified[0].modified_time, 1622547900);
}

#[test]
fn change_test_file_removal() {
    let snapshot = vec![rec("a.c", 100, 1622547800)];
    let manifest = vec![];

    let delta = diff_file_index_metadata(&snapshot, &manifest);

    assert_eq!(delta.added.len(), 0);
    assert_eq!(delta.modified.len(), 0);

    assert_eq!(delta.removed.len(), 1);
    assert_eq!(delta.removed[0].path, "a.c");
    assert_eq!(delta.removed[0].size, 100);
    assert_eq!(delta.removed[0].modified_time, 1622547800);
}

#[test]
fn file_scanner_test_file_addition() {
    let snapshot = vec![rec("a.c", 100, 1622547800)];
    let manifest = vec![rec("a.c", 100, 1622547800), rec("b.c", 200, 1622547800)];

    let delta = IndexDiffer::diff(&snapshot, &manifest);

    assert_eq!(delta.modified.len(), 0);
    assert_eq!(delta.removed.len(), 0);

    assert_eq!(delta.added.len(), 1);
    assert_eq!(delta.added[0].path, "b.c");
    assert_eq!(delta.added[0].size, 200);
    assert_eq!(delta.added[0].modified_time, 1622547800);
}

#[test]
fn file_scanner_test_file_modification() {
    let snapshot = vec![rec("a.c", 100, 1622547800)];
    let manifest = vec![rec("a.c", 150, 1622547900)];

    let delta = IndexDiffer::diff(&snapshot, &manifest);

    assert_eq!(delta.added.len(), 0);
    assert_eq!(delta.removed.len(), 0);

    assert_eq!(delta.modified.len(), 1);
    assert_eq!(delta.modified[0].path, "a.c");
    assert_eq!(delta.modified[0].size, 150);
    assert_eq!(delta.modified[0].modified_time, 1622547900);
}

#[test]
fn file_scanner_test_file_removal() {
    let snapshot = vec![rec("a.c", 100, 1622547800)];
    let manifest = vec![];

    let delta = IndexDiffer::diff(&snapshot, &manifest);

    assert_eq!(delta.added.len(), 0);
    assert_eq!(delta.modified.len(), 0);

    assert_eq!(delta.removed.len(), 1);
    assert_eq!(delta.removed[0].path, "a.c");
    assert_eq!(delta.removed[0].size, 100);
    assert_eq!(delta.removed[0].modified_time, 1622547800);
}

#[test]
fn file_status_index_test_file_addition() {
    let snapshot = vec![rec("a.c", 100, 1622547800)];
    let manifest = vec![rec("a.c", 100, 1622547800), rec("b.c", 200, 1622547800)];

    let delta = diff_file_index_metadata(&snapshot, &manifest);

    assert_eq!(delta.modified.len(), 0);
    assert_eq!(delta.removed.len(), 0);

    assert_eq!(delta.added.len(), 1);
    assert_eq!(delta.added[0].path, "b.c");
    assert_eq!(delta.added[0].size, 200);
    assert_eq!(delta.added[0].modified_time, 1622547800);
}

#[test]
fn file_status_index_test_file_modification() {
    let snapshot = vec![rec("a.c", 100, 1622547800)];
    let manifest = vec![rec("a.c", 150, 1622547900)];

    let delta = diff_file_index_metadata(&snapshot, &manifest);

    assert_eq!(delta.added.len(), 0);
    assert_eq!(delta.removed.len(), 0);

    assert_eq!(delta.modified.len(), 1);
    assert_eq!(delta.modified[0].path, "a.c");
    assert_eq!(delta.modified[0].size, 150);
    assert_eq!(delta.modified[0].modified_time, 1622547900);
}

#[test]
fn file_status_index_test_file_removal() {
    let snapshot = vec![rec("a.c", 100, 1622547800)];
    let manifest = vec![];

    let delta = diff_file_index_metadata(&snapshot, &manifest);

    assert_eq!(delta.added.len(), 0);
    assert_eq!(delta.modified.len(), 0);

    assert_eq!(delta.removed.len(), 1);
    assert_eq!(delta.removed[0].path, "a.c");
    assert_eq!(delta.removed[0].size, 100);
    assert_eq!(delta.removed[0].modified_time, 1622547800);
}

#[test]
fn diff_of_identical_snapshots_is_empty() {
    let xs = vec![rec("a.c", 100, 1), rec("b.c", 200, 2), rec("c.c", 300, 3)];
    let delta = diff_file_index_metadata(&xs, &xs);
    assert_eq!(delta.added.len(), 0);
    assert_eq!(delta.modified.len(), 0);
    assert_eq!(delta.removed.len(), 0);
}

#[test]
fn diff_against_empty_previous_adds_everything() {
    let xs = vec![rec("a.c", 100, 1), rec("b.c", 200, 2)];
    let delta = diff_file_index_metadata(&[], &xs);
    assert_eq!(delta.added, xs);
    assert_eq!(delta.modified.len(), 0);
    assert_eq!(delta.removed.len(), 0);

    let delta = diff_file_index_metadata(&xs, &[]);
    assert_eq!(delta.removed, xs);
    assert_eq!(delta.added.len(), 0);
    assert_eq!(delta.modified.len(), 0);
}

#[test]
fn delta_lists_are_disjoint_on_path() {
    let prev = vec![rec("keep.c", 1, 1), rec("mod.c", 2, 2), rec("gone.c", 3, 3)];
    let cur = vec![rec("keep.c", 1, 1), rec("mod.c", 2, 9), rec("new.c", 4, 4)];
    let delta = diff_file_index_metadata(&prev, &cur);
    assert_eq!(delta.added.len(), 1);
    assert_eq!(delta.added[0].path, "new.c");
    assert_eq!(delta.modified.len(), 1);
    assert_eq!(delta.modified[0].path, "mod.c");
    assert_eq!(delta.removed.len(), 1);
    assert_eq!(delta.removed[0].path, "gone.c");
    for a in &delta.added {
        assert!(delta.modified.iter().all(|m| m.path != a.path));
        assert!(delta.removed.iter().all(|m| m.path != a.path));
    }
    for m in &delta.modified {
        assert!(delta.removed.iter().all(|r| r.path != m.path));
    }
}

#[test]
fn duplicate_paths_take_the_last_record() {
    // The last occurrence of a duplicated path is the one compared against.
    let prev = vec![rec("a.c", 1, 1), rec("a.c", 2, 2)];
    let cur = vec![rec("a.c", 2, 2)];
    let delta = diff_file_index_metadata(&prev, &cur);
    assert_eq!(delta.added.len(), 0);
    assert_eq!(delta.modified.len(), 0);
    assert_eq!(delta.removed.len(), 0);
}
