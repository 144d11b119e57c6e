use beetle::change::FileIndexMetadata;
use beetle::codec::encode;
use beetle::writer::{
    load_snapshot_records, plan_update, snapshot_to_persist, split_batches, DEFAULT_BATCH_SIZE,
};

fn rec(path: &str, size: u64, modified_time: u64) -> FileIndexMetadata {
    FileIndexMetadata {
        path: path.to_string(),
        size,
        modified_time,
    }
}

#[test]
fn missing_snapshot_loads_as_empty() {
    assert_eq!(load_snapshot_records(None), vec![]);
}

#[test]
fn corrupted_snapshot_loads_as_empty() {
    // A run after snapshot corruption re-indexes the whole tree: the prior
    // snapshot counts as empty, so every current file comes out as added.
    let records = vec![rec("/src/main.c", 10, 100), rec("/src/add.h", 20, 200)];
    let mut blob = encode(&records).unwrap();
    let mid = blob.len() / 2;
    blob[mid] ^= 0xff;

    let loaded = load_snapshot_records(Some(&blob));
    assert_eq!(loaded, vec![]);

    let current = records;
    let plan = plan_update(&loaded, &current);
    assert_eq!(plan.deletes.len(), 0);
    assert_eq!(plan.upserts, current);
}

#[test]
fn intact_snapshot_loads_back() {
    let records = vec![rec("/src/main.c", 10, 100)];
    let blob = encode(&records).unwrap();
    assert_eq!(load_snapshot_records(Some(&blob)), records);
}

#[test]
fn incremental_add_plans_one_upsert() {
    // After main.c is indexed, adding add.h upserts only add.h.
    let prev = vec![rec("/tmp/src/main.c", 24, 100)];
    let cur = vec![rec("/tmp/src/main.c", 24, 100), rec("/tmp/src/add.h", 40, 110)];
    let plan = plan_update(&prev, &cur);
    assert_eq!(plan.deletes.len(), 0);
    assert_eq!(plan.upserts.len(), 1);
    assert_eq!(plan.upserts[0].path, "/tmp/src/add.h");
}

#[test]
fn incremental_delete_plans_one_removal() {
    // Deleting main.c removes its document and touches nothing else.
    let prev = vec![rec("/tmp/src/main.c", 24, 100), rec("/tmp/src/add.h", 40, 110)];
    let cur = vec![rec("/tmp/src/add.h", 40, 110)];
    let plan = plan_update(&prev, &cur);
    assert_eq!(plan.deletes, vec!["/tmp/src/main.c".to_string()]);
    assert_eq!(plan.upserts.len(), 0);
}

#[test]
fn modified_files_are_deleted_and_reindexed() {
    // A modified file is planned as a delete followed by an upsert, so that
    // exactly one document per path survives the commit.
    let prev = vec![rec("/tmp/src/main.c", 24, 100)];
    let cur = vec![rec("/tmp/src/main.c", 30, 200)];
    let plan = plan_update(&prev, &cur);
    assert_eq!(plan.deletes, vec!["/tmp/src/main.c".to_string()]);
    assert_eq!(plan.upserts.len(), 1);
    assert_eq!(plan.upserts[0].path, "/tmp/src/main.c");
    assert_eq!(plan.upserts[0].size, 30);
}

#[test]
fn batches_partition_the_upserts() {
    let mut records = Vec::new();
    for i in 0..250 {
        records.push(rec(&format!("/f{}", i), i, i));
    }
    let batches = split_batches(&records, DEFAULT_BATCH_SIZE);
    assert_eq!(batches.len(), 3);
    assert_eq!(batches[0].len(), 100);
    assert_eq!(batches[1].len(), 100);
    assert_eq!(batches[2].len(), 50);
    let flattened: Vec<FileIndexMetadata> = batches.into_iter().flatten().collect();
    assert_eq!(flattened, records);
}

#[test]
fn snapshot_is_only_persisted_after_a_commit() {
    let blob = encode(&vec![rec("/a", 1, 1)]).unwrap();
    assert_eq!(snapshot_to_persist(false, blob.clone()), None);
    assert_eq!(snapshot_to_persist(true, blob.clone()), Some(blob));
}
