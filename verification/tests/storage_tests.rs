use beetle::storage::{
    find_metadata, parse_meta, sort_by_index_name, FsStorage, IndexStorageMetadata,
};

fn meta(name: &str, ipath: &str, tpath: &str) -> IndexStorageMetadata {
    IndexStorageMetadata {
        index_name: name.to_string(),
        index_path: ipath.to_string(),
        target_path: tpath.to_string(),
    }
}

#[test]
fn meta_json_renders_the_three_fields() {
    let m = meta("idx", "/data/idx", "/home/user/src");
    assert_eq!(
        m.to_json(),
        "{\"index_name\":\"idx\",\"index_path\":\"/data/idx\",\"target_path\":\"/home/user/src\"}"
    );
}

#[test]
fn meta_json_round_trips() {
    let m = meta("idx", "/data/idx", "/home/user/src");
    let parsed = parse_meta(&m.to_json()).unwrap();
    assert_eq!(parsed.index_name, "idx");
    assert_eq!(parsed.index_path, "/data/idx");
    assert_eq!(parsed.target_path, "/home/user/src");
}

#[test]
fn meta_json_round_trips_with_escapes() {
    let m = meta("quote\"back\\slash", "/tab\there", "/line\nbreak\u{1}end");
    let text = m.to_json();
    let parsed = parse_meta(&text).unwrap();
    assert_eq!(parsed.index_name, "quote\"back\\slash");
    assert_eq!(parsed.index_path, "/tab\there");
    assert_eq!(parsed.target_path, "/line\nbreak\u{1}end");
}

#[test]
fn parse_meta_rejects_other_text() {
    assert!(parse_meta("").is_none());
    assert!(parse_meta("{}").is_none());
    assert!(parse_meta("{\"index_name\":\"a\"}").is_none());
    assert!(parse_meta("not json at all").is_none());
    let m = meta("idx", "/p", "/t");
    let mut text = m.to_json();
    text.push(' ');
    assert!(parse_meta(&text).is_none());
}

#[test]
fn listing_is_sorted_by_index_name() {
    let items = vec![
        meta("zeta", "/z", "/tz"),
        meta("alpha", "/a", "/ta"),
        meta("midway", "/m", "/tm"),
        meta("beta", "/b", "/tb"),
    ];
    let sorted = sort_by_index_name(items);
    let names: Vec<&str> = sorted.iter().map(|m| m.index_name.as_str()).collect();
    assert_eq!(names, vec!["alpha", "beta", "midway", "zeta"]);
    // strictly ascending, since the names are distinct
    for w in names.windows(2) {
        assert!(w[0] < w[1]);
    }
}

#[test]
fn find_metadata_matches_by_name() {
    let items = vec![meta("a", "/a", "/ta"), meta("b", "/b", "/tb")];
    let found = find_metadata(&items, &"b".to_string()).unwrap();
    assert_eq!(found.index_path, "/b");
    assert!(find_metadata(&items, &"missing".to_string()).is_none());
}

#[test]
fn storage_paths_follow_the_layout() {
    let fs = FsStorage::new("/data/beetle".to_string());
    assert_eq!(fs.index_dir(), "/data/beetle");
    assert_eq!(fs.index_root_path(&"idx".to_string()), "/data/beetle/idx");
    assert_eq!(
        fs.meta_file_path(&"idx".to_string()),
        "/data/beetle/idx/meta.json"
    );
    assert_eq!(
        fs.inverted_index_path(&"idx".to_string()),
        "/data/beetle/idx/index"
    );
    assert_eq!(
        FsStorage::snapshot_file_path(&"/data/beetle/idx".to_string()),
        "/data/beetle/idx/file_index_snapshot.bin"
    );
}
