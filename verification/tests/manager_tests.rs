use beetle::document::Document;
use beetle::index_manager::{IndexManager, IndexingOptions, IndexingStats, SearchOptions};

#[test]
fn default_options_honour_git_rules() {
    let o = IndexingOptions::new();
    assert!(o.respect_gitignore);
    assert!(!o.include_hidden);
    assert!(o.respect_git_global);
    assert!(o.respect_git_exclude);
}

#[test]
fn ignore_git_rules_walks_everything() {
    let o = IndexingOptions::ignore_git_rules();
    assert!(!o.respect_gitignore);
    assert!(o.include_hidden);
    assert!(!o.respect_git_global);
    assert!(!o.respect_git_exclude);
}

#[test]
fn search_defaults_to_ten_hits() {
    let o = SearchOptions::default();
    assert_eq!(o.limit, 10);
    assert_eq!(o.snippet_length, 100);
}

#[test]
fn manager_probes_the_expected_locations() {
    let m = IndexManager::new("/base".to_string());
    let c = m.candidate_index_paths(&"idx".to_string());
    assert_eq!(
        c,
        vec![
            "idx".to_string(),
            "/base/indexes/idx".to_string(),
            "/base/indices/idx".to_string(),
            "/base/idx".to_string(),
        ]
    );
}

#[test]
fn documents_keep_their_fields() {
    let d = Document::new("int main() {}".to_string(), "/src/main.c".to_string());
    assert_eq!(d.content, "int main() {}");
    assert_eq!(d.path, "/src/main.c");
    let s = IndexingStats::default();
    assert_eq!(s.file_count, 0);
    assert_eq!(s.total_size, 0);
}
