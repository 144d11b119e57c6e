use beetle::utils::{clean_snippet, extract_snippet, format_size, is_text_file};

#[test]
fn lib_test_format_size() {
    assert_eq!(format_size(512), "512 B");
    assert_eq!(format_size(1024), "1.0 KB");
    assert_eq!(format_size(1536), "1.5 KB");
    assert_eq!(format_size(1048576), "1.0 MB");
    assert_eq!(format_size(1073741824), "1.0 GB");
}

#[test]
fn utils_test_format_size() {
    assert_eq!(format_size(512), "512 B");
    assert_eq!(format_size(1024), "1.0 KB");
    assert_eq!(format_size(1536), "1.5 KB");
    assert_eq!(format_size(1048576), "1.0 MB");
    assert_eq!(format_size(1073741824), "1.0 GB");
}

#[test]
fn test_is_text_file() {
    assert!(is_text_file("test.rs"));
    assert!(is_text_file("README.md"));
    assert!(is_text_file("file_without_extension"));
    assert!(!is_text_file("image.jpg"));
    assert!(!is_text_file("binary.exe"));
}

#[test]
fn index_manager_test_is_text_file() {
    assert!(is_text_file("test.rs"));
    assert!(is_text_file("README.md"));
    assert!(is_text_file("file_without_extension"));
    assert!(!is_text_file("image.jpg"));
    assert!(!is_text_file("binary.exe"));
}

#[test]
fn utils_test_is_text_file() {
    assert!(is_text_file("test.rs"));
    assert!(is_text_file("README.md"));
    assert!(is_text_file("file_without_extension"));
    assert!(!is_text_file("image.jpg"));
    assert!(!is_text_file("binary.exe"));
}

#[test]
fn is_text_file_handles_directories_and_case() {
    assert!(!is_text_file("/home/user/photos/IMAGE.JPG"));
    assert!(is_text_file("/home/user/src/main.c"));
    assert!(is_text_file(".gitignore"));
    assert!(!is_text_file("archive.tar"));
}

#[test]
fn lib_test_extract_snippet() {
    let text = "This is a long piece of text that contains the word function somewhere in the middle and we want to extract a snippet around it.";
    let query = "function";
    let snippet = extract_snippet(text, query, 100);

    assert!(
        snippet.contains("function"),
        "Snippet should contain the query word"
    );
    assert!(snippet.len() <= 110, "Snippet should be reasonably sized");
}

#[test]
fn test_extract_snippet_1() {
    let text = "This is a long piece of text that contains the word function somewhere in the middle and we want to extract a snippet around it.";
    let query = "function";
    let snippet = extract_snippet(text, query, 100);

    assert!(
        snippet.contains("function"),
        "Snippet should contain the query word"
    );
    assert!(snippet.len() <= 110, "Snippet should be reasonably sized");
}

#[test]
fn test_extract_snippet_2() {
    let text = "This is a long piece of text that contains the word function somewhere in the middle and we want to extract a snippet around it.";
    let query = "function";
    let snippet = extract_snippet(text, query, 50);

    assert!(snippet.contains("function"));
    assert!(snippet.starts_with("..."));
    assert!(snippet.ends_with("..."));
}

#[test]
fn utils_test_extract_snippet() {
    let text = "This is a long piece of text that contains the word function somewhere in the middle and we want to extract a snippet around it.";
    let query = "function";
    let snippet = extract_snippet(text, query, 50);

    assert!(snippet.contains("function"));
    assert!(snippet.starts_with("..."));
    assert!(snippet.ends_with("..."));
}

#[test]
fn search_test_clean_snippet() {
    let input = "This  has\t\ttabs\nand\n\nnewlines    and     spaces";
    let expected = "This has tabs and newlines and spaces";
    assert_eq!(clean_snippet(input), expected);
}

#[test]
fn utils_test_clean_snippet() {
    let input = "This  has\t\ttabs\nand\n\nnewlines    and     spaces";
    let expected = "This has tabs and newlines and spaces";
    assert_eq!(clean_snippet(input), expected);
}

#[test]
fn extract_snippet_without_match_truncates() {
    let text = "alpha beta gamma delta epsilon zeta eta theta iota kappa lambda";
    let snippet = extract_snippet(text, "missingword", 20);
    assert!(snippet.ends_with("..."));
    assert!(snippet.len() <= 23);
}

#[test]
fn extract_snippet_matches_without_regard_to_case() {
    let text = "The QuickBrown fox";
    let snippet = extract_snippet(text, "quickbrown", 40);
    assert!(snippet.contains("QuickBrown"));
}

#[test]
fn format_size_rounds_to_tenths() {
    assert_eq!(format_size(1023), "1023 B");
    assert_eq!(format_size(1126), "1.1 KB");
    assert_eq!(format_size(10 * 1024 * 1024), "10.0 MB");
}
