use beetle::tokenizer::CodeTokenizer;

#[test]
fn splits_uppercase_runs_before_a_lowercase_tail() {
    assert_eq!(CodeTokenizer::tokenize("HTTPServer"), vec!["http", "server"]);
}

#[test]
fn splits_case_and_digit_transitions() {
    assert_eq!(
        CodeTokenizer::tokenize("parseUTF8String"),
        vec!["parse", "utf", "8", "string"]
    );
}

#[test]
fn splits_snake_case_and_numbers() {
    assert_eq!(CodeTokenizer::tokenize("my_var_42"), vec!["my", "var", "42"]);
}

#[test]
fn splits_camel_case() {
    assert_eq!(CodeTokenizer::tokenize("camelCase"), vec!["camel", "case"]);
}

#[test]
fn separators_produce_no_empty_tokens() {
    assert_eq!(
        CodeTokenizer::tokenize("  foo--bar() ;; baz_qux  "),
        vec!["foo", "bar", "baz", "qux"]
    );
    assert_eq!(CodeTokenizer::tokenize(""), Vec::<String>::new());
    assert_eq!(CodeTokenizer::tokenize("---"), Vec::<String>::new());
}

#[test]
fn tokens_come_out_lowercased() {
    assert_eq!(
        CodeTokenizer::tokenize("SCREAMING_SNAKE"),
        vec!["screaming", "snake"]
    );
    assert_eq!(
        CodeTokenizer::tokenize("int main() { return 0; }"),
        vec!["int", "main", "return", "0"]
    );
}
