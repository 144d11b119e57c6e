//! The indexing pipeline run against a real in-memory tantivy index: the
//! library plans the work and cuts the snippets; tantivy stores and ranks.

use beetle::change::FileIndexMetadata;
use beetle::index_manager::SearchOptions;
use beetle::utils::extract_snippet;
use beetle::writer::plan_update;
use tantivy::collector::TopDocs;
use tantivy::query::QueryParser;
use tantivy::schema::{
    IndexRecordOption, Schema, TextFieldIndexing, TextOptions, Value, STORED, STRING,
};
use tantivy::{Index, TantivyDocument, Term};

fn rec(path: &str, size: u64, modified_time: u64) -> FileIndexMetadata {
    FileIndexMetadata {
        path: path.to_string(),
        size,
        modified_time,
    }
}

fn build_schema() -> Schema {
    let mut builder = Schema::builder();
    let content_options = TextOptions::default()
        .set_indexing_options(
            TextFieldIndexing::default()
                .set_tokenizer("default")
                .set_index_option(IndexRecordOption::WithFreqsAndPositions),
        )
        .set_stored();
    builder.add_text_field("path", content_options.clone());
    builder.add_text_field("path_raw", STRING);
    builder.add_text_field("content", content_options);
    builder.add_text_field("extension", STRING | STORED);
    builder.build()
}

struct Engine {
    index: Index,
    files: Vec<(String, String)>,
    snapshot: Vec<FileIndexMetadata>,
}

impl Engine {
    fn new() -> Engine {
        Engine {
            index: Index::create_in_ram(build_schema()),
            files: Vec::new(),
            snapshot: Vec::new(),
        }
    }

    fn content_of(&self, path: &str) -> Option<&str> {
        self.files
            .iter()
            .find(|(p, _)| p == path)
            .map(|(_, c)| c.as_str())
    }

    /// One writer run: diff the simulated tree against the snapshot, apply
    /// the plan, commit, and only then advance the snapshot.
    fn update(&mut self) {
        let schema = self.index.schema();
        let current: Vec<FileIndexMetadata> = self
            .files
            .iter()
            .enumerate()
            .map(|(i, (p, c))| rec(p, c.len() as u64, 1000 + i as u64))
            .collect();
        let plan = plan_update(&self.snapshot, &current);
        let mut writer = self.index.writer(50_000_000).unwrap();
        let path_raw = schema.get_field("path_raw").unwrap();
        let path_field = schema.get_field("path").unwrap();
        let content_field = schema.get_field("content").unwrap();
        let extension_field = schema.get_field("extension").unwrap();
        for path in &plan.deletes {
            writer.delete_term(Term::from_field_text(path_raw, path));
        }
        for record in &plan.upserts {
            let content = self.content_of(&record.path).unwrap();
            let mut doc = TantivyDocument::new();
            doc.add_text(path_field, &record.path);
            doc.add_text(path_raw, &record.path);
            doc.add_text(content_field, content);
            doc.add_text(extension_field, beetle::utils::extension_string(&record.path));
            writer.add_document(doc).unwrap();
        }
        writer.commit().unwrap();
        self.snapshot = current;
    }

    fn search(&self, query: &str) -> Vec<(String, String)> {
        let schema = self.index.schema();
        let path_field = schema.get_field("path").unwrap();
        let content_field = schema.get_field("content").unwrap();
        let reader = self.index.reader().unwrap();
        let searcher = reader.searcher();
        let parser = QueryParser::for_index(&self.index, vec![content_field]);
        let parsed = parser.parse_query(query).unwrap();
        let options = SearchOptions::default();
        let top_docs = searcher
            .search(&parsed, &TopDocs::with_limit(options.limit).order_by_score())
            .unwrap();
        top_docs
            .into_iter()
            .map(|(_score, address)| {
                let doc: TantivyDocument = searcher.doc(address).unwrap();
                let path = doc
                    .get_first(path_field)
                    .and_then(|v| v.as_str())
                    .unwrap()
                    .to_string();
                let content = doc.get_first(content_field).and_then(|v| v.as_str()).unwrap();
                let snippet = extract_snippet(content, query, options.snippet_length);
                (path, snippet)
            })
            .collect()
    }
}

#[test]
fn search_on_an_empty_index_finds_nothing() {
    let mut engine = Engine::new();
    engine.update();
    assert_eq!(engine.search("anything").len(), 0);
}

#[test]
fn single_file_phrase_search_hits_with_snippet() {
    let mut engine = Engine::new();
    engine
        .files
        .push(("/tmp/src/main.c".to_string(), "int main() { return 0; }".to_string()));
    engine.update();
    let hits = engine.search("\"int main\"");
    assert_eq!(hits.len(), 1);
    assert!(hits[0].0.ends_with("main.c"));
    assert!(hits[0].1.contains("int main"));
}

#[test]
fn incremental_add_keeps_earlier_documents() {
    let mut engine = Engine::new();
    engine
        .files
        .push(("/tmp/src/main.c".to_string(), "int main() { return 0; }".to_string()));
    engine.update();
    engine.files.push((
        "/tmp/src/add.h".to_string(),
        "int add(int a, int b) { return a + b; }".to_string(),
    ));
    engine.update();

    let hits = engine.search("\"a + b\"");
    assert_eq!(hits.len(), 1);
    assert!(hits[0].0.ends_with("add.h"));

    let hits = engine.search("\"int main\"");
    assert_eq!(hits.len(), 1);
    assert!(hits[0].0.ends_with("main.c"));
}

#[test]
fn incremental_delete_removes_exactly_that_document() {
    let mut engine = Engine::new();
    engine
        .files
        .push(("/tmp/src/main.c".to_string(), "int main() { return 0; }".to_string()));
    engine.files.push((
        "/tmp/src/add.h".to_string(),
        "int add(int a, int b) { return a + b; }".to_string(),
    ));
    engine.update();
    engine.files.retain(|(p, _)| !p.ends_with("main.c"));
    engine.update();

    assert_eq!(engine.search("main").len(), 0);
    assert_eq!(engine.search("add").len(), 1);
}

#[test]
fn modified_files_end_up_with_one_document() {
    let mut engine = Engine::new();
    engine
        .files
        .push(("/tmp/src/main.c".to_string(), "int main() { return 0; }".to_string()));
    engine.update();
    engine.files[0].1 = "int main() { return 42; }".to_string();
    engine.update();

    let hits = engine.search("main");
    assert_eq!(hits.len(), 1);
    assert!(hits[0].1.contains("42") || engine.search("42").len() == 1);
}
