//! Configuration and bookkeeping types for the indexing pipeline.

use vstd::prelude::*;

verus! {

/// Options controlling which files a repository walk includes, mirroring the
/// usual git ignore machinery: `.gitignore` files, the global git ignore
/// file, and `.git/info/exclude`, plus a filter for hidden entries.
#[derive(Debug, Clone)]
pub struct IndexingOptions {
    /// Whether `.gitignore` files are honoured during the walk.
    pub respect_gitignore: bool,
    /// Whether entries whose name starts with `.` are included.
    pub include_hidden: bool,
    /// Whether the global git ignore file is honoured.
    pub respect_git_global: bool,
    /// Whether `.git/info/exclude` is honoured.
    pub respect_git_exclude: bool,
}

impl IndexingOptions {
    /// The default policy: honour every ignore rule and skip hidden entries.
    pub fn new() -> (r: Self)
        ensures
            r.respect_gitignore,
            !r.include_hidden,
            r.respect_git_global,
            r.respect_git_exclude,
    {
        IndexingOptions {
            respect_gitignore: true,
            include_hidden: false,
            respect_git_global: true,
            respect_git_exclude: true,
        }
    }

    /// A policy that walks everything: no ignore rule applies and hidden
    /// entries are included.
    pub fn ignore_git_rules() -> (r: Self)
        ensures
            !r.respect_gitignore,
            r.include_hidden,
            !r.respect_git_global,
            !r.respect_git_exclude,
    {
        IndexingOptions {
            respect_gitignore: false,
            include_hidden: true,
            respect_git_global: false,
            respect_git_exclude: false,
        }
    }
}

impl Default for IndexingOptions {
    /// Same policy as [`IndexingOptions::new`].
    fn default() -> (r: Self)
        ensures
            r.respect_gitignore,
            !r.include_hidden,
            r.respect_git_global,
            r.respect_git_exclude,
    {
        IndexingOptions::new()
    }
}


/// Running totals of one indexing run.
#[derive(Debug, Clone)]
pub struct IndexingStats {
    /// How many files were indexed.
    pub file_count: u32,
    /// The total size, in bytes, of the indexed content.
    pub total_size: u64,
    /// The name of the index written to.
    pub index_name: String,
    /// The directory of that index.
    pub index_path: String,
    /// The directory that was indexed.
    pub repo_path: String,
}

impl Default for IndexingStats {
    /// Empty totals with empty names.
    fn default() -> (r: Self)
        ensures
            r.file_count == 0,
            r.total_size == 0,
            r.index_name@.len() == 0,
            r.index_path@.len() == 0,
            r.repo_path@.len() == 0,
    {
        IndexingStats {
            file_count: 0,
            total_size: 0,
            index_name: String::new(),
            index_path: String::new(),
            repo_path: String::new(),
        }
    }
}

/// Size and population of one index directory.
#[derive(Debug, Clone)]
pub struct IndexMetadata {
    /// How many documents the index holds.
    pub doc_count: u64,
    /// How many bytes its files take.
    pub size_bytes: u64,
}

/// How a search runs: how many hits to return and how wide a snippet to cut.
#[derive(Debug, Clone)]
pub struct SearchOptions {
    pub limit: usize,
    pub snippet_length: usize,
}

impl Default for SearchOptions {
    /// Ten hits with snippets of about a hundred characters.
    fn default() -> (r: Self)
        ensures
            r.limit == 10,
            r.snippet_length == 100,
    {
        SearchOptions { limit: 10, snippet_length: 100 }
    }
}

/// One entry of an index listing: the name, where the index lives, and its
/// measured size and population.
#[derive(Debug, Clone)]
pub struct IndexInfo {
    pub name: String,
    pub path: String,
    pub metadata: IndexMetadata,
}

/// Names and locates indexes under one base directory.
pub struct IndexManager {
    /// The directory the manager looks for indexes in.
    pub index_path: String,
}

impl IndexManager {
    /// A manager over the given base directory.
    pub fn new(index_path: String) -> (r: Self)
        ensures
            r.index_path@ == index_path@,
    {
        IndexManager { index_path }
    }

    /// The places an index of the given name may live, in the order they
    /// are probed: the bare name, then `indexes/`, `indices/`, and the base
    /// directory itself.
    pub fn candidate_index_paths(&self, index_name: &String) -> (r: Vec<String>)
        ensures
            r@.len() == 4,
            r@[0]@ == index_name@,
            r@[1]@ == self.index_path@ + "/indexes/"@ + index_name@,
            r@[2]@ == self.index_path@ + "/indices/"@ + index_name@,
            r@[3]@ == self.index_path@ + "/"@ + index_name@,
    {
        let mut r: Vec<String> = Vec::new();
        r.push(index_name.clone());
        r.push(self.index_path.clone().concat("/indexes/").concat(index_name.as_str()));
        r.push(self.index_path.clone().concat("/indices/").concat(index_name.as_str()));
        r.push(self.index_path.clone().concat("/").concat(index_name.as_str()));
        r
    }
}

impl Default for IndexManager {
    /// A manager over the current directory.
    fn default() -> (r: Self)
        ensures
            r.index_path@ == "."@,
    {
        IndexManager { index_path: String::from_str(".") }
    }
}

} // verus!
