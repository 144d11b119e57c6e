//! The representation of one file inside the inverted index.

use vstd::prelude::*;

verus! {

/// One file as the index stores it: the searchable content and the path
/// that identifies the document.
pub struct Document {
    pub content: String,
    pub path: String,
}

impl Document {
    /// A document over the given content and path.
    pub fn new(content: String, path: String) -> (r: Self)
        ensures
            r.content@ == content@,
            r.path@ == path@,
    {
        Document { content, path }
    }
}

} // verus!
