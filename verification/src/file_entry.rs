//! A single ingested document: its id, title, content and display path.

use vstd::prelude::*;
use crate::file_logic::{get_file_title, stem_of};

verus! {

/// One document of the store. The title is the filename stem of the
/// source path, the content is the file's text, and the path is kept
/// for display only.
pub struct FileEntry {
    pub id: usize,
    pub title: String,
    pub content: String,
    pub path: String,
}

/// The text stream a document is indexed and scored by: its title and
/// content joined with a single space.
pub open spec fn combined(f: FileEntry) -> Seq<char> {
    f.title@ + seq![' '] + f.content@
}

impl FileEntry {
    /// Builds a document record: the title is computed as the filename
    /// stem of `path`, the content is taken as given.
    pub fn new(id: usize, path: String, content: String) -> (r: FileEntry)
        ensures
            r.id == id,
            r.title@ == stem_of(path@),
            r.content == content,
            r.path == path,
    {
        let title = get_file_title(path.as_str());
        FileEntry { id, title, content, path }
    }

    /// The title and content joined with a single space.
    pub fn combined_text(&self) -> (r: String)
        ensures
            r@ == combined(*self),
    {
        let mut s = self.title.clone();
        s.append(" ");
        s.append(self.content.as_str());
        proof {
            reveal_strlit(" ");
            assert(" "@ =~= seq![' ']);
            assert((self.title@ + " "@) + self.content@ =~= combined(*self));
        }
        s
    }
}

} // verus!
