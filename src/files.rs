//! One bundled file: its path and its raw content.
use vstd::prelude::*;

verus! {

/// A file held in a bundle.
#[derive(Debug, Clone)]
pub struct FileContent {
    /// File path relative to the caller
    pub file_path: String,
    /// The unescaped content of the file
    pub content: Vec<u8>,
}

/// What a [`FileContent`] holds, as mathematical values.
pub struct FileRecord {
    pub path: Seq<char>,
    pub content: Seq<u8>,
}

impl View for FileContent {
    type V = FileRecord;

    open spec fn view(&self) -> FileRecord {
        FileRecord { path: self.file_path@, content: self.content@ }
    }
}

} // verus!
