//! Positions in source text and the identity of source files.

use vstd::prelude::*;

verus! {

/// A half-open span of byte offsets into the text of one source file.
#[derive(Debug, Clone, Copy, PartialEq, Eq, Hash, Structural)]
pub struct TextRange {
    pub start: u32,
    pub end: u32,
}

impl TextRange {
    /// The span from `start` up to, not including, `end`.
    pub fn new(start: u32, end: u32) -> (r: TextRange)
        ensures
            r == (TextRange { start, end }),
    {
        TextRange { start, end }
    }

    /// The offset at which the span begins.
    pub fn start(&self) -> (r: u32)
        ensures
            r == self.start,
    {
        self.start
    }

    /// The offset just past the span.
    pub fn end(&self) -> (r: u32)
        ensures
            r == self.end,
    {
        self.end
    }
}

/// A source file of the project, named by its position in
/// [`Project::modules`](crate::project::Project).
#[derive(Debug, Clone, Copy, PartialEq, Eq, Hash, Structural)]
pub struct FileId {
    pub index: usize,
}

impl FileId {
    /// The file at position `index`.
    pub fn new(index: usize) -> (r: FileId)
        ensures
            r == (FileId { index }),
    {
        FileId { index }
    }
}

} // verus!
