//! What an archive is, apart from how it is held in memory.

use crate::bytes::is_normalized;
use vstd::prelude::*;

verus! {

/// One file of an archive: its name, and its content as it is stored.
pub struct FileView {
    pub name: Seq<u8>,
    pub data: Seq<u8>,
}

/// An archive: its comment as it is stored, and its files in their order.
pub struct ArchiveView {
    pub comment: Seq<u8>,
    pub files: Seq<FileView>,
}

impl FileView {
    /// The content is empty or ends with a line feed.
    pub open spec fn wf(self) -> bool {
        is_normalized(self.data)
    }
}

impl ArchiveView {
    /// The comment and the content of every file are empty or end with a
    /// line feed.
    pub open spec fn wf(self) -> bool {
        &&& is_normalized(self.comment)
        &&& forall|i: int| 0 <= i < self.files.len() ==> (#[trigger] self.files[i]).wf()
    }
}

} // verus!
