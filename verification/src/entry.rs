//! What a directory listing says of one child.

use vstd::prelude::*;

verus! {

/// What kind of thing a child of a directory is.
#[derive(Clone, Copy, Debug, PartialEq, Eq, Structural)]
pub enum EntryKind {
    /// A regular file of `len` bytes.
    File { len: u64 },
    /// A directory, which is listed in turn.
    Directory,
    /// Anything else: it is shown, and neither opened nor measured.
    Other,
}

/// One child of a directory.
#[derive(Clone, Debug)]
pub struct Entry {
    /// The last component of the path, as it is shown.
    pub name: String,
    /// The full path: the bytes by which siblings are ordered, and which name
    /// the child when it is listed itself.
    pub path: Vec<u8>,
    pub kind: EntryKind,
}

/// An [`Entry`] as a mathematical value.
pub struct EntryView {
    pub name: Seq<char>,
    pub path: Seq<u8>,
    pub kind: EntryKind,
}

impl View for Entry {
    type V = EntryView;

    open spec fn view(&self) -> EntryView {
        EntryView { name: self.name@, path: self.path@, kind: self.kind }
    }
}

impl DeepView for Entry {
    type V = EntryView;

    open spec fn deep_view(&self) -> EntryView {
        self@
    }
}

/// What came of listing a directory: `None` where it cannot be listed, else
/// one item for each child, `None` for a child that could not be looked up.
pub type Listing = Option<Vec<Option<Entry>>>;

} // verus!
