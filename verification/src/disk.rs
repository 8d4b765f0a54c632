//! What a directory tree on disk was found to hold, as plain values. The
//! library never touches the disk: its caller reads the tree and hands it in.

use vstd::prelude::*;

verus! {

/// What was found at one path.
#[derive(Debug)]
pub struct Node {
    /// Whether a regular file is there.
    pub is_file: bool,
    /// Whether it is recognised as a note.
    pub is_note: bool,
    /// The entries found when the path was read as a directory, or the
    /// message of the failure to read it.
    pub listing: Result<Vec<Entry>, String>,
}

/// One entry of a directory: its name and what was found there.
#[derive(Debug)]
pub struct Entry {
    pub name: String,
    pub node: Node,
}

impl Node {
    /// A regular file; reading it as a directory failed with `message`.
    pub fn file(is_note: bool, message: String) -> (r: Node)
        ensures
            r.is_file,
            r.is_note == is_note,
            r.listing == Err::<Vec<Entry>, String>(message),
    {
        Node { is_file: true, is_note, listing: Err(message) }
    }

    /// A directory with the given entries.
    pub fn directory(entries: Vec<Entry>) -> (r: Node)
        ensures
            !r.is_file,
            !r.is_note,
            r.listing == Ok::<Vec<Entry>, String>(entries),
    {
        Node { is_file: false, is_note: false, listing: Ok(entries) }
    }

    /// Neither a regular file nor a directory that could be read; `message`
    /// is that of the failure.
    pub fn unreadable(message: String) -> (r: Node)
        ensures
            !r.is_file,
            !r.is_note,
            r.listing == Err::<Vec<Entry>, String>(message),
    {
        Node { is_file: false, is_note: false, listing: Err(message) }
    }
}

impl Entry {
    /// The entry of the given name.
    pub fn new(name: String, node: Node) -> (r: Entry)
        ensures
            r.name == name,
            r.node == node,
    {
        Entry { name, node }
    }
}

} // verus!
