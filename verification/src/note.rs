//! Notes: the leaves of the tree.

use crate::disk::Node;
use crate::layout::{has_reserved_name, is_reserved};
use crate::path::JotPath;
use vstd::prelude::*;

verus! {

/// Whether what was found at `location` is taken as a note: a regular file
/// that is recognised as a note and whose name is not reserved.
pub open spec fn note_path_is_valid(location: Seq<Seq<char>>, node: Node) -> bool {
    !is_reserved(location) && node.is_file && node.is_note
}

/// A note, known to the tree by where it lies.
#[derive(Debug)]
pub struct Note {
    location: JotPath,
}

impl View for Note {
    type V = Seq<Seq<char>>;

    closed spec fn view(&self) -> Seq<Seq<char>> {
        self.location@
    }
}

impl Note {
    /// Whether what was found at `location` is taken as a note.
    pub fn is_valid_path(location: &JotPath, node: &Node) -> (b: bool)
        ensures
            b == note_path_is_valid(location@, *node),
    {
        node.is_file && node.is_note && !has_reserved_name(location)
    }

    /// The note at `location`.
    pub fn load(location: JotPath) -> (r: Note)
        ensures
            r@ == location@,
    {
        Note { location }
    }

    /// Where the note lies.
    pub fn get_location(&self) -> (r: &JotPath)
        ensures
            r@ == self@,
    {
        &self.location
    }
}

impl Clone for Note {
    fn clone(&self) -> (r: Self)
        ensures
            r@ == self@,
    {
        Note { location: self.location.clone() }
    }
}

} // verus!
