//! Folders: the inner nodes of the tree, and how a tree is built from what
//! was found on disk.

use crate::disk::{Entry, Node};
use crate::error::{Error, ErrorView};
use crate::layout::{has_reserved_name, is_reserved, reserved_name};
use crate::note::{note_path_is_valid, Note};
use crate::path::{
    file_name_of, is_name, is_single_name, lemma_resolve_name, lies_directly_below, moved,
    parent_of, resolve, JotPath,
};
use vstd::prelude::*;
use vstd::string::*;

verus! {

/// Whether a folder may lie at `location`: its name is not reserved and no
/// regular file is there.
pub open spec fn folder_path_is_valid(location: Seq<Seq<char>>, is_file: bool) -> bool {
    !is_reserved(location) && !is_file
}

/// A folder as a mathematical tree.
pub struct FolderView {
    pub location: Seq<Seq<char>>,
    pub folders: Seq<FolderView>,
    pub notes: Seq<Seq<Seq<char>>>,
}

/// The folders and notes directly inside a directory.
pub struct Contents {
    pub folders: Seq<FolderView>,
    pub notes: Seq<Seq<Seq<char>>>,
}

impl FolderView {
    /// What lies directly inside the folder.
    pub open spec fn contents(self) -> Contents {
        Contents { folders: self.folders, notes: self.notes }
    }

    /// The tree is consistent: neither the folder nor anything in it, at any
    /// depth, lies at a reserved name, and every folder and note lies
    /// directly below the folder that holds it.
    pub open spec fn well_formed(self) -> bool
        decreases self,
    {
        &&& !is_reserved(self.location)
        &&& forall|i: int|
            0 <= i < self.folders.len() ==> (#[trigger] self.folders[i]).well_formed()
                && lies_directly_below(self.folders[i].location, self.location)
        &&& forall|j: int|
            0 <= j < self.notes.len() ==> !is_reserved(#[trigger] self.notes[j])
                && lies_directly_below(self.notes[j], self.location)
    }
}

impl Contents {
    /// Nothing at all.
    pub open spec fn none() -> Contents {
        Contents { folders: Seq::empty(), notes: Seq::empty() }
    }

    /// These are consistent contents of the directory at `parent`: every
    /// folder is a consistent tree, nothing lies at a reserved name, and
    /// every folder and note lies directly below `parent`.
    pub open spec fn well_formed(self, parent: Seq<Seq<char>>) -> bool {
        &&& forall|i: int|
            0 <= i < self.folders.len() ==> (#[trigger] self.folders[i]).well_formed()
                && lies_directly_below(self.folders[i].location, parent)
        &&& forall|j: int|
            0 <= j < self.notes.len() ==> !is_reserved(#[trigger] self.notes[j])
                && lies_directly_below(self.notes[j], parent)
    }

    /// The contents after the directory that the first `depth` components
    /// of their paths lead to has been moved to `to`.
    pub open spec fn relocated(self, depth: nat, to: Seq<Seq<char>>) -> Contents {
        Contents {
            folders: relocated_trees(self.folders, depth, to),
            notes: relocated_paths(self.notes, depth, to),
        }
    }

    /// These followed by `other`.
    pub open spec fn joined(self, other: Contents) -> Contents {
        Contents { folders: self.folders + other.folders, notes: self.notes + other.notes }
    }
}

/// The tree after the directory that the first `depth` components of its
/// paths lead to has been moved to `to`: every location in it, of folders
/// and of notes at every depth, lies at the same place below `to` that it
/// had below that directory.
pub open spec fn relocated_tree(tree: FolderView, depth: nat, to: Seq<Seq<char>>) -> FolderView
    decreases tree,
{
    FolderView {
        location: moved(tree.location, depth, to),
        folders: Seq::new(
            tree.folders.len(),
            |i: int|
                if 0 <= i < tree.folders.len() {
                    relocated_tree(tree.folders[i], depth, to)
                } else {
                    arbitrary()
                },
        ),
        notes: relocated_paths(tree.notes, depth, to),
    }
}

/// Each of the trees relocated as `relocated_tree` says.
pub open spec fn relocated_trees(trees: Seq<FolderView>, depth: nat, to: Seq<Seq<char>>) -> Seq<
    FolderView,
> {
    Seq::new(trees.len(), |i: int| relocated_tree(trees[i], depth, to))
}

/// Each of the paths moved as `moved` says.
pub open spec fn relocated_paths(paths: Seq<Seq<Seq<char>>>, depth: nat, to: Seq<Seq<char>>) -> Seq<
    Seq<Seq<char>>,
> {
    Seq::new(paths.len(), |j: int| moved(paths[j], depth, to))
}

/// Where everything lies in a relocated tree: the folder itself, each
/// folder directly inside it with all below it, and each note directly
/// inside it.
pub proof fn lemma_relocated_tree_unfolds(tree: FolderView, depth: nat, to: Seq<Seq<char>>)
    ensures
        relocated_tree(tree, depth, to).location == moved(tree.location, depth, to),
        relocated_tree(tree, depth, to).folders == relocated_trees(tree.folders, depth, to),
        relocated_tree(tree, depth, to).notes == relocated_paths(tree.notes, depth, to),
        forall|i: int|
            0 <= i < tree.folders.len() ==> (#[trigger] relocated_tree(
                tree,
                depth,
                to,
            ).folders[i]).location == moved(tree.folders[i].location, depth, to),
{
    assert(relocated_tree(tree, depth, to).folders =~= relocated_trees(tree.folders, depth, to));
    assert forall|i: int| 0 <= i < tree.folders.len() implies (#[trigger] relocated_tree(
        tree,
        depth,
        to,
    ).folders[i]).location == moved(tree.folders[i].location, depth, to) by {
        assert(relocated_tree(tree, depth, to).folders[i] == relocated_tree(
            tree.folders[i],
            depth,
            to,
        ));
    }
}

/// A path that lies below the directory that was moved keeps its name.
pub proof fn lemma_moved_keeps_name(path: Seq<Seq<char>>, depth: nat, to: Seq<Seq<char>>)
    requires
        depth < path.len(),
    ensures
        file_name_of(moved(path, depth, to)) == file_name_of(path),
{
}

/// The directory that was moved lies at its new place, and what lay
/// directly below it lies directly below that place under the same name.
pub proof fn lemma_moved_directory_and_child(
    child: Seq<Seq<char>>,
    parent: Seq<Seq<char>>,
    to: Seq<Seq<char>>,
)
    requires
        lies_directly_below(child, parent),
    ensures
        moved(parent, parent.len(), to) == to,
        moved(child, parent.len(), to) == to.push(child.last()),
{
    assert(moved(parent, parent.len(), to) =~= to);
    assert(moved(child, parent.len(), to) =~= to.push(child.last()));
}

/// What lay directly below a path lies directly below it after the move.
pub proof fn lemma_moved_keeps_nesting(
    child: Seq<Seq<char>>,
    parent: Seq<Seq<char>>,
    depth: nat,
    to: Seq<Seq<char>>,
)
    requires
        lies_directly_below(child, parent),
        depth <= parent.len(),
    ensures
        lies_directly_below(moved(child, depth, to), moved(parent, depth, to)),
{
    assert(moved(child, depth, to).drop_last() =~= moved(parent, depth, to));
}

/// A consistent tree stays consistent when it is moved to a place whose
/// name is not reserved.
pub proof fn lemma_relocated_tree_well_formed(tree: FolderView, depth: nat, to: Seq<Seq<char>>)
    requires
        tree.well_formed(),
        depth <= tree.location.len(),
        !is_reserved(moved(tree.location, depth, to)),
    ensures
        relocated_tree(tree, depth, to).well_formed(),
    decreases tree,
{
    let after = relocated_tree(tree, depth, to);
    assert forall|i: int| 0 <= i < after.folders.len() implies (#[trigger] after.folders[i]).well_formed()
        && lies_directly_below(after.folders[i].location, after.location) by {
        let child = tree.folders[i];
        assert(child.well_formed() && lies_directly_below(child.location, tree.location));
        lemma_moved_keeps_name(child.location, depth, to);
        lemma_moved_keeps_nesting(child.location, tree.location, depth, to);
        lemma_relocated_tree_well_formed(child, depth, to);
    }
    assert forall|j: int| 0 <= j < after.notes.len() implies !is_reserved(#[trigger] after.notes[j])
        && lies_directly_below(after.notes[j], after.location) by {
        let note = tree.notes[j];
        assert(!is_reserved(note) && lies_directly_below(note, tree.location));
        lemma_moved_keeps_name(note, depth, to);
        lemma_moved_keeps_nesting(note, tree.location, depth, to);
    }
}

/// Consistent contents of a directory stay consistent when the directory,
/// or one above it, is moved.
pub proof fn lemma_relocated_contents_well_formed(
    inside: Contents,
    parent: Seq<Seq<char>>,
    depth: nat,
    to: Seq<Seq<char>>,
)
    requires
        inside.well_formed(parent),
        depth <= parent.len(),
    ensures
        inside.relocated(depth, to).well_formed(moved(parent, depth, to)),
{
    let after = inside.relocated(depth, to);
    let above = moved(parent, depth, to);
    assert forall|i: int| 0 <= i < after.folders.len() implies (#[trigger] after.folders[i]).well_formed()
        && lies_directly_below(after.folders[i].location, above) by {
        let child = inside.folders[i];
        assert(child.well_formed() && lies_directly_below(child.location, parent));
        lemma_moved_keeps_name(child.location, depth, to);
        lemma_moved_keeps_nesting(child.location, parent, depth, to);
        lemma_relocated_tree_well_formed(child, depth, to);
    }
    assert forall|j: int| 0 <= j < after.notes.len() implies !is_reserved(#[trigger] after.notes[j])
        && lies_directly_below(after.notes[j], above) by {
        let note = inside.notes[j];
        assert(!is_reserved(note) && lies_directly_below(note, parent));
        lemma_moved_keeps_name(note, depth, to);
        lemma_moved_keeps_nesting(note, parent, depth, to);
    }
}

/// Two consistent contents of one directory are consistent contents of it
/// when put together.
pub proof fn lemma_joined_contents_well_formed(first: Contents, second: Contents, parent: Seq<Seq<char>>)
    requires
        first.well_formed(parent),
        second.well_formed(parent),
    ensures
        first.joined(second).well_formed(parent),
{
    let folders = first.folders + second.folders;
    let notes = first.notes + second.notes;
    assert forall|i: int| 0 <= i < folders.len() implies (#[trigger] folders[i]).well_formed()
        && lies_directly_below(folders[i].location, parent) by {
        if i < first.folders.len() {
            assert(folders[i] == first.folders[i]);
        } else {
            assert(folders[i] == second.folders[i - first.folders.len()]);
        }
    }
    assert forall|j: int| 0 <= j < notes.len() implies !is_reserved(#[trigger] notes[j])
        && lies_directly_below(notes[j], parent) by {
        if j < first.notes.len() {
            assert(notes[j] == first.notes[j]);
        } else {
            assert(notes[j] == second.notes[j - first.notes.len()]);
        }
    }
}

/// Where an item at `location` lies after it is given the name `new_name`:
/// the name is walked from the parent of `location`.
pub open spec fn renamed(location: Seq<Seq<char>>, new_name: Seq<char>) -> Seq<Seq<char>> {
    resolve(parent_of(location), new_name)
}

/// An item that is given a single name stays directly below the parent it
/// had, under that name.
pub proof fn lemma_renamed_is_a_sibling(location: Seq<Seq<char>>, new_name: Seq<char>)
    requires
        is_name(new_name),
    ensures
        renamed(location, new_name) == parent_of(location).push(new_name),
        lies_directly_below(renamed(location, new_name), parent_of(location)),
        file_name_of(renamed(location, new_name)) == new_name,
{
    lemma_resolve_name(parent_of(location), new_name);
    assert(parent_of(location).push(new_name).drop_last() =~= parent_of(location));
}

/// What the first `upto` entries of the directory at `location` load into,
/// taken in order. An entry whose name is not a single name is passed over.
/// Of the others, one that may be a folder is loaded with all below it, else
/// one that is a note is taken as a note, else it is passed over. Each lies
/// directly below `location` under its name. The first directory that could
/// not be read ends the load with the message of that failure.
pub open spec fn loaded_entries(location: Seq<Seq<char>>, entries: Seq<Entry>, upto: nat) -> Result<
    Contents,
    Seq<char>,
>
    decreases entries, upto,
{
    if upto == 0 || upto > entries.len() {
        Ok(Contents::none())
    } else {
        match loaded_entries(location, entries, (upto - 1) as nat) {
            Err(message) => Err(message),
            Ok(before) => {
                let entry = entries[upto - 1];
                let at = location.push(entry.name@);
                if !is_name(entry.name@) {
                    Ok(before)
                } else if folder_path_is_valid(at, entry.node.is_file) {
                    match entry.node.listing {
                        Err(message) => Err(message@),
                        Ok(inner) => match loaded_entries(at, inner@, inner@.len()) {
                            Err(message) => Err(message),
                            Ok(below) => Ok(
                                Contents {
                                    folders: before.folders.push(
                                        FolderView {
                                            location: at,
                                            folders: below.folders,
                                            notes: below.notes,
                                        },
                                    ),
                                    notes: before.notes,
                                },
                            ),
                        },
                    }
                } else if note_path_is_valid(at, entry.node) {
                    Ok(Contents { folders: before.folders, notes: before.notes.push(at) })
                } else {
                    Ok(before)
                }
            },
        }
    }
}

/// What the directory at `location` loads into, given what was found there.
pub open spec fn loaded_contents(location: Seq<Seq<char>>, node: Node) -> Result<
    Contents,
    Seq<char>,
> {
    match node.listing {
        Err(message) => Err(message@),
        Ok(entries) => loaded_entries(location, entries@, entries@.len()),
    }
}

/// The folder that `location` loads into, given what was found there.
pub open spec fn loaded_folder(location: Seq<Seq<char>>, node: Node) -> Result<
    FolderView,
    ErrorView,
> {
    if !folder_path_is_valid(location, node.is_file) {
        Err(ErrorView::InvalidPath)
    } else {
        match loaded_contents(location, node) {
            Err(message) => Err(ErrorView::IOFailure(message)),
            Ok(inside) => Ok(
                FolderView { location, folders: inside.folders, notes: inside.notes },
            ),
        }
    }
}

/// Whatever loads is consistent: nothing in it lies at a reserved name, and
/// everything lies directly below what holds it.
pub proof fn lemma_loaded_entries_well_formed(location: Seq<Seq<char>>, entries: Seq<Entry>, upto: nat)
    ensures
        loaded_entries(location, entries, upto) matches Ok(inside) ==> inside.well_formed(location),
    decreases entries, upto,
{
    if upto == 0 || upto > entries.len() {
    } else {
        lemma_loaded_entries_well_formed(location, entries, (upto - 1) as nat);
        match loaded_entries(location, entries, (upto - 1) as nat) {
            Err(_) => {},
            Ok(before) => {
                let entry = entries[upto - 1];
                let at = location.push(entry.name@);
                assert(at.drop_last() =~= location);
                if is_name(entry.name@) && folder_path_is_valid(at, entry.node.is_file) {
                    match entry.node.listing {
                        Err(_) => {},
                        Ok(inner) => {
                            lemma_loaded_entries_well_formed(at, inner@, inner@.len());
                        },
                    }
                }
            },
        }
    }
}

/// Whatever a directory loads into is consistent.
pub proof fn lemma_loaded_contents_well_formed(location: Seq<Seq<char>>, node: Node)
    ensures
        loaded_contents(location, node) matches Ok(inside) ==> inside.well_formed(location),
{
    match node.listing {
        Err(_) => {},
        Ok(entries) => {
            lemma_loaded_entries_well_formed(location, entries@, entries@.len());
        },
    }
}

/// Once the load of a directory has failed, taking more of its entries
/// changes nothing.
pub proof fn lemma_failure_persists(location: Seq<Seq<char>>, entries: Seq<Entry>, failed: nat, upto: nat)
    requires
        failed <= upto <= entries.len(),
        loaded_entries(location, entries, failed) is Err,
    ensures
        loaded_entries(location, entries, upto) == loaded_entries(location, entries, failed),
    decreases upto,
{
    if failed < upto {
        lemma_failure_persists(location, entries, failed, (upto - 1) as nat);
    }
}

/// How many folders the first `upto` of the given trees hold in all: each of
/// them and every folder below it.
pub open spec fn folders_within(folders: Seq<FolderView>, upto: nat) -> nat
    decreases folders, upto,
{
    if upto == 0 || upto > folders.len() {
        0
    } else {
        let last = folders[upto - 1];
        folders_within(folders, (upto - 1) as nat) + 1 + folders_within(
            last.folders,
            last.folders.len(),
        )
    }
}

/// How many notes the first `upto` of the given trees hold in all, at any
/// depth.
pub open spec fn notes_within(folders: Seq<FolderView>, upto: nat) -> nat
    decreases folders, upto,
{
    if upto == 0 || upto > folders.len() {
        0
    } else {
        let last = folders[upto - 1];
        notes_within(folders, (upto - 1) as nat) + last.notes.len() + notes_within(
            last.folders,
            last.folders.len(),
        )
    }
}

impl Contents {
    /// How many folders lie in it, at any depth.
    pub open spec fn total_folders(self) -> nat {
        folders_within(self.folders, self.folders.len())
    }

    /// How many notes lie in it, at any depth.
    pub open spec fn total_notes(self) -> nat {
        self.notes.len() + notes_within(self.folders, self.folders.len())
    }
}

/// Whether the first `upto` entries of a listing are plain: each either
/// goes by the reserved name, or goes by a single name and is a regular
/// file recognised as a note or a directory that could be read and whose
/// own listing is plain. Nothing is asked of what lies below an entry of
/// the reserved name.
pub open spec fn is_plain(entries: Seq<Entry>, upto: nat) -> bool
    decreases entries, upto,
{
    if upto == 0 || upto > entries.len() {
        true
    } else {
        let entry = entries[upto - 1];
        &&& is_plain(entries, (upto - 1) as nat)
        &&& entry.name@ == reserved_name() || {
            &&& is_name(entry.name@)
            &&& if entry.node.is_file {
                entry.node.is_note
            } else {
                match entry.node.listing {
                    Ok(inner) => is_plain(inner@, inner@.len()),
                    Err(_) => false,
                }
            }
        }
    }
}

/// The image of the first `upto` entries of a listing of the directory at
/// `location`: entries of the reserved name are passed over with all below
/// them, every other directory is a folder at its own path, directly below
/// `location` under its name, with the image of its own listing inside; and
/// every other file is a note at its own path.
pub open spec fn mirrored(location: Seq<Seq<char>>, entries: Seq<Entry>, upto: nat) -> Contents
    decreases entries, upto,
{
    if upto == 0 || upto > entries.len() {
        Contents::none()
    } else {
        let before = mirrored(location, entries, (upto - 1) as nat);
        let entry = entries[upto - 1];
        let at = location.push(entry.name@);
        if entry.name@ == reserved_name() {
            before
        } else if entry.node.is_file {
            Contents { folders: before.folders, notes: before.notes.push(at) }
        } else {
            let below = match entry.node.listing {
                Ok(inner) => mirrored(at, inner@, inner@.len()),
                Err(_) => Contents::none(),
            };
            Contents {
                folders: before.folders.push(
                    FolderView { location: at, folders: below.folders, notes: below.notes },
                ),
                notes: before.notes,
            }
        }
    }
}

/// How many directories the first `upto` entries of a listing hold, at any
/// depth, outside entries of the reserved name.
pub open spec fn directories_in(entries: Seq<Entry>, upto: nat) -> nat
    decreases entries, upto,
{
    if upto == 0 || upto > entries.len() {
        0
    } else {
        let entry = entries[upto - 1];
        directories_in(entries, (upto - 1) as nat) + if entry.name@ == reserved_name()
            || entry.node.is_file {
            0
        } else {
            1 + match entry.node.listing {
                Ok(inner) => directories_in(inner@, inner@.len()),
                Err(_) => 0,
            }
        }
    }
}

/// How many regular files the first `upto` entries of a listing hold, at any
/// depth, outside entries of the reserved name.
pub open spec fn files_in(entries: Seq<Entry>, upto: nat) -> nat
    decreases entries, upto,
{
    if upto == 0 || upto > entries.len() {
        0
    } else {
        let entry = entries[upto - 1];
        files_in(entries, (upto - 1) as nat) + if entry.name@ == reserved_name() {
            0
        } else if entry.node.is_file {
            1
        } else {
            match entry.node.listing {
                Ok(inner) => files_in(inner@, inner@.len()),
                Err(_) => 0,
            }
        }
    }
}

/// What the first trees of a sequence hold does not depend on a tree that
/// comes after them.
proof fn lemma_counts_ignore_what_follows(folders: Seq<FolderView>, next: FolderView, upto: nat)
    requires
        upto <= folders.len(),
    ensures
        folders_within(folders.push(next), upto) == folders_within(folders, upto),
        notes_within(folders.push(next), upto) == notes_within(folders, upto),
    decreases upto,
{
    if upto > 0 {
        lemma_counts_ignore_what_follows(folders, next, (upto - 1) as nat);
        assert(folders.push(next)[upto - 1] == folders[upto - 1]);
    }
}

/// A plain listing loads into its image: the load succeeds, every directory
/// outside the reserved ones is a folder at its own path, every file
/// outside them is a note at its own path, in the order of the listing and
/// at every depth.
pub proof fn lemma_plain_listing_loads_whole(location: Seq<Seq<char>>, entries: Seq<Entry>, upto: nat)
    requires
        upto <= entries.len(),
        is_plain(entries, upto),
    ensures
        loaded_entries(location, entries, upto) == Ok::<Contents, Seq<char>>(
            mirrored(location, entries, upto),
        ),
    decreases entries, upto,
{
    if upto > 0 {
        lemma_plain_listing_loads_whole(location, entries, (upto - 1) as nat);
        let entry = entries[upto - 1];
        let at = location.push(entry.name@);
        if entry.name@ == reserved_name() {
            assert(is_name(entry.name@));
            assert(is_reserved(at));
        } else {
            assert(!is_reserved(at));
            if !entry.node.is_file {
                match entry.node.listing {
                    Err(_) => {},
                    Ok(inner) => {
                        lemma_plain_listing_loads_whole(at, inner@, inner@.len());
                    },
                }
            }
        }
    }
}

/// The image of a listing holds as many folders as the listing holds
/// directories, and as many notes as it holds files, entries of the
/// reserved name left out on both sides.
pub proof fn lemma_mirrored_counts(location: Seq<Seq<char>>, entries: Seq<Entry>, upto: nat)
    requires
        upto <= entries.len(),
    ensures
        mirrored(location, entries, upto).total_folders() == directories_in(entries, upto),
        mirrored(location, entries, upto).total_notes() == files_in(entries, upto),
    decreases entries, upto,
{
    if upto > 0 {
        lemma_mirrored_counts(location, entries, (upto - 1) as nat);
        let before = mirrored(location, entries, (upto - 1) as nat);
        let after = mirrored(location, entries, upto);
        let entry = entries[upto - 1];
        let at = location.push(entry.name@);
        if entry.name@ == reserved_name() {
            assert(after == before);
        } else if entry.node.is_file {
            assert(after.folders == before.folders);
            assert(after.notes == before.notes.push(at));
        } else {
            let below = match entry.node.listing {
                Ok(inner) => mirrored(at, inner@, inner@.len()),
                Err(_) => Contents::none(),
            };
            match entry.node.listing {
                Ok(inner) => {
                    lemma_mirrored_counts(at, inner@, inner@.len());
                },
                Err(_) => {},
            }
            let made = FolderView { location: at, folders: below.folders, notes: below.notes };
            lemma_counts_ignore_what_follows(before.folders, made, before.folders.len());
            assert(after.folders == before.folders.push(made));
            assert(after.folders[before.folders.len() as int] == made);
            assert(folders_within(after.folders, after.folders.len()) == folders_within(
                after.folders,
                before.folders.len(),
            ) + 1 + folders_within(made.folders, made.folders.len()));
            assert(notes_within(after.folders, after.folders.len()) == notes_within(
                after.folders,
                before.folders.len(),
            ) + made.notes.len() + notes_within(made.folders, made.folders.len()));
        }
    }
}

/// A directory whose listing is plain loads into the image of that listing,
/// which holds as many folders and notes as the listing holds directories
/// and files outside the reserved ones.
pub proof fn lemma_plain_directory_loads_whole(location: Seq<Seq<char>>, node: Node)
    requires
        node.listing matches Ok(entries) && is_plain(entries@, entries@.len()),
    ensures
        node.listing matches Ok(entries) && loaded_contents(location, node) == Ok::<
            Contents,
            Seq<char>,
        >(mirrored(location, entries@, entries@.len())) && mirrored(
            location,
            entries@,
            entries@.len(),
        ).total_folders() == directories_in(entries@, entries@.len()) && mirrored(
            location,
            entries@,
            entries@.len(),
        ).total_notes() == files_in(entries@, entries@.len()),
{
    match node.listing {
        Err(_) => {},
        Ok(entries) => {
            lemma_plain_listing_loads_whole(location, entries@, entries@.len());
            lemma_mirrored_counts(location, entries@, entries@.len());
        },
    }
}

/// A folder: a directory inside a vault, with the folders and the notes
/// found in it. The tree is always consistent: neither the folder nor
/// anything below it lies at a reserved name, and every folder and note lies
/// directly below the folder that holds it.
#[derive(Debug)]
pub struct Folder {
    folders: Vec<Folder>,
    notes: Vec<Note>,
    location: JotPath,
}

/// The trees of a sequence of folders.
pub open spec fn folder_views(folders: Seq<Folder>) -> Seq<FolderView> {
    Seq::new(folders.len(), |i: int| folders[i]@)
}

/// The locations of a sequence of notes.
pub open spec fn note_views(notes: Seq<Note>) -> Seq<Seq<Seq<char>>> {
    Seq::new(notes.len(), |i: int| notes[i]@)
}

/// The tree of a folder.
pub closed spec fn tree_of(folder: Folder) -> FolderView
    decreases folder,
{
    FolderView {
        location: folder.location@,
        folders: Seq::new(
            folder.folders@.len(),
            |i: int|
                if 0 <= i < folder.folders@.len() {
                    tree_of(folder.folders@[i])
                } else {
                    arbitrary()
                },
        ),
        notes: note_views(folder.notes@),
    }
}

impl View for Folder {
    type V = FolderView;

    open spec fn view(&self) -> FolderView {
        tree_of(*self)
    }
}

/// Loads what lies inside the directory at `location`.
pub(crate) fn load_inside(location: &JotPath, node: &Node) -> (r: Result<(Vec<Folder>, Vec<Note>), Error>)
    ensures
        match r {
            Ok((folders, notes)) => loaded_contents(location@, *node) == Ok::<Contents, Seq<char>>(
                Contents { folders: folder_views(folders@), notes: note_views(notes@) },
            ),
            Err(e) => e@ matches ErrorView::IOFailure(message) && loaded_contents(location@, *node)
                == Err::<Contents, Seq<char>>(message),
        },
    decreases node,
{
    match &node.listing {
        Err(message) => Err(Error::IOFailure(message.clone())),
        Ok(entries) => {
            let mut folders: Vec<Folder> = Vec::new();
            let mut notes: Vec<Note> = Vec::new();
            let mut i: usize = 0;
            proof {
                assert(folder_views(folders@) =~= Seq::<FolderView>::empty());
                assert(note_views(notes@) =~= Seq::<Seq<Seq<char>>>::empty());
            }
            while i < entries.len()
                invariant
                    i <= entries.len(),
                    node.listing == Ok::<Vec<Entry>, String>(*entries),
                    loaded_entries(location@, entries@, i as nat) == Ok::<Contents, Seq<char>>(
                        Contents { folders: folder_views(folders@), notes: note_views(notes@) },
                    ),
                decreases entries.len() - i,
            {
                let entry = &entries[i];
                let ghost held_folders = folder_views(folders@);
                let ghost held_notes = note_views(notes@);
                if is_single_name(entry.name.as_str()) {
                    let at = location.child(entry.name.as_str());
                    if Folder::is_valid_path(&at, entry.node.is_file) {
                        match load_inside(&at, &entry.node) {
                            Err(e) => {
                                proof {
                                    lemma_failure_persists(
                                        location@,
                                        entries@,
                                        (i + 1) as nat,
                                        entries@.len(),
                                    );
                                }
                                return Err(e);
                            },
                            Ok((inner_folders, inner_notes)) => {
                                proof {
                                    lemma_loaded_contents_well_formed(at@, entry.node);
                                }
                                let folder = Folder::assemble(at, inner_folders, inner_notes);
                                folders.push(folder);
                                assert(folder_views(folders@) =~= held_folders.push(folder@));
                            },
                        }
                    } else if Note::is_valid_path(&at, &entry.node) {
                        let note = Note::load(at);
                        notes.push(note);
                        assert(note_views(notes@) =~= held_notes.push(note@));
                    }
                }
                i = i + 1;
            }
            Ok((folders, notes))
        },
    }
}

/// A copy of a folder with all below it.
fn duplicate(folder: &Folder) -> (r: Folder)
    ensures
        r@ == folder@,
    decreases folder,
{
    proof {
        use_type_invariant(folder);
    }
    let mut folders: Vec<Folder> = Vec::new();
    let mut i: usize = 0;
    while i < folder.folders.len()
        invariant
            i <= folder.folders.len(),
            folders.len() == i,
            forall|k: int| 0 <= k < i ==> folders@[k]@ == folder.folders@[k]@,
        decreases folder.folders.len() - i,
    {
        let copy = duplicate(&folder.folders[i]);
        folders.push(copy);
        i = i + 1;
    }
    let notes = duplicate_notes(&folder.notes);
    proof {
        assert(folder_views(folders@) =~= folder@.folders);
        assert(folder@.well_formed());
        assert(folder@.contents().well_formed(folder@.location));
    }
    Folder::assemble(folder.location.clone(), folders, notes)
}

/// A copy of a vector of folders, each with all below it.
pub(crate) fn duplicate_folders(folders: &Vec<Folder>) -> (r: Vec<Folder>)
    ensures
        folder_views(r@) == folder_views(folders@),
{
    let mut r: Vec<Folder> = Vec::new();
    let mut i: usize = 0;
    while i < folders.len()
        invariant
            i <= folders.len(),
            r.len() == i,
            forall|k: int| 0 <= k < i ==> r@[k]@ == folders@[k]@,
        decreases folders.len() - i,
    {
        r.push(duplicate(&folders[i]));
        i = i + 1;
    }
    assert(folder_views(r@) =~= folder_views(folders@));
    r
}

/// A copy of a vector of notes.
pub(crate) fn duplicate_notes(notes: &Vec<Note>) -> (r: Vec<Note>)
    ensures
        note_views(r@) == note_views(notes@),
{
    let mut r: Vec<Note> = Vec::new();
    let mut i: usize = 0;
    while i < notes.len()
        invariant
            i <= notes.len(),
            r.len() == i,
            forall|k: int| 0 <= k < i ==> r@[k]@ == notes@[k]@,
        decreases notes.len() - i,
    {
        r.push(notes[i].clone());
        i = i + 1;
    }
    assert(note_views(r@) =~= note_views(notes@));
    r
}

/// The notes as they lie after the directory that the first `depth`
/// components of their paths lead to has been moved to `to`.
pub(crate) fn rebase_notes(notes: &Vec<Note>, depth: usize, to: &JotPath) -> (r: Vec<Note>)
    requires
        forall|j: int| 0 <= j < notes@.len() ==> depth <= (#[trigger] notes@[j])@.len(),
    ensures
        note_views(r@) == relocated_paths(note_views(notes@), depth as nat, to@),
{
    let mut r: Vec<Note> = Vec::new();
    let mut j: usize = 0;
    while j < notes.len()
        invariant
            j <= notes.len(),
            r.len() == j,
            forall|k: int| 0 <= k < notes@.len() ==> depth <= (#[trigger] notes@[k])@.len(),
            forall|k: int| 0 <= k < j ==> r@[k]@ == moved(notes@[k]@, depth as nat, to@),
        decreases notes.len() - j,
    {
        r.push(Note::load(notes[j].get_location().rebase(depth, to)));
        j = j + 1;
    }
    assert(note_views(r@) =~= relocated_paths(note_views(notes@), depth as nat, to@));
    r
}

/// The folder with all below it, as it lies after the directory that the
/// first `depth` components of its path lead to has been moved to `to`.
pub(crate) fn rebase_folder(folder: &Folder, depth: usize, to: &JotPath) -> (r: Folder)
    requires
        depth <= folder@.location.len(),
        !is_reserved(moved(folder@.location, depth as nat, to@)),
    ensures
        r@ == relocated_tree(folder@, depth as nat, to@),
    decreases folder,
{
    let ghost before = folder@;
    let ghost after = relocated_tree(before, depth as nat, to@);
    proof {
        use_type_invariant(folder);
        lemma_relocated_tree_well_formed(before, depth as nat, to@);
        assert(before.folders =~= folder_views(folder.folders@));
    }
    let location = folder.location.rebase(depth, to);
    let mut folders: Vec<Folder> = Vec::new();
    let mut i: usize = 0;
    while i < folder.folders.len()
        invariant
            i <= folder.folders.len(),
            folders.len() == i,
            before == folder@,
            before.well_formed(),
            before.folders == folder_views(folder.folders@),
            depth <= before.location.len(),
            forall|k: int|
                0 <= k < i ==> folders@[k]@ == relocated_tree(before.folders[k], depth as nat, to@),
        decreases folder.folders.len() - i,
    {
        proof {
            let child = before.folders[i as int];
            assert(child == folder.folders@[i as int]@);
            assert(child.well_formed() && lies_directly_below(child.location, before.location));
            lemma_moved_keeps_name(child.location, depth as nat, to@);
        }
        let moved_child = rebase_folder(&folder.folders[i], depth, to);
        folders.push(moved_child);
        i = i + 1;
    }
    proof {
        assert forall|j: int| 0 <= j < folder.notes@.len() implies depth <= (
        #[trigger] folder.notes@[j])@.len() by {
            assert(lies_directly_below(before.notes[j], before.location));
        }
    }
    let notes = rebase_notes(&folder.notes, depth, to);
    proof {
        assert(folder_views(folders@) =~= after.folders);
        assert(after.contents().well_formed(after.location));
    }
    Folder::assemble(location, folders, notes)
}

/// The folders, each with all below it, as they lie after the directory
/// that the first `depth` components of their paths lead to has been moved
/// to `to`.
pub(crate) fn rebase_folders(folders: &Vec<Folder>, depth: usize, to: &JotPath) -> (r: Vec<Folder>)
    requires
        forall|i: int|
            0 <= i < folders@.len() ==> depth < (#[trigger] folders@[i])@.location.len(),
    ensures
        folder_views(r@) == relocated_trees(folder_views(folders@), depth as nat, to@),
{
    let mut r: Vec<Folder> = Vec::new();
    let mut i: usize = 0;
    while i < folders.len()
        invariant
            i <= folders.len(),
            r.len() == i,
            forall|k: int|
                0 <= k < folders@.len() ==> depth < (#[trigger] folders@[k])@.location.len(),
            forall|k: int|
                0 <= k < i ==> r@[k]@ == relocated_tree(folders@[k]@, depth as nat, to@),
        decreases folders.len() - i,
    {
        let folder = &folders[i];
        proof {
            use_type_invariant(folder);
            lemma_moved_keeps_name(folder@.location, depth as nat, to@);
        }
        r.push(rebase_folder(folder, depth, to));
        i = i + 1;
    }
    assert(folder_views(r@) =~= relocated_trees(folder_views(folders@), depth as nat, to@));
    r
}

impl Clone for Folder {
    fn clone(&self) -> (r: Self)
        ensures
            r@ == self@,
    {
        duplicate(self)
    }
}

impl Folder {
    /// The tree is consistent.
    #[verifier::type_invariant]
    pub open spec fn well_formed(&self) -> bool {
        self@.well_formed()
    }

    /// The folder at `location` that holds the given folders and notes.
    fn assemble(location: JotPath, folders: Vec<Folder>, notes: Vec<Note>) -> (r: Folder)
        requires
            !is_reserved(location@),
            (Contents { folders: folder_views(folders@), notes: note_views(notes@) }).well_formed(
                location@,
            ),
        ensures
            r@ == (FolderView {
                location: location@,
                folders: folder_views(folders@),
                notes: note_views(notes@),
            }),
    {
        let ghost view = FolderView {
            location: location@,
            folders: folder_views(folders@),
            notes: note_views(notes@),
        };
        proof {
            let made = Folder { folders, notes, location };
            assert(made@.folders =~= view.folders);
            assert(made@ == view);
            assert(view.contents().well_formed(view.location));
            assert(view.well_formed());
        }
        Folder { folders, notes, location }
    }

    /// An empty folder at the root of the filesystem.
    fn empty_at_root() -> (r: Folder)
        ensures
            r@ == (FolderView {
                location: Seq::empty(),
                folders: Seq::empty(),
                notes: Seq::empty(),
            }),
    {
        let folders: Vec<Folder> = Vec::new();
        let notes: Vec<Note> = Vec::new();
        proof {
            assert(folder_views(folders@) =~= Seq::<FolderView>::empty());
            assert(note_views(notes@) =~= Seq::<Seq<Seq<char>>>::empty());
            assert(reserved_name().len() == 4);
        }
        Folder::assemble(JotPath::root(), folders, notes)
    }

    /// Whether a folder may lie at `location`, where `is_file` says whether
    /// a regular file was found there.
    pub fn is_valid_path(location: &JotPath, is_file: bool) -> (b: bool)
        ensures
            b == folder_path_is_valid(location@, is_file),
    {
        !has_reserved_name(location) && !is_file
    }

    /// What kind of item a folder is.
    pub fn kind_name() -> (r: String)
        ensures
            r@ == seq!['f', 'o', 'l', 'd', 'e', 'r'],
    {
        proof {
            reveal_strlit("folder");
        }
        let r = String::from_str("folder");
        assert(r@ =~= seq!['f', 'o', 'l', 'd', 'e', 'r']);
        r
    }

    /// Where the folder lies.
    pub fn get_location(&self) -> (r: &JotPath)
        ensures
            r@ == self@.location,
    {
        &self.location
    }

    /// The path that the text `folder_name` leads to from the directory
    /// `parent_dir`. Nothing is asked of the name: it is walked from the
    /// parent as any path text is.
    pub fn generate_abs_path(parent_dir: &JotPath, folder_name: &str) -> (r: JotPath)
        ensures
            r@ == resolve(parent_dir@, folder_name@),
    {
        parent_dir.join(folder_name)
    }

    /// A new, empty folder at `absolute_path`, where `is_file` says whether
    /// a regular file was found there. The directory itself is for the
    /// caller to make.
    pub fn create(absolute_path: JotPath, is_file: bool) -> (r: Result<Folder, Error>)
        ensures
            match r {
                Ok(folder) => folder_path_is_valid(absolute_path@, is_file) && folder@ == (
                FolderView {
                    location: absolute_path@,
                    folders: Seq::empty(),
                    notes: Seq::empty(),
                }) && folder@.well_formed(),
                Err(e) => !folder_path_is_valid(absolute_path@, is_file) && e@
                    == ErrorView::InvalidPath,
            },
    {
        if !Folder::is_valid_path(&absolute_path, is_file) {
            return Err(Error::InvalidPath);
        }
        let folders: Vec<Folder> = Vec::new();
        let notes: Vec<Note> = Vec::new();
        proof {
            assert(folder_views(folders@) =~= Seq::<FolderView>::empty());
            assert(note_views(notes@) =~= Seq::<Seq<Seq<char>>>::empty());
        }
        Ok(Folder::assemble(absolute_path, folders, notes))
    }

    /// The folder at `absolute_path` with all that lies below it, given what
    /// was found there.
    pub fn load(absolute_path: JotPath, node: &Node) -> (r: Result<Folder, Error>)
        ensures
            match r {
                Ok(folder) => loaded_folder(absolute_path@, *node) == Ok::<FolderView, ErrorView>(
                    folder@,
                ) && folder@.well_formed(),
                Err(e) => loaded_folder(absolute_path@, *node) == Err::<FolderView, ErrorView>(e@),
            },
    {
        if !Folder::is_valid_path(&absolute_path, node.is_file) {
            return Err(Error::InvalidPath);
        }
        match load_inside(&absolute_path, node) {
            Err(e) => Err(e),
            Ok((folders, notes)) => {
                proof {
                    lemma_loaded_contents_well_formed(absolute_path@, *node);
                }
                Ok(Folder::assemble(absolute_path, folders, notes))
            },
        }
    }

    /// Loads what was found in the folder's directory and adds it to the
    /// folders and notes that the folder holds. Where a directory below
    /// could not be read, the folder stays as it was.
    pub fn load_contents(&mut self, node: &Node) -> (r: Result<(), Error>)
        ensures
            final(self)@.location == old(self)@.location,
            final(self)@.well_formed(),
            match r {
                Ok(()) => loaded_contents(old(self)@.location, *node) matches Ok(inside)
                    && final(self)@.contents() == old(self)@.contents().joined(inside),
                Err(e) => loaded_contents(old(self)@.location, *node) matches Err(message) && e@
                    == ErrorView::IOFailure(message) && final(self)@ == old(self)@,
            },
    {
        proof {
            use_type_invariant(&*self);
        }
        match load_inside(&self.location, node) {
            Err(e) => Err(e),
            Ok((mut added_folders, mut added_notes)) => {
                let ghost before = self@;
                let ghost inside = Contents {
                    folders: folder_views(added_folders@),
                    notes: note_views(added_notes@),
                };
                proof {
                    lemma_loaded_contents_well_formed(before.location, *node);
                    lemma_joined_contents_well_formed(before.contents(), inside, before.location);
                }
                let mut held = Folder::empty_at_root();
                core::mem::swap(self, &mut held);
                let Folder { mut folders, mut notes, location } = held;
                assert(folder_views(folders@) =~= before.folders);
                folders.append(&mut added_folders);
                notes.append(&mut added_notes);
                proof {
                    assert(folder_views(folders@) =~= before.folders + inside.folders);
                    assert(note_views(notes@) =~= before.notes + inside.notes);
                }
                *self = Folder::assemble(location, folders, notes);
                Ok(())
            },
        }
    }

    /// The folders directly inside this one, in the order in which they
    /// were loaded.
    pub fn get_folders(&self) -> (r: Vec<Folder>)
        ensures
            folder_views(r@) == self@.folders,
            self@.well_formed(),
    {
        proof {
            use_type_invariant(self);
            assert(folder_views(self.folders@) =~= self@.folders);
        }
        duplicate_folders(&self.folders)
    }

    /// The notes directly inside this folder, in the order in which they
    /// were loaded.
    pub fn get_notes(&self) -> (r: Vec<Note>)
        ensures
            note_views(r@) == self@.notes,
            self@.well_formed(),
    {
        proof {
            use_type_invariant(self);
        }
        duplicate_notes(&self.notes)
    }

    /// Where the folder would lie under the name `new_name`.
    pub fn rename_target(&self, new_name: &str) -> (r: JotPath)
        ensures
            r@ == renamed(self@.location, new_name@),
    {
        self.location.parent().join(new_name)
    }

    /// Records the outcome of moving the folder's directory to
    /// `new_location`. Where the move succeeded the folder lies there, and
    /// every folder and note below it lies at the same place below the new
    /// location that it had below the old one. Where the move failed the
    /// folder is as before and the failure is reported. The caller has
    /// found the new location to be valid, `is_file` saying whether a
    /// regular file was there.
    pub fn relocate(&mut self, new_location: JotPath, is_file: bool, moved: Result<(), String>) -> (r:
        Result<(), Error>)
        requires
            folder_path_is_valid(new_location@, is_file),
        ensures
            final(self)@.well_formed(),
            match r {
                Ok(()) => moved is Ok && final(self)@ == relocated_tree(
                    old(self)@,
                    old(self)@.location.len(),
                    new_location@,
                ) && final(self)@.location == new_location@ && final(self)@.contents()
                    == old(self)@.contents().relocated(old(self)@.location.len(), new_location@),
                Err(e) => moved matches Err(message) && e@ == ErrorView::IOFailure(message@)
                    && final(self)@ == old(self)@,
            },
    {
        proof {
            use_type_invariant(&*self);
        }
        match moved {
            Err(message) => Err(Error::IOFailure(message)),
            Ok(()) => {
                let depth = self.location.depth();
                proof {
                    assert(crate::path::moved(self@.location, depth as nat, new_location@)
                        =~= new_location@);
                    lemma_relocated_tree_well_formed(self@, depth as nat, new_location@);
                    lemma_relocated_tree_unfolds(self@, depth as nat, new_location@);
                }
                let after = rebase_folder(&*self, depth, &new_location);
                *self = after;
                Ok(())
            },
        }
    }

    /// Records the outcome of renaming the folder's directory to `new_name`
    /// within its parent, as `relocate` does for the path that
    /// `rename_target` gives.
    pub fn rename(&mut self, new_name: &str, is_file: bool, moved: Result<(), String>) -> (r: Result<
        (),
        Error,
    >)
        requires
            folder_path_is_valid(renamed(old(self)@.location, new_name@), is_file),
        ensures
            final(self)@.well_formed(),
            match r {
                Ok(()) => moved is Ok && final(self)@ == relocated_tree(
                    old(self)@,
                    old(self)@.location.len(),
                    renamed(old(self)@.location, new_name@),
                ) && final(self)@.location == renamed(old(self)@.location, new_name@) && final(self)@.contents()
                    == old(self)@.contents().relocated(
                    old(self)@.location.len(),
                    renamed(old(self)@.location, new_name@),
                ),
                Err(e) => moved matches Err(message) && e@ == ErrorView::IOFailure(message@)
                    && final(self)@ == old(self)@,
            },
    {
        let new_location = self.rename_target(new_name);
        self.relocate(new_location, is_file, moved)
    }
}

} // verus!
