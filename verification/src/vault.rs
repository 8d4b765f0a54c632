//! Vaults: the roots of trees, each with its record, and the rule for
//! changing the active folder without leaving the vault.

use crate::disk::Node;
use crate::error::{Error, ErrorView};
use crate::folder::{
    duplicate_folders, duplicate_notes, folder_path_is_valid, folder_views,
    lemma_joined_contents_well_formed, lemma_loaded_contents_well_formed,
    lemma_relocated_contents_well_formed, load_inside, loaded_contents, note_views, rebase_folders,
    rebase_notes, relocated_paths, relocated_trees, renamed, Contents, Folder, FolderView,
};
use crate::layout::{data_path, data_path_of, has_reserved_name, is_reserved};
use crate::note::Note;
use crate::path::{
    file_name_of, is_name, is_normal, lemma_render_then_read, lemma_resolve_dot_dot,
    lemma_resolve_name, lemma_resolve_rendered, lemma_segments_of_joined_texts,
    lemma_walk_in_two_parts, lies_directly_below, moved, render, render_relative, resolve,
    segments, JotPath,
};
use crate::store::{StoreView, VaultStore};
use vstd::prelude::*;

verus! {

/// The path that the input `input` leads to in a vault at `root` whose
/// active folder is `current`: the input is walked from the active folder,
/// and that from the root.
pub open spec fn navigation_target(
    root: Seq<Seq<char>>,
    current: Option<Seq<char>>,
    input: Seq<char>,
) -> Seq<Seq<char>> {
    let from = match current {
        Some(folder) => resolve(root, folder),
        None => root,
    };
    resolve(from, input)
}

/// The active folder that stands for `target`, a path at or below `root`:
/// absent at the root itself, else the text of the part below the root.
pub open spec fn folder_value(root: Seq<Seq<char>>, target: Seq<Seq<char>>) -> Option<Seq<char>> {
    if target.len() <= root.len() {
        None
    } else {
        Some(render_relative(target.skip(root.len() as int)))
    }
}

/// What a change of folder comes to: the new active folder, or why there is
/// none. `exists` says whether the target was found on disk.
pub open spec fn navigated(
    root: Seq<Seq<char>>,
    current: Option<Seq<char>>,
    input: Seq<char>,
    exists: bool,
) -> Result<Option<Seq<char>>, ErrorView> {
    let target = navigation_target(root, current, input);
    if !exists {
        Err(ErrorView::PathNotFound)
    } else if !root.is_prefix_of(target) {
        Err(ErrorView::OutOfBounds)
    } else {
        Ok(folder_value(root, target))
    }
}

/// Going up from the root of a vault leaves the vault, unless the vault is
/// the root of the filesystem.
pub proof fn lemma_up_from_root_is_out_of_bounds(root: Seq<Seq<char>>)
    requires
        root.len() > 0,
    ensures
        navigated(root, None, seq!['.', '.'], true) == Err::<Option<Seq<char>>, ErrorView>(
            ErrorView::OutOfBounds,
        ),
{
    lemma_resolve_dot_dot(root);
}

/// A target that does not exist is never entered, whatever the input.
pub proof fn lemma_missing_target_is_not_found(
    root: Seq<Seq<char>>,
    current: Option<Seq<char>>,
    input: Seq<char>,
)
    ensures
        navigated(root, current, input, false) == Err::<Option<Seq<char>>, ErrorView>(
            ErrorView::PathNotFound,
        ),
{
}

/// Going into a folder by its name and then up again leads back: from the
/// active folder that stands for the normal path `below`, the name `name`
/// leads to the folder one further down, and `..` from there leads to the
/// first again. From the root of the vault, the active folder is absent
/// again afterwards.
pub proof fn lemma_down_and_up_again(root: Seq<Seq<char>>, below: Seq<Seq<char>>, name: Seq<char>)
    requires
        is_normal(below),
        is_name(name),
    ensures
        navigated(root, folder_value(root, root + below), name, true) == Ok::<
            Option<Seq<char>>,
            ErrorView,
        >(folder_value(root, root + below.push(name))),
        navigated(root, folder_value(root, root + below.push(name)), seq!['.', '.'], true) == Ok::<
            Option<Seq<char>>,
            ErrorView,
        >(folder_value(root, root + below)),
        below.len() == 0 ==> folder_value(root, root + below) == None::<Seq<char>>,
{
    let here = root + below;
    let there = root + below.push(name);
    assert(here.skip(root.len() as int) =~= below);
    assert(there.skip(root.len() as int) =~= below.push(name));
    assert(is_normal(below.push(name)));
    lemma_resolve_rendered(root, below);
    lemma_resolve_rendered(root, below.push(name));
    // from the first folder, down by the name
    let from = match folder_value(root, here) {
        Some(folder) => resolve(root, folder),
        None => root,
    };
    assert(from == here) by {
        if below.len() == 0 {
            assert(here =~= root);
        }
    }
    lemma_resolve_name(here, name);
    assert(here.push(name) =~= there);
    assert(root.is_prefix_of(there));
    // from the second folder, up again
    lemma_resolve_dot_dot(there);
    assert(there.drop_last() =~= here);
    assert(root.is_prefix_of(here));
}

/// The target of a change of folder is what the texts of the vault's path,
/// of the active folder and of the input give when they are joined by
/// separators and the whole is read as one absolute path.
pub proof fn lemma_target_is_the_joined_text(
    root: Seq<Seq<char>>,
    current: Option<Seq<char>>,
    input: Seq<char>,
)
    requires
        is_normal(root),
    ensures
        navigation_target(root, current, input) == resolve(
            Seq::empty(),
            match current {
                Some(folder) => render(root) + seq!['/'] + folder + seq!['/'] + input,
                None => render(root) + seq!['/'] + input,
            },
        ),
{
    let top = Seq::<Seq<char>>::empty();
    lemma_render_then_read(root);
    match current {
        Some(folder) => {
            let first = render(root) + seq!['/'] + folder;
            lemma_segments_of_joined_texts(render(root), folder);
            lemma_segments_of_joined_texts(first, input);
            lemma_walk_in_two_parts(top, segments(render(root)), segments(folder));
            lemma_walk_in_two_parts(top, segments(first), segments(input));
        },
        None => {
            lemma_segments_of_joined_texts(render(root), input);
            lemma_walk_in_two_parts(top, segments(render(root)), segments(input));
        },
    }
}

/// A vault: the root of a tree of folders and notes, with its record. The
/// vault is always consistent: it is named after the final component of its
/// path, nothing in the tree lies at a reserved name, and every folder and
/// note lies directly below what holds it.
#[derive(Debug)]
pub struct Vault {
    /// The name of the vault.
    name: String,
    /// Where the vault lies.
    path: JotPath,
    /// The folders directly inside the vault.
    folders: Vec<Folder>,
    /// The notes directly inside the vault.
    notes: Vec<Note>,
    /// The record that the vault keeps.
    vault_store: VaultStore,
}

/// A vault as plain mathematical values.
pub struct VaultView {
    pub name: Seq<char>,
    pub path: Seq<Seq<char>>,
    pub folders: Seq<FolderView>,
    pub notes: Seq<Seq<Seq<char>>>,
    pub store: StoreView,
}

impl VaultView {
    /// What lies directly inside the vault.
    pub open spec fn contents(self) -> Contents {
        Contents { folders: self.folders, notes: self.notes }
    }

    /// The vault is consistent: it is named after the final component of
    /// its path, and what it holds are consistent contents of its
    /// directory.
    pub open spec fn well_formed(self) -> bool {
        &&& self.name == file_name_of(self.path)
        &&& self.contents().well_formed(self.path)
    }

    /// The vault after its directory has been moved to `to`: it lies there
    /// and is named after the final component of `to`, its record knows
    /// the new place, and every folder and note in it, at every depth, lies
    /// at the same place below `to` that it had below the old path.
    pub open spec fn relocated(self, to: Seq<Seq<char>>) -> VaultView {
        VaultView {
            name: file_name_of(to),
            path: to,
            folders: relocated_trees(self.folders, self.path.len(), to),
            notes: relocated_paths(self.notes, self.path.len(), to),
            store: StoreView { location: Some(to), ..self.store },
        }
    }
}

impl View for Vault {
    type V = VaultView;

    closed spec fn view(&self) -> VaultView {
        VaultView {
            name: self.name@,
            path: self.path@,
            folders: folder_views(self.folders@),
            notes: note_views(self.notes@),
            store: self.vault_store@,
        }
    }
}

impl Vault {
    /// The vault is consistent.
    #[verifier::type_invariant]
    pub open spec fn well_formed(&self) -> bool {
        self@.well_formed()
    }

    /// The folders directly inside the vault, in the order in which they
    /// were loaded.
    pub fn get_folders(&self) -> (r: Vec<Folder>)
        ensures
            folder_views(r@) == self@.folders,
            self@.well_formed(),
    {
        proof {
            use_type_invariant(self);
        }
        duplicate_folders(&self.folders)
    }

    /// The notes directly inside the vault, in the order in which they were
    /// loaded.
    pub fn get_notes(&self) -> (r: Vec<Note>)
        ensures
            note_views(r@) == self@.notes,
            self@.well_formed(),
    {
        proof {
            use_type_invariant(self);
        }
        duplicate_notes(&self.notes)
    }

    /// Where the vault lies.
    pub fn get_location(&self) -> (r: &JotPath)
        ensures
            r@ == self@.path,
    {
        &self.path
    }

    /// The name of the vault: the final component of its path.
    pub fn get_name(&self) -> (r: String)
        ensures
            r@ == self@.name,
            r@ == file_name_of(self@.path),
    {
        proof {
            use_type_invariant(self);
        }
        self.name.clone()
    }

    /// The record that the vault keeps.
    pub fn get_store(&self) -> (r: &VaultStore)
        ensures
            r@ == self@.store,
    {
        &self.vault_store
    }

    /// The path of the file that holds the vault's record.
    pub fn get_data_path(&self) -> (r: JotPath)
        ensures
            r@ == data_path_of(self@.path),
    {
        data_path(&self.path)
    }

    /// The path that the text `vault_name` leads to from the directory
    /// `parent_dir`. Nothing is asked of the name: it is walked from the
    /// parent as any path text is.
    pub fn generate_abs_path(parent_dir: &JotPath, vault_name: &str) -> (r: JotPath)
        ensures
            r@ == resolve(parent_dir@, vault_name@),
    {
        parent_dir.join(vault_name)
    }

    /// Whether a vault may lie at `absolute_path`, where `is_file` says
    /// whether a regular file was found there.
    pub fn is_valid_path(absolute_path: &JotPath, is_file: bool) -> (b: bool)
        ensures
            b == folder_path_is_valid(absolute_path@, is_file),
    {
        !is_file && !has_reserved_name(absolute_path)
    }

    /// A new, empty vault at `absolute_path`, where `exists` says whether
    /// anything was found there. The vault is named after the final
    /// component of its path, and its record knows where the vault lies and
    /// holds nothing else. The directory itself is for the caller to make.
    pub fn create(absolute_path: JotPath, exists: bool) -> (r: Result<Vault, Error>)
        ensures
            match r {
                Ok(vault) => !exists && !is_reserved(absolute_path@) && vault@ == (VaultView {
                    name: file_name_of(absolute_path@),
                    path: absolute_path@,
                    folders: Seq::empty(),
                    notes: Seq::empty(),
                    store: StoreView { location: Some(absolute_path@), ..StoreView::empty() },
                }) && vault@.well_formed(),
                Err(e) => if exists {
                    e@ == ErrorView::AlreadyExists
                } else {
                    is_reserved(absolute_path@) && e@ == ErrorView::InvalidPath
                },
            },
    {
        if exists {
            return Err(Error::AlreadyExists);
        }
        if !Vault::is_valid_path(&absolute_path, false) {
            return Err(Error::InvalidPath);
        }
        let mut vault_store = VaultStore::default();
        vault_store.set_absolute_path(absolute_path.clone());
        let folders: Vec<Folder> = Vec::new();
        let notes: Vec<Note> = Vec::new();
        proof {
            assert(folder_views(folders@) =~= Seq::<FolderView>::empty());
            assert(note_views(notes@) =~= Seq::<Seq<Seq<char>>>::empty());
        }
        Ok(Vault { name: absolute_path.file_name(), path: absolute_path, folders, notes, vault_store })
    }

    /// The vault at `absolute_path` with all that lies below it, given what
    /// was found there and the record that was read back (the empty record
    /// where none was kept). The path itself is not examined. The record is
    /// kept as it was handed in.
    pub fn load(absolute_path: JotPath, node: &Node, store: VaultStore) -> (r: Result<Vault, Error>)
        ensures
            match r {
                Ok(vault) => loaded_contents(absolute_path@, *node) matches Ok(inside) && vault@ == (
                VaultView {
                    name: file_name_of(absolute_path@),
                    path: absolute_path@,
                    folders: inside.folders,
                    notes: inside.notes,
                    store: store@,
                }) && vault@.well_formed(),
                Err(e) => loaded_contents(absolute_path@, *node) matches Err(message) && e@
                    == ErrorView::IOFailure(message),
            },
    {
        match load_inside(&absolute_path, node) {
            Err(e) => Err(e),
            Ok((folders, notes)) => {
                proof {
                    lemma_loaded_contents_well_formed(absolute_path@, *node);
                }
                Ok(
                    Vault {
                        name: absolute_path.file_name(),
                        path: absolute_path,
                        folders,
                        notes,
                        vault_store: store,
                    },
                )
            },
        }
    }

    /// Loads what was found in the vault's directory and adds it to the
    /// folders and notes that the vault holds. Where a directory below could
    /// not be read, the vault stays as it was.
    pub fn load_contents(&mut self, node: &Node) -> (r: Result<(), Error>)
        ensures
            final(self)@.well_formed(),
            match r {
                Ok(()) => loaded_contents(old(self)@.path, *node) matches Ok(inside) && final(self)@
                    == (VaultView {
                    folders: old(self)@.folders + inside.folders,
                    notes: old(self)@.notes + inside.notes,
                    ..old(self)@
                }),
                Err(e) => loaded_contents(old(self)@.path, *node) matches Err(message) && e@
                    == ErrorView::IOFailure(message) && final(self)@ == old(self)@,
            },
    {
        proof {
            use_type_invariant(&*self);
        }
        match load_inside(&self.path, node) {
            Err(e) => Err(e),
            Ok((mut added_folders, mut added_notes)) => {
                let ghost before = self@;
                let ghost inside = Contents {
                    folders: folder_views(added_folders@),
                    notes: note_views(added_notes@),
                };
                proof {
                    lemma_loaded_contents_well_formed(before.path, *node);
                    lemma_joined_contents_well_formed(before.contents(), inside, before.path);
                }
                let mut folders = duplicate_folders(&self.folders);
                let mut notes = duplicate_notes(&self.notes);
                folders.append(&mut added_folders);
                notes.append(&mut added_notes);
                proof {
                    assert(folder_views(folders@) =~= before.folders + inside.folders);
                    assert(note_views(notes@) =~= before.notes + inside.notes);
                }
                *self = Vault {
                    name: self.name.clone(),
                    path: self.path.clone(),
                    folders,
                    notes,
                    vault_store: self.vault_store.clone(),
                };
                Ok(())
            },
        }
    }

    /// Where the vault would lie under the name `new_name`.
    pub fn rename_target(&self, new_name: &str) -> (r: JotPath)
        ensures
            r@ == renamed(self@.path, new_name@),
    {
        self.path.parent().join(new_name)
    }

    /// Records the outcome of moving the vault's directory to
    /// `new_absolute_path`. Where the move succeeded the vault lies there
    /// and is named after the new path, its record knows the new place, and
    /// every folder and note in it lies at the same place below the new path
    /// that it had below the old one. Where the move failed the vault is as
    /// before and the failure is reported. The caller has found the new
    /// path to be valid, `is_file` saying whether a regular file was there.
    pub fn relocate(&mut self, new_absolute_path: JotPath, is_file: bool, moved: Result<(), String>) -> (r:
        Result<(), Error>)
        requires
            folder_path_is_valid(new_absolute_path@, is_file),
        ensures
            final(self)@.well_formed(),
            match r {
                Ok(()) => moved is Ok && final(self)@ == old(self)@.relocated(new_absolute_path@),
                Err(e) => moved matches Err(message) && e@ == ErrorView::IOFailure(message@)
                    && final(self)@ == old(self)@,
            },
    {
        proof {
            use_type_invariant(&*self);
        }
        match moved {
            Err(message) => Err(Error::IOFailure(message)),
            Ok(()) => {
                let ghost before = self@;
                let depth = self.path.depth();
                proof {
                    assert forall|i: int| 0 <= i < self.folders@.len() implies depth < (
                    #[trigger] self.folders@[i])@.location.len() by {
                        assert(lies_directly_below(before.contents().folders[i].location, before.path));
                    }
                    assert forall|j: int| 0 <= j < self.notes@.len() implies depth <= (
                    #[trigger] self.notes@[j])@.len() by {
                        assert(lies_directly_below(before.contents().notes[j], before.path));
                    }
                    lemma_relocated_contents_well_formed(
                        before.contents(),
                        before.path,
                        depth as nat,
                        new_absolute_path@,
                    );
                    assert(crate::path::moved(before.path, depth as nat, new_absolute_path@)
                        =~= new_absolute_path@);
                }
                let folders = rebase_folders(&self.folders, depth, &new_absolute_path);
                let notes = rebase_notes(&self.notes, depth, &new_absolute_path);
                let mut vault_store = self.vault_store.clone();
                vault_store.set_absolute_path(new_absolute_path.clone());
                *self = Vault {
                    name: new_absolute_path.file_name(),
                    path: new_absolute_path,
                    folders,
                    notes,
                    vault_store,
                };
                Ok(())
            },
        }
    }

    /// Records the outcome of renaming the vault's directory to `new_name`
    /// within its parent, as `relocate` does for the path that
    /// `rename_target` gives.
    pub fn rename(&mut self, new_name: &str, is_file: bool, moved: Result<(), String>) -> (r: Result<
        (),
        Error,
    >)
        requires
            folder_path_is_valid(renamed(old(self)@.path, new_name@), is_file),
        ensures
            final(self)@.well_formed(),
            match r {
                Ok(()) => moved is Ok && final(self)@ == old(self)@.relocated(
                    renamed(old(self)@.path, new_name@),
                ),
                Err(e) => moved matches Err(message) && e@ == ErrorView::IOFailure(message@)
                    && final(self)@ == old(self)@,
            },
    {
        let new_absolute_path = self.rename_target(new_name);
        self.relocate(new_absolute_path, is_file, moved)
    }

    /// The path that a change of folder by `path` would lead to: the one to
    /// look for on disk before `change_folder` is called.
    pub fn resolve_folder(&self, path: &str) -> (r: JotPath)
        ensures
            r@ == navigation_target(self@.path, self@.store.current_folder, path@),
    {
        let from = match self.vault_store.get_folder_path() {
            Some(folder) => self.path.join(folder.as_str()),
            None => self.path.clone(),
        };
        from.join(path)
    }

    /// Makes the folder that `path` leads to from the active folder the
    /// active one, where `exists` says whether the path that
    /// `resolve_folder` gives was found on disk. A target that does not
    /// exist, or one that is not the vault's root or below it, is refused
    /// and the vault stays as it was. The tree is never touched.
    pub fn change_folder(&mut self, path: &str, exists: bool) -> (r: Result<(), Error>)
        ensures
            final(self)@.well_formed(),
            match r {
                Ok(()) => navigated(old(self)@.path, old(self)@.store.current_folder, path@, exists)
                    matches Ok(value) && final(self)@ == (VaultView {
                    store: StoreView { current_folder: value, ..old(self)@.store },
                    ..old(self)@
                }),
                Err(e) => navigated(old(self)@.path, old(self)@.store.current_folder, path@, exists)
                    == Err::<Option<Seq<char>>, ErrorView>(e@) && final(self)@ == old(self)@,
            },
    {
        proof {
            use_type_invariant(&*self);
        }
        let new_location = self.resolve_folder(path);
        if !exists {
            return Err(Error::PathNotFound);
        }
        if !new_location.starts_with(&self.path) {
            return Err(Error::OutOfBounds);
        }
        let depth = self.path.depth();
        let destination_folder = if new_location.depth() == depth {
            None
        } else {
            Some(new_location.relative_text(depth))
        };
        let mut store = self.vault_store.clone();
        store.set_folder_path(destination_folder);
        self.vault_store = store;
        Ok(())
    }
}

} // verus!
