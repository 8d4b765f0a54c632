//! The record that a vault keeps beside its tree: the folder that is active,
//! where the vault lies, and the aliases of its notes.

use crate::layout::{data_path, data_path_of};
use crate::path::JotPath;
use std::collections::HashMap;
use vstd::prelude::*;

verus! {

/// The text that an optional string holds.
pub open spec fn text_of(value: Option<String>) -> Option<Seq<char>> {
    match value {
        Some(text) => Some(text@),
        None => None,
    }
}

/// The path that an optional path holds.
pub open spec fn path_of(value: Option<JotPath>) -> Option<Seq<Seq<char>>> {
    match value {
        Some(path) => Some(path@),
        None => None,
    }
}

/// The record of one vault.
#[derive(Debug)]
pub struct VaultStore {
    /// The active folder as a path text relative to the vault; absent at
    /// the vault's root.
    current_folder: Option<String>,
    /// Where the vault lies.
    location: Option<JotPath>,
    /// The notes that go by another name.
    aliases: HashMap<String, String>,
}

/// A record as plain mathematical values.
pub struct StoreView {
    pub current_folder: Option<Seq<char>>,
    pub location: Option<Seq<Seq<char>>>,
    pub aliases: Map<String, String>,
}

impl StoreView {
    /// The record that holds nothing.
    pub open spec fn empty() -> StoreView {
        StoreView { current_folder: None, location: None, aliases: Map::empty() }
    }
}

impl View for VaultStore {
    type V = StoreView;

    closed spec fn view(&self) -> StoreView {
        StoreView {
            current_folder: text_of(self.current_folder),
            location: path_of(self.location),
            aliases: self.aliases@,
        }
    }
}

impl Default for VaultStore {
    fn default() -> (r: Self)
        ensures
            r@ == StoreView::empty(),
    {
        VaultStore { current_folder: None, aliases: HashMap::new(), location: None }
    }
}

impl Clone for VaultStore {
    fn clone(&self) -> (r: Self)
        ensures
            r@ == self@,
    {
        VaultStore {
            current_folder: self.get_folder_path(),
            location: self.get_location(),
            aliases: self.aliases.clone(),
        }
    }
}

impl VaultStore {
    /// A record of the given values, as one that was read back.
    pub fn new(
        current_folder: Option<String>,
        location: Option<JotPath>,
        aliases: HashMap<String, String>,
    ) -> (r: VaultStore)
        ensures
            r@ == (StoreView {
                current_folder: text_of(current_folder),
                location: path_of(location),
                aliases: aliases@,
            }),
    {
        VaultStore { current_folder, location, aliases }
    }

    /// Where the record is kept. The vault's location must have been set.
    pub fn path(&self) -> (r: JotPath)
        requires
            self@.location is Some,
        ensures
            r@ == data_path_of(self@.location->0),
    {
        match &self.location {
            Some(vault_path) => data_path(vault_path),
            None => JotPath::root(),
        }
    }

    /// Sets where the vault lies.
    pub fn set_absolute_path(&mut self, vault_path: JotPath)
        ensures
            final(self)@ == (StoreView { location: Some(vault_path@), ..old(self)@ }),
    {
        self.location = Some(vault_path);
    }

    /// Sets the active folder; `None` stands for the vault's root.
    pub fn set_folder_path(&mut self, folder_path: Option<String>)
        ensures
            final(self)@ == (StoreView { current_folder: text_of(folder_path), ..old(self)@ }),
    {
        self.current_folder = folder_path;
    }

    /// The active folder; `None` at the vault's root.
    pub fn get_folder_path(&self) -> (r: Option<String>)
        ensures
            text_of(r) == self@.current_folder,
    {
        match &self.current_folder {
            Some(text) => Some(text.clone()),
            None => None,
        }
    }

    /// Where the vault lies, if that was set.
    pub fn get_location(&self) -> (r: Option<JotPath>)
        ensures
            path_of(r) == self@.location,
    {
        match &self.location {
            Some(path) => Some(path.clone()),
            None => None,
        }
    }

    /// The notes that go by another name.
    pub fn get_aliases(&self) -> (r: &HashMap<String, String>)
        ensures
            r@ == self@.aliases,
    {
        &self.aliases
    }
}

} // verus!
