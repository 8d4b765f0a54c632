use jot::disk::{Entry, Node};
use jot::error::Error;
use jot::path::JotPath;
use jot::layout::data_path;
use jot::store::VaultStore;
use jot::vault::Vault;
use std::collections::HashMap;

fn path(text: &str) -> JotPath {
    JotPath::new(text).unwrap()
}

fn test_path(name: &str) -> JotPath {
    path("/tmp/jot-tests").join(name)
}

fn note(name: &str) -> Entry {
    Entry::new(name.to_string(), Node::file(true, "not a directory".to_string()))
}

fn dir(name: &str, entries: Vec<Entry>) -> Entry {
    Entry::new(name.to_string(), Node::directory(entries))
}

fn vault_at(text: &str) -> Vault {
    Vault::create(path(text), false).unwrap()
}

#[test]
fn cannot_create_duplicate_vaults() {
    let vault_1 = test_path("vault_1");
    let vault_2 = test_path("vault_1");

    let made = Vault::create(vault_1.clone(), false).unwrap();
    assert_eq!(made.get_location().to_string(), vault_1.to_string());

    match Vault::create(vault_2, true) {
        Ok(_) => assert!(false),
        Err(_) => (),
    }
}

#[test]
fn creating_where_something_exists_is_already_exists() {
    assert_eq!(Vault::create(path("/home/me/vault"), true).unwrap_err(), Error::AlreadyExists);
    assert_eq!(Vault::create(path("/home/me/.jot"), true).unwrap_err(), Error::AlreadyExists);
    assert_eq!(Vault::create(path("/"), true).unwrap_err(), Error::AlreadyExists);
}

#[test]
fn a_vault_cannot_be_created_under_the_reserved_name() {
    assert_eq!(Vault::create(path("/home/me/.jot"), false).unwrap_err(), Error::InvalidPath);
}

#[test]
fn a_created_vault_is_empty_and_knows_where_it_lies() {
    let vault = vault_at("/home/me/notes");
    assert_eq!(vault.get_name(), "notes");
    assert_eq!(vault.get_location().to_string(), "/home/me/notes");
    assert!(vault.get_folders().is_empty());
    assert!(vault.get_notes().is_empty());
    assert_eq!(vault.get_store().get_folder_path(), None);
    assert_eq!(vault.get_store().get_location().unwrap().to_string(), "/home/me/notes");
    assert!(vault.get_store().get_aliases().is_empty());
}

#[test]
fn the_record_lies_in_the_reserved_directory() {
    let vault = vault_at("/home/me/notes");
    assert_eq!(vault.get_data_path().to_string(), "/home/me/notes/.jot/data");
    assert_eq!(vault.get_store().path().to_string(), "/home/me/notes/.jot/data");
    assert_eq!(data_path(&JotPath::root()).to_string(), "/.jot/data");
}

#[test]
fn vault_paths_are_valid_as_folder_paths_are() {
    assert!(Vault::is_valid_path(&path("/v"), false));
    assert!(!Vault::is_valid_path(&path("/v"), true));
    assert!(!Vault::is_valid_path(&path("/v/.jot"), false));
    assert_eq!(Vault::generate_abs_path(&path("/home"), "v").to_string(), "/home/v");
}

#[test]
fn load_counts_match_what_is_on_disk() {
    let found = Node::directory(vec![
        dir(".jot", vec![Entry::new("data".to_string(), Node::file(false, "not a directory".to_string()))]),
        dir("a", vec![dir("b", vec![dir("c", vec![note("deep.md")])]), note("a.md")]),
        note("top.md"),
        dir("d", vec![]),
    ]);
    let vault = Vault::load(path("/home/me/v"), &found, VaultStore::default()).unwrap();
    assert_eq!(vault.get_name(), "v");
    let folders = vault.get_folders();
    assert_eq!(folders.len(), 2);
    assert_eq!(folders[0].get_location().to_string(), "/home/me/v/a");
    assert_eq!(folders[1].get_location().to_string(), "/home/me/v/d");
    assert_eq!(folders[0].get_folders()[0].get_folders()[0].get_notes().len(), 1);
    assert_eq!(vault.get_notes().len(), 1);
    assert_eq!(vault.get_notes()[0].get_location().to_string(), "/home/me/v/top.md");
}

#[test]
fn load_takes_the_record_as_it_was_read() {
    let mut aliases = HashMap::new();
    aliases.insert("today".to_string(), "journal/2024.md".to_string());
    let store = VaultStore::new(Some("journal".to_string()), Some(path("/home/me/v")), aliases);
    let vault = Vault::load(path("/home/me/v"), &Node::directory(vec![]), store).unwrap();
    assert_eq!(vault.get_store().get_folder_path(), Some("journal".to_string()));
    assert_eq!(vault.get_store().get_aliases().get("today"), Some(&"journal/2024.md".to_string()));
}

#[test]
fn load_does_not_examine_the_vault_path() {
    let vault = Vault::load(path("/home/me/.jot"), &Node::directory(vec![]), VaultStore::default());
    assert!(vault.is_ok());
}

#[test]
fn load_fails_where_the_directory_cannot_be_read() {
    let err = Vault::load(
        path("/home/me/v"),
        &Node::unreadable("no such directory".to_string()),
        VaultStore::default(),
    )
    .unwrap_err();
    assert_eq!(err, Error::IOFailure("no such directory".to_string()));
}

#[test]
fn vault_load_contents_adds_and_fails_whole() {
    let mut vault = vault_at("/v");
    vault.load_contents(&Node::directory(vec![dir("a", vec![]), note("n.md")])).unwrap();
    assert_eq!(vault.get_folders().len(), 1);
    assert_eq!(vault.get_notes().len(), 1);
    let bad = Node::directory(vec![
        dir("b", vec![]),
        Entry::new("c".to_string(), Node::unreadable("broken".to_string())),
    ]);
    assert_eq!(vault.load_contents(&bad).unwrap_err(), Error::IOFailure("broken".to_string()));
    assert_eq!(vault.get_folders().len(), 1);
    assert_eq!(vault.get_notes().len(), 1);
    assert_eq!(vault.get_store().get_location().unwrap().to_string(), "/v");
}

#[test]
fn going_up_from_the_root_is_out_of_bounds() {
    let mut vault = vault_at("/home/me/v");
    assert_eq!(vault.resolve_folder("..").to_string(), "/home/me");
    assert_eq!(vault.change_folder("..", true).unwrap_err(), Error::OutOfBounds);
    assert_eq!(vault.get_store().get_folder_path(), None);
}

#[test]
fn going_down_and_up_again_leads_back_to_the_root() {
    let mut vault = vault_at("/home/me/v");
    assert_eq!(vault.resolve_folder("sub").to_string(), "/home/me/v/sub");
    vault.change_folder("sub", true).unwrap();
    assert_eq!(vault.get_store().get_folder_path(), Some("sub".to_string()));
    assert_eq!(vault.resolve_folder("..").to_string(), "/home/me/v");
    vault.change_folder("..", true).unwrap();
    assert_eq!(vault.get_store().get_folder_path(), None);
}

#[test]
fn a_missing_folder_is_not_found_and_nothing_changes() {
    let mut vault = vault_at("/home/me/v");
    vault.change_folder("sub", true).unwrap();
    assert_eq!(vault.change_folder("missing", false).unwrap_err(), Error::PathNotFound);
    assert_eq!(vault.get_store().get_folder_path(), Some("sub".to_string()));
    assert_eq!(vault.change_folder("../..", false).unwrap_err(), Error::PathNotFound);
    assert_eq!(vault.get_store().get_folder_path(), Some("sub".to_string()));
}

#[test]
fn change_folder_is_relative_to_the_active_folder() {
    let mut vault = vault_at("/home/me/v");
    vault.change_folder("a/b", true).unwrap();
    assert_eq!(vault.get_store().get_folder_path(), Some("a/b".to_string()));
    assert_eq!(vault.resolve_folder("../c").to_string(), "/home/me/v/a/c");
    vault.change_folder("../c", true).unwrap();
    assert_eq!(vault.get_store().get_folder_path(), Some("a/c".to_string()));
    vault.change_folder("./d//e/", true).unwrap();
    assert_eq!(vault.get_store().get_folder_path(), Some("a/c/d/e".to_string()));
    vault.change_folder(".", true).unwrap();
    assert_eq!(vault.get_store().get_folder_path(), Some("a/c/d/e".to_string()));
    vault.change_folder("../../../..", true).unwrap();
    assert_eq!(vault.get_store().get_folder_path(), None);
}

#[test]
fn leaving_the_vault_sideways_is_out_of_bounds() {
    let mut vault = vault_at("/home/me/v");
    vault.change_folder("a", true).unwrap();
    assert_eq!(vault.change_folder("../../other", true).unwrap_err(), Error::OutOfBounds);
    assert_eq!(vault.change_folder("../../v2", true).unwrap_err(), Error::OutOfBounds);
    assert_eq!(vault.get_store().get_folder_path(), Some("a".to_string()));
    vault.change_folder("../../v/b", true).unwrap();
    assert_eq!(vault.get_store().get_folder_path(), Some("b".to_string()));
}

#[test]
fn a_vault_at_the_filesystem_root_has_nothing_above_it() {
    let mut vault = Vault::create(JotPath::root(), false).unwrap();
    vault.change_folder("..", true).unwrap();
    assert_eq!(vault.get_store().get_folder_path(), None);
}

#[test]
fn change_folder_leaves_the_tree_alone() {
    let found = Node::directory(vec![dir("a", vec![note("n.md")])]);
    let mut vault = Vault::load(path("/v"), &found, VaultStore::default()).unwrap();
    vault.change_folder("a", true).unwrap();
    assert_eq!(vault.get_folders().len(), 1);
    assert_eq!(vault.get_folders()[0].get_notes().len(), 1);
    assert_eq!(vault.get_location().to_string(), "/v");
    assert_eq!(vault.get_name(), "v");
}

#[test]
fn relocate_moves_vault_and_record_together() {
    let mut vault = vault_at("/home/me/v");
    vault.change_folder("a", true).unwrap();
    vault.relocate(path("/srv/w"), false, Ok(())).unwrap();
    assert_eq!(vault.get_location().to_string(), "/srv/w");
    assert_eq!(vault.get_store().get_location().unwrap().to_string(), "/srv/w");
    assert_eq!(vault.get_store().get_folder_path(), Some("a".to_string()));
    assert_eq!(vault.get_data_path().to_string(), "/srv/w/.jot/data");
    assert_eq!(vault.get_name(), "w");
}

#[test]
fn a_moved_vault_takes_its_tree_along() {
    let found = Node::directory(vec![
        dir("a", vec![dir("b", vec![note("deep.md")]), note("a.md")]),
        note("top.md"),
    ]);
    let mut vault = Vault::load(path("/home/me/v"), &found, VaultStore::default()).unwrap();
    vault.relocate(path("/srv/vaults/w"), false, Ok(())).unwrap();
    assert_eq!(vault.get_name(), "w");
    let folders = vault.get_folders();
    assert_eq!(folders[0].get_location().to_string(), "/srv/vaults/w/a");
    assert_eq!(folders[0].get_notes()[0].get_location().to_string(), "/srv/vaults/w/a/a.md");
    let inner = folders[0].get_folders();
    assert_eq!(inner[0].get_location().to_string(), "/srv/vaults/w/a/b");
    assert_eq!(inner[0].get_notes()[0].get_location().to_string(), "/srv/vaults/w/a/b/deep.md");
    assert_eq!(vault.get_notes()[0].get_location().to_string(), "/srv/vaults/w/top.md");
}

#[test]
fn a_renamed_vault_is_named_after_its_new_path() {
    let found = Node::directory(vec![dir("a", vec![note("n.md")])]);
    let mut vault = Vault::load(path("/home/me/v"), &found, VaultStore::default()).unwrap();
    vault.rename("w", false, Ok(())).unwrap();
    assert_eq!(vault.get_name(), "w");
    assert_eq!(vault.get_location().file_name(), "w");
    assert_eq!(vault.get_folders()[0].get_location().to_string(), "/home/me/w/a");
    assert_eq!(vault.get_folders()[0].get_notes()[0].get_location().to_string(), "/home/me/w/a/n.md");
    let err = vault.rename("x", false, Err("busy".to_string())).unwrap_err();
    assert_eq!(err, Error::IOFailure("busy".to_string()));
    assert_eq!(vault.get_name(), "w");
    assert_eq!(vault.get_folders()[0].get_location().to_string(), "/home/me/w/a");
}

#[test]
fn a_vault_with_its_record_on_disk_loads_whole() {
    let found = Node::directory(vec![
        dir(".jot", vec![Entry::new("data".to_string(), Node::file(false, "not a directory".to_string()))]),
        dir("a", vec![note("one.md")]),
        note("two.md"),
    ]);
    let vault = Vault::load(path("/v"), &found, VaultStore::default()).unwrap();
    assert_eq!(vault.get_folders().len(), 1);
    assert_eq!(vault.get_folders()[0].get_notes().len(), 1);
    assert_eq!(vault.get_notes().len(), 1);
}

#[test]
fn a_failed_move_leaves_the_vault_where_it_was() {
    let mut vault = vault_at("/home/me/v");
    let err = vault.relocate(path("/srv/w"), false, Err("permission denied".to_string())).unwrap_err();
    assert_eq!(err, Error::IOFailure("permission denied".to_string()));
    assert_eq!(vault.get_location().to_string(), "/home/me/v");
    assert_eq!(vault.get_store().get_location().unwrap().to_string(), "/home/me/v");
}

#[test]
fn rename_stays_in_the_parent_directory() {
    let mut vault = vault_at("/home/me/v");
    assert_eq!(vault.rename_target("w").to_string(), "/home/me/w");
    vault.rename("w", false, Ok(())).unwrap();
    assert_eq!(vault.get_location().to_string(), "/home/me/w");
    assert_eq!(vault.get_store().get_location().unwrap().to_string(), "/home/me/w");
    let err = vault.rename("x", false, Err("busy".to_string())).unwrap_err();
    assert_eq!(err, Error::IOFailure("busy".to_string()));
    assert_eq!(vault.get_location().to_string(), "/home/me/w");
}

#[test]
fn a_default_record_holds_nothing() {
    let store = VaultStore::default();
    assert_eq!(store.get_folder_path(), None);
    assert!(store.get_location().is_none());
    assert!(store.get_aliases().is_empty());
}

#[test]
fn the_record_keeps_what_it_is_given() {
    let mut store = VaultStore::default();
    store.set_absolute_path(path("/home/me/v"));
    store.set_folder_path(Some("a/b".to_string()));
    assert_eq!(store.get_folder_path(), Some("a/b".to_string()));
    assert_eq!(store.get_location().unwrap().to_string(), "/home/me/v");
    assert_eq!(store.path().to_string(), "/home/me/v/.jot/data");
    store.set_folder_path(None);
    assert_eq!(store.get_folder_path(), None);
    assert_eq!(store.get_location().unwrap().to_string(), "/home/me/v");
    let copy = store.clone();
    assert_eq!(copy.get_location().unwrap().to_string(), "/home/me/v");
}
