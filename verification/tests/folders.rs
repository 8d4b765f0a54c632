use jot::disk::{Entry, Node};
use jot::error::Error;
use jot::folder::Folder;
use jot::layout::is_reserved_name;
use jot::note::Note;
use jot::path::JotPath;

fn path(text: &str) -> JotPath {
    JotPath::new(text).unwrap()
}

fn note(name: &str) -> Entry {
    Entry::new(name.to_string(), Node::file(true, "not a directory".to_string()))
}

fn other_file(name: &str) -> Entry {
    Entry::new(name.to_string(), Node::file(false, "not a directory".to_string()))
}

fn dir(name: &str, entries: Vec<Entry>) -> Entry {
    Entry::new(name.to_string(), Node::directory(entries))
}

fn count_folders(folder: &Folder) -> usize {
    let mut n = 0;
    for f in folder.get_folders() {
        n += 1 + count_folders(&f);
    }
    n
}

fn count_notes(folder: &Folder) -> usize {
    let mut n = folder.get_notes().len();
    for f in folder.get_folders() {
        n += count_notes(&f);
    }
    n
}

fn assert_no_reserved(folder: &Folder) {
    assert_ne!(folder.get_location().file_name(), ".jot");
    for n in folder.get_notes() {
        assert_ne!(n.get_location().file_name(), ".jot");
    }
    for f in folder.get_folders() {
        assert_no_reserved(&f);
    }
}

#[test]
fn the_reserved_name_is_dot_jot() {
    assert!(is_reserved_name(".jot"));
    assert!(!is_reserved_name("jot"));
    assert!(!is_reserved_name(".jot2"));
    assert!(!is_reserved_name(".jo"));
    assert!(!is_reserved_name(".joT"));
    assert!(!is_reserved_name(""));
}

#[test]
fn a_folder_path_is_valid_unless_reserved_or_a_file() {
    assert!(Folder::is_valid_path(&path("/v/sub"), false));
    assert!(!Folder::is_valid_path(&path("/v/sub"), true));
    assert!(!Folder::is_valid_path(&path("/v/.jot"), false));
    assert!(!Folder::is_valid_path(&path("/v/.jot"), true));
    assert!(Folder::is_valid_path(&path("/v/.jot/data"), false));
    assert!(Folder::is_valid_path(&path("/"), false));
}

#[test]
fn generate_abs_path_joins_parent_and_name() {
    let made = Folder::generate_abs_path(&path("/home/me"), "projects");
    assert_eq!(made.to_string(), "/home/me/projects");
}

#[test]
fn a_created_folder_is_empty() {
    let folder = Folder::create(path("/v/new"), false).unwrap();
    assert_eq!(folder.get_location().to_string(), "/v/new");
    assert!(folder.get_folders().is_empty());
    assert!(folder.get_notes().is_empty());
}

#[test]
fn create_refuses_an_invalid_path() {
    assert_eq!(Folder::create(path("/v/.jot"), false).unwrap_err(), Error::InvalidPath);
    assert_eq!(Folder::create(path("/v/file.md"), true).unwrap_err(), Error::InvalidPath);
}

#[test]
fn load_refuses_an_invalid_path() {
    let found = Node::directory(vec![]);
    assert_eq!(Folder::load(path("/v/.jot"), &found).unwrap_err(), Error::InvalidPath);
    let file = Node::file(true, "not a directory".to_string());
    assert_eq!(Folder::load(path("/v/a.md"), &file).unwrap_err(), Error::InvalidPath);
}

#[test]
fn load_builds_the_whole_tree() {
    let found = Node::directory(vec![
        dir("a", vec![note("one.md"), dir("deep", vec![note("two.md"), note("three.md")])]),
        note("top.md"),
        dir("b", vec![]),
    ]);
    let folder = Folder::load(path("/v/root"), &found).unwrap();
    assert_eq!(folder.get_location().to_string(), "/v/root");
    assert_eq!(count_folders(&folder), 3);
    assert_eq!(count_notes(&folder), 4);

    let folders = folder.get_folders();
    assert_eq!(folders.len(), 2);
    assert_eq!(folders[0].get_location().to_string(), "/v/root/a");
    assert_eq!(folders[1].get_location().to_string(), "/v/root/b");
    let notes = folder.get_notes();
    assert_eq!(notes.len(), 1);
    assert_eq!(notes[0].get_location().to_string(), "/v/root/top.md");

    let inner = folders[0].get_folders();
    assert_eq!(inner.len(), 1);
    assert_eq!(inner[0].get_location().to_string(), "/v/root/a/deep");
    let deep_notes = inner[0].get_notes();
    assert_eq!(deep_notes[0].get_location().to_string(), "/v/root/a/deep/two.md");
    assert_eq!(deep_notes[1].get_location().to_string(), "/v/root/a/deep/three.md");
}

#[test]
fn load_passes_over_what_is_neither_folder_nor_note() {
    let found = Node::directory(vec![other_file("picture.png"), note("n.md"), other_file("x")]);
    let folder = Folder::load(path("/v/root"), &found).unwrap();
    assert_eq!(folder.get_folders().len(), 0);
    assert_eq!(folder.get_notes().len(), 1);
}

#[test]
fn reserved_entries_never_enter_the_tree() {
    let found = Node::directory(vec![
        dir(".jot", vec![other_file("data"), dir("inner", vec![])]),
        note(".jot"),
        dir("a", vec![dir(".jot", vec![note("hidden.md")]), note("seen.md"), note(".jot")]),
    ]);
    let folder = Folder::load(path("/v/root"), &found).unwrap();
    assert_eq!(count_folders(&folder), 1);
    assert_eq!(count_notes(&folder), 1);
    assert_no_reserved(&folder);
}

#[test]
fn an_unreadable_directory_fails_the_whole_load() {
    let found = Node::directory(vec![
        dir("a", vec![note("one.md")]),
        dir("b", vec![Entry::new("locked".to_string(), Node::unreadable("permission denied".to_string()))]),
        dir("c", vec![]),
    ]);
    let err = Folder::load(path("/v/root"), &found).unwrap_err();
    assert_eq!(err, Error::IOFailure("permission denied".to_string()));
}

#[test]
fn the_first_failure_is_the_one_reported() {
    let found = Node::directory(vec![
        Entry::new("x".to_string(), Node::unreadable("first".to_string())),
        Entry::new("y".to_string(), Node::unreadable("second".to_string())),
    ]);
    assert_eq!(
        Folder::load(path("/v/root"), &found).unwrap_err(),
        Error::IOFailure("first".to_string())
    );
}

#[test]
fn an_unreadable_reserved_entry_is_passed_over() {
    let found = Node::directory(vec![
        Entry::new(".jot".to_string(), Node::unreadable("permission denied".to_string())),
        note("n.md"),
    ]);
    let folder = Folder::load(path("/v/root"), &found).unwrap();
    assert_eq!(count_notes(&folder), 1);
}

#[test]
fn loading_a_path_that_cannot_be_listed_fails() {
    let found = Node::unreadable("no such directory".to_string());
    assert_eq!(
        Folder::load(path("/v/gone"), &found).unwrap_err(),
        Error::IOFailure("no such directory".to_string())
    );
}

#[test]
fn load_contents_adds_to_what_is_held() {
    let mut folder = Folder::create(path("/v/root"), false).unwrap();
    folder.load_contents(&Node::directory(vec![dir("a", vec![]), note("n.md")])).unwrap();
    assert_eq!(folder.get_folders().len(), 1);
    assert_eq!(folder.get_notes().len(), 1);
    folder.load_contents(&Node::directory(vec![dir("b", vec![note("m.md")])])).unwrap();
    let folders = folder.get_folders();
    assert_eq!(folders.len(), 2);
    assert_eq!(folders[0].get_location().to_string(), "/v/root/a");
    assert_eq!(folders[1].get_location().to_string(), "/v/root/b");
    assert_eq!(folder.get_notes().len(), 1);
    assert_eq!(folder.get_location().to_string(), "/v/root");
}

#[test]
fn a_failed_load_contents_changes_nothing() {
    let mut folder = Folder::create(path("/v/root"), false).unwrap();
    folder.load_contents(&Node::directory(vec![dir("a", vec![])])).unwrap();
    let bad = Node::directory(vec![
        dir("b", vec![]),
        Entry::new("c".to_string(), Node::unreadable("broken".to_string())),
    ]);
    assert_eq!(folder.load_contents(&bad).unwrap_err(), Error::IOFailure("broken".to_string()));
    assert_eq!(folder.get_folders().len(), 1);
    assert_eq!(folder.get_notes().len(), 0);
}

#[test]
fn relocate_moves_the_folder_only_after_the_move_succeeded() {
    let mut folder = Folder::load(path("/v/a"), &Node::directory(vec![dir("in", vec![])])).unwrap();
    folder.relocate(path("/v/b"), false, Ok(())).unwrap();
    assert_eq!(folder.get_location().to_string(), "/v/b");
    assert_eq!(folder.get_folders().len(), 1);

    let err = folder.relocate(path("/w/c"), false, Err("cross-device link".to_string())).unwrap_err();
    assert_eq!(err, Error::IOFailure("cross-device link".to_string()));
    assert_eq!(folder.get_location().to_string(), "/v/b");
}

#[test]
fn a_moved_folder_takes_its_tree_along() {
    let found = Node::directory(vec![
        dir("in", vec![note("deep.md"), dir("er", vec![note("deeper.md")])]),
        note("n.md"),
    ]);
    let mut folder = Folder::load(path("/v/a"), &found).unwrap();
    folder.relocate(path("/w/x/b"), false, Ok(())).unwrap();
    assert_eq!(folder.get_location().to_string(), "/w/x/b");
    assert_eq!(folder.get_notes()[0].get_location().to_string(), "/w/x/b/n.md");
    let inner = folder.get_folders();
    assert_eq!(inner[0].get_location().to_string(), "/w/x/b/in");
    assert_eq!(inner[0].get_notes()[0].get_location().to_string(), "/w/x/b/in/deep.md");
    let deeper = inner[0].get_folders();
    assert_eq!(deeper[0].get_location().to_string(), "/w/x/b/in/er");
    assert_eq!(deeper[0].get_notes()[0].get_location().to_string(), "/w/x/b/in/er/deeper.md");
    assert_eq!(count_folders(&folder), 2);
    assert_eq!(count_notes(&folder), 3);
}

#[test]
fn a_renamed_folder_takes_its_tree_along() {
    let found = Node::directory(vec![dir("in", vec![note("deep.md")]), note("n.md")]);
    let mut folder = Folder::load(path("/v/old"), &found).unwrap();
    folder.rename("new", false, Ok(())).unwrap();
    assert_eq!(folder.get_location().to_string(), "/v/new");
    assert_eq!(folder.get_notes()[0].get_location().to_string(), "/v/new/n.md");
    assert_eq!(folder.get_folders()[0].get_location().to_string(), "/v/new/in");
    assert_eq!(folder.get_folders()[0].get_notes()[0].get_location().to_string(), "/v/new/in/deep.md");
    let err = folder.rename("other", false, Err("denied".to_string())).unwrap_err();
    assert_eq!(err, Error::IOFailure("denied".to_string()));
    assert_eq!(folder.get_folders()[0].get_location().to_string(), "/v/new/in");
}

#[test]
fn an_entry_that_goes_by_no_single_name_is_passed_over() {
    let found = Node::directory(vec![
        dir("..", vec![note("above.md")]),
        dir(".", vec![]),
        dir("", vec![]),
        dir("a/b", vec![]),
        note("../n.md"),
        note("x/y.md"),
        dir("good", vec![dir("..", vec![]), note("kept.md")]),
        note("kept.md"),
    ]);
    let folder = Folder::load(path("/v/d"), &found).unwrap();
    let folders = folder.get_folders();
    assert_eq!(folders.len(), 1);
    assert_eq!(folders[0].get_location().to_string(), "/v/d/good");
    assert_eq!(folders[0].get_folders().len(), 0);
    assert_eq!(folders[0].get_notes().len(), 1);
    let notes = folder.get_notes();
    assert_eq!(notes.len(), 1);
    assert_eq!(notes[0].get_location().to_string(), "/v/d/kept.md");
}

#[test]
fn rename_keeps_the_parent() {
    let mut folder = Folder::create(path("/v/deep/old"), false).unwrap();
    assert_eq!(folder.rename_target("new").to_string(), "/v/deep/new");
    folder.rename("new", false, Ok(())).unwrap();
    assert_eq!(folder.get_location().to_string(), "/v/deep/new");
    let err = folder.rename("other", false, Err("denied".to_string())).unwrap_err();
    assert_eq!(err, Error::IOFailure("denied".to_string()));
    assert_eq!(folder.get_location().to_string(), "/v/deep/new");
}

#[test]
fn a_copy_of_a_folder_holds_the_same_tree() {
    let found = Node::directory(vec![dir("a", vec![note("one.md")]), note("top.md")]);
    let folder = Folder::load(path("/v/root"), &found).unwrap();
    let copy = folder.clone();
    assert_eq!(copy.get_location().to_string(), "/v/root");
    assert_eq!(count_folders(&copy), 1);
    assert_eq!(count_notes(&copy), 2);
}

#[test]
fn a_folder_is_called_a_folder() {
    assert_eq!(Folder::kind_name(), "folder");
}

#[test]
fn a_note_is_a_recognised_file_that_is_not_reserved() {
    let recognised = Node::file(true, "not a directory".to_string());
    let other = Node::file(false, "not a directory".to_string());
    assert!(Note::is_valid_path(&path("/v/n.md"), &recognised));
    assert!(!Note::is_valid_path(&path("/v/n.png"), &other));
    assert!(!Note::is_valid_path(&path("/v/.jot"), &recognised));
    assert!(!Note::is_valid_path(&path("/v/dir"), &Node::directory(vec![])));
    assert!(!Note::is_valid_path(&path("/v/gone"), &Node::unreadable("gone".to_string())));
}

#[test]
fn a_note_knows_where_it_lies() {
    let n = Note::load(path("/v/a/n.md"));
    assert_eq!(n.get_location().to_string(), "/v/a/n.md");
    assert_eq!(n.clone().get_location().file_name(), "n.md");
}

#[test]
fn an_error_copies_to_itself() {
    let all = vec![
        Error::InvalidPath,
        Error::AlreadyExists,
        Error::PathNotFound,
        Error::OutOfBounds,
        Error::IOFailure("disk full".to_string()),
    ];
    for e in &all {
        assert_eq!(&e.clone(), e);
    }
    assert_ne!(all[0], all[1]);
    assert_ne!(all[2], all[3]);
}
