use txtlib::paths::{get_file_stem, get_whole_file_name, path_text};
use txtlib::{FsState, TxtError};

fn p(parts: &[&str]) -> Vec<String> {
    parts.iter().map(|s| s.to_string()).collect()
}

#[test]
fn write_then_read_round_trips() {
    let mut fs = FsState::new();
    assert!(fs.write_new_file(&p(&["notes.txt"]), "hello world").is_ok());
    let mut buf = String::new();
    assert!(fs.read_file(&mut buf, &p(&["notes.txt"])).is_ok());
    assert_eq!(buf, "hello world");
}

#[test]
fn read_appends_to_the_buffer() {
    let mut fs = FsState::new();
    assert!(fs.write_new_file(&p(&["notes.txt"]), "tail").is_ok());
    let mut buf = String::from("head-");
    assert!(fs.read_file(&mut buf, &p(&["notes.txt"])).is_ok());
    assert_eq!(buf, "head-tail");
}

#[test]
fn write_new_file_replaces_earlier_content() {
    let mut fs = FsState::new();
    assert!(fs.write_new_file(&p(&["f.txt"]), "old").is_ok());
    assert!(fs.write_new_file(&p(&["f.txt"]), "new").is_ok());
    let mut buf = String::new();
    assert!(fs.read_file(&mut buf, &p(&["f.txt"])).is_ok());
    assert_eq!(buf, "new");
}

#[test]
fn clean_create_folder_twice_leaves_empty_folder() {
    let mut fs = FsState::new();
    assert!(fs.create_clean_folder(&p(&["work"])).is_ok());
    assert!(fs.write_new_file(&p(&["work", "residue.txt"]), "x").is_ok());
    assert!(fs.create_clean_folder(&p(&["work"])).is_ok());
    assert!(fs.create_clean_folder(&p(&["work"])).is_ok());
    let entries = fs.get_entries(&p(&["work"])).unwrap();
    assert_eq!(entries.len(), 0);
    assert!(!fs.node_exists(&p(&["work", "residue.txt"])));
}

#[test]
fn clean_create_file_replaces_a_file_but_not_a_folder() {
    let mut fs = FsState::new();
    assert!(fs.write_new_file(&p(&["a.txt"]), "old").is_ok());
    assert!(fs.create_clean_file(&p(&["a.txt"])).is_ok());
    let mut buf = String::new();
    assert!(fs.read_file(&mut buf, &p(&["a.txt"])).is_ok());
    assert_eq!(buf, "");
    assert!(fs.create_new_folder(&p(&["d"])).is_ok());
    let r = fs.create_clean_file(&p(&["d"]));
    assert!(matches!(r, Err(TxtError::FailedCreatingFile(_, _))));
    assert!(fs.is_folder(&p(&["d"])));
}

#[test]
fn listing_classifies_missing_and_file_targets_as_folder_not_found() {
    let mut fs = FsState::new();
    assert!(fs.write_new_file(&p(&["plain.txt"]), "x").is_ok());
    let missing = fs.get_entries(&p(&["nowhere"]));
    assert!(matches!(missing, Err(TxtError::FolderNotFound(_))));
    let on_file = fs.get_entries(&p(&["plain.txt"]));
    assert!(matches!(on_file, Err(TxtError::FolderNotFound(_))));
    if let Err(e) = fs.get_entries(&p(&["nowhere"])) {
        assert_eq!(e.render(), "the folder at nowhere is not found.");
    }
}

#[test]
fn reading_classifies_missing_and_folder_targets_as_file_not_found() {
    let mut fs = FsState::new();
    assert!(fs.create_new_folder(&p(&["d"])).is_ok());
    let mut buf = String::new();
    let missing = fs.read_file(&mut buf, &p(&["nowhere.txt"]));
    assert!(matches!(missing, Err(TxtError::FileNotFound(_))));
    let on_folder = fs.read_file(&mut buf, &p(&["d"]));
    assert!(matches!(on_folder, Err(TxtError::FileNotFound(_))));
    assert_eq!(buf, "");
}

#[test]
fn listing_reports_names_and_kinds() {
    let mut fs = FsState::new();
    assert!(fs.create_new_folder(&p(&["d"])).is_ok());
    assert!(fs.write_new_file(&p(&["d", "a.txt"]), "x").is_ok());
    assert!(fs.create_new_folder(&p(&["d", "sub"])).is_ok());
    let entries = fs.get_entries(&p(&["d"])).unwrap();
    assert_eq!(entries.len(), 2);
    let mut names: Vec<(String, bool)> =
        entries.iter().map(|e| (e.name.clone(), e.is_folder)).collect();
    names.sort();
    assert_eq!(names, vec![(String::from("a.txt"), false), (String::from("sub"), true)]);
}

#[test]
fn copy_preserves_tree_and_contents() {
    let mut fs = FsState::new();
    assert!(fs.create_new_folder(&p(&["a"])).is_ok());
    assert!(fs.write_new_file(&p(&["a", "x.txt"]), "alpha").is_ok());
    assert!(fs.create_new_folder(&p(&["a", "b"])).is_ok());
    assert!(fs.write_new_file(&p(&["a", "b", "y.txt"]), "beta").is_ok());
    assert!(fs.create_new_folder(&p(&["a", "empty"])).is_ok());
    assert!(fs.copy_all_folder(&p(&["a"]), &p(&["d"])).is_ok());
    assert!(fs.is_folder(&p(&["d"])));
    assert!(fs.is_folder(&p(&["d", "b"])));
    assert!(fs.is_folder(&p(&["d", "empty"])));
    let mut buf = String::new();
    assert!(fs.read_file(&mut buf, &p(&["d", "x.txt"])).is_ok());
    assert_eq!(buf, "alpha");
    let mut buf2 = String::new();
    assert!(fs.read_file(&mut buf2, &p(&["d", "b", "y.txt"])).is_ok());
    assert_eq!(buf2, "beta");
    let mut buf3 = String::new();
    assert!(fs.read_file(&mut buf3, &p(&["a", "x.txt"])).is_ok());
    assert_eq!(buf3, "alpha");
}

#[test]
fn copy_of_missing_source_reports_folder_not_found() {
    let mut fs = FsState::new();
    let r = fs.copy_all_folder(&p(&["ghost"]), &p(&["d"]));
    assert!(matches!(r, Err(TxtError::FolderNotFound(_))));
    assert!(fs.is_folder(&p(&["d"])));
}

#[test]
fn create_new_rejects_occupied_or_orphan_paths() {
    let mut fs = FsState::new();
    assert!(fs.create_new_folder(&p(&["d"])).is_ok());
    let again = fs.create_new_folder(&p(&["d"]));
    assert!(matches!(again, Err(TxtError::FailedCreatingFolder(_, _))));
    let orphan = fs.create_new_file(&p(&["nowhere", "f.txt"]));
    assert!(matches!(orphan, Err(TxtError::FailedCreatingFile(_, _))));
}

#[test]
fn deletes_report_their_kinds() {
    let mut fs = FsState::new();
    assert!(fs.create_new_folder(&p(&["d"])).is_ok());
    assert!(fs.write_new_file(&p(&["f.txt"]), "x").is_ok());
    let folder_on_file = fs.delete_folder(&p(&["f.txt"]));
    assert!(matches!(folder_on_file, Err(TxtError::FailedDeletingFolder(_, _))));
    let file_on_folder = fs.delete_file(&p(&["d"]));
    assert!(matches!(file_on_folder, Err(TxtError::FailedDeletingFile(_, _))));
    assert!(fs.delete_folder(&p(&["d"])).is_ok());
    assert!(fs.delete_file(&p(&["f.txt"])).is_ok());
    assert!(!fs.node_exists(&p(&["d"])));
    assert!(!fs.node_exists(&p(&["f.txt"])));
}

#[test]
fn delete_folder_removes_the_whole_subtree() {
    let mut fs = FsState::new();
    assert!(fs.create_new_folder(&p(&["d"])).is_ok());
    assert!(fs.create_new_folder(&p(&["d", "sub"])).is_ok());
    assert!(fs.write_new_file(&p(&["d", "sub", "f.txt"]), "x").is_ok());
    assert!(fs.write_new_file(&p(&["other.txt"]), "y").is_ok());
    assert!(fs.delete_folder(&p(&["d"])).is_ok());
    assert!(!fs.node_exists(&p(&["d"])));
    assert!(!fs.node_exists(&p(&["d", "sub"])));
    assert!(!fs.node_exists(&p(&["d", "sub", "f.txt"])));
    assert!(fs.node_exists(&p(&["other.txt"])));
}

#[test]
fn write_file_needs_an_existing_file() {
    let mut fs = FsState::new();
    let r = fs.write_file(&p(&["f.txt"]), "x");
    assert!(matches!(r, Err(TxtError::FailedWritingFile(_, _))));
    assert!(fs.write_new_file(&p(&["f.txt"]), "old").is_ok());
    assert!(fs.write_file(&p(&["f.txt"]), "new").is_ok());
    let mut buf = String::new();
    assert!(fs.read_file(&mut buf, &p(&["f.txt"])).is_ok());
    assert_eq!(buf, "new");
}

#[test]
fn file_names_and_stems() {
    assert_eq!(get_whole_file_name(&p(&["dir", "archive.tar.gz"])).unwrap(), "archive.tar.gz");
    assert_eq!(get_file_stem(&p(&["dir", "archive.tar.gz"])).unwrap(), "archive.tar");
    assert_eq!(get_file_stem(&p(&[".hidden"])).unwrap(), ".hidden");
    assert_eq!(get_file_stem(&p(&["plain"])).unwrap(), "plain");
    assert_eq!(get_file_stem(&p(&["trailing."])).unwrap(), "trailing");
    let none = get_whole_file_name(&p(&[]));
    assert!(matches!(none, Err(TxtError::FailedGettingFileName(_))));
    let none_stem = get_file_stem(&p(&[]));
    assert!(matches!(none_stem, Err(TxtError::FailedGettingFileName(_))));
}

#[test]
fn path_text_joins_components() {
    assert_eq!(path_text(&p(&[])), "");
    assert_eq!(path_text(&p(&["a"])), "a");
    assert_eq!(path_text(&p(&["a", "b", "c.txt"])), "a/b/c.txt");
}
