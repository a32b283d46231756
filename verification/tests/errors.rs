use txtlib::TxtError;

#[test]
fn renders_missing_argument_with_index() {
    let e = TxtError::ArgNotFound(1);
    assert_eq!(e.render(), "the argument at 1 is not found.");
}

#[test]
fn renders_large_argument_index_in_decimal() {
    let e = TxtError::ArgNotFound(9073);
    assert_eq!(e.render(), "the argument at 9073 is not found.");
}

#[test]
fn renders_zero_argument_index() {
    let e = TxtError::ArgNotFound(0);
    assert_eq!(e.render(), "the argument at 0 is not found.");
}

#[test]
fn renders_cwd_failure_with_os_error() {
    let e = TxtError::FailedReadingCWD(String::from("permission denied"));
    assert_eq!(e.render(), "reading the current working directory is failed: permission denied");
}

#[test]
fn renders_not_found_kinds_with_path() {
    let folder = TxtError::FolderNotFound(String::from("data/in"));
    assert_eq!(folder.render(), "the folder at data/in is not found.");
    let file = TxtError::FileNotFound(String::from("data/in/a.txt"));
    assert_eq!(file.render(), "the file at data/in/a.txt is not found.");
}

#[test]
fn renders_reading_failures() {
    let folder = TxtError::FailedReadingFolder(String::from("boom"), String::from("d"));
    assert_eq!(folder.render(), "reading the folder at d is failed: boom");
    let file = TxtError::FailedReadingFile(String::from("boom"), String::from("f"));
    assert_eq!(file.render(), "reading the file at f is failed: boom");
}

#[test]
fn renders_creation_failures() {
    let folder = TxtError::FailedCreatingFolder(String::from("exists"), String::from("d"));
    assert_eq!(folder.render(), "the folder at d is not created: exists");
    let file = TxtError::FailedCreatingFile(String::from("exists"), String::from("f"));
    assert_eq!(file.render(), "the file at f is not created: exists");
}

#[test]
fn renders_deletion_failures() {
    let folder = TxtError::FailedDeletingFolder(String::from("busy"), String::from("d"));
    assert_eq!(folder.render(), "the folder at d is not deleted: busy");
    let file = TxtError::FailedDeletingFile(String::from("busy"), String::from("f"));
    assert_eq!(file.render(), "the file at f is not deleted: busy");
}

#[test]
fn renders_writing_failures() {
    let handle = TxtError::FailedWritingFile(String::from("full"), String::from("log.txt"));
    assert_eq!(handle.render(), "writing to the file(log.txt) is failed: full");
    let path = TxtError::FailedWritingFileFromPath(String::from("full"), String::from("log.txt"));
    assert_eq!(path.render(), "writing to the file at log.txt is failed: full");
}

#[test]
fn renders_name_extraction_failure() {
    let e = TxtError::FailedGettingFileName(String::from("odd"));
    assert_eq!(e.render(), "getting the file at odd is failed");
}
