//! The error model: a closed taxonomy of operation-failure kinds, each
//! carrying the context (path text, underlying OS error text, or argument
//! index) needed to render one human-readable diagnostic line.

use vstd::prelude::*;

verus! {

/// One failure kind of the toolkit. OS-level errors and paths are carried as
/// their rendered text, so that every variant is a plain value.
#[derive(PartialEq, Eq, Debug)]
pub enum TxtError {
    /// A required positional argument was not supplied.
    ArgNotFound(usize),
    /// Resolving the process working directory failed; carries the OS error text.
    FailedReadingCWD(String),
    /// A folder target does not exist or is a file; carries the path text.
    FolderNotFound(String),
    /// A file target does not exist or is a folder; carries the path text.
    FileNotFound(String),
    /// Listing a folder failed; carries the OS error text and the path text.
    FailedReadingFolder(String, String),
    /// Opening or reading a file failed; carries the OS error text and the path text.
    FailedReadingFile(String, String),
    /// Creating a folder failed; carries the OS error text and the path text.
    FailedCreatingFolder(String, String),
    /// Creating a file failed; carries the OS error text and the path text.
    FailedCreatingFile(String, String),
    /// Deleting a folder failed; carries the OS error text and the path text.
    FailedDeletingFolder(String, String),
    /// Deleting a file failed; carries the OS error text and the path text.
    FailedDeletingFile(String, String),
    /// Writing through an open file handle failed; carries the OS error text
    /// and a description of the handle.
    FailedWritingFile(String, String),
    /// Writing to a file named by path failed; carries the OS error text and
    /// the path text.
    FailedWritingFileFromPath(String, String),
    /// The path has no extractable final component; carries the path text.
    FailedGettingFileName(String),
}

/// The decimal digit character for a value below ten.
pub open spec fn decimal_digit(d: nat) -> char {
    if d == 0 {
        '0'
    } else if d == 1 {
        '1'
    } else if d == 2 {
        '2'
    } else if d == 3 {
        '3'
    } else if d == 4 {
        '4'
    } else if d == 5 {
        '5'
    } else if d == 6 {
        '6'
    } else if d == 7 {
        '7'
    } else if d == 8 {
        '8'
    } else {
        '9'
    }
}

/// The decimal numeral of a natural number, most significant digit first.
pub open spec fn decimal_of(n: nat) -> Seq<char>
    decreases n,
{
    if n < 10 {
        seq![decimal_digit(n)]
    } else {
        decimal_of(n / 10).push(decimal_digit(n % 10))
    }
}

fn digit_str(d: usize) -> (s: &'static str)
    requires
        d < 10,
    ensures
        s@ == seq![decimal_digit(d as nat)],
{
    let s: &'static str = if d == 0 {
        "0"
    } else if d == 1 {
        "1"
    } else if d == 2 {
        "2"
    } else if d == 3 {
        "3"
    } else if d == 4 {
        "4"
    } else if d == 5 {
        "5"
    } else if d == 6 {
        "6"
    } else if d == 7 {
        "7"
    } else if d == 8 {
        "8"
    } else {
        "9"
    };
    proof {
        reveal_strlit("0");
        reveal_strlit("1");
        reveal_strlit("2");
        reveal_strlit("3");
        reveal_strlit("4");
        reveal_strlit("5");
        reveal_strlit("6");
        reveal_strlit("7");
        reveal_strlit("8");
        reveal_strlit("9");
        assert(s@ =~= seq![decimal_digit(d as nat)]);
    }
    s
}

/// Renders a number as its decimal numeral.
pub fn usize_to_string(n: usize) -> (s: String)
    ensures
        s@ == decimal_of(n as nat),
    decreases n,
{
    if n < 10 {
        String::from_str(digit_str(n))
    } else {
        let mut s = usize_to_string(n / 10);
        s.append(digit_str(n % 10));
        proof {
            assert(s@ =~= decimal_of(n as nat));
        }
        s
    }
}

/// The diagnostic line that a failure kind renders to.
pub open spec fn spec_render(e: TxtError) -> Seq<char> {
    match e {
        TxtError::ArgNotFound(i) => "the argument at "@ + decimal_of(i as nat)
            + " is not found."@,
        TxtError::FailedReadingCWD(err) => "reading the current working directory is failed: "@
            + err@,
        TxtError::FolderNotFound(p) => "the folder at "@ + p@ + " is not found."@,
        TxtError::FileNotFound(p) => "the file at "@ + p@ + " is not found."@,
        TxtError::FailedReadingFolder(err, p) => "reading the folder at "@ + p@ + " is failed: "@
            + err@,
        TxtError::FailedReadingFile(err, p) => "reading the file at "@ + p@ + " is failed: "@
            + err@,
        TxtError::FailedCreatingFolder(err, p) => "the folder at "@ + p@ + " is not created: "@
            + err@,
        TxtError::FailedCreatingFile(err, p) => "the file at "@ + p@ + " is not created: "@ + err@,
        TxtError::FailedDeletingFolder(err, p) => "the folder at "@ + p@ + " is not deleted: "@
            + err@,
        TxtError::FailedDeletingFile(err, p) => "the file at "@ + p@ + " is not deleted: "@ + err@,
        TxtError::FailedWritingFile(err, f) => "writing to the file("@ + f@ + ") is failed: "@
            + err@,
        TxtError::FailedWritingFileFromPath(err, p) => "writing to the file at "@ + p@
            + " is failed: "@ + err@,
        TxtError::FailedGettingFileName(p) => "getting the file at "@ + p@ + " is failed"@,
    }
}

impl TxtError {
    /// Renders this error's diagnostic line, without a trailing newline.
    pub fn render(&self) -> (s: String)
        ensures
            s@ == spec_render(*self),
    {
        match self {
            TxtError::ArgNotFound(i) => {
                let mut s = String::from_str("the argument at ");
                s.append(usize_to_string(*i).as_str());
                s.append(" is not found.");
                s
            },
            TxtError::FailedReadingCWD(err) => {
                let mut s = String::from_str("reading the current working directory is failed: ");
                s.append(err.as_str());
                s
            },
            TxtError::FolderNotFound(p) => {
                let mut s = String::from_str("the folder at ");
                s.append(p.as_str());
                s.append(" is not found.");
                s
            },
            TxtError::FileNotFound(p) => {
                let mut s = String::from_str("the file at ");
                s.append(p.as_str());
                s.append(" is not found.");
                s
            },
            TxtError::FailedReadingFolder(err, p) => {
                let mut s = String::from_str("reading the folder at ");
                s.append(p.as_str());
                s.append(" is failed: ");
                s.append(err.as_str());
                s
            },
            TxtError::FailedReadingFile(err, p) => {
                let mut s = String::from_str("reading the file at ");
                s.append(p.as_str());
                s.append(" is failed: ");
                s.append(err.as_str());
                s
            },
            TxtError::FailedCreatingFolder(err, p) => {
                let mut s = String::from_str("the folder at ");
                s.append(p.as_str());
                s.append(" is not created: ");
                s.append(err.as_str());
                s
            },
            TxtError::FailedCreatingFile(err, p) => {
                let mut s = String::from_str("the file at ");
                s.append(p.as_str());
                s.append(" is not created: ");
                s.append(err.as_str());
                s
            },
            TxtError::FailedDeletingFolder(err, p) => {
                let mut s = String::from_str("the folder at ");
                s.append(p.as_str());
                s.append(" is not deleted: ");
                s.append(err.as_str());
                s
            },
            TxtError::FailedDeletingFile(err, p) => {
                let mut s = String::from_str("the file at ");
                s.append(p.as_str());
                s.append(" is not deleted: ");
                s.append(err.as_str());
                s
            },
            TxtError::FailedWritingFile(err, f) => {
                let mut s = String::from_str("writing to the file(");
                s.append(f.as_str());
                s.append(") is failed: ");
                s.append(err.as_str());
                s
            },
            TxtError::FailedWritingFileFromPath(err, p) => {
                let mut s = String::from_str("writing to the file at ");
                s.append(p.as_str());
                s.append(" is failed: ");
                s.append(err.as_str());
                s
            },
            TxtError::FailedGettingFileName(p) => {
                let mut s = String::from_str("getting the file at ");
                s.append(p.as_str());
                s.append(" is failed");
                s
            },
        }
    }
}

} // verus!
