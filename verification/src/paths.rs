//! Paths for the filesystem model: a path is an ordered list of component
//! names, rendered for diagnostics by joining the components with `/`. The
//! final component yields the whole file name and the file stem.

use vstd::prelude::*;
use crate::errors::TxtError;

verus! {

/// The rendered text of a path: its components joined with `/`.
pub open spec fn spec_path_text(p: Seq<Seq<char>>) -> Seq<char>
    decreases p.len(),
{
    if p.len() == 0 {
        Seq::empty()
    } else if p.len() == 1 {
        p[0]
    } else {
        spec_path_text(p.drop_last()) + "/"@ + p.last()
    }
}

/// Whether `p` leads to `k`: `k` begins with all of `p`'s components. A path
/// is a prefix of itself.
pub open spec fn is_path_prefix(p: Seq<Seq<char>>, k: Seq<Seq<char>>) -> bool {
    p.len() <= k.len() && p == k.subrange(0, p.len() as int)
}

/// Renders a path by joining its components with `/`.
pub fn path_text(p: &Vec<String>) -> (s: String)
    ensures
        s@ == spec_path_text(p.deep_view()),
{
    let ghost whole = p.deep_view();
    let mut s = String::new();
    let n = p.len();
    for j in 0..n
        invariant
            n == whole.len(),
            whole == p.deep_view(),
            s@ == spec_path_text(whole.subrange(0, j as int)),
    {
        if j > 0 {
            s.append("/");
        }
        s.append(p[j].as_str());
        proof {
            let pre = whole.subrange(0, j as int);
            let post = whole.subrange(0, j + 1);
            assert(post.drop_last() =~= pre);
            assert(post.last() == whole[j as int]);
            assert(s@ =~= spec_path_text(post));
        }
    }
    proof {
        assert(whole.subrange(0, n as int) =~= whole);
    }
    s
}

/// Whether two paths have the same components.
pub fn path_eq(a: &Vec<String>, b: &Vec<String>) -> (r: bool)
    ensures
        r == (a.deep_view() == b.deep_view()),
{
    if a.len() != b.len() {
        proof {
            assert(a.deep_view().len() == a@.len());
            assert(b.deep_view().len() == b@.len());
        }
        return false;
    }
    let n = a.len();
    for j in 0..n
        invariant
            n == a@.len() == b@.len(),
            forall|w: int| 0 <= w < j ==> a.deep_view()[w] == b.deep_view()[w],
    {
        if !a[j].eq(&b[j]) {
            proof {
                assert(a.deep_view()[j as int] != b.deep_view()[j as int]);
            }
            return false;
        }
    }
    proof {
        assert(a.deep_view() =~= b.deep_view());
    }
    true
}

/// Whether `p` is a prefix of `k`, component by component.
pub fn path_has_prefix(k: &Vec<String>, p: &Vec<String>) -> (r: bool)
    ensures
        r == is_path_prefix(p.deep_view(), k.deep_view()),
{
    if p.len() > k.len() {
        proof {
            assert(p.deep_view().len() == p@.len());
            assert(k.deep_view().len() == k@.len());
        }
        return false;
    }
    let n = p.len();
    for j in 0..n
        invariant
            n == p@.len() <= k@.len(),
            forall|w: int| 0 <= w < j ==> p.deep_view()[w] == k.deep_view()[w],
    {
        if !p[j].eq(&k[j]) {
            proof {
                assert(p.deep_view()[j as int] != k.deep_view().subrange(
                    0,
                    p.deep_view().len() as int,
                )[j as int]);
            }
            return false;
        }
    }
    proof {
        assert(p.deep_view() =~= k.deep_view().subrange(0, p.deep_view().len() as int));
    }
    true
}

/// Clones a path.
pub fn clone_path(p: &Vec<String>) -> (r: Vec<String>)
    ensures
        r@ == p@,
        r.deep_view() == p.deep_view(),
{
    let mut r: Vec<String> = Vec::new();
    let n = p.len();
    for j in 0..n
        invariant
            n == p@.len(),
            r@ == p@.subrange(0, j as int),
    {
        r.push(p[j].clone());
        proof {
            assert(r@ =~= p@.subrange(0, j + 1));
        }
    }
    proof {
        assert(p@.subrange(0, n as int) =~= p@);
        assert(r.deep_view() =~= p.deep_view());
    }
    r
}

/// The index of the last `.` in a name at a position in `1 ..= j`, or 0 if
/// there is none: a dot leading the name does not separate an extension.
pub open spec fn last_dot_from(name: Seq<char>, j: int) -> int
    decreases j,
{
    if j <= 0 {
        0
    } else if name[j] == '.' {
        j
    } else {
        last_dot_from(name, j - 1)
    }
}

/// The stem of a file name: the name up to its last `.`, or the whole name if
/// the only dot leads it or there is none.
pub open spec fn spec_file_stem(name: Seq<char>) -> Seq<char> {
    let d = last_dot_from(name, name.len() - 1);
    if d == 0 {
        name
    } else {
        name.subrange(0, d)
    }
}

/// The path's final component with its extension, or the extraction error for
/// a path with no component.
pub fn get_whole_file_name(file_path: &Vec<String>) -> (r: Result<String, TxtError>)
    ensures
        file_path.deep_view().len() > 0 ==> (r matches Ok(s) && s@
            == file_path.deep_view().last()),
        file_path.deep_view().len() == 0 ==> (r matches Err(e) && e matches
            TxtError::FailedGettingFileName(pt) && pt@ == spec_path_text(file_path.deep_view())),
{
    if file_path.len() == 0 {
        proof {
            assert(file_path.deep_view().len() == file_path@.len());
        }
        return Err(TxtError::FailedGettingFileName(path_text(file_path)));
    }
    Ok(file_path[file_path.len() - 1].clone())
}

/// The path's final component without its extension, or the extraction error
/// for a path with no component.
pub fn get_file_stem(file_path: &Vec<String>) -> (r: Result<String, TxtError>)
    ensures
        file_path.deep_view().len() > 0 ==> (r matches Ok(s) && s@ == spec_file_stem(
            file_path.deep_view().last(),
        )),
        file_path.deep_view().len() == 0 ==> (r matches Err(e) && e matches
            TxtError::FailedGettingFileName(pt) && pt@ == spec_path_text(file_path.deep_view())),
{
    if file_path.len() == 0 {
        proof {
            assert(file_path.deep_view().len() == file_path@.len());
        }
        return Err(TxtError::FailedGettingFileName(path_text(file_path)));
    }
    let name: &String = &file_path[file_path.len() - 1];
    let len = name.as_str().unicode_len();
    if len == 0 {
        proof {
            assert(last_dot_from(name@, -1) == 0);
        }
        return Ok(name.clone());
    }
    let mut j: usize = len - 1;
    while j > 0 && name.as_str().get_char(j) != '.'
        invariant
            len == name@.len(),
            0 < len,
            j < len,
            last_dot_from(name@, len - 1) == last_dot_from(name@, j as int),
        decreases j,
    {
        proof {
            assert(last_dot_from(name@, j as int) == last_dot_from(name@, j - 1));
        }
        j = j - 1;
    }
    proof {
        if j > 0 {
            assert(last_dot_from(name@, j as int) == j);
        }
    }
    if j == 0 {
        Ok(name.clone())
    } else {
        Ok(String::from_str(name.as_str().substring_char(0, j)))
    }
}

} // verus!
