//! The filesystem toolkit over an in-memory model of a file tree: a finite
//! map from paths to nodes (folders, or files with text content). Every
//! operation of the toolkit is stated and proved against that map, so the
//! not-found classification, the clean-create semantics and the recursive
//! copy are checked facts rather than conventions.

use vstd::prelude::*;
use crate::errors::TxtError;
use crate::paths::{clone_path, is_path_prefix, path_eq, path_has_prefix, path_text, spec_path_text};

verus! {

/// A node of the model filesystem.
#[derive(Debug)]
pub enum FsNode {
    Folder,
    File { content: String },
}

/// The mathematical value of a node: a folder, or a file with its text.
pub enum FsNodeV {
    Folder,
    File(Seq<char>),
}

impl View for FsNode {
    type V = FsNodeV;

    open spec fn view(&self) -> FsNodeV {
        match self {
            FsNode::Folder => FsNodeV::Folder,
            FsNode::File { content } => FsNodeV::File(content@),
        }
    }
}

/// One listing result of `get_entries`: the child's name and whether it is a
/// folder.
pub struct FsDirEntry {
    pub name: String,
    pub is_folder: bool,
}

/// The map that a sequence of path/node entries denotes.
pub open spec fn fs_map(s: Seq<(Vec<String>, FsNode)>) -> Map<Seq<Seq<char>>, FsNodeV>
    decreases s.len(),
{
    if s.len() == 0 {
        Map::empty()
    } else {
        fs_map(s.drop_last()).insert(s.last().0.deep_view(), s.last().1@)
    }
}

/// No two entries name the same path.
pub open spec fn unique_keys(s: Seq<(Vec<String>, FsNode)>) -> bool {
    forall|i: int, j: int|
        #![trigger s[i].0.deep_view(), s[j].0.deep_view()]
        0 <= i < j < s.len() ==> s[i].0.deep_view() != s[j].0.deep_view()
}

/// Well-parented: every bound path has a component, and every multi-component
/// path's parent is bound to a folder.
pub open spec fn parented(m: Map<Seq<Seq<char>>, FsNodeV>) -> bool {
    forall|k: Seq<Seq<char>>| #[trigger]
        m.contains_key(k) ==> k.len() >= 1 && (k.len() > 1 ==> m.contains_key(k.drop_last())
            && m[k.drop_last()] is Folder)
}

/// Binding a fresh path whose parent is a folder keeps a map well-parented.
proof fn lemma_parented_insert_new(m: Map<Seq<Seq<char>>, FsNodeV>, p: Seq<Seq<char>>, v: FsNodeV)
    requires
        parented(m),
        p.len() >= 1,
        !m.contains_key(p),
        p.len() > 1 ==> m.contains_key(p.drop_last()) && m[p.drop_last()] is Folder,
    ensures
        parented(m.insert(p, v)),
{
    let f = m.insert(p, v);
    assert forall|k: Seq<Seq<char>>| #[trigger] f.contains_key(k) implies k.len() >= 1 && (k.len()
        > 1 ==> f.contains_key(k.drop_last()) && f[k.drop_last()] is Folder) by {
        if k == p {
            if k.len() > 1 {
                assert(p.drop_last() != p);
            }
        } else {
            if k.len() > 1 {
                assert(m.contains_key(k.drop_last()));
                assert(k.drop_last() != p);
            }
        }
    }
}

/// Replacing a file's binding with another file keeps a map well-parented.
proof fn lemma_parented_overwrite_file(
    m: Map<Seq<Seq<char>>, FsNodeV>,
    p: Seq<Seq<char>>,
    v: FsNodeV,
)
    requires
        parented(m),
        m.contains_key(p),
        m[p] is File,
        v is File,
    ensures
        parented(m.insert(p, v)),
{
    let f = m.insert(p, v);
    assert forall|k: Seq<Seq<char>>| #[trigger] f.contains_key(k) implies k.len() >= 1 && (k.len()
        > 1 ==> f.contains_key(k.drop_last()) && f[k.drop_last()] is Folder) by {
        if k.len() > 1 {
            if k == p {
                assert(p.drop_last() != p);
            } else {
                assert(m.contains_key(k.drop_last()));
                assert(k.drop_last() != p);
            }
        }
    }
}

/// Removing a file's binding keeps a map well-parented: a file is nothing's
/// parent.
proof fn lemma_parented_remove_file(m: Map<Seq<Seq<char>>, FsNodeV>, p: Seq<Seq<char>>)
    requires
        parented(m),
        m.contains_key(p),
        m[p] is File,
    ensures
        parented(m.remove(p)),
{
    let f = m.remove(p);
    assert forall|k: Seq<Seq<char>>| #[trigger] f.contains_key(k) implies k.len() >= 1 && (k.len()
        > 1 ==> f.contains_key(k.drop_last()) && f[k.drop_last()] is Folder) by {
        if k.len() > 1 {
            assert(m.contains_key(k.drop_last()));
            assert(k.drop_last() != p);
        }
    }
}

/// Removing a whole subtree keeps a map well-parented: a kept path's parent
/// is never inside the removed subtree.
proof fn lemma_parented_remove_subtree(m: Map<Seq<Seq<char>>, FsNodeV>, p: Seq<Seq<char>>)
    requires
        parented(m),
    ensures
        parented(m.remove_keys(prefixed_by(p))),
{
    let f = m.remove_keys(prefixed_by(p));
    assert forall|k: Seq<Seq<char>>| #[trigger] f.contains_key(k) implies k.len() >= 1 && (k.len()
        > 1 ==> f.contains_key(k.drop_last()) && f[k.drop_last()] is Folder) by {
        if k.len() > 1 {
            let q = k.drop_last();
            assert(m.contains_key(q));
            if is_path_prefix(p, q) {
                assert(q.subrange(0, p.len() as int) =~= k.subrange(0, p.len() as int));
                assert(is_path_prefix(p, k));
            }
            assert(!prefixed_by(p).contains(q));
        }
    }
}

/// Under a missing path, a well-parented map holds nothing at all.
proof fn lemma_no_orphans(m: Map<Seq<Seq<char>>, FsNodeV>, p: Seq<Seq<char>>, k: Seq<Seq<char>>)
    requires
        parented(m),
        p.len() >= 1,
        !m.contains_key(p),
        is_path_prefix(p, k),
    ensures
        !m.contains_key(k),
    decreases k.len(),
{
    if k.len() == p.len() {
        assert(k =~= p);
    } else if m.contains_key(k) {
        let q = k.drop_last();
        assert(m.contains_key(q));
        assert(q =~= k.subrange(0, k.len() - 1));
        assert(q.subrange(0, p.len() as int) =~= k.subrange(0, p.len() as int));
        assert(is_path_prefix(p, q));
        lemma_no_orphans(m, p, q);
    }
}

/// The denoted map holds exactly the entries' paths, each bound to its
/// entry's node.
proof fn lemma_fs_map_keys(s: Seq<(Vec<String>, FsNode)>)
    requires
        unique_keys(s),
    ensures
        forall|k: Seq<Seq<char>>| #[trigger]
            fs_map(s).contains_key(k) ==> exists|i: int|
                0 <= i < s.len() && #[trigger] s[i].0.deep_view() == k,
        forall|i: int|
            0 <= i < s.len() ==> fs_map(s).contains_key(#[trigger] s[i].0.deep_view()) && fs_map(
                s,
            )[s[i].0.deep_view()] == s[i].1@,
    decreases s.len(),
{
    if s.len() > 0 {
        let d = s.drop_last();
        lemma_fs_map_keys(d);
        assert forall|k: Seq<Seq<char>>| #[trigger] fs_map(s).contains_key(k) implies exists|i: int|
            0 <= i < s.len() && #[trigger] s[i].0.deep_view() == k by {
            if k == s.last().0.deep_view() {
                assert(s[s.len() - 1].0.deep_view() == k);
            } else {
                assert(fs_map(d).contains_key(k));
                let i = choose|i: int| 0 <= i < d.len() && #[trigger] d[i].0.deep_view() == k;
                assert(s[i].0.deep_view() == k);
            }
        }
        assert forall|i: int| 0 <= i < s.len() implies fs_map(s).contains_key(
            #[trigger] s[i].0.deep_view(),
        ) && fs_map(s)[s[i].0.deep_view()] == s[i].1@ by {
            if i < s.len() - 1 {
                assert(d[i].0.deep_view() == s[i].0.deep_view());
                assert(s[i].0.deep_view() != s.last().0.deep_view());
            }
        }
    }
}

/// Entry sequences that agree path by path and node by node denote the same
/// map.
proof fn lemma_fs_map_congruent(s1: Seq<(Vec<String>, FsNode)>, s2: Seq<(Vec<String>, FsNode)>)
    requires
        s1.len() == s2.len(),
        forall|i: int|
            0 <= i < s1.len() ==> #[trigger] s1[i].0.deep_view() == s2[i].0.deep_view()
                && s1[i].1@ == s2[i].1@,
    ensures
        fs_map(s1) == fs_map(s2),
    decreases s1.len(),
{
    if s1.len() > 0 {
        lemma_fs_map_congruent(s1.drop_last(), s2.drop_last());
        assert(s1[s1.len() - 1].0.deep_view() == s2[s2.len() - 1].0.deep_view());
        assert(s1[s1.len() - 1].1@ == s2[s2.len() - 1].1@);
    }
}

/// Replacing the entry at `i` with one naming the same path denotes the
/// updated map.
proof fn lemma_fs_map_update(s: Seq<(Vec<String>, FsNode)>, i: int, e: (Vec<String>, FsNode))
    requires
        unique_keys(s),
        0 <= i < s.len(),
        e.0.deep_view() == s[i].0.deep_view(),
    ensures
        fs_map(s.update(i, e)) == fs_map(s).insert(e.0.deep_view(), e.1@),
        unique_keys(s.update(i, e)),
    decreases s.len(),
{
    let k = e.0.deep_view();
    let d = s.drop_last();
    let u = s.update(i, e);
    assert forall|a: int, b: int|
        #![trigger u[a].0.deep_view(), u[b].0.deep_view()]
        0 <= a < b < u.len() implies u[a].0.deep_view() != u[b].0.deep_view() by {
        assert(s[a].0.deep_view() != s[b].0.deep_view());
    }
    if i == s.len() - 1 {
        assert(u.drop_last() =~= d);
        assert(u.last() == e);
        assert(fs_map(u) == fs_map(d).insert(k, e.1@));
        assert(fs_map(s).insert(k, e.1@) =~= fs_map(d).insert(k, e.1@));
    } else {
        assert(u.drop_last() =~= d.update(i, e));
        assert(u.last() == s.last());
        assert forall|a: int, b: int|
            #![trigger d[a].0.deep_view(), d[b].0.deep_view()]
            0 <= a < b < d.len() implies d[a].0.deep_view() != d[b].0.deep_view() by {
            assert(s[a].0.deep_view() != s[b].0.deep_view());
        }
        lemma_fs_map_update(d, i, e);
        assert(s.last().0.deep_view() != k);
        assert(fs_map(u) == fs_map(d).insert(k, e.1@).insert(
            s.last().0.deep_view(),
            s.last().1@,
        ));
        assert(fs_map(d).insert(k, e.1@).insert(s.last().0.deep_view(), s.last().1@) =~= fs_map(
            d,
        ).insert(s.last().0.deep_view(), s.last().1@).insert(k, e.1@));
    }
}

/// Removing the entry at `i` denotes the map without its path.
proof fn lemma_fs_map_remove(s: Seq<(Vec<String>, FsNode)>, i: int)
    requires
        unique_keys(s),
        0 <= i < s.len(),
    ensures
        fs_map(s.remove(i)) == fs_map(s).remove(s[i].0.deep_view()),
        unique_keys(s.remove(i)),
    decreases s.len(),
{
    let k = s[i].0.deep_view();
    let d = s.drop_last();
    let u = s.remove(i);
    assert forall|a: int, b: int|
        #![trigger u[a].0.deep_view(), u[b].0.deep_view()]
        0 <= a < b < u.len() implies u[a].0.deep_view() != u[b].0.deep_view() by {
        let a0 = if a < i {
            a
        } else {
            a + 1
        };
        let b0 = if b < i {
            b
        } else {
            b + 1
        };
        assert(u[a] == s[a0]);
        assert(u[b] == s[b0]);
        assert(s[a0].0.deep_view() != s[b0].0.deep_view());
    }
    if i == s.len() - 1 {
        assert(u =~= d);
        lemma_fs_map_keys(d);
        assert(!fs_map(d).contains_key(k));
        assert(fs_map(s).remove(k) =~= fs_map(d));
    } else {
        assert(u.drop_last() =~= d.remove(i));
        assert(u.last() == s.last());
        assert forall|a: int, b: int|
            #![trigger d[a].0.deep_view(), d[b].0.deep_view()]
            0 <= a < b < d.len() implies d[a].0.deep_view() != d[b].0.deep_view() by {
            assert(s[a].0.deep_view() != s[b].0.deep_view());
        }
        lemma_fs_map_remove(d, i);
        assert(d[i] == s[i]);
        assert(fs_map(u) == fs_map(d).remove(k).insert(s.last().0.deep_view(), s.last().1@));
        assert(s.last().0.deep_view() != k);
        assert(fs_map(d).remove(k).insert(s.last().0.deep_view(), s.last().1@) =~= fs_map(
            d,
        ).insert(s.last().0.deep_view(), s.last().1@).remove(k));
    }
}

/// Clones a node.
fn clone_node(n: &FsNode) -> (r: FsNode)
    ensures
        r@ == n@,
{
    match n {
        FsNode::Folder => FsNode::Folder,
        FsNode::File { content } => FsNode::File { content: content.clone() },
    }
}

/// The path's parent: every component but the last.
fn parent_of(p: &Vec<String>) -> (r: Vec<String>)
    requires
        p@.len() >= 1,
    ensures
        r.deep_view() == p.deep_view().drop_last(),
{
    let mut r = clone_path(p);
    r.pop();
    proof {
        assert(r.deep_view() =~= p.deep_view().drop_last());
    }
    r
}

/// Whether a folder may be created at `p` in `m`: the path has a component,
/// nothing stands at it, and its parent (if it has one) is a folder.
pub open spec fn can_create_at(m: Map<Seq<Seq<char>>, FsNodeV>, p: Seq<Seq<char>>) -> bool {
    &&& p.len() >= 1
    &&& !m.contains_key(p)
    &&& (p.len() == 1 || (m.contains_key(p.drop_last()) && m[p.drop_last()] is Folder))
}

/// The diagnostic text for a failed creation at `p` in `m`.
pub open spec fn create_fail_text(m: Map<Seq<Seq<char>>, FsNodeV>, p: Seq<Seq<char>>) -> Seq<
    char,
> {
    if p.len() == 0 {
        "the path is empty"@
    } else if m.contains_key(p) {
        "a node already exists at the path"@
    } else {
        "the parent is not an existing folder"@
    }
}

/// The set of paths that `p` leads to, `p` itself among them.
pub open spec fn prefixed_by(p: Seq<Seq<char>>) -> Set<Seq<Seq<char>>> {
    Set::new(|k: Seq<Seq<char>>| is_path_prefix(p, k))
}

/// The model filesystem: a finite collection of paths, each a folder or a
/// file with text content.
pub struct FsState {
    entries: Vec<(Vec<String>, FsNode)>,
}

impl FsState {
    /// The map from paths to nodes that this state denotes.
    pub closed spec fn map(self) -> Map<Seq<Seq<char>>, FsNodeV> {
        fs_map(self.entries@)
    }

    /// No path occurs twice in the entry list.
    closed spec fn keys_ok(self) -> bool {
        unique_keys(self.entries@)
    }

    /// Well-formed: no path occurs twice, and the map is well-parented.
    pub closed spec fn wf(self) -> bool {
        self.keys_ok() && parented(self.map())
    }

    /// An empty filesystem.
    pub fn new() -> (s: FsState)
        ensures
            s.wf(),
            s.map() == Map::<Seq<Seq<char>>, FsNodeV>::empty(),
    {
        let s = FsState { entries: Vec::new() };
        proof {
            assert(s.entries@.len() == 0);
            assert(forall|k: Seq<Seq<char>>| !(#[trigger] s.map().contains_key(k)));
        }
        s
    }

    /// The index of the entry at `p`, if one stands there.
    fn find(&self, p: &Vec<String>) -> (r: Option<usize>)
        requires
            self.keys_ok(),
        ensures
            match r {
                Some(i) => i < self.entries@.len() && self.entries@[i as int].0.deep_view()
                    == p.deep_view() && self.map().contains_key(p.deep_view()) && self.map()[
                    p.deep_view()] == self.entries@[i as int].1@,
                None => !self.map().contains_key(p.deep_view()),
            },
    {
        proof {
            lemma_fs_map_keys(self.entries@);
        }
        let n = self.entries.len();
        for j in 0..n
            invariant
                n == self.entries@.len(),
                self.keys_ok(),
                forall|w: int|
                    0 <= w < j ==> #[trigger] self.entries@[w].0.deep_view() != p.deep_view(),
                forall|i: int|
                    0 <= i < n ==> self.map().contains_key(
                        #[trigger] self.entries@[i].0.deep_view(),
                    ) && self.map()[self.entries@[i].0.deep_view()] == self.entries@[i].1@,
                forall|k: Seq<Seq<char>>| #[trigger]
                    self.map().contains_key(k) ==> exists|i: int|
                        0 <= i < n && #[trigger] self.entries@[i].0.deep_view() == k,
        {
            if path_eq(&self.entries[j].0, p) {
                return Some(j);
            }
        }
        None
    }

    /// Whether any node stands at the path.
    pub fn node_exists(&self, p: &Vec<String>) -> (b: bool)
        requires
            self.wf(),
        ensures
            b == self.map().contains_key(p.deep_view()),
    {
        self.find(p).is_some()
    }

    /// Whether a folder stands at the path.
    pub fn is_folder(&self, p: &Vec<String>) -> (b: bool)
        requires
            self.wf(),
        ensures
            b == (self.map().contains_key(p.deep_view()) && self.map()[p.deep_view()] is Folder),
    {
        match self.find(p) {
            None => false,
            Some(i) => match &self.entries[i].1 {
                FsNode::Folder => true,
                FsNode::File { .. } => false,
            },
        }
    }

    /// Whether a file stands at the path.
    pub fn is_file(&self, p: &Vec<String>) -> (b: bool)
        requires
            self.wf(),
        ensures
            b == (self.map().contains_key(p.deep_view()) && self.map()[p.deep_view()] is File),
    {
        match self.find(p) {
            None => false,
            Some(i) => match &self.entries[i].1 {
                FsNode::Folder => false,
                FsNode::File { .. } => true,
            },
        }
    }

    /// Binds the path to the node, replacing whatever stood there. Only key
    /// uniqueness is kept here; each caller re-establishes well-parentedness
    /// for its own shape of change.
    fn upsert(&mut self, p: Vec<String>, node: FsNode)
        requires
            old(self).keys_ok(),
        ensures
            final(self).keys_ok(),
            final(self).map() == old(self).map().insert(p.deep_view(), node@),
    {
        let found = self.find(&p);
        match found {
            Some(i) => {
                proof {
                    lemma_fs_map_update(self.entries@, i as int, (p, node));
                }
                self.entries[i] = (p, node);
            },
            None => {
                proof {
                    lemma_fs_map_keys(self.entries@);
                    let s = self.entries@;
                    let e = (p, node);
                    assert(s.push(e).drop_last() =~= s);
                    assert forall|a: int, b: int|
                        #![trigger s.push(e)[a].0.deep_view(), s.push(e)[b].0.deep_view()]
                        0 <= a < b < s.push(e).len() implies s.push(e)[a].0.deep_view() != s.push(
                        e,
                    )[b].0.deep_view() by {
                        if b < s.len() {
                            assert(s[a].0.deep_view() != s[b].0.deep_view());
                        } else {
                            assert(s.push(e)[b] == e);
                            assert(s.push(e)[a] == s[a]);
                        }
                    }
                }
                self.entries.push((p, node));
            },
        }
    }

    /// Creates a folder at a path where nothing stands yet. Fails exactly
    /// when the path is empty, something already stands there, or the parent
    /// is not an existing folder; on failure nothing changes.
    pub fn create_new_folder(&mut self, file_path: &Vec<String>) -> (r: Result<(), TxtError>)
        requires
            old(self).wf(),
        ensures
            final(self).wf(),
            r is Ok <==> can_create_at(old(self).map(), file_path.deep_view()),
            r is Ok ==> final(self).map() == old(self).map().insert(
                file_path.deep_view(),
                FsNodeV::Folder,
            ),
            r is Err ==> final(self).map() == old(self).map(),
            r matches Err(e) ==> (e matches TxtError::FailedCreatingFolder(msg, pt) && pt@
                == spec_path_text(file_path.deep_view()) && msg@ == create_fail_text(
                old(self).map(),
                file_path.deep_view(),
            )),
    {
        match self.check_create(file_path) {
            Err(msg) => Err(TxtError::FailedCreatingFolder(msg, path_text(file_path))),
            Ok(()) => {
                self.upsert(clone_path(file_path), FsNode::Folder);
                proof {
                    lemma_parented_insert_new(
                        old(self).map(),
                        file_path.deep_view(),
                        FsNodeV::Folder,
                    );
                }
                Ok(())
            },
        }
    }

    /// Creates an empty file at a path where nothing stands yet. Fails
    /// exactly when the path is empty, something already stands there, or the
    /// parent is not an existing folder; on failure nothing changes.
    pub fn create_new_file(&mut self, file_path: &Vec<String>) -> (r: Result<(), TxtError>)
        requires
            old(self).wf(),
        ensures
            final(self).wf(),
            r is Ok <==> can_create_at(old(self).map(), file_path.deep_view()),
            r is Ok ==> final(self).map() == old(self).map().insert(
                file_path.deep_view(),
                FsNodeV::File(Seq::empty()),
            ),
            r is Err ==> final(self).map() == old(self).map(),
            r matches Err(e) ==> (e matches TxtError::FailedCreatingFile(msg, pt) && pt@
                == spec_path_text(file_path.deep_view()) && msg@ == create_fail_text(
                old(self).map(),
                file_path.deep_view(),
            )),
    {
        match self.check_create(file_path) {
            Err(msg) => Err(TxtError::FailedCreatingFile(msg, path_text(file_path))),
            Ok(()) => {
                self.upsert(clone_path(file_path), FsNode::File { content: String::new() });
                proof {
                    lemma_parented_insert_new(
                        old(self).map(),
                        file_path.deep_view(),
                        FsNodeV::File(Seq::empty()),
                    );
                }
                Ok(())
            },
        }
    }

    /// Tests whether a node may be created at the path, and renders the
    /// failure text when it may not.
    fn check_create(&self, file_path: &Vec<String>) -> (r: Result<(), String>)
        requires
            self.wf(),
        ensures
            r is Ok <==> can_create_at(self.map(), file_path.deep_view()),
            r matches Err(msg) ==> msg@ == create_fail_text(self.map(), file_path.deep_view()),
    {
        proof {
            assert(file_path.deep_view().len() == file_path@.len());
        }
        if file_path.len() == 0 {
            return Err(String::from_str("the path is empty"));
        }
        if self.node_exists(file_path) {
            return Err(String::from_str("a node already exists at the path"));
        }
        if file_path.len() > 1 {
            let parent = parent_of(file_path);
            if !self.is_folder(&parent) {
                return Err(String::from_str("the parent is not an existing folder"));
            }
        }
        Ok(())
    }

    /// Deletes the file at the path. Fails exactly when no file stands there;
    /// on failure nothing changes.
    pub fn delete_file(&mut self, file_path: &Vec<String>) -> (r: Result<(), TxtError>)
        requires
            old(self).wf(),
        ensures
            final(self).wf(),
            r is Ok <==> (old(self).map().contains_key(file_path.deep_view()) && old(self).map()[
                file_path.deep_view()] is File),
            r is Ok ==> final(self).map() == old(self).map().remove(file_path.deep_view()),
            r is Err ==> final(self).map() == old(self).map(),
            r matches Err(e) ==> (e matches TxtError::FailedDeletingFile(msg, pt) && pt@
                == spec_path_text(file_path.deep_view()) && msg@
                == "no file exists at the path"@),
    {
        let found = self.find(file_path);
        match found {
            Some(i) => {
                let is_file = match &self.entries[i].1 {
                    FsNode::File { .. } => true,
                    FsNode::Folder => false,
                };
                if is_file {
                    proof {
                        lemma_fs_map_remove(self.entries@, i as int);
                        lemma_parented_remove_file(old(self).map(), file_path.deep_view());
                    }
                    self.entries.remove(i);
                    Ok(())
                } else {
                    Err(
                        TxtError::FailedDeletingFile(
                            String::from_str("no file exists at the path"),
                            path_text(file_path),
                        ),
                    )
                }
            },
            None => Err(
                TxtError::FailedDeletingFile(
                    String::from_str("no file exists at the path"),
                    path_text(file_path),
                ),
            ),
        }
    }

    /// Deletes the folder at the path together with everything under it.
    /// Fails exactly when no folder stands there; on failure nothing changes.
    pub fn delete_folder(&mut self, folder_path: &Vec<String>) -> (r: Result<(), TxtError>)
        requires
            old(self).wf(),
        ensures
            final(self).wf(),
            r is Ok <==> (old(self).map().contains_key(folder_path.deep_view()) && old(
                self,
            ).map()[folder_path.deep_view()] is Folder),
            r is Ok ==> final(self).map() == old(self).map().remove_keys(
                prefixed_by(folder_path.deep_view()),
            ),
            r is Err ==> final(self).map() == old(self).map(),
            r matches Err(e) ==> (e matches TxtError::FailedDeletingFolder(msg, pt) && pt@
                == spec_path_text(folder_path.deep_view()) && msg@
                == "no folder exists at the path"@),
    {
        if !self.is_folder(folder_path) {
            return Err(
                TxtError::FailedDeletingFolder(
                    String::from_str("no folder exists at the path"),
                    path_text(folder_path),
                ),
            );
        }
        let ghost s = self.entries@;
        let ghost pref = prefixed_by(folder_path.deep_view());
        let mut kept: Vec<(Vec<String>, FsNode)> = Vec::new();
        let n = self.entries.len();
        for j in 0..n
            invariant
                n == s.len(),
                s == self.entries@,
                unique_keys(s),
                unique_keys(kept@),
                pref == prefixed_by(folder_path.deep_view()),
                fs_map(kept@) == fs_map(s.subrange(0, j as int)).remove_keys(pref),
                forall|w: int|
                    0 <= w < kept@.len() ==> fs_map(s.subrange(0, j as int)).contains_key(
                        #[trigger] kept@[w].0.deep_view(),
                    ),
        {
            let ghost spre = s.subrange(0, j as int);
            let ghost spost = s.subrange(0, j + 1);
            proof {
                assert(spost.drop_last() =~= spre);
                assert(spost.last() == s[j as int]);
                assert forall|a: int, b: int|
                    #![trigger spre[a].0.deep_view(), spre[b].0.deep_view()]
                    0 <= a < b < spre.len() implies spre[a].0.deep_view()
                    != spre[b].0.deep_view() by {
                    assert(s[a].0.deep_view() != s[b].0.deep_view());
                }
                lemma_fs_map_keys(spre);
            }
            if path_has_prefix(&self.entries[j].0, folder_path) {
                proof {
                    assert(pref.contains(s[j as int].0.deep_view()));
                    assert(fs_map(spost).remove_keys(pref) =~= fs_map(spre).remove_keys(pref));
                }
            } else {
                let e = (clone_path(&self.entries[j].0), clone_node(&self.entries[j].1));
                proof {
                    let k = s[j as int].0.deep_view();
                    assert(!pref.contains(k));
                    assert forall|w: int| 0 <= w < kept@.len() implies #[trigger] kept@[w].0.deep_view()
                        != k by {
                        if kept@[w].0.deep_view() == k {
                            let i0 = choose|i0: int|
                                0 <= i0 < spre.len() && #[trigger] spre[i0].0.deep_view() == k;
                            assert(s[i0].0.deep_view() == s[j as int].0.deep_view());
                        }
                    }
                    let kp = kept@.push(e);
                    assert(kp.drop_last() =~= kept@);
                    assert forall|a: int, b: int|
                        #![trigger kp[a].0.deep_view(), kp[b].0.deep_view()]
                        0 <= a < b < kp.len() implies kp[a].0.deep_view()
                        != kp[b].0.deep_view() by {
                        if b < kept@.len() {
                            assert(kept@[a].0.deep_view() != kept@[b].0.deep_view());
                        } else {
                            assert(kp[b].0.deep_view() == k);
                            assert(kp[a] == kept@[a]);
                        }
                    }
                    assert(fs_map(kp) == fs_map(kept@).insert(k, e.1@));
                    assert(fs_map(spost).remove_keys(pref) =~= fs_map(spre).remove_keys(
                        pref,
                    ).insert(k, s[j as int].1@));
                }
                kept.push(e);
            }
            proof {
                assert forall|w: int| 0 <= w < kept@.len() implies fs_map(spost).contains_key(
                    #[trigger] kept@[w].0.deep_view(),
                ) by {
                    assert(fs_map(spost) == fs_map(spre).insert(
                        s[j as int].0.deep_view(),
                        s[j as int].1@,
                    ));
                }
            }
        }
        proof {
            assert(s.subrange(0, n as int) =~= s);
            lemma_parented_remove_subtree(old(self).map(), folder_path.deep_view());
        }
        self.entries = kept;
        Ok(())
    }

    /// Deletes the folder at the path first if one stands there, then creates
    /// a fresh folder. A file at the path is not cleaned away: creation then
    /// fails as it would for any occupied path. On failure the folder at the
    /// path, if one stood there, is already gone.
    pub fn create_clean_folder(&mut self, folder_path: &Vec<String>) -> (r: Result<(), TxtError>)
        requires
            old(self).wf(),
        ensures
            final(self).wf(),
            r is Ok <==> clean_folder_ok(old(self).map(), folder_path.deep_view()),
            r is Ok ==> final(self).map() == clean_folder_result(
                old(self).map(),
                folder_path.deep_view(),
            ),
            r is Err ==> final(self).map() == clean_folder_partial(
                old(self).map(),
                folder_path.deep_view(),
            ),
            r matches Err(e) ==> (e matches TxtError::FailedCreatingFolder(msg, pt) && pt@
                == spec_path_text(folder_path.deep_view()) && msg@ == create_fail_text(
                clean_folder_partial(old(self).map(), folder_path.deep_view()),
                folder_path.deep_view(),
            )),
    {
        if self.node_exists(folder_path) && self.is_folder(folder_path) {
            let deleted = self.delete_folder(folder_path);
            proof {
                assert(deleted is Ok);
            }
        }
        let r = self.create_new_folder(folder_path);
        proof {
            let p = folder_path.deep_view();
            assert(p.subrange(0, p.len() as int) =~= p);
            assert(is_path_prefix(p, p));
            if p.len() > 1 {
                assert(!is_path_prefix(p, p.drop_last()));
            }
        }
        r
    }

    /// Deletes the file at the path first if one stands there, then creates a
    /// fresh empty file. A folder at the path is not cleaned away: creation
    /// then fails as it would for any occupied path. On failure the file at
    /// the path, if one stood there, is already gone.
    pub fn create_clean_file(&mut self, file_path: &Vec<String>) -> (r: Result<(), TxtError>)
        requires
            old(self).wf(),
        ensures
            final(self).wf(),
            r is Ok <==> clean_file_ok(old(self).map(), file_path.deep_view()),
            r is Ok ==> final(self).map() == old(self).map().insert(
                file_path.deep_view(),
                FsNodeV::File(Seq::empty()),
            ),
            r is Err ==> final(self).map() == clean_file_partial(
                old(self).map(),
                file_path.deep_view(),
            ),
            r matches Err(e) ==> (e matches TxtError::FailedCreatingFile(msg, pt) && pt@
                == spec_path_text(file_path.deep_view()) && msg@ == create_fail_text(
                clean_file_partial(old(self).map(), file_path.deep_view()),
                file_path.deep_view(),
            )),
    {
        if self.node_exists(file_path) && self.is_file(file_path) {
            let deleted = self.delete_file(file_path);
            proof {
                assert(deleted is Ok);
            }
        }
        let r = self.create_new_file(file_path);
        proof {
            let p = file_path.deep_view();
            let m = old(self).map();
            if r is Ok && m.contains_key(p) && m[p] is File {
                assert(m.remove(p).insert(p, FsNodeV::File(Seq::empty())) =~= m.insert(
                    p,
                    FsNodeV::File(Seq::empty()),
                ));
            }
        }
        r
    }

    /// Creates a clean file at the path and fills it with the given text.
    pub fn write_new_file(&mut self, file_path: &Vec<String>, content: &str) -> (r: Result<
        (),
        TxtError,
    >)
        requires
            old(self).wf(),
        ensures
            final(self).wf(),
            r is Ok <==> clean_file_ok(old(self).map(), file_path.deep_view()),
            r is Ok ==> final(self).map() == old(self).map().insert(
                file_path.deep_view(),
                FsNodeV::File(content@),
            ),
            r is Err ==> final(self).map() == clean_file_partial(
                old(self).map(),
                file_path.deep_view(),
            ),
            r matches Err(e) ==> (e matches TxtError::FailedCreatingFile(msg, pt) && pt@
                == spec_path_text(file_path.deep_view()) && msg@ == create_fail_text(
                clean_file_partial(old(self).map(), file_path.deep_view()),
                file_path.deep_view(),
            )),
    {
        match self.create_clean_file(file_path) {
            Err(e) => Err(e),
            Ok(()) => {
                self.upsert(
                    clone_path(file_path),
                    FsNode::File { content: String::from_str(content) },
                );
                proof {
                    let p = file_path.deep_view();
                    assert(old(self).map().insert(p, FsNodeV::File(Seq::empty())).insert(
                        p,
                        FsNodeV::File(content@),
                    ) =~= old(self).map().insert(p, FsNodeV::File(content@)));
                    lemma_parented_overwrite_file(
                        old(self).map().insert(p, FsNodeV::File(Seq::empty())),
                        p,
                        FsNodeV::File(content@),
                    );
                }
                Ok(())
            },
        }
    }

    /// Replaces the content of the file at the path, standing in for a write
    /// through an already-open handle. Fails exactly when no file stands at
    /// the path; on failure nothing changes.
    pub fn write_file(&mut self, file_path: &Vec<String>, content: &str) -> (r: Result<
        (),
        TxtError,
    >)
        requires
            old(self).wf(),
        ensures
            final(self).wf(),
            r is Ok <==> (old(self).map().contains_key(file_path.deep_view()) && old(self).map()[
                file_path.deep_view()] is File),
            r is Ok ==> final(self).map() == old(self).map().insert(
                file_path.deep_view(),
                FsNodeV::File(content@),
            ),
            r is Err ==> final(self).map() == old(self).map(),
            r matches Err(e) ==> (e matches TxtError::FailedWritingFile(msg, ft) && ft@
                == spec_path_text(file_path.deep_view()) && msg@
                == "no file exists at the path"@),
    {
        if self.is_file(file_path) {
            self.upsert(clone_path(file_path), FsNode::File { content: String::from_str(content) });
            proof {
                lemma_parented_overwrite_file(
                    old(self).map(),
                    file_path.deep_view(),
                    FsNodeV::File(content@),
                );
            }
            Ok(())
        } else {
            Err(
                TxtError::FailedWritingFile(
                    String::from_str("no file exists at the path"),
                    path_text(file_path),
                ),
            )
        }
    }

    /// Appends the text of the file at the path to the buffer. Fails with the
    /// file-not-found kind exactly when the path names no node or names a
    /// folder; on failure the buffer is unchanged.
    pub fn read_file(&self, buf: &mut String, file_path: &Vec<String>) -> (r: Result<(), TxtError>)
        requires
            self.wf(),
        ensures
            r is Ok <==> (self.map().contains_key(file_path.deep_view()) && self.map()[
                file_path.deep_view()] is File),
            r is Ok ==> (self.map()[file_path.deep_view()] matches FsNodeV::File(c)
                && final(buf)@ == old(buf)@ + c),
            r is Err ==> final(buf)@ == old(buf)@,
            r matches Err(e) ==> (e matches TxtError::FileNotFound(pt) && pt@ == spec_path_text(
                file_path.deep_view(),
            )),
    {
        let found = self.find(file_path);
        match found {
            Some(i) => match &self.entries[i].1 {
                FsNode::File { content } => {
                    buf.append(content.as_str());
                    Ok(())
                },
                FsNode::Folder => Err(TxtError::FileNotFound(path_text(file_path))),
            },
            None => Err(TxtError::FileNotFound(path_text(file_path))),
        }
    }

    /// Lists the children of the folder at the path: each child's name and
    /// kind, each child exactly once. Fails with the folder-not-found kind
    /// exactly when the path names no node or names a file.
    pub fn get_entries(&self, folder_path: &Vec<String>) -> (r: Result<Vec<FsDirEntry>, TxtError>)
        requires
            self.wf(),
        ensures
            r is Ok <==> (self.map().contains_key(folder_path.deep_view()) && self.map()[
                folder_path.deep_view()] is Folder),
            r matches Err(e) ==> (e matches TxtError::FolderNotFound(pt) && pt@ == spec_path_text(
                folder_path.deep_view(),
            )),
            r matches Ok(v) ==> {
                let p = folder_path.deep_view();
                &&& forall|w: int|
                    0 <= w < v@.len() ==> self.map().contains_key(#[trigger] p.push(v@[w].name@))
                        && (v@[w].is_folder <==> self.map()[p.push(v@[w].name@)] is Folder)
                &&& forall|k: Seq<Seq<char>>|
                    (#[trigger] self.map().contains_key(k) && k.len() == p.len() + 1
                        && is_path_prefix(p, k)) ==> exists|w: int|
                        0 <= w < v@.len() && #[trigger] v@[w].name@ == k.last()
                &&& forall|w1: int, w2: int|
                    #![trigger v@[w1].name@, v@[w2].name@]
                    0 <= w1 < w2 < v@.len() ==> v@[w1].name@ != v@[w2].name@
            },
    {
        if !self.is_folder(folder_path) {
            return Err(TxtError::FolderNotFound(path_text(folder_path)));
        }
        proof {
            lemma_fs_map_keys(self.entries@);
        }
        let ghost p = folder_path.deep_view();
        let ghost s = self.entries@;
        let mut v: Vec<FsDirEntry> = Vec::new();
        let n = self.entries.len();
        for j in 0..n
            invariant
                n == s.len(),
                s == self.entries@,
                self.wf(),
                p == folder_path.deep_view(),
                forall|i: int|
                    0 <= i < n ==> self.map().contains_key(#[trigger] s[i].0.deep_view())
                        && self.map()[s[i].0.deep_view()] == s[i].1@,
                forall|k: Seq<Seq<char>>| #[trigger]
                    self.map().contains_key(k) ==> exists|i: int|
                        0 <= i < n && #[trigger] s[i].0.deep_view() == k,
                forall|w: int|
                    0 <= w < v@.len() ==> self.map().contains_key(#[trigger] p.push(v@[w].name@))
                        && (v@[w].is_folder <==> self.map()[p.push(v@[w].name@)] is Folder),
                forall|i: int|
                    0 <= i < j && (#[trigger] s[i].0.deep_view().len() == p.len() + 1)
                        && is_path_prefix(p, s[i].0.deep_view()) ==> exists|w: int|
                        0 <= w < v@.len() && #[trigger] v@[w].name@ == s[i].0.deep_view().last(),
                forall|w: int|
                    0 <= w < v@.len() ==> exists|i: int|
                        0 <= i < j && #[trigger] s[i].0.deep_view() == p.push(
                            #[trigger] v@[w].name@,
                        ),
                forall|w1: int, w2: int|
                    #![trigger v@[w1].name@, v@[w2].name@]
                    0 <= w1 < w2 < v@.len() ==> v@[w1].name@ != v@[w2].name@,
        {
            proof {
                assert(s[j as int].0.deep_view().len() == s[j as int].0@.len());
                assert(p.len() == folder_path@.len());
            }
            let klen = self.entries[j].0.len();
            if klen >= 1 && klen - 1 == folder_path.len() && path_has_prefix(
                &self.entries[j].0,
                folder_path,
            ) {
                let ghost k = s[j as int].0.deep_view();
                proof {
                    assert(k.len() == s[j as int].0@.len());
                    assert(p.len() == folder_path@.len());
                    assert(k =~= p.push(k.last()));
                    assert forall|w: int| 0 <= w < v@.len() implies #[trigger] v@[w].name@
                        != k.last() by {
                        if v@[w].name@ == k.last() {
                            let i0 = choose|i0: int|
                                0 <= i0 < j && #[trigger] s[i0].0.deep_view() == p.push(
                                    v@[w].name@,
                                );
                            assert(s[i0].0.deep_view() == s[j as int].0.deep_view());
                        }
                    }
                }
                let name = self.entries[j].0[klen - 1].clone();
                let is_folder = match &self.entries[j].1 {
                    FsNode::Folder => true,
                    FsNode::File { .. } => false,
                };
                let entry = FsDirEntry { name, is_folder };
                proof {
                    assert(self.map()[k] == s[j as int].1@);
                    assert(entry.name@ == k.last());
                }
                let ghost oldv = v@;
                v.push(entry);
                proof {
                    assert(v@[v@.len() - 1].name@ == k.last());
                    assert(s[j as int].0.deep_view() == p.push(v@[v@.len() - 1].name@));
                    assert forall|i: int|
                        0 <= i < j && (#[trigger] s[i].0.deep_view().len() == p.len() + 1)
                            && is_path_prefix(p, s[i].0.deep_view()) implies exists|w: int|
                        0 <= w < v@.len() && #[trigger] v@[w].name@
                            == s[i].0.deep_view().last() by {
                        let w0 = choose|w0: int|
                            0 <= w0 < oldv.len() && #[trigger] oldv[w0].name@
                                == s[i].0.deep_view().last();
                        assert(v@[w0].name@ == s[i].0.deep_view().last());
                    }
                }
            }
        }
        proof {
            assert forall|k: Seq<Seq<char>>|
                (#[trigger] self.map().contains_key(k) && k.len() == p.len() + 1
                    && is_path_prefix(p, k)) implies exists|w: int|
                0 <= w < v@.len() && #[trigger] v@[w].name@ == k.last() by {
                let i0 = choose|i0: int| 0 <= i0 < n && #[trigger] s[i0].0.deep_view() == k;
                assert(s[i0].0.deep_view().len() == p.len() + 1);
            }
        }
        Ok(v)
    }

    /// A copy of the entry list, path by path and node by node.
    fn clone_entries(&self) -> (r: Vec<(Vec<String>, FsNode)>)
        ensures
            r@.len() == self.entries@.len(),
            forall|i: int|
                0 <= i < r@.len() ==> #[trigger] r@[i].0.deep_view()
                    == self.entries@[i].0.deep_view(),
            forall|i: int| 0 <= i < r@.len() ==> #[trigger] r@[i].1@ == self.entries@[i].1@,
    {
        let mut r: Vec<(Vec<String>, FsNode)> = Vec::new();
        let n = self.entries.len();
        for j in 0..n
            invariant
                n == self.entries@.len(),
                r@.len() == j,
                forall|i: int|
                    0 <= i < j ==> #[trigger] r@[i].0.deep_view()
                        == self.entries@[i].0.deep_view(),
                forall|i: int| 0 <= i < j ==> #[trigger] r@[i].1@ == self.entries@[i].1@,
        {
            let e = (clone_path(&self.entries[j].0), clone_node(&self.entries[j].1));
            proof {
                assert(e.0.deep_view() == self.entries@[j as int].0.deep_view());
                assert(e.1@ == self.entries@[j as int].1@);
            }
            let ghost rpre = r@;
            r.push(e);
            proof {
                assert forall|i: int| 0 <= i < j + 1 implies #[trigger] r@[i].0.deep_view()
                    == self.entries@[i].0.deep_view() && #[trigger] r@[i].1@
                    == self.entries@[i].1@ by {
                    if i < j {
                        assert(r@[i] == rpre[i]);
                        assert(rpre[i].0.deep_view() == self.entries@[i].0.deep_view());
                        assert(rpre[i].1@ == self.entries@[i].1@);
                    } else {
                        assert(r@[i] == e);
                    }
                }
            }
        }
        r
    }

    /// Creates the folder chain down to `des`: every nonempty leading prefix
    /// that names nothing becomes a folder. A file standing in the chain
    /// would make the chain impossible, so those inputs are left out.
    fn create_dir_all(&mut self, des: &Vec<String>)
        requires
            old(self).wf(),
            create_all_ok(old(self).map(), des.deep_view()),
        ensures
            final(self).wf(),
            final(self).map() == create_all_result(old(self).map(), des.deep_view()),
    {
        let ghost m0 = old(self).map();
        let ghost desv = des.deep_view();
        let mut cur: Vec<String> = Vec::new();
        let n = des.len();
        proof {
            assert(desv.len() == des@.len());
            assert(cur.deep_view() =~= desv.subrange(0, 0));
        }
        for l in 0..n
            invariant
                n == desv.len(),
                desv == des.deep_view(),
                cur.deep_view() == desv.subrange(0, l as int),
                self.keys_ok(),
                self.map() == create_all_result(m0, desv.subrange(0, l as int)),
        {
            cur.push(des[l].clone());
            proof {
                assert(cur.deep_view() =~= desv.subrange(0, l + 1));
                assert(desv.subrange(0, l + 1).drop_last() =~= desv.subrange(0, l as int));
            }
            if self.find(&cur).is_none() {
                self.upsert(clone_path(&cur), FsNode::Folder);
            }
        }
        proof {
            assert(desv.subrange(0, n as int) =~= desv);
            lemma_parented_create_all(m0, desv);
        }
    }

    /// Copies the folder tree at `src` into `des`: first the folder chain
    /// down to `des` is created, then every node under `src` is carried to
    /// the same relative path under `des`, folders and file text alike. Fails
    /// with the folder-not-found kind exactly when, the chain once created,
    /// no folder stands at `src`; the chain then remains. A file standing in
    /// the destination chain, or a folder carried onto a file (and the other
    /// way round), would make the copy impossible, so those inputs are left
    /// out.
    pub fn copy_all_folder(&mut self, src: &Vec<String>, des: &Vec<String>) -> (r: Result<
        (),
        TxtError,
    >)
        requires
            old(self).wf(),
            create_all_ok(old(self).map(), des.deep_view()),
            copy_kinds_agree(
                create_all_result(old(self).map(), des.deep_view()),
                src.deep_view(),
                des.deep_view(),
            ),
        ensures
            final(self).wf(),
            ({
                let m1 = create_all_result(old(self).map(), des.deep_view());
                &&& (r is Ok <==> (m1.contains_key(src.deep_view())
                    && m1[src.deep_view()] is Folder))
                &&& (r is Ok ==> final(self).map() == copied_into(
                    m1,
                    src.deep_view(),
                    des.deep_view(),
                ))
                &&& (r is Err ==> final(self).map() == m1)
            }),
            r matches Err(e) ==> (e matches TxtError::FolderNotFound(pt) && pt@ == spec_path_text(
                src.deep_view(),
            )),
    {
        let ghost srcv = src.deep_view();
        let ghost desv = des.deep_view();
        self.create_dir_all(des);
        if !self.is_folder(src) {
            return Err(TxtError::FolderNotFound(path_text(src)));
        }
        let ghost m1 = self.map();
        let snap = self.clone_entries();
        let ghost snapg = snap@;
        proof {
            assert forall|a: int, b: int|
                #![trigger snapg[a].0.deep_view(), snapg[b].0.deep_view()]
                0 <= a < b < snapg.len() implies snapg[a].0.deep_view()
                != snapg[b].0.deep_view() by {
                assert(self.entries@[a].0.deep_view() != self.entries@[b].0.deep_view());
            }
            lemma_fs_map_congruent(snapg, self.entries@);
            lemma_fs_map_keys(snapg);
            assert(copied_upto(m1, snapg, 0, srcv, desv) =~= m1);
        }
        let nn = snap.len();
        for j in 0..nn
            invariant
                self.keys_ok(),
                nn == snapg.len(),
                snapg == snap@,
                srcv == src.deep_view(),
                desv == des.deep_view(),
                srcv.len() == src@.len(),
                forall|i: int|
                    0 <= i < nn ==> m1.contains_key(#[trigger] snapg[i].0.deep_view()) && m1[
                        snapg[i].0.deep_view()] == snapg[i].1@,
                forall|k: Seq<Seq<char>>| #[trigger]
                    m1.contains_key(k) ==> exists|i: int|
                        0 <= i < nn && #[trigger] snapg[i].0.deep_view() == k,
                self.map() == copied_upto(m1, snapg, j as int, srcv, desv),
        {
            let klen = snap[j].0.len();
            proof {
                assert(snapg[j as int].0.deep_view().len() == snapg[j as int].0@.len());
            }
            if klen > src.len() && path_has_prefix(&snap[j].0, src) {
                let dest_path = rebase(des, &snap[j].0, src.len());
                let node = clone_node(&snap[j].1);
                let ghost kk = snapg[j as int].0.deep_view();
                let ghost tail = kk.skip(srcv.len() as int);
                let ghost dd = desv + tail;
                proof {
                    assert(srcv + tail =~= kk);
                    assert(dd.subrange(0, desv.len() as int) =~= desv);
                    assert(dd.skip(desv.len() as int) =~= tail);
                    assert(is_path_prefix(desv, dd));
                    assert(dd.len() > desv.len());
                    assert(dest_path.deep_view() == dd);
                    assert(node@ == m1[kk]);
                }
                self.upsert(dest_path, node);
                proof {
                    let before = copied_upto(m1, snapg, j as int, srcv, desv);
                    let after = copied_upto(m1, snapg, j + 1, srcv, desv);
                    assert(self.map() == before.insert(dd, m1[kk]));
                    assert forall|k: Seq<Seq<char>>|
                        is_path_prefix(desv, k) && k.len() > desv.len() && (exists|w: int|
                            0 <= w < j + 1 && #[trigger] snapg[w].0.deep_view() == srcv + k.skip(
                                desv.len() as int,
                            )) && k != dd implies (exists|w: int|
                        0 <= w < j && #[trigger] snapg[w].0.deep_view() == srcv + k.skip(
                            desv.len() as int,
                        )) by {
                        let w0 = choose|w0: int|
                            0 <= w0 < j + 1 && #[trigger] snapg[w0].0.deep_view() == srcv + k.skip(
                                desv.len() as int,
                            );
                        if w0 == j {
                            assert(kk == srcv + k.skip(desv.len() as int));
                            assert(k.skip(desv.len() as int) =~= kk.skip(srcv.len() as int));
                            assert(k =~= dd);
                        }
                    }
                    assert(self.map() =~= after);
                }
            } else {
                proof {
                    assert forall|k: Seq<Seq<char>>|
                        is_path_prefix(desv, k) && k.len() > desv.len() && (exists|w: int|
                            0 <= w < j + 1 && #[trigger] snapg[w].0.deep_view() == srcv + k.skip(
                                desv.len() as int,
                            )) implies (exists|w: int|
                        0 <= w < j && #[trigger] snapg[w].0.deep_view() == srcv + k.skip(
                            desv.len() as int,
                        )) by {
                        let w0 = choose|w0: int|
                            0 <= w0 < j + 1 && #[trigger] snapg[w0].0.deep_view() == srcv + k.skip(
                                desv.len() as int,
                            );
                        if w0 == j {
                            let tail = k.skip(desv.len() as int);
                            assert(snapg[j as int].0.deep_view() == srcv + tail);
                            assert((srcv + tail).subrange(0, srcv.len() as int) =~= srcv);
                            assert((srcv + tail).len() > srcv.len());
                        }
                    }
                    assert(self.map() =~= copied_upto(m1, snapg, j + 1, srcv, desv));
                }
            }
        }
        proof {
            let done = copied_upto(m1, snapg, nn as int, srcv, desv);
            assert forall|k: Seq<Seq<char>>|
                is_path_prefix(desv, k) && k.len() > desv.len() implies ((exists|w: int|
                    0 <= w < nn && #[trigger] snapg[w].0.deep_view() == srcv + k.skip(
                        desv.len() as int,
                    )) <==> m1.contains_key(srcv + k.skip(desv.len() as int))) by {
                if exists|w: int|
                    0 <= w < nn && #[trigger] snapg[w].0.deep_view() == srcv + k.skip(
                        desv.len() as int,
                    ) {
                    let w0 = choose|w0: int|
                        0 <= w0 < nn && #[trigger] snapg[w0].0.deep_view() == srcv + k.skip(
                            desv.len() as int,
                        );
                    assert(m1.contains_key(snapg[w0].0.deep_view()));
                }
            }
            assert(done =~= copied_into(m1, srcv, desv));
            if desv.len() >= 1 {
                lemma_create_all_des(old(self).map(), desv);
            }
            lemma_parented_copied_into(m1, srcv, desv);
        }
        Ok(())
    }
}

/// Appends to `des` the components of `k` past the first `cut`.
fn rebase(des: &Vec<String>, k: &Vec<String>, cut: usize) -> (r: Vec<String>)
    requires
        cut <= k@.len(),
    ensures
        r.deep_view() == des.deep_view() + k.deep_view().skip(cut as int),
{
    let mut r = clone_path(des);
    let n = k.len();
    proof {
        assert(k.deep_view().len() == k@.len());
        assert(r.deep_view() =~= des.deep_view() + k.deep_view().subrange(
            cut as int,
            cut as int,
        ));
    }
    for idx in cut..n
        invariant
            n == k@.len(),
            cut <= idx <= n,
            r.deep_view() == des.deep_view() + k.deep_view().subrange(cut as int, idx as int),
    {
        let ghost dpre = r.deep_view();
        r.push(k[idx].clone());
        proof {
            assert(r.deep_view() =~= dpre.push(k.deep_view()[idx as int]));
            assert(k.deep_view().subrange(cut as int, idx + 1) =~= k.deep_view().subrange(
                cut as int,
                idx as int,
            ).push(k.deep_view()[idx as int]));
            assert(r.deep_view() =~= des.deep_view() + k.deep_view().subrange(
                cut as int,
                idx + 1,
            ));
        }
    }
    proof {
        assert(k.deep_view().subrange(cut as int, n as int) =~= k.deep_view().skip(cut as int));
    }
    r
}

/// Whether every nonempty leading prefix of `des` is free of files in `m`, so
/// that the whole folder chain down to `des` can be created.
pub open spec fn create_all_ok(m: Map<Seq<Seq<char>>, FsNodeV>, des: Seq<Seq<char>>) -> bool {
    forall|l: int|
        1 <= l <= des.len() ==> !(#[trigger] m.contains_key(des.subrange(0, l)) && m[des.subrange(
            0,
            l,
        )] is File)
}

/// The state after creating the folder chain down to `des`: every nonempty
/// leading prefix of `des` that named nothing now names a folder.
pub open spec fn create_all_result(m: Map<Seq<Seq<char>>, FsNodeV>, des: Seq<Seq<char>>) -> Map<
    Seq<Seq<char>>,
    FsNodeV,
>
    decreases des.len(),
{
    if des.len() == 0 {
        m
    } else {
        let m1 = create_all_result(m, des.drop_last());
        if m1.contains_key(des) {
            m1
        } else {
            m1.insert(des, FsNodeV::Folder)
        }
    }
}

/// Creating a folder chain changes no existing binding, and every new binding
/// is a folder at a nonempty leading prefix of the destination.
proof fn lemma_create_all_preserves(m: Map<Seq<Seq<char>>, FsNodeV>, des: Seq<Seq<char>>)
    ensures
        forall|k: Seq<Seq<char>>| #[trigger]
            m.contains_key(k) ==> create_all_result(m, des).contains_key(k) && create_all_result(
                m,
                des,
            )[k] == m[k],
        forall|k: Seq<Seq<char>>| #[trigger]
            create_all_result(m, des).contains_key(k) ==> m.contains_key(k) || (is_path_prefix(
                k,
                des,
            ) && k.len() >= 1 && create_all_result(m, des)[k] is Folder),
    decreases des.len(),
{
    if des.len() > 0 {
        let d = des.drop_last();
        lemma_create_all_preserves(m, d);
        let m1 = create_all_result(m, d);
        assert forall|k: Seq<Seq<char>>| #[trigger]
            create_all_result(m, des).contains_key(k) implies m.contains_key(k) || (
        is_path_prefix(k, des) && k.len() >= 1 && create_all_result(m, des)[k] is Folder) by {
            if k == des && !m1.contains_key(des) {
                assert(des.subrange(0, des.len() as int) =~= des);
            } else {
                assert(m1.contains_key(k));
                if !m.contains_key(k) {
                    assert(is_path_prefix(k, d) && k.len() >= 1 && m1[k] is Folder);
                    assert(k == d.subrange(0, k.len() as int));
                    assert(d.subrange(0, k.len() as int) =~= des.subrange(0, k.len() as int));
                    assert(is_path_prefix(k, des));
                    assert(k != des);
                }
            }
        }
    }
}

/// The folder chain reaches its destination: after it, a node stands at the
/// destination, a folder wherever no file blocked the chain.
proof fn lemma_create_all_des(m: Map<Seq<Seq<char>>, FsNodeV>, des: Seq<Seq<char>>)
    requires
        des.len() >= 1,
    ensures
        create_all_result(m, des).contains_key(des),
        create_all_ok(m, des) ==> create_all_result(m, des)[des] is Folder,
{
    lemma_create_all_preserves(m, des.drop_last());
    let m1 = create_all_result(m, des.drop_last());
    if m1.contains_key(des) {
        assert(!is_path_prefix(des, des.drop_last()));
        assert(m.contains_key(des) && m1[des] == m[des]);
        if create_all_ok(m, des) {
            assert(des.subrange(0, des.len() as int) =~= des);
            assert(!(m.contains_key(des.subrange(0, des.len() as int)) && m[des.subrange(
                0,
                des.len() as int,
            )] is File));
        }
    }
}

/// The map after copying the tree under `src` to `des` in `m`: every path
/// strictly under `des` whose relative part stands under `src` in `m` is
/// bound to the source's node; everything else keeps its binding in `m`.
pub open spec fn copied_into(
    m: Map<Seq<Seq<char>>, FsNodeV>,
    src: Seq<Seq<char>>,
    des: Seq<Seq<char>>,
) -> Map<Seq<Seq<char>>, FsNodeV> {
    m.union_prefer_right(
        Map::new(
            |k: Seq<Seq<char>>|
                is_path_prefix(des, k) && k.len() > des.len() && m.contains_key(
                    src + k.skip(des.len() as int),
                ),
            |k: Seq<Seq<char>>| m[src + k.skip(des.len() as int)],
        ),
    )
}

/// Whether the source and destination trees agree in kind wherever they
/// collide: a folder carried onto a file, or a file onto a folder, is ruled
/// out, as such a copy cannot be performed.
pub open spec fn copy_kinds_agree(
    m: Map<Seq<Seq<char>>, FsNodeV>,
    src: Seq<Seq<char>>,
    des: Seq<Seq<char>>,
) -> bool {
    forall|rel: Seq<Seq<char>>|
        rel.len() > 0 && #[trigger] m.contains_key(src + rel) && m.contains_key(des + rel) ==> ((
        m[src + rel] is Folder) <==> (m[des + rel] is Folder))
}

/// The folder chain down to a prefix of the destination is as creatable as
/// the whole chain.
proof fn lemma_create_all_ok_prefix(m: Map<Seq<Seq<char>>, FsNodeV>, des: Seq<Seq<char>>, l: int)
    requires
        create_all_ok(m, des),
        0 <= l <= des.len(),
    ensures
        create_all_ok(m, des.subrange(0, l)),
{
    let d = des.subrange(0, l);
    assert forall|l2: int|
        1 <= l2 <= d.len() implies !(#[trigger] m.contains_key(d.subrange(0, l2)) && m[d.subrange(
        0,
        l2,
    )] is File) by {
        assert(d.subrange(0, l2) =~= des.subrange(0, l2));
    }
}

/// Creating a folder chain keeps a map well-parented.
proof fn lemma_parented_create_all(m: Map<Seq<Seq<char>>, FsNodeV>, des: Seq<Seq<char>>)
    requires
        parented(m),
        create_all_ok(m, des),
    ensures
        parented(create_all_result(m, des)),
    decreases des.len(),
{
    if des.len() > 0 {
        let d = des.drop_last();
        assert(d =~= des.subrange(0, des.len() - 1));
        lemma_create_all_ok_prefix(m, des, des.len() - 1);
        lemma_parented_create_all(m, d);
        let m1 = create_all_result(m, d);
        if !m1.contains_key(des) {
            if des.len() > 1 {
                lemma_create_all_des(m, d);
                assert(des.drop_last() == d);
            }
            lemma_parented_insert_new(m1, des, FsNodeV::Folder);
        }
    }
}

/// Copying a tree keeps a map well-parented: each carried node's parent is
/// carried with it as a folder, and a kept node's parent, where the copy
/// lands on it, lands with a folder of the same kind.
proof fn lemma_parented_copied_into(
    m: Map<Seq<Seq<char>>, FsNodeV>,
    src: Seq<Seq<char>>,
    des: Seq<Seq<char>>,
)
    requires
        parented(m),
        copy_kinds_agree(m, src, des),
        des.len() >= 1 ==> m.contains_key(des) && m[des] is Folder,
    ensures
        parented(copied_into(m, src, des)),
{
    let f = copied_into(m, src, des);
    assert forall|k: Seq<Seq<char>>| #[trigger] f.contains_key(k) implies k.len() >= 1 && (k.len()
        > 1 ==> f.contains_key(k.drop_last()) && f[k.drop_last()] is Folder) by {
        let q = k.drop_last();
        if is_path_prefix(des, k) && k.len() > des.len() && m.contains_key(
            src + k.skip(des.len() as int),
        ) {
            let tail = k.skip(des.len() as int);
            assert(k =~= des + tail);
            if k.len() > 1 {
                if tail.len() == 1 {
                    assert(q =~= des);
                    assert(!(is_path_prefix(des, q) && q.len() > des.len()));
                    assert(f[q] == m[des]);
                } else {
                    assert(q =~= des + tail.drop_last());
                    assert(m.contains_key(src + tail));
                    assert((src + tail).len() > 1);
                    assert((src + tail).drop_last() =~= src + tail.drop_last());
                    assert(m.contains_key(src + tail.drop_last()));
                    assert(m[src + tail.drop_last()] is Folder);
                    assert(q.subrange(0, des.len() as int) =~= des);
                    assert(q.skip(des.len() as int) =~= tail.drop_last());
                    assert(f.contains_key(q));
                    assert(f[q] == m[src + tail.drop_last()]);
                }
            }
        } else {
            assert(m.contains_key(k));
            if k.len() > 1 {
                assert(m.contains_key(q) && m[q] is Folder);
                if is_path_prefix(des, q) && q.len() > des.len() && m.contains_key(
                    src + q.skip(des.len() as int),
                ) {
                    let qtail = q.skip(des.len() as int);
                    assert(q =~= des + qtail);
                    assert(qtail.len() > 0);
                    assert((m[src + qtail] is Folder) <==> (m[des + qtail] is Folder));
                    assert(f[q] == m[src + qtail]);
                } else {
                    assert(f[q] == m[q]);
                }
            }
        }
    }
}

/// The map midway through the copy: only the entries of `snap` before `j`
/// have been carried over.
spec fn copied_upto(
    m: Map<Seq<Seq<char>>, FsNodeV>,
    snap: Seq<(Vec<String>, FsNode)>,
    j: int,
    src: Seq<Seq<char>>,
    des: Seq<Seq<char>>,
) -> Map<Seq<Seq<char>>, FsNodeV> {
    m.union_prefer_right(
        Map::new(
            |k: Seq<Seq<char>>|
                is_path_prefix(des, k) && k.len() > des.len() && (exists|w: int|
                    0 <= w < j && #[trigger] snap[w].0.deep_view() == src + k.skip(
                        des.len() as int,
                    )),
            |k: Seq<Seq<char>>| m[src + k.skip(des.len() as int)],
        ),
    )
}

/// Recursive copy fidelity: after copying the folder at `src` into `des`,
/// every node of the source tree — files with their exact text, folders empty
/// or not — stands at the same relative path under the destination, and the
/// destination folder itself stands even where the source tree is empty.
pub proof fn lemma_copy_fidelity(
    m: Map<Seq<Seq<char>>, FsNodeV>,
    src: Seq<Seq<char>>,
    des: Seq<Seq<char>>,
    rel: Seq<Seq<char>>,
)
    requires
        create_all_ok(m, des),
        des.len() >= 1,
        m.contains_key(src + rel),
        rel.len() > 0,
    ensures
        copied_into(create_all_result(m, des), src, des).contains_key(des + rel),
        copied_into(create_all_result(m, des), src, des)[des + rel] == m[src + rel],
        copied_into(create_all_result(m, des), src, des).contains_key(des),
        copied_into(create_all_result(m, des), src, des)[des] is Folder,
{
    lemma_create_all_preserves(m, des);
    lemma_create_all_des(m, des);
    let m1 = create_all_result(m, des);
    let d = des + rel;
    assert(d.subrange(0, des.len() as int) =~= des);
    assert(d.skip(des.len() as int) =~= rel);
    assert(is_path_prefix(des, d));
    assert(m1.contains_key(src + rel) && m1[src + rel] == m[src + rel]);
}

/// Whether a clean folder creation at `p` succeeds in `m`: the path has a
/// component, no file stands at it, and its parent (if it has one) is a
/// folder.
pub open spec fn clean_folder_ok(m: Map<Seq<Seq<char>>, FsNodeV>, p: Seq<Seq<char>>) -> bool {
    &&& p.len() >= 1
    &&& !(m.contains_key(p) && m[p] is File)
    &&& (p.len() == 1 || (m.contains_key(p.drop_last()) && m[p.drop_last()] is Folder))
}

/// The state after the cleaning half of a clean folder creation: the folder
/// at `p` and everything under it is gone; anything else at `p` stays.
pub open spec fn clean_folder_partial(m: Map<Seq<Seq<char>>, FsNodeV>, p: Seq<Seq<char>>) -> Map<
    Seq<Seq<char>>,
    FsNodeV,
> {
    if m.contains_key(p) && m[p] is Folder {
        m.remove_keys(prefixed_by(p))
    } else {
        m
    }
}

/// The state after a successful clean folder creation: whatever folder tree
/// stood at `p` is gone and a fresh folder stands there.
pub open spec fn clean_folder_result(m: Map<Seq<Seq<char>>, FsNodeV>, p: Seq<Seq<char>>) -> Map<
    Seq<Seq<char>>,
    FsNodeV,
> {
    clean_folder_partial(m, p).insert(p, FsNodeV::Folder)
}

/// Whether a clean file creation at `p` succeeds in `m`: the path has a
/// component, no folder stands at it, and its parent (if it has one) is a
/// folder.
pub open spec fn clean_file_ok(m: Map<Seq<Seq<char>>, FsNodeV>, p: Seq<Seq<char>>) -> bool {
    &&& p.len() >= 1
    &&& !(m.contains_key(p) && m[p] is Folder)
    &&& (p.len() == 1 || (m.contains_key(p.drop_last()) && m[p.drop_last()] is Folder))
}

/// The state after the cleaning half of a clean file creation: the file at
/// `p` is gone; anything else at `p` stays.
pub open spec fn clean_file_partial(m: Map<Seq<Seq<char>>, FsNodeV>, p: Seq<Seq<char>>) -> Map<
    Seq<Seq<char>>,
    FsNodeV,
> {
    if m.contains_key(p) && m[p] is File {
        m.remove(p)
    } else {
        m
    }
}

/// Round trip: wherever a clean file creation can succeed, writing text to
/// the path binds the path to a file holding exactly that text — so reading
/// the path back yields the written text and nothing else.
pub proof fn lemma_write_read_round_trip(
    m: Map<Seq<Seq<char>>, FsNodeV>,
    p: Seq<Seq<char>>,
    content: Seq<char>,
)
    requires
        clean_file_ok(m, p),
    ensures
        m.insert(p, FsNodeV::File(content)).contains_key(p),
        m.insert(p, FsNodeV::File(content))[p] == FsNodeV::File(content),
{
}

/// Clean-create freshness: on a well-parented state — what the filesystem's
/// well-formedness guarantees — a single clean folder creation already leaves
/// a folder with nothing under it: where no folder stood, nothing can have
/// stood under the path either.
pub proof fn lemma_clean_folder_fresh(m: Map<Seq<Seq<char>>, FsNodeV>, p: Seq<Seq<char>>)
    requires
        parented(m),
        clean_folder_ok(m, p),
    ensures
        clean_folder_result(m, p).contains_key(p),
        clean_folder_result(m, p)[p] is Folder,
        forall|k: Seq<Seq<char>>|
            is_path_prefix(p, k) && k != p ==> !clean_folder_result(m, p).contains_key(k),
{
    assert forall|k: Seq<Seq<char>>| is_path_prefix(p, k) && k != p implies !clean_folder_result(
        m,
        p,
    ).contains_key(k) by {
        if m.contains_key(p) {
            assert(prefixed_by(p).contains(k));
        } else {
            lemma_no_orphans(m, p, k);
        }
    }
}

/// Clean-create idempotence: wherever a clean folder creation can succeed, it
/// can succeed again immediately, and after the second round a folder stands
/// at the path with nothing under it — no residue survives.
pub proof fn lemma_clean_folder_idempotent(m: Map<Seq<Seq<char>>, FsNodeV>, p: Seq<Seq<char>>)
    requires
        clean_folder_ok(m, p),
    ensures
        clean_folder_ok(clean_folder_result(m, p), p),
        clean_folder_result(clean_folder_result(m, p), p).contains_key(p),
        clean_folder_result(clean_folder_result(m, p), p)[p] is Folder,
        forall|k: Seq<Seq<char>>|
            is_path_prefix(p, k) && k != p ==> !clean_folder_result(
                clean_folder_result(m, p),
                p,
            ).contains_key(k),
{
    let r1 = clean_folder_result(m, p);
    if p.len() > 1 {
        assert(!is_path_prefix(p, p.drop_last()));
        assert(r1.contains_key(p.drop_last()) && r1[p.drop_last()] is Folder);
    }
    let r2 = clean_folder_result(r1, p);
    assert forall|k: Seq<Seq<char>>| is_path_prefix(p, k) && k != p implies !r2.contains_key(
        k,
    ) by {
        assert(prefixed_by(p).contains(k));
    }
}

} // verus!

