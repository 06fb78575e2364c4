//! An in-memory model of the filesystem the backend operates on.
//!
//! A path is a sequence of name components; the model maps each present
//! path to a node, either a directory or a file with its text. The path
//! operations of the backend are mirrored here with exact contracts: each
//! states when it succeeds, what the filesystem looks like afterwards, and
//! that a failed call leaves the filesystem unchanged.

use vstd::prelude::*;
use vstd::string::StringExecFns;

use crate::ErrorKind;
use crate::entry::FileEntry;
use crate::entry::sort_entries;
use crate::entry::sorted_entries;

verus! {

broadcast use {vstd::seq::group_seq_axioms, vstd::set::group_set_axioms, vstd::map::group_map_axioms};

/// What a present path names: a directory, or a file with its text.
pub enum FsNode {
    Dir,
    File(String),
}

/// The mathematical value of a node: a directory, or file content.
pub enum NodeView {
    Dir,
    File(Seq<char>),
}

impl View for FsNode {
    type V = NodeView;

    open spec fn view(&self) -> NodeView {
        match self {
            FsNode::Dir => NodeView::Dir,
            FsNode::File(c) => NodeView::File(c@),
        }
    }
}

/// One present path with its node.
struct FsRec {
    path: Vec<String>,
    node: FsNode,
}

/// The filesystem model: a finite map from component paths to nodes,
/// represented as a vector of records with pairwise distinct paths.
pub struct FsModel {
    recs: Vec<FsRec>,
}

/// The map a record sequence denotes: later records win, though under
/// `unique_keys` no two records share a path.
spec fn recs_map(s: Seq<FsRec>) -> Map<Seq<Seq<char>>, NodeView>
    decreases s.len(),
{
    if s.len() == 0 {
        Map::empty()
    } else {
        recs_map(s.drop_last()).insert(s.last().path.deep_view(), s.last().node@)
    }
}

spec fn unique_keys(s: Seq<FsRec>) -> bool {
    forall|i: int, j: int|
        0 <= i < j < s.len() ==> s[i].path.deep_view() != s[j].path.deep_view()
}

impl View for FsModel {
    type V = Map<Seq<Seq<char>>, NodeView>;

    closed spec fn view(&self) -> Map<Seq<Seq<char>>, NodeView> {
        recs_map(self.recs@)
    }
}

/// Reading a path: the file content at it, or nothing when the path is
/// absent or names a directory.
pub open spec fn read_ok(m: Map<Seq<Seq<char>>, NodeView>, k: Seq<Seq<char>>) -> Option<
    Seq<char>,
> {
    if m.contains_key(k) && m[k] is File {
        Some(m[k]->File_0)
    } else {
        None
    }
}

/// The parent of `p` exists as a directory; a single component sits in the
/// implicit root, which always exists.
pub open spec fn parent_ok(m: Map<Seq<Seq<char>>, NodeView>, p: Seq<Seq<char>>) -> bool {
    p.len() == 1 || (m.contains_key(p.drop_last()) && m[p.drop_last()] is Dir)
}

/// When writing a file at `p` succeeds: the path is nonempty, its parent is
/// a present directory (or the root), and `p` itself is not a directory.
pub open spec fn can_write(m: Map<Seq<Seq<char>>, NodeView>, p: Seq<Seq<char>>) -> bool {
    &&& p.len() >= 1
    &&& parent_ok(m, p)
    &&& !(m.contains_key(p) && m[p] is Dir)
}

proof fn lemma_recs_map_membership(s: Seq<FsRec>, k: Seq<Seq<char>>)
    ensures
        recs_map(s).contains_key(k) <==> exists|i: int|
            0 <= i < s.len() && s[i].path.deep_view() == k,
    decreases s.len(),
{
    if s.len() > 0 {
        lemma_recs_map_membership(s.drop_last(), k);
        assert(forall|i: int| 0 <= i < s.len() - 1 ==> s.drop_last()[i] == s[i]);
        if s.last().path.deep_view() == k {
            assert(s[s.len() - 1].path.deep_view() == k);
        } else {
            if exists|i: int| 0 <= i < s.len() && s[i].path.deep_view() == k {
                let i = choose|i: int| 0 <= i < s.len() && s[i].path.deep_view() == k;
                assert(i < s.len() - 1);
                assert(s.drop_last()[i].path.deep_view() == k);
            }
        }
    }
}

proof fn lemma_recs_map_index(s: Seq<FsRec>, i: int)
    requires
        unique_keys(s),
        0 <= i < s.len(),
    ensures
        recs_map(s).contains_key(s[i].path.deep_view()),
        recs_map(s)[s[i].path.deep_view()] == s[i].node@,
    decreases s.len(),
{
    if i < s.len() - 1 {
        assert(forall|j: int| 0 <= j < s.len() - 1 ==> s.drop_last()[j] == s[j]);
        lemma_recs_map_index(s.drop_last(), i);
        assert(s[i].path.deep_view() != s.last().path.deep_view());
    }
}

proof fn lemma_recs_map_update(s: Seq<FsRec>, i: int, rec: FsRec)
    requires
        unique_keys(s),
        0 <= i < s.len(),
        rec.path.deep_view() == s[i].path.deep_view(),
    ensures
        recs_map(s.update(i, rec)) == recs_map(s).insert(rec.path.deep_view(), rec.node@),
        unique_keys(s.update(i, rec)),
    decreases s.len(),
{
    let s2 = s.update(i, rec);
    assert(forall|j: int| 0 <= j < s.len() && j != i ==> s2[j] == s[j]);
    if i == s.len() - 1 {
        assert(s2.drop_last() =~= s.drop_last());
        assert(recs_map(s2) =~= recs_map(s).insert(rec.path.deep_view(), rec.node@));
    } else {
        assert(forall|j: int| 0 <= j < s.len() - 1 ==> s.drop_last()[j] == s[j]);
        lemma_recs_map_update(s.drop_last(), i, rec);
        assert(s2.drop_last() =~= s.drop_last().update(i, rec));
        assert(s2.last() == s.last());
        assert(s.last().path.deep_view() != rec.path.deep_view());
        assert(recs_map(s2) =~= recs_map(s).insert(rec.path.deep_view(), rec.node@));
    }
}

/// Clones a component path; the copy denotes the same path.
fn clone_path(p: &Vec<String>) -> (r: Vec<String>)
    ensures
        r.deep_view() == p.deep_view(),
        r@.len() == p@.len(),
        forall|j: int| 0 <= j < p@.len() ==> r@[j]@ == p@[j]@,
{
    let mut r: Vec<String> = Vec::new();
    let mut i: usize = 0;
    while i < p.len()
        invariant
            i <= p.len(),
            r@.len() == i,
            forall|j: int| 0 <= j < i ==> r@[j]@ == p@[j]@,
        decreases p.len() - i,
    {
        let c = p[i].clone();
        r.push(c);
        i = i + 1;
    }
    proof {
        assert(r.deep_view() =~= p.deep_view());
    }
    r
}

/// Compares two component paths for equality of the paths they denote.
fn path_eq(a: &Vec<String>, b: &Vec<String>) -> (r: bool)
    ensures
        r == (a.deep_view() == b.deep_view()),
{
    if a.len() != b.len() {
        proof {
            assert(a.deep_view().len() != b.deep_view().len());
        }
        return false;
    }
    let mut i: usize = 0;
    while i < a.len()
        invariant
            i <= a.len(),
            a.len() == b.len(),
            forall|j: int| 0 <= j < i ==> a.deep_view()[j] == b.deep_view()[j],
        decreases a.len() - i,
    {
        if !(a[i] == b[i]) {
            proof {
                assert(a.deep_view()[i as int] != b.deep_view()[i as int]);
            }
            return false;
        }
        i = i + 1;
    }
    proof {
        assert(a.deep_view() =~= b.deep_view());
    }
    true
}

/// Finds the record holding `p`, if any.
fn find_rec(recs: &Vec<FsRec>, p: &Vec<String>) -> (r: Option<usize>)
    ensures
        match r {
            Some(i) => i < recs@.len() && recs@[i as int].path.deep_view() == p.deep_view(),
            None => forall|i: int|
                0 <= i < recs@.len() ==> recs@[i].path.deep_view() != p.deep_view(),
        },
{
    let mut i: usize = 0;
    while i < recs.len()
        invariant
            i <= recs@.len(),
            forall|j: int| 0 <= j < i ==> recs@[j].path.deep_view() != p.deep_view(),
        decreases recs@.len() - i,
    {
        if path_eq(&recs[i].path, p) {
            return Some(i);
        }
        i = i + 1;
    }
    None
}

impl FsModel {
    /// A filesystem holding nothing but the implicit root directory.
    pub fn new() -> (r: FsModel)
        ensures
            r.wf(),
            r@ == Map::<Seq<Seq<char>>, NodeView>::empty(),
    {
        FsModel { recs: Vec::new() }
    }

    /// The representation holds pairwise distinct paths.
    pub closed spec fn wf(&self) -> bool {
        unique_keys(self.recs@)
    }

    /// Reads the entire content of the file at `path`. Fails exactly when
    /// `path` is absent or names a directory.
    pub fn read_file(&self, path: &Vec<String>) -> (r: Result<String, ErrorKind>)
        requires
            self.wf(),
        ensures
            match r {
                Ok(c) => read_ok(self@, path.deep_view()) == Some(c@),
                Err(k) => k == ErrorKind::IoError && read_ok(self@, path.deep_view()) is None,
            },
    {
        proof {
            lemma_recs_map_membership(self.recs@, path.deep_view());
        }
        match find_rec(&self.recs, path) {
            Some(i) => {
                proof {
                    lemma_recs_map_index(self.recs@, i as int);
                }
                match &self.recs[i].node {
                    FsNode::File(c) => Ok(c.clone()),
                    FsNode::Dir => Err(ErrorKind::IoError),
                }
            },
            None => Err(ErrorKind::IoError),
        }
    }

    /// Overwrites, or creates, the file at `path` with exactly `content`.
    /// Succeeds exactly when the parent directory is present (or the path
    /// is a single component in the root) and `path` is not a directory; a
    /// failed call leaves the filesystem unchanged.
    pub fn write_file(&mut self, path: &Vec<String>, content: String) -> (r: Result<
        (),
        ErrorKind,
    >)
        requires
            old(self).wf(),
        ensures
            final(self).wf(),
            r is Ok <==> can_write(old(self)@, path.deep_view()),
            r is Ok ==> final(self)@ == old(self)@.insert(
                path.deep_view(),
                NodeView::File(content@),
            ),
            r is Err ==> final(self)@ == old(self)@ && r->Err_0 == ErrorKind::IoError,
    {
        let ghost pdv = path.deep_view();
        if path.len() == 0 {
            return Err(ErrorKind::IoError);
        }
        if path.len() > 1 {
            let mut parent = clone_path(path);
            let _ = parent.pop();
            proof {
                assert(parent.deep_view() =~= pdv.drop_last());
                lemma_recs_map_membership(self.recs@, pdv.drop_last());
            }
            match find_rec(&self.recs, &parent) {
                None => {
                    return Err(ErrorKind::IoError);
                },
                Some(i) => {
                    proof {
                        lemma_recs_map_index(self.recs@, i as int);
                    }
                    if !(matches!(&self.recs[i].node, FsNode::Dir)) {
                        return Err(ErrorKind::IoError);
                    }
                },
            }
        }
        proof {
            lemma_recs_map_membership(self.recs@, pdv);
        }
        match find_rec(&self.recs, path) {
            Some(i) => {
                proof {
                    lemma_recs_map_index(self.recs@, i as int);
                }
                if matches!(&self.recs[i].node, FsNode::Dir) {
                    return Err(ErrorKind::IoError);
                }
                let rec = FsRec { path: clone_path(path), node: FsNode::File(content) };
                proof {
                    lemma_recs_map_update(self.recs@, i as int, rec);
                }
                self.recs.set(i, rec);
            },
            None => {
                let ghost s0 = self.recs@;
                let rec = FsRec { path: clone_path(path), node: FsNode::File(content) };
                self.recs.push(rec);
                proof {
                    assert(self.recs@.drop_last() =~= s0);
                    assert(self.recs@ == s0.push(rec));
                    assert(recs_map(self.recs@) == recs_map(s0).insert(pdv, rec.node@));
                }
            },
        }
        Ok(())
    }

    /// Creates an empty file at `path`; an existing file there is truncated
    /// to empty, matching create semantics. Succeeds and fails exactly as
    /// `write_file` does.
    pub fn create_file(&mut self, path: &Vec<String>) -> (r: Result<(), ErrorKind>)
        requires
            old(self).wf(),
        ensures
            final(self).wf(),
            r is Ok <==> can_write(old(self)@, path.deep_view()),
            r is Ok ==> final(self)@ == old(self)@.insert(
                path.deep_view(),
                NodeView::File(Seq::empty()),
            ),
            r is Err ==> final(self)@ == old(self)@ && r->Err_0 == ErrorKind::IoError,
    {
        let r = self.write_file(path, String::new());
        r
    }
}

/// The filesystem after creating directory `p` with its missing ancestors:
/// every prefix of `p` of up to `n` components is made a directory.
pub open spec fn add_dirs(
    m: Map<Seq<Seq<char>>, NodeView>,
    p: Seq<Seq<char>>,
    n: int,
) -> Map<Seq<Seq<char>>, NodeView>
    decreases n,
{
    if n <= 0 {
        m
    } else {
        add_dirs(m, p, n - 1).insert(p.take(n), NodeView::Dir)
    }
}

/// When creating directory `p` with its ancestors succeeds: the path is
/// nonempty and no prefix of it names a present file. Missing ancestors are
/// no obstacle: they are created.
pub open spec fn can_make_dirs(m: Map<Seq<Seq<char>>, NodeView>, p: Seq<Seq<char>>) -> bool {
    &&& p.len() >= 1
    &&& forall|n: int|
        1 <= n <= p.len() ==> !(m.contains_key(#[trigger] p.take(n)) && m[p.take(n)] is File)
}

proof fn lemma_add_dirs_files(m: Map<Seq<Seq<char>>, NodeView>, p: Seq<Seq<char>>, n: int)
    ensures
        forall|k: Seq<Seq<char>>|
            add_dirs(m, p, n).contains_key(k) && add_dirs(m, p, n)[k] is File ==> (
            #[trigger] m.contains_key(k)) && m[k] is File,
    decreases n,
{
    if n > 0 {
        lemma_add_dirs_files(m, p, n - 1);
    }
}

proof fn lemma_add_dirs_prefix_dirs(m: Map<Seq<Seq<char>>, NodeView>, p: Seq<Seq<char>>, n: int)
    requires
        0 <= n <= p.len(),
    ensures
        forall|j: int|
            1 <= j <= n ==> add_dirs(m, p, n).contains_key(#[trigger] p.take(j)) && add_dirs(
                m,
                p,
                n,
            )[p.take(j)] is Dir,
    decreases n,
{
    if n > 0 {
        lemma_add_dirs_prefix_dirs(m, p, n - 1);
        assert(forall|j: int| 1 <= j <= p.len() ==> (#[trigger] p.take(j)).len() == j);
    }
}

proof fn lemma_add_dirs_noop(m: Map<Seq<Seq<char>>, NodeView>, p: Seq<Seq<char>>, n: int)
    requires
        0 <= n <= p.len(),
        forall|j: int|
            1 <= j <= n ==> m.contains_key(#[trigger] p.take(j)) && m[p.take(j)] == NodeView::Dir,
    ensures
        add_dirs(m, p, n) == m,
    decreases n,
{
    if n > 0 {
        lemma_add_dirs_noop(m, p, n - 1);
        assert(add_dirs(m, p, n) =~= m);
    }
}

/// Law: creating a directory succeeds even when none of its ancestors
/// exists yet: absent prefixes are never an obstacle.
pub proof fn lemma_create_dir_fresh(m: Map<Seq<Seq<char>>, NodeView>, p: Seq<Seq<char>>)
    requires
        p.len() >= 1,
        forall|n: int| 1 <= n <= p.len() ==> !m.contains_key(#[trigger] p.take(n)),
    ensures
        can_make_dirs(m, p),
{
}

/// Law: creating a directory is idempotent: after a successful creation,
/// creating the same path again succeeds and changes nothing.
pub proof fn lemma_create_dir_idempotent(m: Map<Seq<Seq<char>>, NodeView>, p: Seq<Seq<char>>)
    requires
        can_make_dirs(m, p),
    ensures
        can_make_dirs(add_dirs(m, p, p.len() as int), p),
        add_dirs(add_dirs(m, p, p.len() as int), p, p.len() as int) == add_dirs(
            m,
            p,
            p.len() as int,
        ),
{
    let m2 = add_dirs(m, p, p.len() as int);
    lemma_add_dirs_files(m, p, p.len() as int);
    lemma_add_dirs_prefix_dirs(m, p, p.len() as int);
    assert(forall|j: int|
        1 <= j <= p.len() ==> m2.contains_key(#[trigger] p.take(j)) && m2[p.take(j)]
            == NodeView::Dir);
    lemma_add_dirs_noop(m2, p, p.len() as int);
}

impl FsModel {
    /// Creates the directory at `path` together with all missing
    /// ancestors; succeeds exactly when no prefix of the path names a
    /// present file, in particular when the directory already exists. A
    /// failed call leaves the filesystem unchanged.
    pub fn create_dir(&mut self, path: &Vec<String>) -> (r: Result<(), ErrorKind>)
        requires
            old(self).wf(),
        ensures
            final(self).wf(),
            r is Ok <==> can_make_dirs(old(self)@, path.deep_view()),
            r is Ok ==> final(self)@ == add_dirs(
                old(self)@,
                path.deep_view(),
                path.deep_view().len() as int,
            ),
            r is Err ==> final(self)@ == old(self)@ && r->Err_0 == ErrorKind::IoError,
    {
        let ghost pdv = path.deep_view();
        let ghost m0 = old(self)@;
        if path.len() == 0 {
            return Err(ErrorKind::IoError);
        }
        // First pass: refuse atomically if any prefix names a file.
        let mut prefix: Vec<String> = Vec::new();
        let mut n: usize = 0;
        while n < path.len()
            invariant
                self@ == m0,
                self.wf(),
                n <= path.len(),
                pdv == path.deep_view(),
                pdv.len() == path@.len(),
                prefix@.len() == n,
                forall|j: int| 0 <= j < n ==> prefix@[j]@ == path@[j]@,
                forall|j: int|
                    1 <= j <= n ==> !(m0.contains_key(#[trigger] pdv.take(j)) && m0[pdv.take(
                        j,
                    )] is File),
            decreases path.len() - n,
        {
            prefix.push(path[n].clone());
            proof {
                assert(prefix.deep_view() =~= pdv.take(n + 1));
                lemma_recs_map_membership(self.recs@, pdv.take(n + 1));
                assert(self@ == m0);
                assert(self@ == recs_map(self.recs@));
            }
            match find_rec(&self.recs, &prefix) {
                Some(i) => {
                    proof {
                        lemma_recs_map_index(self.recs@, i as int);
                        assert(self.recs@[i as int].path.deep_view() == pdv.take(n + 1));
                        assert(m0[pdv.take(n + 1)] == self.recs@[i as int].node@);
                    }
                    if matches!(&self.recs[i].node, FsNode::File(_)) {
                        return Err(ErrorKind::IoError);
                    }
                    proof {
                        assert(!(m0[pdv.take(n + 1)] is File));
                    }
                },
                None => {
                    proof {
                        assert(forall|i: int|
                            0 <= i < self.recs@.len() ==> self.recs@[i].path.deep_view()
                                != pdv.take(n + 1));
                        assert(!m0.contains_key(pdv.take(n + 1)));
                    }
                },
            }
            n = n + 1;
        }
        // Second pass: insert each missing prefix as a directory.
        let mut prefix: Vec<String> = Vec::new();
        let mut n: usize = 0;
        while n < path.len()
            invariant
                self.wf(),
                n <= path.len(),
                pdv == path.deep_view(),
                pdv.len() == path@.len(),
                prefix@.len() == n,
                forall|j: int| 0 <= j < n ==> prefix@[j]@ == path@[j]@,
                can_make_dirs(m0, pdv),
                self@ == add_dirs(m0, pdv, n as int),
            decreases path.len() - n,
        {
            prefix.push(path[n].clone());
            proof {
                assert(prefix.deep_view() =~= pdv.take(n + 1));
                lemma_recs_map_membership(self.recs@, pdv.take(n + 1));
            }
            match find_rec(&self.recs, &prefix) {
                Some(i) => {
                    proof {
                        lemma_recs_map_index(self.recs@, i as int);
                    }
                    if matches!(&self.recs[i].node, FsNode::File(_)) {
                        proof {
                            assert(self@[pdv.take(n + 1)] is File);
                            lemma_add_dirs_files(m0, pdv, n as int);
                            assert(false);
                        }
                        return Err(ErrorKind::IoError);
                    }
                    proof {
                        assert(self@[pdv.take(n + 1)] == NodeView::Dir);
                        assert(self@ =~= self@.insert(pdv.take(n + 1), NodeView::Dir));
                    }
                },
                None => {
                    let ghost s0 = self.recs@;
                    let rec = FsRec { path: clone_path(&prefix), node: FsNode::Dir };
                    proof {
                        assert(rec.path.deep_view() == pdv.take(n + 1));
                    }
                    self.recs.push(rec);
                    proof {
                        assert(self.recs@.drop_last() =~= s0);
                        assert(recs_map(self.recs@) == recs_map(s0).insert(pdv.take(n + 1),
                        NodeView::Dir));
                    }
                },
            }
            n = n + 1;
        }
        Ok(())
    }
}

/// `k` lies at or under `p`: `p` is a prefix of `k`, components compared
/// one by one. `p` is a prefix of itself.
pub open spec fn is_path_prefix(p: Seq<Seq<char>>, k: Seq<Seq<char>>) -> bool {
    p.len() <= k.len() && k.take(p.len() as int) == p
}

/// The filesystem after deleting `p`: `p` and everything under it is gone.
pub open spec fn delete_keys(
    m: Map<Seq<Seq<char>>, NodeView>,
    p: Seq<Seq<char>>,
) -> Map<Seq<Seq<char>>, NodeView> {
    m.remove_keys(Set::new(|k: Seq<Seq<char>>| is_path_prefix(p, k)))
}

/// `k` is an immediate child of directory path `d`.
pub open spec fn is_child(d: Seq<Seq<char>>, k: Seq<Seq<char>>) -> bool {
    k.len() == d.len() + 1 && is_path_prefix(d, k)
}

/// The path string a component path denotes, components joined with `/`.
pub open spec fn join_path(p: Seq<Seq<char>>) -> Seq<char>
    decreases p.len(),
{
    if p.len() == 0 {
        Seq::empty()
    } else if p.len() == 1 {
        p[0]
    } else {
        join_path(p.drop_last()) + seq!['/'] + p.last()
    }
}

/// A listing entry `e` faithfully describes a child of directory `d` in
/// filesystem `m`: the child is present, `is_dir` tells its kind, and
/// `path` is the joined path of `name` under `d`.
pub open spec fn child_entry(
    m: Map<Seq<Seq<char>>, NodeView>,
    d: Seq<Seq<char>>,
    e: FileEntry,
) -> bool {
    &&& m.contains_key(d.push(e.name@))
    &&& (e.is_dir <==> m[d.push(e.name@)] is Dir)
    &&& e.path@ == join_path(d.push(e.name@))
}

proof fn lemma_delete_insert(
    m: Map<Seq<Seq<char>>, NodeView>,
    p: Seq<Seq<char>>,
    k: Seq<Seq<char>>,
    v: NodeView,
)
    ensures
        !is_path_prefix(p, k) ==> delete_keys(m.insert(k, v), p) == delete_keys(m, p).insert(
            k,
            v,
        ),
        is_path_prefix(p, k) ==> delete_keys(m.insert(k, v), p) == delete_keys(m, p),
{
    let lhs = delete_keys(m.insert(k, v), p);
    if is_path_prefix(p, k) {
        let rhs = delete_keys(m, p);
        assert forall|q: Seq<Seq<char>>|
            lhs.contains_key(q) == rhs.contains_key(q) by {}
        assert forall|q: Seq<Seq<char>>| lhs.contains_key(q) implies lhs[q] == rhs[q] by {}
        assert(lhs =~= rhs);
    } else {
        let rhs = delete_keys(m, p).insert(k, v);
        assert forall|q: Seq<Seq<char>>|
            lhs.contains_key(q) == rhs.contains_key(q) by {}
        assert forall|q: Seq<Seq<char>>| lhs.contains_key(q) implies lhs[q] == rhs[q] by {}
        assert(lhs =~= rhs);
    }
}

/// Decides whether `p` denotes a prefix of `k`.
fn path_is_prefix(p: &Vec<String>, k: &Vec<String>) -> (r: bool)
    ensures
        r == is_path_prefix(p.deep_view(), k.deep_view()),
{
    if p.len() > k.len() {
        proof {
            assert(p.deep_view().len() > k.deep_view().len());
        }
        return false;
    }
    let mut i: usize = 0;
    while i < p.len()
        invariant
            i <= p.len(),
            p.len() <= k.len(),
            forall|j: int| 0 <= j < i ==> p.deep_view()[j] == k.deep_view()[j],
        decreases p.len() - i,
    {
        if !(p[i] == k[i]) {
            proof {
                assert(p.deep_view()[i as int] != k.deep_view()[i as int]);
                let kd = k.deep_view();
                assert(kd.take(p.deep_view().len() as int)[i as int] == kd[i as int]);
            }
            return false;
        }
        i = i + 1;
    }
    proof {
        assert(k.deep_view().take(p.deep_view().len() as int) =~= p.deep_view());
    }
    true
}

/// Joins a component path into a path string with `/` separators.
fn join_path_exec(p: &Vec<String>) -> (r: String)
    ensures
        r@ == join_path(p.deep_view()),
{
    let mut r = String::new();
    let mut i: usize = 0;
    while i < p.len()
        invariant
            i <= p.len(),
            r@ == join_path(p.deep_view().take(i as int)),
        decreases p.len() - i,
    {
        if i > 0 {
            r.append("/");
        }
        r.append(p[i].as_str());
        proof {
            reveal_strlit("/");
            assert("/"@ =~= seq!['/']);
            let t = p.deep_view().take(i + 1);
            assert(t.drop_last() =~= p.deep_view().take(i as int));
            assert(t.last() == p.deep_view()[i as int]);
            if i == 0 {
                assert(r@ =~= join_path(t));
            } else {
                assert(r@ =~= join_path(t));
            }
        }
        i = i + 1;
    }
    proof {
        assert(p.deep_view().take(p.deep_view().len() as int) =~= p.deep_view());
    }
    r
}

impl FsModel {
    /// Deletes the entry at `path`: a file is removed, a directory is
    /// removed together with all its descendants. Succeeds exactly when
    /// the path is present; a failed call leaves the filesystem unchanged.
    pub fn delete_path(&mut self, path: &Vec<String>) -> (r: Result<(), ErrorKind>)
        requires
            old(self).wf(),
        ensures
            final(self).wf(),
            r is Ok <==> old(self)@.contains_key(path.deep_view()),
            r is Ok ==> final(self)@ == delete_keys(old(self)@, path.deep_view()),
            r is Err ==> final(self)@ == old(self)@ && r->Err_0 == ErrorKind::IoError,
    {
        let ghost pdv = path.deep_view();
        let ghost m0 = old(self)@;
        proof {
            lemma_recs_map_membership(self.recs@, pdv);
        }
        if find_rec(&self.recs, path).is_none() {
            return Err(ErrorKind::IoError);
        }
        let mut olds: Vec<FsRec> = Vec::new();
        core::mem::swap(&mut olds, &mut self.recs);
        let ghost s = olds@;
        let mut kept: Vec<FsRec> = Vec::new();
        let ghost mut j: int = 0;
        while olds.len() > 0
            invariant
                pdv == path.deep_view(),
                unique_keys(s),
                0 <= j <= s.len(),
                olds@ == s.skip(j),
                unique_keys(kept@),
                recs_map(kept@) == delete_keys(recs_map(s.take(j)), pdv),
            decreases olds@.len(),
        {
            let r0 = olds.remove(0);
            proof {
                assert(s.skip(j).remove(0) =~= s.skip(j + 1));
                assert(r0 == s[j]);
                assert(s.take(j + 1).drop_last() =~= s.take(j));
                assert(s.take(j + 1).last() == s[j]);
            }
            let ghost kj = r0.path.deep_view();
            let under = path_is_prefix(path, &r0.path);
            if !under {
                proof {
                    lemma_recs_map_membership(kept@, kj);
                    lemma_recs_map_membership(s.take(j), kj);
                    assert(forall|a: int| 0 <= a < j ==> s.take(j)[a] == s[a]);
                    assert(forall|a: int|
                        0 <= a < kept@.len() ==> kept@[a].path.deep_view() != kj);
                    assert(recs_map(s.take(j + 1)) == recs_map(s.take(j)).insert(
                        kj,
                        s[j].node@,
                    ));
                    lemma_delete_insert(recs_map(s.take(j)), pdv, kj, s[j].node@);
                }
                let ghost old_kept = kept@;
                kept.push(r0);
                proof {
                    assert(kept@.drop_last() =~= old_kept);
                    assert(recs_map(kept@) == recs_map(old_kept).insert(kj, s[j].node@));
                    assert(recs_map(kept@) == delete_keys(recs_map(s.take(j + 1)), pdv));
                }
            } else {
                proof {
                    assert(recs_map(s.take(j + 1)) == recs_map(s.take(j)).insert(
                        kj,
                        s[j].node@,
                    ));
                    lemma_delete_insert(recs_map(s.take(j)), pdv, kj, s[j].node@);
                    assert(recs_map(kept@) == delete_keys(recs_map(s.take(j + 1)), pdv));
                }
            }
            proof {
                j = j + 1;
            }
        }
        proof {
            assert(s.take(j) =~= s);
        }
        self.recs = kept;
        Ok(())
    }

    /// Lists the immediate children of the directory at `path` (the empty
    /// path lists the root): every child appears, every entry describes a
    /// real child, and the listing is sorted with directories before files
    /// and names ascending within each kind. Fails exactly when `path` is
    /// absent or names a file.
    pub fn list_dir(&self, path: &Vec<String>) -> (r: Result<Vec<FileEntry>, ErrorKind>)
        requires
            self.wf(),
        ensures
            r is Ok <==> (path.deep_view().len() == 0 || (self@.contains_key(path.deep_view())
                && self@[path.deep_view()] is Dir)),
            r is Err ==> r->Err_0 == ErrorKind::IoError,
            r is Ok ==> sorted_entries(r->Ok_0@),
            r is Ok ==> forall|e: FileEntry|
                r->Ok_0@.contains(e) ==> child_entry(self@, path.deep_view(), e),
            r is Ok ==> forall|k: Seq<Seq<char>>|
                self@.contains_key(k) && is_child(path.deep_view(), k) ==> exists|idx: int|
                    0 <= idx < r->Ok_0@.len() && #[trigger] r->Ok_0@[idx].name@ == k.last(),
            r is Ok ==> forall|a: int, b: int|
                0 <= a < b < r->Ok_0@.len() ==> r->Ok_0@[a].name@ != r->Ok_0@[b].name@,
    {
        broadcast use vstd::seq_lib::group_to_multiset_ensures;

        let ghost pdv = path.deep_view();
        if path.len() > 0 {
            proof {
                lemma_recs_map_membership(self.recs@, pdv);
            }
            match find_rec(&self.recs, path) {
                None => {
                    return Err(ErrorKind::IoError);
                },
                Some(i) => {
                    proof {
                        lemma_recs_map_index(self.recs@, i as int);
                    }
                    if matches!(&self.recs[i].node, FsNode::File(_)) {
                        return Err(ErrorKind::IoError);
                    }
                },
            }
        }
        let mut out: Vec<FileEntry> = Vec::new();
        let mut j: usize = 0;
        while j < self.recs.len()
            invariant
                self.wf(),
                j <= self.recs@.len(),
                pdv == path.deep_view(),
                forall|e: FileEntry| out@.contains(e) ==> child_entry(self@, pdv, e),
                forall|i: int|
                    0 <= i < j && is_child(pdv, #[trigger] self.recs@[i].path.deep_view())
                        ==> exists|idx: int|
                        0 <= idx < out@.len() && #[trigger] out@[idx].name@
                            == self.recs@[i].path.deep_view().last(),
                forall|a: int| #![trigger out@[a]]
                    0 <= a < out@.len() ==> exists|i: int|
                        0 <= i < j && #[trigger] self.recs@[i].path.deep_view() == pdv.push(
                            out@[a].name@,
                        ),
                forall|a: int, b: int|
                    0 <= a < b < out@.len() ==> out@[a].name@ != out@[b].name@,
            decreases self.recs@.len() - j,
        {
            let rec = &self.recs[j];
            let ghost kdv = rec.path.deep_view();
            if path.len() < rec.path.len() && rec.path.len() - path.len() == 1
                && path_is_prefix(path, &rec.path) {
                let name = rec.path[rec.path.len() - 1].clone();
                let joined = join_path_exec(&rec.path);
                let is_dir = matches!(&rec.node, FsNode::Dir);
                let e = FileEntry { name, path: joined, is_dir };
                proof {
                    lemma_recs_map_index(self.recs@, j as int);
                    assert(kdv =~= pdv.push(e.name@));
                    assert(child_entry(self@, pdv, e));
                }
                let ghost old_out = out@;
                out.push(e);
                proof {
                    assert(out@[out@.len() - 1] == e);
                    assert(out@[out@.len() - 1].name@ == kdv.last());
                    assert forall|x: FileEntry| out@.contains(x) implies child_entry(
                        self@,
                        pdv,
                        x,
                    ) by {
                        let a = choose|a: int| 0 <= a < out@.len() && out@[a] == x;
                        if a < out@.len() - 1 {
                            assert(old_out[a] == x);
                            assert(old_out.contains(x));
                        } else {
                            assert(x == e);
                        }
                    }
                    assert forall|i: int|
                        0 <= i < j + 1 && is_child(
                            pdv,
                            #[trigger] self.recs@[i].path.deep_view(),
                        ) implies exists|idx: int|
                        0 <= idx < out@.len() && #[trigger] out@[idx].name@
                            == self.recs@[i].path.deep_view().last() by {
                        if i < j {
                            let idx = choose|idx: int|
                                0 <= idx < old_out.len() && #[trigger] old_out[idx].name@
                                    == self.recs@[i].path.deep_view().last();
                            assert(out@[idx].name@ == self.recs@[i].path.deep_view().last());
                        } else {
                            assert(out@[out@.len() - 1].name@
                                == self.recs@[i].path.deep_view().last());
                        }
                    }
                    assert forall|a: int| #![trigger out@[a]] 0 <= a < out@.len() implies exists|
                        i: int,
                    |
                        0 <= i < j + 1 && #[trigger] self.recs@[i].path.deep_view() == pdv.push(
                            out@[a].name@,
                        ) by {
                        if a < out@.len() - 1 {
                            let i0 = choose|i0: int|
                                0 <= i0 < j && #[trigger] self.recs@[i0].path.deep_view()
                                    == pdv.push(old_out[a].name@);
                            assert(out@[a] == old_out[a]);
                            assert(self.recs@[i0].path.deep_view() == pdv.push(out@[a].name@));
                        } else {
                            assert(self.recs@[j as int].path.deep_view() == pdv.push(
                                out@[a].name@,
                            ));
                        }
                    }
                    assert forall|a: int, b: int|
                        0 <= a < b < out@.len() implies out@[a].name@ != out@[b].name@ by {
                        if b == out@.len() - 1 {
                            if out@[a].name@ == e.name@ {
                                let i0 = choose|i0: int|
                                    0 <= i0 < j && #[trigger] self.recs@[i0].path.deep_view()
                                        == pdv.push(old_out[a].name@);
                                assert(self.recs@[i0].path.deep_view() == kdv);
                                assert(self.recs@[j as int].path.deep_view() == kdv);
                                assert(false);
                            }
                        } else {
                            assert(old_out[a] == out@[a] && old_out[b] == out@[b]);
                        }
                    }
                }
            } else {
                proof {
                    assert(!is_child(pdv, kdv));
                }
            }
            j = j + 1;
        }
        let ghost collected = out@;
        let sorted = sort_entries(out);
        proof {
            assert forall|e: FileEntry| sorted@.contains(e) implies child_entry(
                self@,
                pdv,
                e,
            ) by {
                vstd::seq_lib::to_multiset_contains(sorted@, e);
                vstd::seq_lib::to_multiset_contains(collected, e);
                assert(collected.contains(e));
            }
            assert forall|k: Seq<Seq<char>>|
                self@.contains_key(k) && is_child(pdv, k) implies exists|idx: int|
                0 <= idx < sorted@.len() && #[trigger] sorted@[idx].name@ == k.last() by {
                lemma_recs_map_membership(self.recs@, k);
                let i = choose|i: int|
                    0 <= i < self.recs@.len() && self.recs@[i].path.deep_view() == k;
                let idx0 = choose|idx: int|
                    0 <= idx < collected.len() && #[trigger] collected[idx].name@ == k.last();
                let e = collected[idx0];
                assert(collected.contains(e));
                vstd::seq_lib::to_multiset_contains(sorted@, e);
                vstd::seq_lib::to_multiset_contains(collected, e);
                assert(sorted@.contains(e));
                let idx = choose|idx: int| 0 <= idx < sorted@.len() && sorted@[idx] == e;
                assert(sorted@[idx].name@ == k.last());
            }
            assert forall|a: int, b: int|
                0 <= a < b < sorted@.len() implies sorted@[a].name@ != sorted@[b].name@ by {
                broadcast use vstd::multiset::group_multiset_axioms;

                let e1 = sorted@[a];
                let e2 = sorted@[b];
                if e1.name@ == e2.name@ {
                    assert(sorted@.contains(e1));
                    assert(sorted@.contains(e2));
                    vstd::seq_lib::to_multiset_contains(sorted@, e1);
                    vstd::seq_lib::to_multiset_contains(collected, e1);
                    vstd::seq_lib::to_multiset_contains(sorted@, e2);
                    vstd::seq_lib::to_multiset_contains(collected, e2);
                    assert(collected.contains(e1));
                    assert(collected.contains(e2));
                    if e1 == e2 {
                        let srem = sorted@.remove(a);
                        assert(srem[b - 1] == e1);
                        assert(srem.contains(e1));
                        vstd::seq_lib::to_multiset_remove(sorted@, a);
                        vstd::seq_lib::to_multiset_contains(srem, e1);
                        assert(sorted@.to_multiset().count(e1) >= 2);
                        assert(collected.to_multiset().count(e1) >= 2);
                        let a1 = choose|a1: int|
                            0 <= a1 < collected.len() && collected[a1] == e1;
                        let crem = collected.remove(a1);
                        vstd::seq_lib::to_multiset_remove(collected, a1);
                        assert(crem.to_multiset().count(e1) >= 1);
                        vstd::seq_lib::to_multiset_contains(crem, e1);
                        assert(crem.contains(e1));
                        let a2 = choose|a2: int| 0 <= a2 < crem.len() && crem[a2] == e1;
                        let a2o = if a2 < a1 {
                            a2
                        } else {
                            a2 + 1
                        };
                        assert(collected[a2o] == e1);
                        assert(a2o != a1);
                        assert(collected[a1].name@ == collected[a2o].name@);
                        assert(false);
                    } else {
                        let a1 = choose|a1: int|
                            0 <= a1 < collected.len() && collected[a1] == e1;
                        let a2 = choose|a2: int|
                            0 <= a2 < collected.len() && collected[a2] == e2;
                        assert(a1 != a2);
                        assert(collected[a1].name@ == collected[a2].name@);
                        assert(false);
                    }
                }
            }
        }
        Ok(sorted)
    }
}

/// The key `k` moved from under `a` to under `b`.
pub open spec fn rename_key(
    a: Seq<Seq<char>>,
    b: Seq<Seq<char>>,
    k: Seq<Seq<char>>,
) -> Seq<Seq<char>> {
    b + k.skip(a.len() as int)
}

/// The filesystem after renaming `a` to `b`: everything at or under `a`
/// reappears at or under `b`, keyed by the same suffix; all other entries
/// keep their keys.
pub open spec fn rename_map(
    m: Map<Seq<Seq<char>>, NodeView>,
    a: Seq<Seq<char>>,
    b: Seq<Seq<char>>,
) -> Map<Seq<Seq<char>>, NodeView> {
    Map::new(
        |k: Seq<Seq<char>>|
            if is_path_prefix(b, k) {
                m.contains_key(a + k.skip(b.len() as int))
            } else {
                m.contains_key(k) && !is_path_prefix(a, k)
            },
        |k: Seq<Seq<char>>|
            if is_path_prefix(b, k) {
                m[a + k.skip(b.len() as int)]
            } else {
                m[k]
            },
    )
}

/// When renaming `a` to `b` succeeds: `a` is present, the parent of `b`
/// is a present directory (or the root), nothing sits at or under `b`,
/// and `b` does not lie at or under `a`.
pub open spec fn can_rename(
    m: Map<Seq<Seq<char>>, NodeView>,
    a: Seq<Seq<char>>,
    b: Seq<Seq<char>>,
) -> bool {
    &&& a.len() >= 1
    &&& b.len() >= 1
    &&& m.contains_key(a)
    &&& parent_ok(m, b)
    &&& !is_path_prefix(a, b)
    &&& forall|k: Seq<Seq<char>>| #[trigger] m.contains_key(k) ==> !is_path_prefix(b, k)
}

proof fn lemma_concat_skip(a: Seq<Seq<char>>, s: Seq<Seq<char>>)
    ensures
        (a + s).skip(a.len() as int) == s,
        is_path_prefix(a, a + s),
{
    assert((a + s).skip(a.len() as int) =~= s);
    assert((a + s).take(a.len() as int) =~= a);
}

proof fn lemma_prefix_recompose(b: Seq<Seq<char>>, q: Seq<Seq<char>>)
    requires
        is_path_prefix(b, q),
    ensures
        b + q.skip(b.len() as int) == q,
{
    assert(b + q.skip(b.len() as int) =~= q);
}

proof fn lemma_rename_insert(
    m: Map<Seq<Seq<char>>, NodeView>,
    a: Seq<Seq<char>>,
    b: Seq<Seq<char>>,
    k: Seq<Seq<char>>,
    v: NodeView,
)
    requires
        a.len() >= 1,
        b.len() >= 1,
        !is_path_prefix(a, b),
        !is_path_prefix(b, a),
        !is_path_prefix(b, k),
    ensures
        is_path_prefix(a, k) ==> rename_map(m.insert(k, v), a, b) == rename_map(m, a, b).insert(
            rename_key(a, b, k),
            v,
        ),
        !is_path_prefix(a, k) ==> rename_map(m.insert(k, v), a, b) == rename_map(m, a, b).insert(
            k,
            v,
        ),
{
    let lhs = rename_map(m.insert(k, v), a, b);
    if is_path_prefix(a, k) {
        let kb = rename_key(a, b, k);
        let rhs = rename_map(m, a, b).insert(kb, v);
        lemma_concat_skip(b, k.skip(a.len() as int));
        lemma_prefix_recompose(a, k);
        assert forall|q: Seq<Seq<char>>|
            lhs.contains_key(q) == rhs.contains_key(q) by {
            if is_path_prefix(b, q) {
                lemma_prefix_recompose(b, q);
                let qa = a + q.skip(b.len() as int);
                lemma_concat_skip(a, q.skip(b.len() as int));
                if qa == k {
                    assert(q == kb);
                } else {
                    assert(q != kb) by {
                        if q == kb {
                            assert(q.skip(b.len() as int) == k.skip(a.len() as int));
                        }
                    }
                }
            } else {
                assert(q != kb);
            }
        }
        assert forall|q: Seq<Seq<char>>| lhs.contains_key(q) implies lhs[q] == rhs[q] by {
            if is_path_prefix(b, q) {
                lemma_prefix_recompose(b, q);
                let qa = a + q.skip(b.len() as int);
                lemma_concat_skip(a, q.skip(b.len() as int));
                if qa == k {
                    assert(q == kb);
                } else {
                    assert(q != kb) by {
                        if q == kb {
                            assert(q.skip(b.len() as int) == k.skip(a.len() as int));
                        }
                    }
                }
            } else {
                assert(q != kb);
            }
        }
        assert(lhs =~= rhs);
    } else {
        let rhs = rename_map(m, a, b).insert(k, v);
        assert forall|q: Seq<Seq<char>>|
            lhs.contains_key(q) == rhs.contains_key(q) by {
            if is_path_prefix(b, q) {
                let qa = a + q.skip(b.len() as int);
                lemma_concat_skip(a, q.skip(b.len() as int));
                assert(qa != k);
            }
        }
        assert forall|q: Seq<Seq<char>>| lhs.contains_key(q) implies lhs[q] == rhs[q] by {
            if is_path_prefix(b, q) {
                let qa = a + q.skip(b.len() as int);
                lemma_concat_skip(a, q.skip(b.len() as int));
                assert(qa != k);
            }
        }
        assert(lhs =~= rhs);
    }
}

/// Appends to a copy of `b` the components of `kpath` from `alen` on.
fn rebase_path(b: &Vec<String>, alen: usize, kpath: &Vec<String>) -> (r: Vec<String>)
    requires
        alen <= kpath@.len(),
    ensures
        r.deep_view() == b.deep_view() + kpath.deep_view().skip(alen as int),
{
    let mut r = clone_path(b);
    proof {
        assert(forall|j: int| 0 <= j < b@.len() ==> r@[j]@ == b.deep_view()[j]);
    }
    let mut i: usize = alen;
    while i < kpath.len()
        invariant
            alen <= i <= kpath@.len(),
            r@.len() == b@.len() + i - alen,
            forall|j: int| 0 <= j < b@.len() ==> r@[j]@ == b.deep_view()[j],
            forall|j: int|
                b@.len() <= j < r@.len() ==> r@[j]@ == kpath@[alen + (j - b@.len())]@,
        decreases kpath@.len() - i,
    {
        r.push(kpath[i].clone());
        i = i + 1;
    }
    proof {
        assert(r.deep_view() =~= b.deep_view() + kpath.deep_view().skip(alen as int));
    }
    r
}

impl FsModel {
    /// Moves the entry at `old_path` to `new_path`, carrying along all
    /// descendants when it is a directory. Succeeds exactly when the
    /// source is present, the destination's parent is a present directory
    /// (or the root), nothing is at or under the destination, and the
    /// destination does not lie under the source. A failed call leaves the
    /// filesystem unchanged.
    pub fn rename_path(&mut self, old_path: &Vec<String>, new_path: &Vec<String>) -> (r: Result<
        (),
        ErrorKind,
    >)
        requires
            old(self).wf(),
        ensures
            final(self).wf(),
            r is Ok <==> can_rename(old(self)@, old_path.deep_view(), new_path.deep_view()),
            r is Ok ==> final(self)@ == rename_map(
                old(self)@,
                old_path.deep_view(),
                new_path.deep_view(),
            ),
            r is Err ==> final(self)@ == old(self)@ && r->Err_0 == ErrorKind::IoError,
    {
        let ghost adv = old_path.deep_view();
        let ghost bdv = new_path.deep_view();
        let ghost m0 = old(self)@;
        if old_path.len() == 0 || new_path.len() == 0 {
            return Err(ErrorKind::IoError);
        }
        proof {
            lemma_recs_map_membership(self.recs@, adv);
        }
        if find_rec(&self.recs, old_path).is_none() {
            return Err(ErrorKind::IoError);
        }
        if new_path.len() > 1 {
            let mut parent = clone_path(new_path);
            let _ = parent.pop();
            proof {
                assert(parent.deep_view() =~= bdv.drop_last());
                lemma_recs_map_membership(self.recs@, bdv.drop_last());
            }
            match find_rec(&self.recs, &parent) {
                None => {
                    return Err(ErrorKind::IoError);
                },
                Some(i) => {
                    proof {
                        lemma_recs_map_index(self.recs@, i as int);
                    }
                    if !(matches!(&self.recs[i].node, FsNode::Dir)) {
                        return Err(ErrorKind::IoError);
                    }
                },
            }
        }
        if path_is_prefix(old_path, new_path) {
            return Err(ErrorKind::IoError);
        }
        // Nothing may sit at or under the destination.
        let mut n: usize = 0;
        while n < self.recs.len()
            invariant
                self@ == m0,
                m0 == old(self)@,
                adv == old_path.deep_view(),
                self.wf(),
                bdv == new_path.deep_view(),
                n <= self.recs@.len(),
                forall|i: int|
                    0 <= i < n ==> !is_path_prefix(
                        bdv,
                        #[trigger] self.recs@[i].path.deep_view(),
                    ),
            decreases self.recs@.len() - n,
        {
            if path_is_prefix(new_path, &self.recs[n].path) {
                proof {
                    lemma_recs_map_index(self.recs@, n as int);
                    assert(m0.contains_key(self.recs@[n as int].path.deep_view()));
                    assert(!can_rename(m0, adv, bdv));
                }
                return Err(ErrorKind::IoError);
            }
            n = n + 1;
        }
        proof {
            assert forall|k: Seq<Seq<char>>| #[trigger]
                m0.contains_key(k) implies !is_path_prefix(bdv, k) by {
                lemma_recs_map_membership(self.recs@, k);
            }
            assert(!is_path_prefix(bdv, adv));
            assert(can_rename(m0, adv, bdv));
        }
        let alen = old_path.len();
        let mut olds: Vec<FsRec> = Vec::new();
        core::mem::swap(&mut olds, &mut self.recs);
        let ghost s = olds@;
        let mut kept: Vec<FsRec> = Vec::new();
        let ghost mut j: int = 0;
        while olds.len() > 0
            invariant
                adv == old_path.deep_view(),
                bdv == new_path.deep_view(),
                alen == old_path@.len(),
                adv.len() == alen,
                adv.len() >= 1,
                bdv.len() >= 1,
                !is_path_prefix(adv, bdv),
                !is_path_prefix(bdv, adv),
                forall|i: int|
                    0 <= i < s.len() ==> !is_path_prefix(bdv, #[trigger] s[i].path.deep_view()),
                unique_keys(s),
                0 <= j <= s.len(),
                olds@ == s.skip(j),
                unique_keys(kept@),
                recs_map(kept@) == rename_map(recs_map(s.take(j)), adv, bdv),
            decreases olds@.len(),
        {
            let r0 = olds.remove(0);
            proof {
                assert(s.skip(j).remove(0) =~= s.skip(j + 1));
                assert(r0 == s[j]);
                assert(s.take(j + 1).drop_last() =~= s.take(j));
                assert(s.take(j + 1).last() == s[j]);
                assert(recs_map(s.take(j + 1)) == recs_map(s.take(j)).insert(
                    r0.path.deep_view(),
                    s[j].node@,
                ));
                lemma_rename_insert(
                    recs_map(s.take(j)),
                    adv,
                    bdv,
                    r0.path.deep_view(),
                    s[j].node@,
                );
            }
            let ghost kj = r0.path.deep_view();
            let ghost old_kept = kept@;
            let under = path_is_prefix(old_path, &r0.path);
            let newrec = if under {
                proof {
                    lemma_prefix_recompose(adv, kj);
                    lemma_concat_skip(bdv, kj.skip(alen as int));
                }
                let np = rebase_path(new_path, alen, &r0.path);
                FsRec { path: np, node: r0.node }
            } else {
                r0
            };
            let ghost nk = newrec.path.deep_view();
            proof {
                assert(nk == if is_path_prefix(adv, kj) {
                    rename_key(adv, bdv, kj)
                } else {
                    kj
                });
                // The new key is absent from what is kept so far.
                lemma_recs_map_membership(kept@, nk);
                lemma_recs_map_membership(s.take(j), kj);
                assert(forall|a: int| 0 <= a < j ==> s.take(j)[a] == s[a]);
                assert forall|a: int| 0 <= a < kept@.len() implies kept@[a].path.deep_view()
                    != nk by {
                    if kept@[a].path.deep_view() == nk {
                        assert(recs_map(kept@).contains_key(nk)) by {
                            lemma_recs_map_index(kept@, a);
                        }
                        if is_path_prefix(bdv, nk) {
                            assert(recs_map(s.take(j)).contains_key(
                                adv + nk.skip(bdv.len() as int),
                            ));
                            assert(is_path_prefix(adv, kj) && nk == rename_key(adv, bdv, kj));
                            lemma_concat_skip(bdv, kj.skip(alen as int));
                            lemma_prefix_recompose(adv, kj);
                            assert(adv + nk.skip(bdv.len() as int) == kj);
                            lemma_recs_map_membership(s.take(j), kj);
                            let i0 = choose|i0: int|
                                0 <= i0 < s.take(j).len() && s.take(j)[i0].path.deep_view()
                                    == kj;
                            assert(s[i0].path.deep_view() == s[j].path.deep_view());
                            assert(false);
                        } else {
                            assert(nk == kj);
                            assert(recs_map(s.take(j)).contains_key(kj));
                            let i0 = choose|i0: int|
                                0 <= i0 < s.take(j).len() && s.take(j)[i0].path.deep_view()
                                    == kj;
                            assert(s[i0].path.deep_view() == s[j].path.deep_view());
                            assert(false);
                        }
                    }
                }
            }
            kept.push(newrec);
            proof {
                assert(kept@.drop_last() =~= old_kept);
                assert(recs_map(kept@) == recs_map(old_kept).insert(nk, s[j].node@));
                assert(recs_map(kept@) == rename_map(recs_map(s.take(j + 1)), adv, bdv));
                j = j + 1;
            }
        }
        proof {
            assert(s.take(j) =~= s);
        }
        self.recs = kept;
        Ok(())
    }
}

/// Law: renaming an entry then reading the new path yields exactly what a
/// read of the old path yielded before, and a read of the old path now
/// fails.
pub proof fn lemma_rename_then_read(
    m: Map<Seq<Seq<char>>, NodeView>,
    a: Seq<Seq<char>>,
    b: Seq<Seq<char>>,
)
    requires
        can_rename(m, a, b),
    ensures
        read_ok(rename_map(m, a, b), b) == read_ok(m, a),
        read_ok(rename_map(m, a, b), a) is None,
{
    assert(b.take(b.len() as int) =~= b);
    assert(is_path_prefix(b, b));
    assert(b.skip(b.len() as int) =~= Seq::<Seq<char>>::empty());
    assert(a + b.skip(b.len() as int) =~= a);
    assert(a.take(a.len() as int) =~= a);
    assert(is_path_prefix(a, a));
    assert(!is_path_prefix(b, a));
}

/// Law: after a deletion, neither the deleted path nor any of its
/// descendants is present, and no listing entry of the parent directory
/// carries the deleted name.
pub proof fn lemma_delete_removes_subtree(m: Map<Seq<Seq<char>>, NodeView>, p: Seq<Seq<char>>)
    requires
        p.len() >= 1,
    ensures
        forall|k: Seq<Seq<char>>|
            #[trigger] is_path_prefix(p, k) ==> !delete_keys(m, p).contains_key(k),
        forall|e: FileEntry|
            #[trigger] child_entry(delete_keys(m, p), p.drop_last(), e) ==> e.name@ != p.last(),
{
    assert(p.take(p.len() as int) =~= p);
    assert forall|e: FileEntry|
        #[trigger] child_entry(delete_keys(m, p), p.drop_last(), e) implies e.name@
        != p.last() by {
        if e.name@ == p.last() {
            assert(p.drop_last().push(e.name@) =~= p);
            assert(delete_keys(m, p).contains_key(p));
            assert(is_path_prefix(p, p));
        }
    }
}

/// Law: a path that is not present cannot be read; together with the
/// error clauses of every operation, which leave the filesystem exactly
/// as it was, a call on a missing path fails and changes nothing.
pub proof fn lemma_missing_path_fails(m: Map<Seq<Seq<char>>, NodeView>, p: Seq<Seq<char>>)
    requires
        !m.contains_key(p),
    ensures
        read_ok(m, p) is None,
{
}

/// Law: writing a file and then reading the same path back yields exactly
/// the written content, for arbitrary content including the empty text.
pub proof fn lemma_write_then_read(
    m: Map<Seq<Seq<char>>, NodeView>,
    p: Seq<Seq<char>>,
    c: Seq<char>,
)
    requires
        can_write(m, p),
    ensures
        read_ok(m.insert(p, NodeView::File(c)), p) == Some(c),
{
}

} // verus!
