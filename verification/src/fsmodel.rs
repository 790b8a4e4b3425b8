//! The remote filesystem, modelled explicitly.
//!
//! A [`RemoteFs`] value holds the remote nodes this tool knows about: each is
//! a directory or a regular file with its contents, at a non-empty,
//! well-formed path. The view of the whole filesystem is a map from path to
//! node, and every operation's contract pins exactly how that map changes and
//! when the operation fails.

use vstd::prelude::*;
use crate::path::{RPath, wf_path, is_prefix_of};

verus! {

/// A remote node, in specification terms.
pub enum NodeView {
    Dir,
    File(Seq<u8>),
}

/// A remote node: a directory, or a regular file with its contents.
pub enum NodeData {
    Dir,
    File(Vec<u8>),
}

impl View for NodeData {
    type V = NodeView;

    open spec fn view(&self) -> NodeView {
        match self {
            NodeData::Dir => NodeView::Dir,
            NodeData::File(d) => NodeView::File(d@),
        }
    }
}

/// What `stat` reports of a node.
#[derive(Clone, Copy, PartialEq, Eq, Structural, Debug)]
pub enum Meta {
    Directory,
    Regular,
}

/// Why a filesystem operation was refused.
#[derive(Clone, Copy, PartialEq, Eq, Structural, Debug)]
pub enum FsError {
    /// The path, or a needed parent, does not exist.
    NotFound,
    /// The parent of the path exists but is not a directory.
    NotADirectory,
    /// The path already names a node that is in the way.
    AlreadyExists,
    /// The path names a node that is not a regular file.
    NotAFile,
    /// The directory still has children.
    NotEmpty,
}

/// One known remote node.
pub struct FsEntry {
    pub path: RPath,
    pub node: NodeData,
}

/// Some entry of `s` sits at path `p`.
pub open spec fn has_path(s: Seq<FsEntry>, p: Seq<Seq<char>>) -> bool {
    exists|i: int| 0 <= i < s.len() && s[i].path@ == p
}

/// The index of the entry at path `p` (meaningful only when `has_path`).
pub open spec fn idx_of(s: Seq<FsEntry>, p: Seq<Seq<char>>) -> int {
    choose|i: int| 0 <= i < s.len() && s[i].path@ == p
}

/// The entries as a map from path to node.
pub open spec fn entry_map(s: Seq<FsEntry>) -> Map<Seq<Seq<char>>, NodeView> {
    Map::new(|p: Seq<Seq<char>>| has_path(s, p), |p: Seq<Seq<char>>| s[idx_of(s, p)].node@)
}

/// No two entries share a path.
pub open spec fn distinct_paths(s: Seq<FsEntry>) -> bool {
    forall|i: int, j: int| 0 <= i < j < s.len() ==> s[i].path@ != s[j].path@
}

/// The longest path length among the entries.
pub open spec fn max_depth(s: Seq<FsEntry>) -> nat
    decreases s.len(),
{
    if s.len() == 0 {
        0
    } else {
        let rest = max_depth(s.drop_last());
        if s.last().path@.len() > rest {
            s.last().path@.len()
        } else {
            rest
        }
    }
}

/// The parent of `p` is in place: `p` is top-level, or its parent is a
/// directory of `m`.
pub open spec fn parent_ready(m: Map<Seq<Seq<char>>, NodeView>, p: Seq<Seq<char>>) -> bool {
    p.len() == 1 || (m.contains_key(p.drop_last()) && m[p.drop_last()] is Dir)
}

proof fn lemma_idx(s: Seq<FsEntry>, p: Seq<Seq<char>>, i: int)
    requires
        distinct_paths(s),
        0 <= i < s.len(),
        s[i].path@ == p,
    ensures
        entry_map(s).contains_key(p),
        entry_map(s)[p] == s[i].node@,
        idx_of(s, p) == i,
{
    assert(has_path(s, p));
    let j = idx_of(s, p);
    assert(0 <= j < s.len() && s[j].path@ == p);
    if i != j {
        assert(s[i].path@ != s[j].path@);
    }
}

proof fn lemma_push(s: Seq<FsEntry>, e: FsEntry)
    requires
        distinct_paths(s),
        !has_path(s, e.path@),
    ensures
        distinct_paths(s.push(e)),
        entry_map(s.push(e)) =~= entry_map(s).insert(e.path@, e.node@),
{
    let t = s.push(e);
    assert forall|i: int, j: int| 0 <= i < j < t.len() implies t[i].path@ != t[j].path@ by {
        if j < s.len() {
            assert(t[i] == s[i] && t[j] == s[j]);
        } else {
            assert(t[j] == e);
            assert(t[i] == s[i]);
        }
    }
    assert forall|p: Seq<Seq<char>>| #[trigger] has_path(t, p) <==> (has_path(s, p) || p
        == e.path@) by {
        if has_path(t, p) {
            let i = choose|i: int| 0 <= i < t.len() && t[i].path@ == p;
            if i < s.len() {
                assert(s[i].path@ == p);
            }
        }
        if has_path(s, p) {
            let i = choose|i: int| 0 <= i < s.len() && s[i].path@ == p;
            assert(t[i].path@ == p);
        }
        if p == e.path@ {
            assert(t[s.len() as int].path@ == p);
        }
    }
    assert forall|p: Seq<Seq<char>>| entry_map(t).contains_key(p) implies entry_map(t)[p]
        == entry_map(s).insert(e.path@, e.node@)[p] by {
        if p == e.path@ {
            lemma_idx(t, p, s.len() as int);
        } else {
            let i = choose|i: int| 0 <= i < s.len() && s[i].path@ == p;
            lemma_idx(s, p, i);
            lemma_idx(t, p, i);
        }
    }
}

proof fn lemma_update(s: Seq<FsEntry>, i: int, e: FsEntry)
    requires
        distinct_paths(s),
        0 <= i < s.len(),
        s[i].path@ == e.path@,
    ensures
        distinct_paths(s.update(i, e)),
        entry_map(s.update(i, e)) =~= entry_map(s).insert(e.path@, e.node@),
{
    let t = s.update(i, e);
    assert forall|a: int, b: int| 0 <= a < b < t.len() implies t[a].path@ != t[b].path@ by {
        assert(t[a].path@ == s[a].path@ && t[b].path@ == s[b].path@);
    }
    assert forall|p: Seq<Seq<char>>| #[trigger] has_path(t, p) <==> has_path(s, p) by {
        if has_path(t, p) {
            let a = choose|a: int| 0 <= a < t.len() && t[a].path@ == p;
            assert(s[a].path@ == p);
        }
        if has_path(s, p) {
            let a = choose|a: int| 0 <= a < s.len() && s[a].path@ == p;
            assert(t[a].path@ == p);
        }
    }
    assert forall|p: Seq<Seq<char>>| entry_map(t).contains_key(p) implies entry_map(t)[p]
        == entry_map(s).insert(e.path@, e.node@)[p] by {
        if p == e.path@ {
            lemma_idx(t, p, i);
        } else {
            let a = choose|a: int| 0 <= a < s.len() && s[a].path@ == p;
            lemma_idx(s, p, a);
            assert(a != i);
            lemma_idx(t, p, a);
        }
    }
}

proof fn lemma_remove(s: Seq<FsEntry>, i: int)
    requires
        distinct_paths(s),
        0 <= i < s.len(),
    ensures
        distinct_paths(s.remove(i)),
        entry_map(s.remove(i)) =~= entry_map(s).remove(s[i].path@),
{
    let t = s.remove(i);
    let p0 = s[i].path@;
    assert forall|a: int, b: int| 0 <= a < b < t.len() implies t[a].path@ != t[b].path@ by {
        let a0: int = if a < i { a } else { a + 1 };
        let b0: int = if b < i { b } else { b + 1 };
        assert(t[a] == s[a0] && t[b] == s[b0]);
    }
    assert forall|p: Seq<Seq<char>>| #[trigger] has_path(t, p) <==> (has_path(s, p) && p != p0) by {
        if has_path(t, p) {
            let a = choose|a: int| 0 <= a < t.len() && t[a].path@ == p;
            let a0: int = if a < i { a } else { a + 1 };
            assert(s[a0].path@ == p);
            if p == p0 {
                assert(s[a0].path@ == s[i].path@ && a0 != i);
            }
        }
        if has_path(s, p) && p != p0 {
            let a = choose|a: int| 0 <= a < s.len() && s[a].path@ == p;
            assert(a != i);
            let a1: int = if a < i { a } else { a - 1 };
            assert(t[a1].path@ == p);
        }
    }
    assert forall|p: Seq<Seq<char>>| entry_map(t).contains_key(p) implies entry_map(t)[p]
        == entry_map(s).remove(p0)[p] by {
        let a = choose|a: int| 0 <= a < s.len() && s[a].path@ == p;
        lemma_idx(s, p, a);
        let a1: int = if a < i { a } else { a - 1 };
        assert(t[a1].path@ == p);
        lemma_idx(t, p, a1);
        assert(t[a1] == s[a]);
    }
}

proof fn lemma_max_depth_entry(s: Seq<FsEntry>, i: int)
    requires
        0 <= i < s.len(),
    ensures
        s[i].path@.len() <= max_depth(s),
    decreases s.len(),
{
    if i == s.len() - 1 {
    } else {
        lemma_max_depth_entry(s.drop_last(), i);
    }
}

proof fn lemma_max_depth_remove(s: Seq<FsEntry>, i: int)
    requires
        0 <= i < s.len(),
    ensures
        max_depth(s.remove(i)) <= max_depth(s),
    decreases s.len(),
{
    if i == s.len() - 1 {
        assert(s.remove(i) =~= s.drop_last());
    } else {
        assert(s.remove(i).drop_last() =~= s.drop_last().remove(i));
        lemma_max_depth_remove(s.drop_last(), i);
    }
}

/// A directory listing entry: the full path of a direct child and its kind.
pub struct DirEntry {
    pub path: RPath,
    pub meta: Meta,
}

/// The modelled remote filesystem.
pub struct RemoteFs {
    entries: Vec<FsEntry>,
}

impl View for RemoteFs {
    type V = Map<Seq<Seq<char>>, NodeView>;

    closed spec fn view(&self) -> Map<Seq<Seq<char>>, NodeView> {
        entry_map(self.entries@)
    }
}

impl RemoteFs {
    /// Structural soundness: paths are unique, non-empty and well formed,
    /// and every proper prefix of a known path is a directory.
    pub closed spec fn wf(self) -> bool {
        &&& distinct_paths(self.entries@)
        &&& forall|i: int|
            0 <= i < self.entries@.len() ==> wf_path(#[trigger] self.entries@[i].path@)
                && self.entries@[i].path@.len() > 0
        &&& forall|i: int, k: int|
            #![trigger self.entries@[i].path@.take(k)]
            0 <= i < self.entries@.len() && 1 <= k < self.entries@[i].path@.len()
                ==> entry_map(self.entries@).contains_key(self.entries@[i].path@.take(k))
                && entry_map(self.entries@)[self.entries@[i].path@.take(k)] is Dir
    }

    /// An upper bound on the length of any known path.
    pub closed spec fn depth_bound(self) -> nat {
        max_depth(self.entries@)
    }

    /// What well-formedness yields at the level of the view: every known
    /// path is non-empty and well formed, and every proper prefix of a
    /// known path is a known directory.
    pub proof fn lemma_wf(self)
        requires
            self.wf(),
        ensures
            forall|p: Seq<Seq<char>>|
                #[trigger] self@.contains_key(p) ==> wf_path(p) && 0 < p.len()
                    <= self.depth_bound(),
            forall|p: Seq<Seq<char>>, k: int|
                #[trigger] self@.contains_key(p) && 1 <= k < p.len() ==> self@.contains_key(
                    #[trigger] p.take(k)) && self@[p.take(k)] is Dir,
    {
        assert forall|p: Seq<Seq<char>>| #[trigger] self@.contains_key(p) implies wf_path(p) && 0
            < p.len() <= self.depth_bound() by {
            let i = choose|i: int| 0 <= i < self.entries@.len() && self.entries@[i].path@ == p;
            lemma_max_depth_entry(self.entries@, i);
        }
        assert forall|p: Seq<Seq<char>>, k: int| #[trigger] self@.contains_key(p) && 1 <= k
            < p.len() implies self@.contains_key(#[trigger] p.take(k)) && self@[p.take(k)]
            is Dir by {
            let i = choose|i: int| 0 <= i < self.entries@.len() && self.entries@[i].path@ == p;
            assert(entry_map(self.entries@).contains_key(self.entries@[i].path@.take(k)));
        }
    }

    /// An empty remote filesystem.
    pub fn new() -> (r: RemoteFs)
        ensures
            r.wf(),
            r@ =~= Map::<Seq<Seq<char>>, NodeView>::empty(),
    {
        let r = RemoteFs { entries: Vec::new() };
        proof {
            assert forall|p: Seq<Seq<char>>| !r@.contains_key(p) by {
                assert(!has_path(r.entries@, p));
            }
        }
        r
    }

    /// The index of the entry at `p`, if the path is known.
    fn find(&self, p: &RPath) -> (r: Option<usize>)
        ensures
            match r {
                Some(i) => i < self.entries@.len() && self.entries@[i as int].path@ == p@,
                None => !has_path(self.entries@, p@),
            },
    {
        let mut i: usize = 0;
        while i < self.entries.len()
            invariant
                i <= self.entries@.len(),
                forall|j: int| 0 <= j < i ==> self.entries@[j].path@ != p@,
            decreases self.entries@.len() - i,
        {
            if self.entries[i].path.same_as(p) {
                return Some(i);
            }
            i = i + 1;
        }
        proof {
            assert(!has_path(self.entries@, p@));
        }
        None
    }

    /// What sits at `p`, if anything.
    pub fn stat(&self, p: &RPath) -> (r: Option<Meta>)
        requires
            self.wf(),
        ensures
            r is Some <==> self@.contains_key(p@),
            r == Some(Meta::Directory) <==> (self@.contains_key(p@) && self@[p@] is Dir),
            r == Some(Meta::Regular) <==> (self@.contains_key(p@) && self@[p@] is File),
    {
        match self.find(p) {
            Some(i) => {
                proof {
                    lemma_idx(self.entries@, p@, i as int);
                }
                match self.entries[i].node {
                    NodeData::Dir => Some(Meta::Directory),
                    NodeData::File(_) => Some(Meta::Regular),
                }
            },
            None => None,
        }
    }

    /// The contents of the regular file at `p`, if there is one.
    pub fn file_contents(&self, p: &RPath) -> (r: Option<Vec<u8>>)
        requires
            self.wf(),
        ensures
            match r {
                Some(d) => self@.contains_key(p@) && self@[p@] == NodeView::File(d@),
                None => !(self@.contains_key(p@) && self@[p@] is File),
            },
    {
        match self.find(p) {
            Some(i) => {
                proof {
                    lemma_idx(self.entries@, p@, i as int);
                }
                match &self.entries[i].node {
                    NodeData::Dir => None,
                    NodeData::File(d) => {
                        let mut out: Vec<u8> = Vec::new();
                        let mut k: usize = 0;
                        while k < d.len()
                            invariant
                                k <= d@.len(),
                                out@ =~= d@.take(k as int),
                            decreases d@.len() - k,
                        {
                            out.push(d[k]);
                            proof {
                                assert(out@ =~= d@.take(k + 1 as int));
                            }
                            k = k + 1;
                        }
                        proof {
                            assert(d@.take(d@.len() as int) =~= d@);
                        }
                        Some(out)
                    },
                }
            },
            None => None,
        }
    }

    /// Create the directory `p`. Fails if `p` already exists, or if its
    /// parent is missing or is not a directory; the filesystem is unchanged
    /// on failure.
    pub fn mkdir(&mut self, p: &RPath) -> (r: Result<(), FsError>)
        requires
            old(self).wf(),
            wf_path(p@),
            p@.len() > 0,
        ensures
            final(self).wf(),
            r is Ok <==> (!old(self)@.contains_key(p@) && parent_ready(old(self)@, p@)),
            r is Ok ==> final(self)@ =~= old(self)@.insert(p@, NodeView::Dir),
            r is Err ==> final(self)@ == old(self)@,
            old(self)@.contains_key(p@) ==> r == Err::<(), FsError>(FsError::AlreadyExists),
            !old(self)@.contains_key(p@) && !parent_ready(old(self)@, p@) ==> (r == Err::<
                (),
                FsError,
            >(FsError::NotFound) <==> !old(self)@.contains_key(p@.drop_last())),
    {
        if self.find(p).is_some() {
            proof {
                let i = choose|i: int|
                    0 <= i < self.entries@.len() && self.entries@[i].path@ == p@;
                lemma_idx(self.entries@, p@, i);
            }
            return Err(FsError::AlreadyExists);
        }
        if p.len() > 1 {
            let par = p.prefix(p.len() - 1);
            proof {
                assert(par@ =~= p@.drop_last());
            }
            match self.find(&par) {
                None => {
                    return Err(FsError::NotFound);
                },
                Some(i) => {
                    proof {
                        lemma_idx(self.entries@, par@, i as int);
                    }
                    match self.entries[i].node {
                        NodeData::Dir => {},
                        NodeData::File(_) => {
                            return Err(FsError::NotADirectory);
                        },
                    }
                },
            }
        }
        let entry = FsEntry { path: p.duplicate(), node: NodeData::Dir };
        proof {
            lemma_push(self.entries@, entry);
        }
        self.entries.push(entry);
        proof {
            self.lemma_wf_after_insert(*old(self), p@);
        }
        Ok(())
    }

    proof fn lemma_wf_after_insert(self, prev: RemoteFs, p: Seq<Seq<char>>)
        requires
            prev.wf(),
            wf_path(p),
            p.len() > 0,
            !prev@.contains_key(p),
            parent_ready(prev@, p),
            distinct_paths(self.entries@),
            entry_map(self.entries@) == prev@.insert(p, self.entries@.last().node@),
            self.entries@.len() == prev.entries@.len() + 1,
            forall|i: int| 0 <= i < prev.entries@.len() ==> self.entries@[i] == prev.entries@[i],
            self.entries@.last().path@ == p,
        ensures
            self.wf(),
    {
        prev.lemma_wf();
        assert forall|i: int| 0 <= i < self.entries@.len() implies wf_path(
            #[trigger] self.entries@[i].path@) && self.entries@[i].path@.len() > 0 by {
            if i < prev.entries@.len() {
                assert(prev.entries@[i].path@.len() > 0);
            }
        }
        assert forall|i: int, k: int|
            #![trigger self.entries@[i].path@.take(k)]
            0 <= i < self.entries@.len() && 1 <= k
            < self.entries@[i].path@.len() implies entry_map(self.entries@).contains_key(
            self.entries@[i].path@.take(k)) && entry_map(self.entries@)[self.entries@[i].path@.take(
            k)] is Dir by {
            let q = self.entries@[i].path@;
            if i < prev.entries@.len() {
                assert(prev@.contains_key(q.take(k)) && prev@[q.take(k)] is Dir);
                assert(q.take(k) != p);
            } else {
                assert(q == p);
                if k == p.len() - 1 {
                    assert(q.take(k) =~= p.drop_last());
                } else {
                    assert(prev@.contains_key(p.drop_last()));
                    assert(p.drop_last().take(k) =~= p.take(k));
                    assert(prev@.contains_key(p.take(k)) && prev@[p.take(k)] is Dir);
                }
                assert(q.take(k) != p);
            }
        }
    }

    proof fn lemma_wf_after_remove(self, prev: RemoteFs, i: int)
        requires
            prev.wf(),
            0 <= i < prev.entries@.len(),
            !(prev.entries@[i].node@ is Dir) || (forall|q: Seq<Seq<char>>|
                #[trigger] prev@.contains_key(q) ==> !(is_prefix_of(prev.entries@[i].path@, q) && q
                    != prev.entries@[i].path@)),
            self.entries@ == prev.entries@.remove(i),
        ensures
            self.wf(),
    {
        let s = prev.entries@;
        let t = self.entries@;
        let p0 = s[i].path@;
        lemma_remove(s, i);
        prev.lemma_wf();
        assert forall|a: int| 0 <= a < t.len() implies wf_path(#[trigger] t[a].path@)
            && t[a].path@.len() > 0 by {
            let a0: int = if a < i { a } else { a + 1 };
            assert(t[a] == s[a0]);
            assert(wf_path(s[a0].path@) && s[a0].path@.len() > 0);
        }
        assert forall|a: int, k: int|
            #![trigger t[a].path@.take(k)]
            0 <= a < t.len() && 1 <= k < t[a].path@.len() implies entry_map(t).contains_key(
            t[a].path@.take(k)) && entry_map(t)[t[a].path@.take(k)] is Dir by {
            let a0: int = if a < i { a } else { a + 1 };
            assert(t[a] == s[a0]);
            let q = s[a0].path@;
            assert(prev@.contains_key(q));
            assert(prev@.contains_key(q.take(k)) && prev@[q.take(k)] is Dir);
            if q.take(k) == p0 {
                if prev.entries@[i].node@ is Dir {
                    lemma_idx(s, p0, i);
                    assert(is_prefix_of(p0, q) && q != p0);
                    lemma_idx(s, q, a0);
                    assert(prev@.contains_key(q));
                } else {
                    lemma_idx(s, p0, i);
                }
            }
            assert(q.take(k) != p0);
        }
    }

    /// Write the regular file at `p` with the given contents, replacing any
    /// file already there. Fails if `p` names a directory, or if its parent
    /// is missing or is not a directory; the filesystem is unchanged on
    /// failure.
    pub fn create_file(&mut self, p: &RPath, data: Vec<u8>) -> (r: Result<(), FsError>)
        requires
            old(self).wf(),
            wf_path(p@),
            p@.len() > 0,
        ensures
            final(self).wf(),
            r is Ok <==> (!(old(self)@.contains_key(p@) && old(self)@[p@] is Dir) && parent_ready(
                old(self)@,
                p@,
            )),
            r is Ok ==> final(self)@ =~= old(self)@.insert(p@, NodeView::File(data@)),
            r is Err ==> final(self)@ == old(self)@,
            old(self)@.contains_key(p@) && old(self)@[p@] is Dir ==> r == Err::<
                (),
                FsError,
            >(FsError::NotAFile),
    {
        match self.find(p) {
            Some(i) => {
                proof {
                    lemma_idx(self.entries@, p@, i as int);
                }
                match self.entries[i].node {
                    NodeData::Dir => Err(FsError::NotAFile),
                    NodeData::File(_) => {
                        let entry = FsEntry { path: p.duplicate(), node: NodeData::File(data) };
                        proof {
                            lemma_update(self.entries@, i as int, entry);
                        }
                        self.entries.set(i, entry);
                        proof {
                            self.lemma_wf_after_update(*old(self), i as int);
                        }
                        Ok(())
                    },
                }
            },
            None => {
                if p.len() > 1 {
                    let par = p.prefix(p.len() - 1);
                    proof {
                        assert(par@ =~= p@.drop_last());
                    }
                    match self.find(&par) {
                        None => {
                            return Err(FsError::NotFound);
                        },
                        Some(i) => {
                            proof {
                                lemma_idx(self.entries@, par@, i as int);
                            }
                            match self.entries[i].node {
                                NodeData::Dir => {},
                                NodeData::File(_) => {
                                    return Err(FsError::NotADirectory);
                                },
                            }
                        },
                    }
                }
                let entry = FsEntry { path: p.duplicate(), node: NodeData::File(data) };
                proof {
                    lemma_push(self.entries@, entry);
                }
                self.entries.push(entry);
                proof {
                    self.lemma_wf_after_insert(*old(self), p@);
                }
                Ok(())
            },
        }
    }

    proof fn lemma_wf_after_update(self, prev: RemoteFs, i: int)
        requires
            prev.wf(),
            0 <= i < prev.entries@.len(),
            self.entries@.len() == prev.entries@.len(),
            forall|a: int| 0 <= a < prev.entries@.len() && a != i ==> self.entries@[a]
                == prev.entries@[a],
            self.entries@[i].path@ == prev.entries@[i].path@,
            !(prev.entries@[i].node@ is Dir),
            !(self.entries@[i].node@ is Dir),
            distinct_paths(self.entries@),
            entry_map(self.entries@) == prev@.insert(
                prev.entries@[i].path@,
                self.entries@[i].node@,
            ),
        ensures
            self.wf(),
    {
        let s = prev.entries@;
        let t = self.entries@;
        let p0 = s[i].path@;
        prev.lemma_wf();
        assert forall|a: int| 0 <= a < t.len() implies wf_path(#[trigger] t[a].path@)
            && t[a].path@.len() > 0 by {
            assert(t[a].path@ == s[a].path@);
            assert(wf_path(s[a].path@) && s[a].path@.len() > 0);
        }
        assert forall|a: int, k: int|
            #![trigger t[a].path@.take(k)]
            0 <= a < t.len() && 1 <= k < t[a].path@.len() implies entry_map(t).contains_key(
            t[a].path@.take(k)) && entry_map(t)[t[a].path@.take(k)] is Dir by {
            let q = t[a].path@;
            assert(q == s[a].path@);
            assert(prev@.contains_key(q.take(k)) && prev@[q.take(k)] is Dir);
            if q.take(k) == p0 {
                lemma_idx(s, p0, i);
            }
            assert(q.take(k) != p0);
        }
    }

    /// A regular file has nothing under it: any strictly longer path that
    /// extends a file's path is unknown.
    pub proof fn lemma_file_no_descendants(self, c: Seq<Seq<char>>)
        requires
            self.wf(),
            self@.contains_key(c),
            self@[c] is File,
        ensures
            forall|q: Seq<Seq<char>>|
                is_prefix_of(c, q) && q != c ==> !self@.contains_key(q),
    {
        self.lemma_wf();
        assert forall|q: Seq<Seq<char>>| is_prefix_of(c, q) && q != c implies !self@.contains_key(
            q) by {
            if self@.contains_key(q) {
                if q.len() == c.len() {
                    assert(q.take(c.len() as int) =~= q);
                }
                assert(q.len() > c.len());
                assert(self@.contains_key(q.take(c.len() as int)));
                assert(self@[q.take(c.len() as int)] is Dir);
            }
        }
    }

    /// Remove the regular file at `p`. Fails if `p` is unknown or names a
    /// directory; the filesystem is unchanged on failure.
    pub fn unlink(&mut self, p: &RPath) -> (r: Result<(), FsError>)
        requires
            old(self).wf(),
            wf_path(p@),
            p@.len() > 0,
        ensures
            final(self).wf(),
            final(self).depth_bound() <= old(self).depth_bound(),
            r is Ok <==> (old(self)@.contains_key(p@) && old(self)@[p@] is File),
            r is Ok ==> final(self)@ =~= old(self)@.remove(p@),
            r is Err ==> final(self)@ == old(self)@,
            !old(self)@.contains_key(p@) ==> r == Err::<(), FsError>(FsError::NotFound),
            old(self)@.contains_key(p@) && old(self)@[p@] is Dir ==> r == Err::<
                (),
                FsError,
            >(FsError::NotAFile),
    {
        match self.find(p) {
            None => Err(FsError::NotFound),
            Some(i) => {
                proof {
                    lemma_idx(self.entries@, p@, i as int);
                }
                match self.entries[i].node {
                    NodeData::Dir => Err(FsError::NotAFile),
                    NodeData::File(_) => {
                        proof {
                            lemma_remove(self.entries@, i as int);
                            lemma_max_depth_remove(self.entries@, i as int);
                        }
                        let _ = self.entries.remove(i);
                        proof {
                            self.lemma_wf_after_remove(*old(self), i as int);
                        }
                        Ok(())
                    },
                }
            },
        }
    }

    /// `q` is a direct child of `p`.
    fn is_child_of(q: &RPath, p: &RPath) -> (r: bool)
        ensures
            r == (q@.len() == p@.len() + 1 && q@.take(p@.len() as int) == p@),
    {
        if q.len() > 0 && q.len() - 1 == p.len() {
            let pre = q.prefix(p.len());
            pre.same_as(p)
        } else {
            false
        }
    }

    /// List the direct children of the directory `p`: every known node one
    /// level below `p`, each with its kind, each exactly once. Fails if `p`
    /// is unknown or names a file.
    #[verifier::rlimit(50)]
    pub fn read_dir(&self, p: &RPath) -> (r: Result<Vec<DirEntry>, FsError>)
        requires
            self.wf(),
            wf_path(p@),
            p@.len() > 0,
        ensures
            r is Ok <==> (self@.contains_key(p@) && self@[p@] is Dir),
            !self@.contains_key(p@) ==> r == Err::<Vec<DirEntry>, FsError>(FsError::NotFound),
            self@.contains_key(p@) && self@[p@] is File ==> r == Err::<
                Vec<DirEntry>,
                FsError,
            >(FsError::NotADirectory),
            match r {
                Ok(v) => {
                    &&& forall|k: int|
                        0 <= k < v@.len() ==> (#[trigger] v@[k].path@).len() == p@.len() + 1
                            && v@[k].path@.take(p@.len() as int) == p@ && self@.contains_key(
                            v@[k].path@,
                        ) && (v@[k].meta == Meta::Directory <==> self@[v@[k].path@] is Dir)
                    &&& forall|a: int, b: int| 0 <= a < b < v@.len() ==> v@[a].path@ != v@[b].path@
                    &&& forall|q: Seq<Seq<char>>|
                        #[trigger] self@.contains_key(q) && q.len() == p@.len() + 1 && q.take(
                            p@.len() as int,
                        ) == p@ ==> exists|k: int| 0 <= k < v@.len() && v@[k].path@ == q
                },
                Err(_) => true,
            },
    {
        match self.find(p) {
            None => {
                return Err(FsError::NotFound);
            },
            Some(i) => {
                proof {
                    lemma_idx(self.entries@, p@, i as int);
                }
                match self.entries[i].node {
                    NodeData::File(_) => {
                        return Err(FsError::NotADirectory);
                    },
                    NodeData::Dir => {},
                }
            },
        }
        let mut v: Vec<DirEntry> = Vec::new();
        let mut j: usize = 0;
        while j < self.entries.len()
            invariant
                self.wf(),
                j <= self.entries@.len(),
                forall|k: int|
                    0 <= k < v@.len() ==> (#[trigger] v@[k].path@).len() == p@.len() + 1
                        && v@[k].path@.take(p@.len() as int) == p@ && has_path(
                        self.entries@,
                        v@[k].path@,
                    ) && (v@[k].meta == Meta::Directory <==> entry_map(
                        self.entries@,
                    )[v@[k].path@] is Dir),
                forall|a: int, b: int| 0 <= a < b < v@.len() ==> v@[a].path@ != v@[b].path@,
                forall|a: int|
                    0 <= a < j && (#[trigger] self.entries@[a].path@).len() == p@.len() + 1
                        && self.entries@[a].path@.take(p@.len() as int) == p@ ==> exists|k: int|
                        0 <= k < v@.len() && v@[k].path@ == self.entries@[a].path@,
                forall|k: int|
                    0 <= k < v@.len() ==> exists|a: int|
                        0 <= a < j && #[trigger] v@[k].path@ == self.entries@[a].path@,
            decreases self.entries@.len() - j,
        {
            if Self::is_child_of(&self.entries[j].path, p) {
                let meta = match self.entries[j].node {
                    NodeData::Dir => Meta::Directory,
                    NodeData::File(_) => Meta::Regular,
                };
                proof {
                    lemma_idx(self.entries@, self.entries@[j as int].path@, j as int);
                    assert forall|k: int| 0 <= k < v@.len() implies v@[k].path@
                        != self.entries@[j as int].path@ by {
                        let a = choose|a: int|
                            0 <= a < j && v@[k].path@ == self.entries@[a].path@;
                        assert(self.entries@[a].path@ != self.entries@[j as int].path@);
                    }
                }
                let ghost vb = v@;
                v.push(DirEntry { path: self.entries[j].path.duplicate(), meta });
                proof {
                    assert(v@[v@.len() - 1].path@ == self.entries@[j as int].path@);
                    assert forall|a: int|
                        0 <= a < j + 1 && (#[trigger] self.entries@[a].path@).len() == p@.len() + 1
                            && self.entries@[a].path@.take(p@.len() as int) == p@ implies exists|
                        k: int,
                    | 0 <= k < v@.len() && v@[k].path@ == self.entries@[a].path@ by {
                        if a == j {
                            assert(v@[v@.len() - 1].path@ == self.entries@[a].path@);
                        } else {
                            let k = choose|k: int|
                                0 <= k < vb.len() && vb[k].path@ == self.entries@[a].path@;
                            assert(v@[k].path@ == self.entries@[a].path@);
                        }
                    }
                }
            }
            j = j + 1;
        }
        proof {
            assert forall|q: Seq<Seq<char>>| #[trigger] self@.contains_key(q) && q.len() == p@.len()
                + 1 && q.take(p@.len() as int) == p@ implies exists|k: int|
                0 <= k < v@.len() && v@[k].path@ == q by {
                let a = choose|a: int|
                    0 <= a < self.entries@.len() && self.entries@[a].path@ == q;
                assert(self.entries@[a].path@.len() == p@.len() + 1);
            }
            assert forall|k: int| 0 <= k < v@.len() implies self@.contains_key(
                #[trigger] v@[k].path@) && (v@[k].meta == Meta::Directory <==> self@[v@[k].path@]
                is Dir) by {}
        }
        Ok(v)
    }

    /// Remove the directory `p`, which must be empty. Fails if `p` is
    /// unknown, names a file, or still has children; the filesystem is
    /// unchanged on failure.
    pub fn rmdir(&mut self, p: &RPath) -> (r: Result<(), FsError>)
        requires
            old(self).wf(),
            wf_path(p@),
            p@.len() > 0,
        ensures
            final(self).wf(),
            final(self).depth_bound() <= old(self).depth_bound(),
            r is Ok <==> (old(self)@.contains_key(p@) && old(self)@[p@] is Dir && (forall|
                q: Seq<Seq<char>>,
            |
                #[trigger] old(self)@.contains_key(q) ==> !(is_prefix_of(p@, q) && q != p@))),
            r is Ok ==> final(self)@ =~= old(self)@.remove(p@),
            r is Err ==> final(self)@ == old(self)@,
            !old(self)@.contains_key(p@) ==> r == Err::<(), FsError>(FsError::NotFound),
            old(self)@.contains_key(p@) && old(self)@[p@] is File ==> r == Err::<
                (),
                FsError,
            >(FsError::NotADirectory),
    {
        let i = match self.find(p) {
            None => {
                return Err(FsError::NotFound);
            },
            Some(i) => {
                proof {
                    lemma_idx(self.entries@, p@, i as int);
                }
                match self.entries[i].node {
                    NodeData::File(_) => {
                        return Err(FsError::NotADirectory);
                    },
                    NodeData::Dir => i,
                }
            },
        };
        let mut j: usize = 0;
        while j < self.entries.len()
            invariant
                self.wf(),
                self.entries@ == old(self).entries@,
                i < self.entries@.len(),
                self.entries@[i as int].path@ == p@,
                self.entries@[i as int].node@ is Dir,
                j <= self.entries@.len(),
                forall|a: int|
                    0 <= a < j ==> !((#[trigger] self.entries@[a].path@).len() == p@.len() + 1
                        && self.entries@[a].path@.take(p@.len() as int) == p@),
            decreases self.entries@.len() - j,
        {
            if Self::is_child_of(&self.entries[j].path, p) {
                proof {
                    lemma_idx(self.entries@, self.entries@[j as int].path@, j as int);
                    lemma_idx(self.entries@, p@, i as int);
                    assert(self@.contains_key(self.entries@[j as int].path@));
                    assert(is_prefix_of(p@, self.entries@[j as int].path@));
                }
                return Err(FsError::NotEmpty);
            }
            j = j + 1;
        }
        proof {
            assert forall|q: Seq<Seq<char>>| #[trigger] self@.contains_key(q) implies !(
            is_prefix_of(p@, q) && q != p@) by {
                if is_prefix_of(p@, q) && q != p@ {
                    self.lemma_wf();
                    if q.len() == p@.len() {
                        assert(q.take(p@.len() as int) =~= q);
                    }
                    assert(q.len() > p@.len());
                    let c = q.take(p@.len() as int + 1);
                    if p@.len() + 1 < q.len() {
                        assert(self@.contains_key(c));
                    } else {
                        assert(c =~= q);
                    }
                    assert(self@.contains_key(c));
                    let a = choose|a: int|
                        0 <= a < self.entries@.len() && self.entries@[a].path@ == c;
                    assert(c.take(p@.len() as int) =~= p@);
                    assert(self.entries@[a].path@.len() == p@.len() + 1);
                }
            }
        }
        proof {
            lemma_idx(self.entries@, p@, i as int);
            lemma_remove(self.entries@, i as int);
            lemma_max_depth_remove(self.entries@, i as int);
        }
        let _ = self.entries.remove(i);
        proof {
            self.lemma_wf_after_remove(*old(self), i as int);
        }
        Ok(())
    }
}

} // verus!
