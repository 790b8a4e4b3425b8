//! Directory synchronization.
//!
//! The local tree is handed in as a flat list of entries, each a path
//! relative to the local root together with its kind (and, for a regular
//! file, its full contents). Every entry is mirrored under a base directory
//! on the remote side: directories are created (failures tolerated, the
//! traversal goes on), files are written verbatim, replacing any remote file
//! of the same name; a failing remote write is fatal and aborts the sync.

use vstd::prelude::*;
use crate::path::{RPath, wf_path};
use crate::fsmodel::{RemoteFs, NodeData, NodeView, FsError, parent_ready};

verus! {

/// One local filesystem node to mirror: its path relative to the local
/// root, and what it is.
pub struct SyncEntry {
    pub rel: RPath,
    pub node: NodeData,
}

/// The filesystem after a sync, and whether no remote write failed.
pub struct SyncModel {
    pub fs: Map<Seq<Seq<char>>, NodeView>,
    pub ok: bool,
}

/// Syncing the entries from index `i` on into `base`.
pub open spec fn sync_from(
    m: Map<Seq<Seq<char>>, NodeView>,
    s: Seq<SyncEntry>,
    base: Seq<Seq<char>>,
    i: nat,
) -> SyncModel
    decreases s.len() - i,
{
    if i >= s.len() {
        SyncModel { fs: m, ok: true }
    } else {
        let d = base + s[i as int].rel@;
        match s[i as int].node@ {
            NodeView::Dir => {
                let m1 = if !m.contains_key(d) && parent_ready(m, d) {
                    m.insert(d, NodeView::Dir)
                } else {
                    m
                };
                sync_from(m1, s, base, i + 1)
            },
            NodeView::File(bytes) => {
                if !(m.contains_key(d) && m[d] is Dir) && parent_ready(m, d) {
                    sync_from(m.insert(d, NodeView::File(bytes)), s, base, i + 1)
                } else {
                    SyncModel { fs: m, ok: false }
                }
            },
        }
    }
}

/// What syncing the whole list does to the filesystem `m`.
pub open spec fn sync_spec(
    m: Map<Seq<Seq<char>>, NodeView>,
    s: Seq<SyncEntry>,
    base: Seq<Seq<char>>,
) -> SyncModel {
    sync_from(m, s, base, 0)
}

/// An exact copy of some bytes.
pub fn copy_bytes(d: &Vec<u8>) -> (r: Vec<u8>)
    ensures
        r@ == d@,
{
    let mut out: Vec<u8> = Vec::new();
    let mut k: usize = 0;
    while k < d.len()
        invariant
            k <= d@.len(),
            out@ =~= d@.take(k as int),
        decreases d@.len() - k,
    {
        out.push(d[k]);
        proof {
            assert(out@ =~= d@.take(k + 1 as int));
        }
        k = k + 1;
    }
    proof {
        assert(d@.take(d@.len() as int) =~= d@);
    }
    out
}

/// Mirror the entries under `base`: each directory is created (a failure
/// there is tolerated and the traversal goes on), each regular file is
/// written verbatim, replacing any remote file of the same name. A failing
/// remote write aborts the sync with that error; everything mirrored so far
/// stays in place.
pub fn sync(fs: &mut RemoteFs, base: &RPath, entries: &Vec<SyncEntry>) -> (r: Result<(), FsError>)
    requires
        old(fs).wf(),
        wf_path(base@),
        base@.len() > 0,
        forall|i: int| 0 <= i < entries@.len() ==> wf_path(#[trigger] entries@[i].rel@),
    ensures
        final(fs).wf(),
        final(fs)@ == sync_spec(old(fs)@, entries@, base@).fs,
        r is Ok <==> sync_spec(old(fs)@, entries@, base@).ok,
{
    let n = entries.len();
    let mut i: usize = 0;
    while i < n
        invariant
            fs.wf(),
            wf_path(base@),
            base@.len() > 0,
            n == entries@.len(),
            i <= n,
            forall|k: int| 0 <= k < entries@.len() ==> wf_path(#[trigger] entries@[k].rel@),
            sync_from(old(fs)@, entries@, base@, 0) == sync_from(fs@, entries@, base@, i as nat),
        decreases n - i,
    {
        let dst = base.join(&entries[i].rel);
        proof {
            assert(dst@ == base@ + entries@[i as int].rel@);
            assert forall|k: int| 0 <= k < dst@.len() implies crate::path::wf_component(
                #[trigger] dst@[k]) by {
                if k < base@.len() {
                    assert(dst@[k] == base@[k]);
                } else {
                    assert(dst@[k] == entries@[i as int].rel@[k - base@.len()]);
                }
            }
        }
        let ghost before = fs@;
        match &entries[i].node {
            NodeData::Dir => {
                let _ = fs.mkdir(&dst);
                proof {
                    let d = base@ + entries@[i as int].rel@;
                    if !before.contains_key(d) && parent_ready(before, d) {
                        assert(fs@ =~= before.insert(d, NodeView::Dir));
                    } else {
                        assert(fs@ == before);
                    }
                    assert(sync_from(before, entries@, base@, i as nat) == sync_from(
                        fs@,
                        entries@,
                        base@,
                        i as nat + 1,
                    ));
                }
            },
            NodeData::File(data) => {
                let copy = copy_bytes(data);
                let res = fs.create_file(&dst, copy);
                match res {
                    Ok(_) => {
                        proof {
                            let d = base@ + entries@[i as int].rel@;
                            assert(fs@ =~= before.insert(
                                d,
                                NodeView::File(entries@[i as int].node@->File_0),
                            ));
                            assert(sync_from(before, entries@, base@, i as nat) == sync_from(
                                fs@,
                                entries@,
                                base@,
                                i as nat + 1,
                            ));
                        }
                    },
                    Err(e) => {
                        proof {
                            assert(!sync_from(before, entries@, base@, i as nat).ok);
                            assert(sync_from(before, entries@, base@, i as nat).fs == before);
                        }
                        return Err(e);
                    },
                }
            },
        }
        i = i + 1;
    }
    Ok(())
}

/// Sync stays inside its base: any path that does not extend `base` is
/// left exactly as it was.
pub proof fn lemma_sync_confined(
    m: Map<Seq<Seq<char>>, NodeView>,
    s: Seq<SyncEntry>,
    base: Seq<Seq<char>>,
    i: nat,
)
    ensures
        forall|q: Seq<Seq<char>>|
            #![trigger sync_from(m, s, base, i).fs.contains_key(q)]
            !crate::path::is_prefix_of(base, q) ==> ((sync_from(m, s, base, i).fs.contains_key(q)
                <==> m.contains_key(q)) && (m.contains_key(q) ==> sync_from(m, s, base, i).fs[q]
                == m[q])),
    decreases s.len() - i,
{
    if i >= s.len() {
    } else {
        let d = base + s[i as int].rel@;
        assert(d.take(base.len() as int) =~= base);
        assert(crate::path::is_prefix_of(base, d));
        match s[i as int].node@ {
            NodeView::Dir => {
                let m1 = if !m.contains_key(d) && parent_ready(m, d) {
                    m.insert(d, NodeView::Dir)
                } else {
                    m
                };
                lemma_sync_confined(m1, s, base, i + 1);
                assert forall|q: Seq<Seq<char>>|
                    !crate::path::is_prefix_of(base, q) implies ((sync_from(
                    m,
                    s,
                    base,
                    i,
                ).fs.contains_key(q) <==> m.contains_key(q)) && (m.contains_key(q) ==> sync_from(
                    m,
                    s,
                    base,
                    i,
                ).fs[q] == m[q])) by {
                    assert(q != d);
                    assert(m1.contains_key(q) <==> m.contains_key(q));
                    assert(m1.contains_key(q) ==> m1[q] == m[q]);
                    assert(sync_from(m, s, base, i) == sync_from(m1, s, base, i + 1));
                    assert(sync_from(m1, s, base, i + 1).fs.contains_key(q) <==> m1.contains_key(
                        q,
                    ));
                    assert(m1.contains_key(q) ==> sync_from(m1, s, base, i + 1).fs[q] == m1[q]);
                }
            },
            NodeView::File(bytes) => {
                if !(m.contains_key(d) && m[d] is Dir) && parent_ready(m, d) {
                    let m1 = m.insert(d, NodeView::File(bytes));
                    lemma_sync_confined(m1, s, base, i + 1);
                    assert forall|q: Seq<Seq<char>>|
                        !crate::path::is_prefix_of(base, q) implies ((sync_from(
                        m,
                        s,
                        base,
                        i,
                    ).fs.contains_key(q) <==> m.contains_key(q)) && (m.contains_key(q)
                        ==> sync_from(m, s, base, i).fs[q] == m[q])) by {
                        assert(q != d);
                        assert(m1.contains_key(q) <==> m.contains_key(q));
                        assert(m1.contains_key(q) ==> m1[q] == m[q]);
                        assert(sync_from(m, s, base, i) == sync_from(m1, s, base, i + 1));
                        assert(sync_from(m1, s, base, i + 1).fs.contains_key(q)
                            <==> m1.contains_key(q));
                        assert(m1.contains_key(q) ==> sync_from(m1, s, base, i + 1).fs[q]
                            == m1[q]);
                    }
                }
            },
        }
    }
}

/// The shape a local directory walk produces: the relative paths are
/// distinct; an entry at the local root is the root directory itself; and
/// any deeper entry's parent directory appears earlier in the walk.
pub open spec fn walk_ordered(s: Seq<SyncEntry>) -> bool {
    &&& forall|i: int, j: int| 0 <= i < j < s.len() ==> s[i].rel@ != s[j].rel@
    &&& forall|i: int| 0 <= i < s.len() && (#[trigger] s[i].rel@).len() == 0 ==> s[i].node@ is Dir
    &&& forall|i: int|
        0 <= i < s.len() && (#[trigger] s[i].rel@).len() > 1 ==> exists|j: int|
            0 <= j < i && s[j].rel@ == s[i].rel@.drop_last() && s[j].node@ is Dir
}

/// Sync completeness: into a freshly provisioned base directory (present,
/// empty) a walk-ordered entry list mirrors completely. The sync succeeds;
/// every file entry ends up at `base + rel` with byte-identical contents;
/// every directory entry ends up as a directory; and nothing else changes
/// or appears.
pub proof fn lemma_sync_complete(
    m: Map<Seq<Seq<char>>, NodeView>,
    s: Seq<SyncEntry>,
    base: Seq<Seq<char>>,
)
    requires
        base.len() > 0,
        m.contains_key(base) && m[base] is Dir,
        forall|q: Seq<Seq<char>>|
            #[trigger] m.contains_key(q) ==> !(crate::path::is_prefix_of(base, q) && q != base),
        walk_ordered(s),
    ensures
        sync_spec(m, s, base).ok,
        forall|i: int|
            0 <= i < s.len() && (#[trigger] s[i].node@) is File ==> sync_spec(
                m,
                s,
                base,
            ).fs.contains_key(base + s[i].rel@) && sync_spec(m, s, base).fs[base + s[i].rel@]
                == s[i].node@,
        forall|i: int|
            0 <= i < s.len() && (#[trigger] s[i].node@) is Dir ==> sync_spec(
                m,
                s,
                base,
            ).fs.contains_key(base + s[i].rel@) && sync_spec(m, s, base).fs[base + s[i].rel@]
                is Dir,
        forall|q: Seq<Seq<char>>|
            #[trigger] m.contains_key(q) ==> sync_spec(m, s, base).fs.contains_key(q) && sync_spec(
                m,
                s,
                base,
            ).fs[q] == m[q],
        forall|q: Seq<Seq<char>>|
            #[trigger] sync_spec(m, s, base).fs.contains_key(q) ==> m.contains_key(q) || (exists|
                i: int,
            | 0 <= i < s.len() && q == base + s[i].rel@),
{
    lemma_sync_complete_from(m, m, s, base, 0);
}

/// The inductive step behind [`lemma_sync_complete`]: `m` is the filesystem
/// after the first `i` entries, `m0` the one the sync started from.
proof fn lemma_sync_complete_from(
    m0: Map<Seq<Seq<char>>, NodeView>,
    m: Map<Seq<Seq<char>>, NodeView>,
    s: Seq<SyncEntry>,
    base: Seq<Seq<char>>,
    i: nat,
)
    requires
        base.len() > 0,
        walk_ordered(s),
        i <= s.len(),
        m.contains_key(base) && m[base] is Dir,
        forall|q: Seq<Seq<char>>|
            #[trigger] m0.contains_key(q) ==> !(crate::path::is_prefix_of(base, q) && q != base),
        forall|q: Seq<Seq<char>>|
            #[trigger] m0.contains_key(q) ==> m.contains_key(q) && m[q] == m0[q],
        forall|q: Seq<Seq<char>>|
            #[trigger] m.contains_key(q) ==> m0.contains_key(q) || (exists|j: int|
                0 <= j < i && q == base + s[j].rel@),
        forall|j: int|
            0 <= j < i && (#[trigger] s[j].node@) is File ==> m.contains_key(base + s[j].rel@)
                && m[base + s[j].rel@] == s[j].node@,
        forall|j: int|
            0 <= j < i && (#[trigger] s[j].node@) is Dir ==> m.contains_key(base + s[j].rel@)
                && m[base + s[j].rel@] is Dir,
    ensures
        sync_from(m, s, base, i).ok,
        forall|j: int|
            0 <= j < s.len() && (#[trigger] s[j].node@) is File ==> sync_from(
                m,
                s,
                base,
                i,
            ).fs.contains_key(base + s[j].rel@) && sync_from(m, s, base, i).fs[base + s[j].rel@]
                == s[j].node@ || j >= i && !(sync_from(m, s, base, i).ok),
        forall|j: int|
            0 <= j < s.len() && (#[trigger] s[j].node@) is Dir ==> sync_from(
                m,
                s,
                base,
                i,
            ).fs.contains_key(base + s[j].rel@) && sync_from(m, s, base, i).fs[base + s[j].rel@]
                is Dir,
        forall|q: Seq<Seq<char>>|
            #[trigger] m0.contains_key(q) ==> sync_from(m, s, base, i).fs.contains_key(q)
                && sync_from(m, s, base, i).fs[q] == m0[q],
        forall|q: Seq<Seq<char>>|
            #[trigger] sync_from(m, s, base, i).fs.contains_key(q) ==> m0.contains_key(q) || (
            exists|j: int| 0 <= j < s.len() && q == base + s[j].rel@),
    decreases s.len() - i,
{
    if i >= s.len() {
    } else {
        let d = base + s[i as int].rel@;
        lemma_dest_facts(m0, m, s, base, i);
        match s[i as int].node@ {
            NodeView::Dir => {
                let m1 = if !m.contains_key(d) && parent_ready(m, d) {
                    m.insert(d, NodeView::Dir)
                } else {
                    m
                };
                assert(m1.contains_key(d) && m1[d] is Dir);
                assert forall|q: Seq<Seq<char>>| #[trigger] m1.contains_key(q) implies
                    m0.contains_key(q) || (exists|j: int|
                    0 <= j < i + 1 && q == base + s[j].rel@) by {
                    if q != d && m.contains_key(q) {
                    }
                }
                lemma_sync_complete_from(m0, m1, s, base, i + 1);
            },
            NodeView::File(bytes) => {
                assert(!(m.contains_key(d) && m[d] is Dir));
                assert(parent_ready(m, d));
                let m1 = m.insert(d, NodeView::File(bytes));
                assert forall|q: Seq<Seq<char>>| #[trigger] m1.contains_key(q) implies
                    m0.contains_key(q) || (exists|j: int|
                    0 <= j < i + 1 && q == base + s[j].rel@) by {
                    if q != d && m.contains_key(q) {
                    }
                }
                assert(m1.contains_key(base) && m1[base] is Dir);
                lemma_sync_complete_from(m0, m1, s, base, i + 1);
            },
        }
    }
}

/// At step `i`, the destination of entry `i` is not a pre-existing node in
/// the way, and its parent directory is ready.
proof fn lemma_dest_facts(
    m0: Map<Seq<Seq<char>>, NodeView>,
    m: Map<Seq<Seq<char>>, NodeView>,
    s: Seq<SyncEntry>,
    base: Seq<Seq<char>>,
    i: nat,
)
    requires
        base.len() > 0,
        walk_ordered(s),
        i < s.len(),
        m.contains_key(base) && m[base] is Dir,
        forall|q: Seq<Seq<char>>|
            #[trigger] m0.contains_key(q) ==> !(crate::path::is_prefix_of(base, q) && q != base),
        forall|q: Seq<Seq<char>>|
            #[trigger] m.contains_key(q) ==> m0.contains_key(q) || (exists|j: int|
                0 <= j < i && q == base + s[j].rel@),
        forall|j: int|
            0 <= j < i && (#[trigger] s[j].node@) is Dir ==> m.contains_key(base + s[j].rel@)
                && m[base + s[j].rel@] is Dir,
    ensures
        s[i as int].rel@.len() == 0 ==> m.contains_key(base + s[i as int].rel@) && m[base
            + s[i as int].rel@] is Dir,
        s[i as int].rel@.len() > 0 ==> !m.contains_key(base + s[i as int].rel@),
        s[i as int].rel@.len() > 0 ==> parent_ready(m, base + s[i as int].rel@),
{
    let rel = s[i as int].rel@;
    let d = base + rel;
    if rel.len() == 0 {
        assert(d =~= base);
    } else {
        if m.contains_key(d) {
            assert(d != base);
            if m0.contains_key(d) {
                assert(d.take(base.len() as int) =~= base);
                assert(crate::path::is_prefix_of(base, d));
                assert(false);
            } else {
                let j = choose|j: int| 0 <= j < i && d == base + s[j].rel@;
                assert(s[j].rel@ =~= (base + s[j].rel@).skip(base.len() as int));
                assert(rel =~= (base + rel).skip(base.len() as int));
                assert(false);
            }
        }
        if rel.len() == 1 {
            assert(d.drop_last() =~= base);
            assert(parent_ready(m, d));
        } else {
            let j = choose|j: int|
                0 <= j < i && s[j].rel@ == rel.drop_last() && s[j].node@ is Dir;
            assert(m.contains_key(base + s[j].rel@) && m[base + s[j].rel@] is Dir);
            assert(d.drop_last() =~= base + rel.drop_last());
            assert(parent_ready(m, d));
        }
    }
}

} // verus!
