//! Workspace provisioning.
//!
//! Provisioning walks a path component by component, from the root: a
//! component already present as a directory is kept, a missing one is
//! created, and a component already present as a regular file is a path
//! collision and a fatal error. Nothing is rolled back on failure.

use vstd::prelude::*;
use crate::path::{RPath, wf_path};
use crate::fsmodel::{RemoteFs, NodeView, FsError, Meta, parent_ready};

verus! {

/// The filesystem after provisioning, and whether every component was a
/// directory or could be created.
pub struct ProvisionModel {
    pub fs: Map<Seq<Seq<char>>, NodeView>,
    pub ok: bool,
}

/// Provisioning from component `i` on: the prefix of length `i` has already
/// been dealt with.
pub open spec fn provision_from(
    m: Map<Seq<Seq<char>>, NodeView>,
    p: Seq<Seq<char>>,
    i: nat,
) -> ProvisionModel
    decreases p.len() - i,
{
    if i >= p.len() {
        ProvisionModel { fs: m, ok: true }
    } else {
        let pref = p.take(i as int + 1);
        if m.contains_key(pref) {
            if m[pref] is Dir {
                provision_from(m, p, i + 1)
            } else {
                ProvisionModel { fs: m, ok: false }
            }
        } else {
            provision_from(m.insert(pref, NodeView::Dir), p, i + 1)
        }
    }
}

/// What provisioning `p` does to the filesystem `m`.
pub open spec fn provision_spec(m: Map<Seq<Seq<char>>, NodeView>, p: Seq<Seq<char>>) -> ProvisionModel {
    provision_from(m, p, 0)
}

/// Create the workspace directory at `p`, together with any missing
/// ancestors. A component already present as a directory is left alone; one
/// present as a regular file is a path collision and fails the call, with
/// the directories created so far left in place.
pub fn provision(fs: &mut RemoteFs, p: &RPath) -> (r: Result<(), FsError>)
    requires
        old(fs).wf(),
        wf_path(p@),
        p@.len() > 0,
    ensures
        final(fs).wf(),
        final(fs)@ == provision_spec(old(fs)@, p@).fs,
        r is Ok <==> provision_spec(old(fs)@, p@).ok,
        r is Err ==> r == Err::<(), FsError>(FsError::AlreadyExists),
{
    let n = p.len();
    let mut i: usize = 0;
    while i < n
        invariant
            fs.wf(),
            wf_path(p@),
            n == p@.len(),
            0 < n,
            i <= n,
            provision_from(old(fs)@, p@, 0) == provision_from(fs@, p@, i as nat),
            forall|k: int|
                1 <= k <= i ==> fs@.contains_key(#[trigger] p@.take(k)) && fs@[p@.take(k)] is Dir,
        decreases n - i,
    {
        let pref = p.prefix(i + 1);
        proof {
            assert(pref@ == p@.take(i as int + 1));
        }
        match fs.stat(&pref) {
            Some(Meta::Directory) => {
                proof {
                    assert(provision_from(fs@, p@, i as nat) == provision_from(
                        fs@,
                        p@,
                        i as nat + 1,
                    ));
                }
            },
            Some(Meta::Regular) => {
                proof {
                    assert(fs@[pref@] is File);
                    assert(!provision_from(fs@, p@, i as nat).ok);
                    assert(provision_from(fs@, p@, i as nat).fs == fs@);
                }
                return Err(FsError::AlreadyExists);
            },
            None => {
                let ghost before = fs@;
                proof {
                    if i > 0 {
                        assert(fs@.contains_key(p@.take(i as int)) && fs@[p@.take(i as int)]
                            is Dir);
                        assert(pref@.drop_last() =~= p@.take(i as int));
                    }
                    assert(parent_ready(fs@, pref@));
                }
                let res = fs.mkdir(&pref);
                match res {
                    Ok(_) => {
                        proof {
                            assert(provision_from(before, p@, i as nat) == provision_from(
                                before.insert(pref@, NodeView::Dir),
                                p@,
                                i as nat + 1,
                            ));
                            assert(fs@ =~= before.insert(pref@, NodeView::Dir));
                        }
                    },
                    Err(e) => {
                        proof {
                            assert(false);
                        }
                        return Err(e);
                    },
                }
            },
        }
        proof {
            assert forall|k: int| 1 <= k <= i + 1 implies fs@.contains_key(#[trigger] p@.take(k))
                && fs@[p@.take(k)] is Dir by {
                if k == i + 1 {
                    assert(p@.take(k) == pref@);
                }
            }
        }
        i = i + 1;
    }
    Ok(())
}

/// What to do with one path component during provisioning.
#[derive(Clone, Copy, PartialEq, Eq, Structural, Debug)]
pub enum ProvisionStep {
    /// The component is already a directory: keep walking.
    KeepGoing,
    /// The component is a regular file: a path collision, fatal.
    Collision,
    /// Nothing is there yet: create the directory.
    Create,
}

/// Decide one provisioning step from what `stat` found at the partial
/// path.
pub fn provision_step(found: Option<Meta>) -> (r: ProvisionStep)
    ensures
        r == ProvisionStep::KeepGoing <==> found == Some(Meta::Directory),
        r == ProvisionStep::Collision <==> found == Some(Meta::Regular),
        r == ProvisionStep::Create <==> found is None,
{
    match found {
        Some(Meta::Directory) => ProvisionStep::KeepGoing,
        Some(Meta::Regular) => ProvisionStep::Collision,
        None => ProvisionStep::Create,
    }
}

/// Provisioning only adds directories: every node of `m` is kept unchanged,
/// and on success every non-empty prefix of `p` ends up as a directory.
pub proof fn lemma_provision_monotone(m: Map<Seq<Seq<char>>, NodeView>, p: Seq<Seq<char>>, i: nat)
    ensures
        forall|q: Seq<Seq<char>>|
            #[trigger] m.contains_key(q) ==> provision_from(m, p, i).fs.contains_key(q)
                && provision_from(m, p, i).fs[q] == m[q],
        provision_from(m, p, i).ok ==> forall|k: int|
            i < k <= p.len() ==> provision_from(m, p, i).fs.contains_key(#[trigger] p.take(k))
                && provision_from(m, p, i).fs[p.take(k)] is Dir,
    decreases p.len() - i,
{
    if i >= p.len() {
    } else {
        let pref = p.take(i as int + 1);
        if m.contains_key(pref) {
            if m[pref] is Dir {
                lemma_provision_monotone(m, p, i + 1);
                let r = provision_from(m, p, i + 1);
                assert(r.fs.contains_key(pref) && r.fs[pref] is Dir);
            }
        } else {
            let m1 = m.insert(pref, NodeView::Dir);
            lemma_provision_monotone(m1, p, i + 1);
            let r = provision_from(m1, p, i + 1);
            assert forall|q: Seq<Seq<char>>| #[trigger] m.contains_key(q) implies r.fs.contains_key(
                q) && r.fs[q] == m[q] by {
                assert(q != pref);
                assert(m1.contains_key(q) && m1[q] == m[q]);
            }
            assert(m1.contains_key(pref) && m1[pref] is Dir);
            assert(r.fs.contains_key(pref) && r.fs[pref] is Dir);
        }
    }
}

/// Provisioning a path whose non-empty prefixes are all already directories
/// changes nothing and succeeds.
pub proof fn lemma_provision_noop(m: Map<Seq<Seq<char>>, NodeView>, p: Seq<Seq<char>>, i: nat)
    requires
        forall|k: int|
            i < k <= p.len() ==> m.contains_key(#[trigger] p.take(k)) && m[p.take(k)] is Dir,
    ensures
        provision_from(m, p, i) == (ProvisionModel { fs: m, ok: true }),
    decreases p.len() - i,
{
    if i >= p.len() {
    } else {
        assert(m.contains_key(p.take(i as int + 1)));
        lemma_provision_noop(m, p, i + 1);
    }
}

/// Idempotent provisioning: provisioning the same path a second time, on
/// the filesystem a successful first run left behind, succeeds and leaves
/// the filesystem exactly as it was.
pub proof fn lemma_provision_idempotent(m: Map<Seq<Seq<char>>, NodeView>, p: Seq<Seq<char>>)
    requires
        provision_spec(m, p).ok,
    ensures
        provision_spec(provision_spec(m, p).fs, p) == (ProvisionModel {
            fs: provision_spec(m, p).fs,
            ok: true,
        }),
{
    lemma_provision_monotone(m, p, 0);
    lemma_provision_noop(provision_spec(m, p).fs, p, 0);
}

/// Path-collision detection: provisioning fails exactly when some non-empty
/// prefix of the path is already a regular file.
pub proof fn lemma_provision_collision(m: Map<Seq<Seq<char>>, NodeView>, p: Seq<Seq<char>>)
    ensures
        provision_spec(m, p).ok <==> forall|k: int|
            1 <= k <= p.len() ==> !(m.contains_key(#[trigger] p.take(k)) && m[p.take(k)] is File),
{
    lemma_provision_collision_from(m, p, 0);
}

proof fn lemma_provision_collision_from(m: Map<Seq<Seq<char>>, NodeView>, p: Seq<Seq<char>>, i: nat)
    ensures
        provision_from(m, p, i).ok <==> forall|k: int|
            i < k <= p.len() ==> !(m.contains_key(#[trigger] p.take(k)) && m[p.take(k)] is File),
    decreases p.len() - i,
{
    if i >= p.len() {
    } else {
        let pref = p.take(i as int + 1);
        if m.contains_key(pref) {
            if m[pref] is Dir {
                lemma_provision_collision_from(m, p, i + 1);
                assert(!(m.contains_key(p.take(i as int + 1)) && m[p.take(i as int + 1)] is File));
            } else {
                assert(m.contains_key(p.take(i as int + 1)) && m[p.take(i as int + 1)] is File);
            }
        } else {
            let m1 = m.insert(pref, NodeView::Dir);
            lemma_provision_collision_from(m1, p, i + 1);
            assert forall|k: int| i + 1 < k <= p.len() implies (m1.contains_key(
                #[trigger] p.take(k)) && m1[p.take(k)] is File) == (m.contains_key(p.take(k))
                && m[p.take(k)] is File) by {
                assert(p.take(k).len() == k);
                assert(pref.len() == i + 1);
            }
            assert(!(m.contains_key(pref) && m[pref] is File));
        }
    }
}

} // verus!
