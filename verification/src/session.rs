//! Session orchestration.
//!
//! One run is one session: provision the workspace, mirror the local tree
//! into its sandbox, record the command, stream the command's output, and
//! tear the workspace down — the teardown unconditionally, whether
//! streaming succeeded, failed, or the command itself exited non-zero. A
//! non-zero remote exit status is a faithfully relayed result, not a
//! failure of the session.

use vstd::prelude::*;
use crate::path::{RPath, wf_path, is_prefix_of};
use crate::fsmodel::RemoteFs;
use crate::provision::{provision, provision_spec, lemma_provision_monotone};
use crate::sync::{sync, sync_spec, SyncEntry, lemma_sync_confined};
use crate::stream::{stream, stream_spec, PollEvent};
use crate::runner::{sandbox_path, write_manifest};
use crate::teardown::teardown;
use crate::fsmodel::FsError;

verus! {

/// The remote process's terminal status, and whether any output was seen.
#[derive(Clone, Copy, PartialEq, Eq, Structural, Debug)]
pub struct ExecutionResult {
    pub exit_code: i32,
    pub streamed: bool,
}

/// Why a session failed before it could relay an exit status.
#[derive(Clone, Copy, PartialEq, Eq, Structural, Debug)]
pub enum SessionError {
    /// Provisioning the workspace failed (a path collision included);
    /// nothing was uploaded.
    Provision(FsError),
    /// A remote write failed while mirroring; the workspace was torn down.
    Sync(FsError),
    /// A stream read failed, or the channel ended without end-of-stream;
    /// the workspace was torn down.
    Stream,
}

/// What one session leaves behind locally: the relayed output and the
/// final outcome.
pub struct SessionOutcome {
    pub stdout: Vec<u8>,
    pub stderr: Vec<u8>,
    pub result: Result<ExecutionResult, SessionError>,
}

/// Run one session against the filesystem: provision `workspace`, mirror
/// `entries` into its sandbox, record `command`, stream `events`, and tear
/// the workspace down. The teardown runs on every path that got past
/// provisioning — after a failed mirror, after a failed stream, and
/// whatever `exit_status` says — so on all those paths nothing under the
/// workspace survives, and nothing outside it is touched beyond the
/// directories provisioning itself added.
pub fn orchestrate(
    fs: &mut RemoteFs,
    workspace: &RPath,
    entries: &Vec<SyncEntry>,
    command: &str,
    events: &Vec<PollEvent>,
    exit_status: i32,
) -> (r: SessionOutcome)
    requires
        old(fs).wf(),
        wf_path(workspace@),
        workspace@.len() > 0,
        forall|i: int| 0 <= i < entries@.len() ==> wf_path(#[trigger] entries@[i].rel@),
    ensures
        final(fs).wf(),
        !provision_spec(old(fs)@, workspace@).ok ==> (r.result == Err::<
            ExecutionResult,
            SessionError,
        >(SessionError::Provision(FsError::AlreadyExists)) && final(fs)@ == provision_spec(
            old(fs)@,
            workspace@,
        ).fs && r.stdout@ == Seq::<u8>::empty() && r.stderr@ == Seq::<u8>::empty()),
        provision_spec(old(fs)@, workspace@).ok ==> forall|q: Seq<Seq<char>>|
            is_prefix_of(workspace@, q) ==> !final(fs)@.contains_key(q),
        provision_spec(old(fs)@, workspace@).ok ==> forall|q: Seq<Seq<char>>|
            #![trigger is_prefix_of(workspace@, q)]
            !is_prefix_of(workspace@, q) ==> ((final(fs)@.contains_key(q) <==> provision_spec(
                old(fs)@,
                workspace@,
            ).fs.contains_key(q)) && (provision_spec(old(fs)@, workspace@).fs.contains_key(q)
                ==> final(fs)@[q] == provision_spec(old(fs)@, workspace@).fs[q])),
        provision_spec(old(fs)@, workspace@).ok && !sync_spec(
            provision_spec(old(fs)@, workspace@).fs,
            entries@,
            workspace@.push("sandbox"@),
        ).ok ==> ((r.result matches Err(SessionError::Sync(_))) && r.stdout@ == Seq::<u8>::empty()
            && r.stderr@ == Seq::<u8>::empty()),
        provision_spec(old(fs)@, workspace@).ok && sync_spec(
            provision_spec(old(fs)@, workspace@).fs,
            entries@,
            workspace@.push("sandbox"@),
        ).ok ==> ({
            let st = stream_spec(events@);
            &&& r.stdout@ == st.stdout
            &&& r.stderr@ == st.stderr
            &&& (st.ok && st.finished ==> r.result == Ok::<ExecutionResult, SessionError>(
                ExecutionResult { exit_code: exit_status, streamed: st.streamed },
            ))
            &&& (!(st.ok && st.finished) ==> r.result == Err::<ExecutionResult, SessionError>(
                SessionError::Stream,
            ))
        }),
{
    let ghost m0 = fs@;
    match provision(fs, workspace) {
        Err(e) => {
            return SessionOutcome {
                stdout: Vec::new(),
                stderr: Vec::new(),
                result: Err(SessionError::Provision(e)),
            };
        },
        Ok(_) => {},
    }
    let ghost pm = provision_spec(m0, workspace@).fs;
    proof {
        lemma_provision_monotone(m0, workspace@, 0);
        assert(workspace@.take(workspace@.len() as int) =~= workspace@);
        assert(fs@.contains_key(workspace@) && fs@[workspace@] is Dir);
        assert(is_prefix_of(workspace@, workspace@));
    }
    let sandbox = sandbox_path(workspace);
    let sync_res = sync(fs, &sandbox, entries);
    proof {
        lemma_sync_confined(pm, entries@, sandbox@, 0);
        assert(!is_prefix_of(sandbox@, workspace@));
        assert(fs@ == sync_spec(pm, entries@, sandbox@).fs);
        assert(sync_spec(pm, entries@, sandbox@).fs.contains_key(workspace@)
            <==> pm.contains_key(workspace@));
        assert(pm.contains_key(workspace@) ==> sync_spec(pm, entries@, sandbox@).fs[workspace@]
            == pm[workspace@]);
        assert(fs@.contains_key(workspace@) && fs@[workspace@] is Dir);
        assert forall|q: Seq<Seq<char>>|
            #![trigger is_prefix_of(workspace@, q)]
            !is_prefix_of(workspace@, q) implies ((fs@.contains_key(q) <==> pm.contains_key(q)) && (
        pm.contains_key(q) ==> fs@[q] == pm[q])) by {
            if is_prefix_of(sandbox@, q) {
                assert(q.take(sandbox@.len() as int) == sandbox@);
                assert(q.take(workspace@.len() as int) =~= sandbox@.take(
                    workspace@.len() as int,
                ));
                assert(sandbox@.take(workspace@.len() as int) =~= workspace@);
                assert(is_prefix_of(workspace@, q));
            }
            assert(sync_spec(pm, entries@, sandbox@).fs.contains_key(q) <==> pm.contains_key(q));
            assert(pm.contains_key(q) ==> sync_spec(pm, entries@, sandbox@).fs[q] == pm[q]);
        }
    }
    let ghost after_sync = fs@;
    match sync_res {
        Err(e) => {
            let td = teardown(fs, workspace);
            proof {
                assert(td is Ok);
                assert forall|q: Seq<Seq<char>>|
                    #![trigger is_prefix_of(workspace@, q)]
                    !is_prefix_of(workspace@, q) implies ((fs@.contains_key(q)
                    <==> pm.contains_key(q)) && (pm.contains_key(q) ==> fs@[q] == pm[q])) by {
                    assert(fs@.contains_key(q) <==> after_sync.contains_key(q));
                    assert(after_sync.contains_key(q) ==> fs@[q] == after_sync[q]);
                }
            }
            return SessionOutcome {
                stdout: Vec::new(),
                stderr: Vec::new(),
                result: Err(SessionError::Sync(e)),
            };
        },
        Ok(_) => {},
    }
    let _ = write_manifest(fs, workspace, command);
    proof {
        assert(workspace@.push("command.txt"@).len() == workspace@.len() + 1);
        assert(fs@.contains_key(workspace@) && fs@[workspace@] is Dir);
        assert forall|q: Seq<Seq<char>>| !is_prefix_of(workspace@, q) implies ((fs@.contains_key(q)
            <==> after_sync.contains_key(q)) && (after_sync.contains_key(q) ==> fs@[q]
            == after_sync[q])) by {
            let mp = workspace@.push("command.txt"@);
            assert(mp.take(workspace@.len() as int) =~= workspace@);
            assert(is_prefix_of(workspace@, mp));
            assert(q != mp);
        }
    }
    let ghost after_manifest = fs@;
    let outcome = stream(events);
    let td = teardown(fs, workspace);
    proof {
        assert(td is Ok);
        assert forall|q: Seq<Seq<char>>|
            #![trigger is_prefix_of(workspace@, q)]
            !is_prefix_of(workspace@, q) implies ((fs@.contains_key(q) <==> pm.contains_key(q)) && (
        pm.contains_key(q) ==> fs@[q] == pm[q])) by {
            assert(fs@.contains_key(q) <==> after_manifest.contains_key(q));
            assert(after_manifest.contains_key(q) ==> fs@[q] == after_manifest[q]);
            assert(after_manifest.contains_key(q) <==> after_sync.contains_key(q));
            assert(after_sync.contains_key(q) ==> after_manifest[q] == after_sync[q]);
        }
    }
    let result: Result<ExecutionResult, SessionError> = if outcome.ok && outcome.finished {
        Ok(ExecutionResult { exit_code: exit_status, streamed: outcome.streamed })
    } else {
        Err(SessionError::Stream)
    };
    SessionOutcome { stdout: outcome.stdout, stderr: outcome.stderr, result }
}

} // verus!
