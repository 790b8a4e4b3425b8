//! Command running: workspace naming, the audit manifest, and the command
//! line handed to the remote shell.
//!
//! Each run works under `.csecmd_dump/temp/<timestamp>`: the mirrored tree
//! goes to its `sandbox` subdirectory, the literal command text to its
//! `command.txt`, and the remote shell is told to change into the sandbox
//! before running the command.

use vstd::prelude::*;
use crate::path::{RPath, wf_path, wf_component, joined};
use crate::fsmodel::{RemoteFs, NodeView, FsError, parent_ready};

verus! {

/// The workspace path for a run stamped `timestamp`:
/// `.csecmd_dump/temp/<timestamp>`.
pub fn workspace_path(timestamp: String) -> (r: RPath)
    requires
        wf_component(timestamp@),
    ensures
        r@ == seq![".csecmd_dump"@, "temp"@, timestamp@],
        wf_path(r@),
        r@.len() == 3,
{
    let mut r = RPath::empty();
    r.push_part(String::from_str(".csecmd_dump"));
    r.push_part(String::from_str("temp"));
    r.push_part(timestamp);
    proof {
        reveal_strlit(".csecmd_dump");
        reveal_strlit("temp");
        assert(r@ =~= seq![".csecmd_dump"@, "temp"@, timestamp@]);
        assert(wf_component(".csecmd_dump"@));
        assert(wf_component("temp"@));
    }
    r
}

/// Relies on chrono's `Local::now` and `DateTime::format`: the pattern
/// `%Y-%m-%d-%H-%M-%S` writes decimal digits and `-` (with a `+` or `-`
/// sign on out-of-range years), so the result is never empty and never
/// holds a path separator.
#[verifier::external_body]
fn current_timestamp() -> (r: String)
    ensures
        r@.len() > 0,
        forall|i: int|
            0 <= i < r@.len() ==> (('0' <= r@[i] && r@[i] <= '9') || r@[i] == '-' || r@[i] == '+'),
{
    chrono::Local::now().format("%Y-%m-%d-%H-%M-%S").to_string()
}

/// A workspace path stamped with the current local time, unique at second
/// granularity.
pub fn fresh_workspace_path() -> (r: RPath)
    ensures
        wf_path(r@),
        r@.len() == 3,
        r@[0] == ".csecmd_dump"@,
        r@[1] == "temp"@,
{
    let ts = current_timestamp();
    proof {
        assert forall|i: int| 0 <= i < ts@.len() implies ts@[i] != '/' by {
            assert(('0' <= ts@[i] && ts@[i] <= '9') || ts@[i] == '-' || ts@[i] == '+');
        }
        assert(wf_component(ts@));
    }
    workspace_path(ts)
}

/// The sandbox directory of a workspace, where the mirrored tree lives and
/// where the command runs.
pub fn sandbox_path(workspace: &RPath) -> (r: RPath)
    ensures
        r@ == workspace@.push("sandbox"@),
        wf_path(workspace@) ==> wf_path(r@),
{
    let r = workspace.child(String::from_str("sandbox"));
    proof {
        reveal_strlit("sandbox");
        assert(wf_component("sandbox"@));
        if wf_path(workspace@) {
            assert forall|i: int| 0 <= i < r@.len() implies wf_component(#[trigger] r@[i]) by {
                if i < workspace@.len() {
                    assert(r@[i] == workspace@[i]);
                }
            }
        }
    }
    r
}

/// The audit manifest path of a workspace.
pub fn manifest_path(workspace: &RPath) -> (r: RPath)
    ensures
        r@ == workspace@.push("command.txt"@),
        wf_path(workspace@) ==> wf_path(r@),
{
    let r = workspace.child(String::from_str("command.txt"));
    proof {
        reveal_strlit("command.txt");
        assert(wf_component("command.txt"@));
        if wf_path(workspace@) {
            assert forall|i: int| 0 <= i < r@.len() implies wf_component(#[trigger] r@[i]) by {
                if i < workspace@.len() {
                    assert(r@[i] == workspace@[i]);
                }
            }
        }
    }
    r
}

/// Write the literal command text, as UTF-8, to the workspace's
/// `command.txt` for auditing. Best effort: the result reports how the
/// write went, and a failure is meant to be tolerated.
pub fn write_manifest(fs: &mut RemoteFs, workspace: &RPath, command: &str) -> (r: Result<
    (),
    FsError,
>)
    requires
        old(fs).wf(),
        wf_path(workspace@),
        workspace@.len() > 0,
    ensures
        final(fs).wf(),
        r is Ok <==> (!(old(fs)@.contains_key(workspace@.push("command.txt"@)) && old(
            fs,
        )@[workspace@.push("command.txt"@)] is Dir) && parent_ready(
            old(fs)@,
            workspace@.push("command.txt"@),
        )),
        r is Ok ==> final(fs)@ =~= old(fs)@.insert(
            workspace@.push("command.txt"@),
            NodeView::File(vstd::utf8::encode_utf8(command@)),
        ),
        r is Err ==> final(fs)@ == old(fs)@,
{
    let p = manifest_path(workspace);
    let bytes = command.as_bytes_vec();
    proof {
        assert(p@.drop_last() =~= workspace@);
    }
    fs.create_file(&p, bytes)
}

/// The one composite command handed to the execution channel: change into
/// the workspace's sandbox, then run the user's command as given.
pub fn compose_command(workspace: &RPath, command: &str) -> (r: String)
    ensures
        r@ == "cd "@ + joined(workspace@) + "/sandbox && "@ + command@,
{
    let mut r = String::from_str("cd ");
    let disp = workspace.to_display();
    r.append(disp.as_str());
    r.append("/sandbox && ");
    r.append(command);
    r
}

} // verus!
