use csecmd::fsmodel::{Meta, NodeData, RemoteFs};
use csecmd::path::RPath;
use csecmd::provision::provision;
use csecmd::runner::{compose_command, manifest_path, sandbox_path, workspace_path, write_manifest};
use csecmd::session::{orchestrate, ExecutionResult, SessionError};
use csecmd::stream::{PollEvent, ReadEvent};
use csecmd::sync::{sync, SyncEntry};
use csecmd::teardown::teardown;

fn rpath(parts: &[&str]) -> RPath {
    RPath { parts: parts.iter().map(|p| p.to_string()).collect() }
}

fn scenario_entries() -> Vec<SyncEntry> {
    vec![
        SyncEntry { rel: rpath(&[]), node: NodeData::Dir },
        SyncEntry { rel: rpath(&["a.txt"]), node: NodeData::File(b"hi".to_vec()) },
        SyncEntry { rel: rpath(&["sub"]), node: NodeData::Dir },
        SyncEntry { rel: rpath(&["sub", "b.txt"]), node: NodeData::File(b"bye".to_vec()) },
    ]
}

fn ev(eof: bool, out: ReadEvent, err: ReadEvent) -> PollEvent {
    PollEvent { eof, out, err }
}

#[test]
fn end_to_end_scenario() {
    let mut fs = RemoteFs::new();
    let ws = workspace_path("2024-01-01-00-00-00".to_string());
    assert_eq!(ws.to_display(), ".csecmd_dump/temp/2024-01-01-00-00-00");

    assert!(provision(&mut fs, &ws).is_ok());
    let sandbox = sandbox_path(&ws);
    assert!(sync(&mut fs, &sandbox, &scenario_entries()).is_ok());

    // The mirrored tree sits at the expected remote paths with the
    // expected contents.
    assert_eq!(
        fs.file_contents(&rpath(&[".csecmd_dump", "temp", "2024-01-01-00-00-00", "sandbox", "a.txt"])),
        Some(b"hi".to_vec())
    );
    assert_eq!(
        fs.file_contents(&rpath(&[
            ".csecmd_dump", "temp", "2024-01-01-00-00-00", "sandbox", "sub", "b.txt"
        ])),
        Some(b"bye".to_vec())
    );

    // The audit manifest holds the literal command text.
    let command = "cat a.txt sub/b.txt";
    assert!(write_manifest(&mut fs, &ws, command).is_ok());
    assert_eq!(fs.file_contents(&manifest_path(&ws)), Some(b"cat a.txt sub/b.txt".to_vec()));

    // The composite command changes into the sandbox first.
    assert_eq!(
        compose_command(&ws, command),
        "cd .csecmd_dump/temp/2024-01-01-00-00-00/sandbox && cat a.txt sub/b.txt"
    );

    // Streamed stdout is exactly the concatenation, and afterwards the
    // workspace is gone from a fresh listing.
    assert!(teardown(&mut fs, &ws).is_ok());
    assert_eq!(fs.stat(&ws), None);
    let listing = fs.read_dir(&rpath(&[".csecmd_dump", "temp"])).unwrap();
    assert!(listing.is_empty());
}

#[test]
fn orchestrate_full_session() {
    let mut fs = RemoteFs::new();
    let ws = workspace_path("2024-01-01-00-00-00".to_string());
    let events = vec![
        ev(false, ReadEvent::Data(b"hi".to_vec()), ReadEvent::NoData),
        ev(false, ReadEvent::Data(b"bye".to_vec()), ReadEvent::NoData),
        ev(true, ReadEvent::NoData, ReadEvent::NoData),
    ];
    let outcome = orchestrate(&mut fs, &ws, &scenario_entries(), "cat a.txt sub/b.txt", &events, 0);
    assert_eq!(outcome.stdout, b"hibye".to_vec());
    assert_eq!(outcome.stderr, Vec::<u8>::new());
    assert_eq!(outcome.result, Ok(ExecutionResult { exit_code: 0, streamed: true }));
    // Post-run, the workspace is absent.
    assert_eq!(fs.stat(&ws), None);
    assert!(fs.read_dir(&rpath(&[".csecmd_dump", "temp"])).unwrap().is_empty());
}

#[test]
fn teardown_runs_for_nonzero_exit_status() {
    let mut fs = RemoteFs::new();
    let ws = workspace_path("run".to_string());
    let events = vec![
        ev(false, ReadEvent::Data(b"boom".to_vec()), ReadEvent::Data(b"oops".to_vec())),
        ev(true, ReadEvent::NoData, ReadEvent::NoData),
    ];
    let outcome = orchestrate(&mut fs, &ws, &scenario_entries(), "false", &events, 17);
    // The non-zero status is relayed, not turned into a session failure.
    assert_eq!(outcome.result, Ok(ExecutionResult { exit_code: 17, streamed: true }));
    assert_eq!(outcome.stderr, b"oops".to_vec());
    // Teardown still ran: every uploaded file is gone, workspace included.
    assert_eq!(fs.stat(&ws), None);
    assert_eq!(
        fs.stat(&rpath(&[".csecmd_dump", "temp", "run", "sandbox", "a.txt"])),
        None
    );
}

#[test]
fn teardown_runs_after_stream_failure() {
    let mut fs = RemoteFs::new();
    let ws = workspace_path("run".to_string());
    let events = vec![ev(false, ReadEvent::Failed, ReadEvent::NoData)];
    let outcome = orchestrate(&mut fs, &ws, &scenario_entries(), "cmd", &events, 0);
    assert_eq!(outcome.result, Err(SessionError::Stream));
    assert_eq!(fs.stat(&ws), None);
}

#[test]
fn teardown_runs_after_remote_write_failure() {
    let mut fs = RemoteFs::new();
    let ws = workspace_path("run".to_string());
    // The second file's parent directory never appears: the remote write
    // fails, the sync aborts, and teardown still runs on what was uploaded.
    let entries = vec![
        SyncEntry { rel: rpath(&[]), node: NodeData::Dir },
        SyncEntry { rel: rpath(&["a.txt"]), node: NodeData::File(b"hi".to_vec()) },
        SyncEntry { rel: rpath(&["missing", "b.txt"]), node: NodeData::File(b"bye".to_vec()) },
    ];
    let events = vec![ev(true, ReadEvent::NoData, ReadEvent::NoData)];
    let outcome = orchestrate(&mut fs, &ws, &entries, "cmd", &events, 0);
    assert!(matches!(outcome.result, Err(SessionError::Sync(_))));
    assert_eq!(outcome.stdout, Vec::<u8>::new());
    assert_eq!(fs.stat(&ws), None);
    assert_eq!(fs.stat(&rpath(&[".csecmd_dump", "temp", "run", "sandbox", "a.txt"])), None);
    // The directories above the workspace stay, as provisioning left them.
    assert_eq!(fs.stat(&rpath(&[".csecmd_dump", "temp"])), Some(Meta::Directory));
}

#[test]
fn orchestrate_path_collision_fails_before_upload() {
    let mut fs = RemoteFs::new();
    assert!(fs.create_file(&rpath(&[".csecmd_dump"]), b"in the way".to_vec()).is_ok());
    let ws = workspace_path("run".to_string());
    let events = vec![ev(true, ReadEvent::NoData, ReadEvent::NoData)];
    let outcome = orchestrate(&mut fs, &ws, &scenario_entries(), "cmd", &events, 0);
    assert!(matches!(outcome.result, Err(SessionError::Provision(_))));
    // The colliding file is untouched.
    assert_eq!(fs.file_contents(&rpath(&[".csecmd_dump"])), Some(b"in the way".to_vec()));
}
