use csecmd::fsmodel::{FsError, Meta, NodeData, RemoteFs};
use csecmd::path::RPath;
use csecmd::provision::provision;
use csecmd::sync::{sync, SyncEntry};

fn rpath(parts: &[&str]) -> RPath {
    RPath { parts: parts.iter().map(|p| p.to_string()).collect() }
}

fn dir_entry(rel: &[&str]) -> SyncEntry {
    SyncEntry { rel: rpath(rel), node: NodeData::Dir }
}

fn file_entry(rel: &[&str], contents: &[u8]) -> SyncEntry {
    SyncEntry { rel: rpath(rel), node: NodeData::File(contents.to_vec()) }
}

#[test]
fn sync_mirrors_every_file_and_directory() {
    let mut fs = RemoteFs::new();
    let base = rpath(&["ws", "sandbox"]);
    assert!(provision(&mut fs, &base).is_ok());

    // Two directories and three files, walk-ordered (parents first).
    let entries = vec![
        dir_entry(&[]),
        file_entry(&["a.txt"], b"alpha"),
        dir_entry(&["sub"]),
        file_entry(&["sub", "b.txt"], b"beta"),
        dir_entry(&["sub", "deep"]),
        file_entry(&["sub", "deep", "c.txt"], b"gamma"),
    ];
    assert!(sync(&mut fs, &base, &entries).is_ok());

    // Exactly N files with byte-identical contents.
    assert_eq!(fs.file_contents(&rpath(&["ws", "sandbox", "a.txt"])), Some(b"alpha".to_vec()));
    assert_eq!(fs.file_contents(&rpath(&["ws", "sandbox", "sub", "b.txt"])), Some(b"beta".to_vec()));
    assert_eq!(
        fs.file_contents(&rpath(&["ws", "sandbox", "sub", "deep", "c.txt"])),
        Some(b"gamma".to_vec())
    );
    // At least M mirrored directories.
    assert_eq!(fs.stat(&rpath(&["ws", "sandbox", "sub"])), Some(Meta::Directory));
    assert_eq!(fs.stat(&rpath(&["ws", "sandbox", "sub", "deep"])), Some(Meta::Directory));
    // Nothing extra appeared at the sandbox root.
    let listing = fs.read_dir(&rpath(&["ws", "sandbox"])).unwrap();
    assert_eq!(listing.len(), 2);
    let deep = fs.read_dir(&rpath(&["ws", "sandbox", "sub", "deep"])).unwrap();
    assert_eq!(deep.len(), 1);
}

#[test]
fn sync_replaces_remote_files_verbatim() {
    let mut fs = RemoteFs::new();
    let base = rpath(&["ws", "sandbox"]);
    assert!(provision(&mut fs, &base).is_ok());
    assert!(fs.create_file(&rpath(&["ws", "sandbox", "a.txt"]), b"stale".to_vec()).is_ok());

    let entries = vec![dir_entry(&[]), file_entry(&["a.txt"], b"fresh")];
    assert!(sync(&mut fs, &base, &entries).is_ok());
    assert_eq!(fs.file_contents(&rpath(&["ws", "sandbox", "a.txt"])), Some(b"fresh".to_vec()));
}

#[test]
fn sync_remote_write_failure_is_fatal_and_keeps_earlier_uploads() {
    let mut fs = RemoteFs::new();
    let base = rpath(&["ws", "sandbox"]);
    assert!(provision(&mut fs, &base).is_ok());

    // The second file's parent directory is never created, so its remote
    // write fails and aborts the sync.
    let entries = vec![
        dir_entry(&[]),
        file_entry(&["a.txt"], b"kept"),
        file_entry(&["missing", "b.txt"], b"lost"),
        file_entry(&["c.txt"], b"never reached"),
    ];
    let r = sync(&mut fs, &base, &entries);
    assert_eq!(r, Err(FsError::NotFound));
    assert_eq!(fs.file_contents(&rpath(&["ws", "sandbox", "a.txt"])), Some(b"kept".to_vec()));
    assert_eq!(fs.stat(&rpath(&["ws", "sandbox", "c.txt"])), None);
}

#[test]
fn sync_tolerates_directory_creation_failure() {
    let mut fs = RemoteFs::new();
    let base = rpath(&["ws", "sandbox"]);
    assert!(provision(&mut fs, &base).is_ok());
    assert!(fs.mkdir(&rpath(&["ws", "sandbox", "sub"])).is_ok());

    // "sub" already exists remotely: the mkdir failure is tolerated and
    // the traversal (and the file inside) goes on.
    let entries = vec![
        dir_entry(&[]),
        dir_entry(&["sub"]),
        file_entry(&["sub", "b.txt"], b"bee"),
    ];
    assert!(sync(&mut fs, &base, &entries).is_ok());
    assert_eq!(fs.file_contents(&rpath(&["ws", "sandbox", "sub", "b.txt"])), Some(b"bee".to_vec()));
}
