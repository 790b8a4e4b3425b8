use csecmd::fsmodel::{FsError, Meta, RemoteFs};
use csecmd::path::RPath;
use csecmd::provision::provision;

fn rpath(parts: &[&str]) -> RPath {
    RPath { parts: parts.iter().map(|p| p.to_string()).collect() }
}

#[test]
fn provision_creates_every_component() {
    let mut fs = RemoteFs::new();
    let p = rpath(&[".csecmd_dump", "temp", "2024-01-01-00-00-00"]);
    assert!(provision(&mut fs, &p).is_ok());
    assert_eq!(fs.stat(&rpath(&[".csecmd_dump"])), Some(Meta::Directory));
    assert_eq!(fs.stat(&rpath(&[".csecmd_dump", "temp"])), Some(Meta::Directory));
    assert_eq!(fs.stat(&p), Some(Meta::Directory));
}

#[test]
fn provision_twice_succeeds_and_keeps_the_tree() {
    let mut fs = RemoteFs::new();
    let p = rpath(&[".csecmd_dump", "temp", "run"]);
    assert!(provision(&mut fs, &p).is_ok());
    let top_before = fs.read_dir(&rpath(&[".csecmd_dump"])).unwrap().len();
    let mid_before = fs.read_dir(&rpath(&[".csecmd_dump", "temp"])).unwrap().len();
    let leaf_before = fs.read_dir(&p).unwrap().len();

    assert!(provision(&mut fs, &p).is_ok());
    assert_eq!(fs.read_dir(&rpath(&[".csecmd_dump"])).unwrap().len(), top_before);
    assert_eq!(fs.read_dir(&rpath(&[".csecmd_dump", "temp"])).unwrap().len(), mid_before);
    assert_eq!(fs.read_dir(&p).unwrap().len(), leaf_before);
    assert_eq!(fs.stat(&p), Some(Meta::Directory));
}

#[test]
fn provision_over_partially_existing_parents() {
    let mut fs = RemoteFs::new();
    assert!(fs.mkdir(&rpath(&[".csecmd_dump"])).is_ok());
    let p = rpath(&[".csecmd_dump", "temp", "run"]);
    assert!(provision(&mut fs, &p).is_ok());
    assert_eq!(fs.stat(&p), Some(Meta::Directory));
}

#[test]
fn provision_collision_at_each_intermediate_position() {
    // A regular file sitting at any prefix of the path fails provisioning.
    for file_at in 1..=3usize {
        let mut fs = RemoteFs::new();
        let full = ["a", "b", "c"];
        // Create directories above the colliding position, then the file.
        for k in 1..file_at {
            assert!(fs.mkdir(&rpath(&full[..k])).is_ok());
        }
        assert!(fs.create_file(&rpath(&full[..file_at]), b"x".to_vec()).is_ok());
        let r = provision(&mut fs, &rpath(&full));
        assert_eq!(r, Err(FsError::AlreadyExists));
        // The file is still there, untouched.
        assert_eq!(fs.stat(&rpath(&full[..file_at])), Some(Meta::Regular));
    }
}

#[test]
fn mkdir_error_variants() {
    let mut fs = RemoteFs::new();
    assert!(fs.mkdir(&rpath(&["top"])).is_ok());
    assert_eq!(fs.mkdir(&rpath(&["top"])), Err(FsError::AlreadyExists));
    assert_eq!(fs.mkdir(&rpath(&["missing", "child"])), Err(FsError::NotFound));
    assert!(fs.create_file(&rpath(&["top", "file"]), b"hi".to_vec()).is_ok());
    assert_eq!(fs.mkdir(&rpath(&["top", "file", "sub"])), Err(FsError::NotADirectory));
}

#[test]
fn create_unlink_rmdir_error_variants() {
    let mut fs = RemoteFs::new();
    assert!(fs.mkdir(&rpath(&["top"])).is_ok());
    // Creating a file where a directory sits is refused.
    assert_eq!(fs.create_file(&rpath(&["top"]), b"x".to_vec()), Err(FsError::NotAFile));
    // Creating under a missing parent is refused.
    assert_eq!(fs.create_file(&rpath(&["gone", "f"]), b"x".to_vec()), Err(FsError::NotFound));
    // Creating under a file is refused.
    assert!(fs.create_file(&rpath(&["top", "f"]), b"x".to_vec()).is_ok());
    assert_eq!(fs.create_file(&rpath(&["top", "f", "g"]), b"x".to_vec()), Err(FsError::NotADirectory));
    // Replacing an existing file succeeds and replaces the contents.
    assert!(fs.create_file(&rpath(&["top", "f"]), b"yz".to_vec()).is_ok());
    assert_eq!(fs.file_contents(&rpath(&["top", "f"])), Some(b"yz".to_vec()));
    // Unlink of a missing path or a directory is refused.
    assert_eq!(fs.unlink(&rpath(&["gone"])), Err(FsError::NotFound));
    assert_eq!(fs.unlink(&rpath(&["top"])), Err(FsError::NotAFile));
    // rmdir of a non-empty directory, a file, or a missing path is refused.
    assert_eq!(fs.rmdir(&rpath(&["top"])), Err(FsError::NotEmpty));
    assert_eq!(fs.rmdir(&rpath(&["top", "f"])), Err(FsError::NotADirectory));
    assert_eq!(fs.rmdir(&rpath(&["gone"])), Err(FsError::NotFound));
    // After clearing the file the directory can go.
    assert!(fs.unlink(&rpath(&["top", "f"])).is_ok());
    assert!(fs.rmdir(&rpath(&["top"])).is_ok());
    assert_eq!(fs.stat(&rpath(&["top"])), None);
}

#[test]
fn read_dir_lists_direct_children_only() {
    let mut fs = RemoteFs::new();
    assert!(fs.mkdir(&rpath(&["d"])).is_ok());
    assert!(fs.mkdir(&rpath(&["d", "sub"])).is_ok());
    assert!(fs.create_file(&rpath(&["d", "f"]), b"1".to_vec()).is_ok());
    assert!(fs.create_file(&rpath(&["d", "sub", "deep"]), b"2".to_vec()).is_ok());
    let listing = fs.read_dir(&rpath(&["d"])).unwrap();
    assert_eq!(listing.len(), 2);
    let mut names: Vec<String> = listing.iter().map(|e| e.path.parts.last().unwrap().clone()).collect();
    names.sort();
    assert_eq!(names, vec!["f".to_string(), "sub".to_string()]);
    assert!(matches!(fs.read_dir(&rpath(&["gone"])), Err(FsError::NotFound)));
    assert!(matches!(fs.read_dir(&rpath(&["d", "f"])), Err(FsError::NotADirectory)));
}

#[test]
fn path_helpers() {
    let p = rpath(&["a", "bb", "c"]);
    assert_eq!(p.to_display(), "a/bb/c");
    assert_eq!(p.len(), 3);
    assert!(p.same_as(&rpath(&["a", "bb", "c"])));
    assert!(!p.same_as(&rpath(&["a", "bb"])));
    assert!(!p.same_as(&rpath(&["a", "bb", "d"])));
    assert!(p.prefix(2).same_as(&rpath(&["a", "bb"])));
    assert!(p.join(&rpath(&["d"])).same_as(&rpath(&["a", "bb", "c", "d"])));
    assert!(p.child("x".to_string()).same_as(&rpath(&["a", "bb", "c", "x"])));
    assert!(p.duplicate().same_as(&p));
    assert_eq!(RPath::empty().len(), 0);
}
