use ergibus::archive::{resolve_inclusions, validate_patterns, ArchiveNameOrDirPath, ArchiveSnapshotDir, Exclusions};
use ergibus::archive::new_snapshot_dir_path;
use ergibus::errors::{Error, IoErrorKind};

#[test]
fn test_file_exclusions() {
    let excl = Exclusions::new(&vec![], &vec!["*.[ao]".to_string(), "this.*".to_string()])
        .unwrap_or_else(|err| panic!("{:?}", err));
    assert!(excl.is_excluded_file("whatever.o"));
    assert!(excl.is_excluded_file("whatever.a"));
    assert!(!excl.is_excluded_file("whatever.c"));
    assert!(!excl.is_excluded_file("whatevero"));
    assert!(!excl.is_excluded_file("whatevera"));
    assert!(excl.is_excluded_file("this.c"));
    assert!(excl.is_excluded_file("dir/whatever.o"));
    assert!(excl.is_excluded_file("dir/whatever.a"));
    assert!(!excl.is_excluded_file("dir/whatever.c"));
    assert!(!excl.is_excluded_file("dir/whatevero"));
    assert!(!excl.is_excluded_file("dir/whatevera"));
    assert!(excl.is_excluded_file("dir/this.c"));
}

#[test]
fn test_dir_exclusions() {
    let excl = Exclusions::new(&vec!["*.[ao]".to_string(), "this.*".to_string()], &vec![])
        .unwrap_or_else(|err| panic!("{:?}", err));
    assert!(excl.is_excluded_dir("whatever.o"));
    assert!(excl.is_excluded_dir("whatever.a"));
    assert!(!excl.is_excluded_dir("whatever.c"));
    assert!(!excl.is_excluded_dir("whatevero"));
    assert!(!excl.is_excluded_dir("whatevera"));
    assert!(excl.is_excluded_dir("this.c"));
    assert!(excl.is_excluded_dir("dir/whatever.o"));
    assert!(excl.is_excluded_dir("dir/whatever.a"));
    assert!(!excl.is_excluded_dir("dir/whatever.c"));
    assert!(!excl.is_excluded_dir("dir/whatevero"));
    assert!(!excl.is_excluded_dir("dir/whatevera"));
    assert!(excl.is_excluded_dir("dir/this.c"));
}

#[test]
fn empty_exclusions_exclude_nothing() {
    let excl = Exclusions::new(&vec![], &vec![]).unwrap();
    assert!(!excl.is_excluded_dir("/"));
    assert!(!excl.is_excluded_file("/x/y"));
    assert_eq!(excl.checked_is_excluded_dir("/"), Some(false));
    assert!(excl.is_non_excluded_dir(true, "lost+found", "/lost+found"));
    assert!(!excl.is_non_excluded_dir(false, "file", "/file"));
}

#[test]
fn undecidable_exclusion_is_reported() {
    let excl = Exclusions::new(&vec!["lost+found".to_string()], &vec![]).unwrap();
    assert_eq!(excl.checked_is_excluded_dir("/"), None);
    assert_eq!(excl.checked_is_excluded_dir("/data/lost+found"), Some(true));
    assert_eq!(excl.checked_is_excluded_file("/"), Some(false));
    assert!(!excl.is_non_excluded_dir(true, "lost+found", "/data/lost+found"));
}

#[test]
fn bad_glob_is_refused() {
    match Exclusions::new(&vec!["a[".to_string()], &vec![]) {
        Err(Error::GlobError(_)) => (),
        other => panic!("unexpected: {:?}", other),
    }
    assert!(validate_patterns(&vec!["*.o".to_string(), "x{".to_string()]).is_err());
    assert!(validate_patterns(&vec!["*.o".to_string()]).is_ok());
}

fn paths(n: usize) -> Vec<String> {
    (0..n).map(|i| format!("/s/{}", i)).collect()
}

#[test]
fn back_n_selects_from_either_end() {
    let dir = ArchiveSnapshotDir::new(ArchiveNameOrDirPath::ArchiveName("a".to_string()), "/s");
    assert_eq!(dir.get_snapshot_path_back_n(Ok(paths(3)), 0).unwrap(), "/s/0");
    assert_eq!(dir.get_snapshot_path_back_n(Ok(paths(3)), 2).unwrap(), "/s/2");
    assert_eq!(dir.get_snapshot_path_back_n(Ok(paths(3)), -1).unwrap(), "/s/2");
    assert_eq!(dir.get_snapshot_path_back_n(Ok(paths(3)), -3).unwrap(), "/s/0");
    match dir.get_snapshot_path_back_n(Ok(paths(3)), 3) {
        Err(Error::SnapshotIndexOutOfRange(_, 3)) => (),
        other => panic!("unexpected: {:?}", other),
    }
    match dir.get_snapshot_path_back_n(Ok(paths(3)), -4) {
        Err(Error::SnapshotIndexOutOfRange(_, -4)) => (),
        other => panic!("unexpected: {:?}", other),
    }
    match dir.get_snapshot_path_back_n(Ok(vec![]), 0) {
        Err(Error::ArchiveEmpty(ArchiveNameOrDirPath::ArchiveName(n))) => assert_eq!(n, "a"),
        other => panic!("unexpected: {:?}", other),
    }
    match dir.get_snapshot_path_back_n(Err(Error::IOError(IoErrorKind::NotFound)), 0) {
        Err(Error::IOError(IoErrorKind::NotFound)) => (),
        other => panic!("unexpected: {:?}", other),
    }
}

#[test]
fn delete_all_but_newest_counts_the_oldest() {
    let dir = ArchiveSnapshotDir::new(ArchiveNameOrDirPath::DirPath("/s".to_string()), "/s");
    assert_eq!(dir.delete_all_but_newest(Ok(paths(5)), 2, false).unwrap(), 3);
    assert_eq!(dir.delete_all_but_newest(Ok(paths(2)), 2, false).unwrap(), 0);
    assert_eq!(dir.delete_all_but_newest(Ok(paths(2)), 0, true).unwrap(), 2);
    match dir.delete_all_but_newest(Err(Error::IOError(IoErrorKind::Other)), 0, false) {
        Err(Error::LastSnapshot(_)) => (),
        other => panic!("unexpected: {:?}", other),
    }
    match dir.delete_all_but_newest(Ok(vec![]), 1, false) {
        Err(Error::ArchiveEmpty(_)) => (),
        other => panic!("unexpected: {:?}", other),
    }
}

#[test]
fn delete_back_n_protects_the_last() {
    let dir = ArchiveSnapshotDir::new(ArchiveNameOrDirPath::ArchiveName("a".to_string()), "/s");
    assert_eq!(dir.delete_ss_back_n(Ok(paths(3)), 1, false).unwrap(), Some(1));
    assert_eq!(dir.delete_ss_back_n(Ok(paths(3)), -1, false).unwrap(), Some(2));
    assert_eq!(dir.delete_ss_back_n(Ok(paths(3)), 7, false).unwrap(), None);
    assert_eq!(dir.delete_ss_back_n(Ok(paths(1)), 0, true).unwrap(), Some(0));
    match dir.delete_ss_back_n(Ok(paths(1)), 0, false) {
        Err(Error::LastSnapshot(_)) => (),
        other => panic!("unexpected: {:?}", other),
    }
    match dir.id().duplicate() {
        ArchiveNameOrDirPath::ArchiveName(n) => assert_eq!(n, "a"),
        other => panic!("unexpected: {:?}", other),
    }
    assert_eq!(dir.dir_path(), "/s");
}

#[test]
fn inclusions_are_resolved() {
    let incl = vec!["~/docs".to_string(), "/etc".to_string()];
    let r = resolve_inclusions("arch", &incl, &vec![false, true], Some("/home/u")).unwrap();
    assert_eq!(r, vec!["/home/u/docs".to_string(), "/etc".to_string()]);
    let bad = vec!["/etc".to_string(), "rel/path".to_string()];
    match resolve_inclusions("arch", &bad, &vec![true, true], Some("/home/u")) {
        Err(Error::RelativeIncludePath(p, n)) => {
            assert_eq!(p, "rel/path");
            assert_eq!(n, "arch");
        }
        other => panic!("unexpected: {:?}", other),
    }
}

#[test]
fn new_archive_snapshot_dir_is_placed_by_host_and_user() {
    assert_eq!(
        new_snapshot_dir_path("/data", Some("host"), Some("user"), "arch"),
        "/data/ergibus/archives/host/user/arch"
    );
    assert_eq!(new_snapshot_dir_path("/data/", None, None, "arch"), "/data/ergibus/archives/arch");
}

#[test]
fn snapshot_dir_keeps_how_it_was_located() {
    let by_path = ArchiveSnapshotDir::new(ArchiveNameOrDirPath::DirPath("./snaps".to_string()), "/home/u/snaps");
    match by_path.id() {
        ArchiveNameOrDirPath::DirPath(p) => assert_eq!(p, "./snaps"),
        other => panic!("unexpected: {:?}", other),
    }
    assert_eq!(by_path.dir_path(), "/home/u/snaps");
    let by_name = ArchiveSnapshotDir::new(ArchiveNameOrDirPath::ArchiveName("docs".to_string()), "/s/docs");
    match by_name.id() {
        ArchiveNameOrDirPath::ArchiveName(n) => assert_eq!(n, "docs"),
        other => panic!("unexpected: {:?}", other),
    }
}
