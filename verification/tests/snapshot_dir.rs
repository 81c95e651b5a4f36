use ergibus::errors::IoErrorKind;
use ergibus::paths::first_component_name;
use ergibus::snapshot_dir::{classify_entry, EntryKind, SnapshotDir};

#[test]
fn first_component_name_works() {
    assert_eq!("first", first_component_name("first/second"));
    assert_ne!("second", first_component_name("first/second"))
}

fn dir_stat(_path: &str) -> Result<u32, IoErrorKind> {
    Ok(0o40755)
}

#[test]
fn find_subdir_works() {
    // The tree below /home/peter/TEST, as its directories are read.
    let mut sd = SnapshotDir::new_empty("/home/peter/TEST", 0o40755);
    let mut patch_diff = SnapshotDir::new_empty("/home/peter/TEST/patch_diff", 0o40755);
    let gui = SnapshotDir::new_empty("/home/peter/TEST/patch_diff/gui", 0o40755);
    assert!(patch_diff.insert_subdir("gui", gui));
    assert!(sd.insert_subdir("patch_diff", patch_diff));
    let sdp = "/home/peter";
    assert!(sd.find_subdir(sdp).is_none());
    let sdp1 = "/home/peter/TEST/patch_diff/gui";
    assert!(sd.find_subdir(sdp1).is_some());
}

#[test]
fn find_or_add_subdir_works() {
    let mut sd = SnapshotDir::new_empty("/", 0o40755);
    let p = "/home/peter/TEST";
    {
        let ssd = sd.find_or_add_subdir(p, &dir_stat);
        assert!(ssd.is_ok());
        let ssd = ssd.unwrap();
        assert!(ssd.path() == p);
    }
    let ssd = sd.find_subdir(p);
    assert!(ssd.unwrap().path() == p);
}

#[test]
fn find_or_add_subdir_reports_stat_failure() {
    let mut sd = SnapshotDir::new_empty("/", 0o40755);
    let failing = |_: &str| -> Result<u32, IoErrorKind> { Err(IoErrorKind::PermissionDenied) };
    let r = sd.find_or_add_subdir("/home", &failing);
    assert_eq!(r.err(), Some(IoErrorKind::PermissionDenied));
    assert!(sd.find_subdir("/home").is_none());
}

#[test]
fn added_subdirs_keep_their_modes_and_parents() {
    let mut sd = SnapshotDir::new_empty("/", 0o40700);
    let stat = |p: &str| -> Result<u32, IoErrorKind> { if p == "/a" { Ok(1) } else { Ok(2) } };
    assert!(sd.find_or_add_subdir("/a/b", &stat).is_ok());
    assert_eq!(sd.find_subdir("/a").unwrap().attributes().st_mode, 1);
    assert_eq!(sd.find_subdir("/a/b").unwrap().attributes().st_mode, 2);
    assert_eq!(sd.attributes().st_mode, 0o40700);
    assert!(sd.find_subdir("/a/c").is_none());
}

#[test]
fn entries_are_classified_by_kind() {
    assert_eq!(classify_entry(true, false), EntryKind::Subdir);
    assert_eq!(classify_entry(true, true), EntryKind::SubdirLink);
    assert_eq!(classify_entry(false, true), EntryKind::FileLink);
    assert_eq!(classify_entry(false, false), EntryKind::File);
}

#[test]
fn inserted_entries_are_kept_by_name() {
    let mut sd = SnapshotDir::new_empty("/x", 0);
    sd.insert_entry("f", EntryKind::File, "/x/f", 0o100644);
    sd.insert_entry("l", EntryKind::FileLink, "/x/l", 0o120777);
    sd.insert_entry("d", EntryKind::SubdirLink, "/x/d", 0o120777);
    sd.insert_entry("f", EntryKind::File, "/x/f", 0o100600);
    assert_eq!(sd.files().len(), 1);
    assert_eq!(sd.files()[0].0, "f");
    assert_eq!(sd.file_links().len(), 1);
    assert_eq!(sd.subdir_links().len(), 1);
    assert_eq!(sd.subdirs().len(), 0);
    let wrong = SnapshotDir::new_empty("/y/z", 0);
    assert!(!sd.insert_subdir("z", wrong));
}

#[test]
fn recorded_entries_stay_when_directories_are_added() {
    let mut sd = SnapshotDir::new_empty("/", 0o40755);
    assert!(sd.find_or_add_subdir("/home", &dir_stat).is_ok());
    sd.insert_entry("notes", EntryKind::File, "/notes", 0o100644);
    sd.insert_entry("link", EntryKind::FileLink, "/link", 0o120777);
    assert!(sd.find_or_add_subdir("/home/peter/TEST", &dir_stat).is_ok());
    assert_eq!(sd.files().len(), 1);
    assert_eq!(sd.files()[0].0, "notes");
    assert_eq!(sd.file_links().len(), 1);
    assert_eq!(sd.subdirs().len(), 1);
    assert_eq!(sd.find_subdir("/home").unwrap().subdirs().len(), 1);
}

#[test]
fn added_snapshot_directories_take_the_mode_stat_gives_for_their_paths() {
    let mut sd = SnapshotDir::new_empty("/", 0o40755);
    let stat = |p: &str| -> Result<u32, IoErrorKind> { Ok(p.len() as u32) };
    assert!(sd.find_or_add_subdir("/home/peter", &stat).is_ok());
    assert_eq!(sd.find_subdir("/home").unwrap().attributes().st_mode, 5);
    assert_eq!(sd.find_subdir("/home/peter").unwrap().attributes().st_mode, 11);
    let failing = |_: &str| -> Result<u32, IoErrorKind> { Err(IoErrorKind::PermissionDenied) };
    assert_eq!(sd.find_or_add_subdir("/home/peter", &failing).unwrap().path(), "/home/peter");
}
