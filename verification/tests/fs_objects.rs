use ergibus::attributes::{Attributes, AttributesIfce};
use ergibus::errors::Error;
use ergibus::fs_objects::{
    file_stats_for, sym_link_stats_for, DirectoryData, EntryType, ExtractionStats, FileData, FileStats,
    FileSystemObject, PopulateStep, PopulateTotals, SymLinkData, SymLinkStats,
};
use ergibus::report::ignore_report_or_fail;
use ergibus::errors::IoErrorKind;

fn attrs(size: u64) -> Attributes {
    let mut a = Attributes::default();
    a.st_size = size;
    a
}

#[test]
fn contents_stay_sorted_and_unique() {
    let mut d = DirectoryData::new("/top", attrs(0));
    assert!(d.insert_object(FileSystemObject::File(FileData::new("b", attrs(1), "t1"))));
    assert!(d.insert_object(FileSystemObject::File(FileData::new("a", attrs(2), "t2"))));
    assert!(d.insert_object(FileSystemObject::SymLink(SymLinkData::new("c", attrs(3), "/x"), true)));
    assert!(!d.insert_object(FileSystemObject::File(FileData::new("a", attrs(9), "t9"))));
    let names: Vec<String> = d.contents().iter().map(|o| o.name()).collect();
    assert_eq!(names, vec!["a".to_string(), "b".to_string(), "c".to_string()]);
    assert_eq!(d.index_for("b"), Ok(1));
    assert_eq!(d.index_for("bb"), Err(2));
    assert_eq!(d.get_file("a").unwrap().content_token(), "t2");
    assert!(d.get_file("c").is_none());
    assert!(d.get_directory("a").is_none());
}

#[test]
fn subdirectories_are_found_by_path() {
    let mut root = DirectoryData::new("/", attrs(0));
    let mut etc = root.new_child("etc", attrs(0)).unwrap();
    assert!(root.new_child("a/b", attrs(0)).is_none());
    assert_eq!(etc.path(), "/etc");
    assert!(etc.insert_object(FileSystemObject::File(FileData::new("hosts", attrs(7), "h"))));
    assert!(root.insert_object(FileSystemObject::Directory(etc)));
    assert_eq!(root.find_subdir("/etc").unwrap().path(), "/etc");
    assert_eq!(root.find_subdir("/").unwrap().path(), "/");
    match root.find_subdir("/usr") {
        Err(Error::SnapshotUnknownDirectory(p)) => assert_eq!(p, "/usr"),
        other => panic!("unexpected: {:?}", other.map(|d| d.path().to_string())),
    }
    match root.find_subdir("/etc/../usr") {
        Err(Error::FSOMalformedPath(p)) => assert_eq!(p, "../usr"),
        other => panic!("unexpected: {:?}", other.map(|d| d.path().to_string())),
    }
    match root.find_subdir("relative") {
        Err(Error::SnapshotUnknownDirectory(p)) => assert_eq!(p, "relative"),
        other => panic!("unexpected: {:?}", other.map(|d| d.path().to_string())),
    }
    assert_eq!(root.find_file("/etc/hosts").unwrap().attributes().size(), 7);
    match root.find_file("/etc/passwd") {
        Err(Error::SnapshotUnknownFile(p)) => assert_eq!(p, "/etc/passwd"),
        other => panic!("unexpected: {:?}", other.map(|d| d.name().to_string())),
    }
    match root.find_file("/var/log") {
        Err(Error::SnapshotUnknownDirectory(p)) => assert_eq!(p, "/var"),
        other => panic!("unexpected: {:?}", other.map(|d| d.name().to_string())),
    }
    assert_eq!(root.base_dir().path(), "/etc");
}

#[test]
fn populate_steps_follow_what_is_recorded() {
    let mut root = DirectoryData::new("/", attrs(0));
    let sub = root.new_child("sub", attrs(0)).unwrap();
    assert!(root.insert_object(FileSystemObject::Directory(sub)));
    assert!(root.insert_object(FileSystemObject::File(FileData::new("f", attrs(1), "t"))));
    assert_eq!(root.populate_step("sub", false, EntryType::Dir), PopulateStep::Repopulate(1));
    assert_eq!(root.populate_step("sub", true, EntryType::Dir), PopulateStep::Skip);
    assert_eq!(root.populate_step("f", false, EntryType::File), PopulateStep::Skip);
    assert_eq!(root.populate_step("a", false, EntryType::File), PopulateStep::AddFile(0));
    assert_eq!(root.populate_step("g", false, EntryType::SymLink), PopulateStep::AddSymLink(1));
    assert_eq!(root.populate_step("z", false, EntryType::Dir), PopulateStep::AddDir(2));
    assert_eq!(root.populate_step("p", false, EntryType::Other), PopulateStep::Skip);
    {
        let d = root.subdir_at_mut(1).unwrap();
        assert!(d.insert_object(FileSystemObject::File(FileData::new("inner", attrs(1), "i"))));
    }
    assert!(root.subdir_at_mut(0).is_none());
    assert_eq!(root.find_file("/sub/inner").unwrap().content_token(), "i");
}

#[test]
fn stats_add_up() {
    let mut fs = FileStats::default();
    fs.add_assign(file_stats_for(&attrs(100), 40));
    fs.add_assign(file_stats_for(&attrs(20), 20));
    assert_eq!(fs, FileStats { file_count: 2, byte_count: 120, stored_byte_count: 60 });
    let mut ss = SymLinkStats::default();
    ss.add_assign(sym_link_stats_for(true));
    ss.add_assign(sym_link_stats_for(false));
    assert_eq!(ss, SymLinkStats { dir_sym_link_count: 0, file_sym_link_count: 2 });
    let es = ExtractionStats::default();
    assert_eq!(es.dir_count + es.file_count + es.bytes_count, 0);
}

#[test]
fn some_failures_are_passed_over() {
    assert!(ignore_report_or_fail(Error::FSOBrokenSymLink("/a".to_string(), "/b".to_string()), "/a").is_ok());
    assert!(ignore_report_or_fail(Error::IOError(IoErrorKind::NotFound), "/a").is_ok());
    assert!(ignore_report_or_fail(Error::IOError(IoErrorKind::PermissionDenied), "/a").is_ok());
    match ignore_report_or_fail(Error::IOError(IoErrorKind::Other), "/a") {
        Err(Error::IOError(IoErrorKind::Other)) => (),
        other => panic!("unexpected: {:?}", other),
    }
    assert!(ignore_report_or_fail(Error::NoSnapshotAvailable, "/a").is_err());
}

#[test]
fn missing_directories_are_added_on_the_way_down() {
    let mut root = DirectoryData::new("/", attrs(0));
    let stat = |p: &str| -> Result<Attributes, IoErrorKind> { Ok(attrs(p.len() as u64)) };
    assert!(root.find_or_add_subdir("/home/peter/TEST", &stat).is_ok());
    assert_eq!(root.find_subdir("/home/peter/TEST").unwrap().path(), "/home/peter/TEST");
    assert_eq!(root.find_subdir("/home").unwrap().attributes().size(), 5);
    assert!(root.find_or_add_subdir("/home/peter", &stat).is_ok());
    assert_eq!(root.contents().len(), 1);
    match root.find_or_add_subdir("/home/../x", &stat) {
        Err(Error::FSOMalformedPath(p)) => assert_eq!(p, "../x"),
        other => panic!("unexpected: {:?}", other),
    }
    let failing = |_: &str| -> Result<Attributes, IoErrorKind> { Err(IoErrorKind::NotFound) };
    match root.find_or_add_subdir("/var/log", &failing) {
        Err(Error::IOError(IoErrorKind::NotFound)) => (),
        other => panic!("unexpected: {:?}", other),
    }
    assert!(root.find_subdir("/var").is_err());
}

#[test]
fn what_is_written_through_a_found_directory_stays_at_its_path() {
    let mut root = DirectoryData::new("/", attrs(0));
    let stat = |_: &str| -> Result<Attributes, IoErrorKind> { Ok(attrs(0)) };
    assert!(root.find_or_add_subdir("/home/peter", &stat).is_ok());
    match root.find_subdir_mut("/home/peter") {
        Some(dir) => {
            assert_eq!(dir.path(), "/home/peter");
            assert!(dir.insert_object(FileSystemObject::File(FileData::new("notes", attrs(4), "n"))));
        }
        None => panic!("directory not found"),
    }
    assert_eq!(root.find_file("/home/peter/notes").unwrap().content_token(), "n");
    assert!(root.find_subdir_mut("/home/paul").is_none());
    assert!(root.find_subdir_mut("/home/../x").is_none());
    assert_eq!(root.find_subdir_mut("/").unwrap().path(), "/");
    assert_eq!(root.contents().len(), 1);
}

#[test]
fn objects_are_shown_by_kind() {
    let mut d = DirectoryData::new("/top", attrs(0));
    let sub = d.new_child("sub", attrs(0)).unwrap();
    let dir_object = FileSystemObject::Directory(sub);
    assert_eq!(dir_object.display_text(), "sub/");
    let link = FileSystemObject::SymLink(SymLinkData::new("ln", attrs(0), "/target"), false);
    assert_eq!(link.display_text(), "ln -> /target");
    assert!(link.get_dir_sym_link_data().is_some());
    assert!(link.get_file_sym_link_data().is_none());
    let file = FileSystemObject::File(FileData::new("f", attrs(0), "t"));
    assert_eq!(file.display_text(), "f");
    assert!(d.insert_object(dir_object));
    assert!(d.insert_object(link));
    assert!(d.insert_object(file));
    assert_eq!(d.dir_sym_links().len(), 1);
    assert_eq!(d.file_sym_links().len(), 0);
    assert_eq!(d.files().len(), 1);
    assert_eq!(d.subdirs().len(), 1);
}

#[test]
fn copies_visit_subdirectories_in_order() {
    let mut root = DirectoryData::new("/r", attrs(0));
    let mut a = root.new_child("a", attrs(0)).unwrap();
    let a1 = a.new_child("a1", attrs(0)).unwrap();
    assert!(a.insert_object(FileSystemObject::Directory(a1)));
    let mut b = root.new_child("b", attrs(0)).unwrap();
    let b1 = b.new_child("b1", attrs(0)).unwrap();
    assert!(b.insert_object(FileSystemObject::Directory(b1)));
    assert!(root.insert_object(FileSystemObject::Directory(a)));
    assert!(root.insert_object(FileSystemObject::Directory(b)));
    let order: Vec<&str> = root.subdir_iter(true).iter().map(|d| d.path()).collect();
    assert_eq!(order, vec!["/r/a", "/r/b", "/r/b/b1", "/r/a/a1"]);
    let direct: Vec<&str> = root.subdir_iter(false).iter().map(|d| d.path()).collect();
    assert_eq!(direct, vec!["/r/a", "/r/b"]);
    assert_eq!(root.copy_target_path("/r/b/b1", "/out"), "/out/b/b1");
    assert_eq!(root.copy_target_path("/r", "/out"), "/out/");
}

#[test]
fn populate_totals_add_up() {
    let mut t = PopulateTotals::new();
    let fs = FileStats { file_count: 1, byte_count: 10, stored_byte_count: 4 };
    let ss = SymLinkStats { dir_sym_link_count: 1, file_sym_link_count: 2 };
    assert!(t.fits(fs, ss, 7));
    t.add(fs, ss, 7);
    t.add(fs, SymLinkStats::default(), 3);
    assert_eq!(t.file_stats, FileStats { file_count: 2, byte_count: 20, stored_byte_count: 8 });
    assert_eq!(t.sym_link_stats, ss);
    assert_eq!(t.delta_repo_size, 10);
    assert!(!t.fits(FileStats { file_count: u64::MAX, byte_count: 0, stored_byte_count: 0 }, ss, 0));
}

#[test]
fn recorded_files_stay_when_directories_are_added() {
    let mut root = DirectoryData::new("/", attrs(0));
    let stat = |_: &str| -> Result<Attributes, IoErrorKind> { Ok(attrs(0)) };
    assert!(root.find_or_add_subdir("/home", &stat).is_ok());
    assert!(root.find_subdir_mut("/home").unwrap().insert_object(FileSystemObject::File(FileData::new("a", attrs(1), "t"))));
    assert!(root.find_or_add_subdir("/home/peter/TEST", &stat).is_ok());
    assert_eq!(root.find_file("/home/a").unwrap().content_token(), "t");
    assert_eq!(root.find_subdir("/home").unwrap().contents().len(), 2);
}

#[test]
fn added_directories_take_what_stat_gives_for_their_own_paths() {
    let mut root = DirectoryData::new("/", attrs(0));
    let stat = |p: &str| -> Result<Attributes, IoErrorKind> { Ok(attrs(p.len() as u64)) };
    assert!(root.find_or_add_subdir("/home/peter", &stat).is_ok());
    assert_eq!(root.find_subdir("/home").unwrap().attributes().size(), 5);
    assert_eq!(root.find_subdir("/home/peter").unwrap().attributes().size(), 11);
    let failing = |_: &str| -> Result<Attributes, IoErrorKind> { Err(IoErrorKind::PermissionDenied) };
    assert!(root.find_or_add_subdir("/home/peter", &failing).is_ok());
    let picky = |p: &str| -> Result<Attributes, IoErrorKind> {
        if p == "/var/log" { Err(IoErrorKind::NotFound) } else { Ok(attrs(1)) }
    };
    match root.find_or_add_subdir("/var/log/x", &picky) {
        Err(Error::IOError(IoErrorKind::NotFound)) => (),
        other => panic!("unexpected: {:?}", other),
    }
    assert!(root.find_subdir("/var").is_ok());
    assert!(root.find_subdir("/var/log").is_err());
}
