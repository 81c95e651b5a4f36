use ergibus::attributes::Attributes;
use ergibus::errors::{Error, IoErrorKind};
use ergibus::fs_objects::{DirectoryData, FileData, FileSystemObject, FileStats, SymLinkStats};
use ergibus::snapshot::{snapshot_names_in_order, Order, SnapshotNameMatcher, SnapshotPersistentData, SnapshotStats};

#[test]
fn test_ssf_regex() {
    let re = SnapshotNameMatcher::new().unwrap();
    assert!(re.is_match("1027-09-14-20-20-59-1000"));
    assert!(re.is_match("1027-09-14-20-20-59+1000"));
}

#[test]
fn snapshot_names_must_be_whole() {
    let re = SnapshotNameMatcher::new().unwrap();
    assert!(!re.is_match("1027-09-14-20-20-59"));
    assert!(!re.is_match("x1027-09-14-20-20-59+1000"));
    assert!(!re.is_match("1027-09-14-20-20-59*1000"));
}

#[test]
fn snapshot_names_are_listed_in_order() {
    let re = SnapshotNameMatcher::new().unwrap();
    let entries = vec![
        ("2021-01-02-00-00-00+1000".to_string(), true),
        ("notes.txt".to_string(), true),
        ("2020-05-06-07-08-09+1000".to_string(), true),
        ("2022-01-01-00-00-00+1000".to_string(), false),
        ("2021-12-31-23-59-59-0100".to_string(), true),
    ];
    let asc = snapshot_names_in_order(&re, &entries, Order::Ascending);
    assert_eq!(
        asc,
        vec![
            "2020-05-06-07-08-09+1000".to_string(),
            "2021-01-02-00-00-00+1000".to_string(),
            "2021-12-31-23-59-59-0100".to_string()
        ]
    );
    let desc = snapshot_names_in_order(&re, &entries, Order::Descending);
    assert_eq!(
        desc,
        vec![
            "2021-12-31-23-59-59-0100".to_string(),
            "2021-01-02-00-00-00+1000".to_string(),
            "2020-05-06-07-08-09+1000".to_string()
        ]
    );
    assert!(Order::Ascending.is_ascending());
    assert!(!Order::Ascending.is_descending());
    assert!(Order::Descending.is_descending());
}

fn tree() -> DirectoryData {
    let mut root = DirectoryData::new("/", Attributes::default());
    let mut home = root.new_child("home", Attributes::default()).unwrap();
    let mut user = home.new_child("user", Attributes::default()).unwrap();
    assert!(user.insert_object(FileSystemObject::File(FileData::new("notes", Attributes::default(), "tok1"))));
    assert!(home.insert_object(FileSystemObject::Directory(user)));
    assert!(root.insert_object(FileSystemObject::Directory(home)));
    root
}

#[test]
fn persistent_data_finds_relative_paths_from_base() {
    let mut spd = SnapshotPersistentData::new(tree(), "arch");
    assert_eq!(spd.base_dir_path(), "/");
    spd.settle_base_dir();
    assert_eq!(spd.base_dir_path(), "/home/user");
    assert_eq!(spd.archive_name(), "arch");
    let f = spd.find_file("notes", Ok("/tmp"), Some("/home/user")).unwrap();
    assert_eq!(f.content_token(), "tok1");
    let f = spd.find_file("~/notes", Ok("/tmp"), Some("/home/user")).unwrap();
    assert_eq!(f.name(), "notes");
    assert_eq!(spd.find_subdir("", Ok("/tmp"), None).unwrap().path(), "/home/user");
    assert_eq!(spd.find_subdir("..", Ok("/home/user/x"), None).unwrap().path(), "/home/user");
    match spd.find_subdir("~/x", Ok("/tmp"), None) {
        Err(Error::SnapshotUnknownDirectory(p)) => assert_eq!(p, "~/x"),
        other => panic!("unexpected: {:?}", other.map(|d| d.path().to_string())),
    }
    match spd.find_file("", Ok("/tmp"), None) {
        Err(Error::SnapshotUnknownFile(p)) => assert_eq!(p, ""),
        other => panic!("unexpected: {:?}", other.map(|d| d.name().to_string())),
    }
    match spd.find_file("/home/user/missing", Err(IoErrorKind::Other), None) {
        Err(Error::SnapshotUnknownFile(p)) => assert_eq!(p, "/home/user/missing"),
        other => panic!("unexpected: {:?}", other.map(|d| d.name().to_string())),
    }
}

#[test]
fn snapshot_stats_are_added() {
    let mut spd = SnapshotPersistentData::new(tree(), "arch");
    spd.add_stats(
        FileStats { file_count: 2, byte_count: 10, stored_byte_count: 5 },
        SymLinkStats { dir_sym_link_count: 1, file_sym_link_count: 3 },
    );
    spd.add_stats(
        FileStats { file_count: 1, byte_count: 1, stored_byte_count: 1 },
        SymLinkStats { dir_sym_link_count: 0, file_sym_link_count: 1 },
    );
    let stats = SnapshotStats::new(&spd, std::time::Duration::from_secs(3));
    assert_eq!(stats.file_stats, FileStats { file_count: 3, byte_count: 11, stored_byte_count: 6 });
    assert_eq!(stats.sym_link_stats, SymLinkStats { dir_sym_link_count: 1, file_sym_link_count: 4 });
    assert_eq!(stats.creation_duration, std::time::Duration::from_secs(3));
}

#[test]
fn snapshot_files_read_back_what_was_written() {
    let json = "{\"archive_name\":\"docs\"}";
    let bytes = ergibus::snapshot_file::snapshot_bytes(json, "/s/2021").unwrap();
    assert_ne!(bytes, json.as_bytes().to_vec());
    assert_eq!(ergibus::snapshot_file::snapshot_text(&bytes, "/s/2021").unwrap(), json);
    match ergibus::snapshot_file::snapshot_text(&b"hello".to_vec(), "/s/bad") {
        Err(ergibus::errors::Error::SnapshotReadIOError(ergibus::errors::IoErrorKind::Other, p)) => assert_eq!(p, "/s/bad"),
        other => panic!("unexpected: {:?}", other),
    }
}
