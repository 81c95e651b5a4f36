use ergibus::cli::{delete_choice, snapshot_dir_id, BackUp, DeleteChoice};
use ergibus::config::{abs_default_config_dir_path, get_archive_config_dir_path, get_config_dir_path, get_gui_config_dir_path, is_config_known, ConfigEnv};
use ergibus::content::{content_repo_exists, get_repo_spec_file_path, repo_dir_path};
use ergibus::archive::{get_archive_spec_file_path, ArchiveNameOrDirPath};
use ergibus::errors::Error;

fn env(override_dir: Option<&str>) -> ConfigEnv {
    ConfigEnv {
        override_dir: override_dir.map(|s| s.to_string()),
        config_dir: Some("/home/u/.config".to_string()),
        home_dir: Some("/home/u".to_string()),
    }
}

#[test]
fn get_config_dir_works() {
    let new_path = "./TEST/config";
    let e = env(Some(new_path));
    assert_eq!(get_config_dir_path(&e), new_path);
    assert_eq!(get_archive_config_dir_path(&e), join_text(new_path, "archives"));
    let e = env(Some(""));
    assert_eq!(get_config_dir_path(&e), abs_default_config_dir_path(&e));
    assert_eq!(get_archive_config_dir_path(&e), join_text(&abs_default_config_dir_path(&e), "archives"));
}

fn join_text(a: &str, b: &str) -> String {
    format!("{}/{}", a, b)
}

#[test]
fn config_dir_defaults_and_home() {
    assert_eq!(get_config_dir_path(&env(None)), "/home/u/.config/ergibus");
    let no_config = ConfigEnv { override_dir: None, config_dir: None, home_dir: Some("/home/u".to_string()) };
    assert_eq!(get_config_dir_path(&no_config), "/home/u/.config/ergibus");
    assert_eq!(get_config_dir_path(&env(Some("~/cfg"))), "/home/u/cfg");
    assert_eq!(get_gui_config_dir_path(&env(Some("/c"))), "/c/gui");
    assert_eq!(get_archive_spec_file_path(&env(Some("/c")), "arch"), "/c/archives/arch");
    assert_eq!(get_repo_spec_file_path(&env(Some("/c")), "repo"), "/c/repos/repo");
    assert_eq!(repo_dir_path("/data", "repo"), "/data/ergibus/repos/repo");
    assert!(content_repo_exists(&env(Some("/c")), "repo", &|p: &str| p == "/c/repos/repo"));
    assert!(!content_repo_exists(&env(Some("/c")), "other", &|p: &str| p == "/c/repos/repo"));
}

#[test]
fn command_choices() {
    assert_eq!(delete_choice(Some(3), Some(1)), Some(DeleteChoice::AllButNewest(3)));
    assert_eq!(delete_choice(None, Some(-1)), Some(DeleteChoice::BackN(-1)));
    assert_eq!(delete_choice(None, None), None);
    match snapshot_dir_id(&None, &Some("/d".to_string())) {
        Some(ArchiveNameOrDirPath::DirPath(p)) => assert_eq!(p, "/d"),
        other => panic!("unexpected: {:?}", other),
    }
    assert!(snapshot_dir_id(&None, &None).is_none());
    assert!(BackUp::outcome(0).is_ok());
    match BackUp::outcome(2) {
        Err(Error::SnapshotsFailed(2)) => (),
        other => panic!("unexpected: {:?}", other),
    }
}

#[test]
fn config_dir_is_known_only_where_it_can_be_found() {
    assert!(is_config_known(&env(None)));
    assert!(is_config_known(&env(Some("/c"))));
    assert!(is_config_known(&env(Some("~/cfg"))));
    assert!(!is_config_known(&env(Some("~x/cfg"))));
    let nothing = ConfigEnv { override_dir: None, config_dir: None, home_dir: None };
    assert!(!is_config_known(&nothing));
    let tilde_no_home = ConfigEnv { override_dir: Some("~/cfg".to_string()), config_dir: None, home_dir: None };
    assert!(!is_config_known(&tilde_no_home));
    let empty_override = ConfigEnv { override_dir: Some(String::new()), config_dir: Some("/k".to_string()), home_dir: None };
    assert!(is_config_known(&empty_override));
}
