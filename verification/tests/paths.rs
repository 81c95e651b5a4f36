use ergibus::lib_path_ext;
use ergibus::path_ext::{absolute_path_buf, expand_current_dir, expand_home_dir, expand_parent_dir, parent, prepend_current_dir, Error};
use ergibus::paths::{components, file_name, is_absolute, join, plain_name, Component, PathType};

#[test]
fn home_path_expansions() {
    let home_dir = "/home/tester";
    assert!(expand_home_dir("/home/dir", Some(home_dir)).is_err());
    assert_eq!(expand_home_dir("~/whatever", Some(home_dir)).unwrap(), join(home_dir, "whatever"));
    assert_eq!(absolute_path_buf("~/whatever", Ok("/cwd"), Some(home_dir)).unwrap(), join(home_dir, "whatever"));
    assert_eq!(expand_home_dir("~/whatever", None), Err(Error::CouldNotFindHome));
}

#[test]
fn cur_path_expansions() {
    let cur_dir = "/work/place";
    assert!(expand_current_dir("/home/dir", Ok(cur_dir)).is_err());
    assert_eq!(expand_current_dir("./whatever", Ok(cur_dir)).unwrap(), join(cur_dir, "whatever"));
    assert_eq!(absolute_path_buf("./whatever", Ok(cur_dir), None).unwrap(), join(cur_dir, "whatever"));
    assert!(prepend_current_dir("/home/dir", Ok(cur_dir)).is_err());
    assert_eq!(prepend_current_dir("whatever", Ok(cur_dir)).unwrap(), join(cur_dir, "whatever"));
    assert_eq!(absolute_path_buf("whatever", Ok(cur_dir), None).unwrap(), join(cur_dir, "whatever"));
}

#[test]
fn parent_path_expansions() {
    let cur_dir = "/work/place";
    let parent_dir = parent(cur_dir).unwrap();
    assert!(expand_parent_dir("/home/dir", Ok(cur_dir)).is_err());
    assert_eq!(expand_parent_dir("../whatever", Ok(cur_dir)).unwrap(), join(&parent_dir, "whatever"));
    assert_eq!(absolute_path_buf("../whatever", Ok(cur_dir), None).unwrap(), join(&parent_dir, "whatever"));
}

#[test]
fn expansion_failures_are_reported() {
    assert_eq!(expand_parent_dir("../x", Ok("/")), Err(Error::CouldNotFindParent));
    assert_eq!(
        expand_current_dir("./x", Err(ergibus::errors::IoErrorKind::NotFound)),
        Err(Error::IOError(ergibus::errors::IoErrorKind::NotFound))
    );
    assert_eq!(prepend_current_dir("~/x", Ok("/c")), Err(Error::UnexpectedPrefix));
    assert_eq!(absolute_path_buf("", Ok("/c"), None).unwrap(), "/c");
    assert_eq!(absolute_path_buf("/abs", Ok("/c"), None).unwrap(), "/abs");
}

#[test]
fn path_types_follow_the_first_component() {
    assert_eq!(PathType::of("/a/b"), PathType::Absolute);
    assert_eq!(PathType::of("./a"), PathType::RelativeCurDir);
    assert_eq!(PathType::of("../a"), PathType::RelativeParentDir);
    assert_eq!(PathType::of("~/a"), PathType::RelativeHomeDir);
    assert_eq!(PathType::of("a/b"), PathType::RelativeCurDirImplicit);
    assert_eq!(PathType::of(""), PathType::Empty);
}

#[test]
fn components_are_normalised() {
    assert_eq!(
        components("/a//b/./c/"),
        vec![
            Component::RootDir,
            Component::Normal("a".to_string()),
            Component::Normal("b".to_string()),
            Component::Normal("c".to_string())
        ]
    );
    assert_eq!(components("./x/.."), vec![Component::CurDir, Component::Normal("x".to_string()), Component::ParentDir]);
    assert_eq!(file_name("/a/b.txt"), Some("b.txt".to_string()));
    assert_eq!(file_name("/a/.."), None);
    assert!(is_absolute("/x"));
    assert!(!is_absolute("x"));
    assert_eq!(join("/a", "b"), "/a/b");
    assert_eq!(join("/a/", "b"), "/a/b");
    assert_eq!(join("/a", "/b"), "/b");
    assert!(plain_name("abc"));
    assert!(!plain_name(".."));
    assert!(!plain_name("a/b"));
    assert_eq!(parent("/"), None);
    assert_eq!(parent("/a"), Some("/".to_string()));
}

#[test]
fn library_path_helpers() {
    assert_eq!(lib_path_ext::first_subpath_as_os_string("/./a/b"), Some("a".to_string()));
    assert_eq!(lib_path_ext::first_subpath_as_os_string("/"), None);
    assert_eq!(lib_path_ext::expand_home_dir("~/x", false, Some("/h")), Some("/h/x".to_string()));
    assert_eq!(lib_path_ext::expand_home_dir("~/x", true, Some("/h")), None);
    assert_eq!(lib_path_ext::expand_home_dir("/abs", true, None), Some("/abs".to_string()));
    assert_eq!(lib_path_ext::absolute_path_buf("./a", "/c"), "/c/a");
    assert_eq!(lib_path_ext::absolute_path_buf("a", "/c"), "/c/a");
    assert_eq!(lib_path_ext::absolute_path_buf("", "/c"), "/c");
}
