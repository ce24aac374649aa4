//! Path splitting.

use gridfs::path::{split_parent, split_path};
use gridfs::FsError;

#[test]
fn empty_root() {
    assert!(split_path("/").unwrap().is_empty());
}

#[test]
fn rejects_relative() {
    assert!(split_path("a/b").is_err());
}

#[test]
fn rejects_dotdot() {
    assert!(split_path("/a/../b").is_err());
}

#[test]
fn handles_double_slash() {
    assert_eq!(split_path("//a//b//").unwrap(), vec!["a", "b"]);
}

#[test]
fn parent_root() {
    assert!(split_parent("/").unwrap().is_none());
}

#[test]
fn parent_simple() {
    let (parent, name) = split_parent("/a/b").unwrap().unwrap();
    assert_eq!(parent, vec!["a"]);
    assert_eq!(name, "b");
}

#[test]
fn splits_into_components() {
    assert_eq!(split_path("/a/b/c").unwrap(), vec!["a", "b", "c"]);
    assert_eq!(split_path("/").unwrap(), Vec::<String>::new());
    assert_eq!(split_path("/grün/né").unwrap(), vec!["grün", "né"]);
}

#[test]
fn rejections_name_the_path() {
    for bad in ["", "a", "/.", "/a/./b", "/..", " /a"] {
        match split_path(bad) {
            Err(FsError::InvalidPath(p)) => assert_eq!(p, bad),
            other => panic!("{:?} for {:?}", other, bad),
        }
    }
    assert!(split_path("/...").is_ok());
    assert!(split_path("/.a").is_ok());
}

#[test]
fn components_have_at_most_255_bytes() {
    let longest = format!("/{}", "x".repeat(255));
    assert_eq!(split_path(&longest).unwrap(), vec!["x".repeat(255)]);
    assert!(split_path(&format!("/{}", "x".repeat(256))).is_err());
    // 128 characters of two bytes each are one byte too many.
    assert!(split_path(&format!("/{}", "é".repeat(127))).is_ok());
    assert!(split_path(&format!("/{}", "é".repeat(128))).is_err());
}

#[test]
fn joined_names_split_again() {
    let names = vec!["usr", "share", "doc"];
    let path = format!("/{}", names.join("/"));
    assert_eq!(split_path(&path).unwrap(), names);
    let (parent, name) = split_parent(&path).unwrap().unwrap();
    assert_eq!(parent, vec!["usr", "share"]);
    assert_eq!(name, "doc");
}

#[test]
fn parents_of_bad_paths_are_errors() {
    assert!(matches!(
        split_parent("x/y"),
        Err(FsError::InvalidPath(p)) if p == "x/y"
    ));
}
