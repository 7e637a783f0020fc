use wasm_bundle::error::BundleError;
use wasm_bundle::paths::{ancestors_ok, entry_name, entry_names, read_paths, strip_prefix, NodeKind, PathInfo};

fn lines(v: &[&str]) -> Vec<Vec<u8>> {
    v.iter().map(|s| s.as_bytes().to_vec()).collect()
}

#[test]
fn paths_are_split_by_line() {
    assert_eq!(read_paths(b"a\nb/c\n"), lines(&["a", "b/c"]));
    assert_eq!(read_paths(b"a\r\nb"), lines(&["a", "b"]));
    assert_eq!(read_paths(b"a\n\nb\n"), lines(&["a", "", "b"]));
}

#[test]
fn empty_input_has_no_paths() {
    assert_eq!(read_paths(b""), lines(&[]));
    assert_eq!(read_paths(b"\n"), lines(&[""]));
}

#[test]
fn prefix_is_stripped() {
    assert_eq!(strip_prefix(b"/a/b/c.txt", b"/a/").unwrap(), b"b/c.txt".to_vec());
    assert_eq!(strip_prefix(b"/a/b", b"").unwrap(), b"/a/b".to_vec());
    assert_eq!(strip_prefix(b"/a/b", b"/a/b").unwrap(), b"".to_vec());
}

#[test]
fn missing_prefix_is_refused() {
    assert_eq!(strip_prefix(b"/x/b/c.txt", b"/a/"), Err(BundleError::PrefixMismatch));
    assert_eq!(strip_prefix(b"/a", b"/a/"), Err(BundleError::PrefixMismatch));
}

#[test]
fn entry_name_strips_prefix() {
    let kinds = [NodeKind::File, NodeKind::Dir, NodeKind::Dir, NodeKind::Dir];
    assert_eq!(entry_name(b"/a/b/c.txt", b"/a/", &kinds).unwrap(), b"b/c.txt".to_vec());
    assert_eq!(entry_name(b"/q/b/c.txt", b"/a/", &kinds), Err(BundleError::PrefixMismatch));
}

#[test]
fn bad_ancestor_is_refused() {
    let missing_parent = [NodeKind::Missing, NodeKind::Missing, NodeKind::Dir];
    assert_eq!(entry_name(b"/a/b", b"/a/", &missing_parent), Err(BundleError::NotFileOrDir));
    let special = [NodeKind::File, NodeKind::Other, NodeKind::Dir];
    assert_eq!(entry_name(b"/a/b", b"/a/", &special), Err(BundleError::NotFileOrDir));
    // The ancestors are checked before the prefix.
    assert_eq!(entry_name(b"/z/b", b"/a/", &special), Err(BundleError::NotFileOrDir));
    assert!(!ancestors_ok(&[NodeKind::Dir, NodeKind::Other]));
    assert!(ancestors_ok(&[NodeKind::File, NodeKind::Dir]));
    assert!(ancestors_ok(&[]));
}

#[test]
fn entry_names_keep_order() {
    let paths = vec![
        PathInfo { path: b"/p/one".to_vec(), ancestors: vec![NodeKind::File, NodeKind::Dir, NodeKind::Dir] },
        PathInfo { path: b"/p/d".to_vec(), ancestors: vec![NodeKind::Dir, NodeKind::Dir, NodeKind::Dir] },
    ];
    assert_eq!(entry_names(&paths, b"/p/").unwrap(), lines(&["one", "d"]));
}

#[test]
fn entry_names_stop_at_first_refusal() {
    let paths = vec![
        PathInfo { path: b"/p/one".to_vec(), ancestors: vec![NodeKind::File, NodeKind::Dir] },
        PathInfo { path: b"/q/two".to_vec(), ancestors: vec![NodeKind::File, NodeKind::Dir] },
        PathInfo { path: b"/p/three".to_vec(), ancestors: vec![NodeKind::Missing, NodeKind::Dir] },
    ];
    assert_eq!(entry_names(&paths, b"/p/"), Err(BundleError::PrefixMismatch));
}
