use latex_tree::paths::{base_name_str, find_last_dot};
use latex_tree::tree::{classify_image, Tree, TreeError};

#[test]
fn section_is_base_name() {
    assert_eq!(Tree::new("root/x").section(), "x");
}

#[test]
fn section_without_separator_is_whole_path() {
    assert_eq!(Tree::new("noslash").section(), "noslash");
}

#[test]
fn section_of_trailing_separator_is_empty() {
    assert_eq!(Tree::new("ends/").section(), "");
}

#[test]
fn section_of_empty_path_is_empty() {
    assert_eq!(Tree::new("").section(), "");
}

#[test]
fn base_name_str_nested() {
    assert_eq!(base_name_str("a/b/c.png"), "c.png");
}

#[test]
fn find_last_dot_picks_last() {
    assert_eq!(find_last_dot("a.tar.gz"), Some(5));
    assert_eq!(find_last_dot("nodots"), None);
}

#[test]
fn classify_recognizes_jpg() {
    let r = classify_image("dir/b.jpg");
    assert!(matches!(r, Ok(Some(s)) if s.as_str() == "dir/b"));
}

#[test]
fn classify_recognizes_png() {
    let r = classify_image("dir/c.png");
    assert!(matches!(r, Ok(Some(s)) if s.as_str() == "dir/c"));
}

#[test]
fn classify_ignores_other_extension() {
    assert!(matches!(classify_image("dir/c.txt"), Ok(None)));
}

#[test]
fn classify_is_case_sensitive() {
    assert!(matches!(classify_image("dir/c.JPG"), Ok(None)));
}

#[test]
fn classify_uses_last_extension_only() {
    assert!(matches!(classify_image("dir/a.tar.gz"), Ok(None)));
}

#[test]
fn classify_empty_extension_is_ignored() {
    assert!(matches!(classify_image("dir/a."), Ok(None)));
}

#[test]
fn classify_rejects_missing_extension() {
    let r = classify_image("dir/noext");
    assert!(matches!(r, Err(TreeError::MissingExtension(p)) if p.as_str() == "dir/noext"));
}

#[test]
fn classify_rejects_leading_dot_only() {
    let r = classify_image("dir/.hidden");
    assert!(matches!(r, Err(TreeError::MissingExtension(p)) if p.as_str() == "dir/.hidden"));
}
