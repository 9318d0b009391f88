use latex_tree::tree::{visit_dirs, DirEntry, EntryKind, Tree, TreeError};

fn entry(path: &str, kind: EntryKind) -> DirEntry {
    DirEntry { path: path.to_string(), kind }
}

#[test]
fn mixed_listing_filters_and_strips() {
    let entries = vec![
        entry("r/sub", EntryKind::Directory),
        entry("r/a.png", EntryKind::File),
        entry("r/skip.txt", EntryKind::File),
        entry("r/link", EntryKind::Other),
    ];
    let children = vec![Tree::new("r/sub")];
    let mut tree = Tree::new("r");
    let r = visit_dirs(&entries, children, &mut tree);
    assert!(r.is_ok());
    assert_eq!(tree.items.len(), 1);
    assert_eq!(tree.items[0].as_str(), "r/a");
    assert_eq!(tree.children.len(), 1);
    assert_eq!(tree.children[0].root.as_str(), "r/sub");
}

#[test]
fn items_keep_listing_order() {
    let entries = vec![
        entry("r/b.jpg", EntryKind::File),
        entry("r/a.png", EntryKind::File),
        entry("r/c.jpg", EntryKind::File),
    ];
    let mut tree = Tree::new("r");
    assert!(visit_dirs(&entries, vec![], &mut tree).is_ok());
    let got: Vec<&str> = tree.items.iter().map(|s| s.as_str()).collect();
    assert_eq!(got, vec!["r/b", "r/a", "r/c"]);
}

#[test]
fn missing_extension_fails_and_leaves_tree_untouched() {
    let entries = vec![
        entry("r/ok.png", EntryKind::File),
        entry("r/noext", EntryKind::File),
    ];
    let mut tree = Tree::new("r");
    let r = visit_dirs(&entries, vec![], &mut tree);
    assert!(matches!(r, Err(TreeError::MissingExtension(p)) if p.as_str() == "r/noext"));
    assert!(tree.items.is_empty());
    assert!(tree.children.is_empty());
}

#[test]
fn first_missing_extension_is_reported() {
    let entries = vec![
        entry("r/first", EntryKind::File),
        entry("r/second", EntryKind::File),
    ];
    let mut tree = Tree::new("r");
    let r = visit_dirs(&entries, vec![], &mut tree);
    assert!(matches!(r, Err(TreeError::MissingExtension(p)) if p.as_str() == "r/first"));
}

#[test]
fn extensionless_directory_is_fine() {
    let entries = vec![entry("r/sub", EntryKind::Directory)];
    let mut tree = Tree::new("r");
    assert!(visit_dirs(&entries, vec![Tree::new("r/sub")], &mut tree).is_ok());
    assert_eq!(tree.children.len(), 1);
}

#[test]
fn visit_appends_to_existing_node() {
    let mut tree = Tree::new("r");
    let first = vec![entry("r/a.png", EntryKind::File)];
    assert!(visit_dirs(&first, vec![], &mut tree).is_ok());
    let second = vec![entry("r/b.jpg", EntryKind::File)];
    assert!(visit_dirs(&second, vec![], &mut tree).is_ok());
    let got: Vec<&str> = tree.items.iter().map(|s| s.as_str()).collect();
    assert_eq!(got, vec!["r/a", "r/b"]);
}
