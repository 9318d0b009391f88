use latex_tree::render::index_content;
use latex_tree::tree::{visit_dirs, DirEntry, EntryKind, Tree, TreeError};

fn entry(path: &str, kind: EntryKind) -> DirEntry {
    DirEntry { path: path.to_string(), kind }
}

/// Root holds `a.png` and a subdirectory `sub/` holding `b.jpg`.
#[test]
fn root_image_and_one_subdirectory() {
    let sub_entries = vec![entry("root/sub/b.jpg", EntryKind::File)];
    let mut sub = Tree::new("root/sub");
    assert!(visit_dirs(&sub_entries, vec![], &mut sub).is_ok());

    let root_entries = vec![
        entry("root/a.png", EntryKind::File),
        entry("root/sub", EntryKind::Directory),
    ];
    let mut root = Tree::new("root");
    assert!(visit_dirs(&root_entries, vec![sub], &mut root).is_ok());

    let (writes, inputs) = root.to_latex();

    let main_tex: Vec<&str> = inputs.iter().map(|s| s.as_str()).collect();
    assert_eq!(main_tex, vec!["\\input{root/sub/section.tex}"]);
    assert_eq!(index_content(&inputs).as_str(), "\\input{root/sub/section.tex}");

    assert_eq!(writes.len(), 1);
    assert_eq!(writes[0].path.as_str(), "root/sub/section.tex");
    assert_eq!(
        writes[0].content.as_str(),
        "\\section{sub}\n\\subsubsection*{b}\n\\includegraphics[width=0.65\\textwidth]{\"root/sub/b\"}"
    );

    // The image sitting directly in the root is dropped: the root itself
    // gets no section file, so nothing references it.
    assert!(!writes[0].content.contains("root/a"));
    for directive in &inputs {
        assert!(!directive.contains("root/a"));
    }
}

/// An empty root renders to an empty index and no section files.
#[test]
fn empty_root_renders_nothing() {
    let entries: Vec<DirEntry> = vec![];
    let mut root = Tree::new("root");
    assert!(visit_dirs(&entries, vec![], &mut root).is_ok());
    let (writes, inputs) = root.to_latex();
    assert!(writes.is_empty());
    assert!(inputs.is_empty());
    assert_eq!(index_content(&inputs).as_str(), "");
}

/// A deep chain `root/x/y/z/img.jpg` produces three chained section files.
#[test]
fn deep_chain_is_linked_by_inclusions() {
    let mut z = Tree::new("root/x/y/z");
    let z_entries = vec![entry("root/x/y/z/img.jpg", EntryKind::File)];
    assert!(visit_dirs(&z_entries, vec![], &mut z).is_ok());

    let mut y = Tree::new("root/x/y");
    let y_entries = vec![entry("root/x/y/z", EntryKind::Directory)];
    assert!(visit_dirs(&y_entries, vec![z], &mut y).is_ok());

    let mut x = Tree::new("root/x");
    let x_entries = vec![entry("root/x/y", EntryKind::Directory)];
    assert!(visit_dirs(&x_entries, vec![y], &mut x).is_ok());

    let mut root = Tree::new("root");
    let root_entries = vec![entry("root/x", EntryKind::Directory)];
    assert!(visit_dirs(&root_entries, vec![x], &mut root).is_ok());

    let (writes, inputs) = root.to_latex();

    let paths: Vec<&str> = writes.iter().map(|w| w.path.as_str()).collect();
    assert_eq!(
        paths,
        vec![
            "root/x/y/z/section.tex",
            "root/x/y/section.tex",
            "root/x/section.tex",
        ]
    );

    assert_eq!(
        writes[0].content.as_str(),
        "\\section{z}\n\\subsubsection*{img}\n\\includegraphics[width=0.65\\textwidth]{\"root/x/y/z/img\"}"
    );
    assert_eq!(
        writes[1].content.as_str(),
        "\\section{y}\n\\input{root/x/y/z/section.tex}"
    );
    assert_eq!(
        writes[2].content.as_str(),
        "\\section{x}\n\\input{root/x/y/section.tex}"
    );
    let main_tex: Vec<&str> = inputs.iter().map(|s| s.as_str()).collect();
    assert_eq!(main_tex, vec!["\\input{root/x/section.tex}"]);

    // Every inclusion directive emitted anywhere references a file that was
    // actually written.
    let mut directives: Vec<String> = inputs.clone();
    for w in &writes {
        for line in w.content.split('\n') {
            if line.starts_with("\\input{") {
                directives.push(line.to_string());
            }
        }
    }
    for d in &directives {
        let target = &d["\\input{".len()..d.len() - 1];
        assert!(writes.iter().any(|w| w.path.as_str() == target));
    }
}

/// Files with unrecognized extensions appear nowhere in the output.
#[test]
fn unrecognized_extensions_never_render() {
    let mut sub = Tree::new("root/sub");
    let sub_entries = vec![
        entry("root/sub/keep.jpg", EntryKind::File),
        entry("root/sub/notes.txt", EntryKind::File),
        entry("root/sub/vector.svg", EntryKind::File),
    ];
    assert!(visit_dirs(&sub_entries, vec![], &mut sub).is_ok());

    let mut root = Tree::new("root");
    let root_entries = vec![entry("root/sub", EntryKind::Directory)];
    assert!(visit_dirs(&root_entries, vec![sub], &mut root).is_ok());

    let (writes, inputs) = root.to_latex();
    assert_eq!(writes.len(), 1);
    assert!(writes[0].content.contains("root/sub/keep"));
    assert!(!writes[0].content.contains("notes"));
    assert!(!writes[0].content.contains("vector"));
    for d in &inputs {
        assert!(!d.contains("notes") && !d.contains("vector"));
    }
}

/// A directory holding a file with no extension aborts the build.
#[test]
fn extensionless_file_aborts_the_scan() {
    let entries = vec![entry("root/README", EntryKind::File)];
    let mut root = Tree::new("root");
    let r = visit_dirs(&entries, vec![], &mut root);
    assert!(matches!(r, Err(TreeError::MissingExtension(p)) if p.as_str() == "root/README"));
}

/// A directory holding only images still renders them when it is someone's
/// child.
#[test]
fn leaf_directory_images_render_in_parent_pass() {
    let mut leaf = Tree::new("root/only_images");
    let leaf_entries = vec![
        entry("root/only_images/p.png", EntryKind::File),
        entry("root/only_images/q.jpg", EntryKind::File),
    ];
    assert!(visit_dirs(&leaf_entries, vec![], &mut leaf).is_ok());

    let mut root = Tree::new("root");
    let root_entries = vec![entry("root/only_images", EntryKind::Directory)];
    assert!(visit_dirs(&root_entries, vec![leaf], &mut root).is_ok());

    let (writes, _inputs) = root.to_latex();
    assert_eq!(writes.len(), 1);
    assert_eq!(
        writes[0].content.as_str(),
        "\\section{only_images}\n\
         \\subsubsection*{p}\n\
         \\includegraphics[width=0.65\\textwidth]{\"root/only_images/p\"}\n\
         \\subsubsection*{q}\n\
         \\includegraphics[width=0.65\\textwidth]{\"root/only_images/q\"}"
    );
}
