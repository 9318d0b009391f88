//! The in-memory model of the scanned directory hierarchy and its
//! construction from directory listings.
//!
//! One [`Tree`] node stands for one directory.  `visit_dirs` consumes a
//! directory's listing — plain path/kind pairs, in listing order — together
//! with the subtrees already built for its subdirectories, and fills the
//! node: qualifying images (extension `jpg` or `png`, case-sensitive) have
//! their extension stripped and join `items`; subtrees join `children`.
//! A file with no extension is rejected with [`TreeError::MissingExtension`]
//! and leaves the node untouched; any other entry is ignored.

use vstd::prelude::*;

use crate::paths::{
    base_name, base_name_str, base_start, extension, find_last_dot, has_extension,
    lemma_base_name_is_suffix_at, lemma_last_dot_at, lemma_last_dot_in_range, stem,
};
use crate::views::{lemma_views_of_push, views_of};

verus! {

/// One directory of the scanned hierarchy.
///
/// `root` is the directory's path; `items` holds the extension-stripped
/// paths of the images found directly inside it, `children` one node per
/// immediate subdirectory, both in listing order and both possibly empty.
#[derive(Debug)]
pub struct Tree {
    pub root: String,
    pub items: Vec<String>,
    pub children: Vec<Tree>,
}

/// What kind of filesystem object a directory entry is.
#[derive(Clone, Copy, Debug, PartialEq, Eq)]
pub enum EntryKind {
    Directory,
    File,
    Other,
}

/// One entry of a directory listing, as plain values.
#[derive(Debug)]
pub struct DirEntry {
    pub path: String,
    pub kind: EntryKind,
}

/// The one malformed-entry condition: a file whose base name gives no
/// extension (no `.` after its first character).
#[derive(Debug)]
pub enum TreeError {
    MissingExtension(String),
}

/// A file entry with this path cannot be classified.
pub open spec fn entry_bad(e: DirEntry) -> bool {
    e.kind == EntryKind::File && !has_extension(e.path@)
}

/// The extensions the scan recognizes: exactly `jpg` and `png`.
pub open spec fn recognized(ext: Seq<char>) -> bool {
    ext == "jpg"@ || ext == "png"@
}

/// A file path that contributes an item: it has a recognized extension.
pub open spec fn qualifies(p: Seq<char>) -> bool {
    has_extension(p) && recognized(extension(p))
}

/// Index of the first unclassifiable file entry in a listing, or `-1`.
pub open spec fn first_missing(es: Seq<DirEntry>) -> int
    decreases es.len(),
{
    if es.len() == 0 {
        -1
    } else {
        let r = first_missing(es.drop_last());
        if r != -1 {
            r
        } else if entry_bad(es.last()) {
            es.len() - 1
        } else {
            -1
        }
    }
}

/// A listing is acceptable when every file entry has an extension.
pub open spec fn listing_ok(es: Seq<DirEntry>) -> bool {
    first_missing(es) == -1
}

/// The items an acceptable listing contributes: the stems of its
/// recognized image files, in listing order.
pub open spec fn listing_items(es: Seq<DirEntry>) -> Seq<Seq<char>>
    decreases es.len(),
{
    if es.len() == 0 {
        Seq::empty()
    } else {
        let rest = listing_items(es.drop_last());
        let e = es.last();
        if e.kind == EntryKind::File && qualifies(e.path@) {
            rest.push(stem(e.path@))
        } else {
            rest
        }
    }
}

/// `first_missing` really is the first: it points at an unclassifiable
/// file entry and nothing before it is one; `-1` means there is none.
pub proof fn lemma_first_missing_is_first(es: Seq<DirEntry>)
    ensures
        listing_ok(es) <==> (forall|i: int| 0 <= i < es.len() ==> !entry_bad(es[i])),
        !listing_ok(es) ==> {
            let f = first_missing(es);
            &&& 0 <= f < es.len()
            &&& entry_bad(es[f])
            &&& forall|i: int| 0 <= i < f ==> !entry_bad(es[i])
        },
    decreases es.len(),
{
    if es.len() > 0 {
        lemma_first_missing_is_first(es.drop_last());
        assert(forall|i: int| 0 <= i < es.len() - 1 ==> es.drop_last()[i] == es[i]);
        assert(es.last() == es[es.len() - 1]);
        if first_missing(es.drop_last()) != -1 {
            assert(first_missing(es) == first_missing(es.drop_last()));
        } else if entry_bad(es.last()) {
            assert(first_missing(es) == es.len() - 1);
        } else {
            assert(first_missing(es) == -1);
        }
    }
}

/// Decide what a single file entry contributes.
///
/// Returns the extension-stripped path when the file has one of the two
/// recognized image extensions, nothing when it has some other extension,
/// and `MissingExtension` when it has none at all.
pub fn classify_image(path: &str) -> (r: Result<Option<String>, TreeError>)
    ensures
        match r {
            Ok(Some(s)) => qualifies(path@) && s@ == stem(path@),
            Ok(None) => has_extension(path@) && !recognized(extension(path@)),
            Err(TreeError::MissingExtension(p)) => !has_extension(path@) && p@ == path@,
        },
{
    let n = path.unicode_len();
    let i = base_start(path);
    let b = path.substring_char(i, n);
    proof {
        lemma_base_name_is_suffix_at(path@, i as int);
    }
    match find_last_dot(b) {
        None => Err(TreeError::MissingExtension(String::from_str(path))),
        Some(d) => {
            proof {
                lemma_last_dot_in_range(b@);
            }
            if d == 0 {
                Err(TreeError::MissingExtension(String::from_str(path)))
            } else {
                let bn = b.unicode_len();
                let ext = b.substring_char(d + 1, bn);
                proof {
                    assert(ext@ =~= extension(path@));
                }
                let is_jpg = String::from_str(ext) == String::from_str("jpg");
                let is_png = String::from_str(ext) == String::from_str("png");
                if is_jpg || is_png {
                    let s = path.substring_char(0, i + d);
                    proof {
                        assert(s@ =~= stem(path@));
                    }
                    Ok(Some(String::from_str(s)))
                } else {
                    Ok(None)
                }
            }
        },
    }
}

impl Tree {
    /// A fresh node for the directory at `path`, with no items and no
    /// children yet.
    pub fn new(path: &str) -> (t: Tree)
        ensures
            t.root@ == path@,
            t.items@ == Seq::<String>::empty(),
            t.children@ == Seq::<Tree>::empty(),
    {
        Tree { root: String::from_str(path), items: Vec::new(), children: Vec::new() }
    }

    /// The name this node's section carries: the directory's base name
    /// (empty when the path ends in `/` or is empty).
    pub fn section<'a>(&'a self) -> (r: &'a str)
        ensures
            r@ == base_name(self.root@),
    {
        base_name_str(self.root.as_str())
    }
}

/// Fill `root_tree` from one directory's listing.
///
/// `entries` is the listing in listing order; `children` holds the subtrees
/// already built for its subdirectory entries, in the same order.  On
/// success every file entry had an extension, the stems of the recognized
/// images are appended to `root_tree.items` in listing order, and
/// `children` is appended to `root_tree.children`; files with other
/// extensions and entries that are neither file nor directory contribute
/// nothing.  On failure — the first file entry with no extension is
/// reported — `root_tree` is left exactly as it was.
pub fn visit_dirs(entries: &Vec<DirEntry>, children: Vec<Tree>, root_tree: &mut Tree) -> (r: Result<
    (),
    TreeError,
>)
    ensures
        match r {
            Ok(()) => {
                &&& listing_ok(entries@)
                &&& final(root_tree).root@ == old(root_tree).root@
                &&& final(root_tree).children@ == old(root_tree).children@ + children@
                &&& views_of(final(root_tree).items@) == views_of(old(root_tree).items@)
                    + listing_items(entries@)
            },
            Err(TreeError::MissingExtension(p)) => {
                &&& !listing_ok(entries@)
                &&& p@ == entries@[first_missing(entries@)].path@
                &&& *final(root_tree) == *old(root_tree)
            },
        },
{
    let n = entries.len();
    let mut new_items: Vec<String> = Vec::new();
    let mut idx: usize = 0;
    while idx < n
        invariant
            idx <= n,
            n == entries@.len(),
            listing_ok(entries@.subrange(0, idx as int)),
            views_of(new_items@) == listing_items(entries@.subrange(0, idx as int)),
        decreases n - idx,
    {
        let ghost pre = entries@.subrange(0, idx as int);
        let ghost pre1 = entries@.subrange(0, idx + 1);
        proof {
            assert(pre1.drop_last() =~= pre);
        }
        let e = &entries[idx];
        match e.kind {
            EntryKind::File => {
                match classify_image(e.path.as_str()) {
                    Ok(Some(s)) => {
                        proof {
                            lemma_views_of_push(new_items@, s);
                        }
                        new_items.push(s);
                    },
                    Ok(None) => {},
                    Err(err) => {
                        proof {
                            assert(first_missing(pre1) == idx);
                            lemma_first_missing_prefix(entries@, idx + 1);
                        }
                        return Err(err);
                    },
                }
            },
            _ => {},
        }
        idx = idx + 1;
    }
    proof {
        assert(entries@.subrange(0, n as int) =~= entries@);
    }
    let mut cs = children;
    root_tree.children.append(&mut cs);
    let ghost items_before = root_tree.items@;
    let mut its = new_items;
    let ghost added = its@;
    root_tree.items.append(&mut its);
    proof {
        crate::views::lemma_views_of_concat(items_before, added);
    }
    Ok(())
}

/// When the first unclassifiable entry lies inside a prefix, the whole
/// listing has the same first unclassifiable entry.
proof fn lemma_first_missing_prefix(es: Seq<DirEntry>, m: int)
    requires
        0 <= m <= es.len(),
        first_missing(es.subrange(0, m)) != -1,
    ensures
        first_missing(es) == first_missing(es.subrange(0, m)),
    decreases es.len(),
{
    if m == es.len() {
        assert(es.subrange(0, m) =~= es);
    } else {
        assert(es.drop_last().subrange(0, m) =~= es.subrange(0, m));
        lemma_first_missing_prefix(es.drop_last(), m);
    }
}

} // verus!
