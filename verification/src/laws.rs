//! The structural guarantees of the generated document, stated and proved
//! once and for all trees and listings.

use vstd::prelude::*;

use crate::markup::{figure_directive_spec, input_directive_spec, section_heading_spec,
    sub_heading_spec};
use crate::paths::{base_name, extension, lemma_stem_extension_roundtrip, stem};
use crate::render::{doc_of, frags_of, inputs_of, item_block, item_frags, sec_path, writes_of,
    writes_of_children};
use crate::tree::{listing_items, qualifies, DirEntry, EntryKind, Tree};
use crate::views::views_of;

verus! {

/// Every node below `t`, in rendering order: for each child, first the
/// child's own descendants, then the child itself.  The root is not listed.
pub open spec fn descendants(t: Tree) -> Seq<Tree>
    decreases t,
{
    descendants_of_children(t.children@)
}

pub open spec fn descendants_of_children(cs: Seq<Tree>) -> Seq<Tree>
    decreases cs,
{
    if cs.len() == 0 {
        Seq::empty()
    } else {
        descendants_of_children(cs.drop_last()) + descendants(cs.last()) + seq![cs.last()]
    }
}

/// Structure mirroring: rendering writes exactly one section file per
/// directory below the root — the `j`-th write goes to the `j`-th
/// descendant's section path and carries that descendant's document.
pub proof fn lemma_structure_mirroring(t: Tree)
    ensures
        writes_of(t).len() == descendants(t).len(),
        forall|j: int|
            0 <= j < writes_of(t).len() ==> writes_of(t)[j] == (
                sec_path(descendants(t)[j].root@),
                doc_of(descendants(t)[j]),
            ),
    decreases t,
{
    lemma_structure_mirroring_children(t.children@);
}

pub proof fn lemma_structure_mirroring_children(cs: Seq<Tree>)
    ensures
        writes_of_children(cs).len() == descendants_of_children(cs).len(),
        forall|j: int|
            0 <= j < writes_of_children(cs).len() ==> writes_of_children(cs)[j] == (
                sec_path(descendants_of_children(cs)[j].root@),
                doc_of(descendants_of_children(cs)[j]),
            ),
    decreases cs,
{
    if cs.len() > 0 {
        lemma_structure_mirroring_children(cs.drop_last());
        lemma_structure_mirroring(cs.last());
        let a = writes_of_children(cs.drop_last());
        let b = writes_of(cs.last());
        let da = descendants_of_children(cs.drop_last());
        let db = descendants(cs.last());
        assert forall|j: int| 0 <= j < writes_of_children(cs).len() implies writes_of_children(
            cs,
        )[j] == (
            sec_path(descendants_of_children(cs)[j].root@),
            doc_of(descendants_of_children(cs)[j]),
        ) by {
            if j < a.len() {
                assert(writes_of_children(cs)[j] == a[j]);
                assert(descendants_of_children(cs)[j] == da[j]);
            } else if j < a.len() + b.len() {
                assert(writes_of_children(cs)[j] == b[j - a.len()]);
                assert(descendants_of_children(cs)[j] == db[j - a.len()]);
            } else {
                assert(writes_of_children(cs)[j] == (
                    sec_path(cs.last().root@),
                    doc_of(cs.last()),
                ));
                assert(descendants_of_children(cs)[j] == cs.last());
            }
        }
    }
}

/// The image fragments stand two per image, in image order: sub-heading
/// then figure directive.
pub proof fn lemma_item_frags_positions(items: Seq<Seq<char>>)
    ensures
        item_frags(items).len() == 2 * items.len(),
        forall|k: int|
            0 <= k < items.len() ==> item_frags(items)[2 * k] == sub_heading_spec(
                base_name(items[k]),
            ) && item_frags(items)[2 * k + 1] == figure_directive_spec(items[k]),
    decreases items.len(),
{
    if items.len() > 0 {
        lemma_item_frags_positions(items.drop_last());
        let a = item_frags(items.drop_last());
        assert forall|k: int| 0 <= k < items.len() implies item_frags(items)[2 * k]
            == sub_heading_spec(base_name(items[k])) && item_frags(items)[2 * k + 1]
            == figure_directive_spec(items[k]) by {
            if k < items.len() - 1 {
                assert(items.drop_last()[k] == items[k]);
                assert(item_frags(items)[2 * k] == a[2 * k]);
                assert(item_frags(items)[2 * k + 1] == a[2 * k + 1]);
            } else {
                assert(items.last() == items[k]);
                assert(a.len() == 2 * k);
                assert(item_frags(items)[2 * k] == item_block(items.last())[0]);
                assert(item_frags(items)[2 * k + 1] == item_block(items.last())[1]);
            }
        }
    }
}

/// Ordering preservation: within a rendered section the fragments stand in
/// listing order — the heading first, then one inclusion directive per
/// child in child order, then sub-heading and figure directive per image
/// in image order, with nothing else in between.
pub proof fn lemma_ordering_preserved(c: Tree)
    ensures
        frags_of(c).len() == 1 + c.children@.len() + 2 * c.items@.len(),
        frags_of(c)[0] == section_heading_spec(base_name(c.root@)),
        forall|i: int|
            0 <= i < c.children@.len() ==> frags_of(c)[1 + i] == input_directive_spec(
                sec_path(c.children@[i].root@),
            ),
        forall|k: int|
            0 <= k < c.items@.len() ==> frags_of(c)[1 + c.children@.len() + 2 * k]
                == sub_heading_spec(base_name(c.items@[k]@)) && frags_of(c)[2 + c.children@.len()
                + 2 * k] == figure_directive_spec(c.items@[k]@),
{
    lemma_item_frags_positions(views_of(c.items@));
    let h = seq![section_heading_spec(base_name(c.root@))];
    let a = h + inputs_of(c);
    assert forall|k: int| 0 <= k < c.items@.len() implies frags_of(c)[1 + c.children@.len() + 2
        * k] == sub_heading_spec(base_name(c.items@[k]@)) && frags_of(c)[2 + c.children@.len() + 2
        * k] == figure_directive_spec(c.items@[k]@) by {
        assert(views_of(c.items@)[k] == c.items@[k]@);
        assert(frags_of(c)[a.len() + 2 * k] == item_frags(views_of(c.items@))[2 * k]);
        assert(frags_of(c)[a.len() + 2 * k + 1] == item_frags(views_of(c.items@))[2 * k + 1]);
    }
}

/// Extension filtering: every rendered item is the stem of some listed
/// file whose extension was recognized; nothing else gets in.
pub proof fn lemma_extension_filtering(es: Seq<DirEntry>, j: int)
    requires
        0 <= j < listing_items(es).len(),
    ensures
        exists|i: int|
            #![auto]
            0 <= i < es.len() && es[i].kind == EntryKind::File && qualifies(es[i].path@)
                && listing_items(es)[j] == stem(es[i].path@),
    decreases es.len(),
{
    let e = es.last();
    if e.kind == EntryKind::File && qualifies(e.path@) && j == listing_items(es).len() - 1 {
        assert(listing_items(es)[j] == stem(e.path@));
        assert(es[es.len() - 1] == e);
    } else {
        lemma_extension_filtering(es.drop_last(), j);
        let i = choose|i: int|
            #![auto]
            0 <= i < es.drop_last().len() && es.drop_last()[i].kind == EntryKind::File && qualifies(
                es.drop_last()[i].path@,
            ) && listing_items(es.drop_last())[j] == stem(es.drop_last()[i].path@);
        assert(es[i] == es.drop_last()[i]);
    }
}

/// Extension stripping: each figure directive of a section built from a
/// listing references a listed image path with its extension removed —
/// putting `.` and the extension back gives the original path.
pub proof fn lemma_extension_stripping(c: Tree, es: Seq<DirEntry>, k: int)
    requires
        views_of(c.items@) == listing_items(es),
        0 <= k < c.items@.len(),
    ensures
        exists|i: int|
            #![auto]
            0 <= i < es.len() && es[i].kind == EntryKind::File && qualifies(es[i].path@)
                && frags_of(c)[2 + c.children@.len() + 2 * k] == figure_directive_spec(
                stem(es[i].path@),
            ) && stem(es[i].path@) + seq!['.'] + extension(es[i].path@) == es[i].path@,
{
    lemma_ordering_preserved(c);
    assert(views_of(c.items@)[k] == c.items@[k]@);
    lemma_extension_filtering(es, k);
    let i = choose|i: int|
        #![auto]
        0 <= i < es.len() && es[i].kind == EntryKind::File && qualifies(es[i].path@)
            && listing_items(es)[k] == stem(es[i].path@);
    lemma_stem_extension_roundtrip(es[i].path@);
}

/// Round-trip containment: every inclusion directive a node emits
/// references a file that rendering that node writes.
pub proof fn lemma_round_trip(t: Tree, i: int)
    requires
        0 <= i < inputs_of(t).len(),
    ensures
        exists|j: int|
            #![auto]
            0 <= j < writes_of(t).len() && writes_of(t)[j].0 == sec_path(t.children@[i].root@)
                && inputs_of(t)[i] == input_directive_spec(writes_of(t)[j].0),
{
    let cs = t.children@;
    lemma_child_write_present(cs, i);
    let j = choose|j: int|
        #![auto]
        0 <= j < writes_of_children(cs).len() && writes_of_children(cs)[j] == (
            sec_path(cs[i].root@),
            doc_of(cs[i]),
        );
    assert(writes_of(t)[j].0 == sec_path(t.children@[i].root@));
    assert(inputs_of(t)[i] == input_directive_spec(sec_path(t.children@[i].root@)));
}

/// `loc` lies strictly inside the directory at `base`: `base` is a proper
/// prefix followed by a separator.
pub open spec fn under(base: Seq<char>, loc: Seq<char>) -> bool {
    &&& loc.len() > base.len()
    &&& loc.subrange(0, base.len() as int) == base
    &&& loc[base.len() as int] == '/'
}

/// A child directory's path as the filesystem yields it: the parent's path,
/// a separator, and a nonempty name free of separators.
pub open spec fn child_location_ok(parent: Seq<char>, child: Seq<char>) -> bool {
    &&& child.len() > parent.len() + 1
    &&& child.subrange(0, parent.len() as int) == parent
    &&& child[parent.len() as int] == '/'
    &&& forall|j: int| parent.len() + 1 <= j < child.len() ==> child[j] != '/'
}

/// The shape a scan of a real directory tree gives every node: each
/// child's path extends its parent's by one named component, and sibling
/// paths are distinct.
pub open spec fn wf(t: Tree) -> bool
    decreases t,
{
    &&& forall|i: int|
        0 <= i < t.children@.len() ==> child_location_ok(
            t.root@,
            (#[trigger] t.children@[i]).root@,
        )
    &&& forall|i: int, j: int|
        #![trigger t.children@[i], t.children@[j]]
        0 <= i < j < t.children@.len() ==> t.children@[i].root@ != t.children@[j].root@
    &&& forall|i: int| 0 <= i < t.children@.len() ==> wf(#[trigger] t.children@[i])
}

/// Lying inside a subdirectory means lying inside the directory itself.
proof fn lemma_under_trans(a: Seq<char>, b: Seq<char>, c: Seq<char>)
    requires
        under(a, b),
        under(b, c),
    ensures
        under(a, c),
{
    assert(c.subrange(0, a.len() as int) =~= b.subrange(0, a.len() as int));
    assert(c[a.len() as int] == b[a.len() as int]);
}

/// Every descendant's path lies strictly inside the root's directory.
proof fn lemma_descendants_under(t: Tree, k: int)
    requires
        wf(t),
        0 <= k < descendants(t).len(),
    ensures
        under(t.root@, descendants(t)[k].root@),
    decreases t,
{
    lemma_descendants_under_children(t.root@, t.children@, k);
}

proof fn lemma_descendants_under_children(base: Seq<char>, cs: Seq<Tree>, k: int)
    requires
        forall|i: int|
            0 <= i < cs.len() ==> child_location_ok(base, (#[trigger] cs[i]).root@),
        forall|i: int| 0 <= i < cs.len() ==> wf(#[trigger] cs[i]),
        0 <= k < descendants_of_children(cs).len(),
    ensures
        under(base, descendants_of_children(cs)[k].root@),
    decreases cs,
{
    let a = descendants_of_children(cs.drop_last());
    let b = descendants(cs.last());
    assert(cs.last() == cs[cs.len() - 1]);
    if k < a.len() {
        assert(forall|i: int| 0 <= i < cs.drop_last().len() ==> cs.drop_last()[i] == cs[i]);
        lemma_descendants_under_children(base, cs.drop_last(), k);
        assert(descendants_of_children(cs)[k] == a[k]);
    } else if k < a.len() + b.len() {
        lemma_descendants_under(cs.last(), k - a.len());
        assert(descendants_of_children(cs)[k] == b[k - a.len()]);
        assert(under(base, cs.last().root@));
        lemma_under_trans(base, cs.last().root@, b[k - a.len()].root@);
    } else {
        assert(descendants_of_children(cs)[k] == cs.last());
    }
}

/// Every descendant of a children sequence lies in the subtree of one of
/// the children: at the child's own path or strictly inside it.
proof fn lemma_descendant_in_some_child(cs: Seq<Tree>, k: int)
    requires
        forall|i: int| 0 <= i < cs.len() ==> wf(#[trigger] cs[i]),
        0 <= k < descendants_of_children(cs).len(),
    ensures
        exists|i: int|
            #![auto]
            0 <= i < cs.len() && (descendants_of_children(cs)[k].root@ == cs[i].root@ || under(
                cs[i].root@,
                descendants_of_children(cs)[k].root@,
            )),
    decreases cs,
{
    let a = descendants_of_children(cs.drop_last());
    let b = descendants(cs.last());
    assert(cs.last() == cs[cs.len() - 1]);
    if k < a.len() {
        assert(forall|i: int| 0 <= i < cs.drop_last().len() ==> cs.drop_last()[i] == cs[i]);
        lemma_descendant_in_some_child(cs.drop_last(), k);
        assert(descendants_of_children(cs)[k] == a[k]);
        let i = choose|i: int|
            #![auto]
            0 <= i < cs.drop_last().len() && (a[k].root@ == cs.drop_last()[i].root@ || under(
                cs.drop_last()[i].root@,
                a[k].root@,
            ));
        assert(0 <= i < cs.len() && (descendants_of_children(cs)[k].root@ == cs[i].root@ || under(
            cs[i].root@,
            descendants_of_children(cs)[k].root@,
        )));
    } else if k < a.len() + b.len() {
        lemma_descendants_under(cs.last(), k - a.len());
        assert(descendants_of_children(cs)[k] == b[k - a.len()]);
        let i = cs.len() - 1;
        assert(0 <= i < cs.len() && (descendants_of_children(cs)[k].root@ == cs[i].root@ || under(
            cs[i].root@,
            descendants_of_children(cs)[k].root@,
        )));
    } else {
        assert(descendants_of_children(cs)[k] == cs.last());
        let i = cs.len() - 1;
        assert(0 <= i < cs.len() && descendants_of_children(cs)[k].root@ == cs[i].root@);
    }
}

/// Two locations lying in the subtrees of two distinct siblings differ.
proof fn lemma_distinct_across_siblings(
    base: Seq<char>,
    r1: Seq<char>,
    r2: Seq<char>,
    l1: Seq<char>,
    l2: Seq<char>,
)
    requires
        child_location_ok(base, r1),
        child_location_ok(base, r2),
        r1 != r2,
        l1 == r1 || under(r1, l1),
        l2 == r2 || under(r2, l2),
    ensures
        l1 != l2,
{
    if l1 == l2 {
        if r1.len() == r2.len() {
            assert(l1.subrange(0, r1.len() as int) =~= r1);
            assert(l2.subrange(0, r2.len() as int) =~= r2);
            assert(r1 == r2);
        } else if r1.len() < r2.len() {
            assert(l2.len() >= r2.len());
            assert(l1.len() > r1.len());
            assert(l1[r1.len() as int] == '/');
            assert(l2.subrange(0, r2.len() as int) =~= r2);
            assert(l2[r1.len() as int] == r2[r1.len() as int]);
            assert(base.len() + 1 <= r1.len() < r2.len());
            assert(r2[r1.len() as int] != '/');
        } else {
            assert(l1.len() >= r1.len());
            assert(l2.len() > r2.len());
            assert(l2[r2.len() as int] == '/');
            assert(l1.subrange(0, r1.len() as int) =~= r1);
            assert(l1[r2.len() as int] == r1[r2.len() as int]);
            assert(base.len() + 1 <= r2.len() < r1.len());
            assert(r1[r2.len() as int] != '/');
        }
    }
}

/// Below a well-formed tree no two descendants share a path.
pub proof fn lemma_descendant_locations_distinct(t: Tree, k1: int, k2: int)
    requires
        wf(t),
        0 <= k1 < k2 < descendants(t).len(),
    ensures
        descendants(t)[k1].root@ != descendants(t)[k2].root@,
    decreases t,
{
    lemma_descendant_locations_distinct_children(t.root@, t.children@, k1, k2);
}

proof fn lemma_descendant_locations_distinct_children(
    base: Seq<char>,
    cs: Seq<Tree>,
    k1: int,
    k2: int,
)
    requires
        forall|i: int|
            0 <= i < cs.len() ==> child_location_ok(base, (#[trigger] cs[i]).root@),
        forall|i: int, j: int|
            #![trigger cs[i], cs[j]]
            0 <= i < j < cs.len() ==> cs[i].root@ != cs[j].root@,
        forall|i: int| 0 <= i < cs.len() ==> wf(#[trigger] cs[i]),
        0 <= k1 < k2 < descendants_of_children(cs).len(),
    ensures
        descendants_of_children(cs)[k1].root@ != descendants_of_children(cs)[k2].root@,
    decreases cs,
{
    let a = descendants_of_children(cs.drop_last());
    let b = descendants(cs.last());
    let ds = descendants_of_children(cs);
    assert(cs.last() == cs[cs.len() - 1]);
    assert(forall|i: int| 0 <= i < cs.drop_last().len() ==> cs.drop_last()[i] == cs[i]);
    if k2 < a.len() {
        lemma_descendant_locations_distinct_children(base, cs.drop_last(), k1, k2);
        assert(ds[k1] == a[k1]);
        assert(ds[k2] == a[k2]);
    } else if k1 >= a.len() {
        if k2 == ds.len() - 1 {
            assert(ds[k2] == cs.last());
            assert(ds[k1] == b[k1 - a.len()]);
            lemma_descendants_under(cs.last(), k1 - a.len());
            assert(ds[k1].root@.len() > ds[k2].root@.len());
        } else {
            assert(ds[k1] == b[k1 - a.len()]);
            assert(ds[k2] == b[k2 - a.len()]);
            lemma_descendant_locations_distinct(cs.last(), k1 - a.len(), k2 - a.len());
        }
    } else {
        assert(ds[k1] == a[k1]);
        lemma_descendant_in_some_child(cs.drop_last(), k1);
        let i = choose|i: int|
            #![auto]
            0 <= i < cs.drop_last().len() && (a[k1].root@ == cs.drop_last()[i].root@ || under(
                cs.drop_last()[i].root@,
                a[k1].root@,
            ));
        if k2 == ds.len() - 1 {
            assert(ds[k2] == cs.last());
        } else {
            assert(ds[k2] == b[k2 - a.len()]);
            lemma_descendants_under(cs.last(), k2 - a.len());
        }
        assert(ds[k2].root@ == cs.last().root@ || under(cs.last().root@, ds[k2].root@));
        lemma_distinct_across_siblings(
            base,
            cs[i].root@,
            cs.last().root@,
            ds[k1].root@,
            ds[k2].root@,
        );
    }
}

/// One file per directory: rendering a well-formed tree never writes the
/// same section path twice.
pub proof fn lemma_one_write_per_directory(t: Tree, j1: int, j2: int)
    requires
        wf(t),
        0 <= j1 < j2 < writes_of(t).len(),
    ensures
        writes_of(t)[j1].0 != writes_of(t)[j2].0,
{
    lemma_structure_mirroring(t);
    lemma_descendant_locations_distinct(t, j1, j2);
    let a = descendants(t)[j1].root@;
    let b = descendants(t)[j2].root@;
    if sec_path(a) == sec_path(b) {
        assert(a =~= sec_path(a).subrange(0, a.len() as int));
        assert(b =~= sec_path(b).subrange(0, b.len() as int));
    }
}

/// The own write of the `i`-th child is present among the writes of the
/// whole children sequence.
proof fn lemma_child_write_present(cs: Seq<Tree>, i: int)
    requires
        0 <= i < cs.len(),
    ensures
        exists|j: int|
            #![auto]
            0 <= j < writes_of_children(cs).len() && writes_of_children(cs)[j] == (
                sec_path(cs[i].root@),
                doc_of(cs[i]),
            ),
    decreases cs.len(),
{
    if i == cs.len() - 1 {
        let j = writes_of_children(cs).len() - 1;
        assert(writes_of_children(cs)[j] == (sec_path(cs.last().root@), doc_of(cs.last())));
    } else {
        lemma_child_write_present(cs.drop_last(), i);
        let j = choose|j: int|
            #![auto]
            0 <= j < writes_of_children(cs.drop_last()).len() && writes_of_children(
                cs.drop_last(),
            )[j] == (sec_path(cs.drop_last()[i].root@), doc_of(cs.drop_last()[i]));
        assert(writes_of_children(cs)[j] == writes_of_children(cs.drop_last())[j]);
        assert(cs.drop_last()[i] == cs[i]);
    }
}

} // verus!
