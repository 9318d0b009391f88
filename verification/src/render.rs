//! Rendering a [`Tree`] into section files and inclusion directives.
//!
//! For every child of a node, depth first and in listing order, the
//! renderer produces the content of that child's `section.tex`: the child's
//! section heading, then the inclusion directives of the child's own
//! children (so nested sections appear inside the parent's file by
//! reference), then a sub-heading and a figure directive per image.  The
//! root node itself gets no file; rendering returns the writes to perform,
//! in order, and the inclusion directives for the root's direct children.
//! Images sitting directly in the root directory are therefore dropped —
//! deliberate, inherited behavior of the report layout.

use vstd::prelude::*;

use crate::markup::{
    figure_directive, figure_directive_spec, input_directive, input_directive_spec, join_lines,
    lemma_join_lines_push, section_heading, section_heading_spec, sub_heading, sub_heading_spec,
};
use crate::paths::{base_name, base_name_str};
use crate::tree::Tree;
use crate::views::{lemma_views_of_push, views_of};

verus! {

/// One pending file write: the full content for the file at `path`.
#[derive(Debug)]
pub struct FileWrite {
    pub path: String,
    pub content: String,
}

/// The (path, content) character sequences of a sequence of writes.
pub open spec fn pairs_of(ws: Seq<FileWrite>) -> Seq<(Seq<char>, Seq<char>)> {
    Seq::new(ws.len(), |i: int| (ws[i].path@, ws[i].content@))
}

pub proof fn lemma_pairs_of_push(ws: Seq<FileWrite>, w: FileWrite)
    ensures
        pairs_of(ws.push(w)) == pairs_of(ws).push((w.path@, w.content@)),
{
    assert(pairs_of(ws.push(w)) =~= pairs_of(ws).push((w.path@, w.content@)));
}

pub proof fn lemma_pairs_of_concat(a: Seq<FileWrite>, b: Seq<FileWrite>)
    ensures
        pairs_of(a + b) == pairs_of(a) + pairs_of(b),
{
    assert(pairs_of(a + b) =~= pairs_of(a) + pairs_of(b));
}

/// The path of the section file generated inside the directory at `loc`.
pub open spec fn sec_path(loc: Seq<char>) -> Seq<char> {
    loc + "/section.tex"@
}

/// The inclusion directives a node hands to its parent: one per child,
/// referencing the child's section file, in order.
pub open spec fn inputs_of(t: Tree) -> Seq<Seq<char>> {
    Seq::new(t.children@.len(), |i: int| input_directive_spec(sec_path(t.children@[i].root@)))
}

/// The two fragments one image contributes: its sub-heading and its figure
/// directive.
pub open spec fn item_block(p: Seq<char>) -> Seq<Seq<char>> {
    seq![sub_heading_spec(base_name(p)), figure_directive_spec(p)]
}

/// The fragments of a sequence of images, in order.
pub open spec fn item_frags(items: Seq<Seq<char>>) -> Seq<Seq<char>>
    decreases items.len(),
{
    if items.len() == 0 {
        Seq::empty()
    } else {
        item_frags(items.drop_last()) + item_block(items.last())
    }
}

/// All fragments of one rendered section, in the order they stand in the
/// file: heading, nested inclusion directives, image blocks.
pub open spec fn frags_of(c: Tree) -> Seq<Seq<char>> {
    seq![section_heading_spec(base_name(c.root@))] + inputs_of(c) + item_frags(
        views_of(c.items@),
    )
}

/// The content of one child's section file.
pub open spec fn doc_of(c: Tree) -> Seq<char> {
    join_lines(frags_of(c))
}

/// Every write rendering `t` performs, in order: for each child, first the
/// writes of the child's own subtree, then the child's section file.
pub open spec fn writes_of(t: Tree) -> Seq<(Seq<char>, Seq<char>)>
    decreases t,
{
    writes_of_children(t.children@)
}

pub open spec fn writes_of_children(cs: Seq<Tree>) -> Seq<(Seq<char>, Seq<char>)>
    decreases cs,
{
    if cs.len() == 0 {
        Seq::empty()
    } else {
        writes_of_children(cs.drop_last()) + writes_of(cs.last()) + seq![
            (sec_path(cs.last().root@), doc_of(cs.last())),
        ]
    }
}

/// The content of the top-level index document: the given inclusion
/// directives, newline-separated, in order — empty when there are none.
pub fn index_content(directives: &Vec<String>) -> (r: String)
    ensures
        r@ == join_lines(views_of(directives@)),
{
    let mut out = String::new();
    let n = directives.len();
    if n == 0 {
        return out;
    }
    out.append(directives[0].as_str());
    proof {
        let vs = views_of(directives@);
        assert(vs.subrange(0, 1) =~= seq![vs[0]]);
        assert(join_lines(vs.subrange(0, 1)) == vs[0]);
    }
    let mut k: usize = 1;
    while k < n
        invariant
            1 <= k <= n,
            n == directives@.len(),
            out@ == join_lines(views_of(directives@).subrange(0, k as int)),
        decreases n - k,
    {
        out.append("\n");
        out.append(directives[k].as_str());
        proof {
            let vs = views_of(directives@);
            lemma_join_lines_push(vs.subrange(0, k as int), vs[k as int]);
            assert(vs.subrange(0, k as int).push(vs[k as int]) =~= vs.subrange(0, k + 1));
        }
        k = k + 1;
    }
    proof {
        assert(views_of(directives@).subrange(0, n as int) =~= views_of(directives@));
    }
    out
}

impl Tree {
    /// Render this node: the section files to write below it, in order,
    /// and the inclusion directives for its direct children.
    #[verifier::loop_isolation(false)]
    pub fn to_latex(&self) -> (r: (Vec<FileWrite>, Vec<String>))
        ensures
            pairs_of(r.0@) == writes_of(*self),
            views_of(r.1@) == inputs_of(*self),
        decreases *self,
    {
        let mut writes: Vec<FileWrite> = Vec::new();
        let mut inputs: Vec<String> = Vec::new();
        let n = self.children.len();
        let mut ci: usize = 0;
        while ci < n
            invariant
                ci <= n,
                pairs_of(writes@) == writes_of_children(self.children@.subrange(0, ci as int)),
                views_of(inputs@) == inputs_of(*self).subrange(0, ci as int),
            decreases n - ci,
        {
            let child = &self.children[ci];
            proof {
                assert(decreases_to!(*self => self.children));
                assert(decreases_to!(self.children => self.children[ci as int]));
            }
            let (mut sub_writes, sub_inputs) = child.to_latex();

            let ghost frag0 = seq![section_heading_spec(base_name(child.root@))];
            let mut doc = section_heading(child.section());
            proof {
                assert(frag0 + inputs_of(*child).subrange(0, 0) =~= frag0);
                assert(join_lines(frag0) == frag0[0]);
            }
            let m = sub_inputs.len();
            let mut k: usize = 0;
            while k < m
                invariant
                    k <= m,
                    doc@ == join_lines(frag0 + inputs_of(*child).subrange(0, k as int)),
                decreases m - k,
            {
                doc.append("\n");
                doc.append(sub_inputs[k].as_str());
                proof {
                    let fr = frag0 + inputs_of(*child).subrange(0, k as int);
                    lemma_join_lines_push(fr, inputs_of(*child)[k as int]);
                    assert(sub_inputs@[k as int]@ == views_of(sub_inputs@)[k as int]);
                    assert(fr.push(inputs_of(*child)[k as int]) =~= frag0 + inputs_of(
                        *child,
                    ).subrange(0, k + 1));
                }
                k = k + 1;
            }
            let ghost head = frag0 + inputs_of(*child);
            proof {
                assert(inputs_of(*child).subrange(0, m as int) =~= inputs_of(*child));
            }
            let ghost ivs = views_of(child.items@);
            let p = child.items.len();
            let mut q: usize = 0;
            while q < p
                invariant
                    q <= p,
                    doc@ == join_lines(head + item_frags(ivs.subrange(0, q as int))),
                decreases p - q,
            {
                let item = &child.items[q];
                let bn = base_name_str(item.as_str());
                let hh = sub_heading(bn);
                let fg = figure_directive(item.as_str());
                doc.append("\n");
                doc.append(hh.as_str());
                doc.append("\n");
                doc.append(fg.as_str());
                proof {
                    let fr = head + item_frags(ivs.subrange(0, q as int));
                    assert(ivs[q as int] == item@);
                    lemma_join_lines_push(fr, sub_heading_spec(base_name(item@)));
                    lemma_join_lines_push(
                        fr.push(sub_heading_spec(base_name(item@))),
                        figure_directive_spec(item@),
                    );
                    assert(ivs.subrange(0, q + 1).drop_last() =~= ivs.subrange(0, q as int));
                    assert(fr.push(sub_heading_spec(base_name(item@))).push(
                        figure_directive_spec(item@),
                    ) =~= head + item_frags(ivs.subrange(0, q + 1)));
                }
                q = q + 1;
            }
            proof {
                assert(ivs.subrange(0, p as int) =~= ivs);
                assert(head + item_frags(ivs) =~= frags_of(*child));
            }

            let mut path = child.root.clone();
            path.append("/section.tex");
            let directive = input_directive(path.as_str());

            let ghost writes_before = writes@;
            writes.append(&mut sub_writes);
            proof {
                lemma_pairs_of_concat(writes_before, sub_writes@);
            }
            let ghost writes_mid = writes@;
            let ghost gpath = path@;
            let ghost gdoc = doc@;
            writes.push(FileWrite { path, content: doc });
            proof {
                assert(writes@ == writes_mid.push(writes@.last()));
                assert(writes@.last().path@ == gpath);
                assert(writes@.last().content@ == gdoc);
                lemma_pairs_of_push(writes_mid, writes@.last());
                lemma_views_of_push(inputs@, directive);
                let cs = self.children@;
                assert(cs.subrange(0, ci + 1).drop_last() =~= cs.subrange(0, ci as int));
                assert(cs.subrange(0, ci + 1).last() == cs[ci as int]);
                assert(pairs_of(writes@) =~= writes_of_children(cs.subrange(0, ci + 1)));
                assert(views_of(inputs@).push(directive@) =~= inputs_of(*self).subrange(
                    0,
                    ci + 1,
                ));
            }
            inputs.push(directive);
            ci = ci + 1;
        }
        proof {
            assert(self.children@.subrange(0, n as int) =~= self.children@);
            assert(inputs_of(*self).subrange(0, n as int) =~= inputs_of(*self));
        }
        (writes, inputs)
    }
}

} // verus!
