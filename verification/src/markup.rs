//! The four markup fragments the renderer emits, as pure templating
//! functions: section heading, sub-heading, inclusion directive and figure
//! directive, plus the newline join that assembles fragments into one
//! document.
//!
//! The figure directive renders its path as a quoted literal — `"` and `\`
//! inside the path are escaped with a backslash — so paths with special
//! characters survive into the generated document.

use vstd::prelude::*;

verus! {

/// A section heading naming a directory.
pub open spec fn section_heading_spec(name: Seq<char>) -> Seq<char> {
    "\\section{"@ + name + "}"@
}

/// A sub-heading naming one image.
pub open spec fn sub_heading_spec(name: Seq<char>) -> Seq<char> {
    "\\subsubsection*{"@ + name + "}"@
}

/// An inclusion directive referencing another generated file.
pub open spec fn input_directive_spec(path: Seq<char>) -> Seq<char> {
    "\\input{"@ + path + "}"@
}

/// One character of a quoted path: `"` and `\` get a backslash in front.
pub open spec fn escape_char(c: char) -> Seq<char> {
    if c == '"' || c == '\\' {
        "\\"@ + seq![c]
    } else {
        seq![c]
    }
}

/// A path with every `"` and `\` escaped.
pub open spec fn escaped(s: Seq<char>) -> Seq<char>
    decreases s.len(),
{
    if s.len() == 0 {
        Seq::empty()
    } else {
        escaped(s.drop_last()) + escape_char(s.last())
    }
}

/// A figure directive showing the image at `path` at a fixed display width;
/// the path stands as an escaped, quoted literal.
pub open spec fn figure_directive_spec(path: Seq<char>) -> Seq<char> {
    "\\includegraphics[width=0.65\\textwidth]{\""@ + escaped(path) + "\"}"@
}

/// Fragments joined by single newlines, with nothing before the first or
/// after the last.
pub open spec fn join_lines(frags: Seq<Seq<char>>) -> Seq<char>
    decreases frags.len(),
{
    if frags.len() == 0 {
        Seq::empty()
    } else if frags.len() == 1 {
        frags[0]
    } else {
        join_lines(frags.drop_last()) + "\n"@ + frags.last()
    }
}

/// Joining one more fragment appends a newline and the fragment.
pub proof fn lemma_join_lines_push(frags: Seq<Seq<char>>, x: Seq<char>)
    requires
        frags.len() > 0,
    ensures
        join_lines(frags.push(x)) == join_lines(frags) + "\n"@ + x,
{
    assert(frags.push(x).drop_last() =~= frags);
    assert(frags.push(x).last() == x);
}

pub fn section_heading(name: &str) -> (r: String)
    ensures
        r@ == section_heading_spec(name@),
{
    let mut s = String::from_str("\\section{");
    s.append(name);
    s.append("}");
    s
}

pub fn sub_heading(name: &str) -> (r: String)
    ensures
        r@ == sub_heading_spec(name@),
{
    let mut s = String::from_str("\\subsubsection*{");
    s.append(name);
    s.append("}");
    s
}

pub fn input_directive(path: &str) -> (r: String)
    ensures
        r@ == input_directive_spec(path@),
{
    let mut s = String::from_str("\\input{");
    s.append(path);
    s.append("}");
    s
}

/// A path with every `"` and `\` escaped, built character by character.
pub fn escaped_str(s: &str) -> (r: String)
    ensures
        r@ == escaped(s@),
{
    let n = s.unicode_len();
    let mut out = String::new();
    let mut i: usize = 0;
    while i < n
        invariant
            i <= n,
            n == s@.len(),
            out@ == escaped(s@.subrange(0, i as int)),
        decreases n - i,
    {
        let c = s.get_char(i);
        if c == '"' || c == '\\' {
            out.append("\\");
        }
        let piece = s.substring_char(i, i + 1);
        out.append(piece);
        proof {
            let pre = s@.subrange(0, i as int);
            let pre1 = s@.subrange(0, i + 1);
            assert(pre1.drop_last() =~= pre);
            assert(piece@ =~= seq![s@[i as int]]);
            assert(out@ =~= escaped(pre1));
        }
        i = i + 1;
    }
    proof {
        assert(s@.subrange(0, n as int) =~= s@);
    }
    out
}

pub fn figure_directive(path: &str) -> (r: String)
    ensures
        r@ == figure_directive_spec(path@),
{
    let mut s = String::from_str("\\includegraphics[width=0.65\\textwidth]{\"");
    let esc = escaped_str(path);
    s.append(esc.as_str());
    s.append("\"}");
    s
}

} // verus!
