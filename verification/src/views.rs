//! Small helpers lifting vectors of strings to sequences of character
//! sequences, so contracts can speak about text mathematically.

use vstd::prelude::*;

verus! {

/// The character sequences of a sequence of strings, element by element.
pub open spec fn views_of(ss: Seq<String>) -> Seq<Seq<char>> {
    Seq::new(ss.len(), |i: int| ss[i]@)
}

/// Pushing a string onto the vector pushes its view onto the views.
pub proof fn lemma_views_of_push(ss: Seq<String>, s: String)
    ensures
        views_of(ss.push(s)) == views_of(ss).push(s@),
{
    assert(views_of(ss.push(s)) =~= views_of(ss).push(s@));
}

/// `views_of` distributes over concatenation.
pub proof fn lemma_views_of_concat(a: Seq<String>, b: Seq<String>)
    ensures
        views_of(a + b) == views_of(a) + views_of(b),
{
    assert(views_of(a + b) =~= views_of(a) + views_of(b));
}

} // verus!
