//! Path arithmetic on plain strings: base names, extensions, stems.
//!
//! A path is a sequence of characters whose components are separated by
//! `/`.  The base name is everything after the last separator; a base name
//! has an extension when it contains a `.` at some position after its first
//! character, so a leading-dot name such as `.config` counts as having no
//! extension.

use vstd::prelude::*;

verus! {

/// The base name of a path: the characters after the last `/`
/// (the whole path when there is no `/`, empty when the path ends in `/`).
pub open spec fn base_name(s: Seq<char>) -> Seq<char>
    decreases s.len(),
{
    if s.len() == 0 {
        Seq::empty()
    } else if s.last() == '/' {
        Seq::empty()
    } else {
        base_name(s.drop_last()).push(s.last())
    }
}

/// The index of the last `.` in `s`, or `-1` when there is none.
pub open spec fn last_dot(s: Seq<char>) -> int
    decreases s.len(),
{
    if s.len() == 0 {
        -1
    } else if s.last() == '.' {
        s.len() - 1
    } else {
        last_dot(s.drop_last())
    }
}

/// A path has an extension when its base name has a `.` after its first
/// character.
pub open spec fn has_extension(p: Seq<char>) -> bool {
    last_dot(base_name(p)) > 0
}

/// The extension of a path: the characters of the base name after its last
/// `.` (meaningful only when `has_extension(p)` holds).
pub open spec fn extension(p: Seq<char>) -> Seq<char> {
    let b = base_name(p);
    b.subrange(last_dot(b) + 1, b.len() as int)
}

/// The path with its `.extension` suffix removed (meaningful only when
/// `has_extension(p)` holds).
pub open spec fn stem(p: Seq<char>) -> Seq<char> {
    let b = base_name(p);
    p.subrange(0, p.len() - (b.len() - last_dot(b)))
}

/// If everything from position `i` on is free of `/` and position `i - 1`
/// (when it exists) holds a `/`, the base name is exactly the suffix that
/// starts at `i`.
pub proof fn lemma_base_name_is_suffix_at(s: Seq<char>, i: int)
    requires
        0 <= i <= s.len(),
        forall|j: int| i <= j < s.len() ==> s[j] != '/',
        i > 0 ==> s[i - 1] == '/',
    ensures
        base_name(s) == s.subrange(i, s.len() as int),
    decreases s.len(),
{
    if i == s.len() {
        if s.len() == 0 {
            assert(base_name(s) =~= s.subrange(i, s.len() as int));
        } else {
            assert(s.last() == '/');
            assert(base_name(s) =~= s.subrange(i, s.len() as int));
        }
    } else {
        assert(s.last() != '/');
        lemma_base_name_is_suffix_at(s.drop_last(), i);
        assert(s.drop_last().subrange(i, s.len() - 1) =~= s.subrange(i, s.len() - 1));
        assert(base_name(s) =~= s.subrange(i, s.len() as int));
    }
}

/// The base name is always a suffix of the path, no longer than the path.
pub proof fn lemma_base_name_is_suffix(s: Seq<char>)
    ensures
        base_name(s).len() <= s.len(),
        base_name(s) == s.subrange(s.len() - base_name(s).len(), s.len() as int),
    decreases s.len(),
{
    if s.len() == 0 {
        assert(base_name(s) =~= s.subrange(0, 0));
    } else if s.last() == '/' {
        assert(base_name(s) =~= s.subrange(s.len() as int, s.len() as int));
    } else {
        lemma_base_name_is_suffix(s.drop_last());
        let b = base_name(s);
        assert(b == base_name(s.drop_last()).push(s.last()));
        assert(s.drop_last().subrange(s.len() - b.len(), s.len() - 1) =~= s.subrange(
            s.len() - b.len(),
            s.len() - 1,
        ));
        assert(b =~= s.subrange(s.len() - b.len(), s.len() as int));
    }
}

/// When `s[d]` is the last `.` of `s`, `last_dot(s)` is `d`.
pub proof fn lemma_last_dot_at(s: Seq<char>, d: int)
    requires
        0 <= d < s.len(),
        s[d] == '.',
        forall|k: int| d < k < s.len() ==> s[k] != '.',
    ensures
        last_dot(s) == d,
    decreases s.len(),
{
    if d == s.len() - 1 {
    } else {
        assert(s.last() != '.');
        lemma_last_dot_at(s.drop_last(), d);
    }
}

/// When `s` holds no `.` at all, `last_dot(s)` is `-1`.
pub proof fn lemma_last_dot_none(s: Seq<char>)
    requires
        forall|k: int| 0 <= k < s.len() ==> s[k] != '.',
    ensures
        last_dot(s) == -1,
    decreases s.len(),
{
    if s.len() > 0 {
        lemma_last_dot_none(s.drop_last());
    }
}

/// Splitting a path with an extension at its last dot gives it back:
/// `stem . extension` laid end to end is the original path.
pub proof fn lemma_stem_extension_roundtrip(p: Seq<char>)
    requires
        has_extension(p),
    ensures
        stem(p) + seq!['.'] + extension(p) == p,
{
    let b = base_name(p);
    let ld = last_dot(b);
    lemma_base_name_is_suffix(p);
    lemma_last_dot_in_range(b);
    assert(p[p.len() - b.len() + ld] == b[ld]);
    assert(stem(p) + seq!['.'] + extension(p) =~= p);
}

/// `last_dot` always lies below the length of the sequence.
pub proof fn lemma_last_dot_in_range(s: Seq<char>)
    ensures
        -1 <= last_dot(s) < s.len(),
        last_dot(s) >= 0 ==> s[last_dot(s)] == '.',
    decreases s.len(),
{
    if s.len() > 0 && s.last() != '.' {
        lemma_last_dot_in_range(s.drop_last());
    }
}

/// Index where the base name starts: one past the last `/`, or `0` when the
/// string holds no `/`.
pub fn base_start(s: &str) -> (i: usize)
    ensures
        i <= s@.len(),
        forall|j: int| i <= j < s@.len() ==> s@[j] != '/',
        i > 0 ==> s@[i - 1] == '/',
{
    let n = s.unicode_len();
    let mut i = n;
    while i > 0 && s.get_char(i - 1) != '/'
        invariant
            i <= n,
            n == s@.len(),
            forall|j: int| i <= j < s@.len() ==> s@[j] != '/',
        decreases i,
    {
        i = i - 1;
    }
    i
}

/// The base name of a path string, as a borrowed suffix.
pub fn base_name_str(s: &str) -> (r: &str)
    ensures
        r@ == base_name(s@),
{
    let n = s.unicode_len();
    let i = base_start(s);
    proof {
        lemma_base_name_is_suffix_at(s@, i as int);
    }
    s.substring_char(i, n)
}

/// The index of the last `.` in a string, when there is one.
pub fn find_last_dot(s: &str) -> (r: Option<usize>)
    ensures
        match r {
            Some(d) => d == last_dot(s@),
            None => last_dot(s@) == -1,
        },
{
    let n = s.unicode_len();
    let mut i = n;
    while i > 0 && s.get_char(i - 1) != '.'
        invariant
            i <= n,
            n == s@.len(),
            forall|j: int| i <= j < s@.len() ==> s@[j] != '.',
        decreases i,
    {
        i = i - 1;
    }
    if i == 0 {
        proof {
            lemma_last_dot_none(s@);
        }
        None
    } else {
        proof {
            lemma_last_dot_at(s@, i - 1);
        }
        Some(i - 1)
    }
}

} // verus!
