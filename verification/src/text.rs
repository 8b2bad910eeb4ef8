//! Substring search and replacement, specified over character sequences.
//!
//! The executable work is done by the string methods of std; each wrapper
//! states over the spec functions of this module exactly what the method
//! returns.

use vstd::prelude::*;

verus! {

/// `p` occurs as a contiguous substring of `s`.
pub open spec fn contains_sub(s: Seq<char>, p: Seq<char>) -> bool {
    exists|i: int| 0 <= i && i + p.len() <= s.len() && #[trigger] s.subrange(i, i + p.len()) == p
}

/// `s` with every occurrence of `p` replaced by `r`: matches are found left to
/// right and do not overlap, as `str::replace` finds them.
pub open spec fn replace_all(s: Seq<char>, p: Seq<char>, r: Seq<char>) -> Seq<char>
    decreases s.len(),
{
    if p.len() == 0 || s.len() < p.len() {
        s
    } else if s.subrange(0, p.len() as int) == p {
        r + replace_all(s.skip(p.len() as int), p, r)
    } else {
        s.take(1) + replace_all(s.skip(1), p, r)
    }
}

/// `s` with the leftmost occurrence of `p` removed; `s` itself when `p` does
/// not occur.
pub open spec fn remove_first(s: Seq<char>, p: Seq<char>) -> Seq<char>
    decreases s.len(),
{
    if p.len() == 0 || s.len() < p.len() {
        s
    } else if s.subrange(0, p.len() as int) == p {
        s.skip(p.len() as int)
    } else {
        s.take(1) + remove_first(s.skip(1), p)
    }
}

/// Removing an occurrence of a non-empty pattern makes the string shorter by
/// exactly the pattern's length.
pub proof fn lemma_remove_first_shorter(s: Seq<char>, p: Seq<char>)
    requires
        p.len() > 0,
        contains_sub(s, p),
    ensures
        remove_first(s, p).len() == s.len() - p.len(),
    decreases s.len(),
{
    let i = choose|i: int| 0 <= i && i + p.len() <= s.len() && #[trigger] s.subrange(
        i,
        i + p.len(),
    ) == p;
    assert(s.len() >= p.len());
    if s.subrange(0, p.len() as int) == p {
    } else {
        assert(i != 0);
        assert(s.skip(1).subrange(i - 1, i - 1 + p.len()) =~= s.subrange(i, i + p.len()));
        assert(contains_sub(s.skip(1), p));
        lemma_remove_first_shorter(s.skip(1), p);
    }
}

/// What `str::trim` returns: the input without its leading and trailing
/// Unicode whitespace. A function of the characters alone.
pub uninterp spec fn trim_of(s: Seq<char>) -> Seq<char>;

/// Relies on `str::contains`: true exactly when the pattern matches a
/// sub-slice of the string.
#[verifier::external_body]
pub(crate) fn contains_str(s: &str, p: &str) -> (r: bool)
    ensures
        r == contains_sub(s@, p@),
{
    s.contains(p)
}

/// Relies on `str::replace`: every non-overlapping match of `p`, found left to
/// right, is replaced by `r`.
#[verifier::external_body]
pub(crate) fn replace_str(s: &str, p: &str, r: &str) -> (res: String)
    requires
        p@.len() > 0,
    ensures
        res@ == replace_all(s@, p@, r@),
{
    s.replace(p, r)
}

/// Relies on `str::replacen` with a count of one: only the leftmost match of
/// `p` is replaced, here by the empty string, which removes it.
#[verifier::external_body]
pub(crate) fn remove_first_str(s: &str, p: &str) -> (res: String)
    requires
        p@.len() > 0,
    ensures
        res@ == remove_first(s@, p@),
{
    s.replacen(p, "", 1)
}

/// Relies on `str::trim`: returns the slice with leading and trailing
/// whitespace removed, a function of the characters alone.
#[verifier::external_body]
pub(crate) fn trim_str(s: &str) -> (res: String)
    ensures
        res@ == trim_of(s@),
{
    s.trim().to_string()
}

/// Relies on `str::strip_suffix`: returns the prefix before the suffix when
/// the string ends with it, and nothing otherwise.
#[verifier::external_body]
pub(crate) fn strip_suffix_str(s: &str, suffix: &str) -> (res: Option<String>)
    ensures
        match res {
            Some(stem) => s@ == stem@ + suffix@,
            None => !(exists|stem: Seq<char>| s@ == stem + suffix@),
        },
{
    match s.strip_suffix(suffix) {
        Some(stem) => Some(stem.to_string()),
        None => None,
    }
}

} // verus!
