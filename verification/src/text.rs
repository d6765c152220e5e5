//! Character-level helpers shared by the text-processing modules.
use vstd::prelude::*;

verus! {

/// What `char::to_lowercase` yields for `c`: the Unicode lowercase mapping,
/// one or more characters.
pub uninterp spec fn char_lowercase(c: char) -> Seq<char>;

/// Whether `char::is_alphabetic` holds of `c` (the Unicode `Alphabetic`
/// property).
pub uninterp spec fn char_is_alphabetic(c: char) -> bool;

/// Calls `char::to_lowercase` and collects the characters it yields.
/// Trusted: the result is the lowercase mapping of `c`, which depends on `c`
/// alone, and has one or more characters, as the documentation says; what
/// the mapping is, is left to the name `char_lowercase`.
#[verifier::external_body]
pub(crate) fn lowercase_string(c: char) -> (s: String)
    ensures
        s@ == char_lowercase(c),
        s@.len() >= 1,
{
    c.to_lowercase().to_string()
}

/// Calls `char::is_alphabetic`. Trusted: the answer depends on `c` alone and
/// is named `char_is_alphabetic`.
#[verifier::external_body]
pub(crate) fn is_alphabetic(c: char) -> (b: bool)
    ensures
        b == char_is_alphabetic(c),
{
    c.is_alphabetic()
}

/// Calls `String::push`. Trusted: it appends `c` to the end of `s`, as its
/// documentation says.
#[verifier::external_body]
pub(crate) fn push_char(s: &mut String, c: char)
    ensures
        final(s)@ == old(s)@.push(c),
{
    s.push(c)
}

/// The characters of `s`, in order.
pub(crate) fn chars_of(s: &str) -> (v: Vec<char>)
    ensures
        v@ == s@,
{
    let mut v: Vec<char> = Vec::new();
    for c in it: s.chars()
        invariant
            v@ == it.seq().take(it.index() as int),
    {
        v.push(c);
    }
    v
}

/// The string made of the characters `v[start..end]`.
pub(crate) fn string_of_range(v: &Vec<char>, start: usize, end: usize) -> (s: String)
    requires
        start <= end <= v.len(),
    ensures
        s@ == v@.subrange(start as int, end as int),
{
    let mut s = String::new();
    let mut i = start;
    while i < end
        invariant
            start <= i <= end <= v.len(),
            s@ == v@.subrange(start as int, i as int),
        decreases end - i,
    {
        push_char(&mut s, v[i]);
        i = i + 1;
        assert(s@ =~= v@.subrange(start as int, i as int));
    }
    s
}

} // verus!
