//! Normalisation of raw corpus text: lower-casing and blanking punctuation.
use vstd::prelude::*;
use vstd::string::StringExecFns;
use crate::text::{char_lowercase, chars_of, lowercase_string, push_char, string_of_range};

verus! {

/// ASCII punctuation as `char::is_ascii_punctuation` defines it:
/// `!`..`/`, `:`..`@`, `[`..`` ` `` and `{`..`~`.
pub open spec fn is_ascii_punct(c: char) -> bool {
    let n = c as u32;
    (0x21 <= n <= 0x2f) || (0x3a <= n <= 0x40) || (0x5b <= n <= 0x60) || (0x7b <= n <= 0x7e)
}

/// Punctuation as the corpus uses it: ASCII punctuation, the section sign
/// and the typographic quotes and dash of Polish text.
pub open spec fn is_corpus_punct(c: char) -> bool {
    ||| is_ascii_punct(c)
    ||| c == '\u{a7}'
    ||| c == '\u{201d}'
    ||| c == '\u{201e}'
    ||| c == '\u{2013}'
}

/// What one input character becomes: a space for punctuation, its lowercase
/// mapping otherwise.
pub open spec fn normalised_char(c: char) -> Seq<char> {
    if is_corpus_punct(c) {
        seq![' ']
    } else {
        char_lowercase(c)
    }
}

/// The normalised text: each character of `s` replaced by `normalised_char`.
pub open spec fn normalised(s: Seq<char>) -> Seq<char>
    decreases s.len(),
{
    if s.len() == 0 {
        Seq::empty()
    } else {
        normalised(s.drop_last()) + normalised_char(s.last())
    }
}

/// The part of `s` after its last `/` (all of `s` when it has none): the last
/// item that splitting `s` at every `/` gives.
pub open spec fn last_segment(s: Seq<char>) -> Seq<char>
    decreases s.len(),
{
    if s.len() == 0 {
        Seq::empty()
    } else if s.last() == '/' {
        Seq::empty()
    } else {
        last_segment(s.drop_last()).push(s.last())
    }
}

/// Whether `c` is punctuation in the corpus.
pub fn is_punctuation_in_corpus(c: char) -> (b: bool)
    ensures
        b == is_corpus_punct(c),
{
    let n = c as u32;
    (0x21 <= n && n <= 0x2f) || (0x3a <= n && n <= 0x40) || (0x5b <= n && n <= 0x60)
        || (0x7b <= n && n <= 0x7e) || c == '\u{a7}' || c == '\u{201d}' || c == '\u{201e}'
        || c == '\u{2013}'
}

/// Lower-cases `str` and replaces each punctuation character by a space.
pub fn preprocess(str: String) -> (res: String)
    ensures
        res@ == normalised(str@),
        res@.len() >= str@.len(),
{
    let chars = chars_of(str.as_str());
    let mut res = String::new();
    let mut i: usize = 0;
    while i < chars.len()
        invariant
            i <= chars.len(),
            chars@ == str@,
            res@ == normalised(chars@.take(i as int)),
            res@.len() >= i,
        decreases chars.len() - i,
    {
        let c = chars[i];
        proof {
            assert(chars@.take(i + 1).drop_last() =~= chars@.take(i as int));
        }
        if is_punctuation_in_corpus(c) {
            push_char(&mut res, ' ');
        } else {
            let lower = lowercase_string(c);
            res.append(lower.as_str());
        }
        i = i + 1;
    }
    assert(chars@.take(chars.len() as int) =~= chars@);
    res
}

/// The file name in `path`: what follows its last `/`.
pub fn last_path_segment(path: &str) -> (name: String)
    ensures
        name@ == last_segment(path@),
{
    let chars = chars_of(path);
    let mut start: usize = 0;
    let mut i: usize = 0;
    while i < chars.len()
        invariant
            start <= i <= chars.len(),
            chars@ == path@,
            last_segment(chars@.take(i as int)) == chars@.subrange(start as int, i as int),
        decreases chars.len() - i,
    {
        proof {
            assert(chars@.take(i + 1).drop_last() =~= chars@.take(i as int));
        }
        if chars[i] == '/' {
            start = i + 1;
            assert(chars@.subrange(start as int, i + 1) =~= Seq::<char>::empty());
        } else {
            assert(chars@.subrange(start as int, i + 1) =~= chars@.subrange(start as int, i as int).push(chars@[i as int]));
        }
        i = i + 1;
    }
    assert(chars@.take(chars.len() as int) =~= chars@);
    string_of_range(&chars, start, chars.len())
}

/// Normalisation works character by character: normalising a concatenation
/// concatenates the normalised parts.
pub proof fn lemma_normalised_concat(a: Seq<char>, b: Seq<char>)
    ensures
        normalised(a + b) == normalised(a) + normalised(b),
    decreases b.len(),
{
    if b.len() == 0 {
        assert(a + b =~= a);
        assert(normalised(a) + normalised(b) =~= normalised(a));
    } else {
        lemma_normalised_concat(a, b.drop_last());
        assert((a + b).drop_last() =~= a + b.drop_last());
        assert((a + b).last() == b.last());
        assert(normalised(a) + normalised(b) =~= normalised(a) + normalised(b.drop_last())
            + normalised_char(b.last()));
    }
}

/// Punctuation never survives normalisation: each punctuation character
/// becomes exactly one space.
pub proof fn lemma_punctuation_blanked(c: char)
    requires
        is_corpus_punct(c),
    ensures
        normalised(seq![c]) == seq![' '],
{
    let s = seq![c];
    assert(s.drop_last() =~= Seq::<char>::empty());
    assert(s.last() == c);
    assert(normalised(s.drop_last()) == Seq::<char>::empty());
    assert(normalised(s) == normalised(s.drop_last()) + normalised_char(c));
    assert(Seq::<char>::empty() + seq![' '] =~= seq![' ']);
}

/// A single character normalises to its own piece.
proof fn lemma_normalised_single(c: char)
    ensures
        normalised(seq![c]) == normalised_char(c),
{
    let s = seq![c];
    assert(s.drop_last() =~= Seq::<char>::empty());
    assert(s.last() == c);
    assert(normalised(s.drop_last()) == Seq::<char>::empty());
    assert(Seq::<char>::empty() + normalised_char(c) =~= normalised_char(c));
}

/// Normalising twice gives what normalising once gives, wherever the
/// lowercase mapping leaves a space a space and its own results unchanged.
/// Whether `char::to_lowercase` does so is not stated of it here (it is
/// left to the name `char_lowercase`), so these two facts are assumed of
/// the characters involved.
pub proof fn lemma_preprocess_idempotent(s: Seq<char>)
    requires
        char_lowercase(' ') == seq![' '],
        forall|i: int|
            0 <= i < s.len() && !is_corpus_punct(s[i]) ==> normalised(
                #[trigger] char_lowercase(s[i]),
            ) == char_lowercase(s[i]),
    ensures
        normalised(normalised(s)) == normalised(s),
    decreases s.len(),
{
    if s.len() > 0 {
        let c = s.last();
        assert(forall|i: int| 0 <= i < s.drop_last().len() ==> s.drop_last()[i] == s[i]);
        lemma_preprocess_idempotent(s.drop_last());
        lemma_normalised_concat(normalised(s.drop_last()), normalised_char(c));
        if is_corpus_punct(c) {
            lemma_normalised_single(' ');
            assert(!is_corpus_punct(' '));
        } else {
            assert(s[s.len() - 1] == c);
        }
    }
}

/// Every ASCII punctuation character (`!` to `/`, `:` to `@`, `[` to `` ` ``,
/// `{` to `~`, as `char::is_ascii_punctuation` has them) and each of `§`,
/// `”`, `„` and `–` counts as punctuation of the corpus, so normalising it
/// gives exactly one space: no such character is left in the output.
pub proof fn lemma_ascii_punctuation_blanked(c: char)
    requires
        (0x21 <= c as u32 && c as u32 <= 0x2f) || (0x3a <= c as u32 && c as u32 <= 0x40) || (0x5b
            <= c as u32 && c as u32 <= 0x60) || (0x7b <= c as u32 && c as u32 <= 0x7e) || c as u32
            == 0xa7 || c as u32 == 0x201d || c as u32 == 0x201e || c as u32 == 0x2013,
    ensures
        is_corpus_punct(c),
        normalised(seq![c]) == seq![' '],
{
    lemma_punctuation_blanked(c);
}

/// Normalising a text puts a space exactly where each of its ASCII
/// punctuation characters stood relative to the pieces before it: the
/// output is the normalised text before the character, a space, and the
/// normalised text after it.
pub proof fn lemma_punctuation_becomes_space(a: Seq<char>, c: char, b: Seq<char>)
    requires
        (0x21 <= c as u32 && c as u32 <= 0x2f) || (0x3a <= c as u32 && c as u32 <= 0x40) || (0x5b
            <= c as u32 && c as u32 <= 0x60) || (0x7b <= c as u32 && c as u32 <= 0x7e),
    ensures
        normalised(a + seq![c] + b) == normalised(a) + seq![' '] + normalised(b),
{
    lemma_ascii_punctuation_blanked(c);
    lemma_normalised_concat(a + seq![c], b);
    lemma_normalised_concat(a, seq![c]);
}

} // verus!
