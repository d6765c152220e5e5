//! A text key for each tagged bigram, distinct for distinct bigrams, by
//! which a hash map finds a bigram's counter slot.
use vstd::prelude::*;
use vstd::string::StringExecFns;
use crate::tag::{BigramView, TaggedBigram};
use crate::text::{chars_of, push_char};

verus! {

/// How one character is written in a key: a backslash and a tab are
/// escaped with a backslash, every other character stands for itself.
pub open spec fn escape_char(c: char) -> Seq<char> {
    if c == '\\' {
        seq!['\\', '\\']
    } else if c == '\t' {
        seq!['\\', 't']
    } else {
        seq![c]
    }
}

/// `s` with each character escaped.
pub open spec fn escaped(s: Seq<char>) -> Seq<char>
    decreases s.len(),
{
    if s.len() == 0 {
        Seq::empty()
    } else {
        escape_char(s[0]) + escaped(s.drop_first())
    }
}

/// `s` escaped and closed by a tab.
pub open spec fn field(s: Seq<char>) -> Seq<char> {
    escaped(s) + seq!['\t']
}

/// The key of a bigram: its lemmas and categories, escaped, each closed by
/// a tab.
pub open spec fn key_text(b: BigramView) -> Seq<char> {
    field(b.0.0) + field(b.0.1) + field(b.1.0) + field(b.1.1)
}

/// Escaping a concatenation concatenates the escaped parts.
proof fn lemma_escaped_concat(a: Seq<char>, b: Seq<char>)
    ensures
        escaped(a + b) == escaped(a) + escaped(b),
    decreases a.len(),
{
    if a.len() == 0 {
        assert(a + b =~= b);
        assert(escaped(a) + escaped(b) =~= escaped(b));
    } else {
        lemma_escaped_concat(a.drop_first(), b);
        assert((a + b).drop_first() =~= a.drop_first() + b);
        assert((a + b)[0] == a[0]);
        assert(escape_char(a[0]) + (escaped(a.drop_first()) + escaped(b)) =~= escape_char(a[0])
            + escaped(a.drop_first()) + escaped(b));
    }
}

/// An escaped text followed by a tab can be read back: where two of them,
/// each followed by more text, agree, the texts and what follows agree.
proof fn lemma_field_unique(a: Seq<char>, b: Seq<char>, ra: Seq<char>, rb: Seq<char>)
    requires
        field(a) + ra == field(b) + rb,
    ensures
        a == b,
        ra == rb,
    decreases a.len() + b.len(),
{
    let la = field(a) + ra;
    let lb = field(b) + rb;
    if a.len() == 0 && b.len() == 0 {
        assert(ra =~= la.drop_first());
        assert(rb =~= lb.drop_first());
    } else if a.len() == 0 {
        assert(la[0] == '\t');
        assert(lb[0] == escape_char(b[0])[0]);
    } else if b.len() == 0 {
        assert(lb[0] == '\t');
        assert(la[0] == escape_char(a[0])[0]);
    } else {
        let ea = escape_char(a[0]);
        let eb = escape_char(b[0]);
        assert(la =~= ea + (field(a.drop_first()) + ra));
        assert(lb =~= eb + (field(b.drop_first()) + rb));
        assert(la[0] == ea[0]);
        assert(lb[0] == eb[0]);
        if ea.len() == 2 {
            assert(la[1] == ea[1]);
            assert(eb.len() == 2);
            assert(lb[1] == eb[1]);
        }
        assert(a[0] == b[0]);
        assert(ea == eb);
        let n = ea.len() as int;
        assert(field(a.drop_first()) + ra =~= la.subrange(n, la.len() as int));
        assert(field(b.drop_first()) + rb =~= lb.subrange(n, lb.len() as int));
        lemma_field_unique(a.drop_first(), b.drop_first(), ra, rb);
        assert(a =~= seq![a[0]] + a.drop_first());
        assert(b =~= seq![b[0]] + b.drop_first());
    }
}

/// Distinct bigrams have distinct keys.
pub proof fn lemma_key_text_injective(x: BigramView, y: BigramView)
    requires
        key_text(x) == key_text(y),
    ensures
        x == y,
{
    let e = Seq::<char>::empty();
    let kx = key_text(x);
    assert(kx =~= field(x.0.0) + (field(x.0.1) + field(x.1.0) + field(x.1.1)));
    assert(key_text(y) =~= field(y.0.0) + (field(y.0.1) + field(y.1.0) + field(y.1.1)));
    lemma_field_unique(x.0.0, y.0.0, field(x.0.1) + field(x.1.0) + field(x.1.1), field(y.0.1)
        + field(y.1.0) + field(y.1.1));
    assert(field(x.0.1) + field(x.1.0) + field(x.1.1) =~= field(x.0.1) + (field(x.1.0) + field(
        x.1.1,
    )));
    assert(field(y.0.1) + field(y.1.0) + field(y.1.1) =~= field(y.0.1) + (field(y.1.0) + field(
        y.1.1,
    )));
    lemma_field_unique(x.0.1, y.0.1, field(x.1.0) + field(x.1.1), field(y.1.0) + field(y.1.1));
    lemma_field_unique(x.1.0, y.1.0, field(x.1.1), field(y.1.1));
    assert(field(x.1.1) =~= field(x.1.1) + e);
    assert(field(y.1.1) =~= field(y.1.1) + e);
    lemma_field_unique(x.1.1, y.1.1, e, e);
}

/// Appends `s`, escaped and closed by a tab, to `out`.
fn push_field(out: &mut String, s: &str)
    ensures
        final(out)@ == old(out)@ + field(s@),
{
    let chars = chars_of(s);
    let ghost start = out@;
    let mut i: usize = 0;
    assert(chars@.take(0) =~= Seq::<char>::empty());
    while i < chars.len()
        invariant
            i <= chars.len(),
            chars@ == s@,
            out@ == start + escaped(chars@.take(i as int)),
        decreases chars.len() - i,
    {
        let c = chars[i];
        proof {
            assert(chars@.take(i + 1) =~= chars@.take(i as int) + seq![c]);
            lemma_escaped_concat(chars@.take(i as int), seq![c]);
            assert(seq![c].drop_first() =~= Seq::<char>::empty());
            assert(seq![c][0] == c);
            assert(escaped(Seq::<char>::empty()) == Seq::<char>::empty());
            assert(escaped(seq![c]) == escape_char(c) + escaped(seq![c].drop_first()));
            assert(escaped(seq![c]) =~= escape_char(c));
        }
        if c == '\\' {
            push_char(out, '\\');
            push_char(out, '\\');
        } else if c == '\t' {
            push_char(out, '\\');
            push_char(out, 't');
        } else {
            push_char(out, c);
        }
        i = i + 1;
    }
    assert(chars@.take(chars.len() as int) =~= chars@);
    push_char(out, '\t');
}

/// The key of `b`.
pub fn key_of(b: &TaggedBigram) -> (k: String)
    ensures
        k@ == key_text(b@),
{
    let mut k = String::new();
    push_field(&mut k, b.w1.w.as_str());
    push_field(&mut k, b.w1.cat.as_str());
    push_field(&mut k, b.w2.w.as_str());
    push_field(&mut k, b.w2.cat.as_str());
    assert(k@ =~= key_text(b@));
    k
}

} // verus!
