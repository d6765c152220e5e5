//! Tagged bigrams: parsing the tagger's answer, and counting bigrams.
use vstd::prelude::*;
use vstd::hash_map::StringHashMap;
use crate::text::{char_is_alphabetic, chars_of, is_alphabetic, string_of_range};
use crate::utils::{BigramCounts, hash_to_vec, keys_distinct, lemma_pairs_map_keys, lemma_pairs_map_push, lemma_pairs_map_value, pairs_map};

verus! {

/// A word (its lemma) with its grammatical category.
#[derive(Debug, Clone, PartialEq, Eq, Hash)]
pub struct Unigram {
    pub w: String,
    pub cat: String,
}

/// Two consecutive tagged words of the corpus.
#[derive(Debug, Clone, PartialEq, Eq, Hash)]
pub struct TaggedBigram {
    pub w1: Unigram,
    pub w2: Unigram,
}

/// A unigram seen as its lemma and category.
pub type UnigramView = (Seq<char>, Seq<char>);

/// A bigram seen as its two unigrams.
pub type BigramView = (UnigramView, UnigramView);

impl View for Unigram {
    type V = UnigramView;

    open spec fn view(&self) -> UnigramView {
        (self.w@, self.cat@)
    }
}

impl View for TaggedBigram {
    type V = BigramView;

    open spec fn view(&self) -> BigramView {
        (self.w1@, self.w2@)
    }
}

impl Unigram {
    /// A copy of this unigram.
    pub fn duplicate(&self) -> (r: Unigram)
        ensures
            r@ == self@,
    {
        Unigram { w: self.w.clone(), cat: self.cat.clone() }
    }

    /// Whether the two unigrams have the same lemma and category.
    pub fn same_as(&self, other: &Unigram) -> (b: bool)
        ensures
            b == (self@ == other@),
    {
        self.w == other.w && self.cat == other.cat
    }
}

impl TaggedBigram {
    /// A copy of this bigram.
    pub fn duplicate(&self) -> (r: TaggedBigram)
        ensures
            r@ == self@,
    {
        TaggedBigram { w1: self.w1.duplicate(), w2: self.w2.duplicate() }
    }

    /// Whether the two bigrams consist of the same unigrams.
    pub fn same_as(&self, other: &TaggedBigram) -> (b: bool)
        ensures
            b == (self@ == other@),
    {
        self.w1.same_as(&other.w1) && self.w2.same_as(&other.w2)
    }
}

/// How many of the bigrams of `s` are `b`.
pub open spec fn occurrences(s: Seq<TaggedBigram>, b: BigramView) -> int
    decreases s.len(),
{
    if s.len() == 0 {
        0
    } else {
        occurrences(s.drop_last(), b) + (if s.last()@ == b { 1int } else { 0 })
    }
}

/// A prefix of a list holds a bigram at most as often as the whole list.
proof fn lemma_occurrences_prefix(s: Seq<TaggedBigram>, k: int, b: BigramView)
    requires
        0 <= k <= s.len(),
    ensures
        0 <= occurrences(s.take(k), b) <= occurrences(s, b),
    decreases s.len() - k,
{
    if k < s.len() {
        lemma_occurrences_prefix(s, k + 1, b);
        lemma_occurrences_nonneg(s.take(k), b);
        assert(s.take(k + 1).drop_last() =~= s.take(k));
    } else {
        assert(s.take(k) =~= s);
        lemma_occurrences_nonneg(s, b);
    }
}

/// Occurrences are never negative.
proof fn lemma_occurrences_nonneg(s: Seq<TaggedBigram>, b: BigramView)
    ensures
        occurrences(s, b) >= 0,
    decreases s.len(),
{
    if s.len() > 0 {
        lemma_occurrences_nonneg(s.drop_last(), b);
    }
}

/// `m` holds the bigrams that occur more than once in `v`, each with how
/// often it occurs.
pub open spec fn counts_repeated(m: Map<BigramView, i32>, v: Seq<TaggedBigram>) -> bool {
    forall|b: BigramView|
        #![trigger m.contains_key(b)]
        (m.contains_key(b) <==> occurrences(v, b) > 1) && (m.contains_key(b) ==> m[b] == occurrences(
            v,
            b,
        ))
}

/// Counts how often each bigram of `v` occurs and keeps those that occur
/// more than once; `None` when some bigram occurs more often than an `i32`
/// can count.
pub fn count_tagged_bigrams(v: Vec<TaggedBigram>) -> (res: Option<BigramCounts>)
    ensures
        res is None <==> exists|b: BigramView| occurrences(v@, b) > i32::MAX,
        res matches Some(m) ==> counts_repeated(m@, v@),
{
    let ghost whole = v@;
    let mut counts = BigramCounts::new();
    assert(whole.take(0) =~= Seq::<TaggedBigram>::empty());
    for t in it: v
        invariant
            it.seq() == whole,
            forall|b: BigramView|
                #![trigger occurrences(whole.take(it.index() as int), b)]
                0 <= occurrences(whole.take(it.index() as int), b) <= i32::MAX,
            forall|b: BigramView|
                #![trigger counts@.contains_key(b)]
                counts@.contains_key(b) <==> occurrences(whole.take(it.index() as int), b) > 0,
            forall|b: BigramView|
                #![trigger counts@.contains_key(b)]
                counts@.contains_key(b) ==> counts@[b] == occurrences(
                    whole.take(it.index() as int),
                    b,
                ),
    {
        let ghost i = it.index();
        let ghost pre = whole.take(i as int);
        let ghost post = whole.take(i + 1);
        assert(post.drop_last() =~= pre);
        assert(post.last() == t);
        assert(0 <= occurrences(pre, t@) <= i32::MAX);
        let c: i32 = match counts.get(&t) {
            Some(c) => c,
            None => 0,
        };
        let ghost key = t@;
        if c == i32::MAX {
            proof {
                lemma_occurrences_prefix(whole, i + 1, key);
            }
            return None;
        }
        proof {
            lemma_occurrences_prefix(whole, i + 1, key);
        }
        counts.insert(t, c + 1);
        assert(forall|b: BigramView| #[trigger]
            occurrences(post, b) == occurrences(pre, b) + (if key == b { 1int } else { 0 }));
    }
    assert(whole.take(whole.len() as int) =~= whole);
    let pairs = hash_to_vec(counts);
    let ghost all_pairs = pairs@;
    let mut res = BigramCounts::new();
    assert(all_pairs.take(0) =~= Seq::<(TaggedBigram, i32)>::empty());
    for p in it: pairs
        invariant
            it.seq() == all_pairs,
            keys_distinct(all_pairs),
            forall|b: BigramView|
                #![trigger res@.contains_key(b)]
                (res@.contains_key(b) <==> (pairs_map(all_pairs.take(it.index() as int)).contains_key(b)
                    && pairs_map(all_pairs.take(it.index() as int))[b] > 1)) && (res@.contains_key(b)
                    ==> res@[b] == pairs_map(all_pairs.take(it.index() as int))[b]),
    {
        let ghost i = it.index();
        let ghost pre = all_pairs.take(i as int);
        proof {
            assert(all_pairs.take(i + 1) =~= pre.push(p));
            lemma_pairs_map_push(pre, p);
            lemma_pairs_map_keys(pre, p.0@);
            if pairs_map(pre).contains_key(p.0@) {
                let j = choose|j: int| 0 <= j < pre.len() && pre[j].0@ == p.0@;
                assert(all_pairs[j] == pre[j]);
                assert(all_pairs[i as int] == p);
            }
        }
        if p.1 > 1 {
            res.insert(p.0, p.1);
        }
    }
    proof {
        assert(all_pairs.take(all_pairs.len() as int) =~= all_pairs);
        if exists|b: BigramView| occurrences(whole, b) > i32::MAX {
            let b = choose|b: BigramView| occurrences(whole, b) > i32::MAX;
            assert(occurrences(whole.take(whole.len() as int), b) <= i32::MAX);
        }
    }
    Some(res)
}

/// The count of `k` in `m`, or zero when `m` has none.
pub open spec fn count_or_zero(m: Map<BigramView, i32>, k: BigramView) -> int {
    if m.contains_key(k) {
        m[k] as int
    } else {
        0
    }
}

/// `x` is within the range of `i32`.
pub open spec fn fits_i32(x: int) -> bool {
    i32::MIN <= x <= i32::MAX
}

/// Adding the counts of `m2` to those of `m1` stays within the `i32` range.
pub open spec fn merge_fits(m1: Map<BigramView, i32>, m2: Map<BigramView, i32>) -> bool {
    forall|k: BigramView| #[trigger] m2.contains_key(k) ==> fits_i32(count_or_zero(m1, k) + m2[k])
}

/// The counts of `m1` and `m2` added up, bigram by bigram.
pub open spec fn merged(m1: Map<BigramView, i32>, m2: Map<BigramView, i32>) -> Map<
    BigramView,
    i32,
> {
    Map::new(
        |k: BigramView| m1.contains_key(k) || m2.contains_key(k),
        |k: BigramView| (count_or_zero(m1, k) + count_or_zero(m2, k)) as i32,
    )
}

/// The two counters added up; `None` when a sum leaves the `i32` range.
pub fn merged_counters(h1: BigramCounts, h2: BigramCounts) -> (res: Option<BigramCounts>)
    ensures
        res is None <==> !merge_fits(h1@, h2@),
        res matches Some(m) ==> m@ == merged(h1@, h2@),
        res matches Some(m) ==> forall|k: BigramView| #[trigger]
            m@.contains_key(k) ==> m@[k] == count_or_zero(h1@, k) + count_or_zero(h2@, k),
{
    let ghost m1 = h1@;
    let ghost m2 = h2@;
    let mut res = h1;
    let pairs = hash_to_vec(h2);
    let ghost all_pairs = pairs@;
    assert(all_pairs.take(0) =~= Seq::<(TaggedBigram, i32)>::empty());
    assert(res@ =~= merged(m1, pairs_map(all_pairs.take(0))));
    for p in it: pairs
        invariant
            it.seq() == all_pairs,
            keys_distinct(all_pairs),
            pairs_map(all_pairs) == m2,
            m1 == h1@,
            m2 == h2@,
            merge_fits(m1, pairs_map(all_pairs.take(it.index() as int))),
            res@ == merged(m1, pairs_map(all_pairs.take(it.index() as int))),
    {
        let ghost i = it.index();
        let ghost pre = all_pairs.take(i as int);
        proof {
            assert(all_pairs.take(i + 1) =~= pre.push(p));
            lemma_pairs_map_push(pre, p);
            lemma_pairs_map_keys(pre, p.0@);
            if pairs_map(pre).contains_key(p.0@) {
                let j = choose|j: int| 0 <= j < pre.len() && pre[j].0@ == p.0@;
                assert(all_pairs[j] == pre[j]);
                assert(all_pairs[i as int] == p);
            }
            assert(all_pairs[i as int] == p);
            lemma_pairs_map_value(all_pairs, i as int);
        }
        let c1: i32 = match res.get(&p.0) {
            Some(c) => c,
            None => 0,
        };
        assert(c1 == count_or_zero(m1, p.0@));
        let sum = match c1.checked_add(p.1) {
            Some(s) => s,
            None => {
                assert(m2.contains_key(p.0@));
                assert(!fits_i32(count_or_zero(m1, p.0@) + m2[p.0@]));
                return None;
            },
        };
        let ghost key = p.0@;
        res.insert(p.0, sum);
        proof {
            let post_map = pairs_map(all_pairs.take(i + 1));
            assert(post_map == pairs_map(pre).insert(key, p.1));
            assert(res@ =~= merged(m1, post_map));
        }
    }
    proof {
        assert(all_pairs.take(all_pairs.len() as int) =~= all_pairs);
        assert forall|k: BigramView| #[trigger] res@.contains_key(k) implies res@[k] == count_or_zero(
            m1,
            k,
        ) + count_or_zero(m2, k) by {
            if m2.contains_key(k) {
                assert(fits_i32(count_or_zero(m1, k) + m2[k]));
            }
        }
    }
    Some(res)
}

/// The counters of `ms` merged one after the other, starting from none.
pub open spec fn merge_running(ms: Seq<Map<BigramView, i32>>) -> Map<BigramView, i32>
    decreases ms.len(),
{
    if ms.len() == 0 {
        Map::empty()
    } else {
        merged(merge_running(ms.drop_last()), ms.last())
    }
}

/// Merging the counters of `ms` one after the other leaves the `i32` range
/// at some step.
pub open spec fn merge_all_overflows(ms: Seq<Map<BigramView, i32>>) -> bool {
    exists|i: int| 0 <= i < ms.len() && !merge_fits(#[trigger] merge_running(ms.take(i)), ms[i])
}

/// The counts of each counter of `cs`.
pub open spec fn counter_views(cs: Seq<BigramCounts>) -> Seq<Map<BigramView, i32>> {
    cs.map_values(|c: BigramCounts| c@)
}

/// All the counters of `cs` merged, in order; the empty counter when there
/// are none; `None` when a running sum leaves the `i32` range.
pub fn merge_all(cs: Vec<BigramCounts>) -> (res: Option<BigramCounts>)
    ensures
        res is None <==> merge_all_overflows(counter_views(cs@)),
        res matches Some(m) ==> m@ == merge_running(counter_views(cs@)),
{
    let ghost views = counter_views(cs@);
    let mut acc = BigramCounts::new();
    assert(views.take(0) =~= Seq::<Map<BigramView, i32>>::empty());
    assert(acc@ =~= merge_running(views.take(0)));
    for c in it: cs
        invariant
            views == counter_views(it.seq()),
            acc@ == merge_running(views.take(it.index() as int)),
            forall|j: int|
                0 <= j < it.index() ==> merge_fits(#[trigger] merge_running(views.take(j)), views[j]),
    {
        let ghost i = it.index();
        proof {
            assert(views[i as int] == c@);
            assert(views.take(i + 1).drop_last() =~= views.take(i as int));
            assert(views.take(i + 1).last() == views[i as int]);
        }
        match merged_counters(acc, c) {
            Some(m) => {
                acc = m;
            },
            None => {
                assert(!merge_fits(merge_running(views.take(i as int)), views[i as int]));
                return None;
            },
        }
    }
    proof {
        assert(views.take(views.len() as int) =~= views);
    }
    Some(acc)
}

/// Merging counters does not depend on their order: the sums fit either
/// way or neither, and the counts are the same.
pub proof fn lemma_merge_commutes(m1: Map<BigramView, i32>, m2: Map<BigramView, i32>)
    ensures
        merge_fits(m1, m2) <==> merge_fits(m2, m1),
        merged(m1, m2) == merged(m2, m1),
{
    assert(merged(m1, m2) =~= merged(m2, m1));
    if merge_fits(m1, m2) {
        assert forall|k: BigramView| #[trigger] m1.contains_key(k) implies fits_i32(
            count_or_zero(m2, k) + m1[k],
        ) by {
            if m2.contains_key(k) {
                assert(fits_i32(count_or_zero(m1, k) + m2[k]));
            }
        }
    }
    if merge_fits(m2, m1) {
        assert forall|k: BigramView| #[trigger] m2.contains_key(k) implies fits_i32(
            count_or_zero(m1, k) + m2[k],
        ) by {
            if m1.contains_key(k) {
                assert(fits_i32(count_or_zero(m2, k) + m1[k]));
            }
        }
    }
}

/// The empty counter changes nothing when merged, on either side.
pub proof fn lemma_merge_empty(m: Map<BigramView, i32>)
    ensures
        merge_fits(m, Map::empty()),
        merge_fits(Map::empty(), m),
        merged(m, Map::empty()) == m,
        merged(Map::empty(), m) == m,
{
    assert(merged(m, Map::empty()) =~= m);
    assert(merged(Map::empty(), m) =~= m);
}

/// Where neither grouping overflows, merging three counters gives the same
/// counts whichever two are merged first.
pub proof fn lemma_merge_associative(
    a: Map<BigramView, i32>,
    b: Map<BigramView, i32>,
    c: Map<BigramView, i32>,
)
    requires
        merge_fits(a, b),
        merge_fits(merged(a, b), c),
        merge_fits(b, c),
        merge_fits(a, merged(b, c)),
    ensures
        merged(merged(a, b), c) == merged(a, merged(b, c)),
{
    assert forall|k: BigramView| #[trigger] merged(merged(a, b), c).contains_key(k) implies merged(
        merged(a, b),
        c,
    )[k] == merged(a, merged(b, c))[k] by {
        if b.contains_key(k) {
            assert(fits_i32(count_or_zero(a, k) + b[k]));
        }
        if c.contains_key(k) {
            assert(fits_i32(count_or_zero(merged(a, b), k) + c[k]));
            assert(fits_i32(count_or_zero(b, k) + c[k]));
        }
        if merged(b, c).contains_key(k) {
            assert(fits_i32(count_or_zero(a, k) + merged(b, c)[k]));
        }
    }
    assert(merged(merged(a, b), c) =~= merged(a, merged(b, c)));
}

/// Declares `regex::Regex` to the verifier; values of it are opaque.
#[verifier::external_type_specification]
#[verifier::external_body]
pub struct ExRegex(regex::Regex);

/// Declares `regex::Error` to the verifier.
#[verifier::external_type_specification]
#[verifier::external_body]
pub struct ExRegexError(regex::Error);

/// Whether `Regex::new` accepts `pattern`.
pub uninterp spec fn regex_compiles(pattern: Seq<char>) -> bool;

/// What the regex compiled from `pattern` captures in `text`: `None` when it
/// does not match; otherwise the text of the groups named `lemma` and `cat`
/// of the leftmost-first match, each `None` when that group took no part.
pub uninterp spec fn lemma_cat_captures(pattern: Seq<char>, text: Seq<char>) -> Option<
    (Option<Seq<char>>, Option<Seq<char>>),
>;

/// Calls `regex::Regex::new` and pairs the compiled regex with the pattern
/// it was compiled from. Trusted: it succeeds exactly on the patterns it
/// accepts, which depend on the pattern alone, and the `CatRegex` it gives
/// holds the regex compiled from `pattern` together with `pattern` itself.
#[verifier::external_body]
fn regex_new(pattern: &str) -> (r: Result<CatRegex, regex::Error>)
    ensures
        r is Ok <==> regex_compiles(pattern@),
        r matches Ok(c) ==> c@ == pattern@,
{
    match regex::Regex::new(pattern) {
        Ok(re) => Ok(CatRegex { re, pattern: pattern.to_string() }),
        Err(e) => Err(e),
    }
}

/// A pattern that is not a valid regular expression.
#[derive(Debug)]
pub enum PatternError {
    Invalid,
}

/// A compiled regular expression for the tagger's answer lines, with the
/// pattern it was compiled from. Its fields are private and `regex_new`,
/// which `CatRegex::new` calls, is the only place that builds one, always
/// with `re` compiled from `pattern`, as its trusted contract states: the
/// contract of `captures_lemma_cat` rests on that.
pub struct CatRegex {
    re: regex::Regex,
    pattern: String,
}

impl View for CatRegex {
    type V = Seq<char>;

    closed spec fn view(&self) -> Seq<char> {
        self.pattern@
    }
}

impl CatRegex {
    /// Compiles `pattern`.
    pub fn new(pattern: &str) -> (r: Result<CatRegex, PatternError>)
        ensures
            r is Ok <==> regex_compiles(pattern@),
            r matches Ok(c) ==> c@ == pattern@,
    {
        match regex_new(pattern) {
            Ok(c) => Ok(c),
            Err(_) => Err(PatternError::Invalid),
        }
    }
}

/// Calls `Regex::captures` on `text` and reads the groups `lemma` and `cat`
/// of the match (`Captures::name`). Trusted: the result is what the regex
/// compiled from `re`'s pattern captures in `text`, a function of the
/// pattern and the text that is left to the name `lemma_cat_captures`.
#[verifier::external_body]
fn captures_lemma_cat(re: &CatRegex, text: &str) -> (r: Option<(Option<String>, Option<String>)>)
    ensures
        r.deep_view() == lemma_cat_captures(re@, text@),
{
    match re.re.captures(text) {
        Some(caps) => Some(
            (
                caps.name("lemma").map(|m| m.as_str().to_string()),
                caps.name("cat").map(|m| m.as_str().to_string()),
            ),
        ),
        None => None,
    }
}

/// The unigram that a tagger line describes, by the regex compiled from
/// `pattern`: its lemma and category when the regex matches with both groups.
pub open spec fn cat_unigram(pattern: Seq<char>, line: Seq<char>) -> Option<UnigramView> {
    match lemma_cat_captures(pattern, line) {
        Some((Some(lemma), Some(cat))) => Some((lemma, cat)),
        _ => None,
    }
}

/// The unigram that the captured groups describe: the `lemma` and `cat`
/// groups when the regex matched with both.
pub fn unigram_from_captures(caps: Option<(Option<String>, Option<String>)>) -> (r: Option<Unigram>)
    ensures
        r is Some <==> caps matches Some((Some(_), Some(_))),
        caps matches Some((Some(lemma), Some(cat))) ==> r matches Some(u) && u.w@ == lemma@ && u.cat@
            == cat@,
{
    match caps {
        Some((Some(lemma), Some(cat))) => Some(Unigram { w: lemma, cat }),
        _ => None,
    }
}

/// The lemma and category that `s` describes; `None` when the regex does
/// not match it (or, for a regex without both named groups, when one of
/// them takes no part in the match). `label` names the line in messages only.
pub fn parse_cat(label: &str, s: &str, cat_regex: &CatRegex) -> (r: Option<Unigram>)
    ensures
        match r {
            Some(u) => cat_unigram(cat_regex@, s@) == Some(u@),
            None => cat_unigram(cat_regex@, s@) is None,
        },
{
    let caps = captures_lemma_cat(cat_regex, s);
    unigram_from_captures(caps)
}

/// Every character of `s` is alphabetic.
pub open spec fn all_alphabetic(s: Seq<char>) -> bool {
    forall|i: int| 0 <= i < s.len() ==> char_is_alphabetic(#[trigger] s[i])
}

/// Whether every character of `s` is alphabetic.
pub fn is_all_alphabetic(s: &str) -> (b: bool)
    ensures
        b == all_alphabetic(s@),
        b == forall|i: int| 0 <= i < s@.len() ==> char_is_alphabetic(#[trigger] s@[i]),
{
    let chars = chars_of(s);
    let mut i: usize = 0;
    while i < chars.len()
        invariant
            i <= chars.len(),
            chars@ == s@,
            forall|j: int| 0 <= j < i ==> char_is_alphabetic(#[trigger] s@[j]),
        decreases chars.len() - i,
    {
        if !is_alphabetic(chars[i]) {
            assert(!char_is_alphabetic(s@[i as int]));
            return false;
        }
        i = i + 1;
    }
    true
}

/// The pieces of `s` between line feeds, as splitting at every `\n` gives
/// them (empty pieces included).
pub open spec fn split_lines(s: Seq<char>) -> Seq<Seq<char>>
    decreases s.len(),
{
    if s.len() == 0 {
        seq![Seq::empty()]
    } else if s.last() == '\n' {
        split_lines(s.drop_last()).push(Seq::empty())
    } else {
        let ls = split_lines(s.drop_last());
        ls.update(ls.len() - 1, ls.last().push(s.last()))
    }
}

/// The non-empty lines among `ls`, in order.
pub open spec fn drop_empty(ls: Seq<Seq<char>>) -> Seq<Seq<char>>
    decreases ls.len(),
{
    if ls.len() == 0 {
        Seq::empty()
    } else if ls.last().len() == 0 {
        drop_empty(ls.drop_last())
    } else {
        drop_empty(ls.drop_last()).push(ls.last())
    }
}

/// The non-empty lines of `s`.
pub open spec fn tag_lines(s: Seq<char>) -> Seq<Seq<char>> {
    drop_empty(split_lines(s))
}

/// Splitting never gives an empty list of pieces.
proof fn lemma_split_lines_nonempty(s: Seq<char>)
    ensures
        split_lines(s).len() >= 1,
    decreases s.len(),
{
    if s.len() > 0 {
        lemma_split_lines_nonempty(s.drop_last());
    }
}

/// The non-empty lines of `input`, in order.
pub fn nonempty_lines(input: &str) -> (lines: Vec<String>)
    ensures
        lines.len() == tag_lines(input@).len(),
        forall|i: int| 0 <= i < lines.len() ==> (#[trigger] lines@[i])@ == tag_lines(input@)[i],
{
    let chars = chars_of(input);
    let mut lines: Vec<String> = Vec::new();
    let ghost mut done: Seq<Seq<char>> = Seq::empty();
    let mut start: usize = 0;
    let mut i: usize = 0;
    assert(chars@.take(0) =~= Seq::<char>::empty());
    assert(chars@.subrange(0, 0) =~= Seq::<char>::empty());
    while i < chars.len()
        invariant
            start <= i <= chars.len(),
            chars@ == input@,
            split_lines(chars@.take(i as int)) == done.push(chars@.subrange(start as int, i as int)),
            lines.len() == drop_empty(done).len(),
            forall|j: int| 0 <= j < lines.len() ==> (#[trigger] lines@[j])@ == drop_empty(done)[j],
        decreases chars.len() - i,
    {
        let ghost pre = chars@.take(i as int);
        let ghost cur = chars@.subrange(start as int, i as int);
        proof {
            assert(chars@.take(i + 1).drop_last() =~= pre);
            lemma_split_lines_nonempty(pre);
        }
        if chars[i] == '\n' {
            if start < i {
                let line = string_of_range(&chars, start, i);
                lines.push(line);
            }
            proof {
                assert(done.push(cur).drop_last() =~= done);
                done = done.push(cur);
                assert(chars@.subrange(i + 1, i + 1) =~= Seq::<char>::empty());
            }
            start = i + 1;
        } else {
            proof {
                assert(chars@.subrange(start as int, i + 1) =~= cur.push(chars@[i as int]));
                assert(done.push(cur).update(done.len() as int, cur.push(chars@[i as int])) =~= done.push(
                    chars@.subrange(start as int, i + 1),
                ));
            }
        }
        i = i + 1;
    }
    let ghost cur = chars@.subrange(start as int, i as int);
    proof {
        assert(chars@.take(chars.len() as int) =~= chars@);
        assert(done.push(cur).drop_last() =~= done);
    }
    if start < chars.len() {
        let line = string_of_range(&chars, start, chars.len());
        lines.push(line);
    }
    lines
}

/// The unigram of the `i`-th pair of lines: what the second line of the pair
/// describes, kept only when its lemma is alphabetic.
pub open spec fn unigram_at(ls: Seq<Seq<char>>, pattern: Seq<char>, i: int) -> Option<UnigramView> {
    match cat_unigram(pattern, ls[2 * i + 1]) {
        Some(u) => if all_alphabetic(u.0) {
            Some(u)
        } else {
            None
        },
        None => None,
    }
}

/// The bigrams of a sequence of tagged words, where `None` stands for a
/// word without a usable tag: one bigram for each two consecutive tagged
/// words.
pub open spec fn chain(us: Seq<Option<UnigramView>>) -> Seq<BigramView>
    decreases us.len(),
{
    if us.len() < 2 {
        Seq::empty()
    } else {
        let prev = chain(us.drop_last());
        match (us[us.len() - 2], us[us.len() - 1]) {
            (Some(u1), Some(u2)) => prev.push((u1, u2)),
            _ => prev,
        }
    }
}

/// The optional unigrams of `us`, seen as their lemma and category.
pub open spec fn unigram_views(us: Seq<Option<Unigram>>) -> Seq<Option<UnigramView>> {
    us.map_values(
        |u: Option<Unigram>|
            match u {
                Some(x) => Some(x@),
                None => None,
            },
    )
}

/// The unigrams that the pairs of lines `ls` describe, one per pair.
pub open spec fn unigrams_of(ls: Seq<Seq<char>>, pattern: Seq<char>) -> Seq<Option<UnigramView>> {
    Seq::new(ls.len() / 2, |i: int| unigram_at(ls, pattern, i))
}

/// The bigrams that the tagger's answer `input` describes, read with the
/// regex compiled from `pattern`.
pub open spec fn parsed_bigrams(input: Seq<char>, pattern: Seq<char>) -> Seq<BigramView> {
    chain(unigrams_of(tag_lines(input), pattern))
}

/// The bigrams of consecutive tagged words of `tags`; a `None` breaks the
/// chain.
pub fn chain_bigrams(tags: Vec<Option<Unigram>>) -> (bigrams: Vec<TaggedBigram>)
    ensures
        bigrams.len() == chain(unigram_views(tags@)).len(),
        forall|i: int|
            0 <= i < bigrams.len() ==> (#[trigger] bigrams@[i])@ == chain(unigram_views(tags@))[i],
{
    let ghost whole = tags@;
    let ghost views = unigram_views(whole);
    let mut bigrams: Vec<TaggedBigram> = Vec::new();
    let mut prev_unigram: Option<Unigram> = None;
    assert(views.take(0) =~= Seq::<Option<UnigramView>>::empty());
    for opt_cat in it: tags
        invariant
            it.seq() == whole,
            views == unigram_views(whole),
            bigrams.len() == chain(views.take(it.index() as int)).len(),
            forall|j: int|
                0 <= j < bigrams.len() ==> (#[trigger] bigrams@[j])@ == chain(
                    views.take(it.index() as int),
                )[j],
            match prev_unigram {
                Some(u) => it.index() > 0 && views[it.index() - 1] == Some(u@),
                None => it.index() == 0 || views[it.index() - 1] is None,
            },
    {
        let ghost i = it.index();
        proof {
            assert(views.take(i + 1).drop_last() =~= views.take(i as int));
            assert(views[i as int] == (match opt_cat {
                Some(x) => Some(x@),
                None => None::<UnigramView>,
            }));
        }
        match opt_cat {
            Some(cat) => {
                match prev_unigram {
                    Some(unigram) => {
                        let bigram = TaggedBigram { w1: unigram, w2: cat.duplicate() };
                        bigrams.push(bigram);
                    },
                    None => {},
                }
                prev_unigram = Some(cat);
            },
            None => {
                prev_unigram = None;
            },
        }
    }
    proof {
        assert(views.take(whole.len() as int) =~= views);
    }
    bigrams
}

/// The tagged bigrams of the tagger's answer `input`: its non-empty lines go
/// in pairs, the second line of a pair tags one word, and each two
/// consecutive tagged words with alphabetic lemmas form a bigram.
pub fn parse(input: String, cat_regex: &CatRegex) -> (bigrams: Vec<TaggedBigram>)
    requires
        tag_lines(input@).len() % 2 == 0,
    ensures
        bigrams.len() == parsed_bigrams(input@, cat_regex@).len(),
        forall|i: int|
            0 <= i < bigrams.len() ==> (#[trigger] bigrams@[i])@ == parsed_bigrams(input@, cat_regex@)[i],
{
    let lines = nonempty_lines(input.as_str());
    let ghost ls = tag_lines(input@);
    let ghost pattern = cat_regex@;
    let mut tags: Vec<Option<Unigram>> = Vec::new();
    let half = lines.len() / 2;
    let mut i: usize = 0;
    while i < half
        invariant
            half == lines.len() / 2,
            i <= half,
            lines.len() == ls.len(),
            forall|j: int| 0 <= j < lines.len() ==> (#[trigger] lines@[j])@ == ls[j],
            pattern == cat_regex@,
            tags.len() == i,
            unigram_views(tags@) == unigrams_of(ls, pattern).take(i as int),
        decreases half - i,
    {
        let l1 = &lines[2 * i];
        let l2 = &lines[2 * i + 1];
        assert(l2@ == ls[2 * i + 1]);
        let opt_cat = match parse_cat(l1.as_str(), l2.as_str(), cat_regex) {
            Some(cat) => if is_all_alphabetic(cat.w.as_str()) {
                Some(cat)
            } else {
                None
            },
            None => None,
        };
        assert((match opt_cat {
            Some(x) => Some(x@),
            None => None::<UnigramView>,
        }) == unigram_at(ls, pattern, i as int));
        let ghost before = tags@;
        tags.push(opt_cat);
        proof {
            assert(tags@ == before.push(opt_cat));
            assert(unigram_views(tags@)[i as int] == unigrams_of(ls, pattern)[i as int]);
            assert(unigram_views(tags@) =~= unigrams_of(ls, pattern).take(i + 1));
        }
        i = i + 1;
    }
    proof {
        assert(unigram_views(tags@) =~= unigrams_of(ls, pattern));
    }
    chain_bigrams(tags)
}

/// The names of `source` that `done` does not hold, in order.
pub open spec fn pending_spec(source: Seq<String>, done: Seq<String>) -> Seq<Seq<char>>
    decreases source.len(),
{
    if source.len() == 0 {
        Seq::empty()
    } else {
        let rest = pending_spec(source.drop_last(), done);
        if exists|j: int| 0 <= j < done.len() && done[j]@ == source.last()@ {
            rest
        } else {
            rest.push(source.last()@)
        }
    }
}

/// The names of `v`, as a set backed by a hash map.
fn name_set(v: Vec<String>) -> (set: StringHashMap<bool>)
    ensures
        forall|k: Seq<char>| #[trigger]
            set@.contains_key(k) <==> exists|j: int| 0 <= j < v.len() && v@[j]@ == k,
{
    let ghost whole = v@;
    let mut set: StringHashMap<bool> = StringHashMap::new();
    for name in it: v
        invariant
            it.seq() == whole,
            forall|k: Seq<char>| #[trigger]
                set@.contains_key(k) <==> exists|j: int| 0 <= j < it.index() && whole[j]@ == k,
    {
        let ghost i = it.index();
        let ghost nv = name@;
        set.insert(name, true);
        proof {
            assert(whole[i as int]@ == nv);
            assert forall|k: Seq<char>| #[trigger] set@.contains_key(k) implies exists|j: int|
                0 <= j < i + 1 && whole[j]@ == k by {
                if k == nv {
                    assert(whole[i as int]@ == k);
                }
            }
        }
    }
    set
}

/// The names of `source` that are not among `done`: the documents still to
/// be tagged.
pub fn pending_files(source: Vec<String>, done: Vec<String>) -> (pending: Vec<String>)
    ensures
        pending.len() == pending_spec(source@, done@).len(),
        forall|i: int|
            0 <= i < pending.len() ==> (#[trigger] pending@[i])@ == pending_spec(source@, done@)[i],
{
    let ghost whole = source@;
    let ghost done_names = done@;
    let done_set = name_set(done);
    let mut pending: Vec<String> = Vec::new();
    assert(whole.take(0) =~= Seq::<String>::empty());
    for name in it: source
        invariant
            it.seq() == whole,
            done_names == done@,
            forall|k: Seq<char>| #[trigger]
                done_set@.contains_key(k) <==> exists|j: int| 0 <= j < done_names.len() && done_names[j]@ == k,
            pending.len() == pending_spec(whole.take(it.index() as int), done@).len(),
            forall|i: int|
                0 <= i < pending.len() ==> (#[trigger] pending@[i])@ == pending_spec(
                    whole.take(it.index() as int),
                    done@,
                )[i],
    {
        let ghost i = it.index();
        proof {
            assert(whole.take(i + 1).drop_last() =~= whole.take(i as int));
        }
        if !done_set.contains_key(name.as_str()) {
            pending.push(name);
        }
    }
    proof {
        assert(whole.take(whole.len() as int) =~= whole);
    }
    pending
}

/// The lines that `tag_lines` keeps are all non-empty.
pub proof fn lemma_tag_lines_nonempty(s: Seq<char>)
    ensures
        forall|i: int| 0 <= i < tag_lines(s).len() ==> (#[trigger] tag_lines(s)[i]).len() > 0,
{
    lemma_drop_empty_nonempty(split_lines(s));
}

/// `drop_empty` keeps only non-empty lines.
proof fn lemma_drop_empty_nonempty(ls: Seq<Seq<char>>)
    ensures
        forall|i: int| 0 <= i < drop_empty(ls).len() ==> (#[trigger] drop_empty(ls)[i]).len() > 0,
    decreases ls.len(),
{
    if ls.len() > 0 {
        lemma_drop_empty_nonempty(ls.drop_last());
        let prev = drop_empty(ls.drop_last());
        if ls.last().len() > 0 {
            assert forall|i: int| 0 <= i < drop_empty(ls).len() implies (
            #[trigger] drop_empty(ls)[i]).len() > 0 by {
                if i < prev.len() {
                    assert(drop_empty(ls)[i] == prev[i]);
                }
            }
        }
    }
}

/// Every bigram of a chain joins two tagged words that stand next to each
/// other, and `n` words give fewer than `n` bigrams.
pub proof fn lemma_chain_shape(us: Seq<Option<UnigramView>>)
    ensures
        forall|i: int|
            #![trigger chain(us)[i]]
            0 <= i < chain(us).len() ==> exists|k: int|
                #![trigger us[k]]
                0 <= k < us.len() - 1 && us[k] == Some(chain(us)[i].0) && us[k + 1] == Some(
                    chain(us)[i].1,
                ),
        us.len() >= 1 ==> chain(us).len() < us.len(),
    decreases us.len(),
{
    if us.len() >= 2 {
        let prev = us.drop_last();
        lemma_chain_shape(prev);
        assert forall|i: int| 0 <= i < chain(us).len() implies exists|k: int|
            #![trigger us[k]]
            0 <= k < us.len() - 1 && us[k] == Some((#[trigger] chain(us)[i]).0) && us[k + 1] == Some(
                chain(us)[i].1,
            ) by {
            if i < chain(prev).len() {
                assert(chain(us)[i] == chain(prev)[i]);
                let k = choose|k: int|
                    #![trigger prev[k]]
                    0 <= k < prev.len() - 1 && prev[k] == Some(chain(prev)[i].0) && prev[k + 1]
                        == Some(chain(prev)[i].1);
                assert(us[k] == prev[k] && us[k + 1] == prev[k + 1]);
            } else {
                assert(us[us.len() - 2] == Some(chain(us)[i].0));
            }
        }
    }
}

/// Every bigram parsed from a tagger's answer joins two words with
/// alphabetic lemmas.
pub proof fn lemma_parsed_bigrams_alphabetic(input: Seq<char>, pattern: Seq<char>)
    ensures
        forall|i: int|
            0 <= i < parsed_bigrams(input, pattern).len() ==> all_alphabetic(
                (#[trigger] parsed_bigrams(input, pattern)[i]).0.0,
            ) && all_alphabetic(parsed_bigrams(input, pattern)[i].1.0),
{
    let us = unigrams_of(tag_lines(input), pattern);
    lemma_chain_shape(us);
    assert forall|i: int| 0 <= i < chain(us).len() implies all_alphabetic(
        (#[trigger] chain(us)[i]).0.0,
    ) && all_alphabetic(chain(us)[i].1.0) by {
        let k = choose|k: int|
            #![trigger us[k]]
            0 <= k < us.len() - 1 && us[k] == Some(chain(us)[i].0) && us[k + 1] == Some(chain(us)[i].1);
        assert(us[k] == unigram_at(tag_lines(input), pattern, k));
        assert(us[k + 1] == unigram_at(tag_lines(input), pattern, k + 1));
    }
}

/// The pending documents are documents of `source` that `done` does not
/// hold.
pub proof fn lemma_pending_not_done(source: Seq<String>, done: Seq<String>)
    ensures
        forall|i: int|
            0 <= i < pending_spec(source, done).len() ==> {
                &&& exists|k: int| 0 <= k < source.len() && source[k]@ == #[trigger] pending_spec(
                    source,
                    done,
                )[i]
                &&& forall|j: int| 0 <= j < done.len() ==> done[j]@ != pending_spec(source, done)[i]
            },
    decreases source.len(),
{
    if source.len() > 0 {
        lemma_pending_not_done(source.drop_last(), done);
        let rest = pending_spec(source.drop_last(), done);
        assert forall|i: int| 0 <= i < rest.len() implies exists|k: int|
            0 <= k < source.len() && source[k]@ == #[trigger] rest[i] by {
            let k = choose|k: int|
                0 <= k < source.drop_last().len() && source.drop_last()[k]@ == rest[i];
            assert(source[k] == source.drop_last()[k]);
        }
        assert(source[source.len() - 1] == source.last());
    }
}

/// Splitting at a line feed that joins two texts splits each text apart.
proof fn lemma_split_lines_join(a: Seq<char>, b: Seq<char>)
    ensures
        split_lines(a + seq!['\n'] + b) == split_lines(a) + split_lines(b),
    decreases b.len(),
{
    let s = a + seq!['\n'] + b;
    if b.len() == 0 {
        assert(s =~= a.push('\n'));
        assert(s.drop_last() =~= a);
        assert(split_lines(b) == seq![Seq::<char>::empty()]);
        assert(split_lines(a).push(Seq::empty()) =~= split_lines(a) + split_lines(b));
    } else {
        lemma_split_lines_join(a, b.drop_last());
        lemma_split_lines_nonempty(b.drop_last());
        assert(s.drop_last() =~= a + seq!['\n'] + b.drop_last());
        assert(s.last() == b.last());
        let la = split_lines(a);
        let lb = split_lines(b.drop_last());
        if b.last() == '\n' {
            assert((la + lb).push(Seq::empty()) =~= la + lb.push(Seq::empty()));
        } else {
            let ls = la + lb;
            assert(ls.last() == lb.last());
            assert(ls.update(ls.len() - 1, ls.last().push(b.last())) =~= la + lb.update(
                lb.len() - 1,
                lb.last().push(b.last()),
            ));
        }
    }
}

/// Dropping the empty lines of two lists of lines one after the other drops
/// them from each.
proof fn lemma_drop_empty_concat(x: Seq<Seq<char>>, y: Seq<Seq<char>>)
    ensures
        drop_empty(x + y) == drop_empty(x) + drop_empty(y),
    decreases y.len(),
{
    if y.len() == 0 {
        assert(x + y =~= x);
        assert(drop_empty(x) + drop_empty(y) =~= drop_empty(x));
    } else {
        lemma_drop_empty_concat(x, y.drop_last());
        assert((x + y).drop_last() =~= x + y.drop_last());
        assert((x + y).last() == y.last());
        if y.last().len() > 0 {
            assert(drop_empty(x) + drop_empty(y.drop_last()).push(y.last()) =~= (drop_empty(x)
                + drop_empty(y.drop_last())).push(y.last()));
        }
    }
}

/// The lines of two texts joined by a line feed are the lines of the one
/// followed by those of the other.
pub proof fn lemma_tag_lines_join(a: Seq<char>, b: Seq<char>)
    ensures
        tag_lines(a + seq!['\n'] + b) == tag_lines(a) + tag_lines(b),
{
    lemma_split_lines_join(a, b);
    lemma_drop_empty_concat(split_lines(a), split_lines(b));
}

/// Extra line feeds change nothing: a line feed added at the start, at the
/// end, or next to another line feed leaves the lines, and so the parsed
/// bigrams and whether `parse` may be called, as they were.
pub proof fn lemma_extra_line_feeds(a: Seq<char>, b: Seq<char>, pattern: Seq<char>)
    ensures
        tag_lines(seq!['\n'] + b) == tag_lines(b),
        tag_lines(a + seq!['\n']) == tag_lines(a),
        tag_lines(a + seq!['\n', '\n'] + b) == tag_lines(a + seq!['\n'] + b),
        parsed_bigrams(seq!['\n'] + b, pattern) == parsed_bigrams(b, pattern),
        parsed_bigrams(a + seq!['\n'], pattern) == parsed_bigrams(a, pattern),
        parsed_bigrams(a + seq!['\n', '\n'] + b, pattern) == parsed_bigrams(a + seq!['\n'] + b, pattern),
{
    let e = Seq::<char>::empty();
    assert(split_lines(e) == seq![e]);
    assert(seq![e].drop_last() =~= Seq::<Seq<char>>::empty());
    assert(tag_lines(e) == drop_empty(seq![e]));
    assert(seq![e].last() == e);
    assert(drop_empty(Seq::<Seq<char>>::empty()) == Seq::<Seq<char>>::empty());
    assert(drop_empty(seq![e]) == drop_empty(seq![e].drop_last()));
    assert(tag_lines(e) =~= Seq::<Seq<char>>::empty());
    lemma_tag_lines_join(e, b);
    assert(e + seq!['\n'] + b =~= seq!['\n'] + b);
    assert(tag_lines(e) + tag_lines(b) =~= tag_lines(b));
    lemma_tag_lines_join(a, e);
    assert(a + seq!['\n'] + e =~= a + seq!['\n']);
    assert(tag_lines(a) + tag_lines(e) =~= tag_lines(a));
    lemma_tag_lines_join(a, seq!['\n'] + b);
    assert(a + seq!['\n'] + (seq!['\n'] + b) =~= a + seq!['\n', '\n'] + b);
    lemma_tag_lines_join(a, b);
}

/// A bigram occurs in two lists put together as often as in both.
proof fn lemma_occurrences_concat(a: Seq<TaggedBigram>, b: Seq<TaggedBigram>, x: BigramView)
    ensures
        occurrences(a + b, x) == occurrences(a, x) + occurrences(b, x),
    decreases b.len(),
{
    if b.len() == 0 {
        assert(a + b =~= a);
    } else {
        lemma_occurrences_concat(a, b.drop_last(), x);
        assert((a + b).drop_last() =~= a + b.drop_last());
        assert((a + b).last() == b.last());
    }
}

/// Counting two parts apart and merging the counts never gives more than
/// counting the parts together, and gives less for a bigram that occurs
/// once in each part: repeats are looked for within each part only.
pub proof fn lemma_count_parts_then_merge(
    a: Seq<TaggedBigram>,
    b: Seq<TaggedBigram>,
    ma: Map<BigramView, i32>,
    mb: Map<BigramView, i32>,
    mab: Map<BigramView, i32>,
    x: BigramView,
)
    requires
        counts_repeated(ma, a),
        counts_repeated(mb, b),
        counts_repeated(mab, a + b),
        merge_fits(ma, mb),
    ensures
        count_or_zero(merged(ma, mb), x) <= count_or_zero(mab, x),
        occurrences(a, x) == 1 && occurrences(b, x) == 1 ==> count_or_zero(merged(ma, mb), x)
            < count_or_zero(mab, x),
{
    lemma_occurrences_concat(a, b, x);
    lemma_occurrences_nonneg(a, x);
    lemma_occurrences_nonneg(b, x);
    if ma.contains_key(x) {}
    if mb.contains_key(x) {
        assert(fits_i32(count_or_zero(ma, x) + mb[x]));
    }
    if mab.contains_key(x) {}
}

/// `s` with every line feed doubled.
pub open spec fn double_line_feeds(s: Seq<char>) -> Seq<char>
    decreases s.len(),
{
    if s.len() == 0 {
        Seq::empty()
    } else if s.last() == '\n' {
        double_line_feeds(s.drop_last()) + seq!['\n', '\n']
    } else {
        double_line_feeds(s.drop_last()).push(s.last())
    }
}

/// Doubling the line feeds of a concatenation doubles them in each part.
proof fn lemma_double_concat(x: Seq<char>, y: Seq<char>)
    ensures
        double_line_feeds(x + y) == double_line_feeds(x) + double_line_feeds(y),
    decreases y.len(),
{
    if y.len() == 0 {
        assert(x + y =~= x);
        assert(double_line_feeds(x) + double_line_feeds(y) =~= double_line_feeds(x));
    } else {
        lemma_double_concat(x, y.drop_last());
        assert((x + y).drop_last() =~= x + y.drop_last());
        assert((x + y).last() == y.last());
        if y.last() == '\n' {
            assert(double_line_feeds(x) + (double_line_feeds(y.drop_last()) + seq!['\n', '\n'])
                =~= double_line_feeds(x) + double_line_feeds(y.drop_last()) + seq!['\n', '\n']);
        } else {
            assert(double_line_feeds(x) + double_line_feeds(y.drop_last()).push(y.last()) =~= (
            double_line_feeds(x) + double_line_feeds(y.drop_last())).push(y.last()));
        }
    }
}

/// A text without line feeds is left as it is.
proof fn lemma_double_no_line_feed(s: Seq<char>)
    requires
        forall|i: int| 0 <= i < s.len() ==> s[i] != '\n',
    ensures
        double_line_feeds(s) == s,
    decreases s.len(),
{
    if s.len() > 0 {
        assert(forall|i: int| 0 <= i < s.drop_last().len() ==> s.drop_last()[i] == s[i]);
        lemma_double_no_line_feed(s.drop_last());
        assert(s[s.len() - 1] == s.last());
        assert(s.drop_last().push(s.last()) =~= s);
    }
}

/// Doubling every line feed of a tagger's answer leaves its lines, and so
/// its parsed bigrams and whether `parse` may be called, as they were.
pub proof fn lemma_double_line_feeds(s: Seq<char>, pattern: Seq<char>)
    ensures
        tag_lines(double_line_feeds(s)) == tag_lines(s),
        parsed_bigrams(double_line_feeds(s), pattern) == parsed_bigrams(s, pattern),
    decreases s.len(),
{
    if exists|k: int| 0 <= k < s.len() && s[k] == '\n' {
        let k = choose|k: int| 0 <= k < s.len() && s[k] == '\n';
        let a = s.take(k);
        let b = s.skip(k + 1);
        assert(s =~= a + seq!['\n'] + b);
        lemma_double_line_feeds(a, pattern);
        lemma_double_line_feeds(b, pattern);
        lemma_double_concat(a + seq!['\n'], b);
        lemma_double_concat(a, seq!['\n']);
        assert(seq!['\n'].drop_last() =~= Seq::<char>::empty());
        assert(seq!['\n'].last() == '\n');
        assert(double_line_feeds(Seq::<char>::empty()) == Seq::<char>::empty());
        assert(double_line_feeds(seq!['\n']) =~= seq!['\n', '\n']);
        let da = double_line_feeds(a);
        let db = double_line_feeds(b);
        assert(double_line_feeds(s) =~= da + seq!['\n'] + (seq!['\n'] + db));
        lemma_tag_lines_join(da, seq!['\n'] + db);
        lemma_extra_line_feeds(da, db, pattern);
        lemma_tag_lines_join(a, b);
    } else {
        lemma_double_no_line_feed(s);
    }
}

/// A chain holds the bigram of every two neighbouring tagged words.
proof fn lemma_chain_complete(us: Seq<Option<UnigramView>>, k: int)
    requires
        0 <= k,
        k + 1 < us.len(),
        us[k] is Some,
        us[k + 1] is Some,
    ensures
        chain(us).contains((us[k]->0, us[k + 1]->0)),
    decreases us.len(),
{
    let prev = us.drop_last();
    if k + 1 == us.len() - 1 {
        assert(chain(us) == chain(prev).push((us[k]->0, us[k + 1]->0)));
        assert(chain(us)[chain(us).len() - 1] == (us[k]->0, us[k + 1]->0));
    } else {
        assert(prev[k] == us[k] && prev[k + 1] == us[k + 1]);
        lemma_chain_complete(prev, k);
        let j = choose|j: int| 0 <= j < chain(prev).len() && chain(prev)[j] == (us[k]->0, us[k + 1]->0);
        assert(chain(us)[j] == chain(prev)[j]);
    }
}

/// Parsing keeps every word it can: whenever the tag lines of two
/// neighbouring pairs both match the regex with both groups, and both lemmas
/// consist of alphabetic characters only, whatever their length and whatever
/// their categories, the bigram of the two tagged words is among the parsed
/// bigrams.
pub proof fn lemma_parse_complete(
    input: Seq<char>,
    pattern: Seq<char>,
    i: int,
    l1: Seq<char>,
    c1: Seq<char>,
    l2: Seq<char>,
    c2: Seq<char>,
)
    requires
        0 <= i,
        2 * i + 3 < tag_lines(input).len(),
        lemma_cat_captures(pattern, tag_lines(input)[2 * i + 1]) == Some((Some(l1), Some(c1))),
        lemma_cat_captures(pattern, tag_lines(input)[2 * i + 3]) == Some((Some(l2), Some(c2))),
        forall|k: int| 0 <= k < l1.len() ==> char_is_alphabetic(#[trigger] l1[k]),
        forall|k: int| 0 <= k < l2.len() ==> char_is_alphabetic(#[trigger] l2[k]),
    ensures
        parsed_bigrams(input, pattern).contains(((l1, c1), (l2, c2))),
{
    let ls = tag_lines(input);
    let us = unigrams_of(ls, pattern);
    assert(us[i] == unigram_at(ls, pattern, i));
    assert(us[i + 1] == unigram_at(ls, pattern, i + 1));
    assert(2 * (i + 1) + 1 == 2 * i + 3);
    assert(us[i] == Some((l1, c1)));
    assert(us[i + 1] == Some((l2, c2)));
    lemma_chain_complete(us, i);
}

/// Parsing keeps nothing else: every parsed bigram is made of the tagged
/// words of two neighbouring pairs of lines whose tag lines match the regex
/// with both groups, and every character of both lemmas is alphabetic.
pub proof fn lemma_parse_sound(input: Seq<char>, pattern: Seq<char>)
    ensures
        forall|n: int|
            #![trigger parsed_bigrams(input, pattern)[n]]
            0 <= n < parsed_bigrams(input, pattern).len() ==> {
                let b = parsed_bigrams(input, pattern)[n];
                &&& exists|i: int|
                    #![trigger tag_lines(input)[2 * i + 1]]
                    0 <= i && 2 * i + 3 < tag_lines(input).len() && lemma_cat_captures(
                        pattern,
                        tag_lines(input)[2 * i + 1],
                    ) == Some((Some(b.0.0), Some(b.0.1))) && lemma_cat_captures(
                        pattern,
                        tag_lines(input)[2 * i + 3],
                    ) == Some((Some(b.1.0), Some(b.1.1)))
                &&& forall|k: int| 0 <= k < b.0.0.len() ==> char_is_alphabetic(#[trigger] b.0.0[k])
                &&& forall|k: int| 0 <= k < b.1.0.len() ==> char_is_alphabetic(#[trigger] b.1.0[k])
            },
{
    let ls = tag_lines(input);
    let us = unigrams_of(ls, pattern);
    lemma_chain_shape(us);
    assert forall|n: int|
        #![trigger parsed_bigrams(input, pattern)[n]]
        0 <= n < parsed_bigrams(input, pattern).len() implies {
        let b = parsed_bigrams(input, pattern)[n];
        &&& exists|i: int|
            #![trigger tag_lines(input)[2 * i + 1]]
            0 <= i && 2 * i + 3 < tag_lines(input).len() && lemma_cat_captures(
                pattern,
                tag_lines(input)[2 * i + 1],
            ) == Some((Some(b.0.0), Some(b.0.1))) && lemma_cat_captures(
                pattern,
                tag_lines(input)[2 * i + 3],
            ) == Some((Some(b.1.0), Some(b.1.1)))
        &&& forall|k: int| 0 <= k < b.0.0.len() ==> char_is_alphabetic(#[trigger] b.0.0[k])
        &&& forall|k: int| 0 <= k < b.1.0.len() ==> char_is_alphabetic(#[trigger] b.1.0[k])
    } by {
        let b = chain(us)[n];
        let k = choose|k: int|
            #![trigger us[k]]
            0 <= k < us.len() - 1 && us[k] == Some(chain(us)[n].0) && us[k + 1] == Some(chain(us)[n].1);
        assert(us[k] == unigram_at(ls, pattern, k));
        assert(us[k + 1] == unigram_at(ls, pattern, k + 1));
        assert(2 * (k + 1) + 1 == 2 * k + 3);
        assert(2 * k + 3 < ls.len());
        assert(all_alphabetic(b.0.0));
        assert(all_alphabetic(b.1.0));
        assert(lemma_cat_captures(pattern, ls[2 * k + 1]) == Some((Some(b.0.0), Some(b.0.1))));
        assert(lemma_cat_captures(pattern, ls[2 * k + 3]) == Some((Some(b.1.0), Some(b.1.1))));
    }
}

/// Every document of `source` that `done` does not name is pending, and
/// only those are: a name is in the result exactly when some document of
/// `source` has it and no document of `done` does.
pub proof fn lemma_pending_exact(source: Seq<String>, done: Seq<String>)
    ensures
        forall|x: Seq<char>|
            #![trigger pending_spec(source, done).contains(x)]
            pending_spec(source, done).contains(x) <==> ((exists|k: int|
                0 <= k < source.len() && source[k]@ == x) && (forall|j: int|
                0 <= j < done.len() ==> done[j]@ != x)),
    decreases source.len(),
{
    lemma_pending_not_done(source, done);
    if source.len() > 0 {
        let sd = source.drop_last();
        lemma_pending_exact(sd, done);
        let rest = pending_spec(sd, done);
        let res = pending_spec(source, done);
        assert forall|x: Seq<char>| #[trigger] res.contains(x) <==> ((exists|k: int|
            0 <= k < source.len() && source[k]@ == x) && (forall|j: int|
            0 <= j < done.len() ==> done[j]@ != x)) by {
            if res.contains(x) {
                let i = choose|i: int| 0 <= i < res.len() && res[i] == x;
                assert(res[i] == x);
            }
            if (exists|k: int| 0 <= k < source.len() && source[k]@ == x) && (forall|j: int|
                0 <= j < done.len() ==> done[j]@ != x) {
                let k = choose|k: int| 0 <= k < source.len() && source[k]@ == x;
                if k < source.len() - 1 {
                    assert(sd[k] == source[k]);
                    assert(rest.contains(x));
                    let i = choose|i: int| 0 <= i < rest.len() && rest[i] == x;
                    if !(exists|j: int| 0 <= j < done.len() && done[j]@ == source.last()@) {
                        assert(res == rest.push(source.last()@));
                        assert(res[i] == x);
                    }
                } else {
                    assert(source[k] == source.last());
                    assert(res == rest.push(source.last()@));
                    assert(res[res.len() - 1] == x);
                }
            }
        }
    }
}

} // verus!
