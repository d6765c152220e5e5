//! Word counts and the integer terms of pointwise mutual information, where a
//! word is counted wherever it stands in a bigram.
use vstd::prelude::*;
use vstd::hash_map::StringHashMap;
use crate::bigrams::{Entry, fits_i64, count_sum, count_sum_overflows, total_count};

verus! {

/// How often `w` occurs in the bigrams `es`: each bigram adds its count once
/// for `w` in the first place and once for `w` in the second.
pub open spec fn word_total(es: Seq<Entry>, w: Seq<char>) -> int
    decreases es.len(),
{
    if es.len() == 0 {
        0
    } else {
        let e = es.last();
        word_total(es.drop_last(), w) + (if e.w1@ == w { e.count as int } else { 0 }) + (if e.w2@
            == w {
            e.count as int
        } else {
            0
        })
    }
}

/// `w` is one of the two words of some bigram of `es`.
pub open spec fn occurs(es: Seq<Entry>, w: Seq<char>) -> bool {
    exists|i: int| 0 <= i < es.len() && (es[i].w1@ == w || es[i].w2@ == w)
}

/// Counting the words of `es` bigram by bigram takes some word's running
/// total out of the `i64` range.
pub open spec fn word_counts_overflow(es: Seq<Entry>) -> bool {
    exists|i: int, w: Seq<char>|
        0 <= i <= es.len() && !fits_i64(#[trigger] word_total(es.take(i), w))
}

/// The count of every word of `entries`, summed over both places of the
/// bigrams; `None` when some running total leaves the `i64` range.
pub fn count_words(entries: Vec<Entry>) -> (res: Option<StringHashMap<i64>>)
    ensures
        res is None <==> word_counts_overflow(entries@),
        res matches Some(m) ==> forall|w: Seq<char>|
            #![trigger m@.contains_key(w)]
            (m@.contains_key(w) <==> occurs(entries@, w)) && (m@.contains_key(w) ==> m@[w]
                == word_total(entries@, w)),
{
    let mut hmap: StringHashMap<i64> = StringHashMap::new();
    let mut i: usize = 0;
    assert(entries@.take(0) =~= Seq::<Entry>::empty());
    while i < entries.len()
        invariant
            i <= entries.len(),
            forall|w: Seq<char>|
                #![trigger hmap@.contains_key(w)]
                hmap@.contains_key(w) <==> occurs(entries@.take(i as int), w),
            forall|w: Seq<char>|
                #![trigger word_total(entries@.take(i as int), w)]
                hmap@.contains_key(w) ==> hmap@[w] == word_total(entries@.take(i as int), w),
            forall|w: Seq<char>|
                #![trigger word_total(entries@.take(i as int), w)]
                !hmap@.contains_key(w) ==> word_total(entries@.take(i as int), w) == 0,
            forall|j: int, w: Seq<char>|
                0 <= j <= i ==> fits_i64(#[trigger] word_total(entries@.take(j), w)),
        decreases entries.len() - i,
    {
        let ghost pre = entries@.take(i as int);
        let ghost post = entries@.take(i + 1);
        let ghost old_map = hmap@;
        let e = &entries[i as usize];
        assert(post.drop_last() =~= pre);
        assert(post.last() == e);
        let old1: i64 = match hmap.get(e.w1.as_str()) {
            Some(v) => *v,
            None => 0,
        };
        assert(old1 == word_total(pre, e.w1@));
        let new1 = match old1.checked_add(e.count) {
            Some(v) => v,
            None => {
                assert(!fits_i64(word_total(post, e.w1@)));
                return None;
            },
        };
        hmap.insert(e.w1.clone(), new1);
        let old2: i64 = match hmap.get(e.w2.as_str()) {
            Some(v) => *v,
            None => 0,
        };
        assert(old2 == word_total(pre, e.w2@) + (if e.w1@ == e.w2@ { e.count as int } else { 0 }));
        let new2 = match old2.checked_add(e.count) {
            Some(v) => v,
            None => {
                assert(!fits_i64(word_total(post, e.w2@)));
                return None;
            },
        };
        hmap.insert(e.w2.clone(), new2);
        proof {
            assert forall|w: Seq<char>| #[trigger]
                hmap@.contains_key(w) <==> occurs(post, w) by {
                if occurs(pre, w) {
                    let k = choose|k: int| 0 <= k < pre.len() && (pre[k].w1@ == w || pre[k].w2@ == w);
                    assert(post[k] == pre[k]);
                }
                if occurs(post, w) && w != e.w1@ && w != e.w2@ {
                    let k = choose|k: int| 0 <= k < post.len() && (post[k].w1@ == w || post[k].w2@ == w);
                    assert(k < i);
                    assert(post[k] == pre[k]);
                    assert(occurs(pre, w));
                }
                if w == e.w1@ || w == e.w2@ {
                    assert(post[i as int] == e);
                }
            }
            assert forall|w: Seq<char>| #[trigger] word_total(post, w) == word_total(pre, w) + (if e.w1@
                == w { e.count as int } else { 0 }) + (if e.w2@ == w { e.count as int } else { 0 }) by {
            }
            assert forall|j: int, w: Seq<char>|
                0 <= j <= i + 1 implies fits_i64(#[trigger] word_total(entries@.take(j), w)) by {
                if j == i + 1 {
                    if w != e.w1@ && w != e.w2@ {
                        assert(word_total(post, w) == word_total(pre, w));
                    } else if w == e.w2@ {
                        assert(word_total(post, w) == new2);
                    } else {
                        assert(word_total(post, w) == new1);
                    }
                }
            }
        }
        i = i + 1;
    }
    assert(entries@.take(entries.len() as int) =~= entries@);
    proof {
        if word_counts_overflow(entries@) {
            let (j, w) = choose|j: int, w: Seq<char>|
                0 <= j <= entries@.len() && !fits_i64(#[trigger] word_total(entries@.take(j), w));
            assert(fits_i64(word_total(entries@.take(j), w)));
        }
    }
    Some(hmap)
}

} // verus!

verus! {

/// The integer parts of the PMI of one bigram: its words, its count, the
/// count times the total of all bigram counts, and the counts of its two
/// words.
#[derive(Debug)]
pub struct PmiTerms {
    pub w1: String,
    pub w2: String,
    pub count: i64,
    pub joint: i64,
    pub w1_count: i64,
    pub w2_count: i64,
}

/// `t` holds the PMI terms of the bigram `e` among `es`.
pub open spec fn pmi_terms_of(t: PmiTerms, e: Entry, es: Seq<Entry>) -> bool {
    &&& t.w1@ == e.w1@
    &&& t.w2@ == e.w2@
    &&& t.count == e.count
    &&& t.joint == e.count * count_sum(es)
    &&& t.w1_count == word_total(es, e.w1@)
    &&& t.w2_count == word_total(es, e.w2@)
}

/// Computing the PMI terms of `es` leaves the `i64` range: in the total of
/// the counts, in the word counts, or in some count times the total.
pub open spec fn pmi_overflows(es: Seq<Entry>) -> bool {
    ||| count_sum_overflows(es)
    ||| word_counts_overflow(es)
    ||| exists|i: int| 0 <= i < es.len() && !fits_i64(#[trigger] es[i].count * count_sum(es))
}

/// The total of the bigram counts and, for each bigram in order, the integer
/// terms of its PMI, `log2(joint / (w1_count * w2_count))`; `None` when one of
/// these integers leaves the `i64` range.
pub fn pmi_terms(entries: &Vec<Entry>) -> (res: Option<(i64, Vec<PmiTerms>)>)
    ensures
        res is None <==> pmi_overflows(entries@),
        res matches Some((total, rows)) ==> {
            &&& total == count_sum(entries@)
            &&& rows.len() == entries.len()
            &&& forall|i: int|
                0 <= i < rows.len() ==> pmi_terms_of(#[trigger] rows@[i], entries@[i], entries@)
        },
{
    let total = match total_count(entries) {
        Some(t) => t,
        None => {
            return None;
        },
    };
    let counts = match count_words(crate::bigrams::copy_entries(entries)) {
        Some(m) => m,
        None => {
            return None;
        },
    };
    let mut rows: Vec<PmiTerms> = Vec::new();
    let mut i: usize = 0;
    while i < entries.len()
        invariant
            i <= entries.len(),
            total == count_sum(entries@),
            !count_sum_overflows(entries@),
            !word_counts_overflow(entries@),
            forall|w: Seq<char>|
                #![trigger counts@.contains_key(w)]
                (counts@.contains_key(w) <==> occurs(entries@, w)) && (counts@.contains_key(w)
                    ==> counts@[w] == word_total(entries@, w)),
            rows.len() == i,
            forall|j: int| 0 <= j < i ==> fits_i64(#[trigger] entries@[j].count * count_sum(entries@)),
            forall|j: int|
                0 <= j < i ==> pmi_terms_of(#[trigger] rows@[j], entries@[j], entries@),
        decreases entries.len() - i,
    {
        let e = &entries[i];
        let joint = match e.count.checked_mul(total) {
            Some(v) => v,
            None => {
                assert(!fits_i64(entries@[i as int].count * count_sum(entries@)));
                return None;
            },
        };
        proof {
            assert(entries@[i as int] == e);
            assert(occurs(entries@, e.w1@));
            assert(occurs(entries@, e.w2@));
        }
        let w1_count = match counts.get(e.w1.as_str()) {
            Some(v) => *v,
            None => 0,
        };
        let w2_count = match counts.get(e.w2.as_str()) {
            Some(v) => *v,
            None => 0,
        };
        rows.push(
            PmiTerms {
                w1: e.w1.clone(),
                w2: e.w2.clone(),
                count: e.count,
                joint,
                w1_count,
                w2_count,
            },
        );
        i = i + 1;
    }
    Some((total, rows))
}

} // verus!
