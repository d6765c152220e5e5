//! Word counts and PMI terms where a word's count depends on its place: the
//! first word of a bigram is counted among first words, the second among
//! second words.
use vstd::prelude::*;
use vstd::hash_map::StringHashMap;
use crate::bigrams::{Entry, fits_i64, count_sum, count_sum_overflows, total_count, copy_entries};
use crate::pmi::PmiTerms;

verus! {

/// How often `w` stands first in the bigrams `es`.
pub open spec fn first_total(es: Seq<Entry>, w: Seq<char>) -> int
    decreases es.len(),
{
    if es.len() == 0 {
        0
    } else {
        first_total(es.drop_last(), w) + (if es.last().w1@ == w { es.last().count as int } else { 0 })
    }
}

/// How often `w` stands second in the bigrams `es`.
pub open spec fn second_total(es: Seq<Entry>, w: Seq<char>) -> int
    decreases es.len(),
{
    if es.len() == 0 {
        0
    } else {
        second_total(es.drop_last(), w) + (if es.last().w2@ == w { es.last().count as int } else { 0 })
    }
}

/// `w` is the first word of some bigram of `es`.
pub open spec fn occurs_first(es: Seq<Entry>, w: Seq<char>) -> bool {
    exists|i: int| 0 <= i < es.len() && es[i].w1@ == w
}

/// `w` is the second word of some bigram of `es`.
pub open spec fn occurs_second(es: Seq<Entry>, w: Seq<char>) -> bool {
    exists|i: int| 0 <= i < es.len() && es[i].w2@ == w
}

/// Counting `es` bigram by bigram takes a running total of first words or of
/// second words out of the `i64` range.
pub open spec fn place_counts_overflow(es: Seq<Entry>) -> bool {
    ||| exists|i: int, w: Seq<char>|
        0 <= i <= es.len() && !fits_i64(#[trigger] first_total(es.take(i), w))
    ||| exists|i: int, w: Seq<char>|
        0 <= i <= es.len() && !fits_i64(#[trigger] second_total(es.take(i), w))
}

/// The counts of the first words and of the second words of `entries`;
/// `None` when some running total leaves the `i64` range.
pub fn count_words(entries: Vec<Entry>) -> (res: Option<(StringHashMap<i64>, StringHashMap<i64>)>)
    ensures
        res is None <==> place_counts_overflow(entries@),
        res matches Some((m1, m2)) ==> {
            &&& forall|w: Seq<char>|
                #![trigger m1@.contains_key(w)]
                (m1@.contains_key(w) <==> occurs_first(entries@, w)) && (m1@.contains_key(w)
                    ==> m1@[w] == first_total(entries@, w))
            &&& forall|w: Seq<char>|
                #![trigger m2@.contains_key(w)]
                (m2@.contains_key(w) <==> occurs_second(entries@, w)) && (m2@.contains_key(w)
                    ==> m2@[w] == second_total(entries@, w))
        },
{
    let mut hmap1: StringHashMap<i64> = StringHashMap::new();
    let mut hmap2: StringHashMap<i64> = StringHashMap::new();
    let mut i: usize = 0;
    assert(entries@.take(0) =~= Seq::<Entry>::empty());
    while i < entries.len()
        invariant
            i <= entries.len(),
            forall|w: Seq<char>|
                #![trigger hmap1@.contains_key(w)]
                hmap1@.contains_key(w) <==> occurs_first(entries@.take(i as int), w),
            forall|w: Seq<char>|
                #![trigger first_total(entries@.take(i as int), w)]
                (hmap1@.contains_key(w) ==> hmap1@[w] == first_total(entries@.take(i as int), w))
                    && (!hmap1@.contains_key(w) ==> first_total(entries@.take(i as int), w) == 0),
            forall|w: Seq<char>|
                #![trigger hmap2@.contains_key(w)]
                hmap2@.contains_key(w) <==> occurs_second(entries@.take(i as int), w),
            forall|w: Seq<char>|
                #![trigger second_total(entries@.take(i as int), w)]
                (hmap2@.contains_key(w) ==> hmap2@[w] == second_total(entries@.take(i as int), w))
                    && (!hmap2@.contains_key(w) ==> second_total(entries@.take(i as int), w) == 0),
            forall|j: int, w: Seq<char>|
                0 <= j <= i ==> fits_i64(#[trigger] first_total(entries@.take(j), w)),
            forall|j: int, w: Seq<char>|
                0 <= j <= i ==> fits_i64(#[trigger] second_total(entries@.take(j), w)),
        decreases entries.len() - i,
    {
        let ghost pre = entries@.take(i as int);
        let ghost post = entries@.take(i + 1);
        let e = &entries[i as usize];
        assert(post.drop_last() =~= pre);
        assert(post.last() == e);
        assert(post[i as int] == e);
        let old1: i64 = match hmap1.get(e.w1.as_str()) {
            Some(v) => *v,
            None => 0,
        };
        assert(old1 == first_total(pre, e.w1@));
        let new1 = match old1.checked_add(e.count) {
            Some(v) => v,
            None => {
                assert(!fits_i64(first_total(post, e.w1@)));
                return None;
            },
        };
        hmap1.insert(e.w1.clone(), new1);
        let old2: i64 = match hmap2.get(e.w2.as_str()) {
            Some(v) => *v,
            None => 0,
        };
        assert(old2 == second_total(pre, e.w2@));
        let new2 = match old2.checked_add(e.count) {
            Some(v) => v,
            None => {
                assert(!fits_i64(second_total(post, e.w2@)));
                return None;
            },
        };
        hmap2.insert(e.w2.clone(), new2);
        proof {
            assert forall|w: Seq<char>| #[trigger]
                hmap1@.contains_key(w) <==> occurs_first(post, w) by {
                if occurs_first(pre, w) {
                    let k = choose|k: int| 0 <= k < pre.len() && pre[k].w1@ == w;
                    assert(post[k] == pre[k]);
                }
                if occurs_first(post, w) && w != e.w1@ {
                    let k = choose|k: int| 0 <= k < post.len() && post[k].w1@ == w;
                    assert(post[k] == pre[k]);
                }
            }
            assert forall|w: Seq<char>| #[trigger]
                hmap2@.contains_key(w) <==> occurs_second(post, w) by {
                if occurs_second(pre, w) {
                    let k = choose|k: int| 0 <= k < pre.len() && pre[k].w2@ == w;
                    assert(post[k] == pre[k]);
                }
                if occurs_second(post, w) && w != e.w2@ {
                    let k = choose|k: int| 0 <= k < post.len() && post[k].w2@ == w;
                    assert(post[k] == pre[k]);
                }
            }
            assert forall|w: Seq<char>| #[trigger] first_total(post, w) == first_total(pre, w) + (
            if e.w1@ == w {
                e.count as int
            } else {
                0
            }) by {}
            assert forall|w: Seq<char>| #[trigger] second_total(post, w) == second_total(pre, w) + (
            if e.w2@ == w {
                e.count as int
            } else {
                0
            }) by {}
            assert forall|j: int, w: Seq<char>|
                0 <= j <= i + 1 implies fits_i64(#[trigger] first_total(entries@.take(j), w)) by {
                if j == i + 1 && w == e.w1@ {
                    assert(first_total(post, w) == new1);
                }
            }
            assert forall|j: int, w: Seq<char>|
                0 <= j <= i + 1 implies fits_i64(#[trigger] second_total(entries@.take(j), w)) by {
                if j == i + 1 && w == e.w2@ {
                    assert(second_total(post, w) == new2);
                }
            }
        }
        i = i + 1;
    }
    assert(entries@.take(entries.len() as int) =~= entries@);
    proof {
        if exists|j: int, w: Seq<char>|
            0 <= j <= entries@.len() && !fits_i64(#[trigger] first_total(entries@.take(j), w)) {
            let (j, w) = choose|j: int, w: Seq<char>|
                0 <= j <= entries@.len() && !fits_i64(#[trigger] first_total(entries@.take(j), w));
            assert(fits_i64(first_total(entries@.take(j), w)));
        }
        if exists|j: int, w: Seq<char>|
            0 <= j <= entries@.len() && !fits_i64(#[trigger] second_total(entries@.take(j), w)) {
            let (j, w) = choose|j: int, w: Seq<char>|
                0 <= j <= entries@.len() && !fits_i64(#[trigger] second_total(entries@.take(j), w));
            assert(fits_i64(second_total(entries@.take(j), w)));
        }
    }
    Some((hmap1, hmap2))
}

/// `t` holds the PMI terms of the bigram `e` among `es`, its first word
/// counted among first words and its second among second words.
pub open spec fn positional_terms_of(t: PmiTerms, e: Entry, es: Seq<Entry>) -> bool {
    &&& t.w1@ == e.w1@
    &&& t.w2@ == e.w2@
    &&& t.count == e.count
    &&& t.joint == e.count * count_sum(es)
    &&& t.w1_count == first_total(es, e.w1@)
    &&& t.w2_count == second_total(es, e.w2@)
}

/// Computing the positional PMI terms of `es` leaves the `i64` range.
pub open spec fn positional_overflows(es: Seq<Entry>) -> bool {
    ||| count_sum_overflows(es)
    ||| place_counts_overflow(es)
    ||| exists|i: int| 0 <= i < es.len() && !fits_i64(#[trigger] es[i].count * count_sum(es))
}

/// The total of the bigram counts and, for each bigram in order, the integer
/// terms of its PMI with words counted by place; `None` when one of these
/// integers leaves the `i64` range.
pub fn pmi_terms(entries: &Vec<Entry>) -> (res: Option<(i64, Vec<PmiTerms>)>)
    ensures
        res is None <==> positional_overflows(entries@),
        res matches Some((total, rows)) ==> {
            &&& total == count_sum(entries@)
            &&& rows.len() == entries.len()
            &&& forall|i: int|
                0 <= i < rows.len() ==> positional_terms_of(#[trigger] rows@[i], entries@[i], entries@)
        },
{
    let total = match total_count(entries) {
        Some(t) => t,
        None => {
            return None;
        },
    };
    let (counts1, counts2) = match count_words(copy_entries(entries)) {
        Some(m) => m,
        None => {
            return None;
        },
    };
    let mut rows: Vec<PmiTerms> = Vec::new();
    let mut i: usize = 0;
    while i < entries.len()
        invariant
            i <= entries.len(),
            total == count_sum(entries@),
            !count_sum_overflows(entries@),
            !place_counts_overflow(entries@),
            forall|w: Seq<char>|
                #![trigger counts1@.contains_key(w)]
                (counts1@.contains_key(w) <==> occurs_first(entries@, w)) && (counts1@.contains_key(w)
                    ==> counts1@[w] == first_total(entries@, w)),
            forall|w: Seq<char>|
                #![trigger counts2@.contains_key(w)]
                (counts2@.contains_key(w) <==> occurs_second(entries@, w)) && (counts2@.contains_key(
                    w,
                ) ==> counts2@[w] == second_total(entries@, w)),
            rows.len() == i,
            forall|j: int| 0 <= j < i ==> fits_i64(#[trigger] entries@[j].count * count_sum(entries@)),
            forall|j: int|
                0 <= j < i ==> positional_terms_of(#[trigger] rows@[j], entries@[j], entries@),
        decreases entries.len() - i,
    {
        let e = &entries[i];
        let joint = match e.count.checked_mul(total) {
            Some(v) => v,
            None => {
                assert(!fits_i64(entries@[i as int].count * count_sum(entries@)));
                return None;
            },
        };
        proof {
            assert(entries@[i as int] == e);
            assert(occurs_first(entries@, e.w1@));
            assert(occurs_second(entries@, e.w2@));
        }
        let w1_count = match counts1.get(e.w1.as_str()) {
            Some(v) => *v,
            None => 0,
        };
        let w2_count = match counts2.get(e.w2.as_str()) {
            Some(v) => *v,
            None => 0,
        };
        rows.push(
            PmiTerms {
                w1: e.w1.clone(),
                w2: e.w2.clone(),
                count: e.count,
                joint,
                w1_count,
                w2_count,
            },
        );
        i = i + 1;
    }
    Some((total, rows))
}

/// Counting a word wherever it stands gives the sum of its counts as a first
/// word and as a second word.
pub proof fn lemma_word_total_by_place(es: Seq<Entry>, w: Seq<char>)
    ensures
        crate::pmi::word_total(es, w) == first_total(es, w) + second_total(es, w),
    decreases es.len(),
{
    if es.len() > 0 {
        lemma_word_total_by_place(es.drop_last(), w);
    }
}

} // verus!
