//! The 2x2 contingency table behind the log-likelihood ratio of a bigram.
use vstd::prelude::*;
use crate::bigrams::{Entry, copy_entries};
use crate::pmi::{count_words, occurs, word_counts_overflow, word_total};

verus! {

/// The contingency table of a bigram `w1 w2`: `k11` counts the bigram,
/// `k12` the other occurrences of `w1`, `k21` the other occurrences of `w2`
/// and `k22` what remains of the number of distinct bigrams.
#[derive(Debug)]
pub struct Contingency {
    pub w1: String,
    pub w2: String,
    pub k11: i128,
    pub k12: i128,
    pub k21: i128,
    pub k22: i128,
}

/// `t` is the contingency table of the bigram `e` among the bigrams `es`.
pub open spec fn table_of(t: Contingency, e: Entry, es: Seq<Entry>) -> bool {
    &&& t.w1@ == e.w1@
    &&& t.w2@ == e.w2@
    &&& t.k11 == e.count
    &&& t.k12 == word_total(es, e.w1@) - e.count
    &&& t.k21 == word_total(es, e.w2@) - e.count
    &&& t.k22 == es.len() - (e.count + t.k12 + t.k21)
}

/// The contingency table of each bigram of `bigrams`, in order; `None` when
/// counting the words leaves the `i64` range.
pub fn contingency_tables(bigrams: &Vec<Entry>) -> (res: Option<Vec<Contingency>>)
    ensures
        res is None <==> word_counts_overflow(bigrams@),
        res matches Some(ts) ==> ts.len() == bigrams.len() && forall|i: int|
            0 <= i < ts.len() ==> table_of(#[trigger] ts@[i], bigrams@[i], bigrams@),
{
    let counts = match count_words(copy_entries(bigrams)) {
        Some(m) => m,
        None => {
            return None;
        },
    };
    let n = bigrams.len() as i128;
    let mut ts: Vec<Contingency> = Vec::new();
    let mut i: usize = 0;
    while i < bigrams.len()
        invariant
            i <= bigrams.len(),
            n == bigrams.len(),
            !word_counts_overflow(bigrams@),
            forall|w: Seq<char>|
                #![trigger counts@.contains_key(w)]
                (counts@.contains_key(w) <==> occurs(bigrams@, w)) && (counts@.contains_key(w)
                    ==> counts@[w] == word_total(bigrams@, w)),
            ts.len() == i,
            forall|j: int| 0 <= j < i ==> table_of(#[trigger] ts@[j], bigrams@[j], bigrams@),
        decreases bigrams.len() - i,
    {
        let e = &bigrams[i];
        proof {
            assert(bigrams@[i as int] == e);
            assert(occurs(bigrams@, e.w1@));
            assert(occurs(bigrams@, e.w2@));
        }
        let w1_count: i64 = match counts.get(e.w1.as_str()) {
            Some(v) => *v,
            None => 0,
        };
        let w2_count: i64 = match counts.get(e.w2.as_str()) {
            Some(v) => *v,
            None => 0,
        };
        let k11 = e.count as i128;
        let k12 = w1_count as i128 - k11;
        let k21 = w2_count as i128 - k11;
        let k22 = n - (k11 + k12 + k21);
        ts.push(Contingency { w1: e.w1.clone(), w2: e.w2.clone(), k11, k12, k21, k22 });
        i = i + 1;
    }
    Some(ts)
}

/// The four cells of a contingency table add up to the number of distinct
/// bigrams, its first row to the count of `w1` and its first column to the
/// count of `w2`.
pub proof fn lemma_table_margins(t: Contingency, e: Entry, es: Seq<Entry>)
    requires
        table_of(t, e, es),
    ensures
        t.k11 + t.k12 + t.k21 + t.k22 == es.len(),
        t.k11 + t.k12 == word_total(es, e.w1@),
        t.k11 + t.k21 == word_total(es, e.w2@),
{
}

} // verus!
