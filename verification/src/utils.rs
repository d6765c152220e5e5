//! A counter of tagged bigrams, and its conversions to and from a list of
//! pairs.
use vstd::prelude::*;
use vstd::hash_map::StringHashMap;
use crate::bigram_key::{key_of, key_text, lemma_key_text_injective};
use crate::tag::{BigramView, TaggedBigram};

verus! {

/// The map that a list of `(bigram, count)` pairs describes when the pairs
/// are entered one after the other: a later pair for the same bigram
/// replaces an earlier one.
pub open spec fn pairs_map(s: Seq<(TaggedBigram, i32)>) -> Map<BigramView, i32>
    decreases s.len(),
{
    if s.len() == 0 {
        Map::empty()
    } else {
        pairs_map(s.drop_last()).insert(s.last().0@, s.last().1)
    }
}

/// No bigram occurs twice among the pairs.
pub open spec fn keys_distinct(s: Seq<(TaggedBigram, i32)>) -> bool {
    forall|i: int, j: int| 0 <= i < j < s.len() ==> s[i].0@ != s[j].0@
}

/// Entering one more pair inserts it into the map.
pub proof fn lemma_pairs_map_push(s: Seq<(TaggedBigram, i32)>, p: (TaggedBigram, i32))
    ensures
        pairs_map(s.push(p)) == pairs_map(s).insert(p.0@, p.1),
{
    assert(s.push(p).drop_last() =~= s);
}

/// The map of a list holds exactly the bigrams of the list.
pub proof fn lemma_pairs_map_keys(s: Seq<(TaggedBigram, i32)>, k: BigramView)
    ensures
        pairs_map(s).contains_key(k) <==> exists|i: int| 0 <= i < s.len() && s[i].0@ == k,
    decreases s.len(),
{
    if s.len() > 0 {
        lemma_pairs_map_keys(s.drop_last(), k);
        if exists|i: int| 0 <= i < s.drop_last().len() && s.drop_last()[i].0@ == k {
            let i = choose|i: int| 0 <= i < s.drop_last().len() && s.drop_last()[i].0@ == k;
            assert(s[i] == s.drop_last()[i]);
        }
        if exists|i: int| 0 <= i < s.len() && s[i].0@ == k {
            let i = choose|i: int| 0 <= i < s.len() && s[i].0@ == k;
            if i < s.len() - 1 {
                assert(s[i] == s.drop_last()[i]);
            }
        }
    }
}

/// In a list of distinct bigrams, each pair's count is the map's value for
/// its bigram.
pub proof fn lemma_pairs_map_value(s: Seq<(TaggedBigram, i32)>, i: int)
    requires
        keys_distinct(s),
        0 <= i < s.len(),
    ensures
        pairs_map(s).contains_key(s[i].0@),
        pairs_map(s)[s[i].0@] == s[i].1,
    decreases s.len(),
{
    if i < s.len() - 1 {
        assert(s[i] == s.drop_last()[i]);
        assert(keys_distinct(s.drop_last()));
        lemma_pairs_map_value(s.drop_last(), i);
    }
}

/// A count for each of a set of tagged bigrams: the pairs in the order
/// the bigrams arrived, and a hash map from each bigram's key to its place
/// among the pairs.
pub struct BigramCounts {
    pairs: Vec<(TaggedBigram, i32)>,
    index: StringHashMap<usize>,
}

impl View for BigramCounts {
    type V = Map<BigramView, i32>;

    closed spec fn view(&self) -> Map<BigramView, i32> {
        pairs_map(self.pairs@)
    }
}

/// `index` maps the key of each bigram of `pairs` to its place, and nothing
/// else.
pub open spec fn indexes(index: Map<Seq<char>, usize>, pairs: Seq<(TaggedBigram, i32)>) -> bool {
    &&& forall|i: int|
        0 <= i < pairs.len() ==> #[trigger] index.contains_key(key_text(pairs[i].0@)) && index[key_text(
            pairs[i].0@,
        )] == i
    &&& forall|k: Seq<char>|
        #[trigger] index.contains_key(k) ==> index[k] < pairs.len() && key_text(
            pairs[index[k] as int].0@,
        ) == k
}

impl BigramCounts {
    #[verifier::type_invariant]
    spec fn well_formed(self) -> bool {
        &&& keys_distinct(self.pairs@)
        &&& indexes(self.index@, self.pairs@)
    }

    /// The empty counter.
    pub fn new() -> (r: BigramCounts)
        ensures
            r@ == Map::<BigramView, i32>::empty(),
    {
        BigramCounts { pairs: Vec::new(), index: StringHashMap::new() }
    }

    /// Where `key` stands among the pairs.
    fn position(&self, key: &TaggedBigram) -> (r: Option<usize>)
        ensures
            r matches Some(i) ==> i < self.pairs.len() && self.pairs@[i as int].0@ == key@,
            r is None ==> forall|i: int| 0 <= i < self.pairs.len() ==> self.pairs@[i].0@ != key@,
    {
        proof {
            use_type_invariant(self);
        }
        let k = key_of(key);
        match self.index.get(k.as_str()) {
            Some(i) => {
                proof {
                    lemma_key_text_injective(self.pairs@[*i as int].0@, key@);
                }
                Some(*i)
            },
            None => {
                assert forall|i: int| 0 <= i < self.pairs.len() implies self.pairs@[i].0@
                    != key@ by {
                    assert(self.index@.contains_key(key_text(self.pairs@[i].0@)));
                }
                None
            },
        }
    }

    /// The count of `key`, if it has one.
    pub fn get(&self, key: &TaggedBigram) -> (r: Option<i32>)
        ensures
            r matches Some(c) ==> self@.contains_key(key@) && self@[key@] == c,
            r is None ==> !self@.contains_key(key@),
    {
        proof {
            use_type_invariant(self);
            lemma_pairs_map_keys(self.pairs@, key@);
        }
        match self.position(key) {
            Some(i) => {
                proof {
                    lemma_pairs_map_value(self.pairs@, i as int);
                }
                Some(self.pairs[i].1)
            },
            None => None,
        }
    }

    /// Sets the count of `key` to `count`.
    pub fn insert(&mut self, key: TaggedBigram, count: i32)
        ensures
            final(self)@ == old(self)@.insert(key@, count),
    {
        proof {
            use_type_invariant(&*self);
        }
        let pos = self.position(&key);
        let mut taken = BigramCounts::new();
        std::mem::swap(&mut taken, self);
        proof {
            use_type_invariant(&taken);
        }
        let BigramCounts { mut pairs, mut index } = taken;
        let ghost old_pairs = pairs@;
        let ghost k = key@;
        match pos {
            Some(i) => {
                pairs.set(i, (key, count));
                proof {
                    assert forall|a: int, b: int| 0 <= a < b < pairs@.len() implies pairs@[a].0@
                        != pairs@[b].0@ by {
                        assert(old_pairs[a].0@ != old_pairs[b].0@);
                    }
                    assert forall|kk: BigramView| #[trigger] pairs_map(pairs@).contains_key(kk)
                        == pairs_map(old_pairs).insert(k, count).contains_key(kk) by {
                        lemma_pairs_map_keys(pairs@, kk);
                        lemma_pairs_map_keys(old_pairs, kk);
                        if exists|j: int| 0 <= j < old_pairs.len() && old_pairs[j].0@ == kk {
                            let j = choose|j: int| 0 <= j < old_pairs.len() && old_pairs[j].0@ == kk;
                            assert(pairs@[j].0@ == kk);
                        }
                        if exists|j: int| 0 <= j < pairs@.len() && pairs@[j].0@ == kk {
                            let j = choose|j: int| 0 <= j < pairs@.len() && pairs@[j].0@ == kk;
                            if j != i {
                                assert(old_pairs[j].0@ == kk);
                            }
                        }
                    }
                    assert forall|kk: BigramView| #[trigger] pairs_map(pairs@).contains_key(kk)
                        implies pairs_map(pairs@)[kk] == pairs_map(old_pairs).insert(k, count)[kk] by {
                        lemma_pairs_map_keys(pairs@, kk);
                        let j = choose|j: int| 0 <= j < pairs@.len() && pairs@[j].0@ == kk;
                        lemma_pairs_map_value(pairs@, j);
                        if j != i {
                            lemma_pairs_map_value(old_pairs, j);
                        }
                    }
                    assert(pairs_map(pairs@) =~= pairs_map(old_pairs).insert(k, count));
                    assert forall|j: int| 0 <= j < pairs@.len() implies #[trigger] index@.contains_key(
                        key_text(pairs@[j].0@),
                    ) && index@[key_text(pairs@[j].0@)] == j by {
                        assert(index@.contains_key(key_text(old_pairs[j].0@)));
                    }
                    assert forall|kk: Seq<char>| #[trigger] index@.contains_key(kk) implies index@[kk]
                        < pairs@.len() && key_text(pairs@[index@[kk] as int].0@) == kk by {
                        assert(key_text(old_pairs[index@[kk] as int].0@) == kk);
                    }
                }
            },
            None => {
                let text = key_of(&key);
                let ghost kt = text@;
                let n = pairs.len();
                proof {
                    lemma_pairs_map_push(old_pairs, (key, count));
                    assert(!index@.contains_key(kt)) by {
                        if index@.contains_key(kt) {
                            lemma_key_text_injective(old_pairs[index@[kt] as int].0@, k);
                        }
                    }
                }
                index.insert(text, n);
                pairs.push((key, count));
                proof {
                    assert(pairs@ == old_pairs.push(pairs@.last()));
                    assert forall|a: int, b: int| 0 <= a < b < pairs@.len() implies pairs@[a].0@
                        != pairs@[b].0@ by {
                        if b < n {
                            assert(old_pairs[a].0@ != old_pairs[b].0@);
                        }
                    }
                    assert forall|j: int| 0 <= j < pairs@.len() implies #[trigger] index@.contains_key(
                        key_text(pairs@[j].0@),
                    ) && index@[key_text(pairs@[j].0@)] == j by {
                        if j < n {
                            assert(pairs@[j] == old_pairs[j]);
                            assert(key_text(old_pairs[j].0@) != kt);
                        }
                    }
                    assert forall|kk: Seq<char>| #[trigger] index@.contains_key(kk) implies index@[kk]
                        < pairs@.len() && key_text(pairs@[index@[kk] as int].0@) == kk by {
                        if kk != kt {
                            assert(pairs@[index@[kk] as int] == old_pairs[index@[kk] as int]);
                        }
                    }
                }
            },
        }
        *self = BigramCounts { pairs, index };
    }

    /// The pairs of the counter, each bigram once.
    fn into_pairs(self) -> (r: Vec<(TaggedBigram, i32)>)
        ensures
            keys_distinct(r@),
            pairs_map(r@) == self@,
    {
        proof {
            use_type_invariant(&self);
        }
        let BigramCounts { pairs, index: _ } = self;
        pairs
    }
}

/// The pairs of a counter, each bigram once, in no particular order.
pub fn hash_to_vec(h: BigramCounts) -> (v: Vec<(TaggedBigram, i32)>)
    ensures
        keys_distinct(v@),
        pairs_map(v@) == h@,
{
    h.into_pairs()
}

/// The counter that holds the pairs of `v`; where a bigram occurs more than
/// once, its last count is kept.
pub fn vec_to_hash(v: Vec<(TaggedBigram, i32)>) -> (h: BigramCounts)
    ensures
        h@ == pairs_map(v@),
{
    let mut h = BigramCounts::new();
    let ghost whole = v@;
    assert(whole.take(0) =~= Seq::<(TaggedBigram, i32)>::empty());
    for p in it: v
        invariant
            it.seq() == whole,
            h@ == pairs_map(whole.take(it.index() as int)),
    {
        let ghost i = it.index();
        proof {
            assert(whole.take(i + 1) =~= whole.take(i as int).push(p));
            lemma_pairs_map_push(whole.take(i as int), p);
        }
        h.insert(p.0, p.1);
    }
    assert(whole.take(whole.len() as int) =~= whole);
    h
}

/// Turning pairs with distinct bigrams into a counter and back gives the
/// same pairs, in some order: every pair of the one list is a pair of the
/// other.
pub proof fn lemma_pairs_round_trip(v: Seq<(TaggedBigram, i32)>, w: Seq<(TaggedBigram, i32)>)
    requires
        keys_distinct(v),
        keys_distinct(w),
        pairs_map(w) == pairs_map(v),
    ensures
        forall|i: int|
            0 <= i < v.len() ==> exists|j: int|
                0 <= j < w.len() && (#[trigger] w[j]).0@ == (#[trigger] v[i]).0@ && w[j].1 == v[i].1,
        forall|j: int|
            0 <= j < w.len() ==> exists|i: int|
                0 <= i < v.len() && (#[trigger] v[i]).0@ == (#[trigger] w[j]).0@ && v[i].1 == w[j].1,
{
    assert forall|i: int| 0 <= i < v.len() implies exists|j: int|
        0 <= j < w.len() && (#[trigger] w[j]).0@ == (#[trigger] v[i]).0@ && w[j].1 == v[i].1 by {
        lemma_pairs_map_value(v, i);
        lemma_pairs_map_keys(w, v[i].0@);
        let j = choose|j: int| 0 <= j < w.len() && w[j].0@ == v[i].0@;
        lemma_pairs_map_value(w, j);
    }
    assert forall|j: int| 0 <= j < w.len() implies exists|i: int|
        0 <= i < v.len() && (#[trigger] v[i]).0@ == (#[trigger] w[j]).0@ && v[i].1 == w[j].1 by {
        lemma_pairs_map_value(w, j);
        lemma_pairs_map_keys(v, w[j].0@);
        let i = choose|i: int| 0 <= i < v.len() && v[i].0@ == w[j].0@;
        lemma_pairs_map_value(v, i);
    }
}

} // verus!
