use bigram_stats::bigrams::{
    entries_from_pickle, is_bigram_dict, total_count, w1w2_to_str, DictKey, DictValue, Entry, KeyItem, PickleDoc,
};
use bigram_stats::llr::contingency_tables;
use bigram_stats::{pmi, positional};

fn e(w1: &str, w2: &str, count: i64) -> Entry {
    Entry { w1: w1.to_string(), w2: w2.to_string(), count }
}

fn key(words: &[&str]) -> DictKey {
    DictKey::Tuple(words.iter().map(|w| KeyItem::Str(w.to_string())).collect())
}

fn sample() -> Vec<Entry> {
    vec![e("a", "b", 2), e("b", "c", 3), e("a", "c", 5), e("c", "c", 1)]
}

#[test]
fn entries_from_pickle_reads_bigram_dict() {
    let doc = PickleDoc::Dict(vec![
        (key(&["ala", "ma"]), DictValue::Int(3)),
        (key(&["ma", "kota", "extra"]), DictValue::Int(-2)),
    ]);
    assert!(is_bigram_dict(&doc));
    let es = entries_from_pickle(&doc);
    assert_eq!(es.len(), 2);
    assert_eq!((es[0].w1.as_str(), es[0].w2.as_str(), es[0].count), ("ala", "ma", 3));
    assert_eq!((es[1].w1.as_str(), es[1].w2.as_str(), es[1].count), ("ma", "kota", -2));
    assert!(is_bigram_dict(&PickleDoc::Dict(vec![])));
    assert!(entries_from_pickle(&PickleDoc::Dict(vec![])).is_empty());
}

#[test]
fn is_bigram_dict_rejects_other_shapes() {
    assert!(!is_bigram_dict(&PickleDoc::NotDict));
    let bad_key = PickleDoc::Dict(vec![(DictKey::NotTuple, DictValue::Int(1))]);
    assert!(!is_bigram_dict(&bad_key));
    let short = PickleDoc::Dict(vec![(key(&["one"]), DictValue::Int(1))]);
    assert!(!is_bigram_dict(&short));
    let bad_value = PickleDoc::Dict(vec![(key(&["a", "b"]), DictValue::NotInt)]);
    assert!(!is_bigram_dict(&bad_value));
    let bad_item = PickleDoc::Dict(vec![(
        DictKey::Tuple(vec![KeyItem::Str("a".to_string()), KeyItem::Str("b".to_string()), KeyItem::NotStr]),
        DictValue::Int(1),
    )]);
    assert!(!is_bigram_dict(&bad_item));
}

#[test]
fn w1w2_to_str_gives_the_strings() {
    let items = vec![KeyItem::Str("x".to_string()), KeyItem::Str("y".to_string())];
    assert_eq!(w1w2_to_str(&items), vec!["x".to_string(), "y".to_string()]);
    assert!(w1w2_to_str(&vec![]).is_empty());
}

#[test]
fn total_count_sums_and_detects_overflow() {
    assert_eq!(total_count(&sample()), Some(11));
    assert_eq!(total_count(&vec![]), Some(0));
    assert_eq!(total_count(&vec![e("a", "b", i64::MAX), e("a", "b", 1)]), None);
    assert_eq!(total_count(&vec![e("a", "b", i64::MAX), e("a", "b", -1)]), Some(i64::MAX - 1));
}

#[test]
fn count_words_counts_both_places() {
    let m = pmi::count_words(sample()).unwrap();
    assert_eq!(m.get("a"), Some(&7));
    assert_eq!(m.get("b"), Some(&5));
    assert_eq!(m.get("c"), Some(&10));
    assert_eq!(m.get("d"), None);
}

#[test]
fn count_words_overflow_is_none() {
    assert!(pmi::count_words(vec![e("a", "a", i64::MAX / 2 + 1)]).is_none());
    assert!(pmi::count_words(vec![e("a", "b", i64::MAX), e("b", "c", 0)]).is_some());
    assert!(pmi::count_words(vec![e("a", "b", i64::MAX), e("b", "c", 1)]).is_none());
}

#[test]
fn positional_count_words_counts_by_place() {
    let (m1, m2) = positional::count_words(sample()).unwrap();
    assert_eq!(m1.get("a"), Some(&7));
    assert_eq!(m1.get("b"), Some(&3));
    assert_eq!(m1.get("c"), Some(&1));
    assert_eq!(m2.get("a"), None);
    assert_eq!(m2.get("b"), Some(&2));
    assert_eq!(m2.get("c"), Some(&9));
    assert!(positional::count_words(vec![e("a", "a", i64::MAX / 2 + 1)]).is_some());
    assert!(positional::count_words(vec![e("a", "b", i64::MAX), e("a", "c", 1)]).is_none());
}

#[test]
fn word_count_is_sum_of_place_counts() {
    let all = pmi::count_words(sample()).unwrap();
    let (m1, m2) = positional::count_words(sample()).unwrap();
    for w in ["a", "b", "c"] {
        let s = m1.get(w).copied().unwrap_or(0) + m2.get(w).copied().unwrap_or(0);
        assert_eq!(all.get(w).copied(), Some(s));
    }
}

#[test]
fn pmi_terms_combined() {
    let (total, rows) = pmi::pmi_terms(&sample()).unwrap();
    assert_eq!(total, 11);
    assert_eq!(rows.len(), 4);
    let r = &rows[1];
    assert_eq!((r.w1.as_str(), r.w2.as_str()), ("b", "c"));
    assert_eq!((r.count, r.joint, r.w1_count, r.w2_count), (3, 33, 5, 10));
}

#[test]
fn pmi_terms_positional() {
    let (total, rows) = positional::pmi_terms(&sample()).unwrap();
    assert_eq!(total, 11);
    let r = &rows[2];
    assert_eq!((r.w1.as_str(), r.w2.as_str()), ("a", "c"));
    assert_eq!((r.count, r.joint, r.w1_count, r.w2_count), (5, 55, 7, 9));
}

#[test]
fn pmi_terms_overflow_is_none() {
    let es = vec![e("a", "b", 1i64 << 32), e("c", "d", 1i64 << 32)];
    assert!(pmi::pmi_terms(&es).is_none());
    assert!(positional::pmi_terms(&es).is_none());
    assert!(pmi::pmi_terms(&vec![]).unwrap().1.is_empty());
}

#[test]
fn contingency_tables_of_sample() {
    let ts = contingency_tables(&sample()).unwrap();
    assert_eq!(ts.len(), 4);
    let t = &ts[0];
    assert_eq!((t.w1.as_str(), t.w2.as_str()), ("a", "b"));
    assert_eq!((t.k11, t.k12, t.k21, t.k22), (2, 5, 3, -6));
    for t in &ts {
        assert_eq!(t.k11 + t.k12 + t.k21 + t.k22, 4);
    }
    assert!(contingency_tables(&vec![e("a", "a", i64::MAX)]).is_none());
}

/// A pickle (protocol 2) of `{("ala", "ma"): 3, ("ma", "kota"): 5}`.
fn pickled_dict() -> Vec<u8> {
    let mut b = vec![0x80, 0x02, b'}', b'q', 0x00, b'('];
    for (w1, w2, c) in [("ala", "ma", 3u8), ("ma", "kota", 5u8)] {
        for w in [w1, w2] {
            b.push(b'X');
            b.extend_from_slice(&(w.len() as u32).to_le_bytes());
            b.extend_from_slice(w.as_bytes());
        }
        b.push(0x86);
        b.push(b'K');
        b.push(c);
    }
    b.push(b'u');
    b.push(b'.');
    b
}

#[test]
fn load_entries_decodes_a_bigram_dict() {
    let mut es = bigram_stats::bigrams::load_entries(&pickled_dict()).unwrap();
    es.sort_by(|a, b| a.w1.cmp(&b.w1));
    assert_eq!(es.len(), 2);
    assert_eq!((es[0].w1.as_str(), es[0].w2.as_str(), es[0].count), ("ala", "ma", 3));
    assert_eq!((es[1].w1.as_str(), es[1].w2.as_str(), es[1].count), ("ma", "kota", 5));
}

#[test]
fn load_entries_rejects_bad_bytes_and_shapes() {
    assert!(bigram_stats::bigrams::load_entries(b"not a pickle").is_none());
    // A pickled integer: decodes, but is no dictionary.
    assert!(bigram_stats::bigrams::load_entries(&[0x80, 0x02, b'K', 7, b'.']).is_none());
    // {("ala",): 1}: a key tuple with one string only.
    let short = [0x80, 0x02, b'}', b'(', b'X', 3, 0, 0, 0, b'a', b'l', b'a', 0x85, b'K', 1, b'u', b'.'];
    assert!(bigram_stats::bigrams::load_entries(&short).is_none());
}
