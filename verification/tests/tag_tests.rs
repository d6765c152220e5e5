use bigram_stats::tag::{
    chain_bigrams, count_tagged_bigrams, merge_all, merged_counters, unigram_from_captures, nonempty_lines, parse, parse_cat, pending_files,
    CatRegex, TaggedBigram, Unigram,
};
use bigram_stats::utils::{hash_to_vec, vec_to_hash, BigramCounts};

const CAT_PATTERN: &str = r"\t(?P<lemma>\w.*?)\t(?P<cat>\w+?)[:\t]";

fn uni(w: &str, cat: &str) -> Unigram {
    Unigram { w: w.to_string(), cat: cat.to_string() }
}

fn bi(w1: &str, c1: &str, w2: &str, c2: &str) -> TaggedBigram {
    TaggedBigram { w1: uni(w1, c1), w2: uni(w2, c2) }
}

#[test]
fn parse_cat_test() {
    let cat_regex = CatRegex::new(CAT_PATTERN).unwrap();
    assert_eq!(
        Option::Some(Unigram { w: "lubić".to_string(), cat: "fin".to_string() }),
        parse_cat("", "\tlubić\tfin:sg:ter:imperf\tdisamb", &cat_regex)
    );
    assert_eq!(Option::None, parse_cat("", "\tinterp\tdisamb'", &cat_regex))
}

#[test]
fn invalid_pattern_is_rejected() {
    assert!(CatRegex::new("(unclosed").is_err());
    assert!(CatRegex::new(CAT_PATTERN).is_ok());
}

#[test]
fn parse_cat_without_named_groups_gives_none() {
    let re = CatRegex::new(r"\t\w+").unwrap();
    assert_eq!(None, parse_cat("", "\tabc\tdef:x", &re));
}

#[test]
fn nonempty_lines_drops_empty_pieces() {
    let lines = nonempty_lines("a\n\nbc\n\n\nd\n");
    assert_eq!(lines, vec!["a".to_string(), "bc".to_string(), "d".to_string()]);
    assert!(nonempty_lines("").is_empty());
    assert!(nonempty_lines("\n\n").is_empty());
    assert_eq!(nonempty_lines("x"), vec!["x".to_string()]);
}

#[test]
fn parse_builds_bigrams_of_consecutive_words() {
    let re = CatRegex::new(CAT_PATTERN).unwrap();
    let input = "Ala\tnone\n\tAla\tsubst:sg:nom:f\tdisamb\n\
                 ma\tspace\n\tmieć\tfin:sg:ter:imperf\tdisamb\n\n\
                 kota\tspace\n\tkot\tsubst:sg:acc:m2\tdisamb\n";
    let bigrams = parse(input.to_string(), &re);
    assert_eq!(
        bigrams,
        vec![bi("Ala", "subst", "mieć", "fin"), bi("mieć", "fin", "kot", "subst")]
    );
}

#[test]
fn parse_breaks_chain_on_non_alphabetic_or_unparsed() {
    let re = CatRegex::new(CAT_PATTERN).unwrap();
    let input = "a\n\tdom\tsubst:sg\tdisamb\n\
                 ,\n\t,\tinterp\tdisamb\n\
                 b\n\tkot\tsubst:sg\tdisamb\n\
                 c\n\tpies\tsubst:sg\tdisamb\n\
                 d\nnothing here\n\
                 e\n\tlas\tsubst:pl\tdisamb\n";
    let bigrams = parse(input.to_string(), &re);
    assert_eq!(bigrams, vec![bi("kot", "subst", "pies", "subst")]);
}

#[test]
fn parse_of_empty_answer_is_empty() {
    let re = CatRegex::new(CAT_PATTERN).unwrap();
    assert!(parse(String::new(), &re).is_empty());
    assert!(parse("\n\n".to_string(), &re).is_empty());
}

#[test]
fn count_tagged_bigrams_keeps_repeated_only() {
    let v = vec![
        bi("a", "x", "b", "y"),
        bi("c", "x", "d", "y"),
        bi("a", "x", "b", "y"),
        bi("e", "x", "f", "y"),
        bi("a", "x", "b", "y"),
        bi("e", "x", "f", "y"),
    ];
    let counts = count_tagged_bigrams(v).unwrap();
    assert_eq!(counts.get(&bi("a", "x", "b", "y")), Some(3));
    assert_eq!(counts.get(&bi("e", "x", "f", "y")), Some(2));
    assert_eq!(counts.get(&bi("c", "x", "d", "y")), None);
    assert_eq!(hash_to_vec(counts).len(), 2);
}

#[test]
fn count_tagged_bigrams_distinguishes_categories() {
    let v = vec![bi("a", "x", "b", "y"), bi("a", "z", "b", "y"), bi("a", "z", "b", "y")];
    let counts = count_tagged_bigrams(v).unwrap();
    assert_eq!(counts.get(&bi("a", "x", "b", "y")), None);
    assert_eq!(counts.get(&bi("a", "z", "b", "y")), Some(2));
}

fn counter(pairs: &[(&str, i32)]) -> BigramCounts {
    vec_to_hash(pairs.iter().map(|(w, c)| (bi(w, "x", w, "y"), *c)).collect())
}

#[test]
fn merged_counters_adds_counts() {
    let h1 = counter(&[("a", 1), ("b", 2)]);
    let h2 = counter(&[("b", 5), ("c", 7)]);
    let m = merged_counters(h1, h2).unwrap();
    assert_eq!(m.get(&bi("a", "x", "a", "y")), Some(1));
    assert_eq!(m.get(&bi("b", "x", "b", "y")), Some(7));
    assert_eq!(m.get(&bi("c", "x", "c", "y")), Some(7));
    assert_eq!(m.get(&bi("d", "x", "d", "y")), None);
}

#[test]
fn merged_counters_is_commutative_on_example() {
    let ab = merged_counters(counter(&[("a", 1), ("b", 2)]), counter(&[("b", 3)])).unwrap();
    let ba = merged_counters(counter(&[("b", 3)]), counter(&[("a", 1), ("b", 2)])).unwrap();
    for w in ["a", "b", "c"] {
        let k = bi(w, "x", w, "y");
        assert_eq!(ab.get(&k), ba.get(&k));
    }
}

#[test]
fn merged_counters_with_empty_is_identity() {
    let m = merged_counters(counter(&[("a", 4)]), BigramCounts::new()).unwrap();
    assert_eq!(m.get(&bi("a", "x", "a", "y")), Some(4));
    assert_eq!(hash_to_vec(m).len(), 1);
}

#[test]
fn merged_counters_overflow_is_none() {
    let h1 = counter(&[("a", i32::MAX)]);
    let h2 = counter(&[("a", 1)]);
    assert!(merged_counters(h1, h2).is_none());
    let h1 = counter(&[("a", i32::MIN)]);
    let h2 = counter(&[("a", -1)]);
    assert!(merged_counters(h1, h2).is_none());
}

#[test]
fn vec_to_hash_keeps_last_count() {
    let h = counter(&[("a", 1), ("b", 2), ("a", 9)]);
    assert_eq!(h.get(&bi("a", "x", "a", "y")), Some(9));
    assert_eq!(h.get(&bi("b", "x", "b", "y")), Some(2));
    assert_eq!(hash_to_vec(h).len(), 2);
}

#[test]
fn counter_round_trip() {
    let pairs = vec![(bi("a", "x", "b", "y"), 3), (bi("c", "x", "d", "y"), 4)];
    let back = hash_to_vec(vec_to_hash(pairs.clone()));
    assert_eq!(back.len(), pairs.len());
    for p in &pairs {
        assert!(back.contains(p));
    }
}

#[test]
fn pending_files_skips_done_ones() {
    let source = vec!["a.txt".to_string(), "b.txt".to_string(), "c.txt".to_string()];
    let done = vec!["b.txt".to_string(), "z.txt".to_string()];
    assert_eq!(pending_files(source, done), vec!["a.txt".to_string(), "c.txt".to_string()]);
    assert!(pending_files(vec![], vec!["a".to_string()]).is_empty());
}

#[test]
fn count_tagged_bigrams_of_nothing_is_empty() {
    let counts = count_tagged_bigrams(vec![]).unwrap();
    assert!(hash_to_vec(counts).is_empty());
}

#[test]
fn chain_bigrams_joins_neighbours_only() {
    let tags = vec![
        Some(uni("a", "x")),
        Some(uni("b", "y")),
        None,
        Some(uni("c", "z")),
        Some(uni("d", "w")),
        Some(uni("e", "v")),
    ];
    assert_eq!(
        chain_bigrams(tags),
        vec![bi("a", "x", "b", "y"), bi("c", "z", "d", "w"), bi("d", "w", "e", "v")]
    );
    assert!(chain_bigrams(vec![Some(uni("a", "x"))]).is_empty());
    assert!(chain_bigrams(vec![None, None]).is_empty());
}

#[test]
fn unigram_from_captures_needs_both_groups() {
    assert_eq!(
        unigram_from_captures(Some((Some("kot".to_string()), Some("subst".to_string())))),
        Some(uni("kot", "subst"))
    );
    assert_eq!(unigram_from_captures(Some((Some("kot".to_string()), None))), None);
    assert_eq!(unigram_from_captures(Some((None, Some("subst".to_string())))), None);
    assert_eq!(unigram_from_captures(None), None);
}

#[test]
fn counter_keeps_bigrams_with_tabs_and_backslashes_apart() {
    let h = vec_to_hash(vec![
        (bi("a\t", "x", "b", "y"), 1),
        (bi("a", "\tx", "b", "y"), 2),
        (bi("a\\", "tx", "b", "y"), 3),
        (bi("a\\t", "x", "b", "y"), 4),
        (bi("a", "x\tb", "", "y"), 5),
    ]);
    assert_eq!(h.get(&bi("a\t", "x", "b", "y")), Some(1));
    assert_eq!(h.get(&bi("a", "\tx", "b", "y")), Some(2));
    assert_eq!(h.get(&bi("a\\", "tx", "b", "y")), Some(3));
    assert_eq!(h.get(&bi("a\\t", "x", "b", "y")), Some(4));
    assert_eq!(h.get(&bi("a", "x\tb", "", "y")), Some(5));
    assert_eq!(h.get(&bi("a", "x", "b", "y")), None);
    assert_eq!(hash_to_vec(h).len(), 5);
}

#[test]
fn counter_insert_overwrites() {
    let mut h = BigramCounts::new();
    h.insert(bi("a", "x", "b", "y"), 1);
    h.insert(bi("a", "x", "b", "y"), 6);
    h.insert(bi("c", "x", "d", "y"), 2);
    assert_eq!(h.get(&bi("a", "x", "b", "y")), Some(6));
    assert_eq!(h.get(&bi("c", "x", "d", "y")), Some(2));
    assert_eq!(hash_to_vec(h).len(), 2);
}

#[test]
fn merged_counters_is_associative_on_example() {
    let left = merged_counters(
        merged_counters(counter(&[("a", 1)]), counter(&[("a", 2), ("b", 3)])).unwrap(),
        counter(&[("b", 4), ("c", 5)]),
    )
    .unwrap();
    let right = merged_counters(
        counter(&[("a", 1)]),
        merged_counters(counter(&[("a", 2), ("b", 3)]), counter(&[("b", 4), ("c", 5)])).unwrap(),
    )
    .unwrap();
    for (w, expected) in [("a", Some(3)), ("b", Some(7)), ("c", Some(5)), ("d", None)] {
        let k = bi(w, "x", w, "y");
        assert_eq!(left.get(&k), expected);
        assert_eq!(right.get(&k), expected);
    }
}

#[test]
fn merge_all_sums_in_order() {
    let m = merge_all(vec![
        counter(&[("a", 1)]),
        counter(&[("a", 2), ("b", 3)]),
        counter(&[("b", 4), ("c", 5)]),
    ])
    .unwrap();
    for (w, expected) in [("a", Some(3)), ("b", Some(7)), ("c", Some(5)), ("d", None)] {
        assert_eq!(m.get(&bi(w, "x", w, "y")), expected);
    }
    assert!(hash_to_vec(merge_all(vec![]).unwrap()).is_empty());
    assert!(merge_all(vec![counter(&[("a", i32::MAX)]), counter(&[("b", 1)]), counter(&[("a", 1)])]).is_none());
}

#[test]
fn extra_line_feeds_change_nothing() {
    let re = CatRegex::new(CAT_PATTERN).unwrap();
    let s = "a\n\tdom\tsubst:sg\tdisamb\nb\n\tkot\tsubst:sg\tdisamb";
    let expected = parse(s.to_string(), &re);
    assert_eq!(expected, vec![bi("dom", "subst", "kot", "subst")]);
    assert_eq!(parse(s.replace('\n', "\n\n"), &re), expected);
    assert_eq!(parse(format!("\n{}\n", s), &re), expected);
    assert_eq!(nonempty_lines(&s.replace('\n', "\n\n\n")), nonempty_lines(s));
}

#[test]
fn counting_parts_then_merging_misses_cross_part_repeats() {
    let a = vec![bi("a", "x", "b", "y"), bi("c", "x", "d", "y"), bi("c", "x", "d", "y")];
    let b = vec![bi("a", "x", "b", "y"), bi("c", "x", "d", "y"), bi("c", "x", "d", "y")];
    let whole: Vec<TaggedBigram> = a.iter().chain(b.iter()).cloned().collect();
    let parts = merged_counters(count_tagged_bigrams(a).unwrap(), count_tagged_bigrams(b).unwrap()).unwrap();
    let together = count_tagged_bigrams(whole).unwrap();
    assert_eq!(parts.get(&bi("a", "x", "b", "y")), None);
    assert_eq!(together.get(&bi("a", "x", "b", "y")), Some(2));
    assert_eq!(parts.get(&bi("c", "x", "d", "y")), Some(4));
    assert_eq!(together.get(&bi("c", "x", "d", "y")), Some(4));
}
