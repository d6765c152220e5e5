use bigram_stats::preprocess::{is_punctuation_in_corpus, last_path_segment, preprocess};

#[test]
fn punctuation_of_the_corpus() {
    for c in ['!', '/', ':', '@', '[', '`', '{', '~', '.', ',', '§', '”', '„', '–'] {
        assert!(is_punctuation_in_corpus(c), "{}", c);
    }
    for c in ['a', 'Z', '0', ' ', '\n', 'ą', '—'] {
        assert!(!is_punctuation_in_corpus(c), "{}", c);
    }
}

#[test]
fn preprocess_lowercases_and_blanks_punctuation() {
    assert_eq!(preprocess("Ala, ma KOTA!".to_string()), "ala  ma kota ");
    assert_eq!(preprocess("§ 1. „Ustawa” – Łódź".to_string()), "  1   ustawa    łódź");
    assert_eq!(preprocess(String::new()), "");
}

#[test]
fn preprocess_uses_full_lowercase_mapping() {
    assert_eq!(preprocess("İ".to_string()), "i\u{307}");
}

#[test]
fn last_path_segment_is_file_name() {
    assert_eq!(last_path_segment("../../ustawy/1993_599.txt"), "1993_599.txt");
    assert_eq!(last_path_segment("plain.txt"), "plain.txt");
    assert_eq!(last_path_segment("dir/"), "");
    assert_eq!(last_path_segment(""), "");
}


#[test]
fn preprocess_works_piece_by_piece() {
    let a = "Prawo, ";
    let b = "§ 2 — USTAWA!";
    let whole = preprocess(format!("{}{}", a, b));
    assert_eq!(whole, preprocess(a.to_string()) + &preprocess(b.to_string()));
    assert!(whole.chars().count() >= (a.to_string() + b).chars().count());
}

#[test]
fn preprocess_twice_is_preprocess_once() {
    for s in ["Ala, ma KOTA!", "§ 1. „Ustawa” – Łódź", "", "İstanbul"] {
        let once = preprocess(s.to_string());
        assert_eq!(preprocess(once.clone()), once);
    }
}
