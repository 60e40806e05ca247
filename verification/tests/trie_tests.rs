use trie::dictionary::{Trie, WordFreq};

fn entry(word: &str, frequency: u128) -> WordFreq {
    WordFreq { word: word.to_string(), frequency }
}

fn pairs(results: &[WordFreq]) -> Vec<(String, u128)> {
    results.iter().map(|r| (r.word.clone(), r.frequency)).collect()
}

#[test]
fn search_finds_inserted_frequency() {
    let mut t = Trie::new();
    t.insert(entry("cat", 5)).unwrap();
    t.insert(entry("dog", 7)).unwrap();
    assert_eq!(t.search("cat".to_string()), Some(5));
    assert_eq!(t.search("dog".to_string()), Some(7));
}

#[test]
fn reinsert_overwrites_last_write_wins() {
    let mut t = Trie::new();
    t.insert(entry("cat", 1)).unwrap();
    t.insert(entry("cat", 5)).unwrap();
    assert_eq!(t.search("cat".to_string()), Some(5));
}

#[test]
fn strict_prefix_of_stored_word_is_not_found() {
    let mut t = Trie::new();
    t.insert(entry("cats", 3)).unwrap();
    assert_eq!(t.search("cat".to_string()), None);
    assert_eq!(t.search("cats".to_string()), Some(3));
}

#[test]
fn unrelated_word_is_not_found() {
    let t = Trie::new();
    assert_eq!(t.search("zzz".to_string()), None);
    let mut t = Trie::new();
    t.insert(entry("cat", 4)).unwrap();
    assert_eq!(t.search("zzz".to_string()), None);
}

#[test]
fn extension_of_stored_word_is_not_found() {
    let mut t = Trie::new();
    t.insert(entry("cat", 4)).unwrap();
    assert_eq!(t.search("cats".to_string()), None);
}

#[test]
fn autocomplete_returns_matches_sorted_by_frequency() {
    let mut t = Trie::new();
    t.insert(entry("cat", 5)).unwrap();
    t.insert(entry("car", 9)).unwrap();
    t.insert(entry("cow", 2)).unwrap();
    let r = t.autocomplete(&"ca".to_string());
    assert_eq!(pairs(&r), vec![("car".to_string(), 9), ("cat".to_string(), 5)]);
}

#[test]
fn autocomplete_includes_the_prefix_itself_when_stored() {
    let mut t = Trie::new();
    t.insert(entry("car", 2)).unwrap();
    t.insert(entry("cart", 8)).unwrap();
    let r = t.autocomplete(&"car".to_string());
    assert_eq!(pairs(&r), vec![("cart".to_string(), 8), ("car".to_string(), 2)]);
}

#[test]
fn autocomplete_without_matches_is_empty() {
    let t = Trie::new();
    assert!(t.autocomplete(&"ca".to_string()).is_empty());
    let mut t = Trie::new();
    t.insert(entry("cat", 5)).unwrap();
    assert!(t.autocomplete(&"xy".to_string()).is_empty());
    assert!(t.autocomplete(&"cats".to_string()).is_empty());
}

#[test]
fn autocomplete_returns_all_matches_untruncated() {
    let mut t = Trie::new();
    for (i, w) in ["aa", "ab", "ac", "ad", "ae"].iter().enumerate() {
        t.insert(entry(w, i as u128 + 1)).unwrap();
    }
    let r = t.autocomplete(&"a".to_string());
    assert_eq!(r.len(), 5);
    assert_eq!(
        pairs(&r),
        vec![
            ("ae".to_string(), 5),
            ("ad".to_string(), 4),
            ("ac".to_string(), 3),
            ("ab".to_string(), 2),
            ("aa".to_string(), 1),
        ]
    );
}

#[test]
fn autocomplete_ties_keep_depth_first_order() {
    let mut t = Trie::new();
    t.insert(entry("ab", 3)).unwrap();
    t.insert(entry("aa", 3)).unwrap();
    t.insert(entry("ac", 7)).unwrap();
    // The children of the 'a' node were created in the order b, a, c, so the
    // depth-first walk meets "ab" before "aa"; the tie keeps that order.
    let r = t.autocomplete(&"a".to_string());
    assert_eq!(
        pairs(&r),
        vec![("ac".to_string(), 7), ("ab".to_string(), 3), ("aa".to_string(), 3)]
    );
}

#[test]
fn repeated_reads_yield_identical_results() {
    let mut t = Trie::new();
    t.insert(entry("cat", 5)).unwrap();
    t.insert(entry("car", 9)).unwrap();
    let s1 = t.search("cat".to_string());
    let s2 = t.search("cat".to_string());
    assert_eq!(s1, s2);
    let a1 = pairs(&t.autocomplete(&"ca".to_string()));
    let a2 = pairs(&t.autocomplete(&"ca".to_string()));
    assert_eq!(a1, a2);
}

#[test]
fn build_equals_sequential_inserts() {
    let batch = vec![entry("cat", 1), entry("car", 9), entry("cat", 5)];
    let mut built = Trie::new();
    built.build(batch);
    let mut seq = Trie::new();
    seq.insert(entry("cat", 1)).unwrap();
    seq.insert(entry("car", 9)).unwrap();
    seq.insert(entry("cat", 5)).unwrap();
    for w in ["cat", "car", "ca", "zzz"] {
        assert_eq!(built.search(w.to_string()), seq.search(w.to_string()));
    }
    // The duplicate inside the batch overwrote the earlier entry.
    assert_eq!(built.search("cat".to_string()), Some(5));
}

#[test]
fn empty_word_is_stored_at_the_root() {
    let mut t = Trie::new();
    t.insert(entry("", 11)).unwrap();
    t.insert(entry("cat", 5)).unwrap();
    assert_eq!(t.search("".to_string()), Some(11));
    let r = t.autocomplete(&"".to_string());
    assert_eq!(pairs(&r), vec![("".to_string(), 11), ("cat".to_string(), 5)]);
}

#[test]
fn empty_prefix_completes_to_every_stored_word() {
    let mut t = Trie::new();
    t.insert(entry("cat", 5)).unwrap();
    t.insert(entry("dog", 7)).unwrap();
    let r = t.autocomplete(&"".to_string());
    assert_eq!(pairs(&r), vec![("dog".to_string(), 7), ("cat".to_string(), 5)]);
}

#[test]
fn unicode_words_round_trip() {
    let mut t = Trie::new();
    t.insert(entry("señal", 6)).unwrap();
    t.insert(entry("señor", 4)).unwrap();
    assert_eq!(t.search("señal".to_string()), Some(6));
    assert_eq!(t.search("señ".to_string()), None);
    let r = t.autocomplete(&"señ".to_string());
    assert_eq!(pairs(&r), vec![("señal".to_string(), 6), ("señor".to_string(), 4)]);
}

#[test]
fn large_frequencies_are_kept_exactly() {
    let mut t = Trie::new();
    t.insert(entry("big", u128::MAX)).unwrap();
    assert_eq!(t.search("big".to_string()), Some(u128::MAX));
}

#[test]
fn delete_reports_unsupported_and_changes_nothing() {
    let mut t = Trie::new();
    t.insert(entry("cat", 5)).unwrap();
    assert!(!t.delete(entry("cat", 5)));
    assert_eq!(t.search("cat".to_string()), Some(5));
}
