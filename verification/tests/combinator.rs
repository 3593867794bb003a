use seedsearch::combinator::{Combinator, CombinatorError};
use seedsearch::spelling::AlternativeTable;

fn words(list: &[&str]) -> Vec<String> {
    list.iter().map(|w| w.to_string()).collect()
}

#[test]
fn test_one() {
    let vocab = words(&["tiny", "tint", "mint"]);
    let table = AlternativeTable::new(&vocab, 1);
    let combo = Combinator::new_from_list(&words(&["derp"]), &table);
    assert!(combo.is_err())
}

#[test]
fn test_error_locator() {
    let vocab = words(&["tiny", "tint", "mint"]);
    let table = AlternativeTable::new(&vocab, 1);
    let combo_res = Combinator::new_from_list(&words(&["tiny", "derp"]), &table);
    let ok = match combo_res {
        Err(CombinatorError::InvalidSeedWord(idx, word)) => {
            assert_eq!(idx, 1);
            assert_eq!(word, "derp");
            true
        }
        Ok(_) => false,
    };
    assert!(ok)
}

#[test]
fn first_invalid_word_wins() {
    let vocab = words(&["tiny", "tint", "mint"]);
    let table = AlternativeTable::new(&vocab, 1);
    let combo_res = Combinator::new_from_list(&words(&["tiny", "derp", "blah"]), &table);
    match combo_res {
        Err(CombinatorError::InvalidSeedWord(idx, word)) => {
            assert_eq!(idx, 1);
            assert_eq!(word, "derp");
        }
        Ok(_) => panic!("construction should have failed"),
    }
}

#[test]
fn all_valid_words_succeed() {
    let vocab = words(&["tiny", "tint", "mint"]);
    let table = AlternativeTable::new(&vocab, 1);
    assert!(Combinator::new_from_list(&words(&["mint", "tiny", "tint"]), &table).is_ok());
}

#[test]
fn size_is_product_of_row_lengths() {
    // Rows: "aa" -> [aa, ab, ba]; "bb" -> [bb, ab, ba]; "cc" -> [cc].
    let vocab = words(&["aa", "ab", "ba", "bb", "cc"]);
    let table = AlternativeTable::new(&vocab, 1);
    let combo = Combinator::new_from_list(&words(&["aa", "bb", "cc"]), &table).unwrap();
    assert_eq!(combo.checked_size(), Some(9));
    let it = combo.iter();
    assert_eq!(it.size(), 9);
}

#[test]
fn enumeration_is_mixed_radix_order() {
    let vocab = words(&["aa", "ab", "ba", "bb", "cc"]);
    let table = AlternativeTable::new(&vocab, 1);
    let combo = Combinator::new_from_list(&words(&["aa", "bb"]), &table).unwrap();
    let row_a = vec!["aa", "ab", "ba"];
    let row_b = vec!["bb", "ab", "ba"];
    let mut it = combo.iter();
    assert_eq!(it.size(), 9);
    for k in 0..9u64 {
        let got = it.next().expect("an element below size");
        let want = vec![row_a[(k % 3) as usize], row_b[(k / 3) as usize]];
        assert_eq!(got, want);
    }
    assert!(it.next().is_none());
    assert!(it.next().is_none());
}

#[test]
fn random_access_matches_iteration() {
    let vocab = words(&["aa", "ab", "ba", "bb", "cc"]);
    let table = AlternativeTable::new(&vocab, 1);
    let combo = Combinator::new_from_list(&words(&["aa", "bb", "cc"]), &table).unwrap();
    let mut it = combo.iter();
    let probe = combo.iter();
    let mut k = 0u64;
    while let Some(next) = it.next() {
        assert_eq!(probe.at(k), next);
        k += 1;
    }
    assert_eq!(k, 9);
}

#[test]
fn round_trip_re_encodes_every_index() {
    let vocab = words(&["aa", "ab", "ba", "bb", "cc"]);
    let table = AlternativeTable::new(&vocab, 1);
    let combo = Combinator::new_from_list(&words(&["aa", "bb"]), &table).unwrap();
    let row_a = table.alternatives("aa").unwrap();
    let row_b = table.alternatives("bb").unwrap();
    let mut it = combo.iter();
    let mut k = 0u64;
    while let Some(choice) = it.next() {
        let c0 = row_a.iter().position(|w| *w == choice[0]).unwrap() as u64;
        let c1 = row_b.iter().position(|w| *w == choice[1]).unwrap() as u64;
        let re_encoded = c0 + (row_a.len() as u64) * c1;
        assert_eq!(re_encoded, k);
        k += 1;
    }
    assert_eq!(k, it.size());
}

#[test]
fn enumeration_has_no_duplicates() {
    let vocab = words(&["aa", "ab", "ba", "bb", "cc"]);
    let table = AlternativeTable::new(&vocab, 1);
    let combo = Combinator::new_from_list(&words(&["aa", "bb"]), &table).unwrap();
    let mut seen: Vec<Vec<String>> = Vec::new();
    let mut it = combo.iter();
    while let Some(next) = it.next() {
        assert!(!seen.contains(&next));
        seen.push(next);
    }
    assert_eq!(seen.len(), 9);
}

#[test]
fn uneven_radices_decode_in_position_order() {
    // Rows: "x" -> [x, xy]; "qqq" -> [qqq].
    let vocab = words(&["x", "xy", "qqq"]);
    let table = AlternativeTable::new(&vocab, 1);
    let combo = Combinator::new_from_list(&words(&["x", "qqq", "x"]), &table).unwrap();
    let mut it = combo.iter();
    assert_eq!(it.size(), 4);
    assert_eq!(it.next().unwrap(), vec!["x", "qqq", "x"]);
    assert_eq!(it.next().unwrap(), vec!["xy", "qqq", "x"]);
    assert_eq!(it.next().unwrap(), vec!["x", "qqq", "xy"]);
    assert_eq!(it.next().unwrap(), vec!["xy", "qqq", "xy"]);
    assert!(it.next().is_none());
}

#[test]
fn empty_phrase_has_one_empty_combination() {
    let vocab = words(&["aa"]);
    let table = AlternativeTable::new(&vocab, 1);
    let combo = Combinator::new_from_list(&words(&[]), &table).unwrap();
    assert_eq!(combo.checked_size(), Some(1));
    let mut it = combo.iter();
    assert_eq!(it.next().unwrap(), Vec::<String>::new());
    assert!(it.next().is_none());
}
