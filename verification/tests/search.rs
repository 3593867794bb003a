use seedsearch::combinator::Combinator;
use seedsearch::reading::generate_readings;
use seedsearch::search::{
    judge, phrase_from_misreading, OracleOutcome, SearchAction, SearchDriver, Verbosity,
};
use seedsearch::spelling::AlternativeTable;

fn words(list: &[&str]) -> Vec<String> {
    list.iter().map(|w| w.to_string()).collect()
}

fn twelve_seed() -> Vec<String> {
    words(&[
        "tiny", "mint", "bolt", "tiny", "mint", "bolt", "tiny", "mint", "bolt", "tiny", "mint",
        "bolt",
    ])
}

fn twelve_vocab() -> Vec<String> {
    words(&["tiny", "tint", "mint", "bolt", "bolts"])
}

#[test]
fn misreading_reorders_by_schedule() {
    let phrase = words(&["one", "two", "three", "four"]);
    let order: Vec<u8> = vec![2, 0, 3, 1];
    let got = phrase_from_misreading(&phrase, &order);
    assert_eq!(got, words(&["three", "one", "four", "two"]));
}

#[test]
fn column_swap_twice_restores_the_phrase() {
    let phrase = words(&["a", "b", "c", "d", "e", "f", "g", "h", "i", "j", "k", "l"]);
    let readings = generate_readings(12).unwrap();
    let swapped = phrase_from_misreading(&phrase, &readings[1]);
    assert_ne!(swapped, phrase);
    let restored = phrase_from_misreading(&swapped, &readings[1]);
    assert_eq!(restored, phrase);
    let same = phrase_from_misreading(&phrase, &readings[0]);
    assert_eq!(same, phrase);
}

#[test]
fn total_is_size_times_reading_count() {
    let table = AlternativeTable::new(&twelve_vocab(), 1);
    let combo = Combinator::new_from_list(&twelve_seed(), &table).unwrap();
    let size = combo.checked_size().expect("fits in 64 bits");
    let readings = generate_readings(12).unwrap();
    let driver = SearchDriver::new(combo.iter(), readings);
    assert_eq!(driver.total(), size * 4);
}

#[test]
fn end_to_end_neighbors_and_count() {
    // "tiny" has the single-edit neighbor "tint" in the vocabulary, and
    // every lookup keeps the word itself first.
    let table = AlternativeTable::new(&twelve_vocab(), 1);
    let row = table.alternatives("tiny").unwrap();
    assert_eq!(row[0], "tiny");
    assert!(row.contains(&"tint".to_string()));
    let combo = Combinator::new_from_list(&twelve_seed(), &table).unwrap();
    // Row lengths: tiny -> 2 (tiny, tint), mint -> 2 (mint, tint),
    // bolt -> 2 (bolt, bolts); four of each in the seed.
    let size = combo.checked_size().unwrap();
    assert_eq!(size, 4096);
    let readings = generate_readings(12).unwrap();
    let driver = SearchDriver::new(combo.iter(), readings);
    assert_eq!(driver.total(), 4096 * 4);
}

#[test]
fn first_candidate_is_the_seed_phrase() {
    let seed = twelve_seed();
    let table = AlternativeTable::new(&twelve_vocab(), 1);
    let combo = Combinator::new_from_list(&seed, &table).unwrap();
    let readings = generate_readings(12).unwrap();
    let mut driver = SearchDriver::new(combo.iter(), readings);
    let (seqno, candidate) = driver.next_candidate().unwrap();
    assert_eq!(seqno, 1);
    assert_eq!(candidate, seed);
}

#[test]
fn matching_target_stops_at_sequence_one() {
    // A stand-in oracle that accepts exactly the seed phrase, as the
    // surrounding program would run the loop.
    let seed = twelve_seed();
    let table = AlternativeTable::new(&twelve_vocab(), 1);
    let combo = Combinator::new_from_list(&seed, &table).unwrap();
    let readings = generate_readings(12).unwrap();
    let mut driver = SearchDriver::new(combo.iter(), readings);
    let target = Some("the-derived-identity".to_string());
    let mut invocations = 0u64;
    let mut found_at = None;
    while let Some((seqno, candidate)) = driver.next_candidate() {
        invocations += 1;
        let outcome = if candidate == seed {
            OracleOutcome::Valid { key: "the-derived-identity".to_string() }
        } else {
            OracleOutcome::InvalidChecksum
        };
        match judge(outcome, &target) {
            SearchAction::Stop { key } => {
                assert_eq!(key, "the-derived-identity");
                found_at = Some(seqno);
                break;
            }
            SearchAction::Note { .. } => {}
            SearchAction::Skip => {}
            SearchAction::Abort => panic!("no fatal outcome was produced"),
        }
    }
    assert_eq!(found_at, Some(1));
    assert_eq!(invocations, 1);
}

#[test]
fn dry_run_invokes_no_oracle() {
    let table = AlternativeTable::new(&twelve_vocab(), 1);
    let combo = Combinator::new_from_list(&twelve_seed(), &table).unwrap();
    let readings = generate_readings(12).unwrap();
    let dry_run = true;
    let oracle = |_candidate: &Vec<String>| -> OracleOutcome {
        panic!("the oracle must not be invoked in a dry run");
    };
    let mut driver = SearchDriver::new(combo.iter(), readings);
    let total = driver.total();
    assert_eq!(total, 4096 * 4);
    if !dry_run {
        while let Some((_seqno, candidate)) = driver.next_candidate() {
            let _ = oracle(&candidate);
        }
    }
}

#[test]
fn exhaustion_walks_every_candidate_once() {
    let seed = words(&["aa", "bb"]);
    let vocab = words(&["aa", "ab", "bb"]);
    let table = AlternativeTable::new(&vocab, 1);
    let combo = Combinator::new_from_list(&seed, &table).unwrap();
    let readings = generate_readings(2).unwrap();
    let mut driver = SearchDriver::new(combo.iter(), readings);
    let total = driver.total();
    let mut count = 0u64;
    let mut expect_seq = 1u64;
    while let Some((seqno, candidate)) = driver.next_candidate() {
        assert_eq!(seqno, expect_seq);
        assert_eq!(candidate.len(), 2);
        expect_seq += 1;
        count += 1;
    }
    assert_eq!(count, total);
    assert!(driver.next_candidate().is_none());
}

#[test]
fn judge_maps_every_outcome() {
    let target = Some("pk".to_string());
    assert!(matches!(
        judge(OracleOutcome::Valid { key: "pk".to_string() }, &target),
        SearchAction::Stop { .. }
    ));
    assert!(matches!(
        judge(OracleOutcome::Valid { key: "other".to_string() }, &target),
        SearchAction::Note { .. }
    ));
    assert!(matches!(
        judge(OracleOutcome::Valid { key: "pk".to_string() }, &None),
        SearchAction::Note { .. }
    ));
    assert!(matches!(judge(OracleOutcome::InvalidChecksum, &target), SearchAction::Skip));
    assert!(matches!(judge(OracleOutcome::Fatal, &target), SearchAction::Abort));
}

#[test]
fn verbosity_gates_the_reporting_closure() {
    let mut shown = 0u32;
    let quiet = Verbosity::verbose(false);
    quiet.show(|| {
        shown += 1;
    });
    assert_eq!(shown, 0);
    let loud = Verbosity::verbose(true);
    loud.show(|| {
        shown += 1;
    });
    assert_eq!(shown, 1);
}
