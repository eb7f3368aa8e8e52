use wordrember::store::WordStore;
use wordrember::word::{LearnedRow, StoreError, Word, WordRow};

fn texts(ws: &[Word]) -> Vec<String> {
    ws.iter().map(|w| w.word.clone()).collect()
}

fn row(id: i64, word: &str, meaning: &str, count: i64, threshold: i64) -> WordRow {
    WordRow {
        id,
        word: word.to_string(),
        meaning: meaning.to_string(),
        success_count: count,
        threshold,
    }
}

fn learned(id: i64, word_id: i64, at: &str) -> LearnedRow {
    LearnedRow { id, word_id, learned_at: at.to_string() }
}

#[test]
fn add_word_assigns_ids_and_defaults() {
    let mut s = WordStore::new();
    let a = s.add_word("apple".to_string(), "苹果".to_string()).unwrap();
    assert_eq!(a.id, 1);
    assert_eq!(a.word, "apple");
    assert_eq!(a.meaning, "苹果");
    assert_eq!(a.success_count, 0);
    assert_eq!(a.threshold, 5);
    let b = s.add_word("book".to_string(), "书".to_string()).unwrap();
    assert_eq!(b.id, 2);
    assert_eq!(s.get_word_stats(), (2, 0));
}

#[test]
fn add_existing_word_keeps_old_meaning() {
    let mut s = WordStore::new();
    s.add_word("apple".to_string(), "苹果".to_string()).unwrap();
    let again = s.add_word("apple".to_string(), "fruit".to_string()).unwrap();
    assert_eq!(again.id, 1);
    assert_eq!(again.meaning, "苹果");
    assert_eq!(s.get_word_stats(), (1, 0));
    assert_eq!(s.word_sequence(), 1);
}

#[test]
fn ids_are_not_reused_after_delete() {
    let mut s = WordStore::new();
    s.add_word("a".to_string(), "1".to_string()).unwrap();
    s.add_word("b".to_string(), "2".to_string()).unwrap();
    s.delete_word(2).unwrap();
    let c = s.add_word("c".to_string(), "3".to_string()).unwrap();
    assert_eq!(c.id, 3);
}

#[test]
fn all_words_are_sorted_by_code_point() {
    let mut s = WordStore::new();
    for w in ["pear", "Zebra", "apple", "äpfel", "book", "ap"] {
        s.add_word(w.to_string(), "m".to_string()).unwrap();
    }
    let all = s.get_all_words();
    assert_eq!(texts(&all), vec!["Zebra", "ap", "apple", "book", "pear", "äpfel"]);
}

#[test]
fn remembering_up_to_the_threshold_learns_the_word() {
    let mut s = WordStore::new();
    let w = s.add_word("apple".to_string(), "苹果".to_string()).unwrap();
    s.add_word("book".to_string(), "书".to_string()).unwrap();
    for _ in 0..4 {
        s.mark_remembered(w.id).unwrap();
    }
    assert!(s.get_learned_words().is_empty());
    assert_eq!(s.get_words().len(), 2);
    s.mark_remembered(w.id).unwrap();
    let learned = s.get_learned_words();
    assert_eq!(texts(&learned), vec!["apple"]);
    assert_eq!(learned[0].success_count, 5);
    assert_eq!(texts(&s.get_words()), vec!["book"]);
    assert_eq!(s.get_word_stats(), (2, 1));
    // further marks count on but add no second record
    s.mark_remembered(w.id).unwrap();
    assert_eq!(s.get_word_stats(), (2, 1));
    assert_eq!(s.learned_rows().len(), 1);
    let at = &s.learned_rows()[0].learned_at;
    assert!(!at.is_empty() && at.chars().all(|c| c.is_ascii_digit()));
}

#[test]
fn mark_remembered_at_records_the_given_time() {
    let mut s = WordStore::new();
    let w = s.add_word("x".to_string(), "y".to_string()).unwrap();
    for _ in 0..5 {
        s.mark_remembered_at(w.id, "1700000000".to_string()).unwrap();
    }
    let rows = s.learned_rows();
    assert_eq!(rows.len(), 1);
    assert_eq!(rows[0].id, 1);
    assert_eq!(rows[0].word_id, w.id);
    assert_eq!(rows[0].learned_at, "1700000000");
}

#[test]
fn mark_remembered_unknown_word_fails() {
    let mut s = WordStore::new();
    let r = s.mark_remembered(42);
    assert_eq!(r, Err(StoreError::WordNotFound));
    assert_eq!(StoreError::WordNotFound.message(), "Query returned no rows");
}

#[test]
fn forgetting_resets_counter_but_keeps_learned() {
    let mut s = WordStore::new();
    let w = s.add_word("x".to_string(), "y".to_string()).unwrap();
    for _ in 0..5 {
        s.mark_remembered(w.id).unwrap();
    }
    s.mark_not_remembered(w.id).unwrap();
    let all = s.get_all_words();
    assert_eq!(all[0].success_count, 0);
    assert_eq!(s.get_word_stats(), (1, 1));
    assert!(s.mark_not_remembered(999).is_ok());
}

#[test]
fn delete_removes_word_and_learned_record() {
    let mut s = WordStore::new();
    let w = s.add_word("x".to_string(), "y".to_string()).unwrap();
    s.add_word("z".to_string(), "q".to_string()).unwrap();
    for _ in 0..5 {
        s.mark_remembered(w.id).unwrap();
    }
    assert_eq!(s.get_word_stats(), (2, 1));
    s.delete_word(w.id).unwrap();
    assert_eq!(s.get_word_stats(), (1, 0));
    assert_eq!(texts(&s.get_all_words()), vec!["z"]);
    assert!(s.delete_word(w.id).is_ok());
}

#[test]
fn reset_progress_relearns_everything() {
    let mut s = WordStore::new();
    let a = s.add_word("a".to_string(), "1".to_string()).unwrap();
    s.add_word("b".to_string(), "2".to_string()).unwrap();
    for _ in 0..5 {
        s.mark_remembered(a.id).unwrap();
    }
    s.reset_progress().unwrap();
    assert_eq!(s.get_word_stats(), (2, 0));
    assert!(s.get_learned_words().is_empty());
    assert_eq!(s.get_words().len(), 2);
    assert!(s.get_all_words().iter().all(|w| w.success_count == 0));
    // the learned ids keep counting up
    for _ in 0..5 {
        s.mark_remembered_at(a.id, "1".to_string()).unwrap();
    }
    assert_eq!(s.learned_rows()[0].id, 2);
}

#[test]
fn lists_partition_the_words() {
    let mut s = WordStore::new();
    for w in ["a", "b", "c", "d"] {
        s.add_word(w.to_string(), "m".to_string()).unwrap();
    }
    for _ in 0..5 {
        s.mark_remembered(2).unwrap();
        s.mark_remembered(4).unwrap();
    }
    let mut both = texts(&s.get_learned_words());
    both.extend(texts(&s.get_words()));
    both.sort();
    assert_eq!(both, texts(&s.get_all_words()));
    assert_eq!(texts(&s.get_learned_words()), vec!["b", "d"]);
}

#[test]
fn shuffle_is_deterministic_per_seed_and_a_permutation() {
    let mut s = WordStore::new();
    for w in ["a", "b", "c", "d", "e", "f"] {
        s.add_word(w.to_string(), "m".to_string()).unwrap();
    }
    let x = texts(&s.get_words_shuffled(7));
    let y = texts(&s.get_words_shuffled(7));
    assert_eq!(x, y);
    // seed 0 with 6 words: state 0 picks index 0 first
    assert_eq!(s.get_words_shuffled(0)[0].word, "a");
    let mut sorted = texts(&s.get_words());
    sorted.sort();
    assert_eq!(sorted, vec!["a", "b", "c", "d", "e", "f"]);
}

#[test]
fn shuffle_follows_the_generator() {
    let mut s = WordStore::new();
    for w in ["a", "b", "c"] {
        s.add_word(w.to_string(), "m".to_string()).unwrap();
    }
    // seed 1: 1 % 3 = 1 picks "b"; next state is
    // 6364136223846793005 + 1442695040888963407 = 7806831264735756412, % 2 = 0 picks "a"
    assert_eq!(texts(&s.get_words_shuffled(1)), vec!["b", "a", "c"]);
}

#[test]
fn restore_keeps_first_learned_record_per_word() {
    let words = vec![row(1, "a", "x", 5, 5), row(2, "b", "y", 0, 5)];
    let learned_rows = vec![learned(3, 1, "10"), learned(4, 2, "11"), learned(7, 1, "12")];
    let s = WordStore::restore(words, learned_rows, 2, 7, 5).unwrap();
    let l = s.learned_rows();
    assert_eq!(l.len(), 2);
    assert_eq!((l[0].id, l[0].word_id, l[0].learned_at.as_str()), (3, 1, "10"));
    assert_eq!((l[1].id, l[1].word_id), (4, 2));
    assert_eq!(s.learned_sequence(), 7);
    assert_eq!(s.word_sequence(), 2);
}

#[test]
fn restore_raises_sequences_to_largest_id() {
    let s = WordStore::restore(vec![row(5, "a", "x", 0, 5)], vec![learned(9, 5, "1")], 0, -3, 5).unwrap();
    assert_eq!(s.word_sequence(), 5);
    assert_eq!(s.learned_sequence(), 9);
    let s2 = WordStore::restore(vec![], vec![], -1, 0, 5).unwrap();
    assert_eq!(s2.word_sequence(), 0);
}

#[test]
fn restore_refuses_broken_rows() {
    let dup = WordStore::restore(vec![row(1, "a", "x", 0, 5), row(2, "a", "y", 0, 5)], vec![], 2, 0, 5);
    assert_eq!(dup.err(), Some(StoreError::CorruptData));
    let unordered = WordStore::restore(vec![row(2, "a", "x", 0, 5), row(1, "b", "y", 0, 5)], vec![], 2, 0, 5);
    assert_eq!(unordered.err(), Some(StoreError::CorruptData));
    let repeated = WordStore::restore(vec![row(3, "a", "x", 0, 5), row(3, "b", "y", 0, 5)], vec![], 3, 0, 5);
    assert_eq!(repeated.err(), Some(StoreError::CorruptData));
    let bad_learned = WordStore::restore(vec![], vec![learned(2, 1, "1"), learned(2, 3, "1")], 0, 0, 5);
    assert_eq!(bad_learned.err(), Some(StoreError::CorruptData));
    assert_eq!(StoreError::CorruptData.message(), "Stored data is inconsistent");
}

#[test]
fn restore_round_trip() {
    let mut s = WordStore::new();
    s.add_word("a".to_string(), "1".to_string()).unwrap();
    s.add_word("b".to_string(), "2".to_string()).unwrap();
    for _ in 0..5 {
        s.mark_remembered_at(2, "99".to_string()).unwrap();
    }
    let t = WordStore::restore(s.word_rows(), s.learned_rows(), s.word_sequence(), s.learned_sequence(), 5).unwrap();
    assert_eq!(texts(&t.get_all_words()), texts(&s.get_all_words()));
    assert_eq!(t.get_word_stats(), s.get_word_stats());
    assert_eq!(t.word_sequence(), s.word_sequence());
    assert_eq!(t.learned_sequence(), s.learned_sequence());
    assert_eq!(t.learned_rows()[0].learned_at, "99");
}

#[test]
fn unreadable_rows_are_left_out_of_lists() {
    let big = i32::MAX as i64 + 1;
    let s = WordStore::restore(vec![row(1, "a", "x", big, 5), row(2, "b", "y", 0, 5)], vec![], 2, 0, 5).unwrap();
    assert_eq!(texts(&s.get_all_words()), vec!["b"]);
    assert_eq!(s.get_word_stats(), (2, 0));
}

#[test]
fn add_word_reports_unreadable_counter() {
    let big = i32::MAX as i64 + 1;
    let mut s = WordStore::restore(vec![row(1, "a", "x", big, 5), row(2, "b", "y", -big - 1, 5)], vec![], 2, 0, 5).unwrap();
    let e = s.add_word("a".to_string(), "z".to_string()).unwrap_err();
    assert_eq!(e, StoreError::ValueOutOfRange { column: 3, value: big });
    assert_eq!(e.message(), "Integer 2147483648 out of range at index 3");
    let e2 = s.add_word("b".to_string(), "z".to_string()).unwrap_err();
    assert_eq!(e2.message(), "Integer -2147483649 out of range at index 3");
    assert_eq!(
        StoreError::ValueOutOfRange { column: 4, value: -big - 1 }.message(),
        "Integer -2147483649 out of range at index 4"
    );
}

#[test]
fn mark_remembered_past_32_bits_counts_then_fails() {
    let max = i32::MAX as i64;
    let mut s = WordStore::restore(vec![row(1, "a", "x", max, 5)], vec![], 1, 0, 5).unwrap();
    let e = s.mark_remembered_at(1, "1".to_string()).unwrap_err();
    assert_eq!(e, StoreError::ValueOutOfRange { column: 0, value: max + 1 });
    assert_eq!(s.word_rows()[0].success_count, max + 1);
    assert!(s.learned_rows().is_empty());
}

#[test]
fn counter_at_64_bit_limit_is_refused() {
    let mut s = WordStore::restore(vec![row(1, "a", "x", i64::MAX, 5)], vec![], 1, 0, 5).unwrap();
    assert_eq!(s.mark_remembered_at(1, "1".to_string()), Err(StoreError::CounterOverflow));
    assert_eq!(s.word_rows()[0].success_count, i64::MAX);
    assert_eq!(StoreError::CounterOverflow.message(), "Integer overflow");
}

#[test]
fn exhausted_ids_refuse_new_words() {
    let mut s = WordStore::restore(vec![row(1, "a", "x", 0, 5)], vec![], i64::MAX, 0, 5).unwrap();
    assert_eq!(s.add_word("b".to_string(), "y".to_string()).unwrap_err(), StoreError::StoreFull);
    assert_eq!(s.get_word_stats(), (1, 0));
    assert_eq!(s.add_word("a".to_string(), "q".to_string()).unwrap().id, 1);
    assert_eq!(StoreError::StoreFull.message(), "database or disk is full");
    // an import counts the entry even though nothing is stored
    assert_eq!(s.import_words("b,y", "csv"), Ok(1));
    assert_eq!(s.get_word_stats(), (1, 0));
}

#[test]
fn exhausted_learned_ids_fail_after_counting() {
    let mut s = WordStore::restore(vec![row(1, "a", "x", 4, 5)], vec![], 1, i64::MAX, 5).unwrap();
    assert_eq!(s.mark_remembered_at(1, "1".to_string()), Err(StoreError::StoreFull));
    assert_eq!(s.word_rows()[0].success_count, 5);
    assert!(s.learned_rows().is_empty());
}

#[test]
fn restore_accepts_ids_from_zero_and_below() {
    let words = vec![row(-4, "a", "x", 0, 5), row(0, "b", "y", 0, 5)];
    let s = WordStore::restore(words, vec![learned(0, 0, "1")], 0, 0, 5).unwrap();
    assert_eq!(texts(&s.get_all_words()), vec!["a", "b"]);
    assert_eq!(texts(&s.get_learned_words()), vec!["b"]);
    assert_eq!(s.get_word_stats(), (2, 1));
    assert_eq!(s.word_sequence(), 0);
    let mut s = s;
    let c = s.add_word("c".to_string(), "z".to_string()).unwrap();
    assert_eq!(c.id, 1);
}

#[test]
fn configured_threshold_decides_learning() {
    let mut s = WordStore::new();
    assert_eq!(s.memory_threshold(), 5);
    s.set_memory_threshold(3);
    assert_eq!(s.memory_threshold(), 3);
    let w = s.add_word("apple".to_string(), "苹果".to_string()).unwrap();
    assert_eq!(w.threshold, 3);
    s.mark_remembered_at(w.id, "1".to_string()).unwrap();
    s.mark_remembered_at(w.id, "2".to_string()).unwrap();
    assert!(s.get_learned_words().is_empty());
    s.mark_remembered_at(w.id, "3".to_string()).unwrap();
    assert_eq!(texts(&s.get_learned_words()), vec!["apple"]);
    assert!(s.get_words().is_empty());
    assert_eq!(s.learned_rows()[0].learned_at, "3");
}

#[test]
fn changing_the_threshold_applies_to_stored_words() {
    let mut s = WordStore::new();
    let a = s.add_word("a".to_string(), "1".to_string()).unwrap();
    s.mark_remembered_at(a.id, "1".to_string()).unwrap();
    s.mark_remembered_at(a.id, "2".to_string()).unwrap();
    s.set_memory_threshold(2);
    assert!(s.get_all_words().iter().all(|w| w.threshold == 2));
    // the counter already reached the new threshold: the next mark learns it
    s.mark_remembered_at(a.id, "3".to_string()).unwrap();
    assert_eq!(texts(&s.get_learned_words()), vec!["a"]);
}

#[test]
fn restore_applies_the_configured_threshold() {
    let words = vec![row(1, "a", "x", 2, 5), row(2, "b", "y", 0, 9)];
    let mut s = WordStore::restore(words, vec![], 2, 0, 3).unwrap();
    assert_eq!(s.memory_threshold(), 3);
    assert!(s.word_rows().iter().all(|r| r.threshold == 3));
    s.mark_remembered_at(1, "7".to_string()).unwrap();
    assert_eq!(texts(&s.get_learned_words()), vec!["a"]);
}

#[test]
fn restore_drops_learned_records_of_missing_words() {
    let words = vec![row(1, "a", "x", 5, 5)];
    let learned_rows = vec![learned(1, 1, "10"), learned(2, 7, "11")];
    let mut s = WordStore::restore(words, learned_rows, 5, 2, 5).unwrap();
    let l = s.learned_rows();
    assert_eq!(l.len(), 1);
    assert_eq!((l[0].id, l[0].word_id), (1, 1));
    assert_eq!(s.get_word_stats(), (1, 1));
    assert_eq!(s.learned_sequence(), 2);
    // the word that later takes id 7 does not start out learned
    s.add_word("b".to_string(), "y".to_string()).unwrap();
    s.add_word("c".to_string(), "z".to_string()).unwrap();
    let w = s.add_word("d".to_string(), "q".to_string()).unwrap();
    assert_eq!(w.id, 8);
    assert_eq!(texts(&s.get_learned_words()), vec!["a"]);
}

#[test]
fn duplicates_and_dangling_records_both_go() {
    let words = vec![row(2, "b", "y", 0, 5)];
    let learned_rows = vec![learned(1, 9, "1"), learned(3, 2, "2"), learned(4, 2, "3"), learned(5, 9, "4")];
    let s = WordStore::restore(words, learned_rows, 2, 5, 5).unwrap();
    let l = s.learned_rows();
    assert_eq!(l.len(), 1);
    assert_eq!((l[0].id, l[0].word_id, l[0].learned_at.as_str()), (3, 2, "2"));
}
