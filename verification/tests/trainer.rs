use bytepiece::trainer::NgramCount;
use bytepiece::trainer::Trainer;

fn count_of(table: &[NgramCount], gram: &[u8]) -> Option<usize> {
    let found: Vec<usize> = table.iter().filter(|e| e.gram == gram).map(|e| e.count).collect();
    assert!(found.len() <= 1);
    found.first().copied()
}

#[test]
fn default_settings() {
    let trainer = Trainer::default();
    assert_eq!(trainer.order(), 6);
    assert_eq!(trainer.max_vocab_size(), &[10000]);
    assert_eq!(trainer.max_piece_length(), 36);
    assert_eq!(trainer.min_count(), 2);
}

#[test]
fn settings_are_kept_as_given() {
    let trainer = Trainer::new(3, &[100, 200], 8, 5);
    assert_eq!(trainer.order(), 3);
    assert_eq!(trainer.max_vocab_size(), &[100, 200]);
    assert_eq!(trainer.max_piece_length(), 8);
    assert_eq!(trainer.min_count(), 5);
}

#[test]
fn ngrams_are_counted_by_length() {
    let trainer = Trainer::new(1, &[10], 4, 1);
    let tables = trainer.count_ngrams(&[b"abab", b"ba", b""]);
    assert_eq!(tables.len(), 2);
    assert_eq!(tables[0].len(), 1);
    assert_eq!(count_of(&tables[0], b""), Some(6));
    assert_eq!(tables[1].len(), 2);
    assert_eq!(count_of(&tables[1], b"a"), Some(3));
    assert_eq!(count_of(&tables[1], b"b"), Some(3));
    assert_eq!(count_of(&tables[1], b"c"), None);
}

#[test]
fn empty_texts_give_empty_tables_at_any_order() {
    let trainer = Trainer::new(4, &[10], 4, 1);
    let tables = trainer.count_ngrams(&[b"", b""]);
    assert_eq!(tables.len(), 5);
    assert!(tables.iter().all(|table| table.is_empty()));
    let tables = trainer.count_ngrams(&[]);
    assert_eq!(tables.len(), 5);
    assert!(tables.iter().all(|table| table.is_empty()));
}

#[test]
fn order_zero_counts_offsets() {
    let tables = Trainer::new(0, &[], 0, 0).count_ngrams(&[b"xyz", b"x"]);
    assert_eq!(tables.len(), 1);
    assert_eq!(count_of(&tables[0], b""), Some(4));
}
