use connect_4_ai::transposition_table::BOOK_TABLE_SIZE;
use connect_4_ai::{OpeningBook, Position};

#[test]
fn book_rejects_malformed_parts() {
    assert!(OpeningBook::from_parts(4, vec![0; 10], vec![0; 10]).is_none());
    assert!(OpeningBook::from_parts(4, vec![0; BOOK_TABLE_SIZE], vec![0; 10]).is_none());
    // a depth past the key-space limit is refused
    assert!(OpeningBook::from_parts(40, vec![0; BOOK_TABLE_SIZE], vec![0; BOOK_TABLE_SIZE]).is_none());
    // a byte that encodes no score is refused
    let mut bad = vec![0u8; BOOK_TABLE_SIZE];
    bad[7] = 38;
    assert!(OpeningBook::from_parts(4, vec![0; BOOK_TABLE_SIZE], bad).is_none());
    assert!(OpeningBook::from_parts(4, vec![0; BOOK_TABLE_SIZE], vec![0; BOOK_TABLE_SIZE]).is_some());
}

#[test]
fn book_lookup_hits_stored_entry_and_respects_depth() {
    let pos = Position::parse("44");
    let key3 = pos.key3();
    let idx = (key3 % BOOK_TABLE_SIZE as u64) as usize;
    let mut keys = vec![0u8; BOOK_TABLE_SIZE];
    let mut values = vec![0u8; BOOK_TABLE_SIZE];
    keys[idx] = key3 as u8;
    values[idx] = 25;
    let book = OpeningBook::from_parts(2, keys, values).unwrap();
    assert_eq!(book.get(&pos), Some(25));
    // past the stored depth the book stays silent
    assert_eq!(book.get(&Position::parse("4455")), None);
    // an absent entry reads as nothing
    assert_eq!(book.get(&Position::parse("45")), None);
}

#[test]
fn book_bytes_follow_the_file_layout() {
    assert!(OpeningBook::from_bytes(vec![0; 16]).is_none());
    let mut bytes = vec![0u8; 6 + 2 * BOOK_TABLE_SIZE];
    bytes[2] = 3;
    let book = OpeningBook::from_bytes(bytes).unwrap();
    assert_eq!(book.depth, 3);
    // a value byte that encodes no score fails the load
    let mut bad = vec![0u8; 6 + 2 * BOOK_TABLE_SIZE];
    bad[6 + BOOK_TABLE_SIZE] = 38;
    assert!(OpeningBook::from_bytes(bad).is_none());
}

#[test]
fn empty_book_always_misses() {
    let book = OpeningBook::new();
    assert_eq!(book.get(&Position::new()), None);
    assert_eq!(book.get(&Position::parse("444")), None);
}
