use connect_4_ai::transposition_table::{
    BookTranspositionTable, Entry, NaiveTranspositionTable, OptimizedTranspoisitionTable,
};
use connect_4_ai::TranspositionTable;

#[test]
fn entry_packs_and_unpacks() {
    let e = Entry::create(123456789, 200);
    assert_eq!(e.key(), 123456789);
    assert_eq!(e.value(), 200);
    assert_eq!(Entry::new().key(), 0);
    assert_eq!(Entry::empty().value(), 0);
}

#[test]
fn naive_table_put_get_reset() {
    let mut t = NaiveTranspositionTable::new();
    t.put(4242, 5);
    assert_eq!(t.get(4242), 5);
    assert_eq!(t.get(4243), 0);
    t.reset();
    assert_eq!(t.get(4242), 0);
}

#[test]
fn optimized_table_put_get() {
    let mut t = OptimizedTranspoisitionTable::new();
    t.put(99991, 37);
    assert_eq!(t.get(99991), 37);
    assert_eq!(t.get(12345), 0);
    // a later write to the same slot evicts the earlier entry
    t.put(99991, 38);
    assert_eq!(t.get(99991), 38);
}

#[test]
fn book_table_put_get() {
    let mut t = BookTranspositionTable::new();
    assert_eq!(t.get(777), 0);
    t.put(777, 9);
    assert_eq!(t.get(777), 9);
}
