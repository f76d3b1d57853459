use rusty_combinatorial::table::compress::compress;
use rusty_combinatorial::table::look_up::lookup_table;
use rusty_combinatorial::table::perfect_hash::perfect_hash;

#[test]
fn test_compress() {
    let data = vec![3, 1, 3, 2];
    let (enc, uni) = compress(&data);
    assert_eq!(uni, vec![1, 2, 3]);
    assert_eq!(enc.len(), 4);
}

#[test]
fn test_lookup_table() {
    let t = vec![10, 20, 30];
    assert_eq!(lookup_table(&t, 1), Some(20));
    assert_eq!(lookup_table(&t, 5), None);
}

#[test]
fn test_perfect_hash() {
    let keys = ["apple", "banana"];
    let h = perfect_hash(&keys);
    assert_eq!(h["apple"], 0);
    assert_eq!(h["banana"], 1);
}

#[test]
fn compress_numbers_the_values() {
    let (enc, uni) = compress(&[30, 10, 30, 20, 10]);
    assert_eq!(uni, vec![10, 20, 30]);
    assert_eq!(enc, vec![2, 0, 2, 1, 0]);
    let (enc, uni) = compress::<u32>(&[]);
    assert!(enc.is_empty() && uni.is_empty());
}

#[test]
fn compress_orders_signed_values_and_characters() {
    let (enc, uni) = compress(&[5i64, -3, 0, -3, 5, -7]);
    assert_eq!(uni, vec![-7, -3, 0, 5]);
    assert_eq!(enc, vec![3, 1, 2, 1, 3, 0]);
    let (enc, uni) = compress(&['c', 'a', 'c', 'b']);
    assert_eq!(uni, vec!['a', 'b', 'c']);
    assert_eq!(enc, vec![2, 0, 2, 1]);
}

#[test]
fn lookup_table_at_the_bounds() {
    let t = vec!["a".to_string(), "b".to_string()];
    assert_eq!(lookup_table(&t, 0), Some("a".to_string()));
    assert_eq!(lookup_table(&t, 1), Some("b".to_string()));
    assert_eq!(lookup_table(&t, 2), None);
    assert_eq!(lookup_table::<u8>(&[], 0), None);
}

#[test]
fn perfect_hash_keeps_the_last_of_equal_keys() {
    let keys = ["x", "y", "x"];
    let h = perfect_hash(&keys);
    assert_eq!(h.len(), 2);
    assert_eq!(h["x"], 2);
    assert_eq!(h["y"], 1);
    assert!(perfect_hash(&[]).is_empty());
}
