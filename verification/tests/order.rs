use rusty_combinatorial::order::{comes_before, differs, sort_rising};
use rusty_combinatorial::sequences::sort_ascending;

#[test]
fn sort_rising_agrees_with_the_standard_sort() {
    let mut state: u64 = 0x2545_F491_4F6C_DD1D;
    for len in [0usize, 1, 2, 3, 7, 64, 1000] {
        let mut v: Vec<i64> = Vec::new();
        for _ in 0..len {
            state ^= state << 13;
            state ^= state >> 7;
            state ^= state << 17;
            v.push((state % 201) as i64 - 100);
        }
        let mut expected = v.clone();
        expected.sort();
        sort_rising(&mut v);
        assert_eq!(v, expected);
        // sorted input stays as it is
        sort_rising(&mut v);
        assert_eq!(v, expected);
        // and reversed input is brought back
        v.reverse();
        sort_rising(&mut v);
        assert_eq!(v, expected);
    }
}

#[test]
fn sort_ascending_orders_indices() {
    let mut v: Vec<usize> = vec![5, 1, 4, 1, 0, 9, 2];
    sort_ascending(&mut v);
    assert_eq!(v, vec![0, 1, 1, 2, 4, 5, 9]);
}

#[test]
fn comparisons_follow_the_order_of_the_type() {
    assert!(comes_before(&-3, &2));
    assert!(!comes_before(&2, &2));
    assert!(!comes_before(&'b', &'a'));
    assert!(differs(&1u8, &2u8));
    assert!(!differs(&7usize, &7usize));
}
