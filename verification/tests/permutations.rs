use rusty_combinatorial::permutations::lex::next_lex_perm;
use rusty_combinatorial::permutations::minimal::sjt_permutations;
use rusty_combinatorial::permutations::random::{fisher_yates, shuffle_with};
use rusty_combinatorial::permutations::ranking::{factorials, rank_perm, unrank_perm};

fn factorial(n: usize) -> usize {
    (1..=n).product()
}

#[test]
fn test_next_lex_perm_basic() {
    let mut v = vec![1, 2, 3];
    assert!(next_lex_perm(&mut v));
    assert_eq!(v, vec![1, 3, 2]);
}

#[test]
fn test_last_permutation() {
    let mut v = vec![3, 2, 1];
    assert!(!next_lex_perm(&mut v));
    assert_eq!(v, vec![1, 2, 3]); // wrapped to first
}

#[test]
fn test_fisher_yates_length() {
    let mut v = vec![1, 2, 3, 4, 5];
    fisher_yates(&mut v);
    assert_eq!(v.len(), 5);
}

#[test]
fn test_rank_unrank_roundtrip() {
    let p = vec![2, 0, 1];
    let r = rank_perm(&p);
    let q = unrank_perm(r, 3);
    assert_eq!(p, q);
}

#[test]
fn next_lex_perm_short_inputs() {
    let mut empty: Vec<usize> = vec![];
    assert!(!next_lex_perm(&mut empty));
    assert!(empty.is_empty());
    let mut one = vec![7];
    assert!(!next_lex_perm(&mut one));
    assert_eq!(one, vec![7]);
}

#[test]
fn next_lex_perm_with_repeated_entries() {
    let mut v = vec![1, 1, 2];
    assert!(next_lex_perm(&mut v));
    assert_eq!(v, vec![1, 2, 1]);
    assert!(next_lex_perm(&mut v));
    assert_eq!(v, vec![2, 1, 1]);
    assert!(!next_lex_perm(&mut v));
    assert_eq!(v, vec![1, 1, 2]);
}

#[test]
fn next_lex_perm_on_signed_values_and_bytes() {
    let mut v: Vec<i32> = vec![-1, 4, 4, -2];
    assert!(next_lex_perm(&mut v));
    assert_eq!(v, vec![4, -2, -1, 4]);
    let mut w: Vec<u8> = vec![b'b', b'c', b'a'];
    assert!(next_lex_perm(&mut w));
    assert_eq!(w, vec![b'c', b'a', b'b']);
    let mut last: Vec<i64> = vec![9, 0, -9];
    assert!(!next_lex_perm(&mut last));
    assert_eq!(last, vec![-9, 0, 9]);
}

#[test]
fn next_lex_perm_pivot_in_the_middle() {
    let mut v = vec![0, 3, 2, 1];
    assert!(next_lex_perm(&mut v));
    assert_eq!(v, vec![1, 0, 2, 3]);
    let mut w = vec![1, 3, 4, 2, 0];
    assert!(next_lex_perm(&mut w));
    assert_eq!(w, vec![1, 4, 0, 2, 3]);
}

#[test]
fn next_lex_perm_visits_all_in_increasing_order() {
    for n in 0..=6usize {
        let mut v: Vec<usize> = (0..n).collect();
        let start = v.clone();
        let mut count = 1;
        loop {
            let before = v.clone();
            if !next_lex_perm(&mut v) {
                break;
            }
            assert!(before < v);
            assert_eq!(rank_perm(&v), rank_perm(&before) + 1);
            count += 1;
        }
        assert_eq!(count, factorial(n));
        assert_eq!(v, start);
    }
}

#[test]
fn rank_perm_known_values() {
    assert_eq!(rank_perm(&[]), 0);
    assert_eq!(rank_perm(&[0]), 0);
    assert_eq!(rank_perm(&[0, 1, 2]), 0);
    assert_eq!(rank_perm(&[0, 2, 1]), 1);
    assert_eq!(rank_perm(&[2, 0, 1]), 4);
    assert_eq!(rank_perm(&[2, 1, 0]), 5);
    assert_eq!(rank_perm(&[3, 2, 1, 0]), 23);
}

#[test]
fn unrank_perm_known_values() {
    assert_eq!(unrank_perm(0, 0), Vec::<usize>::new());
    assert_eq!(unrank_perm(0, 3), vec![0, 1, 2]);
    assert_eq!(unrank_perm(4, 3), vec![2, 0, 1]);
    assert_eq!(unrank_perm(5, 3), vec![2, 1, 0]);
    assert_eq!(unrank_perm(23, 4), vec![3, 2, 1, 0]);
}

#[test]
fn rank_and_unrank_are_inverse() {
    for n in 0..=6usize {
        for r in 0..factorial(n) {
            let p = unrank_perm(r, n);
            assert_eq!(p.len(), n);
            assert_eq!(rank_perm(&p), r);
            assert_eq!(unrank_perm(rank_perm(&p), n), p);
        }
    }
}

#[test]
fn factorials_table() {
    assert_eq!(factorials(0), vec![1]);
    assert_eq!(factorials(5), vec![1, 1, 2, 6, 24, 120]);
}

#[test]
fn sjt_small_cases() {
    assert_eq!(sjt_permutations(0), vec![Vec::<usize>::new()]);
    assert_eq!(sjt_permutations(1), vec![vec![0]]);
    assert_eq!(sjt_permutations(2), vec![vec![0, 1], vec![1, 0]]);
    assert_eq!(
        sjt_permutations(3),
        vec![
            vec![0, 1, 2],
            vec![0, 2, 1],
            vec![2, 0, 1],
            vec![2, 1, 0],
            vec![1, 2, 0],
            vec![1, 0, 2]
        ]
    );
}

#[test]
fn sjt_is_a_minimal_change_order_of_all_permutations() {
    for n in 0..=8usize {
        let perms = sjt_permutations(n);
        assert_eq!(perms.len(), factorial(n));
        assert_eq!(perms[0], (0..n).collect::<Vec<usize>>());
        let mut sorted = perms.clone();
        sorted.sort();
        sorted.dedup();
        assert_eq!(sorted.len(), perms.len());
        for p in &perms {
            let mut q = p.clone();
            q.sort();
            assert_eq!(q, (0..n).collect::<Vec<usize>>());
        }
        for w in perms.windows(2) {
            let diff: Vec<usize> = (0..n).filter(|&i| w[0][i] != w[1][i]).collect();
            assert_eq!(diff.len(), 2);
            assert_eq!(diff[1], diff[0] + 1);
            assert_eq!(w[0][diff[0]], w[1][diff[1]]);
            assert_eq!(w[0][diff[1]], w[1][diff[0]]);
        }
    }
}

#[test]
fn shuffle_with_applies_the_picks() {
    let mut v = vec!['a', 'b', 'c', 'd'];
    shuffle_with(&mut v, &[0, 0, 1, 0]);
    // 3 <-> 0, then 2 <-> 1, then 1 <-> 0
    assert_eq!(v, vec!['c', 'd', 'b', 'a']);
    let mut w = vec![1, 2, 3];
    shuffle_with(&mut w, &[0, 1, 2]);
    assert_eq!(w, vec![1, 2, 3]);
    let mut e: Vec<u8> = vec![];
    shuffle_with(&mut e, &[]);
    assert!(e.is_empty());
}

#[test]
fn fisher_yates_rearranges() {
    let start: Vec<usize> = (0..50).collect();
    let mut moved = false;
    for _ in 0..20 {
        let mut v = start.clone();
        fisher_yates(&mut v);
        if v != start {
            moved = true;
        }
        let mut sorted = v.clone();
        sorted.sort();
        assert_eq!(sorted, start);
    }
    assert!(moved);
}

#[test]
fn next_lex_perm_walk_follows_the_ranks() {
    let n = 5;
    let mut v: Vec<usize> = (0..n).collect();
    let mut steps = 0;
    loop {
        assert_eq!(rank_perm(&v), steps);
        assert_eq!(unrank_perm(steps, n), v);
        if !next_lex_perm(&mut v) {
            break;
        }
        steps += 1;
    }
    assert_eq!(steps + 1, factorial(n));
    assert_eq!(v, (0..n).collect::<Vec<usize>>());
}
