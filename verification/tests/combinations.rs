use rusty_combinatorial::combinations::lex::{all_combinations, next_combination};
use rusty_combinatorial::combinations::random::random_combination;
use rusty_combinatorial::combinations::ranking::{binom, rank_comb, unrank_comb};

#[test]
fn test_all_combinations() {
    let combs = all_combinations(5, 3);
    assert_eq!(combs[0], vec![0, 1, 2]);
    assert_eq!(combs.last().unwrap(), &vec![2, 3, 4]);
}

#[test]
fn test_next_combination() {
    let mut c = vec![0, 1, 2];
    assert!(next_combination(&mut c, 5));
    assert_eq!(c, vec![0, 1, 3]);
}

#[test]
fn test_next_combination_full() {
    let mut c = vec![0, 1, 2, 5, 3, 6];
    assert!(next_combination(&mut c, 7));
    assert_eq!(c, vec![0, 1, 2, 4, 5, 6]);
}

#[test]
fn test_random_combination_bounds() {
    let c = random_combination(10, 4);
    assert_eq!(c.len(), 4);
    assert!(c.iter().all(|&x| x < 10));
}

#[test]
fn test_rank_unrank() {
    let comb = vec![1, 3, 4];
    let r = rank_comb(&comb, 6);
    let u = unrank_comb(r, 6, comb.len());
    assert_eq!(comb, u);
}

#[test]
fn binom_known_values() {
    assert_eq!(binom(5, 3), 10);
    assert_eq!(binom(0, 0), 1);
    assert_eq!(binom(7, 0), 1);
    assert_eq!(binom(7, 7), 1);
    assert_eq!(binom(3, 5), 0);
    assert_eq!(binom(usize::MAX - 1, usize::MAX), 0);
    assert_eq!(binom(10, 4), 210);
    assert_eq!(binom(52, 5), 2598960);
}

#[test]
fn rank_comb_known_values() {
    assert_eq!(rank_comb(&[1, 3, 4], 6), 13);
    assert_eq!(rank_comb(&[0, 1, 2], 6), 0);
    assert_eq!(rank_comb(&[3, 4, 5], 6), 19);
    assert_eq!(rank_comb(&[], 4), 0);
}

#[test]
fn unrank_comb_known_values() {
    assert_eq!(unrank_comb(13, 6, 3), vec![1, 3, 4]);
    assert_eq!(unrank_comb(0, 6, 3), vec![0, 1, 2]);
    assert_eq!(unrank_comb(19, 6, 3), vec![3, 4, 5]);
    assert_eq!(unrank_comb(0, 4, 0), Vec::<usize>::new());
}

#[test]
fn rank_and_unrank_of_combinations_are_inverse() {
    for n in 0..=8usize {
        for k in 0..=n {
            let total = binom(n, k);
            let all = all_combinations(n, k);
            assert_eq!(all.len(), total);
            for (r, c) in all.iter().enumerate() {
                assert_eq!(rank_comb(c, n), r);
                assert_eq!(&unrank_comb(r, n, k), c);
                assert_eq!(unrank_comb(rank_comb(c, n), n, k), *c);
            }
        }
    }
}

#[test]
fn next_combination_stops_at_the_last() {
    let mut c = vec![2, 3, 4];
    assert!(!next_combination(&mut c, 5));
    assert_eq!(c, vec![2, 3, 4]);
    let mut unsorted = vec![4, 2, 3];
    assert!(!next_combination(&mut unsorted, 5));
    assert_eq!(unsorted, vec![2, 3, 4]);
    let mut empty: Vec<usize> = vec![];
    assert!(!next_combination(&mut empty, 3));
}

#[test]
fn next_combination_resets_the_tail() {
    let mut c = vec![0, 3, 4];
    assert!(next_combination(&mut c, 5));
    assert_eq!(c, vec![1, 2, 3]);
}

#[test]
fn all_combinations_in_lexicographic_order() {
    assert_eq!(
        all_combinations(4, 2),
        vec![vec![0, 1], vec![0, 2], vec![0, 3], vec![1, 2], vec![1, 3], vec![2, 3]]
    );
    assert_eq!(all_combinations(3, 0), vec![Vec::<usize>::new()]);
    assert_eq!(all_combinations(3, 3), vec![vec![0, 1, 2]]);
}

#[test]
fn random_combination_is_a_combination() {
    let mut seen_different = false;
    let first = random_combination(20, 5);
    for _ in 0..40 {
        let c = random_combination(20, 5);
        assert_eq!(c.len(), 5);
        assert!(c.windows(2).all(|w| w[0] < w[1]));
        assert!(c.iter().all(|&x| x < 20));
        if c != first {
            seen_different = true;
        }
    }
    assert!(seen_different);
    assert_eq!(random_combination(4, 4), vec![0, 1, 2, 3]);
    assert!(random_combination(4, 0).is_empty());
}
