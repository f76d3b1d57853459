use rusty_combinatorial::gray::binary::binary_reflected_gray;
use rusty_combinatorial::gray::k_subset::k_subset_gray;
use rusty_combinatorial::gray::loopless::gray_loopless;
use std::collections::HashSet;

#[test]
fn test_binary_gray_small() {
    let g2 = binary_reflected_gray(2);
    assert_eq!(g2, vec![vec![0, 0], vec![0, 1], vec![1, 1], vec![1, 0]]);
}

#[test]
fn test_k_subset_gray() {
    let subsets = k_subset_gray(4, 2);
    // 6 subsets of 4 choose 2
    assert_eq!(subsets.len(), 6);

    // check minimal change: symmetric difference == 2
    for w in subsets.windows(2) {
        let a = &w[0];
        let b = &w[1];
        let mut diff = 0usize;
        for i in 0..4 {
            let in_a = a.contains(&i);
            let in_b = b.contains(&i);
            if in_a != in_b {
                diff += 1;
            }
        }
        assert_eq!(diff, 2);
    }

    // basic correctness: ensure all combinations are present
    let set: HashSet<Vec<usize>> = subsets
        .into_iter()
        .map(|mut s| {
            s.sort_unstable();
            s
        })
        .collect();
    assert_eq!(set.len(), 6);
}

#[test]
fn test_loopless_gray() {
    let g3 = gray_loopless(3);
    assert_eq!(g3.len(), 8);
    assert_eq!(g3[2], 0b011);
}

#[test]
fn binary_gray_first_cases() {
    assert_eq!(binary_reflected_gray(0), vec![Vec::<u8>::new()]);
    assert_eq!(binary_reflected_gray(1), vec![vec![0], vec![1]]);
    let g3 = binary_reflected_gray(3);
    assert_eq!(g3[0], vec![0, 0, 0]);
    assert_eq!(g3[1], vec![0, 0, 1]);
    assert_eq!(g3[7], vec![1, 0, 0]);
}

#[test]
fn binary_gray_changes_one_bit_at_a_time() {
    for n in 0..6usize {
        let g = binary_reflected_gray(n);
        assert_eq!(g.len(), 1 << n);
        for k in 0..g.len() {
            assert_eq!(g[k].len(), n);
            if g.len() > 1 {
                let next = &g[(k + 1) % g.len()];
                let diff = (0..n).filter(|&i| g[k][i] != next[i]).count();
                assert_eq!(diff, 1);
            }
        }
    }
}

#[test]
fn k_subset_gray_order_of_four_choose_two() {
    assert_eq!(
        k_subset_gray(4, 2),
        vec![vec![0, 1], vec![1, 2], vec![0, 2], vec![2, 3], vec![1, 3], vec![0, 3]]
    );
}

#[test]
fn k_subset_gray_edge_cases() {
    assert!(k_subset_gray(2, 3).is_empty());
    assert_eq!(k_subset_gray(3, 0), vec![Vec::<usize>::new()]);
    assert_eq!(k_subset_gray(3, 3), vec![vec![0, 1, 2]]);
    assert_eq!(k_subset_gray(0, 0), vec![Vec::<usize>::new()]);
}

#[test]
fn gray_loopless_values() {
    assert_eq!(gray_loopless(0), vec![0]);
    assert_eq!(gray_loopless(3), vec![0, 1, 3, 2, 6, 7, 5, 4]);
    let g = gray_loopless(5);
    for w in g.windows(2) {
        assert_eq!((w[0] ^ w[1]).count_ones(), 1);
    }
}
