use rusty_combinatorial::partition_set::fixed_k::fixed_k_partitions;
use rusty_combinatorial::partition_set::generate_set::generate_set_partitions;
use rusty_combinatorial::partition_set::rank_set::{count_set_partitions, stirling};
use rusty_combinatorial::partitions::generate::generate_partitions;
use rusty_combinatorial::partitions::rank::{partition_table, rank_partition};

#[test]
fn test_fixed_k_partitions() {
    let p = fixed_k_partitions(4, 2);
    assert!(p.len() > 0);
    for part in p {
        assert_eq!(part.len(), 2);
    }
}

#[test]
fn test_generate_set_partitions() {
    let p = generate_set_partitions(3);
    // Expect partitions of 3: 5 total
    assert_eq!(p.len(), 5);
}

#[test]
fn test_stirling_small() {
    assert_eq!(count_set_partitions(3, 2), 3);
    assert_eq!(count_set_partitions(4, 2), 7);
}

#[test]
fn test_generate_partitions_simple() {
    let parts = generate_partitions(4);
    assert!(parts.contains(&vec![4]));
    assert!(parts.contains(&vec![2, 2]));
    assert!(parts.contains(&vec![1, 1, 1, 1]));
    assert_eq!(parts.iter().map(|p| p.iter().sum::<usize>()).all(|s| s == 4), true);
}

#[test]
fn test_rank_partition_simple() {
    let r0 = rank_partition(&[4], 4);
    let r1 = rank_partition(&[3, 1], 4);
    let r2 = rank_partition(&[2, 2], 4);
    assert!(r0 < r1 && r1 < r2);
}

#[test]
fn partitions_of_four() {
    assert_eq!(
        generate_partitions(4),
        vec![vec![4], vec![3, 1], vec![2, 2], vec![2, 1, 1], vec![1, 1, 1, 1]]
    );
}

#[test]
fn partitions_of_small_numbers() {
    assert_eq!(generate_partitions(0), vec![Vec::<usize>::new()]);
    assert_eq!(generate_partitions(1), vec![vec![1]]);
    let counts: Vec<usize> = (0..=10).map(|n| generate_partitions(n).len()).collect();
    assert_eq!(counts, vec![1, 1, 2, 3, 5, 7, 11, 15, 22, 30, 42]);
}

#[test]
fn rank_partition_is_the_position_in_the_generated_list() {
    for n in 0..=9usize {
        for (i, p) in generate_partitions(n).iter().enumerate() {
            assert_eq!(rank_partition(p, n), i);
        }
    }
}

#[test]
fn partition_table_counts() {
    let p = partition_table(5);
    assert_eq!(p.len(), 6);
    assert_eq!(p[0], vec![1, 1, 1, 1, 1, 1]);
    assert_eq!(p[5], vec![0, 1, 3, 5, 6, 7]);
    assert_eq!(p[4][2], 3);
}

#[test]
fn set_partitions_of_three() {
    assert_eq!(
        generate_set_partitions(3),
        vec![
            vec![vec![0, 1, 2]],
            vec![vec![0, 1], vec![2]],
            vec![vec![0, 2], vec![1]],
            vec![vec![0], vec![1, 2]],
            vec![vec![0], vec![1], vec![2]],
        ]
    );
    assert_eq!(generate_set_partitions(0), vec![Vec::<Vec<usize>>::new()]);
}

#[test]
fn set_partitions_are_counted_by_bell_and_stirling_numbers() {
    let bell = [1usize, 1, 2, 5, 15, 52, 203];
    for n in 0..bell.len() {
        let all = generate_set_partitions(n);
        assert_eq!(all.len(), bell[n]);
        for k in 0..=n + 1 {
            let fixed = fixed_k_partitions(n, k);
            assert_eq!(fixed.len(), stirling(n, k));
            let expected: Vec<Vec<Vec<usize>>> =
                all.iter().filter(|p| p.len() == k).cloned().collect();
            assert_eq!(fixed, expected);
        }
        for p in &all {
            let mut members: Vec<usize> = p.iter().flatten().cloned().collect();
            members.sort();
            assert_eq!(members, (0..n).collect::<Vec<usize>>());
            assert!(p.iter().all(|b| !b.is_empty()));
        }
    }
}

#[test]
fn stirling_known_values() {
    assert_eq!(stirling(0, 0), 1);
    assert_eq!(stirling(3, 0), 0);
    assert_eq!(stirling(0, 2), 0);
    assert_eq!(stirling(3, 2), 3);
    assert_eq!(stirling(4, 2), 7);
    assert_eq!(stirling(5, 3), 25);
    assert_eq!(stirling(3, 5), 0);
    assert_eq!(stirling(6, 6), 1);
}
