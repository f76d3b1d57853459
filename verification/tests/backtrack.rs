use rusty_combinatorial::backtrack::nqueens::solve_nqueens;
use rusty_combinatorial::backtrack::subset_sum::subset_sum;

#[test]
fn test_nqueens_small() {
    let sol4 = solve_nqueens(4);
    assert_eq!(sol4.len(), 2);
}

#[test]
fn test_subset_sum() {
    let result = subset_sum(&[1, 2, 3], 3);
    assert!(result.contains(&vec![1, 2]) || result.contains(&vec![3]));
}

#[test]
fn nqueens_solutions_of_four() {
    assert_eq!(solve_nqueens(4), vec![vec![1, 3, 0, 2], vec![2, 0, 3, 1]]);
}

#[test]
fn nqueens_counts() {
    let counts: Vec<usize> = (0..=8).map(|n| solve_nqueens(n).len()).collect();
    assert_eq!(counts, vec![1, 1, 0, 0, 2, 10, 4, 40, 92]);
}

#[test]
fn nqueens_solutions_are_placements_without_attack() {
    for sol in solve_nqueens(6) {
        assert_eq!(sol.len(), 6);
        for r1 in 0..6 {
            for r2 in r1 + 1..6 {
                assert_ne!(sol[r1], sol[r2]);
                assert_ne!(sol[r1] + r1, sol[r2] + r2);
                assert_ne!(sol[r1] + r2, sol[r2] + r1);
            }
        }
    }
}

#[test]
fn subset_sum_known_values() {
    assert_eq!(subset_sum(&[1, 2, 3], 3), vec![vec![3], vec![1, 2]]);
    assert_eq!(subset_sum(&[2, 3, 6, 7], 7), vec![vec![7]]);
    assert_eq!(subset_sum(&[5, 5], 5), vec![vec![5], vec![5]]);
    assert_eq!(subset_sum(&[1, 2], 0), vec![Vec::<i32>::new()]);
    assert!(subset_sum(&[4, 6], 5).is_empty());
    assert!(subset_sum(&[], 1).is_empty());
}

#[test]
fn subset_sum_prunes_past_the_target() {
    // the branch that takes 4 runs past 3 and is dropped, though -1 would bring it back
    assert_eq!(subset_sum(&[4, -1], 3), Vec::<Vec<i32>>::new());
    assert_eq!(subset_sum(&[-1, 4], 3), vec![vec![-1, 4]]);
}

#[test]
fn subset_sum_goes_on_after_the_target_is_reached() {
    // an entry 0 after the target is reached gives a second selection
    assert_eq!(subset_sum(&[3, 0], 3), vec![vec![3], vec![3, 0]]);
    assert_eq!(subset_sum(&[0, 3], 3), vec![vec![3], vec![0, 3]]);
    assert_eq!(subset_sum(&[0, 0], 0), vec![vec![], vec![0], vec![0], vec![0, 0]]);
    // entries that cancel after the target is reached
    assert_eq!(subset_sum(&[2, -1, 1], 2), vec![vec![2], vec![2, -1, 1]]);
}
