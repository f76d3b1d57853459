use rusty_combinatorial::backtrack::nqueens::solve_nqueens;
use rusty_combinatorial::gray::binary::binary_reflected_gray;
use rusty_combinatorial::gray::k_subset::k_subset_gray;
use rusty_combinatorial::partition_set::fixed_k::fixed_k_partitions;
use rusty_combinatorial::partition_set::generate_set::generate_set_partitions;
use rusty_combinatorial::partitions::generate::generate_partitions;
use rusty_combinatorial::young::generate::generate_syt;

fn all_different<T: PartialEq>(list: &[T]) -> bool {
    (0..list.len()).all(|a| (0..a).all(|b| list[a] != list[b]))
}

#[test]
fn no_object_is_generated_twice() {
    assert!(all_different(&solve_nqueens(6)));
    assert!(all_different(&binary_reflected_gray(5)));
    assert!(all_different(&k_subset_gray(6, 3)));
    assert!(all_different(&fixed_k_partitions(6, 3)));
    assert!(all_different(&generate_set_partitions(5)));
    assert!(all_different(&generate_partitions(9)));
    assert!(all_different(&generate_syt(&[3, 2, 1])));
}

#[test]
fn counts_of_the_generated_objects() {
    assert_eq!(k_subset_gray(6, 3).len(), 20);
    assert_eq!(fixed_k_partitions(6, 3).len(), 90);
    assert_eq!(generate_set_partitions(5).len(), 52);
    assert_eq!(generate_partitions(9).len(), 30);
    assert_eq!(generate_syt(&[3, 2, 1]).len(), 16);
}
