use rusty_combinatorial::partitions::generate::generate_partitions;
use rusty_combinatorial::young::generate::generate_syt;
use rusty_combinatorial::young::hook::hook_length;

#[test]
fn test_hook_length_simple() {
    let shape = vec![vec![true, true], vec![true]];
    assert_eq!(hook_length(&shape), 2);
}

fn grid(shape: &[usize]) -> Vec<Vec<bool>> {
    shape.iter().map(|&l| vec![true; l]).collect()
}

#[test]
fn tableaux_of_the_hook_of_three_cells() {
    assert_eq!(
        generate_syt(&[2, 1]),
        vec![vec![vec![1, 2], vec![3]], vec![vec![1, 3], vec![2]]]
    );
}

#[test]
fn tableaux_of_small_shapes() {
    assert_eq!(generate_syt(&[]), vec![Vec::<Vec<usize>>::new()]);
    assert_eq!(generate_syt(&[1]), vec![vec![vec![1]]]);
    assert_eq!(generate_syt(&[3]), vec![vec![vec![1, 2, 3]]]);
    assert_eq!(generate_syt(&[1, 1, 1]), vec![vec![vec![1], vec![2], vec![3]]]);
    assert_eq!(
        generate_syt(&[2, 2]),
        vec![vec![vec![1, 2], vec![3, 4]], vec![vec![1, 3], vec![2, 4]]]
    );
}

#[test]
fn tableaux_are_standard() {
    for t in generate_syt(&[3, 2, 1]) {
        let mut values: Vec<usize> = t.iter().flatten().cloned().collect();
        values.sort();
        assert_eq!(values, vec![1, 2, 3, 4, 5, 6]);
        for i in 0..t.len() {
            for j in 0..t[i].len() {
                if j > 0 {
                    assert!(t[i][j - 1] < t[i][j]);
                }
                if i > 0 {
                    assert!(t[i - 1][j] < t[i][j]);
                }
            }
        }
    }
}

#[test]
fn hook_length_known_values() {
    assert_eq!(hook_length(&[]), 1);
    assert_eq!(hook_length(&grid(&[1])), 1);
    assert_eq!(hook_length(&grid(&[2, 2])), 2);
    assert_eq!(hook_length(&grid(&[3, 2])), 5);
    assert_eq!(hook_length(&grid(&[3, 2, 1])), 16);
    assert_eq!(hook_length(&grid(&[4, 4])), 14);
}

#[test]
fn hook_length_counts_the_generated_tableaux() {
    for n in 0..=8usize {
        for shape in generate_partitions(n) {
            assert_eq!(hook_length(&grid(&shape)), generate_syt(&shape).len());
        }
    }
}
