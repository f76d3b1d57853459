use rusty_combinatorial::graphs::generate::generate_graphs;
use rusty_combinatorial::graphs::isomorphism::are_isomorphic;

#[test]
fn test_generate_graphs_count() {
    let gs = generate_graphs(3);
    assert_eq!(gs.len(), 8);
}

#[test]
fn test_simple_isomorphic() {
    let g1 = vec![
        vec![false, true, false],
        vec![true, false, true],
        vec![false, true, false],
    ];
    let g2 = vec![
        vec![false, false, true],
        vec![false, false, true],
        vec![true, true, false],
    ];
    assert!(are_isomorphic(&g1, &g2));
}

#[test]
fn graphs_on_few_vertices() {
    assert_eq!(generate_graphs(0), vec![Vec::<Vec<bool>>::new()]);
    assert_eq!(generate_graphs(1), vec![vec![vec![false]]]);
    assert_eq!(
        generate_graphs(2),
        vec![
            vec![vec![false, false], vec![false, false]],
            vec![vec![false, true], vec![true, false]]
        ]
    );
}

#[test]
fn graphs_on_three_vertices_by_mask() {
    let gs = generate_graphs(3);
    // bit 0 is the pair (0, 1), bit 1 the pair (0, 2), bit 2 the pair (1, 2)
    assert_eq!(
        gs[5],
        vec![
            vec![false, true, false],
            vec![true, false, true],
            vec![false, true, false]
        ]
    );
    for g in &gs {
        for i in 0..3 {
            assert!(!g[i][i]);
            for j in 0..3 {
                assert_eq!(g[i][j], g[j][i]);
            }
        }
    }
    assert_eq!(generate_graphs(4).len(), 64);
}

#[test]
fn isomorphism_groups_the_graphs_on_three_vertices_by_edge_count() {
    let gs = generate_graphs(3);
    let edges = |g: &Vec<Vec<bool>>| g.iter().flatten().filter(|&&b| b).count() / 2;
    for a in &gs {
        for b in &gs {
            assert_eq!(are_isomorphic(a, b), edges(a) == edges(b));
        }
    }
    let mut classes: Vec<Vec<Vec<bool>>> = Vec::new();
    for g in &gs {
        if !classes.iter().any(|c| are_isomorphic(c, g)) {
            classes.push(g.clone());
        }
    }
    assert_eq!(classes.len(), 4);
}

#[test]
fn isomorphism_of_different_sizes_and_shapes() {
    let one = vec![vec![false]];
    let two = vec![vec![false, false], vec![false, false]];
    assert!(!are_isomorphic(&one, &two));
    assert!(are_isomorphic(&[], &[]));
    // a path and a star on four vertices have three edges each
    let path = vec![
        vec![false, true, false, false],
        vec![true, false, true, false],
        vec![false, true, false, true],
        vec![false, false, true, false],
    ];
    let star = vec![
        vec![false, true, true, true],
        vec![true, false, false, false],
        vec![true, false, false, false],
        vec![true, false, false, false],
    ];
    assert!(!are_isomorphic(&path, &star));
    assert!(are_isomorphic(&path, &path));
}

#[test]
fn isomorphism_is_an_equivalence_on_four_vertices() {
    let gs = generate_graphs(4);
    assert_eq!(gs.len(), 64);
    let mut iso = vec![vec![false; gs.len()]; gs.len()];
    for a in 0..gs.len() {
        for b in 0..gs.len() {
            iso[a][b] = are_isomorphic(&gs[a], &gs[b]);
        }
    }
    for a in 0..gs.len() {
        assert!(iso[a][a]);
        for b in 0..gs.len() {
            assert_eq!(iso[a][b], iso[b][a]);
            for c in 0..gs.len() {
                if iso[a][b] && iso[b][c] {
                    assert!(iso[a][c]);
                }
            }
        }
    }
    // eleven classes of graphs on four vertices
    let classes = (0..gs.len()).filter(|&a| (0..a).all(|b| !iso[a][b])).count();
    assert_eq!(classes, 11);
}
