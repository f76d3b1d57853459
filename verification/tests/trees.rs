use rusty_combinatorial::trees::min_heap::MinHeap;
use rusty_combinatorial::trees::pruefer::pruefer_encode;
use rusty_combinatorial::trees::pruefer_decode::pruefer_decode;

#[test]
fn test_pruefer_encode_simple() {
    let edges = vec![(0, 1), (1, 2), (1, 3)];
    let code = pruefer_encode(4, &edges);
    assert_eq!(code, vec![1, 1]);
}

#[test]
fn test_pruefer_decode_simple() {
    let code = vec![1, 1];
    let edges = pruefer_decode(&code);
    assert_eq!(edges.len(), 3);
}

fn normalized(edges: &[(usize, usize)]) -> Vec<(usize, usize)> {
    let mut set: Vec<(usize, usize)> =
        edges.iter().map(|&(u, v)| if u < v { (u, v) } else { (v, u) }).collect();
    set.sort();
    set
}

#[test]
fn pruefer_decode_known_values() {
    assert_eq!(pruefer_decode(&[]), vec![(0, 1)]);
    assert_eq!(pruefer_decode(&[1, 1]), vec![(0, 1), (2, 1), (1, 3)]);
    assert_eq!(pruefer_decode(&[3, 3, 3, 4]), vec![(0, 3), (1, 3), (2, 3), (3, 4), (4, 5)]);
}

#[test]
fn pruefer_encode_known_values() {
    assert_eq!(pruefer_encode(2, &[(1, 0)]), Vec::<usize>::new());
    assert_eq!(pruefer_encode(3, &[(2, 0), (0, 1)]), vec![0]);
    assert_eq!(pruefer_encode(6, &[(0, 3), (1, 3), (2, 3), (3, 4), (4, 5)]), vec![3, 3, 3, 4]);
    // a path: 2 - 0 - 3 - 1
    assert_eq!(pruefer_encode(4, &[(3, 1), (0, 3), (2, 0)]), vec![3, 0]);
}

#[test]
fn pruefer_round_trip_on_all_small_trees() {
    for n in 2..=7usize {
        let len = n - 2;
        let total = n.pow(len as u32);
        for mut x in 0..total {
            let mut code = Vec::with_capacity(len);
            for _ in 0..len {
                code.push(x % n);
                x /= n;
            }
            let edges = pruefer_decode(&code);
            assert_eq!(edges.len(), n - 1);
            assert_eq!(pruefer_encode(n, &edges), code);
            let again = pruefer_decode(&pruefer_encode(n, &edges));
            assert_eq!(normalized(&again), normalized(&edges));
            // the same tree with its edges turned round and listed backwards
            let turned: Vec<(usize, usize)> = edges.iter().rev().map(|&(u, v)| (v, u)).collect();
            let back = pruefer_decode(&pruefer_encode(n, &turned));
            assert_eq!(normalized(&back), normalized(&turned));
        }
    }
}

#[test]
fn min_heap_hands_out_in_ascending_order() {
    let mut heap = MinHeap::new();
    assert_eq!(heap.pop(), None);
    for x in [5usize, 3, 8, 1, 9, 3, 0, 7] {
        heap.push(x);
    }
    let mut out = Vec::new();
    while let Some(x) = heap.pop() {
        out.push(x);
    }
    assert_eq!(out, vec![0, 1, 3, 3, 5, 7, 8, 9]);
}
