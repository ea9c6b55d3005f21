//! Tests for the graph traversal engine: exactly-once processing, aggregate
//! equivalence across drivers and strategies, diamond deduplication,
//! isolation of unreachable nodes, and idempotent root sets.

use graph_reduce::graph::{Node, NodesStorage};
use graph_reduce::traverse::{sequential, traverse};
use orx_parallel::{par_recursive, ParRec};
use std::sync::atomic::{AtomicBool, AtomicUsize, Ordering};

fn node(id: usize, symbols: &[&str], symbols_out: &[&str]) -> Node {
    Node {
        id,
        symbols: symbols.iter().map(|s| s.to_string()).collect(),
        symbols_out: symbols_out.iter().map(|s| s.to_string()).collect(),
    }
}

/// The iterated-Fibonacci reference value.
fn fib(n: u64) -> u64 {
    let mut a: u64 = 0;
    let mut b: u64 = 1;
    for _ in 0..n {
        let c = a.wrapping_add(b);
        a = b;
        b = c;
    }
    a
}

/// The 4-node scenario: node 0 exposes "a", nodes 1 and 2 reference it,
/// node 3 is isolated.
fn diamond_storage() -> NodesStorage {
    NodesStorage {
        all_nodes: vec![
            node(0, &["a"], &[]),
            node(1, &["b"], &["a"]),
            node(2, &["c"], &["a"]),
            node(3, &["d"], &[]),
        ],
    }
}

/// A parallel driver over the library's graph store, riding on
/// orx_parallel's recursive work-stealing iterator with atomic claim flags,
/// as a concurrent twin of the verified drivers.
fn par_traverse(
    storage: &NodesStorage,
    roots: &[&Node],
    work: u64,
    num_threads: usize,
    chunk: usize,
) -> (u64, usize) {
    let n = storage.all_nodes.len();
    let loaded: Vec<AtomicBool> = (0..n)
        .map(|i| AtomicBool::new(roots.iter().any(|r| r.id == i)))
        .collect();
    let processed: Vec<AtomicBool> = (0..n).map(|_| AtomicBool::new(false)).collect();
    let processed_count = AtomicUsize::new(0);

    // pre-seeding the roots as loaded dedups the initial frontier
    let mut initial: Vec<&Node> = Vec::new();
    for r in roots {
        if !initial.iter().any(|x| x.id == r.id) {
            initial.push(r);
        }
    }

    let loaded_ref = &loaded;
    let processed_ref = &processed;
    let count_ref = &processed_count;
    let extend = |node: &&Node| {
        let mut kids: Vec<&Node> = Vec::new();
        if processed_ref[node.id]
            .compare_exchange(false, true, Ordering::AcqRel, Ordering::Relaxed)
            .is_ok()
        {
            count_ref.fetch_add(1, Ordering::Relaxed);
            for s in &node.symbols_out {
                let child = storage.find_node(s).unwrap();
                if !processed_ref[child.id].load(Ordering::Relaxed)
                    && loaded_ref[child.id]
                        .compare_exchange(false, true, Ordering::AcqRel, Ordering::Relaxed)
                        .is_ok()
                {
                    kids.push(child);
                }
            }
        }
        kids
    };

    let sum: u64 = par_recursive(initial.into_iter(), extend)
        .num_threads(num_threads)
        .chunk_size(chunk)
        .map(|x: &Node| x.compute(work))
        .sum();
    (sum, processed_count.load(Ordering::Relaxed))
}

#[test]
fn concrete_diamond_scenario() {
    let storage = diamond_storage();
    let roots = vec![&storage.all_nodes[1], &storage.all_nodes[2]];
    let (sum, count) = sequential(&storage, &roots, 1);
    assert_eq!(count, 3);
    let expected = fib(40).wrapping_add(fib(41)).wrapping_add(fib(42));
    assert_eq!(sum, expected);
}

#[test]
fn diamond_child_counted_once() {
    let storage = diamond_storage();
    let roots = vec![&storage.all_nodes[1], &storage.all_nodes[2]];
    let (sum, _) = sequential(&storage, &roots, 1);
    let double_counted = fib(40)
        .wrapping_add(fib(40))
        .wrapping_add(fib(41))
        .wrapping_add(fib(42));
    assert_ne!(sum, double_counted);
    assert_eq!(sum, fib(40).wrapping_add(fib(41)).wrapping_add(fib(42)));
}

#[test]
fn disconnected_node_is_excluded() {
    let with_isolated = diamond_storage();
    let without_isolated = NodesStorage {
        all_nodes: vec![
            node(0, &["a"], &[]),
            node(1, &["b"], &["a"]),
            node(2, &["c"], &["a"]),
        ],
    };
    let roots_a = vec![&with_isolated.all_nodes[1], &with_isolated.all_nodes[2]];
    let roots_b = vec![
        &without_isolated.all_nodes[1],
        &without_isolated.all_nodes[2],
    ];
    assert_eq!(
        sequential(&with_isolated, &roots_a, 1),
        sequential(&without_isolated, &roots_b, 1)
    );
}

#[test]
fn duplicate_root_not_double_counted() {
    let storage = diamond_storage();
    let once = vec![&storage.all_nodes[1]];
    let twice = vec![&storage.all_nodes[1], &storage.all_nodes[1]];
    assert_eq!(
        sequential(&storage, &once, 1),
        sequential(&storage, &twice, 1)
    );
}

#[test]
fn sequential_and_materializing_drivers_agree() {
    let storage = diamond_storage();
    let roots = vec![&storage.all_nodes[1], &storage.all_nodes[2]];
    assert_eq!(
        sequential(&storage, &roots, 1),
        traverse(&storage, &roots, 1)
    );
    assert_eq!(
        sequential(&storage, &roots, 3),
        traverse(&storage, &roots, 3)
    );
}

#[test]
fn parallel_driver_counts_reachable_exactly_once() {
    let storage = diamond_storage();
    let roots = vec![&storage.all_nodes[1], &storage.all_nodes[2]];
    for threads in [1, 2, 4, 8] {
        for _ in 0..5 {
            let (_, count) = par_traverse(&storage, &roots, 1, threads, 0);
            assert_eq!(count, 3);
        }
    }
}

#[test]
fn parallel_strategies_match_sequential() {
    let storage = diamond_storage();
    let roots = vec![&storage.all_nodes[1], &storage.all_nodes[2]];
    let baseline = sequential(&storage, &roots, 1);
    for threads in [1, 2, 4] {
        for chunk in [0, 1, 64, 1024] {
            assert_eq!(par_traverse(&storage, &roots, 1, threads, chunk), baseline);
        }
    }
}

#[test]
fn chain_graph_traversal() {
    // 0 -> 1 -> 2 -> 3 as a chain of symbol references
    let storage = NodesStorage {
        all_nodes: vec![
            node(0, &["s0"], &["s1"]),
            node(1, &["s1"], &["s2"]),
            node(2, &["s2"], &["s3"]),
            node(3, &["s3"], &[]),
        ],
    };
    let roots = vec![&storage.all_nodes[0]];
    let (sum, count) = sequential(&storage, &roots, 1);
    assert_eq!(count, 4);
    let expected = fib(40)
        .wrapping_add(fib(41))
        .wrapping_add(fib(42))
        .wrapping_add(fib(43));
    assert_eq!(sum, expected);
    assert_eq!(traverse(&storage, &roots, 1), (sum, count));
    assert_eq!(par_traverse(&storage, &roots, 1, 4, 1), (sum, count));
}

#[test]
fn empty_roots_process_nothing() {
    let storage = diamond_storage();
    let roots: Vec<&Node> = vec![];
    assert_eq!(sequential(&storage, &roots, 1), (0, 0));
    assert_eq!(traverse(&storage, &roots, 1), (0, 0));
}

#[test]
fn find_node_resolves_first_match() {
    let storage = diamond_storage();
    let found = storage.find_node(&"a".to_string()).unwrap();
    assert_eq!(found.id, 0);
    assert!(storage.find_node(&"nope".to_string()).is_none());
    let relevant = storage.get_relevant_node(&"c".to_string());
    assert_eq!(relevant.id, 2);
}
