//! Tests for the random graph generator: the pools it builds are well
//! formed, its draws are deterministic under a fixed seed, and the verified
//! drivers agree on the graphs it produces.

use graph_reduce::graph::NodesStorage;
use graph_reduce::rng::rand_below;
use rand::SeedableRng;
use rand_chacha::ChaCha8Rng;
use graph_reduce::traverse::{sequential, traverse};

#[test]
fn generated_pool_is_well_formed() {
    let mut rng = ChaCha8Rng::seed_from_u64(42);
    let storage = NodesStorage::new(10, &mut rng);
    assert_eq!(storage.all_nodes.len(), 10);
    for (i, n) in storage.all_nodes.iter().enumerate() {
        assert_eq!(n.id, i);
        for s in &n.symbols_out {
            // every outgoing reference resolves to some node
            assert!(storage.find_node(s).is_some());
        }
    }
}

#[test]
fn generator_is_deterministic_per_seed() {
    let mut rng1 = ChaCha8Rng::seed_from_u64(7);
    let mut rng2 = ChaCha8Rng::seed_from_u64(7);
    let a = NodesStorage::new(6, &mut rng1);
    let b = NodesStorage::new(6, &mut rng2);
    for (x, y) in a.all_nodes.iter().zip(b.all_nodes.iter()) {
        assert_eq!(x.id, y.id);
        assert_eq!(x.symbols, y.symbols);
        assert_eq!(x.symbols_out, y.symbols_out);
    }
}

#[test]
fn roots_come_from_the_pool() {
    let mut rng = ChaCha8Rng::seed_from_u64(42);
    let storage = NodesStorage::new(8, &mut rng);
    let roots = storage.get_roots(3, &mut rng);
    assert_eq!(roots.len(), 3);
    for r in &roots {
        assert!(r.id < 8);
        assert_eq!(storage.all_nodes[r.id].id, r.id);
    }
}

#[test]
fn drivers_agree_on_generated_graphs() {
    for seed in [1u64, 2, 3, 42] {
        let mut rng = ChaCha8Rng::seed_from_u64(seed);
        let storage = NodesStorage::new(12, &mut rng);
        let roots = storage.get_roots(4, &mut rng);
        let a = sequential(&storage, &roots, 1);
        let b = traverse(&storage, &roots, 1);
        assert_eq!(a, b);
        assert!(a.1 <= 12);
    }
}

#[test]
fn rand_below_stays_in_range() {
    let mut rng = ChaCha8Rng::seed_from_u64(99);
    for bound in [1usize, 2, 5, 100] {
        for _ in 0..50 {
            assert!(rand_below(&mut rng, bound) < bound);
        }
    }
}
