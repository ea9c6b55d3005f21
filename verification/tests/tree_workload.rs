//! Tests for the tree workload: node counting, the Fibonacci compute step,
//! the sequential and parallel reductions, and the mutating fill traversal.

use graph_reduce::amount_of_work;
use graph_reduce::compute::fib_value;
use graph_reduce::tree::Node;
use graph_reduce::tree_fill;
use graph_reduce::tree_reduce::{par_reduce, par_reduce_chunked, sequential};
use graph_reduce::DEFAULT_AMOUNT_OF_WORK;

fn fib(n: u64) -> u64 {
    let mut a: u64 = 0;
    let mut b: u64 = 1;
    for _ in 0..n {
        let c = a.wrapping_add(b);
        a = b;
        b = c;
    }
    a
}

fn leaf(values: &[u64]) -> Node {
    Node {
        value: values.to_vec(),
        children: vec![],
        fib_n: vec![],
    }
}

fn sample_forest() -> Vec<Node> {
    vec![
        Node {
            value: vec![10, 11],
            children: vec![leaf(&[5]), leaf(&[7, 8])],
            fib_n: vec![],
        },
        leaf(&[20]),
    ]
}

#[test]
fn fib_value_matches_reference() {
    assert_eq!(fib_value(0), 0);
    assert_eq!(fib_value(1), 1);
    assert_eq!(fib_value(2), 1);
    assert_eq!(fib_value(10), 55);
    assert_eq!(fib_value(93), fib(93));
    // past index 93 the sequence continues under wrapping addition
    assert_eq!(fib_value(94), fib_value(92).wrapping_add(fib_value(93)));
}

#[test]
fn compute_single_and_repeated() {
    assert_eq!(Node::compute(10, 1), 55);
    // two rounds: fib(5) + fib(6)
    assert_eq!(Node::compute(5, 2), 5 + 8);
    assert_eq!(Node::compute(0, 0), 0);
}

#[test]
fn compute_using_mut_var_picks_branch() {
    assert_eq!(Node::compute_using_mut_var(10, 1, true), 55);
    assert_eq!(Node::compute_using_mut_var(10, 1, false), 5);
}

#[test]
fn num_nodes_counts_whole_tree() {
    let forest = sample_forest();
    assert_eq!(forest[0].num_nodes(), 3);
    assert_eq!(forest[1].num_nodes(), 1);
}

#[test]
fn sequential_reduction_exact_value() {
    let forest = sample_forest();
    let expected = fib(10) + fib(11) + fib(5) + fib(7) + fib(8) + fib(20);
    assert_eq!(sequential(&forest, 1), expected);
}

#[test]
fn parallel_reduction_strategies_agree() {
    let forest = sample_forest();
    let baseline = sequential(&forest, 1);
    assert_eq!(par_reduce(&forest, 1), baseline);
    for chunk in [1, 64, 1024] {
        assert_eq!(par_reduce_chunked(&forest, 1, chunk), baseline);
    }
    let baseline3 = sequential(&forest, 3);
    assert_eq!(par_reduce(&forest, 3), baseline3);
}

#[test]
fn fill_writes_every_slot_once() {
    let forest = sample_forest();
    let filled = tree_fill::sequential(forest, 1);
    assert_eq!(filled.len(), 2);
    assert_eq!(filled[0].fib_n, vec![fib(10), fib(11)]);
    assert_eq!(filled[0].children[0].fib_n, vec![fib(5)]);
    assert_eq!(filled[0].children[1].fib_n, vec![fib(7), fib(8)]);
    assert_eq!(filled[1].fib_n, vec![fib(20)]);
    // values and shape are untouched
    assert_eq!(filled[0].value, vec![10, 11]);
    assert_eq!(filled[0].children.len(), 2);
}

#[test]
fn collect_gathers_own_then_child_values() {
    let forest = sample_forest();
    let collected = graph_reduce::tree_collect::sequential(&forest, 1);
    // root 0: own values 10, 11; direct children values 5 and 7, 8;
    // root 1: own value 20 and no children
    let expected = vec![fib(10), fib(11), fib(5), fib(7), fib(8), fib(20)];
    assert_eq!(collected, expected);
}

#[test]
fn default_amount_of_work() {
    assert_eq!(amount_of_work(), 1);
    assert_eq!(DEFAULT_AMOUNT_OF_WORK, 1);
}
