//! Reductions over the tree workload: a sequential recursive traversal and
//! parallel traversals driven by `orx_parallel`'s recursive iterator, all
//! bound to the same total.

use vstd::prelude::*;

verus! {

use orx_parallel::{par_recursive, ParRec};
use crate::compute::compute_value;
use crate::tree::{
    forest_in_range, forest_total, lemma_forest_total_take_le, lemma_forest_total_take_step,
    lemma_forest_total_nonneg, lemma_take_all, lemma_tree_total_nonneg, lemma_values_total_nonneg,
    lemma_values_total_take_le, lemma_values_total_take_step, tree_in_range, tree_total,
    values_in_range, values_total, Node,
};

/// The sum of the contributions of one node's own values.
#[verifier::loop_isolation(false)]
pub fn node_values_sum(node: &Node, amount_of_work: u64) -> (r: u64)
    requires
        values_in_range(node.value@, amount_of_work),
        values_total(node.value@, amount_of_work) <= u64::MAX,
    ensures
        r == values_total(node.value@, amount_of_work),
{
    let vals = &node.value;
    let mut sum: u64 = 0;
    let mut k: usize = 0;
    proof {
        assert(vals@.take(0) =~= Seq::<u64>::empty());
    }
    while k < vals.len()
        invariant
            k <= vals@.len(),
            sum == values_total(vals@.take(k as int), amount_of_work),
        decreases vals@.len() - k,
    {
        proof {
            lemma_values_total_take_step(vals@, amount_of_work, k as int);
            lemma_values_total_take_le(vals@, amount_of_work, k as int + 1);
            lemma_values_total_nonneg(vals@.take(k as int), amount_of_work);
        }
        let v = compute_value(vals[k], amount_of_work);
        sum = sum + v;
        k = k + 1;
    }
    proof {
        lemma_take_all(vals@);
    }
    sum
}

/// The sum of the contributions of a whole tree, computed by a sequential
/// depth-first traversal.
#[verifier::loop_isolation(false)]
pub fn seq_compute_node(node: &Node, amount_of_work: u64) -> (r: u64)
    requires
        tree_in_range(*node, amount_of_work),
        tree_total(*node, amount_of_work) <= u64::MAX,
    ensures
        r == tree_total(*node, amount_of_work),
    decreases *node,
{
    proof {
        lemma_values_total_nonneg(node.value@, amount_of_work);
        lemma_forest_total_nonneg(node.children@, amount_of_work);
    }
    let own = node_values_sum(node, amount_of_work);
    let kids = &node.children;
    let mut sum: u64 = own;
    let mut k: usize = 0;
    proof {
        assert(kids@.take(0) =~= Seq::<Node>::empty());
    }
    while k < kids.len()
        invariant
            k <= kids@.len(),
            sum == values_total(node.value@, amount_of_work) + forest_total(
                kids@.take(k as int),
                amount_of_work,
            ),
        decreases kids@.len() - k,
    {
        proof {
            lemma_forest_total_take_step(kids@, amount_of_work, k as int);
            lemma_forest_total_take_le(kids@, amount_of_work, k as int + 1);
            lemma_tree_total_nonneg(kids@[k as int], amount_of_work);
            lemma_forest_total_nonneg(kids@.take(k as int), amount_of_work);
            lemma_values_total_nonneg(node.value@, amount_of_work);
        }
        let child_sum = seq_compute_node(&kids[k], amount_of_work);
        sum = sum + child_sum;
        k = k + 1;
    }
    proof {
        lemma_take_all(kids@);
    }
    sum
}

/// The sum of the contributions of a whole forest, sequentially.
#[verifier::loop_isolation(false)]
pub fn sequential(roots: &[Node], amount_of_work: u64) -> (r: u64)
    requires
        forest_in_range(roots@, amount_of_work),
        forest_total(roots@, amount_of_work) <= u64::MAX,
    ensures
        r == forest_total(roots@, amount_of_work),
{
    let mut sum: u64 = 0;
    let mut k: usize = 0;
    proof {
        assert(roots@.take(0) =~= Seq::<Node>::empty());
    }
    while k < roots.len()
        invariant
            k <= roots@.len(),
            sum == forest_total(roots@.take(k as int), amount_of_work),
        decreases roots@.len() - k,
    {
        proof {
            lemma_forest_total_take_step(roots@, amount_of_work, k as int);
            lemma_forest_total_take_le(roots@, amount_of_work, k as int + 1);
            lemma_tree_total_nonneg(roots@[k as int], amount_of_work);
            lemma_forest_total_nonneg(roots@.take(k as int), amount_of_work);
        }
        let tree_sum = seq_compute_node(&roots[k], amount_of_work);
        sum = sum + tree_sum;
        k = k + 1;
    }
    proof {
        lemma_take_all(roots@);
    }
    sum
}

/// Relies on `orx_parallel::par_recursive`: every initial element and every
/// element the extend callback yields is handed to `map` exactly once, and
/// the mapped values are summed. The extend callback yields each node's
/// children, and tree ownership means no node is anyone else's child twice,
/// so the values summed are the per-tree sums of the whole forest. The sum
/// fits in 64 bits because the total does.
#[verifier::external_body]
fn par_forest_sum(roots: &[Node], amount_of_work: u64, chunk: usize) -> (r: u64)
    requires
        forest_in_range(roots@, amount_of_work),
        forest_total(roots@, amount_of_work) <= u64::MAX,
    ensures
        r == forest_total(roots@, amount_of_work),
{
    par_recursive(roots.iter(), |node: &&Node| node.children.iter())
        .chunk_size(chunk)
        .map(|node: &Node| node_values_sum(node, amount_of_work))
        .sum()
}

/// The forest total computed through the work-stealing recursive parallel
/// iterator, with automatic chunking.
pub fn par_reduce(roots: &[Node], amount_of_work: u64) -> (r: u64)
    requires
        forest_in_range(roots@, amount_of_work),
        forest_total(roots@, amount_of_work) <= u64::MAX,
    ensures
        r == forest_total(roots@, amount_of_work),
{
    par_forest_sum(roots, amount_of_work, 0)
}

/// The forest total computed through the recursive parallel iterator with a
/// fixed chunk size.
pub fn par_reduce_chunked(roots: &[Node], amount_of_work: u64, chunk_size: usize) -> (r: u64)
    requires
        forest_in_range(roots@, amount_of_work),
        forest_total(roots@, amount_of_work) <= u64::MAX,
    ensures
        r == forest_total(roots@, amount_of_work),
{
    par_forest_sum(roots, amount_of_work, chunk_size)
}

} // verus!
