//! The tree workload: nodes with pre-allocated children, each carrying a
//! vector of values. Every value contributes a Fibonacci workload; a
//! traversal of the tree reduces all contributions into one sum.

use vstd::prelude::*;

verus! {

use crate::compute::{compute_spec, compute_value};

/// A tree node: its own values, its children, and a result slot filled by
/// the mutating traversals.
#[derive(Debug)]
pub struct Node {
    pub value: Vec<u64>,
    pub children: Vec<Node>,
    pub fib_n: Vec<u64>,
}

/// The number of nodes of a tree.
pub open spec fn tree_count(n: Node) -> int
    decreases n,
{
    1 + forest_count(n.children@)
}

/// The number of nodes of a forest.
pub open spec fn forest_count(s: Seq<Node>) -> int
    decreases s,
{
    if s.len() == 0 {
        0
    } else {
        forest_count(s.drop_last()) + tree_count(s.last())
    }
}

/// The sum of the contributions of one node's own values, as an unbounded
/// integer.
pub open spec fn values_total(vals: Seq<u64>, work: u64) -> int
    decreases vals,
{
    if vals.len() == 0 {
        0
    } else {
        values_total(vals.drop_last(), work) + compute_spec(vals.last(), work)
    }
}

/// The sum of the contributions of all values of a tree.
pub open spec fn tree_total(n: Node, work: u64) -> int
    decreases n,
{
    values_total(n.value@, work) + forest_total(n.children@, work)
}

/// The sum of the contributions of all values of a forest.
pub open spec fn forest_total(s: Seq<Node>, work: u64) -> int
    decreases s,
{
    if s.len() == 0 {
        0
    } else {
        forest_total(s.drop_last(), work) + tree_total(s.last(), work)
    }
}

/// Every value of the sequence can run the compute step without its
/// Fibonacci index leaving the 64-bit range.
pub open spec fn values_in_range(vals: Seq<u64>, work: u64) -> bool {
    forall|i: int| 0 <= i < vals.len() ==> (#[trigger] vals[i]) + work <= u64::MAX
}

/// Every value of the tree can run the compute step.
pub open spec fn tree_in_range(n: Node, work: u64) -> bool
    decreases n,
{
    &&& values_in_range(n.value@, work)
    &&& forest_in_range(n.children@, work)
}

/// Every value of the forest can run the compute step.
pub open spec fn forest_in_range(s: Seq<Node>, work: u64) -> bool
    decreases s,
{
    forall|i: int| 0 <= i < s.len() ==> tree_in_range(#[trigger] s[i], work)
}

/// A tree holds at least one node: itself.
pub proof fn lemma_tree_count_pos(n: Node)
    ensures
        tree_count(n) >= 1,
    decreases n,
{
    lemma_forest_count_nonneg(n.children@);
}

/// A forest holds no negative number of nodes.
pub proof fn lemma_forest_count_nonneg(s: Seq<Node>)
    ensures
        forest_count(s) >= 0,
    decreases s,
{
    if s.len() > 0 {
        lemma_forest_count_nonneg(s.drop_last());
        lemma_tree_count_pos(s.last());
    }
}

/// A value total is a sum of unsigned contributions.
pub proof fn lemma_values_total_nonneg(vals: Seq<u64>, work: u64)
    ensures
        values_total(vals, work) >= 0,
    decreases vals,
{
    if vals.len() > 0 {
        lemma_values_total_nonneg(vals.drop_last(), work);
    }
}

/// A tree total is a sum of unsigned contributions.
pub proof fn lemma_tree_total_nonneg(n: Node, work: u64)
    ensures
        tree_total(n, work) >= 0,
    decreases n,
{
    lemma_values_total_nonneg(n.value@, work);
    lemma_forest_total_nonneg(n.children@, work);
}

/// A forest total is a sum of unsigned contributions.
pub proof fn lemma_forest_total_nonneg(s: Seq<Node>, work: u64)
    ensures
        forest_total(s, work) >= 0,
    decreases s,
{
    if s.len() > 0 {
        lemma_forest_total_nonneg(s.drop_last(), work);
        lemma_tree_total_nonneg(s.last(), work);
    }
}

/// One more prefix element adds exactly that element's count.
pub proof fn lemma_forest_count_take_step(s: Seq<Node>, k: int)
    requires
        0 <= k < s.len(),
    ensures
        forest_count(s.take(k + 1)) == forest_count(s.take(k)) + tree_count(s[k]),
{
    assert(s.take(k + 1).drop_last() =~= s.take(k));
    assert(s.take(k + 1).last() == s[k]);
}

/// The whole sequence is its own full prefix.
pub proof fn lemma_take_all<T>(s: Seq<T>)
    ensures
        s.take(s.len() as int) =~= s,
{
}

/// One more prefix element adds exactly that element's total.
pub proof fn lemma_forest_total_take_step(s: Seq<Node>, work: u64, k: int)
    requires
        0 <= k < s.len(),
    ensures
        forest_total(s.take(k + 1), work) == forest_total(s.take(k), work) + tree_total(s[k], work),
{
    assert(s.take(k + 1).drop_last() =~= s.take(k));
    assert(s.take(k + 1).last() == s[k]);
}

/// One more prefix element adds exactly that element's contribution.
pub proof fn lemma_values_total_take_step(vals: Seq<u64>, work: u64, k: int)
    requires
        0 <= k < vals.len(),
    ensures
        values_total(vals.take(k + 1), work) == values_total(vals.take(k), work) + compute_spec(
            vals[k],
            work,
        ),
{
    assert(vals.take(k + 1).drop_last() =~= vals.take(k));
    assert(vals.take(k + 1).last() == vals[k]);
}

/// A prefix of a forest never counts more nodes than the whole forest.
pub proof fn lemma_forest_count_take_le(s: Seq<Node>, k: int)
    requires
        0 <= k <= s.len(),
    ensures
        forest_count(s.take(k)) <= forest_count(s),
    decreases s.len() - k,
{
    if k < s.len() {
        lemma_forest_count_take_step(s, k);
        lemma_tree_count_pos(s[k]);
        lemma_forest_count_take_le(s, k + 1);
    } else {
        lemma_take_all(s);
    }
}

/// A prefix of a forest never contributes more than the whole forest.
pub proof fn lemma_forest_total_take_le(s: Seq<Node>, work: u64, k: int)
    requires
        0 <= k <= s.len(),
    ensures
        forest_total(s.take(k), work) <= forest_total(s, work),
    decreases s.len() - k,
{
    if k < s.len() {
        lemma_forest_total_take_step(s, work, k);
        lemma_tree_total_nonneg(s[k], work);
        lemma_forest_total_take_le(s, work, k + 1);
    } else {
        lemma_take_all(s);
    }
}

/// A prefix of a value list never contributes more than the whole list.
pub proof fn lemma_values_total_take_le(vals: Seq<u64>, work: u64, k: int)
    requires
        0 <= k <= vals.len(),
    ensures
        values_total(vals.take(k), work) <= values_total(vals, work),
    decreases vals.len() - k,
{
    if k < vals.len() {
        lemma_values_total_take_step(vals, work, k);
        lemma_values_total_take_le(vals, work, k + 1);
    } else {
        lemma_take_all(vals);
    }
}

impl Node {
    /// The number of nodes of the tree rooted here, itself included.
    #[verifier::loop_isolation(false)]
    pub fn num_nodes(&self) -> (r: usize)
        requires
            tree_count(*self) <= usize::MAX,
        ensures
            r == tree_count(*self),
        decreases *self,
    {
        let mut total: usize = 1;
        let mut k: usize = 0;
        proof {
            assert(self.children@.take(0) =~= Seq::<Node>::empty());
        }
        while k < self.children.len()
            invariant
                k <= self.children@.len(),
                total == 1 + forest_count(self.children@.take(k as int)),
            decreases self.children@.len() - k,
        {
            proof {
                lemma_forest_count_take_step(self.children@, k as int);
                lemma_forest_count_take_le(self.children@, k as int + 1);
                lemma_tree_count_pos(self.children@[k as int]);
                lemma_forest_count_nonneg(self.children@.take(k as int));
            }
            let child_count = self.children[k].num_nodes();
            total = total + child_count;
            k = k + 1;
        }
        proof {
            lemma_take_all(self.children@);
        }
        total
    }

    /// The Fibonacci workload of a single value, repeated `amount_of_work`
    /// times under wrapping 64-bit arithmetic.
    pub fn compute(value: u64, amount_of_work: u64) -> (r: u64)
        requires
            value + amount_of_work <= u64::MAX,
        ensures
            r == compute_spec(value, amount_of_work),
    {
        compute_value(value, amount_of_work)
    }

    /// The workload of one value under an externally drawn choice: the full
    /// value when the draw says so, half of it otherwise. The caller draws
    /// the boolean — typically at random — and whatever was drawn, the
    /// result is exactly one of the two workloads.
    pub fn compute_using_mut_var(value: u64, amount_of_work: u64, use_full: bool) -> (r: u64)
        requires
            value + amount_of_work <= u64::MAX,
        ensures
            r == if use_full {
                compute_spec(value, amount_of_work)
            } else {
                compute_spec(value / 2, amount_of_work)
            },
    {
        if use_full {
            Node::compute(value, amount_of_work)
        } else {
            Node::compute(value / 2, amount_of_work)
        }
    }
}

} // verus!
