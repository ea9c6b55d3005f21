//! The mutating traversal over the tree workload: every node's result slot
//! is filled with the workload values of its own entries, node by node, each
//! slot written exactly once.

use vstd::prelude::*;

verus! {

use crate::compute::{compute_spec, compute_value};
use crate::tree::{forest_in_range, tree_in_range, values_in_range, Node};

/// `out` is `inp` with every result slot of every node filled: values and
/// shape unchanged, `fib_n` holding the workload value of each entry.
pub open spec fn is_filled_of(out: Node, inp: Node, work: u64) -> bool
    decreases inp,
{
    &&& out.value@ == inp.value@
    &&& out.fib_n@ == Seq::new(inp.value@.len(), |i: int| compute_spec(inp.value@[i], work))
    &&& out.children@.len() == inp.children@.len()
    &&& forall|i: int|
        0 <= i < inp.children@.len() ==> is_filled_of(
            out.children@[i],
            #[trigger] inp.children@[i],
            work,
        )
}

/// Fills the result slot of this node and of all its descendants.
#[verifier::loop_isolation(false)]
pub fn seq_compute_node(node: Node, amount_of_work: u64) -> (r: Node)
    requires
        tree_in_range(node, amount_of_work),
    ensures
        is_filled_of(r, node, amount_of_work),
    decreases node,
{
    let Node { value, children, fib_n: _ } = node;
    let mut fib: Vec<u64> = Vec::new();
    let mut k: usize = 0;
    while k < value.len()
        invariant
            k <= value@.len(),
            value@ == node.value@,
            values_in_range(value@, amount_of_work),
            fib@.len() == k,
            forall|i: int| 0 <= i < k ==> fib@[i] == compute_spec(value@[i], amount_of_work),
        decreases value@.len() - k,
    {
        let v = compute_value(value[k], amount_of_work);
        fib.push(v);
        k = k + 1;
    }
    proof {
        assert(fib@ =~= Seq::new(node.value@.len(), |i: int| compute_spec(node.value@[i], amount_of_work)));
    }

    let mut rest = children;
    let mut new_children: Vec<Node> = Vec::new();
    while rest.len() > 0
        invariant
            rest@ == node.children@.skip(new_children@.len() as int),
            new_children@.len() <= node.children@.len(),
            forest_in_range(node.children@, amount_of_work),
            forall|i: int|
                0 <= i < new_children@.len() ==> is_filled_of(
                    new_children@[i],
                    #[trigger] node.children@[i],
                    amount_of_work,
                ),
        decreases rest@.len(),
    {
        let ghost done = new_children@.len() as int;
        let c = rest.remove(0);
        proof {
            assert(c == node.children@[done]);
            assert(rest@ =~= node.children@.skip(done + 1));
            assert(decreases_to!(node => c));
        }
        let filled = seq_compute_node(c, amount_of_work);
        new_children.push(filled);
    }

    Node { value, children: new_children, fib_n: fib }
}

/// Fills the result slots of every node of the forest.
#[verifier::loop_isolation(false)]
pub fn sequential(roots: Vec<Node>, amount_of_work: u64) -> (r: Vec<Node>)
    requires
        forest_in_range(roots@, amount_of_work),
    ensures
        r@.len() == roots@.len(),
        forall|i: int|
            0 <= i < roots@.len() ==> is_filled_of(r@[i], #[trigger] roots@[i], amount_of_work),
{
    let mut rest = roots;
    let ghost orig = rest@;
    let mut out: Vec<Node> = Vec::new();
    while rest.len() > 0
        invariant
            rest@ == orig.skip(out@.len() as int),
            out@.len() <= orig.len(),
            orig == roots@,
            forest_in_range(orig, amount_of_work),
            forall|i: int|
                0 <= i < out@.len() ==> is_filled_of(out@[i], #[trigger] orig[i], amount_of_work),
        decreases rest@.len(),
    {
        let ghost done = out@.len() as int;
        let c = rest.remove(0);
        proof {
            assert(c == orig[done]);
            assert(rest@ =~= orig.skip(done + 1));
        }
        let filled = seq_compute_node(c, amount_of_work);
        out.push(filled);
    }
    out
}

} // verus!
