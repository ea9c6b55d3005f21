//! The collecting variant of the tree workload: instead of folding the
//! computed values into a sum, gather them into one vector — a node's own
//! values followed by those of its direct children.

use vstd::prelude::*;

verus! {

use crate::compute::{compute_spec, compute_value};
use crate::tree::{forest_in_range, values_in_range, Node};

/// The computed value of every entry of `vals`, in order.
pub open spec fn computed_values(vals: Seq<u64>, work: u64) -> Seq<u64> {
    Seq::new(vals.len(), |i: int| compute_spec(vals[i], work))
}

/// The computed values of the own entries of each node of `s`, concatenated.
pub open spec fn children_values(s: Seq<Node>, work: u64) -> Seq<u64>
    decreases s,
{
    if s.len() == 0 {
        Seq::empty()
    } else {
        children_values(s.drop_last(), work) + computed_values(s.last().value@, work)
    }
}

/// What one node contributes to the collection: its own computed values,
/// then those of its direct children.
pub open spec fn collected_of(n: Node, work: u64) -> Seq<u64> {
    computed_values(n.value@, work) + children_values(n.children@, work)
}

/// One more prefix node appends exactly that node's computed values.
pub proof fn lemma_children_values_take_step(s: Seq<Node>, work: u64, k: int)
    requires
        0 <= k < s.len(),
    ensures
        children_values(s.take(k + 1), work) == children_values(s.take(k), work) + computed_values(
            s[k].value@,
            work,
        ),
{
    assert(s.take(k + 1).drop_last() =~= s.take(k));
    assert(s.take(k + 1).last() == s[k]);
}

/// Appends the computed values of `vals` to `collected`.
#[verifier::loop_isolation(false)]
fn push_computed_values(collected: &mut Vec<u64>, vals: &Vec<u64>, work: u64)
    requires
        values_in_range(vals@, work),
    ensures
        final(collected)@ == old(collected)@ + computed_values(vals@, work),
{
    let mut k: usize = 0;
    proof {
        assert(collected@ =~= old(collected)@ + computed_values(vals@.take(0), work));
    }
    while k < vals.len()
        invariant
            k <= vals@.len(),
            collected@ == old(collected)@ + computed_values(vals@.take(k as int), work),
        decreases vals@.len() - k,
    {
        let v = compute_value(vals[k], work);
        collected.push(v);
        proof {
            assert(collected@ =~= old(collected)@ + computed_values(
                vals@.take(k as int + 1),
                work,
            ));
        }
        k = k + 1;
    }
    proof {
        assert(vals@.take(vals@.len() as int) =~= vals@);
    }
}

/// Appends what one node contributes: its own computed values, then the
/// computed values of each direct child.
#[verifier::loop_isolation(false)]
pub fn seq_compute_node(node: &Node, collected: &mut Vec<u64>, amount_of_work: u64)
    requires
        values_in_range(node.value@, amount_of_work),
        forest_in_range(node.children@, amount_of_work),
    ensures
        final(collected)@ == old(collected)@ + collected_of(*node, amount_of_work),
{
    push_computed_values(collected, &node.value, amount_of_work);
    let kids = &node.children;
    let mut k: usize = 0;
    proof {
        assert(collected@ =~= old(collected)@ + computed_values(node.value@, amount_of_work)
            + children_values(kids@.take(0), amount_of_work));
    }
    while k < kids.len()
        invariant
            k <= kids@.len(),
            collected@ == old(collected)@ + computed_values(node.value@, amount_of_work)
                + children_values(kids@.take(k as int), amount_of_work),
        decreases kids@.len() - k,
    {
        push_computed_values(collected, &kids[k].value, amount_of_work);
        proof {
            lemma_children_values_take_step(kids@, amount_of_work, k as int);
            assert(collected@ =~= old(collected)@ + computed_values(
                node.value@,
                amount_of_work,
            ) + children_values(kids@.take(k as int + 1), amount_of_work));
        }
        k = k + 1;
    }
    proof {
        assert(kids@.take(kids@.len() as int) =~= kids@);
    }
}

/// What the whole forest contributes, root by root.
pub open spec fn forest_collected(s: Seq<Node>, work: u64) -> Seq<u64>
    decreases s,
{
    if s.len() == 0 {
        Seq::empty()
    } else {
        forest_collected(s.drop_last(), work) + collected_of(s.last(), work)
    }
}

/// Collects the computed values of every root and of each root's direct
/// children into one vector.
#[verifier::loop_isolation(false)]
pub fn sequential(roots: &[Node], amount_of_work: u64) -> (r: Vec<u64>)
    requires
        forall|i: int|
            0 <= i < roots@.len() ==> values_in_range((#[trigger] roots@[i]).value@, amount_of_work)
                && forest_in_range(roots@[i].children@, amount_of_work),
    ensures
        r@ == forest_collected(roots@, amount_of_work),
{
    let mut collected: Vec<u64> = Vec::new();
    let mut k: usize = 0;
    proof {
        assert(collected@ =~= forest_collected(roots@.take(0), amount_of_work));
    }
    while k < roots.len()
        invariant
            k <= roots@.len(),
            collected@ == forest_collected(roots@.take(k as int), amount_of_work),
        decreases roots@.len() - k,
    {
        seq_compute_node(&roots[k], &mut collected, amount_of_work);
        proof {
            assert(roots@.take(k as int + 1).drop_last() =~= roots@.take(k as int));
            assert(roots@.take(k as int + 1).last() == roots@[k as int]);
        }
        k = k + 1;
    }
    proof {
        assert(roots@.take(roots@.len() as int) =~= roots@);
    }
    collected
}

} // verus!
