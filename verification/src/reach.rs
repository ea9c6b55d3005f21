//! The mathematical model the traversal contracts are stated over: edges
//! discovered through symbol resolution, reachability from a root set, and
//! the aggregate as a masked wrapping sum over the node pool in id order.

use vstd::prelude::*;

verus! {

use vstd::wrapping::u64_specs;
use crate::graph::{Node, resolve};
use crate::status::count_trues;

/// An edge from node `i` to node `j`: some outgoing symbol reference of `i`
/// resolves to `j`.
pub open spec fn edge(g: Seq<Node>, i: int, j: int) -> bool {
    exists|k: int|
        0 <= k < g[i].symbols_out@.len() && resolve(g, (#[trigger] g[i].symbols_out@[k])@) == j
}

/// A non-empty sequence of in-range node indices connected by edges.
pub open spec fn is_path(g: Seq<Node>, p: Seq<int>) -> bool {
    &&& p.len() >= 1
    &&& forall|m: int| 0 <= m < p.len() ==> 0 <= #[trigger] p[m] < g.len()
    &&& forall|m: int| 0 <= m < p.len() - 1 ==> #[trigger] edge(g, p[m], p[m + 1])
}

/// Node `j` is reachable from the root ids `rids`: some path starts at a
/// root and ends at `j`.
pub open spec fn reachable(g: Seq<Node>, rids: Seq<int>, j: int) -> bool {
    exists|p: Seq<int>| #[trigger] is_path(g, p) && rids.contains(p[0]) && p.last() == j
}

/// The ids of a sequence of root nodes.
pub open spec fn root_ids(roots: Seq<&Node>) -> Seq<int> {
    roots.map_values(|n: &Node| n.id as int)
}

/// An in-range root is reachable, by the one-node path.
pub proof fn lemma_root_reachable(g: Seq<Node>, rids: Seq<int>, r: int)
    requires
        rids.contains(r),
        0 <= r < g.len(),
    ensures
        reachable(g, rids, r),
{
    let p = seq![r];
    assert(is_path(g, p));
    assert(p.last() == r);
}

/// Reachability extends along an edge.
pub proof fn lemma_reachable_step(g: Seq<Node>, rids: Seq<int>, i: int, j: int)
    requires
        reachable(g, rids, i),
        edge(g, i, j),
        0 <= j < g.len(),
    ensures
        reachable(g, rids, j),
{
    let p = choose|p: Seq<int>| is_path(g, p) && rids.contains(p[0]) && p.last() == i;
    let q = p.push(j);
    assert forall|m: int| 0 <= m < q.len() - 1 implies #[trigger] edge(g, q[m], q[m + 1]) by {
        if m < p.len() - 1 {
            assert(q[m] == p[m] && q[m + 1] == p[m + 1]);
        } else {
            assert(q[m] == p.last() && q[m + 1] == j);
        }
    }
    assert(is_path(g, q));
    assert(q[0] == p[0]);
    assert(q.last() == j);
}

/// Walking a path whose start is inside a closed mask keeps every step, and
/// in particular the end, inside the mask.
proof fn lemma_path_in_closed(g: Seq<Node>, mask: Seq<bool>, p: Seq<int>)
    requires
        mask.len() == g.len(),
        is_path(g, p),
        mask[p[0]],
        forall|i: int, j: int|
            0 <= i < g.len() && mask[i] && #[trigger] edge(g, i, j) && 0 <= j < g.len() ==> mask[j],
    ensures
        mask[p.last()],
    decreases p.len(),
{
    if p.len() > 1 {
        let q = p.drop_last();
        assert(is_path(g, q));
        lemma_path_in_closed(g, mask, q);
        let m = p.len() - 2;
        assert(edge(g, p[m], p[m + 1]));
        assert(q.last() == p[m]);
    }
}

/// A mask that covers every in-range root and is closed under edges covers
/// every reachable node.
pub proof fn lemma_closed_covers_reachable(g: Seq<Node>, rids: Seq<int>, mask: Seq<bool>, j: int)
    requires
        mask.len() == g.len(),
        forall|r: int| rids.contains(r) && 0 <= r < g.len() ==> mask[r],
        forall|i: int, j2: int|
            0 <= i < g.len() && mask[i] && #[trigger] edge(g, i, j2) && 0 <= j2 < g.len()
                ==> mask[j2],
        reachable(g, rids, j),
    ensures
        0 <= j < g.len() && mask[j],
{
    let p = choose|p: Seq<int>| #[trigger] is_path(g, p) && rids.contains(p[0]) && p.last() == j;
    lemma_path_in_closed(g, mask, p);
}

/// The wrapping sum of the contributions of the masked nodes among the
/// first `n`, in id order.
pub open spec fn masked_sum_upto(g: Seq<Node>, mask: Seq<bool>, work: u64, n: int) -> u64
    decreases n,
{
    if n <= 0 {
        0
    } else {
        let rest = masked_sum_upto(g, mask, work, n - 1);
        if mask[n - 1] {
            u64_specs::wrapping_add(rest, g[n - 1].compute_spec(work))
        } else {
            rest
        }
    }
}

/// The wrapping sum of the contributions of all masked nodes.
pub open spec fn masked_sum(g: Seq<Node>, mask: Seq<bool>, work: u64) -> u64 {
    masked_sum_upto(g, mask, work, g.len() as int)
}

/// Wrapping addition tolerates exchanging the last two addends.
proof fn lemma_wadd_exchange(a: u64, x: u64, b: u64)
    ensures
        u64_specs::wrapping_add(u64_specs::wrapping_add(a, x), b) == u64_specs::wrapping_add(
            u64_specs::wrapping_add(a, b),
            x,
        ),
{
}

/// Raising one clear mask flag adds exactly that node's contribution to the
/// masked sum.
pub proof fn lemma_masked_sum_upto_update(
    g: Seq<Node>,
    mask: Seq<bool>,
    work: u64,
    i: int,
    n: int,
)
    requires
        0 <= i < mask.len(),
        mask.len() == g.len(),
        !mask[i],
        0 <= n <= g.len(),
    ensures
        masked_sum_upto(g, mask.update(i, true), work, n) == if i < n {
            u64_specs::wrapping_add(masked_sum_upto(g, mask, work, n), g[i].compute_spec(work))
        } else {
            masked_sum_upto(g, mask, work, n)
        },
    decreases n,
{
    let upd = mask.update(i, true);
    if n > 0 {
        lemma_masked_sum_upto_update(g, mask, work, i, n - 1);
        if i < n - 1 && upd[n - 1] {
            lemma_wadd_exchange(
                masked_sum_upto(g, mask, work, n - 1),
                g[i].compute_spec(work),
                g[n - 1].compute_spec(work),
            );
        }
    }
}

/// Raising one clear mask flag adds exactly that node's contribution.
pub proof fn lemma_masked_sum_update(g: Seq<Node>, mask: Seq<bool>, work: u64, i: int)
    requires
        0 <= i < mask.len(),
        mask.len() == g.len(),
        !mask[i],
    ensures
        masked_sum(g, mask.update(i, true), work) == u64_specs::wrapping_add(
            masked_sum(g, mask, work),
            g[i].compute_spec(work),
        ),
{
    lemma_masked_sum_upto_update(g, mask, work, i, g.len() as int);
}

/// A mask with no flag set among the first `n` contributes nothing.
pub proof fn lemma_masked_sum_upto_false(g: Seq<Node>, mask: Seq<bool>, work: u64, n: int)
    requires
        forall|j: int| 0 <= j < n ==> !mask[j],
    ensures
        masked_sum_upto(g, mask, work, n) == 0,
    decreases n,
{
    if n > 0 {
        lemma_masked_sum_upto_false(g, mask, work, n - 1);
    }
}

/// The mask of reachable nodes.
pub open spec fn reach_mask(g: Seq<Node>, rids: Seq<int>) -> Seq<bool> {
    Seq::new(g.len(), |i: int| reachable(g, rids, i))
}

/// The aggregate of a traversal: the wrapping sum, in id order, of the
/// contributions of exactly the reachable nodes.
pub open spec fn reach_sum(g: Seq<Node>, rids: Seq<int>, work: u64) -> u64 {
    masked_sum(g, reach_mask(g, rids), work)
}

/// The number of nodes a traversal processes: the number of reachable nodes.
pub open spec fn reach_count(g: Seq<Node>, rids: Seq<int>) -> int {
    count_trues(reach_mask(g, rids))
}


/// Passing a root that is already in the root set a second time changes
/// nothing: the same nodes are reachable, and the traversal aggregate and
/// count are unchanged.
pub proof fn lemma_duplicate_root(g: Seq<Node>, rids: Seq<int>, r: int, work: u64)
    requires
        rids.contains(r),
    ensures
        forall|j: int| reachable(g, rids.push(r), j) == reachable(g, rids, j),
        reach_sum(g, rids.push(r), work) == reach_sum(g, rids, work),
        reach_count(g, rids.push(r)) == reach_count(g, rids),
{
    let rids2 = rids.push(r);
    assert forall|j: int| reachable(g, rids2, j) == reachable(g, rids, j) by {
        if reachable(g, rids2, j) {
            let p = choose|p: Seq<int>| #[trigger] is_path(g, p) && rids2.contains(p[0])
                && p.last() == j;
            let q = choose|q: int| 0 <= q < rids2.len() && rids2[q] == p[0];
            if q < rids.len() {
                assert(rids[q] == p[0]);
                assert(rids.contains(p[0]));
            } else {
                assert(p[0] == r);
            }
            assert(is_path(g, p) && rids.contains(p[0]) && p.last() == j);
        }
        if reachable(g, rids, j) {
            let p = choose|p: Seq<int>| #[trigger] is_path(g, p) && rids.contains(p[0])
                && p.last() == j;
            let q = choose|q: int| 0 <= q < rids.len() && rids[q] == p[0];
            assert(rids2[q] == p[0]);
            assert(rids2.contains(p[0]));
            assert(is_path(g, p) && rids2.contains(p[0]) && p.last() == j);
        }
    }
    assert(reach_mask(g, rids2) =~= reach_mask(g, rids));
}

/// A node that is not reachable from the roots is isolated from the
/// traversal: it lies outside the processed mask, and clearing its slot in
/// the mask alters neither the aggregate nor the count.
pub proof fn lemma_unreachable_isolated(g: Seq<Node>, rids: Seq<int>, j: int, work: u64)
    requires
        0 <= j < g.len(),
        !reachable(g, rids, j),
    ensures
        !reach_mask(g, rids)[j],
        reach_sum(g, rids, work) == masked_sum(g, reach_mask(g, rids).update(j, false), work),
        reach_count(g, rids) == count_trues(reach_mask(g, rids).update(j, false)),
{
    assert(reach_mask(g, rids).update(j, false) =~= reach_mask(g, rids));
}

} // verus!
