//! The traversal driver: starting from a set of roots, repeatedly claim a
//! node, resolve and claim its children into the frontier, compute the node's
//! value, and fold all values into one aggregate. Every node reachable from
//! the roots is processed exactly once, so the aggregate and the processed
//! count are functions of the graph and the root set alone, whatever order
//! the frontier is drained in.

use vstd::prelude::*;

verus! {

use crate::graph::{lemma_resolve_props, Node, NodesStorage, resolve, resolves};
use crate::reach::{
    edge, lemma_closed_covers_reachable, lemma_masked_sum_update, lemma_masked_sum_upto_false,
    lemma_reachable_step, lemma_root_reachable, masked_sum, reach_count, reach_mask, reach_sum,
    reachable, root_ids,
};
use crate::status::{
    count_trues, lemma_count_trues_update, lemma_count_trues_upto_bounds, NodeStatusPar, NodeStatusSeq,
};
use crate::tasks::{task_items, TaskList};

/// Every root is a node of the pool, under its own id.
pub open spec fn valid_roots(g: Seq<Node>, roots: Seq<&Node>) -> bool {
    forall|k: int|
        0 <= k < roots.len() ==> (#[trigger] roots[k]).id < g.len() && *roots[k] == g[(
        roots[k].id as int)]
}

/// Every node's compute step stays within the 64-bit Fibonacci index range.
pub open spec fn all_compute_in_range(g: Seq<Node>, work: u64) -> bool {
    forall|i: int| 0 <= i < g.len() ==> (#[trigger] g[i]).compute_in_range(work)
}

/// Every task id is in range and marked loaded.
pub open spec fn tasks_wf(g: Seq<Node>, items: Seq<usize>, loaded: Seq<bool>) -> bool {
    forall|m: int|
        0 <= m < items.len() ==> (#[trigger] items[m]) < g.len() && loaded[items[m] as int]
}

/// Every loaded node appears in the task list: nothing claimed into the
/// frontier is ever left unscheduled.
pub open spec fn loaded_in_tasks(items: Seq<usize>, loaded: Seq<bool>) -> bool {
    forall|j: int|
        0 <= j < loaded.len() && #[trigger] loaded[j] ==> exists|m: int|
            0 <= m < items.len() && (#[trigger] items[m]) as int == j
}

/// Every loaded node is reachable from the roots: nothing unreachable ever
/// enters the frontier.
pub open spec fn loaded_reachable(g: Seq<Node>, rids: Seq<int>, loaded: Seq<bool>) -> bool {
    forall|j: int| 0 <= j < loaded.len() && #[trigger] loaded[j] ==> reachable(g, rids, j)
}

/// Every processed node is loaded: processing claims only frontier members.
pub open spec fn processed_loaded(processed: Seq<bool>, loaded: Seq<bool>) -> bool {
    forall|j: int| 0 <= j < processed.len() && #[trigger] processed[j] ==> loaded[j]
}

/// Every child of a processed node is loaded: a processed node's expansion
/// has run to completion.
pub open spec fn processed_children_loaded(
    g: Seq<Node>,
    processed: Seq<bool>,
    loaded: Seq<bool>,
) -> bool {
    forall|j: int, k: int|
        0 <= j < g.len() && processed[j] && 0 <= k < g[j].symbols_out@.len() ==> 0 <= resolve(
            g,
            (#[trigger] g[j].symbols_out@[k])@,
        ) < g.len() && loaded[resolve(g, (g[j].symbols_out@[k])@)]
}

/// The claim-and-expand step for one freshly claimed node: resolve each
/// outgoing symbol reference, claim the child into the frontier, and append
/// every newly claimed child to the task list.
#[verifier::loop_isolation(false)]
fn expand_children(
    storage: &NodesStorage,
    status: &mut NodeStatusSeq,
    tasks: &mut TaskList,
    node: &Node,
    Ghost(rids): Ghost<Seq<int>>,
)
    requires
        storage.wf(),
        old(status).loaded_view().len() == storage.all_nodes@.len(),
        old(status).processed_view().len() == storage.all_nodes@.len(),
        node.id < storage.all_nodes@.len(),
        *node == storage.all_nodes@[node.id as int],
        reachable(storage.all_nodes@, rids, node.id as int),
        tasks_wf(storage.all_nodes@, task_items(*old(tasks)), old(status).loaded_view()),
        loaded_in_tasks(task_items(*old(tasks)), old(status).loaded_view()),
        loaded_reachable(storage.all_nodes@, rids, old(status).loaded_view()),
        processed_loaded(old(status).processed_view(), old(status).loaded_view()),
    ensures
        final(status).processed_view() == old(status).processed_view(),
        final(status).loaded_view().len() == storage.all_nodes@.len(),
        forall|j: int|
            0 <= j < storage.all_nodes@.len() && old(status).loaded_view()[j] ==> final(status).loaded_view()[j],
        forall|k: int|
            0 <= k < node.symbols_out@.len() ==> 0 <= resolve(
                storage.all_nodes@,
                (#[trigger] node.symbols_out@[k])@,
            ) < storage.all_nodes@.len() && final(status).loaded_view()[resolve(
                storage.all_nodes@,
                (node.symbols_out@[k])@,
            )],
        tasks_wf(storage.all_nodes@, task_items(*final(tasks)), final(status).loaded_view()),
        loaded_in_tasks(task_items(*final(tasks)), final(status).loaded_view()),
        loaded_reachable(storage.all_nodes@, rids, final(status).loaded_view()),
        task_items(*final(tasks)).len() >= task_items(*old(tasks)).len(),
        forall|m: int|
            0 <= m < task_items(*old(tasks)).len() ==> task_items(*final(tasks))[m] == task_items(
                *old(tasks),
            )[m],
        task_items(*final(tasks)).len() + count_trues(old(status).loaded_view()) == task_items(
            *old(tasks),
        ).len() + count_trues(final(status).loaded_view()),
{
    let g = &storage.all_nodes;
    let ghost gs = storage.all_nodes@;
    let mut k: usize = 0;
    while k < node.symbols_out.len()
        invariant
            storage.wf(),
            gs == storage.all_nodes@,
            node.id < gs.len(),
            *node == gs[node.id as int],
            reachable(gs, rids, node.id as int),
            k <= node.symbols_out@.len(),
            status.loaded_view().len() == gs.len(),
            status.processed_view() == old(status).processed_view(),
            status.processed_view().len() == gs.len(),
            forall|j: int|
                0 <= j < gs.len() && old(status).loaded_view()[j] ==> status.loaded_view()[j],
            forall|m: int|
                0 <= m < k ==> 0 <= resolve(gs, (#[trigger] node.symbols_out@[m])@) < gs.len()
                    && status.loaded_view()[resolve(gs, (node.symbols_out@[m])@)],
            tasks_wf(gs, task_items(*tasks), status.loaded_view()),
            loaded_in_tasks(task_items(*tasks), status.loaded_view()),
            loaded_reachable(gs, rids, status.loaded_view()),
            processed_loaded(status.processed_view(), status.loaded_view()),
            task_items(*tasks).len() >= task_items(*old(tasks)).len(),
            forall|m: int|
                0 <= m < task_items(*old(tasks)).len() ==> task_items(*tasks)[m] == task_items(
                    *old(tasks),
                )[m],
            task_items(*tasks).len() + count_trues(old(status).loaded_view()) == task_items(
                *old(tasks),
            ).len() + count_trues(status.loaded_view()),
        decreases node.symbols_out@.len() - k,
    {
        let sym = &node.symbols_out[k];
        proof {
            // the graph is well formed, so this reference resolves in range
            assert(sym@ == (gs[node.id as int].symbols_out@[k as int])@);
            assert(resolves(gs, (gs[node.id as int].symbols_out@[k as int])@));
            lemma_resolve_props(gs, sym@, 0);
        }
        let child = storage.get_relevant_node(sym);
        let ghost l_before = status.loaded_view();
        let ghost t_before = task_items(*tasks);
        proof {
            // ids are dense, so the child's id is the index it resolves to
            assert(gs[resolve(gs, sym@) as int].id == resolve(gs, sym@));
            assert(child.id as int == resolve(gs, sym@));
        }
        if status.load_child(child) {
            proof {
                // the child is reached over an edge from a reachable node
                assert(resolve(gs, (gs[node.id as int].symbols_out@[k as int])@) == child.id as int);
                assert(edge(gs, node.id as int, child.id as int));
                lemma_reachable_step(gs, rids, node.id as int, child.id as int);
                lemma_count_trues_update(l_before, child.id as int);
            }
            tasks.push(child.id);
            proof {
                let t_now = task_items(*tasks);
                let l_now = status.loaded_view();
                assert forall|j: int| 0 <= j < l_now.len() && #[trigger] l_now[j] implies exists|
                    m: int,
                |
                    0 <= m < t_now.len() && (#[trigger] t_now[m]) as int == j by {
                    if j == child.id as int {
                        assert(t_now[t_now.len() - 1] as int == j);
                    } else {
                        let m = choose|m: int|
                            0 <= m < t_before.len() && (#[trigger] t_before[m]) as int == j;
                        assert(t_now[m] as int == j);
                    }
                }
            }
        }
        proof {
            // whether or not the claim won, the child is loaded now: a lost
            // claim means the child was already loaded or already processed
            assert(status.loaded_view()[child.id as int]);
            assert(0 <= resolve(gs, (node.symbols_out@[k as int])@) < gs.len());
            assert(status.loaded_view()[resolve(gs, (node.symbols_out@[k as int])@)]);
        }
        k = k + 1;
    }
}

/// Traverses the graph from `roots` with an explicit growable task list,
/// draining it by index from the front while appending newly discovered
/// children at the back. Returns the aggregate of the computed values and
/// the number of processed nodes: exactly the reachable nodes, each counted
/// once, however many times a node is reached or passed as a root.
#[verifier::loop_isolation(false)]
#[verifier::rlimit(100)]
pub fn sequential(storage: &NodesStorage, roots: &[&Node], amount_of_work: u64) -> (r: (
    u64,
    usize,
))
    requires
        storage.wf(),
        valid_roots(storage.all_nodes@, roots@),
        all_compute_in_range(storage.all_nodes@, amount_of_work),
        roots@.len() + storage.all_nodes@.len() <= usize::MAX,
    ensures
        r.0 == reach_sum(storage.all_nodes@, root_ids(roots@), amount_of_work),
        r.1 == reach_count(storage.all_nodes@, root_ids(roots@)),
{
    let g = &storage.all_nodes;
    let ghost gs = storage.all_nodes@;
    let ghost rids = root_ids(roots@);
    let len = g.len();

    let mut status = NodeStatusSeq::new(len, roots);

    let mut ids: Vec<usize> = Vec::new();
    let mut k: usize = 0;
    while k < roots.len()
        invariant
            k <= roots@.len(),
            ids@.len() == k,
            forall|m: int| 0 <= m < k ==> ids@[m] == (#[trigger] roots@[m]).id,
        decreases roots@.len() - k,
    {
        ids.push(roots[k].id);
        k = k + 1;
    }
    let mut tasks = TaskList::from_ids(&ids);

    proof {
        lemma_count_trues_upto_bounds(status.loaded_view(), gs.len() as int);
        lemma_masked_sum_upto_false(gs, status.processed_view(), amount_of_work, gs.len() as int);
        let t0 = task_items(tasks);
        let l0 = status.loaded_view();
        assert forall|m: int| 0 <= m < t0.len() implies (#[trigger] t0[m]) < gs.len() && l0[(
        t0[m] as int)] by {
            assert(t0[m] == roots@[m].id);
            assert(roots@[m].id < gs.len());
        }
        assert forall|j: int| 0 <= j < l0.len() && #[trigger] l0[j] implies exists|m: int|
            0 <= m < t0.len() && (#[trigger] t0[m]) as int == j by {
            let q = choose|q: int| 0 <= q < roots@.len() && (#[trigger] roots@[q]).id == j;
            assert(t0[q] as int == j);
        }
        assert forall|j: int| 0 <= j < l0.len() && #[trigger] l0[j] implies reachable(
            gs,
            rids,
            j,
        ) by {
            let q = choose|q: int| 0 <= q < roots@.len() && (#[trigger] roots@[q]).id == j;
            assert(rids[q] == j);
            assert(rids.contains(j));
            lemma_root_reachable(gs, rids, j);
        }
        assert forall|r0: int| #[trigger] rids.contains(r0) implies 0 <= r0 < gs.len() && l0[r0] by {
            let q = choose|q: int| 0 <= q < rids.len() && rids[q] == r0;
            assert(roots@[q].id as int == r0);
        }
    }

    let mut sum: u64 = 0;
    let mut i: usize = 0;

    while i < tasks.len()
        invariant
            storage.wf(),
            gs == storage.all_nodes@,
            rids == root_ids(roots@),
            valid_roots(gs, roots@),
            all_compute_in_range(gs, amount_of_work),
            roots@.len() + gs.len() <= usize::MAX,
            len == gs.len(),
            status.loaded_view().len() == gs.len(),
            status.processed_view().len() == gs.len(),
            i as int <= task_items(tasks).len(),
            task_items(tasks).len() <= roots@.len() + count_trues(status.loaded_view()),
            count_trues(status.loaded_view()) <= gs.len(),
            tasks_wf(gs, task_items(tasks), status.loaded_view()),
            loaded_in_tasks(task_items(tasks), status.loaded_view()),
            loaded_reachable(gs, rids, status.loaded_view()),
            processed_loaded(status.processed_view(), status.loaded_view()),
            processed_children_loaded(gs, status.processed_view(), status.loaded_view()),
            forall|m: int|
                0 <= m < i ==> status.processed_view()[(#[trigger] task_items(tasks)[m]) as int],
            forall|r0: int|
                #[trigger] rids.contains(r0) ==> 0 <= r0 < gs.len() && status.loaded_view()[r0],
            sum == masked_sum(gs, status.processed_view(), amount_of_work),
        decreases roots@.len() + gs.len() - i,
    {
        let got = tasks.get(i);
        let id: usize = match got {
            Some(v) => v,
            None => {
                // the index is in bounds, so the lookup cannot miss
                proof {
                    assert(false);
                }
                0
            },
        };
        proof {
            assert(task_items(tasks)[i as int] == id);
            assert(id < gs.len());
        }
        let node = &g[id];
        proof {
            // ids are dense, so the node at index `id` carries id `id`
            assert(gs[id as int].id == id);
        }
        let ghost p_before = status.processed_view();
        let ghost l_before = status.loaded_view();
        let ghost t_before = task_items(tasks);
        if status.start_processing(node) {
            proof {
                assert(l_before[id as int]);
                assert(reachable(gs, rids, id as int));
            }
            expand_children(storage, &mut status, &mut tasks, node, Ghost(rids));
            let value = node.compute(amount_of_work);
            sum = sum.wrapping_add(value);
            proof {
                let pv = status.processed_view();
                let lv = status.loaded_view();
                let t_now = task_items(tasks);
                lemma_masked_sum_update(gs, p_before, amount_of_work, id as int);
                lemma_count_trues_upto_bounds(lv, gs.len() as int);
                // the freshly processed node's children are all loaded now
                assert forall|kk: int| 0 <= kk < gs[id as int].symbols_out@.len() implies 0
                    <= resolve(gs, (#[trigger] gs[id as int].symbols_out@[kk])@) < gs.len() && lv[
                    resolve(gs, (gs[id as int].symbols_out@[kk])@)] by {
                    assert(gs[id as int].symbols_out@[kk] == node.symbols_out@[kk]);
                    assert(0 <= resolve(gs, (node.symbols_out@[kk])@) < gs.len());
                    assert(lv[resolve(gs, (node.symbols_out@[kk])@)]);
                }
                // children of every processed node stay loaded: the old ones
                // by monotonicity, the new node by its own expansion
                assert forall|j: int, kk: int|
                    0 <= j < gs.len() && pv[j] && 0 <= kk < gs[j].symbols_out@.len() implies 0
                    <= resolve(gs, (#[trigger] gs[j].symbols_out@[kk])@) < gs.len() && lv[resolve(
                    gs,
                    (gs[j].symbols_out@[kk])@,
                )] by {
                    if j != id as int {
                        assert(p_before[j]);
                        assert(0 <= resolve(gs, (gs[j].symbols_out@[kk])@) < gs.len());
                        assert(l_before[resolve(gs, (gs[j].symbols_out@[kk])@)]);
                    }
                }
                // every processed node is still loaded
                assert forall|j: int| 0 <= j < gs.len() && #[trigger] pv[j] implies lv[j] by {
                    if j != id as int {
                        assert(p_before[j]);
                        assert(l_before[j]);
                    } else {
                        assert(l_before[j]);
                    }
                }
                // the drained prefix, one longer now, is fully processed
                assert forall|m: int| 0 <= m < i + 1 implies pv[(#[trigger] t_now[m]) as int] by {
                    assert(t_now[m] == t_before[m]);
                    if m < i {
                        assert(p_before[t_before[m] as int]);
                    }
                }
            }
        } else {
            proof {
                // the node had already been claimed: nothing changes
                assert(p_before[id as int]);
                assert(status.processed_view() =~= p_before);
            }
        }
        i = i + 1;
    }

    proof {
        let t = task_items(tasks);
        let lv = status.loaded_view();
        let pv = status.processed_view();
        assert(i as int == t.len());
        // at exit the loaded and processed sets coincide: every loaded node
        // sits somewhere in the fully drained task list
        assert forall|j: int| 0 <= j < gs.len() implies (lv[j] <==> pv[j]) by {
            if lv[j] {
                let m = choose|m: int| 0 <= m < t.len() && (#[trigger] t[m]) as int == j;
                assert(pv[t[m] as int]);
            }
        }
        lemma_processed_is_reach_mask(gs, rids, lv, pv);
    }

    let count = status.num_processed();
    (sum, count)
}

/// When a traversal has drained its frontier — the loaded and processed sets
/// coincide, every processed node's children are loaded, everything loaded is
/// reachable and every root is loaded — the processed set is exactly the set
/// of reachable nodes.
proof fn lemma_processed_is_reach_mask(
    g: Seq<Node>,
    rids: Seq<int>,
    loaded: Seq<bool>,
    processed: Seq<bool>,
)
    requires
        loaded.len() == g.len(),
        processed.len() == g.len(),
        forall|j: int| 0 <= j < g.len() ==> (loaded[j] <==> processed[j]),
        processed_children_loaded(g, processed, loaded),
        loaded_reachable(g, rids, loaded),
        forall|r0: int| #[trigger] rids.contains(r0) ==> 0 <= r0 < g.len() && loaded[r0],
    ensures
        processed == reach_mask(g, rids),
{
    // the loaded set is closed under edges
    assert forall|i2: int, j2: int|
        0 <= i2 < g.len() && loaded[i2] && #[trigger] edge(g, i2, j2) && 0 <= j2
            < g.len() implies loaded[j2] by {
        assert(processed[i2]);
        let kk = choose|kk: int|
            0 <= kk < g[i2].symbols_out@.len() && resolve(
                g,
                (#[trigger] g[i2].symbols_out@[kk])@,
            ) == j2;
        assert(loaded[resolve(g, (g[i2].symbols_out@[kk])@)]);
    }
    // hence processed is exactly the reachable mask
    assert forall|j: int| 0 <= j < g.len() implies processed[j] == reach_mask(g, rids)[j] by {
        if processed[j] {
            assert(loaded[j]);
            assert(reachable(g, rids, j));
        }
        if reach_mask(g, rids)[j] {
            lemma_closed_covers_reachable(g, rids, loaded, j);
        }
    }
    assert(processed =~= reach_mask(g, rids));
}


/// The claim-and-expand step of the materializing driver: like
/// `expand_children`, but newly claimed children are appended to a plain
/// vector serving as the frontier stack.
#[verifier::loop_isolation(false)]
fn expand_children_vec(
    storage: &NodesStorage,
    status: &mut NodeStatusPar,
    frontier: &mut Vec<usize>,
    node: &Node,
    Ghost(rids): Ghost<Seq<int>>,
)
    requires
        storage.wf(),
        old(status).loaded_view().len() == storage.all_nodes@.len(),
        old(status).processed_view().len() == storage.all_nodes@.len(),
        node.id < storage.all_nodes@.len(),
        *node == storage.all_nodes@[node.id as int],
        reachable(storage.all_nodes@, rids, node.id as int),
        forall|m: int|
            0 <= m < old(frontier)@.len() ==> (#[trigger] old(frontier)@[m]) < storage.all_nodes@.len()
                && old(status).loaded_view()[old(frontier)@[m] as int],
        loaded_reachable(storage.all_nodes@, rids, old(status).loaded_view()),
        processed_loaded(old(status).processed_view(), old(status).loaded_view()),
    ensures
        final(status).processed_view() == old(status).processed_view(),
        final(status).loaded_view().len() == storage.all_nodes@.len(),
        forall|j: int|
            0 <= j < storage.all_nodes@.len() && old(status).loaded_view()[j] ==> final(status).loaded_view()[j],
        forall|k: int|
            0 <= k < node.symbols_out@.len() ==> 0 <= resolve(
                storage.all_nodes@,
                (#[trigger] node.symbols_out@[k])@,
            ) < storage.all_nodes@.len() && final(status).loaded_view()[resolve(
                storage.all_nodes@,
                (node.symbols_out@[k])@,
            )],
        forall|m: int|
            0 <= m < final(frontier)@.len() ==> (#[trigger] final(frontier)@[m])
                < storage.all_nodes@.len() && final(status).loaded_view()[final(frontier)@[m] as int],
        loaded_reachable(storage.all_nodes@, rids, final(status).loaded_view()),
        final(frontier)@.len() >= old(frontier)@.len(),
        forall|m: int|
            0 <= m < old(frontier)@.len() ==> (#[trigger] final(frontier)@[m]) == old(frontier)@[m],
        forall|j: int|
            0 <= j < storage.all_nodes@.len() && final(status).loaded_view()[j] && !old(status).loaded_view()[j] ==> exists|m: int|
                old(frontier)@.len() <= m < final(frontier)@.len() && (#[trigger] final(frontier)@[m]) as int == j,
{
    let g = &storage.all_nodes;
    let ghost gs = storage.all_nodes@;
    let mut k: usize = 0;
    while k < node.symbols_out.len()
        invariant
            k <= node.symbols_out@.len(),
            status.loaded_view().len() == gs.len(),
            status.processed_view() == old(status).processed_view(),
            status.processed_view().len() == gs.len(),
            forall|j: int|
                0 <= j < gs.len() && old(status).loaded_view()[j] ==> status.loaded_view()[j],
            forall|m: int|
                0 <= m < k ==> 0 <= resolve(gs, (#[trigger] node.symbols_out@[m])@) < gs.len()
                    && status.loaded_view()[resolve(gs, (node.symbols_out@[m])@)],
            forall|m: int|
                0 <= m < frontier@.len() ==> (#[trigger] frontier@[m]) < gs.len()
                    && status.loaded_view()[frontier@[m] as int],
            loaded_reachable(gs, rids, status.loaded_view()),
            processed_loaded(status.processed_view(), status.loaded_view()),
            frontier@.len() >= old(frontier)@.len(),
            forall|m: int|
                0 <= m < old(frontier)@.len() ==> (#[trigger] frontier@[m]) == old(frontier)@[m],
            forall|j: int|
                0 <= j < gs.len() && status.loaded_view()[j] && !old(status).loaded_view()[j]
                    ==> exists|m: int|
                    old(frontier)@.len() <= m < frontier@.len() && (#[trigger] frontier@[m]) as int
                        == j,
        decreases node.symbols_out@.len() - k,
    {
        let sym = &node.symbols_out[k];
        proof {
            // the graph is well formed, so this reference resolves in range
            assert(sym@ == (gs[node.id as int].symbols_out@[k as int])@);
            assert(resolves(gs, (gs[node.id as int].symbols_out@[k as int])@));
            lemma_resolve_props(gs, sym@, 0);
        }
        let child = storage.get_relevant_node(sym);
        let ghost l_before = status.loaded_view();
        let ghost f_before = frontier@;
        proof {
            // ids are dense, so the child's id is the index it resolves to
            assert(gs[resolve(gs, sym@) as int].id == resolve(gs, sym@));
            assert(child.id as int == resolve(gs, sym@));
        }
        if status.load_child(child) {
            proof {
                // the child is reached over an edge from a reachable node
                assert(resolve(gs, (gs[node.id as int].symbols_out@[k as int])@) == child.id as int);
                assert(edge(gs, node.id as int, child.id as int));
                lemma_reachable_step(gs, rids, node.id as int, child.id as int);
            }
            frontier.push(child.id);
            proof {
                let f_now = frontier@;
                let l_now = status.loaded_view();
                assert forall|j: int|
                    0 <= j < gs.len() && l_now[j] && !old(status).loaded_view()[j] implies exists|
                    m: int,
                |
                    old(frontier)@.len() <= m < f_now.len() && (#[trigger] f_now[m]) as int
                        == j by {
                    if j == child.id as int {
                        assert(f_now[f_now.len() - 1] as int == j);
                    } else {
                        assert(l_before[j]);
                        let m = choose|m: int|
                            old(frontier)@.len() <= m < f_before.len() && (#[trigger] f_before[m]) as int == j;
                        assert(f_now[m] as int == j);
                    }
                }
            }
        }
        proof {
            // whether or not the claim won, the child is loaded now
            assert(status.loaded_view()[child.id as int]);
            assert(0 <= resolve(gs, (node.symbols_out@[k as int])@) < gs.len());
            assert(status.loaded_view()[resolve(gs, (node.symbols_out@[k as int])@)]);
        }
        k = k + 1;
    }
}


/// Traverses the graph from `roots` by first materializing the full set of
/// reachable nodes — draining the frontier from the back, the opposite order
/// from `sequential` — and only computing and reducing the values afterwards.
/// The contract is identical to `sequential`'s: neither the aggregate nor the
/// count depends on the drain order or on when values are computed.
#[verifier::loop_isolation(false)]
#[verifier::rlimit(100)]
pub fn traverse(storage: &NodesStorage, roots: &[&Node], amount_of_work: u64) -> (r: (
    u64,
    usize,
))
    requires
        storage.wf(),
        valid_roots(storage.all_nodes@, roots@),
        all_compute_in_range(storage.all_nodes@, amount_of_work),
        roots@.len() + storage.all_nodes@.len() <= usize::MAX,
    ensures
        r.0 == reach_sum(storage.all_nodes@, root_ids(roots@), amount_of_work),
        r.1 == reach_count(storage.all_nodes@, root_ids(roots@)),
{
    let g = &storage.all_nodes;
    let ghost gs = storage.all_nodes@;
    let ghost rids = root_ids(roots@);
    let len = g.len();

    let mut status = NodeStatusPar::new(len, roots);

    let mut frontier: Vec<usize> = Vec::new();
    let mut k: usize = 0;
    while k < roots.len()
        invariant
            k <= roots@.len(),
            frontier@.len() == k,
            forall|m: int| 0 <= m < k ==> frontier@[m] == (#[trigger] roots@[m]).id,
        decreases roots@.len() - k,
    {
        frontier.push(roots[k].id);
        k = k + 1;
    }

    proof {
        let f0 = frontier@;
        let l0 = status.loaded_view();
        assert forall|m: int| 0 <= m < f0.len() implies (#[trigger] f0[m]) < gs.len() && l0[(
        f0[m] as int)] by {
            assert(f0[m] == roots@[m].id);
            assert(roots@[m].id < gs.len());
        }
        assert forall|j: int| 0 <= j < gs.len() && l0[j] implies status.processed_view()[j]
            || exists|m: int| 0 <= m < f0.len() && (#[trigger] f0[m]) as int == j by {
            let q = choose|q: int| 0 <= q < roots@.len() && (#[trigger] roots@[q]).id == j;
            assert(f0[q] as int == j);
        }
        assert forall|j: int| 0 <= j < l0.len() && #[trigger] l0[j] implies reachable(
            gs,
            rids,
            j,
        ) by {
            let q = choose|q: int| 0 <= q < roots@.len() && (#[trigger] roots@[q]).id == j;
            assert(rids[q] == j);
            assert(rids.contains(j));
            lemma_root_reachable(gs, rids, j);
        }
        assert forall|r0: int| #[trigger] rids.contains(r0) implies 0 <= r0 < gs.len() && l0[r0] by {
            let q = choose|q: int| 0 <= q < rids.len() && rids[q] == r0;
            assert(roots@[q].id as int == r0);
        }
        lemma_count_trues_upto_bounds(status.processed_view(), gs.len() as int);
    }

    let mut materialized: Vec<usize> = Vec::new();

    while frontier.len() > 0
        invariant
            status.loaded_view().len() == gs.len(),
            status.processed_view().len() == gs.len(),
            count_trues(status.processed_view()) <= gs.len(),
            forall|m: int|
                0 <= m < frontier@.len() ==> (#[trigger] frontier@[m]) < gs.len()
                    && status.loaded_view()[frontier@[m] as int],
            forall|j: int|
                0 <= j < gs.len() && status.loaded_view()[j] ==> status.processed_view()[j]
                    || exists|m: int|
                    0 <= m < frontier@.len() && (#[trigger] frontier@[m]) as int == j,
            loaded_reachable(gs, rids, status.loaded_view()),
            processed_loaded(status.processed_view(), status.loaded_view()),
            processed_children_loaded(gs, status.processed_view(), status.loaded_view()),
            forall|r0: int|
                #[trigger] rids.contains(r0) ==> 0 <= r0 < gs.len() && status.loaded_view()[r0],
            forall|m: int|
                0 <= m < materialized@.len() ==> (#[trigger] materialized@[m]) < gs.len()
                    && status.processed_view()[materialized@[m] as int],
            forall|m1: int, m2: int|
                0 <= m1 < m2 < materialized@.len() ==> (#[trigger] materialized@[m1]) != (
                #[trigger] materialized@[m2]),
            forall|j: int|
                0 <= j < gs.len() && status.processed_view()[j] ==> exists|m: int|
                    0 <= m < materialized@.len() && (#[trigger] materialized@[m]) as int == j,
        decreases gs.len() - count_trues(status.processed_view()), frontier@.len(),
    {
        let ghost f_full = frontier@;
        let id: usize = match frontier.pop() {
            Some(v) => v,
            None => {
                // the loop condition rules the empty case out
                proof {
                    assert(false);
                }
                0
            },
        };
        proof {
            assert(id == f_full[f_full.len() - 1]);
            assert(frontier@ == f_full.drop_last());
            assert(id < gs.len());
        }
        let node = &g[id];
        proof {
            // ids are dense, so the node at index `id` carries id `id`
            assert(gs[id as int].id == id);
        }
        let ghost p_before = status.processed_view();
        let ghost l_before = status.loaded_view();
        let ghost mat_before = materialized@;
        let ghost f_popped = frontier@;
        if status.start_processing(node) {
            materialized.push(id);
            proof {
                assert(l_before[id as int]);
                assert(reachable(gs, rids, id as int));
                lemma_count_trues_update(p_before, id as int);
                lemma_count_trues_upto_bounds(status.processed_view(), gs.len() as int);
                // the new entry was unprocessed, so it repeats no older entry
                assert forall|m1: int, m2: int|
                    0 <= m1 < m2 < materialized@.len() implies (#[trigger] materialized@[m1]) != (
                #[trigger] materialized@[m2]) by {
                    if m2 == materialized@.len() - 1 {
                        assert(p_before[mat_before[m1] as int]);
                    }
                }
                assert forall|j: int|
                    0 <= j < gs.len() && status.processed_view()[j] implies exists|m: int|
                        0 <= m < materialized@.len() && (#[trigger] materialized@[m]) as int
                            == j by {
                    if j == id as int {
                        assert(materialized@[materialized@.len() - 1] as int == j);
                    } else {
                        let m = choose|m: int|
                            0 <= m < mat_before.len() && (#[trigger] mat_before[m]) as int == j;
                        assert(materialized@[m] as int == j);
                    }
                }
            }
            let ghost f_entry = frontier@;
            let ghost l_entry = status.loaded_view();
            expand_children_vec(storage, &mut status, &mut frontier, node, Ghost(rids));
            proof {
                let pv = status.processed_view();
                let lv = status.loaded_view();
                let fv = frontier@;
                // children of every processed node are loaded: old nodes by
                // monotonicity, the fresh node by its own expansion
                assert forall|j: int, kk: int|
                    0 <= j < gs.len() && pv[j] && 0 <= kk < gs[j].symbols_out@.len() implies 0
                    <= resolve(gs, (#[trigger] gs[j].symbols_out@[kk])@) < gs.len() && lv[resolve(
                    gs,
                    (gs[j].symbols_out@[kk])@,
                )] by {
                    if j == id as int {
                        assert(gs[id as int].symbols_out@[kk] == node.symbols_out@[kk]);
                        assert(0 <= resolve(gs, (node.symbols_out@[kk])@) < gs.len());
                        assert(lv[resolve(gs, (node.symbols_out@[kk])@)]);
                    } else {
                        assert(p_before[j]);
                        assert(0 <= resolve(gs, (gs[j].symbols_out@[kk])@) < gs.len());
                        assert(l_before[resolve(gs, (gs[j].symbols_out@[kk])@)]);
                    }
                }
                // everything loaded is processed or still on the frontier
                assert forall|j: int|
                    0 <= j < gs.len() && lv[j] implies pv[j] || exists|m: int|
                        0 <= m < fv.len() && (#[trigger] fv[m]) as int == j by {
                    if l_entry[j] {
                        if !p_before[j] && j != id as int {
                            let m = choose|m: int|
                                0 <= m < f_full.len() && (#[trigger] f_full[m]) as int == j;
                            if m < f_full.len() - 1 {
                                assert(fv[m] as int == j);
                            } else {
                                assert(false);
                            }
                        }
                    } else {
                        let m = choose|m: int|
                            f_entry.len() <= m < fv.len() && (#[trigger] fv[m]) as int == j;
                        assert(fv[m] as int == j);
                    }
                }
            }
        } else {
            proof {
                assert(p_before[id as int]);
                assert(status.processed_view() =~= p_before);
                // a node popped while already processed leaves everything as
                // it was, with one fewer frontier entry
                assert forall|j: int|
                    0 <= j < gs.len() && status.loaded_view()[j] implies status.processed_view()[j]
                        || exists|m: int|
                        0 <= m < frontier@.len() && (#[trigger] frontier@[m]) as int == j by {
                    if !status.processed_view()[j] {
                        let m = choose|m: int|
                            0 <= m < f_full.len() && (#[trigger] f_full[m]) as int == j;
                        if m < f_full.len() - 1 {
                            assert(frontier@[m] as int == j);
                        } else {
                            assert(false);
                        }
                    }
                }
            }
        }
    }

    proof {
        let lv = status.loaded_view();
        let pv = status.processed_view();
        // the frontier is empty, so loaded and processed coincide
        assert forall|j: int| 0 <= j < gs.len() implies (lv[j] <==> pv[j]) by {}
        lemma_processed_is_reach_mask(gs, rids, lv, pv);
        lemma_masked_sum_upto_false(gs, Seq::new(gs.len(), |j: int| false), amount_of_work, gs.len() as int);
    }

    // reduction phase: fold the values of the materialized nodes
    let ghost total = status.processed_view();
    let ghost mut seen: Seq<bool> = Seq::new(gs.len(), |j: int| false);
    let mut sum: u64 = 0;
    let mut m: usize = 0;
    while m < materialized.len()
        invariant
            m <= materialized@.len(),
            seen.len() == gs.len(),
            forall|j: int|
                0 <= j < gs.len() ==> (seen[j] <==> exists|m2: int|
                    0 <= m2 < m && (#[trigger] materialized@[m2]) as int == j),
            sum == masked_sum(gs, seen, amount_of_work),
        decreases materialized@.len() - m,
    {
        let id = materialized[m];
        proof {
            assert(total[id as int]);
            assert(gs[id as int].id == id);
        }
        let node = &g[id];
        let value = node.compute(amount_of_work);
        let ghost seen_before = seen;
        proof {
            // entries are pairwise distinct, so this one is not seen yet
            assert(!seen_before[id as int]);
            lemma_masked_sum_update(gs, seen_before, amount_of_work, id as int);
            seen = seen_before.update(id as int, true);
        }
        sum = sum.wrapping_add(value);
        m = m + 1;
        proof {
            assert forall|j: int| 0 <= j < gs.len() implies (seen[j] <==> exists|m2: int|
                0 <= m2 < m && (#[trigger] materialized@[m2]) as int == j) by {
                if j == id as int {
                    assert(materialized@[m - 1] as int == j);
                } else {
                    if seen_before[j] {
                        let m2 = choose|m2: int|
                            0 <= m2 < m - 1 && (#[trigger] materialized@[m2]) as int == j;
                        assert(materialized@[m2] as int == j);
                    }
                }
            }
        }
    }

    proof {
        // after the fold, the seen set is exactly the processed set
        assert forall|j: int| 0 <= j < gs.len() implies (seen[j] <==> total[j]) by {
            if seen[j] {
                let m2 = choose|m2: int|
                    0 <= m2 < materialized@.len() && (#[trigger] materialized@[m2]) as int == j;
                assert(total[materialized@[m2] as int]);
            }
        }
        assert(seen =~= total);
    }

    let count = status.num_processed();
    (sum, count)
}

} // verus!
