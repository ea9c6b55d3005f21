//! The visitation trackers: per-node two-phase claim state (`loaded`,
//! `processed`) guaranteeing that each node enters the frontier at most once
//! and is computed at most once. State is monotone: a flag set once is never
//! cleared.

use vstd::prelude::*;

verus! {

use crate::graph::Node;

/// How many of the first `n` flags of `s` are set.
pub open spec fn count_trues_upto(s: Seq<bool>, n: int) -> int
    decreases n,
{
    if n <= 0 {
        0
    } else {
        count_trues_upto(s, n - 1) + if s[n - 1] {
            1int
        } else {
            0int
        }
    }
}

/// How many flags of `s` are set.
pub open spec fn count_trues(s: Seq<bool>) -> int {
    count_trues_upto(s, s.len() as int)
}

/// Counting is monotone in the prefix length.
pub proof fn lemma_count_trues_upto_bounds(s: Seq<bool>, n: int)
    requires
        0 <= n <= s.len(),
    ensures
        0 <= count_trues_upto(s, n) <= n,
    decreases n,
{
    if n > 0 {
        lemma_count_trues_upto_bounds(s, n - 1);
    }
}

/// Setting a clear flag raises the count by one; prefixes before the flag
/// are unaffected.
pub proof fn lemma_count_trues_upto_update(s: Seq<bool>, i: int, n: int)
    requires
        0 <= i < s.len(),
        0 <= n <= s.len(),
        !s[i],
    ensures
        count_trues_upto(s.update(i, true), n) == count_trues_upto(s, n) + if i < n {
            1int
        } else {
            0int
        },
    decreases n,
{
    if n > 0 {
        lemma_count_trues_upto_update(s, i, n - 1);
    }
}

/// Setting a clear flag raises the total count by one.
pub proof fn lemma_count_trues_update(s: Seq<bool>, i: int)
    requires
        0 <= i < s.len(),
        !s[i],
    ensures
        count_trues(s.update(i, true)) == count_trues(s) + 1,
{
    lemma_count_trues_upto_update(s, i, s.len() as int);
}

/// The tracker used by the parallel driver. Claims are single-winner: of all
/// callers racing to claim a node, exactly one sees `true`. In this verified
/// core the flags are plain booleans behind `&mut self`; a concurrent front
/// end drives the identical state machine through one atomic flag per entry.
pub struct NodeStatusPar {
    loaded: Vec<bool>,
    processed: Vec<bool>,
}

impl NodeStatusPar {
    /// The per-node `loaded` flags: whether the node has entered the frontier.
    pub closed spec fn loaded_view(self) -> Seq<bool> {
        self.loaded@
    }

    /// The per-node `processed` flags: whether the node's compute-and-expand
    /// step has been claimed.
    pub closed spec fn processed_view(self) -> Seq<bool> {
        self.processed@
    }

    /// Builds a tracker for `len` nodes with the roots pre-marked as loaded,
    /// so a root reached again as a child cannot re-enter the frontier.
    pub fn new(len: usize, roots: &[&Node]) -> (r: NodeStatusPar)
        ensures
            r.loaded_view().len() == len,
            r.processed_view().len() == len,
            forall|i: int|
                0 <= i < len ==> (r.loaded_view()[i] <==> exists|k: int|
                    0 <= k < roots@.len() && (#[trigger] roots@[k]).id == i),
            forall|i: int| 0 <= i < len ==> !r.processed_view()[i],
    {
        let loaded = roots_mask(len, roots);
        let mut processed: Vec<bool> = Vec::new();
        let mut i: usize = 0;
        while i < len
            invariant
                i <= len,
                processed@.len() == i,
                forall|j: int| 0 <= j < i ==> !processed@[j],
            decreases len - i,
        {
            processed.push(false);
            i = i + 1;
        }
        NodeStatusPar { loaded, processed }
    }

    /// Claims the compute-and-expand step for a node. Returns `true` exactly
    /// once per node over all calls; the flag only ever goes up.
    pub fn start_processing(&mut self, node: &Node) -> (r: bool)
        requires
            node.id < old(self).processed_view().len(),
        ensures
            r == !old(self).processed_view()[node.id as int],
            final(self).processed_view() == old(self).processed_view().update(
                node.id as int,
                true,
            ),
            final(self).loaded_view() == old(self).loaded_view(),
    {
        let id = node.id;
        if self.processed[id] {
            proof {
                assert(self.processed@.update(id as int, true) =~= self.processed@);
            }
            false
        } else {
            self.processed.set(id, true);
            true
        }
    }

    /// Claims frontier entry for a candidate child. Returns `true` exactly
    /// when the node is neither processed nor already loaded; only then is
    /// the `loaded` flag raised, and only then may the caller schedule the
    /// node.
    pub fn load_child(&mut self, node: &Node) -> (r: bool)
        requires
            node.id < old(self).loaded_view().len(),
            node.id < old(self).processed_view().len(),
        ensures
            r == (!old(self).processed_view()[node.id as int] && !old(self).loaded_view()[node.id as int]),
            final(self).processed_view() == old(self).processed_view(),
            final(self).loaded_view() == if r {
                old(self).loaded_view().update(node.id as int, true)
            } else {
                old(self).loaded_view()
            },
    {
        let id = node.id;
        if self.processed[id] {
            false
        } else if self.loaded[id] {
            false
        } else {
            self.loaded.set(id, true);
            true
        }
    }

    /// A snapshot of how many nodes have been claimed for processing.
    pub fn num_processed(&self) -> (r: usize)
        ensures
            r == count_trues(self.processed_view()),
    {
        count_set_flags(&self.processed)
    }
}

/// The tracker used by the sequential driver: the same claim discipline over
/// the same two flag arrays, without any concurrency.
pub struct NodeStatusSeq {
    loaded: Vec<bool>,
    processed: Vec<bool>,
}

impl NodeStatusSeq {
    /// The per-node `loaded` flags: whether the node has entered the frontier.
    pub closed spec fn loaded_view(self) -> Seq<bool> {
        self.loaded@
    }

    /// The per-node `processed` flags: whether the node's compute-and-expand
    /// step has run.
    pub closed spec fn processed_view(self) -> Seq<bool> {
        self.processed@
    }

    /// Builds a tracker for `len` nodes with the roots pre-marked as loaded.
    pub fn new(len: usize, roots: &[&Node]) -> (r: NodeStatusSeq)
        ensures
            r.loaded_view().len() == len,
            r.processed_view().len() == len,
            forall|i: int|
                0 <= i < len ==> (r.loaded_view()[i] <==> exists|k: int|
                    0 <= k < roots@.len() && (#[trigger] roots@[k]).id == i),
            forall|i: int| 0 <= i < len ==> !r.processed_view()[i],
    {
        let loaded = roots_mask(len, roots);
        let mut processed: Vec<bool> = Vec::new();
        let mut i: usize = 0;
        while i < len
            invariant
                i <= len,
                processed@.len() == i,
                forall|j: int| 0 <= j < i ==> !processed@[j],
            decreases len - i,
        {
            processed.push(false);
            i = i + 1;
        }
        NodeStatusSeq { loaded, processed }
    }

    /// Claims the compute-and-expand step for a node: `true` exactly when the
    /// node was not yet processed, after which it is marked processed.
    pub fn start_processing(&mut self, node: &Node) -> (r: bool)
        requires
            node.id < old(self).processed_view().len(),
        ensures
            r == !old(self).processed_view()[node.id as int],
            final(self).processed_view() == old(self).processed_view().update(
                node.id as int,
                true,
            ),
            final(self).loaded_view() == old(self).loaded_view(),
    {
        let id = node.id;
        if self.processed[id] {
            proof {
                assert(self.processed@.update(id as int, true) =~= self.processed@);
            }
            false
        } else {
            self.processed.set(id, true);
            true
        }
    }

    /// Claims frontier entry for a candidate child: `true` exactly when the
    /// child is neither processed nor already loaded; only then is its
    /// `loaded` flag raised.
    pub fn load_child(&mut self, child: &Node) -> (r: bool)
        requires
            child.id < old(self).loaded_view().len(),
            child.id < old(self).processed_view().len(),
        ensures
            r == (!old(self).processed_view()[child.id as int] && !old(self).loaded_view()[child.id as int]),
            final(self).processed_view() == old(self).processed_view(),
            final(self).loaded_view() == if r {
                old(self).loaded_view().update(child.id as int, true)
            } else {
                old(self).loaded_view()
            },
    {
        let id = child.id;
        if self.processed[id] {
            false
        } else if self.loaded[id] {
            false
        } else {
            self.loaded.set(id, true);
            true
        }
    }

    /// How many nodes have been processed.
    pub fn num_processed(&self) -> (r: usize)
        ensures
            r == count_trues(self.processed_view()),
    {
        count_set_flags(&self.processed)
    }
}

/// Builds the initial `loaded` mask: flag `i` is set exactly when some root
/// has id `i`.
fn roots_mask(len: usize, roots: &[&Node]) -> (r: Vec<bool>)
    ensures
        r@.len() == len,
        forall|i: int|
            0 <= i < len ==> (r@[i] <==> exists|k: int|
                0 <= k < roots@.len() && (#[trigger] roots@[k]).id == i),
{
    let mut v: Vec<bool> = Vec::new();
    let mut i: usize = 0;
    while i < len
        invariant
            i <= len,
            v@.len() == i,
            forall|j: int|
                0 <= j < i ==> (v@[j] <==> exists|k: int|
                    0 <= k < roots@.len() && (#[trigger] roots@[k]).id == j),
        decreases len - i,
    {
        v.push(any_root_has_id(roots, i));
        i = i + 1;
    }
    v
}

/// Checks whether any root carries the id `idx`.
fn any_root_has_id(roots: &[&Node], idx: usize) -> (r: bool)
    ensures
        r == exists|k: int| 0 <= k < roots@.len() && (#[trigger] roots@[k]).id == idx,
{
    let mut k: usize = 0;
    while k < roots.len()
        invariant
            k <= roots@.len(),
            forall|m: int| 0 <= m < k ==> (#[trigger] roots@[m]).id != idx,
        decreases roots@.len() - k,
    {
        if roots[k].id == idx {
            return true;
        }
        k = k + 1;
    }
    false
}

/// Counts the set flags of a boolean vector.
fn count_set_flags(v: &Vec<bool>) -> (r: usize)
    ensures
        r == count_trues(v@),
{
    let mut cnt: usize = 0;
    let mut i: usize = 0;
    while i < v.len()
        invariant
            i <= v@.len(),
            cnt == count_trues_upto(v@, i as int),
            cnt <= i,
        decreases v@.len() - i,
    {
        proof {
            lemma_count_trues_upto_bounds(v@, i as int);
        }
        if v[i] {
            cnt = cnt + 1;
        }
        i = i + 1;
    }
    cnt
}

} // verus!
