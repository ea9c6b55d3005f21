//! The graph store: an immutable pool of nodes, each exposing a set of
//! symbols and referencing other nodes through outgoing symbol references.
//! Edges are not stored; they are discovered by resolving a reference to the
//! first node that exposes the symbol.

use vstd::prelude::*;

verus! {

use crate::compute::{compute_spec, compute_value};

/// A node of the lazily resolved graph. `symbols` is what the node exposes to
/// the rest of the graph; `symbols_out` is what it depends on. Both are
/// immutable once the store is built.
#[derive(Clone, Debug)]
pub struct Node {
    pub id: usize,
    pub symbols: Vec<String>,
    pub symbols_out: Vec<String>,
}

impl Node {
    /// True when the node exposes the symbol `s`.
    pub open spec fn spec_exposes(self, s: Seq<char>) -> bool {
        exists|k: int| 0 <= k < self.symbols@.len() && self.symbols@[k]@ == s
    }

    /// What `compute` returns: the workload contribution of this node, a
    /// function of its id alone.
    pub open spec fn compute_spec(self, work: u64) -> u64 {
        compute_spec((40 + self.id) as u64, work)
    }

    /// Whether `compute` can run on this node without its Fibonacci index
    /// leaving the 64-bit range.
    pub open spec fn compute_in_range(self, work: u64) -> bool {
        40 + self.id + work <= u64::MAX
    }

    /// Checks whether this node exposes the symbol `s`.
    pub fn exposes(&self, s: &String) -> (r: bool)
        ensures
            r == self.spec_exposes(s@),
    {
        let mut k: usize = 0;
        while k < self.symbols.len()
            invariant
                k <= self.symbols@.len(),
                forall|m: int| 0 <= m < k ==> self.symbols@[m]@ != s@,
            decreases self.symbols@.len() - k,
        {
            if self.symbols[k] == *s {
                return true;
            }
            k = k + 1;
        }
        false
    }

    /// The node's contribution to the aggregate: the Fibonacci workload at
    /// index `40 + id`, repeated `amount_of_work` times.
    pub fn compute(&self, amount_of_work: u64) -> (r: u64)
        requires
            self.compute_in_range(amount_of_work),
        ensures
            r == self.compute_spec(amount_of_work),
    {
        compute_value(40 + self.id as u64, amount_of_work)
    }
}

/// The index of the first node in `g` that exposes `s`, scanning from
/// position `i`; `-1` when no node at or after `i` exposes it.
pub open spec fn resolve_from(g: Seq<Node>, s: Seq<char>, i: int) -> int
    decreases g.len() - i,
{
    if i < 0 || i >= g.len() {
        -1
    } else if g[i].spec_exposes(s) {
        i
    } else {
        resolve_from(g, s, i + 1)
    }
}

/// The node a symbol reference resolves to: the first node exposing it.
pub open spec fn resolve(g: Seq<Node>, s: Seq<char>) -> int {
    resolve_from(g, s, 0)
}

/// True when some node of `g` exposes `s`.
pub open spec fn resolves(g: Seq<Node>, s: Seq<char>) -> bool {
    0 <= resolve(g, s)
}

/// A well-formed graph: ids are dense (node `i` has id `i`) and every
/// outgoing symbol reference of every node resolves to some node. Lookups
/// cannot fail during a traversal of such a graph.
pub open spec fn wf_graph(g: Seq<Node>) -> bool {
    &&& forall|i: int| 0 <= i < g.len() ==> (#[trigger] g[i]).id == i
    &&& forall|i: int, k: int|
        0 <= i < g.len() && 0 <= k < g[i].symbols_out@.len() ==> resolves(
            g,
            (#[trigger] g[i].symbols_out@[k])@,
        )
}

/// Skipping a prefix of nodes that do not expose `s` does not change what
/// `s` resolves to.
pub proof fn lemma_resolve_skip_prefix(g: Seq<Node>, s: Seq<char>, i: int)
    requires
        0 <= i <= g.len(),
        forall|j: int| 0 <= j < i ==> !(#[trigger] g[j]).spec_exposes(s),
    ensures
        resolve(g, s) == resolve_from(g, s, i),
    decreases i,
{
    if i > 0 {
        lemma_resolve_skip_prefix(g, s, i - 1);
    }
}

/// Bounds and meaning of a successful resolution: the resolved index is in
/// range, exposes `s`, and no earlier index does.
pub proof fn lemma_resolve_props(g: Seq<Node>, s: Seq<char>, i: int)
    requires
        0 <= i,
    ensures
        resolve_from(g, s, i) >= 0 ==> i <= resolve_from(g, s, i) < g.len() && g[resolve_from(
            g,
            s,
            i,
        )].spec_exposes(s),
    decreases g.len() - i,
{
    if i < g.len() && !g[i].spec_exposes(s) {
        lemma_resolve_props(g, s, i + 1);
    }
}

/// The store that owns the node pool. Built once; read-only afterwards.
#[derive(Clone, Debug)]
pub struct NodesStorage {
    pub all_nodes: Vec<Node>,
}

impl NodesStorage {
    /// A well-formed store: see `wf_graph`.
    pub open spec fn wf(self) -> bool {
        wf_graph(self.all_nodes@)
    }

    /// Looks a symbol up in the pool: the first node exposing it, if any.
    pub fn find_node(&self, symbol_out: &String) -> (r: Option<&Node>)
        ensures
            r is Some <==> resolves(self.all_nodes@, symbol_out@),
            r matches Some(n) ==> *n == self.all_nodes@[resolve(self.all_nodes@, symbol_out@)],
    {
        let g = &self.all_nodes;
        let mut i: usize = 0;
        while i < g.len()
            invariant
                i <= g@.len(),
                g@ == self.all_nodes@,
                forall|j: int| 0 <= j < i ==> !(#[trigger] g@[j]).spec_exposes(symbol_out@),
            decreases g@.len() - i,
        {
            if g[i].exposes(symbol_out) {
                proof {
                    lemma_resolve_skip_prefix(g@, symbol_out@, i as int);
                }
                return Some(&g[i]);
            }
            i = i + 1;
        }
        proof {
            lemma_resolve_skip_prefix(g@, symbol_out@, g@.len() as int);
        }
        None
    }

    /// Resolves an outgoing symbol reference to the node that exposes it:
    /// the first matching node of the pool. On a well-formed graph the
    /// lookup cannot miss.
    pub fn get_relevant_node(&self, symbol_out: &String) -> (r: &Node)
        requires
            resolves(self.all_nodes@, symbol_out@),
        ensures
            *r == self.all_nodes@[resolve(self.all_nodes@, symbol_out@)],
    {
        match self.find_node(symbol_out) {
            Some(n) => n,
            None => {
                // unreachable: the symbol resolves, so some node exposes it
                proof {
                    assert(false);
                }
                &self.all_nodes[0]
            },
        }
    }
}

/// A run of the scan that comes back empty leaves no exposing node behind it.
pub proof fn lemma_resolve_complete(g: Seq<Node>, s: Seq<char>, i: int)
    requires
        0 <= i,
        resolve_from(g, s, i) == -1,
    ensures
        forall|j: int| i <= j < g.len() ==> !(#[trigger] g[j]).spec_exposes(s),
    decreases g.len() - i,
{
    if i < g.len() {
        lemma_resolve_complete(g, s, i + 1);
    }
}

/// The scan either misses entirely or lands at an index at or after where it
/// started.
pub proof fn lemma_resolve_range(g: Seq<Node>, s: Seq<char>, i: int)
    requires
        0 <= i,
    ensures
        resolve_from(g, s, i) == -1 || i <= resolve_from(g, s, i) < g.len(),
    decreases g.len() - i,
{
    if i < g.len() && !g[i].spec_exposes(s) {
        lemma_resolve_range(g, s, i + 1);
    }
}

/// A symbol that some node exposes resolves.
pub proof fn lemma_exposes_resolves(g: Seq<Node>, s: Seq<char>, i: int)
    requires
        0 <= i < g.len(),
        g[i].spec_exposes(s),
    ensures
        resolves(g, s),
{
    lemma_resolve_range(g, s, 0);
    if resolve(g, s) == -1 {
        lemma_resolve_complete(g, s, 0);
    }
}

} // verus!
