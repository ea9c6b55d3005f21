//! The graph generator: builds a random node pool whose outgoing symbol
//! references all resolve, so that the store it returns is well formed and
//! ready for traversal. The shape of the graph is random; its well-formedness
//! is not.

use vstd::prelude::*;

verus! {

use rand_chacha::ChaCha8Rng;
use vstd::string::StringExecFns;
use crate::graph::{lemma_exposes_resolves, wf_graph, Node, NodesStorage};
use crate::rng::rand_below;
use crate::traverse::valid_roots;

/// The most symbols a generated node exposes, and the most incoming
/// references drawn per node.
pub const MAX_NUM_SYMBOLS: usize = 5;

/// The character for one decimal digit.
pub open spec fn digit_char(d: int) -> char {
    if d == 0 {
        '0'
    } else if d == 1 {
        '1'
    } else if d == 2 {
        '2'
    } else if d == 3 {
        '3'
    } else if d == 4 {
        '4'
    } else if d == 5 {
        '5'
    } else if d == 6 {
        '6'
    } else if d == 7 {
        '7'
    } else if d == 8 {
        '8'
    } else {
        '9'
    }
}

/// The decimal digits of `n`, most significant first.
pub open spec fn spec_decimal(n: int) -> Seq<char>
    decreases n,
{
    if n < 10 {
        seq![digit_char(n)]
    } else {
        spec_decimal(n / 10).push(digit_char(n % 10))
    }
}

/// The symbol exposed by node `i` at position `j`: the two numbers in
/// decimal, joined by an underscore.
pub open spec fn spec_symbol(i: int, j: int) -> Seq<char> {
    spec_decimal(i) + seq!['_'] + spec_decimal(j)
}

/// Appends the decimal digits of `n` to `s`.
fn push_decimal(s: &mut String, n: usize)
    ensures
        final(s)@ == old(s)@ + spec_decimal(n as int),
    decreases n,
{
    if n >= 10 {
        push_decimal(s, n / 10);
    }
    let d = n % 10;
    let digit: &str = if d == 0 {
        "0"
    } else if d == 1 {
        "1"
    } else if d == 2 {
        "2"
    } else if d == 3 {
        "3"
    } else if d == 4 {
        "4"
    } else if d == 5 {
        "5"
    } else if d == 6 {
        "6"
    } else if d == 7 {
        "7"
    } else if d == 8 {
        "8"
    } else {
        "9"
    };
    proof {
        reveal_strlit("0");
        reveal_strlit("1");
        reveal_strlit("2");
        reveal_strlit("3");
        reveal_strlit("4");
        reveal_strlit("5");
        reveal_strlit("6");
        reveal_strlit("7");
        reveal_strlit("8");
        reveal_strlit("9");
        assert(digit@ =~= seq![digit_char(d as int)]);
    }
    s.append(digit);
    proof {
        if n >= 10 {
            assert(s@ =~= old(s)@ + spec_decimal(n as int));
        } else {
            assert(s@ =~= old(s)@ + spec_decimal(n as int));
        }
    }
}

/// Builds the symbol string for node `i`, position `j`.
fn symbol_string(i: usize, j: usize) -> (r: String)
    ensures
        r@ == spec_symbol(i as int, j as int),
{
    let mut s = String::new();
    push_decimal(&mut s, i);
    proof {
        reveal_strlit("_");
    }
    s.append("_");
    push_decimal(&mut s, j);
    proof {
        assert(s@ =~= spec_symbol(i as int, j as int));
    }
    s
}

/// Every outgoing reference of every node is exposed by some node of the
/// pool.
pub open spec fn all_refs_exposed(g: Seq<Node>) -> bool {
    forall|j: int, k: int| #![trigger g[j].symbols_out@[k]]
        0 <= j < g.len() && 0 <= k < g[j].symbols_out@.len() ==> exists|i: int|
            0 <= i < g.len() && g[i].spec_exposes((g[j].symbols_out@[k])@)
}

/// Dense ids plus resolvable references make a well-formed graph.
proof fn lemma_wf_from_exposed(g: Seq<Node>)
    requires
        forall|i: int| 0 <= i < g.len() ==> (#[trigger] g[i]).id == i,
        all_refs_exposed(g),
    ensures
        wf_graph(g),
{
    assert forall|i: int, k: int|
        0 <= i < g.len() && 0 <= k < g[i].symbols_out@.len() implies crate::graph::resolves(
        g,
        (#[trigger] g[i].symbols_out@[k])@,
    ) by {
        let w = choose|w: int| 0 <= w < g.len() && g[w].spec_exposes((g[i].symbols_out@[k])@);
        lemma_exposes_resolves(g, (g[i].symbols_out@[k])@, w);
    }
}

/// Checks whether the node already carries the outgoing symbol `s`.
fn has_symbol_out(node: &Node, s: &String) -> (r: bool)
    ensures
        r == exists|k: int| 0 <= k < node.symbols_out@.len() && (#[trigger] node.symbols_out@[k])@
            == s@,
{
    let mut k: usize = 0;
    while k < node.symbols_out.len()
        invariant
            k <= node.symbols_out@.len(),
            forall|m: int| 0 <= m < k ==> (#[trigger] node.symbols_out@[m])@ != s@,
        decreases node.symbols_out@.len() - k,
    {
        if node.symbols_out[k] == *s {
            return true;
        }
        k = k + 1;
    }
    false
}

impl NodesStorage {
    /// Builds a random pool of `len` nodes. Each node exposes up to
    /// `MAX_NUM_SYMBOLS` fresh symbols; afterwards a few randomly chosen
    /// other nodes gain an outgoing reference to one of them. Every
    /// reference added points at a symbol some node exposes, so the store
    /// is well formed by construction.
    #[verifier::loop_isolation(false)]
    pub fn new(len: usize, rng: &mut ChaCha8Rng) -> (r: NodesStorage)
        ensures
            r.all_nodes@.len() == len,
            r.wf(),
    {
        let mut all_nodes: Vec<Node> = Vec::new();
        let mut i: usize = 0;
        while i < len
            invariant
                i <= len,
                all_nodes@.len() == i,
                forall|q: int|
                    0 <= q < i ==> (#[trigger] all_nodes@[q]).id == q && all_nodes@[q].symbols@.len()
                        == 0 && all_nodes@[q].symbols_out@.len() == 0,
            decreases len - i,
        {
            all_nodes.push(Node { id: i, symbols: Vec::new(), symbols_out: Vec::new() });
            i = i + 1;
        }

        let mut i: usize = 0;
        while i < len
            invariant
                i <= len,
                all_nodes@.len() == len,
                forall|q: int| 0 <= q < len ==> (#[trigger] all_nodes@[q]).id == q,
                forall|q: int| i <= q < len ==> (#[trigger] all_nodes@[q]).symbols@.len() == 0,
                all_refs_exposed(all_nodes@),
            decreases len - i,
        {
            let n = rand_below(rng, MAX_NUM_SYMBOLS);
            let mut symbols: Vec<String> = Vec::new();
            let mut j: usize = 0;
            while j < n
                invariant
                    j <= n,
                    symbols@.len() == j,
                decreases n - j,
            {
                symbols.push(symbol_string(i, j));
                j = j + 1;
            }
            let has_symbols = symbols.len() > 0;

            let ghost g_before = all_nodes@;
            let elem = &mut all_nodes[i];
            elem.symbols = symbols;
            proof {
                let g_now = all_nodes@;
                // node `i` exposed nothing before, so no reference loses its
                // exposing node when its symbol list is filled in
                assert forall|j2: int, k2: int| #![trigger g_now[j2].symbols_out@[k2]]
                    0 <= j2 < g_now.len() && 0 <= k2
                        < g_now[j2].symbols_out@.len() implies exists|w: int|
                    0 <= w < g_now.len() && g_now[w].spec_exposes((g_now[j2].symbols_out@[k2])@) by {
                    assert(g_now[j2].symbols_out@ == g_before[j2].symbols_out@);
                    let w = choose|w: int|
                        0 <= w < g_before.len() && g_before[w].spec_exposes(
                            (g_before[j2].symbols_out@[k2])@,
                        );
                    assert(w != i);
                    assert(g_now[w] == g_before[w]);
                    assert(g_now[w].spec_exposes((g_now[j2].symbols_out@[k2])@));
                }
            }

            if has_symbols {
                let num_incoming = rand_below(rng, MAX_NUM_SYMBOLS);
                let mut incoming: Vec<usize> = Vec::new();
                let mut q: usize = 0;
                while q < num_incoming
                    invariant
                        q <= num_incoming,
                        incoming@.len() == q,
                        forall|m: int| 0 <= m < q ==> (#[trigger] incoming@[m]) < len,
                    decreases num_incoming - q,
                {
                    incoming.push(rand_below(rng, len));
                    q = q + 1;
                }

                let mut q: usize = 0;
                while q < incoming.len()
                    invariant
                        q <= incoming@.len(),
                        forall|m: int| 0 <= m < incoming@.len() ==> (#[trigger] incoming@[m]) < len,
                        all_nodes@.len() == len,
                        forall|q2: int| 0 <= q2 < len ==> (#[trigger] all_nodes@[q2]).id == q2,
                        forall|q2: int|
                            i < q2 < len ==> (#[trigger] all_nodes@[q2]).symbols@.len() == 0,
                        all_nodes@[i as int].symbols@.len() > 0,
                        all_refs_exposed(all_nodes@),
                    decreases incoming@.len() - q,
                {
                    let jj = incoming[q];
                    if i != jj {
                        let n_syms = {
                            let node_i = &all_nodes[i];
                            node_i.symbols.len()
                        };
                        let symbol_idx = rand_below(rng, n_syms);
                        let symbol = {
                            let node_i = &all_nodes[i];
                            node_i.symbols[symbol_idx].clone()
                        };
                        proof {
                            // the symbol is exposed by node `i`
                            assert(all_nodes@[i as int].spec_exposes(symbol@));
                        }
                        let already = {
                            let node_j = &all_nodes[jj];
                            has_symbol_out(node_j, &symbol)
                        };
                        if !already {
                            let ghost g_before2 = all_nodes@;
                            let elem2 = &mut all_nodes[jj];
                            elem2.symbols_out.push(symbol);
                            proof {
                                let g_now = all_nodes@;
                                assert(g_now[jj as int].symbols@ == g_before2[jj as int].symbols@);
                                assert forall|j2: int, k2: int| #![trigger g_now[j2].symbols_out@[k2]]
                                    0 <= j2 < g_now.len() && 0 <= k2
                                        < g_now[j2].symbols_out@.len() implies exists|w: int|
                                    0 <= w < g_now.len() && g_now[w].spec_exposes(
                                        (g_now[j2].symbols_out@[k2])@,
                                    ) by {
                                    if j2 == jj as int && k2 == g_now[j2].symbols_out@.len() - 1 {
                                        // the new reference is exposed by node `i`
                                        assert(g_now[i as int] == g_before2[i as int]);
                                        assert(g_now[i as int].spec_exposes(
                                            (g_now[j2].symbols_out@[k2])@,
                                        ));
                                    } else {
                                        assert(g_now[j2].symbols_out@[k2]
                                            == g_before2[j2].symbols_out@[k2]);
                                        let w = choose|w: int|
                                            0 <= w < g_before2.len() && g_before2[w].spec_exposes(
                                                (g_before2[j2].symbols_out@[k2])@,
                                            );
                                        if w == jj as int {
                                            assert(g_now[w].spec_exposes(
                                                (g_now[j2].symbols_out@[k2])@,
                                            ));
                                        } else {
                                            assert(g_now[w] == g_before2[w]);
                                        }
                                    }
                                }
                            }
                        }
                    }
                    q = q + 1;
                }
            }
            i = i + 1;
        }

        proof {
            lemma_wf_from_exposed(all_nodes@);
        }
        NodesStorage { all_nodes }
    }

    /// Draws `number_of_roots` random nodes of the pool, repetition allowed.
    #[verifier::loop_isolation(false)]
    pub fn get_roots(&self, number_of_roots: usize, rng: &mut ChaCha8Rng) -> (r: Vec<&Node>)
        requires
            self.wf(),
            self.all_nodes@.len() >= 1,
        ensures
            r@.len() == number_of_roots,
            valid_roots(self.all_nodes@, r@),
    {
        let mut out: Vec<&Node> = Vec::new();
        let mut k: usize = 0;
        while k < number_of_roots
            invariant
                k <= number_of_roots,
                out@.len() == k,
                valid_roots(self.all_nodes@, out@),
            decreases number_of_roots - k,
        {
            let idx = rand_below(rng, self.all_nodes.len());
            proof {
                assert(self.all_nodes@[idx as int].id == idx);
            }
            out.push(&self.all_nodes[idx]);
            k = k + 1;
        }
        out
    }
}

} // verus!
