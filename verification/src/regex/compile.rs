//! From a graph to one transition matrix per symbol and a vector of final
//! marks.
use crate::math::{BitMatrix, BitVector};
use crate::regex::graph::{well_formed, Graph, NodeView};
use std::collections::HashMap;
use vstd::prelude::*;

verus! {

/// Whether `g` has an edge from `p` to `q` whose symbol has the scalar value
/// `k`.
pub open spec fn edge_on(g: Seq<NodeView>, p: int, k: u32, q: int) -> bool {
    &&& 0 <= p < g.len()
    &&& exists|j: int|
        0 <= j < g[p].edges.len() && (#[trigger] g[p].edges[j]).0 == q && g[p].edges[j].1@ == k
}

/// Whether some edge of `g` has a symbol with the scalar value `k`.
pub open spec fn labels_some_edge(g: Seq<NodeView>, k: u32) -> bool {
    exists|p: int, q: int| #[trigger] edge_on(g, p, k, q)
}

/// Whether `matrices` and `finals` are the compiled form of `g`: a square
/// matrix for each symbol that labels an edge, and for no other, with the
/// entry in row `q` and column `p` set where an edge with that symbol leads
/// from `p` to `q`; and the final marks of the nodes in node order.
pub open spec fn compiled(g: Seq<NodeView>, matrices: Map<u32, BitMatrix>, finals: Seq<bool>) -> bool {
    &&& finals.len() == g.len()
    &&& forall|q: int| 0 <= q < g.len() ==> #[trigger] finals[q] == g[q].is_final
    &&& forall|k: u32| #[trigger]
        matrices.contains_key(k) ==> matrices[k].rows() == g.len() && matrices[k].cols()
            == g.len()
    &&& forall|k: u32| #[trigger] matrices.contains_key(k) <==> labels_some_edge(g, k)
    &&& forall|k: u32, p: int, q: int|
        matrices.contains_key(k) && 0 <= p < g.len() && 0 <= q < g.len() ==> (#[trigger] matrices[k].at(
            q,
            p,
        ) <==> edge_on(g, p, k, q))
}

/// `edge_on`, of the edges that come before edge `i` of node `a` in node
/// order and, within a node, edge order.
spec fn edge_on_before(g: Seq<NodeView>, a: int, i: int, p: int, k: u32, q: int) -> bool {
    &&& 0 <= p < g.len()
    &&& exists|j: int|
        0 <= j < g[p].edges.len() && (#[trigger] g[p].edges[j]).0 == q && g[p].edges[j].1@ == k
            && (p < a || (p == a && j < i))
}

spec fn labels_some_edge_before(g: Seq<NodeView>, a: int, i: int, k: u32) -> bool {
    exists|p: int, q: int| #[trigger] edge_on_before(g, a, i, p, k, q)
}

spec fn compiled_before(g: Seq<NodeView>, a: int, i: int, matrices: Map<u32, BitMatrix>) -> bool {
    &&& forall|k: u32| #[trigger]
        matrices.contains_key(k) ==> matrices[k].rows() == g.len() && matrices[k].cols()
            == g.len()
    &&& forall|k: u32| #[trigger]
        matrices.contains_key(k) <==> labels_some_edge_before(g, a, i, k)
    &&& forall|k: u32, p: int, q: int|
        matrices.contains_key(k) && 0 <= p < g.len() && 0 <= q < g.len() ==> (#[trigger] matrices[k].at(
            q,
            p,
        ) <==> edge_on_before(g, a, i, p, k, q))
}

proof fn lemma_compiled_next_node(g: Seq<NodeView>, a: int, matrices: Map<u32, BitMatrix>)
    requires
        0 <= a < g.len(),
        compiled_before(g, a, g[a].edges.len() as int, matrices),
    ensures
        compiled_before(g, a + 1, 0, matrices),
{
    assert forall|p: int, k: u32, q: int|
        edge_on_before(g, a, g[a].edges.len() as int, p, k, q) <==> #[trigger] edge_on_before(
            g,
            a + 1,
            0,
            p,
            k,
            q,
        ) by {
        if edge_on_before(g, a, g[a].edges.len() as int, p, k, q) {
            let j = choose|j: int|
                0 <= j < g[p].edges.len() && (#[trigger] g[p].edges[j]).0 == q && g[p].edges[j].1@
                    == k && (p < a || (p == a && j < g[a].edges.len()));
            assert(g[p].edges[j].0 == q && (p < a + 1 || (p == a + 1 && j < 0)));
        }
        if edge_on_before(g, a + 1, 0, p, k, q) {
            let j = choose|j: int|
                0 <= j < g[p].edges.len() && (#[trigger] g[p].edges[j]).0 == q && g[p].edges[j].1@
                    == k && (p < a + 1 || (p == a + 1 && j < 0));
            assert(g[p].edges[j].0 == q && (p < a || (p == a && j < g[a].edges.len())));
        }
    }
    assert forall|k: u32| #[trigger]
        matrices.contains_key(k) <==> labels_some_edge_before(g, a + 1, 0, k) by {
        if labels_some_edge_before(g, a, g[a].edges.len() as int, k) {
            let (p, q) = choose|p: int, q: int| #[trigger]
                edge_on_before(g, a, g[a].edges.len() as int, p, k, q);
            assert(edge_on_before(g, a + 1, 0, p, k, q));
        }
        if labels_some_edge_before(g, a + 1, 0, k) {
            let (p, q) = choose|p: int, q: int| #[trigger] edge_on_before(g, a + 1, 0, p, k, q);
            assert(edge_on_before(g, a, g[a].edges.len() as int, p, k, q));
        }
    }
}

proof fn lemma_compiled_done(g: Seq<NodeView>, matrices: Map<u32, BitMatrix>, finals: Seq<bool>)
    requires
        compiled_before(g, g.len() as int, 0, matrices),
        finals.len() == g.len(),
        forall|q: int| 0 <= q < g.len() ==> #[trigger] finals[q] == g[q].is_final,
    ensures
        compiled(g, matrices, finals),
{
    let n = g.len() as int;
    assert forall|p: int, k: u32, q: int| edge_on_before(g, n, 0, p, k, q) <==> #[trigger] edge_on(
        g,
        p,
        k,
        q,
    ) by {
        if edge_on_before(g, n, 0, p, k, q) {
            let j = choose|j: int|
                0 <= j < g[p].edges.len() && (#[trigger] g[p].edges[j]).0 == q && g[p].edges[j].1@
                    == k && (p < n || (p == n && j < 0));
            assert(g[p].edges[j].0 == q);
        }
        if edge_on(g, p, k, q) {
            let j = choose|j: int|
                0 <= j < g[p].edges.len() && (#[trigger] g[p].edges[j]).0 == q && g[p].edges[j].1@
                    == k;
            assert(g[p].edges[j].0 == q && (p < n || (p == n && j < 0)));
        }
    }
    assert forall|k: u32| #[trigger] matrices.contains_key(k) <==> labels_some_edge(g, k) by {
        if labels_some_edge_before(g, n, 0, k) {
            let (p, q) = choose|p: int, q: int| #[trigger] edge_on_before(g, n, 0, p, k, q);
            assert(edge_on(g, p, k, q));
        }
        if labels_some_edge(g, k) {
            let (p, q) = choose|p: int, q: int| #[trigger] edge_on(g, p, k, q);
            assert(edge_on_before(g, n, 0, p, k, q));
        }
    }
}

/// One more edge: edge `i` of node `a`, to `b` with symbol value `key`, is
/// entered into the matrix of its symbol.
#[verifier::rlimit(40)]
proof fn lemma_compiled_next_edge(
    g: Seq<NodeView>,
    a: int,
    i: int,
    before: Map<u32, BitMatrix>,
    after: Map<u32, BitMatrix>,
    key: u32,
    b: int,
)
    requires
        well_formed(g),
        0 <= a < g.len(),
        0 <= i < g[a].edges.len(),
        g[a].edges[i].0 == b,
        g[a].edges[i].1@ == key,
        compiled_before(g, a, i, before),
        after.dom() == before.dom().insert(key),
        forall|k: u32| k != key && before.contains_key(k) ==> after[k] == before[k],
        after[key].rows() == g.len(),
        after[key].cols() == g.len(),
        after[key].at(b, a),
        forall|p: int, q: int|
            0 <= p < g.len() && 0 <= q < g.len() && !(p == a && q == b) ==> (#[trigger] after[key].at(
                q,
                p,
            ) <==> before.contains_key(key) && before[key].at(q, p)),
    ensures
        compiled_before(g, a, i + 1, after),
{
    assert forall|p: int, k: u32, q: int| #[trigger]
        edge_on_before(g, a, i + 1, p, k, q) <==> (edge_on_before(g, a, i, p, k, q) || (p == a
            && k == key && q == b)) by {
        if edge_on_before(g, a, i + 1, p, k, q) {
            let j = choose|j: int|
                0 <= j < g[p].edges.len() && (#[trigger] g[p].edges[j]).0 == q && g[p].edges[j].1@
                    == k && (p < a || (p == a && j < i + 1));
            if !(p == a && j == i) {
                assert(g[p].edges[j].0 == q && (p < a || (p == a && j < i)));
            }
        }
        if edge_on_before(g, a, i, p, k, q) {
            let j = choose|j: int|
                0 <= j < g[p].edges.len() && (#[trigger] g[p].edges[j]).0 == q && g[p].edges[j].1@
                    == k && (p < a || (p == a && j < i));
            assert(g[p].edges[j].0 == q && (p < a || (p == a && j < i + 1)));
        }
        if p == a && k == key && q == b {
            assert(g[a].edges[i].0 == q && (p < a || (p == a && i < i + 1)));
        }
    }
    assert forall|k: u32| #[trigger]
        after.contains_key(k) <==> labels_some_edge_before(g, a, i + 1, k) by {
        if after.contains_key(k) {
            if k == key {
                assert(edge_on_before(g, a, i + 1, a, k, b));
            } else {
                assert(before.contains_key(k));
                let (p, q) = choose|p: int, q: int| #[trigger] edge_on_before(g, a, i, p, k, q);
                assert(edge_on_before(g, a, i + 1, p, k, q));
            }
        }
        if labels_some_edge_before(g, a, i + 1, k) {
            let (p, q) = choose|p: int, q: int| #[trigger] edge_on_before(g, a, i + 1, p, k, q);
            if k != key {
                assert(edge_on_before(g, a, i, p, k, q));
                assert(before.contains_key(k));
            }
        }
    }
    assert forall|k: u32, p: int, q: int|
        after.contains_key(k) && 0 <= p < g.len() && 0 <= q < g.len() implies (#[trigger] after[k].at(
        q,
        p,
    ) <==> edge_on_before(g, a, i + 1, p, k, q)) by {
        assert(edge_on_before(g, a, i + 1, p, k, q) <==> (edge_on_before(g, a, i, p, k, q) || (p
            == a && k == key && q == b)));
        if k == key {
            if !before.contains_key(key) {
                if edge_on_before(g, a, i, p, k, q) {
                    assert(labels_some_edge_before(g, a, i, k));
                }
            } else {
                assert(before[key].at(q, p) <==> edge_on_before(g, a, i, p, k, q));
            }
        } else {
            assert(before[k].at(q, p) <==> edge_on_before(g, a, i, p, k, q));
        }
    }
}

impl Graph {
    /// Compiles the labelled edges and the final marks into one transition
    /// matrix per symbol, keyed by the symbol's scalar value, and a vector
    /// of final marks. Silent edges are not looked at.
    #[verifier::rlimit(40)]
    pub fn compile(&self) -> (r: (HashMap<u32, BitMatrix>, BitVector))
        requires
            self.wf(),
            self@.len() * self@.len() <= usize::MAX,
        ensures
            compiled(self@, r.0@, r.1@),
    {
        let n = self.node_count();
        let ghost g = self@;
        let mut finals = BitVector::new(n);
        let mut matrices: HashMap<u32, BitMatrix> = HashMap::new();
        let mut a: usize = 0;
        proof {
            assert forall|k: u32| !labels_some_edge_before(g, 0, 0, k) by {
                assert forall|p: int, q: int| !#[trigger] edge_on_before(g, 0, 0, p, k, q) by {}
            }
        }
        while a < n
            invariant
                a <= n,
                n == g.len(),
                g == self@,
                well_formed(g),
                n * n <= usize::MAX,
                finals@.len() == n,
                forall|q: int| 0 <= q < a ==> #[trigger] finals@[q] == g[q].is_final,
                forall|q: int| a <= q < n ==> !#[trigger] finals@[q],
                compiled_before(g, a as int, 0, matrices@),
            decreases n - a,
        {
            if self.final_at(a) {
                finals.set(a, true);
            }
            let edges = self.edge_count(a);
            let mut i: usize = 0;
            while i < edges
                invariant
                    a < n,
                    i <= edges,
                    edges == g[a as int].edges.len(),
                    n == g.len(),
                    g == self@,
                    well_formed(g),
                    n * n <= usize::MAX,
                    compiled_before(g, a as int, i as int, matrices@),
                decreases edges - i,
            {
                let (b, token) = self.edge_at(a, i);
                let key = token.value();
                let ghost before = matrices@;
                let mut matrix = match matrices.remove(&key) {
                    Some(m) => m,
                    None => BitMatrix::new(n, n),
                };
                proof {
                    assert(g[a as int].edges[i as int].0 < n);
                }
                matrix.set(b, a, true);
                matrices.insert(key, matrix);
                proof {
                    assert(matrices@.dom() =~= before.dom().insert(key));
                    lemma_compiled_next_edge(
                        g,
                        a as int,
                        i as int,
                        before,
                        matrices@,
                        key,
                        b as int,
                    );
                }
                i += 1;
            }
            proof {
                lemma_compiled_next_node(g, a as int, matrices@);
            }
            a += 1;
        }
        proof {
            lemma_compiled_done(g, matrices@, finals@);
        }
        (matrices, finals)
    }
}

} // verus!
