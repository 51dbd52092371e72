//! A nondeterministic automaton under construction: nodes, labelled edges,
//! silent edges and final marks.
use crate::math::BitVector;
use crate::regex::closure::{
    collapsed, collapsed_below, count_unset, lemma_count_unset_update, lemma_sweep_begin,
    lemma_sweep_end, lemma_sweep_skip, lemma_sweep_take, sweeping,
};
use crate::utf8::UnicodeCodepoint;
use vstd::prelude::*;
use vstd::std_specs::cmp::PartialEqSpecImpl;
use vstd::string::StringExecFns;

verus! {

/// An automaton under construction. Node 0 is the initial node.
#[derive(Debug)]
pub struct Graph {
    nodes: Vec<Node>,
    id: usize,
}

#[derive(Debug)]
struct Node {
    is_final: bool,
    edges: Vec<(usize, UnicodeCodepoint)>,
    epsilon_edges: Vec<usize>,
}

/// A handle to a node, tagged with the identity of the graph it is of.
#[derive(Copy, Clone, PartialEq, Eq, Structural)]
pub struct NodeRef {
    graph_id: usize,
    index: usize,
}

/// What a node holds: its final mark, its labelled edges as pairs of target
/// and symbol, and the targets of its silent edges, each list in the order
/// in which the edges were added.
pub struct NodeView {
    pub is_final: bool,
    pub edges: Seq<(usize, UnicodeCodepoint)>,
    pub epsilon_edges: Seq<usize>,
}

/// A node without a final mark and without edges.
pub open spec fn blank_node() -> NodeView {
    NodeView { is_final: false, edges: Seq::empty(), epsilon_edges: Seq::empty() }
}

/// Whether `g` has an initial node and every edge of `g` ends at a node of
/// `g`.
pub open spec fn well_formed(g: Seq<NodeView>) -> bool {
    &&& g.len() >= 1
    &&& forall|a: int, k: int|
        0 <= a < g.len() && 0 <= k < g[a].edges.len() ==> (#[trigger] g[a].edges[k]).0 < g.len()
    &&& forall|a: int, k: int|
        0 <= a < g.len() && 0 <= k < g[a].epsilon_edges.len() ==> #[trigger] g[a].epsilon_edges[k]
            < g.len()
}

/// `g` with one more blank node.
pub open spec fn with_node(g: Seq<NodeView>) -> Seq<NodeView> {
    g.push(blank_node())
}

/// `g` with one more edge from `x` to `y`, labelled `token`.
pub open spec fn with_edge(g: Seq<NodeView>, x: int, y: usize, token: UnicodeCodepoint) -> Seq<
    NodeView,
> {
    g.update(x, NodeView { edges: g[x].edges.push((y, token)), ..g[x] })
}

/// `g` with one more silent edge from `x` to `y`.
pub open spec fn with_epsilon(g: Seq<NodeView>, x: int, y: usize) -> Seq<NodeView> {
    g.update(x, NodeView { epsilon_edges: g[x].epsilon_edges.push(y), ..g[x] })
}

/// `g` with node `x` marked final.
pub open spec fn with_final(g: Seq<NodeView>, x: int) -> Seq<NodeView> {
    g.update(x, NodeView { is_final: true, ..g[x] })
}

impl NodeRef {
    /// The identity of the graph that the handle is of.
    pub closed spec fn graph_id(self) -> usize {
        self.graph_id
    }

    /// The position of the node in its graph.
    pub closed spec fn index(self) -> usize {
        self.index
    }
}

/// The decimal digit with the value `d`.
pub open spec fn digit(d: nat) -> char {
    (0x30 + d) as char
}

/// `n` in decimal digits, without leading zeros.
pub open spec fn decimal(n: nat) -> Seq<char>
    decreases n,
{
    if n < 10 {
        seq![digit(n)]
    } else {
        decimal(n / 10).push(digit(n % 10))
    }
}

/// The line that shows an edge from `a` to `b` labelled `c`.
pub open spec fn edge_line(a: usize, b: usize, c: char) -> Seq<char> {
    decimal(a as nat) + seq![' '] + decimal(b as nat) + seq![' ', c, '\n']
}

/// The line that shows a silent edge from `a` to `b`.
pub open spec fn epsilon_line(a: usize, b: usize) -> Seq<char> {
    decimal(a as nat) + seq![' '] + decimal(b as nat) + seq![' ', '\u{3b5}', '\n']
}

/// The lines of the first `k` labelled edges of node `a`.
pub open spec fn edges_text(a: usize, edges: Seq<(usize, UnicodeCodepoint)>, k: nat) -> Seq<char>
    decreases k,
{
    if k == 0 || k > edges.len() {
        Seq::empty()
    } else {
        edges_text(a, edges, (k - 1) as nat) + edge_line(
            a,
            edges[k - 1].0,
            edges[k - 1].1@ as char,
        )
    }
}

/// The lines of the first `k` silent edges of node `a`.
pub open spec fn epsilons_text(a: usize, targets: Seq<usize>, k: nat) -> Seq<char>
    decreases k,
{
    if k == 0 || k > targets.len() {
        Seq::empty()
    } else {
        epsilons_text(a, targets, (k - 1) as nat) + epsilon_line(a, targets[k - 1])
    }
}

/// The lines of the first `k` nodes of `g`: of each node its labelled edges,
/// then its silent edges.
pub open spec fn graph_text(g: Seq<NodeView>, k: nat) -> Seq<char>
    decreases k,
{
    if k == 0 || k > g.len() {
        Seq::empty()
    } else {
        graph_text(g, (k - 1) as nat) + edges_text(
            (k - 1) as usize,
            g[k - 1].edges,
            g[k - 1].edges.len(),
        ) + epsilons_text((k - 1) as usize, g[k - 1].epsilon_edges, g[k - 1].epsilon_edges.len())
    }
}

/// `format!` with two integers and a character: the integers in decimal,
/// the character, a space between them and a line feed at the end.
#[verifier::external_body]
fn format_edge(a: usize, b: usize, c: char) -> (line: String)
    ensures
        line@ == edge_line(a, b, c),
{
    format!("{} {} {}\n", a, b, c)
}

/// `format!` with two integers: the integers in decimal and the mark of a
/// silent edge, a space between them and a line feed at the end.
#[verifier::external_body]
fn format_epsilon(a: usize, b: usize) -> (line: String)
    ensures
        line@ == epsilon_line(a, b),
{
    format!("{} {} \u{3b5}\n", a, b)
}

/// A handle is the identity of its graph and the position of its node.
pub proof fn lemma_same_node(x: NodeRef, y: NodeRef)
    requires
        x.graph_id() == y.graph_id(),
        x.index() == y.index(),
    ensures
        x == y,
{
}

impl Node {
    spec fn view(&self) -> NodeView {
        NodeView {
            is_final: self.is_final,
            edges: self.edges@,
            epsilon_edges: self.epsilon_edges@,
        }
    }

    fn blank() -> (node: Node)
        ensures
            node@ == blank_node(),
    {
        Node { is_final: false, edges: Vec::new(), epsilon_edges: Vec::new() }
    }
}

impl View for Graph {
    type V = Seq<NodeView>;

    closed spec fn view(&self) -> Seq<NodeView> {
        Seq::new(self.nodes@.len(), |a: int| self.nodes@[a]@)
    }
}

impl PartialEq for Graph {
    /// Graphs are compared by identity, not by what they hold.
    fn eq(&self, other: &Self) -> (r: bool) {
        self.id == other.id
    }
}

impl PartialEqSpecImpl for Graph {
    open spec fn obeys_eq_spec() -> bool {
        true
    }

    open spec fn eq_spec(&self, other: &Graph) -> bool {
        self.id() == other.id()
    }
}

impl Eq for Graph {

}

impl Graph {
    /// What every operation keeps: the graph has its initial node, and its
    /// edges end at its own nodes.
    pub open spec fn wf(&self) -> bool {
        well_formed(self@)
    }

    /// The identity that handles of this graph carry.
    pub closed spec fn id(&self) -> usize {
        self.id
    }

    /// Whether `x` is a handle to a node of this graph.
    pub open spec fn owns(&self, x: NodeRef) -> bool {
        x.graph_id() == self.id() && x.index() < self@.len()
    }

    /// A graph with the identity `id` that holds the initial node alone.
    pub fn new(id: usize) -> (g: Graph)
        ensures
            g.wf(),
            g.id() == id,
            g@ == seq![blank_node()],
    {
        let mut nodes: Vec<Node> = Vec::new();
        nodes.push(Node::blank());
        let g = Graph { nodes, id };
        assert(g@ =~= seq![blank_node()]);
        g
    }

    /// A graph with the identity `id` that holds what this one holds.
    #[verifier::rlimit(40)]
    pub fn duplicate(&self, id: usize) -> (g: Graph)
        ensures
            g.id() == id,
            g@ == self@,
    {
        let n = self.nodes.len();
        let mut nodes: Vec<Node> = Vec::new();
        let mut a: usize = 0;
        while a < n
            invariant
                a <= n,
                n == self.nodes@.len(),
                nodes@.len() == a,
                forall|x: int| 0 <= x < a ==> (#[trigger] nodes@[x])@ == self.nodes@[x]@,
            decreases n - a,
        {
            let node = &self.nodes[a];
            let mut edges: Vec<(usize, UnicodeCodepoint)> = Vec::new();
            let mut k: usize = 0;
            while k < node.edges.len()
                invariant
                    k <= node.edges@.len(),
                    edges@ == node.edges@.take(k as int),
                decreases node.edges@.len() - k,
            {
                edges.push(node.edges[k]);
                assert(edges@ =~= node.edges@.take(k + 1));
                k += 1;
            }
            let mut epsilon_edges: Vec<usize> = Vec::new();
            let mut k: usize = 0;
            while k < node.epsilon_edges.len()
                invariant
                    k <= node.epsilon_edges@.len(),
                    epsilon_edges@ == node.epsilon_edges@.take(k as int),
                decreases node.epsilon_edges@.len() - k,
            {
                epsilon_edges.push(node.epsilon_edges[k]);
                assert(epsilon_edges@ =~= node.epsilon_edges@.take(k + 1));
                k += 1;
            }
            proof {
                assert(node.edges@.take(node.edges@.len() as int) =~= node.edges@);
                assert(node.epsilon_edges@.take(node.epsilon_edges@.len() as int)
                    =~= node.epsilon_edges@);
            }
            nodes.push(Node { is_final: node.is_final, edges, epsilon_edges });
            a += 1;
        }
        let g = Graph { nodes, id };
        assert(g@ =~= self@);
        g
    }

    /// Whether `x` is a handle to a node of this graph.
    pub fn owns_node(&self, x: NodeRef) -> (r: bool)
        ensures
            r == self.owns(x),
    {
        self.id == x.graph_id && x.index < self.nodes.len()
    }

    /// The handle of the initial node.
    pub fn get_initial_node(&self) -> (x: NodeRef)
        requires
            self.wf(),
        ensures
            self.owns(x),
            x.index() == 0,
    {
        NodeRef { graph_id: self.id, index: 0 }
    }

    /// Appends a blank node and returns its handle.
    pub fn add_node(&mut self) -> (x: NodeRef)
        requires
            old(self).wf(),
        ensures
            final(self).wf(),
            final(self).id() == old(self).id(),
            final(self)@ == with_node(old(self)@),
            x.graph_id() == old(self).id(),
            x.index() == old(self)@.len(),
    {
        self.nodes.push(Node::blank());
        proof {
            assert(self@ =~= with_node(old(self)@));
        }
        NodeRef { graph_id: self.id, index: self.nodes.len() - 1 }
    }

    /// Appends an edge from `x` to `y`, labelled `token`.
    pub fn connect(&mut self, x: NodeRef, y: NodeRef, token: UnicodeCodepoint)
        requires
            old(self).wf(),
            old(self).owns(x),
            old(self).owns(y),
        ensures
            final(self).wf(),
            final(self).id() == old(self).id(),
            final(self)@ == with_edge(old(self)@, x.index() as int, y.index(), token),
    {
        self.nodes[x.index].edges.push((y.index, token));
        proof {
            assert(self@ =~= with_edge(old(self)@, x.index() as int, y.index(), token));
        }
    }

    /// Appends a silent edge from `x` to `y`.
    pub fn connect_epsilon(&mut self, x: NodeRef, y: NodeRef)
        requires
            old(self).wf(),
            old(self).owns(x),
            old(self).owns(y),
        ensures
            final(self).wf(),
            final(self).id() == old(self).id(),
            final(self)@ == with_epsilon(old(self)@, x.index() as int, y.index()),
    {
        self.nodes[x.index].epsilon_edges.push(y.index);
        proof {
            assert(self@ =~= with_epsilon(old(self)@, x.index() as int, y.index()));
        }
    }

    /// The number of nodes.
    pub fn node_count(&self) -> (n: usize)
        ensures
            n == self@.len(),
    {
        self.nodes.len()
    }

    /// Whether the node at position `a` is marked final.
    pub fn final_at(&self, a: usize) -> (r: bool)
        requires
            a < self@.len(),
        ensures
            r == self@[a as int].is_final,
    {
        self.nodes[a].is_final
    }

    /// The number of labelled edges of the node at position `a`.
    pub fn edge_count(&self, a: usize) -> (n: usize)
        requires
            a < self@.len(),
        ensures
            n == self@[a as int].edges.len(),
    {
        self.nodes[a].edges.len()
    }

    /// The labelled edge `k` of the node at position `a`: its target and its
    /// symbol.
    pub fn edge_at(&self, a: usize, k: usize) -> (e: (usize, UnicodeCodepoint))
        requires
            a < self@.len(),
            k < self@[a as int].edges.len(),
        ensures
            e == self@[a as int].edges[k as int],
    {
        self.nodes[a].edges[k]
    }

    /// The number of silent edges of the node at position `a`.
    pub fn epsilon_count(&self, a: usize) -> (n: usize)
        requires
            a < self@.len(),
        ensures
            n == self@[a as int].epsilon_edges.len(),
    {
        self.nodes[a].epsilon_edges.len()
    }

    /// The target of the silent edge `k` of the node at position `a`.
    pub fn epsilon_at(&self, a: usize, k: usize) -> (b: usize)
        requires
            a < self@.len(),
            k < self@[a as int].epsilon_edges.len(),
        ensures
            b == self@[a as int].epsilon_edges[k as int],
    {
        self.nodes[a].epsilon_edges[k]
    }

    /// Handles to the targets of the labelled edges of node `x`, in the
    /// order of the edges.
    pub fn get_connections(&self, x: NodeRef) -> (targets: Vec<NodeRef>)
        requires
            self.owns(x),
        ensures
            targets@.len() == self@[x.index() as int].edges.len(),
            forall|k: int|
                0 <= k < targets@.len() ==> (#[trigger] targets@[k]).graph_id() == self.id()
                    && targets@[k].index() == self@[x.index() as int].edges[k].0,
    {
        let mut targets: Vec<NodeRef> = Vec::new();
        let n = self.nodes[x.index].edges.len();
        let mut k: usize = 0;
        while k < n
            invariant
                k <= n,
                self.owns(x),
                n == self@[x.index() as int].edges.len(),
                targets@.len() == k,
                forall|j: int|
                    0 <= j < k ==> (#[trigger] targets@[j]).graph_id() == self.id()
                        && targets@[j].index() == self@[x.index() as int].edges[j].0,
            decreases n - k,
        {
            let e = self.nodes[x.index].edges[k];
            targets.push(NodeRef { graph_id: self.id, index: e.0 });
            k += 1;
        }
        targets
    }

    /// Handles to the targets of the silent edges of node `x`, in the order
    /// of the edges.
    pub fn get_epsilon_connections(&self, x: NodeRef) -> (targets: Vec<NodeRef>)
        requires
            self.owns(x),
        ensures
            targets@.len() == self@[x.index() as int].epsilon_edges.len(),
            forall|k: int|
                0 <= k < targets@.len() ==> (#[trigger] targets@[k]).graph_id() == self.id()
                    && targets@[k].index() == self@[x.index() as int].epsilon_edges[k],
    {
        let mut targets: Vec<NodeRef> = Vec::new();
        let n = self.nodes[x.index].epsilon_edges.len();
        let mut k: usize = 0;
        while k < n
            invariant
                k <= n,
                self.owns(x),
                n == self@[x.index() as int].epsilon_edges.len(),
                targets@.len() == k,
                forall|j: int|
                    0 <= j < k ==> (#[trigger] targets@[j]).graph_id() == self.id()
                        && targets@[j].index() == self@[x.index() as int].epsilon_edges[j],
            decreases n - k,
        {
            let b = self.nodes[x.index].epsilon_edges[k];
            targets.push(NodeRef { graph_id: self.id, index: b });
            k += 1;
        }
        targets
    }

    /// Whether node `x` is marked final.
    pub fn is_final(&self, x: NodeRef) -> (r: bool)
        requires
            self.owns(x),
        ensures
            r == self@[x.index() as int].is_final,
    {
        self.nodes[x.index].is_final
    }

    /// Marks node `x` final.
    pub fn set_final(&mut self, x: NodeRef)
        requires
            old(self).wf(),
            old(self).owns(x),
        ensures
            final(self).wf(),
            final(self).id() == old(self).id(),
            final(self)@ == with_final(old(self)@, x.index() as int),
    {
        self.nodes[x.index].is_final = true;
        proof {
            assert(self@ =~= with_final(old(self)@, x.index() as int));
        }
    }
    /// One line for each edge, node by node: source, target and symbol of a
    /// labelled edge, source, target and a mark of a silent edge.
    #[verifier::rlimit(40)]
    pub fn debug_string(&self) -> (s: String)
        ensures
            s@ == graph_text(self@, self@.len()),
    {
        let mut s = String::new();
        let n = self.nodes.len();
        let mut a: usize = 0;
        while a < n
            invariant
                a <= n,
                n == self@.len(),
                n == self.nodes@.len(),
                s@ == graph_text(self@, a as nat),
            decreases n - a,
        {
            let ghost node = self@[a as int];
            let ghost before = s@;
            proof {
                assert(self.nodes@[a as int]@ == node);
                assert(before + Seq::<char>::empty() =~= before);
            }
            let edges = self.nodes[a].edges.len();
            let mut k: usize = 0;
            while k < edges
                invariant
                    k <= edges,
                    a < n,
                    n == self.nodes@.len(),
                    self.nodes@[a as int]@ == node,
                    edges == node.edges.len(),
                    s@ == before + edges_text(a, node.edges, k as nat),
                decreases edges - k,
            {
                let (b, token) = self.nodes[a].edges[k];
                let line = format_edge(a, b, token.to_char());
                s.append(line.as_str());
                proof {
                    assert(s@ =~= before + edges_text(a, node.edges, (k + 1) as nat));
                }
                k += 1;
            }
            let ghost middle = s@;
            proof {
                assert(middle + Seq::<char>::empty() =~= middle);
            }
            let silent = self.nodes[a].epsilon_edges.len();
            let mut k: usize = 0;
            while k < silent
                invariant
                    k <= silent,
                    a < n,
                    n == self.nodes@.len(),
                    self.nodes@[a as int]@ == node,
                    silent == node.epsilon_edges.len(),
                    s@ == middle + epsilons_text(a, node.epsilon_edges, k as nat),
                decreases silent - k,
            {
                let b = self.nodes[a].epsilon_edges[k];
                let line = format_epsilon(a, b);
                s.append(line.as_str());
                proof {
                    assert(s@ =~= middle + epsilons_text(a, node.epsilon_edges, (k + 1) as nat));
                }
                k += 1;
            }
            a += 1;
        }
        s
    }

    /// Gives node `a` the final mark of node `b`, and appends the labelled
    /// and the silent edges of `b` to those of `a`.
    #[verifier::rlimit(40)]
    fn absorb(&mut self, a: usize, b: usize)
        requires
            old(self).wf(),
            a != b,
            a < old(self)@.len(),
            b < old(self)@.len(),
        ensures
            final(self).id() == old(self).id(),
            final(self)@ == old(self)@.update(
                a as int,
                NodeView {
                    is_final: old(self)@[a as int].is_final || old(self)@[b as int].is_final,
                    edges: old(self)@[a as int].edges + old(self)@[b as int].edges,
                    epsilon_edges: old(self)@[a as int].epsilon_edges + old(
                        self,
                    )@[b as int].epsilon_edges,
                },
            ),
    {
        let ghost before = self@;
        if self.nodes[b].is_final {
            self.nodes[a].is_final = true;
        }
        proof {
            assert(self.nodes@[b as int]@ == self@[b as int]);
            assert(self.nodes@[a as int]@ == self@[a as int]);
            assert(self@[a as int].edges =~= before[a as int].edges + before[b as int].edges.take(0));
        }
        let edges = self.nodes[b].edges.len();
        let mut i: usize = 0;
        while i < edges
            invariant
                i <= edges,
                a != b,
                self.id == old(self).id,
                self.nodes@.len() == before.len(),
                self@.len() == before.len(),
                a < before.len(),
                b < before.len(),
                edges == before[b as int].edges.len(),
                forall|x: int| 0 <= x < before.len() && x != a ==> #[trigger] self@[x] == before[x],
                self@[a as int].is_final == (before[a as int].is_final || before[b as int].is_final),
                self@[a as int].epsilon_edges == before[a as int].epsilon_edges,
                self@[a as int].edges == before[a as int].edges + before[b as int].edges.take(
                    i as int,
                ),
            decreases edges - i,
        {
            let ghost prev = self@;
            proof {
                assert(self.nodes@[b as int]@ == self@[b as int]);
                assert(self.nodes@[a as int]@ == self@[a as int]);
            }
            let c = self.nodes[b].edges[i];
            self.nodes[a].edges.push(c);
            proof {
                assert(self.nodes@[a as int]@ == self@[a as int]);
                assert(self@[a as int].edges == prev[a as int].edges.push(c));
                assert forall|x: int| 0 <= x < before.len() && x != a implies #[trigger] self@[x]
                    == before[x] by {
                    assert(self@[x] == prev[x]);
                }
                assert(self@[a as int].edges =~= before[a as int].edges + before[b as int].edges.take(
                    i + 1,
                ));
            }
            i += 1;
        }
        proof {
            assert(self.nodes@[b as int]@ == self@[b as int]);
            assert(self@[a as int].epsilon_edges =~= before[a as int].epsilon_edges
                + before[b as int].epsilon_edges.take(0));
        }
        let silent = self.nodes[b].epsilon_edges.len();
        let mut i: usize = 0;
        while i < silent
            invariant
                i <= silent,
                a != b,
                self.id == old(self).id,
                self.nodes@.len() == before.len(),
                self@.len() == before.len(),
                a < before.len(),
                b < before.len(),
                silent == before[b as int].epsilon_edges.len(),
                edges == before[b as int].edges.len(),
                forall|x: int| 0 <= x < before.len() && x != a ==> #[trigger] self@[x] == before[x],
                self@[a as int].is_final == (before[a as int].is_final || before[b as int].is_final),
                self@[a as int].edges == before[a as int].edges + before[b as int].edges.take(
                    edges as int,
                ),
                self@[a as int].epsilon_edges == before[a as int].epsilon_edges
                    + before[b as int].epsilon_edges.take(i as int),
            decreases silent - i,
        {
            let ghost prev = self@;
            proof {
                assert(self.nodes@[b as int]@ == self@[b as int]);
                assert(self.nodes@[a as int]@ == self@[a as int]);
            }
            let c = self.nodes[b].epsilon_edges[i];
            self.nodes[a].epsilon_edges.push(c);
            proof {
                assert(self.nodes@[a as int]@ == self@[a as int]);
                assert(self@[a as int].epsilon_edges == prev[a as int].epsilon_edges.push(c));
                assert forall|x: int| 0 <= x < before.len() && x != a implies #[trigger] self@[x]
                    == before[x] by {
                    assert(self@[x] == prev[x]);
                }
                assert(self@[a as int].epsilon_edges =~= before[a as int].epsilon_edges
                    + before[b as int].epsilon_edges.take(i + 1));
            }
            i += 1;
        }
        proof {
            assert(before[b as int].edges.take(edges as int) =~= before[b as int].edges);
            assert(before[b as int].epsilon_edges.take(silent as int)
                =~= before[b as int].epsilon_edges);
            assert(self@ =~= before.update(
                a as int,
                NodeView {
                    is_final: before[a as int].is_final || before[b as int].is_final,
                    edges: before[a as int].edges + before[b as int].edges,
                    epsilon_edges: before[a as int].epsilon_edges + before[b as int].epsilon_edges,
                },
            ));
        }
    }

    /// Folds all silent edges away, node by node in index order.
    ///
    /// A node takes up, one after the other, the nodes that its silent edges
    /// lead to: it becomes final where one of them is, and gets their
    /// labelled edges and, to be taken up in turn, their silent edges. A
    /// node is taken up once for each node that is worked on. Afterwards no
    /// silent edge is left, and every node is final, and has the labelled
    /// edges, as the nodes that were within its silent reach were and had.
    #[verifier::rlimit(40)]
    pub fn collapse_epsilons(&mut self)
        requires
            old(self).wf(),
        ensures
            final(self).wf(),
            final(self).id() == old(self).id(),
            collapsed(old(self)@, final(self)@),
    {
        let n = self.nodes.len();
        let ghost g = self@;
        let mut seen = BitVector::new(n);
        let mut a: usize = 0;
        while a < n
            invariant
                a <= n,
                n == g.len(),
                self.id == old(self).id,
                well_formed(g),
                self.wf(),
                collapsed_below(g, self@, a as int),
                seen@.len() == n,
            decreases n - a,
        {
            seen.reset();
            seen.set(a, true);
            let ghost start = self@;
            proof {
                lemma_sweep_begin(g, start, a as int);
                assert(seen@ =~= Seq::new(g.len(), |i: int| false).update(a as int, true));
            }
            while self.nodes[a].epsilon_edges.len() > 0
                invariant
                    a < n,
                    n == g.len(),
                    n == self.nodes@.len(),
                    self.id == old(self).id,
                    sweeping(g, start, self@, seen@, a as int),
                decreases count_unset(seen@), self@[a as int].epsilon_edges.len(),
            {
                let ghost cur = self@;
                let ghost marks = seen@;
                let b = self.nodes[a].epsilon_edges.pop().unwrap();
                let ghost popped = self@;
                proof {
                    assert(cur[a as int].epsilon_edges.last() == b);
                    assert(popped =~= cur.update(
                        a as int,
                        NodeView {
                            epsilon_edges: cur[a as int].epsilon_edges.drop_last(),
                            ..cur[a as int]
                        },
                    ));
                    assert(cur[a as int].epsilon_edges[cur[a as int].epsilon_edges.len() - 1] < n);
                }
                if seen.get(b) {
                    proof {
                        lemma_sweep_skip(g, start, cur, marks, a as int, popped);
                    }
                } else {
                    seen.set(b, true);
                    proof {
                        lemma_sweep_skip_shape(cur, popped, a as int);
                    }
                    self.absorb(a, b);
                    proof {
                        assert(self@ =~= cur.update(
                            a as int,
                            NodeView {
                                is_final: cur[a as int].is_final || cur[b as int].is_final,
                                edges: cur[a as int].edges + cur[b as int].edges,
                                epsilon_edges: cur[a as int].epsilon_edges.drop_last()
                                    + cur[b as int].epsilon_edges,
                            },
                        ));
                        lemma_sweep_take(g, start, cur, marks, a as int, self@);
                        lemma_count_unset_update(marks, b as int);
                    }
                }
            }
            proof {
                lemma_sweep_end(g, start, self@, seen@, a as int);
            }
            a += 1;
        }
    }
}

/// Dropping the last silent edge of a node keeps a graph well formed.
proof fn lemma_sweep_skip_shape(cur: Seq<NodeView>, popped: Seq<NodeView>, a: int)
    requires
        well_formed(cur),
        0 <= a < cur.len(),
        cur[a].epsilon_edges.len() > 0,
        popped == cur.update(
            a,
            NodeView { epsilon_edges: cur[a].epsilon_edges.drop_last(), ..cur[a] },
        ),
    ensures
        well_formed(popped),
{
    assert forall|x: int, k: int|
        0 <= x < popped.len() && 0 <= k < popped[x].epsilon_edges.len() implies #[trigger] popped[x].epsilon_edges[k]
        < popped.len() by {
        if x == a {
            assert(popped[x].epsilon_edges[k] == cur[a].epsilon_edges[k]);
        } else {
            assert(popped[x] == cur[x]);
        }
    }
    assert forall|x: int, k: int|
        0 <= x < popped.len() && 0 <= k < popped[x].edges.len() implies (#[trigger] popped[x].edges[k]).0
        < popped.len() by {
        assert(popped[x].edges == cur[x].edges);
    }
}

} // verus!
