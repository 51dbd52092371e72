//! Which nodes silent edges lead to, and what it means to have folded the
//! silent edges of a graph away.
use crate::regex::graph::{well_formed, NodeView};
use crate::utf8::{lemma_scalar_determines, UnicodeCodepoint};
use vstd::prelude::*;

verus! {

/// Whether `e` is an edge to `b` labelled `c`.
pub open spec fn edge_is(e: (usize, UnicodeCodepoint), c: UnicodeCodepoint, b: int) -> bool {
    e.0 == b && e.1@ == c@
}

/// Whether the node `node` has an edge to `b` labelled `c`.
pub open spec fn node_has_edge(node: NodeView, c: UnicodeCodepoint, b: int) -> bool {
    exists|k: int| 0 <= k < node.edges.len() && edge_is(#[trigger] node.edges[k], c, b)
}

/// Whether `g` has an edge from `a` to `b` labelled `c`.
pub open spec fn labelled_edge(g: Seq<NodeView>, a: int, c: UnicodeCodepoint, b: int) -> bool {
    0 <= a < g.len() && node_has_edge(g[a], c, b)
}

/// Whether `g` has a silent edge from `a` to `b`.
pub open spec fn silent_edge(g: Seq<NodeView>, a: int, b: int) -> bool {
    &&& 0 <= a < g.len()
    &&& exists|k: int|
        0 <= k < g[a].epsilon_edges.len() && #[trigger] g[a].epsilon_edges[k] == b
}

/// Whether at most `n` silent edges of `g` lead from `a` to `b`.
pub open spec fn silent_reach_in(g: Seq<NodeView>, a: int, b: int, n: nat) -> bool
    decreases n,
{
    a == b || (n > 0 && exists|m: int|
        #[trigger] silent_edge(g, a, m) && silent_reach_in(g, m, b, (n - 1) as nat))
}

/// Whether silent edges of `g` lead from `a` to `b`; none are needed where
/// `a` is `b`.
pub open spec fn silent_reach(g: Seq<NodeView>, a: int, b: int) -> bool {
    exists|n: nat| silent_reach_in(g, a, b, n)
}

/// Whether silent edges of `g` lead from `a` to a final node.
pub open spec fn final_within_reach(g: Seq<NodeView>, a: int) -> bool {
    exists|b: int| #[trigger] silent_reach(g, a, b) && 0 <= b < g.len() && g[b].is_final
}

/// Whether silent edges of `g` lead from `a` to a node that has an edge to
/// `b` labelled `c`.
pub open spec fn edge_within_reach(g: Seq<NodeView>, a: int, c: UnicodeCodepoint, b: int) -> bool {
    exists|m: int| #[trigger] silent_reach(g, a, m) && labelled_edge(g, m, c, b)
}

/// Whether `node` is what node `x` of `g` becomes when its silent edges are
/// folded away: it has no silent edge, it is final where a final node of `g`
/// was within silent reach of `x`, and its labelled edges are those of the
/// nodes of `g` within silent reach of `x`.
pub open spec fn node_collapsed(g: Seq<NodeView>, node: NodeView, x: int) -> bool {
    &&& node.epsilon_edges.len() == 0
    &&& node.is_final <==> final_within_reach(g, x)
    &&& forall|c: UnicodeCodepoint, b: int| #[trigger]
        node_has_edge(node, c, b) <==> edge_within_reach(g, x, c, b)
}

/// Whether the nodes of `cur` before `a` are those of `g` with their silent
/// edges folded away, and the others are as in `g`.
pub open spec fn collapsed_below(g: Seq<NodeView>, cur: Seq<NodeView>, a: int) -> bool {
    &&& cur.len() == g.len()
    &&& forall|x: int| 0 <= x < a && x < g.len() ==> node_collapsed(g, #[trigger] cur[x], x)
    &&& forall|x: int| a <= x < g.len() ==> #[trigger] cur[x] == g[x]
}

/// Whether `after` is `before` with all silent edges folded away.
pub open spec fn collapsed(before: Seq<NodeView>, after: Seq<NodeView>) -> bool {
    collapsed_below(before, after, before.len() as int)
}

pub proof fn lemma_reach_in_more(g: Seq<NodeView>, a: int, b: int, n: nat, m: nat)
    requires
        silent_reach_in(g, a, b, n),
        n <= m,
    ensures
        silent_reach_in(g, a, b, m),
    decreases n,
{
    if a != b {
        let t = choose|t: int|
            #[trigger] silent_edge(g, a, t) && silent_reach_in(g, t, b, (n - 1) as nat);
        lemma_reach_in_more(g, t, b, (n - 1) as nat, (m - 1) as nat);
    }
}

proof fn lemma_reach_in_chain(g: Seq<NodeView>, a: int, b: int, c: int, n: nat, m: nat)
    requires
        silent_reach_in(g, a, b, n),
        silent_reach_in(g, b, c, m),
    ensures
        silent_reach_in(g, a, c, n + m),
    decreases n,
{
    if a == b {
        lemma_reach_in_more(g, b, c, m, n + m);
    } else {
        let t = choose|t: int|
            #[trigger] silent_edge(g, a, t) && silent_reach_in(g, t, b, (n - 1) as nat);
        lemma_reach_in_chain(g, t, b, c, (n - 1) as nat, m);
        assert(silent_reach_in(g, t, c, ((n + m) - 1) as nat));
    }
}

/// Silent reach is reflexive.
pub proof fn lemma_reach_self(g: Seq<NodeView>, a: int)
    ensures
        silent_reach(g, a, a),
{
    assert(silent_reach_in(g, a, a, 0));
}

/// Silent reach is transitive.
pub proof fn lemma_reach_chain(g: Seq<NodeView>, a: int, b: int, c: int)
    requires
        silent_reach(g, a, b),
        silent_reach(g, b, c),
    ensures
        silent_reach(g, a, c),
{
    let n = choose|n: nat| silent_reach_in(g, a, b, n);
    let m = choose|m: nat| silent_reach_in(g, b, c, m);
    lemma_reach_in_chain(g, a, b, c, n, m);
}

/// A silent edge is within silent reach.
pub proof fn lemma_reach_edge(g: Seq<NodeView>, a: int, b: int)
    requires
        silent_edge(g, a, b),
    ensures
        silent_reach(g, a, b),
{
    assert(silent_reach_in(g, b, b, 0));
    assert(silent_reach_in(g, a, b, 1));
}

/// Whether `big` is final where `small` is, and has every labelled edge of
/// `small`.
pub open spec fn covers(big: NodeView, small: NodeView) -> bool {
    &&& small.is_final ==> big.is_final
    &&& forall|k: int|
        0 <= k < small.edges.len() ==> big.edges.contains(#[trigger] small.edges[k])
}

/// Whether node `c` has been taken up, or waits in `pending`.
pub open spec fn seen_or_pending(seen: Seq<bool>, pending: Seq<usize>, c: usize) -> bool {
    seen[c as int] || pending.contains(c)
}

/// The state of folding the silent edges of node `a` away: `g` is the graph
/// before any folding, `start` the graph when the work on `a` began, `cur`
/// the graph now, and `seen` marks the nodes taken up so far.
///
/// Whatever node `a` has gathered lies within its silent reach in `g`, and
/// whatever a node taken up has to give has been gathered or waits among the
/// silent edges of `a`.
pub open spec fn sweeping(
    g: Seq<NodeView>,
    start: Seq<NodeView>,
    cur: Seq<NodeView>,
    seen: Seq<bool>,
    a: int,
) -> bool {
    &&& 0 <= a < g.len()
    &&& start.len() == g.len()
    &&& cur.len() == g.len()
    &&& seen.len() == g.len()
    &&& well_formed(g)
    &&& well_formed(cur)
    &&& collapsed_below(g, start, a)
    &&& forall|x: int| 0 <= x < g.len() && x != a ==> #[trigger] cur[x] == start[x]
    &&& seen[a]
    &&& forall|b: int| 0 <= b < g.len() && #[trigger] seen[b] ==> silent_reach(g, a, b)
    &&& forall|k: int|
        0 <= k < cur[a].epsilon_edges.len() ==> silent_reach(
            g,
            a,
            #[trigger] cur[a].epsilon_edges[k] as int,
        )
    &&& cur[a].is_final ==> final_within_reach(g, a)
    &&& forall|k: int|
        0 <= k < cur[a].edges.len() ==> edge_within_reach(
            g,
            a,
            (#[trigger] cur[a].edges[k]).1,
            cur[a].edges[k].0 as int,
        )
    &&& covers(cur[a], g[a])
    &&& forall|b: int| 0 <= b < g.len() && #[trigger] seen[b] && b != a ==> covers(cur[a], start[b])
    &&& forall|b: int, k: int|
        0 <= b < g.len() && #[trigger] seen[b] && 0 <= k < start[b].epsilon_edges.len()
            ==> seen_or_pending(seen, cur[a].epsilon_edges, #[trigger] start[b].epsilon_edges[k])
}

/// The number of entries of `s` that are not set.
pub open spec fn count_unset(s: Seq<bool>) -> nat
    decreases s.len(),
{
    if s.len() == 0 {
        0
    } else {
        count_unset(s.drop_last()) + if s.last() {
            0nat
        } else {
            1nat
        }
    }
}

/// Setting an entry that was not set leaves one fewer unset.
pub proof fn lemma_count_unset_update(s: Seq<bool>, i: int)
    requires
        0 <= i < s.len(),
        !s[i],
    ensures
        count_unset(s.update(i, true)) + 1 == count_unset(s),
    decreases s.len(),
{
    let t = s.update(i, true);
    if i == s.len() - 1 {
        assert(t.drop_last() =~= s.drop_last());
    } else {
        lemma_count_unset_update(s.drop_last(), i);
        assert(t.drop_last() =~= s.drop_last().update(i, true));
    }
}

/// The work on node `a` begins with `a` alone taken up.
#[verifier::rlimit(40)]
pub proof fn lemma_sweep_begin(g: Seq<NodeView>, cur: Seq<NodeView>, a: int)
    requires
        0 <= a < g.len(),
        well_formed(g),
        well_formed(cur),
        collapsed_below(g, cur, a),
    ensures
        sweeping(g, cur, cur, Seq::new(g.len(), |i: int| false).update(a, true), a),
{
    let seen = Seq::new(g.len(), |i: int| false).update(a, true);
    lemma_reach_self(g, a);
    assert(cur[a] == g[a]);
    assert forall|k: int| 0 <= k < cur[a].epsilon_edges.len() implies silent_reach(
        g,
        a,
        #[trigger] cur[a].epsilon_edges[k] as int,
    ) by {
        lemma_reach_edge(g, a, cur[a].epsilon_edges[k] as int);
    }
    if cur[a].is_final {
        assert(silent_reach(g, a, a) && g[a].is_final);
    }
    assert forall|k: int| 0 <= k < cur[a].edges.len() implies edge_within_reach(
        g,
        a,
        (#[trigger] cur[a].edges[k]).1,
        cur[a].edges[k].0 as int,
    ) by {
        let e = cur[a].edges[k];
        assert(edge_is(g[a].edges[k], e.1, e.0 as int));
        assert(silent_reach(g, a, a) && labelled_edge(g, a, e.1, e.0 as int));
    }
    assert forall|b: int, k: int|
        0 <= b < g.len() && #[trigger] seen[b] && 0 <= k
            < cur[b].epsilon_edges.len() implies seen_or_pending(
        seen,
        cur[a].epsilon_edges,
        #[trigger] cur[b].epsilon_edges[k],
    ) by {
        assert(b == a);
    }
}

/// Dropping a waiting node that has been taken up before changes nothing.
#[verifier::rlimit(40)]
pub proof fn lemma_sweep_skip(
    g: Seq<NodeView>,
    start: Seq<NodeView>,
    cur: Seq<NodeView>,
    seen: Seq<bool>,
    a: int,
    next: Seq<NodeView>,
)
    requires
        sweeping(g, start, cur, seen, a),
        cur[a].epsilon_edges.len() > 0,
        seen[cur[a].epsilon_edges.last() as int],
        next == cur.update(
            a,
            NodeView { epsilon_edges: cur[a].epsilon_edges.drop_last(), ..cur[a] },
        ),
    ensures
        sweeping(g, start, next, seen, a),
{
    let b = cur[a].epsilon_edges.last();
    let pending = cur[a].epsilon_edges;
    assert forall|x: int, k: int|
        0 <= x < next.len() && 0 <= k < next[x].epsilon_edges.len() implies #[trigger] next[x].epsilon_edges[k]
        < next.len() by {
        if x == a {
            assert(next[x].epsilon_edges[k] == cur[a].epsilon_edges[k]);
        } else {
            assert(next[x] == cur[x]);
        }
    }
    assert forall|x: int, k: int|
        0 <= x < next.len() && 0 <= k < next[x].edges.len() implies (#[trigger] next[x].edges[k]).0
        < next.len() by {
        assert(next[x].edges == cur[x].edges);
    }
    assert forall|k: int| 0 <= k < next[a].epsilon_edges.len() implies silent_reach(
        g,
        a,
        #[trigger] next[a].epsilon_edges[k] as int,
    ) by {
        assert(next[a].epsilon_edges[k] == pending[k]);
    }
    assert forall|x: int, k: int|
        0 <= x < g.len() && #[trigger] seen[x] && 0 <= k
            < start[x].epsilon_edges.len() implies seen_or_pending(
        seen,
        next[a].epsilon_edges,
        #[trigger] start[x].epsilon_edges[k],
    ) by {
        let c = start[x].epsilon_edges[k];
        assert(seen_or_pending(seen, pending, c));
        if !seen[c as int] {
            let i = choose|i: int| 0 <= i < pending.len() && pending[i] == c;
            assert(i < pending.len() - 1);
            assert(next[a].epsilon_edges[i] == c);
        }
    }
}

/// Taking up a waiting node: node `a` gets its final mark, its labelled
/// edges, and its silent edges to wait in turn.
#[verifier::rlimit(40)]
pub proof fn lemma_sweep_take(
    g: Seq<NodeView>,
    start: Seq<NodeView>,
    cur: Seq<NodeView>,
    seen: Seq<bool>,
    a: int,
    next: Seq<NodeView>,
)
    requires
        sweeping(g, start, cur, seen, a),
        cur[a].epsilon_edges.len() > 0,
        !seen[cur[a].epsilon_edges.last() as int],
        ({
            let b = cur[a].epsilon_edges.last() as int;
            next == cur.update(
                a,
                NodeView {
                    is_final: cur[a].is_final || cur[b].is_final,
                    edges: cur[a].edges + cur[b].edges,
                    epsilon_edges: cur[a].epsilon_edges.drop_last() + cur[b].epsilon_edges,
                },
            )
        }),
    ensures
        sweeping(g, start, next, seen.update(cur[a].epsilon_edges.last() as int, true), a),
{
    let pending = cur[a].epsilon_edges;
    let b = pending.last() as int;
    let marked = seen.update(b, true);
    let kept = pending.drop_last();
    assert(pending[pending.len() - 1] == b);
    assert(0 <= b < g.len());
    assert(b != a);
    assert(cur[b] == start[b]);
    assert(silent_reach(g, a, b));
    if b < a {
        assert(node_collapsed(g, start[b], b));
    } else {
        assert(start[b] == g[b]);
    }
    // the graph stays well formed
    assert forall|x: int, k: int|
        0 <= x < next.len() && 0 <= k < next[x].epsilon_edges.len() implies #[trigger] next[x].epsilon_edges[k]
        < next.len() by {
        if x == a {
            if k < kept.len() {
                assert(next[a].epsilon_edges[k] == pending[k]);
            } else {
                assert(next[a].epsilon_edges[k] == cur[b].epsilon_edges[k - kept.len()]);
            }
        } else {
            assert(next[x] == cur[x]);
        }
    }
    assert forall|x: int, k: int|
        0 <= x < next.len() && 0 <= k < next[x].edges.len() implies (#[trigger] next[x].edges[k]).0
        < next.len() by {
        if x == a {
            if k < cur[a].edges.len() {
                assert(next[a].edges[k] == cur[a].edges[k]);
            } else {
                assert(next[a].edges[k] == cur[b].edges[k - cur[a].edges.len()]);
            }
        } else {
            assert(next[x] == cur[x]);
        }
    }
    // what was taken up lies within reach
    assert forall|x: int| 0 <= x < g.len() && #[trigger] marked[x] implies silent_reach(
        g,
        a,
        x,
    ) by {
        if x != b {
            assert(seen[x]);
        }
    }
    assert forall|k: int| 0 <= k < next[a].epsilon_edges.len() implies silent_reach(
        g,
        a,
        #[trigger] next[a].epsilon_edges[k] as int,
    ) by {
        if k < kept.len() {
            assert(next[a].epsilon_edges[k] == pending[k]);
        } else {
            let c = cur[b].epsilon_edges[k - kept.len()];
            assert(next[a].epsilon_edges[k] == c);
            assert(b >= a);
            assert(g[b].epsilon_edges[k - kept.len()] == c);
            assert(silent_edge(g, b, c as int));
            lemma_reach_edge(g, b, c as int);
            lemma_reach_chain(g, a, b, c as int);
        }
    }
    if next[a].is_final && !cur[a].is_final {
        if b < a {
            let y = choose|y: int| #[trigger]
                silent_reach(g, b, y) && 0 <= y < g.len() && g[y].is_final;
            lemma_reach_chain(g, a, b, y);
            assert(silent_reach(g, a, y) && 0 <= y < g.len() && g[y].is_final);
        } else {
            assert(silent_reach(g, a, b) && 0 <= b < g.len() && g[b].is_final);
        }
    }
    assert forall|k: int| 0 <= k < next[a].edges.len() implies edge_within_reach(
        g,
        a,
        (#[trigger] next[a].edges[k]).1,
        next[a].edges[k].0 as int,
    ) by {
        if k < cur[a].edges.len() {
            assert(next[a].edges[k] == cur[a].edges[k]);
        } else {
            let e = cur[b].edges[k - cur[a].edges.len()];
            assert(next[a].edges[k] == e);
            assert(edge_is(e, e.1, e.0 as int));
            if b < a {
                assert(node_has_edge(start[b], e.1, e.0 as int));
                assert(edge_within_reach(g, b, e.1, e.0 as int));
                let m = choose|m: int| #[trigger]
                    silent_reach(g, b, m) && labelled_edge(g, m, e.1, e.0 as int);
                lemma_reach_chain(g, a, b, m);
                assert(silent_reach(g, a, m) && labelled_edge(g, m, e.1, e.0 as int));
            } else {
                assert(node_has_edge(g[b], e.1, e.0 as int));
                assert(silent_reach(g, a, b) && labelled_edge(g, b, e.1, e.0 as int));
            }
        }
    }
    // what has been taken up has given what it had
    assert forall|k: int| 0 <= k < cur[a].edges.len() implies next[a].edges.contains(
        #[trigger] cur[a].edges[k],
    ) by {
        assert(next[a].edges[k] == cur[a].edges[k]);
    }
    assert forall|x: int| 0 <= x < g.len() && x != b && covers(cur[a], #[trigger] start[x])
        implies covers(next[a], start[x]) by {
        assert forall|k: int| 0 <= k < start[x].edges.len() implies next[a].edges.contains(
            #[trigger] start[x].edges[k],
        ) by {
            let e = start[x].edges[k];
            let i = choose|i: int| 0 <= i < cur[a].edges.len() && cur[a].edges[i] == e;
            assert(next[a].edges[i] == e);
        }
    }
    assert(covers(next[a], g[a])) by {
        assert forall|k: int| 0 <= k < g[a].edges.len() implies next[a].edges.contains(
            #[trigger] g[a].edges[k],
        ) by {
            let e = g[a].edges[k];
            let i = choose|i: int| 0 <= i < cur[a].edges.len() && cur[a].edges[i] == e;
            assert(next[a].edges[i] == e);
        }
    }
    assert(covers(next[a], start[b])) by {
        assert forall|k: int| 0 <= k < start[b].edges.len() implies next[a].edges.contains(
            #[trigger] start[b].edges[k],
        ) by {
            assert(next[a].edges[cur[a].edges.len() + k] == start[b].edges[k]);
        }
    }
    assert forall|x: int| 0 <= x < g.len() && #[trigger] marked[x] && x != a implies covers(
        next[a],
        start[x],
    ) by {
        if x != b {
            assert(seen[x]);
        }
    }
    assert forall|x: int, k: int|
        0 <= x < g.len() && #[trigger] marked[x] && 0 <= k
            < start[x].epsilon_edges.len() implies seen_or_pending(
        marked,
        next[a].epsilon_edges,
        #[trigger] start[x].epsilon_edges[k],
    ) by {
        let c = start[x].epsilon_edges[k];
        if x == b {
            assert(next[a].epsilon_edges[kept.len() + k] == c);
        } else {
            assert(seen[x]);
            assert(seen_or_pending(seen, pending, c));
            if !seen[c as int] && c != b {
                let i = choose|i: int| 0 <= i < pending.len() && pending[i] == c;
                assert(i < pending.len() - 1);
                assert(next[a].epsilon_edges[i] == c);
            }
        }
    }
}

/// Once nothing waits, node `a` has gathered all that lies within silent
/// reach of a node taken up.
#[verifier::rlimit(40)]
proof fn lemma_sweep_gathered(
    g: Seq<NodeView>,
    start: Seq<NodeView>,
    cur: Seq<NodeView>,
    seen: Seq<bool>,
    a: int,
    b: int,
    y: int,
    n: nat,
)
    requires
        sweeping(g, start, cur, seen, a),
        cur[a].epsilon_edges.len() == 0,
        0 <= b < g.len(),
        seen[b],
        silent_reach_in(g, b, y, n),
    ensures
        0 <= y < g.len(),
        covers(cur[a], g[y]),
    decreases n,
{
    if b < a {
        assert(node_collapsed(g, start[b], b));
        lemma_reach_within(g, b, y, n);
        assert(covers(cur[a], start[b]));
        if g[y].is_final {
            assert(silent_reach(g, b, y) && 0 <= y < g.len() && g[y].is_final);
        }
        assert forall|k: int| 0 <= k < g[y].edges.len() implies cur[a].edges.contains(
            #[trigger] g[y].edges[k],
        ) by {
            let e = g[y].edges[k];
            assert(edge_is(e, e.1, e.0 as int));
            assert(silent_reach(g, b, y) && labelled_edge(g, y, e.1, e.0 as int));
            assert(node_has_edge(start[b], e.1, e.0 as int));
            let i = choose|i: int|
                0 <= i < start[b].edges.len() && edge_is(
                    #[trigger] start[b].edges[i],
                    e.1,
                    e.0 as int,
                );
            lemma_scalar_determines(start[b].edges[i].1, e.1);
            assert(start[b].edges[i] == e);
            assert(cur[a].edges.contains(start[b].edges[i]));
        }
    } else {
        assert(start[b] == g[b]);
        if y == b {
        } else {
            let m = choose|m: int|
                #[trigger] silent_edge(g, b, m) && silent_reach_in(g, m, y, (n - 1) as nat);
            let k = choose|k: int|
                0 <= k < g[b].epsilon_edges.len() && #[trigger] g[b].epsilon_edges[k] == m;
            assert(seen_or_pending(seen, cur[a].epsilon_edges, start[b].epsilon_edges[k]));
            assert(!cur[a].epsilon_edges.contains(start[b].epsilon_edges[k]));
            lemma_sweep_gathered(g, start, cur, seen, a, m, y, (n - 1) as nat);
        }
    }
}

/// In a well-formed graph silent edges stay among the nodes.
pub proof fn lemma_reach_within(g: Seq<NodeView>, a: int, b: int, n: nat)
    requires
        well_formed(g),
        0 <= a < g.len(),
        silent_reach_in(g, a, b, n),
    ensures
        0 <= b < g.len(),
    decreases n,
{
    if a != b {
        let m = choose|m: int|
            #[trigger] silent_edge(g, a, m) && silent_reach_in(g, m, b, (n - 1) as nat);
        let k = choose|k: int|
            0 <= k < g[a].epsilon_edges.len() && #[trigger] g[a].epsilon_edges[k] == m;
        lemma_reach_within(g, m, b, (n - 1) as nat);
    }
}

/// Once nothing waits, the work on node `a` is done.
#[verifier::rlimit(40)]
pub proof fn lemma_sweep_end(
    g: Seq<NodeView>,
    start: Seq<NodeView>,
    cur: Seq<NodeView>,
    seen: Seq<bool>,
    a: int,
)
    requires
        sweeping(g, start, cur, seen, a),
        cur[a].epsilon_edges.len() == 0,
    ensures
        collapsed_below(g, cur, a + 1),
{
    if final_within_reach(g, a) {
        let y = choose|y: int| #[trigger] silent_reach(g, a, y) && 0 <= y < g.len() && g[y].is_final;
        let n = choose|n: nat| silent_reach_in(g, a, y, n);
        lemma_sweep_gathered(g, start, cur, seen, a, a, y, n);
    }
    assert forall|c: UnicodeCodepoint, t: int| #[trigger]
        node_has_edge(cur[a], c, t) <==> edge_within_reach(g, a, c, t) by {
        if node_has_edge(cur[a], c, t) {
            let k = choose|k: int|
                0 <= k < cur[a].edges.len() && edge_is(#[trigger] cur[a].edges[k], c, t);
            assert(edge_within_reach(g, a, cur[a].edges[k].1, cur[a].edges[k].0 as int));
        }
        if edge_within_reach(g, a, c, t) {
            let m = choose|m: int| #[trigger] silent_reach(g, a, m) && labelled_edge(g, m, c, t);
            let n = choose|n: nat| silent_reach_in(g, a, m, n);
            lemma_sweep_gathered(g, start, cur, seen, a, a, m, n);
            let k = choose|k: int| 0 <= k < g[m].edges.len() && edge_is(#[trigger] g[m].edges[k], c, t);
            assert(cur[a].edges.contains(g[m].edges[k]));
            let i = choose|i: int| 0 <= i < cur[a].edges.len() && cur[a].edges[i] == g[m].edges[k];
            assert(edge_is(cur[a].edges[i], c, t));
        }
    }
    assert(node_collapsed(g, cur[a], a));
    assert forall|x: int| 0 <= x < a + 1 && x < g.len() implies node_collapsed(
        g,
        #[trigger] cur[x],
        x,
    ) by {
        if x < a {
            assert(cur[x] == start[x]);
        }
    }
    assert forall|x: int| a + 1 <= x < g.len() implies #[trigger] cur[x] == g[x] by {
        assert(cur[x] == start[x]);
    }
}

/// Whether reading `s` may lead from node `a` of `g` to node `b`: along
/// labelled edges that spell `s`, with silent edges before, between and
/// after them.
pub open spec fn goes(g: Seq<NodeView>, a: int, s: Seq<UnicodeCodepoint>, b: int) -> bool
    decreases s.len(),
{
    if s.len() == 0 {
        silent_reach(g, a, b)
    } else {
        exists|p: int, q: int|
            goes(g, a, s.drop_last(), p) && #[trigger] labelled_edge(g, p, s.last(), q)
                && silent_reach(g, q, b)
    }
}

/// Whether the automaton `g` accepts `s`: reading `s` may lead from the
/// initial node to a final node.
pub open spec fn graph_accepts(g: Seq<NodeView>, s: Seq<UnicodeCodepoint>) -> bool {
    exists|b: int| #[trigger] goes(g, 0, s, b) && 0 <= b < g.len() && g[b].is_final
}

/// A way may go on along silent edges.
pub proof fn lemma_goes_on(g: Seq<NodeView>, a: int, s: Seq<UnicodeCodepoint>, b: int, y: int)
    requires
        goes(g, a, s, b),
        silent_reach(g, b, y),
    ensures
        goes(g, a, s, y),
{
    if s.len() == 0 {
        lemma_reach_chain(g, a, b, y);
    } else {
        let (p, q) = choose|p: int, q: int|
            goes(g, a, s.drop_last(), p) && #[trigger] labelled_edge(g, p, s.last(), q)
                && silent_reach(g, q, b);
        lemma_reach_chain(g, q, b, y);
        assert(goes(g, a, s.drop_last(), p) && labelled_edge(g, p, s.last(), q) && silent_reach(
            g,
            q,
            y,
        ));
    }
}

/// A labelled edge of a well-formed graph ends at one of its nodes.
pub proof fn lemma_edge_within(g: Seq<NodeView>, a: int, c: UnicodeCodepoint, b: int)
    requires
        well_formed(g),
        labelled_edge(g, a, c, b),
    ensures
        0 <= b < g.len(),
{
    let k = choose|k: int| 0 <= k < g[a].edges.len() && edge_is(#[trigger] g[a].edges[k], c, b);
    assert(g[a].edges[k].0 < g.len());
}

} // verus!
