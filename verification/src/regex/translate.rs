//! From the syntax tree to the automaton: alternatives are branches that
//! share a start and an end, parts that follow one another are chained, and
//! a starred part leads back to the node that it starts from.
use crate::regex::graph::{
    blank_node, lemma_same_node, with_edge, with_epsilon, with_final, with_node, Graph, NodeRef,
    NodeView,
};
use crate::regex::parse::{AltExpr, Atom, ConcatExpr, KleeneExpr, RegexAst};
use crate::utf8::Utf8DecodeError;
use vstd::prelude::*;

verus! {

/// The graph that a part is laid into, and the node that it ends at; or the
/// error of the first literal that does not decode.
pub type Laid = Result<(Seq<NodeView>, int), Utf8DecodeError>;

/// Lays one part into `g`, starting at node `prev`. A part without a star
/// ends at a new node, a starred part at `prev` itself. A literal becomes an
/// edge from `prev` to that end; of alternatives in parentheses each is laid
/// from `prev` to that end.
pub open spec fn lay_part(g: Seq<NodeView>, prev: int, part: &KleeneExpr) -> Laid
    decreases part, 0nat,
{
    let next = if part.star {
        prev
    } else {
        g.len() as int
    };
    let g1 = if part.star {
        g
    } else {
        with_node(g)
    };
    match part.atom {
        Atom::CharacterAtom(c) => match c.codepoint() {
            Ok(token) => Ok((with_edge(g1, prev, next as usize, token), next)),
            Err(e) => Err(e),
        },
        Atom::Capture { alt } => match lay_alts(g1, prev, next, &alt, alt.alts@.len()) {
            Ok(g2) => Ok((g2, next)),
            Err(e) => Err(e),
        },
    }
}

/// Lays the first `k` parts of `concat` into `g`, one after the other from
/// node `start` on.
pub open spec fn lay_parts(g: Seq<NodeView>, start: int, concat: &ConcatExpr, k: nat) -> Laid
    decreases concat, k,
{
    if k == 0 || k > concat.parts@.len() {
        Ok((g, start))
    } else {
        match lay_parts(g, start, concat, (k - 1) as nat) {
            Ok((g1, prev)) => lay_part(g1, prev, &concat.parts@[k - 1]),
            Err(e) => Err(e),
        }
    }
}

/// Lays `concat` into `g` from node `start` to node `end`: its parts one
/// after the other, and a silent edge to `end` from where they end, unless
/// that is `end`.
pub open spec fn lay_concat(g: Seq<NodeView>, start: int, end: int, concat: &ConcatExpr) -> Result<
    Seq<NodeView>,
    Utf8DecodeError,
>
    decreases concat, concat.parts@.len() + 1,
{
    match lay_parts(g, start, concat, concat.parts@.len()) {
        Ok((g1, prev)) => Ok(
            if prev != end {
                with_epsilon(g1, prev, end as usize)
            } else {
                g1
            },
        ),
        Err(e) => Err(e),
    }
}

/// Lays the first `k` alternatives of `alt` into `g`, each from node `start`
/// to node `end`.
pub open spec fn lay_alts(g: Seq<NodeView>, start: int, end: int, alt: &AltExpr, k: nat) -> Result<
    Seq<NodeView>,
    Utf8DecodeError,
>
    decreases alt, k,
{
    if k == 0 || k > alt.alts@.len() {
        Ok(g)
    } else {
        match lay_alts(g, start, end, alt, (k - 1) as nat) {
            Ok(g1) => lay_concat(g1, start, end, &alt.alts@[k - 1]),
            Err(e) => Err(e),
        }
    }
}

/// The graph that every pattern starts from: the initial node, and one
/// final node.
pub open spec fn initial_graph() -> Seq<NodeView> {
    with_final(with_node(seq![blank_node()]), 1)
}

/// The automaton of a pattern: each of its alternatives laid from the
/// initial node to the final node.
pub open spec fn automaton(ast: &RegexAst) -> Result<Seq<NodeView>, Utf8DecodeError> {
    lay_alts(initial_graph(), 0, 1, &ast.root, ast.root.alts@.len())
}

/// An error among the first parts is the error of all parts.
proof fn lemma_parts_error(g: Seq<NodeView>, start: int, concat: &ConcatExpr, k: nat, n: nat)
    requires
        k <= n <= concat.parts@.len(),
        lay_parts(g, start, concat, k) is Err,
    ensures
        lay_parts(g, start, concat, n) == lay_parts(g, start, concat, k),
    decreases n - k,
{
    if k < n {
        lemma_parts_error(g, start, concat, k, (n - 1) as nat);
    }
}

/// An error among the first alternatives is the error of all alternatives.
pub proof fn lemma_alts_error(g: Seq<NodeView>, start: int, end: int, alt: &AltExpr, k: nat, n: nat)
    requires
        k <= n <= alt.alts@.len(),
        lay_alts(g, start, end, alt, k) is Err,
    ensures
        lay_alts(g, start, end, alt, n) == lay_alts(g, start, end, alt, k),
    decreases n - k,
{
    if k < n {
        lemma_alts_error(g, start, end, alt, k, (n - 1) as nat);
    }
}

/// Lays the alternative `alt` into `graph` from `start` to `end`. The first
/// literal that does not decode ends the work with its error.
#[verifier::rlimit(40)]
pub fn add_alt(graph: &mut Graph, start: NodeRef, end: NodeRef, alt: &ConcatExpr) -> (r: Result<
    (),
    Utf8DecodeError,
>)
    requires
        old(graph).wf(),
        old(graph).owns(start),
        old(graph).owns(end),
        alt.wf(),
    ensures
        final(graph).wf(),
        final(graph).id() == old(graph).id(),
        old(graph)@.len() <= final(graph)@.len(),
        match r {
            Ok(()) => {
                &&& lay_concat(old(graph)@, start.index() as int, end.index() as int, alt) == Ok::<
                    Seq<NodeView>,
                    Utf8DecodeError,
                >(final(graph)@)
                &&& final(graph)@.len() <= old(graph)@.len() + alt.source().len()
            },
            Err(e) => lay_concat(old(graph)@, start.index() as int, end.index() as int, alt)
                == Err::<Seq<NodeView>, Utf8DecodeError>(e),
        },
    decreases alt,
{
    let ghost g0 = graph@;
    let ghost from = start.index() as int;
    let mut prev = start;
    let n = alt.parts.len();
    let mut k: usize = 0;
    while k < n
        invariant
            k <= n,
            n == alt.parts@.len(),
            alt.wf(),
            graph.wf(),
            graph.id() == old(graph).id(),
            graph.owns(start),
            graph.owns(end),
            graph.owns(prev),
            g0 == old(graph)@,
            from == start.index(),
            g0.len() <= graph@.len() <= g0.len() + alt.source_upto(k as nat).len(),
            lay_parts(g0, from, alt, k as nat) == Ok::<(Seq<NodeView>, int), Utf8DecodeError>(
                (graph@, prev.index() as int),
            ),
        decreases n - k,
    {
        let part = &alt.parts[k];
        let ghost gk = graph@;
        let ghost at = prev.index() as int;
        proof {
            assert(alt.parts@[k as int].wf());
        }
        let next = if part.star {
            prev
        } else {
            graph.add_node()
        };
        let ghost g1 = graph@;
        match &part.atom {
            Atom::CharacterAtom(c) => {
                proof {
                    c.lemma_wf_decodes_to_one();
                }
                let token = match c.to_codepoint() {
                    Ok(token) => token,
                    Err(e) => {
                        proof {
                            assert(lay_part(gk, at, part) is Err);
                            lemma_parts_error(g0, from, alt, (k + 1) as nat, n as nat);
                        }
                        return Err(e);
                    },
                };
                graph.connect(prev, next, token);
                proof {
                    assert(c.source().len() >= 1);
                }
            },
            Atom::Capture { alt: inner } => {
                let m = inner.alts.len();
                let mut j: usize = 0;
                while j < m
                    invariant
                        j <= m,
                        m == inner.alts@.len(),
                        inner.wf(),
                        graph.wf(),
                        graph.id() == old(graph).id(),
                        graph.owns(start),
                        graph.owns(end),
                        graph.owns(prev),
                        graph.owns(next),
                        at == prev.index(),
                        part == alt.parts@[k as int],
                        part.atom == (Atom::Capture { alt: *inner }),
                        k < n,
                        n == alt.parts@.len(),
                        g0 == old(graph)@,
                        from == start.index(),
                        g0.len() <= g1.len(),
                        g1 == (if part.star {
                            gk
                        } else {
                            with_node(gk)
                        }),
                        next.index() as int == (if part.star {
                            at
                        } else {
                            gk.len() as int
                        }),
                        lay_parts(g0, from, alt, k as nat) == Ok::<
                            (Seq<NodeView>, int),
                            Utf8DecodeError,
                        >((gk, at)),
                        g1.len() <= graph@.len() <= g1.len() + inner.source_upto(j as nat).len(),
                        lay_alts(g1, at, next.index() as int, inner, j as nat) == Ok::<
                            Seq<NodeView>,
                            Utf8DecodeError,
                        >(graph@),
                    decreases m - j,
                {
                    proof {
                        assert(inner.alts@[j as int].wf());
                    }
                    match add_alt(graph, prev, next, &inner.alts[j]) {
                        Ok(()) => {},
                        Err(e) => {
                            proof {
                                assert(lay_alts(g1, at, next.index() as int, inner, (j + 1) as nat)
                                    is Err);
                                lemma_alts_error(
                                    g1,
                                    at,
                                    next.index() as int,
                                    inner,
                                    (j + 1) as nat,
                                    m as nat,
                                );
                                assert(lay_part(gk, at, part) is Err);
                                lemma_parts_error(g0, from, alt, (k + 1) as nat, n as nat);
                            }
                            return Err(e);
                        },
                    }
                    j += 1;
                }
            },
        }
        proof {
            assert(lay_part(gk, at, part) == Ok::<(Seq<NodeView>, int), Utf8DecodeError>(
                (graph@, next.index() as int),
            ));
            assert(alt.source_upto((k + 1) as nat).len() == alt.source_upto(k as nat).len()
                + part.source().len());
        }
        prev = next;
        k += 1;
    }
    proof {
        if prev.index() == end.index() {
            lemma_same_node(prev, end);
        }
    }
    if prev != end {
        graph.connect_epsilon(prev, end);
    }
    Ok(())
}

} // verus!
