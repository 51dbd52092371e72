//! What a pattern means, and how the automaton that is laid for it relates
//! to that.
use crate::regex::closure::{
    edge_is, goes, graph_accepts, labelled_edge, lemma_reach_chain, lemma_reach_edge,
    lemma_reach_self, silent_edge, silent_reach, silent_reach_in,
};
use crate::regex::graph::{
    well_formed, with_edge, with_epsilon, with_node, NodeView,
};
use crate::regex::parse::{AltExpr, Atom, ConcatExpr, KleeneExpr, RegexAst};
use crate::regex::translate::{
    automaton, initial_graph, lay_alts, lay_concat, lay_part, lay_parts,
};
use crate::utf8::{lemma_scalar_determines, UnicodeCodepoint, Utf8DecodeError};
use vstd::prelude::*;

verus! {

/// A string of codepoints.
pub type Word = Seq<UnicodeCodepoint>;

/// Whether the atom matches `s`: a literal matches the one codepoint that it
/// stands for, alternatives in parentheses match what one of them matches.
pub open spec fn atom_matches(atom: &Atom, s: Word) -> bool
    decreases atom, 0nat, 0nat,
{
    match atom {
        Atom::CharacterAtom(c) => s.len() == 1 && c.codepoint() == Ok::<
            UnicodeCodepoint,
            Utf8DecodeError,
        >(s[0]),
        Atom::Capture { alt } => alt_matches(alt, s),
    }
}

/// Whether `s` is any number of strings that the atom matches, one after
/// the other.
pub open spec fn atom_star_matches(atom: &Atom, s: Word) -> bool
    decreases atom, 1nat, s.len(),
{
    s.len() == 0 || exists|k: int|
        0 < k <= s.len() && atom_matches(atom, #[trigger] s.take(k)) && atom_star_matches(
            atom,
            s.skip(k),
        )
}

/// Whether the part matches `s`: what its atom matches, and with a star any
/// number of such strings, one after the other.
pub open spec fn part_matches(part: &KleeneExpr, s: Word) -> bool
    decreases part, 0nat, 0nat,
{
    if part.star {
        atom_star_matches(&part.atom, s)
    } else {
        atom_matches(&part.atom, s)
    }
}

/// Whether the parts of `concat` from part `i` on match `s`: each part a
/// piece of it, in their order.
pub open spec fn parts_match(concat: &ConcatExpr, i: nat, s: Word) -> bool
    decreases concat, concat.parts@.len() - i, 0nat,
{
    if i >= concat.parts@.len() {
        s.len() == 0
    } else {
        exists|k: int|
            0 <= k <= s.len() && part_matches(&concat.parts@[i as int], #[trigger] s.take(k))
                && parts_match(concat, i + 1, s.skip(k))
    }
}

/// Whether `concat` matches `s`.
pub open spec fn concat_matches(concat: &ConcatExpr, s: Word) -> bool
    decreases concat, concat.parts@.len() + 1, 0nat,
{
    parts_match(concat, 0, s)
}

/// Whether one of the alternatives matches `s`.
pub open spec fn alt_matches(alt: &AltExpr, s: Word) -> bool
    decreases alt, 0nat, 0nat,
{
    exists|j: int| 0 <= j < alt.alts@.len() && concat_matches(#[trigger] &alt.alts@[j], s)
}

/// Whether the pattern matches `s`, taken as a whole.
pub open spec fn pattern_matches(ast: &RegexAst, s: Word) -> bool {
    alt_matches(&ast.root, s)
}

/// Whether `h` has the nodes and the edges of `g`, and maybe more, with the
/// final marks of `g` and no others.
pub open spec fn extends(g: Seq<NodeView>, h: Seq<NodeView>) -> bool {
    &&& g.len() <= h.len()
    &&& forall|v: int| 0 <= v < g.len() ==> (#[trigger] h[v]).is_final == g[v].is_final
    &&& forall|v: int| g.len() <= v < h.len() ==> !(#[trigger] h[v]).is_final
    &&& forall|v: int, c: UnicodeCodepoint, w: int| #[trigger]
        labelled_edge(g, v, c, w) ==> labelled_edge(h, v, c, w)
    &&& forall|v: int, w: int| #[trigger] silent_edge(g, v, w) ==> silent_edge(h, v, w)
}

pub proof fn lemma_extends_node(g: Seq<NodeView>)
    ensures
        extends(g, with_node(g)),
{
    let h = with_node(g);
    assert forall|v: int, c: UnicodeCodepoint, w: int| #[trigger]
        labelled_edge(g, v, c, w) implies labelled_edge(h, v, c, w) by {
        assert(h[v] == g[v]);
    }
    assert forall|v: int, w: int| #[trigger] silent_edge(g, v, w) implies silent_edge(h, v, w) by {
        assert(h[v] == g[v]);
    }
}

pub proof fn lemma_extends_edge(g: Seq<NodeView>, x: int, y: usize, token: UnicodeCodepoint)
    requires
        0 <= x < g.len(),
    ensures
        extends(g, with_edge(g, x, y, token)),
        labelled_edge(with_edge(g, x, y, token), x, token, y as int),
{
    let h = with_edge(g, x, y, token);
    assert forall|v: int, c: UnicodeCodepoint, w: int| #[trigger]
        labelled_edge(g, v, c, w) implies labelled_edge(h, v, c, w) by {
        let k = choose|k: int| 0 <= k < g[v].edges.len() && edge_is(#[trigger] g[v].edges[k], c, w);
        if v == x {
            assert(h[v].edges[k] == g[v].edges[k]);
        } else {
            assert(h[v] == g[v]);
        }
        assert(edge_is(h[v].edges[k], c, w));
    }
    assert forall|v: int, w: int| #[trigger] silent_edge(g, v, w) implies silent_edge(h, v, w) by {
        let k = choose|k: int|
            0 <= k < g[v].epsilon_edges.len() && #[trigger] g[v].epsilon_edges[k] == w;
        assert(h[v].epsilon_edges[k] == w);
    }
    assert(edge_is(h[x].edges[g[x].edges.len() as int], token, y as int));
}

pub proof fn lemma_extends_epsilon(g: Seq<NodeView>, x: int, y: usize)
    requires
        0 <= x < g.len(),
    ensures
        extends(g, with_epsilon(g, x, y)),
        silent_edge(with_epsilon(g, x, y), x, y as int),
{
    let h = with_epsilon(g, x, y);
    assert forall|v: int, c: UnicodeCodepoint, w: int| #[trigger]
        labelled_edge(g, v, c, w) implies labelled_edge(h, v, c, w) by {
        let k = choose|k: int| 0 <= k < g[v].edges.len() && edge_is(#[trigger] g[v].edges[k], c, w);
        assert(h[v].edges[k] == g[v].edges[k]);
        assert(edge_is(h[v].edges[k], c, w));
    }
    assert forall|v: int, w: int| #[trigger] silent_edge(g, v, w) implies silent_edge(h, v, w) by {
        let k = choose|k: int|
            0 <= k < g[v].epsilon_edges.len() && #[trigger] g[v].epsilon_edges[k] == w;
        if v == x {
            assert(h[v].epsilon_edges[k] == g[v].epsilon_edges[k]);
        } else {
            assert(h[v] == g[v]);
        }
    }
    assert(h[x].epsilon_edges[g[x].epsilon_edges.len() as int] == y);
}

proof fn lemma_reach_in_extends(g: Seq<NodeView>, h: Seq<NodeView>, a: int, b: int, n: nat)
    requires
        extends(g, h),
        silent_reach_in(g, a, b, n),
    ensures
        silent_reach_in(h, a, b, n),
    decreases n,
{
    if a != b {
        let m = choose|m: int|
            #[trigger] silent_edge(g, a, m) && silent_reach_in(g, m, b, (n - 1) as nat);
        lemma_reach_in_extends(g, h, m, b, (n - 1) as nat);
        assert(silent_edge(h, a, m));
    }
}

/// What is within silent reach stays so when a graph grows.
pub proof fn lemma_reach_extends(g: Seq<NodeView>, h: Seq<NodeView>, a: int, b: int)
    requires
        extends(g, h),
        silent_reach(g, a, b),
    ensures
        silent_reach(h, a, b),
{
    let n = choose|n: nat| silent_reach_in(g, a, b, n);
    lemma_reach_in_extends(g, h, a, b, n);
}

/// A way stays a way when a graph grows.
pub proof fn lemma_goes_extends(g: Seq<NodeView>, h: Seq<NodeView>, a: int, s: Word, b: int)
    requires
        extends(g, h),
        goes(g, a, s, b),
    ensures
        goes(h, a, s, b),
    decreases s.len(),
{
    if s.len() == 0 {
        lemma_reach_extends(g, h, a, b);
    } else {
        let (p, q) = choose|p: int, q: int|
            goes(g, a, s.drop_last(), p) && #[trigger] labelled_edge(g, p, s.last(), q)
                && silent_reach(g, q, b);
        lemma_goes_extends(g, h, a, s.drop_last(), p);
        lemma_reach_extends(g, h, q, b);
        assert(goes(h, a, s.drop_last(), p) && labelled_edge(h, p, s.last(), q) && silent_reach(
            h,
            q,
            b,
        ));
    }
}

/// Two ways, one after the other, are a way.
pub proof fn lemma_goes_chain(g: Seq<NodeView>, a: int, s: Word, m: int, t: Word, b: int)
    requires
        goes(g, a, s, m),
        goes(g, m, t, b),
    ensures
        goes(g, a, s + t, b),
    decreases t.len(),
{
    if t.len() == 0 {
        assert(s + t =~= s);
        crate::regex::closure::lemma_goes_on(g, a, s, m, b);
    } else {
        let (p, q) = choose|p: int, q: int|
            goes(g, m, t.drop_last(), p) && #[trigger] labelled_edge(g, p, t.last(), q)
                && silent_reach(g, q, b);
        lemma_goes_chain(g, a, s, m, t.drop_last(), p);
        let st = s + t;
        assert(st.drop_last() =~= s + t.drop_last());
        assert(st.last() == t.last());
        assert(goes(g, a, st.drop_last(), p) && labelled_edge(g, p, st.last(), q) && silent_reach(
            g,
            q,
            b,
        ));
    }
}

/// One labelled edge is a way.
pub proof fn lemma_goes_edge(g: Seq<NodeView>, a: int, c: UnicodeCodepoint, b: int)
    requires
        labelled_edge(g, a, c, b),
    ensures
        goes(g, a, seq![c], b),
{
    let s = seq![c];
    lemma_reach_self(g, a);
    lemma_reach_self(g, b);
    assert(s.drop_last() =~= Seq::<UnicodeCodepoint>::empty());
    assert(goes(g, a, s.drop_last(), a));
    assert(goes(g, a, s.drop_last(), a) && labelled_edge(g, a, s.last(), b) && silent_reach(
        g,
        b,
        b,
    ));
}

/// Laying a part lets the graph grow, and ends at one of its nodes.
pub proof fn lemma_lay_part_extends(g: Seq<NodeView>, prev: int, part: &KleeneExpr)
    requires
        0 <= prev < g.len(),
        lay_part(g, prev, part) is Ok,
    ensures
        extends(g, lay_part(g, prev, part).unwrap().0),
        0 <= lay_part(g, prev, part).unwrap().1 < lay_part(g, prev, part).unwrap().0.len(),
    decreases part, 0nat,
{
    let next = if part.star {
        prev
    } else {
        g.len() as int
    };
    let g1 = if part.star {
        g
    } else {
        with_node(g)
    };
    lemma_extends_node(g);
    match part.atom {
        Atom::CharacterAtom(c) => {
            lemma_extends_edge(g1, prev, next as usize, c.codepoint().unwrap());
        },
        Atom::Capture { alt } => {
            lemma_lay_alts_extends(g1, prev, next, &alt, alt.alts@.len());
        },
    }
}

/// Laying parts lets the graph grow, and ends at one of its nodes.
pub proof fn lemma_lay_parts_extends(g: Seq<NodeView>, start: int, concat: &ConcatExpr, k: nat)
    requires
        0 <= start < g.len(),
        lay_parts(g, start, concat, k) is Ok,
    ensures
        extends(g, lay_parts(g, start, concat, k).unwrap().0),
        0 <= lay_parts(g, start, concat, k).unwrap().1 < lay_parts(
            g,
            start,
            concat,
            k,
        ).unwrap().0.len(),
    decreases concat, k,
{
    if !(k == 0 || k > concat.parts@.len()) {
        lemma_lay_parts_extends(g, start, concat, (k - 1) as nat);
        let (g1, prev) = lay_parts(g, start, concat, (k - 1) as nat).unwrap();
        lemma_lay_part_extends(g1, prev, &concat.parts@[k - 1]);
    }
}

/// Laying one alternative lets the graph grow.
pub proof fn lemma_lay_concat_extends(
    g: Seq<NodeView>,
    start: int,
    end: int,
    concat: &ConcatExpr,
)
    requires
        0 <= start < g.len(),
        0 <= end < g.len(),
        lay_concat(g, start, end, concat) is Ok,
    ensures
        extends(g, lay_concat(g, start, end, concat).unwrap()),
    decreases concat, concat.parts@.len() + 1,
{
    lemma_lay_parts_extends(g, start, concat, concat.parts@.len());
    let (g1, prev) = lay_parts(g, start, concat, concat.parts@.len()).unwrap();
    if prev != end {
        lemma_extends_epsilon(g1, prev, end as usize);
    }
}

/// Laying alternatives lets the graph grow.
pub proof fn lemma_lay_alts_extends(
    g: Seq<NodeView>,
    start: int,
    end: int,
    alt: &AltExpr,
    k: nat,
)
    requires
        0 <= start < g.len(),
        0 <= end < g.len(),
        lay_alts(g, start, end, alt, k) is Ok,
    ensures
        extends(g, lay_alts(g, start, end, alt, k).unwrap()),
    decreases alt, k,
{
    if !(k == 0 || k > alt.alts@.len()) {
        lemma_lay_alts_extends(g, start, end, alt, (k - 1) as nat);
        let g1 = lay_alts(g, start, end, alt, (k - 1) as nat).unwrap();
        lemma_lay_concat_extends(g1, start, end, &alt.alts@[k - 1]);
    }
}

/// The parts laid later let the graph of the parts laid before grow.
pub proof fn lemma_lay_parts_between(
    g: Seq<NodeView>,
    start: int,
    concat: &ConcatExpr,
    i: nat,
    k: nat,
)
    requires
        0 <= start < g.len(),
        i <= k <= concat.parts@.len(),
        lay_parts(g, start, concat, k) is Ok,
    ensures
        lay_parts(g, start, concat, i) is Ok,
        extends(lay_parts(g, start, concat, i).unwrap().0, lay_parts(g, start, concat, k).unwrap().0),
    decreases k - i,
{
    if i < k {
        lemma_lay_parts_between(g, start, concat, i, (k - 1) as nat);
        lemma_lay_parts_extends(g, start, concat, (k - 1) as nat);
        let (g1, prev) = lay_parts(g, start, concat, (k - 1) as nat).unwrap();
        lemma_lay_part_extends(g1, prev, &concat.parts@[k - 1]);
    }
}

/// The alternatives laid later let the graph of those laid before grow.
pub proof fn lemma_lay_alts_between(
    g: Seq<NodeView>,
    start: int,
    end: int,
    alt: &AltExpr,
    i: nat,
    k: nat,
)
    requires
        0 <= start < g.len(),
        0 <= end < g.len(),
        i <= k <= alt.alts@.len(),
        lay_alts(g, start, end, alt, k) is Ok,
    ensures
        lay_alts(g, start, end, alt, i) is Ok,
        extends(lay_alts(g, start, end, alt, i).unwrap(), lay_alts(g, start, end, alt, k).unwrap()),
    decreases k - i,
{
    if i < k {
        lemma_lay_alts_between(g, start, end, alt, i, (k - 1) as nat);
        lemma_lay_alts_extends(g, start, end, alt, (k - 1) as nat);
        let g1 = lay_alts(g, start, end, alt, (k - 1) as nat).unwrap();
        lemma_lay_concat_extends(g1, start, end, &alt.alts@[k - 1]);
    }
}

/// What the atom of a part matches is a way through what is laid for the
/// part.
#[verifier::rlimit(40)]
pub proof fn lemma_atom_goes(g: Seq<NodeView>, prev: int, part: &KleeneExpr, s: Word)
    requires
        0 <= prev < g.len(),
        lay_part(g, prev, part) is Ok,
        lay_part(g, prev, part).unwrap().0.len() <= usize::MAX,
        atom_matches(&part.atom, s),
    ensures
        goes(lay_part(g, prev, part).unwrap().0, prev, s, lay_part(g, prev, part).unwrap().1),
    decreases part, 0nat, 0nat,
{
    let next = if part.star {
        prev
    } else {
        g.len() as int
    };
    let g1 = if part.star {
        g
    } else {
        with_node(g)
    };
    lemma_lay_part_extends(g, prev, part);
    lemma_extends_node(g);
    match part.atom {
        Atom::CharacterAtom(c) => {
            lemma_extends_edge(g1, prev, next as usize, s[0]);
            lemma_goes_edge(with_edge(g1, prev, next as usize, s[0]), prev, s[0], next);
            assert(s =~= seq![s[0]]);
        },
        Atom::Capture { alt } => {
            let j = choose|j: int|
                0 <= j < alt.alts@.len() && concat_matches(#[trigger] &alt.alts@[j], s);
            lemma_lay_alts_extends(g1, prev, next, &alt, alt.alts@.len());
            lemma_alts_goes(g1, prev, next, &alt, alt.alts@.len(), j, s);
        },
    }
}

/// What the atom of a starred part matches any number of times over is a
/// way through what is laid for the part, back to where it starts.
pub proof fn lemma_star_goes(g: Seq<NodeView>, prev: int, part: &KleeneExpr, s: Word)
    requires
        0 <= prev < g.len(),
        part.star,
        lay_part(g, prev, part) is Ok,
        lay_part(g, prev, part).unwrap().0.len() <= usize::MAX,
        atom_star_matches(&part.atom, s),
    ensures
        lay_part(g, prev, part).unwrap().1 == prev,
        goes(lay_part(g, prev, part).unwrap().0, prev, s, prev),
    decreases part, 1nat, s.len(),
{
    let g2 = lay_part(g, prev, part).unwrap().0;
    if s.len() == 0 {
        lemma_reach_self(g2, prev);
    } else {
        let k = choose|k: int|
            0 < k <= s.len() && atom_matches(&part.atom, #[trigger] s.take(k))
                && atom_star_matches(&part.atom, s.skip(k));
        lemma_atom_goes(g, prev, part, s.take(k));
        lemma_star_goes(g, prev, part, s.skip(k));
        lemma_goes_chain(g2, prev, s.take(k), prev, s.skip(k), prev);
        assert(s.take(k) + s.skip(k) =~= s);
    }
}

/// What a part matches is a way through what is laid for it.
pub proof fn lemma_part_goes(g: Seq<NodeView>, prev: int, part: &KleeneExpr, s: Word)
    requires
        0 <= prev < g.len(),
        lay_part(g, prev, part) is Ok,
        lay_part(g, prev, part).unwrap().0.len() <= usize::MAX,
        part_matches(part, s),
    ensures
        goes(lay_part(g, prev, part).unwrap().0, prev, s, lay_part(g, prev, part).unwrap().1),
    decreases part, 2nat, 0nat,
{
    if part.star {
        lemma_star_goes(g, prev, part, s);
    } else {
        lemma_atom_goes(g, prev, part, s);
    }
}

/// What the parts from part `i` on match is a way through what is laid for
/// all parts, from where part `i` starts to where the last part ends.
#[verifier::rlimit(40)]
pub proof fn lemma_parts_goes(g: Seq<NodeView>, start: int, concat: &ConcatExpr, i: nat, s: Word)
    requires
        0 <= start < g.len(),
        i <= concat.parts@.len(),
        lay_parts(g, start, concat, concat.parts@.len()) is Ok,
        lay_parts(g, start, concat, concat.parts@.len()).unwrap().0.len() <= usize::MAX,
        parts_match(concat, i, s),
    ensures
        lay_parts(g, start, concat, i) is Ok,
        goes(
            lay_parts(g, start, concat, concat.parts@.len()).unwrap().0,
            lay_parts(g, start, concat, i).unwrap().1,
            s,
            lay_parts(g, start, concat, concat.parts@.len()).unwrap().1,
        ),
    decreases concat, concat.parts@.len() - i, 0nat,
{
    let n = concat.parts@.len();
    let (gn, pn) = lay_parts(g, start, concat, n).unwrap();
    lemma_lay_parts_between(g, start, concat, i, n);
    if i >= n {
        lemma_reach_self(gn, pn);
    } else {
        let k = choose|k: int|
            0 <= k <= s.len() && part_matches(&concat.parts@[i as int], #[trigger] s.take(k))
                && parts_match(concat, i + 1, s.skip(k));
        lemma_lay_parts_between(g, start, concat, i + 1, n);
        let (gi, pi) = lay_parts(g, start, concat, i).unwrap();
        let (gj, pj) = lay_parts(g, start, concat, i + 1).unwrap();
        lemma_lay_parts_extends(g, start, concat, i);
        assert(lay_part(gi, pi, &concat.parts@[i as int]) == Ok::<
            (Seq<NodeView>, int),
            Utf8DecodeError,
        >((gj, pj)));
        lemma_part_goes(gi, pi, &concat.parts@[i as int], s.take(k));
        lemma_goes_extends(gj, gn, pi, s.take(k), pj);
        lemma_parts_goes(g, start, concat, i + 1, s.skip(k));
        lemma_goes_chain(gn, pi, s.take(k), pj, s.skip(k), pn);
        assert(s.take(k) + s.skip(k) =~= s);
    }
}

/// What an alternative matches is a way through what is laid for it, from
/// its start to its end.
pub proof fn lemma_concat_goes(
    g: Seq<NodeView>,
    start: int,
    end: int,
    concat: &ConcatExpr,
    s: Word,
)
    requires
        0 <= start < g.len(),
        0 <= end < g.len(),
        lay_concat(g, start, end, concat) is Ok,
        lay_concat(g, start, end, concat).unwrap().len() <= usize::MAX,
        concat_matches(concat, s),
    ensures
        goes(lay_concat(g, start, end, concat).unwrap(), start, s, end),
    decreases concat, concat.parts@.len() + 1, 0nat,
{
    let n = concat.parts@.len();
    let (gn, pn) = lay_parts(g, start, concat, n).unwrap();
    let laid = lay_concat(g, start, end, concat).unwrap();
    lemma_lay_parts_extends(g, start, concat, n);
    assert(laid.len() == gn.len());
    lemma_parts_goes(g, start, concat, 0, s);
    if pn != end {
        lemma_extends_epsilon(gn, pn, end as usize);
        lemma_goes_extends(gn, laid, start, s, pn);
        lemma_reach_edge(laid, pn, end);
        crate::regex::closure::lemma_goes_on(laid, start, s, pn, end);
    }
}

/// What alternative `j` matches is a way through what is laid for the
/// first `k` alternatives, of which it is one.
pub proof fn lemma_alts_goes(
    g: Seq<NodeView>,
    start: int,
    end: int,
    alt: &AltExpr,
    k: nat,
    j: int,
    s: Word,
)
    requires
        0 <= start < g.len(),
        0 <= end < g.len(),
        0 <= j < k <= alt.alts@.len(),
        lay_alts(g, start, end, alt, k) is Ok,
        lay_alts(g, start, end, alt, k).unwrap().len() <= usize::MAX,
        concat_matches(&alt.alts@[j], s),
    ensures
        goes(lay_alts(g, start, end, alt, k).unwrap(), start, s, end),
    decreases alt, k, 0nat,
{
    let gk = lay_alts(g, start, end, alt, k).unwrap();
    let g1 = lay_alts(g, start, end, alt, (k - 1) as nat).unwrap();
    lemma_lay_alts_extends(g, start, end, alt, (k - 1) as nat);
    lemma_lay_concat_extends(g1, start, end, &alt.alts@[k - 1]);
    if j == k - 1 {
        lemma_concat_goes(g1, start, end, &alt.alts@[j], s);
    } else {
        lemma_alts_goes(g, start, end, alt, (k - 1) as nat, j, s);
        lemma_goes_extends(g1, gk, start, s, end);
    }
}

/// The automaton of a pattern accepts what the pattern matches.
pub proof fn lemma_automaton_complete(ast: &RegexAst, s: Word)
    requires
        automaton(ast) is Ok,
        automaton(ast).unwrap().len() <= usize::MAX,
        pattern_matches(ast, s),
    ensures
        graph_accepts(automaton(ast).unwrap(), s),
{
    let g = automaton(ast).unwrap();
    let j = choose|j: int|
        0 <= j < ast.root.alts@.len() && concat_matches(#[trigger] &ast.root.alts@[j], s);
    lemma_alts_goes(initial_graph(), 0, 1, &ast.root, ast.root.alts@.len(), j, s);
    lemma_lay_alts_extends(initial_graph(), 0, 1, &ast.root, ast.root.alts@.len());
    assert(goes(g, 0, s, 1) && 0 <= 1 < g.len() && g[1].is_final);
}

/// A set of words.
pub type Lang = spec_fn(Word) -> bool;

/// For each node a set of words: those that may still be read from it.
pub type Tags = spec_fn(int, Word) -> bool;

/// Whether `t` is in the set.
pub open spec fn holds(lang: Lang, t: Word) -> bool {
    lang(t)
}

/// Whether `t` is in the set of node `v`.
pub open spec fn tagged(tags: Tags, v: int, t: Word) -> bool {
    tags(v, t)
}

/// Whether the sets of the nodes go with the edges: what may be read from
/// the target of an edge may be read from its source, after the symbol of
/// the edge if it has one; and nothing need be read from a final node.
#[verifier::opaque]
pub open spec fn respects(g: Seq<NodeView>, tags: Tags) -> bool {
    &&& forall|v: int, c: UnicodeCodepoint, w: int, t: Word|
        #[trigger] labelled_edge(g, v, c, w) && #[trigger] tagged(tags, w, t) ==> tagged(
            tags,
            v,
            seq![c] + t,
        )
    &&& forall|v: int, w: int, t: Word|
        #[trigger] silent_edge(g, v, w) && #[trigger] tagged(tags, w, t) ==> tagged(tags, v, t)
    &&& forall|v: int|
        0 <= v < g.len() && (#[trigger] g[v]).is_final ==> tagged(
            tags,
            v,
            Seq::<UnicodeCodepoint>::empty(),
        )
}

/// Whether the two give the nodes below `n` the same sets.
pub open spec fn same_below(tags: Tags, other: Tags, n: int) -> bool {
    forall|v: int, t: Word| 0 <= v < n ==> #[trigger] tagged(other, v, t) == tagged(tags, v, t)
}

/// `tags` with the set `lang` for node `n`.
pub open spec fn with_tag(tags: Tags, n: int, lang: Lang) -> Tags {
    |v: int, t: Word|
        if v == n {
            lang(t)
        } else {
            tags(v, t)
        }
}

/// Whether every star of the part stands where its loop does no harm. The
/// loop of a star is on the node that the part starts from; `tight` says
/// whether nothing else starts from that node.
pub open spec fn part_safe(part: &KleeneExpr, tight: bool) -> bool
    decreases part, 0nat,
{
    (part.star ==> tight) && match part.atom {
        Atom::CharacterAtom(_) => true,
        Atom::Capture { alt } => alt_safe(&alt, !part.star && tight),
    }
}

/// Whether nothing but part `k` starts from the node that it starts from:
/// at the front where `tight` says so, later where the part before it has no
/// star.
pub open spec fn tight_at(concat: &ConcatExpr, k: nat, tight: bool) -> bool {
    if k == 0 {
        tight
    } else {
        !concat.parts@[k - 1].star
    }
}

/// Whether every star of the parts stands where its loop does no harm: not
/// directly after another star, and at the front only where nothing else
/// starts from the node that the parts start from.
pub open spec fn concat_safe(concat: &ConcatExpr, tight: bool) -> bool
    decreases concat, 0nat,
{
    forall|i: int|
        0 <= i < concat.parts@.len() ==> part_safe(
            #[trigger] &concat.parts@[i],
            tight_at(concat, i as nat, tight),
        )
}

/// Whether every star of the alternatives stands where its loop does no
/// harm. Where there are several alternatives, they start from one node.
pub open spec fn alt_safe(alt: &AltExpr, tight: bool) -> bool
    decreases alt, 0nat,
{
    forall|j: int|
        0 <= j < alt.alts@.len() ==> concat_safe(
            #[trigger] &alt.alts@[j],
            tight && alt.alts@.len() == 1,
        )
}

/// Whether every star of the pattern stands where its loop does no harm:
/// after a part without a star, or at the front of a pattern, or of
/// parentheses without a star, that has one alternative and nothing before
/// it but the like.
pub open spec fn star_safe(ast: &RegexAst) -> bool {
    alt_safe(&ast.root, true)
}

/// Whether `t` starts with what the parts from part `i` on match and goes
/// on in the set of node `end`.
#[verifier::opaque]
pub open spec fn parts_split(concat: &ConcatExpr, i: nat, tags: Tags, end: int, t: Word) -> bool {
    exists|k: int|
        0 <= k <= t.len() && parts_match(concat, i, #[trigger] t.take(k)) && tagged(
            tags,
            end,
            t.skip(k),
        )
}

/// The words that start with one that the parts from part `i` on match and
/// go on with one of the set of node `end`.
pub open spec fn follows(concat: &ConcatExpr, i: nat, tags: Tags, end: int) -> Lang {
    |t: Word| parts_split(concat, i, tags, end, t)
}

/// Where a word that is split so is cut.
pub proof fn lemma_parts_split_cut(
    concat: &ConcatExpr,
    i: nat,
    tags: Tags,
    end: int,
    t: Word,
) -> (k: int)
    requires
        parts_split(concat, i, tags, end, t),
    ensures
        0 <= k <= t.len(),
        parts_match(concat, i, t.take(k)),
        tagged(tags, end, t.skip(k)),
{
    reveal(parts_split);
    choose|k: int|
        0 <= k <= t.len() && parts_match(concat, i, #[trigger] t.take(k)) && tagged(
            tags,
            end,
            t.skip(k),
        )
}

/// A word that is two such pieces is split so.
pub proof fn lemma_parts_split_of(
    concat: &ConcatExpr,
    i: nat,
    tags: Tags,
    end: int,
    s: Word,
    t: Word,
)
    requires
        parts_match(concat, i, s),
        tagged(tags, end, t),
    ensures
        parts_split(concat, i, tags, end, s + t),
{
    reveal(parts_split);
    let u = s + t;
    assert(u.take(s.len() as int) =~= s);
    assert(u.skip(s.len() as int) =~= t);
}

/// Whether a word that the part matches, followed by one of `after`, is in
/// the set of node `prev`.
#[verifier::opaque]
pub open spec fn part_leads(part: &KleeneExpr, tags: Tags, prev: int, after: Lang) -> bool {
    forall|s: Word, t: Word|
        #[trigger] part_matches(part, s) && #[trigger] holds(after, t) ==> tagged(
            tags,
            prev,
            s + t,
        )
}

/// Whether `t` starts with what the part matches and goes on in `after`.
#[verifier::opaque]
pub open spec fn part_splits(part: &KleeneExpr, after: Lang, t: Word) -> bool {
    exists|k: int|
        0 <= k <= t.len() && part_matches(part, #[trigger] t.take(k)) && holds(after, t.skip(k))
}

/// Where a word that is split so is cut.
pub proof fn lemma_part_splits_cut(part: &KleeneExpr, after: Lang, t: Word) -> (k: int)
    requires
        part_splits(part, after, t),
    ensures
        0 <= k <= t.len(),
        part_matches(part, t.take(k)),
        holds(after, t.skip(k)),
{
    reveal(part_splits);
    choose|k: int|
        0 <= k <= t.len() && part_matches(part, #[trigger] t.take(k)) && holds(after, t.skip(k))
}

/// A word that is two such pieces is split so.
pub proof fn lemma_part_splits_of(part: &KleeneExpr, after: Lang, s: Word, t: Word)
    requires
        part_matches(part, s),
        holds(after, t),
    ensures
        part_splits(part, after, s + t),
{
    reveal(part_splits);
    let u = s + t;
    assert(u.take(s.len() as int) =~= s);
    assert(u.skip(s.len() as int) =~= t);
}

/// Whether the set of node `prev` holds nothing but words that the part
/// matches followed by words of `after`.
pub open spec fn part_tight(part: &KleeneExpr, tags: Tags, prev: int, after: Lang) -> bool {
    forall|t: Word| #[trigger] tagged(tags, prev, t) ==> part_splits(part, after, t)
}

/// Whether a word that the alternative matches, followed by one of the set
/// of node `end`, is in the set of node `start`.
#[verifier::opaque]
pub open spec fn concat_leads(concat: &ConcatExpr, tags: Tags, start: int, end: int) -> bool {
    forall|s: Word, t: Word|
        #[trigger] concat_matches(concat, s) && #[trigger] tagged(tags, end, t) ==> tagged(
            tags,
            start,
            s + t,
        )
}

/// Whether `t` starts with what the alternative matches and goes on in the
/// set of node `end`.
#[verifier::opaque]
pub open spec fn concat_splits(concat: &ConcatExpr, tags: Tags, end: int, t: Word) -> bool {
    exists|k: int|
        0 <= k <= t.len() && concat_matches(concat, #[trigger] t.take(k)) && tagged(
            tags,
            end,
            t.skip(k),
        )
}

/// Where a word that is split so is cut.
pub proof fn lemma_concat_splits_cut(concat: &ConcatExpr, tags: Tags, end: int, t: Word) -> (k:
    int)
    requires
        concat_splits(concat, tags, end, t),
    ensures
        0 <= k <= t.len(),
        concat_matches(concat, t.take(k)),
        tagged(tags, end, t.skip(k)),
{
    reveal(concat_splits);
    choose|k: int|
        0 <= k <= t.len() && concat_matches(concat, #[trigger] t.take(k)) && tagged(
            tags,
            end,
            t.skip(k),
        )
}

/// A word that is two such pieces is split so.
pub proof fn lemma_concat_splits_of(concat: &ConcatExpr, tags: Tags, end: int, s: Word, t: Word)
    requires
        concat_matches(concat, s),
        tagged(tags, end, t),
    ensures
        concat_splits(concat, tags, end, s + t),
{
    reveal(concat_splits);
    let u = s + t;
    assert(u.take(s.len() as int) =~= s);
    assert(u.skip(s.len() as int) =~= t);
}

/// Whether the set of node `start` holds nothing but words that the
/// alternative matches followed by words of the set of node `end`.
pub open spec fn concat_tight(concat: &ConcatExpr, tags: Tags, start: int, end: int) -> bool {
    forall|t: Word| #[trigger] tagged(tags, start, t) ==> concat_splits(concat, tags, end, t)
}

/// The edges of a graph with one more node are those of the graph.
pub proof fn lemma_edges_with_node(g: Seq<NodeView>)
    ensures
        forall|v: int, c: UnicodeCodepoint, w: int| #[trigger]
            labelled_edge(with_node(g), v, c, w) ==> labelled_edge(g, v, c, w),
        forall|v: int, w: int| #[trigger]
            silent_edge(with_node(g), v, w) ==> silent_edge(g, v, w),
        well_formed(g) ==> well_formed(with_node(g)),
{
    let h = with_node(g);
    assert forall|v: int, c: UnicodeCodepoint, w: int| #[trigger]
        labelled_edge(h, v, c, w) implies labelled_edge(g, v, c, w) by {
        if v < g.len() {
            assert(h[v] == g[v]);
        }
    }
    assert forall|v: int, w: int| #[trigger] silent_edge(h, v, w) implies silent_edge(g, v, w) by {
        if v < g.len() {
            assert(h[v] == g[v]);
        }
    }
    if well_formed(g) {
        assert forall|a: int, k: int|
            0 <= a < h.len() && 0 <= k < h[a].edges.len() implies (#[trigger] h[a].edges[k]).0
            < h.len() by {
            assert(h[a] == g[a]);
        }
        assert forall|a: int, k: int|
            0 <= a < h.len() && 0 <= k < h[a].epsilon_edges.len() implies #[trigger] h[a].epsilon_edges[k]
            < h.len() by {
            assert(h[a] == g[a]);
        }
    }
}

/// The edges of a graph with one more labelled edge are those of the graph
/// and that edge.
pub proof fn lemma_edges_with_edge(g: Seq<NodeView>, x: int, y: usize, token: UnicodeCodepoint)
    requires
        0 <= x < g.len(),
    ensures
        forall|v: int, c: UnicodeCodepoint, w: int| #[trigger]
            labelled_edge(with_edge(g, x, y, token), v, c, w) ==> labelled_edge(g, v, c, w) || (v
                == x && w == y && c == token),
        forall|v: int, w: int| #[trigger]
            silent_edge(with_edge(g, x, y, token), v, w) ==> silent_edge(g, v, w),
        well_formed(g) && y < g.len() ==> well_formed(with_edge(g, x, y, token)),
{
    let h = with_edge(g, x, y, token);
    assert forall|v: int, c: UnicodeCodepoint, w: int| #[trigger]
        labelled_edge(h, v, c, w) implies labelled_edge(g, v, c, w) || (v == x && w == y && c
        == token) by {
        let k = choose|k: int| 0 <= k < h[v].edges.len() && edge_is(#[trigger] h[v].edges[k], c, w);
        if v == x && k == g[x].edges.len() {
            lemma_scalar_determines(c, token);
        } else {
            if v == x {
                assert(h[v].edges[k] == g[v].edges[k]);
            } else {
                assert(h[v] == g[v]);
            }
            assert(edge_is(g[v].edges[k], c, w));
        }
    }
    assert forall|v: int, w: int| #[trigger] silent_edge(h, v, w) implies silent_edge(g, v, w) by {
        let k = choose|k: int|
            0 <= k < h[v].epsilon_edges.len() && #[trigger] h[v].epsilon_edges[k] == w;
        assert(g[v].epsilon_edges[k] == w);
    }
    if well_formed(g) && y < g.len() {
        assert forall|a: int, k: int|
            0 <= a < h.len() && 0 <= k < h[a].edges.len() implies (#[trigger] h[a].edges[k]).0
            < h.len() by {
            if a == x {
                if k < g[x].edges.len() {
                    assert(h[a].edges[k] == g[a].edges[k]);
                }
            } else {
                assert(h[a] == g[a]);
            }
        }
        assert forall|a: int, k: int|
            0 <= a < h.len() && 0 <= k < h[a].epsilon_edges.len() implies #[trigger] h[a].epsilon_edges[k]
            < h.len() by {
            assert(h[a].epsilon_edges == g[a].epsilon_edges);
        }
    }
}

/// The edges of a graph with one more silent edge are those of the graph
/// and that edge.
pub proof fn lemma_edges_with_epsilon(g: Seq<NodeView>, x: int, y: usize)
    requires
        0 <= x < g.len(),
    ensures
        forall|v: int, c: UnicodeCodepoint, w: int| #[trigger]
            labelled_edge(with_epsilon(g, x, y), v, c, w) ==> labelled_edge(g, v, c, w),
        forall|v: int, w: int| #[trigger]
            silent_edge(with_epsilon(g, x, y), v, w) ==> silent_edge(g, v, w) || (v == x && w
                == y),
        well_formed(g) && y < g.len() ==> well_formed(with_epsilon(g, x, y)),
{
    let h = with_epsilon(g, x, y);
    assert forall|v: int, c: UnicodeCodepoint, w: int| #[trigger]
        labelled_edge(h, v, c, w) implies labelled_edge(g, v, c, w) by {
        let k = choose|k: int| 0 <= k < h[v].edges.len() && edge_is(#[trigger] h[v].edges[k], c, w);
        assert(edge_is(g[v].edges[k], c, w));
    }
    assert forall|v: int, w: int| #[trigger] silent_edge(h, v, w) implies silent_edge(g, v, w) || (
    v == x && w == y) by {
        let k = choose|k: int|
            0 <= k < h[v].epsilon_edges.len() && #[trigger] h[v].epsilon_edges[k] == w;
        if !(v == x && k == g[x].epsilon_edges.len()) {
            if v == x {
                assert(h[v].epsilon_edges[k] == g[v].epsilon_edges[k]);
            } else {
                assert(h[v] == g[v]);
            }
            assert(g[v].epsilon_edges[k] == w);
        }
    }
    if well_formed(g) && y < g.len() {
        assert forall|a: int, k: int|
            0 <= a < h.len() && 0 <= k < h[a].edges.len() implies (#[trigger] h[a].edges[k]).0
            < h.len() by {
            assert(h[a].edges == g[a].edges);
        }
        assert forall|a: int, k: int|
            0 <= a < h.len() && 0 <= k < h[a].epsilon_edges.len() implies #[trigger] h[a].epsilon_edges[k]
            < h.len() by {
            if a == x {
                if k < g[x].epsilon_edges.len() {
                    assert(h[a].epsilon_edges[k] == g[a].epsilon_edges[k]);
                }
            } else {
                assert(h[a] == g[a]);
            }
        }
    }
}

/// What may be read from a node within silent reach may be read from here.
proof fn lemma_tags_reach(g: Seq<NodeView>, tags: Tags, a: int, b: int, n: nat, t: Word)
    requires
        respects(g, tags),
        silent_reach_in(g, a, b, n),
        tagged(tags, b, t),
    ensures
        tagged(tags, a, t),
    decreases n,
{
    reveal(respects);
    if a != b {
        let m = choose|m: int|
            #[trigger] silent_edge(g, a, m) && silent_reach_in(g, m, b, (n - 1) as nat);
        lemma_tags_reach(g, tags, m, b, (n - 1) as nat, t);
    }
}

/// What a way spells, followed by what may be read from its end, may be
/// read from its start.
pub proof fn lemma_tags_goes(g: Seq<NodeView>, tags: Tags, a: int, s: Word, b: int, t: Word)
    requires
        respects(g, tags),
        goes(g, a, s, b),
        tagged(tags, b, t),
    ensures
        tagged(tags, a, s + t),
    decreases s.len(),
{
    if s.len() == 0 {
        let n = choose|n: nat| silent_reach_in(g, a, b, n);
        lemma_tags_reach(g, tags, a, b, n, t);
        assert(s + t =~= t);
    } else {
        let (p, q) = choose|p: int, q: int|
            goes(g, a, s.drop_last(), p) && #[trigger] labelled_edge(g, p, s.last(), q)
                && silent_reach(g, q, b);
        let n = choose|n: nat| silent_reach_in(g, q, b, n);
        lemma_tags_reach(g, tags, q, b, n, t);
        assert(tagged(tags, p, seq![s.last()] + t)) by {
            reveal(respects);
        }
        lemma_tags_goes(g, tags, a, s.drop_last(), p, seq![s.last()] + t);
        assert(s.drop_last() + (seq![s.last()] + t) =~= s + t);
    }
}

/// Whether a word that the parts from part `k` on match, followed by one of
/// the set that `tags` has for node `end`, is in the set that `now` has for
/// node `at`.
#[verifier::opaque]
pub open spec fn parts_lead(
    concat: &ConcatExpr,
    k: nat,
    tags: Tags,
    end: int,
    now: Tags,
    at: int,
) -> bool {
    forall|s: Word, t: Word|
        #[trigger] parts_match(concat, k, s) && #[trigger] tagged(tags, end, t) ==> tagged(
            now,
            at,
            s + t,
        )
}

/// Whether the set that `now` has for node `at` holds nothing but words
/// that the parts from part `k` on match followed by words of the set that
/// `tags` has for node `end`.
pub open spec fn parts_tight(
    concat: &ConcatExpr,
    k: nat,
    tags: Tags,
    end: int,
    now: Tags,
    at: int,
) -> bool {
    forall|t: Word| #[trigger] tagged(now, at, t) ==> holds(follows(concat, k, tags, end), t)
}

/// Whether a word that the atom matches, followed by one of the set of node
/// `prev`, is in that set again.
#[verifier::opaque]
pub open spec fn atom_loops(atom: &Atom, tags: Tags, prev: int) -> bool {
    forall|s: Word, t: Word|
        #[trigger] atom_matches(atom, s) && #[trigger] tagged(tags, prev, t) ==> tagged(
            tags,
            prev,
            s + t,
        )
}

/// Whether every word of `after` is in the set of node `at`.
pub open spec fn lang_within(after: Lang, tags: Tags, at: int) -> bool {
    forall|t: Word| #[trigger] holds(after, t) ==> tagged(tags, at, t)
}

/// Whether every word of the set of node `at` is in `after`.
pub open spec fn tag_within(tags: Tags, at: int, after: Lang) -> bool {
    forall|t: Word| #[trigger] tagged(tags, at, t) ==> holds(after, t)
}

/// From a node that holds nothing but what a starred part and `after`
/// match, the atom of the part may be read over and over.
#[verifier::rlimit(40)]
proof fn lemma_star_loops(part: &KleeneExpr, tags: Tags, prev: int, after: Lang)
    requires
        part.star,
        part_leads(part, tags, prev, after),
        part_tight(part, tags, prev, after),
    ensures
        atom_loops(&part.atom, tags, prev),
        lang_within(after, tags, prev),
{
    reveal(part_leads);
    reveal(atom_loops);
    let empty = Seq::<UnicodeCodepoint>::empty();
    assert forall|s: Word, t: Word|
        #[trigger] atom_matches(&part.atom, s) && #[trigger] tagged(tags, prev, t) implies tagged(
        tags,
        prev,
        s + t,
    ) by {
        assert(part_splits(part, after, t));
        let k = lemma_part_splits_cut(part, after, t);
        let u = s + t.take(k);
        if s.len() == 0 {
            assert(u =~= t.take(k));
        } else {
            assert(u.take(s.len() as int) =~= s);
            assert(u.skip(s.len() as int) =~= t.take(k));
        }
        assert(part_matches(part, u));
        assert(u + t.skip(k) =~= s + t);
    }
    assert(part_matches(part, empty));
    assert forall|t: Word| #[trigger] holds(after, t) implies tagged(tags, prev, t) by {
        assert(empty + t =~= t);
    }
}

/// A new node with a set of its own keeps the sets in step with the edges.
#[verifier::rlimit(40)]
proof fn lemma_respects_node(g: Seq<NodeView>, tags: Tags, after: Lang)
    requires
        well_formed(g),
        respects(g, tags),
    ensures
        respects(with_node(g), with_tag(tags, g.len() as int, after)),
        well_formed(with_node(g)),
        same_below(tags, with_tag(tags, g.len() as int, after), g.len() as int),
        lang_within(after, with_tag(tags, g.len() as int, after), g.len() as int),
        tag_within(with_tag(tags, g.len() as int, after), g.len() as int, after),
{
    reveal(respects);
    let n = g.len() as int;
    let g1 = with_node(g);
    let tags1 = with_tag(tags, n, after);
    let empty = Seq::<UnicodeCodepoint>::empty();
    lemma_edges_with_node(g);
    assert forall|v: int, x: UnicodeCodepoint, w: int, t: Word|
        #[trigger] labelled_edge(g1, v, x, w) && #[trigger] tagged(tags1, w, t) implies tagged(
        tags1,
        v,
        seq![x] + t,
    ) by {
        crate::regex::closure::lemma_edge_within(g, v, x, w);
        assert(tagged(tags, w, t));
    }
    assert forall|v: int, w: int, t: Word|
        #[trigger] silent_edge(g1, v, w) && #[trigger] tagged(tags1, w, t) implies tagged(
        tags1,
        v,
        t,
    ) by {
        let k = choose|k: int|
            0 <= k < g[v].epsilon_edges.len() && #[trigger] g[v].epsilon_edges[k] == w;
        assert(tagged(tags, w, t));
    }
    assert forall|v: int| 0 <= v < g1.len() && (#[trigger] g1[v]).is_final implies tagged(
        tags1,
        v,
        empty,
    ) by {
        assert(v < n);
        assert(g1[v] == g[v]);
    }
}

/// A new labelled edge keeps the sets in step with the edges where what may
/// be read from its target may be read from its source after its symbol.
#[verifier::rlimit(40)]
proof fn lemma_respects_edge(
    g: Seq<NodeView>,
    tags: Tags,
    x: int,
    y: usize,
    token: UnicodeCodepoint,
)
    requires
        well_formed(g),
        respects(g, tags),
        0 <= x < g.len(),
        y < g.len(),
        forall|t: Word| #[trigger] tagged(tags, y as int, t) ==> tagged(tags, x, seq![token] + t),
    ensures
        respects(with_edge(g, x, y, token), tags),
        well_formed(with_edge(g, x, y, token)),
{
    reveal(respects);
    let h = with_edge(g, x, y, token);
    let empty = Seq::<UnicodeCodepoint>::empty();
    lemma_edges_with_edge(g, x, y, token);
    assert forall|v: int, c: UnicodeCodepoint, w: int, t: Word|
        #[trigger] labelled_edge(h, v, c, w) && #[trigger] tagged(tags, w, t) implies tagged(
        tags,
        v,
        seq![c] + t,
    ) by {
        if !labelled_edge(g, v, c, w) {
            assert(tagged(tags, y as int, t));
        }
    }
    assert forall|v: int| 0 <= v < h.len() && (#[trigger] h[v]).is_final implies tagged(
        tags,
        v,
        empty,
    ) by {
        assert(g[v].is_final);
    }
}

/// A new silent edge keeps the sets in step with the edges where what may
/// be read from its target may be read from its source.
#[verifier::rlimit(40)]
proof fn lemma_respects_epsilon(g: Seq<NodeView>, tags: Tags, x: int, y: usize)
    requires
        well_formed(g),
        respects(g, tags),
        0 <= x < g.len(),
        y < g.len(),
        forall|t: Word| #[trigger] tagged(tags, y as int, t) ==> tagged(tags, x, t),
    ensures
        respects(with_epsilon(g, x, y), tags),
        well_formed(with_epsilon(g, x, y)),
{
    reveal(respects);
    let h = with_epsilon(g, x, y);
    let empty = Seq::<UnicodeCodepoint>::empty();
    lemma_edges_with_epsilon(g, x, y);
    assert forall|v: int, w: int, t: Word|
        #[trigger] silent_edge(h, v, w) && #[trigger] tagged(tags, w, t) implies tagged(
        tags,
        v,
        t,
    ) by {
        if !silent_edge(g, v, w) {
            assert(tagged(tags, y as int, t));
        }
    }
    assert forall|v: int| 0 <= v < h.len() && (#[trigger] h[v]).is_final implies tagged(
        tags,
        v,
        empty,
    ) by {
        assert(g[v].is_final);
    }
}

/// The alternatives in the parentheses of a starred part lead from the node
/// of the part back to it.
proof fn lemma_star_alts_lead(part: &KleeneExpr, alt: &AltExpr, tags: Tags, prev: int)
    requires
        part.atom == (Atom::Capture { alt: *alt }),
        atom_loops(&part.atom, tags, prev),
    ensures
        forall|j: int|
            0 <= j < alt.alts@.len() ==> concat_leads(#[trigger] &alt.alts@[j], tags, prev, prev),
{
    reveal(atom_loops);
    reveal(concat_leads);
    assert forall|j: int| 0 <= j < alt.alts@.len() implies concat_leads(
        #[trigger] &alt.alts@[j],
        tags,
        prev,
        prev,
    ) by {
        assert forall|s: Word, t: Word|
            #[trigger] concat_matches(&alt.alts@[j], s) && #[trigger] tagged(
                tags,
                prev,
                t,
            ) implies tagged(tags, prev, s + t) by {
            assert(atom_matches(&part.atom, s));
        }
    }
}

/// The alternatives in the parentheses of a part without a star lead from
/// the node of the part to the new node.
#[verifier::rlimit(40)]
proof fn lemma_plain_alts_lead(
    part: &KleeneExpr,
    alt: &AltExpr,
    tags: Tags,
    prev: int,
    n: int,
    after: Lang,
    tight: bool,
)
    requires
        !part.star,
        prev != n,
        part.atom == (Atom::Capture { alt: *alt }),
        part_leads(part, tags, prev, after),
        tight ==> part_tight(part, tags, prev, after),
    ensures
        forall|j: int|
            0 <= j < alt.alts@.len() ==> concat_leads(
                #[trigger] &alt.alts@[j],
                with_tag(tags, n, after),
                prev,
                n,
            ),
        tight && alt.alts@.len() == 1 ==> concat_tight(
            &alt.alts@[0],
            with_tag(tags, n, after),
            prev,
            n,
        ),
{
    reveal(part_leads);
    reveal(concat_leads);
    let tags1 = with_tag(tags, n, after);
    assert forall|j: int| 0 <= j < alt.alts@.len() implies concat_leads(
        #[trigger] &alt.alts@[j],
        tags1,
        prev,
        n,
    ) by {
        assert forall|s: Word, t: Word|
            #[trigger] concat_matches(&alt.alts@[j], s) && #[trigger] tagged(
                tags1,
                n,
                t,
            ) implies tagged(tags1, prev, s + t) by {
            assert(part_matches(part, s));
            assert(holds(after, t));
            assert(tagged(tags, prev, s + t));
        }
    }
    if tight && alt.alts@.len() == 1 {
        assert forall|t: Word| #[trigger] tagged(tags1, prev, t) implies concat_splits(
            &alt.alts@[0],
            tags1,
            n,
            t,
        ) by {
            assert(tagged(tags, prev, t));
            assert(part_splits(part, after, t));
            let k = lemma_part_splits_cut(part, after, t);
            let j = choose|j: int|
                0 <= j < alt.alts@.len() && concat_matches(#[trigger] &alt.alts@[j], t.take(k));
            assert(concat_matches(&alt.alts@[0], t.take(k)) && tagged(tags1, n, t.skip(k)));
            lemma_concat_splits_of(&alt.alts@[0], tags1, n, t.take(k), t.skip(k));
            assert(t.take(k) + t.skip(k) =~= t);
        }
    }
}

/// Sets for the nodes of what is laid for a part, which go with its edges.
#[verifier::rlimit(40)]
pub proof fn lemma_tag_part(
    g: Seq<NodeView>,
    tags: Tags,
    prev: int,
    part: &KleeneExpr,
    after: Lang,
    tight: bool,
) -> (r: Tags)
    requires
        well_formed(g),
        0 <= prev < g.len(),
        lay_part(g, prev, part) is Ok,
        lay_part(g, prev, part).unwrap().0.len() <= usize::MAX,
        respects(g, tags),
        part_safe(part, tight),
        part_leads(part, tags, prev, after),
        tight ==> part_tight(part, tags, prev, after),
    ensures
        well_formed(lay_part(g, prev, part).unwrap().0),
        respects(lay_part(g, prev, part).unwrap().0, r),
        same_below(tags, r, g.len() as int),
        lang_within(after, r, lay_part(g, prev, part).unwrap().1),
        !part.star ==> tag_within(r, lay_part(g, prev, part).unwrap().1, after),
    decreases part, 1nat,
{
    let (g2, next) = lay_part(g, prev, part).unwrap();
    lemma_lay_part_extends(g, prev, part);
    if part.star {
        lemma_star_loops(part, tags, prev, after);
        match part.atom {
            Atom::CharacterAtom(c) => {
                let token = c.codepoint().unwrap();
                assert(atom_matches(&part.atom, seq![token]));
                assert forall|t: Word| #[trigger] tagged(tags, prev, t) implies tagged(
                    tags,
                    prev,
                    seq![token] + t,
                ) by {
                    reveal(atom_loops);
                }
                lemma_respects_edge(g, tags, prev, prev as usize, token);
                tags
            },
            Atom::Capture { alt } => {
                lemma_star_alts_lead(part, &alt, tags, prev);
                let r = lemma_tag_alts(g, tags, prev, prev, &alt, false, alt.alts@.len());
                assert forall|t: Word| #[trigger] holds(after, t) implies tagged(r, prev, t) by {
                    assert(tagged(tags, prev, t));
                }
                r
            },
        }
    } else {
        let n = g.len() as int;
        let g1 = with_node(g);
        let tags1 = with_tag(tags, n, after);
        lemma_respects_node(g, tags, after);
        lemma_extends_node(g);
        match part.atom {
            Atom::CharacterAtom(c) => {
                let token = c.codepoint().unwrap();
                assert(part_matches(part, seq![token]));
                assert forall|t: Word| #[trigger] tagged(tags1, n, t) implies tagged(
                    tags1,
                    prev,
                    seq![token] + t,
                ) by {
                    assert(holds(after, t));
                    assert(tagged(tags, prev, seq![token] + t)) by {
                        reveal(part_leads);
                    }
                }
                lemma_respects_edge(g1, tags1, prev, n as usize, token);
                tags1
            },
            Atom::Capture { alt } => {
                lemma_plain_alts_lead(part, &alt, tags, prev, n, after, tight);
                let r = lemma_tag_alts(g1, tags1, prev, n, &alt, tight, alt.alts@.len());
                assert forall|t: Word| #[trigger] holds(after, t) implies tagged(r, n, t) by {
                    assert(tagged(tags1, n, t));
                }
                assert forall|t: Word| #[trigger] tagged(r, n, t) implies holds(after, t) by {
                    assert(tagged(tags1, n, t));
                }
                assert forall|v: int, t: Word| 0 <= v < n implies #[trigger] tagged(r, v, t)
                    == tagged(tags, v, t) by {
                    assert(tagged(tags1, v, t) == tagged(tags, v, t));
                }
                r
            },
        }
    }
}

/// What part `j` and the parts after it ask of the node that part `j`
/// starts from, in terms of part `j` and of what follows it.
#[verifier::rlimit(40)]
proof fn lemma_part_from_parts(
    concat: &ConcatExpr,
    j: nat,
    tags: Tags,
    end: int,
    now: Tags,
    at: int,
    tight: bool,
)
    requires
        j < concat.parts@.len(),
        parts_lead(concat, j, tags, end, now, at),
        tight ==> parts_tight(concat, j, tags, end, now, at),
    ensures
        part_leads(&concat.parts@[j as int], now, at, follows(concat, j + 1, tags, end)),
        tight ==> part_tight(
            &concat.parts@[j as int],
            now,
            at,
            follows(concat, j + 1, tags, end),
        ),
{
    reveal(parts_lead);
    reveal(part_leads);
    let part = &concat.parts@[j as int];
    let k = j + 1;
    let after = follows(concat, k, tags, end);
    assert forall|s: Word, t: Word|
        #[trigger] part_matches(part, s) && #[trigger] holds(after, t) implies tagged(
        now,
        at,
        s + t,
    ) by {
        let k0 = lemma_parts_split_cut(concat, k, tags, end, t);
        let u = s + t.take(k0);
        assert(u.take(s.len() as int) =~= s);
        assert(u.skip(s.len() as int) =~= t.take(k0));
        assert(parts_match(concat, j, u));
        assert(u + t.skip(k0) =~= s + t);
    }
    if tight {
        assert forall|t: Word| #[trigger] tagged(now, at, t) implies part_splits(
            part,
            after,
            t,
        ) by {
            assert(holds(follows(concat, j, tags, end), t));
            let j0 = lemma_parts_split_cut(concat, j, tags, end, t);
            let u = t.take(j0);
            let j1 = choose|j1: int|
                0 <= j1 <= u.len() && part_matches(part, #[trigger] u.take(j1)) && parts_match(
                    concat,
                    j + 1,
                    u.skip(j1),
                );
            let rest = t.skip(j1);
            assert(t.take(j1) =~= u.take(j1));
            lemma_parts_split_of(concat, k, tags, end, u.skip(j1), t.skip(j0));
            assert(u.skip(j1) + t.skip(j0) =~= rest);
            assert(holds(after, rest));
            lemma_part_splits_of(part, after, t.take(j1), rest);
            assert(t.take(j1) + rest =~= t);
        }
    }
}

/// What the node after part `j` holds, in terms of the parts after it.
proof fn lemma_parts_from_part(
    concat: &ConcatExpr,
    k: nat,
    tags: Tags,
    end: int,
    now: Tags,
    at: int,
)
    requires
        lang_within(follows(concat, k, tags, end), now, at),
    ensures
        parts_lead(concat, k, tags, end, now, at),
{
    reveal(parts_lead);
    let after = follows(concat, k, tags, end);
    assert forall|s: Word, t: Word|
        #[trigger] parts_match(concat, k, s) && #[trigger] tagged(tags, end, t) implies tagged(
        now,
        at,
        s + t,
    ) by {
        lemma_parts_split_of(concat, k, tags, end, s, t);
        assert(holds(after, s + t));
    }
}

/// What an alternative asks of the node that it starts from is what all of
/// its parts ask of it.
proof fn lemma_parts_start(concat: &ConcatExpr, tags: Tags, start: int, end: int, tight: bool)
    requires
        concat_leads(concat, tags, start, end),
        tight ==> concat_tight(concat, tags, start, end),
    ensures
        parts_lead(concat, 0, tags, end, tags, start),
        tight ==> parts_tight(concat, 0, tags, end, tags, start),
{
    assert(parts_lead(concat, 0, tags, end, tags, start)) by {
        reveal(parts_lead);
        reveal(concat_leads);
        assert forall|s: Word, t: Word|
            #[trigger] parts_match(concat, 0, s) && #[trigger] tagged(tags, end, t) implies tagged(
            tags,
            start,
            s + t,
        ) by {
            assert(concat_matches(concat, s));
        }
    }
    if tight {
        assert forall|t: Word| #[trigger] tagged(tags, start, t) implies holds(
            follows(concat, 0, tags, end),
            t,
        ) by {
            assert(concat_splits(concat, tags, end, t));
            let i = lemma_concat_splits_cut(concat, tags, end, t);
            lemma_parts_split_of(concat, 0, tags, end, t.take(i), t.skip(i));
            assert(t.take(i) + t.skip(i) =~= t);
        }
    }
}

/// Giving the same sets is transitive.
proof fn lemma_same_below_chain(tags: Tags, r1: Tags, r: Tags, n: int, m: int)
    requires
        same_below(tags, r1, n),
        same_below(r1, r, m),
        n <= m,
    ensures
        same_below(tags, r, n),
{
    assert forall|v: int, t: Word| 0 <= v < n implies #[trigger] tagged(r, v, t) == tagged(
        tags,
        v,
        t,
    ) by {
        assert(tagged(r1, v, t) == tagged(tags, v, t));
    }
}

/// Sets for the nodes of what is laid for the first `k` parts, which go
/// with its edges.
#[verifier::rlimit(40)]
pub proof fn lemma_tag_parts(
    g: Seq<NodeView>,
    tags: Tags,
    start: int,
    end: int,
    concat: &ConcatExpr,
    tight: bool,
    k: nat,
) -> (r: Tags)
    requires
        well_formed(g),
        0 <= start < g.len(),
        0 <= end < g.len(),
        k <= concat.parts@.len(),
        lay_parts(g, start, concat, k) is Ok,
        lay_parts(g, start, concat, k).unwrap().0.len() <= usize::MAX,
        respects(g, tags),
        concat_safe(concat, tight),
        concat_leads(concat, tags, start, end),
        tight ==> concat_tight(concat, tags, start, end),
    ensures
        well_formed(lay_parts(g, start, concat, k).unwrap().0),
        0 <= lay_parts(g, start, concat, k).unwrap().1 < lay_parts(
            g,
            start,
            concat,
            k,
        ).unwrap().0.len(),
        g.len() <= lay_parts(g, start, concat, k).unwrap().0.len(),
        respects(lay_parts(g, start, concat, k).unwrap().0, r),
        same_below(tags, r, g.len() as int),
        parts_lead(concat, k, tags, end, r, lay_parts(g, start, concat, k).unwrap().1),
        tight_at(concat, k, tight) ==> parts_tight(
            concat,
            k,
            tags,
            end,
            r,
            lay_parts(g, start, concat, k).unwrap().1,
        ),
    decreases concat, k,
{
    if k == 0 {
        lemma_parts_start(concat, tags, start, end, tight);
        tags
    } else {
        let j = (k - 1) as nat;
        lemma_lay_parts_between(g, start, concat, j, k);
        lemma_lay_parts_extends(g, start, concat, j);
        let (g1, here) = lay_parts(g, start, concat, j).unwrap();
        let part = &concat.parts@[j as int];
        let (g2, there) = lay_part(g1, here, part).unwrap();
        assert(lay_parts(g, start, concat, k) == Ok::<(Seq<NodeView>, int), Utf8DecodeError>(
            (g2, there),
        ));
        let r1 = lemma_tag_parts(g, tags, start, end, concat, tight, j);
        let after = follows(concat, k, tags, end);
        let th = tight_at(concat, j, tight);
        lemma_lay_part_extends(g1, here, part);
        assert(part_safe(part, th));
        lemma_part_from_parts(concat, j, tags, end, r1, here, th);
        let r = lemma_tag_part(g1, r1, here, part, after, th);
        lemma_parts_from_part(concat, k, tags, end, r, there);
        lemma_same_below_chain(tags, r1, r, g.len() as int, g1.len() as int);
        r
    }
}

/// Sets for the nodes of what is laid for an alternative, which go with its
/// edges.
#[verifier::rlimit(40)]
pub proof fn lemma_tag_concat(
    g: Seq<NodeView>,
    tags: Tags,
    start: int,
    end: int,
    concat: &ConcatExpr,
    tight: bool,
) -> (r: Tags)
    requires
        well_formed(g),
        0 <= start < g.len(),
        0 <= end < g.len(),
        lay_concat(g, start, end, concat) is Ok,
        lay_concat(g, start, end, concat).unwrap().len() <= usize::MAX,
        respects(g, tags),
        concat_safe(concat, tight),
        concat_leads(concat, tags, start, end),
        tight ==> concat_tight(concat, tags, start, end),
    ensures
        well_formed(lay_concat(g, start, end, concat).unwrap()),
        g.len() <= lay_concat(g, start, end, concat).unwrap().len(),
        respects(lay_concat(g, start, end, concat).unwrap(), r),
        same_below(tags, r, g.len() as int),
    decreases concat, concat.parts@.len() + 1,
{
    let n = concat.parts@.len();
    let (gn, pn) = lay_parts(g, start, concat, n).unwrap();
    let laid = lay_concat(g, start, end, concat).unwrap();
    let empty = Seq::<UnicodeCodepoint>::empty();
    lemma_lay_parts_extends(g, start, concat, n);
    assert(laid.len() == gn.len());
    let r = lemma_tag_parts(g, tags, start, end, concat, tight, n);
    if pn != end {
        assert(parts_match(concat, n, empty));
        assert forall|t: Word| #[trigger] tagged(r, end, t) implies tagged(r, pn, t) by {
            assert(tagged(tags, end, t));
            assert(empty + t =~= t);
            assert(tagged(r, pn, empty + t)) by {
                reveal(parts_lead);
            }
        }
        lemma_respects_epsilon(gn, r, pn, end as usize);
    }
    r
}

/// Sets for the nodes of what is laid for the first `k` alternatives, which
/// go with its edges.
#[verifier::rlimit(40)]
pub proof fn lemma_tag_alts(
    g: Seq<NodeView>,
    tags: Tags,
    start: int,
    end: int,
    alt: &AltExpr,
    tight: bool,
    k: nat,
) -> (r: Tags)
    requires
        well_formed(g),
        0 <= start < g.len(),
        0 <= end < g.len(),
        k <= alt.alts@.len(),
        lay_alts(g, start, end, alt, k) is Ok,
        lay_alts(g, start, end, alt, k).unwrap().len() <= usize::MAX,
        respects(g, tags),
        alt_safe(alt, tight),
        forall|j: int|
            0 <= j < alt.alts@.len() ==> concat_leads(#[trigger] &alt.alts@[j], tags, start, end),
        tight && alt.alts@.len() == 1 ==> concat_tight(&alt.alts@[0], tags, start, end),
    ensures
        well_formed(lay_alts(g, start, end, alt, k).unwrap()),
        g.len() <= lay_alts(g, start, end, alt, k).unwrap().len(),
        respects(lay_alts(g, start, end, alt, k).unwrap(), r),
        same_below(tags, r, g.len() as int),
    decreases alt, k,
{
    if k == 0 {
        tags
    } else {
        let j = (k - 1) as nat;
        lemma_lay_alts_between(g, start, end, alt, j, k);
        lemma_lay_alts_extends(g, start, end, alt, j);
        let g1 = lay_alts(g, start, end, alt, j).unwrap();
        let concat = &alt.alts@[j as int];
        lemma_lay_concat_extends(g1, start, end, concat);
        let r1 = lemma_tag_alts(g, tags, start, end, alt, tight, j);
        let inner = tight && alt.alts@.len() == 1;
        assert(concat_safe(concat, inner));
        assert(concat_leads(concat, tags, start, end));
        assert(concat_leads(concat, r1, start, end)) by {
            reveal(concat_leads);
            assert forall|s: Word, t: Word|
                #[trigger] concat_matches(concat, s) && #[trigger] tagged(
                    r1,
                    end,
                    t,
                ) implies tagged(r1, start, s + t) by {
                assert(tagged(tags, end, t));
                assert(tagged(tags, start, s + t));
            }
        }
        if inner {
            assert forall|t: Word| #[trigger] tagged(r1, start, t) implies concat_splits(
                concat,
                r1,
                end,
                t,
            ) by {
                assert(tagged(tags, start, t));
                assert(concat_splits(concat, tags, end, t));
                let i = lemma_concat_splits_cut(concat, tags, end, t);
                assert(tagged(r1, end, t.skip(i)));
                lemma_concat_splits_of(concat, r1, end, t.take(i), t.skip(i));
                assert(t.take(i) + t.skip(i) =~= t);
            }
        }
        let r = lemma_tag_concat(g1, r1, start, end, concat, inner);
        assert forall|v: int, t: Word| 0 <= v < g.len() implies #[trigger] tagged(r, v, t)
            == tagged(tags, v, t) by {
            assert(tagged(r1, v, t) == tagged(tags, v, t));
        }
        r
    }
}

/// The automaton of a pattern whose stars stand where their loops do no
/// harm accepts nothing but what the pattern matches.
#[verifier::rlimit(40)]
pub proof fn lemma_automaton_sound(ast: &RegexAst, s: Word)
    requires
        automaton(ast) is Ok,
        automaton(ast).unwrap().len() <= usize::MAX,
        star_safe(ast),
        graph_accepts(automaton(ast).unwrap(), s),
    ensures
        pattern_matches(ast, s),
{
    let g0 = initial_graph();
    let g = automaton(ast).unwrap();
    let empty = Seq::<UnicodeCodepoint>::empty();
    let root = &ast.root;
    let tags = |v: int, t: Word|
        if v == 0 {
            alt_matches(root, t)
        } else {
            t.len() == 0
        };
    assert(g0.len() == 2);
    assert(g0[0].edges.len() == 0 && g0[0].epsilon_edges.len() == 0);
    assert(g0[1].edges.len() == 0 && g0[1].epsilon_edges.len() == 0);
    assert(!g0[0].is_final);
    assert(respects(g0, tags)) by {
        reveal(respects);
    }
    assert forall|j: int| 0 <= j < root.alts@.len() implies concat_leads(
        #[trigger] &root.alts@[j],
        tags,
        0,
        1,
    ) by {
        reveal(concat_leads);
        assert forall|u: Word, t: Word|
            #[trigger] concat_matches(&root.alts@[j], u) && #[trigger] tagged(
                tags,
                1,
                t,
            ) implies tagged(tags, 0, u + t) by {
            assert(u + t =~= u);
        }
    }
    if root.alts@.len() == 1 {
        assert forall|t: Word| #[trigger] tagged(tags, 0, t) implies concat_splits(
            &root.alts@[0],
            tags,
            1,
            t,
        ) by {
            let j = choose|j: int|
                0 <= j < root.alts@.len() && concat_matches(#[trigger] &root.alts@[j], t);
            lemma_concat_splits_of(&root.alts@[0], tags, 1, t, empty);
            assert(t + empty =~= t);
        }
    }
    let r = lemma_tag_alts(g0, tags, 0, 1, root, true, root.alts@.len());
    let b = choose|b: int| #[trigger] goes(g, 0, s, b) && 0 <= b < g.len() && g[b].is_final;
    assert(tagged(r, b, empty)) by {
        reveal(respects);
    }
    lemma_tags_goes(g, r, 0, s, b, empty);
    assert(s + empty =~= s);
    assert(tagged(tags, 0, s));
}

/// The automaton of a pattern whose stars stand where their loops do no
/// harm accepts what the pattern matches, and nothing else.
pub proof fn lemma_automaton_exact(ast: &RegexAst, s: Word)
    requires
        automaton(ast) is Ok,
        automaton(ast).unwrap().len() <= usize::MAX,
        star_safe(ast),
    ensures
        graph_accepts(automaton(ast).unwrap(), s) <==> pattern_matches(ast, s),
{
    if graph_accepts(automaton(ast).unwrap(), s) {
        lemma_automaton_sound(ast, s);
    }
    if pattern_matches(ast, s) {
        lemma_automaton_complete(ast, s);
    }
}

/// Whether every star of the alternatives stands where its loop does no
/// harm.
fn alt_is_safe(alt: &AltExpr, tight: bool) -> (safe: bool)
    ensures
        safe == alt_safe(alt, tight),
    decreases alt, 1nat,
{
    let n = alt.alts.len();
    let inner = tight && n == 1;
    let mut j: usize = 0;
    while j < n
        invariant
            j <= n,
            n == alt.alts@.len(),
            inner == (tight && n == 1),
            forall|i: int| 0 <= i < j ==> concat_safe(#[trigger] &alt.alts@[i], inner),
        decreases n - j,
    {
        if !concat_is_safe(&alt.alts[j], inner) {
            return false;
        }
        j += 1;
    }
    true
}

/// Whether the stars of one part stand where their loops do no harm.
fn part_is_safe(part: &KleeneExpr, tight: bool) -> (safe: bool)
    ensures
        safe == part_safe(part, tight),
    decreases part, 1nat,
{
    if part.star && !tight {
        return false;
    }
    match &part.atom {
        Atom::CharacterAtom(_) => true,
        Atom::Capture { alt } => alt_is_safe(alt, !part.star && tight),
    }
}

/// Whether every star of the parts stands where its loop does no harm.
#[verifier::rlimit(40)]
fn concat_is_safe(concat: &ConcatExpr, tight: bool) -> (safe: bool)
    ensures
        safe == concat_safe(concat, tight),
    decreases concat, 0nat,
{
    let n = concat.parts.len();
    let mut here = tight;
    let mut i: usize = 0;
    while i < n
        invariant
            i <= n,
            n == concat.parts@.len(),
            here == tight_at(concat, i as nat, tight),
            forall|k: int|
                0 <= k < i ==> part_safe(
                    #[trigger] &concat.parts@[k],
                    tight_at(concat, k as nat, tight),
                ),
        decreases n - i,
    {
        let part = &concat.parts[i];
        if !part_is_safe(part, here) {
            return false;
        }
        here = !part.star;
        i += 1;
    }
    true
}

impl RegexAst {
    /// Whether every star of the pattern stands where its loop does no harm,
    /// so that the automaton of the pattern accepts what the pattern
    /// matches and nothing else.
    pub fn has_safe_stars(&self) -> (safe: bool)
        ensures
            safe == star_safe(self),
    {
        alt_is_safe(&self.root, true)
    }
}

} // verus!
