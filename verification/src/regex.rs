//! Patterns, their automata and the compiled matcher.
use crate::math::{least_gated, meet, BitMatrix, BitVector, NfaVector};
use crate::regex::closure::{
    collapsed, edge_is, edge_within_reach, final_within_reach, goes, graph_accepts,
    labelled_edge, lemma_edge_within, lemma_goes_on, lemma_reach_self, node_collapsed,
    node_has_edge, silent_reach,
};
use crate::regex::compile::{compiled, edge_on, labels_some_edge};
use crate::regex::graph::{well_formed, Graph, NodeView};
use crate::regex::language::{
    lemma_automaton_complete, lemma_automaton_exact, pattern_matches, star_safe,
};
use crate::regex::literals::lemma_pattern_decodes;
use crate::regex::parse::{pattern_error, ParseFailure, RegexAst};
use crate::regex::translate::{add_alt, automaton, initial_graph, lay_alts, lemma_alts_error};
use crate::utf8::{lemma_valid_utf8_decodes, UnicodeCodepoint, Utf8DecodeError};
use std::collections::HashMap;
use vstd::prelude::*;
use vstd::string::StringSliceAdditionalSpecFns;

pub mod closure;
pub mod compile;
pub mod graph;
pub mod language;
pub mod literals;
pub mod parse;
pub mod translate;

verus! {

/// A compiled pattern: an automaton without silent edges, held as one
/// transition matrix per symbol and a vector of final marks. State 0 is the
/// initial state.
pub struct Regex {
    token_matrices: HashMap<u32, BitMatrix>,
    final_nodes: BitVector,
}

/// Why a pattern was not read.
#[derive(Copy, Clone, Debug, PartialEq, Eq)]
pub enum RegexParseError {
    MissingParseResultError,
    ParseError(ParseFailure),
}

/// Why a pattern was not compiled.
#[derive(Copy, Clone, Debug, PartialEq, Eq)]
pub enum RegexError {
    ParseError(RegexParseError),
    Utf8DecodeError(Utf8DecodeError),
}

/// Whether `ast` is the pattern `source` as the reader reads it.
pub open spec fn reads_as(source: Seq<u8>, ast: RegexAst) -> bool {
    ast.root.wf() && ast.root.source() == source
}

/// Whether `source` is read as a pattern whose automaton `regex` stands for.
pub open spec fn compiles_to(source: Seq<u8>, regex: Regex) -> bool {
    exists|ast: RegexAst| #[trigger]
        reads_as(source, ast) && regex.stands_for(&ast)
}

/// Whether `source` is read as a pattern with a literal that does not
/// decode, the first of which fails with `e`.
pub open spec fn fails_to_decode(source: Seq<u8>, e: Utf8DecodeError) -> bool {
    exists|ast: RegexAst| #[trigger]
        reads_as(source, ast) && automaton(&ast) == Err::<Seq<NodeView>, Utf8DecodeError>(e)
}

impl Regex {
    spec fn wf(&self) -> bool {
        &&& self.final_nodes@.len() >= 1
        &&& forall|k: u32| #[trigger]
            self.token_matrices@.contains_key(k) ==> self.token_matrices@[k].rows()
                == self.final_nodes@.len() && self.token_matrices@[k].cols()
                == self.final_nodes@.len()
    }

    #[verifier::type_invariant]
    spec fn sound(self) -> bool {
        self.wf()
    }

    /// The number of states.
    pub closed spec fn states(&self) -> nat {
        self.final_nodes@.len()
    }

    /// Whether reading `c` in state `p` may lead to state `q`.
    pub closed spec fn edge(&self, p: int, c: UnicodeCodepoint, q: int) -> bool {
        self.token_matrices@.contains_key(c@) && self.token_matrices@[c@].at(q, p)
    }

    /// Whether state `q` is final.
    pub closed spec fn accepting(&self, q: int) -> bool {
        self.final_nodes@[q]
    }

    /// Whether reading `s` from the initial state may lead to state `q`.
    pub open spec fn reaches(&self, s: Seq<UnicodeCodepoint>, q: int) -> bool
        decreases s.len(),
    {
        if s.len() == 0 {
            q == 0
        } else {
            0 <= q < self.states() && exists|p: int|
                0 <= p < self.states() && self.reaches(s.drop_last(), p) && #[trigger] self.edge(
                    p,
                    s.last(),
                    q,
                )
        }
    }

    /// Whether reading `s` from the initial state may lead to state `q`
    /// without coming through the initial state on the way.
    pub open spec fn reaches_directly(&self, s: Seq<UnicodeCodepoint>, q: int) -> bool
        decreases s.len(),
    {
        if s.len() == 0 {
            q == 0
        } else {
            0 <= q < self.states() && exists|p: int|
                0 <= p < self.states() && self.reaches_directly(s.drop_last(), p) && (s.len() == 1
                    || p != 0) && #[trigger] self.edge(p, s.last(), q)
        }
    }

    /// Whether the automaton accepts `s`: reading `s` from the initial state
    /// may lead to a final state.
    pub open spec fn accepts(&self, s: Seq<UnicodeCodepoint>) -> bool {
        exists|q: int| 0 <= q < self.states() && #[trigger] self.reaches(s, q) && self.accepting(q)
    }

    /// Whether the automaton accepts `s` along a way that does not come back
    /// to the initial state before its end.
    pub open spec fn accepts_directly(&self, s: Seq<UnicodeCodepoint>) -> bool {
        exists|q: int|
            0 <= q < self.states() && #[trigger] self.reaches_directly(s, q) && self.accepting(q)
    }

    /// Whether `r` is what `find` reports of `s`.
    ///
    /// Nothing is reported if and only if the automaton accepts no part of
    /// `s`. Else the part reported ends where the first accepted part ends,
    /// and starts at the least index from which the automaton accepts, up to
    /// that end, without coming back to its initial state.
    pub open spec fn is_first_match(
        &self,
        s: Seq<UnicodeCodepoint>,
        r: Option<(usize, usize)>,
    ) -> bool {
        match r {
            None => forall|u: int, e: int|
                0 <= u <= e <= s.len() ==> !self.accepts(#[trigger] s.subrange(u, e)),
            Some((start, len)) => {
                &&& start + len <= s.len()
                &&& self.accepts_directly(s.subrange(start as int, start + len))
                &&& forall|u: int, e: int|
                    0 <= u <= e < start + len ==> !self.accepts(#[trigger] s.subrange(u, e))
                &&& forall|u: int|
                    0 <= u < start ==> !self.accepts_directly(
                        #[trigger] s.subrange(u, start + len),
                    )
            },
        }
    }

    /// Whether `v` is the least index from which reading `s` up to index `e`
    /// may lead to state `q` without coming back to the initial state:
    /// `None` where no index is.
    spec fn least_start(
        &self,
        s: Seq<UnicodeCodepoint>,
        e: int,
        q: int,
        v: Option<usize>,
    ) -> bool {
        match v {
            None => forall|u: int|
                0 <= u < e ==> !self.reaches_directly(#[trigger] s.subrange(u, e), q),
            Some(x) => {
                &&& x < e
                &&& self.reaches_directly(s.subrange(x as int, e), q)
                &&& forall|u: int|
                    0 <= u < x ==> !self.reaches_directly(#[trigger] s.subrange(u, e), q)
            },
        }
    }

    /// Whether the automaton is `g` with its silent edges folded away:
    /// state for node, it has the labelled edges and the final marks that
    /// lie within silent reach in `g`.
    pub open spec fn folds(&self, g: Seq<NodeView>) -> bool {
        &&& well_formed(g)
        &&& self.states() == g.len()
        &&& forall|p: int, c: UnicodeCodepoint, q: int|
            0 <= p < g.len() && 0 <= q < g.len() ==> (#[trigger] self.edge(p, c, q)
                <==> edge_within_reach(g, p, c, q))
        &&& forall|q: int|
            0 <= q < g.len() ==> (#[trigger] self.accepting(q) <==> final_within_reach(g, q))
    }

    /// Whether the automaton is that of the pattern `ast`, with the silent
    /// edges folded away.
    pub open spec fn stands_for(&self, ast: &RegexAst) -> bool {
        match automaton(ast) {
            Ok(g) => g.len() <= usize::MAX && self.folds(g) && self.recognizes(g),
            Err(_) => false,
        }
    }

    /// What a pattern matches, its automaton accepts.
    pub proof fn lemma_accepts_what_matches(&self, ast: &RegexAst, s: Seq<UnicodeCodepoint>)
        requires
            self.stands_for(ast),
            pattern_matches(ast, s),
        ensures
            self.accepts(s),
    {
        lemma_automaton_complete(ast, s);
    }

    /// Where the stars of a pattern stand so that their loops do no harm,
    /// its automaton accepts a string if and only if the pattern matches it.
    ///
    /// Elsewhere the automaton may accept more: the loop of a star is on the
    /// node that the starred part starts from, and is open to whatever else
    /// starts from that node.
    pub proof fn lemma_accepts_pattern(&self, ast: &RegexAst, s: Seq<UnicodeCodepoint>)
        requires
            self.stands_for(ast),
            star_safe(ast),
        ensures
            self.accepts(s) <==> pattern_matches(ast, s),
    {
        lemma_automaton_exact(ast, s);
    }

    /// A pattern that matches the empty string is found at once, whatever is
    /// searched: at index 0, with length 0.
    pub proof fn lemma_empty_match_found_first(
        &self,
        ast: &RegexAst,
        s: Seq<UnicodeCodepoint>,
        r: Option<(usize, usize)>,
    )
        requires
            self.stands_for(ast),
            pattern_matches(ast, Seq::empty()),
            self.is_first_match(s, r),
        ensures
            r == Some((0usize, 0usize)),
    {
        self.lemma_accepts_what_matches(ast, Seq::empty());
        self.lemma_empty_found_first(s, r);
    }

    /// The pattern matches no part of what is searched that is shorter than
    /// the part found and starts where it starts, nor any part that ends
    /// before it.
    pub proof fn lemma_no_match_ends_before(
        &self,
        ast: &RegexAst,
        s: Seq<UnicodeCodepoint>,
        start: usize,
        len: usize,
        u: int,
        e: int,
    )
        requires
            self.stands_for(ast),
            self.is_first_match(s, Some((start, len))),
            0 <= u <= e < start + len,
        ensures
            !pattern_matches(ast, s.subrange(u, e)),
    {
        if pattern_matches(ast, s.subrange(u, e)) {
            self.lemma_accepts_what_matches(ast, s.subrange(u, e));
        }
    }

    /// Where nothing is found, the pattern matches no part of what is
    /// searched.
    pub proof fn lemma_nothing_found_nothing_matched(
        &self,
        ast: &RegexAst,
        s: Seq<UnicodeCodepoint>,
        u: int,
        e: int,
    )
        requires
            self.stands_for(ast),
            self.is_first_match(s, None),
            0 <= u <= e <= s.len(),
        ensures
            !pattern_matches(ast, s.subrange(u, e)),
    {
        if pattern_matches(ast, s.subrange(u, e)) {
            self.lemma_accepts_what_matches(ast, s.subrange(u, e));
        }
    }

    /// Where the stars of the pattern stand so that their loops do no harm,
    /// the pattern matches the part that is found.
    pub proof fn lemma_found_is_matched(
        &self,
        ast: &RegexAst,
        s: Seq<UnicodeCodepoint>,
        start: usize,
        len: usize,
    )
        requires
            self.stands_for(ast),
            star_safe(ast),
            self.is_first_match(s, Some((start, len))),
        ensures
            pattern_matches(ast, s.subrange(start as int, start + len)),
    {
        let t = s.subrange(start as int, start + len);
        let q = choose|q: int|
            0 <= q < self.states() && #[trigger] self.reaches_directly(t, q) && self.accepting(q);
        self.lemma_direct_reaches(t, q);
        assert(self.reaches(t, q) && self.accepting(q));
        self.lemma_accepts_pattern(ast, t);
    }

    /// Whether the automaton accepts what `g` accepts.
    pub open spec fn recognizes(&self, g: Seq<NodeView>) -> bool {
        forall|s: Seq<UnicodeCodepoint>| #[trigger] self.accepts(s) <==> graph_accepts(g, s)
    }

    proof fn lemma_reaches_goes(&self, g: Seq<NodeView>, s: Seq<UnicodeCodepoint>, b: int)
        requires
            self.folds(g),
            self.reaches(s, b),
        ensures
            goes(g, 0, s, b),
            0 <= b < g.len(),
        decreases s.len(),
    {
        if s.len() == 0 {
            lemma_reach_self(g, 0);
        } else {
            let p = choose|p: int|
                0 <= p < self.states() && self.reaches(s.drop_last(), p) && #[trigger] self.edge(
                    p,
                    s.last(),
                    b,
                );
            self.lemma_reaches_goes(g, s.drop_last(), p);
            assert(edge_within_reach(g, p, s.last(), b));
            let m = choose|m: int| #[trigger]
                silent_reach(g, p, m) && labelled_edge(g, m, s.last(), b);
            lemma_goes_on(g, 0, s.drop_last(), p, m);
            lemma_reach_self(g, b);
            assert(goes(g, 0, s.drop_last(), m) && labelled_edge(g, m, s.last(), b)
                && silent_reach(g, b, b));
        }
    }

    proof fn lemma_goes_reaches(&self, g: Seq<NodeView>, s: Seq<UnicodeCodepoint>, b: int) -> (via:
        int)
        requires
            self.folds(g),
            goes(g, 0, s, b),
        ensures
            0 <= via < g.len(),
            self.reaches(s, via),
            silent_reach(g, via, b),
        decreases s.len(),
    {
        if s.len() == 0 {
            0
        } else {
            let (p, q) = choose|p: int, q: int|
                goes(g, 0, s.drop_last(), p) && #[trigger] labelled_edge(g, p, s.last(), q)
                    && silent_reach(g, q, b);
            let from = self.lemma_goes_reaches(g, s.drop_last(), p);
            lemma_edge_within(g, p, s.last(), q);
            assert(silent_reach(g, from, p) && labelled_edge(g, p, s.last(), q));
            assert(edge_within_reach(g, from, s.last(), q));
            assert(self.edge(from, s.last(), q));
            q
        }
    }

    /// Folding silent edges away keeps what is accepted.
    #[verifier::rlimit(40)]
    pub proof fn lemma_folds_recognizes(&self, g: Seq<NodeView>)
        requires
            self.folds(g),
        ensures
            self.recognizes(g),
    {
        assert forall|s: Seq<UnicodeCodepoint>| #[trigger]
            self.accepts(s) <==> graph_accepts(g, s) by {
            if self.accepts(s) {
                let q = choose|q: int|
                    0 <= q < self.states() && #[trigger] self.reaches(s, q) && self.accepting(q);
                self.lemma_reaches_goes(g, s, q);
                assert(final_within_reach(g, q));
                let y = choose|y: int| #[trigger]
                    silent_reach(g, q, y) && 0 <= y < g.len() && g[y].is_final;
                lemma_goes_on(g, 0, s, q, y);
                assert(goes(g, 0, s, y) && 0 <= y < g.len() && g[y].is_final);
            }
            if graph_accepts(g, s) {
                let b = choose|b: int| #[trigger] goes(g, 0, s, b) && 0 <= b < g.len() && g[b].is_final;
                let via = self.lemma_goes_reaches(g, s, b);
                assert(silent_reach(g, via, b) && 0 <= b < g.len() && g[b].is_final);
                assert(final_within_reach(g, via));
                assert(self.reaches(s, via) && self.accepting(via));
            }
        }
    }

    /// What is compiled from a graph whose silent edges were folded away
    /// folds the graph as it was before.
    #[verifier::rlimit(40)]
    proof fn lemma_compiled_folds(&self, before: Seq<NodeView>, after: Seq<NodeView>)
        requires
            well_formed(before),
            collapsed(before, after),
            compiled(after, self.token_matrices@, self.final_nodes@),
        ensures
            self.folds(before),
    {
        let n = before.len() as int;
        assert forall|p: int, c: UnicodeCodepoint, q: int| 0 <= p < n && 0 <= q < n implies (
        #[trigger] self.edge(p, c, q) <==> edge_within_reach(before, p, c, q)) by {
            assert(node_collapsed(before, after[p], p));
            assert(node_has_edge(after[p], c, q) <==> edge_within_reach(before, p, c, q));
            if edge_on(after, p, c@, q) {
                let j = choose|j: int|
                    0 <= j < after[p].edges.len() && (#[trigger] after[p].edges[j]).0 == q
                        && after[p].edges[j].1@ == c@;
                assert(edge_is(after[p].edges[j], c, q));
                assert(labels_some_edge(after, c@));
            }
            if node_has_edge(after[p], c, q) {
                let j = choose|j: int|
                    0 <= j < after[p].edges.len() && edge_is(#[trigger] after[p].edges[j], c, q);
                assert(after[p].edges[j].0 == q && after[p].edges[j].1@ == c@);
            }
        }
        assert forall|q: int| 0 <= q < n implies (#[trigger] self.accepting(q)
            <==> final_within_reach(before, q)) by {
            assert(node_collapsed(before, after[q], q));
        }
    }

    /// Compiles a pattern that has been read: lays its automaton, folds the
    /// silent edges away and compiles the rest.
    #[verifier::rlimit(40)]
    pub fn from_ast(ast: &RegexAst) -> (r: Result<Regex, Utf8DecodeError>)
        requires
            ast.root.wf(),
            (ast.root.source().len() + 2) * (ast.root.source().len() + 2) <= usize::MAX,
        ensures
            match r {
                Ok(regex) => regex.stands_for(ast),
                Err(e) => automaton(ast) == Err::<Seq<NodeView>, Utf8DecodeError>(e),
            },
    {
        let mut graph = Graph::new(0);
        let start_node = graph.get_initial_node();
        let final_node = graph.add_node();
        graph.set_final(final_node);
        let alts = &ast.root.alts;
        let n = alts.len();
        let mut k: usize = 0;
        proof {
            assert(graph@ =~= initial_graph());
        }
        while k < n
            invariant
                k <= n,
                n == ast.root.alts@.len(),
                alts == &ast.root.alts,
                ast.root.wf(),
                graph.wf(),
                graph.owns(start_node),
                graph.owns(final_node),
                start_node.index() == 0,
                final_node.index() == 1,
                graph@.len() <= 2 + ast.root.source_upto(k as nat).len(),
                lay_alts(initial_graph(), 0, 1, &ast.root, k as nat) == Ok::<
                    Seq<NodeView>,
                    Utf8DecodeError,
                >(graph@),
            decreases n - k,
        {
            proof {
                assert(ast.root.alts@[k as int].wf());
            }
            match add_alt(&mut graph, start_node, final_node, &alts[k]) {
                Ok(()) => {},
                Err(e) => {
                    proof {
                        assert(lay_alts(initial_graph(), 0, 1, &ast.root, (k + 1) as nat) is Err);
                        lemma_alts_error(initial_graph(), 0, 1, &ast.root, (k + 1) as nat, n as nat);
                    }
                    return Err(e);
                },
            }
            k += 1;
        }
        let ghost laid = graph@;
        let nodes = graph.node_count();
        proof {
            assert(laid.len() == nodes);
            let len = ast.root.source().len() as int;
            let nodes = laid.len() as int;
            assert(nodes <= len + 2);
            assert(nodes * nodes <= (len + 2) * (len + 2)) by (nonlinear_arith)
                requires
                    0 <= nodes <= len + 2,
            ;
        }
        graph.collapse_epsilons();
        let (token_matrices, final_nodes) = graph.compile();
        let regex = Regex { token_matrices, final_nodes };
        proof {
            regex.lemma_compiled_folds(laid, graph@);
            regex.lemma_folds_recognizes(laid);
        }
        Ok(regex)
    }

    /// Compiles the pattern `source`.
    ///
    /// A pattern that is not in order gives the failure of the reader; a
    /// literal that does not decode gives its error; else the result stands
    /// for the automaton of the pattern.
    pub fn new(source: &[u8]) -> (r: Result<Regex, RegexError>)
        requires
            (source@.len() + 2) * (source@.len() + 2) <= usize::MAX,
        ensures
            match r {
                Ok(regex) => pattern_error(source@) is None && compiles_to(source@, regex),
                Err(RegexError::ParseError(e)) => match e {
                    RegexParseError::ParseError(f) => pattern_error(source@) == Some(
                        (f.source_position as int, f.expected),
                    ),
                    RegexParseError::MissingParseResultError => false,
                },
                Err(RegexError::Utf8DecodeError(e)) => pattern_error(source@) is None
                    && fails_to_decode(source@, e),
            },
    {
        let ast = match RegexAst::parse(source) {
            Ok(ast) => ast,
            Err(f) => {
                return Err(RegexError::ParseError(RegexParseError::ParseError(f)));
            },
        };
        match Regex::from_ast(&ast) {
            Ok(regex) => {
                proof {
                    assert(reads_as(source@, ast));
                }
                Ok(regex)
            },
            Err(e) => {
                proof {
                    assert(reads_as(source@, ast));
                }
                Err(RegexError::Utf8DecodeError(e))
            },
        }
    }

    /// Compiles the pattern `source`. Its literals decode, as a `str` is
    /// well-formed UTF-8, so that only the reader can fail.
    pub fn new_from_str(source: &str) -> (r: Result<Regex, RegexParseError>)
        requires
            (source.spec_bytes().len() + 2) * (source.spec_bytes().len() + 2) <= usize::MAX,
        ensures
            match r {
                Ok(regex) => pattern_error(source.spec_bytes()) is None && compiles_to(
                    source.spec_bytes(),
                    regex,
                ),
                Err(RegexParseError::ParseError(f)) => pattern_error(source.spec_bytes()) == Some(
                    (f.source_position as int, f.expected),
                ),
                Err(RegexParseError::MissingParseResultError) => false,
            },
    {
        match Regex::new(source.as_bytes()) {
            Ok(regex) => Ok(regex),
            Err(RegexError::ParseError(e)) => Err(e),
            Err(RegexError::Utf8DecodeError(e)) => {
                proof {
                    let bytes = source.spec_bytes();
                    let ast = choose|ast: RegexAst| #[trigger]
                        reads_as(bytes, ast) && automaton(&ast) == Err::<
                            Seq<NodeView>,
                            Utf8DecodeError,
                        >(e);
                    vstd::utf8::encode_utf8_valid_utf8(source@);
                    lemma_valid_utf8_decodes(bytes);
                    lemma_pattern_decodes(&ast);
                }
                vstd::pervasive::unreached()
            },
        }
    }

    /// A pattern that accepts the empty string is found at once, whatever
    /// is searched: at index 0, with length 0.
    pub proof fn lemma_empty_found_first(
        &self,
        s: Seq<UnicodeCodepoint>,
        r: Option<(usize, usize)>,
    )
        requires
            self.is_first_match(s, r),
            self.accepts(Seq::empty()),
        ensures
            r == Some((0usize, 0usize)),
    {
        assert(s.subrange(0, 0) =~= Seq::<UnicodeCodepoint>::empty());
    }

    /// The part that is found is the shortest that is accepted from its
    /// start: no shorter one from there is accepted.
    pub proof fn lemma_found_shortest(
        &self,
        s: Seq<UnicodeCodepoint>,
        start: usize,
        len: usize,
        shorter: int,
    )
        requires
            self.is_first_match(s, Some((start, len))),
            0 <= shorter < len,
        ensures
            !self.accepts(s.subrange(start as int, start + shorter)),
    {
    }

    /// The part that is found ends first: nothing that is accepted ends
    /// before it does, wherever it starts.
    pub proof fn lemma_found_ends_first(
        &self,
        s: Seq<UnicodeCodepoint>,
        start: usize,
        len: usize,
        u: int,
        e: int,
    )
        requires
            self.is_first_match(s, Some((start, len))),
            0 <= u <= e < start + len,
        ensures
            !self.accepts(s.subrange(u, e)),
    {
    }

    /// The part that is found is the leftmost that is accepted, where every
    /// accepted part that starts further left ends no later than the part
    /// found and is accepted along a way that does not come back to the
    /// initial state: then no part that starts further left is accepted.
    ///
    /// Without the condition this fails: the first end is looked for before
    /// the least start, so that a longer part from further left is passed
    /// over, and a start is forgotten when the way from it comes back to the
    /// initial state.
    pub proof fn lemma_found_leftmost(
        &self,
        s: Seq<UnicodeCodepoint>,
        start: usize,
        len: usize,
        u: int,
        e: int,
    )
        requires
            self.is_first_match(s, Some((start, len))),
            forall|v: int, f: int|
                0 <= v < start && v <= f <= s.len() && self.accepts(#[trigger] s.subrange(v, f))
                    ==> f <= start + len && self.accepts_directly(s.subrange(v, f)),
            0 <= u < start,
            u <= e <= s.len(),
        ensures
            !self.accepts(s.subrange(u, e)),
    {
        if self.accepts(s.subrange(u, e)) {
            assert(e <= start + len && self.accepts_directly(s.subrange(u, e)));
            if e < start + len {
                assert(!self.accepts(s.subrange(u, e)));
            } else {
                assert(!self.accepts_directly(s.subrange(u, start + len)));
            }
        }
    }

    /// Where no edge leads into the initial state, the part that is found is
    /// the leftmost of those that end first: no part that starts further
    /// left and ends where it ends is accepted.
    pub proof fn lemma_found_leftmost_of_first(
        &self,
        s: Seq<UnicodeCodepoint>,
        start: usize,
        len: usize,
        u: int,
    )
        requires
            self.is_first_match(s, Some((start, len))),
            forall|p: int, c: UnicodeCodepoint| !#[trigger] self.edge(p, c, 0),
            0 <= u < start,
        ensures
            !self.accepts(s.subrange(u, start + len)),
    {
        let t = s.subrange(u, start + len);
        if self.accepts(t) {
            let q = choose|q: int|
                0 <= q < self.states() && #[trigger] self.reaches(t, q) && self.accepting(q);
            self.lemma_no_way_back(t, q);
            assert(self.reaches_directly(t, q) && self.accepting(q));
        }
    }

    /// Where no edge leads into the initial state, every way stays away from
    /// it: what is accepted is accepted directly.
    pub proof fn lemma_no_way_back(&self, s: Seq<UnicodeCodepoint>, q: int)
        requires
            forall|p: int, c: UnicodeCodepoint| !#[trigger] self.edge(p, c, 0),
            self.reaches(s, q),
        ensures
            self.reaches_directly(s, q),
        decreases s.len(),
    {
        if s.len() > 0 {
            let p = choose|p: int|
                0 <= p < self.states() && self.reaches(s.drop_last(), p) && #[trigger] self.edge(
                    p,
                    s.last(),
                    q,
                );
            self.lemma_no_way_back(s.drop_last(), p);
            if s.len() > 1 && p == 0 {
                let t = s.drop_last();
                let back = choose|back: int|
                    0 <= back < self.states() && self.reaches(t.drop_last(), back)
                        && #[trigger] self.edge(back, t.last(), 0);
                assert(false);
            }
        }
    }

    /// Only the initial state is reached without reading.
    pub proof fn lemma_accepts_empty(&self)
        ensures
            self.accepts(Seq::empty()) <==> 0 < self.states() && self.accepting(0),
            self.accepts_directly(Seq::empty()) <==> 0 < self.states() && self.accepting(0),
    {
        let e = Seq::<UnicodeCodepoint>::empty();
        if 0 < self.states() && self.accepting(0) {
            assert(self.reaches(e, 0));
            assert(self.reaches_directly(e, 0));
        }
    }

    /// A way that does not come back to the initial state is a way.
    pub proof fn lemma_direct_reaches(&self, s: Seq<UnicodeCodepoint>, q: int)
        requires
            self.reaches_directly(s, q),
        ensures
            self.reaches(s, q),
        decreases s.len(),
    {
        if s.len() > 0 {
            let p = choose|p: int|
                0 <= p < self.states() && self.reaches_directly(s.drop_last(), p) && (s.len() == 1
                    || p != 0) && #[trigger] self.edge(p, s.last(), q);
            self.lemma_direct_reaches(s.drop_last(), p);
        }
    }

    /// A way ends with a way that does not come back to the initial state:
    /// the part of it after its last visit there.
    pub proof fn lemma_reaches_direct_tail(&self, s: Seq<UnicodeCodepoint>, q: int) -> (k: int)
        requires
            self.reaches(s, q),
        ensures
            0 <= k <= s.len(),
            self.reaches_directly(s.skip(k), q),
        decreases s.len(),
    {
        if s.len() == 0 {
            assert(s.skip(0) =~= s);
            0
        } else {
            let p = choose|p: int|
                0 <= p < self.states() && self.reaches(s.drop_last(), p) && #[trigger] self.edge(
                    p,
                    s.last(),
                    q,
                );
            let j = self.lemma_reaches_direct_tail(s.drop_last(), p);
            let tail = s.skip(j);
            if p != 0 || j == s.len() - 1 {
                assert(tail.drop_last() =~= s.drop_last().skip(j));
                assert(tail.last() == s.last());
                assert(self.reaches_directly(tail, q));
                j
            } else {
                let one = s.skip(s.len() - 1);
                assert(one.drop_last() =~= Seq::<UnicodeCodepoint>::empty());
                assert(one.last() == s.last());
                assert(self.reaches_directly(one.drop_last(), 0));
                assert(self.reaches_directly(one, q));
                s.len() - 1
            }
        }
    }

    /// Where no state is reached, none is reached by reading on.
    proof fn lemma_dead_end(&self, s: Seq<UnicodeCodepoint>, j: int, k: int)
        requires
            0 < j <= k <= s.len(),
            forall|q: int| !self.reaches(s.take(j), q),
        ensures
            forall|q: int| !self.reaches(s.take(k), q),
        decreases k - j,
    {
        if j < k {
            self.lemma_dead_end(s, j, k - 1);
            let shorter = s.take(k - 1);
            assert(s.take(k).drop_last() =~= shorter);
            assert forall|q: int| !self.reaches(s.take(k), q) by {
                if self.reaches(s.take(k), q) {
                    let p = choose|p: int|
                        0 <= p < self.states() && self.reaches(s.take(k).drop_last(), p)
                            && #[trigger] self.edge(p, s.take(k).last(), q);
                    assert(self.reaches(shorter, p));
                }
            }
        }
    }

    /// One step of `find`, where the symbol at index `e` has a matrix: the
    /// gated minimum under row `q` of what was known up to `e`, with `e`
    /// itself for the initial state, is what holds up to `e + 1`.
    #[verifier::rlimit(40)]
    proof fn lemma_find_step(
        &self,
        s: Seq<UnicodeCodepoint>,
        e: int,
        v: Seq<Option<usize>>,
        w: Option<usize>,
        q: int,
    )
        requires
            self.wf(),
            0 <= e < s.len(),
            e <= usize::MAX,
            0 <= q < self.states(),
            v.len() == self.states(),
            v[0] == Some(e as usize),
            forall|p: int| 1 <= p < self.states() ==> self.least_start(s, e, p, #[trigger] v[p]),
            self.token_matrices@.contains_key(s[e]@),
            least_gated(w, self.token_matrices@[s[e]@].row(q), v),
        ensures
            self.least_start(s, e + 1, q, w),
    {
        let m = self.token_matrices@[s[e]@];
        let row = m.row(q);
        let n = self.states() as int;
        assert(row.len() == n);
        assert forall|u: int| 0 <= u <= e implies (#[trigger] s.subrange(u, e + 1)).drop_last()
            == s.subrange(u, e) && s.subrange(u, e + 1).last() == s[e] by {
            assert(s.subrange(u, e + 1).drop_last() =~= s.subrange(u, e));
        }
        // every way up to e + 1 goes through some state at e
        assert forall|u: int|
            0 <= u <= e && self.reaches_directly(
                #[trigger] s.subrange(u, e + 1),
                q,
            ) implies exists|p: int|
            0 <= p < n && #[trigger] row[p] && v[p] is Some && v[p].unwrap() <= u by {
            let t = s.subrange(u, e + 1);
            let p = choose|p: int|
                0 <= p < self.states() && self.reaches_directly(t.drop_last(), p) && (t.len() == 1
                    || p != 0) && #[trigger] self.edge(p, t.last(), q);
            assert(row[p]);
            if u == e {
                assert(p == 0);
            } else {
                assert(self.least_start(s, e, p, v[p]));
                assert(s.subrange(u, e) == t.drop_last());
            }
        }
        match w {
            None => {
                assert forall|u: int| 0 <= u < e + 1 implies !self.reaches_directly(
                    #[trigger] s.subrange(u, e + 1),
                    q,
                ) by {
                    if self.reaches_directly(s.subrange(u, e + 1), q) {
                        let p = choose|p: int|
                            0 <= p < n && #[trigger] row[p] && v[p] is Some && v[p].unwrap() <= u;
                        assert(v[p] is None);
                    }
                }
            },
            Some(x) => {
                let p = choose|p: int| 0 <= p < row.len() && row[p] && #[trigger] v[p] == Some(x);
                let t = s.subrange(x as int, e + 1);
                assert(self.edge(p, s[e], q));
                if p == 0 {
                    assert(x == e);
                    assert(t.drop_last() =~= Seq::<UnicodeCodepoint>::empty());
                    assert(self.reaches_directly(t.drop_last(), 0));
                } else {
                    assert(self.least_start(s, e, p, v[p]));
                    assert(t.drop_last() == s.subrange(x as int, e));
                }
                assert(self.reaches_directly(t, q));
                assert forall|u: int| 0 <= u < x implies !self.reaches_directly(
                    #[trigger] s.subrange(u, e + 1),
                    q,
                ) by {
                    if self.reaches_directly(s.subrange(u, e + 1), q) {
                        let other = choose|other: int|
                            0 <= other < n && #[trigger] row[other] && v[other] is Some && v[other].unwrap()
                                <= u;
                        assert(x <= v[other].unwrap());
                    }
                }
            },
        }
    }

    /// One step of `find`, where the symbol at index `e` has no matrix:
    /// nothing is reached up to `e + 1`.
    proof fn lemma_find_dead(&self, s: Seq<UnicodeCodepoint>, e: int, q: int)
        requires
            0 <= e < s.len(),
            !self.token_matrices@.contains_key(s[e]@),
        ensures
            self.least_start(s, e + 1, q, None),
    {
        assert forall|u: int| 0 <= u < e + 1 implies !self.reaches_directly(
            #[trigger] s.subrange(u, e + 1),
            q,
        ) by {
            assert(s.subrange(u, e + 1).last() == s[e]);
        }
    }

    /// Where no final state is reached directly up to `e`, nothing that ends
    /// at `e` is accepted.
    proof fn lemma_nothing_ends(&self, s: Seq<UnicodeCodepoint>, e: int)
        requires
            0 <= e <= s.len(),
            0 < self.states(),
            !self.accepting(0),
            forall|u: int, q: int|
                0 <= u < e && 0 <= q < self.states() && self.accepting(q)
                    ==> !#[trigger] self.reaches_directly(s.subrange(u, e), q),
        ensures
            forall|u: int| 0 <= u <= e ==> !self.accepts(#[trigger] s.subrange(u, e)),
    {
        assert forall|u: int| 0 <= u <= e implies !self.accepts(#[trigger] s.subrange(u, e)) by {
            let t = s.subrange(u, e);
            if self.accepts(t) {
                let q = choose|q: int|
                    0 <= q < self.states() && #[trigger] self.reaches(t, q) && self.accepting(q);
                let k = self.lemma_reaches_direct_tail(t, q);
                assert(t.skip(k) =~= s.subrange(u + k, e));
                if u + k == e {
                    assert(q == 0);
                }
            }
        }
    }

    /// Whether the whole of `string` is accepted.
    #[verifier::rlimit(40)]
    pub fn test(&self, string: &[UnicodeCodepoint]) -> (r: bool)
        ensures
            r == self.accepts(string@),
    {
        proof {
            use_type_invariant(self);
        }
        let n = self.final_nodes.size();
        let mut accumulator = BitVector::new(n);
        // start node
        accumulator.set(0, true);
        let mut temp = BitVector::new(n);
        let len = string.len();
        let mut i: usize = 0;
        proof {
            assert(string@.take(0) =~= Seq::<UnicodeCodepoint>::empty());
        }
        while i < len
            invariant
                i <= len,
                len == string@.len(),
                n == self.states(),
                self.wf(),
                accumulator@.len() == n,
                temp@.len() == n,
                forall|q: int|
                    0 <= q < n ==> #[trigger] accumulator@[q] == self.reaches(
                        string@.take(i as int),
                        q,
                    ),
            decreases len - i,
        {
            let ghost before = string@.take(i as int);
            let ghost now = string@.take(i + 1);
            let ghost marks = accumulator@;
            proof {
                assert(now.drop_last() =~= before);
                assert(now.last() == string@[i as int]);
            }
            let key = string[i].value();
            match self.token_matrices.get(&key) {
                None => {
                    proof {
                        assert forall|q: int| !#[trigger] self.reaches(now, q) by {}
                        self.lemma_dead_end(string@, i + 1, len as int);
                        assert(string@.take(len as int) =~= string@);
                    }
                    return false;
                },
                Some(matrix) => {
                    BitVector::mult(matrix, &accumulator, &mut temp);
                    std::mem::swap(&mut accumulator, &mut temp);
                    proof {
                        assert forall|q: int| 0 <= q < n implies #[trigger] accumulator@[q]
                            == self.reaches(now, q) by {
                            let row = matrix.row(q);
                            if accumulator@[q] {
                                let p = choose|p: int|
                                    0 <= p < row.len() && p < marks.len() && #[trigger] row[p]
                                        && marks[p];
                                assert(self.edge(p, now.last(), q));
                            }
                            if self.reaches(now, q) {
                                let p = choose|p: int|
                                    0 <= p < self.states() && self.reaches(now.drop_last(), p)
                                        && #[trigger] self.edge(p, now.last(), q);
                                assert(row[p] && marks[p]);
                            }
                        }
                    }
                },
            }
            i += 1;
        }
        proof {
            assert(string@.take(len as int) =~= string@);
            if meet(accumulator@, self.final_nodes@) {
                let q = choose|q: int|
                    0 <= q < accumulator@.len() && q < self.final_nodes@.len()
                        && #[trigger] accumulator@[q] && self.final_nodes@[q];
                assert(self.reaches(string@, q) && self.accepting(q));
            }
            if self.accepts(string@) {
                let q = choose|q: int|
                    0 <= q < self.states() && #[trigger] self.reaches(string@, q)
                        && self.accepting(q);
                assert(accumulator@[q] && self.final_nodes@[q]);
            }
        }
        BitVector::dot(&accumulator, &self.final_nodes)
    }

    /// The start and the length of the first part of `string` that is
    /// accepted, if any is: the one that ends first, from the least start
    /// that `is_first_match` describes.
    #[verifier::rlimit(40)]
    pub fn find(&self, string: &[UnicodeCodepoint]) -> (r: Option<(usize, usize)>)
        ensures
            self.is_first_match(string@, r),
            self.accepts(Seq::empty()) ==> r == Some((0usize, 0usize)),
    {
        proof {
            use_type_invariant(self);
            self.lemma_accepts_empty();
        }
        let ghost s = string@;
        let n = self.final_nodes.size();
        let mut accumulator = NfaVector::new(n);
        let mut temp = NfaVector::new(n);
        // special case for initial final node
        accumulator.set(0, Some(0));
        let first = NfaVector::dot(&accumulator, &self.final_nodes);
        if first.is_some() {
            proof {
                let x = first.unwrap();
                let k = choose|k: int|
                    0 <= k < self.final_nodes@.len() && self.final_nodes@[k]
                        && #[trigger] accumulator@[k] == Some(x);
                assert(k == 0);
                assert(s.subrange(0, 0) =~= Seq::<UnicodeCodepoint>::empty());
            }
            return Some((0, 0));
        }
        proof {
            assert(accumulator@[0] is Some);
            assert(!self.accepting(0));
            assert(s.subrange(0, 0) =~= Seq::<UnicodeCodepoint>::empty());
        }
        let len = string.len();
        let mut index: usize = 0;
        while index < len
            invariant
                index <= len,
                len == s.len(),
                s == string@,
                n == self.states(),
                self.wf(),
                accumulator@.len() == n,
                temp@.len() == n,
                !self.accepting(0),
                !self.accepts(Seq::empty()),
                forall|q: int|
                    1 <= q < n ==> self.least_start(s, index as int, q, #[trigger] accumulator@[q]),
                forall|u: int, e: int|
                    0 <= u <= e <= index ==> !self.accepts(#[trigger] s.subrange(u, e)),
            decreases len - index,
        {
            accumulator.set(0, Some(index));
            let ghost known = accumulator@;
            let key = string[index].value();
            match self.token_matrices.get(&key) {
                None => {
                    accumulator.reset();
                    proof {
                        assert forall|q: int| 0 <= q < n implies self.least_start(
                            s,
                            index + 1,
                            q,
                            #[trigger] accumulator@[q],
                        ) by {
                            self.lemma_find_dead(s, index as int, q);
                        }
                    }
                },
                Some(matrix) => {
                    NfaVector::mult(matrix, &accumulator, &mut temp);
                    std::mem::swap(&mut accumulator, &mut temp);
                    proof {
                        assert forall|q: int| 0 <= q < n implies self.least_start(
                            s,
                            index + 1,
                            q,
                            #[trigger] accumulator@[q],
                        ) by {
                            self.lemma_find_step(s, index as int, known, accumulator@[q], q);
                        }
                    }
                    let hit = NfaVector::dot(&accumulator, &self.final_nodes);
                    if let Some(start_index) = hit {
                        proof {
                            let k = choose|k: int|
                                0 <= k < self.final_nodes@.len() && self.final_nodes@[k]
                                    && #[trigger] accumulator@[k] == Some(start_index);
                            assert(self.least_start(s, index + 1, k, accumulator@[k]));
                            assert(self.reaches_directly(
                                s.subrange(start_index as int, index + 1),
                                k,
                            ) && self.accepting(k));
                            assert forall|u: int| 0 <= u < start_index implies !self.accepts_directly(
                                #[trigger] s.subrange(u, index + 1),
                            ) by {
                                if self.accepts_directly(s.subrange(u, index + 1)) {
                                    let q = choose|q: int|
                                        0 <= q < self.states() && #[trigger] self.reaches_directly(
                                            s.subrange(u, index + 1),
                                            q,
                                        ) && self.accepting(q);
                                    assert(self.least_start(s, index + 1, q, accumulator@[q]));
                                    assert(accumulator@[q] is Some);
                                }
                            }
                        }
                        return Some((start_index, index - start_index + 1));
                    }
                },
            }
            proof {
                let ghost reached = accumulator@;
                assert forall|u: int, q: int|
                    0 <= u < index + 1 && 0 <= q < self.states() && self.accepting(
                        q,
                    ) implies !#[trigger] self.reaches_directly(s.subrange(u, index + 1), q) by {
                    assert(self.least_start(s, index + 1, q, reached[q]));
                    assert(reached[q] is None);
                }
                self.lemma_nothing_ends(s, index + 1);
            }
            index += 1;
        }
        None
    }
}

} // verus!
