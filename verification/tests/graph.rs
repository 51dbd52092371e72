use leben_regex::regex::graph::Graph;
use leben_regex::regex::parse::RegexAst;
use leben_regex::regex::translate::add_alt;
use leben_regex::utf8::UnicodeCodepoint;

fn symbol(c: char) -> UnicodeCodepoint {
    UnicodeCodepoint::from(c)
}

#[test]
fn new_graph_has_the_initial_node() {
    let g = Graph::new(3);
    assert_eq!(g.node_count(), 1);
    let x = g.get_initial_node();
    assert!(g.owns_node(x));
    assert!(!g.is_final(x));
    assert_eq!(g.get_connections(x).len(), 0);
    assert_eq!(g.get_epsilon_connections(x).len(), 0);
    assert_eq!(g.debug_string(), "");
}

#[test]
fn handles_belong_to_one_graph() {
    let mut g = Graph::new(1);
    let h = Graph::new(2);
    let y = g.add_node();
    assert!(g.owns_node(y));
    assert!(!h.owns_node(y));
    assert!(!h.owns_node(g.get_initial_node()));
    assert!(g == g.duplicate(1));
    assert!(g != h);
}

#[test]
fn edges_accumulate_in_order() {
    let mut g = Graph::new(0);
    let x = g.get_initial_node();
    let y = g.add_node();
    let z = g.add_node();
    g.connect(x, y, symbol('a'));
    g.connect(x, z, symbol('b'));
    g.connect_epsilon(y, z);
    g.connect_epsilon(y, x);
    g.set_final(z);
    assert!(g.is_final(z));
    assert!(!g.is_final(y));
    assert!(g.get_connections(x) == vec![y, z]);
    assert!(g.get_epsilon_connections(y) == vec![z, x]);
    assert_eq!(g.edge_count(0), 2);
    assert_eq!(g.edge_at(0, 1), (2, symbol('b')));
    assert_eq!(g.epsilon_count(1), 2);
    assert_eq!(g.epsilon_at(1, 0), 2);
    assert!(g.final_at(2));
    assert_eq!(g.debug_string(), "0 1 a\n0 2 b\n1 2 \u{3b5}\n1 0 \u{3b5}\n");
}

#[test]
fn debug_string_writes_decimal() {
    let mut g = Graph::new(0);
    let mut last = g.get_initial_node();
    for _ in 0..12 {
        last = g.add_node();
    }
    let x = g.get_initial_node();
    g.connect(last, x, symbol('\u{e9}'));
    g.connect_epsilon(last, last);
    assert_eq!(g.debug_string(), "12 0 \u{e9}\n12 12 \u{3b5}\n");
}

#[test]
fn collapse_folds_silent_edges() {
    let mut g = Graph::new(0);
    let x = g.get_initial_node();
    let y = g.add_node();
    let z = g.add_node();
    g.connect_epsilon(x, y);
    g.connect_epsilon(y, z);
    g.connect_epsilon(x, x);
    g.connect(y, y, symbol('a'));
    g.connect(z, x, symbol('b'));
    g.set_final(z);
    g.collapse_epsilons();
    for a in 0..3 {
        assert_eq!(g.epsilon_count(a), 0);
        assert!(g.final_at(a));
    }
    assert_eq!(g.debug_string(), "0 1 a\n0 0 b\n1 1 a\n1 0 b\n2 0 b\n");
}

#[test]
fn collapse_ends_on_silent_cycles() {
    // node 0 leads into a cycle of later nodes that it is not part of
    let mut g = Graph::new(0);
    let x = g.get_initial_node();
    let y = g.add_node();
    let z = g.add_node();
    g.connect_epsilon(x, y);
    g.connect_epsilon(y, z);
    g.connect_epsilon(z, y);
    g.connect(z, x, symbol('c'));
    g.collapse_epsilons();
    // node 2 has its own edge and gets that of node 1, which is the same
    assert_eq!(g.debug_string(), "0 0 c\n1 0 c\n2 0 c\n2 0 c\n");
}

#[test]
fn compile_sets_target_row_and_source_column() {
    let mut g = Graph::new(0);
    let x = g.get_initial_node();
    let y = g.add_node();
    g.connect(x, y, symbol('a'));
    g.connect(y, y, symbol('b'));
    g.connect(y, x, symbol('a'));
    g.set_final(y);
    let (matrices, finals) = g.compile();
    assert_eq!(matrices.len(), 2);
    let a = &matrices[&('a' as u32)];
    assert_eq!((a.size_i(), a.size_j()), (2, 2));
    assert!(a.get(1, 0));
    assert!(a.get(0, 1));
    assert!(!a.get(0, 0));
    assert!(!a.get(1, 1));
    let b = &matrices[&('b' as u32)];
    assert!(b.get(1, 1));
    assert!(!b.get(0, 0) && !b.get(0, 1) && !b.get(1, 0));
    assert_eq!(finals.enumerate_iter(), vec![(0, false), (1, true)]);
}

#[test]
fn parts_are_chained_and_branched_and_looped() {
    let ast = RegexAst::parse("a(b|c)d*".as_bytes()).unwrap();
    let mut g = Graph::new(0);
    let start = g.get_initial_node();
    let end = g.add_node();
    g.set_final(end);
    for alt in &ast.root.alts {
        add_alt(&mut g, start, end, alt).unwrap();
    }
    assert_eq!(
        g.debug_string(),
        "0 2 a\n2 4 b\n2 5 c\n3 3 d\n3 1 \u{3b5}\n4 3 \u{3b5}\n5 3 \u{3b5}\n"
    );
}

#[test]
fn empty_pattern_is_one_silent_edge() {
    let ast = RegexAst::parse(b"").unwrap();
    let mut g = Graph::new(0);
    let start = g.get_initial_node();
    let end = g.add_node();
    for alt in &ast.root.alts {
        add_alt(&mut g, start, end, alt).unwrap();
    }
    assert_eq!(g.debug_string(), "0 1 \u{3b5}\n");
}
