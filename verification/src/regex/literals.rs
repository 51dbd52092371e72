//! When the literals of a pattern decode: always, where the pattern itself
//! is well-formed UTF-8.
use crate::regex::graph::{with_node, NodeView};
use crate::regex::parse::{
    is_lead, is_plain, is_trail, AltExpr, Atom, Character, ConcatExpr, KleeneExpr, RegexAst,
};
use crate::regex::translate::{automaton, initial_graph, lay_alts, lay_concat, lay_part, lay_parts};
use crate::utf8::{decode_bytes, decode_first, Utf8DecodeError};
use vstd::prelude::*;

verus! {

/// Whether the literals of the atom decode.
pub open spec fn atom_decodes(atom: &Atom) -> bool
    decreases atom, 0nat,
{
    match atom {
        Atom::CharacterAtom(c) => c.codepoint() is Ok,
        Atom::Capture { alt } => alt_decodes(alt),
    }
}

/// Whether the literals of the parts decode.
pub open spec fn concat_decodes(concat: &ConcatExpr) -> bool
    decreases concat, 0nat,
{
    forall|i: int|
        0 <= i < concat.parts@.len() ==> atom_decodes(&(#[trigger] concat.parts@[i]).atom)
}

/// Whether the literals of the alternatives decode.
pub open spec fn alt_decodes(alt: &AltExpr) -> bool
    decreases alt, 0nat,
{
    forall|j: int| 0 <= j < alt.alts@.len() ==> concat_decodes(#[trigger] &alt.alts@[j])
}

/// A part whose literals decode is laid without error.
pub proof fn lemma_lay_part_decodes(g: Seq<NodeView>, prev: int, part: &KleeneExpr)
    requires
        atom_decodes(&part.atom),
    ensures
        lay_part(g, prev, part) is Ok,
    decreases part, 0nat,
{
    let next = if part.star {
        prev
    } else {
        g.len() as int
    };
    let g1 = if part.star {
        g
    } else {
        with_node(g)
    };
    match part.atom {
        Atom::CharacterAtom(c) => {},
        Atom::Capture { alt } => {
            lemma_lay_alts_decodes(g1, prev, next, &alt, alt.alts@.len());
        },
    }
}

/// Parts whose literals decode are laid without error.
pub proof fn lemma_lay_parts_decodes(g: Seq<NodeView>, start: int, concat: &ConcatExpr, k: nat)
    requires
        concat_decodes(concat),
    ensures
        lay_parts(g, start, concat, k) is Ok,
    decreases concat, k,
{
    if !(k == 0 || k > concat.parts@.len()) {
        lemma_lay_parts_decodes(g, start, concat, (k - 1) as nat);
        let (g1, prev) = lay_parts(g, start, concat, (k - 1) as nat).unwrap();
        assert(atom_decodes(&concat.parts@[k - 1].atom));
        lemma_lay_part_decodes(g1, prev, &concat.parts@[k - 1]);
    }
}

/// Alternatives whose literals decode are laid without error.
pub proof fn lemma_lay_alts_decodes(
    g: Seq<NodeView>,
    start: int,
    end: int,
    alt: &AltExpr,
    k: nat,
)
    requires
        alt_decodes(alt),
    ensures
        lay_alts(g, start, end, alt, k) is Ok,
    decreases alt, k,
{
    if !(k == 0 || k > alt.alts@.len()) {
        lemma_lay_alts_decodes(g, start, end, alt, (k - 1) as nat);
        let g1 = lay_alts(g, start, end, alt, (k - 1) as nat).unwrap();
        let concat = &alt.alts@[k - 1];
        assert(concat_decodes(concat));
        lemma_lay_parts_decodes(g1, start, concat, concat.parts@.len());
        assert(lay_concat(g1, start, end, concat) is Ok);
    }
}

/// Whether a multi-byte sequence may go on with `rest`: not with a
/// continuation byte.
pub open spec fn no_trail_first(rest: Seq<u8>) -> bool {
    rest.len() == 0 || !is_trail(rest[0])
}

/// Bytes that decode, after one byte of ASCII, decode.
proof fn lemma_decode_after_ascii(b: u8, rest: Seq<u8>)
    requires
        b < 0x80,
        decode_bytes(seq![b] + rest) is Ok,
    ensures
        decode_bytes(rest) is Ok,
{
    let all = seq![b] + rest;
    assert(all.skip(1) =~= rest);
}

/// Where the bytes of a literal and what follows decode, the literal
/// decodes, and what follows does.
#[verifier::rlimit(40)]
proof fn lemma_character_bytes(c: &Character, rest: Seq<u8>)
    requires
        c.wf(),
        decode_bytes(c.source() + rest) is Ok,
        no_trail_first(rest),
    ensures
        c.codepoint() is Ok,
        decode_bytes(rest) is Ok,
{
    match c {
        Character::Ascii(b) => {
            lemma_decode_after_ascii(*b, rest);
        },
        Character::Escaped(e) => {
            let tail = seq![e.symbol()] + rest;
            assert(c.source() + rest =~= seq![0x5Cu8] + tail);
            lemma_decode_after_ascii(0x5C, tail);
            lemma_decode_after_ascii(e.symbol(), rest);
        },
        Character::Unicode(span) => {
            let bytes = span@;
            let all = bytes + rest;
            assert(all[0] == bytes[0]);
            assert(decode_first(all) is Ok);
            let (v, n) = decode_first(all).unwrap();
            assert(forall|i: int| 0 <= i < bytes.len() ==> all[i] == bytes[i]);
            assert(2 <= n <= 4 && n <= all.len());
            assert(forall|i: int| 1 <= i < n ==> is_trail(#[trigger] all[i]));
            if n > bytes.len() {
                assert(all[bytes.len() as int] == rest[0]);
                assert(is_trail(all[bytes.len() as int]));
                assert(false);
            }
            if n < bytes.len() {
                let tail = all.skip(n as int);
                assert(decode_bytes(tail) is Ok);
                assert(tail[0] == bytes[n as int]);
                assert(is_trail(bytes[n as int]));
                assert(decode_first(tail) is Err);
                assert(false);
            }
            assert(n == bytes.len());
            assert(decode_first(bytes) == Ok::<(u32, nat), Utf8DecodeError>((v, n)));
            assert(bytes.skip(n as int) =~= Seq::<u8>::empty());
            assert(decode_bytes(bytes.skip(n as int)) is Ok);
            assert(all.skip(n as int) =~= rest);
        },
    }
}

/// What an atom is written with is not empty and does not start with a
/// continuation byte.
proof fn lemma_atom_starts(atom: &Atom)
    requires
        atom.wf(),
    ensures
        atom.source().len() > 0,
        !is_trail(atom.source()[0]),
{
    match atom {
        Atom::CharacterAtom(c) => {},
        Atom::Capture { alt } => {},
    }
}

/// Where the bytes of an atom and what follows decode, the literals of the
/// atom decode, and what follows does.
proof fn lemma_atom_bytes(atom: &Atom, rest: Seq<u8>)
    requires
        atom.wf(),
        decode_bytes(atom.source() + rest) is Ok,
        no_trail_first(rest),
    ensures
        atom_decodes(atom),
        decode_bytes(rest) is Ok,
    decreases atom, 0nat,
{
    match atom {
        Atom::CharacterAtom(c) => {
            lemma_character_bytes(c, rest);
        },
        Atom::Capture { alt } => {
            let close = seq![0x29u8] + rest;
            let inner = alt.source() + close;
            assert(atom.source() + rest =~= seq![0x28u8] + inner);
            lemma_decode_after_ascii(0x28, inner);
            lemma_alts_bytes(alt, alt.alts@.len(), close);
            lemma_decode_after_ascii(0x29, rest);
        },
    }
}

/// Where the bytes of the first `k` parts and what follows decode, the
/// literals of those parts decode, and what follows does.
proof fn lemma_parts_bytes(concat: &ConcatExpr, k: nat, rest: Seq<u8>)
    requires
        concat.wf(),
        k <= concat.parts@.len(),
        decode_bytes(concat.source_upto(k) + rest) is Ok,
        no_trail_first(rest),
    ensures
        forall|i: int| 0 <= i < k ==> atom_decodes(&(#[trigger] concat.parts@[i]).atom),
        decode_bytes(rest) is Ok,
    decreases concat, k,
{
    if k == 0 {
        assert(concat.source_upto(0) + rest =~= rest);
    } else {
        let part = &concat.parts@[k - 1];
        assert(part.wf());
        lemma_atom_starts(&part.atom);
        let after = if part.star {
            seq![0x2Au8] + rest
        } else {
            rest
        };
        let tail = part.atom.source() + after;
        assert(part.source() + rest =~= tail);
        assert(concat.source_upto(k) + rest =~= concat.source_upto((k - 1) as nat) + tail);
        assert(tail[0] == part.atom.source()[0]);
        lemma_parts_bytes(concat, (k - 1) as nat, tail);
        lemma_atom_bytes(&part.atom, after);
        if part.star {
            lemma_decode_after_ascii(0x2A, rest);
        }
    }
}

/// Where the bytes of the first `k` alternatives and what follows decode,
/// the literals of those alternatives decode, and what follows does.
proof fn lemma_alts_bytes(alt: &AltExpr, k: nat, rest: Seq<u8>)
    requires
        alt.wf(),
        k <= alt.alts@.len(),
        decode_bytes(alt.source_upto(k) + rest) is Ok,
        no_trail_first(rest),
    ensures
        forall|j: int| 0 <= j < k ==> concat_decodes(#[trigger] &alt.alts@[j]),
        decode_bytes(rest) is Ok,
    decreases alt, k,
{
    if k == 0 {
        assert(alt.source_upto(0) + rest =~= rest);
    } else {
        let concat = &alt.alts@[k - 1];
        assert(concat.wf());
        let last = concat.source() + rest;
        if k == 1 {
            assert(alt.source_upto(1) + rest =~= last);
        } else {
            let tail = seq![0x7Cu8] + last;
            assert(alt.source_upto(k) + rest =~= alt.source_upto((k - 1) as nat) + tail);
            lemma_alts_bytes(alt, (k - 1) as nat, tail);
            lemma_decode_after_ascii(0x7C, last);
        }
        lemma_parts_bytes(concat, concat.parts@.len(), rest);
    }
}

/// The literals of a pattern that is written in bytes that decode do
/// decode: the automaton of the pattern is laid without error.
pub proof fn lemma_pattern_decodes(ast: &RegexAst)
    requires
        ast.root.wf(),
        decode_bytes(ast.root.source()) is Ok,
    ensures
        automaton(ast) is Ok,
{
    let none = Seq::<u8>::empty();
    assert(ast.root.source() + none =~= ast.root.source());
    lemma_alts_bytes(&ast.root, ast.root.alts@.len(), none);
    lemma_lay_alts_decodes(initial_graph(), 0, 1, &ast.root, ast.root.alts@.len());
}

} // verus!
