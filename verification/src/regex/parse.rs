//! The syntax of patterns: the tree that a pattern is read into, and the
//! reader.
use crate::utf8::{
    codepoint_of, decode_bytes, decode_first, decode_utf8, lemma_codepoint_of,
    lemma_scalar_determines, scalars, UnicodeCodepoint, Utf8DecodeError,
};
use vstd::prelude::*;

verus! {

/// A whole pattern.
#[derive(Debug)]
pub struct RegexAst {
    pub root: AltExpr,
}

/// One or more alternatives, written with `|` between them.
#[derive(Debug)]
pub struct AltExpr {
    pub alts: Vec<ConcatExpr>,
}

/// Parts that follow one another; there may be none.
#[derive(Debug)]
pub struct ConcatExpr {
    pub parts: Vec<KleeneExpr>,
}

/// An atom, and whether a `*` follows it.
#[derive(Debug)]
pub struct KleeneExpr {
    pub atom: Atom,
    pub star: bool,
}

/// A literal character, or alternatives in parentheses.
#[derive(Debug)]
pub enum Atom {
    CharacterAtom(Character),
    Capture { alt: AltExpr },
}

/// A literal character as it is written in a pattern: a plain ASCII byte,
/// the bytes of a multi-byte sequence, or an escaped structural character.
#[derive(Debug)]
pub enum Character {
    Ascii(u8),
    Unicode(Vec<u8>),
    Escaped(EscapedCharacter),
}

/// The structural characters, which stand for themselves after a backslash.
#[derive(Copy, Clone, Debug, PartialEq, Eq, Structural)]
pub enum EscapedCharacter {
    LeftParen,
    RightParen,
    Asterisk,
    Backslash,
    VerticalBar,
}

/// Whether `b` stands for itself in a pattern: printable ASCII but for
/// `(`, `)`, `*`, `\` and `|`.
pub open spec fn is_plain(b: u8) -> bool {
    0x20 <= b && b <= 0x7E && b != 0x28 && b != 0x29 && b != 0x2A && b != 0x5C && b != 0x7C
}

/// Whether `b` may start a multi-byte literal.
pub open spec fn is_lead(b: u8) -> bool {
    0xC0 <= b && b <= 0xF7
}

/// Whether `b` may continue a multi-byte literal.
pub open spec fn is_trail(b: u8) -> bool {
    0x80 <= b && b <= 0xBF
}

impl EscapedCharacter {
    /// The character that is escaped, as a byte.
    pub open spec fn symbol(self) -> u8 {
        match self {
            EscapedCharacter::LeftParen => 0x28,
            EscapedCharacter::RightParen => 0x29,
            EscapedCharacter::Asterisk => 0x2A,
            EscapedCharacter::Backslash => 0x5C,
            EscapedCharacter::VerticalBar => 0x7C,
        }
    }
}

impl Character {
    /// The bytes that the literal is written with.
    pub open spec fn source(&self) -> Seq<u8> {
        match self {
            Character::Ascii(b) => seq![*b],
            Character::Unicode(span) => span@,
            Character::Escaped(e) => seq![0x5Cu8, e.symbol()],
        }
    }

    /// The scalar value that the literal stands for: the byte itself, the
    /// escaped character, or what the multi-byte sequence decodes to.
    pub open spec fn scalar(&self) -> Result<u32, Utf8DecodeError> {
        match self {
            Character::Ascii(b) => Ok(*b as u32),
            Character::Unicode(span) => match decode_bytes(span@) {
                Ok(v) => Ok(v[0]),
                Err(e) => Err(e),
            },
            Character::Escaped(e) => Ok(e.symbol() as u32),
        }
    }

    /// The codepoint that the literal stands for.
    pub open spec fn codepoint(&self) -> Result<UnicodeCodepoint, Utf8DecodeError> {
        match self.scalar() {
            Ok(v) => Ok(codepoint_of(v)),
            Err(e) => Err(e),
        }
    }

    /// Whether the bytes of a multi-byte literal, where they decode, decode
    /// to one codepoint.
    pub open spec fn decodes_to_one(&self) -> bool {
        match self {
            Character::Unicode(span) => match decode_bytes(span@) {
                Ok(v) => v.len() == 1,
                Err(_) => true,
            },
            _ => true,
        }
    }

    /// A multi-byte literal as the reader makes it decodes to one codepoint
    /// or not at all.
    #[verifier::rlimit(40)]
    pub proof fn lemma_wf_decodes_to_one(&self)
        requires
            self.wf(),
        ensures
            self.decodes_to_one(),
    {
        if let Character::Unicode(span) = self {
            let b = span@;
            if let Ok((c, n)) = decode_first(b) {
                let rest = b.skip(n as int);
                if rest.len() > 0 {
                    assert(is_trail(b[n as int]));
                    assert(rest[0] == b[n as int]);
                    if rest.len() >= 2 {
                        assert(is_trail(b[n as int + 1]));
                        assert(rest[1] == b[n as int + 1]);
                    }
                    assert(decode_first(rest) is Err);
                    assert(decode_bytes(rest) is Err);
                } else {
                    assert(decode_bytes(rest) matches Ok(v) && v.len() == 0);
                }
            }
        }
    }

    /// The codepoint that the literal stands for.
    pub fn to_codepoint(&self) -> (r: Result<UnicodeCodepoint, Utf8DecodeError>)
        requires
            self.decodes_to_one(),
        ensures
            r == self.codepoint(),
    {
        match self {
            Character::Ascii(b) => {
                let v = *b as u32;
                match UnicodeCodepoint::try_from(v) {
                    Ok(c) => {
                        proof {
                            lemma_codepoint_of(v);
                            lemma_scalar_determines(c, codepoint_of(v));
                        }
                        Ok(c)
                    },
                    Err(e) => Err(Utf8DecodeError::UnicodeError(e)),
                }
            },
            Character::Unicode(span) => {
                match decode_utf8(span.as_slice()) {
                    Ok(v) => {
                        let c = v[0];
                        proof {
                            assert(scalars(v@)[0] == c@);
                            lemma_codepoint_of(c@);
                            lemma_scalar_determines(c, codepoint_of(c@));
                        }
                        Ok(c)
                    },
                    Err(e) => Err(e),
                }
            },
            Character::Escaped(e) => {
                let c = match e {
                    EscapedCharacter::LeftParen => UnicodeCodepoint::from_char('('),
                    EscapedCharacter::RightParen => UnicodeCodepoint::from_char(')'),
                    EscapedCharacter::Asterisk => UnicodeCodepoint::from_char('*'),
                    EscapedCharacter::Backslash => UnicodeCodepoint::from_char('\\'),
                    EscapedCharacter::VerticalBar => UnicodeCodepoint::from_char('|'),
                };
                proof {
                    lemma_codepoint_of(c@);
                    lemma_scalar_determines(c, codepoint_of(c@));
                }
                Ok(c)
            },
        }
    }

    /// Whether the literal is one that the reader makes: a plain byte, or a
    /// leading byte with one to three continuation bytes.
    pub open spec fn wf(&self) -> bool {
        match self {
            Character::Ascii(b) => is_plain(*b),
            Character::Unicode(span) => {
                &&& 2 <= span@.len() <= 4
                &&& is_lead(span@[0])
                &&& forall|i: int| 1 <= i < span@.len() ==> is_trail(#[trigger] span@[i])
            },
            Character::Escaped(_) => true,
        }
    }
}

impl AltExpr {
    /// The bytes that the first `k` alternatives are written with, with `|`
    /// between them.
    pub open spec fn source_upto(&self, k: nat) -> Seq<u8>
        decreases self, k,
    {
        if k == 0 || k > self.alts@.len() {
            Seq::empty()
        } else if k == 1 {
            self.alts@[0].source()
        } else {
            self.source_upto((k - 1) as nat) + seq![0x7Cu8] + self.alts@[k - 1].source()
        }
    }

    /// The bytes that the alternatives are written with.
    pub open spec fn source(&self) -> Seq<u8>
        decreases self, self.alts@.len() + 1,
    {
        self.source_upto(self.alts@.len())
    }

    /// Whether the tree is one that the reader makes: at least one
    /// alternative, and literals as the reader makes them.
    pub open spec fn wf(&self) -> bool
        decreases self, 0nat,
    {
        &&& self.alts@.len() >= 1
        &&& forall|i: int| 0 <= i < self.alts@.len() ==> (#[trigger] self.alts@[i]).wf()
    }
}

impl ConcatExpr {
    /// The bytes that the first `k` parts are written with.
    pub open spec fn source_upto(&self, k: nat) -> Seq<u8>
        decreases self, k,
    {
        if k == 0 || k > self.parts@.len() {
            Seq::empty()
        } else {
            self.source_upto((k - 1) as nat) + self.parts@[k - 1].source()
        }
    }

    /// The bytes that the parts are written with.
    pub open spec fn source(&self) -> Seq<u8>
        decreases self, self.parts@.len() + 1,
    {
        self.source_upto(self.parts@.len())
    }

    pub open spec fn wf(&self) -> bool
        decreases self, 0nat,
    {
        forall|i: int| 0 <= i < self.parts@.len() ==> (#[trigger] self.parts@[i]).wf()
    }
}

impl KleeneExpr {
    /// The bytes that the part is written with.
    pub open spec fn source(&self) -> Seq<u8>
        decreases self, 0nat,
    {
        if self.star {
            self.atom.source() + seq![0x2Au8]
        } else {
            self.atom.source()
        }
    }

    pub open spec fn wf(&self) -> bool
        decreases self, 0nat,
    {
        self.atom.wf()
    }
}

impl Atom {
    /// The bytes that the atom is written with.
    pub open spec fn source(&self) -> Seq<u8>
        decreases self, 0nat,
    {
        match self {
            Atom::CharacterAtom(c) => c.source(),
            Atom::Capture { alt } => seq![0x28u8] + alt.source() + seq![0x29u8],
        }
    }

    pub open spec fn wf(&self) -> bool
        decreases self, 0nat,
    {
        match self {
            Atom::CharacterAtom(c) => c.wf(),
            Atom::Capture { alt } => alt.wf(),
        }
    }
}

/// What the reader would have needed where it stopped.
#[derive(Copy, Clone, Debug, PartialEq, Eq, Structural)]
pub enum Expected {
    EndOfInput,
    RightParen,
}

/// Where the reader stopped, as a byte offset into the pattern, and what it
/// would have needed there.
#[derive(Copy, Clone, Debug, PartialEq, Eq, Structural)]
pub struct ParseFailure {
    pub source_position: usize,
    pub expected: Expected,
}

pub const LEFT_PAREN: u8 = 0x28;

pub const RIGHT_PAREN: u8 = 0x29;

pub const ASTERISK: u8 = 0x2A;

pub const BACKSLASH: u8 = 0x5C;

pub const VERTICAL_BAR: u8 = 0x7C;

/// Whether `b` may follow a backslash.
pub open spec fn is_escapable(b: u8) -> bool {
    b == LEFT_PAREN || b == RIGHT_PAREN || b == ASTERISK || b == BACKSLASH || b == VERTICAL_BAR
}

/// The number of continuation bytes at `pos`, counted up to three.
pub open spec fn trail_count(s: Seq<u8>, pos: int) -> nat {
    if !(0 <= pos < s.len() && is_trail(s[pos])) {
        0
    } else if !(pos + 1 < s.len() && is_trail(s[pos + 1])) {
        1
    } else if !(pos + 2 < s.len() && is_trail(s[pos + 2])) {
        2
    } else {
        3
    }
}

/// The length of the literal character at `pos`, or 0 where none starts
/// there: a plain byte, a backslash with a structural character, or a
/// leading byte with as many continuation bytes as follow it, at least one
/// and at most three.
pub open spec fn literal_len(s: Seq<u8>, pos: int) -> nat {
    if !(0 <= pos < s.len()) {
        0
    } else if is_plain(s[pos]) {
        1
    } else if s[pos] == BACKSLASH {
        if pos + 1 < s.len() && is_escapable(s[pos + 1]) {
            2
        } else {
            0
        }
    } else if is_lead(s[pos]) && trail_count(s, pos + 1) > 0 {
        1 + trail_count(s, pos + 1)
    } else {
        0
    }
}

/// The failure of a reader that cannot go on at `pos` with `depth`
/// parentheses open.
pub open spec fn stuck(pos: int, depth: nat) -> Option<(int, Expected)> {
    Some(
        (
            pos,
            if depth == 0 {
                Expected::EndOfInput
            } else {
                Expected::RightParen
            },
        ),
    )
}

/// Reads `s` from `pos` on, with `depth` parentheses open, where `starrable`
/// says whether a `*` may stand at `pos`: after a literal or a `)`, which a
/// `*` does not follow yet. Gives the failure, or `None` where the rest of
/// the pattern is in order.
pub open spec fn scan(s: Seq<u8>, pos: int, depth: nat, starrable: bool) -> Option<(int, Expected)>
    decreases s.len() - pos,
{
    if pos < 0 {
        stuck(pos, depth)
    } else if pos >= s.len() {
        if depth == 0 {
            None
        } else {
            stuck(pos, depth)
        }
    } else if s[pos] == LEFT_PAREN {
        scan(s, pos + 1, depth + 1, false)
    } else if s[pos] == RIGHT_PAREN {
        if depth == 0 {
            stuck(pos, depth)
        } else {
            scan(s, pos + 1, (depth - 1) as nat, true)
        }
    } else if s[pos] == VERTICAL_BAR {
        scan(s, pos + 1, depth, false)
    } else if s[pos] == ASTERISK {
        if starrable {
            scan(s, pos + 1, depth, false)
        } else {
            stuck(pos, depth)
        }
    } else if literal_len(s, pos) > 0 {
        scan(s, pos + literal_len(s, pos), depth, true)
    } else {
        stuck(pos, depth)
    }
}

/// What is wrong with the pattern `s`, if anything is: a parenthesis that
/// has no partner, a `*` that follows no literal and no `)`, or a byte that
/// starts no literal.
pub open spec fn pattern_error(s: Seq<u8>) -> Option<(int, Expected)> {
    scan(s, 0, 0, false)
}

/// Whether no atom starts at `pos`, and no `*` that could follow one.
pub open spec fn halts(s: Seq<u8>, pos: int, starrable: bool) -> bool {
    pos >= s.len() || (s[pos] != LEFT_PAREN && literal_len(s, pos) == 0 && (s[pos] == ASTERISK
        ==> !starrable))
}

proof fn lemma_concat_prefix(c1: ConcatExpr, c2: ConcatExpr, k: nat)
    requires
        k <= c1.parts@.len(),
        k <= c2.parts@.len(),
        forall|i: int| 0 <= i < k ==> c1.parts@[i] == c2.parts@[i],
    ensures
        c1.source_upto(k) == c2.source_upto(k),
    decreases k,
{
    if k > 0 {
        lemma_concat_prefix(c1, c2, (k - 1) as nat);
    }
}

proof fn lemma_alt_prefix(a1: AltExpr, a2: AltExpr, k: nat)
    requires
        k <= a1.alts@.len(),
        k <= a2.alts@.len(),
        forall|i: int| 0 <= i < k ==> a1.alts@[i] == a2.alts@[i],
    ensures
        a1.source_upto(k) == a2.source_upto(k),
    decreases k,
{
    if k > 1 {
        lemma_alt_prefix(a1, a2, (k - 1) as nat);
    }
}

/// Reads the literal character at `pos`, if one starts there.
#[verifier::rlimit(40)]
fn parse_character(bytes: &[u8], pos: usize) -> (r: Option<(Character, usize)>)
    requires
        pos < bytes@.len(),
    ensures
        match r {
            Some((c, end)) => {
                &&& literal_len(bytes@, pos as int) > 0
                &&& end == pos + literal_len(bytes@, pos as int)
                &&& end <= bytes@.len()
                &&& c.wf()
                &&& c.source() == bytes@.subrange(pos as int, end as int)
            },
            None => literal_len(bytes@, pos as int) == 0,
        },
{
    let len = bytes.len();
    let b = bytes[pos];
    if 0x20 <= b && b <= 0x7E && b != LEFT_PAREN && b != RIGHT_PAREN && b != ASTERISK && b
        != BACKSLASH && b != VERTICAL_BAR {
        let c = Character::Ascii(b);
        assert(c.source() =~= bytes@.subrange(pos as int, pos + 1));
        return Some((c, pos + 1));
    }
    if b == BACKSLASH {
        if len - pos < 2 {
            return None;
        }
        let e = bytes[pos + 1];
        let escaped = if e == LEFT_PAREN {
            EscapedCharacter::LeftParen
        } else if e == RIGHT_PAREN {
            EscapedCharacter::RightParen
        } else if e == ASTERISK {
            EscapedCharacter::Asterisk
        } else if e == BACKSLASH {
            EscapedCharacter::Backslash
        } else if e == VERTICAL_BAR {
            EscapedCharacter::VerticalBar
        } else {
            return None;
        };
        let c = Character::Escaped(escaped);
        assert(c.source() =~= bytes@.subrange(pos as int, pos + 2));
        return Some((c, pos + 2));
    }
    if 0xC0 <= b && b <= 0xF7 {
        let mut span: Vec<u8> = Vec::new();
        span.push(b);
        let mut end = pos + 1;
        while end < len && end - pos < 4 && 0x80 <= bytes[end] && bytes[end] <= 0xBF
            invariant
                pos < end <= len,
                len == bytes@.len(),
                end - pos <= 4,
                span@ == bytes@.subrange(pos as int, end as int),
                forall|i: int| pos < i < end ==> is_trail(#[trigger] bytes@[i]),
            decreases len - end,
        {
            span.push(bytes[end]);
            end += 1;
            assert(span@ =~= bytes@.subrange(pos as int, end as int));
        }
        if end - pos < 2 {
            return None;
        }
        let c = Character::Unicode(span);
        assert(c.wf());
        return Some((c, end));
    }
    None
}

/// Reads the atom at `pos`, if one starts there.
#[verifier::rlimit(40)]
fn parse_atom(bytes: &[u8], pos: usize, Ghost(depth): Ghost<nat>, Ghost(starrable): Ghost<bool>) -> (r:
    Result<Option<(Atom, usize)>, ParseFailure>)
    requires
        pos <= bytes@.len(),
    ensures
        match r {
            Ok(Some((atom, end))) => {
                &&& pos < end <= bytes@.len()
                &&& atom.wf()
                &&& atom.source() == bytes@.subrange(pos as int, end as int)
                &&& scan(bytes@, pos as int, depth, starrable) == scan(
                    bytes@,
                    end as int,
                    depth,
                    true,
                )
            },
            Ok(None) => pos >= bytes@.len() || (bytes@[pos as int] != LEFT_PAREN && literal_len(
                bytes@,
                pos as int,
            ) == 0),
            Err(f) => scan(bytes@, pos as int, depth, starrable) == Some(
                (f.source_position as int, f.expected),
            ),
        },
    decreases bytes@.len() - pos, 0nat,
{
    if pos >= bytes.len() {
        return Ok(None);
    }
    if bytes[pos] == LEFT_PAREN {
        match parse_alt(bytes, pos + 1, Ghost(depth + 1)) {
            Err(f) => Err(f),
            Ok((alt, end, after)) => {
                if end < bytes.len() && bytes[end] == RIGHT_PAREN {
                    let atom = Atom::Capture { alt };
                    proof {
                        assert(atom.source() =~= bytes@.subrange(pos as int, end + 1));
                    }
                    Ok(Some((atom, end + 1)))
                } else {
                    Err(ParseFailure { source_position: end, expected: Expected::RightParen })
                }
            },
        }
    } else {
        match parse_character(bytes, pos) {
            None => Ok(None),
            Some((c, end)) => Ok(Some((Atom::CharacterAtom(c), end))),
        }
    }
}

/// Reads the parts that follow one another from `pos` on.
#[verifier::rlimit(40)]
fn parse_concat(bytes: &[u8], pos: usize, Ghost(depth): Ghost<nat>) -> (r: Result<
    (ConcatExpr, usize, Ghost<bool>),
    ParseFailure,
>)
    requires
        pos <= bytes@.len(),
    ensures
        match r {
            Ok((concat, end, starrable)) => {
                &&& pos <= end <= bytes@.len()
                &&& concat.wf()
                &&& concat.source() == bytes@.subrange(pos as int, end as int)
                &&& scan(bytes@, pos as int, depth, false) == scan(
                    bytes@,
                    end as int,
                    depth,
                    starrable@,
                )
                &&& halts(bytes@, end as int, starrable@)
            },
            Err(f) => scan(bytes@, pos as int, depth, false) == Some(
                (f.source_position as int, f.expected),
            ),
        },
    decreases bytes@.len() - pos, 1nat,
{
    let len = bytes.len();
    let mut parts: Vec<KleeneExpr> = Vec::new();
    let mut at = pos;
    let ghost mut starrable = false;
    proof {
        assert(bytes@.subrange(pos as int, pos as int) =~= Seq::<u8>::empty());
    }
    loop
        invariant
            pos <= at <= len,
            len == bytes@.len(),
            forall|i: int| 0 <= i < parts@.len() ==> (#[trigger] parts@[i]).wf(),
            (ConcatExpr { parts: parts }).source_upto(parts@.len()) == bytes@.subrange(
                pos as int,
                at as int,
            ),
            scan(bytes@, pos as int, depth, false) == scan(bytes@, at as int, depth, starrable),
            at < len && bytes@[at as int] == ASTERISK ==> !starrable,
        decreases len - at,
    {
        let ghost before = parts;
        match parse_atom(bytes, at, Ghost(depth), Ghost(starrable)) {
            Err(f) => {
                return Err(f);
            },
            Ok(None) => {
                let concat = ConcatExpr { parts };
                return Ok((concat, at, Ghost(starrable)));
            },
            Ok(Some((atom, end))) => {
                let star = end < len && bytes[end] == ASTERISK;
                let next = if star {
                    end + 1
                } else {
                    end
                };
                let part = KleeneExpr { atom, star };
                proof {
                    assert(part.source() =~= bytes@.subrange(at as int, next as int));
                }
                parts.push(part);
                proof {
                    let k = before@.len();
                    lemma_concat_prefix(ConcatExpr { parts: before }, ConcatExpr { parts: parts }, k);
                    assert((ConcatExpr { parts: parts }).source_upto(k + 1) =~= bytes@.subrange(
                        pos as int,
                        next as int,
                    ));
                    starrable = !star;
                }
                at = next;
            },
        }
    }
}

/// Reads the alternatives from `pos` on.
#[verifier::rlimit(40)]
fn parse_alt(bytes: &[u8], pos: usize, Ghost(depth): Ghost<nat>) -> (r: Result<
    (AltExpr, usize, Ghost<bool>),
    ParseFailure,
>)
    requires
        pos <= bytes@.len(),
    ensures
        match r {
            Ok((alt, end, starrable)) => {
                &&& pos <= end <= bytes@.len()
                &&& alt.wf()
                &&& alt.source() == bytes@.subrange(pos as int, end as int)
                &&& scan(bytes@, pos as int, depth, false) == scan(
                    bytes@,
                    end as int,
                    depth,
                    starrable@,
                )
                &&& halts(bytes@, end as int, starrable@)
                &&& end < bytes@.len() ==> bytes@[end as int] != VERTICAL_BAR
            },
            Err(f) => scan(bytes@, pos as int, depth, false) == Some(
                (f.source_position as int, f.expected),
            ),
        },
    decreases bytes@.len() - pos, 2nat,
{
    let len = bytes.len();
    let mut alts: Vec<ConcatExpr> = Vec::new();
    let (first, first_end, first_starrable) = match parse_concat(bytes, pos, Ghost(depth)) {
        Err(f) => {
            return Err(f);
        },
        Ok(r) => r,
    };
    let mut at = first_end;
    let ghost mut starrable = first_starrable@;
    alts.push(first);
    while at < len && bytes[at] == VERTICAL_BAR
        invariant
            pos <= at <= len,
            len == bytes@.len(),
            alts@.len() >= 1,
            forall|i: int| 0 <= i < alts@.len() ==> (#[trigger] alts@[i]).wf(),
            (AltExpr { alts: alts }).source_upto(alts@.len()) == bytes@.subrange(
                pos as int,
                at as int,
            ),
            scan(bytes@, pos as int, depth, false) == scan(bytes@, at as int, depth, starrable),
            halts(bytes@, at as int, starrable),
        decreases len - at,
    {
        let ghost before = alts;
        match parse_concat(bytes, at + 1, Ghost(depth)) {
            Err(f) => {
                return Err(f);
            },
            Ok((concat, end, after)) => {
                alts.push(concat);
                proof {
                    let k = before@.len();
                    lemma_alt_prefix(AltExpr { alts: before }, AltExpr { alts: alts }, k);
                    assert(bytes@.subrange(at as int, at + 1) =~= seq![VERTICAL_BAR]);
                    assert((AltExpr { alts: alts }).source_upto(k + 1) =~= bytes@.subrange(
                        pos as int,
                        end as int,
                    ));
                    starrable = after@;
                }
                at = end;
            },
        }
    }
    Ok((AltExpr { alts }, at, Ghost(starrable)))
}

impl RegexAst {
    /// Reads a pattern. The whole of `source` has to be one: the tree is
    /// written as `source` is, and a failure says where the reader stopped.
    pub fn parse(source: &[u8]) -> (r: Result<RegexAst, ParseFailure>)
        ensures
            match r {
                Ok(ast) => {
                    &&& pattern_error(source@) is None
                    &&& ast.root.wf()
                    &&& ast.root.source() == source@
                },
                Err(f) => pattern_error(source@) == Some((f.source_position as int, f.expected)),
            },
    {
        match parse_alt(source, 0, Ghost(0)) {
            Err(f) => Err(f),
            Ok((root, end, starrable)) => {
                if end == source.len() {
                    proof {
                        assert(source@.subrange(0, end as int) =~= source@);
                    }
                    Ok(RegexAst { root })
                } else {
                    Err(ParseFailure { source_position: end, expected: Expected::EndOfInput })
                }
            },
        }
    }
}

} // verus!
