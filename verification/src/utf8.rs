//! Unicode scalar values and their UTF-8 encoding.
use vstd::prelude::*;
use vstd::std_specs::convert::{FromSpecImpl, TryFromSpecImpl};

verus! {

/// Whether `v` is a Unicode scalar value: below `0x110000` and outside the
/// surrogate range `[0xD800, 0xE000)`.
pub open spec fn is_scalar_value(v: u32) -> bool {
    v < 0xD800 || (0xE000 <= v && v < 0x11_0000)
}

/// A validated Unicode scalar value.
#[derive(Copy, Clone, Debug, Ord, PartialOrd, Eq, PartialEq, Default, Hash)]
pub struct UnicodeCodepoint(u32);

/// Why an integer is not a Unicode scalar value.
#[derive(Copy, Clone, Debug, Eq, PartialEq, Structural)]
pub enum UnicodeError {
    SurrogateCodepoint(u32),
    OutsideOfRange(u32),
}

impl View for UnicodeCodepoint {
    type V = u32;

    closed spec fn view(&self) -> u32 {
        self.0
    }
}

/// What `UnicodeCodepoint::try_from` returns for `value`.
pub open spec fn classify_scalar(value: u32) -> Result<u32, UnicodeError> {
    if value < 0xD800 {
        Ok(value)
    } else if value < 0xE000 {
        Err(UnicodeError::SurrogateCodepoint(value))
    } else if value < 0x11_0000 {
        Ok(value)
    } else {
        Err(UnicodeError::OutsideOfRange(value))
    }
}

/// The codepoint with the scalar value `v`.
pub closed spec fn codepoint_of(v: u32) -> UnicodeCodepoint {
    UnicodeCodepoint(v)
}

/// `codepoint_of` is the inverse of the view.
pub proof fn lemma_codepoint_of(v: u32)
    ensures
        codepoint_of(v)@ == v,
{
}

/// A codepoint is its scalar value.
pub proof fn lemma_scalar_determines(a: UnicodeCodepoint, b: UnicodeCodepoint)
    requires
        a@ == b@,
    ensures
        a == b,
{
}

impl UnicodeCodepoint {
    #[verifier::type_invariant]
    spec fn valid(self) -> bool {
        is_scalar_value(self.0)
    }

    /// Validates a raw integer.
    pub fn try_from(value: u32) -> (r: Result<UnicodeCodepoint, UnicodeError>)
        ensures
            match r {
                Ok(c) => classify_scalar(value) == Ok::<u32, UnicodeError>(c@),
                Err(e) => classify_scalar(value) == Err::<u32, UnicodeError>(e),
            },
    {
        if value < 0x00_d800 {
            Ok(UnicodeCodepoint(value))
        } else if value < 0x00_e000 {
            Err(UnicodeError::SurrogateCodepoint(value))
        } else if value < 0x11_0000 {
            Ok(UnicodeCodepoint(value))
        } else {
            Err(UnicodeError::OutsideOfRange(value))
        }
    }

    /// The codepoint of a character.
    pub fn from_char(value: char) -> (c: UnicodeCodepoint)
        ensures
            c@ == value as u32,
    {
        UnicodeCodepoint(value as u32)
    }

    /// The character of the codepoint.
    pub fn to_char(self) -> (c: char)
        ensures
            c == self@ as char,
            c as u32 == self@,
    {
        proof {
            use_type_invariant(self);
        }
        match char_from_u32(self.0) {
            Some(c) => c,
            None => '\0',
        }
    }

    /// The scalar value as an integer.
    pub fn value(self) -> (v: u32)
        ensures
            v == self@,
            is_scalar_value(v),
    {
        proof {
            use_type_invariant(self);
        }
        self.0
    }
}

impl From<char> for UnicodeCodepoint {
    fn from(value: char) -> (c: UnicodeCodepoint) {
        UnicodeCodepoint::from_char(value)
    }
}

impl FromSpecImpl<char> for UnicodeCodepoint {
    open spec fn obeys_from_spec() -> bool {
        true
    }

    open spec fn from_spec(v: char) -> UnicodeCodepoint {
        codepoint_of(v as u32)
    }
}

impl From<UnicodeCodepoint> for char {
    fn from(value: UnicodeCodepoint) -> (c: char) {
        value.to_char()
    }
}

impl FromSpecImpl<UnicodeCodepoint> for char {
    open spec fn obeys_from_spec() -> bool {
        true
    }

    open spec fn from_spec(v: UnicodeCodepoint) -> char {
        v@ as char
    }
}

impl From<UnicodeCodepoint> for u32 {
    fn from(value: UnicodeCodepoint) -> (v: u32) {
        value.value()
    }
}

impl FromSpecImpl<UnicodeCodepoint> for u32 {
    open spec fn obeys_from_spec() -> bool {
        true
    }

    open spec fn from_spec(v: UnicodeCodepoint) -> u32 {
        v@
    }
}

impl TryFrom<u32> for UnicodeCodepoint {
    type Error = UnicodeError;

    fn try_from(value: u32) -> (r: Result<UnicodeCodepoint, UnicodeError>) {
        UnicodeCodepoint::try_from(value)
    }
}

impl TryFromSpecImpl<u32> for UnicodeCodepoint {
    open spec fn obeys_try_from_spec() -> bool {
        true
    }

    open spec fn try_from_spec(v: u32) -> Result<UnicodeCodepoint, UnicodeError> {
        match classify_scalar(v) {
            Ok(x) => Ok(codepoint_of(x)),
            Err(e) => Err(e),
        }
    }
}

/// Why a byte sequence is not the UTF-8 encoding of scalar values.
#[derive(Copy, Clone, Debug, Eq, PartialEq, Structural)]
pub enum Utf8DecodeError {
    UnexpectedEndOfStream,
    OverlongEncoding(u32),
    UnicodeError(UnicodeError),
    InvalidByte1(u8),
    InvalidByte2(u8, u8),
    InvalidByte3(u8, u8, u8),
    InvalidByte4(u8, u8, u8, u8),
}

/// The scalar values of a sequence of codepoints.
pub open spec fn scalars(s: Seq<UnicodeCodepoint>) -> Seq<u32> {
    s.map_values(|c: UnicodeCodepoint| c@)
}

/// Whether every element of `s` is a Unicode scalar value.
pub open spec fn all_scalar_values(s: Seq<u32>) -> bool {
    forall|i: int| 0 <= i < s.len() ==> is_scalar_value(#[trigger] s[i])
}

/// The UTF-8 encoding of one scalar value: one to four bytes, the payload
/// bits spread over a leading byte and continuation bytes of six bits each.
pub open spec fn encode_scalar(c: u32) -> Seq<u8> {
    if c < 0x80 {
        seq![c as u8]
    } else if c < 0x800 {
        seq![(0xC0 + c / 0x40) as u8, (0x80 + c % 0x40) as u8]
    } else if c < 0x1_0000 {
        seq![(0xE0 + c / 0x1000) as u8, (0x80 + c / 0x40 % 0x40) as u8, (0x80 + c % 0x40) as u8]
    } else {
        seq![
            (0xF0 + c / 0x4_0000) as u8,
            (0x80 + c / 0x1000 % 0x40) as u8,
            (0x80 + c / 0x40 % 0x40) as u8,
            (0x80 + c % 0x40) as u8,
        ]
    }
}

/// The UTF-8 encoding of a sequence of scalar values: the encodings of its
/// elements, one after the other.
pub open spec fn encode_scalars(s: Seq<u32>) -> Seq<u8>
    decreases s.len(),
{
    if s.len() == 0 {
        Seq::empty()
    } else {
        encode_scalars(s.drop_last()) + encode_scalar(s.last())
    }
}

/// Whether `b` has the form `10xxxxxx`.
pub open spec fn is_continuation(b: u8) -> bool {
    0x80 <= b && b <= 0xBF
}

/// Decodes the scalar value at the front of a non-empty byte sequence and
/// says how many bytes it takes.
///
/// The bytes after the first are looked at before the first is classified:
/// a second, third and fourth byte are demanded as continuation bytes for as
/// long as the first byte has not turned out to start a shorter sequence.
pub open spec fn decode_first(b: Seq<u8>) -> Result<(u32, nat), Utf8DecodeError>
    recommends
        b.len() > 0,
{
    let b0 = b[0];
    if b0 < 0x80 {
        Ok((b0 as u32, 1))
    } else if b.len() < 2 {
        Err(Utf8DecodeError::UnexpectedEndOfStream)
    } else if !is_continuation(b[1]) {
        Err(Utf8DecodeError::InvalidByte2(b0, b[1]))
    } else if 0xC0 <= b0 && b0 < 0xE0 {
        let c = ((b0 - 0xC0) * 0x40 + (b[1] - 0x80)) as u32;
        if c < 0x80 {
            Err(Utf8DecodeError::OverlongEncoding(c))
        } else {
            Ok((c, 2))
        }
    } else if b.len() < 3 {
        Err(Utf8DecodeError::UnexpectedEndOfStream)
    } else if !is_continuation(b[2]) {
        Err(Utf8DecodeError::InvalidByte3(b0, b[1], b[2]))
    } else if 0xE0 <= b0 && b0 < 0xF0 {
        let c = ((b0 - 0xE0) * 0x1000 + (b[1] - 0x80) * 0x40 + (b[2] - 0x80)) as u32;
        if c < 0x800 {
            Err(Utf8DecodeError::OverlongEncoding(c))
        } else if 0xD800 <= c && c < 0xE000 {
            Err(Utf8DecodeError::UnicodeError(UnicodeError::SurrogateCodepoint(c)))
        } else {
            Ok((c, 3))
        }
    } else if b.len() < 4 {
        Err(Utf8DecodeError::UnexpectedEndOfStream)
    } else if !is_continuation(b[3]) {
        Err(Utf8DecodeError::InvalidByte4(b0, b[1], b[2], b[3]))
    } else if 0xF0 <= b0 && b0 < 0xF8 {
        let c = ((b0 - 0xF0) * 0x4_0000 + (b[1] - 0x80) * 0x1000 + (b[2] - 0x80) * 0x40 + (b[3]
            - 0x80)) as u32;
        if c < 0x1_0000 {
            Err(Utf8DecodeError::OverlongEncoding(c))
        } else if c >= 0x11_0000 {
            Err(Utf8DecodeError::UnicodeError(UnicodeError::OutsideOfRange(c)))
        } else {
            Ok((c, 4))
        }
    } else {
        Err(Utf8DecodeError::InvalidByte1(b0))
    }
}

/// `prefix` followed by what `rest` decoded to, or the error of `rest`.
pub open spec fn prepend_decoded(prefix: Seq<u32>, rest: Result<Seq<u32>, Utf8DecodeError>) -> Result<
    Seq<u32>,
    Utf8DecodeError,
> {
    match rest {
        Ok(s) => Ok(prefix + s),
        Err(e) => Err(e),
    }
}

/// Decodes a whole byte sequence, front to back; the first error ends it.
pub open spec fn decode_bytes(b: Seq<u8>) -> Result<Seq<u32>, Utf8DecodeError>
    decreases b.len(),
{
    if b.len() == 0 {
        Ok(Seq::empty())
    } else {
        match decode_first(b) {
            Ok((c, n)) => prepend_decoded(seq![c], decode_bytes(b.skip(n as int))),
            Err(e) => Err(e),
        }
    }
}

proof fn lemma_byte_classes(b: u32)
    by (bit_vector)
    requires
        b < 0x100,
    ensures
        (b >> 7 == 0) <==> b < 0x80,
        (b >> 6 == 2) <==> (0x80 <= b && b < 0xC0),
        (b >> 5 == 6) <==> (0xC0 <= b && b < 0xE0),
        (b >> 4 == 14) <==> (0xE0 <= b && b < 0xF0),
        (b >> 3 == 30) <==> (0xF0 <= b && b < 0xF8),
{
}

proof fn lemma_join_two(b0: u32, b1: u32)
    by (bit_vector)
    requires
        0xC0 <= b0 && b0 < 0xE0,
        0x80 <= b1 && b1 < 0xC0,
    ensures
        ((b0 & 0x1F) << 6) | (b1 & 0x3F) == (b0 - 0xC0) * 0x40 + (b1 - 0x80),
{
}

proof fn lemma_join_three(b0: u32, b1: u32, b2: u32)
    by (bit_vector)
    requires
        0xE0 <= b0 && b0 < 0xF0,
        0x80 <= b1 && b1 < 0xC0,
        0x80 <= b2 && b2 < 0xC0,
    ensures
        ((b0 & 0x0F) << 12) | ((b1 & 0x3F) << 6) | (b2 & 0x3F) == (b0 - 0xE0) * 0x1000 + (b1
            - 0x80) * 0x40 + (b2 - 0x80),
{
}

proof fn lemma_join_four(b0: u32, b1: u32, b2: u32, b3: u32)
    by (bit_vector)
    requires
        0xF0 <= b0 && b0 < 0xF8,
        0x80 <= b1 && b1 < 0xC0,
        0x80 <= b2 && b2 < 0xC0,
        0x80 <= b3 && b3 < 0xC0,
    ensures
        ((b0 & 0x07) << 18) | ((b1 & 0x3F) << 12) | ((b2 & 0x3F) << 6) | (b3 & 0x3F) == (b0
            - 0xF0) * 0x4_0000 + (b1 - 0x80) * 0x1000 + (b2 - 0x80) * 0x40 + (b3 - 0x80),
{
}

proof fn lemma_split(c: u32)
    by (bit_vector)
    requires
        c < 0x20_0000,
    ensures
        c & 0x3F == c % 0x40,
        (c >> 6) & 0x3F == c / 0x40 % 0x40,
        (c >> 12) & 0x3F == c / 0x1000 % 0x40,
        c >> 6 == c / 0x40,
        c >> 12 == c / 0x1000,
        c >> 18 == c / 0x4_0000,
{
}

proof fn lemma_mark(x: u32)
    by (bit_vector)
    requires
        x < 0x40,
    ensures
        0x80u8 | (x as u8) == 0x80 + x,
        x < 0x20 ==> 0xC0u8 | (x as u8) == 0xC0 + x,
        x < 0x10 ==> 0xE0u8 | (x as u8) == 0xE0 + x,
        x < 0x08 ==> 0xF0u8 | (x as u8) == 0xF0 + x,
{
}

/// `char::from_u32`: the character with the scalar value `v`, and `None`
/// where `v` is not a scalar value.
#[verifier::external_body]
fn char_from_u32(v: u32) -> (r: Option<char>)
    ensures
        is_scalar_value(v) ==> r == Some(v as char),
        !is_scalar_value(v) ==> r is None,
{
    char::from_u32(v)
}

/// The low eight bits of `x`.
fn trunc_u8(x: u32) -> (r: u8)
    ensures
        r == x % 0x100,
{
    assert(x & 0xFF == x % 0x100) by (bit_vector);
    assert((x & 0xFF) < 0x100) by (bit_vector);
    (x & 0xFF) as u8
}

/// Encodes codepoints as UTF-8.
#[must_use]
#[verifier::rlimit(40)]
pub fn encode_utf8(unicode: &[UnicodeCodepoint]) -> (out: Vec<u8>)
    ensures
        out@ == encode_scalars(scalars(unicode@)),
{
    let mut out = Vec::<u8>::new();
    let n = unicode.len();
    let mut i: usize = 0;
    while i < n
        invariant
            n == unicode@.len(),
            i <= n,
            out@ == encode_scalars(scalars(unicode@.take(i as int))),
        decreases n - i,
    {
        let c = unicode[i].value();
        let ghost before = out@;
        proof {
            lemma_split(c);
            lemma_mark(c % 0x40);
            lemma_mark(c / 0x40 % 0x40);
            lemma_mark(c / 0x1000 % 0x40);
        }
        if c < 0x80 {
            out.push(trunc_u8(c));
        } else if c < 0x800 {
            proof {
                lemma_mark(c / 0x40);
            }
            out.push(0b1100_0000 | trunc_u8(c >> 6));
            out.push(0b1000_0000 | trunc_u8(c & 0b0011_1111));
        } else if c < 0x1_0000 {
            proof {
                lemma_mark(c / 0x1000);
            }
            out.push(0b1110_0000 | trunc_u8(c >> 12));
            out.push(0b1000_0000 | trunc_u8((c >> 6) & 0b0011_1111));
            out.push(0b1000_0000 | trunc_u8(c & 0b0011_1111));
        } else {
            proof {
                lemma_mark(c / 0x4_0000);
            }
            out.push(0b1111_0000 | trunc_u8(c >> 18));
            out.push(0b1000_0000 | trunc_u8((c >> 12) & 0b0011_1111));
            out.push(0b1000_0000 | trunc_u8((c >> 6) & 0b0011_1111));
            out.push(0b1000_0000 | trunc_u8(c & 0b0011_1111));
        }
        proof {
            let next = unicode@.take(i + 1);
            assert(out@ =~= before + encode_scalar(c));
            assert(scalars(next).drop_last() =~= scalars(unicode@.take(i as int)));
            assert(scalars(next).last() == c);
        }
        i += 1;
    }
    proof {
        assert(unicode@.take(n as int) =~= unicode@);
    }
    out
}

/// Decodes the codepoint that starts at index `i`, and says how many bytes
/// it took.
#[verifier::rlimit(40)]
fn decode_one(utf8: &[u8], i: usize) -> (r: Result<(UnicodeCodepoint, usize), Utf8DecodeError>)
    requires
        i < utf8@.len(),
    ensures
        match r {
            Ok((c, n)) => decode_first(utf8@.skip(i as int)) == Ok::<
                (u32, nat),
                Utf8DecodeError,
            >((c@, n as nat)) && i + n <= utf8@.len(),
            Err(e) => decode_first(utf8@.skip(i as int)) == Err::<(u32, nat), Utf8DecodeError>(e),
        },
{
    let len = utf8.len();
    let b0 = utf8[i] as u32;
    proof {
        lemma_byte_classes(b0);
    }
    if b0 >> 7 == 0 {
        return Ok((UnicodeCodepoint(b0), 1));
    }
    if len - i < 2 {
        return Err(Utf8DecodeError::UnexpectedEndOfStream);
    }
    let b1 = utf8[i + 1] as u32;
    proof {
        lemma_byte_classes(b1);
    }
    if b1 >> 6 != 0b10 {
        return Err(Utf8DecodeError::InvalidByte2(trunc_u8(b0), trunc_u8(b1)));
    }
    if b0 >> 5 == 0b110 {
        proof {
            lemma_join_two(b0, b1);
        }
        let c = ((b0 & 0b0001_1111) << 6) | (b1 & 0b0011_1111);
        if c < 0x00_0080 {
            return Err(Utf8DecodeError::OverlongEncoding(c));
        }
        return Ok((UnicodeCodepoint(c), 2));
    }
    if len - i < 3 {
        return Err(Utf8DecodeError::UnexpectedEndOfStream);
    }
    let b2 = utf8[i + 2] as u32;
    proof {
        lemma_byte_classes(b2);
    }
    if b2 >> 6 != 0b10 {
        return Err(Utf8DecodeError::InvalidByte3(trunc_u8(b0), trunc_u8(b1), trunc_u8(b2)));
    }
    if b0 >> 4 == 0b1110 {
        proof {
            lemma_join_three(b0, b1, b2);
        }
        let c = ((b0 & 0b0000_1111) << 12) | ((b1 & 0b0011_1111) << 6) | (b2 & 0b0011_1111);
        if c < 0x00_0800 {
            return Err(Utf8DecodeError::OverlongEncoding(c));
        }
        if 0x00_d800 <= c && c < 0x00_e000 {
            return Err(Utf8DecodeError::UnicodeError(UnicodeError::SurrogateCodepoint(c)));
        }
        return Ok((UnicodeCodepoint(c), 3));
    }
    if len - i < 4 {
        return Err(Utf8DecodeError::UnexpectedEndOfStream);
    }
    let b3 = utf8[i + 3] as u32;
    proof {
        lemma_byte_classes(b3);
    }
    if b3 >> 6 != 0b10 {
        return Err(
            Utf8DecodeError::InvalidByte4(
                trunc_u8(b0),
                trunc_u8(b1),
                trunc_u8(b2),
                trunc_u8(b3),
            ),
        );
    }
    if b0 >> 3 == 0b1_1110 {
        proof {
            lemma_join_four(b0, b1, b2, b3);
        }
        let c = ((b0 & 0b0000_0111) << 18) | ((b1 & 0b0011_1111) << 12) | ((b2 & 0b0011_1111)
            << 6) | (b3 & 0b0011_1111);
        if c < 0x01_0000 {
            return Err(Utf8DecodeError::OverlongEncoding(c));
        }
        if c >= 0x11_0000 {
            return Err(Utf8DecodeError::UnicodeError(UnicodeError::OutsideOfRange(c)));
        }
        return Ok((UnicodeCodepoint(c), 4));
    }
    // a first byte that starts nothing: 10xxxxxx or 11111xxx
    Err(Utf8DecodeError::InvalidByte1(trunc_u8(b0)))
}

/// Decodes UTF-8 into codepoints, or says what is wrong with the first
/// sequence that is not the encoding of a scalar value.
#[verifier::rlimit(40)]
pub fn decode_utf8(utf8: &[u8]) -> (r: Result<Vec<UnicodeCodepoint>, Utf8DecodeError>)
    ensures
        match r {
            Ok(v) => decode_bytes(utf8@) == Ok::<Seq<u32>, Utf8DecodeError>(scalars(v@))
                && encode_scalars(scalars(v@)) == utf8@,
            Err(e) => decode_bytes(utf8@) == Err::<Seq<u32>, Utf8DecodeError>(e),
        },
{
    let mut out = Vec::<UnicodeCodepoint>::new();
    let n = utf8.len();
    let mut i: usize = 0;
    proof {
        assert(utf8@.skip(0) =~= utf8@);
        if let Ok(s) = decode_bytes(utf8@) {
            assert(scalars(out@) + s =~= s);
        }
    }
    while i < n
        invariant
            n == utf8@.len(),
            i <= n,
            decode_bytes(utf8@) == prepend_decoded(
                scalars(out@),
                decode_bytes(utf8@.skip(i as int)),
            ),
        decreases n - i,
    {
        let ghost before = scalars(out@);
        match decode_one(utf8, i) {
            Ok((c, k)) => {
                out.push(c);
                proof {
                    let rest = decode_bytes(utf8@.skip(i as int).skip(k as int));
                    assert(utf8@.skip(i as int).skip(k as int) =~= utf8@.skip(i + k));
                    assert(scalars(out@) =~= before + seq![c@]);
                    if let Ok(s) = rest {
                        assert(before + (seq![c@] + s) =~= (before + seq![c@]) + s);
                    }
                }
                i += k;
            },
            Err(e) => {
                return Err(e);
            },
        }
    }
    proof {
        assert(scalars(out@) + Seq::<u32>::empty() =~= scalars(out@));
        lemma_decode_then_encode(utf8@);
    }
    Ok(out)
}

proof fn lemma_digits(x: u32, y: u32, z: u32, w: u32)
    by (bit_vector)
    requires
        x < 0x40,
        y < 0x40,
        z < 0x40,
        w < 0x40,
    ensures
        ({
            let c = x * 0x4_0000 + y * 0x1000 + z * 0x40 + w;
            &&& c / 0x4_0000 == x
            &&& c / 0x1000 % 0x40 == y
            &&& c / 0x40 % 0x40 == z
            &&& c % 0x40 == w
            &&& x == 0 ==> c / 0x1000 == y
            &&& x == 0 && y == 0 ==> c / 0x40 == z
        }),
{
}

/// What decodes to one scalar value is that value's encoding.
#[verifier::rlimit(40)]
proof fn lemma_decode_first_encodes(b: Seq<u8>)
    requires
        b.len() > 0,
        decode_first(b) is Ok,
    ensures
        ({
            let (c, n) = decode_first(b).unwrap();
            &&& 1 <= n <= b.len()
            &&& is_scalar_value(c)
            &&& encode_scalar(c) == b.take(n as int)
        }),
{
    let (c, n) = decode_first(b).unwrap();
    let b0 = b[0];
    if b0 < 0x80 {
        assert(encode_scalar(c) =~= b.take(1));
    } else if 0xC0 <= b0 && b0 < 0xE0 {
        lemma_digits(0, 0, (b0 - 0xC0) as u32, (b[1] - 0x80) as u32);
        assert(encode_scalar(c) =~= b.take(2));
    } else if 0xE0 <= b0 && b0 < 0xF0 {
        lemma_digits(0, (b0 - 0xE0) as u32, (b[1] - 0x80) as u32, (b[2] - 0x80) as u32);
        assert(encode_scalar(c) =~= b.take(3));
    } else {
        lemma_digits(
            (b0 - 0xF0) as u32,
            (b[1] - 0x80) as u32,
            (b[2] - 0x80) as u32,
            (b[3] - 0x80) as u32,
        );
        assert(encode_scalar(c) =~= b.take(4));
    }
}

/// The encoding of a scalar value, whatever follows it, decodes to it.
#[verifier::rlimit(40)]
proof fn lemma_encode_first_decodes(c: u32, rest: Seq<u8>)
    requires
        is_scalar_value(c),
    ensures
        decode_first(encode_scalar(c) + rest) == Ok::<(u32, nat), Utf8DecodeError>(
            (c, encode_scalar(c).len()),
        ),
        1 <= encode_scalar(c).len() <= 4,
{
}

/// Encoding distributes over putting one scalar value in front.
proof fn lemma_encode_front(c: u32, s: Seq<u32>)
    ensures
        encode_scalars(seq![c] + s) == encode_scalar(c) + encode_scalars(s),
    decreases s.len(),
{
    let t = seq![c] + s;
    if s.len() == 0 {
        assert(t.drop_last() =~= Seq::<u32>::empty());
        assert(t.last() == c);
        assert(encode_scalars(t.drop_last()) =~= Seq::<u8>::empty());
        assert(encode_scalars(t) =~= encode_scalar(c));
        assert(encode_scalar(c) + encode_scalars(s) =~= encode_scalar(c));
    } else {
        lemma_encode_front(c, s.drop_last());
        assert(t.drop_last() =~= seq![c] + s.drop_last());
        assert(t.last() == s.last());
        assert(encode_scalars(t) =~= encode_scalar(c) + encode_scalars(s));
    }
}

/// Round trip, bytes first: a byte sequence that decodes is the encoding of
/// what it decodes to, and what it decodes to are scalar values.
pub proof fn lemma_decode_then_encode(bytes: Seq<u8>)
    ensures
        decode_bytes(bytes) matches Ok(s) ==> encode_scalars(s) == bytes && all_scalar_values(s),
    decreases bytes.len(),
{
    if bytes.len() > 0 {
        if let Ok((c, n)) = decode_first(bytes) {
            lemma_decode_first_encodes(bytes);
            let tail = bytes.skip(n as int);
            lemma_decode_then_encode(tail);
            if let Ok(s) = decode_bytes(tail) {
                lemma_encode_front(c, s);
                assert(bytes.take(n as int) + tail =~= bytes);
            }
        }
    }
}

/// Round trip, scalar values first: the encoding of scalar values decodes
/// to them.
pub proof fn lemma_encode_then_decode(s: Seq<u32>)
    requires
        all_scalar_values(s),
    ensures
        decode_bytes(encode_scalars(s)) == Ok::<Seq<u32>, Utf8DecodeError>(s),
    decreases s.len(),
{
    if s.len() == 0 {
        assert(decode_bytes(encode_scalars(s)) matches Ok(t) && t =~= s);
    } else {
        let c = s[0];
        let tail = s.skip(1);
        assert(seq![c] + tail =~= s);
        lemma_encode_front(c, tail);
        lemma_encode_first_decodes(c, encode_scalars(tail));
        lemma_encode_then_decode(tail);
        let whole = encode_scalar(c) + encode_scalars(tail);
        assert(whole.skip(encode_scalar(c).len() as int) =~= encode_scalars(tail));
    }
}

proof fn lemma_same_two(b0: u8, b1: u8)
    by (bit_vector)
    requires
        0xC0 <= b0 && b0 <= 0xDF,
        0x80 <= b1 && b1 <= 0xBF,
    ensures
        (((b0 & 0x1F) as u32) << 6) | ((b1 & 0x3F) as u32) == (b0 as u32 - 0xC0) * 0x40 + (b1 as u32
            - 0x80),
{
}

proof fn lemma_same_three(b0: u8, b1: u8, b2: u8)
    by (bit_vector)
    requires
        0xE0 <= b0 && b0 <= 0xEF,
        0x80 <= b1 && b1 <= 0xBF,
        0x80 <= b2 && b2 <= 0xBF,
    ensures
        (((b0 & 0x0F) as u32) << 12) | (((b1 & 0x3F) as u32) << 6) | ((b2 & 0x3F) as u32) == (
        b0 as u32 - 0xE0) * 0x1000 + (b1 as u32 - 0x80) * 0x40 + (b2 as u32 - 0x80),
{
}

proof fn lemma_same_four(b0: u8, b1: u8, b2: u8, b3: u8)
    by (bit_vector)
    requires
        0xF0 <= b0 && b0 <= 0xF7,
        0x80 <= b1 && b1 <= 0xBF,
        0x80 <= b2 && b2 <= 0xBF,
        0x80 <= b3 && b3 <= 0xBF,
    ensures
        (((b0 & 0x07) as u32) << 18) | (((b1 & 0x3F) as u32) << 12) | (((b2 & 0x3F) as u32) << 6)
            | ((b3 & 0x3F) as u32) == (b0 as u32 - 0xF0) * 0x4_0000 + (b1 as u32 - 0x80) * 0x1000
            + (b2 as u32 - 0x80) * 0x40 + (b3 as u32 - 0x80),
{
}

/// Bytes that start with the well-formed encoding of a scalar value start
/// with what decodes to one, of the same length.
proof fn lemma_valid_first_decodes(b: Seq<u8>)
    requires
        b.len() > 0,
        vstd::utf8::valid_first_scalar(b),
    ensures
        decode_first(b) is Ok,
        decode_first(b).unwrap().1 == vstd::utf8::length_of_first_scalar(b),
{
    let b0 = b[0];
    if b0 < 0x80 {
    } else if 0xC0 <= b0 && b0 < 0xE0 {
        lemma_same_two(b0, b[1]);
    } else if 0xE0 <= b0 && b0 < 0xF0 {
        lemma_same_three(b0, b[1], b[2]);
    } else {
        lemma_same_four(b0, b[1], b[2], b[3]);
    }
}

/// Well-formed UTF-8 decodes.
pub proof fn lemma_valid_utf8_decodes(bytes: Seq<u8>)
    requires
        vstd::utf8::valid_utf8(bytes),
    ensures
        decode_bytes(bytes) is Ok,
    decreases bytes.len(),
{
    if bytes.len() > 0 {
        lemma_valid_first_decodes(bytes);
        let n = decode_first(bytes).unwrap().1;
        assert(vstd::utf8::pop_first_scalar(bytes) =~= bytes.skip(n as int));
        lemma_valid_utf8_decodes(bytes.skip(n as int));
    }
}

} // verus!
