use leben_regex::regex::parse::{Expected, ParseFailure, RegexAst};
use leben_regex::regex::{Regex, RegexError, RegexParseError};
use leben_regex::utf8::{decode_utf8, UnicodeCodepoint, UnicodeError, Utf8DecodeError};

fn accepts(r: &str, s: &str) -> bool {
    Regex::new(r.as_bytes())
        .unwrap()
        .test(&decode_utf8(s.as_bytes()).unwrap())
}

fn first_match(r: &str, s: &str) -> Option<(usize, usize)> {
    Regex::new(r.as_bytes())
        .unwrap()
        .find(&decode_utf8(s.as_bytes()).unwrap())
}

fn failure(r: &[u8]) -> RegexError {
    match Regex::new(r) {
        Ok(_) => panic!("the pattern compiles"),
        Err(e) => e,
    }
}

fn syntax(position: usize, expected: Expected) -> RegexError {
    RegexError::ParseError(RegexParseError::ParseError(ParseFailure {
        source_position: position,
        expected,
    }))
}

#[test]
fn test() {
    let r = "a(a(b|cd)*|ab)*c".as_bytes();
    RegexAst::parse(r).unwrap();
    assert!(Regex::new(r).is_ok());
}

#[test]
fn regex_test() {
    assert!(accepts("", ""));
    assert!(!accepts("", "a"));

    assert!(!accepts("a", "ab"));
    assert!(!accepts("ab", "a"));

    assert!(accepts("a(a(b|cd)*|ab)*c", "ac"));
    assert!(accepts("a(a(b|cd)*|ab)*c", "aac"));
    assert!(accepts("a(a(b|cd)*|ab)*c", "aabbbbabc"));
    assert!(accepts("a(a(b|cd)*|ab)*c", "aabbabacdcdabc"));

    assert!(!accepts("a(a(b|cd)*|ab)*c", ""));
    assert!(!accepts("a(a(b|cd)*|ab)*c", "a"));
    assert!(!accepts("a(a(b|cd)*|ab)*c", "c"));
}

#[test]
fn regex_find() {
    assert_eq!(first_match("", ""), Some((0, 0)));
    assert_eq!(first_match("", "a"), Some((0, 0)));

    assert_eq!(first_match("a", "ab"), Some((0, 1)));
    assert_eq!(first_match("ab", "a"), None);

    assert_eq!(first_match("a(a(b|cd)*|ab)*c", "ac"), Some((0, 2)));
    assert_eq!(first_match("a(a(b|cd)*|ab)*c", "aac"), Some((0, 3)));
    assert_eq!(first_match("a(a(b|cd)*|ab)*c", "aabbbbabc"), Some((0, 9)));
    assert_eq!(first_match("a(a(b|cd)*|ab)*c", "aabbabacdcdabc"), Some((0, 8)));

    assert_eq!(first_match("a(a(b|cd)*|ab)*c", ""), None);
    assert_eq!(first_match("a(a(b|cd)*|ab)*c", "a"), None);
    assert_eq!(first_match("a(a(b|cd)*|ab)*c", "c"), None);

    assert_eq!(first_match("(a|bc)*(c|db)", "abcbcdcadb"), Some((2, 1)));
    assert_eq!(first_match("(a|bc)*db", "abcbcdcadb"), Some((7, 3)));
}

#[test]
fn empty_pattern_is_found_at_once() {
    for s in ["", "a", "zzz", "\u{1f525}"] {
        assert_eq!(first_match("", s), Some((0, 0)));
        assert_eq!(first_match("a*", s), Some((0, 0)));
        assert_eq!(first_match("(a|)", s), Some((0, 0)));
        assert_eq!(first_match("(ab)*", s), Some((0, 0)));
    }
}

#[test]
fn no_partial_match_leaks() {
    assert!(accepts("a", "a"));
    assert!(!accepts("a", "ab"));
    assert!(accepts("ab*", "abbb"));
    assert!(!accepts("ab*", "abbba"));
    assert!(accepts("(a|bc)*", "abcbca"));
    assert!(!accepts("(a|bc)*", "abcbcab"));
}

#[test]
fn symbol_without_matrix_fails_the_test() {
    assert!(!accepts("ab", "ax"));
    assert!(!accepts("ab", "xab"));
    assert!(!accepts("a*", "b"));
}

#[test]
fn symbol_without_matrix_restarts_the_search() {
    assert_eq!(first_match("ab", "axab"), Some((2, 2)));
    assert_eq!(first_match("ab", "xxxxab"), Some((4, 2)));
    assert_eq!(first_match("ab", "axb"), None);
}

#[test]
fn found_part_is_accepted() {
    let regex = Regex::new("(a|bc)*db".as_bytes()).unwrap();
    let s = decode_utf8("abcbcdcadb".as_bytes()).unwrap();
    let (start, len) = regex.find(&s).unwrap();
    assert!(regex.test(&s[start..start + len]));
    for shorter in 0..len {
        assert!(!regex.test(&s[start..start + shorter]));
    }
    for u in 0..start {
        for e in u..=s.len() {
            assert!(!regex.test(&s[u..e]));
        }
    }
}

#[test]
fn first_end_comes_before_least_start() {
    // "abc" from index 0 is accepted too, but "b" ends first
    assert_eq!(first_match("abc|b", "abc"), Some((1, 1)));
    assert!(accepts("abc|b", "abc"));
}

#[test]
fn start_is_forgotten_at_the_initial_state() {
    // the loop of the star is on the initial state
    assert_eq!(first_match("a*b", "aab"), Some((2, 1)));
    assert!(accepts("a*b", "aab"));
    assert_eq!(first_match("xa*b", "xaab"), Some((0, 4)));
}

#[test]
fn shared_loops_accept_more_than_is_matched() {
    // both loops are on one node
    assert!(accepts("a*b*", "ba"));
    // the loop is on the node that the other alternative starts from
    assert!(accepts("a*|b", "ab"));
    assert!(accepts("(a|b*)c", "bac"));
    assert!(accepts("a(b|c*)d", "acbd"));
    assert!(accepts("(a*b)*", "a"));
}

#[test]
fn star_loops_on_the_node_it_starts_from() {
    assert!(accepts("a*b*", "aabb"));
    assert!(accepts("a*b*", ""));
    assert!(accepts("ab*c", "abbbc"));
    assert!(accepts("ab*c", "ac"));
    assert!(!accepts("ab*c", "abcb"));
    assert!(accepts("(ab)*c", "ababc"));
    assert!(!accepts("(ab)*c", "abac"));
}

#[test]
fn literals_of_every_form() {
    assert!(accepts("\\(\\)\\*\\\\\\|", "()*\\|"));
    assert!(accepts("\u{e9}\u{20ac}*\u{1f525}", "\u{e9}\u{20ac}\u{20ac}\u{1f525}"));
    assert!(!accepts("\u{e9}", "e"));
    assert!(accepts(" ~'+[]{}", " ~'+[]{}"));
    assert_eq!(first_match("\u{20ac}", "a\u{e9}\u{20ac}"), Some((2, 1)));
}

#[test]
fn syntax_errors() {
    assert_eq!(failure(b"("), syntax(1, Expected::RightParen));
    assert_eq!(failure(b"(a"), syntax(2, Expected::RightParen));
    assert_eq!(failure(b"a(b|c"), syntax(5, Expected::RightParen));
    assert_eq!(failure(b")"), syntax(0, Expected::EndOfInput));
    assert_eq!(failure(b"ab)c"), syntax(2, Expected::EndOfInput));
    assert_eq!(failure(b"*"), syntax(0, Expected::EndOfInput));
    assert_eq!(failure(b"a**"), syntax(2, Expected::EndOfInput));
    assert_eq!(failure(b"a|*"), syntax(2, Expected::EndOfInput));
    assert_eq!(failure(b"(a|*)"), syntax(3, Expected::RightParen));
    assert_eq!(failure(b"(*)"), syntax(1, Expected::RightParen));
    assert_eq!(failure(b"a\\"), syntax(1, Expected::EndOfInput));
    assert_eq!(failure(b"a\\b"), syntax(1, Expected::EndOfInput));
    assert_eq!(failure(b"a\x07"), syntax(1, Expected::EndOfInput));
    assert_eq!(failure(b"a\x7f"), syntax(1, Expected::EndOfInput));
    assert_eq!(failure(b"(a\x80)"), syntax(2, Expected::RightParen));
    assert_eq!(failure(b"\xc3"), syntax(0, Expected::EndOfInput));
    assert_eq!(failure(b"\xc3("), syntax(0, Expected::EndOfInput));
    assert_eq!(failure(b"\xf8\x80"), syntax(0, Expected::EndOfInput));
}

#[test]
fn literal_decode_errors() {
    assert_eq!(
        failure(b"a\xc0\x80"),
        RegexError::Utf8DecodeError(Utf8DecodeError::OverlongEncoding(0))
    );
    assert_eq!(
        failure(b"\xed\xa0\x80"),
        RegexError::Utf8DecodeError(Utf8DecodeError::UnicodeError(
            UnicodeError::SurrogateCodepoint(0xd800)
        ))
    );
    assert_eq!(
        failure(b"\xf4\x90\x80\x80"),
        RegexError::Utf8DecodeError(Utf8DecodeError::UnicodeError(
            UnicodeError::OutsideOfRange(0x11_0000)
        ))
    );
    assert_eq!(
        failure(b"(x|\xe2\x82)"),
        RegexError::Utf8DecodeError(Utf8DecodeError::UnexpectedEndOfStream)
    );
    assert_eq!(
        failure(b"\xc3\xa9\xa9"),
        RegexError::Utf8DecodeError(Utf8DecodeError::UnexpectedEndOfStream)
    );
    // the first literal that does not decode decides
    assert_eq!(
        failure(b"\xc0\x80\xed\xa0\x80"),
        RegexError::Utf8DecodeError(Utf8DecodeError::OverlongEncoding(0))
    );
    // the whole pattern is read before a literal is decoded
    assert_eq!(failure(b"\xc0\x80)"), syntax(2, Expected::EndOfInput));
}

#[test]
fn compiles_from_str() {
    let regex = Regex::new_from_str("(a|bc)*(c|db)").unwrap();
    let s = decode_utf8("abcbcdcadb".as_bytes()).unwrap();
    assert_eq!(regex.find(&s), Some((2, 1)));
    assert_eq!(
        Regex::new_from_str("(a").err(),
        Some(RegexParseError::ParseError(ParseFailure {
            source_position: 2,
            expected: Expected::RightParen,
        }))
    );
}

#[test]
fn compiles_from_str_with_multi_byte_literals() {
    let regex = Regex::new_from_str("\u{e9}(\u{20ac}|\u{1f525})*").unwrap();
    let s = decode_utf8("x\u{e9}\u{1f525}\u{20ac}".as_bytes()).unwrap();
    assert_eq!(regex.find(&s), Some((1, 1)));
    assert!(regex.test(&s[1..]));
    assert!(!regex.test(&s));
}

#[test]
fn compiles_from_tree() {
    let ast = RegexAst::parse("a(b|c)*".as_bytes()).unwrap();
    let regex = Regex::from_ast(&ast).unwrap();
    let s: Vec<UnicodeCodepoint> = "abcb".chars().map(UnicodeCodepoint::from).collect();
    assert!(regex.test(&s));
    assert_eq!(regex.find(&s), Some((0, 1)));
}

#[test]
fn compiled_pattern_is_reused() {
    let regex = Regex::new("ab".as_bytes()).unwrap();
    let s = decode_utf8("xabab".as_bytes()).unwrap();
    for _ in 0..3 {
        assert_eq!(regex.find(&s), Some((1, 2)));
        assert!(!regex.test(&s));
        assert!(regex.test(&s[1..3]));
    }
}
