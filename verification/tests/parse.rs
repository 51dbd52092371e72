use leben_regex::regex::parse::{
    Atom, Character, EscapedCharacter, Expected, ParseFailure, RegexAst,
};
use leben_regex::utf8::Utf8DecodeError;

#[test]
fn empty_pattern_has_one_empty_alternative() {
    let ast = RegexAst::parse(b"").unwrap();
    assert_eq!(ast.root.alts.len(), 1);
    assert_eq!(ast.root.alts[0].parts.len(), 0);
}

#[test]
fn alternatives_and_parts() {
    let ast = RegexAst::parse(b"ab*|(c|)*|").unwrap();
    assert_eq!(ast.root.alts.len(), 3);
    let first = &ast.root.alts[0];
    assert_eq!(first.parts.len(), 2);
    assert!(matches!(first.parts[0].atom, Atom::CharacterAtom(Character::Ascii(b'a'))));
    assert!(!first.parts[0].star);
    assert!(matches!(first.parts[1].atom, Atom::CharacterAtom(Character::Ascii(b'b'))));
    assert!(first.parts[1].star);
    let second = &ast.root.alts[1];
    assert_eq!(second.parts.len(), 1);
    assert!(second.parts[0].star);
    match &second.parts[0].atom {
        Atom::Capture { alt } => {
            assert_eq!(alt.alts.len(), 2);
            assert_eq!(alt.alts[0].parts.len(), 1);
            assert_eq!(alt.alts[1].parts.len(), 0);
        }
        Atom::CharacterAtom(_) => panic!("a group was written"),
    }
    assert_eq!(ast.root.alts[2].parts.len(), 0);
}

#[test]
fn literal_forms() {
    let ast = RegexAst::parse(b"\\(\\)\\*\\\\\\|\xe2\x82\xac~").unwrap();
    let parts = &ast.root.alts[0].parts;
    assert_eq!(parts.len(), 7);
    let escaped = [
        EscapedCharacter::LeftParen,
        EscapedCharacter::RightParen,
        EscapedCharacter::Asterisk,
        EscapedCharacter::Backslash,
        EscapedCharacter::VerticalBar,
    ];
    for (part, expected) in parts.iter().zip(escaped) {
        match &part.atom {
            Atom::CharacterAtom(Character::Escaped(e)) => assert_eq!(*e, expected),
            _ => panic!("an escaped character was written"),
        }
    }
    match &parts[5].atom {
        Atom::CharacterAtom(Character::Unicode(span)) => assert_eq!(span, &vec![0xe2, 0x82, 0xac]),
        _ => panic!("a multi-byte character was written"),
    }
    assert!(matches!(parts[6].atom, Atom::CharacterAtom(Character::Ascii(b'~'))));
}

#[test]
fn multi_byte_literal_takes_up_to_three_continuation_bytes() {
    let ast = RegexAst::parse(b"\xc3\xa9\xa9\xa9").unwrap();
    let parts = &ast.root.alts[0].parts;
    assert_eq!(parts.len(), 1);
    match &parts[0].atom {
        Atom::CharacterAtom(Character::Unicode(span)) => assert_eq!(span.len(), 4),
        _ => panic!("a multi-byte character was written"),
    }
    assert_eq!(
        RegexAst::parse(b"\xc3\xa9\xa9\xa9\xa9").err(),
        Some(ParseFailure { source_position: 4, expected: Expected::EndOfInput })
    );
}

#[test]
fn codepoints_of_literals() {
    assert_eq!(Character::Ascii(b'a').to_codepoint().unwrap().value(), 0x61);
    assert_eq!(Character::Unicode(vec![0xe2, 0x82, 0xac]).to_codepoint().unwrap().value(), 0x20ac);
    assert_eq!(
        Character::Unicode(vec![0xc0, 0x80]).to_codepoint(),
        Err(Utf8DecodeError::OverlongEncoding(0))
    );
    let escaped = [
        (EscapedCharacter::LeftParen, '('),
        (EscapedCharacter::RightParen, ')'),
        (EscapedCharacter::Asterisk, '*'),
        (EscapedCharacter::Backslash, '\\'),
        (EscapedCharacter::VerticalBar, '|'),
    ];
    for (e, c) in escaped {
        assert_eq!(Character::Escaped(e).to_codepoint().unwrap().to_char(), c);
    }
}

#[test]
fn failure_says_where_and_what() {
    assert_eq!(
        RegexAst::parse(b"((a)").err(),
        Some(ParseFailure { source_position: 4, expected: Expected::RightParen })
    );
    assert_eq!(
        RegexAst::parse(b"(a))").err(),
        Some(ParseFailure { source_position: 3, expected: Expected::EndOfInput })
    );
}

#[test]
fn stars_that_stand_safely() {
    for pattern in [
        "",
        "a",
        "a*",
        "a*b",
        "ab*c",
        "(a|bc)*(c|db)",
        "(a|bc)*db",
        "a(a(b|cd)*|ab)*c",
        "(a*)(b*)",
        "x(c(ab)*)*",
        "a(b|)*",
    ] {
        assert!(RegexAst::parse(pattern.as_bytes()).unwrap().has_safe_stars(), "{}", pattern);
    }
}

#[test]
fn stars_whose_loops_are_shared() {
    for pattern in ["a*b*", "a*|b", "(a*b)*", "x((ab)*c)*", "(a|b*)c", "a(b|c*)d", "|a*"] {
        assert!(!RegexAst::parse(pattern.as_bytes()).unwrap().has_safe_stars(), "{}", pattern);
    }
}
