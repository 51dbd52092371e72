use leben_regex::utf8::{
    decode_utf8, encode_utf8, UnicodeCodepoint, UnicodeError, Utf8DecodeError,
};

#[test]
fn to_unicode() {
    for i in (0x00_0000u32..0x00_d800).chain(0x00_e000..0x11_0000) {
        let c = UnicodeCodepoint::from(char::from_u32(i).unwrap());
        assert_eq!(i, u32::from(c));
        let c = UnicodeCodepoint::try_from(i).unwrap();
        assert_eq!(i, u32::from(c));
        _ = char::from_u32(i).unwrap();
    }
}

#[test]
fn to_unicode_invalid() {
    for i in 0x00_d800..0x00_e000 {
        assert_eq!(
            Err(UnicodeError::SurrogateCodepoint(i)),
            UnicodeCodepoint::try_from(i)
        );
        assert_eq!(None, char::from_u32(i));
    }
    for i in [0x11_0000, 0x12_0000, 0x1000_0000, 0xffff_ffff] {
        assert_eq!(
            Err(UnicodeError::OutsideOfRange(i)),
            UnicodeCodepoint::try_from(i)
        );
    }
}

#[test]
fn utf8_coding() {
    let strings = ["", "test", "\0\0\0", "🔥✅😄", "中文", "t̶̡̨͇̗͙͒͌͆̄̽̾̈́̇̈́͂́̅͘͝͠͠͝ę̸̢̛͔̱͕͍͚̗͔̰̗͎͚̣̐͂̋̃̉̈́͒̒̒́͆̉̽̕͘͝͝s̷̼̘͔͇̺͒̒̑͒̈͘͘t̵̡̧̡̧̡̹̹͖̣͚̯̩̤͕̩̝͓̦̾̂̑͊̿̿̇̕̕ ̶̛̞̼͖̬̟̠̿̇̂̓̿͛̆̏̀̑̑̀́͗̆́͂̚̚͘ś̵̲̤͉̙̻̲͜ͅt̸̡̨̯̫̯̭̦̻͎̰̝̹͉̻̖̭̞̺̠̰͍̏̎̒̈́͐͗͋͜r̸̨̛͎͔̰͇̐̂͊́̉̐͌̎̒͌́̒͛́̊̏̏̂̚͘͝į̸̢̨̖̟̲̰̣͓̫̪̯͍̤̘̱̼̘̜̙̻̔̈́͒́̀n̷̖͉̳͔͙̪̝̦͖͔̦̓͆̇̈́͂̑̒̇̈̈́́͊͆̈̃̄̀̉̈̆̿̐̆̕͘͝ͅg̵̨̧̛̻̝̝͈̼͍̻̝͓̖͇̟͛̂̈̿̅̋͆̈́͒̓́͆̈́͂̈́͐̏̔̐́̎͊̆̚̕͜͝ͅ"];
    for s in strings {
        let bytes = s.as_bytes();
        let unicode = decode_utf8(bytes).unwrap();
        let encoded = encode_utf8(&unicode);
        assert_eq!(bytes, encoded);
    }
}

#[test]
fn utf8_invalid() {
    let strings: [&[u8]; 7] = [
        &[0xc3, 0x28],
        &[0xa0, 0xa1],
        &[0xe2, 0x28, 0xa1],
        &[0xe2, 0x82, 0x28],
        &[0xf0, 0x28, 0x8c, 0xbc],
        &[0xf0, 0x90, 0x28, 0xbc],
        &[0xf0, 0x28, 0x8c, 0x28],
    ];
    for s in strings {
        assert!(matches!(decode_utf8(s), Err(..)));
    }
}

fn values(codepoints: &[UnicodeCodepoint]) -> Vec<u32> {
    codepoints.iter().map(|c| c.value()).collect()
}

#[test]
fn decode_gives_scalar_values() {
    let decoded = decode_utf8("a\u{e9}\u{20ac}\u{1f525}".as_bytes()).unwrap();
    assert_eq!(values(&decoded), vec![0x61, 0xe9, 0x20ac, 0x1f525]);
}

#[test]
fn encode_exact_bytes() {
    let one = [UnicodeCodepoint::try_from(0x7f).unwrap()];
    assert_eq!(encode_utf8(&one), vec![0x7f]);
    let two = [UnicodeCodepoint::try_from(0xe9).unwrap()];
    assert_eq!(encode_utf8(&two), vec![0xc3, 0xa9]);
    let three = [UnicodeCodepoint::try_from(0x20ac).unwrap()];
    assert_eq!(encode_utf8(&three), vec![0xe2, 0x82, 0xac]);
    let four = [UnicodeCodepoint::try_from(0x1f525).unwrap()];
    assert_eq!(encode_utf8(&four), vec![0xf0, 0x9f, 0x94, 0xa5]);
    assert_eq!(encode_utf8(&[]), Vec::<u8>::new());
}

#[test]
fn encode_width_boundaries() {
    let at = |v: u32| encode_utf8(&[UnicodeCodepoint::try_from(v).unwrap()]);
    assert_eq!(at(0x80), vec![0xc2, 0x80]);
    assert_eq!(at(0x7ff), vec![0xdf, 0xbf]);
    assert_eq!(at(0x800), vec![0xe0, 0xa0, 0x80]);
    assert_eq!(at(0xffff), vec![0xef, 0xbf, 0xbf]);
    assert_eq!(at(0x1_0000), vec![0xf0, 0x90, 0x80, 0x80]);
    assert_eq!(at(0x10_ffff), vec![0xf4, 0x8f, 0xbf, 0xbf]);
}

#[test]
fn round_trip_from_scalar_values() {
    for v in [0u32, 0x41, 0x7f, 0x80, 0x7ff, 0x800, 0xd7ff, 0xe000, 0xffff, 0x1_0000, 0x10_ffff] {
        let c = UnicodeCodepoint::try_from(v).unwrap();
        let decoded = decode_utf8(&encode_utf8(&[c, c])).unwrap();
        assert_eq!(decoded, vec![c, c]);
    }
}

#[test]
fn decode_error_unexpected_end() {
    assert_eq!(decode_utf8(&[0xc3]), Err(Utf8DecodeError::UnexpectedEndOfStream));
    assert_eq!(decode_utf8(&[0xe2, 0x82]), Err(Utf8DecodeError::UnexpectedEndOfStream));
    assert_eq!(decode_utf8(&[0xf0, 0x9f, 0x94]), Err(Utf8DecodeError::UnexpectedEndOfStream));
    // the bytes that follow are looked at before the first byte is judged
    assert_eq!(decode_utf8(&[0xa0, 0xa1]), Err(Utf8DecodeError::UnexpectedEndOfStream));
}

#[test]
fn decode_error_overlong() {
    assert_eq!(decode_utf8(&[0xc0, 0x80]), Err(Utf8DecodeError::OverlongEncoding(0)));
    assert_eq!(decode_utf8(&[0xc1, 0xbf]), Err(Utf8DecodeError::OverlongEncoding(0x7f)));
    assert_eq!(decode_utf8(&[0xe0, 0x9f, 0xbf]), Err(Utf8DecodeError::OverlongEncoding(0x7ff)));
    assert_eq!(
        decode_utf8(&[0xf0, 0x8f, 0xbf, 0xbf]),
        Err(Utf8DecodeError::OverlongEncoding(0xffff))
    );
}

#[test]
fn decode_error_not_a_scalar_value() {
    assert_eq!(
        decode_utf8(&[0xed, 0xa0, 0x80]),
        Err(Utf8DecodeError::UnicodeError(UnicodeError::SurrogateCodepoint(0xd800)))
    );
    assert_eq!(
        decode_utf8(&[0xed, 0xbf, 0xbf]),
        Err(Utf8DecodeError::UnicodeError(UnicodeError::SurrogateCodepoint(0xdfff)))
    );
    assert_eq!(
        decode_utf8(&[0xf4, 0x90, 0x80, 0x80]),
        Err(Utf8DecodeError::UnicodeError(UnicodeError::OutsideOfRange(0x11_0000)))
    );
    assert_eq!(
        decode_utf8(&[0xf7, 0xbf, 0xbf, 0xbf]),
        Err(Utf8DecodeError::UnicodeError(UnicodeError::OutsideOfRange(0x1f_ffff)))
    );
}

#[test]
fn decode_error_invalid_bytes() {
    assert_eq!(
        decode_utf8(&[0xf8, 0x80, 0x80, 0x80]),
        Err(Utf8DecodeError::InvalidByte1(0xf8))
    );
    assert_eq!(
        decode_utf8(&[0x80, 0x80, 0x80, 0x80]),
        Err(Utf8DecodeError::InvalidByte1(0x80))
    );
    assert_eq!(decode_utf8(&[0xc3, 0x28]), Err(Utf8DecodeError::InvalidByte2(0xc3, 0x28)));
    assert_eq!(
        decode_utf8(&[0xe2, 0x82, 0x28]),
        Err(Utf8DecodeError::InvalidByte3(0xe2, 0x82, 0x28))
    );
    assert_eq!(
        decode_utf8(&[0xf0, 0x90, 0x80, 0x28]),
        Err(Utf8DecodeError::InvalidByte4(0xf0, 0x90, 0x80, 0x28))
    );
}

#[test]
fn decode_stops_at_first_error() {
    assert_eq!(
        decode_utf8(&[0x61, 0xc3, 0x28, 0xc0, 0x80]),
        Err(Utf8DecodeError::InvalidByte2(0xc3, 0x28))
    );
}

#[test]
fn codepoint_and_char() {
    for c in ['\0', 'a', '(', '\u{e9}', '\u{20ac}', '\u{1f525}', '\u{10ffff}'] {
        let codepoint = UnicodeCodepoint::from(c);
        assert_eq!(codepoint.value(), c as u32);
        assert_eq!(char::from(codepoint), c);
        assert_eq!(codepoint.to_char(), c);
        assert_eq!(UnicodeCodepoint::from_char(c), codepoint);
    }
    assert_eq!(UnicodeCodepoint::default().value(), 0);
}
