use flowcase_guac::instruction::{encode_instruction, parse_instruction, ParseError};

#[test]
fn encode_basic_instruction() {
    assert_eq!(encode_instruction(&["select", "vnc"]), "6.select,3.vnc;");
    assert_eq!(encode_instruction(&["video"]), "5.video;");
}

#[test]
fn encode_uses_codepoint_count_not_byte_count() {
    // "café" = 4 codepoints, 5 bytes.
    let s = encode_instruction(&["x", "café"]);
    assert_eq!(s, "1.x,4.café;");
}

#[test]
fn encode_always_ends_with_the_terminator() {
    assert_eq!(encode_instruction(&[]), ";");
    assert_eq!(encode_instruction(&[""]), "0.;");
    assert_eq!(encode_instruction(&["a", "", "0123456789"]), "1.a,0.,10.0123456789;");
}

#[test]
fn parse_one_instruction() {
    let raw = b"6.select,3.vnc;leftover";
    let (elements, consumed) = parse_instruction(raw).unwrap().unwrap();
    assert_eq!(elements, vec!["select".to_string(), "vnc".to_string()]);
    assert_eq!(consumed, b"6.select,3.vnc;".len());
}

#[test]
fn parse_returns_none_on_partial() {
    // "6.sele" — incomplete
    let raw = b"6.sele";
    assert!(parse_instruction(raw).unwrap().is_none());
}

#[test]
fn parse_handles_multibyte_codepoints() {
    // "café" -> 4 codepoints
    let raw = "1.x,4.café;".as_bytes();
    let (elements, _) = parse_instruction(raw).unwrap().unwrap();
    assert_eq!(elements, vec!["x".to_string(), "café".to_string()]);
}

#[test]
fn parse_rejects_garbage() {
    let raw = b"6.select|3.vnc;"; // '|' instead of ',' is a syntax error
    let err = parse_instruction(raw).unwrap_err();
    assert!(err.message().contains("expected"));
}

#[test]
fn every_proper_prefix_asks_for_more() {
    let raw = encode_instruction(&["x", "café", "", "a,b;c.d", "\u{10ffff}"]);
    let bytes = raw.as_bytes();
    for k in 0..bytes.len() {
        assert!(parse_instruction(&bytes[..k]).unwrap().is_none(), "cut at {k}");
    }
    let (elements, consumed) = parse_instruction(bytes).unwrap().unwrap();
    assert_eq!(elements, vec!["x", "café", "", "a,b;c.d", "\u{10ffff}"]);
    assert_eq!(consumed, bytes.len());
}

#[test]
fn encoded_instruction_is_read_back_before_other_text() {
    let mut raw = encode_instruction(&["name", "été"]);
    let length = raw.len();
    raw.push_str("7.rest");
    let (elements, consumed) = parse_instruction(raw.as_bytes()).unwrap().unwrap();
    assert_eq!(elements, vec!["name", "été"]);
    assert_eq!(consumed, length);
    let again = parse_instruction(&raw.as_bytes()[..consumed]).unwrap().unwrap();
    assert_eq!(again.0, elements);
    assert_eq!(again.1, consumed);
}

#[test]
fn bytes_after_the_instruction_play_no_part() {
    for rest in [&b""[..], b"\xc3", b"\xe2\x82", b"\xc3\xa9", b"\xff", b"\xe2\x82x", b".;"] {
        let mut raw = b"1.x;".to_vec();
        raw.extend_from_slice(rest);
        let found = parse_instruction(&raw).unwrap();
        assert_eq!(found, Some((vec!["x".to_string()], 4)), "{rest:?}");
    }
    let (elements, consumed) = parse_instruction(b"2.\xc3\xa9a,0.;\xff\xff").unwrap().unwrap();
    assert_eq!(elements, vec!["éa", ""]);
    assert_eq!(consumed, 9);
}

#[test]
fn value_that_ends_inside_a_character_asks_for_more() {
    for raw in [&b"1."[..], b"1.\xc3", b"2.a\xe2\x82", b"1.\xf0\x9f\x98", b"1.a,1.\xc3", b"1.a"] {
        assert!(parse_instruction(raw).unwrap().is_none(), "{raw:?}");
    }
}

#[test]
fn length_prefix_takes_a_plus_sign_and_leading_zeros() {
    let (elements, consumed) = parse_instruction(b"+3.abc,0002.de;").unwrap().unwrap();
    assert_eq!(elements, vec!["abc", "de"]);
    assert_eq!(consumed, 15);
}

#[test]
fn length_prefix_must_be_an_integer() {
    for raw in [
        &b".;"[..],
        b"+.;",
        b"-1.a;",
        b"++1.a;",
        b" 1.a;",
        b"1_0.a;",
        b"99999999999999999999999999.a;",
    ] {
        let err = parse_instruction(raw).unwrap_err();
        assert!(matches!(err, ParseError::LengthNotInteger { .. }), "{raw:?}");
    }
    let err = parse_instruction(b"a\"b.c;").unwrap_err();
    assert_eq!(err.message(), "instruction length prefix not an integer: \"a\\\"b\"");
}

#[test]
fn largest_length_prefix_is_read() {
    let raw = format!("{}.a;", usize::MAX);
    assert!(parse_instruction(raw.as_bytes()).unwrap().is_none());
    let raw = format!("{}0.a;", usize::MAX);
    assert!(parse_instruction(raw.as_bytes()).is_err());
}

#[test]
fn length_prefix_must_be_utf8() {
    let err = parse_instruction(b"\xff1.a;").unwrap_err();
    assert!(matches!(err, ParseError::LengthNotUtf8));
    assert_eq!(err.message(), "instruction length prefix not utf-8");
}

#[test]
fn value_must_be_utf8() {
    let err = parse_instruction(b"3.ab\xffc;").unwrap_err();
    assert!(matches!(err, ParseError::ValueNotUtf8 { valid_up_to: 2, error_len: 1 }));
    assert_eq!(
        err.message(),
        "instruction value not utf-8: invalid utf-8 sequence of 1 bytes from index 2"
    );
}

#[test]
fn without_an_instruction_all_after_the_first_dot_must_be_utf8() {
    for (raw, from) in [
        (&b"2.ab\xffc;"[..], 2),
        (b"0.\xff", 0),
        (b"1.a|\xff", 2),
        (b"1.a,\xff1.b;", 2),
        (b"1.a,x.\xff", 4),
        (b"1.a,2.b\xff;", 5),
        (b"9.a;\xff", 2),
    ] {
        match parse_instruction(raw).unwrap_err() {
            ParseError::ValueNotUtf8 { valid_up_to, error_len } => {
                assert_eq!((valid_up_to, error_len), (from, 1), "{raw:?}");
            }
            other => panic!("{raw:?}: {other:?}"),
        }
    }
    // The length prefix before the first dot comes first.
    assert!(matches!(parse_instruction(b"x.\xff"), Err(ParseError::LengthNotInteger { .. })));
    assert!(matches!(parse_instruction(b"\xff.\xff"), Err(ParseError::LengthNotUtf8)));
}

#[test]
fn without_an_instruction_a_cut_character_asks_for_more() {
    for raw in [
        &b"0.\xc3"[..],
        b"1.a\xc3",
        b"1.a|\xc3",
        b"1.a,\xe2\x82",
        b"1.a,x.\xc3",
        b"1.a,1.b\xf0\x9f\x98",
    ] {
        assert!(parse_instruction(raw).unwrap().is_none(), "{raw:?}");
    }
    // Once the character has ended, the mistake is reported.
    assert!(matches!(
        parse_instruction(b"0.\xc3\xa9"),
        Err(ParseError::UnexpectedByte { byte: 0xc3 })
    ));
    assert!(matches!(
        parse_instruction(b"1.a|\xc3\xa9"),
        Err(ParseError::UnexpectedByte { byte: b'|' })
    ));
}

#[test]
fn invalid_sequence_is_as_long_as_it_could_have_been_a_character() {
    for (raw, from, len) in [
        (&b"9.\xff"[..], 0, 1),
        (b"9.\x80", 0, 1),
        (b"9.\xc0\x80", 0, 1),
        (b"9.\xc3x", 0, 1),
        (b"9.a\xe2(\xa1", 1, 1),
        (b"9.ab\xe2\x82x", 2, 2),
        (b"9.\xe0\x80\x80", 0, 1),
        (b"9.\xed\xa0\x80", 0, 1),
        (b"9.\xc3\xa9\xf0\x9f\x98A", 2, 3),
        (b"9.\xf0\x9fA", 0, 2),
        (b"9.\xf0\x80\x80\x80", 0, 1),
        (b"9.\xf4\x90\x80\x80", 0, 1),
        (b"9.\xf5\x80\x80\x80", 0, 1),
    ] {
        match parse_instruction(raw).unwrap_err() {
            ParseError::ValueNotUtf8 { valid_up_to, error_len } => {
                assert_eq!((valid_up_to, error_len), (from, len), "{raw:?}");
            }
            other => panic!("{other:?}"),
        }
    }
}

#[test]
fn separator_must_be_comma_or_semicolon() {
    let err = parse_instruction(b"1.a\x0ab;").unwrap_err();
    assert!(matches!(err, ParseError::UnexpectedByte { byte: 0x0a }));
    assert_eq!(err.message(), "expected ',' or ';' after element, got byte 0x0a");
    let err = parse_instruction("1.aé;".as_bytes()).unwrap_err();
    assert_eq!(err.message(), "expected ',' or ';' after element, got byte 0xc3");
}

#[test]
fn no_dot_asks_for_more() {
    assert!(parse_instruction(b"").unwrap().is_none());
    assert!(parse_instruction(b"garbage;").unwrap().is_none());
    assert!(parse_instruction(b"1.a,").unwrap().is_none());
}

#[test]
fn different_instructions_differ_on_the_wire() {
    let instructions: [&[&str]; 6] = [&[], &[""], &["", ""], &["a"], &["a", ""], &["1.a"]];
    for (i, a) in instructions.iter().enumerate() {
        for (j, b) in instructions.iter().enumerate() {
            assert_eq!(encode_instruction(a) == encode_instruction(b), i == j);
        }
    }
}

#[test]
fn bytes_are_parsed_the_same_at_any_time() {
    for raw in [
        &b"1.\xc3\xa9,x.y;5.ready;"[..],
        b"2.a\xff;5.ready;",
        b"3.\xe2\x82\xac\xe2\x82x;",
        b"1.a|1.b;",
        b"1.a,\xff1.b;",
        b"5.ready;\xc3(\xff",
    ] {
        let whole = parse_instruction(raw);
        assert!(!matches!(whole, Ok(None)));
        let mut asked = true;
        for k in 0..=raw.len() {
            let part = parse_instruction(&raw[..k]);
            if matches!(part, Ok(None)) {
                assert!(asked, "{raw:?} cut at {k}");
            } else {
                asked = false;
                assert_eq!(format!("{part:?}"), format!("{whole:?}"));
            }
        }
    }
}

#[test]
fn error_is_not_followed_by_an_instruction() {
    for more in [&b";"[..], b"1.b;", b"\xc3", b"\xff1.b;"] {
        let mut raw = b"1.a|".to_vec();
        assert!(parse_instruction(&raw).is_err());
        raw.extend_from_slice(more);
        assert!(!matches!(parse_instruction(&raw), Ok(Some(_))));
    }
}
