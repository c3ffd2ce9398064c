use radar::error::ParseError;
use radar::text::{char_to_digit, is_whitespace, parse_uint_in, strip_hex_prefixes_from, trim_bounds};
use radar::text::{
    chars_of, contains_chars, hex_str_to_u64, option_string_to_float_text, option_string_to_string,
    option_string_to_t, split_whitespace, to_u8,
};

fn some(s: &str) -> Option<String> {
    Some(s.to_string())
}

#[test]
fn string_cells() {
    assert_eq!(option_string_to_string(some("abc")), Ok("abc".to_string()));
    assert_eq!(option_string_to_string(None), Err(ParseError::MissingValue));
}

#[test]
fn decimal_cells() {
    assert_eq!(option_string_to_t(some(" 42 ")), Ok(42));
    assert_eq!(option_string_to_t(some("+7")), Ok(7));
    assert_eq!(option_string_to_t(some("007")), Ok(7));
    assert_eq!(option_string_to_t(some("18446744073709551615")), Ok(u64::MAX));
    assert_eq!(option_string_to_t(some("18446744073709551616")), Err(ParseError::InvalidNumber));
    assert_eq!(option_string_to_t(some("-1")), Err(ParseError::InvalidNumber));
    assert_eq!(option_string_to_t(some("4x")), Err(ParseError::InvalidNumber));
    assert_eq!(option_string_to_t(some("+")), Err(ParseError::InvalidNumber));
    assert_eq!(option_string_to_t(some("  ")), Err(ParseError::InvalidNumber));
    assert_eq!(option_string_to_t(some("1 2")), Err(ParseError::InvalidNumber));
    assert_eq!(option_string_to_t(some("\u{3000}5\t")), Ok(5));
    assert_eq!(option_string_to_t(None), Err(ParseError::MissingValue));
}

#[test]
fn decimal_cells_agree_with_std() {
    for s in ["0", "12", " 12", "+0", "++1", "1_0", "99999999999999999999", "٣", "\n8\n"] {
        let expected = s.trim().parse::<u64>().map_err(|_| ParseError::InvalidNumber);
        assert_eq!(option_string_to_t(some(s)), expected, "{:?}", s);
    }
}

#[test]
fn hex_ids() {
    assert_eq!(hex_str_to_u64(&"0x1A2".to_string()), Ok(0x1a2));
    assert_eq!(hex_str_to_u64(&"0x1a2".to_string()), Ok(0x1a2));
    assert_eq!(hex_str_to_u64(&"0x0x10".to_string()), Ok(0x10));
    assert_eq!(hex_str_to_u64(&"0x 10 ".to_string()), Ok(0x10));
    assert_eq!(hex_str_to_u64(&"FF".to_string()), Ok(0xff));
    assert_eq!(hex_str_to_u64(&" 0x10".to_string()), Err(ParseError::InvalidNumber));
    assert_eq!(hex_str_to_u64(&"0x".to_string()), Err(ParseError::InvalidNumber));
    assert_eq!(hex_str_to_u64(&"0xG".to_string()), Err(ParseError::InvalidNumber));
    assert_eq!(hex_str_to_u64(&"0x10000000000000000".to_string()), Err(ParseError::InvalidNumber));
}

#[test]
fn data_bytes() {
    assert_eq!(to_u8("ff"), Ok(255));
    assert_eq!(to_u8("0A"), Ok(10));
    assert_eq!(to_u8("100"), Err(ParseError::InvalidNumber));
    assert_eq!(to_u8(""), Err(ParseError::InvalidNumber));
    assert_eq!(to_u8(" 1"), Err(ParseError::InvalidNumber));
}

#[test]
fn float_cells_agree_with_std() {
    for s in [
        "1.5", " -2e3 ", "inf", "-Infinity", "NaN", "1.", ".5", "1e", ".", "abc", "1e+", "+1E-2",
        "1.2.3", "e5", "infin", "", "0x10", "1_000",
    ] {
        let got = option_string_to_float_text(some(s));
        match s.trim().parse::<f64>() {
            Ok(_) => assert_eq!(got, Ok(s.trim().to_string()), "{:?}", s),
            Err(_) => assert_eq!(got, Err(ParseError::InvalidNumber), "{:?}", s),
        }
    }
    assert_eq!(option_string_to_float_text(None), Err(ParseError::MissingValue));
}

#[test]
fn words_and_substrings() {
    let cs = chars_of("  a bc\td\n ");
    let ws = split_whitespace(&cs);
    let words: Vec<String> = ws.iter().map(|w| w.iter().collect()).collect();
    assert_eq!(words, vec!["a", "bc", "d"]);
    assert!(split_whitespace(&chars_of("   ")).is_empty());
    assert!(contains_chars(&chars_of("1 Rx 2"), &chars_of("Rx")));
    assert!(!contains_chars(&chars_of("R x"), &chars_of("Rx")));
    assert!(contains_chars(&chars_of("abc"), &chars_of("")));
    assert!(!contains_chars(&chars_of("a"), &chars_of("ab")));
}

#[test]
fn float_cells_more_forms() {
    for s in ["+.5", ".e1", "-", "+", "1e-", "0.5E+10", "NAN", "-nan", "infinityx", " 12 ", "1e5.0"] {
        let got = option_string_to_float_text(some(s));
        match s.trim().parse::<f64>() {
            Ok(_) => assert_eq!(got, Ok(s.trim().to_string()), "{:?}", s),
            Err(_) => assert_eq!(got, Err(ParseError::InvalidNumber), "{:?}", s),
        }
    }
}

#[test]
fn trimming_and_digits() {
    let cs = chars_of("\u{a0} ab \u{2003}");
    assert_eq!(trim_bounds(&cs, 0, cs.len()), (2, 4));
    let hx = chars_of("0x0x0y");
    assert_eq!(strip_hex_prefixes_from(&hx, 0, hx.len()), 4);
    assert!(is_whitespace('\u{3000}'));
    assert!(!is_whitespace('a'));
    assert_eq!(char_to_digit('z'), Some(35));
    assert_eq!(char_to_digit('-'), None);
    let n = chars_of("zz");
    assert_eq!(parse_uint_in(&n, 0, 2, 36, u64::MAX), Some(35 * 36 + 35));
    assert_eq!(parse_uint_in(&n, 0, 2, 16, u64::MAX), None);
    let big = chars_of("256");
    assert_eq!(parse_uint_in(&big, 0, 3, 10, 255), None);
    assert_eq!(parse_uint_in(&big, 0, 2, 10, 255), Some(25));
}

#[test]
fn hex_ids_round_trip() {
    for n in [0u64, 1, 0x9, 0xa, 0xf, 0x10, 0x1a2, 0x800002a0, 0xdead_beef, u64::MAX] {
        assert_eq!(hex_str_to_u64(&format!("0x{:X}", n)), Ok(n));
        assert_eq!(hex_str_to_u64(&format!("0x{:x}", n)), Ok(n));
        assert_eq!(hex_str_to_u64(&format!("{:X}", n)), Ok(n));
        assert_eq!(hex_str_to_u64(&format!("{:x}", n)), Ok(n));
        assert_eq!(hex_str_to_u64(&format!("0x{:x} ", n)), Ok(n));
        assert_eq!(hex_str_to_u64(&format!(" {:X}\t\n", n)), Ok(n));
        assert_eq!(hex_str_to_u64(&format!("0x {:X}", n)), Ok(n));
    }
}
