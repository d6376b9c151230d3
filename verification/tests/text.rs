use rayhunter::text::{accepts_float, append_decimal, parse_canonical_u16, parse_unsigned};

fn chars(s: &str) -> Vec<char> {
    s.chars().collect()
}

#[test]
fn unsigned_parsing_matches_std() {
    for s in ["0", "65535", "+7", "0010", "65536", "", "+", "-1", " 1", "1 ", "++1", "4294967295", "4294967296"] {
        let expected = s.parse::<u16>().ok().map(u64::from);
        assert_eq!(parse_unsigned(&chars(s), 0xffff), expected, "{s:?} as u16");
        let expected = s.parse::<u32>().ok().map(u64::from);
        assert_eq!(parse_unsigned(&chars(s), 0xffff_ffff), expected, "{s:?} as u32");
    }
}

#[test]
fn float_syntax_matches_std() {
    for s in [
        "0", "-0", "1.", ".1", ".", "+.", "1e5", "1E-5", "1e+5", "1e", "e1", "1e5.0", "1.2.3",
        "inf", "-INF", "Infinity", "infinit", "nan", "NaN", "+nan", "1_0", " 1", "1 ", "", "+",
        "0x10", "36.2672", "-86.7354", "1.5e", "--1", "١",
    ] {
        assert_eq!(accepts_float(&chars(s)), s.parse::<f64>().is_ok(), "{s:?}");
    }
}

#[test]
fn decimal_text_matches_display() {
    for n in [0u64, 7, 10, 99, 100, 65535, 4294967295, u64::MAX] {
        let mut s = String::from("x=");
        append_decimal(&mut s, n);
        assert_eq!(s, format!("x={n}"));
    }
}

#[test]
fn canonical_u16_text() {
    assert_eq!(parse_canonical_u16(&chars("0")), Some(0));
    assert_eq!(parse_canonical_u16(&chars("310")), Some(310));
    assert_eq!(parse_canonical_u16(&chars("65535")), Some(65535));
    assert_eq!(parse_canonical_u16(&chars("65536")), None);
    assert_eq!(parse_canonical_u16(&chars("010")), None);
    assert_eq!(parse_canonical_u16(&chars("+10")), None);
    assert_eq!(parse_canonical_u16(&chars("")), None);
    assert_eq!(parse_canonical_u16(&chars("1a")), None);
}
