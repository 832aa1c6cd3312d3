use sxdpi::text::{
    parse_unsigned_chars, push_decimal, push_signed_decimal, str_chars, IntErrorKind,
};

fn parse(s: &str, max: u64) -> Result<u64, IntErrorKind> {
    let cs = str_chars(s);
    parse_unsigned_chars(&cs, 0, cs.len(), max)
}

#[test]
fn decimal_formatting() {
    let mut s = String::new();
    push_decimal(&mut s, 0);
    assert_eq!(s, "0");
    let mut s = String::from("port ");
    push_decimal(&mut s, 65535);
    assert_eq!(s, "port 65535");
    let mut s = String::new();
    push_signed_decimal(&mut s, i64::MIN);
    assert_eq!(s, "-9223372036854775808");
}

#[test]
fn decimal_parsing_like_std() {
    for s in ["0", "80", "+80", "0080", "65535", "65536", "", "+", "-", "-1", "1a", "a1", " 1", "99999999", "٣"] {
        let expected = s.parse::<u16>().map(|v| v as u64).map_err(|e| format!("{}", e));
        let got = parse(s, 65535).map_err(|k| k.message());
        assert_eq!(got, expected, "input {:?}", s);
    }
}

#[test]
fn decimal_roundtrip() {
    for n in [0u64, 7, 10, 443, 8118, 65535] {
        let mut s = String::new();
        push_decimal(&mut s, n);
        assert_eq!(parse(&s, 65535), Ok(n));
    }
}
