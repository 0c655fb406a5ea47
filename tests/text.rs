use smasher::text::{is_float, parse_u32, split_pair, str_eq, str_less, trim};

#[test]
fn trim_matches_std() {
    for s in ["  a b  ", "\u{3000}x\u{85}", "", "   ", "\t\n\rq\u{a0}", "z"] {
        assert_eq!(trim(s), s.trim());
    }
}

#[test]
fn split_on_single_comma() {
    assert_eq!(split_pair("a,b"), Some(("a".to_string(), "b".to_string())));
    assert_eq!(split_pair(",",), Some((String::new(), String::new())));
    assert_eq!(split_pair("ab"), None);
    assert_eq!(split_pair("a,b,c"), None);
}

#[test]
fn u32_reading() {
    assert_eq!(parse_u32("0"), Some(0));
    assert_eq!(parse_u32("+42"), Some(42));
    assert_eq!(parse_u32("4294967295"), Some(u32::MAX));
    assert_eq!(parse_u32("4294967296"), None);
    assert_eq!(parse_u32("-1"), None);
    assert_eq!(parse_u32("+"), None);
    assert_eq!(parse_u32(""), None);
    assert_eq!(parse_u32("1 2"), None);
}

#[test]
fn float_text_matches_std() {
    for t in [
        "1.04", "-0", "+.5", "5.", "1e9", "2E-3", "inf", "Infinity", "-NAN", ".", "", "e1", "1e",
        "1.2.3", "+-1", "infinit", "1_0", "0x10", "1e1.5", " 1",
    ] {
        assert_eq!(is_float(t), t.parse::<f64>().is_ok(), "{}", t);
    }
}

#[test]
fn string_comparisons() {
    assert!(str_eq("abc", "abc"));
    assert!(!str_eq("abc", "abd"));
    assert!(str_less("ds", "us"));
    assert!(str_less("a", "ab"));
    assert!(!str_less("ab", "ab"));
    assert!(str_less("Z", "a"));
}
