use ecooff::text::{chars_of, decimal_chars, lines_of, low, padded_chars, parse_u64_chars, trim_chars};

fn s(v: &[char]) -> String {
    v.iter().collect()
}

#[test]
fn low_lowercases_ascii_only() {
    assert_eq!(low("Code.EXE"), "code.exe");
    assert_eq!(low("ÉCOLE"), "École");
}

#[test]
fn trim_uses_unicode_whitespace() {
    assert_eq!(s(&trim_chars(&chars_of(" \t\u{a0}x y\u{2009}\n"))), "x y");
    assert_eq!(s(&trim_chars(&chars_of("   "))), "");
}

#[test]
fn lines_follow_str_lines() {
    let got: Vec<String> = lines_of(&chars_of("a\r\nb\n\nc\r")).iter().map(|l| s(l)).collect();
    let want: Vec<String> = "a\r\nb\n\nc\r".lines().map(|l| l.to_string()).collect();
    assert_eq!(got, want);
    assert!(lines_of(&chars_of("")).is_empty());
    assert_eq!(lines_of(&chars_of("\n")).len(), 1);
}

#[test]
fn decimal_and_parse() {
    assert_eq!(s(&decimal_chars(0)), "0");
    assert_eq!(s(&decimal_chars(1234567890)), "1234567890");
    assert_eq!(s(&decimal_chars(u64::MAX)), "18446744073709551615");
    assert_eq!(parse_u64_chars(&chars_of("18446744073709551615")), Some(u64::MAX));
    assert_eq!(parse_u64_chars(&chars_of("18446744073709551616")), None);
    assert_eq!(parse_u64_chars(&chars_of("+12")), Some(12));
    assert_eq!(parse_u64_chars(&chars_of("+")), None);
    assert_eq!(parse_u64_chars(&chars_of("")), None);
    assert_eq!(parse_u64_chars(&chars_of("1 2")), None);
    assert_eq!(parse_u64_chars(&chars_of("007")), Some(7));
    assert_eq!(s(&padded_chars(7, 3)), "007");
    assert_eq!(s(&padded_chars(1234, 2)), "1234");
}

#[test]
fn trim_and_lower_are_idempotent() {
    let once = trim_chars(&chars_of("\u{2028} a b \t"));
    assert_eq!(trim_chars(&once), once);
    assert_eq!(low(&low("MiXeD.Exe")), low("MiXeD.Exe"));
}
