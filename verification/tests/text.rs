use paintress::text::{
    decimal_string, first_label_of, parse_u32, starts_with, str_eq, str_lt, trim,
    trim_trailing_dots,
};

#[test]
fn decimal_rendering() {
    assert_eq!(decimal_string(0), "0");
    assert_eq!(decimal_string(1600), "1600");
    assert_eq!(decimal_string(u64::MAX), u64::MAX.to_string());
}

#[test]
fn parse_u32_like_std() {
    for s in ["0", "480", "+12", "4294967295", "4294967296", "", "+", "-1", " 1", "1a", "007"] {
        assert_eq!(parse_u32(s), s.parse::<u32>().ok(), "input {s:?}");
    }
}

#[test]
fn trimming() {
    assert_eq!(trim("  ok \n"), "ok");
    assert_eq!(trim("\u{3000}done\u{a0}"), "done");
    assert_eq!(trim("   "), "");
    assert_eq!(trim_trailing_dots("host.local.."), "host.local");
    assert_eq!(first_label_of("eink-1._eink._tcp.local."), "eink-1");
    assert_eq!(first_label_of("plain"), "plain");
}

#[test]
fn comparisons() {
    assert!(str_eq("abc", "abc"));
    assert!(!str_eq("abc", "abd"));
    assert!(starts_with("eink-f8.local", "eink"));
    assert!(!starts_with("eink", "eink-f8"));
    assert!(str_lt("a", "b"));
    assert!(str_lt("ab", "abc"));
    assert!(!str_lt("b", "a"));
    assert!(!str_lt("a", "a"));
    assert_eq!(str_lt("é", "z"), "é" < "z");
}
