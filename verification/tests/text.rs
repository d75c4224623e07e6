use code_map::text::{
    chars_of, contains_chars, decimal_string, fmt_num, is_white_exec, lowercase_words, parse_i64, split_string,
    string_of, trim_string,
};

#[test]
fn numbers_get_thousands_separators() {
    assert_eq!(fmt_num(0), "0");
    assert_eq!(fmt_num(7), "7");
    assert_eq!(fmt_num(999), "999");
    assert_eq!(fmt_num(1000), "1,000");
    assert_eq!(fmt_num(12345), "12,345");
    assert_eq!(fmt_num(1_234_567), "1,234,567");
    assert_eq!(fmt_num(u64::MAX), "18,446,744,073,709,551,615");
}

#[test]
fn separators_only_group_the_digits() {
    for n in [0u64, 5, 10, 999, 1000, 65_536, 1_000_000, 987_654_321_012, u64::MAX] {
        assert_eq!(fmt_num(n).replace(',', ""), n.to_string());
        assert_eq!(decimal_string(n), n.to_string());
    }
}

#[test]
fn trims_unicode_white_space() {
    assert_eq!(trim_string("  a b \t"), "a b");
    assert_eq!(trim_string("\u{3000}地图\n"), "地图");
    assert_eq!(trim_string("   "), "");
    assert_eq!(trim_string(""), "");
    assert!(is_white_exec('\u{a0}'));
    assert!(!is_white_exec('x'));
}

#[test]
fn splits_like_str_split() {
    assert_eq!(split_string("a/b//c", '/'), vec!["a", "b", "", "c"]);
    assert_eq!(split_string("", '/'), vec![""]);
    assert_eq!(split_string("/x/", '/'), vec!["", "x", ""]);
}

#[test]
fn lower_case_and_words() {
    assert_eq!(lowercase_words("ÀB-c"), vec!["àb-c"]);
    assert_eq!(lowercase_words("  Foo  BAR\tbaz "), vec!["foo", "bar", "baz"]);
    assert!(lowercase_words(" \n ").is_empty());
    let hay = chars_of("src/map_view.rs");
    assert!(contains_chars(&hay, &chars_of("map")));
    assert!(contains_chars(&hay, &chars_of("")));
    assert!(!contains_chars(&hay, &chars_of("mapx")));
}

#[test]
fn parses_signed_integers() {
    let parse = |s: &str| {
        let cs = chars_of(s);
        parse_i64(&cs, 0, cs.len())
    };
    assert_eq!(parse("-42"), Some(-42));
    assert_eq!(parse("+7"), Some(7));
    assert_eq!(parse("1700000000"), Some(1_700_000_000));
    assert_eq!(parse(""), None);
    assert_eq!(parse("-"), None);
    assert_eq!(parse("12a"), None);
    assert_eq!(parse("9223372036854775807"), Some(i64::MAX));
    assert_eq!(parse("9223372036854775808"), None);
    assert_eq!(parse("-9223372036854775808"), Some(i64::MIN));
    let cs = chars_of("x123y");
    assert_eq!(parse_i64(&cs, 1, 4), Some(123));
    assert_eq!(string_of(&cs, 1, 4), "123");
}

#[test]
fn groups_have_three_digits_after_the_first() {
    for n in [0u64, 7, 42, 999, 1_000, 12_345, 123_456, 1_234_567, u64::MAX] {
        let s = fmt_num(n);
        let groups = split_string(&s, ',');
        assert!((1..=3).contains(&groups[0].len()));
        assert!(groups[1..].iter().all(|g| g.len() == 3));
        assert_eq!(s.replace(',', "").parse::<u64>(), Ok(n));
    }
    assert_eq!(fmt_num(u64::MAX), "18,446,744,073,709,551,615");
}
