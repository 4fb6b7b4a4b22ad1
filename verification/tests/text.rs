use advent2023::text::{
    find_from, join_all, parse_hex, parse_signed, parse_unsigned, read_numbers, same_chars,
    second_field, slice_of, space, split_lines, split_on, split_whitespace, stands_at, tail_after,
    to_chars, to_text,
};

fn chars(s: &str) -> Vec<char> {
    s.chars().collect()
}

fn texts(parts: Vec<Vec<char>>) -> Vec<String> {
    parts.iter().map(|p| p.iter().collect()).collect()
}

#[test]
fn to_chars_and_back() {
    assert_eq!(to_chars("héllo ☢"), chars("héllo ☢"));
    assert_eq!(to_chars(""), Vec::<char>::new());
    assert_eq!(to_text(&chars("héllo ☢")), "héllo ☢");
    assert_eq!(to_text(&vec![]), "");
    assert_eq!(slice_of(&chars("abcdef"), 2, 4), chars("cd"));
    assert_eq!(slice_of(&chars("abcdef"), 3, 3), chars(""));
    assert!(same_chars(&chars("abc"), &chars("abc")));
    assert!(!same_chars(&chars("abc"), &chars("abd")));
    assert!(!same_chars(&chars("abc"), &chars("ab")));
}

#[test]
fn parse_unsigned_takes_digits_and_a_plus() {
    assert_eq!(parse_unsigned(&chars("0"), u64::MAX), Some(0));
    assert_eq!(parse_unsigned(&chars("007"), u64::MAX), Some(7));
    assert_eq!(parse_unsigned(&chars("+42"), u64::MAX), Some(42));
    assert_eq!(parse_unsigned(&chars("18446744073709551615"), u64::MAX), Some(u64::MAX));
    assert_eq!(parse_unsigned(&chars("18446744073709551616"), u64::MAX), None);
    assert_eq!(parse_unsigned(&chars("99999999999999999999999"), u64::MAX), None);
    assert_eq!(parse_unsigned(&chars("4294967295"), u32::MAX as u64), Some(4294967295));
    assert_eq!(parse_unsigned(&chars("4294967296"), u32::MAX as u64), None);
    assert_eq!(parse_unsigned(&chars(""), u64::MAX), None);
    assert_eq!(parse_unsigned(&chars("+"), u64::MAX), None);
    assert_eq!(parse_unsigned(&chars("-1"), u64::MAX), None);
    assert_eq!(parse_unsigned(&chars("1 "), u64::MAX), None);
    assert_eq!(parse_unsigned(&chars(" 1"), u64::MAX), None);
    assert_eq!(parse_unsigned(&chars("12a"), u64::MAX), None);
    assert_eq!(parse_unsigned(&chars("++1"), u64::MAX), None);
    assert_eq!(parse_unsigned(&chars("١٢"), u64::MAX), None);
    for text in ["0", "12", "+5", "x", "", "4294967296", "00012"] {
        assert_eq!(
            parse_unsigned(&chars(text), u32::MAX as u64),
            text.parse::<u32>().ok().map(|v| v as u64)
        );
    }
}

#[test]
fn parse_hex_takes_both_cases() {
    assert_eq!(parse_hex(&chars("70c71"), u64::MAX), Some(0x70c71));
    assert_eq!(parse_hex(&chars("FFFF"), u64::MAX), Some(0xFFFF));
    assert_eq!(parse_hex(&chars("fFfF"), 0xFFFF), Some(0xFFFF));
    assert_eq!(parse_hex(&chars("10000"), 0xFFFF), None);
    assert_eq!(parse_hex(&chars("g"), u64::MAX), None);
    assert_eq!(parse_hex(&chars(""), u64::MAX), None);
    assert_eq!(parse_hex(&chars("ffffffffffffffff"), u64::MAX), Some(u64::MAX));
    assert_eq!(parse_hex(&chars("10000000000000000"), u64::MAX), None);
}

#[test]
fn parse_signed_takes_either_sign() {
    let low = i32::MIN as i64;
    let high = i32::MAX as i64;
    assert_eq!(parse_signed(&chars("-17"), low, high), Some(-17));
    assert_eq!(parse_signed(&chars("+17"), low, high), Some(17));
    assert_eq!(parse_signed(&chars("17"), low, high), Some(17));
    assert_eq!(parse_signed(&chars("-0"), low, high), Some(0));
    assert_eq!(parse_signed(&chars("2147483647"), low, high), Some(2147483647));
    assert_eq!(parse_signed(&chars("2147483648"), low, high), None);
    assert_eq!(parse_signed(&chars("-2147483648"), low, high), Some(-2147483648));
    assert_eq!(parse_signed(&chars("-2147483649"), low, high), None);
    assert_eq!(parse_signed(&chars("-"), low, high), None);
    assert_eq!(parse_signed(&chars("--1"), low, high), None);
    assert_eq!(parse_signed(&chars(""), low, high), None);
    for text in ["0", "-12", "+5", "x", "", "2147483648", "-2147483648", "1-"] {
        assert_eq!(
            parse_signed(&chars(text), low, high),
            text.parse::<i32>().ok().map(|v| v as i64)
        );
    }
}

#[test]
fn split_on_cuts_from_the_left() {
    let cut = |t: &str, s: &str| texts(split_on(&chars(t), &chars(s)));
    assert_eq!(cut("a, b, c", ", "), vec!["a", "b", "c"]);
    assert_eq!(cut("abc", ","), vec!["abc"]);
    assert_eq!(cut("", ","), vec![""]);
    assert_eq!(cut(",", ","), vec!["", ""]);
    assert_eq!(cut("a,", ","), vec!["a", ""]);
    assert_eq!(cut(",a", ","), vec!["", "a"]);
    assert_eq!(cut("a,,b", ","), vec!["a", "", "b"]);
    assert_eq!(cut("aaa", "aa"), vec!["", "a"]);
    assert_eq!(cut("a; b, c; d", "; "), vec!["a", "b, c", "d"]);
    for (t, s) in [("a b  c", " "), ("xx--yy--", "--"), ("..#.", "."), ("1\n\n2\n", "\n\n")] {
        let expected: Vec<String> = t.split(s).map(|p| p.to_string()).collect();
        assert_eq!(cut(t, s), expected);
    }
}

#[test]
fn split_whitespace_skips_runs_of_space() {
    let cut = |t: &str| texts(split_whitespace(&chars(t)));
    assert_eq!(cut("  41 48  83\t86\n"), vec!["41", "48", "83", "86"]);
    assert_eq!(cut(""), Vec::<String>::new());
    assert_eq!(cut("   "), Vec::<String>::new());
    assert_eq!(cut("one"), vec!["one"]);
    assert_eq!(cut("a\u{a0}b\u{3000}c\u{85}d"), vec!["a", "b", "c", "d"]);
    for c in ['\u{9}', '\u{d}', ' ', '\u{1680}', '\u{2000}', '\u{200a}', '\u{2028}', '\u{205f}'] {
        assert!(space(c));
        assert!(c.is_whitespace());
    }
    for c in ['a', '\u{8}', '\u{e}', '\u{200b}', '\u{2001}', '0'] {
        assert_eq!(space(c), c.is_whitespace());
    }
    for t in [" a  b ", "\t\tx\n y", "no-space", " \u{2003}wide\u{2003} "] {
        let expected: Vec<String> = t.split_whitespace().map(|p| p.to_string()).collect();
        assert_eq!(cut(t), expected);
    }
}

#[test]
fn split_lines_drops_line_ends() {
    let cut = |t: &str| texts(split_lines(&chars(t)));
    for t in [
        "a\nb\nc", "a\nb\nc\n", "a\r\nb\r\n", "a\rb\n", "a\r", "", "\n", "\n\n", "a\n\nb", "\r\n",
        "x\r\r\n",
    ] {
        let expected: Vec<String> = t.lines().map(|p| p.to_string()).collect();
        assert_eq!(cut(t), expected, "{:?}", t);
    }
    assert_eq!(cut("a\r\nb"), vec!["a", "b"]);
}

#[test]
fn searching_for_a_pattern() {
    let text = chars("xtwone3four");
    assert_eq!(find_from(&text, &chars("one"), 0), Some(3));
    assert_eq!(find_from(&text, &chars("one"), 3), Some(3));
    assert_eq!(find_from(&text, &chars("one"), 4), None);
    assert_eq!(find_from(&text, &chars("two"), 0), Some(1));
    assert_eq!(find_from(&text, &chars("five"), 0), None);
    assert_eq!(find_from(&text, &chars("r"), 0), Some(10));
    assert_eq!(find_from(&text, &chars("xtwone3fourx"), 0), None);
    assert!(stands_at(&text, &chars("four"), 7));
    assert!(!stands_at(&text, &chars("four"), 8));
    assert!(!stands_at(&text, &chars("four"), 100));
    assert!(stands_at(&text, &chars(""), 11));
    assert!(!stands_at(&text, &chars(""), 12));
}

#[test]
fn fields_and_numbers() {
    assert_eq!(tail_after(&chars("seeds: 79 14"), ':'), chars(" 79 14"));
    assert_eq!(tail_after(&chars("a:b:c"), ':'), chars("c"));
    assert_eq!(tail_after(&chars("abc"), ':'), chars("abc"));
    assert_eq!(tail_after(&chars("abc:"), ':'), chars(""));
    assert_eq!(second_field(&chars("Time:  7 15"), ':'), Some(chars("  7 15")));
    assert_eq!(second_field(&chars("a:b:c"), ':'), Some(chars("b")));
    assert_eq!(second_field(&chars("a:"), ':'), Some(chars("")));
    assert_eq!(second_field(&chars("abc"), ':'), None);
    assert_eq!(read_numbers(&chars(" 7  15 30 "), 100), Some(vec![7, 15, 30]));
    assert_eq!(read_numbers(&chars(""), 100), Some(vec![]));
    assert_eq!(read_numbers(&chars("7 x"), 100), None);
    assert_eq!(read_numbers(&chars("7 101"), 100), None);
    assert_eq!(join_all(&vec![chars("7"), chars("15"), chars("")]), chars("715"));
    assert_eq!(join_all(&vec![]), chars(""));
}
