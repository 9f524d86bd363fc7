use mlperf_log_parser::log_summary::value::{
    absorb_entry, coerce_lowered, is_float, merge_into, parse_int, parse_value, Value,
};
use mlperf_log_parser::log_summary::{decimal, diagnose, Diagnostic};
use mlperf_log_parser::text::{
    chars_of, copy_range, drop_trailing_spaces, find_char, has_prefix, has_suffix, is_space_char,
    lowercase, matches_at, normalize, replace_all, skip_spaces, split_lines, squash, string_of,
    trim_bounds, trim_text,
};

fn chars(s: &str) -> Vec<char> {
    s.chars().collect()
}

fn string(v: Vec<char>) -> String {
    v.into_iter().collect()
}

#[test]
fn white_space_is_the_unicode_set() {
    for code in 0u32..0x11000 {
        if let Some(c) = char::from_u32(code) {
            assert_eq!(is_space_char(c), c.is_whitespace(), "for U+{:04X}", code);
        }
    }
}

#[test]
fn chars_of_keeps_every_character() {
    assert_eq!(chars_of("aé\n✓"), vec!['a', 'é', '\n', '✓']);
    assert_eq!(chars_of(""), Vec::<char>::new());
}

#[test]
fn trimming_matches_the_standard_trim() {
    for s in ["", " ", "a", "  a b  ", "\t\u{a0}x\u{3000}\r\n", "x  ", "  x", " \u{2003} "] {
        assert_eq!(trim_text(s), s.trim(), "for {:?}", s);
        let v = chars(s);
        let (a, b) = trim_bounds(&v, 0, v.len());
        assert_eq!(string(copy_range(&v, a, b)), s.trim());
        let a = skip_spaces(&v, 0, v.len());
        assert_eq!(string(copy_range(&v, a, v.len())), s.trim_start());
        let b = drop_trailing_spaces(&v, 0, v.len());
        assert_eq!(string(copy_range(&v, 0, b)), s.trim_end());
    }
}

#[test]
fn trimming_stays_inside_its_range() {
    let v = chars("ab  cd  ef");
    assert_eq!(trim_bounds(&v, 2, 8), (4, 6));
    assert_eq!(trim_bounds(&v, 2, 4), (4, 4));
    assert_eq!(trim_bounds(&v, 3, 3), (3, 3));
}

#[test]
fn find_char_gives_first_match_or_end() {
    let v = chars("a:b:c");
    assert_eq!(find_char(&v, 0, 5, ':'), 1);
    assert_eq!(find_char(&v, 2, 5, ':'), 3);
    assert_eq!(find_char(&v, 4, 5, ':'), 5);
    assert_eq!(find_char(&v, 0, 1, ':'), 1);
    assert_eq!(find_char(&v, 0, 0, ':'), 0);
}

#[test]
fn lowercase_matches_the_standard_lowercase() {
    for s in [
        "", "abc", "ABC", "MiXeD 123 (X.Y) [Z]", "@AZ[`az{", "\u{7f}Q", "ÉCOLE", "ΟΔΟΣ", "İ", "Aé",
        "ǅ", "ẞ", "STRASSE\tX",
    ] {
        assert_eq!(lowercase(s), s.to_lowercase(), "for {:?}", s);
    }
    let every_ascii: String = (0u8..128).map(|b| b as char).collect();
    assert_eq!(lowercase(&every_ascii), every_ascii.to_lowercase());
}

#[test]
fn string_of_keeps_every_character() {
    assert_eq!(string_of(&chars("aé\n✓")), "aé\n✓");
    assert_eq!(string_of(&Vec::new()), "");
}

#[test]
fn squash_rewrites_and_filters() {
    assert_eq!(string(squash(&chars("a b.c(d)"), true)), "a_b_cd");
    assert_eq!(string(squash(&chars("a b.c(d)"), false)), "a_b.cd");
    assert_eq!(string(squash(&chars("()"), true)), "");
    assert_eq!(string(squash(&chars(""), true)), "");
}

#[test]
fn normalize_matches_the_chain_of_standard_calls() {
    for k in ["  Min latency (ns) ", "99.90 percentile", "ÄB (c.d)", "", " ( ) ", "İstanbul"] {
        let expected = k
            .trim()
            .to_lowercase()
            .replace('.', "_")
            .replace(' ', "_")
            .replace('(', "")
            .replace(')', "");
        assert_eq!(normalize(k, true), expected);
        let expected = k
            .trim()
            .to_lowercase()
            .replace(' ', "_")
            .replace('(', "")
            .replace(')', "");
        assert_eq!(normalize(k, false), expected);
    }
}

#[test]
fn normalize_can_move_when_brackets_hide_white_space() {
    let once = normalize("(\t)a", true);
    assert_eq!(once, "\ta");
    assert_eq!(normalize(&once, true), "a");
}

#[test]
fn parse_int_reads_what_the_standard_parser_reads() {
    for s in [
        "0", "-0", "+0", "12", "-12", "+12", "0012", "9223372036854775807",
        "9223372036854775808", "-9223372036854775808", "-9223372036854775809", "", "+", "-",
        "1 ", " 1", "1a", "--1", "1.0", "99999999999999999999999999999999999999999999",
        "-99999999999999999999999999999999999999999999", "٣",
    ] {
        assert_eq!(parse_int(&chars(s)), s.parse::<i64>().ok(), "for {:?}", s);
    }
}

#[test]
fn is_float_accepts_what_the_standard_parser_accepts() {
    for s in [
        "0", "1.5", "-1.5", "+1.5", "1.", ".1", ".", "", "1e1", "1E1", "1e+1", "1e-1", "1e",
        "1e+", "e1", ".e1", "1.e1", ".1e1", "inf", "INF", "-inf", "+Infinity", "infinit", "nan",
        "NAN", "-nan", "nanx", "1f", "0x1", "1__0", "1e1e1", "1.1.1", " 1", "1 ", "+", "-", "+-1",
        "Ｅ", "1e١",
    ] {
        assert_eq!(is_float(&chars(s)), s.parse::<f64>().is_ok(), "for {:?}", s);
    }
}

#[test]
fn coercion_reads_the_lowercase_form_for_words_only() {
    assert_eq!(coerce_lowered("Yes", "yes"), Value::Bool(true));
    assert_eq!(coerce_lowered("TRUE", "true"), Value::Bool(true));
    assert_eq!(coerce_lowered("No", "no"), Value::Bool(false));
    assert_eq!(coerce_lowered("False", "false"), Value::Bool(false));
    assert_eq!(coerce_lowered("12", "12"), Value::Int(12));
    assert_eq!(coerce_lowered("1E3", "1e3"), Value::Float("1E3".to_string()));
    assert_eq!(coerce_lowered("Maybe", "maybe"), Value::Text("Maybe".to_string()));
    assert_eq!(parse_value("tRuE"), Value::Bool(true));
    assert_eq!(parse_value("yes "), Value::Text("yes ".to_string()));
}

#[test]
fn absorb_adds_overwrites_and_collects() {
    let mut d: Vec<(String, Value)> = Vec::new();
    absorb_entry(&mut d, "a".to_string(), Value::Int(1));
    absorb_entry(&mut d, "note".to_string(), Value::Text("x".to_string()));
    absorb_entry(&mut d, "b".to_string(), Value::Int(2));
    assert_eq!(
        d,
        vec![
            ("a".to_string(), Value::Int(1)),
            ("note".to_string(), Value::Text("x".to_string())),
            ("b".to_string(), Value::Int(2)),
        ]
    );
    absorb_entry(&mut d, "a".to_string(), Value::Bool(true));
    absorb_entry(&mut d, "note".to_string(), Value::Int(7));
    absorb_entry(&mut d, "note".to_string(), Value::Null);
    assert_eq!(
        d,
        vec![
            ("a".to_string(), Value::Bool(true)),
            (
                "note".to_string(),
                Value::List(vec![Value::Text("x".to_string()), Value::Int(7), Value::Null])
            ),
            ("b".to_string(), Value::Int(2)),
        ]
    );
    let mut e: Vec<(String, Value)> = vec![("b".to_string(), Value::Int(0))];
    merge_into(&mut e, d);
    assert_eq!(e[0], ("b".to_string(), Value::Int(2)));
    assert_eq!(e.len(), 3);
    assert_eq!(Value::Dict(e).get("a"), Some(&Value::Bool(true)));
}

#[test]
fn get_looks_into_dictionaries_only() {
    let d = Value::Dict(vec![("k".to_string(), Value::Int(1))]);
    assert_eq!(d.get("k"), Some(&Value::Int(1)));
    assert_eq!(d.get("K"), None);
    assert_eq!(Value::List(vec![]).get("k"), None);
    assert_eq!(Value::Null.get(""), None);
}

#[test]
fn decimal_writes_digits() {
    assert_eq!(string(decimal(0)), "0");
    assert_eq!(string(decimal(9)), "9");
    assert_eq!(string(decimal(10)), "10");
    assert_eq!(string(decimal(1234567890)), "1234567890");
    assert_eq!(string(decimal(u128::MAX)), u128::MAX.to_string());
}

#[test]
fn diagnose_finds_line_and_word() {
    let text = chars("one\r\ntwo three four\nfive");
    assert_eq!(
        diagnose(&text, 0),
        Diagnostic { lines_before: 0, position: 0, word: "one".to_string(), location: 0 }
    );
    assert_eq!(
        diagnose(&text, 5),
        Diagnostic { lines_before: 1, position: 0, word: "two".to_string(), location: 5 }
    );
    assert_eq!(
        diagnose(&text, 8),
        Diagnostic { lines_before: 1, position: 3, word: "three".to_string(), location: 8 }
    );
    assert_eq!(
        diagnose(&text, 10),
        Diagnostic { lines_before: 1, position: 5, word: "four".to_string(), location: 10 }
    );
    assert_eq!(
        diagnose(&text, 12),
        Diagnostic { lines_before: 1, position: 7, word: "<unknown>".to_string(), location: 12 }
    );
    assert_eq!(
        diagnose(&text, 24),
        Diagnostic { lines_before: 2, position: 4, word: "<unknown>".to_string(), location: 24 }
    );
    assert_eq!(
        diagnose(&text, 3).message(),
        "Parse error at line 1, word '<unknown>' (position 3): unexpected token at offset 3"
    );
    assert_eq!(
        diagnose(&chars(""), 0).message(),
        "Parse error at line 1, word '<unknown>' (position 0): unexpected token at offset 0"
    );
}

#[test]
fn replace_all_matches_the_standard_replace() {
    for (s, from, to) in [
        ("50.00 percentile", "50.00", "p50"),
        ("a_percentile_percentile", "_percentile", ""),
        ("aaaa", "aa", "b"),
        ("aaa", "aa", "b"),
        ("abc", "abc", "abcabc"),
        ("abc", "abcd", "x"),
        ("", "a", "b"),
        ("xay", "a", ""),
        ("ababab", "aba", "-"),
    ] {
        assert_eq!(string(replace_all(&chars(s), from, to)), s.replace(from, to), "for {:?}", s);
    }
    assert_eq!(string(replace_all(&chars("abc"), "", "x")), "abc");
}

#[test]
fn prefix_and_suffix() {
    let v = chars("min_duration_satisfied");
    assert!(has_prefix(&v, "min_"));
    assert!(has_prefix(&v, ""));
    assert!(!has_prefix(&v, "in_"));
    assert!(has_suffix(&v, "_satisfied"));
    assert!(has_suffix(&v, ""));
    assert!(!has_suffix(&v, "_satisfie"));
    assert!(!has_suffix(&chars("ed"), "_satisfied"));
    assert!(matches_at(&v, 4, &chars("duration")));
    assert!(!matches_at(&v, 5, &chars("duration")));
    assert!(!matches_at(&v, 20, &chars("edx")));
}

#[test]
fn split_lines_matches_the_standard_lines() {
    for s in ["", "a", "a\n", "a\nb", "a\r\nb\r\n", "\n\n", "a\rb\n", "\r\n", "a\n\nb", "x\r"] {
        let expected: Vec<String> = s.lines().map(|l| l.to_string()).collect();
        let lines: Vec<String> = split_lines(s).into_iter().map(string).collect();
        assert_eq!(lines, expected, "for {:?}", s);
    }
}
