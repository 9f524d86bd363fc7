use mlperf_log_parser::log_summary::grammar::{LogSummaryParser, ParseError};
use mlperf_log_parser::log_summary::lexer::{
    remove_last_char, Lexer, LexicalError, SourceLocation, Token,
};
use mlperf_log_parser::log_summary::model::{
    build_structure_by_priority, Document, Entry, KeyValueEntry, Message, MessageEntry, Section,
    SectionEntry, SectionNote, SectionTable,
};
use mlperf_log_parser::log_summary::value::Value;
use mlperf_log_parser::log_summary::{
    ensure_terminated, output_format, parse_log_summary, summary_to_value, OutputFormat,
};

fn text(s: &str) -> Value {
    Value::Text(s.to_string())
}

fn dict(entries: Vec<(&str, Value)>) -> Value {
    Value::Dict(entries.into_iter().map(|(k, v)| (k.to_string(), v)).collect())
}

fn msg(level: i32, s: &str) -> Message {
    Message { indent_level: level, message: s.to_string() }
}

fn tokens_of(input: &str) -> Vec<(usize, Token, usize)> {
    let mut lexer = Lexer::new(input);
    let mut out = Vec::new();
    while let Some(item) = lexer.next() {
        out.push(item.unwrap());
    }
    out
}

fn loc(source: &str, line: usize, column: usize) -> SourceLocation {
    SourceLocation { source: source.to_string(), line, column }
}

#[test]
fn test_grammar() {
    let mut input = String::from(
        r###"
================================================
MLPerf Results Summary
================================================
SUT name : GPT-J SUT
Scenario : Offline
Mode     : PerformanceOnly
Samples per second: 9.25841
Tokens per second (inferred): 638.83
Result is : VALID
  Min duration satisfied : Yes
  Min queries satisfied : Yes
  Early stopping satisfied: Yes

================================================
Additional Stats
================================================
Min latency (ns)                : 8740448339
Max latency (ns)                : 1443876288808
Mean latency (ns)               : 729202473042
50.00 percentile latency (ns)   : 729112772963
90.00 percentile latency (ns)   : 1302950749196
95.00 percentile latency (ns)   : 1374489698221
97.00 percentile latency (ns)   : 1402380862634
99.00 percentile latency (ns)   : 1431532216788
99.90 percentile latency (ns)   : 1440960003323

================================================
Test Parameters Used
================================================
samples_per_query : 13368
target_qps : 1
target_latency (ns): 0
max_async_queries : 1
min_duration (ms): 600000
max_duration (ms): 0
min_query_count : 1
max_query_count : 0
qsl_rng_seed : 3066443479025735752
sample_index_rng_seed : 10688027786191513374
schedule_rng_seed : 14962580496156340209
accuracy_log_rng_seed : 0
accuracy_log_probability : 0
accuracy_log_sampling_target : 0
print_timestamps : 0
performance_issue_unique : 0
performance_issue_same : 0
performance_issue_same_index : 0
performance_sample_count : 13368

No warnings encountered during test.

No errors encountered during test.

"###,
    );

    if !input.ends_with("\n\n") {
        input.push_str("\n\n");
    }

    let tokens = Lexer::new(&input);
    let parser = LogSummaryParser::new();
    let result = parser.parse(tokens);
    let dict = Value::Dict(result.unwrap().to_dict());

    let summary = dict.get("mlperf_results_summary").unwrap();
    assert_eq!(summary.get("sut_name"), Some(&text("GPT-J SUT")));
    assert_eq!(summary.get("mode"), Some(&text("PerformanceOnly")));
    assert_eq!(summary.get("samples_per_second"), Some(&Value::Float("9.25841".to_string())));
    assert_eq!(
        summary.get("tokens_per_second_inferred"),
        Some(&Value::Float("638.83".to_string()))
    );
    let result_is = summary.get("result_is").unwrap();
    assert_eq!(result_is.get("value"), Some(&text("VALID")));
    assert_eq!(
        result_is.get("details"),
        Some(&dict_of_flags())
    );
    let stats = dict.get("additional_stats").unwrap();
    assert_eq!(stats.get("min_latency_ns"), Some(&Value::Int(8740448339)));
    assert_eq!(stats.get("99_90_percentile_latency_ns"), Some(&Value::Int(1440960003323)));
    let params = dict.get("test_parameters_used").unwrap();
    assert_eq!(params.get("qsl_rng_seed"), Some(&Value::Int(3066443479025735752)));
    assert_eq!(
        params.get("sample_index_rng_seed"),
        Some(&Value::Float("10688027786191513374".to_string()))
    );
    assert_eq!(params.get("min_duration_ms"), Some(&Value::Int(600000)));
    assert_eq!(
        dict.get("note"),
        Some(&Value::List(vec![
            text("No warnings encountered during test."),
            text("No errors encountered during test."),
        ]))
    );
}

fn dict_of_flags() -> Value {
    dict(vec![
        ("min_duration_satisfied", Value::Bool(true)),
        ("min_queries_satisfied", Value::Bool(true)),
        ("early_stopping_satisfied", Value::Bool(true)),
    ])
}

#[test]
fn equal_levels_are_siblings() {
    let roots = build_structure_by_priority(vec![msg(0, "a"), msg(0, "b")]);
    assert_eq!(roots.len(), 2);
    assert!(roots[0].children.is_empty());
    assert!(roots[1].children.is_empty());
    assert_eq!(
        roots[0].entry,
        Entry::Message(MessageEntry { message: "a".to_string(), indent_level: 0 })
    );
    assert_eq!(
        roots[1].entry,
        Entry::Message(MessageEntry { message: "b".to_string(), indent_level: 0 })
    );
}

#[test]
fn deeper_run_becomes_subtree() {
    let roots = build_structure_by_priority(vec![
        msg(0, "r0"),
        msg(2, "a"),
        msg(4, "a1"),
        msg(3, "a2"),
        msg(2, "b"),
        msg(0, "r1"),
        msg(1, "c"),
    ]);
    let leaf = |level: i32, s: &str| SectionEntry {
        entry: Entry::Message(MessageEntry { message: s.to_string(), indent_level: level }),
        children: vec![],
    };
    let node = |level: i32, s: &str, children: Vec<SectionEntry>| SectionEntry {
        entry: Entry::Message(MessageEntry { message: s.to_string(), indent_level: level }),
        children,
    };
    let expected = vec![
        node(
            0,
            "r0",
            vec![node(2, "a", vec![leaf(4, "a1"), leaf(3, "a2")]), leaf(2, "b")],
        ),
        node(0, "r1", vec![leaf(1, "c")]),
    ];
    assert_eq!(roots, expected);
}

#[test]
fn empty_input_builds_empty_forest() {
    assert_eq!(build_structure_by_priority(vec![]), vec![]);
}

#[test]
fn shallower_first_line_is_still_a_root() {
    let roots = build_structure_by_priority(vec![msg(4, "a"), msg(2, "b"), msg(-1, "c")]);
    assert_eq!(roots.len(), 3);
}

#[test]
fn classify_splits_at_first_colon() {
    assert_eq!(
        Entry::from(msg(2, "  Key one :  a : b  ")),
        Entry::KeyValue(KeyValueEntry {
            key: "Key one".to_string(),
            value: Some("a : b".to_string()),
            indent_level: 2,
        })
    );
    assert_eq!(
        Entry::from(msg(0, "Key :   ")),
        Entry::KeyValue(KeyValueEntry { key: "Key".to_string(), value: None, indent_level: 0 })
    );
    assert_eq!(
        Entry::from(msg(1, "no separator here")),
        Entry::Message(MessageEntry { message: "no separator here".to_string(), indent_level: 1 })
    );
    assert_eq!(Entry::from(msg(7, "k:v")).priority(), 7);
}

#[test]
fn message_dictionary() {
    assert_eq!(msg(3, "plain text").to_dict(), vec![("message".to_string(), text("plain text"))]);
}

#[test]
fn key_normalization() {
    let key = |k: &str| {
        KeyValueEntry { key: k.to_string(), value: None, indent_level: 0 }.normalize_snakecase_key()
    };
    assert_eq!(key("  Min latency (ns) "), "min_latency_ns");
    assert_eq!(key("99.90 percentile latency (ns)"), "99_90_percentile_latency_ns");
    assert_eq!(key("SUT name"), "sut_name");
    assert_eq!(key("ÉCOLE"), "école");
    assert_eq!(key(""), "");
}

#[test]
fn key_normalization_is_idempotent_on_samples() {
    let key = |k: &str| {
        KeyValueEntry { key: k.to_string(), value: None, indent_level: 0 }.normalize_snakecase_key()
    };
    for k in ["Min latency (ns)", " a.b c ", "Result is", "x(y)z", "ALL CAPS", ""] {
        let once = key(k);
        assert_eq!(key(&once), once);
    }
}

#[test]
fn title_normalization_keeps_dots() {
    let table = SectionTable { title: String::new(), entries: vec![] };
    assert_eq!(table.normalize_title(" Test Parameters Used "), "test_parameters_used");
    assert_eq!(table.normalize_title("Stats v1.5 (beta)"), "stats_v1.5_beta");
}

#[test]
fn value_coercion() {
    let coerce = |v: &str| {
        KeyValueEntry { key: String::new(), value: Some(v.to_string()), indent_level: 0 }
            .parse_value()
    };
    assert_eq!(coerce("Yes"), Value::Bool(true));
    assert_eq!(coerce("YES"), Value::Bool(true));
    assert_eq!(coerce("yes"), Value::Bool(true));
    assert_eq!(coerce("True"), Value::Bool(true));
    assert_eq!(coerce("NO"), Value::Bool(false));
    assert_eq!(coerce("false"), Value::Bool(false));
    assert_eq!(coerce("32"), Value::Int(32));
    assert_eq!(coerce("-7"), Value::Int(-7));
    assert_eq!(coerce("+7"), Value::Int(7));
    assert_eq!(coerce("007"), Value::Int(7));
    assert_eq!(coerce("9223372036854775807"), Value::Int(i64::MAX));
    assert_eq!(coerce("-9223372036854775808"), Value::Int(i64::MIN));
    assert_eq!(
        coerce("9223372036854775808"),
        Value::Float("9223372036854775808".to_string())
    );
    assert_eq!(coerce("1234.56"), Value::Float("1234.56".to_string()));
    assert_eq!(coerce("1e5"), Value::Float("1e5".to_string()));
    assert_eq!(coerce(".5"), Value::Float(".5".to_string()));
    assert_eq!(coerce("5."), Value::Float("5.".to_string()));
    assert_eq!(coerce("-inf"), Value::Float("-inf".to_string()));
    assert_eq!(coerce("NaN"), Value::Float("NaN".to_string()));
    assert_eq!(coerce("Infinity"), Value::Float("Infinity".to_string()));
    assert_eq!(coerce("INT8"), text("INT8"));
    assert_eq!(coerce("99%"), text("99%"));
    assert_eq!(coerce("."), text("."));
    assert_eq!(coerce("1e"), text("1e"));
    assert_eq!(coerce("e5"), text("e5"));
    assert_eq!(coerce("+"), text("+"));
    assert_eq!(coerce("1.2.3"), text("1.2.3"));
    assert_eq!(coerce(" 1"), text(" 1"));
    assert_eq!(coerce(""), text(""));
    let none = KeyValueEntry { key: String::new(), value: None, indent_level: 0 };
    assert_eq!(none.parse_value(), Value::Null);
}

#[test]
fn float_literals_agree_with_the_standard_parser() {
    let coerce = |v: &str| {
        KeyValueEntry { key: String::new(), value: Some(v.to_string()), indent_level: 0 }
            .parse_value()
    };
    for s in [
        "1.5", "1e5", "1E-5", "1e+5", ".5", "5.", ".", "", "+", "-", "inf", "-INF", "infinity",
        "nan", "+NaN", "1e", "e5", "1.e5", ".e5", "1..2", "0x10", "1_000", "1e5.5", "infinit",
        "12345678901234567890", "-.5e-3", "1 ", "--1",
    ] {
        let is_int = s.parse::<i64>().is_ok();
        let is_float = s.parse::<f64>().is_ok();
        let expected = if is_int {
            Value::Int(s.parse::<i64>().unwrap())
        } else if is_float {
            Value::Float(s.to_string())
        } else {
            Value::Text(s.to_string())
        };
        assert_eq!(coerce(s), expected, "for {:?}", s);
    }
}

#[test]
fn notes_accumulate_in_order() {
    let value = summary_to_value("Notes: A.\nNotes: B.\n").unwrap();
    assert_eq!(
        value,
        dict(vec![("note", Value::List(vec![text("Notes: A."), text("Notes: B.")]))]),
    );
    let value = summary_to_value("first note\nsecond note\nthird note\n").unwrap();
    assert_eq!(
        value,
        dict(vec![(
            "note",
            Value::List(vec![text("first note"), text("second note"), text("third note")])
        )])
    );
}

#[test]
fn single_note_stays_scalar() {
    let value = summary_to_value("only one note\n").unwrap();
    assert_eq!(value, dict(vec![("note", text("only one note"))]));
}

#[test]
fn nested_notes_accumulate_within_their_scope() {
    let input = "====\nT\n====\nparent : 1\n  first\n  second\nlone\n";
    let value = summary_to_value(input).unwrap();
    assert_eq!(
        value,
        dict(vec![(
            "t",
            dict(vec![
                (
                    "parent",
                    dict(vec![
                        ("value", Value::Int(1)),
                        ("details", dict(vec![("note", Value::List(vec![text("first"), text("second")]))])),
                    ])
                ),
                ("note", text("lone")),
            ])
        )])
    );
}

#[test]
fn round_trip_section() {
    let input = "================\nTest Parameters Used\n================\nBatch size : 32\nData type : INT8\n";
    let value = summary_to_value(input).unwrap();
    assert_eq!(
        value,
        dict(vec![(
            "test_parameters_used",
            dict(vec![("batch_size", Value::Int(32)), ("data_type", text("INT8"))])
        )])
    );
}

#[test]
fn nested_section() {
    let input = "=====\nS\n=====\nMode : PerformanceOnly\n  Min duration satisfied : NO\n";
    let value = summary_to_value(input).unwrap();
    assert_eq!(
        value,
        dict(vec![(
            "s",
            dict(vec![(
                "mode",
                dict(vec![
                    ("value", text("PerformanceOnly")),
                    ("details", dict(vec![("min_duration_satisfied", Value::Bool(false))])),
                ])
            )])
        )])
    );
}

#[test]
fn key_without_value_and_with_children_omits_value() {
    let input = "=====\nS\n=====\nGroup :\n  a : 1\nEmpty :\n";
    let value = summary_to_value(input).unwrap();
    assert_eq!(
        value,
        dict(vec![(
            "s",
            dict(vec![
                ("group", dict(vec![("details", dict(vec![("a", Value::Int(1))]))])),
                ("empty", Value::Null),
            ])
        )])
    );
}

#[test]
fn note_with_children_gets_details() {
    let input = "=====\nS\n=====\nheading\n  a : 1\n";
    let value = summary_to_value(input).unwrap();
    assert_eq!(
        value,
        dict(vec![(
            "s",
            dict(vec![("note", text("heading")), ("details", dict(vec![("a", Value::Int(1))]))])
        )])
    );
}

#[test]
fn repeated_key_keeps_last_value_in_place() {
    let input = "=====\nS\n=====\na : 1\nb : 2\na : 3\n";
    let value = summary_to_value(input).unwrap();
    assert_eq!(
        value,
        dict(vec![("s", dict(vec![("a", Value::Int(3)), ("b", Value::Int(2))]))])
    );
}

#[test]
fn two_floating_notes() {
    let value = summary_to_value("Notes A.\n\nNotes B.\n\n").unwrap();
    assert_eq!(
        value,
        dict(vec![("note", Value::List(vec![text("Notes A."), text("Notes B.")]))])
    );
}

#[test]
fn missing_second_separator_is_a_structural_failure() {
    let input = "\n=====\nTitle\nkey : value\n\n";
    let err = parse_log_summary(input).unwrap_err();
    assert_eq!(
        err,
        "Parse error at line 4, word 'key' (position 0): unexpected token at offset 13"
    );
    assert!(summary_to_value(input).is_err());
}

#[test]
fn separator_where_title_expected_is_a_structural_failure() {
    let err = parse_log_summary("====\n====\nTitle\n").unwrap_err();
    assert_eq!(
        err,
        "Parse error at line 2, word '====' (position 0): unexpected token at offset 5"
    );
}

#[test]
fn separator_inside_a_block_is_a_structural_failure() {
    let err = parse_log_summary("====\nT\n====\na : 1\n====\nU\n====\n").unwrap_err();
    assert_eq!(
        err,
        "Parse error at line 5, word '====' (position 0): unexpected token at offset 18"
    );
}

#[test]
fn title_at_end_of_input_is_a_structural_failure() {
    let err = parse_log_summary("====\nTitle\n").unwrap_err();
    assert_eq!(
        err,
        "Parse error at line 3, word '<unknown>' (position 0): unexpected token at offset 11"
    );
    let parser = LogSummaryParser::new();
    assert_eq!(
        parser.parse(Lexer::new("====\nTitle\n")),
        Err(ParseError { location: 11 })
    );
}

#[test]
fn empty_input_is_an_empty_document() {
    assert_eq!(parse_log_summary("").unwrap(), Document { sections: vec![] });
    assert_eq!(parse_log_summary("\n\n\n").unwrap(), Document { sections: vec![] });
    assert_eq!(summary_to_value("").unwrap(), Value::Dict(vec![]));
}

#[test]
fn document_shape() {
    let doc = parse_log_summary("intro\n\n====\nT\n====\n  a : 1\n    b\n").unwrap();
    assert_eq!(
        doc,
        Document {
            sections: vec![
                Section::Note(SectionNote { message: msg(0, "intro") }),
                Section::Table(SectionTable {
                    title: "T".to_string(),
                    entries: vec![SectionEntry {
                        entry: Entry::KeyValue(KeyValueEntry {
                            key: "a".to_string(),
                            value: Some("1".to_string()),
                            indent_level: 2,
                        }),
                        children: vec![SectionEntry {
                            entry: Entry::Message(MessageEntry {
                                message: "b".to_string(),
                                indent_level: 4,
                            }),
                            children: vec![],
                        }],
                    }],
                }),
            ],
        }
    );
}

#[test]
fn lexer_classifies_lines() {
    let tokens = tokens_of("====\nTitle\r\n===\n\n\r\n\n  key : v\n==\nlast");
    assert_eq!(
        tokens,
        vec![
            (0, Token::SectionSeparatorLine(loc("====", 1, 0)), 5),
            (5, Token::Line(loc("Title", 2, 0)), 12),
            (12, Token::SectionSeparatorLine(loc("===", 3, 0)), 16),
            (16, Token::EndOfSection(3, loc("", 6, 0)), 20),
            (20, Token::Line(loc("  key : v", 7, 2)), 30),
            (30, Token::Line(loc("==", 8, 0)), 33),
            (33, Token::Line(loc("last", 9, 0)), 37),
            (0, Token::EOF, 0),
        ]
    );
}

#[test]
fn lexer_tokens_cover_the_input() {
    let input = "a\n\n\n====\nb\r\n\r\nc";
    let tokens = tokens_of(input);
    let mut at = 0;
    for (start, token, end) in &tokens {
        if *token == Token::EOF {
            break;
        }
        assert_eq!(*start, at);
        assert!(*end > *start);
        at = *end;
    }
    assert_eq!(at, input.chars().count());
}

#[test]
fn lexer_ends_once() {
    let mut lexer = Lexer::new("x\n");
    assert_eq!(lexer.next(), Some(Ok((0, Token::Line(loc("x", 1, 0)), 2))));
    assert_eq!(lexer.next(), Some(Ok((0, Token::EOF, 0))));
    assert_eq!(lexer.next(), None);
    assert_eq!(lexer.next(), None);
    let mut empty = Lexer::new("");
    assert_eq!(empty.next(), Some(Ok((0, Token::EOF, 0))));
    assert_eq!(empty.next(), None);
}

#[test]
fn lexer_separator_needs_three_signs_alone() {
    assert_eq!(tokens_of("==\n")[0].1, Token::Line(loc("==", 1, 0)));
    assert_eq!(tokens_of("===\n")[0].1, Token::SectionSeparatorLine(loc("===", 1, 0)));
    assert_eq!(tokens_of("=== \n")[0].1, Token::Line(loc("=== ", 1, 0)));
    assert_eq!(tokens_of(" ===\n")[0].1, Token::Line(loc(" ===", 1, 1)));
    assert_eq!(tokens_of("===")[0].1, Token::SectionSeparatorLine(loc("===", 1, 0)));
}

#[test]
fn lexical_error_default() {
    assert_eq!(LexicalError::default(), LexicalError::InvalidToken);
}

#[test]
fn remove_last_char_drops_one_character() {
    assert_eq!(remove_last_char("abc\n"), "abc");
    assert_eq!(remove_last_char("é"), "");
}

#[test]
fn ensure_terminated_adds_blank_line_once() {
    assert_eq!(ensure_terminated("a"), "a\n\n");
    assert_eq!(ensure_terminated("a\n"), "a\n\n\n");
    assert_eq!(ensure_terminated("a\n\n"), "a\n\n");
    assert_eq!(ensure_terminated(""), "\n\n");
}

#[test]
fn output_format_names() {
    assert_eq!(output_format("json"), Some(OutputFormat::Json));
    assert_eq!(output_format("yaml"), Some(OutputFormat::Yaml));
    assert_eq!(output_format("JSON"), None);
    assert_eq!(output_format(""), None);
}
