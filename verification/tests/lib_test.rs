use mlperf_log_parser::log_detail::{detail_lines, DetailLine};
use mlperf_log_parser::log_summary::summary_to_value;
use mlperf_log_parser::log_summary::value::Value;
use mlperf_log_parser::summary::parse_mlperf_results;

const SUMMARY: &str = "================================================
MLPerf Results Summary
================================================
SUT name : Sample System
Scenario : Offline
Mode     : Performance
Samples per second: 1234.56
Result is : VALID
  Min duration satisfied : Yes
  Min queries satisfied : Yes
  Early stopping satisfied: Yes

================================================
Additional Stats
================================================
Min latency (ns)                : 123456
Max latency (ns)                : 789012
Mean latency (ns)               : 345678
50.00 percentile latency (ns)   : 234567
90.00 percentile latency (ns)   : 456789
95.00 percentile latency (ns)   : 567890
97.00 percentile latency (ns)   : 678901
99.00 percentile latency (ns)   : 789012
99.90 percentile latency (ns)   : 890123

================================================
Test Parameters Used
================================================
Batch size : 32
Data type : INT8
Dataset : ImageNet
Model : ResNet50 v1.5
Quality target : 99%
Target latency (ns): 10000000

Notes: This is a sample result file for testing purposes.
";

fn text(s: &str) -> Value {
    Value::Text(s.to_string())
}

#[test]
fn test_parse_mlperf_results() {
    let result = summary_to_value(SUMMARY).unwrap();

    let mlperf_summary = result.get("mlperf_results_summary").unwrap();
    assert_eq!(mlperf_summary.get("sut_name"), Some(&text("Sample System")));
    assert_eq!(mlperf_summary.get("scenario"), Some(&text("Offline")));
    assert_eq!(mlperf_summary.get("mode"), Some(&text("Performance")));
    match mlperf_summary.get("samples_per_second") {
        Some(Value::Float(literal)) => assert_eq!(literal.parse::<f64>().unwrap(), 1234.56),
        other => panic!("unexpected {:?}", other),
    }

    let result_map = mlperf_summary.get("result_is").unwrap();
    assert_eq!(result_map.get("value"), Some(&text("VALID")));
    let details = result_map.get("details").unwrap();
    assert_eq!(details.get("min_duration_satisfied"), Some(&Value::Bool(true)));
    assert_eq!(details.get("min_queries_satisfied"), Some(&Value::Bool(true)));
    assert_eq!(details.get("early_stopping_satisfied"), Some(&Value::Bool(true)));

    let additional_stats = result.get("additional_stats").unwrap();
    assert_eq!(additional_stats.get("min_latency_ns"), Some(&Value::Int(123456)));
    assert_eq!(additional_stats.get("max_latency_ns"), Some(&Value::Int(789012)));
    assert_eq!(additional_stats.get("mean_latency_ns"), Some(&Value::Int(345678)));
    assert_eq!(additional_stats.get("50_00_percentile_latency_ns"), Some(&Value::Int(234567)));
    assert_eq!(additional_stats.get("90_00_percentile_latency_ns"), Some(&Value::Int(456789)));
    assert_eq!(additional_stats.get("95_00_percentile_latency_ns"), Some(&Value::Int(567890)));
    assert_eq!(additional_stats.get("97_00_percentile_latency_ns"), Some(&Value::Int(678901)));
    assert_eq!(additional_stats.get("99_00_percentile_latency_ns"), Some(&Value::Int(789012)));
    assert_eq!(additional_stats.get("99_90_percentile_latency_ns"), Some(&Value::Int(890123)));

    let test_params = result.get("test_parameters_used").unwrap();
    assert_eq!(test_params.get("batch_size"), Some(&Value::Int(32)));
    assert_eq!(test_params.get("data_type"), Some(&text("INT8")));
    assert_eq!(test_params.get("dataset"), Some(&text("ImageNet")));
    assert_eq!(test_params.get("model"), Some(&text("ResNet50 v1.5")));
    assert_eq!(test_params.get("quality_target"), Some(&text("99%")));
    assert_eq!(test_params.get("target_latency_ns"), Some(&Value::Int(10000000)));

    if let Some(Value::List(notes)) = result.get("note") {
        assert_eq!(notes.len(), 1);
        assert_eq!(
            notes[0],
            text("Notes: This is a sample result file for testing purposes.")
        );
    }
    assert_eq!(
        result.get("note"),
        Some(&text("Notes: This is a sample result file for testing purposes."))
    );
}

#[test]
fn test_mlperf_log_parser() {
    let log = ":::MLLOG {\"key\": \"a\", \"value\": 1}\r\nnoise\n:::MLLOG{\"key\": \"b\"}\n\n:::MLLOG \n:::MLLOG {\"key\": \"c\"}";
    let summary = detail_lines(log);
    assert_eq!(
        summary,
        vec![
            DetailLine::Payload("{\"key\": \"a\", \"value\": 1}".to_string()),
            DetailLine::Invalid,
            DetailLine::Bare,
            DetailLine::Invalid,
            DetailLine::Payload(String::new()),
            DetailLine::Payload("{\"key\": \"c\"}".to_string()),
        ]
    );
    assert_eq!(detail_lines(""), vec![]);
    assert_eq!(detail_lines("\n"), vec![DetailLine::Invalid]);
    assert_eq!(detail_lines(":::MLLOG"), vec![DetailLine::Bare]);
    assert_eq!(detail_lines(":::MLLO"), vec![DetailLine::Invalid]);
}

fn dict(entries: Vec<(&str, Value)>) -> Value {
    Value::Dict(entries.into_iter().map(|(k, v)| (k.to_string(), v)).collect())
}

#[test]
fn flat_reading_fills_the_fixed_sections() {
    let result = parse_mlperf_results(SUMMARY);
    assert_eq!(
        result,
        dict(vec![
            (
                "additional_stats",
                dict(vec![
                    ("min_latency_ns", Value::Int(123456)),
                    ("max_latency_ns", Value::Int(789012)),
                    ("mean_latency_ns", Value::Int(345678)),
                    ("p50_latency_ns", Value::Int(234567)),
                    ("p90_latency_ns", Value::Int(456789)),
                    ("p95_latency_ns", Value::Int(567890)),
                    ("p97_latency_ns", Value::Int(678901)),
                    ("p99_latency_ns", Value::Int(789012)),
                    ("p999_latency_ns", Value::Int(890123)),
                ])
            ),
            (
                "message",
                Value::List(vec![text(
                    "Notes: This is a sample result file for testing purposes."
                )])
            ),
            (
                "mlperf_result_summary",
                dict(vec![
                    ("sut_name", text("Sample System")),
                    ("scenario", text("Offline")),
                    ("mode", text("Performance")),
                    ("samples_per_second", Value::Float("1234.56".to_string())),
                    (
                        "result",
                        dict(vec![
                            ("state", text("VALID")),
                            ("min_duration_satisfied", Value::Bool(true)),
                            ("min_queries_satisfied", Value::Bool(true)),
                            ("early_stopping_satisfied", Value::Bool(true)),
                        ])
                    ),
                ])
            ),
            (
                "test_parameters_used",
                dict(vec![
                    ("batch_size", Value::Int(32)),
                    ("data_type", text("INT8")),
                    ("dataset", text("ImageNet")),
                    ("model", text("ResNet50 v1.5")),
                    ("quality_target", text("99%")),
                    ("target_latency_ns", Value::Int(10000000)),
                ])
            ),
        ])
    );
}

#[test]
fn flat_reading_of_odd_lines() {
    let empty = |messages: Vec<Value>| {
        dict(vec![
            ("additional_stats", dict(vec![])),
            ("message", Value::List(messages)),
            ("mlperf_result_summary", dict(vec![])),
            ("test_parameters_used", dict(vec![])),
        ])
    };
    assert_eq!(parse_mlperf_results(""), empty(vec![]));
    assert_eq!(
        parse_mlperf_results("  hello : there \r\n===\n\nlast"),
        empty(vec![text("hello : there"), text("last")])
    );
    let result = parse_mlperf_results(
        "MLPerf Results Summary\nMin duration satisfied : Yes\nno colon here\nA (b) : 1\nA (b) : 2\n\nTest Parameters Used (x)\nk:\n",
    );
    assert_eq!(
        result,
        dict(vec![
            ("additional_stats", dict(vec![])),
            ("message", Value::List(vec![])),
            ("mlperf_result_summary", dict(vec![("a_b", Value::Int(2))])),
            ("test_parameters_used", dict(vec![("k", text(""))])),
        ])
    );
}
