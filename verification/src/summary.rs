//! A flat reading of a summary log: one pass over the lines that fills three
//! fixed sections and a list of messages, without regard to indentation.

use crate::log_summary::value::{
    coerced, data_of, find_key, has_key, lemma_dict_view, lemma_key_index, lemma_list_view, lookup,
    pairs_of, parse_value, put, put_entry, Datum, Value,
};
use crate::text::{
    chars_of, copy_range, ends_with, find_char, first_index, has_prefix, has_suffix, lines_from,
    lines_of, normalize, normalized, replace_all, replaced, split_lines, starts_with, string_of,
    trim_bounds, trimmed,
};
use vstd::prelude::*;

verus! {

/// The section that the lines being read belong to.
#[derive(Debug, Clone, Copy, PartialEq, Eq)]
pub enum Scope {
    Outside,
    Results,
    Stats,
    Parameters,
}

/// The state of the reading: the three sections, the messages, and the
/// section that the next line belongs to.
pub struct Flat {
    pub results: Seq<(Seq<char>, Datum)>,
    pub stats: Seq<(Seq<char>, Datum)>,
    pub parameters: Seq<(Seq<char>, Datum)>,
    pub messages: Seq<Datum>,
    pub scope: Scope,
}

/// The state before the first line.
pub open spec fn flat_start() -> Flat {
    Flat {
        results: Seq::empty(),
        stats: Seq::empty(),
        parameters: Seq::empty(),
        messages: Seq::empty(),
        scope: Scope::Outside,
    }
}

/// The key of a statistic: percentiles are abbreviated (`50.00` to `p50`
/// and so on, `99.90` to `p999`) and the word `_percentile` is dropped.
pub open spec fn stat_key(k: Seq<char>) -> Seq<char> {
    let a = replaced(k, "50.00"@, "p50"@);
    let b = replaced(a, "90.00"@, "p90"@);
    let c = replaced(b, "95.00"@, "p95"@);
    let d = replaced(c, "97.00"@, "p97"@);
    let e = replaced(d, "99.00"@, "p99"@);
    let f = replaced(e, "99.90"@, "p999"@);
    replaced(f, "_percentile"@, ""@)
}

/// The result entry that a `Result is` line opens: the state as written,
/// and the three conditions not yet satisfied.
pub open spec fn opened_result(state: Seq<char>) -> Seq<(Seq<char>, Datum)> {
    seq![
        ("state"@, Datum::Text(state)),
        ("min_duration_satisfied"@, Datum::Bool(false)),
        ("min_queries_satisfied"@, Datum::Bool(false)),
        ("early_stopping_satisfied"@, Datum::Bool(false)),
    ]
}

/// The results section after a `key: value` line. `result_is` opens the
/// result entry; a key that ends in `_satisfied` goes into the result entry
/// where one is open, and is dropped where none is; any other key is set in
/// the section itself.
pub open spec fn results_after(
    results: Seq<(Seq<char>, Datum)>,
    key: Seq<char>,
    value: Seq<char>,
) -> Seq<(Seq<char>, Datum)> {
    if key == "result_is"@ {
        put(results, "result"@, Datum::Dict(opened_result(value)))
    } else if ends_with(key, "_satisfied"@) {
        if has_key(results, "result"@) && lookup(results, "result"@) is Dict {
            put(
                results,
                "result"@,
                Datum::Dict(put(lookup(results, "result"@)->Dict_0, key, coerced(Some(value)))),
            )
        } else {
            results
        }
    } else {
        put(results, key, coerced(Some(value)))
    }
}

/// The state after one more line. The trimmed line names a section, is a
/// separator (ignored), is empty (which leaves the section), is a message
/// (outside any section), or is split at its first colon into a key in
/// normal form and a coerced value; a line in a section without a colon is
/// ignored.
pub open spec fn flat_step(st: Flat, raw: Seq<char>) -> Flat {
    let line = trimmed(raw);
    let i = first_index(line, ':');
    let key = normalized(line.take(i), false);
    let value = trimmed(line.skip(i + 1));
    if starts_with(line, "MLPerf Results Summary"@) {
        Flat { scope: Scope::Results, ..st }
    } else if starts_with(line, "Additional Stats"@) {
        Flat { scope: Scope::Stats, ..st }
    } else if starts_with(line, "Test Parameters Used"@) {
        Flat { scope: Scope::Parameters, ..st }
    } else if starts_with(line, "==="@) {
        st
    } else if line.len() == 0 {
        Flat { scope: Scope::Outside, ..st }
    } else if st.scope == Scope::Outside {
        Flat { messages: st.messages.push(Datum::Text(line)), ..st }
    } else if i >= line.len() {
        st
    } else {
        match st.scope {
            Scope::Stats => Flat {
                stats: put(st.stats, stat_key(key), coerced(Some(value))),
                ..st
            },
            Scope::Results => Flat { results: results_after(st.results, key, value), ..st },
            _ => Flat { parameters: put(st.parameters, key, coerced(Some(value))), ..st },
        }
    }
}

/// The state after the given lines, read in order from `st`.
pub open spec fn flat_fold(st: Flat, lines: Seq<Seq<char>>) -> Flat
    decreases lines.len(),
{
    if lines.len() == 0 {
        st
    } else {
        flat_step(flat_fold(st, lines.drop_last()), lines.last())
    }
}

/// The dictionary that a state stands for.
pub open spec fn flat_value(st: Flat) -> Datum {
    Datum::Dict(
        seq![
            ("additional_stats"@, Datum::Dict(st.stats)),
            ("message"@, Datum::List(st.messages)),
            ("mlperf_result_summary"@, Datum::Dict(st.results)),
            ("test_parameters_used"@, Datum::Dict(st.parameters)),
        ],
    )
}

fn stat_key_of(key: &Vec<char>) -> (r: Vec<char>)
    ensures
        r@ == stat_key(key@),
{
    let a = replace_all(key, "50.00", "p50");
    let b = replace_all(&a, "90.00", "p90");
    let c = replace_all(&b, "95.00", "p95");
    let d = replace_all(&c, "97.00", "p97");
    let e = replace_all(&d, "99.00", "p99");
    let f = replace_all(&e, "99.90", "p999");
    replace_all(&f, "_percentile", "")
}

fn open_result(state: &str) -> (r: Value)
    ensures
        r@ == Datum::Dict(opened_result(state@)),
{
    let mut d: Vec<(String, Value)> = Vec::new();
    d.push((String::from_str("state"), Value::Text(String::from_str(state))));
    d.push((String::from_str("min_duration_satisfied"), Value::Bool(false)));
    d.push((String::from_str("min_queries_satisfied"), Value::Bool(false)));
    d.push((String::from_str("early_stopping_satisfied"), Value::Bool(false)));
    proof {
        lemma_dict_view(d);
        assert(pairs_of(d@) =~= opened_result(state@));
    }
    Value::Dict(d)
}

fn update_results(results: &mut Vec<(String, Value)>, key: &Vec<char>, value: &str)
    ensures
        pairs_of(final(results)@) == results_after(pairs_of(old(results)@), key@, value@),
{
    let ghost before = pairs_of(results@);
    if string_of(key).eq(&String::from_str("result_is")) {
        put_entry(results, String::from_str("result"), open_result(value));
    } else if has_suffix(key, "_satisfied") {
        let name = String::from_str("result");
        let i = find_key(results, &name);
        proof {
            lemma_key_index(before, name@);
        }
        if i < results.len() {
            let held = results.remove(i);
            match held.1 {
                Value::Dict(inner) => {
                    let mut inner = inner;
                    proof {
                        lemma_dict_view(inner);
                    }
                    put_entry(&mut inner, string_of(key), parse_value(value));
                    proof {
                        lemma_dict_view(inner);
                    }
                    results.insert(i, (held.0, Value::Dict(inner)));
                    proof {
                        assert(pairs_of(results@) =~= before.update(
                            i as int,
                            (name@, Value::Dict(inner)@),
                        ));
                    }
                },
                other => {
                    results.insert(i, (held.0, other));
                    proof {
                        assert(pairs_of(results@) =~= before);
                    }
                },
            }
        }
    } else {
        put_entry(results, string_of(key), parse_value(value));
    }
}

/// Reads one more line into the sections and returns the section that the
/// next line belongs to.
fn read_line(
    results: &mut Vec<(String, Value)>,
    stats: &mut Vec<(String, Value)>,
    parameters: &mut Vec<(String, Value)>,
    messages: &mut Vec<Value>,
    scope: Scope,
    raw: &Vec<char>,
) -> (next: Scope)
    ensures
        (Flat {
            results: pairs_of(final(results)@),
            stats: pairs_of(final(stats)@),
            parameters: pairs_of(final(parameters)@),
            messages: data_of(final(messages)@),
            scope: next,
        }) == flat_step(
            Flat {
                results: pairs_of(old(results)@),
                stats: pairs_of(old(stats)@),
                parameters: pairs_of(old(parameters)@),
                messages: data_of(old(messages)@),
                scope,
            },
            raw@,
        ),
{
    let (a, b) = trim_bounds(raw, 0, raw.len());
    proof {
        assert(raw@.subrange(0, raw.len() as int) =~= raw@);
    }
    let line = copy_range(raw, a, b);
    if has_prefix(&line, "MLPerf Results Summary") {
        return Scope::Results;
    }
    if has_prefix(&line, "Additional Stats") {
        return Scope::Stats;
    }
    if has_prefix(&line, "Test Parameters Used") {
        return Scope::Parameters;
    }
    if has_prefix(&line, "===") {
        return scope;
    }
    if line.len() == 0 {
        return Scope::Outside;
    }
    let n = line.len();
    match scope {
        Scope::Outside => {
            let ghost before = data_of(messages@);
            messages.push(Value::Text(string_of(&line)));
            proof {
                assert(data_of(messages@) =~= before.push(Datum::Text(line@)));
            }
            return scope;
        },
        _ => {},
    }
    let i = find_char(&line, 0, n, ':');
    proof {
        assert(line@.subrange(0, n as int) =~= line@);
    }
    if i >= n {
        return scope;
    }
    let raw_key = string_of(&copy_range(&line, 0, i));
    let (va, vb) = trim_bounds(&line, i + 1, n);
    let value = string_of(&copy_range(&line, va, vb));
    proof {
        assert(line@.subrange(0, i as int) =~= line@.take(i as int));
        assert(line@.subrange(i + 1, n as int) =~= line@.skip(i + 1));
    }
    let key = chars_of(normalize(raw_key.as_str(), false).as_str());
    match scope {
        Scope::Stats => {
            put_entry(stats, string_of(&stat_key_of(&key)), parse_value(value.as_str()));
        },
        Scope::Results => {
            update_results(results, &key, value.as_str());
        },
        _ => {
            put_entry(parameters, string_of(&key), parse_value(value.as_str()));
        },
    }
    scope
}

/// Reads a summary log line by line into a dictionary of the three sections
/// `mlperf_result_summary`, `additional_stats` and `test_parameters_used`
/// and the list `message` of the lines outside any section.
pub fn parse_mlperf_results(text: &str) -> (r: Value)
    ensures
        r@ == flat_value(flat_fold(flat_start(), lines_from(text@, 0))),
{
    let lines = split_lines(text);
    let ghost all = lines_of(lines@);
    let mut results: Vec<(String, Value)> = Vec::new();
    let mut stats: Vec<(String, Value)> = Vec::new();
    let mut parameters: Vec<(String, Value)> = Vec::new();
    let mut messages: Vec<Value> = Vec::new();
    let mut scope = Scope::Outside;
    let mut i: usize = 0;
    proof {
        assert(all.take(0) =~= Seq::<Seq<char>>::empty());
        assert(pairs_of(results@) =~= Seq::empty());
        assert(pairs_of(stats@) =~= Seq::empty());
        assert(pairs_of(parameters@) =~= Seq::empty());
        assert(data_of(messages@) =~= Seq::empty());
    }
    while i < lines.len()
        invariant
            i <= lines.len(),
            all == lines_of(lines@),
            (Flat {
                results: pairs_of(results@),
                stats: pairs_of(stats@),
                parameters: pairs_of(parameters@),
                messages: data_of(messages@),
                scope,
            }) == flat_fold(flat_start(), all.take(i as int)),
        decreases lines.len() - i,
    {
        proof {
            assert(all.take(i + 1).drop_last() =~= all.take(i as int));
            assert(all.take(i + 1).last() == lines@[i as int]@);
        }
        scope = read_line(&mut results, &mut stats, &mut parameters, &mut messages, scope, &lines[i]);
        i += 1;
    }
    proof {
        assert(all.take(lines.len() as int) =~= all);
        lemma_dict_view(results);
        lemma_dict_view(stats);
        lemma_dict_view(parameters);
        lemma_list_view(messages);
    }
    let mut out: Vec<(String, Value)> = Vec::new();
    out.push((String::from_str("additional_stats"), Value::Dict(stats)));
    out.push((String::from_str("message"), Value::List(messages)));
    out.push((String::from_str("mlperf_result_summary"), Value::Dict(results)));
    out.push((String::from_str("test_parameters_used"), Value::Dict(parameters)));
    proof {
        lemma_dict_view(out);
        assert(pairs_of(out@) =~= flat_value(flat_fold(flat_start(), all))->Dict_0);
    }
    Value::Dict(out)
}

} // verus!
