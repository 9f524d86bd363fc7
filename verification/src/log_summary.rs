//! The summary-log pipeline: tokens, sections, entry trees and their
//! reduction to nested values.

pub mod grammar;
pub mod lexer;
pub mod model;
pub mod nesting;
pub mod reduce;
pub mod spine;
pub mod value;

use crate::log_summary::grammar::{
    drain, failure_location, parse_tokens, parsed, spanned, Parsed,
};
use crate::log_summary::lexer::{lemma_token_extent, token_end, token_lines, Lexer};
use crate::log_summary::model::Document;
use crate::log_summary::reduce::document_dict;
use crate::log_summary::value::{lemma_dict_view, Datum, Value};
use crate::text::{
    chars_of, copy_range, find_char, is_space, is_space_char, lemma_first_index, line_text_end,
    string_of,
};
use vstd::prelude::*;

verus! {

/// Number of `\n` in `s`.
pub open spec fn newlines_in(s: Seq<char>) -> int
    decreases s.len(),
{
    if s.len() == 0 {
        0
    } else {
        newlines_in(s.drop_last()) + if s.last() == '\n' {
            1int
        } else {
            0int
        }
    }
}

/// Start of the line that holds position `p`: the position after the last
/// `\n` before `p`, or the start of the text.
pub open spec fn line_start(s: Seq<char>, p: int) -> int
    decreases p,
{
    if p <= 0 {
        0
    } else if s[p - 1] == '\n' {
        p
    } else {
        line_start(s, p - 1)
    }
}

/// End of the run of white space of `s` that starts at `i`.
pub open spec fn space_end(s: Seq<char>, i: int) -> int
    decreases s.len() - i,
{
    if 0 <= i < s.len() && is_space(s[i]) {
        space_end(s, i + 1)
    } else {
        i
    }
}

/// End of the run of characters other than white space that starts at `i`.
pub open spec fn word_end(s: Seq<char>, i: int) -> int
    decreases s.len() - i,
{
    if 0 <= i < s.len() && !is_space(s[i]) {
        word_end(s, i + 1)
    } else {
        i
    }
}

/// A run of white space, and a word, end at or after their start and inside
/// the text; a word that starts on a character of its own is not empty.
pub proof fn lemma_runs(s: Seq<char>, i: int)
    requires
        0 <= i <= s.len(),
    ensures
        i <= space_end(s, i) <= s.len(),
        i <= word_end(s, i) <= s.len(),
        i < s.len() && !is_space(s[i]) ==> i < word_end(s, i),
        space_end(s, i) < s.len() ==> !is_space(s[space_end(s, i)]),
    decreases s.len() - i,
{
    if i < s.len() {
        lemma_runs(s, i + 1);
    }
}

/// The `k`-th word of `s`, counted from zero and looked for from position
/// `i` on, where words are separated by white space; `None` where `s` has
/// fewer words.
pub open spec fn nth_word(s: Seq<char>, i: int, k: int) -> Option<Seq<char>>
    decreases s.len() - i,
    via nth_word_decreases
{
    let a = space_end(s, i);
    if i < 0 || a >= s.len() {
        None
    } else if k <= 0 {
        Some(s.subrange(a, word_end(s, a)))
    } else {
        nth_word(s, word_end(s, a), k - 1)
    }
}

#[via_fn]
proof fn nth_word_decreases(s: Seq<char>, i: int, k: int) {
    if 0 <= i <= s.len() {
        lemma_runs(s, i);
        let a = space_end(s, i);
        if a < s.len() {
            lemma_runs(s, a);
        }
    }
}

/// The character of the decimal digit `d`.
pub open spec fn digit_char(d: int) -> char {
    ((48 + d) as u8) as char
}

/// `n` written in decimal.
pub open spec fn decimal_text(n: int) -> Seq<char>
    decreases n,
{
    if n < 10 {
        seq![digit_char(n)]
    } else {
        decimal_text(n / 10).push(digit_char(n % 10))
    }
}

/// Writes a number in decimal.
pub fn decimal(n: u128) -> (r: Vec<char>)
    ensures
        r@ == decimal_text(n as int),
    decreases n,
{
    if n < 10 {
        let mut r: Vec<char> = Vec::new();
        r.push((48 + n as u8) as char);
        assert(r@ =~= seq![digit_char(n as int)]);
        r
    } else {
        let mut r = decimal(n / 10);
        r.push((48 + (n % 10) as u8) as char);
        r
    }
}

/// Where a structural error lies, for the reader of a message: the number
/// of lines before the line that holds the offending position, the offset of
/// that position within its line, and the word of that line that the offset
/// points at.
#[derive(Debug, Clone, PartialEq)]
pub struct Diagnostic {
    pub lines_before: usize,
    pub position: usize,
    pub word: String,
    pub location: usize,
}

/// The text of the line that starts at `start`, without its terminator.
pub open spec fn line_at(s: Seq<char>, start: int) -> Seq<char> {
    s.subrange(start, line_text_end(s, start))
}

/// The word that stands for a position within a line: the word numbered
/// half the offset, or `<unknown>` where the line has no such word.
pub open spec fn pointed_word(line: Seq<char>, position: int) -> Seq<char> {
    match nth_word(line, 0, position / 2) {
        Some(w) => w,
        None => "<unknown>"@,
    }
}

fn find_word(line: &Vec<char>, k: usize) -> (r: Option<(usize, usize)>)
    ensures
        match r {
            Some((a, b)) => a <= b <= line.len() && nth_word(line@, 0, k as int) == Some(
                line@.subrange(a as int, b as int),
            ),
            None => nth_word(line@, 0, k as int) is None,
        },
{
    let n = line.len();
    let mut i: usize = 0;
    let mut left = k;
    let ghost goal = nth_word(line@, 0, k as int);
    loop
        invariant
            i <= n,
            n == line.len(),
            goal == nth_word(line@, 0, k as int),
            nth_word(line@, i as int, left as int) == goal,
        decreases n - i,
    {
        let ghost from = i;
        let mut a: usize = i;
        while a < n && is_space_char(line[a])
            invariant
                i <= a <= n,
                n == line.len(),
                space_end(line@, a as int) == space_end(line@, i as int),
            decreases n - a,
        {
            a += 1;
        }
        if a >= n {
            return None;
        }
        let mut b: usize = a;
        while b < n && !is_space_char(line[b])
            invariant
                a <= b <= n,
                n == line.len(),
                word_end(line@, b as int) == word_end(line@, a as int),
            decreases n - b,
        {
            b += 1;
        }
        proof {
            lemma_runs(line@, a as int);
        }
        if left == 0 {
            return Some((a, b));
        }
        left -= 1;
        i = b;
    }
}

/// Recovers line and word for a position in a text by walking the text up
/// to that position.
pub fn diagnose(text: &Vec<char>, location: usize) -> (d: Diagnostic)
    requires
        location <= text.len(),
    ensures
        d.location == location,
        d.lines_before == newlines_in(text@.take(location as int)),
        d.position == location - line_start(text@, location as int),
        d.word@ == pointed_word(
            line_at(text@, line_start(text@, location as int)),
            d.position as int,
        ),
{
    let n = text.len();
    let mut lines: usize = 0;
    let mut start: usize = 0;
    let mut i: usize = 0;
    proof {
        assert(text@.take(0) =~= Seq::<char>::empty());
    }
    while i < location
        invariant
            i <= location <= n,
            n == text.len(),
            lines <= i,
            start <= i,
            lines == newlines_in(text@.take(i as int)),
            start == line_start(text@, i as int),
        decreases location - i,
    {
        proof {
            assert(text@.take(i + 1).drop_last() =~= text@.take(i as int));
            assert(text@.take(i + 1).last() == text@[i as int]);
        }
        if text[i] == '\n' {
            lines += 1;
            start = i + 1;
        }
        i += 1;
    }
    let stop = find_char(text, start, n, '\n');
    proof {
        assert(text@.subrange(start as int, n as int) =~= text@.skip(start as int));
        lemma_first_index(text@.skip(start as int), '\n');
    }
    let end = if stop < n && stop > start && text[stop - 1] == '\r' {
        stop - 1
    } else {
        stop
    };
    let line = copy_range(text, start, end);
    let position = location - start;
    let word = match find_word(&line, position / 2) {
        Some((a, b)) => string_of(&copy_range(&line, a, b)),
        None => String::from_str("<unknown>"),
    };
    Diagnostic { lines_before: lines, position, word, location }
}

/// The message for a structural error at `location` of the text `s`.
pub open spec fn failure_message(s: Seq<char>, location: int) -> Seq<char> {
    let start = line_start(s, location);
    "Parse error at line "@ + decimal_text(1 + newlines_in(s.take(location))) + ", word '"@
        + pointed_word(line_at(s, start), location - start) + "' (position "@ + decimal_text(
        location - start,
    ) + "): unexpected token at offset "@ + decimal_text(location)
}

fn push_text(out: &mut Vec<char>, s: &str)
    ensures
        final(out)@ == old(out)@ + s@,
{
    let v = chars_of(s);
    let ghost before = out@;
    let mut i: usize = 0;
    while i < v.len()
        invariant
            i <= v.len(),
            out@ == before + v@.take(i as int),
        decreases v.len() - i,
    {
        out.push(v[i]);
        assert(out@ =~= before + v@.take(i + 1));
        i += 1;
    }
    assert(v@.take(v.len() as int) =~= v@);
}

impl Diagnostic {
    /// The message for this error: the line counted from one, the word, the
    /// offset within the line and the offset within the text.
    pub fn message(&self) -> (r: String)
        ensures
            r@ == "Parse error at line "@ + decimal_text(1 + self.lines_before) + ", word '"@
                + self.word@ + "' (position "@ + decimal_text(self.position as int)
                + "): unexpected token at offset "@ + decimal_text(self.location as int),
    {
        let mut out: Vec<char> = Vec::new();
        push_text(&mut out, "Parse error at line ");
        let mut digits = decimal(self.lines_before as u128 + 1);
        out.append(&mut digits);
        push_text(&mut out, ", word '");
        push_text(&mut out, self.word.as_str());
        push_text(&mut out, "' (position ");
        let mut digits = decimal(self.position as u128);
        out.append(&mut digits);
        push_text(&mut out, "): unexpected token at offset ");
        let mut digits = decimal(self.location as u128);
        out.append(&mut digits);
        string_of(&out)
    }
}

/// Every token of a text starts and ends inside the text.
pub proof fn lemma_spanned_bounds(s: Seq<char>, i: int, lines: int)
    requires
        0 <= i <= s.len(),
    ensures
        forall|k: int|
            0 <= k < spanned(s, i, lines).len() ==> {
                &&& 0 <= (#[trigger] spanned(s, i, lines)[k]).0 <= s.len()
                &&& 0 <= spanned(s, i, lines)[k].2 <= s.len()
            },
    decreases s.len() - i,
{
    if i < s.len() {
        lemma_token_extent(s, i);
        lemma_spanned_bounds(s, token_end(s, i), lines + token_lines(s, i));
        let rest = spanned(s, token_end(s, i), lines + token_lines(s, i));
        let all = spanned(s, i, lines);
        assert forall|k: int| 0 <= k < all.len() implies {
            &&& 0 <= (#[trigger] all[k]).0 <= s.len()
            &&& 0 <= all[k].2 <= s.len()
        } by {
            if k > 0 {
                assert(all[k] == rest[k - 1]);
            }
        }
    }
}

/// Parses a summary log. The result is the document that the grammar gives
/// for the tokens of the text; where a token breaks the grammar, the result
/// is the message that names the line and the word at which it starts.
pub fn parse_log_summary(log_summary: &str) -> (r: Result<Document, String>)
    ensures
        match parsed(spanned(log_summary@, 0, 0)) {
            Parsed::Document(parts) => r is Ok && r->Ok_0@ == parts,
            Parsed::Failure(idx) => r is Err && r->Err_0@ == failure_message(
                log_summary@,
                failure_location(spanned(log_summary@, 0, 0), idx),
            ),
        },
{
    let lexer = Lexer::new(log_summary);
    let tokens = drain(lexer);
    match parse_tokens(&tokens) {
        Ok(doc) => Ok(doc),
        Err(e) => {
            let text = chars_of(log_summary);
            proof {
                lemma_spanned_bounds(log_summary@, 0, 0);
            }
            let d = diagnose(&text, e.location);
            Err(d.message())
        },
    }
}

/// Whether a text ends in a blank line.
pub open spec fn ends_blank(s: Seq<char>) -> bool {
    s.len() >= 2 && s[s.len() - 1] == '\n' && s[s.len() - 2] == '\n'
}

/// The text with two line terminators added unless it ends in a blank line
/// already, so that its last block is closed.
pub open spec fn terminated(s: Seq<char>) -> Seq<char> {
    if ends_blank(s) {
        s
    } else {
        s + seq!['\n', '\n']
    }
}

/// Closes the last block of a text.
pub fn ensure_terminated(text: &str) -> (r: String)
    ensures
        r@ == terminated(text@),
{
    let mut v = chars_of(text);
    let n = v.len();
    if !(n >= 2 && v[n - 1] == '\n' && v[n - 2] == '\n') {
        v.push('\n');
        v.push('\n');
        assert(v@ =~= text@ + seq!['\n', '\n']);
    }
    string_of(&v)
}

/// Turns the text of a summary log into its dictionary of values: the text
/// is closed by a blank line, parsed, and reduced. A structural error gives
/// its message.
pub fn summary_to_value(text: &str) -> (r: Result<Value, String>)
    ensures
        match parsed(spanned(terminated(text@), 0, 0)) {
            Parsed::Document(parts) => r is Ok && r->Ok_0@ == Datum::Dict(document_dict(parts)),
            Parsed::Failure(idx) => r is Err && r->Err_0@ == failure_message(
                terminated(text@),
                failure_location(spanned(terminated(text@), 0, 0), idx),
            ),
        },
{
    let closed = ensure_terminated(text);
    match parse_log_summary(closed.as_str()) {
        Ok(doc) => {
            let dict = doc.to_dict();
            proof {
                lemma_dict_view(dict);
            }
            Ok(Value::Dict(dict))
        },
        Err(e) => Err(e),
    }
}

/// The formats in which a result can be written.
#[derive(Debug, Clone, Copy, PartialEq, Eq)]
pub enum OutputFormat {
    Json,
    Yaml,
}

/// The format that a name stands for: `json` or `yaml`, and nothing else.
pub fn output_format(format: &str) -> (r: Option<OutputFormat>)
    ensures
        r == if format@ == "json"@ {
            Some(OutputFormat::Json)
        } else if format@ == "yaml"@ {
            Some(OutputFormat::Yaml)
        } else {
            None
        },
{
    let name = String::from_str(format);
    if name.eq(&String::from_str("json")) {
        Some(OutputFormat::Json)
    } else if name.eq(&String::from_str("yaml")) {
        Some(OutputFormat::Yaml)
    } else {
        None
    }
}

} // verus!
