//! The block grammar: blank runs separate blocks; a block is a table (a
//! separator line, a title line, a separator line, then body lines) or a run
//! of floating note lines.

use crate::log_summary::lexer::{
    end_lexeme, lemma_token_extent, lexeme_at, token_end, token_lines, Kind, Lexeme, Lexer, Token,
};
use crate::log_summary::model::{
    build_structure_by_priority, forest, parts_of, records_of, Document, Message, Part, Record,
    Section, SectionNote, SectionTable,
};
use crate::text::{chars_of, copy_range, skip_spaces, string_of, trim_start};
use vstd::prelude::*;

verus! {

/// The tokens of `s` from position `i` on, each with the positions where it
/// starts and ends, after `lines` lines were consumed; the last one is the
/// end-of-input token.
pub open spec fn spanned(s: Seq<char>, i: int, lines: int) -> Seq<(int, Lexeme, int)>
    decreases s.len() - i,
    via spanned_decreases
{
    if i < 0 || i >= s.len() {
        seq![(0, end_lexeme(), 0)]
    } else {
        seq![(i, lexeme_at(s, i, lines), token_end(s, i))] + spanned(
            s,
            token_end(s, i),
            lines + token_lines(s, i),
        )
    }
}

#[via_fn]
proof fn spanned_decreases(s: Seq<char>, i: int, lines: int) {
    if 0 <= i < s.len() {
        lemma_token_extent(s, i);
    }
}

/// The tokens of a text partition it: the first starts where reading
/// starts, each starts where the one before it ends and is not empty, the
/// last one before the end-of-input token ends where the text ends, and the
/// end-of-input token comes last and only there.
pub proof fn lemma_tokens_partition(s: Seq<char>, i: int, lines: int)
    requires
        0 <= i <= s.len(),
    ensures
        ({
            let t = spanned(s, i, lines);
            &&& t.len() >= 1
            &&& t.last() == (0int, end_lexeme(), 0int)
            &&& forall|k: int|
                0 <= k < t.len() - 1 ==> {
                    &&& !((#[trigger] t[k]).1.kind is End)
                    &&& t[k].0 < t[k].2
                    &&& t[k].0 == if k == 0 {
                        i
                    } else {
                        t[k - 1].2
                    }
                }
            &&& if t.len() == 1 {
                i == s.len()
            } else {
                t[t.len() - 2].2 == s.len()
            }
        }),
    decreases s.len() - i,
{
    if i < s.len() {
        lemma_token_extent(s, i);
        let e = token_end(s, i);
        let rest = spanned(s, e, lines + token_lines(s, i));
        lemma_tokens_partition(s, e, lines + token_lines(s, i));
        let t = spanned(s, i, lines);
        assert(t == seq![(i, lexeme_at(s, i, lines), e)] + rest);
        assert forall|k: int| 0 <= k < t.len() - 1 implies {
            &&& !((#[trigger] t[k]).1.kind is End)
            &&& t[k].0 < t[k].2
            &&& t[k].0 == if k == 0 {
                i
            } else {
                t[k - 1].2
            }
        } by {
            if k > 0 {
                assert(t[k] == rest[k - 1]);
                if k > 1 {
                    assert(t[k - 1] == rest[k - 2]);
                }
            }
        }
        if rest.len() >= 2 {
            assert(t[t.len() - 2] == rest[rest.len() - 2]);
        }
    }
}

/// The tokens that a tokenizer has yet to hand out.
pub open spec fn remaining(lexer: Lexer) -> Seq<(int, Lexeme, int)> {
    if lexer.exhausted() {
        Seq::empty()
    } else {
        spanned(lexer.input(), lexer.position(), lexer.lines())
    }
}

/// The contents of a sequence of tokens with their positions.
pub open spec fn spans_of(v: Seq<(usize, Token, usize)>) -> Seq<(int, Lexeme, int)> {
    Seq::new(v.len(), |k: int| (v[k].0 as int, v[k].1@, v[k].2 as int))
}

/// The kind of the token at `i`; past the last token, the end of input.
pub open spec fn kind_at(toks: Seq<(int, Lexeme, int)>, i: int) -> Kind {
    if 0 <= i < toks.len() {
        toks[i].1.kind
    } else {
        Kind::End
    }
}

/// End of the run of content lines that starts at `i`.
pub open spec fn content_end(toks: Seq<(int, Lexeme, int)>, i: int) -> int
    decreases toks.len() - i,
{
    if 0 <= i < toks.len() && toks[i].1.kind is Content {
        content_end(toks, i + 1)
    } else {
        i
    }
}

/// A run of content lines ends at or after its start, inside the tokens.
pub proof fn lemma_content_end(toks: Seq<(int, Lexeme, int)>, i: int)
    requires
        0 <= i <= toks.len(),
    ensures
        i <= content_end(toks, i) <= toks.len(),
        kind_at(toks, i) is Content ==> i < content_end(toks, i),
    decreases toks.len() - i,
{
    if i < toks.len() && toks[i].1.kind is Content {
        lemma_content_end(toks, i + 1);
    }
}

/// The indentation level that a column stands for.
pub open spec fn level_of(column: int) -> int {
    if column > i32::MAX {
        i32::MAX as int
    } else {
        column
    }
}

/// The record of a content line: its column as the level, and its text
/// without the leading white space.
pub open spec fn record_of(t: Lexeme) -> Record {
    Record { level: level_of(t.column), text: trim_start(t.text) }
}

/// The records of the content lines at positions `i` to `j`.
pub open spec fn records(toks: Seq<(int, Lexeme, int)>, i: int, j: int) -> Seq<Record> {
    Seq::new((j - i) as nat, |k: int| record_of(toks[i + k].1))
}

/// The floating notes that the content lines at positions `i` to `j` are.
pub open spec fn notes(toks: Seq<(int, Lexeme, int)>, i: int, j: int) -> Seq<Part> {
    Seq::new((j - i) as nat, |k: int| Part::Note { record: record_of(toks[i + k].1) })
}

/// The result of parsing: the sections, or the index of the token that
/// breaks the grammar.
pub enum Parsed {
    Document(Seq<Part>),
    Failure(int),
}

/// Parses the tokens from `i` on, with `acc` the sections so far; `fresh`
/// says that a new block may start, which holds at the start and after a
/// blank run. A run of content lines outside a table is a run of floating
/// notes. A separator must start a block and be followed by a title line
/// and a second separator; the content lines after it are the table's body,
/// nested by indentation.
pub open spec fn parse_from(
    toks: Seq<(int, Lexeme, int)>,
    i: int,
    fresh: bool,
    acc: Seq<Part>,
) -> Parsed
    decreases toks.len() - i,
    via parse_from_decreases
{
    if i < 0 || i >= toks.len() {
        Parsed::Document(acc)
    } else {
        match toks[i].1.kind {
            Kind::End => Parsed::Document(acc),
            Kind::Blank => parse_from(toks, i + 1, true, acc),
            Kind::Content => {
                let j = content_end(toks, i);
                parse_from(toks, j, false, acc + notes(toks, i, j))
            },
            Kind::Separator => {
                if !fresh {
                    Parsed::Failure(i)
                } else if !(kind_at(toks, i + 1) is Content) {
                    Parsed::Failure(i + 1)
                } else if !(kind_at(toks, i + 2) is Separator) {
                    Parsed::Failure(i + 2)
                } else {
                    let j = content_end(toks, i + 3);
                    parse_from(
                        toks,
                        j,
                        false,
                        acc.push(
                            Part::Table {
                                title: toks[i + 1].1.text,
                                entries: forest(records(toks, i + 3, j)),
                            },
                        ),
                    )
                }
            },
        }
    }
}

#[via_fn]
proof fn parse_from_decreases(toks: Seq<(int, Lexeme, int)>, i: int, fresh: bool, acc: Seq<Part>) {
    if 0 <= i < toks.len() {
        lemma_content_end(toks, i);
        if i + 3 <= toks.len() {
            lemma_content_end(toks, i + 3);
        }
    }
}

/// The result of parsing a whole token sequence.
pub open spec fn parsed(toks: Seq<(int, Lexeme, int)>) -> Parsed {
    parse_from(toks, 0, true, Seq::empty())
}

/// Where a failure at token `idx` lies in the input: the start of that
/// token, or for the end of input the end of the token before it.
pub open spec fn failure_location(toks: Seq<(int, Lexeme, int)>, idx: int) -> int {
    if 0 <= idx < toks.len() && !(toks[idx].1.kind is End) {
        toks[idx].0
    } else if 0 < idx <= toks.len() {
        toks[idx - 1].2
    } else {
        0
    }
}

/// A structural error: the input does not follow the block grammar.
/// `location` is the offset at which the offending token starts.
#[derive(Debug, Clone, PartialEq)]
pub struct ParseError {
    pub location: usize,
}

/// Reads every remaining token of a tokenizer.
pub fn drain(lexer: Lexer) -> (out: Vec<(usize, Token, usize)>)
    requires
        lexer.wf(),
    ensures
        spans_of(out@) == remaining(lexer),
{
    let ghost goal = remaining(lexer);
    let ghost given = lexer;
    let mut lexer = lexer;
    let mut out: Vec<(usize, Token, usize)> = Vec::new();
    let mut done = false;
    proof {
        assert(spans_of(out@) + remaining(lexer) =~= goal);
    }
    while !done
        invariant
            lexer.wf(),
            goal == remaining(given),
            !done ==> spans_of(out@) + remaining(lexer) == goal,
            done ==> spans_of(out@) == goal,
        decreases
                if done {
                    0
                } else if lexer.exhausted() {
                    1
                } else {
                    2 + lexer.input().len() - lexer.position()
                },
    {
        let ghost before = lexer;
        let ghost sofar = spans_of(out@);
        proof {
            before.lemma_bounds();
            if !before.exhausted() && before.position() < before.input().len() {
                lemma_token_extent(before.input(), before.position());
            }
        }
        match lexer.next() {
            Some(Ok(item)) => {
                out.push(item);
                proof {
                    assert(spans_of(out@) =~= sofar.push((item.0 as int, item.1@, item.2 as int)));
                    assert(sofar.push((item.0 as int, item.1@, item.2 as int)) + remaining(lexer)
                        =~= sofar + remaining(before));
                }
            },
            _ => {
                proof {
                    assert(sofar + remaining(before) =~= sofar);
                }
                done = true;
            },
        }
    }
    out
}

/// The message of a content line, or `None` for any other token.
fn content_message(token: &Token) -> (r: Option<Message>)
    ensures
        r is Some == (token@.kind is Content),
        r is Some ==> r->0@ == record_of(token@),
{
    match token {
        Token::Line(loc) => {
            let v = chars_of(loc.source.as_str());
            let a = skip_spaces(&v, 0, v.len());
            proof {
                assert(v@.subrange(0, v.len() as int) =~= v@);
            }
            let text = copy_range(&v, a, v.len());
            let indent_level: i32 = if loc.column > 0x7fff_ffff {
                0x7fff_ffff
            } else {
                loc.column as i32
            };
            Some(Message { indent_level, message: string_of(&text) })
        },
        _ => None,
    }
}

/// The text of a content line, or `None` for any other token.
fn content_text(token: &Token) -> (r: Option<String>)
    ensures
        r is Some == (token@.kind is Content),
        r is Some ==> r->0@ == token@.text,
{
    match token {
        Token::Line(loc) => Some(loc.source.clone()),
        _ => None,
    }
}

fn is_separator_token(token: &Token) -> (r: bool)
    ensures
        r == (token@.kind is Separator),
{
    match token {
        Token::SectionSeparatorLine(_) => true,
        _ => false,
    }
}

fn error_at(tokens: &Vec<(usize, Token, usize)>, idx: usize) -> (e: ParseError)
    requires
        idx <= tokens.len(),
    ensures
        e.location == failure_location(spans_of(tokens@), idx as int),
{
    let at_end = if idx < tokens.len() {
        match &tokens[idx].1 {
            Token::EOF => true,
            _ => false,
        }
    } else {
        true
    };
    if !at_end {
        ParseError { location: tokens[idx].0 }
    } else if idx > 0 {
        ParseError { location: tokens[idx - 1].2 }
    } else {
        ParseError { location: 0 }
    }
}

/// Parses a token sequence into a document.
pub fn parse_tokens(tokens: &Vec<(usize, Token, usize)>) -> (r: Result<Document, ParseError>)
    ensures
        match parsed(spans_of(tokens@)) {
            Parsed::Document(parts) => r is Ok && r->Ok_0@ == parts,
            Parsed::Failure(idx) => r is Err && r->Err_0.location == failure_location(
                spans_of(tokens@),
                idx,
            ),
        },
{
    let ghost toks = spans_of(tokens@);
    let ghost goal = parsed(toks);
    let n = tokens.len();
    let mut sections: Vec<Section> = Vec::new();
    let mut i: usize = 0;
    let mut fresh = true;
    proof {
        assert(parts_of(sections@) =~= Seq::<Part>::empty());
    }
    while i < n
        invariant
            i <= n,
            n == tokens.len(),
            toks == spans_of(tokens@),
            goal == parsed(toks),
            parse_from(toks, i as int, fresh, parts_of(sections@)) == goal,
        decreases n - i,
    {
        let ghost acc = parts_of(sections@);
        proof {
            lemma_content_end(toks, i as int);
        }
        if let Some(first) = content_message(&tokens[i].1) {
            sections.push(Section::Note(SectionNote { message: first }));
            let mut j: usize = i + 1;
            let mut more = true;
            proof {
                assert(parts_of(sections@) =~= acc + notes(toks, i as int, j as int));
            }
            while more && j < n
                invariant
                    i < j <= n,
                    n == tokens.len(),
                    toks == spans_of(tokens@),
                    content_end(toks, i as int) == content_end(toks, j as int),
                    parts_of(sections@) == acc + notes(toks, i as int, j as int),
                    !more ==> !(kind_at(toks, j as int) is Content),
                decreases n - j + if more { 1int } else { 0int },
            {
                match content_message(&tokens[j].1) {
                    Some(m) => {
                        let ghost sofar = parts_of(sections@);
                        sections.push(Section::Note(SectionNote { message: m }));
                        proof {
                            assert(parts_of(sections@) =~= sofar.push(
                                Part::Note { record: record_of(toks[j as int].1) },
                            ));
                            assert(sofar.push(Part::Note { record: record_of(toks[j as int].1) })
                                =~= acc + notes(toks, i as int, j + 1));
                        }
                        j += 1;
                    },
                    None => {
                        more = false;
                    },
                }
            }
            i = j;
            fresh = false;
        } else if is_separator_token(&tokens[i].1) {
            if !fresh {
                return Err(error_at(tokens, i));
            }
            let title = if i + 1 < n {
                content_text(&tokens[i + 1].1)
            } else {
                None
            };
            let title = match title {
                Some(t) => t,
                None => {
                    return Err(error_at(tokens, i + 1));
                },
            };
            if !(i + 2 < n && is_separator_token(&tokens[i + 2].1)) {
                return Err(error_at(tokens, i + 2));
            }
            let mut body: Vec<Message> = Vec::new();
            let mut j: usize = i + 3;
            let mut more = true;
            proof {
                assert(records_of(body@) =~= records(toks, i + 3, j as int));
            }
            while more && j < n
                invariant
                    i + 3 <= j <= n,
                    n == tokens.len(),
                    toks == spans_of(tokens@),
                    content_end(toks, i + 3) == content_end(toks, j as int),
                    records_of(body@) == records(toks, i + 3, j as int),
                    !more ==> !(kind_at(toks, j as int) is Content),
                decreases n - j + if more { 1int } else { 0int },
            {
                match content_message(&tokens[j].1) {
                    Some(m) => {
                        let ghost sofar = records_of(body@);
                        body.push(m);
                        proof {
                            assert(records_of(body@) =~= sofar.push(record_of(toks[j as int].1)));
                            assert(sofar.push(record_of(toks[j as int].1)) =~= records(
                                toks,
                                i + 3,
                                j + 1,
                            ));
                        }
                        j += 1;
                    },
                    None => {
                        more = false;
                    },
                }
            }
            let entries = build_structure_by_priority(body);
            let table = SectionTable { title, entries };
            sections.push(Section::Table(table));
            proof {
                assert(parts_of(sections@) =~= acc.push(
                    Part::Table {
                        title: toks[i + 1].1.text,
                        entries: forest(records(toks, i + 3, j as int)),
                    },
                ));
            }
            i = j;
            fresh = false;
        } else {
            match &tokens[i].1 {
                Token::EOF => {
                    return Ok(Document { sections });
                },
                _ => {
                    i += 1;
                    fresh = true;
                },
            }
        }
    }
    Ok(Document { sections })
}

/// The parser of summary logs.
pub struct LogSummaryParser {}

impl LogSummaryParser {
    /// A parser.
    pub fn new() -> (p: LogSummaryParser) {
        LogSummaryParser {  }
    }

    /// Parses what a tokenizer has yet to hand out. The result is the
    /// document that the grammar gives for those tokens, or the location of
    /// the first token that breaks it.
    pub fn parse(&self, lexer: Lexer) -> (r: Result<Document, ParseError>)
        requires
            lexer.wf(),
        ensures
            match parsed(remaining(lexer)) {
                Parsed::Document(parts) => r is Ok && r->Ok_0@ == parts,
                Parsed::Failure(idx) => r is Err && r->Err_0.location == failure_location(
                    remaining(lexer),
                    idx,
                ),
            },
    {
        let tokens = drain(lexer);
        parse_tokens(&tokens)
    }
}

} // verus!
