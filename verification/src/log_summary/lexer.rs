//! The tokenizer: cuts the input into separator lines, content lines and
//! runs of blank lines, and keeps count of the lines consumed.

use crate::text::{
    chars_of, copy_range, find_char, lemma_first_index, line_stop, line_text_end, skip_spaces,
    string_of, trim_start,
};
use vstd::prelude::*;

verus! {

/// The error of a tokenizer that meets text it cannot classify.
#[derive(Default, Debug, Clone, PartialEq)]
pub enum LexicalError {
    #[default]
    InvalidToken,
}

/// `s` without its last character.
pub fn remove_last_char(s: &str) -> (r: String)
    requires
        s@.len() > 0,
    ensures
        r@ == s@.drop_last(),
{
    let v = chars_of(s);
    let head = copy_range(&v, 0, v.len() - 1);
    assert(v@.subrange(0, v.len() - 1) =~= s@.drop_last());
    string_of(&head)
}

/// Where a token was found: its text without the line terminator, the
/// number of lines consumed once it is read, and the column at which its
/// text begins within its line.
#[derive(PartialEq, Debug, Clone)]
pub struct SourceLocation {
    pub source: String,
    pub line: usize,
    pub column: usize,
}

/// A classified piece of the input.
#[derive(Clone, Debug, PartialEq)]
pub enum Token {
    /// A line made of three or more `=` and nothing else.
    SectionSeparatorLine(SourceLocation),
    /// Any other line that is not empty.
    Line(SourceLocation),
    /// A maximal run of line terminators, with the number of them.
    EndOfSection(usize, SourceLocation),
    /// The end of the input.
    EOF,
}

/// The kinds of token.
pub enum Kind {
    Separator,
    Content,
    Blank,
    End,
}

/// Mathematical content of a [`Token`].
pub struct Lexeme {
    pub kind: Kind,
    pub text: Seq<char>,
    pub line: int,
    pub column: int,
    pub count: int,
}

/// The content of the end-of-input token.
pub open spec fn end_lexeme() -> Lexeme {
    Lexeme { kind: Kind::End, text: Seq::empty(), line: 0, column: 0, count: 0 }
}

impl View for Token {
    type V = Lexeme;

    open spec fn view(&self) -> Lexeme {
        match self {
            Token::SectionSeparatorLine(loc) => Lexeme {
                kind: Kind::Separator,
                text: loc.source@,
                line: loc.line as int,
                column: loc.column as int,
                count: 1,
            },
            Token::Line(loc) => Lexeme {
                kind: Kind::Content,
                text: loc.source@,
                line: loc.line as int,
                column: loc.column as int,
                count: 1,
            },
            Token::EndOfSection(n, loc) => Lexeme {
                kind: Kind::Blank,
                text: loc.source@,
                line: loc.line as int,
                column: loc.column as int,
                count: *n as int,
            },
            Token::EOF => end_lexeme(),
        }
    }
}

/// Whether a line terminator, `\n` or `\r\n`, starts at position `i`.
pub open spec fn is_break(s: Seq<char>, i: int) -> bool {
    0 <= i < s.len() && (s[i] == '\n' || (s[i] == '\r' && i + 1 < s.len() && s[i + 1] == '\n'))
}

/// Length of the line terminator at position `i`.
pub open spec fn break_len(s: Seq<char>, i: int) -> int {
    if s[i] == '\n' {
        1
    } else {
        2
    }
}

/// End of the maximal run of line terminators that starts at `i`.
pub open spec fn blank_end(s: Seq<char>, i: int) -> int
    decreases s.len() - i,
{
    if is_break(s, i) {
        blank_end(s, i + break_len(s, i))
    } else {
        i
    }
}

/// Number of line terminators in the maximal run that starts at `i`.
pub open spec fn blank_count(s: Seq<char>, i: int) -> int
    decreases s.len() - i,
{
    if is_break(s, i) {
        1 + blank_count(s, i + break_len(s, i))
    } else {
        0
    }
}

/// Whether a line's text is three or more `=` and nothing else.
pub open spec fn is_separator_text(t: Seq<char>) -> bool {
    t.len() >= 3 && forall|k: int| 0 <= k < t.len() ==> t[k] == '='
}

/// Number of white-space characters at the start of `t`.
pub open spec fn indent_of(t: Seq<char>) -> int {
    t.len() - trim_start(t).len()
}

/// End of the token that starts at `i`, for `i` inside the input.
pub open spec fn token_end(s: Seq<char>, i: int) -> int {
    if is_break(s, i) {
        blank_end(s, i)
    } else if line_stop(s, i) < s.len() {
        line_stop(s, i) + 1
    } else {
        line_stop(s, i)
    }
}

/// Number of lines that the token starting at `i` consumes: one for each
/// terminator of a blank run, one for any other line.
pub open spec fn token_lines(s: Seq<char>, i: int) -> int {
    if is_break(s, i) {
        blank_count(s, i)
    } else {
        1
    }
}

/// The token that starts at position `i` of `s`, for `i` inside the input,
/// after `lines` lines were consumed. A terminator starts a blank run;
/// otherwise the line up to its terminator is a separator if it is made of
/// three or more `=` alone, and content if not. The column of a content line
/// is the number of white-space characters before its text.
pub open spec fn lexeme_at(s: Seq<char>, i: int, lines: int) -> Lexeme {
    if is_break(s, i) {
        Lexeme {
            kind: Kind::Blank,
            text: Seq::empty(),
            line: lines + blank_count(s, i),
            column: 0,
            count: blank_count(s, i),
        }
    } else {
        let text = s.subrange(i, line_text_end(s, i));
        if is_separator_text(text) {
            Lexeme { kind: Kind::Separator, text, line: lines + 1, column: 0, count: 1 }
        } else {
            Lexeme { kind: Kind::Content, text, line: lines + 1, column: indent_of(text), count: 1 }
        }
    }
}

/// A token inside the input is never empty, ends inside the input, and
/// consumes at least one line and at most one per character.
pub proof fn lemma_token_extent(s: Seq<char>, i: int)
    requires
        0 <= i < s.len(),
    ensures
        i < token_end(s, i) <= s.len(),
        1 <= token_lines(s, i) <= token_end(s, i) - i,
        !is_break(s, i) ==> i < line_text_end(s, i) <= line_stop(s, i) <= s.len(),
{
    if is_break(s, i) {
        lemma_blank_extent(s, i);
    } else {
        lemma_first_index(s.skip(i), '\n');
        let j = line_stop(s, i);
        assert(s.skip(i)[0] == s[i]);
        if j < s.len() {
            assert(s.skip(i)[j - i] == s[j]);
        }
    }
}

/// A blank run ends inside the input and holds at most one terminator per
/// character, and at least one where it starts with one.
pub proof fn lemma_blank_extent(s: Seq<char>, i: int)
    requires
        0 <= i <= s.len(),
    ensures
        i <= blank_end(s, i) <= s.len(),
        0 <= blank_count(s, i) <= blank_end(s, i) - i,
        is_break(s, i) ==> blank_count(s, i) >= 1 && blank_end(s, i) > i,
    decreases s.len() - i,
{
    if is_break(s, i) {
        lemma_blank_extent(s, i + break_len(s, i));
    }
}

/// A tokenizer over a text.
pub struct Lexer {
    chars: Vec<char>,
    pos: usize,
    line_number: usize,
    eof_encountered: bool,
}

impl Lexer {
    /// The text being read.
    pub closed spec fn input(&self) -> Seq<char> {
        self.chars@
    }

    /// Position of the next token.
    pub closed spec fn position(&self) -> int {
        self.pos as int
    }

    /// Number of lines consumed so far.
    pub closed spec fn lines(&self) -> int {
        self.line_number as int
    }

    /// Whether the end-of-input token was handed out.
    pub closed spec fn exhausted(&self) -> bool {
        self.eof_encountered
    }

    /// The position lies inside the input and no more lines were counted
    /// than characters were read.
    pub closed spec fn wf(&self) -> bool {
        self.line_number <= self.pos <= self.chars.len()
    }

    /// What well-formedness says of the position and the line count.
    pub proof fn lemma_bounds(&self)
        requires
            self.wf(),
        ensures
            0 <= self.lines() <= self.position() <= self.input().len(),
    {
    }

    /// A tokenizer at the start of `input`.
    pub fn new(input: &str) -> (lexer: Lexer)
        ensures
            lexer.wf(),
            lexer.input() == input@,
            lexer.position() == 0,
            lexer.lines() == 0,
            !lexer.exhausted(),
    {
        Lexer { chars: chars_of(input), pos: 0, line_number: 0, eof_encountered: false }
    }

    fn break_at(&self, i: usize) -> (r: usize)
        requires
            i < self.chars.len(),
        ensures
            r == if is_break(self.chars@, i as int) {
                break_len(self.chars@, i as int)
            } else {
                0
            },
    {
        if self.chars[i] == '\n' {
            1
        } else if self.chars[i] == '\r' && i + 1 < self.chars.len() && self.chars[i + 1] == '\n' {
            2
        } else {
            0
        }
    }

    /// Reads the next token with the positions where it starts and ends.
    /// After the input is used up it hands out `EOF` once, and then nothing.
    pub fn next(&mut self) -> (r: Option<Result<(usize, Token, usize), LexicalError>>)
        requires
            old(self).wf(),
        ensures
            final(self).wf(),
            final(self).input() == old(self).input(),
            old(self).exhausted() ==> {
                &&& r is None
                &&& final(self).exhausted()
                &&& final(self).position() == old(self).position()
                &&& final(self).lines() == old(self).lines()
            },
            !old(self).exhausted() && old(self).position() >= old(self).input().len() ==> {
                &&& r == Some(Ok::<(usize, Token, usize), LexicalError>((0, Token::EOF, 0)))
                &&& final(self).exhausted()
                &&& final(self).position() == old(self).position()
                &&& final(self).lines() == old(self).lines()
            },
            !old(self).exhausted() && old(self).position() < old(self).input().len() ==> {
                &&& r is Some
                &&& r->0 is Ok
                &&& (r->0->Ok_0).0 == old(self).position()
                &&& (r->0->Ok_0).1@ == lexeme_at(
                    old(self).input(),
                    old(self).position(),
                    old(self).lines(),
                )
                &&& (r->0->Ok_0).2 == token_end(old(self).input(), old(self).position())
                &&& !final(self).exhausted()
                &&& final(self).position() == token_end(old(self).input(), old(self).position())
                &&& final(self).lines() == old(self).lines() + token_lines(
                    old(self).input(),
                    old(self).position(),
                )
            },
    {
        if self.eof_encountered {
            return None;
        }
        let n = self.chars.len();
        let start = self.pos;
        if start >= n {
            self.eof_encountered = true;
            return Some(Ok((0, Token::EOF, 0)));
        }
        let ghost s = self.chars@;
        proof {
            lemma_token_extent(s, start as int);
        }
        if self.break_at(start) > 0 {
            let mut i: usize = start;
            let mut count: usize = 0;
            while i < n && self.break_at(i) > 0
                invariant
                    s == self.chars@,
                    n == s.len(),
                    start <= i <= n,
                    count <= i - start,
                    blank_end(s, start as int) == blank_end(s, i as int),
                    blank_count(s, start as int) == count + blank_count(s, i as int),
                decreases n - i,
            {
                i += self.break_at(i);
                count += 1;
            }
            self.pos = i;
            self.line_number = self.line_number + count;
            let loc = SourceLocation { source: String::new(), line: self.line_number, column: 0 };
            return Some(Ok((start, Token::EndOfSection(count, loc), i)));
        }
        let stop = find_char(&self.chars, start, n, '\n');
        proof {
            assert(s.subrange(start as int, n as int) =~= s.skip(start as int));
        }
        let text_end = if stop < n && stop > start && self.chars[stop - 1] == '\r' {
            stop - 1
        } else {
            stop
        };
        let end = if stop < n {
            stop + 1
        } else {
            stop
        };
        let text = copy_range(&self.chars, start, text_end);
        self.pos = end;
        self.line_number = self.line_number + 1;
        let token = if is_separator(&text) {
            Token::SectionSeparatorLine(
                SourceLocation { source: string_of(&text), line: self.line_number, column: 0 },
            )
        } else {
            let column = skip_spaces(&text, 0, text.len());
            proof {
                assert(text@.subrange(0, text.len() as int) =~= text@);
            }
            Token::Line(SourceLocation { source: string_of(&text), line: self.line_number, column })
        };
        Some(Ok((start, token, end)))
    }
}

/// Whether a line's text is a separator.
pub fn is_separator(text: &Vec<char>) -> (r: bool)
    ensures
        r == is_separator_text(text@),
{
    if text.len() < 3 {
        return false;
    }
    let mut i: usize = 0;
    while i < text.len()
        invariant
            i <= text.len(),
            forall|k: int| 0 <= k < i ==> text@[k] == '=',
        decreases text.len() - i,
    {
        if text[i] != '=' {
            return false;
        }
        i += 1;
    }
    true
}

} // verus!
