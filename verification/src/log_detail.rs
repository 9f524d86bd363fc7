//! The detail log: one event per line, each a marker followed by a payload.

use crate::text::{copy_range, lines_from, lines_of, split_lines, starts_with, string_of};
use vstd::prelude::*;

verus! {

/// The marker that starts every event line.
pub open spec fn marker() -> Seq<char> {
    seq![':', ':', ':', 'M', 'L', 'L', 'O', 'G']
}

/// What a line of a detail log is.
#[derive(Debug, Clone, PartialEq)]
pub enum DetailLine {
    /// The line does not start with the marker.
    Invalid,
    /// The line starts with the marker, but no space follows it.
    Bare,
    /// The line starts with the marker and a space; this is what follows.
    Payload(String),
}

/// Mathematical content of a [`DetailLine`].
pub enum DetailKind {
    Invalid,
    Bare,
    Payload(Seq<char>),
}

impl View for DetailLine {
    type V = DetailKind;

    open spec fn view(&self) -> DetailKind {
        match self {
            DetailLine::Invalid => DetailKind::Invalid,
            DetailLine::Bare => DetailKind::Bare,
            DetailLine::Payload(s) => DetailKind::Payload(s@),
        }
    }
}

/// How a line is read: invalid without the marker, bare where no space
/// follows the marker, and otherwise the payload after marker and space.
pub open spec fn detail_kind(line: Seq<char>) -> DetailKind {
    if !starts_with(line, marker()) {
        DetailKind::Invalid
    } else if line.len() > 8 && line[8] == ' ' {
        DetailKind::Payload(line.skip(9))
    } else {
        DetailKind::Bare
    }
}

/// Classifies one line of a detail log.
pub fn classify_detail_line(line: &Vec<char>) -> (r: DetailLine)
    ensures
        r@ == detail_kind(line@),
{
    let m: Vec<char> = vec![':', ':', ':', 'M', 'L', 'L', 'O', 'G'];
    assert(m@ =~= marker());
    if line.len() < 8 {
        return DetailLine::Invalid;
    }
    let mut i: usize = 0;
    while i < 8
        invariant
            i <= 8 <= line.len(),
            m@ == marker(),
            forall|k: int| 0 <= k < i ==> line@[k] == m@[k],
        decreases 8 - i,
    {
        if line[i] != m[i] {
            assert(line@.take(8)[i as int] != marker()[i as int]);
            return DetailLine::Invalid;
        }
        i += 1;
    }
    assert(line@.take(8) =~= marker());
    if line.len() > 8 && line[8] == ' ' {
        let rest = copy_range(line, 9, line.len());
        assert(line@.subrange(9, line.len() as int) =~= line@.skip(9));
        DetailLine::Payload(string_of(&rest))
    } else {
        DetailLine::Bare
    }
}

/// The kinds of the lines of a detail log, in order.
pub open spec fn detail_kinds(lines: Seq<Seq<char>>) -> Seq<DetailKind> {
    Seq::new(lines.len(), |k: int| detail_kind(lines[k]))
}

/// The contents of a sequence of classified lines.
pub open spec fn kinds_of(v: Seq<DetailLine>) -> Seq<DetailKind> {
    Seq::new(v.len(), |k: int| v[k]@)
}

/// Classifies every line of a detail log, in order.
pub fn detail_lines(text: &str) -> (r: Vec<DetailLine>)
    ensures
        kinds_of(r@) == detail_kinds(lines_from(text@, 0)),
{
    let lines = split_lines(text);
    let ghost all = lines_of(lines@);
    let mut out: Vec<DetailLine> = Vec::new();
    let mut i: usize = 0;
    while i < lines.len()
        invariant
            i <= lines.len(),
            all == lines_of(lines@),
            kinds_of(out@) == detail_kinds(all.take(i as int)),
        decreases lines.len() - i,
    {
        let item = classify_detail_line(&lines[i]);
        proof {
            assert(kinds_of(out@.push(item)) =~= kinds_of(out@).push(item@));
            assert(detail_kinds(all.take(i + 1)) =~= detail_kinds(all.take(i as int)).push(
                detail_kind(all[i as int]),
            ));
        }
        out.push(item);
        i += 1;
    }
    proof {
        assert(all.take(lines.len() as int) =~= all);
    }
    out
}

} // verus!
