//! Character-level helpers: conversions between strings and character
//! vectors, trimming, and the small rewrites used when normalising keys.

use vstd::prelude::*;

verus! {

/// Whether `c` carries the Unicode `White_Space` property.
pub open spec fn is_space(c: char) -> bool {
    let n = c as u32;
    ||| (0x09 <= n && n <= 0x0d)
    ||| n == 0x20
    ||| n == 0x85
    ||| n == 0xa0
    ||| n == 0x1680
    ||| (0x2000 <= n && n <= 0x200a)
    ||| n == 0x2028
    ||| n == 0x2029
    ||| n == 0x202f
    ||| n == 0x205f
    ||| n == 0x3000
}

/// Executable test for [`is_space`].
pub fn is_space_char(c: char) -> (r: bool)
    ensures
        r == is_space(c),
{
    let n: u32 = c as u32;
    (0x09 <= n && n <= 0x0d) || n == 0x20 || n == 0x85 || n == 0xa0 || n == 0x1680 || (0x2000 <= n
        && n <= 0x200a) || n == 0x2028 || n == 0x2029 || n == 0x202f || n == 0x205f || n == 0x3000
}

/// The characters of `s`, in order.
pub fn chars_of(s: &str) -> (v: Vec<char>)
    ensures
        v@ == s@,
{
    let mut v: Vec<char> = Vec::new();
    for c in it: s.chars()
        invariant
            it.seq() == s@,
            v@ == it.seq().take(it.index()),
    {
        v.push(c);
    }
    v
}

/// `String::push` appends the given character to the end of the string.
pub assume_specification[ String::push ](s: &mut String, ch: char)
    ensures
        final(s)@ == old(s)@.push(ch),
;

/// The string made of the characters of `v`, in order.
pub fn string_of(v: &Vec<char>) -> (s: String)
    ensures
        s@ == v@,
{
    let mut s = String::new();
    let mut i: usize = 0;
    while i < v.len()
        invariant
            i <= v.len(),
            s@ == v@.take(i as int),
        decreases v.len() - i,
    {
        s.push(v[i]);
        assert(v@.take(i + 1) =~= v@.take(i as int).push(v@[i as int]));
        i += 1;
    }
    assert(v@.take(v.len() as int) =~= v@);
    s
}

/// The Unicode lowercase form of a text, as `str::to_lowercase` computes it.
pub uninterp spec fn lowercase_of(s: Seq<char>) -> Seq<char>;

/// Calls `str::to_lowercase`: the result is the lowercase form of `s`, a
/// function of the characters of `s` alone.
#[verifier::external_body]
pub(crate) fn to_lowercase(s: &str) -> (r: String)
    ensures
        r@ == lowercase_of(s@),
{
    s.to_lowercase()
}

/// Whether every character of `s` is an ASCII character.
pub open spec fn is_ascii_text(s: Seq<char>) -> bool {
    forall|i: int| 0 <= i < s.len() ==> (#[trigger] s[i] as u32) < 128
}

/// The lowercase form of an ASCII character: the letters `A` to `Z` become
/// `a` to `z`, and nothing else changes.
pub open spec fn ascii_lower_char(c: char) -> char {
    if 'A' <= c && c <= 'Z' {
        ((c as u8 + 32) as u8) as char
    } else {
        c
    }
}

/// `s` with each character in its ASCII lowercase form.
pub open spec fn ascii_lower(s: Seq<char>) -> Seq<char> {
    Seq::new(s.len(), |i: int| ascii_lower_char(s[i]))
}

/// The lowercase form of a text: that of its ASCII letters where the text
/// is all ASCII, and its Unicode lowercase form otherwise.
pub open spec fn lowered(s: Seq<char>) -> Seq<char> {
    if is_ascii_text(s) {
        ascii_lower(s)
    } else {
        lowercase_of(s)
    }
}

/// Lowercases a text. An ASCII text is lowercased here, letter by letter;
/// any other text is handed to the standard library.
pub fn lowercase(s: &str) -> (r: String)
    ensures
        r@ == lowered(s@),
{
    let v = chars_of(s);
    let mut out: Vec<char> = Vec::new();
    let mut i: usize = 0;
    while i < v.len()
        invariant
            i <= v.len(),
            v@ == s@,
            is_ascii_text(v@.take(i as int)),
            out@ == ascii_lower(v@.take(i as int)),
        decreases v.len() - i,
    {
        let c = v[i];
        if (c as u32) >= 128 {
            assert(!is_ascii_text(v@));
            return to_lowercase(s);
        }
        let low = if c >= 'A' && c <= 'Z' {
            ((c as u8) + 32) as char
        } else {
            c
        };
        out.push(low);
        proof {
            assert(v@.take(i + 1) =~= v@.take(i as int).push(c));
            assert(out@ =~= ascii_lower(v@.take(i + 1)));
        }
        i += 1;
    }
    proof {
        assert(v@.take(v.len() as int) =~= v@);
    }
    string_of(&out)
}

/// `s` without its leading white space.
pub open spec fn trim_start(s: Seq<char>) -> Seq<char>
    decreases s.len(),
{
    if s.len() > 0 && is_space(s[0]) {
        trim_start(s.skip(1))
    } else {
        s
    }
}

/// `s` without its trailing white space.
pub open spec fn trim_end(s: Seq<char>) -> Seq<char>
    decreases s.len(),
{
    if s.len() > 0 && is_space(s.last()) {
        trim_end(s.drop_last())
    } else {
        s
    }
}

/// `s` without leading and trailing white space.
pub open spec fn trimmed(s: Seq<char>) -> Seq<char> {
    trim_end(trim_start(s))
}

/// Position of the first `c` in `s`, or `s.len()` where there is none.
pub open spec fn first_index(s: Seq<char>, c: char) -> int
    decreases s.len(),
{
    if s.len() == 0 || s[0] == c {
        0
    } else {
        1 + first_index(s.skip(1), c)
    }
}

/// `first_index` is within bounds, names a `c` when inside the text, and
/// nothing before it is a `c`.
pub proof fn lemma_first_index(s: Seq<char>, c: char)
    ensures
        0 <= first_index(s, c) <= s.len(),
        first_index(s, c) < s.len() ==> s[first_index(s, c)] == c,
        forall|i: int| 0 <= i < first_index(s, c) ==> s[i] != c,
    decreases s.len(),
{
    if s.len() == 0 || s[0] == c {
    } else {
        lemma_first_index(s.skip(1), c);
        assert forall|i: int| 0 <= i < first_index(s, c) implies s[i] != c by {
            if i > 0 {
                assert(s.skip(1)[i - 1] == s[i]);
            }
        }
    }
}

/// Index of the first non-space character of `v[lo..hi]`, or `hi`.
pub fn skip_spaces(v: &Vec<char>, lo: usize, hi: usize) -> (r: usize)
    requires
        lo <= hi <= v.len(),
    ensures
        lo <= r <= hi,
        v@.subrange(r as int, hi as int) == trim_start(v@.subrange(lo as int, hi as int)),
{
    let mut i: usize = lo;
    while i < hi && is_space_char(v[i])
        invariant
            lo <= i <= hi <= v.len(),
            trim_start(v@.subrange(i as int, hi as int)) == trim_start(
                v@.subrange(lo as int, hi as int),
            ),
        decreases hi - i,
    {
        assert(v@.subrange(i as int, hi as int).skip(1) =~= v@.subrange(i + 1, hi as int));
        i += 1;
    }
    i
}

/// End of `v[lo..hi]` once its trailing white space is cut off.
pub fn drop_trailing_spaces(v: &Vec<char>, lo: usize, hi: usize) -> (r: usize)
    requires
        lo <= hi <= v.len(),
    ensures
        lo <= r <= hi,
        v@.subrange(lo as int, r as int) == trim_end(v@.subrange(lo as int, hi as int)),
{
    let mut j: usize = hi;
    while j > lo && is_space_char(v[j - 1])
        invariant
            lo <= j <= hi <= v.len(),
            trim_end(v@.subrange(lo as int, j as int)) == trim_end(
                v@.subrange(lo as int, hi as int),
            ),
        decreases j - lo,
    {
        assert(v@.subrange(lo as int, j as int).drop_last() =~= v@.subrange(lo as int, j - 1));
        j -= 1;
    }
    j
}

/// Bounds of `v[lo..hi]` without its leading and trailing white space.
pub fn trim_bounds(v: &Vec<char>, lo: usize, hi: usize) -> (r: (usize, usize))
    requires
        lo <= hi <= v.len(),
    ensures
        lo <= r.0 <= r.1 <= hi,
        v@.subrange(r.0 as int, r.1 as int) == trimmed(v@.subrange(lo as int, hi as int)),
{
    let a = skip_spaces(v, lo, hi);
    let b = drop_trailing_spaces(v, a, hi);
    (a, b)
}

/// A copy of `v[lo..hi]`.
pub fn copy_range(v: &Vec<char>, lo: usize, hi: usize) -> (r: Vec<char>)
    requires
        lo <= hi <= v.len(),
    ensures
        r@ == v@.subrange(lo as int, hi as int),
{
    let mut r: Vec<char> = Vec::new();
    let mut i: usize = lo;
    while i < hi
        invariant
            lo <= i <= hi <= v.len(),
            r@ == v@.subrange(lo as int, i as int),
        decreases hi - i,
    {
        r.push(v[i]);
        assert(r@ =~= v@.subrange(lo as int, i + 1));
        i += 1;
    }
    r
}

/// Position of the first `c` in `v[lo..hi]`, or `hi` where there is none.
pub fn find_char(v: &Vec<char>, lo: usize, hi: usize, c: char) -> (r: usize)
    requires
        lo <= hi <= v.len(),
    ensures
        lo <= r <= hi,
        r - lo == first_index(v@.subrange(lo as int, hi as int), c),
{
    let mut i: usize = lo;
    while i < hi && v[i] != c
        invariant
            lo <= i <= hi <= v.len(),
            first_index(v@.subrange(lo as int, hi as int), c) == (i - lo) + first_index(
                v@.subrange(i as int, hi as int),
                c,
            ),
        decreases hi - i,
    {
        assert(v@.subrange(i as int, hi as int).skip(1) =~= v@.subrange(i + 1, hi as int));
        i += 1;
    }
    i
}

/// The trimmed text of `s` as a new string.
pub fn trim_text(s: &str) -> (r: String)
    ensures
        r@ == trimmed(s@),
{
    let v = chars_of(s);
    let (a, b) = trim_bounds(&v, 0, v.len());
    assert(v@.subrange(0, v.len() as int) =~= v@);
    let t = copy_range(&v, a, b);
    string_of(&t)
}

/// Position of the first `\n` at or after `i`, or the end of the text.
pub open spec fn line_stop(s: Seq<char>, i: int) -> int {
    i + first_index(s.skip(i), '\n')
}

/// End of the text of the line that starts at `i`: its terminator, `\n` or
/// `\r\n`, is left out.
pub open spec fn line_text_end(s: Seq<char>, i: int) -> int {
    let j = line_stop(s, i);
    if j < s.len() && j > i && s[j - 1] == '\r' {
        j - 1
    } else {
        j
    }
}

/// Position after the line that starts at `i`: after its `\n`, or the end
/// of the text.
pub open spec fn next_line(s: Seq<char>, i: int) -> int {
    if line_stop(s, i) < s.len() {
        line_stop(s, i) + 1
    } else {
        line_stop(s, i)
    }
}

/// The lines of `s` from position `i` on, each without its terminator,
/// `\n` or `\r\n`; a terminator at the very end starts no further line.
pub open spec fn lines_from(s: Seq<char>, i: int) -> Seq<Seq<char>>
    decreases s.len() - i,
    via lines_from_decreases
{
    if i < 0 || i >= s.len() {
        Seq::empty()
    } else {
        seq![s.subrange(i, line_text_end(s, i))] + lines_from(s, next_line(s, i))
    }
}

#[via_fn]
proof fn lines_from_decreases(s: Seq<char>, i: int) {
    if 0 <= i < s.len() {
        lemma_first_index(s.skip(i), '\n');
    }
}

/// The contents of a sequence of lines.
pub open spec fn lines_of(v: Seq<Vec<char>>) -> Seq<Seq<char>> {
    Seq::new(v.len(), |k: int| v[k]@)
}

/// Cuts a text into its lines.
pub fn split_lines(text: &str) -> (r: Vec<Vec<char>>)
    ensures
        lines_of(r@) == lines_from(text@, 0),
{
    let v = chars_of(text);
    let n = v.len();
    let ghost s = v@;
    let ghost all = lines_from(s, 0);
    let mut out: Vec<Vec<char>> = Vec::new();
    let mut i: usize = 0;
    proof {
        assert(lines_of(out@) + lines_from(s, 0) =~= all);
    }
    while i < n
        invariant
            i <= n,
            n == v.len(),
            s == v@,
            lines_of(out@) + lines_from(s, i as int) == all,
        decreases n - i,
    {
        let stop = find_char(&v, i, n, '\n');
        proof {
            assert(s.subrange(i as int, n as int) =~= s.skip(i as int));
            lemma_first_index(s.skip(i as int), '\n');
        }
        let end = if stop < n && stop > i && v[stop - 1] == '\r' {
            stop - 1
        } else {
            stop
        };
        let line = copy_range(&v, i, end);
        let next = if stop < n {
            stop + 1
        } else {
            stop
        };
        proof {
            assert(lines_of(out@.push(line)) + lines_from(s, next as int) =~= lines_of(out@)
                + lines_from(s, i as int));
        }
        out.push(line);
        i = next;
    }
    proof {
        assert(lines_of(out@) + lines_from(s, n as int) =~= lines_of(out@));
    }
    out
}

/// Whether `s` starts with `p`.
pub open spec fn starts_with(s: Seq<char>, p: Seq<char>) -> bool {
    s.len() >= p.len() && s.take(p.len() as int) == p
}

/// Whether `s` ends with `p`.
pub open spec fn ends_with(s: Seq<char>, p: Seq<char>) -> bool {
    s.len() >= p.len() && s.skip(s.len() - p.len()) == p
}

/// Whether `p` stands in `v` at position `at`.
pub fn matches_at(v: &Vec<char>, at: usize, p: &Vec<char>) -> (r: bool)
    requires
        at <= v.len(),
    ensures
        r == (v.len() - at >= p.len() && v@.subrange(at as int, at + p.len()) == p@),
{
    if v.len() - at < p.len() {
        return false;
    }
    let mut i: usize = 0;
    while i < p.len()
        invariant
            i <= p.len(),
            at + p.len() <= v.len(),
            forall|k: int| 0 <= k < i ==> v@[at + k] == p@[k],
        decreases p.len() - i,
    {
        if v[at + i] != p[i] {
            assert(v@.subrange(at as int, at + p.len())[i as int] != p@[i as int]);
            return false;
        }
        i += 1;
    }
    assert(v@.subrange(at as int, at + p.len()) =~= p@);
    true
}

/// Whether `v` starts with `p`.
pub fn has_prefix(v: &Vec<char>, p: &str) -> (r: bool)
    ensures
        r == starts_with(v@, p@),
{
    let p = chars_of(p);
    proof {
        if v.len() >= p.len() {
            assert(v@.subrange(0, p.len() as int) =~= v@.take(p.len() as int));
        }
    }
    matches_at(v, 0, &p)
}

/// Whether `v` ends with `p`.
pub fn has_suffix(v: &Vec<char>, p: &str) -> (r: bool)
    ensures
        r == ends_with(v@, p@),
{
    let p = chars_of(p);
    if v.len() < p.len() {
        return false;
    }
    proof {
        assert(v@.subrange(v.len() - p.len(), v.len() as int) =~= v@.skip(v.len() - p.len()));
    }
    matches_at(v, v.len() - p.len(), &p)
}

/// `s` with every occurrence of `from` replaced by `to`, the occurrences
/// taken from left to right without overlap. An empty `from` replaces
/// nothing.
pub open spec fn replaced(s: Seq<char>, from: Seq<char>, to: Seq<char>) -> Seq<char>
    decreases s.len(),
{
    if from.len() == 0 || s.len() < from.len() {
        s
    } else if s.take(from.len() as int) == from {
        to + replaced(s.skip(from.len() as int), from, to)
    } else {
        seq![s[0]] + replaced(s.skip(1), from, to)
    }
}

/// Replaces every occurrence of `from` in `v` by `to`.
pub fn replace_all(v: &Vec<char>, from: &str, to: &str) -> (r: Vec<char>)
    ensures
        r@ == replaced(v@, from@, to@),
{
    let from = chars_of(from);
    let to = chars_of(to);
    let n = v.len();
    let m = from.len();
    let mut out: Vec<char> = Vec::new();
    let mut i: usize = 0;
    proof {
        assert(v@.skip(0) =~= v@);
    }
    while i < n
        invariant
            i <= n,
            n == v.len(),
            m == from.len(),
            out@ + replaced(v@.skip(i as int), from@, to@) == replaced(v@, from@, to@),
        decreases n - i,
    {
        let ghost tail = v@.skip(i as int);
        let ghost sofar = out@;
        if m > 0 && matches_at(v, i, &from) {
            proof {
                assert(tail.take(m as int) =~= v@.subrange(i as int, i + m));
                assert(tail.skip(m as int) =~= v@.skip(i + m));
            }
            let mut j: usize = 0;
            while j < to.len()
                invariant
                    j <= to.len(),
                    out@ == sofar + to@.take(j as int),
                decreases to.len() - j,
            {
                out.push(to[j]);
                assert(out@ =~= sofar + to@.take(j + 1));
                j += 1;
            }
            proof {
                assert(to@.take(to.len() as int) =~= to@);
                assert(out@ + replaced(v@.skip(i + m), from@, to@) =~= sofar + (to@ + replaced(
                    v@.skip(i + m),
                    from@,
                    to@,
                )));
            }
            i += m;
        } else if m == 0 || n - i < m {
            proof {
                assert(tail.skip(1) =~= v@.skip(i + 1));
                assert(replaced(tail, from@, to@) == tail);
                assert(replaced(v@.skip(i + 1), from@, to@) == v@.skip(i + 1));
                assert(sofar.push(v@[i as int]) + v@.skip(i + 1) =~= sofar + tail);
            }
            out.push(v[i]);
            i += 1;
        } else {
            proof {
                assert(tail.take(m as int) =~= v@.subrange(i as int, i + m));
                assert(tail.skip(1) =~= v@.skip(i + 1));
                assert(sofar.push(v@[i as int]) + replaced(v@.skip(i + 1), from@, to@) =~= sofar
                    + (seq![tail[0]] + replaced(tail.skip(1), from@, to@)));
            }
            out.push(v[i]);
            i += 1;
        }
    }
    proof {
        assert(v@.skip(n as int) =~= Seq::<char>::empty());
        assert(out@ + Seq::<char>::empty() =~= out@);
    }
    out
}

/// Whether a character is a round bracket.
pub open spec fn is_paren(c: char) -> bool {
    c == '(' || c == ')'
}

/// `s` with every space, and with `dots` set every dot too, replaced by `_`.
pub open spec fn underscored(s: Seq<char>, dots: bool) -> Seq<char> {
    Seq::new(
        s.len(),
        |i: int|
            if s[i] == ' ' || (dots && s[i] == '.') {
                '_'
            } else {
                s[i]
            },
    )
}

/// `s` without its round brackets.
pub open spec fn without_parens(s: Seq<char>) -> Seq<char> {
    s.filter(|c: char| !is_paren(c))
}

/// Replaces spaces (and dots, when `dots` is set) by underscores and removes
/// round brackets.
pub fn squash(v: &Vec<char>, dots: bool) -> (r: Vec<char>)
    ensures
        r@ == without_parens(underscored(v@, dots)),
{
    let ghost keep = |c: char| !is_paren(c);
    let ghost u = underscored(v@, dots);
    let mut r: Vec<char> = Vec::new();
    let mut i: usize = 0;
    proof {
        reveal(Seq::filter);
        assert(u.take(0) =~= Seq::<char>::empty());
    }
    while i < v.len()
        invariant
            i <= v.len(),
            u == underscored(v@, dots),
            keep == (|c: char| !is_paren(c)),
            r@ == u.take(i as int).filter(keep),
        decreases v.len() - i,
    {
        let c = v[i];
        let d = if c == ' ' || (dots && c == '.') {
            '_'
        } else {
            c
        };
        proof {
            reveal(Seq::filter);
            assert(u.take(i + 1).drop_last() =~= u.take(i as int));
            assert(u.take(i + 1).last() == d);
        }
        if d != '(' && d != ')' {
            r.push(d);
        }
        i += 1;
    }
    assert(u.take(v.len() as int) =~= u);
    r
}

/// The normal form of a key: trimmed, lowercased, spaces (and dots, with
/// `dots` set) turned into underscores, round brackets removed.
pub open spec fn normalized(k: Seq<char>, dots: bool) -> Seq<char> {
    without_parens(underscored(lowered(trimmed(k)), dots))
}

/// Brings a key into its normal form.
pub fn normalize(k: &str, dots: bool) -> (r: String)
    ensures
        r@ == normalized(k@, dots),
{
    let t = trim_text(k);
    let low = lowercase(t.as_str());
    let v = chars_of(low.as_str());
    let r = squash(&v, dots);
    string_of(&r)
}

/// A filtered text holds only characters of the text that pass the test,
/// and no more characters than the text.
proof fn lemma_filter_members(s: Seq<char>, keep: spec_fn(char) -> bool)
    ensures
        s.filter(keep).len() <= s.len(),
        forall|i: int|
            0 <= i < s.filter(keep).len() ==> keep(#[trigger] s.filter(keep)[i]) && s.contains(
                s.filter(keep)[i],
            ),
    decreases s.len(),
{
    reveal(Seq::filter);
    if s.len() > 0 {
        lemma_filter_members(s.drop_last(), keep);
        let f = s.filter(keep);
        assert forall|i: int| 0 <= i < f.len() implies keep(#[trigger] f[i]) && s.contains(
            f[i],
        ) by {
            if i < s.drop_last().filter(keep).len() {
                let c = s.drop_last().filter(keep)[i];
                assert(s.drop_last().contains(c));
                let j = choose|j: int| 0 <= j < s.drop_last().len() && s.drop_last()[j] == c;
                assert(s[j] == c);
            } else {
                assert(f[i] == s.last());
                assert(s[s.len() - 1] == s.last());
            }
        }
    }
}

/// Filtering with a test that every character passes changes nothing.
proof fn lemma_filter_all(s: Seq<char>, keep: spec_fn(char) -> bool)
    requires
        forall|i: int| 0 <= i < s.len() ==> keep(#[trigger] s[i]),
    ensures
        s.filter(keep) == s,
    decreases s.len(),
{
    reveal(Seq::filter);
    if s.len() > 0 {
        assert(s.drop_last().push(s.last()) =~= s);
        assert forall|i: int| 0 <= i < s.drop_last().len() implies keep(
            #[trigger] s.drop_last()[i],
        ) by {
            assert(s.drop_last()[i] == s[i]);
        }
        lemma_filter_all(s.drop_last(), keep);
        assert(s.filter(keep) =~= s);
    } else {
        assert(s.filter(keep) =~= s);
    }
}

/// A normal form holds no space and no round bracket, and with `dots` set no
/// dot either.
pub proof fn lemma_normalized_chars(k: Seq<char>, dots: bool)
    ensures
        forall|i: int|
            0 <= i < normalized(k, dots).len() ==> {
                let c = #[trigger] normalized(k, dots)[i];
                c != ' ' && c != '(' && c != ')' && (dots ==> c != '.')
            },
{
    let u = underscored(lowered(trimmed(k)), dots);
    let keep = |c: char| !is_paren(c);
    lemma_filter_members(u, keep);
    let n = normalized(k, dots);
    assert forall|i: int| 0 <= i < n.len() implies {
        let c = #[trigger] n[i];
        c != ' ' && c != '(' && c != ')' && (dots ==> c != '.')
    } by {
        let c = n[i];
        assert(keep(c) && u.contains(c));
        let j = choose|j: int| 0 <= j < u.len() && u[j] == c;
        assert(u[j] == c);
    }
}

/// Normalising a normal form again gives it back, wherever the normal form
/// neither begins or ends with white space nor changes under lowercasing.
pub proof fn lemma_normal_form_is_fixed(k: Seq<char>, dots: bool)
    ensures
        ({
            let n = normalized(k, dots);
            trimmed(n) == n && lowered(n) == n ==> normalized(n, dots) == n
        }),
{
    let n = normalized(k, dots);
    if trimmed(n) == n && lowered(n) == n {
        lemma_normalized_chars(k, dots);
        assert(underscored(n, dots) =~= n);
        lemma_filter_all(n, |c: char| !is_paren(c));
    }
}

/// Trimming cuts a text at its two ends and nowhere else: the result is a
/// range of the text, and it is the whole text where nothing was cut.
pub proof fn lemma_trimmed_is_range(s: Seq<char>)
    ensures
        trimmed(s).len() <= s.len(),
        trimmed(s).len() == s.len() ==> trimmed(s) == s,
        forall|i: int| 0 <= i < trimmed(s).len() ==> s.contains(#[trigger] trimmed(s)[i]),
{
    lemma_trim_start_is_suffix(s);
    let t = trim_start(s);
    lemma_trim_end_is_prefix(t);
    let r = trim_end(t);
    assert forall|i: int| 0 <= i < r.len() implies s.contains(#[trigger] r[i]) by {
        assert(r[i] == t[i]);
        assert(t[i] == s[i + (s.len() - t.len())]);
    }
}

proof fn lemma_trim_start_is_suffix(s: Seq<char>)
    ensures
        trim_start(s).len() <= s.len(),
        trim_start(s) == s.skip(s.len() - trim_start(s).len()),
    decreases s.len(),
{
    if s.len() > 0 && is_space(s[0]) {
        lemma_trim_start_is_suffix(s.skip(1));
        let t = trim_start(s.skip(1));
        assert(s.skip(1).skip(s.len() - 1 - t.len()) =~= s.skip(s.len() - t.len()));
    } else {
        assert(s.skip(0) =~= s);
    }
}

proof fn lemma_trim_end_is_prefix(s: Seq<char>)
    ensures
        trim_end(s).len() <= s.len(),
        trim_end(s) == s.take(trim_end(s).len() as int),
    decreases s.len(),
{
    if s.len() > 0 && is_space(s.last()) {
        lemma_trim_end_is_prefix(s.drop_last());
        let t = trim_end(s.drop_last());
        assert(s.drop_last().take(t.len() as int) =~= s.take(t.len() as int));
    } else {
        assert(s.take(s.len() as int) =~= s);
    }
}

/// Whether `s` holds ASCII characters only and none of the letters `A` to
/// `Z`.
pub open spec fn is_plain_lower(s: Seq<char>) -> bool {
    forall|i: int| 0 <= i < s.len() ==> (#[trigger] s[i] as u32) < 128 && !('A' <= s[i] && s[i] <= 'Z')
}

/// The normal form of an ASCII key is ASCII and holds no capital letter.
pub proof fn lemma_normalized_ascii(k: Seq<char>, dots: bool)
    requires
        is_ascii_text(k),
    ensures
        is_plain_lower(normalized(k, dots)),
        normalized(k, dots).len() <= k.len(),
{
    let t = trimmed(k);
    lemma_trimmed_is_range(k);
    assert forall|i: int| 0 <= i < t.len() implies (#[trigger] t[i] as u32) < 128 by {
        let j = choose|j: int| 0 <= j < k.len() && k[j] == t[i];
        assert(k[j] == t[i]);
    }
    assert(is_ascii_text(t));
    let u = underscored(lowered(t), dots);
    assert(is_plain_lower(u));
    let keep = |c: char| !is_paren(c);
    lemma_filter_members(u, keep);
    let n = normalized(k, dots);
    assert forall|i: int| 0 <= i < n.len() implies (#[trigger] n[i] as u32) < 128 && !('A' <= n[i]
        && n[i] <= 'Z') by {
        assert(u.contains(n[i]));
        let j = choose|j: int| 0 <= j < u.len() && u[j] == n[i];
        assert(u[j] == n[i]);
    }
}

/// Key normalization is idempotent on ASCII keys whose normal form neither
/// begins nor ends with white space: normalising the normal form gives it
/// back.
pub proof fn lemma_normalize_idempotent(k: Seq<char>, dots: bool)
    requires
        is_ascii_text(k),
        trimmed(normalized(k, dots)) == normalized(k, dots),
    ensures
        normalized(normalized(k, dots), dots) == normalized(k, dots),
{
    let n = normalized(k, dots);
    lemma_normalized_ascii(k, dots);
    assert(is_ascii_text(n));
    assert(ascii_lower(n) =~= n);
    lemma_normal_form_is_fixed(k, dots);
}

/// Where the normal form of an ASCII key begins or ends with white space,
/// which brackets around the white space can bring about, normalising it
/// again makes it shorter.
pub proof fn lemma_normalize_cuts_exposed_space(k: Seq<char>, dots: bool)
    requires
        is_ascii_text(k),
        trimmed(normalized(k, dots)) != normalized(k, dots),
    ensures
        normalized(normalized(k, dots), dots).len() < normalized(k, dots).len(),
{
    let n = normalized(k, dots);
    lemma_normalized_ascii(k, dots);
    assert(is_ascii_text(n));
    lemma_trimmed_is_range(n);
    lemma_normalized_ascii(n, dots);
    let t = trimmed(n);
    assert forall|i: int| 0 <= i < t.len() implies (#[trigger] t[i] as u32) < 128 by {
        let j = choose|j: int| 0 <= j < n.len() && n[j] == t[i];
        assert(n[j] == t[i]);
    }
    assert(is_ascii_text(t));
    lemma_filter_members(underscored(lowered(t), dots), |c: char| !is_paren(c));
}

} // verus!
