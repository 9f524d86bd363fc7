//! The output tree: plain values, ordered dictionaries, and the rules by
//! which raw text becomes a value and entries are merged into a dictionary.

use crate::text::{chars_of, lowercase, lowered};
use vstd::prelude::*;

verus! {

/// Mathematical content of a [`Value`].
pub enum Datum {
    Null,
    Bool(bool),
    Int(int),
    Float(Seq<char>),
    Text(Seq<char>),
    List(Seq<Datum>),
    Dict(Seq<(Seq<char>, Datum)>),
}

/// A node of the output tree. `Null` marks a key without a value, `Float`
/// keeps the literal as written, and `Dict` keeps its keys in the order of
/// their first insertion.
#[derive(Debug, PartialEq)]
pub enum Value {
    Null,
    Bool(bool),
    Int(i64),
    Float(String),
    Text(String),
    List(Vec<Value>),
    Dict(Vec<(String, Value)>),
}

/// The content of a value.
pub open spec fn datum_of(v: Value) -> Datum
    decreases v,
{
    match v {
        Value::Null => Datum::Null,
        Value::Bool(b) => Datum::Bool(b),
        Value::Int(n) => Datum::Int(n as int),
        Value::Float(s) => Datum::Float(s@),
        Value::Text(s) => Datum::Text(s@),
        Value::List(xs) => Datum::List(
            Seq::new(
                xs@.len(),
                |i: int|
                    if 0 <= i < xs@.len() {
                        datum_of(xs@[i])
                    } else {
                        arbitrary()
                    },
            ),
        ),
        Value::Dict(es) => Datum::Dict(
            Seq::new(
                es@.len(),
                |i: int|
                    if 0 <= i < es@.len() {
                        (es@[i].0@, datum_of(es@[i].1))
                    } else {
                        arbitrary()
                    },
            ),
        ),
    }
}

impl View for Value {
    type V = Datum;

    open spec fn view(&self) -> Datum {
        datum_of(*self)
    }
}

/// The contents of a sequence of values.
pub open spec fn data_of(xs: Seq<Value>) -> Seq<Datum> {
    Seq::new(xs.len(), |i: int| xs[i]@)
}

/// The contents of a sequence of dictionary entries.
pub open spec fn pairs_of(es: Seq<(String, Value)>) -> Seq<(Seq<char>, Datum)> {
    Seq::new(es.len(), |i: int| (es[i].0@, es[i].1@))
}

/// The content of a list is the contents of its items.
pub proof fn lemma_list_view(xs: Vec<Value>)
    ensures
        Value::List(xs)@ == Datum::List(data_of(xs@)),
{
    let d = Value::List(xs)@;
    assert(d->List_0 =~= data_of(xs@));
}

/// The content of a dictionary is the contents of its entries.
pub proof fn lemma_dict_view(es: Vec<(String, Value)>)
    ensures
        Value::Dict(es)@ == Datum::Dict(pairs_of(es@)),
{
    let d = Value::Dict(es)@;
    assert(d->Dict_0 =~= pairs_of(es@));
}

/// Whether `c` is an ASCII decimal digit.
pub open spec fn is_digit(c: char) -> bool {
    '0' <= c && c <= '9'
}

/// The number that a string of decimal digits denotes.
pub open spec fn digits_value(s: Seq<char>) -> int
    decreases s.len(),
{
    if s.len() == 0 {
        0
    } else {
        digits_value(s.drop_last()) * 10 + ((s.last() as u32) as int - 48)
    }
}

/// Whether every character of `s` is a decimal digit.
pub open spec fn all_digits(s: Seq<char>) -> bool {
    forall|i: int| 0 <= i < s.len() ==> is_digit(#[trigger] s[i])
}

/// The 64-bit integer that `s` denotes: an optional sign, then one or more
/// decimal digits, with a value in range. `None` for every other text.
pub open spec fn int_literal(s: Seq<char>) -> Option<int> {
    let signed = s.len() > 0 && (s[0] == '-' || s[0] == '+');
    let body = if signed {
        s.skip(1)
    } else {
        s
    };
    let v = if s.len() > 0 && s[0] == '-' {
        -digits_value(body)
    } else {
        digits_value(body)
    };
    if body.len() > 0 && all_digits(body) && i64::MIN <= v <= i64::MAX {
        Some(v)
    } else {
        None
    }
}

/// A digit string denotes at least what any of its prefixes denotes.
pub proof fn lemma_digits_value_grows(s: Seq<char>, k: int)
    requires
        all_digits(s),
        0 <= k <= s.len(),
    ensures
        0 <= digits_value(s.take(k)) <= digits_value(s),
    decreases s.len() - k,
{
    if k == s.len() {
        assert(s.take(k) =~= s);
        lemma_digits_value_nonnegative(s);
    } else {
        lemma_digits_value_grows(s, k + 1);
        assert(s.take(k + 1).drop_last() =~= s.take(k));
        assert(is_digit(s[k]));
        assert(s.take(k + 1).last() == s[k]);
        lemma_digits_value_nonnegative(s.take(k));
    }
}

/// A digit string denotes a number that is not negative.
pub proof fn lemma_digits_value_nonnegative(s: Seq<char>)
    requires
        all_digits(s),
    ensures
        0 <= digits_value(s),
    decreases s.len(),
{
    if s.len() > 0 {
        assert(is_digit(s.last()));
        assert forall|i: int| 0 <= i < s.drop_last().len() implies is_digit(
            #[trigger] s.drop_last()[i],
        ) by {
            assert(s.drop_last()[i] == s[i]);
        }
        lemma_digits_value_nonnegative(s.drop_last());
    }
}

/// Reads a 64-bit integer literal.
pub fn parse_int(v: &Vec<char>) -> (r: Option<i64>)
    ensures
        match r {
            Some(x) => int_literal(v@) == Some(x as int),
            None => int_literal(v@) is None,
        },
{
    let n = v.len();
    if n == 0 {
        return None;
    }
    let neg = v[0] == '-';
    let start: usize = if neg || v[0] == '+' {
        1
    } else {
        0
    };
    if start == n {
        return None;
    }
    let ghost body = v@.subrange(start as int, n as int);
    proof {
        if start == 1 {
            assert(body =~= v@.skip(1));
        } else {
            assert(body =~= v@);
        }
    }
    let limit: i128 = if neg {
        0x8000_0000_0000_0000i128
    } else {
        0x7fff_ffff_ffff_ffffi128
    };
    let mut acc: i128 = 0;
    let mut i: usize = start;
    while i < n
        invariant
            start <= i <= n,
            n == v.len(),
            body == v@.subrange(start as int, n as int),
            body == if v@[0] == '-' || v@[0] == '+' {
                v@.skip(1)
            } else {
                v@
            },
            neg == (v@[0] == '-'),
            limit == if neg {
                0x8000_0000_0000_0000i128
            } else {
                0x7fff_ffff_ffff_ffffi128
            },
            acc == digits_value(body.take(i - start)),
            0 <= acc <= limit,
            forall|j: int| 0 <= j < i - start ==> is_digit(#[trigger] body[j]),
        decreases n - i,
    {
        let c = v[i];
        if !(c >= '0' && c <= '9') {
            assert(body[i - start] == c);
            return None;
        }
        let d: i128 = ((c as u32) - 48) as i128;
        proof {
            assert(body.take(i - start + 1).drop_last() =~= body.take(i - start));
            assert(body.take(i - start + 1).last() == c);
        }
        acc = acc * 10 + d;
        if acc > limit {
            proof {
                if all_digits(body) {
                    lemma_digits_value_grows(body, i - start + 1);
                }
            }
            return None;
        }
        i += 1;
    }
    proof {
        assert(body.take(n - start) =~= body);
    }
    if neg {
        Some((-acc) as i64)
    } else {
        Some(acc as i64)
    }
}

/// End of the run of decimal digits of `s` that starts at `i`.
pub open spec fn digits_end(s: Seq<char>, i: int) -> int
    decreases s.len() - i,
{
    if 0 <= i < s.len() && is_digit(s[i]) {
        digits_end(s, i + 1)
    } else {
        i
    }
}

/// Whether `c` is the lower-case ASCII letter `lower` or its upper-case form.
pub open spec fn same_letter(c: char, lower: char) -> bool {
    c == lower || (c as u32) + 32 == lower as u32
}

/// Whether `s` from position `a` on spells `w`, whatever the case of its
/// letters.
pub open spec fn spells(s: Seq<char>, a: int, w: Seq<char>) -> bool {
    &&& s.len() - a == w.len()
    &&& forall|i: int| 0 <= i < w.len() ==> same_letter(#[trigger] s[a + i], w[i])
}

/// Whether `s` from position `a` on is a decimal number: digits with at most
/// one point among them, at least one digit, and optionally an exponent of
/// `e`, a sign and at least one digit.
pub open spec fn is_number(s: Seq<char>, a: int) -> bool {
    let p = digits_end(s, a);
    let dot = p < s.len() && s[p] == '.';
    let q = if dot {
        digits_end(s, p + 1)
    } else {
        p
    };
    let count = if dot {
        q - a - 1
    } else {
        q - a
    };
    let r = if q + 1 < s.len() && (s[q + 1] == '+' || s[q + 1] == '-') {
        q + 2
    } else {
        q + 1
    };
    &&& count > 0
    &&& (q == s.len() || ((s[q] == 'e' || s[q] == 'E') && r < s.len() && digits_end(s, r)
        == s.len()))
}

/// Whether `s` is a floating-point literal: an optional sign, then `inf`,
/// `infinity` or `nan` in any case, or a decimal number.
pub open spec fn is_float_literal(s: Seq<char>) -> bool {
    let a: int = if s.len() > 0 && (s[0] == '+' || s[0] == '-') {
        1
    } else {
        0
    };
    ||| spells(s, a, seq!['i', 'n', 'f'])
    ||| spells(s, a, seq!['i', 'n', 'f', 'i', 'n', 'i', 't', 'y'])
    ||| spells(s, a, seq!['n', 'a', 'n'])
    ||| is_number(s, a)
}

fn scan_digits(v: &Vec<char>, from: usize) -> (r: usize)
    requires
        from <= v.len(),
    ensures
        r == digits_end(v@, from as int),
        from <= r <= v.len(),
{
    let mut i: usize = from;
    while i < v.len() && v[i] >= '0' && v[i] <= '9'
        invariant
            from <= i <= v.len(),
            digits_end(v@, i as int) == digits_end(v@, from as int),
        decreases v.len() - i,
    {
        i += 1;
    }
    i
}

fn letter_matches(c: char, lower: char) -> (r: bool)
    requires
        (lower as u32) >= 32,
    ensures
        r == same_letter(c, lower),
{
    c == lower || (c as u32) == (lower as u32) - 32
}

fn spells_word(v: &Vec<char>, a: usize, w: &Vec<char>) -> (r: bool)
    requires
        a <= v.len(),
        forall|i: int| 0 <= i < w.len() ==> (#[trigger] w[i] as u32) >= 32,
    ensures
        r == spells(v@, a as int, w@),
{
    if v.len() - a != w.len() {
        return false;
    }
    let mut i: usize = 0;
    while i < w.len()
        invariant
            a <= v.len(),
            v.len() - a == w.len(),
            i <= w.len(),
            forall|j: int| 0 <= j < w.len() ==> (#[trigger] w[j] as u32) >= 32,
            forall|j: int| 0 <= j < i ==> same_letter(#[trigger] v@[a + j], w@[j]),
        decreases w.len() - i,
    {
        if !letter_matches(v[a + i], w[i]) {
            assert(!same_letter(v@[a + i], w@[i as int]));
            return false;
        }
        i += 1;
    }
    true
}

fn number_at(v: &Vec<char>, a: usize) -> (r: bool)
    requires
        a <= v.len(),
    ensures
        r == is_number(v@, a as int),
{
    let n = v.len();
    let p = scan_digits(v, a);
    let dot = p < n && v[p] == '.';
    let q = if dot {
        scan_digits(v, p + 1)
    } else {
        p
    };
    let count = if dot {
        q - a - 1
    } else {
        q - a
    };
    if count == 0 {
        return false;
    }
    if q == n {
        return true;
    }
    if !(v[q] == 'e' || v[q] == 'E') {
        return false;
    }
    let r = if q + 1 < n && (v[q + 1] == '+' || v[q + 1] == '-') {
        q + 2
    } else {
        q + 1
    };
    if r >= n {
        return false;
    }
    scan_digits(v, r) == n
}

/// Recognises a floating-point literal.
pub fn is_float(v: &Vec<char>) -> (r: bool)
    ensures
        r == is_float_literal(v@),
{
    let a: usize = if v.len() > 0 && (v[0] == '+' || v[0] == '-') {
        1
    } else {
        0
    };
    let inf: Vec<char> = vec!['i', 'n', 'f'];
    let infinity: Vec<char> = vec!['i', 'n', 'f', 'i', 'n', 'i', 't', 'y'];
    let nan: Vec<char> = vec!['n', 'a', 'n'];
    proof {
        assert(inf@ =~= seq!['i', 'n', 'f']);
        assert(infinity@ =~= seq!['i', 'n', 'f', 'i', 'n', 'i', 't', 'y']);
        assert(nan@ =~= seq!['n', 'a', 'n']);
    }
    spells_word(v, a, &inf) || spells_word(v, a, &infinity) || spells_word(v, a, &nan)
        || number_at(v, a)
}

/// The value that a text stands for, given its lowercase form: `yes` and
/// `true` are `true`, `no` and `false` are `false`; then an integer literal,
/// then a floating-point literal; anything else is text.
pub open spec fn coerced_text(v: Seq<char>, low: Seq<char>) -> Datum {
    if low == "yes"@ || low == "true"@ {
        Datum::Bool(true)
    } else if low == "no"@ || low == "false"@ {
        Datum::Bool(false)
    } else if int_literal(v) is Some {
        Datum::Int(int_literal(v)->0)
    } else if is_float_literal(v) {
        Datum::Float(v)
    } else {
        Datum::Text(v)
    }
}

/// The value that a raw text stands for: absent text is `Null`, and any
/// text is read in the light of its lowercase form, whatever its case.
pub open spec fn coerced(raw: Option<Seq<char>>) -> Datum {
    match raw {
        None => Datum::Null,
        Some(v) => coerced_text(v, lowered(v)),
    }
}

/// Coercion is total: every text becomes a boolean, an integer within 64
/// bits, a floating-point literal or a text, and only absent text becomes
/// `Null`.
pub proof fn lemma_coercion_total(raw: Option<Seq<char>>)
    ensures
        raw is None <==> coerced(raw) is Null,
        raw is Some ==> {
            ||| coerced(raw) is Bool
            ||| (coerced(raw) is Int && i64::MIN <= coerced(raw)->Int_0 <= i64::MAX)
            ||| (coerced(raw) is Float && is_float_literal(coerced(raw)->Float_0))
            ||| coerced(raw) is Text
        },
        !(coerced(raw) is List),
        !(coerced(raw) is Dict),
{
}

/// Coerces a text whose lowercase form is `low`.
pub fn coerce_lowered(value: &str, low: &str) -> (r: Value)
    ensures
        r@ == coerced_text(value@, low@),
{
    let low = String::from_str(low);
    if low.eq(&String::from_str("yes")) || low.eq(&String::from_str("true")) {
        return Value::Bool(true);
    }
    if low.eq(&String::from_str("no")) || low.eq(&String::from_str("false")) {
        return Value::Bool(false);
    }
    let v = chars_of(value);
    match parse_int(&v) {
        Some(n) => Value::Int(n),
        None => {
            if is_float(&v) {
                Value::Float(String::from_str(value))
            } else {
                Value::Text(String::from_str(value))
            }
        },
    }
}

/// Coerces a raw value text.
pub fn parse_value(value: &str) -> (r: Value)
    ensures
        r@ == coerced(Some(value@)),
{
    let low = lowercase(value);
    coerce_lowered(value, low.as_str())
}

/// Position of the first entry of `d` with key `k`, or `d.len()`.
pub open spec fn key_index(d: Seq<(Seq<char>, Datum)>, k: Seq<char>) -> int
    decreases d.len(),
{
    if d.len() == 0 || d[0].0 == k {
        0
    } else {
        1 + key_index(d.skip(1), k)
    }
}

/// `key_index` is within bounds, names an entry with key `k` when inside
/// the dictionary, and no entry before it has that key.
pub proof fn lemma_key_index(d: Seq<(Seq<char>, Datum)>, k: Seq<char>)
    ensures
        0 <= key_index(d, k) <= d.len(),
        key_index(d, k) < d.len() ==> d[key_index(d, k)].0 == k,
        forall|i: int| 0 <= i < key_index(d, k) ==> (#[trigger] d[i]).0 != k,
    decreases d.len(),
{
    if d.len() == 0 || d[0].0 == k {
    } else {
        lemma_key_index(d.skip(1), k);
        assert forall|i: int| 0 <= i < key_index(d, k) implies (#[trigger] d[i]).0 != k by {
            if i > 0 {
                assert(d.skip(1)[i - 1] == d[i]);
            }
        }
    }
}

/// Whether `d` has an entry with key `k`.
pub open spec fn has_key(d: Seq<(Seq<char>, Datum)>, k: Seq<char>) -> bool {
    key_index(d, k) < d.len()
}

/// The value that `d` holds under `k`; meaningful where `has_key` holds.
pub open spec fn lookup(d: Seq<(Seq<char>, Datum)>, k: Seq<char>) -> Datum {
    d[key_index(d, k)].1
}

/// What a `note` slot holds once `v` joins what it held before: a list that
/// grows, or a list made of the earlier value and the new one.
pub open spec fn joined_note(before: Datum, v: Datum) -> Datum {
    match before {
        Datum::List(xs) => Datum::List(xs.push(v)),
        x => Datum::List(seq![x, v]),
    }
}

/// The dictionary `d` after `(k, v)` is merged into it: a new key is added
/// at the end; an existing `note` collects the value; any other existing key
/// is overwritten in place.
pub open spec fn absorb(d: Seq<(Seq<char>, Datum)>, k: Seq<char>, v: Datum) -> Seq<
    (Seq<char>, Datum),
> {
    let i = key_index(d, k);
    if i >= d.len() {
        d.push((k, v))
    } else if k == "note"@ {
        d.update(i, (k, joined_note(d[i].1, v)))
    } else {
        d.update(i, (k, v))
    }
}

/// The dictionary `d` after each entry of `ps` is merged into it, in order.
pub open spec fn absorb_all(d: Seq<(Seq<char>, Datum)>, ps: Seq<(Seq<char>, Datum)>) -> Seq<
    (Seq<char>, Datum),
>
    decreases ps.len(),
{
    if ps.len() == 0 {
        d
    } else {
        absorb(absorb_all(d, ps.drop_last()), ps.last().0, ps.last().1)
    }
}

/// The dictionary that merging the entries `ps`, in order, builds.
pub open spec fn merged(ps: Seq<(Seq<char>, Datum)>) -> Seq<(Seq<char>, Datum)> {
    absorb_all(Seq::empty(), ps)
}

/// Merging two runs of entries one after the other is merging their
/// concatenation.
pub proof fn lemma_absorb_all_concat(
    d: Seq<(Seq<char>, Datum)>,
    a: Seq<(Seq<char>, Datum)>,
    b: Seq<(Seq<char>, Datum)>,
)
    ensures
        absorb_all(d, a + b) == absorb_all(absorb_all(d, a), b),
    decreases b.len(),
{
    if b.len() == 0 {
        assert(a + b =~= a);
    } else {
        assert((a + b).drop_last() =~= a + b.drop_last());
        assert((a + b).last() == b.last());
        lemma_absorb_all_concat(d, a, b.drop_last());
    }
}

/// Position of the first entry with the given key, or the length.
pub fn find_key(acc: &Vec<(String, Value)>, key: &String) -> (r: usize)
    ensures
        r == key_index(pairs_of(acc@), key@),
        r <= acc.len(),
{
    let ghost d = pairs_of(acc@);
    let mut i: usize = 0;
    proof {
        assert(d.skip(0) =~= d);
    }
    while i < acc.len() && !acc[i].0.eq(key)
        invariant
            i <= acc.len(),
            d == pairs_of(acc@),
            key_index(d, key@) == i + key_index(d.skip(i as int), key@),
        decreases acc.len() - i,
    {
        proof {
            assert(d.skip(i as int)[0] == d[i as int]);
            assert(d.skip(i as int).skip(1) =~= d.skip(i + 1));
        }
        i += 1;
    }
    proof {
        if i < acc.len() {
            assert(d.skip(i as int)[0] == d[i as int]);
        }
    }
    i
}

/// Merges one entry into a dictionary.
pub fn absorb_entry(acc: &mut Vec<(String, Value)>, key: String, value: Value)
    ensures
        pairs_of(final(acc)@) == absorb(pairs_of(old(acc)@), key@, value@),
{
    let ghost before = pairs_of(acc@);
    let i = find_key(acc, &key);
    if i >= acc.len() {
        acc.push((key, value));
        assert(pairs_of(acc@) =~= before.push((key@, value@)));
    } else if key.eq(&String::from_str("note")) {
        let held = acc.remove(i);
        let ghost was = held.1@;
        let joined = match held.1 {
            Value::List(mut xs) => {
                proof {
                    lemma_list_view(xs);
                }
                let ghost prior = data_of(xs@);
                xs.push(value);
                proof {
                    lemma_list_view(xs);
                    assert(data_of(xs@) =~= prior.push(value@));
                }
                Value::List(xs)
            },
            other => {
                let mut xs: Vec<Value> = Vec::new();
                xs.push(other);
                xs.push(value);
                proof {
                    lemma_list_view(xs);
                    assert(data_of(xs@) =~= seq![was, value@]);
                }
                Value::List(xs)
            },
        };
        acc.insert(i, (key, joined));
        assert(pairs_of(acc@) =~= before.update(i as int, (key@, joined_note(was, value@))));
    } else {
        let _ = acc.remove(i);
        acc.insert(i, (key, value));
        assert(pairs_of(acc@) =~= before.update(i as int, (key@, value@)));
    }
}

/// The dictionary `d` with `v` under `k`: an existing key is overwritten in
/// place, a new one is added at the end.
pub open spec fn put(d: Seq<(Seq<char>, Datum)>, k: Seq<char>, v: Datum) -> Seq<
    (Seq<char>, Datum),
> {
    let i = key_index(d, k);
    if i >= d.len() {
        d.push((k, v))
    } else {
        d.update(i, (k, v))
    }
}

/// Sets the value under a key.
pub fn put_entry(acc: &mut Vec<(String, Value)>, key: String, value: Value)
    ensures
        pairs_of(final(acc)@) == put(pairs_of(old(acc)@), key@, value@),
{
    let ghost before = pairs_of(acc@);
    let i = find_key(acc, &key);
    if i >= acc.len() {
        acc.push((key, value));
        assert(pairs_of(acc@) =~= before.push((key@, value@)));
    } else {
        let _ = acc.remove(i);
        acc.insert(i, (key, value));
        assert(pairs_of(acc@) =~= before.update(i as int, (key@, value@)));
    }
}

/// Merges every entry of `more` into `acc`, in order.
pub fn merge_into(acc: &mut Vec<(String, Value)>, more: Vec<(String, Value)>)
    ensures
        pairs_of(final(acc)@) == absorb_all(pairs_of(old(acc)@), pairs_of(more@)),
{
    let ghost start = pairs_of(acc@);
    let ghost ps = pairs_of(more@);
    proof {
        assert(ps.take(0) =~= Seq::<(Seq<char>, Datum)>::empty());
    }
    for pair in it: more
        invariant
            it.seq() == more@,
            ps == pairs_of(more@),
            pairs_of(acc@) == absorb_all(start, ps.take(it.index() as int)),
    {
        proof {
            let n = it.index() as int;
            assert(ps.take(n + 1).drop_last() =~= ps.take(n));
            assert(ps.take(n + 1).last() == (pair.0@, pair.1@));
        }
        absorb_entry(acc, pair.0, pair.1);
    }
    proof {
        assert(ps.take(ps.len() as int) =~= ps);
    }
}

/// The position that `key_index` gives is the only one that names the first
/// entry with the key, or the end where there is none.
pub proof fn lemma_key_index_is(d: Seq<(Seq<char>, Datum)>, k: Seq<char>, j: int)
    requires
        0 <= j <= d.len(),
        forall|i: int| 0 <= i < j ==> (#[trigger] d[i]).0 != k,
        j < d.len() ==> d[j].0 == k,
    ensures
        key_index(d, k) == j,
{
    lemma_key_index(d, k);
    let i = key_index(d, k);
    if i < j {
        assert(d[i].0 != k);
    }
}

/// What merging `(k, v)` into `d` does to the slot of a key `q`: the slot
/// of `k` exists afterwards and holds `v`, or for an earlier `note` what
/// joins the earlier value and `v`; every other slot is as before.
pub proof fn lemma_absorb_slot(
    d: Seq<(Seq<char>, Datum)>,
    k: Seq<char>,
    v: Datum,
    q: Seq<char>,
)
    ensures
        has_key(absorb(d, k, v), q) == (has_key(d, q) || q == k),
        q != k ==> lookup(absorb(d, k, v), q) == lookup(d, q) || !has_key(d, q),
        q == k ==> lookup(absorb(d, k, v), q) == if has_key(d, k) && k == "note"@ {
            joined_note(lookup(d, k), v)
        } else {
            v
        },
{
    lemma_key_index(d, k);
    lemma_key_index(d, q);
    let after = absorb(d, k, v);
    let i = key_index(d, k);
    let j = key_index(d, q);
    if i >= d.len() {
        if j < d.len() {
            lemma_key_index_is(after, q, j);
        } else if q == k {
            lemma_key_index_is(after, q, d.len() as int);
        } else {
            lemma_key_index_is(after, q, after.len() as int);
        }
    } else {
        assert forall|x: int| 0 <= x < d.len() implies (#[trigger] after[x]).0 == d[x].0 by {}
        lemma_key_index_is(after, q, j);
    }
}

/// Whether no two entries of `d` have the same key.
pub open spec fn keys_unique(d: Seq<(Seq<char>, Datum)>) -> bool {
    forall|i: int, j: int| 0 <= i < j < d.len() ==> (#[trigger] d[i]).0 != (#[trigger] d[j]).0
}

/// Merging an entry into a dictionary without repeated keys leaves it
/// without repeated keys.
pub proof fn lemma_absorb_keys_unique(d: Seq<(Seq<char>, Datum)>, k: Seq<char>, v: Datum)
    requires
        keys_unique(d),
    ensures
        keys_unique(absorb(d, k, v)),
{
    lemma_key_index(d, k);
    let after = absorb(d, k, v);
    assert forall|i: int, j: int| 0 <= i < j < after.len() implies (#[trigger] after[i]).0 != (
    #[trigger] after[j]).0 by {
        if key_index(d, k) >= d.len() {
            if j < d.len() {
                assert(after[i] == d[i] && after[j] == d[j]);
            } else {
                assert(after[i] == d[i]);
            }
        } else {
            assert(after[i].0 == d[i].0 && after[j].0 == d[j].0);
        }
    }
}

/// A merged dictionary has no repeated key.
pub proof fn lemma_merged_keys_unique(ps: Seq<(Seq<char>, Datum)>)
    ensures
        keys_unique(merged(ps)),
    decreases ps.len(),
{
    if ps.len() > 0 {
        lemma_merged_keys_unique(ps.drop_last());
        lemma_absorb_keys_unique(merged(ps.drop_last()), ps.last().0, ps.last().1);
    }
}

/// The values that the entries of `ps` bring under the key `note`, in order.
pub open spec fn note_values(ps: Seq<(Seq<char>, Datum)>) -> Seq<Datum>
    decreases ps.len(),
{
    if ps.len() == 0 {
        Seq::empty()
    } else if ps.last().0 == "note"@ {
        note_values(ps.drop_last()).push(ps.last().1)
    } else {
        note_values(ps.drop_last())
    }
}

/// Notes accumulate in source order: where none of the values brought under
/// `note` is itself a list, the merged dictionary has no `note` slot when
/// there was no note, holds a single note as it is, and holds two or more as
/// the list of all of them in order.
pub proof fn lemma_notes_accumulate(ps: Seq<(Seq<char>, Datum)>)
    requires
        forall|i: int| 0 <= i < ps.len() && (#[trigger] ps[i]).0 == "note"@ ==> !(ps[i].1 is List),
    ensures
        has_key(merged(ps), "note"@) == (note_values(ps).len() > 0),
        note_values(ps).len() == 1 ==> lookup(merged(ps), "note"@) == note_values(ps)[0],
        note_values(ps).len() == 1 ==> !(note_values(ps)[0] is List),
        note_values(ps).len() >= 2 ==> lookup(merged(ps), "note"@) == Datum::List(
            note_values(ps),
        ),
    decreases ps.len(),
{
    if ps.len() > 0 {
        let init = ps.drop_last();
        assert forall|i: int| 0 <= i < init.len() && (#[trigger] init[i]).0 == "note"@ implies !(
        init[i].1 is List) by {
            assert(init[i] == ps[i]);
        }
        lemma_notes_accumulate(init);
        lemma_absorb_slot(merged(init), ps.last().0, ps.last().1, "note"@);
        assert(ps.last() == ps[ps.len() - 1]);
        if ps.last().0 == "note"@ {
            let vs = note_values(init);
            let v = ps.last().1;
            if vs.len() == 1 {
                assert(vs.push(v) =~= seq![vs[0], v]);
            }
        }
    }
}

impl Value {
    /// The value under `key`, where this is a dictionary that has the key.
    pub fn get(&self, key: &str) -> (r: Option<&Value>)
        ensures
            match self@ {
                Datum::Dict(d) => if has_key(d, key@) {
                    r is Some && r->0@ == lookup(d, key@)
                } else {
                    r is None
                },
                _ => r is None,
            },
    {
        match self {
            Value::Dict(es) => {
                proof {
                    lemma_dict_view(*es);
                }
                let k = String::from_str(key);
                let i = find_key(es, &k);
                if i < es.len() {
                    Some(&es[i].1)
                } else {
                    None
                }
            },
            _ => None,
        }
    }
}

} // verus!
