//! Folding a document into a dictionary of plain values.

use crate::log_summary::model::{
    lemma_view_unfold, nodes_of, Document, Entry, Item, KeyValueEntry, Message, MessageEntry, Node,
    Part, Section, SectionEntry, SectionNote, SectionTable,
};
use crate::log_summary::value::{
    coerced, has_key, lemma_absorb_all_concat, lemma_dict_view,
    lemma_notes_accumulate, lookup, merge_into, merged, note_values, pairs_of, parse_value, Datum,
    Value,
};
use crate::text::{normalize, normalized};
use vstd::prelude::*;

verus! {

/// The entries that an item contributes to its enclosing dictionary, given
/// the reduced dictionary of its children (`None` for a leaf). A key/value
/// leaf maps its normal-form key to its coerced value; with children the key
/// maps to a dictionary of `value` (left out where there is none) and
/// `details`. A note contributes `note`, and `details` where it has children.
pub open spec fn item_pairs(item: Item, details: Option<Seq<(Seq<char>, Datum)>>) -> Seq<
    (Seq<char>, Datum),
> {
    match item {
        Item::KeyValue { key, value, .. } => {
            let k = normalized(key, true);
            match details {
                None => seq![(k, coerced(value))],
                Some(d) => {
                    let tail = ("details"@, Datum::Dict(d));
                    let inner = if value is None {
                        seq![tail]
                    } else {
                        seq![("value"@, coerced(value)), tail]
                    };
                    seq![(k, Datum::Dict(inner))]
                },
            }
        },
        Item::Note { text, .. } => match details {
            None => seq![("note"@, Datum::Text(text))],
            Some(d) => seq![("note"@, Datum::Text(text)), ("details"@, Datum::Dict(d))],
        },
    }
}

/// The entries that a tree contributes to its enclosing dictionary.
pub open spec fn node_pairs(n: Node) -> Seq<(Seq<char>, Datum)>
    decreases n,
{
    item_pairs(
        n.item,
        if n.children.len() == 0 {
            None
        } else {
            Some(merged(forest_pairs(n.children)))
        },
    )
}

/// The entries that the trees of a forest contribute, in order.
pub open spec fn forest_pairs(f: Seq<Node>) -> Seq<(Seq<char>, Datum)>
    decreases f,
    via forest_pairs_decreases
{
    if f.len() == 0 {
        Seq::empty()
    } else {
        forest_pairs(f.drop_last()) + node_pairs(f.last())
    }
}

#[via_fn]
proof fn forest_pairs_decreases(f: Seq<Node>) {
    if f.len() > 0 {
        vstd::seq::axiom_seq_index_decreases(f, f.len() - 1);
        vstd::seq::axiom_seq_subrange_decreases(f, 0, f.len() - 1);
    }
}

/// No tree brings a list into its enclosing dictionary.
pub proof fn lemma_node_pairs_no_list(n: Node)
    ensures
        forall|i: int| 0 <= i < node_pairs(n).len() ==> !((#[trigger] node_pairs(n)[i]).1 is List),
{
}

/// No forest brings a list into its enclosing dictionary.
pub proof fn lemma_forest_pairs_no_list(f: Seq<Node>)
    ensures
        forall|i: int|
            0 <= i < forest_pairs(f).len() ==> !((#[trigger] forest_pairs(f)[i]).1 is List),
    decreases f.len(),
{
    if f.len() > 0 {
        lemma_forest_pairs_no_list(f.drop_last());
        lemma_node_pairs_no_list(f.last());
    }
}

/// Within one scope, the notes of sibling entries accumulate in source
/// order: the merged dictionary of a forest has no `note` slot when no entry
/// brings one, holds a single note as a scalar, and holds two or more as the
/// list of all of them in order.
pub proof fn lemma_scope_notes(f: Seq<Node>)
    ensures
        has_key(merged(forest_pairs(f)), "note"@) == (note_values(forest_pairs(f)).len() > 0),
        note_values(forest_pairs(f)).len() == 1 ==> {
            &&& lookup(merged(forest_pairs(f)), "note"@) == note_values(forest_pairs(f))[0]
            &&& !(lookup(merged(forest_pairs(f)), "note"@) is List)
        },
        note_values(forest_pairs(f)).len() >= 2 ==> lookup(merged(forest_pairs(f)), "note"@)
            == Datum::List(note_values(forest_pairs(f))),
{
    lemma_forest_pairs_no_list(f);
    lemma_notes_accumulate(forest_pairs(f));
}

/// The entry that a section contributes to the document's dictionary: a
/// table maps its normal-form title to the merge of its entries; a floating
/// note contributes its text under `note`.
pub open spec fn part_pairs(p: Part) -> Seq<(Seq<char>, Datum)> {
    match p {
        Part::Table { title, entries } => seq![
            (normalized(title, false), Datum::Dict(merged(forest_pairs(entries)))),
        ],
        Part::Note { record } => seq![("note"@, Datum::Text(record.text))],
    }
}

/// The entries that the sections of a document contribute, in order.
pub open spec fn parts_pairs(ps: Seq<Part>) -> Seq<(Seq<char>, Datum)>
    decreases ps.len(),
{
    if ps.len() == 0 {
        Seq::empty()
    } else {
        parts_pairs(ps.drop_last()) + part_pairs(ps.last())
    }
}

/// The dictionary that a document reduces to.
pub open spec fn document_dict(ps: Seq<Part>) -> Seq<(Seq<char>, Datum)> {
    merged(parts_pairs(ps))
}

/// The content of optional details.
pub open spec fn details_of(details: Option<Vec<(String, Value)>>) -> Option<
    Seq<(Seq<char>, Datum)>,
> {
    match details {
        Some(d) => Some(pairs_of(d@)),
        None => None,
    }
}

/// The content of an optional text.
pub open spec fn text_of(value: Option<String>) -> Option<Seq<char>> {
    match value {
        Some(v) => Some(v@),
        None => None,
    }
}

impl Message {
    /// The dictionary of a bare body line: its text under `message`.
    pub fn to_dict(&self) -> (r: Vec<(String, Value)>)
        ensures
            pairs_of(r@) == seq![("message"@, Datum::Text(self.message@))],
    {
        let mut r: Vec<(String, Value)> = Vec::new();
        r.push((String::from_str("message"), Value::Text(self.message.clone())));
        assert(pairs_of(r@) =~= seq![("message"@, Datum::Text(self.message@))]);
        r
    }
}

impl KeyValueEntry {
    /// The key in normal form: trimmed, lowercased, dots and spaces turned
    /// into underscores, round brackets removed.
    pub fn normalize_snakecase_key(&self) -> (r: String)
        ensures
            r@ == normalized(self.key@, true),
    {
        normalize(self.key.as_str(), true)
    }

    /// The coerced value; `Null` where the entry has none.
    pub fn parse_value(&self) -> (r: Value)
        ensures
            r@ == coerced(text_of(self.value)),
    {
        match &self.value {
            None => Value::Null,
            Some(v) => parse_value(v.as_str()),
        }
    }

    /// The dictionary entry of this key/value line.
    pub fn to_dict(&self, details: Option<Vec<(String, Value)>>) -> (r: Vec<(String, Value)>)
        ensures
            pairs_of(r@) == item_pairs(self@, details_of(details)),
    {
        let key = self.normalize_snakecase_key();
        let value = self.parse_value();
        let mut r: Vec<(String, Value)> = Vec::new();
        match details {
            Some(d) => {
                let ghost dv = pairs_of(d@);
                let mut inner: Vec<(String, Value)> = Vec::new();
                if self.value.is_some() {
                    inner.push((String::from_str("value"), value));
                }
                proof {
                    lemma_dict_view(d);
                }
                inner.push((String::from_str("details"), Value::Dict(d)));
                proof {
                    lemma_dict_view(inner);
                    let tail = ("details"@, Datum::Dict(dv));
                    if self.value is None {
                        assert(pairs_of(inner@) =~= seq![tail]);
                    } else {
                        assert(pairs_of(inner@) =~= seq![
                            ("value"@, coerced(text_of(self.value))),
                            tail,
                        ]);
                    }
                }
                let ghost iv = pairs_of(inner@);
                r.push((key, Value::Dict(inner)));
                assert(pairs_of(r@) =~= seq![(key@, Datum::Dict(iv))]);
            },
            None => {
                r.push((key, value));
                assert(pairs_of(r@) =~= seq![(key@, value@)]);
            },
        }
        r
    }
}

impl MessageEntry {
    /// The dictionary entries of this note.
    pub fn to_dict(&self, details: Option<Vec<(String, Value)>>) -> (r: Vec<(String, Value)>)
        ensures
            pairs_of(r@) == item_pairs(self@, details_of(details)),
    {
        let mut r: Vec<(String, Value)> = Vec::new();
        r.push((String::from_str("note"), Value::Text(self.message.clone())));
        match details {
            Some(d) => {
                proof {
                    lemma_dict_view(d);
                }
                let ghost dv = pairs_of(d@);
                r.push((String::from_str("details"), Value::Dict(d)));
                assert(pairs_of(r@) =~= seq![
                    ("note"@, Datum::Text(self.message@)),
                    ("details"@, Datum::Dict(dv)),
                ]);
            },
            None => {
                assert(pairs_of(r@) =~= seq![("note"@, Datum::Text(self.message@))]);
            },
        }
        r
    }
}

impl Entry {
    /// The dictionary entries of this entry.
    pub fn to_dict(&self, details: Option<Vec<(String, Value)>>) -> (r: Vec<(String, Value)>)
        ensures
            pairs_of(r@) == item_pairs(self@, details_of(details)),
    {
        match self {
            Entry::KeyValue(k) => k.to_dict(details),
            Entry::Message(m) => m.to_dict(details),
        }
    }
}

/// Merges the entries of a list of trees into one dictionary: a repeated
/// `note` collects into a list, any other repeated key keeps its last value.
pub fn reduce_dict(entries: &Vec<SectionEntry>) -> (r: Vec<(String, Value)>)
    ensures
        pairs_of(r@) == merged(forest_pairs(nodes_of(entries@))),
    decreases entries,
{
    let mut acc: Vec<(String, Value)> = Vec::new();
    let ghost nodes = nodes_of(entries@);
    let mut i: usize = 0;
    proof {
        assert(nodes.take(0) =~= Seq::<Node>::empty());
        assert(pairs_of(acc@) =~= Seq::<(Seq<char>, Datum)>::empty());
    }
    while i < entries.len()
        invariant
            i <= entries.len(),
            nodes == nodes_of(entries@),
            pairs_of(acc@) == merged(forest_pairs(nodes.take(i as int))),
        decreases entries.len() - i,
    {
        let d = entries[i].to_dict();
        proof {
            assert(nodes.take(i + 1).drop_last() =~= nodes.take(i as int));
            assert(nodes.take(i + 1).last() == entries[i as int]@);
            lemma_absorb_all_concat(
                Seq::empty(),
                forest_pairs(nodes.take(i as int)),
                node_pairs(entries[i as int]@),
            );
        }
        merge_into(&mut acc, d);
        i += 1;
    }
    proof {
        assert(nodes.take(entries.len() as int) =~= nodes);
    }
    acc
}

impl SectionEntry {
    /// The dictionary entries of this tree.
    pub fn to_dict(&self) -> (r: Vec<(String, Value)>)
        ensures
            pairs_of(r@) == node_pairs(self@),
        decreases self,
    {
        proof {
            lemma_view_unfold(*self);
        }
        if self.children.len() > 0 {
            let details = reduce_dict(&self.children);
            self.entry.to_dict(Some(details))
        } else {
            self.entry.to_dict(None)
        }
    }
}

impl SectionTable {
    /// A title in normal form: trimmed, lowercased, spaces turned into
    /// underscores, round brackets removed.
    pub fn normalize_title(&self, title: &str) -> (r: String)
        ensures
            r@ == normalized(title@, false),
    {
        normalize(title, false)
    }

    /// The dictionary entry of this table.
    pub fn to_dict(&self) -> (r: Vec<(String, Value)>)
        ensures
            pairs_of(r@) == part_pairs(self@),
    {
        let merged_dict = reduce_dict(&self.entries);
        proof {
            lemma_dict_view(merged_dict);
        }
        let ghost mv = pairs_of(merged_dict@);
        let mut r: Vec<(String, Value)> = Vec::new();
        let title = self.normalize_title(self.title.as_str());
        r.push((title, Value::Dict(merged_dict)));
        assert(pairs_of(r@) =~= seq![(title@, Datum::Dict(mv))]);
        r
    }
}

impl SectionNote {
    /// The dictionary entry of this floating note.
    pub fn to_dict(&self) -> (r: Vec<(String, Value)>)
        ensures
            pairs_of(r@) == part_pairs(self@),
    {
        let mut r: Vec<(String, Value)> = Vec::new();
        r.push((String::from_str("note"), Value::Text(self.message.message.clone())));
        assert(pairs_of(r@) =~= seq![("note"@, Datum::Text(self.message.message@))]);
        r
    }
}

impl Document {
    /// Reduces the document to one dictionary: each table under its
    /// normal-form title, floating notes collected under `note`.
    pub fn to_dict(&self) -> (r: Vec<(String, Value)>)
        ensures
            pairs_of(r@) == document_dict(self@),
    {
        let mut acc: Vec<(String, Value)> = Vec::new();
        let ghost parts = self@;
        let mut i: usize = 0;
        proof {
            assert(parts.take(0) =~= Seq::<Part>::empty());
            assert(pairs_of(acc@) =~= Seq::<(Seq<char>, Datum)>::empty());
        }
        while i < self.sections.len()
            invariant
                i <= self.sections.len(),
                parts == self@,
                pairs_of(acc@) == merged(parts_pairs(parts.take(i as int))),
            decreases self.sections.len() - i,
        {
            let d = match &self.sections[i] {
                Section::Table(t) => t.to_dict(),
                Section::Note(n) => n.to_dict(),
            };
            proof {
                assert(parts.take(i + 1).drop_last() =~= parts.take(i as int));
                assert(parts.take(i + 1).last() == self.sections[i as int]@);
                lemma_absorb_all_concat(
                    Seq::empty(),
                    parts_pairs(parts.take(i as int)),
                    part_pairs(self.sections[i as int]@),
                );
            }
            merge_into(&mut acc, d);
            i += 1;
        }
        proof {
            assert(parts.take(self.sections.len() as int) =~= parts);
        }
        acc
    }
}

} // verus!
