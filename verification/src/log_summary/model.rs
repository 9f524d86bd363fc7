//! The document model: records, classified entries, entry trees, sections.

use crate::text::{
    chars_of, copy_range, find_char, first_index, string_of, trim_bounds, trimmed,
};
use crate::log_summary::spine::{
    adopt, closed, collapse, graft, increasing, item_level, leaf, lemma_collapse_adopt,
    lemma_forest_push, lemma_graft_chain,
};
use vstd::prelude::*;

verus! {

/// Mathematical content of a [`Message`]: a body line and its indentation.
pub struct Record {
    pub level: int,
    pub text: Seq<char>,
}

/// Mathematical content of an [`Entry`].
pub enum Item {
    KeyValue { key: Seq<char>, value: Option<Seq<char>>, level: int },
    Note { text: Seq<char>, level: int },
}

/// Mathematical content of a [`SectionEntry`]: an item and its subtrees.
pub struct Node {
    pub item: Item,
    pub children: Seq<Node>,
}

/// One body line of a section: its indentation and its text.
#[derive(Debug, Clone, PartialEq)]
pub struct Message {
    pub indent_level: i32,
    pub message: String,
}

impl View for Message {
    type V = Record;

    open spec fn view(&self) -> Record {
        Record { level: self.indent_level as int, text: self.message@ }
    }
}

/// A `key : value` line; `value` is `None` where nothing follows the colon.
#[derive(Debug, Clone, PartialEq)]
pub struct KeyValueEntry {
    pub key: String,
    pub value: Option<String>,
    pub indent_level: i32,
}

impl View for KeyValueEntry {
    type V = Item;

    open spec fn view(&self) -> Item {
        Item::KeyValue {
            key: self.key@,
            value: match self.value {
                Some(v) => Some(v@),
                None => None,
            },
            level: self.indent_level as int,
        }
    }
}

/// A line of free text.
#[derive(Debug, Clone, PartialEq)]
pub struct MessageEntry {
    pub message: String,
    pub indent_level: i32,
}

impl View for MessageEntry {
    type V = Item;

    open spec fn view(&self) -> Item {
        Item::Note { text: self.message@, level: self.indent_level as int }
    }
}

/// A classified body line.
#[derive(Debug, Clone, PartialEq)]
pub enum Entry {
    KeyValue(KeyValueEntry),
    Message(MessageEntry),
}

impl View for Entry {
    type V = Item;

    open spec fn view(&self) -> Item {
        match self {
            Entry::KeyValue(k) => k@,
            Entry::Message(m) => m@,
        }
    }
}

/// How a record is read: split at its first colon into a trimmed key and a
/// trimmed value (absent when empty), or kept whole as a note.
pub open spec fn classified(r: Record) -> Item {
    let i = first_index(r.text, ':');
    if i < r.text.len() {
        let raw = trimmed(r.text.skip(i + 1));
        Item::KeyValue {
            key: trimmed(r.text.take(i)),
            value: if raw.len() == 0 {
                None
            } else {
                Some(raw)
            },
            level: r.level,
        }
    } else {
        Item::Note { text: r.text, level: r.level }
    }
}

impl Entry {
    /// The indentation level of the line this entry was read from.
    pub fn priority(&self) -> (p: i32)
        ensures
            p as int == item_level(self@),
    {
        match self {
            Entry::Message(m) => m.indent_level,
            Entry::KeyValue(k) => k.indent_level,
        }
    }

    /// Classifies a body line.
    pub fn classify(msg: &Message) -> (e: Entry)
        ensures
            e@ == classified(msg@),
    {
        let v = chars_of(msg.message.as_str());
        let n = v.len();
        let i = find_char(&v, 0, n, ':');
        proof {
            assert(v@.subrange(0, n as int) =~= v@);
        }
        if i < n {
            let (ka, kb) = trim_bounds(&v, 0, i);
            let (va, vb) = trim_bounds(&v, i + 1, n);
            proof {
                assert(v@.subrange(0, i as int) =~= v@.take(i as int));
                assert(v@.subrange(i + 1, n as int) =~= v@.skip(i + 1));
            }
            let key = string_of(&copy_range(&v, ka, kb));
            let value = if va == vb {
                None
            } else {
                Some(string_of(&copy_range(&v, va, vb)))
            };
            Entry::KeyValue(KeyValueEntry { key, value, indent_level: msg.indent_level })
        } else {
            Entry::Message(
                MessageEntry { message: string_of(&v), indent_level: msg.indent_level },
            )
        }
    }

    /// Classifies a body line, consuming it.
    pub fn from(msg: Message) -> (e: Entry)
        ensures
            e@ == classified(msg@),
    {
        Entry::classify(&msg)
    }
}

/// An entry with the entries nested under it.
#[derive(Debug, PartialEq)]
pub struct SectionEntry {
    pub entry: Entry,
    pub children: Vec<SectionEntry>,
}

/// The tree that a section entry stands for.
pub open spec fn node_of(e: SectionEntry) -> Node
    decreases e,
{
    Node {
        item: e.entry@,
        children: Seq::new(
            e.children@.len(),
            |i: int|
                if 0 <= i < e.children@.len() {
                    node_of(e.children@[i])
                } else {
                    arbitrary()
                },
        ),
    }
}

impl View for SectionEntry {
    type V = Node;

    open spec fn view(&self) -> Node {
        node_of(*self)
    }
}

/// The records that a sequence of messages stands for.
pub open spec fn records_of(v: Seq<Message>) -> Seq<Record> {
    Seq::new(v.len(), |i: int| v[i]@)
}

/// The trees that a sequence of section entries stands for.
pub open spec fn nodes_of(v: Seq<SectionEntry>) -> Seq<Node> {
    Seq::new(v.len(), |i: int| v[i]@)
}

/// The view of a section entry is its item over the views of its children.
pub proof fn lemma_view_unfold(e: SectionEntry)
    ensures
        e@.item == e.entry@,
        e@.children == nodes_of(e.children@),
{
    assert(e@.children.len() == e.children@.len());
    assert forall|i: int| 0 <= i < e.children@.len() implies e@.children[i] == nodes_of(
        e.children@,
    )[i] by {}
    assert(e@.children =~= nodes_of(e.children@));
}

/// Number of leading records of `s` whose level lies above `floor`.
pub open spec fn run_len(s: Seq<Record>, floor: int) -> int
    decreases s.len(),
{
    if s.len() > 0 && s[0].level > floor {
        1 + run_len(s.skip(1), floor)
    } else {
        0
    }
}

/// A run never exceeds the sequence, every record inside it lies above the
/// floor, and the record that ends it does not.
pub proof fn lemma_run_len(s: Seq<Record>, floor: int)
    ensures
        0 <= run_len(s, floor) <= s.len(),
        forall|i: int| 0 <= i < run_len(s, floor) ==> (#[trigger] s[i]).level > floor,
        run_len(s, floor) < s.len() ==> s[run_len(s, floor) as int].level <= floor,
    decreases s.len(),
{
    if s.len() > 0 && s[0].level > floor {
        lemma_run_len(s.skip(1), floor);
        assert forall|i: int| 0 <= i < run_len(s, floor) implies (#[trigger] s[i]).level
            > floor by {
            if i > 0 {
                assert(s.skip(1)[i - 1] == s[i]);
            }
        }
    }
}

/// The forest that indentation alone determines: the first record is a root,
/// the run of deeper records after it forms its subtrees, and what follows
/// that run forms the remaining roots.
pub open spec fn forest(s: Seq<Record>) -> Seq<Node>
    decreases s.len(),
    via forest_decreases
{
    if s.len() == 0 {
        Seq::empty()
    } else {
        let k = run_len(s.skip(1), s[0].level);
        seq![Node { item: classified(s[0]), children: forest(s.subrange(1, 1 + k)) }] + forest(
            s.skip(1 + k),
        )
    }
}

#[via_fn]
proof fn forest_decreases(s: Seq<Record>) {
    if s.len() > 0 {
        lemma_run_len(s.skip(1), s[0].level);
    }
}

/// A run above a higher floor is no longer than one above a lower floor.
pub proof fn lemma_run_len_monotone(s: Seq<Record>, low: int, high: int)
    requires
        low <= high,
    ensures
        run_len(s, high) <= run_len(s, low),
    decreases s.len(),
{
    if s.len() > 0 && s[0].level > high {
        lemma_run_len_monotone(s.skip(1), low, high);
    } else {
        lemma_run_len(s, low);
    }
}

/// Cutting a sequence at or after the end of a run leaves the run unchanged.
pub proof fn lemma_run_len_take(s: Seq<Record>, m: int, floor: int)
    requires
        run_len(s, floor) <= m <= s.len(),
    ensures
        run_len(s.take(m), floor) == run_len(s, floor),
    decreases s.len(),
{
    lemma_run_len(s, floor);
    if s.len() > 0 && s[0].level > floor {
        assert(s.take(m).skip(1) =~= s.skip(1).take(m - 1));
        lemma_run_len_take(s.skip(1), m - 1, floor);
    } else if m > 0 {
        assert(s.take(m)[0] == s[0]);
    }
}

/// Skipping part of a run leaves the rest of it.
pub proof fn lemma_run_len_skip(s: Seq<Record>, j: int, floor: int)
    requires
        0 <= j <= run_len(s, floor),
    ensures
        run_len(s.skip(j), floor) == run_len(s, floor) - j,
    decreases j,
{
    lemma_run_len(s, floor);
    if j > 0 {
        assert(s.skip(1).skip(j - 1) =~= s.skip(j));
        lemma_run_len_skip(s.skip(1), j - 1, floor);
    } else {
        assert(s.skip(0) =~= s);
    }
}

/// Closes the top open node: it becomes the last child of the node below
/// it, or the next root where no node is below it.
fn close_top(stack: &mut Vec<SectionEntry>, roots: &mut Vec<SectionEntry>)
    requires
        old(stack).len() > 0,
    ensures
        final(stack).len() == old(stack).len() - 1,
        closed(nodes_of(final(roots)@), nodes_of(final(stack)@)) == closed(
            nodes_of(old(roots)@),
            nodes_of(old(stack)@),
        ),
        old(stack).len() == 1 ==> nodes_of(final(roots)@) == nodes_of(old(roots)@).push(
            old(stack)@[0]@,
        ),
        old(stack).len() >= 2 ==> {
            &&& nodes_of(final(roots)@) == nodes_of(old(roots)@)
            &&& nodes_of(final(stack)@) == nodes_of(old(stack)@).take(old(stack).len() - 2).push(
                adopt(old(stack)@[old(stack).len() - 2]@, old(stack)@[old(stack).len() - 1]@),
            )
        },
{
    let ghost open = nodes_of(stack@);
    let ghost done = nodes_of(roots@);
    let ghost n = stack.len() as int;
    let node = stack.pop().unwrap();
    match stack.pop() {
        Some(parent) => {
            let mut parent = parent;
            proof {
                lemma_view_unfold(parent);
            }
            let ghost was = parent@;
            parent.children.push(node);
            proof {
                lemma_view_unfold(parent);
                assert(nodes_of(parent.children@) =~= was.children.push(node@));
                assert(parent@ == adopt(was, node@));
            }
            stack.push(parent);
            proof {
                let below = open.take(n - 2);
                assert(nodes_of(stack@) =~= below.push(adopt(was, node@)));
                assert(open =~= below.push(was).push(node@));
                lemma_collapse_adopt(below, was, node@);
            }
        },
        None => {
            roots.push(node);
            proof {
                assert(nodes_of(roots@) =~= done.push(node@));
                assert(nodes_of(stack@) =~= Seq::<Node>::empty());
                assert(open =~= seq![node@]);
            }
        },
    }
}

/// Nests a flat list of body lines by indentation: each line becomes the
/// parent of the run of deeper lines that follows it, and lines of equal
/// indentation are siblings. The open nodes are kept on a stack: a line
/// closes every open node that is not shallower than it, and opens its own.
pub fn build_structure_by_priority(entries: Vec<Message>) -> (roots: Vec<SectionEntry>)
    ensures
        nodes_of(roots@) == forest(records_of(entries@)),
{
    let mut roots: Vec<SectionEntry> = Vec::new();
    let mut stack: Vec<SectionEntry> = Vec::new();
    let ghost recs = records_of(entries@);
    let mut i: usize = 0;
    proof {
        assert(recs.take(0) =~= Seq::<Record>::empty());
        assert(nodes_of(roots@) =~= Seq::<Node>::empty());
        assert(forest(Seq::<Record>::empty()) =~= Seq::<Node>::empty());
    }
    while i < entries.len()
        invariant
            i <= entries.len(),
            recs == records_of(entries@),
            closed(nodes_of(roots@), nodes_of(stack@)) == forest(recs.take(i as int)),
            increasing(nodes_of(stack@)),
            stack.len() > 0 ==> nodes_of(stack@).last().children.len() == 0,
            stack.len() == 0 ==> roots.len() == 0,
        decreases entries.len() - i,
    {
        let level = entries[i].indent_level;
        let ghost r = recs[i as int];
        let ghost before = forest(recs.take(i as int));
        while stack.len() > 0 && stack[stack.len() - 1].entry.priority() >= level
            invariant
                i < entries.len(),
                recs == records_of(entries@),
                r == recs[i as int],
                level == r.level,
                closed(nodes_of(roots@), nodes_of(stack@)) == before,
                increasing(nodes_of(stack@)),
                stack.len() > 0 && nodes_of(stack@).last().children.len() > 0 ==> item_level(
                    nodes_of(stack@).last().children.last().item,
                ) >= r.level,
                stack.len() == 0 && roots.len() > 0 ==> item_level(nodes_of(roots@).last().item)
                    >= r.level,
            decreases stack.len(),
        {
            let ghost open = nodes_of(stack@);
            let ghost top = stack@[stack.len() - 1];
            proof {
                lemma_view_unfold(top);
                assert(open.last() == top@);
            }
            close_top(&mut stack, &mut roots);
            proof {
                let after = nodes_of(stack@);
                if stack.len() > 0 {
                    let n = open.len() as int;
                    assert(after.last() == adopt(open[n - 2], open[n - 1]));
                    assert(after.last().children.last() == top@);
                    assert forall|a: int, b: int| 0 <= a < b < after.len() implies item_level(
                        (#[trigger] after[a]).item,
                    ) < item_level((#[trigger] after[b]).item) by {
                        assert(after[a].item == open[a].item);
                        assert(after[b].item == open[b].item);
                    }
                } else {
                    assert(nodes_of(roots@).last() == top@);
                }
            }
        }
        let node = SectionEntry { entry: Entry::classify(&entries[i]), children: Vec::new() };
        proof {
            lemma_view_unfold(node);
            assert(nodes_of(node.children@) =~= Seq::<Node>::empty());
            assert(node@ == leaf(r));
            assert(recs.take(i + 1) =~= recs.take(i as int).push(r));
            lemma_forest_push(recs.take(i as int), r);
            let done = nodes_of(roots@);
            let open = nodes_of(stack@);
            assert(nodes_of(stack@.push(node)) =~= open.push(leaf(r)));
            if stack.len() == 0 {
                assert(open.push(leaf(r)) =~= seq![leaf(r)]);
                assert(collapse(seq![leaf(r)]) == leaf(r));
                assert(graft(done, r) == done.push(leaf(r)));
            } else {
                let top = stack@[stack.len() - 1];
                lemma_view_unfold(top);
                assert(open.last() == top@);
                assert forall|a: int| 0 <= a < open.len() implies item_level(
                    (#[trigger] open[a]).item,
                ) < r.level by {
                    if a < open.len() - 1 {
                        assert(item_level(open[a].item) < item_level(open[open.len() - 1].item));
                    }
                }
                lemma_graft_chain(done, open, r);
            }
            assert forall|a: int, b: int| 0 <= a < b < open.len() + 1 implies item_level(
                (#[trigger] open.push(leaf(r))[a]).item,
            ) < item_level((#[trigger] open.push(leaf(r))[b]).item) by {
                if b < open.len() {
                    assert(item_level(open[a].item) < item_level(open[b].item));
                }
            }
        }
        stack.push(node);
        i += 1;
    }
    proof {
        assert(recs.take(entries.len() as int) =~= recs);
    }
    while stack.len() > 0
        invariant
            closed(nodes_of(roots@), nodes_of(stack@)) == forest(recs),
        decreases stack.len(),
    {
        close_top(&mut stack, &mut roots);
    }
    roots
}

/// Mathematical content of a [`Section`].
pub enum Part {
    Table { title: Seq<char>, entries: Seq<Node> },
    Note { record: Record },
}

/// A titled block: the title line and the trees of its body lines.
#[derive(Debug, PartialEq)]
pub struct SectionTable {
    pub title: String,
    pub entries: Vec<SectionEntry>,
}

impl View for SectionTable {
    type V = Part;

    open spec fn view(&self) -> Part {
        Part::Table { title: self.title@, entries: nodes_of(self.entries@) }
    }
}

/// A line of free text outside any table.
#[derive(Debug, Clone, PartialEq)]
pub struct SectionNote {
    pub message: Message,
}

impl View for SectionNote {
    type V = Part;

    open spec fn view(&self) -> Part {
        Part::Note { record: self.message@ }
    }
}

/// A section of a document.
#[derive(Debug, PartialEq)]
pub enum Section {
    Table(SectionTable),
    Note(SectionNote),
}

impl View for Section {
    type V = Part;

    open spec fn view(&self) -> Part {
        match self {
            Section::Table(t) => t@,
            Section::Note(n) => n@,
        }
    }
}

/// A parsed summary log: its sections in source order.
#[derive(Debug, PartialEq)]
pub struct Document {
    pub sections: Vec<Section>,
}

/// The parts that a sequence of sections stands for.
pub open spec fn parts_of(v: Seq<Section>) -> Seq<Part> {
    Seq::new(v.len(), |i: int| v[i]@)
}

impl View for Document {
    type V = Seq<Part>;

    open spec fn view(&self) -> Seq<Part> {
        parts_of(self.sections@)
    }
}

} // verus!
