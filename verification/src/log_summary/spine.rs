//! The open nodes of a forest under construction: the chain from the last
//! root down to the last record, and what closing it gives.

use crate::log_summary::model::{classified, forest, lemma_run_len, run_len, Item, Node, Record};
use vstd::prelude::*;

verus! {

/// The indentation level of an item.
pub open spec fn item_level(item: Item) -> int {
    match item {
        Item::KeyValue { level, .. } => level,
        Item::Note { level, .. } => level,
    }
}

/// The node of a record without children.
pub open spec fn leaf(r: Record) -> Node {
    Node { item: classified(r), children: Seq::empty() }
}

/// The node `p` with `c` added as its last child.
pub open spec fn adopt(p: Node, c: Node) -> Node {
    Node { item: p.item, children: p.children.push(c) }
}

/// The tree that a chain of open nodes closes to: each node takes the one
/// above it as its last child.
pub open spec fn collapse(stack: Seq<Node>) -> Node
    recommends
        stack.len() > 0,
    decreases stack.len(),
{
    if stack.len() <= 1 {
        stack[0]
    } else {
        adopt(stack[0], collapse(stack.skip(1)))
    }
}

/// The forest once every open node is closed.
pub open spec fn closed(roots: Seq<Node>, stack: Seq<Node>) -> Seq<Node> {
    if stack.len() == 0 {
        roots
    } else {
        roots.push(collapse(stack))
    }
}

/// Whether the levels of a chain of open nodes increase strictly.
pub open spec fn increasing(stack: Seq<Node>) -> bool {
    forall|i: int, j: int|
        0 <= i < j < stack.len() ==> item_level((#[trigger] stack[i]).item) < item_level(
            (#[trigger] stack[j]).item,
        )
}

/// The forest `f` with the record `r` added after all its records: `r`
/// goes below the last root while that root is shallower than `r`, and so on
/// down the last children; where the last node is not shallower, or there is
/// none, `r` becomes the next node beside it.
pub open spec fn graft(f: Seq<Node>, r: Record) -> Seq<Node>
    decreases f,
    via graft_decreases
{
    if f.len() == 0 || item_level(f.last().item) >= r.level {
        f.push(leaf(r))
    } else {
        f.drop_last().push(Node { item: f.last().item, children: graft(f.last().children, r) })
    }
}

#[via_fn]
proof fn graft_decreases(f: Seq<Node>, r: Record) {
    if f.len() > 0 {
        vstd::seq::axiom_seq_index_decreases(f, f.len() - 1);
    }
}

/// Closing the top of a chain onto the node below it does not change what
/// the chain closes to.
pub proof fn lemma_collapse_adopt(below: Seq<Node>, p: Node, c: Node)
    ensures
        collapse(below.push(p).push(c)) == collapse(below.push(adopt(p, c))),
    decreases below.len(),
{
    let before = below.push(p).push(c);
    let after = below.push(adopt(p, c));
    if below.len() == 0 {
        assert(before.skip(1) =~= seq![c]);
        assert(collapse(seq![c]) == c);
    } else {
        assert(before.skip(1) =~= below.skip(1).push(p).push(c));
        assert(after.skip(1) =~= below.skip(1).push(adopt(p, c)));
        lemma_collapse_adopt(below.skip(1), p, c);
    }
}

/// Grafting a record onto a forest whose last tree is a chain of open nodes,
/// all shallower than the record, opens one more node at the end of the
/// chain, provided that the last child of the chain's top, if it has one, is
/// not shallower than the record.
pub proof fn lemma_graft_chain(roots: Seq<Node>, stack: Seq<Node>, r: Record)
    requires
        stack.len() > 0,
        forall|i: int| 0 <= i < stack.len() ==> item_level((#[trigger] stack[i]).item) < r.level,
        stack.last().children.len() > 0 ==> item_level(stack.last().children.last().item)
            >= r.level,
    ensures
        graft(roots.push(collapse(stack)), r) == roots.push(collapse(stack.push(leaf(r)))),
    decreases stack.len(),
{
    let f = roots.push(collapse(stack));
    let grown = stack.push(leaf(r));
    assert(f.last() == collapse(stack));
    assert(f.drop_last() =~= roots);
    assert(collapse(stack).item == stack[0].item);
    assert(grown.skip(1) =~= stack.skip(1).push(leaf(r)));
    if stack.len() == 1 {
        assert(graft(stack[0].children, r) == stack[0].children.push(leaf(r)));
        assert(grown.skip(1) =~= seq![leaf(r)]);
        assert(collapse(seq![leaf(r)]) == leaf(r));
    } else {
        let rest = stack.skip(1);
        assert forall|i: int| 0 <= i < rest.len() implies item_level((#[trigger] rest[i]).item)
            < r.level by {
            assert(rest[i] == stack[i + 1]);
        }
        assert(rest.last() == stack.last());
        lemma_graft_chain(stack[0].children, rest, r);
    }
}

/// What one more record does to a run: it joins the run where the run
/// reached the end and the record lies above the floor.
pub proof fn lemma_run_len_push(s: Seq<Record>, r: Record, floor: int)
    ensures
        run_len(s.push(r), floor) == if run_len(s, floor) == s.len() && r.level > floor {
            s.len() as int + 1
        } else {
            run_len(s, floor)
        },
    decreases s.len(),
{
    lemma_run_len(s, floor);
    if s.len() == 0 {
        let none = Seq::<Record>::empty();
        assert(s.push(r).skip(1) =~= none);
        assert(s.push(r)[0] == r);
        assert(run_len(none, floor) == 0);
    } else {
        assert(s.push(r).skip(1) =~= s.skip(1).push(r));
        assert(s.push(r)[0] == s[0]);
        if s[0].level > floor {
            lemma_run_len_push(s.skip(1), r, floor);
            lemma_run_len(s.skip(1), floor);
        }
    }
}

/// The forest of a sequence with one more record is the forest of the
/// sequence with that record grafted on.
pub proof fn lemma_forest_push(s: Seq<Record>, r: Record)
    ensures
        forest(s.push(r)) == graft(forest(s), r),
    decreases s.len(),
{
    let none = Seq::<Record>::empty();
    let one = seq![r];
    assert(one.skip(1) =~= none);
    assert(one.subrange(1, 1) =~= none);
    assert(forest(none) =~= Seq::<Node>::empty());
    assert(forest(one) =~= seq![leaf(r)]);
    if s.len() == 0 {
        assert(s.push(r) =~= one);
        assert(forest(s) =~= Seq::<Node>::empty());
        assert(graft(forest(s), r) =~= seq![leaf(r)]);
    } else {
        let t = s.push(r);
        let level = s[0].level;
        let k = run_len(s.skip(1), level);
        lemma_run_len(s.skip(1), level);
        lemma_run_len_push(s.skip(1), r, level);
        assert(t.skip(1) =~= s.skip(1).push(r));
        assert(t[0] == s[0]);
        let run = s.subrange(1, 1 + k);
        let rest = s.skip(1 + k);
        let root = Node { item: classified(s[0]), children: forest(run) };
        assert(item_level(root.item) == level);
        assert(forest(s) == seq![root] + forest(rest));
        if k < s.len() - 1 {
            assert(t.subrange(1, 1 + k) =~= run);
            assert(t.skip(1 + k) =~= rest.push(r));
            lemma_forest_push(rest, r);
            let f = forest(rest);
            assert(f.len() > 0);
            let whole = seq![root] + f;
            assert(whole.last() == f.last());
            if item_level(f.last().item) >= r.level {
                assert(whole.push(leaf(r)) =~= seq![root] + f.push(leaf(r)));
            } else {
                let grown = Node { item: f.last().item, children: graft(f.last().children, r) };
                assert(whole.drop_last().push(grown) =~= seq![root] + f.drop_last().push(grown));
            }
        } else if r.level > level {
            assert(rest =~= none);
            assert(t.subrange(1, 2 + k) =~= run.push(r));
            assert(t.skip(2 + k) =~= none);
            lemma_forest_push(run, r);
            let whole = seq![root] + forest(rest);
            assert(whole =~= seq![root]);
            assert(whole.last() == root);
            assert(whole.drop_last() =~= Seq::<Node>::empty());
            assert(forest(t) =~= seq![
                Node { item: classified(s[0]), children: graft(forest(run), r) },
            ]);
        } else {
            assert(rest =~= none);
            assert(t.subrange(1, 1 + k) =~= run);
            assert(t.skip(1 + k) =~= one);
            let whole = seq![root] + forest(rest);
            assert(whole =~= seq![root]);
            assert(whole.last() == root);
            assert(forest(t) =~= seq![root] + seq![leaf(r)]);
            assert(whole.push(leaf(r)) =~= seq![root] + seq![leaf(r)]);
        }
    }
}

} // verus!
