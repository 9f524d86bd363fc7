//! What the indentation forest guarantees: which records end up below which.

use crate::log_summary::model::{
    classified, forest, lemma_run_len, lemma_run_len_monotone, lemma_run_len_skip,
    lemma_run_len_take, run_len, Node, Record,
};
use vstd::prelude::*;

verus! {

/// The nodes of a forest in document order: each root, then everything below
/// it, then the next root.
pub open spec fn preorder(f: Seq<Node>) -> Seq<Node>
    decreases f,
    via preorder_decreases
{
    if f.len() == 0 {
        Seq::empty()
    } else {
        seq![f[0]] + preorder(f[0].children) + preorder(f.subrange(1, f.len() as int))
    }
}

#[via_fn]
proof fn preorder_decreases(f: Seq<Node>) {
    if f.len() > 0 {
        vstd::seq::axiom_seq_index_decreases(f, 0);
        vstd::seq::axiom_seq_subrange_decreases(f, 1, f.len() as int);
    }
}

/// The position just after the subtree of record `i`: the end of the run of
/// deeper records that follows it.
pub open spec fn subtree_end(s: Seq<Record>, i: int) -> int {
    i + 1 + run_len(s.skip(i + 1), s[i].level)
}

/// The nodes of a single tree are its root followed by the nodes below it.
pub proof fn lemma_preorder_single(node: Node)
    ensures
        preorder(seq![node]) == seq![node] + preorder(node.children),
{
    let one = seq![node];
    let none = Seq::<Node>::empty();
    assert(one.subrange(1, 1) =~= none);
    assert(preorder(none) =~= none);
    assert(preorder(one) =~= seq![node] + preorder(node.children) + preorder(none));
    assert(preorder(one) =~= seq![node] + preorder(node.children));
}

/// A forest has at least as many nodes as roots.
pub proof fn lemma_preorder_len(f: Seq<Node>)
    ensures
        preorder(f).len() >= f.len(),
    decreases f.len(),
{
    if f.len() > 0 {
        lemma_preorder_len(f.subrange(1, f.len() as int));
    }
}

/// Every record becomes one node, in document order, and the subtree of the
/// node of record `i` consists of exactly that record and the contiguous run
/// of deeper records after it, up to the first record that is not deeper.
pub proof fn lemma_subtree_is_run(s: Seq<Record>, i: int)
    requires
        0 <= i < s.len(),
    ensures
        preorder(forest(s)).len() == s.len(),
        preorder(forest(s))[i].item == classified(s[i]),
        i < subtree_end(s, i) <= s.len(),
        preorder(seq![preorder(forest(s))[i]]) == preorder(forest(s)).subrange(
            i,
            subtree_end(s, i),
        ),
    decreases s.len(),
{
    let k = run_len(s.skip(1), s[0].level);
    lemma_run_len(s.skip(1), s[0].level);
    lemma_run_len(s.skip(i + 1), s[i].level);
    let run = s.subrange(1, 1 + k);
    let rest = s.skip(1 + k);
    let root = Node { item: classified(s[0]), children: forest(run) };
    let f = forest(s);
    assert(f == seq![root] + forest(rest));
    assert(f.subrange(1, f.len() as int) =~= forest(rest));
    assert(f[0] == root);
    let all = preorder(f);
    assert(all == seq![root] + preorder(forest(run)) + preorder(forest(rest)));
    lemma_forest_size(run);
    lemma_forest_size(rest);
    if i == 0 {
        lemma_preorder_single(root);
        assert(all.subrange(0, 1 + k) =~= seq![root] + preorder(forest(run)));
    } else if i < 1 + k {
        lemma_subtree_is_run(run, i - 1);
        assert(run[i - 1] == s[i]);
        assert(s.skip(1)[i - 1] == s[i]);
        lemma_run_len_skip(s.skip(1), i, s[0].level);
        assert(s.skip(1).skip(i) =~= s.skip(i + 1));
        lemma_run_len_monotone(s.skip(i + 1), s[0].level, s[i].level);
        lemma_run_len_take(s.skip(i + 1), k - i, s[i].level);
        assert(s.skip(i + 1).take(k - i) =~= run.skip(i));
        let r = run_len(s.skip(i + 1), s[i].level);
        assert(all[i] == preorder(forest(run))[i - 1]);
        assert(all.subrange(i, i + 1 + r) =~= preorder(forest(run)).subrange(i - 1, i + r));
    } else {
        let j = i - 1 - k;
        lemma_subtree_is_run(rest, j);
        assert(rest[j] == s[i]);
        assert(rest.skip(j + 1) =~= s.skip(i + 1));
        let r = run_len(s.skip(i + 1), s[i].level);
        assert(all[i] == preorder(forest(rest))[j]);
        assert(all.subrange(i, i + 1 + r) =~= preorder(forest(rest)).subrange(j, j + 1 + r));
    }
}

/// A forest has one node for each record.
pub proof fn lemma_forest_size(s: Seq<Record>)
    ensures
        preorder(forest(s)).len() == s.len(),
    decreases s.len(),
{
    if s.len() > 0 {
        let k = run_len(s.skip(1), s[0].level);
        lemma_run_len(s.skip(1), s[0].level);
        let run = s.subrange(1, 1 + k);
        let rest = s.skip(1 + k);
        let root = Node { item: classified(s[0]), children: forest(run) };
        let f = forest(s);
        assert(f == seq![root] + forest(rest));
        assert(f.subrange(1, f.len() as int) =~= forest(rest));
        assert(f[0] == root);
        lemma_forest_size(run);
        lemma_forest_size(rest);
    }
}

/// A run depends on the levels alone.
pub proof fn lemma_run_len_by_levels(a: Seq<Record>, b: Seq<Record>, floor: int)
    requires
        a.len() == b.len(),
        forall|i: int| 0 <= i < a.len() ==> (#[trigger] a[i]).level == b[i].level,
    ensures
        run_len(a, floor) == run_len(b, floor),
    decreases a.len(),
{
    if a.len() > 0 {
        assert(a[0].level == b[0].level);
        assert forall|i: int| 0 <= i < a.skip(1).len() implies (#[trigger] a.skip(1)[i]).level
            == b.skip(1)[i].level by {
            assert(a.skip(1)[i] == a[i + 1]);
            assert(b.skip(1)[i] == b[i + 1]);
        }
        lemma_run_len_by_levels(a.skip(1), b.skip(1), floor);
    }
}

/// The shape of the forest is determined by the indentation levels alone,
/// whatever the texts: two sequences with the same levels give every record
/// the same subtree extent.
pub proof fn lemma_shape_by_levels(a: Seq<Record>, b: Seq<Record>, i: int)
    requires
        a.len() == b.len(),
        forall|k: int| 0 <= k < a.len() ==> (#[trigger] a[k]).level == b[k].level,
        0 <= i < a.len(),
    ensures
        subtree_end(a, i) == subtree_end(b, i),
{
    assert(a[i].level == b[i].level);
    assert forall|k: int| 0 <= k < a.skip(i + 1).len() implies (#[trigger] a.skip(i + 1)[k]).level
        == b.skip(i + 1)[k].level by {
        assert(a.skip(i + 1)[k] == a[i + 1 + k]);
        assert(b.skip(i + 1)[k] == b[i + 1 + k]);
    }
    lemma_run_len_by_levels(a.skip(i + 1), b.skip(i + 1), a[i].level);
}

/// Two consecutive records of equal indentation are siblings: the first has
/// no children, and every earlier record has either both or neither of them
/// in its subtree.
pub proof fn lemma_equal_levels_are_siblings(s: Seq<Record>, i: int)
    requires
        0 <= i,
        i + 1 < s.len(),
        s[i].level == s[i + 1].level,
    ensures
        subtree_end(s, i) == i + 1,
        preorder(forest(s))[i].children.len() == 0,
        forall|j: int|
            0 <= j < i ==> (i < #[trigger] subtree_end(s, j) <==> i + 1 < subtree_end(s, j)),
{
    assert(s.skip(i + 1)[0] == s[i + 1]);
    lemma_subtree_is_run(s, i);
    let node = preorder(forest(s))[i];
    lemma_preorder_single(node);
    lemma_preorder_len(node.children);
    assert forall|j: int| 0 <= j < i implies (i < #[trigger] subtree_end(s, j) <==> i + 1
        < subtree_end(s, j)) by {
        let tail = s.skip(j + 1);
        let r = run_len(tail, s[j].level);
        lemma_run_len(tail, s[j].level);
        if i < subtree_end(s, j) && !(i + 1 < subtree_end(s, j)) {
            assert(tail[i - j - 1] == s[i]);
            assert(tail[i - j] == s[i + 1]);
            assert(r == i - j);
        }
    }
}

} // verus!
