//! The code table that compresses the stored sequences: a Huffman code over
//! the key and modifier codes, weighted by how often each occurs.
//!
//! The model of the construction is written out as spec functions: the
//! stream of symbols, their counts in the order of the codes, the leaves,
//! and the merging of the two lightest trees until one is left.

use vstd::prelude::*;
use crate::sorted_map::{rank, StrMap};
use crate::types::errors::{Error, ErrorView};
use crate::types::key_press::{KeyPress, KeyPressView};
use crate::types::names::CCode;

verus! {

/// A tree of the construction, as a mathematical value.
pub enum Tree {
    Leaf { count: nat, key: Seq<char>, is_mod: bool },
    Branch { left: Box<Tree>, right: Box<Tree> },
}

impl Tree {
    /// The sum of the counts of the leaves.
    pub open spec fn weight(self) -> nat
        decreases self,
    {
        match self {
            Tree::Leaf { count, .. } => count,
            Tree::Branch { left, right } => left.weight() + right.weight(),
        }
    }

    /// The codes at the leaves.
    pub open spec fn keys(self) -> Set<Seq<char>>
        decreases self,
    {
        match self {
            Tree::Leaf { key, .. } => set![key],
            Tree::Branch { left, right } => left.keys().union(right.keys()),
        }
    }

    /// No code stands at two leaves.
    pub open spec fn distinct(self) -> bool
        decreases self,
    {
        match self {
            Tree::Leaf { .. } => true,
            Tree::Branch { left, right } => left.distinct() && right.distinct() && left.keys().disjoint(
                right.keys(),
            ),
        }
    }

    /// The way from the root to the leaf of `key`: `false` for each step to
    /// the left, `true` for each step to the right.
    pub open spec fn code(self, key: Seq<char>) -> Seq<bool>
        decreases self,
    {
        match self {
            Tree::Leaf { .. } => Seq::empty(),
            Tree::Branch { left, right } => if left.keys().contains(key) {
                seq![false] + left.code(key)
            } else {
                seq![true] + right.code(key)
            },
        }
    }

    /// Whether the leaf of `key` is marked as a modifier.
    pub open spec fn is_mod(self, key: Seq<char>) -> bool
        decreases self,
    {
        match self {
            Tree::Leaf { is_mod, .. } => is_mod,
            Tree::Branch { left, right } => if left.keys().contains(key) {
                left.is_mod(key)
            } else {
                right.is_mod(key)
            },
        }
    }
}

/// Whether `a` is the beginning of `b`, or all of it.
pub open spec fn is_prefix(a: Seq<bool>, b: Seq<bool>) -> bool {
    a.len() <= b.len() && b.take(a.len() as int) == a
}

/// In a tree with distinct leaves the code of no leaf begins the code of
/// another.
pub proof fn lemma_tree_prefix_free(tree: Tree, a: Seq<char>, b: Seq<char>)
    requires
        tree.distinct(),
        tree.keys().contains(a),
        tree.keys().contains(b),
        a != b,
    ensures
        !is_prefix(tree.code(a), tree.code(b)),
    decreases tree,
{
    match tree {
        Tree::Leaf { .. } => {},
        Tree::Branch { left, right } => {
            let ca = tree.code(a);
            let cb = tree.code(b);
            if left.keys().contains(a) && left.keys().contains(b) {
                lemma_tree_prefix_free(*left, a, b);
                if is_prefix(ca, cb) {
                    assert(cb.take(ca.len() as int).drop_first() =~= left.code(b).take(
                        left.code(a).len() as int,
                    ));
                    assert(ca.drop_first() =~= left.code(a));
                }
            } else if !left.keys().contains(a) && !left.keys().contains(b) {
                lemma_tree_prefix_free(*right, a, b);
                if is_prefix(ca, cb) {
                    assert(cb.take(ca.len() as int).drop_first() =~= right.code(b).take(
                        right.code(a).len() as int,
                    ));
                    assert(ca.drop_first() =~= right.code(a));
                }
            } else {
                if is_prefix(ca, cb) {
                    assert(cb.take(ca.len() as int)[0] == cb[0]);
                    assert(ca[0] != cb[0]);
                }
            }
        },
    }
}

/// One occurrence of a code in the presses: the code, and whether it stood
/// as a modifier.
pub struct Symbol {
    pub code: Seq<char>,
    pub is_mod: bool,
}

/// The symbols of one press: its key, or the blank code where it has none,
/// and then its modifiers.
pub open spec fn press_symbols(press: KeyPressView) -> Seq<Symbol> {
    seq![Symbol { code: press.key_or_blank(), is_mod: false }] + press.mods.map_values(
        |m: Seq<char>| Symbol { code: m, is_mod: true },
    )
}

/// The symbols of all the presses, in order.
pub open spec fn symbols(presses: Seq<KeyPressView>) -> Seq<Symbol>
    decreases presses.len(),
{
    if presses.len() == 0 {
        Seq::empty()
    } else {
        symbols(presses.drop_last()) + press_symbols(presses.last())
    }
}

/// The views of a list of presses.
pub open spec fn press_views(presses: Seq<KeyPress>) -> Seq<KeyPressView> {
    presses.map_values(|k: KeyPress| k@)
}

/// How often each code occurs: the codes in increasing order, and beside
/// each its count and whether its first occurrence was as a modifier.
pub struct Counts {
    pub keys: Seq<Seq<char>>,
    pub vals: Seq<(nat, bool)>,
}

/// `c` after one more occurrence.
pub open spec fn counted(c: Counts, s: Symbol) -> Counts {
    if c.keys.contains(s.code) {
        let p = c.keys.index_of(s.code);
        Counts { keys: c.keys, vals: c.vals.update(p, (c.vals[p].0 + 1, c.vals[p].1)) }
    } else {
        let p = rank(c.keys, s.code);
        Counts { keys: c.keys.insert(p, s.code), vals: c.vals.insert(p, (1nat, s.is_mod)) }
    }
}

/// The counts of a stream of symbols.
pub open spec fn count_all(stream: Seq<Symbol>) -> Counts
    decreases stream.len(),
{
    if stream.len() == 0 {
        Counts { keys: Seq::empty(), vals: Seq::empty() }
    } else {
        counted(count_all(stream.drop_last()), stream.last())
    }
}

/// The sum of the counts.
pub open spec fn total(vals: Seq<(nat, bool)>) -> nat
    decreases vals.len(),
{
    if vals.len() == 0 {
        0
    } else {
        total(vals.drop_last()) + vals.last().0
    }
}

/// One leaf for each code, in the order of the codes.
pub open spec fn leaves(c: Counts) -> Seq<Tree> {
    Seq::new(
        c.keys.len(),
        |i: int| Tree::Leaf { count: c.vals[i].0, key: c.keys[i], is_mod: c.vals[i].1 },
    )
}

/// The first tree of the least weight.
pub open spec fn lightest(queue: Seq<Tree>) -> int
    decreases queue.len(),
{
    if queue.len() <= 1 {
        0
    } else {
        let before = lightest(queue.drop_last());
        if queue.last().weight() < queue[before].weight() {
            queue.len() - 1
        } else {
            before
        }
    }
}

/// The queue after its two lightest trees have been taken out, the lightest
/// first, and their branch has been put at the end: the lightest is the
/// left child.
pub open spec fn merge_step(queue: Seq<Tree>) -> Seq<Tree> {
    let i = lightest(queue);
    let rest = queue.remove(i);
    let j = lightest(rest);
    rest.remove(j).push(Tree::Branch { left: Box::new(queue[i]), right: Box::new(rest[j]) })
}

/// The one tree that is left when the queue has been merged step by step.
pub open spec fn merged(queue: Seq<Tree>) -> Tree
    decreases queue.len(),
{
    if queue.len() <= 1 {
        queue[0]
    } else {
        proof {
            lemma_merge_step_len(queue);
        }
        merged(merge_step(queue))
    }
}

/// The Huffman tree of the presses.
pub open spec fn huffman_tree(presses: Seq<KeyPressView>) -> Tree {
    merged(leaves(count_all(symbols(presses))))
}

/// The sum of the weights of the trees.
pub open spec fn total_weight(queue: Seq<Tree>) -> nat
    decreases queue.len(),
{
    if queue.len() == 0 {
        0
    } else {
        total_weight(queue.drop_last()) + queue.last().weight()
    }
}

/// All the codes at the leaves of the trees.
pub open spec fn forest_keys(queue: Seq<Tree>) -> Set<Seq<char>> {
    Set::new(|k: Seq<char>| exists|i: int| 0 <= i < queue.len() && #[trigger] queue[i].keys().contains(k))
}

/// No code stands at two leaves, of one tree or of two.
pub open spec fn forest_distinct(queue: Seq<Tree>) -> bool {
    &&& forall|i: int| 0 <= i < queue.len() ==> (#[trigger] queue[i]).distinct()
    &&& forall|i: int, j: int|
        0 <= i < j < queue.len() ==> (#[trigger] queue[i]).keys().disjoint((#[trigger] queue[j]).keys())
}

/// The lightest tree of a queue is one of its trees.
pub proof fn lemma_lightest_in_range(queue: Seq<Tree>)
    requires
        queue.len() > 0,
    ensures
        0 <= lightest(queue) < queue.len(),
    decreases queue.len(),
{
    if queue.len() > 1 {
        lemma_lightest_in_range(queue.drop_last());
    }
}

/// A merge step makes the queue one shorter.
pub proof fn lemma_merge_step_len(queue: Seq<Tree>)
    requires
        queue.len() >= 2,
    ensures
        merge_step(queue).len() == queue.len() - 1,
{
    lemma_lightest_in_range(queue);
    lemma_lightest_in_range(queue.remove(lightest(queue)));
}

/// A tree put at the end adds its weight to that of the queue.
proof fn lemma_total_weight_push(queue: Seq<Tree>, t: Tree)
    ensures
        total_weight(queue.push(t)) == total_weight(queue) + t.weight(),
{
    assert(queue.push(t).drop_last() == queue);
}

/// A tree taken out takes its weight from that of the queue.
proof fn lemma_total_weight_remove(queue: Seq<Tree>, i: int)
    requires
        0 <= i < queue.len(),
    ensures
        total_weight(queue.remove(i)) + queue[i].weight() == total_weight(queue),
    decreases queue.len(),
{
    if i == queue.len() - 1 {
        assert(queue.remove(i) == queue.drop_last());
    } else {
        lemma_total_weight_remove(queue.drop_last(), i);
        assert(queue.remove(i).drop_last() == queue.drop_last().remove(i));
        assert(queue.remove(i).last() == queue.last());
    }
}

/// A merge step makes the queue one shorter and keeps its weight.
pub proof fn lemma_merge_step(queue: Seq<Tree>)
    requires
        queue.len() >= 2,
    ensures
        merge_step(queue).len() == queue.len() - 1,
        total_weight(merge_step(queue)) == total_weight(queue),
{
    let i = lightest(queue);
    lemma_lightest_in_range(queue);
    let rest = queue.remove(i);
    lemma_lightest_in_range(rest);
    let j = lightest(rest);
    lemma_total_weight_remove(queue, i);
    lemma_total_weight_remove(rest, j);
    lemma_total_weight_push(
        rest.remove(j),
        Tree::Branch { left: Box::new(queue[i]), right: Box::new(rest[j]) },
    );
}

/// A merge step keeps the leaves distinct and the same.
proof fn lemma_merge_step_distinct(queue: Seq<Tree>)
    requires
        queue.len() >= 2,
        forest_distinct(queue),
    ensures
        forest_distinct(merge_step(queue)),
        forest_keys(merge_step(queue)) == forest_keys(queue),
{
    let i = lightest(queue);
    lemma_lightest_in_range(queue);
    let rest = queue.remove(i);
    lemma_lightest_in_range(rest);
    let j = lightest(rest);
    let j0 = if j < i { j } else { j + 1 };
    assert(rest[j] == queue[j0]);
    let branch = Tree::Branch { left: Box::new(queue[i]), right: Box::new(rest[j]) };
    let rest2 = rest.remove(j);
    let next = merge_step(queue);
    assert(next == rest2.push(branch));
    // Where each tree of the new queue stood in the old one.
    let origin = |a: int|
        {
            let b = if a < j { a } else { a + 1 };
            if b < i { b } else { b + 1 }
        };
    assert forall|a: int| 0 <= a < rest2.len() implies next[a] == queue[origin(a)] && origin(a) != i
        && origin(a) != j0 && 0 <= origin(a) < queue.len() by {
        let b = if a < j { a } else { a + 1 };
        assert(rest2[a] == rest[b]);
    }
    if i < j0 {
        assert(queue[i].keys().disjoint(queue[j0].keys()));
    } else {
        assert(queue[j0].keys().disjoint(queue[i].keys()));
    }
    assert(branch.distinct());
    assert forall|a: int| 0 <= a < next.len() implies (#[trigger] next[a]).distinct() by {
        if a < rest2.len() {
            assert(next[a] == queue[origin(a)]);
        }
    }
    assert forall|a: int, b: int| 0 <= a < b < next.len() implies (#[trigger] next[a]).keys().disjoint(
        (#[trigger] next[b]).keys(),
    ) by {
        let oa = origin(a);
        assert(next[a] == queue[oa]);
        if b < rest2.len() {
            let ob = origin(b);
            assert(next[b] == queue[ob]);
            assert(oa < ob);
        } else {
            if oa < i {
                assert(queue[oa].keys().disjoint(queue[i].keys()));
            } else {
                assert(queue[i].keys().disjoint(queue[oa].keys()));
            }
            if oa < j0 {
                assert(queue[oa].keys().disjoint(queue[j0].keys()));
            } else {
                assert(queue[j0].keys().disjoint(queue[oa].keys()));
            }
        }
    }
    assert forall|k: Seq<char>| forest_keys(next).contains(k) == forest_keys(queue).contains(k) by {
        if forest_keys(next).contains(k) {
            let a = choose|a: int| 0 <= a < next.len() && #[trigger] next[a].keys().contains(k);
            if a < rest2.len() {
                assert(queue[origin(a)].keys().contains(k));
            } else {
                if queue[i].keys().contains(k) {
                } else {
                    assert(queue[j0].keys().contains(k));
                }
            }
        }
        if forest_keys(queue).contains(k) {
            let b = choose|b: int| 0 <= b < queue.len() && #[trigger] queue[b].keys().contains(k);
            if b == i || b == j0 {
                assert(next[rest2.len() as int].keys().contains(k));
            } else {
                let b1 = if b < i { b } else { b - 1 };
                let a = if b1 < j { b1 } else { b1 - 1 };
                assert(origin(a) == b);
                assert(next[a].keys().contains(k));
            }
        }
    }
    assert(forest_keys(next) =~= forest_keys(queue));
}

/// Merging trees with distinct leaves gives a tree with distinct leaves
/// that has the leaves of them all.
pub proof fn lemma_merged_distinct(queue: Seq<Tree>)
    requires
        queue.len() >= 1,
        forest_distinct(queue),
    ensures
        merged(queue).distinct(),
        merged(queue).keys() == forest_keys(queue),
    decreases queue.len(),
{
    if queue.len() == 1 {
        assert forall|k: Seq<char>| forest_keys(queue).contains(k) == queue[0].keys().contains(k) by {
            if forest_keys(queue).contains(k) {
                let a = choose|a: int| 0 <= a < queue.len() && #[trigger] queue[a].keys().contains(k);
                assert(a == 0);
            }
        }
        assert(forest_keys(queue) =~= queue[0].keys());
    } else {
        lemma_merge_step(queue);
        lemma_merge_step_distinct(queue);
        lemma_merged_distinct(merge_step(queue));
    }
}


/// No tree weighs more than the whole queue.
proof fn lemma_weight_bound(queue: Seq<Tree>, i: int)
    requires
        0 <= i < queue.len(),
    ensures
        queue[i].weight() <= total_weight(queue),
    decreases queue.len(),
{
    if i < queue.len() - 1 {
        lemma_weight_bound(queue.drop_last(), i);
    }
}

/// No count is more than the sum of the counts.
proof fn lemma_total_bound(vals: Seq<(nat, bool)>, i: int)
    requires
        0 <= i < vals.len(),
    ensures
        vals[i].0 <= total(vals),
    decreases vals.len(),
{
    if i < vals.len() - 1 {
        lemma_total_bound(vals.drop_last(), i);
    }
}

/// A count that is changed changes the sum by as much.
proof fn lemma_total_update(vals: Seq<(nat, bool)>, p: int, v: (nat, bool))
    requires
        0 <= p < vals.len(),
    ensures
        total(vals.update(p, v)) + vals[p].0 == total(vals) + v.0,
    decreases vals.len(),
{
    if p == vals.len() - 1 {
        assert(vals.update(p, v).drop_last() == vals.drop_last());
    } else {
        lemma_total_update(vals.drop_last(), p, v);
        assert(vals.update(p, v).drop_last() == vals.drop_last().update(p, v));
    }
}

/// A count that is put in adds itself to the sum.
proof fn lemma_total_insert(vals: Seq<(nat, bool)>, p: int, v: (nat, bool))
    requires
        0 <= p <= vals.len(),
    ensures
        total(vals.insert(p, v)) == total(vals) + v.0,
    decreases vals.len(),
{
    if p == vals.len() {
        assert(vals.insert(p, v).drop_last() == vals);
    } else {
        lemma_total_insert(vals.drop_last(), p, v);
        assert(vals.insert(p, v).drop_last() == vals.drop_last().insert(p, v));
        assert(vals.insert(p, v).last() == vals.last());
    }
}

/// The leaves weigh what their counts add up to.
proof fn lemma_leaves_weight(c: Counts, n: int)
    requires
        c.keys.len() == c.vals.len(),
        0 <= n <= c.keys.len(),
    ensures
        total_weight(leaves(c).take(n)) == total(c.vals.take(n)),
    decreases n,
{
    if n > 0 {
        lemma_leaves_weight(c, n - 1);
        assert(leaves(c).take(n).drop_last() == leaves(c).take(n - 1));
        assert(c.vals.take(n).drop_last() == c.vals.take(n - 1));
    }
}

/// The symbols of the first `n` presses are no more than those of all.
proof fn lemma_symbols_prefix(presses: Seq<KeyPressView>, n: int)
    requires
        0 <= n <= presses.len(),
    ensures
        symbols(presses.take(n)).len() <= symbols(presses).len(),
    decreases presses.len() - n,
{
    if n < presses.len() {
        lemma_symbols_prefix(presses, n + 1);
        assert(presses.take(n + 1).drop_last() == presses.take(n));
    } else {
        assert(presses.take(n) == presses);
    }
}

/// The code of one symbol: its bits and whether it is a modifier.
#[derive(Debug, PartialEq, Eq)]
pub struct HuffmanEntry {
    pub bits: Vec<bool>,
    pub is_mod: bool,
}

impl Clone for HuffmanEntry {
    fn clone(&self) -> (copy: Self)
        ensures
            copy.bits@ == self.bits@,
            copy.is_mod == self.is_mod,
    {
        HuffmanEntry { bits: copy_bits(&self.bits), is_mod: self.is_mod }
    }
}

/// The code of each symbol.
#[derive(Debug, PartialEq, Eq)]
pub struct HuffmanTable(pub StrMap<HuffmanEntry>);

/// A tree of the construction.
#[derive(Debug)]
pub enum HuffmanNode {
    Leaf { count: usize, key: CCode, is_mod: bool },
    Branch { left: Box<HuffmanNode>, right: Box<HuffmanNode> },
}

/// The counts in a map, as a mathematical value.
pub open spec fn counts_model(m: StrMap<(usize, bool)>) -> Counts {
    Counts { keys: m.key_seq(), vals: m.val_seq().map_values(|v: (usize, bool)| (v.0 as nat, v.1)) }
}

/// The trees of a queue, as mathematical values.
pub open spec fn models(queue: Seq<HuffmanNode>) -> Seq<Tree> {
    queue.map_values(|n: HuffmanNode| n.model())
}

/// A copy of `bits`.
pub fn copy_bits(bits: &Vec<bool>) -> (copy: Vec<bool>)
    ensures
        copy@ == bits@,
{
    let mut copy: Vec<bool> = Vec::new();
    let mut i: usize = 0;
    while i < bits.len()
        invariant
            i <= bits.len(),
            copy@ == bits@.take(i as int),
        decreases bits.len() - i,
    {
        copy.push(bits[i]);
        assert(copy@ == bits@.take(i + 1));
        i += 1;
    }
    assert(bits@.take(i as int) == bits@);
    copy
}

impl HuffmanNode {
    /// The tree as a mathematical value.
    pub open spec fn model(&self) -> Tree
        decreases self,
    {
        match self {
            HuffmanNode::Leaf { count, key, is_mod } => Tree::Leaf {
                count: *count as nat,
                key: key@,
                is_mod: *is_mod,
            },
            HuffmanNode::Branch { left, right } => Tree::Branch {
                left: Box::new(left.model()),
                right: Box::new(right.model()),
            },
        }
    }

    /// The weight of the tree: the sum of the counts of its leaves.
    pub fn count(&self) -> (weight: usize)
        requires
            self.model().weight() <= usize::MAX,
        ensures
            weight == self.model().weight(),
        decreases self,
    {
        match self {
            HuffmanNode::Leaf { count, .. } => *count,
            HuffmanNode::Branch { left, right } => left.count() + right.count(),
        }
    }
}

/// Counts one more occurrence of `key`. A code that is new is marked as a
/// modifier or not as `is_mod` says; one that is known keeps its mark.
pub fn increment(map: &mut StrMap<(usize, bool)>, key: CCode, is_mod: bool)
    requires
        old(map).wf(),
        total(counts_model(*old(map)).vals) < usize::MAX,
    ensures
        final(map).wf(),
        counts_model(*final(map)) == counted(
            counts_model(*old(map)),
            Symbol { code: key@, is_mod },
        ),
{
    let ghost before = counts_model(*map);
    let entry = match map.get(key.as_str()) {
        Some(e) => {
            proof {
                lemma_total_bound(before.vals, map.pos(key@));
            }
            (e.0 + 1, e.1)
        },
        None => (1, is_mod),
    };
    map.insert(key.0, entry);
    proof {
        let after = counts_model(*map);
        let want = counted(before, Symbol { code: key@, is_mod });
        assert(after.keys == want.keys);
        assert(after.vals =~= want.vals);
    }
}

/// How often each code occurs in `keys`, as a key (the blank code for a
/// press without one) or as a modifier.
pub fn count(keys: &Vec<KeyPress>) -> (counts: StrMap<(usize, bool)>)
    requires
        symbols(press_views(keys@)).len() <= usize::MAX,
    ensures
        counts.wf(),
        counts_model(counts) == count_all(symbols(press_views(keys@))),
        total(counts_model(counts).vals) == symbols(press_views(keys@)).len(),
{
    let ghost presses = press_views(keys@);
    let mut counts: StrMap<(usize, bool)> = StrMap::new();
    let ghost mut stream: Seq<Symbol> = Seq::empty();
    assert(presses.take(0) =~= Seq::empty());
    assert(counts_model(counts).vals =~= Seq::empty());
    let mut i: usize = 0;
    while i < keys.len()
        invariant
            i <= keys.len(),
            presses == press_views(keys@),
            symbols(presses).len() <= usize::MAX,
            counts.wf(),
            stream == symbols(presses.take(i as int)),
            counts_model(counts) == count_all(stream),
            total(counts_model(counts).vals) == stream.len(),
        decreases keys.len() - i,
    {
        let press = &keys[i];
        let ghost all = press_symbols(press@);
        proof {
            lemma_symbols_prefix(presses, i + 1);
            assert(presses.take(i + 1).drop_last() == presses.take(i as int));
            assert(presses.take(i + 1).last() == press@);
            assert(symbols(presses.take(i + 1)) == stream + all);
        }
        let ghost start = stream;
        increment(&mut counts, press.key_or_blank(), false);
        proof {
            let s = Symbol { code: press@.key_or_blank(), is_mod: false };
            lemma_counted_total(count_all(stream), s);
            assert(stream.push(s).drop_last() == stream);
            stream = stream.push(s);
            assert(stream =~= start + all.take(1));
        }
        let mut j: usize = 0;
        while j < press.mods.len()
            invariant
                j <= press.mods.len(),
                press == &keys[i as int],
                all == press_symbols(press@),
                start.len() + all.len() <= usize::MAX,
                counts.wf(),
                stream == start + all.take(1 + j),
                counts_model(counts) == count_all(stream),
                total(counts_model(counts).vals) == stream.len(),
            decreases press.mods.len() - j,
        {
            increment(&mut counts, press.mods[j].clone(), true);
            proof {
                let s = Symbol { code: press.mods[j as int]@, is_mod: true };
                assert(all[1 + j] == s);
                lemma_counted_total(count_all(stream), s);
                assert(stream.push(s).drop_last() == stream);
                let ghost longer = stream.push(s);
                assert(longer =~= start + all.take(2 + j));
                stream = longer;
            }
            j += 1;
        }
        proof {
            assert(all.take(1 + j) == all);
        }
        i += 1;
    }
    assert(presses.take(i as int) == presses);
    counts
}

/// One more occurrence makes the sum of the counts one larger and keeps one
/// count for each code.
proof fn lemma_counted_total(c: Counts, s: Symbol)
    requires
        c.keys.len() == c.vals.len(),
    ensures
        counted(c, s).keys.len() == counted(c, s).vals.len(),
        total(counted(c, s).vals) == total(c.vals) + 1,
{
    if c.keys.contains(s.code) {
        let p = c.keys.index_of(s.code);
        lemma_total_update(c.vals, p, (c.vals[p].0 + 1, c.vals[p].1));
    } else {
        lemma_rank_in_range(c.keys, s.code);
        lemma_total_insert(c.vals, rank(c.keys, s.code), (1nat, s.is_mod));
    }
}

/// The rank of a key is a position of the list, or its length.
proof fn lemma_rank_in_range(keys: Seq<Seq<char>>, key: Seq<char>)
    ensures
        0 <= rank(keys, key) <= keys.len(),
    decreases keys.len(),
{
    if keys.len() > 0 {
        lemma_rank_in_range(keys.drop_first(), key);
    }
}

/// The position of the first tree of the least weight.
fn lightest_index(queue: &Vec<HuffmanNode>) -> (at: usize)
    requires
        queue.len() > 0,
        total_weight(models(queue@)) <= usize::MAX,
    ensures
        at == lightest(models(queue@)),
        at < queue.len(),
{
    let ghost trees = models(queue@);
    proof {
        lemma_weight_bound(trees, 0);
        assert(lightest(trees.take(1)) == 0);
    }
    let mut at: usize = 0;
    let mut least = queue[0].count();
    let mut i: usize = 1;
    while i < queue.len()
        invariant
            1 <= i <= queue.len(),
            trees == models(queue@),
            total_weight(trees) <= usize::MAX,
            at == lightest(trees.take(i as int)),
            at < i,
            least == trees[at as int].weight(),
        decreases queue.len() - i,
    {
        proof {
            lemma_weight_bound(trees, i as int);
            assert(trees.take(i + 1).drop_last() == trees.take(i as int));
        }
        let w = queue[i].count();
        if w < least {
            at = i;
            least = w;
        }
        i += 1;
    }
    assert(trees.take(i as int) == trees);
    at
}

/// Builds the tree: a leaf for each code, in the order of the codes, then
/// the two lightest trees merged until one is left. `None` where there is
/// no code.
pub fn make_tree(counts: &StrMap<(usize, bool)>) -> (tree: Option<HuffmanNode>)
    requires
        counts.wf(),
        total(counts_model(*counts).vals) <= usize::MAX,
    ensures
        counts.key_seq().len() == 0 ==> tree is None,
        counts.key_seq().len() > 0 ==> tree is Some && tree->0.model() == merged(
            leaves(counts_model(*counts)),
        ) && tree->0.model().distinct() && (forall|k: Seq<char>|
            tree->0.model().keys().contains(k) == counts.has(k)),
{
    let ghost c = counts_model(*counts);
    let mut queue: Vec<HuffmanNode> = Vec::new();
    let mut i: usize = 0;
    while i < counts.len()
        invariant
            i <= counts.key_seq().len(),
            counts.wf(),
            c == counts_model(*counts),
            queue.len() == i,
            models(queue@) == leaves(c).take(i as int),
        decreases counts.key_seq().len() - i,
    {
        let entry = counts.val_at(i);
        let leaf = HuffmanNode::Leaf {
            count: entry.0,
            key: CCode(counts.key_at(i).clone()),
            is_mod: entry.1,
        };
        proof {
            assert(c.vals[i as int] == (entry.0 as nat, entry.1));
            assert(leaf.model() == leaves(c)[i as int]);
        }
        let ghost before = queue@;
        queue.push(leaf);
        proof {
            assert(queue@ == before.push(leaf));
            assert forall|k: int| 0 <= k < i + 1 implies models(queue@)[k] == leaves(c).take(i + 1)[k] by {
                if k < i {
                    assert(models(queue@)[k] == models(before)[k]);
                }
            }
            assert(models(queue@) =~= leaves(c).take(i + 1));
        }
        i += 1;
    }
    proof {
        assert(leaves(c).take(i as int) == leaves(c));
        lemma_leaves_weight(c, c.keys.len() as int);
        assert(c.vals.take(c.keys.len() as int) == c.vals);
        let start = leaves(c);
        assert forall|a: int, b: int| 0 <= a < b < start.len() implies (#[trigger] start[a]).keys().disjoint(
            (#[trigger] start[b]).keys(),
        ) by {
            if c.keys[a] == c.keys[b] {
                crate::text::lemma_sorted_distinct(c.keys, a, b);
            }
        }
        assert(forest_distinct(start));
        assert forall|k: Seq<char>| forest_keys(start).contains(k) == counts.has(k) by {
            if forest_keys(start).contains(k) {
                let a = choose|a: int| 0 <= a < start.len() && #[trigger] start[a].keys().contains(k);
                assert(c.keys[a] == k);
            }
            if counts.has(k) {
                let a = c.keys.index_of(k);
                assert(start[a].keys().contains(k));
            }
        }
        if start.len() > 0 {
            lemma_merged_distinct(start);
        }
    }
    if queue.len() == 0 {
        return None;
    }
    while queue.len() >= 2
        invariant
            queue.len() >= 1,
            total_weight(models(queue@)) <= usize::MAX,
            merged(models(queue@)) == merged(leaves(c)),
        decreases queue.len(),
    {
        let ghost before = models(queue@);
        proof {
            lemma_merge_step(before);
            lemma_lightest_in_range(before);
        }
        let i = lightest_index(&queue);
        let left = queue.remove(i);
        proof {
            assert(models(queue@) =~= before.remove(i as int));
            lemma_total_weight_remove(before, i as int);
            lemma_lightest_in_range(before.remove(i as int));
        }
        let j = lightest_index(&queue);
        let right = queue.remove(j);
        queue.push(HuffmanNode::Branch { left: Box::new(left), right: Box::new(right) });
        assert(models(queue@) =~= merge_step(before));
    }
    queue.pop()
}


/// Writes the code of each leaf under `node` into `out`: the way from the
/// root to the leaf, after `prefix`.
pub fn make_codes(node: &HuffmanNode, prefix: Vec<bool>, out: &mut StrMap<HuffmanEntry>)
    requires
        old(out).wf(),
        node.model().distinct(),
    ensures
        final(out).wf(),
        forall|k: Seq<char>|
            node.model().keys().contains(k) ==> #[trigger] final(out).has(k) && final(out).val(k).bits@
                == prefix@ + node.model().code(k) && final(out).val(k).is_mod == node.model().is_mod(
                k,
            ),
        forall|k: Seq<char>|
            !node.model().keys().contains(k) ==> #[trigger] final(out).has(k) == old(out).has(k) && (old(
                out,
            ).has(k) ==> final(out).val(k) == old(out).val(k)),
    decreases node,
{
    match node {
        HuffmanNode::Branch { left, right } => {
            let mut left_prefix = copy_bits(&prefix);
            left_prefix.push(false);
            make_codes(left, left_prefix, out);
            let ghost between = *out;
            let mut right_prefix = prefix;
            right_prefix.push(true);
            make_codes(right, right_prefix, out);
            proof {
                let l = left.model();
                let r = right.model();
                assert forall|k: Seq<char>| node.model().keys().contains(k) implies #[trigger] out.has(k)
                    && out.val(k).bits@ == prefix@ + node.model().code(k) && out.val(k).is_mod
                    == node.model().is_mod(k) by {
                    if l.keys().contains(k) {
                        assert(!r.keys().contains(k));
                        assert(between.has(k));
                        assert(out.has(k) == between.has(k));
                        assert(left_prefix@ + l.code(k) =~= prefix@ + (seq![false] + l.code(k)));
                    } else {
                        assert(r.keys().contains(k));
                        assert(out.has(k));
                        assert(right_prefix@ + r.code(k) =~= prefix@ + (seq![true] + r.code(k)));
                    }
                }
                assert forall|k: Seq<char>| !node.model().keys().contains(k) implies #[trigger] out.has(k)
                    == old(out).has(k) && (old(out).has(k) ==> out.val(k) == old(out).val(k)) by {
                    assert(!l.keys().contains(k) && !r.keys().contains(k));
                    assert(between.has(k) == old(out).has(k));
                    assert(out.has(k) == between.has(k));
                }
            }
        },
        HuffmanNode::Leaf { key, is_mod, .. } => {
            proof {
                assert(prefix@ + Seq::<bool>::empty() =~= prefix@);
            }
            out.insert(key.0.clone(), HuffmanEntry { bits: prefix, is_mod: *is_mod });
        },
    }
}

/// The least of `lens`, and 0 where there is none.
pub open spec fn shortest(lens: Seq<nat>) -> nat
    decreases lens.len(),
{
    if lens.len() == 0 {
        0
    } else if lens.len() == 1 {
        lens[0]
    } else if lens.last() < shortest(lens.drop_last()) {
        lens.last()
    } else {
        shortest(lens.drop_last())
    }
}

/// `shortest` is one of the lengths and none is less.
pub proof fn lemma_shortest(lens: Seq<nat>)
    requires
        lens.len() > 0,
    ensures
        lens.contains(shortest(lens)),
        forall|i: int| 0 <= i < lens.len() ==> shortest(lens) <= lens[i],
    decreases lens.len(),
{
    if lens.len() > 1 {
        let rest = lens.drop_last();
        lemma_shortest(rest);
        let w = rest.index_of(shortest(rest));
        assert(lens[w] == rest[w]);
        assert(lens[lens.len() - 1] == lens.last());
        assert forall|i: int| 0 <= i < lens.len() implies shortest(lens) <= lens[i] by {
            if i < rest.len() {
                assert(rest[i] == lens[i]);
            }
        }
    } else {
        assert(lens[0] == shortest(lens));
    }
}

impl HuffmanTable {
    /// The table is a well-formed map.
    pub open spec fn wf(&self) -> bool {
        self.0.wf()
    }

    /// Whether the table has a code for `key`.
    pub open spec fn has(&self, key: Seq<char>) -> bool {
        self.0.has(key)
    }

    /// The bits of the code of `key`.
    pub open spec fn code(&self, key: Seq<char>) -> Seq<bool> {
        self.0.val(key).bits@
    }

    /// Whether the table marks `key` as a modifier.
    pub open spec fn marks_mod(&self, key: Seq<char>) -> bool {
        self.0.val(key).is_mod
    }

    /// The table holds the codes of the leaves of `tree`, and nothing else.
    pub open spec fn matches(&self, tree: Tree) -> bool {
        forall|k: Seq<char>|
            #![trigger self.has(k)]
            self.has(k) == tree.keys().contains(k) && (self.has(k) ==> self.code(k) == tree.code(k)
                && self.marks_mod(k) == tree.is_mod(k))
    }

    /// The code of no symbol is the beginning of the code of another.
    pub open spec fn prefix_free(&self) -> bool {
        forall|a: Seq<char>, b: Seq<char>|
            #![trigger self.code(a), self.code(b)]
            self.has(a) && self.has(b) && a != b ==> !is_prefix(self.code(a), self.code(b))
    }

    /// The lengths of the codes, in the order of the symbols.
    pub open spec fn code_lens(&self) -> Seq<nat> {
        self.0.val_seq().map_values(|e: HuffmanEntry| e.bits@.len())
    }

    /// The length of the shortest code.
    pub open spec fn spec_min_bit_length(&self) -> nat {
        shortest(self.code_lens())
    }

    /// A table that holds the codes of a tree with distinct leaves is free
    /// of prefixes.
    pub proof fn lemma_prefix_free(&self, tree: Tree)
        requires
            self.matches(tree),
            tree.distinct(),
        ensures
            self.prefix_free(),
    {
        assert forall|a: Seq<char>, b: Seq<char>|
            #![trigger self.code(a), self.code(b)]
            self.has(a) && self.has(b) && a != b implies !is_prefix(self.code(a), self.code(b)) by {
            lemma_tree_prefix_free(tree, a, b);
        }
    }

    /// No code is shorter than the shortest, and some code is that short.
    pub proof fn lemma_min_bit_length(&self)
        requires
            self.wf(),
            self.0.key_seq().len() > 0,
        ensures
            forall|k: Seq<char>| self.has(k) ==> self.spec_min_bit_length() <= #[trigger] self.code(k).len(),
            exists|k: Seq<char>| self.has(k) && #[trigger] self.code(k).len() == self.spec_min_bit_length(),
    {
        let lens = self.code_lens();
        lemma_shortest(lens);
        assert forall|k: Seq<char>| self.has(k) implies self.spec_min_bit_length() <= #[trigger] self.code(
            k,
        ).len() by {
            let p = self.0.pos(k);
            assert(self.0.key_seq()[p] == k);
            assert(lens[p] == self.code(k).len());
        }
        let w = lens.index_of(shortest(lens));
        self.0.lemma_pos(w);
        let k = self.0.key_seq()[w];
        assert(self.has(k) && self.code(k).len() == self.spec_min_bit_length());
    }

    /// The Huffman code of the symbols of `keys`, each weighted by how often
    /// it occurs.
    pub fn new(keys: Vec<KeyPress>) -> (table: HuffmanTable)
        requires
            keys.len() > 0,
            symbols(press_views(keys@)).len() <= usize::MAX,
        ensures
            table.wf(),
            table.matches(huffman_tree(press_views(keys@))),
            huffman_tree(press_views(keys@)).distinct(),
            table.prefix_free(),
            table.0.key_seq() == count_all(symbols(press_views(keys@))).keys,
            table.0.key_seq().len() > 0,
    {
        let counts = count(&keys);
        proof {
            let presses = press_views(keys@);
            assert(presses.len() > 0);
            assert(symbols(presses).len() > 0);
            assert(total(counts_model(counts).vals) > 0);
            assert(counts.key_seq().len() > 0);
        }
        let tree = make_tree(&counts).unwrap();
        let mut map: StrMap<HuffmanEntry> = StrMap::new();
        let ghost empty = map;
        make_codes(&tree, Vec::new(), &mut map);
        let table = HuffmanTable(map);
        proof {
            let t = tree.model();
            assert forall|k: Seq<char>| #![trigger table.has(k)] table.has(k) == t.keys().contains(k) && (
            table.has(k) ==> table.code(k) == t.code(k) && table.marks_mod(k) == t.is_mod(k)) by {
                if t.keys().contains(k) {
                    assert(Seq::<bool>::empty() + t.code(k) =~= t.code(k));
                } else {
                    assert(!empty.has(k));
                }
            }
            table.lemma_prefix_free(t);
            assert forall|k: Seq<char>| table.0.key_seq().contains(k) == counts.key_seq().contains(
                k,
            ) by {
                assert(table.has(k) == t.keys().contains(k));
                assert(t.keys().contains(k) == counts.has(k));
            }
            lemma_same_keys(table.0.key_seq(), counts.key_seq());
        }
        table
    }

    /// The entry of `key`.
    fn get(&self, key: &CCode) -> (r: Result<&HuffmanEntry, Error>)
        requires
            self.wf(),
        ensures
            self.has(key@) ==> r is Ok && *r->Ok_0 == self.0.val(key@),
            !self.has(key@) ==> r is Err && r->Err_0@ == (ErrorView::Lookup {
                key: key@,
                container: "huffman code table"@,
            }),
    {
        match self.0.get(key.as_str()) {
            Some(entry) => Ok(entry),
            None => Err(Error::lookup(key.as_str(), "huffman code table")),
        }
    }

    /// The bits of the code of `key`.
    pub fn bits(&self, key: &CCode) -> (r: Result<Vec<bool>, Error>)
        requires
            self.wf(),
        ensures
            self.has(key@) ==> r is Ok && r->Ok_0@ == self.code(key@),
            !self.has(key@) ==> r is Err && r->Err_0@ == (ErrorView::Lookup {
                key: key@,
                container: "huffman code table"@,
            }),
    {
        match self.get(key) {
            Ok(entry) => Ok(copy_bits(&entry.bits)),
            Err(e) => Err(e),
        }
    }

    /// The bits of the code of `key`, each as `1` or `0` in the generated
    /// code.
    pub fn as_c_bits(&self, key: &CCode) -> (r: Result<Vec<CCode>, Error>)
        requires
            self.wf(),
        ensures
            self.has(key@) ==> r is Ok && r->Ok_0@.len() == self.code(key@).len() && (forall|i: int|
                0 <= i < self.code(key@).len() ==> (#[trigger] r->Ok_0@[i])@ == (if self.code(key@)[i] {
                    "1"@
                } else {
                    "0"@
                })),
            !self.has(key@) ==> r is Err && r->Err_0@ == (ErrorView::Lookup {
                key: key@,
                container: "huffman code table"@,
            }),
    {
        match self.get(key) {
            Ok(entry) => {
                let mut out: Vec<CCode> = Vec::new();
                let mut i: usize = 0;
                while i < entry.bits.len()
                    invariant
                        i <= entry.bits.len(),
                        out.len() == i,
                        forall|j: int|
                            0 <= j < i ==> (#[trigger] out@[j])@ == (if entry.bits@[j] {
                                "1"@
                            } else {
                                "0"@
                            }),
                    decreases entry.bits.len() - i,
                {
                    out.push(if entry.bits[i] { CCode::new("1") } else { CCode::new("0") });
                    i += 1;
                }
                Ok(out)
            },
            Err(e) => Err(e),
        }
    }

    /// The number of bits of the code of `key`.
    pub fn num_bits(&self, key: &CCode) -> (r: Result<usize, Error>)
        requires
            self.wf(),
        ensures
            self.has(key@) ==> r is Ok && r->Ok_0 == self.code(key@).len(),
            !self.has(key@) ==> r is Err && r->Err_0@ == (ErrorView::Lookup {
                key: key@,
                container: "huffman code table"@,
            }),
    {
        match self.get(key) {
            Ok(entry) => Ok(entry.bits.len()),
            Err(e) => Err(e),
        }
    }

    /// Whether `key` is marked as a modifier.
    pub fn is_mod(&self, key: &CCode) -> (r: Result<bool, Error>)
        requires
            self.wf(),
        ensures
            self.has(key@) ==> r is Ok && r->Ok_0 == self.marks_mod(key@),
            !self.has(key@) ==> r is Err && r->Err_0@ == (ErrorView::Lookup {
                key: key@,
                container: "huffman code table"@,
            }),
    {
        match self.get(key) {
            Ok(entry) => Ok(entry.is_mod),
            Err(e) => Err(e),
        }
    }

    /// The length of the shortest code; 0 for a table without codes.
    pub fn min_bit_length(&self) -> (least: usize)
        requires
            self.wf(),
        ensures
            least == self.spec_min_bit_length(),
    {
        let ghost lens = self.code_lens();
        if self.0.len() == 0 {
            return 0;
        }
        let mut least = self.0.val_at(0).bits.len();
        assert(lens.take(1).len() == 1);
        let mut i: usize = 1;
        while i < self.0.len()
            invariant
                1 <= i <= self.0.key_seq().len(),
                self.wf(),
                lens == self.code_lens(),
                least == shortest(lens.take(i as int)),
            decreases self.0.key_seq().len() - i,
        {
            let n = self.0.val_at(i).bits.len();
            assert(lens.take(i + 1).drop_last() == lens.take(i as int));
            if n < least {
                least = n;
            }
            i += 1;
        }
        assert(lens.take(i as int) == lens);
        least
    }
}

/// Two sorted lists with the same members are the same list.
pub proof fn lemma_same_keys(a: Seq<Seq<char>>, b: Seq<Seq<char>>)
    requires
        crate::text::sorted(a),
        crate::text::sorted(b),
        forall|k: Seq<char>| a.contains(k) == b.contains(k),
    ensures
        a == b,
    decreases a.len(),
{
    if a.len() == 0 {
        if b.len() > 0 {
            assert(b.contains(b[0]));
        }
        assert(a =~= b);
    } else {
        assert(a.contains(a[a.len() - 1]));
        if b.len() == 0 {
            assert(!b.contains(a[a.len() - 1]));
        }
        let la = a.last();
        let lb = b.last();
        assert(b.contains(lb));
        assert(a.contains(la));
        // The last member of each is the greatest, so they are the same.
        let ia = a.index_of(lb);
        let ib = b.index_of(la);
        if la != lb {
            crate::text::lemma_text_lt_transitive(lb, la, lb);
            crate::text::lemma_text_lt_irreflexive(lb);
        }
        let ra = a.drop_last();
        let rb = b.drop_last();
        assert forall|k: Seq<char>| ra.contains(k) == rb.contains(k) by {
            if ra.contains(k) {
                let i = ra.index_of(k);
                assert(a[i] == k);
                crate::text::lemma_text_lt_irreflexive(la);
                assert(a.contains(k));
                let j = b.index_of(k);
                assert(rb[j] == k);
            }
            if rb.contains(k) {
                let j = rb.index_of(k);
                assert(b[j] == k);
                crate::text::lemma_text_lt_irreflexive(lb);
                assert(b.contains(k));
                let i = a.index_of(k);
                assert(ra[i] == k);
            }
        }
        lemma_same_keys(ra, rb);
        assert(a =~= ra.push(la));
        assert(b =~= rb.push(lb));
    }
}


/// How often `code` occurs in a stream of symbols.
pub open spec fn occurrences(stream: Seq<Symbol>, code: Seq<char>) -> nat
    decreases stream.len(),
{
    if stream.len() == 0 {
        0
    } else if stream.last().code == code {
        occurrences(stream.drop_last(), code) + 1
    } else {
        occurrences(stream.drop_last(), code)
    }
}

/// Whether the first occurrence of `code` in a stream of symbols is as a
/// modifier.
pub open spec fn first_as_mod(stream: Seq<Symbol>, code: Seq<char>) -> bool
    decreases stream.len(),
{
    if stream.len() == 0 {
        false
    } else if occurrences(stream.drop_last(), code) > 0 {
        first_as_mod(stream.drop_last(), code)
    } else {
        stream.last().is_mod
    }
}

/// What the counts of a stream of symbols are: the codes that occur, each
/// once and in order, and beside each the number of its occurrences and
/// whether the first of them was as a modifier.
pub proof fn lemma_counts(stream: Seq<Symbol>)
    ensures
        crate::text::sorted(count_all(stream).keys),
        count_all(stream).keys.len() == count_all(stream).vals.len(),
        forall|code: Seq<char>|
            #![trigger count_all(stream).keys.contains(code)]
            count_all(stream).keys.contains(code) <==> occurrences(stream, code) > 0,
        forall|i: int|
            0 <= i < count_all(stream).keys.len() ==> #[trigger] count_all(stream).vals[i] == (
                occurrences(stream, count_all(stream).keys[i]),
                first_as_mod(stream, count_all(stream).keys[i]),
            ),
    decreases stream.len(),
{
    if stream.len() > 0 {
        let before = stream.drop_last();
        let s = stream.last();
        let c = count_all(before);
        let d = count_all(stream);
        lemma_counts(before);
        if c.keys.contains(s.code) {
            let p = c.keys.index_of(s.code);
            assert forall|i: int| 0 <= i < d.keys.len() implies #[trigger] d.vals[i] == (
                occurrences(stream, d.keys[i]),
                first_as_mod(stream, d.keys[i]),
            ) by {
                if i != p {
                    if c.keys[i] == s.code {
                        crate::text::lemma_sorted_distinct(c.keys, i, p);
                    }
                }
                assert(c.keys.contains(c.keys[i]));
            }
            assert forall|code: Seq<char>|
                #![trigger d.keys.contains(code)]
                d.keys.contains(code) <==> occurrences(stream, code) > 0 by {
                assert(c.keys.contains(code) <==> occurrences(before, code) > 0);
            }
        } else {
            let p = rank(c.keys, s.code);
            lemma_rank_props(c.keys, s.code);
            assert(d.keys == c.keys.insert(p, s.code));
            assert forall|a: int, b: int| 0 <= a < b < d.keys.len() implies crate::text::text_lt(
                #[trigger] d.keys[a],
                #[trigger] d.keys[b],
            ) by {
                if b == p {
                    assert(d.keys[a] == c.keys[a]);
                } else if a == p {
                    assert(d.keys[b] == c.keys[b - 1]);
                    crate::text::lemma_text_lt_total(c.keys[p], s.code);
                    assert(c.keys.contains(c.keys[p]));
                    if b - 1 > p {
                        crate::text::lemma_text_lt_transitive(s.code, c.keys[p], c.keys[b - 1]);
                    }
                } else {
                    let a0 = if a < p { a } else { a - 1 };
                    let b0 = if b < p { b } else { b - 1 };
                    assert(d.keys[a] == c.keys[a0]);
                    assert(d.keys[b] == c.keys[b0]);
                }
            }
            assert forall|code: Seq<char>|
                #![trigger d.keys.contains(code)]
                d.keys.contains(code) <==> occurrences(stream, code) > 0 by {
                assert(c.keys.contains(code) <==> occurrences(before, code) > 0);
                if c.keys.contains(code) {
                    let i = c.keys.index_of(code);
                    let j = if i < p { i } else { i + 1 };
                    assert(d.keys[j] == code);
                }
                if code == s.code {
                    assert(d.keys[p] == code);
                }
                if d.keys.contains(code) && code != s.code {
                    let j = d.keys.index_of(code);
                    let i = if j < p { j } else { j - 1 };
                    assert(c.keys[i] == code);
                }
            }
            assert forall|i: int| 0 <= i < d.keys.len() implies #[trigger] d.vals[i] == (
                occurrences(stream, d.keys[i]),
                first_as_mod(stream, d.keys[i]),
            ) by {
                if i == p {
                    assert(!c.keys.contains(s.code));
                    assert(occurrences(before, s.code) == 0);
                } else {
                    let i0 = if i < p { i } else { i - 1 };
                    assert(d.keys[i] == c.keys[i0]);
                    assert(d.vals[i] == c.vals[i0]);
                    assert(c.keys.contains(c.keys[i0]));
                }
            }
        }
    }
}

/// A key that is not in a sorted list belongs after the keys that come
/// before it and before the others.
proof fn lemma_rank_props(keys: Seq<Seq<char>>, key: Seq<char>)
    ensures
        0 <= rank(keys, key) <= keys.len(),
        forall|j: int| 0 <= j < rank(keys, key) ==> crate::text::text_lt(#[trigger] keys[j], key),
        rank(keys, key) < keys.len() ==> !crate::text::text_lt(keys[rank(keys, key)], key),
    decreases keys.len(),
{
    if keys.len() > 0 && crate::text::text_lt(keys[0], key) {
        let rest = keys.drop_first();
        lemma_rank_props(rest, key);
        assert forall|j: int| 0 <= j < rank(keys, key) implies crate::text::text_lt(
            #[trigger] keys[j],
            key,
        ) by {
            if j > 0 {
                assert(keys[j] == rest[j - 1]);
            }
        }
        if rank(keys, key) < keys.len() {
            assert(keys[rank(keys, key)] == rest[rank(rest, key)]);
        }
    }
}

} // verus!
