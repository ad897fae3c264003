//! A map from strings to values that keeps its entries in the order of their
//! keys, so that walking it gives the same sequence whatever the order of
//! insertion was.

use vstd::prelude::*;
use crate::text::{lemma_sorted_distinct, lemma_text_lt_irreflexive, lemma_text_lt_total, lemma_text_lt_transitive, sorted, str_eq, str_lt, text_lt, views};

verus! {

/// The number of keys at the start of `keys` that come before `key`: where
/// `key` belongs in the sorted list `keys`.
pub open spec fn rank(keys: Seq<Seq<char>>, key: Seq<char>) -> int
    decreases keys.len(),
{
    if keys.len() > 0 && text_lt(keys[0], key) {
        1 + rank(keys.drop_first(), key)
    } else {
        0
    }
}

/// The rank of a key is the position of the first key that does not come
/// before it.
proof fn lemma_rank(keys: Seq<Seq<char>>, key: Seq<char>, i: int)
    requires
        0 <= i <= keys.len(),
        forall|j: int| 0 <= j < i ==> text_lt(keys[j], key),
        i < keys.len() ==> !text_lt(keys[i], key),
    ensures
        rank(keys, key) == i,
    decreases i,
{
    if i > 0 {
        let rest = keys.drop_first();
        assert forall|j: int| 0 <= j < i - 1 implies text_lt(rest[j], key) by {
            assert(rest[j] == keys[j + 1]);
        }
        if i - 1 < rest.len() {
            assert(rest[i - 1] == keys[i]);
        }
        lemma_rank(rest, key, i - 1);
    }
}

/// A map keyed by strings. Its model is a pair of sequences of the same
/// length, `key_seq()` and `val_seq()`: entry `i` maps `key_seq()[i]` to
/// `val_seq()[i]`, and the keys are strictly increasing.
#[derive(Debug, PartialEq, Eq)]
pub struct StrMap<V> {
    keys: Vec<String>,
    vals: Vec<V>,
}

impl<V> StrMap<V> {
    /// The keys, in increasing order.
    pub closed spec fn key_seq(&self) -> Seq<Seq<char>> {
        views(self.keys@)
    }

    /// The values, each at the position of its key.
    pub closed spec fn val_seq(&self) -> Seq<V> {
        self.vals@
    }

    /// Every key has one value and the keys are strictly increasing.
    pub open spec fn wf(&self) -> bool {
        &&& self.key_seq().len() == self.val_seq().len()
        &&& sorted(self.key_seq())
    }

    /// Whether `key` is present.
    pub open spec fn has(&self, key: Seq<char>) -> bool {
        self.key_seq().contains(key)
    }

    /// The position of `key`, where it is present.
    pub open spec fn pos(&self, key: Seq<char>) -> int {
        self.key_seq().index_of(key)
    }

    /// The value of `key`, where it is present.
    pub open spec fn val(&self, key: Seq<char>) -> V {
        self.val_seq()[self.pos(key)]
    }

    /// The map as a mathematical map.
    pub open spec fn view(&self) -> Map<Seq<char>, V> {
        Map::new(|k: Seq<char>| self.has(k), |k: Seq<char>| self.val(k))
    }

    /// The key at position `i` is present, at that position and no other.
    pub proof fn lemma_pos(&self, i: int)
        requires
            self.wf(),
            0 <= i < self.key_seq().len(),
        ensures
            self.has(self.key_seq()[i]),
            self.pos(self.key_seq()[i]) == i,
            self.val(self.key_seq()[i]) == self.val_seq()[i],
    {
        let k = self.key_seq()[i];
        assert(self.key_seq().contains(k));
        let j = self.key_seq().index_of(k);
        lemma_sorted_distinct(self.key_seq(), i, j);
    }

    /// An empty map.
    pub fn new() -> (m: Self)
        ensures
            m.wf(),
            m.key_seq() == Seq::<Seq<char>>::empty(),
            m.val_seq() == Seq::<V>::empty(),
    {
        let m = StrMap { keys: Vec::new(), vals: Vec::new() };
        assert(m.key_seq() =~= Seq::<Seq<char>>::empty());
        m
    }

    /// The number of entries.
    pub fn len(&self) -> (n: usize)
        requires
            self.wf(),
        ensures
            n == self.key_seq().len(),
    {
        self.keys.len()
    }

    /// The key at position `i`.
    pub fn key_at(&self, i: usize) -> (k: &String)
        requires
            self.wf(),
            i < self.key_seq().len(),
        ensures
            k@ == self.key_seq()[i as int],
    {
        &self.keys[i]
    }

    /// The value at position `i`.
    pub fn val_at(&self, i: usize) -> (v: &V)
        requires
            self.wf(),
            i < self.key_seq().len(),
        ensures
            *v == self.val_seq()[i as int],
    {
        &self.vals[i]
    }

    /// The position of `key`, if it is present.
    pub fn find(&self, key: &str) -> (found: Option<usize>)
        requires
            self.wf(),
        ensures
            found is Some == self.has(key@),
            found is Some ==> found->0 == self.pos(key@) && found->0 < self.key_seq().len(),
    {
        let mut i: usize = 0;
        while i < self.keys.len()
            invariant
                i <= self.keys.len(),
                self.wf(),
                forall|j: int| 0 <= j < i ==> self.key_seq()[j] != key@,
            decreases self.keys.len() - i,
        {
            if str_eq(self.keys[i].as_str(), key) {
                proof {
                    self.lemma_pos(i as int);
                }
                return Some(i);
            }
            i += 1;
        }
        None
    }

    /// Whether `key` is present.
    pub fn contains_key(&self, key: &str) -> (present: bool)
        requires
            self.wf(),
        ensures
            present == self.has(key@),
    {
        self.find(key).is_some()
    }

    /// The value of `key`, if it is present.
    pub fn get(&self, key: &str) -> (found: Option<&V>)
        requires
            self.wf(),
        ensures
            found is Some == self.has(key@),
            found is Some ==> *found->0 == self.val(key@),
    {
        match self.find(key) {
            Some(i) => Some(&self.vals[i]),
            None => None,
        }
    }

    /// Sets the value of `key`, adding the key if it is new. Returns the value
    /// that the key had before.
    pub fn insert(&mut self, key: String, value: V) -> (before: Option<V>)
        requires
            old(self).wf(),
        ensures
            final(self).wf(),
            before is Some == old(self).has(key@),
            before is Some ==> before->0 == old(self).val(key@),
            old(self).has(key@) ==> final(self).key_seq() == old(self).key_seq()
                && final(self).val_seq() == old(self).val_seq().update(old(self).pos(key@), value),
            !old(self).has(key@) ==> final(self).key_seq() == old(self).key_seq().insert(
                rank(old(self).key_seq(), key@),
                key@,
            ) && final(self).val_seq() == old(self).val_seq().insert(
                rank(old(self).key_seq(), key@),
                value,
            ),
            0 <= rank(old(self).key_seq(), key@) <= old(self).key_seq().len(),
            forall|k: Seq<char>| final(self).has(k) == (k == key@ || old(self).has(k)),
            final(self).val(key@) == value,
            forall|k: Seq<char>| k != key@ && old(self).has(k) ==> final(self).val(k) == old(self).val(k),
    {
        let mut i: usize = 0;
        while i < self.keys.len() && str_lt(self.keys[i].as_str(), key.as_str())
            invariant
                i <= self.keys.len(),
                self.wf(),
                *self == *old(self),
                forall|j: int| 0 <= j < i ==> text_lt(self.key_seq()[j], key@),
            decreases self.keys.len() - i,
        {
            i += 1;
        }
        let ghost old_keys = self.key_seq();
        let ghost old_vals = self.val_seq();
        proof {
            lemma_rank(old_keys, key@, i as int);
        }
        if i < self.keys.len() && str_eq(self.keys[i].as_str(), key.as_str()) {
            proof {
                self.lemma_pos(i as int);
            }
            let mut value = value;
            let slot = &mut self.vals[i];
            core::mem::swap(slot, &mut value);
            proof {
                assert(self.key_seq() == old_keys);
                assert(self.val_seq() == old_vals.update(i as int, self.val_seq()[i as int]));
                self.lemma_pos(i as int);
                assert forall|k: Seq<char>| k != key@ && old(self).has(k) implies self.val(k)
                    == old(self).val(k) by {
                    let p = old_keys.index_of(k);
                    assert(old_keys[p] == k);
                }
            }
            Some(value)
        } else {
            proof {
                assert forall|j: int| 0 <= j < old_keys.len() implies old_keys[j] != key@ by {
                    if j < i {
                        lemma_text_lt_irreflexive(key@);
                    } else {
                        lemma_text_lt_total(old_keys[i as int], key@);
                        lemma_text_lt_irreflexive(key@);
                        if j > i {
                            if old_keys[j] == key@ {
                                lemma_text_lt_transitive(key@, old_keys[i as int], old_keys[j]);
                            }
                        }
                    }
                }
            }
            self.keys.insert(i, key);
            self.vals.insert(i, value);
            proof {
                let new_keys = self.key_seq();
                assert(new_keys =~= old_keys.insert(i as int, key@));
                assert(self.val_seq() == old_vals.insert(i as int, value));
                assert forall|a: int, b: int| 0 <= a < b < new_keys.len() implies text_lt(
                    #[trigger] new_keys[a],
                    #[trigger] new_keys[b],
                ) by {
                    if b == i {
                        assert(new_keys[a] == old_keys[a]);
                    } else if a == i {
                        assert(new_keys[b] == old_keys[b - 1]);
                        lemma_text_lt_total(old_keys[i as int], key@);
                        if b - 1 > i {
                            lemma_text_lt_transitive(key@, old_keys[i as int], old_keys[b - 1]);
                        }
                    } else {
                        let a0 = if a < i { a } else { a - 1 };
                        let b0 = if b < i { b } else { b - 1 };
                        assert(new_keys[a] == old_keys[a0]);
                        assert(new_keys[b] == old_keys[b0]);
                    }
                }
                assert(new_keys[i as int] == key@);
                self.lemma_pos(i as int);
                assert forall|k: Seq<char>| self.has(k) == (k == key@ || old(self).has(k)) by {
                    if old(self).has(k) {
                        let p = old_keys.index_of(k);
                        assert(old_keys[p] == k);
                        let q = if p < i { p } else { p + 1 };
                        assert(new_keys[q] == k);
                    }
                    if self.has(k) && k != key@ {
                        let q = new_keys.index_of(k);
                        assert(new_keys[q] == k);
                        let p = if q < i { q } else { q - 1 };
                        assert(old_keys[p] == k);
                    }
                }
                assert forall|k: Seq<char>| k != key@ && old(self).has(k) implies self.val(k)
                    == old(self).val(k) by {
                    let p = old_keys.index_of(k);
                    assert(old_keys[p] == k);
                    let q = if p < i { p } else { p + 1 };
                    assert(new_keys[q] == k);
                    self.lemma_pos(q);
                }
            }
            None
        }
    }

    /// Puts `value` at position `i`, in place of the value that is there,
    /// and returns that value.
    pub fn replace_at(&mut self, i: usize, value: V) -> (before: V)
        requires
            old(self).wf(),
            i < old(self).key_seq().len(),
        ensures
            final(self).wf(),
            before == old(self).val_seq()[i as int],
            final(self).key_seq() == old(self).key_seq(),
            final(self).val_seq() == old(self).val_seq().update(i as int, value),
    {
        let mut value = value;
        let slot = &mut self.vals[i];
        core::mem::swap(slot, &mut value);
        value
    }
}

} // verus!
