//! Switches and chords, and the permutation that takes the order in which a
//! layout file lists the switches to the order in which the firmware scans
//! them.

use vstd::prelude::*;
use crate::types::errors::{Error, ErrorView};
use crate::types::words::AnagramNum;

verus! {

/// A pin of the microcontroller.
#[derive(Debug, Clone, Copy, PartialEq, Eq, Structural)]
pub struct Pin(pub u8);

/// A switch of the matrix, known by the pins of its row and its column.
#[derive(Debug, Clone, Copy, PartialEq, Eq, Structural)]
pub struct SwitchPos {
    pub row: Pin,
    pub col: Pin,
}

impl SwitchPos {
    /// The switch at the crossing of the row `row` and the column `col`.
    pub fn new(row: Pin, col: Pin) -> (pos: SwitchPos)
        ensures
            pos == (SwitchPos { row, col }),
    {
        SwitchPos { row, col }
    }
}

/// The switches that are pressed together, one `bool` for each switch in the
/// order of the firmware's scan, and the number that tells this chord from
/// the others with the same switches.
#[derive(Debug, PartialEq, Eq)]
pub struct Chord {
    pub switches: Vec<bool>,
    pub anagram_num: AnagramNum,
}

/// A `Chord` as a mathematical value.
pub struct ChordView {
    pub switches: Seq<bool>,
    pub anagram_num: u8,
}

impl View for Chord {
    type V = ChordView;

    open spec fn view(&self) -> ChordView {
        ChordView { switches: self.switches@, anagram_num: self.anagram_num.0 }
    }
}

impl Clone for Chord {
    fn clone(&self) -> (copy: Self)
        ensures
            copy@ == self@,
    {
        let mut switches: Vec<bool> = Vec::new();
        let mut i: usize = 0;
        while i < self.switches.len()
            invariant
                i <= self.switches.len(),
                switches@ == self.switches@.take(i as int),
            decreases self.switches.len() - i,
        {
            switches.push(self.switches[i]);
            assert(switches@ == self.switches@.take(i + 1));
            i += 1;
        }
        assert(self.switches@.take(i as int) == self.switches@);
        Chord { switches, anagram_num: self.anagram_num }
    }
}

impl ChordView {
    /// No switch is pressed.
    pub open spec fn is_empty(self) -> bool {
        forall|i: int| 0 <= i < self.switches.len() ==> !self.switches[i]
    }

    /// Both chords pressed together: a switch is pressed where either chord
    /// presses it. The anagram number is that of `self`.
    pub open spec fn pressed_with(self, other: ChordView) -> ChordView {
        ChordView {
            switches: Seq::new(self.switches.len(), |i: int| self.switches[i] || other.switches[i]),
            anagram_num: self.anagram_num,
        }
    }

    /// The chord of `num_bits` switches with none pressed, anagram number 0.
    pub open spec fn blank(num_bits: nat) -> ChordView {
        ChordView { switches: Seq::new(num_bits, |i: int| false), anagram_num: 0 }
    }
}

impl Chord {
    /// The chord of `num_bits` switches with none pressed, anagram number 0.
    pub fn new(num_bits: usize) -> (chord: Chord)
        ensures
            chord@ == ChordView::blank(num_bits as nat),
    {
        let mut switches: Vec<bool> = Vec::new();
        let mut i: usize = 0;
        while i < num_bits
            invariant
                i <= num_bits,
                switches@ == Seq::new(i as nat, |j: int| false),
            decreases num_bits - i,
        {
            switches.push(false);
            assert(switches@ =~= Seq::new((i + 1) as nat, |j: int| false));
            i += 1;
        }
        Chord { switches, anagram_num: AnagramNum(0) }
    }

    /// The chord with the given switches, anagram number 0.
    pub fn from_vec(switches: Vec<bool>) -> (chord: Chord)
        ensures
            chord@ == (ChordView { switches: switches@, anagram_num: 0 }),
    {
        Chord { switches, anagram_num: AnagramNum(0) }
    }

    /// The number of switches.
    pub fn len(&self) -> (n: usize)
        ensures
            n == self@.switches.len(),
    {
        self.switches.len()
    }

    /// Whether no switch is pressed.
    pub fn is_empty(&self) -> (empty: bool)
        ensures
            empty == self@.is_empty(),
    {
        let mut i: usize = 0;
        while i < self.switches.len()
            invariant
                i <= self.switches.len(),
                forall|j: int| 0 <= j < i ==> !self.switches[j],
            decreases self.switches.len() - i,
        {
            if self.switches[i] {
                assert(self@.switches[i as int]);
                return false;
            }
            i += 1;
        }
        true
    }

    /// Presses the switches of `other` too.
    pub fn intersect(&mut self, other: &Chord)
        requires
            old(self)@.switches.len() == other@.switches.len(),
        ensures
            final(self)@ == old(self)@.pressed_with(other@),
    {
        let mut both: Vec<bool> = Vec::new();
        let mut i: usize = 0;
        while i < self.switches.len()
            invariant
                i <= self.switches.len(),
                self.switches.len() == other.switches.len(),
                *self == *old(self),
                both.len() == i,
                forall|j: int| 0 <= j < i ==> both[j] == (self.switches[j] || other.switches[j]),
            decreases self.switches.len() - i,
        {
            both.push(self.switches[i] || other.switches[i]);
            i += 1;
        }
        self.switches = both;
        assert(self@.switches =~= old(self)@.pressed_with(other@).switches);
    }

    /// Whether both chords press the same switches, whatever their anagram
    /// numbers.
    pub fn base_eq(&self, other: &Chord) -> (same: bool)
        ensures
            same == (self@.switches == other@.switches),
    {
        if self.switches.len() != other.switches.len() {
            return false;
        }
        let mut i: usize = 0;
        while i < self.switches.len()
            invariant
                i <= self.switches.len(),
                self.switches.len() == other.switches.len(),
                forall|j: int| 0 <= j < i ==> self.switches[j] == other.switches[j],
            decreases self.switches.len() - i,
        {
            if self.switches[i] != other.switches[i] {
                return false;
            }
            i += 1;
        }
        assert(self@.switches =~= other@.switches);
        true
    }
}

/// A one-to-one map of the positions `0..len` onto themselves: position `i`
/// of a layout file's order is position `forward[i]` of the firmware's order.
#[derive(Debug, PartialEq, Eq)]
pub struct Permutation {
    forward: Vec<usize>,
    backward: Vec<usize>,
}

/// Whether `i` is the first position of `x` in `s`.
pub open spec fn is_first_index(s: Seq<SwitchPos>, x: SwitchPos, i: int) -> bool {
    &&& 0 <= i < s.len()
    &&& s[i] == x
    &&& forall|j: int| 0 <= j < i ==> s[j] != x
}

/// Whether `order` lists each of `0..order.len()` exactly once.
pub open spec fn is_permutation(order: Seq<int>) -> bool {
    &&& forall|i: int| 0 <= i < order.len() ==> 0 <= #[trigger] order[i] < order.len()
    &&& forall|i: int, j: int|
        0 <= i < j < order.len() ==> #[trigger] order[i] != #[trigger] order[j]
    &&& forall|k: int| 0 <= k < order.len() ==> order.contains(k)
}

/// Whether `order[i]` is, for each `i`, the first position of `from[i]` in
/// `to`.
pub open spec fn takes(order: Seq<int>, from: Seq<SwitchPos>, to: Seq<SwitchPos>) -> bool {
    &&& order.len() == from.len()
    &&& forall|i: int| 0 <= i < from.len() ==> is_first_index(to, from[i], #[trigger] order[i])
}

/// Whether `i` is the first position of `from` whose switch `to` lacks.
pub open spec fn first_unknown(from: Seq<SwitchPos>, to: Seq<SwitchPos>, i: int) -> bool {
    &&& 0 <= i < from.len()
    &&& !to.contains(from[i])
    &&& forall|j: int| 0 <= j < i ==> to.contains(#[trigger] from[j])
}

/// Whether the switches of `from` are those of `to`, each exactly once.
pub open spec fn one_to_one(from: Seq<SwitchPos>, to: Seq<SwitchPos>) -> bool {
    exists|order: Seq<int>|
        #[trigger] takes(order, from, to) && is_permutation(order) && order.len() == to.len()
}

/// Why there is no permutation from `from` to `to`, if there is none.
pub open spec fn permutation_error(from: Seq<SwitchPos>, to: Seq<SwitchPos>) -> Option<ErrorView> {
    if exists|i: int| first_unknown(from, to, i) {
        let i = choose|i: int| first_unknown(from, to, i);
        Some(ErrorView::UnknownSwitch { row: from[i].row.0, column: from[i].col.0 })
    } else if !one_to_one(from, to) {
        Some(ErrorView::NotPermutation)
    } else {
        None
    }
}

/// The bits `bits` of the switches `from`, in the order `to`: at each
/// position stands the bit of the first of `from` that is the switch of
/// `to` there.
pub open spec fn reordered(from: Seq<SwitchPos>, to: Seq<SwitchPos>, bits: Seq<bool>) -> Seq<bool> {
    Seq::new(to.len(), |k: int| bits[choose|i: int| is_first_index(from, to[k], i)])
}

/// The chord of the switches `pressed`, given in the order `from`, for a
/// firmware that keeps them in the order `to` and in `num_bytes` bytes:
/// reordered, then filled up with unpressed switches to whole bytes.
pub open spec fn firmware_chord(
    from: Seq<SwitchPos>,
    to: Seq<SwitchPos>,
    num_bytes: nat,
    pressed: Seq<bool>,
) -> ChordView {
    ChordView {
        switches: reordered(from, to, pressed) + Seq::new((8 * num_bytes - to.len()) as nat, |i: int| false),
        anagram_num: 0,
    }
}

/// The number of bytes that hold `num_bits` bits.
pub open spec fn bytes_for(num_bits: nat) -> nat {
    (num_bits + 7) / 8
}

impl Permutation {
    /// Where each position goes.
    pub closed spec fn forward_seq(&self) -> Seq<int> {
        self.forward@.map_values(|p: usize| p as int)
    }

    /// Where each position comes from.
    pub closed spec fn backward_seq(&self) -> Seq<int> {
        self.backward@.map_values(|p: usize| p as int)
    }

    /// The number of positions.
    pub open spec fn spec_len(&self) -> nat {
        self.forward_seq().len()
    }

    /// Both directions have the same length, stay inside it, and undo each
    /// other.
    pub open spec fn wf(&self) -> bool {
        let f = self.forward_seq();
        let b = self.backward_seq();
        &&& f.len() == b.len()
        &&& forall|i: int| 0 <= i < f.len() ==> 0 <= #[trigger] f[i] < f.len() && b[f[i]] == i
        &&& forall|k: int| 0 <= k < b.len() ==> 0 <= #[trigger] b[k] < b.len() && f[b[k]] == k
    }

    /// `bits` moved through the permutation: what stood at `i` stands at
    /// `forward[i]`.
    pub open spec fn apply(&self, bits: Seq<bool>) -> Seq<bool> {
        Seq::new(self.spec_len(), |k: int| bits[self.backward_seq()[k]])
    }

    /// The number of positions.
    pub fn len(&self) -> (n: usize)
        ensures
            n == self.spec_len(),
    {
        self.forward.len()
    }

    /// Where position `i` goes.
    pub fn target(&self, i: usize) -> (k: usize)
        requires
            self.wf(),
            i < self.spec_len(),
        ensures
            k == self.forward_seq()[i as int],
            k < self.spec_len(),
    {
        assert(self.forward_seq()[i as int] == self.forward[i as int]);
        self.forward[i]
    }

    /// Where position `k` comes from.
    pub fn source(&self, k: usize) -> (i: usize)
        requires
            self.wf(),
            k < self.spec_len(),
        ensures
            i == self.backward_seq()[k as int],
            i < self.spec_len(),
    {
        assert(self.backward_seq()[k as int] == self.backward[k as int]);
        self.backward[k]
    }

    /// The permutation that takes the order `from` to the order `to`: each
    /// switch of `from` goes to the first position at which `to` has it.
    ///
    /// Fails with `UnknownSwitch` for the first switch of `from` that `to`
    /// lacks; if there is none, with `NotPermutation` unless the positions
    /// found are each position of `to` exactly once.
    pub fn from_to(from: &Vec<SwitchPos>, to: &Vec<SwitchPos>) -> (r: Result<Permutation, Error>)
        ensures
            match permutation_error(from@, to@) {
                Some(e) => r is Err && r->Err_0@ == e,
                None => r is Ok && r->Ok_0.wf() && takes(r->Ok_0.forward_seq(), from@, to@)
                    && r->Ok_0.spec_len() == to.len(),
            },
    {
        let n = to.len();
        let mut forward: Vec<usize> = Vec::new();
        let mut i: usize = 0;
        while i < from.len()
            invariant
                i <= from.len(),
                n == to.len(),
                forward.len() == i,
                forall|j: int| 0 <= j < i ==> is_first_index(to@, from[j], #[trigger] forward[j] as int),
            decreases from.len() - i,
        {
            let mut k: usize = 0;
            while k < n && !(to[k] == from[i])
                invariant
                    k <= n,
                    n == to.len(),
                    i < from.len(),
                    forall|j: int| 0 <= j < k ==> to[j] != from[i as int],
                decreases n - k,
            {
                k += 1;
            }
            if k == n {
                proof {
                    assert(!to@.contains(from[i as int]));
                    assert forall|j: int| 0 <= j < i implies to@.contains(#[trigger] from[j]) by {
                        assert(is_first_index(to@, from[j], forward[j] as int));
                    }
                    assert(first_unknown(from@, to@, i as int));
                    let w = choose|w: int| first_unknown(from@, to@, w);
                    assert(first_unknown(from@, to@, w));
                    if w < i {
                        assert(to@.contains(from[w]));
                    }
                    if w > i {
                        assert(to@.contains(from[i as int]));
                    }
                }
                return Err(Error::UnknownSwitch { row: from[i].row.0, column: from[i].col.0 });
            }
            forward.push(k);
            i += 1;
        }
        let ghost order = forward@.map_values(|p: usize| p as int);
        proof {
            assert(takes(order, from@, to@));
            assert forall|j: int| 0 <= j < from.len() implies to@.contains(#[trigger] from[j]) by {
                assert(is_first_index(to@, from[j], forward[j] as int));
            }
            assert(!exists|w: int| first_unknown(from@, to@, w));
            // Any other list of first positions is this one.
            assert forall|other: Seq<int>| #[trigger] takes(other, from@, to@) implies other
                == order by {
                assert forall|j: int| 0 <= j < from.len() implies other[j] == order[j] by {
                    assert(is_first_index(to@, from[j], other[j]));
                    assert(is_first_index(to@, from[j], order[j]));
                }
                assert(other =~= order);
            }
        }
        if from.len() != n {
            return Err(Error::NotPermutation);
        }
        // `n` stands for a position that nothing has been sent to yet.
        let mut backward: Vec<usize> = Vec::new();
        let mut k: usize = 0;
        while k < n
            invariant
                k <= n,
                backward.len() == k,
                forall|j: int| 0 <= j < k ==> backward[j] == n,
            decreases n - k,
        {
            backward.push(n);
            k += 1;
        }
        let mut i: usize = 0;
        while i < n
            invariant
                i <= n,
                n == to.len(),
                n == from.len(),
                forward.len() == n,
                backward.len() == n,
                !exists|w: int| first_unknown(from@, to@, w),
                takes(order, from@, to@),
                forall|other: Seq<int>| #[trigger] takes(other, from@, to@) ==> other == order,
                order == forward@.map_values(|p: usize| p as int),
                forall|j: int| 0 <= j < n ==> 0 <= #[trigger] order[j] < n,
                forall|k: int|
                    0 <= k < n ==> (#[trigger] backward[k] == n || (backward[k] < i
                        && order[backward[k] as int] == k)),
                forall|j: int| 0 <= j < i ==> backward[#[trigger] order[j]] == j,
            decreases n - i,
        {
            let k = forward[i];
            assert(order[i as int] == k);
            if backward[k] != n {
                proof {
                    let j = backward[k as int] as int;
                    assert(order[j] == order[i as int] && j < i);
                    assert(!is_permutation(order));
                }
                return Err(Error::NotPermutation);
            }
            backward.set(k, i);
            i += 1;
        }
        let mut k: usize = 0;
        while k < n
            invariant
                k <= n,
                backward.len() == n,
                forward.len() == n,
                n == to.len(),
                n == from.len(),
                !exists|w: int| first_unknown(from@, to@, w),
                takes(order, from@, to@),
                forall|other: Seq<int>| #[trigger] takes(other, from@, to@) ==> other == order,
                order == forward@.map_values(|p: usize| p as int),
                forall|j: int| 0 <= j < n ==> backward[#[trigger] order[j]] == j,
                forall|j: int| 0 <= j < n ==> 0 <= #[trigger] order[j] < n,
                forall|k: int|
                    0 <= k < n ==> (#[trigger] backward[k] == n || (backward[k] < n
                        && order[backward[k] as int] == k)),
                forall|j: int| 0 <= j < k ==> backward[j] != n,
            decreases n - k,
        {
            if backward[k] == n {
                proof {
                    if order.contains(k as int) {
                        let j = order.index_of(k as int);
                        assert(backward[order[j]] == j);
                    }
                    assert(!is_permutation(order));
                }
                return Err(Error::NotPermutation);
            }
            k += 1;
        }
        let p = Permutation { forward, backward };
        proof {
            assert(p.forward_seq() == order);
            assert(is_permutation(order)) by {
                assert forall|k: int| 0 <= k < order.len() implies order.contains(k) by {
                    assert(backward[k] != n);
                    assert(order[backward[k] as int] == k);
                }
                assert forall|a: int, b: int| 0 <= a < b < order.len() implies #[trigger] order[a]
                    != #[trigger] order[b] by {
                    assert(backward[order[a]] == a);
                    assert(backward[order[b]] == b);
                }
            }
            assert(one_to_one(from@, to@));
            let b = p.backward_seq();
            assert forall|i: int| 0 <= i < order.len() implies 0 <= #[trigger] order[i] < order.len()
                && b[order[i]] == i by {
                assert(backward[order[i]] == i);
            }
            assert forall|k: int| 0 <= k < b.len() implies 0 <= #[trigger] b[k] < b.len()
                && order[b[k]] == k by {
                assert(backward[k] != n);
            }
        }
        Ok(p)
    }

    /// Moves `bits` through the permutation.
    pub fn permute(&self, bits: &Vec<bool>) -> (moved: Vec<bool>)
        requires
            self.wf(),
            bits.len() == self.spec_len(),
        ensures
            moved@ == self.apply(bits@),
    {
        let mut moved: Vec<bool> = Vec::new();
        let mut k: usize = 0;
        while k < bits.len()
            invariant
                k <= bits.len(),
                self.wf(),
                bits.len() == self.spec_len(),
                moved.len() == k,
                forall|j: int| 0 <= j < k ==> moved[j] == bits[self.backward_seq()[j]],
            decreases bits.len() - k,
        {
            assert(0 <= self.backward_seq()[k as int] < self.spec_len());
            moved.push(bits[self.backward[k]]);
            k += 1;
        }
        assert(moved@ =~= self.apply(bits@));
        moved
    }

    /// The permutation that undoes this one.
    pub fn inverse(&self) -> (inv: Permutation)
        requires
            self.wf(),
        ensures
            inv.wf(),
            inv.forward_seq() == self.backward_seq(),
            inv.backward_seq() == self.forward_seq(),
    {
        let mut forward: Vec<usize> = Vec::new();
        let mut backward: Vec<usize> = Vec::new();
        let mut k: usize = 0;
        let n = self.forward.len();
        while k < n
            invariant
                k <= n,
                self.wf(),
                n == self.spec_len(),
                forward@ == self.backward@.take(k as int),
                backward@ == self.forward@.take(k as int),
            decreases n - k,
        {
            forward.push(self.backward[k]);
            backward.push(self.forward[k]);
            assert(forward@ == self.backward@.take(k + 1));
            assert(backward@ == self.forward@.take(k + 1));
            k += 1;
        }
        assert(self.backward@.take(n as int) == self.backward@);
        assert(self.forward@.take(n as int) == self.forward@);
        Permutation { forward, backward }
    }
}

/// A permutation is a bijection: going forward and then back, or back and
/// then forward, returns to the position one started from, and no two
/// positions go to the same place.
pub proof fn lemma_permutation_bijective(p: Permutation, i: int, j: int)
    requires
        p.wf(),
        0 <= i < p.spec_len(),
        0 <= j < p.spec_len(),
    ensures
        0 <= p.forward_seq()[i] < p.spec_len(),
        0 <= p.backward_seq()[i] < p.spec_len(),
        p.backward_seq()[p.forward_seq()[i]] == i,
        p.forward_seq()[p.backward_seq()[i]] == i,
        p.forward_seq()[i] == p.forward_seq()[j] ==> i == j,
        p.backward_seq()[i] == p.backward_seq()[j] ==> i == j,
        is_permutation(p.forward_seq()),
{
    let f = p.forward_seq();
    let b = p.backward_seq();
    assert forall|a: int, c: int| 0 <= a < c < f.len() implies #[trigger] f[a] != #[trigger] f[c] by {
        assert(b[f[a]] == a);
        assert(b[f[c]] == c);
    }
    assert forall|k: int| 0 <= k < f.len() implies f.contains(k) by {
        assert(f[b[k]] == k);
    }
    assert(b[f[i]] == i);
    assert(b[f[j]] == j);
    assert(f[b[i]] == i);
    assert(f[b[j]] == j);
}

/// The permutation from one order of the switches to another moves bits as
/// the two orders say.
pub proof fn lemma_apply(p: Permutation, from: Seq<SwitchPos>, to: Seq<SwitchPos>, bits: Seq<bool>)
    requires
        p.wf(),
        takes(p.forward_seq(), from, to),
        p.spec_len() == to.len(),
    ensures
        p.apply(bits) == reordered(from, to, bits),
{
    let f = p.forward_seq();
    let b = p.backward_seq();
    assert forall|k: int| 0 <= k < to.len() implies p.apply(bits)[k] == reordered(from, to, bits)[k] by {
        let i = b[k];
        assert(f[i] == k);
        assert(is_first_index(to, from[i], f[i]));
        assert forall|j: int| 0 <= j < i implies from[j] != to[k] by {
            if from[j] == to[k] {
                assert(is_first_index(to, from[j], f[j]));
                if f[j] < k {
                    assert(to[f[j]] != from[i]);
                }
                if k < f[j] {
                    assert(to[k] != from[j]);
                }
                assert(b[f[j]] == j);
            }
        }
        assert(is_first_index(from, to[k], i));
        let c = choose|c: int| is_first_index(from, to[k], c);
        if c < i {
            assert(from[c] != to[k]);
        }
        if i < c {
            assert(from[i] != to[k]);
        }
    }
    assert(p.apply(bits) =~= reordered(from, to, bits));
}

/// Moving bits through a permutation and then through its inverse gives the
/// bits back.
pub proof fn lemma_permute_round_trip(p: Permutation, inv: Permutation, bits: Seq<bool>)
    requires
        p.wf(),
        inv.wf(),
        inv.forward_seq() == p.backward_seq(),
        inv.backward_seq() == p.forward_seq(),
        bits.len() == p.spec_len(),
    ensures
        inv.apply(p.apply(bits)) == bits,
{
    assert forall|k: int| 0 <= k < bits.len() implies inv.apply(p.apply(bits))[k] == bits[k] by {
        lemma_permutation_bijective(p, k, k);
    }
    assert(inv.apply(p.apply(bits)) =~= bits);
}


/// What every chord of a configuration shares: the number of bytes of a
/// chord, of switches in a layout and of positions in the matrix, and the
/// way from the order of a layout file to the order of the firmware.
#[derive(Debug, PartialEq, Eq)]
pub struct ChordSpec {
    pub num_bytes: usize,
    pub num_switches: usize,
    pub num_matrix_positions: usize,
    pub to_firmware_order: Permutation,
}

impl ChordSpec {
    /// The permutation is one of the switches, there is a switch for each
    /// position of the matrix, and the bytes are just enough to hold them.
    pub open spec fn wf(&self) -> bool {
        &&& self.to_firmware_order.wf()
        &&& self.to_firmware_order.spec_len() == self.num_switches
        &&& self.num_switches == self.num_matrix_positions
        &&& self.num_bytes == bytes_for(self.num_matrix_positions as nat)
        &&& 8 * self.num_bytes <= usize::MAX
    }

    /// The number of switches of a chord: eight for each byte.
    pub open spec fn chord_len(&self) -> nat {
        (8 * self.num_bytes) as nat
    }

    /// The chord of a layout's switches `pressed`: moved into the order of
    /// the firmware, then filled up with unpressed switches to whole bytes.
    pub open spec fn chord_of(&self, pressed: Seq<bool>) -> ChordView {
        ChordView {
            switches: self.to_firmware_order.apply(pressed) + Seq::new(
                (self.chord_len() - self.num_switches) as nat,
                |i: int| false,
            ),
            anagram_num: 0,
        }
    }

    /// The chord of pressed switches depends only on the two orders of the
    /// switches and on the number of bytes.
    pub proof fn lemma_chord_of(&self, from: Seq<SwitchPos>, to: Seq<SwitchPos>, pressed: Seq<bool>)
        requires
            self.wf(),
            takes(self.to_firmware_order.forward_seq(), from, to),
            self.num_switches == to.len(),
        ensures
            self.chord_of(pressed) == firmware_chord(from, to, self.num_bytes as nat, pressed),
    {
        lemma_apply(self.to_firmware_order, from, to, pressed);
    }

    /// The chord without a pressed switch.
    pub fn blank_chord(&self) -> (chord: Chord)
        requires
            self.wf(),
        ensures
            chord@ == ChordView::blank(self.chord_len()),
    {
        Chord::new(8 * self.num_bytes)
    }

    /// The chord of the switches `pressed`, given in the order of a layout
    /// file.
    pub fn to_firmware_order(&self, pressed: &Vec<bool>) -> (chord: Chord)
        requires
            self.wf(),
            pressed.len() == self.num_switches,
        ensures
            chord@ == self.chord_of(pressed@),
            chord@.switches.len() == self.chord_len(),
    {
        let mut switches = self.to_firmware_order.permute(pressed);
        let ghost moved = switches@;
        let width = 8 * self.num_bytes;
        while switches.len() < width
            invariant
                moved.len() <= switches.len() <= width,
                moved.len() == pressed.len(),
                width == self.chord_len(),
                switches@ == moved + Seq::new((switches.len() - moved.len()) as nat, |i: int| false),
            decreases width - switches.len(),
        {
            let ghost before = switches@;
            switches.push(false);
            assert(switches@ =~= moved + Seq::new((switches.len() - moved.len()) as nat, |i: int| false));
        }
        Chord::from_vec(switches)
    }
}

} // verus!
