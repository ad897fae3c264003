//! Checks of a finished registry. They find what is likely a mistake of
//! the configuration and does not keep the firmware from working: names
//! that have a chord and no sequence, or a sequence and no chord; chords
//! that several names share; anagram numbers that are skipped. They report
//! and change nothing.

use vstd::prelude::*;
use vstd::string::*;
use crate::sorted_map::{rank, StrMap};
use crate::text::{concat2, concat3, join, join_strings, views};
use crate::types::chord::{Chord, ChordView};
use crate::types::huffman::copy_bits;
use crate::types::maps::AllData;
use crate::types::names::{name_views, Name};
use crate::types::words::AnagramNum;

verus! {

/// The names that share one pattern of switches, by anagram number: the
/// names of number `i` at position `i`, in the order in which they were
/// put in. The last position is never empty.
#[derive(Debug, PartialEq, Eq)]
pub struct AnagramSet(pub Vec<Vec<Name>>);

/// The names that share one pattern of switches on a layout.
#[derive(Debug, PartialEq, Eq)]
pub struct ChordGroup {
    pub base: Vec<bool>,
    pub set: AnagramSet,
}

/// The groups of one layout.
#[derive(Debug, PartialEq, Eq)]
pub struct KmapGroups {
    pub path: String,
    pub groups: Vec<ChordGroup>,
}

/// What the checks look at: for each layout its chords by pattern, and the
/// names of the sequences, of the chords, and of the modifiers of words
/// and anagrams.
#[derive(Debug, PartialEq, Eq)]
pub struct Checker {
    pub reverse_kmaps: Vec<KmapGroups>,
    pub seq_names: StrMap<bool>,
    pub chord_names: StrMap<bool>,
    pub word_mod_names: StrMap<bool>,
}

/// The names at each anagram number, as texts.
pub open spec fn slot_views(slots: Seq<Vec<Name>>) -> Seq<Seq<Seq<char>>> {
    slots.map_values(|names: Vec<Name>| name_views(names@))
}

/// Whether two names may share a chord: one of them is a modifier of words
/// or anagrams and the other is not.
pub open spec fn pair_legal(a: Seq<char>, b: Seq<char>, mods: Seq<Seq<char>>) -> bool {
    (mods.contains(a) && !mods.contains(b)) || (mods.contains(b) && !mods.contains(a))
}

/// Whether the names of one anagram number are too many: three or more,
/// or two that may not share a chord.
pub open spec fn slot_conflict(names: Seq<Seq<char>>, mods: Seq<Seq<char>>) -> bool {
    names.len() >= 3 || (names.len() == 2 && !pair_legal(names[0], names[1], mods))
}

/// Whether some anagram number has too many names.
pub open spec fn chord_conflict(slots: Seq<Seq<Seq<char>>>, mods: Seq<Seq<char>>) -> bool {
    exists|i: int| 0 <= i < slots.len() && slot_conflict(#[trigger] slots[i], mods)
}

/// Whether some anagram number below the largest has no name.
pub open spec fn has_gap(slots: Seq<Seq<Seq<char>>>) -> bool {
    exists|i: int| 0 <= i < slots.len() && (#[trigger] slots[i]).len() == 0
}

/// What is written where an anagram number has no name.
pub open spec fn missing() -> Seq<char> {
    "???"@
}

/// The names of one anagram number as text: the name if there is one, the
/// names in parentheses with commas between if there are several, and the
/// mark of a missing number if there is none.
pub open spec fn slot_text(names: Seq<Seq<char>>) -> Seq<char> {
    if names.len() == 0 {
        missing()
    } else if names.len() == 1 {
        names[0]
    } else {
        "("@ + join(names, ", "@) + ")"@
    }
}

/// The set as text: the names of each anagram number from 0 to the
/// largest.
pub open spec fn set_text(slots: Seq<Seq<Seq<char>>>) -> Seq<char> {
    "anagrams: ["@ + join(slots.map_values(|names: Seq<Seq<char>>| slot_text(names)), ", "@) + "]"@
}

/// `slots` with `name` added at the number `num`.
pub open spec fn slots_with(slots: Seq<Seq<Seq<char>>>, num: nat, name: Seq<char>) -> Seq<
    Seq<Seq<char>>,
> {
    let wide = if slots.len() > num {
        slots
    } else {
        slots + Seq::new((num + 1 - slots.len()) as nat, |i: int| Seq::<Seq<char>>::empty())
    };
    wide.update(num as int, wide[num as int].push(name))
}

/// Whether `name1` and `name2` may share a chord: one of the two is a
/// modifier of words or anagrams and the other is not. A modifier that
/// shares only a part of its switches with a letter is not looked for.
pub fn is_pair_legal(name1: &Name, name2: &Name, word_mod_names: &StrMap<bool>) -> (legal: bool)
    requires
        word_mod_names.wf(),
    ensures
        legal == pair_legal(name1@, name2@, word_mod_names.key_seq()),
{
    let first = word_mod_names.contains_key(name1.as_str());
    let second = word_mod_names.contains_key(name2.as_str());
    (first && !second) || (second && !first)
}

impl AnagramSet {
    /// The names at each anagram number.
    pub open spec fn slots(&self) -> Seq<Seq<Seq<char>>> {
        slot_views(self.0@)
    }

    /// The set has a name, and its largest anagram number has one.
    pub open spec fn wf(&self) -> bool {
        self.0.len() > 0 && self.0[self.0.len() - 1].len() > 0 && self.0.len() <= 256
    }

    /// A set without names.
    pub fn new() -> (set: AnagramSet)
        ensures
            set.slots() == Seq::<Seq<Seq<char>>>::empty(),
    {
        let set = AnagramSet(Vec::new());
        assert(set.slots() =~= Seq::<Seq<Seq<char>>>::empty());
        set
    }

    /// Adds `name` at the number `anagram_num`.
    pub fn insert(&mut self, anagram_num: AnagramNum, name: Name)
        requires
            old(self).0.len() == 0 || old(self).wf(),
        ensures
            final(self).wf(),
            final(self).slots() == slots_with(old(self).slots(), anagram_num.0 as nat, name@),
    {
        let num = anagram_num.0 as usize;
        let ghost before = self.slots();
        while self.0.len() <= num
            invariant
                old(self).0.len() <= self.0.len(),
                self.0.len() <= num + 1 || self.0.len() == old(self).0.len(),
                self.0.len() <= 256,
                num < 256,
                before == old(self).slots(),
                self.slots() == before + Seq::new(
                    (self.0.len() - before.len()) as nat,
                    |i: int| Seq::<Seq<char>>::empty(),
                ),
                old(self).0.len() == 0 || old(self).wf(),
                self.0.len() > old(self).0.len() || self.0.len() == 0 || self.wf(),
            decreases num + 1 - self.0.len(),
        {
            let ghost prev = self.0@;
            let ghost prev_slots = self.slots();
            self.0.push(Vec::new());
            proof {
                assert(self.0@ == prev.push(self.0[self.0.len() - 1]));
                assert(name_views(self.0[self.0.len() - 1]@) =~= Seq::<Seq<char>>::empty());
                assert(self.slots() =~= prev_slots.push(Seq::<Seq<char>>::empty()));
                assert(self.slots() =~= before + Seq::new(
                    (self.0.len() - before.len()) as nat,
                    |i: int| Seq::<Seq<char>>::empty(),
                ));
            }
        }
        let ghost wide = self.slots();
        let ghost prev = self.0@;
        let mut names = self.0.remove(num);
        let ghost was = names@;
        names.push(name);
        self.0.insert(num, names);
        proof {
            assert(self.0@ =~= prev.update(num as int, names));
            assert(name_views(names@) =~= name_views(was).push(name@));
            assert(self.slots() =~= wide.update(num as int, wide[num as int].push(name@)));
            if old(self).0.len() > num {
                assert(wide =~= before);
            }
        }
    }

    /// Whether the number `anagram_num` has a name.
    pub fn contains_anagram(&self, anagram_num: AnagramNum) -> (yes: bool)
        ensures
            yes == (anagram_num.0 < self.slots().len() && self.slots()[anagram_num.0 as int].len() > 0),
    {
        let num = anagram_num.0 as usize;
        if num < self.0.len() {
            assert(self.slots()[num as int] == name_views(self.0[num as int]@));
            self.0[num].len() > 0
        } else {
            false
        }
    }

    /// The largest anagram number that has a name.
    pub fn max_anagram(&self) -> (max: AnagramNum)
        requires
            self.wf(),
        ensures
            max.0 == self.slots().len() - 1,
    {
        AnagramNum((self.0.len() - 1) as u8)
    }

    /// Whether some anagram number has three names or more, or two that
    /// may not share a chord.
    pub fn has_chord_conflict(&self, word_mod_names: &StrMap<bool>) -> (yes: bool)
        requires
            word_mod_names.wf(),
        ensures
            yes == chord_conflict(self.slots(), word_mod_names.key_seq()),
    {
        let mut i: usize = 0;
        while i < self.0.len()
            invariant
                i <= self.0.len(),
                word_mod_names.wf(),
                forall|j: int| 0 <= j < i ==> !slot_conflict(#[trigger] self.slots()[j], word_mod_names.key_seq()),
            decreases self.0.len() - i,
        {
            let v = &self.0[i];
            proof {
                assert(self.slots()[i as int] == name_views(v@));
                if v.len() >= 2 {
                    assert(name_views(v@)[0] == v[0]@);
                    assert(name_views(v@)[1] == v[1]@);
                }
            }
            if v.len() >= 3 {
                return true;
            }
            if v.len() == 2 && !is_pair_legal(&v[0], &v[1], word_mod_names) {
                return true;
            }
            i += 1;
        }
        false
    }

    /// Whether the set should be reported: names are in conflict, or an
    /// anagram number below the largest has no name.
    pub fn is_invalid(&self, word_mod_names: &StrMap<bool>) -> (yes: bool)
        requires
            word_mod_names.wf(),
        ensures
            yes == (chord_conflict(self.slots(), word_mod_names.key_seq()) || has_gap(self.slots())),
    {
        if self.has_chord_conflict(word_mod_names) {
            return true;
        }
        let mut i: usize = 0;
        while i < self.0.len()
            invariant
                i <= self.0.len(),
                forall|j: int| 0 <= j < i ==> (#[trigger] self.slots()[j]).len() > 0,
            decreases self.0.len() - i,
        {
            assert(self.slots()[i as int] == name_views(self.0[i as int]@));
            if self.0[i].len() == 0 {
                return true;
            }
            i += 1;
        }
        false
    }

    /// What is written where an anagram number has no name.
    pub fn missing_symbol() -> (mark: String)
        ensures
            mark@ == missing(),
    {
        "???".to_owned()
    }

    /// The names of the number `anagram_num` as text.
    pub fn anagram_to_string(&self, anagram_num: AnagramNum) -> (text: String)
        ensures
            text@ == slot_text(
                if anagram_num.0 < self.slots().len() {
                    self.slots()[anagram_num.0 as int]
                } else {
                    Seq::empty()
                },
            ),
    {
        let num = anagram_num.0 as usize;
        if num >= self.0.len() || self.0[num].len() == 0 {
            if num < self.0.len() {
                assert(self.slots()[num as int] == name_views(self.0[num as int]@));
            }
            return AnagramSet::missing_symbol();
        }
        let v = &self.0[num];
        assert(self.slots()[num as int] == name_views(v@));
        let mut strings: Vec<String> = Vec::new();
        let mut i: usize = 0;
        while i < v.len()
            invariant
                i <= v.len(),
                strings.len() == i,
                forall|j: int| 0 <= j < i ==> strings[j]@ == v[j]@,
            decreases v.len() - i,
        {
            strings.push(v[i].0.clone());
            i += 1;
        }
        assert(views(strings@) =~= name_views(v@));
        if strings.len() == 1 {
            strings[0].clone()
        } else {
            concat3("(", join_strings(&strings, ", ").as_str(), ")")
        }
    }

    /// The set as text.
    pub fn to_string(&self) -> (text: String)
        requires
            self.wf(),
        ensures
            text@ == set_text(self.slots()),
    {
        let mut strings: Vec<String> = Vec::new();
        let mut i: usize = 0;
        while i < self.0.len()
            invariant
                i <= self.0.len(),
                self.0.len() <= 256,
                strings.len() == i,
                forall|j: int| 0 <= j < i ==> strings[j]@ == slot_text(self.slots()[j]),
            decreases self.0.len() - i,
        {
            strings.push(self.anagram_to_string(AnagramNum(i as u8)));
            i += 1;
        }
        assert(views(strings@) =~= self.slots().map_values(|names: Seq<Seq<char>>| slot_text(names)));
        concat3("anagrams: [", join_strings(&strings, ", ").as_str(), "]")
    }
}

/// A `ChordGroup` as a mathematical value.
pub struct GroupView {
    pub base: Seq<bool>,
    pub slots: Seq<Seq<Seq<char>>>,
}

impl View for ChordGroup {
    type V = GroupView;

    open spec fn view(&self) -> GroupView {
        GroupView { base: self.base@, slots: self.set.slots() }
    }
}

/// The groups of a list, as mathematical values.
pub open spec fn group_views(groups: Seq<ChordGroup>) -> Seq<GroupView> {
    groups.map_values(|g: ChordGroup| g@)
}

/// The position of the first group with the pattern `base`, or the number
/// of groups if there is none.
pub open spec fn group_index(groups: Seq<GroupView>, base: Seq<bool>) -> int
    decreases groups.len(),
{
    if groups.len() == 0 || groups[0].base == base {
        0
    } else {
        1 + group_index(groups.drop_first(), base)
    }
}

/// `group_index` is the position of the first group with the pattern.
proof fn lemma_group_index(groups: Seq<GroupView>, base: Seq<bool>, i: int)
    requires
        0 <= i <= groups.len(),
        forall|j: int| 0 <= j < i ==> groups[j].base != base,
        i < groups.len() ==> groups[i].base == base,
    ensures
        group_index(groups, base) == i,
    decreases i,
{
    if i > 0 {
        let rest = groups.drop_first();
        assert forall|j: int| 0 <= j < i - 1 implies rest[j].base != base by {
            assert(rest[j] == groups[j + 1]);
        }
        if i - 1 < rest.len() {
            assert(rest[i - 1] == groups[i]);
        }
        lemma_group_index(rest, base, i - 1);
    }
}

/// `groups` with `name` added to the group of the pattern of `chord`, at
/// the chord's anagram number; a pattern that is new gets a group at the
/// end.
pub open spec fn groups_with(groups: Seq<GroupView>, name: Seq<char>, chord: ChordView) -> Seq<GroupView> {
    let i = group_index(groups, chord.switches);
    if 0 <= i < groups.len() {
        groups.update(
            i,
            GroupView {
                base: chord.switches,
                slots: slots_with(groups[i].slots, chord.anagram_num as nat, name),
            },
        )
    } else {
        groups.push(
            GroupView {
                base: chord.switches,
                slots: slots_with(Seq::empty(), chord.anagram_num as nat, name),
            },
        )
    }
}

/// The groups of the first `n` chords of a layout, taken in the order of
/// their names.
pub open spec fn grouped(layout: StrMap<Chord>, n: int) -> Seq<GroupView>
    decreases n,
{
    if n <= 0 {
        Seq::empty()
    } else {
        groups_with(grouped(layout, n - 1), layout.key_seq()[n - 1], layout.val_seq()[n - 1]@)
    }
}

/// `keys` with `key`, put where it belongs, if it is not there yet.
pub open spec fn keys_with(keys: Seq<Seq<char>>, key: Seq<char>) -> Seq<Seq<char>> {
    if keys.contains(key) {
        keys
    } else {
        keys.insert(rank(keys, key), key)
    }
}

/// `keys` with the first `n` of `more`.
pub open spec fn keys_union(keys: Seq<Seq<char>>, more: Seq<Seq<char>>, n: int) -> Seq<Seq<char>>
    decreases n,
{
    if n <= 0 {
        keys
    } else {
        keys_with(keys_union(keys, more, n - 1), more[n - 1])
    }
}

/// The keys of the first `n` of `maps`, each once, in order.
pub open spec fn all_keys<V>(maps: Seq<StrMap<V>>, n: int) -> Seq<Seq<char>>
    decreases n,
{
    if n <= 0 {
        Seq::empty()
    } else {
        keys_union(all_keys(maps, n - 1), maps[n - 1].key_seq(), maps[n - 1].key_seq().len() as int)
    }
}

/// Those of the first `n` of `keys` that neither `a` nor `b` has.
pub open spec fn unused(keys: Seq<Seq<char>>, a: Seq<Seq<char>>, b: Seq<Seq<char>>, n: int) -> Seq<
    Seq<char>,
>
    decreases n,
{
    if n <= 0 {
        Seq::empty()
    } else if a.contains(keys[n - 1]) || b.contains(keys[n - 1]) {
        unused(keys, a, b, n - 1)
    } else {
        unused(keys, a, b, n - 1).push(keys[n - 1])
    }
}

/// A heading, each of `things` on a line of its own after two spaces, and
/// an empty line; nothing at all where there are no things.
pub open spec fn report(heading: Seq<char>, things: Seq<Seq<char>>) -> Seq<Seq<char>> {
    if things.len() == 0 {
        Seq::empty()
    } else {
        seq![heading] + things.map_values(|t: Seq<char>| "  "@ + t) + seq![Seq::<char>::empty()]
    }
}

/// The texts of those of the first `n` groups that are to be reported.
pub open spec fn invalid_texts(groups: Seq<GroupView>, mods: Seq<Seq<char>>, n: int) -> Seq<Seq<char>>
    decreases n,
{
    if n <= 0 {
        Seq::empty()
    } else if chord_conflict(groups[n - 1].slots, mods) || has_gap(groups[n - 1].slots) {
        invalid_texts(groups, mods, n - 1).push(set_text(groups[n - 1].slots))
    } else {
        invalid_texts(groups, mods, n - 1)
    }
}

/// The heading of the conflicts of the layout `path`.
pub open spec fn conflicts_heading(path: Seq<char>) -> Seq<char> {
    "\nConflicting chords (in parens) or skipped anagrams (\"???\") in '"@ + path + "':"@
}

/// The report of the conflicts of the first `n` layouts.
pub open spec fn conflict_lines(kmaps: Seq<KmapView>, mods: Seq<Seq<char>>, n: int) -> Seq<Seq<char>>
    decreases n,
{
    if n <= 0 {
        Seq::empty()
    } else {
        conflict_lines(kmaps, mods, n - 1) + report(
            conflicts_heading(kmaps[n - 1].path),
            invalid_texts(kmaps[n - 1].groups, mods, kmaps[n - 1].groups.len() as int),
        )
    }
}

/// The groups of a layout, as a mathematical value.
pub struct KmapView {
    pub path: Seq<char>,
    pub groups: Seq<GroupView>,
}

impl View for KmapGroups {
    type V = KmapView;

    open spec fn view(&self) -> KmapView {
        KmapView { path: self.path@, groups: group_views(self.groups@) }
    }
}

/// The layouts of a list, as mathematical values.
pub open spec fn kmap_views(kmaps: Seq<KmapGroups>) -> Seq<KmapView> {
    kmaps.map_values(|k: KmapGroups| k@)
}

/// The whole report: the names that are not used, then the conflicts.
pub open spec fn check_lines(
    chord_names: Seq<Seq<char>>,
    seq_names: Seq<Seq<char>>,
    mods: Seq<Seq<char>>,
    kmaps: Seq<KmapView>,
) -> Seq<Seq<char>> {
    let seqs_and_mods = keys_union(seq_names, mods, mods.len() as int);
    report("Unused chords:"@, unused(chord_names, seq_names, mods, chord_names.len() as int)) + report(
        "Unused sequences:"@,
        unused_keys(seqs_and_mods, chord_names, seqs_and_mods.len() as int),
    ) + conflict_lines(kmaps, mods, kmaps.len() as int)
}

/// Adds `key` to a set of names.
fn add_key(set: &mut StrMap<bool>, key: &str)
    requires
        old(set).wf(),
    ensures
        final(set).wf(),
        final(set).key_seq() == keys_with(old(set).key_seq(), key@),
{
    if !set.contains_key(key) {
        set.insert(key.to_owned(), true);
    }
}

/// Adds the keys of `map` to a set of names.
pub fn add_keys<V>(set: &mut StrMap<bool>, map: &StrMap<V>)
    requires
        old(set).wf(),
        map.wf(),
    ensures
        final(set).wf(),
        final(set).key_seq() == keys_union(
            old(set).key_seq(),
            map.key_seq(),
            map.key_seq().len() as int,
        ),
{
    let mut i: usize = 0;
    while i < map.len()
        invariant
            i <= map.key_seq().len(),
            map.wf(),
            set.wf(),
            set.key_seq() == keys_union(old(set).key_seq(), map.key_seq(), i as int),
        decreases map.key_seq().len() - i,
    {
        add_key(set, map.key_at(i).as_str());
        i += 1;
    }
}

/// Adds `names` to a set of names.
pub fn add_names(set: &mut StrMap<bool>, names: &Vec<Name>)
    requires
        old(set).wf(),
    ensures
        final(set).wf(),
        final(set).key_seq() == keys_union(old(set).key_seq(), name_views(names@), names.len() as int),
{
    let mut i: usize = 0;
    while i < names.len()
        invariant
            i <= names.len(),
            set.wf(),
            set.key_seq() == keys_union(old(set).key_seq(), name_views(names@), i as int),
        decreases names.len() - i,
    {
        assert(name_views(names@)[i as int] == names[i as int]@);
        add_key(set, names[i].as_str());
        i += 1;
    }
}

/// Those keys of `set` that neither `a` nor `b` has, in order.
pub fn names_not_in(set: &StrMap<bool>, a: &StrMap<bool>, b: &StrMap<bool>) -> (out: Vec<String>)
    requires
        set.wf(),
        a.wf(),
        b.wf(),
    ensures
        views(out@) == unused(set.key_seq(), a.key_seq(), b.key_seq(), set.key_seq().len() as int),
{
    let mut out: Vec<String> = Vec::new();
    let mut i: usize = 0;
    assert(views(out@) =~= Seq::<Seq<char>>::empty());
    while i < set.len()
        invariant
            i <= set.key_seq().len(),
            set.wf(),
            a.wf(),
            b.wf(),
            views(out@) == unused(set.key_seq(), a.key_seq(), b.key_seq(), i as int),
        decreases set.key_seq().len() - i,
    {
        let key = set.key_at(i);
        if !a.contains_key(key.as_str()) && !b.contains_key(key.as_str()) {
            let ghost before = out@;
            out.push(key.clone());
            assert(views(out@) =~= views(before).push(key@));
        }
        i += 1;
    }
    out
}

/// A heading, each of `things` on a line of its own after two spaces, and
/// an empty line; nothing at all where there are no things.
pub fn report_lines(heading: &str, things: &Vec<String>) -> (lines: Vec<String>)
    ensures
        views(lines@) == report(heading@, views(things@)),
{
    let mut lines: Vec<String> = Vec::new();
    if things.len() == 0 {
        assert(views(lines@) =~= Seq::<Seq<char>>::empty());
        return lines;
    }
    lines.push(heading.to_owned());
    let mut i: usize = 0;
    while i < things.len()
        invariant
            i <= things.len(),
            lines.len() == i + 1,
            lines[0]@ == heading@,
            forall|j: int| 0 <= j < i ==> lines[j + 1]@ == "  "@ + things[j]@,
        decreases things.len() - i,
    {
        lines.push(concat2("  ", things[i].as_str()));
        i += 1;
    }
    lines.push(String::new());
    assert(views(lines@) =~= report(heading@, views(things@)));
    lines
}

/// The groups of the chords of a layout.
pub fn group_chords(layout: &StrMap<Chord>) -> (groups: Vec<ChordGroup>)
    requires
        layout.wf(),
    ensures
        group_views(groups@) == grouped(*layout, layout.key_seq().len() as int),
        forall|i: int| 0 <= i < groups.len() ==> (#[trigger] groups[i]).set.wf(),
{
    let mut groups: Vec<ChordGroup> = Vec::new();
    let mut n: usize = 0;
    assert(group_views(groups@) =~= Seq::<GroupView>::empty());
    while n < layout.len()
        invariant
            n <= layout.key_seq().len(),
            layout.wf(),
            group_views(groups@) == grouped(*layout, n as int),
            forall|i: int| 0 <= i < groups.len() ==> (#[trigger] groups[i]).set.wf(),
        decreases layout.key_seq().len() - n,
    {
        let name = Name(layout.key_at(n).clone());
        let chord = layout.val_at(n);
        let ghost before = group_views(groups@);
        let mut i: usize = 0;
        while i < groups.len() && !same_bits(&groups[i].base, &chord.switches)
            invariant
                i <= groups.len(),
                before == group_views(groups@),
                forall|j: int| 0 <= j < i ==> before[j].base != chord@.switches,
            decreases groups.len() - i,
        {
            assert(before[i as int] == groups[i as int]@);
            i += 1;
        }
        proof {
            if i < groups.len() {
                assert(before[i as int] == groups[i as int]@);
            }
            lemma_group_index(before, chord@.switches, i as int);
        }
        if i < groups.len() {
            let ghost prev = groups@;
            let mut group = groups.remove(i);
            assert(group == prev[i as int]);
            let ghost was = group@;
            group.set.insert(chord.anagram_num, name);
            proof {
                assert(group@.base == chord@.switches);
            }
            groups.insert(i, group);
            proof {
                assert(groups@ =~= prev.update(i as int, group));
                assert(group_views(groups@) =~= before.update(i as int, group@));
                assert forall|k: int| 0 <= k < groups.len() implies (#[trigger] groups[k]).set.wf() by {
                    if k != i {
                        assert(groups[k] == prev[k]);
                    }
                }
            }
        } else {
            let mut set = AnagramSet::new();
            assert(set.0.len() == 0) by {
                assert(set.slots().len() == set.0.len());
            }
            set.insert(chord.anagram_num, name);
            let group = ChordGroup { base: copy_bits(&chord.switches), set };
            let ghost prev = groups@;
            groups.push(group);
            proof {
                assert(group_views(groups@) =~= before.push(group@));
            }
        }
        n += 1;
    }
    groups
}

/// Whether `a` and `b` hold the same bits.
pub fn same_bits(a: &Vec<bool>, b: &Vec<bool>) -> (same: bool)
    ensures
        same == (a@ == b@),
{
    if a.len() != b.len() {
        return false;
    }
    let mut i: usize = 0;
    while i < a.len()
        invariant
            i <= a.len(),
            a.len() == b.len(),
            forall|j: int| 0 <= j < i ==> a[j] == b[j],
        decreases a.len() - i,
    {
        if a[i] != b[i] {
            return false;
        }
        i += 1;
    }
    assert(a@ =~= b@);
    true
}

impl Checker {
    /// The maps of names are well formed, and so are the sets of names of
    /// the groups.
    pub open spec fn wf(&self) -> bool {
        &&& self.seq_names.wf()
        &&& self.chord_names.wf()
        &&& self.word_mod_names.wf()
        &&& forall|i: int, j: int|
            0 <= i < self.reverse_kmaps.len() && 0 <= j < self.reverse_kmaps[i].groups.len() ==> (
            #[trigger] self.reverse_kmaps[i].groups[j]).set.wf()
    }

    /// The names of the sequences and of the modifiers of words and
    /// anagrams, each once, in order.
    pub open spec fn seqs_and_mods(&self) -> Seq<Seq<char>> {
        keys_union(
            self.seq_names.key_seq(),
            self.word_mod_names.key_seq(),
            self.word_mod_names.key_seq().len() as int,
        )
    }

    /// The report of the conflicts: for each layout that has any, a
    /// heading, then the sets of names that share a chord they may not
    /// share or that skip an anagram number, then an empty line.
    pub fn check_conflicts(&self) -> (lines: Vec<String>)
        requires
            self.wf(),
        ensures
            views(lines@) == conflict_lines(
                kmap_views(self.reverse_kmaps@),
                self.word_mod_names.key_seq(),
                self.reverse_kmaps.len() as int,
            ),
    {
        let mut lines: Vec<String> = Vec::new();
        assert(views(lines@) =~= Seq::<Seq<char>>::empty());
        let mut k: usize = 0;
        while k < self.reverse_kmaps.len()
            invariant
                k <= self.reverse_kmaps.len(),
                self.wf(),
                views(lines@) == conflict_lines(
                    kmap_views(self.reverse_kmaps@),
                    self.word_mod_names.key_seq(),
                    k as int,
                ),
            decreases self.reverse_kmaps.len() - k,
        {
            let kmap = &self.reverse_kmaps[k];
            assert(kmap_views(self.reverse_kmaps@)[k as int] == kmap@);
            let heading = concat3(
                "\nConflicting chords (in parens) or skipped anagrams (\"???\") in '",
                kmap.path.as_str(),
                "':",
            );
            let ghost groups = group_views(kmap.groups@);
            let mut texts: Vec<String> = Vec::new();
            assert(views(texts@) =~= Seq::<Seq<char>>::empty());
            let mut g: usize = 0;
            while g < kmap.groups.len()
                invariant
                    g <= kmap.groups.len(),
                    self.wf(),
                    k < self.reverse_kmaps.len(),
                    kmap == &self.reverse_kmaps[k as int],
                    groups == group_views(kmap.groups@),
                    views(texts@) == invalid_texts(groups, self.word_mod_names.key_seq(), g as int),
                decreases kmap.groups.len() - g,
            {
                let set = &kmap.groups[g].set;
                assert(groups[g as int].slots == set.slots());
                assert(self.reverse_kmaps[k as int].groups[g as int].set.wf());
                if set.is_invalid(&self.word_mod_names) {
                    let ghost before = texts@;
                    let text = set.to_string();
                    texts.push(text);
                    assert(views(texts@) =~= views(before).push(text@));
                }
                g += 1;
            }
            let mut more = report_lines(heading.as_str(), &texts);
            let ghost before = lines@;
            let ghost added = more@;
            lines.append(&mut more);
            assert(views(lines@) =~= views(before) + views(added));
            k += 1;
        }
        lines
    }

    /// The report of the names that are not used: first the chords that
    /// have no sequence and are no modifier of words or anagrams, then the
    /// sequences and modifiers that have no chord. Each part has its
    /// heading and is left out where it is empty.
    pub fn check_unused(&self) -> (lines: Vec<String>)
        requires
            self.wf(),
        ensures
            views(lines@) == report(
                "Unused chords:"@,
                unused(
                    self.chord_names.key_seq(),
                    self.seq_names.key_seq(),
                    self.word_mod_names.key_seq(),
                    self.chord_names.key_seq().len() as int,
                ),
            ) + report(
                "Unused sequences:"@,
                unused_keys(
                    self.seqs_and_mods(),
                    self.chord_names.key_seq(),
                    self.seqs_and_mods().len() as int,
                ),
            ),
    {
        let mut seqs_and_mods: StrMap<bool> = StrMap::new();
        add_keys(&mut seqs_and_mods, &self.seq_names);
        proof {
            let keys = self.seq_names.key_seq();
            lemma_keys_union_empty(keys, keys.len() as int);
            assert(keys.take(keys.len() as int) == keys);
            assert(seqs_and_mods.key_seq() == keys);
        }
        add_keys(&mut seqs_and_mods, &self.word_mod_names);
        assert(seqs_and_mods.key_seq() == self.seqs_and_mods());
        let unused_chords = names_not_in(&self.chord_names, &self.seq_names, &self.word_mod_names);
        let empty: StrMap<bool> = StrMap::new();
        let unused_seqs = names_not_in(&seqs_and_mods, &self.chord_names, &empty);
        proof {
            lemma_unused_keys(
                seqs_and_mods.key_seq(),
                self.chord_names.key_seq(),
                empty.key_seq(),
                seqs_and_mods.key_seq().len() as int,
            );
        }
        let mut lines = report_lines("Unused chords:", &unused_chords);
        let mut more = report_lines("Unused sequences:", &unused_seqs);
        let ghost before = lines@;
        let ghost added = more@;
        lines.append(&mut more);
        assert(views(lines@) =~= views(before) + views(added));
        lines
    }
}

/// Those of the first `n` of `keys` that `a` does not have.
pub open spec fn unused_keys(keys: Seq<Seq<char>>, a: Seq<Seq<char>>, n: int) -> Seq<Seq<char>>
    decreases n,
{
    if n <= 0 {
        Seq::empty()
    } else if a.contains(keys[n - 1]) {
        unused_keys(keys, a, n - 1)
    } else {
        unused_keys(keys, a, n - 1).push(keys[n - 1])
    }
}

/// With nothing to leave out but what `a` has, `unused` is
/// `unused_keys`.
proof fn lemma_unused_keys(keys: Seq<Seq<char>>, a: Seq<Seq<char>>, empty: Seq<Seq<char>>, n: int)
    requires
        empty.len() == 0,
        n <= keys.len(),
    ensures
        unused(keys, a, empty, n) == unused_keys(keys, a, n),
    decreases n,
{
    if n > 0 {
        lemma_unused_keys(keys, a, empty, n - 1);
        assert(!empty.contains(keys[n - 1]));
    }
}

/// The union of no keys with a sorted list of distinct keys is that list.
proof fn lemma_keys_union_empty(keys: Seq<Seq<char>>, n: int)
    requires
        crate::text::sorted(keys),
        0 <= n <= keys.len(),
    ensures
        keys_union(Seq::empty(), keys, n) == keys.take(n),
    decreases n,
{
    if n > 0 {
        lemma_keys_union_empty(keys, n - 1);
        let before = keys.take(n - 1);
        let key = keys[n - 1];
        assert(!before.contains(key)) by {
            if before.contains(key) {
                let j = before.index_of(key);
                crate::text::lemma_sorted_distinct(keys, j, n - 1);
            }
        }
        lemma_rank_all(before, key);
        assert(before.insert(before.len() as int, key) =~= keys.take(n));
    } else {
        assert(keys.take(0) =~= Seq::empty());
    }
}

/// A key that comes after all of `keys` belongs at their end.
proof fn lemma_rank_all(keys: Seq<Seq<char>>, key: Seq<char>)
    requires
        forall|j: int| 0 <= j < keys.len() ==> crate::text::text_lt(keys[j], key),
    ensures
        rank(keys, key) == keys.len(),
    decreases keys.len(),
{
    if keys.len() > 0 {
        let rest = keys.drop_first();
        assert forall|j: int| 0 <= j < rest.len() implies crate::text::text_lt(rest[j], key) by {
            assert(rest[j] == keys[j + 1]);
        }
        lemma_rank_all(rest, key);
    }
}

/// The names of the modifiers of words and of anagrams, each once, in
/// order.
pub open spec fn mod_keys(word_mods: Seq<Seq<char>>, anagram_mods: Seq<Seq<char>>) -> Seq<Seq<char>> {
    keys_union(
        keys_union(Seq::empty(), word_mods, word_mods.len() as int),
        anagram_mods,
        anagram_mods.len() as int,
    )
}

/// For each of the first `n` layouts its path and the groups of its chords.
pub open spec fn reversed(chords: StrMap<StrMap<Chord>>, n: int) -> Seq<KmapView>
    decreases n,
{
    if n <= 0 {
        Seq::empty()
    } else {
        reversed(chords, n - 1).push(
            KmapView {
                path: chords.key_seq()[n - 1],
                groups: grouped(chords.val_seq()[n - 1], chords.val_seq()[n - 1].key_seq().len() as int),
            },
        )
    }
}

impl AllData {
    /// The report of all the checks, line by line: the names that are not
    /// used, then the conflicts of each layout.
    pub fn check(&self) -> (lines: Vec<String>)
        requires
            self.wf(),
        ensures
            views(lines@) == check_lines(
                all_keys(self.chords.val_seq(), self.chords.val_seq().len() as int),
                all_keys(self.sequences@, 5),
                mod_keys(name_views(self.word_mods@), name_views(self.anagram_mods@)),
                reversed(self.chords, self.chords.key_seq().len() as int),
            ),
    {
        let checker = self.checker();
        let mut lines = checker.check_unused();
        let mut more = checker.check_conflicts();
        let ghost before = lines@;
        let ghost added = more@;
        lines.append(&mut more);
        assert(views(lines@) =~= views(before) + views(added));
        lines
    }

    /// What the checks look at.
    pub fn checker(&self) -> (c: Checker)
        requires
            self.wf(),
        ensures
            c.wf(),
            kmap_views(c.reverse_kmaps@) == reversed(self.chords, self.chords.key_seq().len() as int),
            c.seq_names.key_seq() == all_keys(self.sequences@, 5),
            c.chord_names.key_seq() == all_keys(
                self.chords.val_seq(),
                self.chords.val_seq().len() as int,
            ),
            c.word_mod_names.key_seq() == mod_keys(
                name_views(self.word_mods@),
                name_views(self.anagram_mods@),
            ),
    {
        let reverse_kmaps = self.reverse_chords();
        let c = Checker {
            reverse_kmaps,
            seq_names: self.seq_names(),
            chord_names: self.chord_names(),
            word_mod_names: self.word_mods(),
        };
        assert(kmap_views(c.reverse_kmaps@).len() == c.reverse_kmaps.len());
        c
    }

    /// For each layout, the names of its chords by pattern of switches.
    pub fn reverse_chords(&self) -> (kmaps: Vec<KmapGroups>)
        requires
            self.wf(),
        ensures
            kmap_views(kmaps@) == reversed(self.chords, self.chords.key_seq().len() as int),
            forall|i: int, j: int|
                0 <= i < kmaps.len() && 0 <= j < kmaps[i].groups.len() ==> (#[trigger] kmaps[i].groups[j]).set.wf(),
    {
        let mut kmaps: Vec<KmapGroups> = Vec::new();
        let mut i: usize = 0;
        assert(kmap_views(kmaps@) =~= Seq::<KmapView>::empty());
        while i < self.chords.len()
            invariant
                i <= self.chords.key_seq().len(),
                self.wf(),
                kmap_views(kmaps@) == reversed(self.chords, i as int),
                forall|a: int, b: int|
                    0 <= a < kmaps.len() && 0 <= b < kmaps[a].groups.len() ==> (#[trigger] kmaps[a].groups[b]).set.wf(),
            decreases self.chords.key_seq().len() - i,
        {
            let layout = self.chords.val_at(i);
            assert(self.chords_ok(self.chords.val_seq()[i as int]));
            let groups = group_chords(layout);
            let ghost before = kmaps@;
            let entry = KmapGroups { path: self.chords.key_at(i).clone(), groups };
            kmaps.push(entry);
            proof {
                assert(kmap_views(kmaps@) =~= kmap_views(before).push(entry@));
                assert forall|a: int, b: int|
                    0 <= a < kmaps.len() && 0 <= b < kmaps[a].groups.len() implies (
                #[trigger] kmaps[a].groups[b]).set.wf() by {
                    if a < before.len() {
                        assert(kmaps[a] == before[a]);
                    }
                }
            }
            i += 1;
        }
        kmaps
    }

    /// The names of the sequences of all kinds.
    pub fn seq_names(&self) -> (names: StrMap<bool>)
        requires
            self.wf(),
        ensures
            names.wf(),
            names.key_seq() == all_keys(self.sequences@, 5),
    {
        let mut names: StrMap<bool> = StrMap::new();
        let mut i: usize = 0;
        while i < 5
            invariant
                i <= 5,
                self.wf(),
                names.wf(),
                names.key_seq() == all_keys(self.sequences@, i as int),
            decreases 5 - i,
        {
            add_keys(&mut names, &self.sequences[i]);
            i += 1;
        }
        names
    }

    /// The names of the chords of all layouts.
    pub fn chord_names(&self) -> (names: StrMap<bool>)
        requires
            self.wf(),
        ensures
            names.wf(),
            names.key_seq() == all_keys(self.chords.val_seq(), self.chords.val_seq().len() as int),
    {
        let mut names: StrMap<bool> = StrMap::new();
        let mut i: usize = 0;
        while i < self.chords.len()
            invariant
                i <= self.chords.key_seq().len(),
                self.wf(),
                names.wf(),
                names.key_seq() == all_keys(self.chords.val_seq(), i as int),
            decreases self.chords.key_seq().len() - i,
        {
            assert(self.chords_ok(self.chords.val_seq()[i as int]));
            add_keys(&mut names, self.chords.val_at(i));
            i += 1;
        }
        names
    }

    /// The names of the modifiers of words and of anagrams.
    pub fn word_mods(&self) -> (names: StrMap<bool>)
        ensures
            names.wf(),
            names.key_seq() == mod_keys(name_views(self.word_mods@), name_views(self.anagram_mods@)),
    {
        let mut names: StrMap<bool> = StrMap::new();
        add_names(&mut names, &self.word_mods);
        add_names(&mut names, &self.anagram_mods);
        names
    }
}

} // verus!
