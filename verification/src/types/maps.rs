//! The registry: the one owner of the chords of each layout, of the
//! sequences of each kind, of the lists of modifiers and of the modes.

use vstd::prelude::*;
use crate::sorted_map::{rank, StrMap};
use crate::text::{
    concat2, decimal, decimal_string, in_order, lemma_rank_le, str_lt, text_lt, to_uppercase,
    uppercase_of,
};
use crate::types::c_tree::CTree;
use crate::types::chord::{Chord, ChordSpec, ChordView};
use crate::types::errors::{Error, ErrorView};
use crate::types::key_press::{KeyPress, KeyPressView, Sequence};
use crate::text::{
    graphemes, graphemes_of, lowercase_of, to_lowercase, char_string, chars_of, views,
};
use crate::types::words::{built_word, chord_letters, Lexicon, Word, WordBuilder, WordConfig};
use crate::types::names::{clone_names, name_views, CCode, KmapPath, ModeName, Name, SeqType};

verus! {

/// A layout of a mode: its file, and whether the words of the dictionary
/// are typed on it.
#[derive(Debug, PartialEq, Eq)]
pub struct KmapInfo {
    pub path: KmapPath,
    pub use_words: bool,
}

/// A mode: its layouts, in the order in which they are searched.
#[derive(Debug, PartialEq, Eq)]
pub struct ModeInfo {
    pub keymaps: Vec<KmapInfo>,
}

/// The registry.
#[derive(Debug, PartialEq, Eq)]
pub struct Maps {
    /// For each layout, by its path, the chord of each name.
    pub chords: StrMap<StrMap<Chord>>,
    /// For each kind of sequence, in the order of `SeqType::all()`, the
    /// sequence of each name.
    pub sequences: Vec<StrMap<Sequence>>,
    pub word_mods: Vec<Name>,
    pub plain_mods: Vec<Name>,
    pub anagram_mods: Vec<Name>,
    pub modes: StrMap<ModeInfo>,
    /// For each layout, the short name under which its tables are emitted.
    pub kmap_ids: StrMap<String>,
    /// For each spelling, the name of the chord that types it.
    pub spellings: StrMap<Name>,
    pub commands: Vec<Name>,
    pub options: Vec<CTree>,
    pub chord_spec: ChordSpec,
    /// The largest anagram number of a word added so far.
    pub max_anagram_num: u8,
}

/// The registry under the name by which the checks and the output know it.
pub type AllData = Maps;

/// The paths of the layouts of a mode, in order.
pub open spec fn mode_paths(info: ModeInfo) -> Seq<Seq<char>> {
    info.keymaps@.map_values(|k: KmapInfo| k.path@)
}

/// The short name of the layout that is registered when `n` are known.
pub open spec fn nickname(n: nat) -> Seq<char> {
    "kmap"@ + decimal(n)
}

/// Whether `text` is the short name of a layout that was registered when
/// at least `low` and fewer than `high` were known.
pub open spec fn is_nickname(text: Seq<char>, low: nat, high: nat) -> bool {
    exists|n: nat| low <= n < high && text == #[trigger] nickname(n)
}

/// A short name of a range is one of any range that reaches further.
proof fn lemma_nickname_wider(text: Seq<char>, low: nat, high: nat, higher: nat)
    requires
        is_nickname(text, low, high),
        high <= higher,
    ensures
        is_nickname(text, low, higher),
{
    let n = choose|n: nat| low <= n < high && text == #[trigger] nickname(n);
    assert(low <= n < higher && text == nickname(n));
}

/// The layouts in the order in which they were registered, once the first
/// `n` of `paths` are registered after those of `order`: a path that is
/// registered already keeps its place.
pub open spec fn registered(order: Seq<Seq<char>>, paths: Seq<Seq<char>>, n: int) -> Seq<Seq<char>>
    decreases n,
{
    if n <= 0 {
        order
    } else {
        let before = registered(order, paths, n - 1);
        if before.contains(paths[n - 1]) {
            before
        } else {
            before.push(paths[n - 1])
        }
    }
}

/// Whether `ids` gives the layouts `order`, each once, and no other, their
/// short names by their places: the first is `kmap0`.
pub open spec fn numbered(ids: StrMap<String>, order: Seq<Seq<char>>) -> bool {
    &&& order.len() == ids.key_seq().len()
    &&& forall|i: int, j: int| 0 <= i < j < order.len() ==> order[i] != order[j]
    &&& forall|k: Seq<char>| ids.has(k) == order.contains(k)
    &&& forall|j: int| 0 <= j < order.len() ==> ids.val(#[trigger] order[j])@ == nickname(j as nat)
}

/// The layouts of a mode, in order: the path of each, and whether words
/// are typed on it.
pub open spec fn mode_layouts(info: ModeInfo) -> Seq<(Seq<char>, bool)> {
    info.keymaps@.map_values(|k: KmapInfo| (k.path@, k.use_words))
}

/// The paths of the layouts of the first `n` layouts of a mode on which
/// words are typed.
pub open spec fn word_paths(info: ModeInfo, n: int) -> Seq<Seq<char>>
    decreases n,
{
    if n <= 0 {
        Seq::empty()
    } else if info.keymaps[n - 1].use_words {
        word_paths(info, n - 1).push(info.keymaps[n - 1].path@)
    } else {
        word_paths(info, n - 1)
    }
}

/// The paths of the layouts of the first `n` of the modes on which words
/// are typed: for each mode, in the order of the modes' names, those of its
/// layouts that say so.
pub open spec fn word_layouts(modes: StrMap<ModeInfo>, n: int) -> Seq<Seq<char>>
    decreases n,
{
    if n <= 0 {
        Seq::empty()
    } else {
        let info = modes.val_seq()[n - 1];
        word_layouts(modes, n - 1) + word_paths(info, info.keymaps.len() as int)
    }
}

/// The layouts of a mode on which words are typed depend only on the paths
/// of its layouts and on whether each is one for words.
pub proof fn lemma_word_paths(a: ModeInfo, b: ModeInfo, n: int)
    requires
        mode_layouts(a) == mode_layouts(b),
        n <= a.keymaps.len(),
    ensures
        word_paths(a, n) == word_paths(b, n),
    decreases n,
{
    if n > 0 {
        lemma_word_paths(a, b, n - 1);
        assert(mode_layouts(a).len() == a.keymaps.len());
        assert(mode_layouts(b).len() == b.keymaps.len());
        assert(mode_layouts(a)[n - 1] == (a.keymaps[n - 1].path@, a.keymaps[n - 1].use_words));
        assert(mode_layouts(b)[n - 1] == (b.keymaps[n - 1].path@, b.keymaps[n - 1].use_words));
    }
}

/// The layouts on which words are typed depend only on the layouts of the
/// modes, in the order of the modes' names.
pub proof fn lemma_word_layouts(a: StrMap<ModeInfo>, b: StrMap<ModeInfo>, n: int)
    requires
        n <= a.val_seq().len(),
        n <= b.val_seq().len(),
        forall|i: int| 0 <= i < n ==> mode_layouts(#[trigger] a.val_seq()[i]) == mode_layouts(b.val_seq()[i]),
    ensures
        word_layouts(a, n) == word_layouts(b, n),
    decreases n,
{
    if n > 0 {
        lemma_word_layouts(a, b, n - 1);
        let x = a.val_seq()[n - 1];
        let y = b.val_seq()[n - 1];
        assert(mode_layouts(x) == mode_layouts(y));
        assert(mode_layouts(x).len() == x.keymaps.len());
        assert(mode_layouts(y).len() == y.keymaps.len());
        lemma_word_paths(x, y, x.keymaps.len() as int);
    }
}

/// Each layout of a mode on which words are typed is a layout of the mode.
pub proof fn lemma_word_paths_known(info: ModeInfo, n: int, j: int)
    requires
        0 <= n <= info.keymaps.len(),
        0 <= j < word_paths(info, n).len(),
    ensures
        exists|b: int| 0 <= b < n && #[trigger] mode_paths(info)[b] == word_paths(info, n)[j],
    decreases n,
{
    if n > 0 {
        if info.keymaps[n - 1].use_words && j == word_paths(info, n - 1).len() {
            assert(mode_paths(info)[n - 1] == word_paths(info, n)[j]);
        } else {
            lemma_word_paths_known(info, n - 1, j);
            let b = choose|b: int| 0 <= b < n - 1 && #[trigger] mode_paths(info)[b] == word_paths(info, n - 1)[j];
            assert(0 <= b < n && mode_paths(info)[b] == word_paths(info, n)[j]);
        }
    }
}

/// Each layout on which words are typed is a layout of one of the modes.
pub proof fn lemma_word_layouts_known(modes: StrMap<ModeInfo>, n: int, j: int)
    requires
        0 <= n <= modes.val_seq().len(),
        0 <= j < word_layouts(modes, n).len(),
    ensures
        exists|a: int, b: int|
            0 <= a < n && 0 <= b < modes.val_seq()[a].keymaps.len() && #[trigger] mode_paths(
                modes.val_seq()[a],
            )[b] == word_layouts(modes, n)[j],
    decreases n,
{
    if n > 0 {
        let info = modes.val_seq()[n - 1];
        let before = word_layouts(modes, n - 1);
        if j < before.len() {
            lemma_word_layouts_known(modes, n - 1, j);
            let (a, b) = choose|a: int, b: int|
                0 <= a < n - 1 && 0 <= b < modes.val_seq()[a].keymaps.len() && #[trigger] mode_paths(
                    modes.val_seq()[a],
                )[b] == before[j];
            assert(0 <= a < n && 0 <= b < modes.val_seq()[a].keymaps.len() && mode_paths(modes.val_seq()[a])[b]
                == word_layouts(modes, n)[j]);
        } else {
            lemma_word_paths_known(info, info.keymaps.len() as int, j - before.len());
            let b = choose|b: int|
                0 <= b < info.keymaps.len() && #[trigger] mode_paths(info)[b] == word_paths(
                    info,
                    info.keymaps.len() as int,
                )[j - before.len()];
            assert(0 <= n - 1 < n && 0 <= b < modes.val_seq()[n - 1].keymaps.len() && mode_paths(
                modes.val_seq()[n - 1],
            )[b] == word_layouts(modes, n)[j]);
        }
    }
}

impl Maps {
    /// The chords of a layout are well formed and as wide as the
    /// configuration says.
    pub open spec fn chords_ok(&self, layout: StrMap<Chord>) -> bool {
        &&& layout.wf()
        &&& forall|j: int|
            0 <= j < layout.val_seq().len() ==> (#[trigger] layout.val_seq()[j])@.switches.len()
                == self.chord_spec.chord_len()
    }

    /// Every map is well formed, there is a map of sequences for each kind,
    /// every layout has its short name, every layout of a mode is known,
    /// and no anagram number is beyond what the firmware can hold.
    pub open spec fn wf(&self) -> bool {
        &&& self.chord_spec.wf()
        &&& self.chords.wf()
        &&& forall|i: int|
            0 <= i < self.chords.val_seq().len() ==> self.chords_ok(#[trigger] self.chords.val_seq()[i])
        &&& self.sequences.len() == 5
        &&& forall|i: int| 0 <= i < 5 ==> (#[trigger] self.sequences[i]).wf()
        &&& self.modes.wf()
        &&& self.kmap_ids.wf()
        &&& self.kmap_ids.key_seq() == self.chords.key_seq()
        &&& self.spellings.wf()
        &&& self.max_anagram_num <= 15
        &&& forall|i: int, j: int|
            0 <= i < self.modes.val_seq().len() && 0 <= j < self.modes.val_seq()[i].keymaps.len()
                ==> self.chords.has(#[trigger] mode_paths(self.modes.val_seq()[i])[j])
    }

    /// The sequences of a kind.
    pub open spec fn seq_map(&self, kind: SeqType) -> StrMap<Sequence> {
        self.sequences[kind.spec_index()]
    }

    /// The chord of `name` on the layout `kmap`, if there is one.
    pub open spec fn spec_chord(&self, name: Seq<char>, kmap: Seq<char>) -> Option<ChordView> {
        if self.chords.has(kmap) && self.chords.val(kmap).has(name) {
            Some(self.chords.val(kmap).val(name)@)
        } else {
            None
        }
    }

    /// What the words of the registry are built from and what they add to
    /// it.
    pub open spec fn lexicon(&self) -> Lexicon {
        Lexicon {
            chord_len: self.chord_spec.chord_len(),
            spellings: Map::new(|s: Seq<char>| self.spellings.has(s), |s: Seq<char>| self.spellings.val(s)@),
            chords: Map::new(
                |p: (Seq<char>, Seq<char>)| self.spec_chord(p.0, p.1) is Some,
                |p: (Seq<char>, Seq<char>)| self.spec_chord(p.0, p.1)->0,
            ),
            words: Map::new(
                |n: Seq<char>| self.spec_seq(SeqType::Word, n) is Some,
                |n: Seq<char>| self.spec_seq(SeqType::Word, n)->0,
            ),
            max_anagram_num: self.max_anagram_num,
        }
    }

    /// The chord of `name` on the first of the layouts `paths` that has
    /// one, and the blank chord if none has.
    pub open spec fn first_chord(&self, name: Seq<char>, paths: Seq<Seq<char>>) -> ChordView
        decreases paths.len(),
    {
        if paths.len() == 0 {
            ChordView::blank(self.chord_spec.chord_len())
        } else {
            match self.spec_chord(name, paths[0]) {
                Some(chord) => chord,
                None => self.first_chord(name, paths.drop_first()),
            }
        }
    }

    /// An empty registry for chords of the given shape.
    pub fn new(chord_spec: ChordSpec) -> (maps: Maps)
        requires
            chord_spec.wf(),
        ensures
            maps.wf(),
            maps.chord_spec == chord_spec,
            maps.chords.key_seq().len() == 0,
            maps.modes.key_seq().len() == 0,
            maps.spellings.key_seq().len() == 0,
            forall|i: int| 0 <= i < 5 ==> (#[trigger] maps.sequences[i]).key_seq().len() == 0,
            maps.word_mods@.len() == 0,
            maps.plain_mods@.len() == 0,
            maps.anagram_mods@.len() == 0,
            maps.commands@.len() == 0,
            maps.options@.len() == 0,
            maps.max_anagram_num == 0,
    {
        let mut sequences: Vec<StrMap<Sequence>> = Vec::new();
        let mut i: usize = 0;
        while i < 5
            invariant
                i <= 5,
                sequences.len() == i,
                forall|j: int| 0 <= j < i ==> (#[trigger] sequences[j]).wf() && sequences[j].key_seq().len() == 0,
            decreases 5 - i,
        {
            sequences.push(StrMap::new());
            i += 1;
        }
        Maps {
            chords: StrMap::new(),
            sequences,
            word_mods: Vec::new(),
            plain_mods: Vec::new(),
            anagram_mods: Vec::new(),
            modes: StrMap::new(),
            kmap_ids: StrMap::new(),
            spellings: StrMap::new(),
            commands: Vec::new(),
            options: Vec::new(),
            chord_spec,
            max_anagram_num: 0,
        }
    }

    /// Whether the shape of the chords, the options, the spellings and the
    /// lists of modifiers and commands are the same in both registries.
    pub open spec fn same_lists(&self, other: &Maps) -> bool {
        &&& self.word_mods == other.word_mods
        &&& self.plain_mods == other.plain_mods
        &&& self.anagram_mods == other.anagram_mods
        &&& self.commands == other.commands
        &&& self.spellings == other.spellings
        &&& self.options == other.options
        &&& self.chord_spec == other.chord_spec
    }

    /// Whether all but the chords is the same in both registries.
    pub open spec fn same_but_chords(&self, other: &Maps) -> bool {
        &&& self.sequences == other.sequences
        &&& self.word_mods == other.word_mods
        &&& self.plain_mods == other.plain_mods
        &&& self.anagram_mods == other.anagram_mods
        &&& self.modes == other.modes
        &&& self.kmap_ids == other.kmap_ids
        &&& self.spellings == other.spellings
        &&& self.commands == other.commands
        &&& self.options == other.options
        &&& self.chord_spec == other.chord_spec
        &&& self.max_anagram_num == other.max_anagram_num
    }

    /// Whether all but the sequences is the same in both registries.
    pub open spec fn same_but_sequences(&self, other: &Maps) -> bool {
        &&& self.chords == other.chords
        &&& self.word_mods == other.word_mods
        &&& self.plain_mods == other.plain_mods
        &&& self.anagram_mods == other.anagram_mods
        &&& self.modes == other.modes
        &&& self.kmap_ids == other.kmap_ids
        &&& self.spellings == other.spellings
        &&& self.commands == other.commands
        &&& self.options == other.options
        &&& self.chord_spec == other.chord_spec
        &&& self.max_anagram_num == other.max_anagram_num
    }

    /// Gives `name` the chord `chord` on the layout `kmap`, in place of the
    /// chord that it had there, if it had one. Fails where the layout is
    /// not known.
    pub fn add_chord(&mut self, name: Name, chord: Chord, kmap: &KmapPath) -> (r: Result<(), Error>)
        requires
            old(self).wf(),
            chord@.switches.len() == old(self).chord_spec.chord_len(),
        ensures
            final(self).wf(),
            final(self).same_but_chords(old(self)),
            final(self).chords.key_seq() == old(self).chords.key_seq(),
            !old(self).chords.has(kmap@) ==> r is Err && r->Err_0@ == (ErrorView::Lookup {
                key: kmap@,
                container: "kmaps"@,
            }) && final(self).chords == old(self).chords,
            old(self).chords.has(kmap@) ==> r is Ok && final(self).spec_chord(name@, kmap@) == Some(
                chord@,
            ) && (forall|n: Seq<char>, k: Seq<char>|
                !(n == name@ && k == kmap@) ==> #[trigger] final(self).spec_chord(n, k) == old(self).spec_chord(n, k)),
    {
        match self.chords.find(kmap.as_str()) {
            None => Err(Error::lookup(kmap.as_str(), "kmaps")),
            Some(i) => {
                let ghost outer = self.chords;
                let mut layout = self.chords.replace_at(i, StrMap::new());
                let ghost before = layout;
                assert(old(self).chords_ok(before));
                layout.insert(name.0, chord);
                proof {
                    assert forall|j: int| 0 <= j < layout.val_seq().len() implies (
                    #[trigger] layout.val_seq()[j])@.switches.len() == self.chord_spec.chord_len() by {
                        let key = layout.key_seq()[j];
                        layout.lemma_pos(j);
                        if key != name@ {
                            assert(before.has(key));
                            let p = before.pos(key);
                            assert(before.key_seq()[p] == key);
                            assert(before.val_seq()[p] == layout.val_seq()[j]);
                        }
                    }
                }
                let ghost after = layout;
                self.chords.replace_at(i, layout);
                proof {
                    assert(self.chords.key_seq() == outer.key_seq());
                    assert(self.chords.val_seq() == outer.val_seq().update(i as int, after));
                    assert forall|k: int| 0 <= k < self.chords.val_seq().len() implies self.chords_ok(
                        #[trigger] self.chords.val_seq()[k],
                    ) by {
                        if k != i {
                            assert(self.chords.val_seq()[k] == outer.val_seq()[k]);
                            assert(old(self).chords_ok(outer.val_seq()[k]));
                        }
                    }
                    assert forall|k: Seq<char>| self.chords.has(k) == outer.has(k) by {}
                    self.lemma_layout(kmap@, i as int);
                    assert forall|n: Seq<char>, k: Seq<char>| !(n == name@ && k == kmap@) implies #[trigger] self.spec_chord(
                        n,
                        k,
                    ) == old(self).spec_chord(n, k) by {
                        if outer.has(k) {
                            let p = outer.pos(k);
                            assert(outer.key_seq()[p] == k);
                            if p != i {
                                assert(self.chords.val(k) == outer.val(k));
                            } else {
                                outer.lemma_pos(i as int);
                            }
                        }
                    }
                    assert forall|a: int, b: int|
                        0 <= a < self.modes.val_seq().len() && 0 <= b < self.modes.val_seq()[a].keymaps.len()
                         implies self.chords.has(#[trigger] mode_paths(self.modes.val_seq()[a])[b]) by {
                        assert(outer.has(mode_paths(old(self).modes.val_seq()[a])[b]));
                    }
                }
                Ok(())
            },
        }
    }

    /// The layout at position `i` is the value of its key.
    pub proof fn lemma_layout(&self, kmap: Seq<char>, i: int)
        requires
            self.chords.wf(),
            0 <= i < self.chords.key_seq().len(),
            self.chords.key_seq()[i] == kmap,
        ensures
            self.chords.has(kmap),
            self.chords.val(kmap) == self.chords.val_seq()[i],
    {
        self.chords.lemma_pos(i);
    }

    /// The chord of `chord_name` on the layout `kmap`, if the layout is
    /// known and has one.
    pub fn get_chord(&self, chord_name: &Name, kmap: &KmapPath) -> (chord: Option<Chord>)
        requires
            self.wf(),
        ensures
            match self.spec_chord(chord_name@, kmap@) {
                Some(c) => chord is Some && chord->0@ == c && c.switches.len() == self.chord_spec.chord_len(),
                None => chord is None,
            },
    {
        match self.chords.find(kmap.as_str()) {
            None => None,
            Some(i) => {
                let layout = self.chords.val_at(i);
                proof {
                    assert(self.chords.key_seq()[i as int] == kmap@);
                    self.lemma_layout(kmap@, i as int);
                    assert(self.chords_ok(self.chords.val_seq()[i as int]));
                }
                match layout.find(chord_name.as_str()) {
                    None => None,
                    Some(j) => {
                        proof {
                            assert(layout.key_seq()[j as int] == chord_name@);
                            layout.lemma_pos(j as int);
                        }
                        Some(layout.val_at(j).clone())
                    },
                }
            },
        }
    }

    /// The chords of the layout `kmap`.
    pub fn get_chords(&self, kmap: &KmapPath) -> (r: Result<&StrMap<Chord>, Error>)
        requires
            self.wf(),
        ensures
            self.chords.has(kmap@) ==> r is Ok && *r->Ok_0 == self.chords.val(kmap@) && self.chords_ok(
                *r->Ok_0,
            ),
            !self.chords.has(kmap@) ==> r is Err && r->Err_0@ == (ErrorView::Lookup {
                key: kmap@,
                container: "kmaps"@,
            }),
    {
        match self.chords.find(kmap.as_str()) {
            None => Err(Error::lookup(kmap.as_str(), "kmaps")),
            Some(i) => {
                proof {
                    assert(self.chords.key_seq()[i as int] == kmap@);
                    self.lemma_layout(kmap@, i as int);
                }
                Ok(self.chords.val_at(i))
            },
        }
    }

    /// The chord of `chord_name` in the mode `mode`: that of the first of
    /// the mode's layouts that has one, and the blank chord if none has.
    /// Fails where the mode is not known.
    pub fn get_chord_in_mode(&self, chord_name: &Name, mode: &ModeName) -> (r: Result<Chord, Error>)
        requires
            self.wf(),
        ensures
            self.modes.has(mode@) ==> r is Ok && r->Ok_0@ == self.first_chord(
                chord_name@,
                mode_paths(self.modes.val(mode@)),
            ) && r->Ok_0@.switches.len() == self.chord_spec.chord_len(),
            !self.modes.has(mode@) ==> r is Err && r->Err_0@ == (ErrorView::Lookup {
                key: mode@,
                container: "modes"@,
            }),
    {
        match self.modes.get(mode.as_str()) {
            None => Err(Error::lookup(mode.as_str(), "modes")),
            Some(info) => {
                let ghost paths = mode_paths(*info);
                let mut i: usize = 0;
                assert(paths.skip(0) == paths);
                while i < info.keymaps.len()
                    invariant
                        i <= info.keymaps.len(),
                        self.wf(),
                        self.modes.has(mode@),
                        *info == self.modes.val(mode@),
                        paths == mode_paths(*info),
                        self.first_chord(chord_name@, paths) == self.first_chord(
                            chord_name@,
                            paths.skip(i as int),
                        ),
                    decreases info.keymaps.len() - i,
                {
                    proof {
                        assert(paths.skip(i as int)[0] == info.keymaps[i as int].path@);
                        assert(paths.skip(i as int).drop_first() == paths.skip(i + 1));
                    }
                    if let Some(chord) = self.get_chord(chord_name, &info.keymaps[i].path) {
                        return Ok(chord);
                    }
                    i += 1;
                }
                assert(paths.skip(i as int).len() == 0);
                Ok(self.chord_spec.blank_chord())
            },
        }
    }

    /// The sequence of `name` among those of `kind`, if there is one.
    pub open spec fn spec_seq(&self, kind: SeqType, name: Seq<char>) -> Option<Seq<KeyPressView>> {
        if self.seq_map(kind).has(name) {
            Some(self.seq_map(kind).val(name)@)
        } else {
            None
        }
    }

    /// Whether all but the sequences of `kind` is the same in both
    /// registries.
    pub open spec fn same_but_kind(&self, other: &Maps, kind: SeqType) -> bool {
        &&& self.same_but_sequences(other)
        &&& forall|k: SeqType| k != kind ==> #[trigger] self.seq_map(k) == other.seq_map(k)
    }

    /// Gives `name` the sequence `seq` among those of `kind`, in place of
    /// the one that it had, if it had one.
    pub fn put_sequence(&mut self, kind: SeqType, name: Name, seq: Sequence)
        requires
            old(self).wf(),
        ensures
            final(self).wf(),
            final(self).same_but_kind(old(self), kind),
            final(self).spec_seq(kind, name@) == Some(seq@),
            forall|n: Seq<char>| n != name@ ==> #[trigger] final(self).spec_seq(kind, n) == old(self).spec_seq(kind, n),
            old(self).seq_map(kind).has(name@) ==> final(self).seq_map(kind).key_seq() == old(self).seq_map(kind).key_seq(),
    {
        let i = kind.index();
        let ghost before = self.sequences@;
        let mut map = self.sequences.remove(i);
        map.insert(name.0, seq);
        self.sequences.insert(i, map);
        proof {
            assert(self.sequences@ =~= before.update(i as int, map));
            assert forall|j: int| 0 <= j < 5 implies (#[trigger] self.sequences[j]).wf() by {
                if j != i {
                    assert(self.sequences[j] == before[j]);
                }
            }
            assert forall|k: SeqType| k != kind implies #[trigger] self.seq_map(k) == old(self).seq_map(k) by {
                assert(k.spec_index() != kind.spec_index());
            }
        }
    }

    /// Adds the chords `new_chords` to the layout `kmap`, each under its
    /// name and in place of the chord that the name had. Fails, and adds
    /// nothing, where the layout is not known and there are chords to add.
    pub fn add_chords(&mut self, kmap: &KmapPath, new_chords: &StrMap<Chord>) -> (r: Result<(), Error>)
        requires
            old(self).wf(),
            old(self).chords_ok(*new_chords),
        ensures
            final(self).wf(),
            final(self).same_but_chords(old(self)),
            final(self).chords.key_seq() == old(self).chords.key_seq(),
            !old(self).chords.has(kmap@) && new_chords.key_seq().len() > 0 ==> r is Err && r->Err_0@ == (
            ErrorView::Lookup { key: kmap@, container: "kmaps"@ }) && final(self).chords == old(self).chords,
            old(self).chords.has(kmap@) || new_chords.key_seq().len() == 0 ==> r is Ok,
            old(self).chords.has(kmap@) ==> forall|n: Seq<char>|
                #[trigger] final(self).spec_chord(n, kmap@) == (if new_chords.has(n) {
                    Some(new_chords.val(n)@)
                } else {
                    old(self).spec_chord(n, kmap@)
                }),
            forall|n: Seq<char>, k: Seq<char>|
                k != kmap@ ==> #[trigger] final(self).spec_chord(n, k) == old(self).spec_chord(n, k),
    {
        if new_chords.len() == 0 {
            proof {
                assert forall|n: Seq<char>| !new_chords.has(n) by {}
            }
            return Ok(());
        }
        if !self.chords.contains_key(kmap.as_str()) {
            return Err(Error::lookup(kmap.as_str(), "kmaps"));
        }
        let ghost keys = new_chords.key_seq();
        let mut i: usize = 0;
        while i < new_chords.len()
            invariant
                i <= keys.len(),
                keys == new_chords.key_seq(),
                new_chords.wf(),
                old(self).chords_ok(*new_chords),
                self.wf(),
                self.same_but_chords(old(self)),
                self.chords.key_seq() == old(self).chords.key_seq(),
                old(self).chords.has(kmap@),
                forall|n: Seq<char>|
                    #[trigger] self.spec_chord(n, kmap@) == (if exists|j: int|
                        0 <= j < i && #[trigger] keys[j] == n {
                        Some(new_chords.val(n)@)
                    } else {
                        old(self).spec_chord(n, kmap@)
                    }),
                forall|n: Seq<char>, k: Seq<char>|
                    k != kmap@ ==> #[trigger] self.spec_chord(n, k) == old(self).spec_chord(n, k),
            decreases keys.len() - i,
        {
            let name = Name(new_chords.key_at(i).clone());
            let chord = new_chords.val_at(i).clone();
            let ghost before = *self;
            proof {
                new_chords.lemma_pos(i as int);
                assert(new_chords.val_seq()[i as int]@.switches.len() == self.chord_spec.chord_len());
            }
            let added = self.add_chord(name, chord, kmap);
            proof {
                assert forall|n: Seq<char>| #[trigger] self.spec_chord(n, kmap@) == (if exists|j: int|
                    0 <= j < i + 1 && #[trigger] keys[j] == n {
                    Some(new_chords.val(n)@)
                } else {
                    old(self).spec_chord(n, kmap@)
                }) by {
                    if n == keys[i as int] {
                        assert(0 <= i < i + 1 && keys[i as int] == n);
                    } else {
                        assert(self.spec_chord(n, kmap@) == before.spec_chord(n, kmap@));
                        if exists|j: int| 0 <= j < i + 1 && #[trigger] keys[j] == n {
                            let j = choose|j: int| 0 <= j < i + 1 && #[trigger] keys[j] == n;
                            assert(0 <= j < i && keys[j] == n);
                        }
                    }
                }
                assert forall|n: Seq<char>, k: Seq<char>| k != kmap@ implies #[trigger] self.spec_chord(n, k)
                    == old(self).spec_chord(n, k) by {
                    assert(self.spec_chord(n, k) == before.spec_chord(n, k));
                }
            }
            i += 1;
        }
        proof {
            assert forall|n: Seq<char>| #[trigger] self.spec_chord(n, kmap@) == (if new_chords.has(n) {
                Some(new_chords.val(n)@)
            } else {
                old(self).spec_chord(n, kmap@)
            }) by {
                if new_chords.has(n) {
                    let j = new_chords.pos(n);
                    assert(0 <= j < i && keys[j] == n);
                }
            }
        }
        Ok(())
    }

    /// Registers the command `entry`, stored as one press that carries
    /// `code` in place of a key. A command that is already registered is
    /// rejected, and the registry stays as it is.
    pub fn add_command_code(&mut self, entry: &Name, code: CCode) -> (r: Result<(), Error>)
        requires
            old(self).wf(),
        ensures
            final(self).wf(),
            old(self).seq_map(SeqType::Command).has(entry@) ==> r is Err && r->Err_0@ == (
            ErrorView::Duplicate { key: entry@, container: "commands map"@ }) && *final(self) == *old(self),
            !old(self).seq_map(SeqType::Command).has(entry@) ==> r is Ok && final(self).spec_seq(
                SeqType::Command,
                entry@,
            ) == Some(seq![KeyPressView { key: Some(code@), mods: Seq::empty() }]) && (forall|n: Seq<char>|
                n != entry@ ==> #[trigger] final(self).spec_seq(SeqType::Command, n) == old(self).spec_seq(
                    SeqType::Command,
                    n,
                )) && final(self).chords == old(self).chords && name_views(final(self).commands@)
                == name_views(old(self).commands@).push(entry@) && (forall|k: SeqType|
                k != SeqType::Command ==> #[trigger] final(self).seq_map(k) == old(self).seq_map(k)),
            final(self).chords == old(self).chords,
            final(self).modes == old(self).modes,
            final(self).word_mods == old(self).word_mods,
            final(self).plain_mods == old(self).plain_mods,
            final(self).anagram_mods == old(self).anagram_mods,
            final(self).spellings == old(self).spellings,
            final(self).options == old(self).options,
            final(self).chord_spec == old(self).chord_spec,
            final(self).kmap_ids == old(self).kmap_ids,
            final(self).max_anagram_num == old(self).max_anagram_num,
    {
        if self.sequences[SeqType::Command.index()].contains_key(entry.as_str()) {
            return Err(Error::duplicate(entry.as_str(), "commands map"));
        }
        let mut fake_seq_with_command_code = Sequence::new();
        fake_seq_with_command_code.push(KeyPress::new_fake(code.as_str()));
        assert(fake_seq_with_command_code@ =~= seq![
            KeyPressView { key: Some(code@), mods: Seq::empty() },
        ]);
        self.put_sequence(SeqType::Command, entry.clone(), fake_seq_with_command_code);
        let ghost between = *self;
        self.commands.push(entry.clone());
        proof {
            assert(name_views(self.commands@) =~= name_views(old(self).commands@).push(entry@));
            assert(self.sequences == between.sequences);
            assert(self.spec_seq(SeqType::Command, entry@) == between.spec_seq(SeqType::Command, entry@));
            assert(self.chords == old(self).chords);
            assert forall|n: Seq<char>| n != entry@ implies #[trigger] self.spec_seq(SeqType::Command, n)
                == old(self).spec_seq(SeqType::Command, n) by {
                assert(self.spec_seq(SeqType::Command, n) == between.spec_seq(SeqType::Command, n));
            }
            assert forall|k: SeqType| k != SeqType::Command implies #[trigger] self.seq_map(k) == old(self).seq_map(k) by {
                assert(between.seq_map(k) == old(self).seq_map(k));
            }
        }
        Ok(())
    }

    /// Registers the command `entry`. Its code is its name in upper case.
    pub fn add_command(&mut self, entry: &Name) -> (r: Result<(), Error>)
        requires
            old(self).wf(),
        ensures
            final(self).wf(),
            old(self).seq_map(SeqType::Command).has(entry@) ==> r is Err && r->Err_0@ == (
            ErrorView::Duplicate { key: entry@, container: "commands map"@ }) && *final(self) == *old(self),
            !old(self).seq_map(SeqType::Command).has(entry@) ==> r is Ok && final(self).spec_seq(
                SeqType::Command,
                entry@,
            ) == Some(seq![KeyPressView { key: Some(uppercase_of(entry@)), mods: Seq::empty() }])
                && (forall|n: Seq<char>|
                n != entry@ ==> #[trigger] final(self).spec_seq(SeqType::Command, n) == old(self).spec_seq(
                    SeqType::Command,
                    n,
                )) && final(self).chords == old(self).chords && name_views(final(self).commands@)
                == name_views(old(self).commands@).push(entry@) && (forall|k: SeqType|
                k != SeqType::Command ==> #[trigger] final(self).seq_map(k) == old(self).seq_map(k)),
            final(self).chords == old(self).chords,
            final(self).modes == old(self).modes,
            final(self).word_mods == old(self).word_mods,
            final(self).plain_mods == old(self).plain_mods,
            final(self).anagram_mods == old(self).anagram_mods,
            final(self).spellings == old(self).spellings,
            final(self).options == old(self).options,
            final(self).chord_spec == old(self).chord_spec,
            final(self).kmap_ids == old(self).kmap_ids,
            final(self).max_anagram_num == old(self).max_anagram_num,
    {
        let code = CCode(to_uppercase(entry.as_str()));
        self.add_command_code(entry, code)
    }

    /// Registers the plain modifier `name`, typed by `seq`.
    pub fn add_modifierkey(&mut self, name: Name, seq: &Sequence)
        requires
            old(self).wf(),
        ensures
            final(self).wf(),
            final(self).chords == old(self).chords,
            final(self).word_mods == old(self).word_mods,
            final(self).anagram_mods == old(self).anagram_mods,
            final(self).modes == old(self).modes,
            final(self).commands == old(self).commands,
            final(self).spellings == old(self).spellings,
            final(self).options == old(self).options,
            final(self).chord_spec == old(self).chord_spec,
            final(self).kmap_ids == old(self).kmap_ids,
            final(self).max_anagram_num == old(self).max_anagram_num,
            name_views(final(self).plain_mods@) == name_views(old(self).plain_mods@).push(name@),
            final(self).spec_seq(SeqType::Plain, name@) == Some(seq@),
            forall|n: Seq<char>|
                n != name@ ==> #[trigger] final(self).spec_seq(SeqType::Plain, n) == old(self).spec_seq(
                    SeqType::Plain,
                    n,
                ),
            forall|k: SeqType| k != SeqType::Plain ==> #[trigger] final(self).seq_map(k) == old(self).seq_map(k),
    {
        self.plain_mods.push(name.clone());
        assert(name_views(self.plain_mods@) =~= name_views(old(self).plain_mods@).push(name@));
        self.put_sequence(SeqType::Plain, name, seq.clone());
    }

    /// Registers the mode `name` and, for each of its layouts that is new,
    /// an empty layout under the next short name. A mode that is already
    /// registered is rejected, and the registry stays as it is.
    pub fn add_mode(&mut self, name: ModeName, info: ModeInfo) -> (r: Result<(), Error>)
        requires
            old(self).wf(),
        ensures
            final(self).wf(),
            final(self).sequences == old(self).sequences,
            final(self).same_lists(old(self)),
            final(self).max_anagram_num == old(self).max_anagram_num,
            old(self).modes.has(name@) ==> r is Err && r->Err_0@ == (ErrorView::Duplicate {
                key: name@,
                container: "modes"@,
            }) && *final(self) == *old(self),
            !old(self).modes.has(name@) ==> r is Ok && final(self).modes.has(name@) && final(self).modes.val(name@) == info && (forall|m: Seq<char>|
                final(self).modes.has(m) == (m == name@ || old(self).modes.has(m))) && (forall|m: Seq<char>|
                m != name@ && old(self).modes.has(m) ==> final(self).modes.val(m) == old(self).modes.val(m))
                && (forall|k: Seq<char>|
                #[trigger] final(self).chords.has(k) == (old(self).chords.has(k) || mode_paths(info).contains(
                    k,
                ))) && (forall|n: Seq<char>, k: Seq<char>|
                old(self).chords.has(k) ==> #[trigger] final(self).spec_chord(n, k) == old(self).spec_chord(
                    n,
                    k,
                )) && (forall|n: Seq<char>, k: Seq<char>|
                !old(self).chords.has(k) ==> #[trigger] final(self).spec_chord(n, k) is None) && (forall|
                k: Seq<char>,
            |
                old(self).kmap_ids.has(k) ==> final(self).kmap_ids.val(k) == old(self).kmap_ids.val(k))
                && (forall|k: Seq<char>|
                #![trigger final(self).kmap_ids.val(k)]
                final(self).kmap_ids.has(k) && !old(self).kmap_ids.has(k) ==> is_nickname(
                    final(self).kmap_ids.val(k)@,
                    old(self).kmap_ids.key_seq().len(),
                    final(self).kmap_ids.key_seq().len(),
                )),
            !old(self).modes.has(name@) ==> forall|order: Seq<Seq<char>>|
                #[trigger] numbered(old(self).kmap_ids, order) ==> numbered(
                    final(self).kmap_ids,
                    registered(order, mode_paths(info), info.keymaps.len() as int),
                ),
    {
        if self.modes.contains_key(name.as_str()) {
            return Err(Error::duplicate(name.as_str(), "modes"));
        }
        let ghost paths = mode_paths(info);
        let mut i: usize = 0;
        while i < info.keymaps.len()
            invariant
                i <= info.keymaps.len(),
                paths == mode_paths(info),
                self.wf(),
                self.sequences == old(self).sequences,
                self.same_lists(old(self)),
                self.max_anagram_num == old(self).max_anagram_num,
                self.modes == old(self).modes,
                forall|k: Seq<char>|
                    #[trigger] self.chords.has(k) == (old(self).chords.has(k) || paths.take(i as int).contains(
                        k,
                    )),
                forall|n: Seq<char>, k: Seq<char>|
                    old(self).chords.has(k) ==> #[trigger] self.spec_chord(n, k) == old(self).spec_chord(n, k),
                forall|n: Seq<char>, k: Seq<char>|
                    !old(self).chords.has(k) ==> #[trigger] self.spec_chord(n, k) is None,
                old(self).kmap_ids.key_seq().len() <= self.kmap_ids.key_seq().len(),
                forall|order: Seq<Seq<char>>|
                    #[trigger] numbered(old(self).kmap_ids, order) ==> numbered(
                        self.kmap_ids,
                        registered(order, paths, i as int),
                    ),
                forall|k: Seq<char>|
                    old(self).kmap_ids.has(k) ==> self.kmap_ids.has(k) && self.kmap_ids.val(k) == old(self).kmap_ids.val(k),
                forall|k: Seq<char>|
                    #![trigger self.kmap_ids.val(k)]
                    self.kmap_ids.has(k) && !old(self).kmap_ids.has(k) ==> is_nickname(
                        self.kmap_ids.val(k)@,
                        old(self).kmap_ids.key_seq().len(),
                        self.kmap_ids.key_seq().len(),
                    ),
            decreases info.keymaps.len() - i,
        {
            let kmap_path = &info.keymaps[i].path;
            assert(paths[i as int] == kmap_path@);
            assert(paths.take(i + 1) == paths.take(i as int).push(kmap_path@));
            if !self.kmap_ids.contains_key(kmap_path.as_str()) {
                let ghost before = *self;
                self.chords.insert(kmap_path.0.clone(), StrMap::new());
                let short = concat2("kmap", decimal_string(self.kmap_ids.len()).as_str());
                self.kmap_ids.insert(kmap_path.0.clone(), short);
                proof {
                    let count = before.kmap_ids.key_seq().len();
                    assert(self.kmap_ids.val(kmap_path@)@ == nickname(count));
                    assert(self.kmap_ids.key_seq().len() == count + 1);
                    assert forall|order: Seq<Seq<char>>| #[trigger]
                        numbered(old(self).kmap_ids, order) implies numbered(
                        self.kmap_ids,
                        registered(order, paths, i + 1),
                    ) by {
                        let was = registered(order, paths, i as int);
                        assert(numbered(before.kmap_ids, was));
                        assert(!was.contains(kmap_path@));
                        let now = was.push(kmap_path@);
                        assert(registered(order, paths, i + 1) == now);
                        assert forall|a: int, b: int| 0 <= a < b < now.len() implies now[a] != now[b] by {
                            if b == was.len() {
                                assert(was[a] != kmap_path@);
                            }
                        }
                        assert forall|k: Seq<char>| self.kmap_ids.has(k) == now.contains(k) by {
                            if k == kmap_path@ {
                                assert(now[was.len() as int] == k);
                            } else {
                                assert(self.kmap_ids.has(k) == before.kmap_ids.has(k));
                                if was.contains(k) {
                                    let w = was.index_of(k);
                                    assert(now[w] == k);
                                }
                                if now.contains(k) {
                                    let w = now.index_of(k);
                                    assert(was[w] == k);
                                }
                            }
                        }
                        assert forall|j: int| 0 <= j < now.len() implies self.kmap_ids.val(#[trigger] now[j])@
                            == nickname(j as nat) by {
                            if j < was.len() {
                                assert(was[j] != kmap_path@);
                                assert(before.kmap_ids.has(was[j]));
                                assert(self.kmap_ids.val(was[j]) == before.kmap_ids.val(was[j]));
                            }
                        }
                    }
                    assert forall|k: Seq<char>|
                        #![trigger self.kmap_ids.val(k)]
                        self.kmap_ids.has(k) && !old(self).kmap_ids.has(k) implies is_nickname(
                        self.kmap_ids.val(k)@,
                        old(self).kmap_ids.key_seq().len(),
                        self.kmap_ids.key_seq().len(),
                    ) by {
                        if k == kmap_path@ {
                            assert(self.kmap_ids.val(k)@ == nickname(count));
                        } else {
                            assert(before.kmap_ids.has(k));
                            assert(self.kmap_ids.val(k) == before.kmap_ids.val(k));
                            lemma_nickname_wider(
                                before.kmap_ids.val(k)@,
                                old(self).kmap_ids.key_seq().len(),
                                count,
                                count + 1,
                            );
                        }
                    }
                    assert(!before.chords.has(kmap_path@));
                    let p = rank(before.chords.key_seq(), kmap_path@);
                    assert(self.chords.key_seq() == before.chords.key_seq().insert(p, kmap_path@));
                    let fresh = self.chords.val(kmap_path@);
                    assert(fresh.key_seq().len() == 0);
                    assert forall|a: int| 0 <= a < self.chords.val_seq().len() implies self.chords_ok(
                        #[trigger] self.chords.val_seq()[a],
                    ) by {
                        if a < p {
                            assert(self.chords.val_seq()[a] == before.chords.val_seq()[a]);
                        } else if a > p {
                            assert(self.chords.val_seq()[a] == before.chords.val_seq()[a - 1]);
                        } else {
                            self.chords.lemma_pos(p);
                        }
                    }
                    assert forall|a: int, b: int|
                        0 <= a < self.modes.val_seq().len() && 0 <= b < self.modes.val_seq()[a].keymaps.len()
                         implies self.chords.has(#[trigger] mode_paths(self.modes.val_seq()[a])[b]) by {
                        assert(before.chords.has(mode_paths(before.modes.val_seq()[a])[b]));
                    }
                    assert forall|n: Seq<char>, k: Seq<char>| old(self).chords.has(k) implies #[trigger] self.spec_chord(
                        n,
                        k,
                    ) == old(self).spec_chord(n, k) by {
                        assert(before.chords.has(k));
                        assert(k != kmap_path@);
                        assert(self.chords.val(k) == before.chords.val(k));
                        assert(before.spec_chord(n, k) == old(self).spec_chord(n, k));
                    }
                    assert forall|n: Seq<char>, k: Seq<char>| !old(self).chords.has(k) implies #[trigger] self.spec_chord(
                        n,
                        k,
                    ) is None by {
                        if k == kmap_path@ {
                            assert(!fresh.has(n));
                        } else if before.chords.has(k) {
                            assert(self.chords.val(k) == before.chords.val(k));
                            assert(before.spec_chord(n, k) is None);
                        }
                    }
                }
            } else {
                proof {
                    assert(self.chords.has(kmap_path@));
                    assert forall|order: Seq<Seq<char>>| #[trigger]
                        numbered(old(self).kmap_ids, order) implies numbered(
                        self.kmap_ids,
                        registered(order, paths, i + 1),
                    ) by {
                        let was = registered(order, paths, i as int);
                        assert(numbered(self.kmap_ids, was));
                        assert(was.contains(kmap_path@));
                    }
                    assert forall|k: Seq<char>| #[trigger] self.chords.has(k) == (old(self).chords.has(k)
                        || paths.take(i + 1).contains(k)) by {
                        if paths.take(i + 1).contains(k) && !paths.take(i as int).contains(k) {
                            let w = paths.take(i + 1).index_of(k);
                            assert(w == i);
                        }
                        if paths.take(i as int).contains(k) {
                            let w = paths.take(i as int).index_of(k);
                            assert(paths.take(i + 1)[w] == k);
                        }
                    }
                }
            }
            proof {
                assert forall|k: Seq<char>| #[trigger] self.chords.has(k) == (old(self).chords.has(k)
                    || paths.take(i + 1).contains(k)) by {
                    if paths.take(i + 1).contains(k) && !paths.take(i as int).contains(k) {
                        let w = paths.take(i + 1).index_of(k);
                        assert(w == i);
                    }
                    if paths.take(i as int).contains(k) {
                        let w = paths.take(i as int).index_of(k);
                        assert(paths.take(i + 1)[w] == k);
                    }
                    if k == kmap_path@ {
                        assert(paths.take(i + 1)[i as int] == k);
                    }
                }
            }
            i += 1;
        }
        assert(paths.take(i as int) == paths);
        let ghost before = *self;
        let ghost wanted = info;
        self.modes.insert(name.0, info);
        proof {
            assert forall|a: int, b: int|
                0 <= a < self.modes.val_seq().len() && 0 <= b < self.modes.val_seq()[a].keymaps.len()
                 implies self.chords.has(#[trigger] mode_paths(self.modes.val_seq()[a])[b]) by {
                let p = rank(before.modes.key_seq(), name@);
                if a < p {
                    assert(self.modes.val_seq()[a] == before.modes.val_seq()[a]);
                    assert(before.chords.has(mode_paths(before.modes.val_seq()[a])[b]));
                } else if a > p {
                    assert(self.modes.val_seq()[a] == before.modes.val_seq()[a - 1]);
                    assert(before.chords.has(mode_paths(before.modes.val_seq()[a - 1])[b]));
                } else {
                    assert(self.modes.val_seq()[a] == wanted);
                    assert(paths.contains(paths[b]));
                }
            }
            assert(self.modes.has(name@));
            assert(self.modes.val(name@) == info);
            assert forall|k: Seq<char>| #[trigger] self.chords.has(k) == (old(self).chords.has(k)
                || mode_paths(info).contains(k)) by {
                assert(before.chords.has(k) == (old(self).chords.has(k) || paths.contains(k)));
            }
            assert forall|n: Seq<char>, k: Seq<char>| old(self).chords.has(k) implies #[trigger] self.spec_chord(
                n,
                k,
            ) == old(self).spec_chord(n, k) by {
                assert(before.spec_chord(n, k) == old(self).spec_chord(n, k));
            }
            assert forall|n: Seq<char>, k: Seq<char>| !old(self).chords.has(k) implies #[trigger] self.spec_chord(
                n,
                k,
            ) is None by {
                assert(before.spec_chord(n, k) is None);
            }
        }
        Ok(())
    }

    /// Says that `spelling` is typed by the chord called `name`.
    pub fn add_spelling(&mut self, spelling: &str, name: Name)
        requires
            old(self).wf(),
        ensures
            final(self).wf(),
            final(self).chords == old(self).chords,
            final(self).sequences == old(self).sequences,
            final(self).modes == old(self).modes,
            final(self).word_mods == old(self).word_mods,
            final(self).plain_mods == old(self).plain_mods,
            final(self).anagram_mods == old(self).anagram_mods,
            final(self).commands == old(self).commands,
            final(self).options == old(self).options,
            final(self).chord_spec == old(self).chord_spec,
            final(self).kmap_ids == old(self).kmap_ids,
            final(self).max_anagram_num == old(self).max_anagram_num,
            final(self).spellings.has(spelling@),
            final(self).spellings.val(spelling@) == name,
            forall|k: Seq<char>| final(self).spellings.has(k) == (k == spelling@ || old(self).spellings.has(k)),
            forall|k: Seq<char>|
                k != spelling@ && old(self).spellings.has(k) ==> final(self).spellings.val(k) == old(self).spellings.val(k),
    {
        self.spellings.insert(spelling.to_owned(), name);
    }

    /// The name of the chord that types `spelling`.
    pub fn name_from_spelling(&self, spelling: &str) -> (r: Result<Name, Error>)
        requires
            self.wf(),
        ensures
            self.spellings.has(spelling@) ==> r is Ok && r->Ok_0@ == self.spellings.val(spelling@)@,
            !self.spellings.has(spelling@) ==> r is Err && r->Err_0@ == (ErrorView::Lookup {
                key: spelling@,
                container: "spellings"@,
            }),
    {
        match self.spellings.get(spelling) {
            Some(name) => Ok(name.clone()),
            None => Err(Error::lookup(spelling, "spellings")),
        }
    }

    /// One more than the largest anagram number of the words: the size of
    /// the firmware's table of anagrams.
    pub fn get_num_anagrams(&self) -> (n: u8)
        requires
            self.wf(),
        ensures
            n == self.max_anagram_num + 1,
    {
        self.max_anagram_num + 1
    }

    /// The sequences of `seq_type`.
    pub fn get_sequences(&self, seq_type: &SeqType) -> (map: &StrMap<Sequence>)
        requires
            self.wf(),
        ensures
            *map == self.seq_map(*seq_type),
            map.wf(),
    {
        &self.sequences[seq_type.index()]
    }

    /// Gives the registry the sequences of `seq_type`, which it must not
    /// have any of yet.
    pub fn set_sequences(&mut self, seq_type: &SeqType, val: StrMap<Sequence>) -> (r: Result<(), Error>)
        requires
            old(self).wf(),
            val.wf(),
        ensures
            final(self).wf(),
            old(self).seq_map(*seq_type).key_seq().len() > 0 ==> r is Err && r->Err_0@ == (
            ErrorView::Duplicate { key: seq_type.spec_c_name(), container: "sequences"@ }) && *final(self)
                == *old(self),
            old(self).seq_map(*seq_type).key_seq().len() == 0 ==> r is Ok && final(self).seq_map(*seq_type)
                == val && final(self).same_but_kind(old(self), *seq_type),
    {
        let i = seq_type.index();
        if self.sequences[i].len() > 0 {
            return Err(Error::duplicate(seq_type.c_name().as_str(), "sequences"));
        }
        let ghost before = self.sequences@;
        self.sequences.remove(i);
        self.sequences.insert(i, val);
        proof {
            assert(self.sequences@ =~= before.update(i as int, val));
            assert forall|j: int| 0 <= j < 5 implies (#[trigger] self.sequences[j]).wf() by {
                if j != i {
                    assert(self.sequences[j] == before[j]);
                }
            }
            assert forall|k: SeqType| k != *seq_type implies #[trigger] self.seq_map(k) == old(self).seq_map(
                k,
            ) by {
                assert(k.spec_index() != seq_type.spec_index());
            }
        }
        Ok(())
    }

    /// The kinds of sequence, in the order in which their tables are
    /// emitted.
    pub fn get_seq_types(&self) -> (kinds: Vec<SeqType>)
        ensures
            kinds@ == SeqType::all(),
    {
        let mut kinds: Vec<SeqType> = Vec::new();
        kinds.push(SeqType::Plain);
        kinds.push(SeqType::Word);
        kinds.push(SeqType::Macro);
        kinds.push(SeqType::Command);
        kinds.push(SeqType::Special);
        assert(kinds@ =~= SeqType::all());
        kinds
    }

    /// The sequence of `name` in the first kind, from position `from` on,
    /// that has one.
    pub open spec fn first_seq(&self, name: Seq<char>, from: int) -> Option<Seq<KeyPressView>>
        decreases 5 - from,
    {
        if from < 0 || from >= 5 {
            None
        } else if self.sequences[from].has(name) {
            Some(self.sequences[from].val(name)@)
        } else {
            self.first_seq(name, from + 1)
        }
    }

    /// The sequence of `name`, of whatever kind: that of the first kind
    /// that has one.
    pub fn get_sequence(&self, name: &Name) -> (found: Option<&Sequence>)
        requires
            self.wf(),
        ensures
            match self.first_seq(name@, 0) {
                Some(seq) => found is Some && found->0@ == seq,
                None => found is None,
            },
    {
        let mut i: usize = 0;
        while i < 5
            invariant
                i <= 5,
                self.wf(),
                self.first_seq(name@, 0) == self.first_seq(name@, i as int),
            decreases 5 - i,
        {
            if let Some(seq) = self.sequences[i].get(name.as_str()) {
                return Some(seq);
            }
            i += 1;
        }
        None
    }

    /// The modifiers of the plain modifier `name`, as code, or why they
    /// cannot be had: the name has no sequence, or its sequence is not one
    /// press without a key.
    pub open spec fn spec_mod_key(&self, name: Seq<char>) -> Result<Seq<char>, ErrorView> {
        match self.first_seq(name, 0) {
            None => Err(ErrorView::Lookup { key: name, container: "sequences"@ }),
            Some(seq) => if seq.len() == 1 && seq[0].key is None {
                Ok(seq[0].mods_code())
            } else {
                Err(ErrorView::BadValue { thing: "modifierkey sequence"@, value: name })
            },
        }
    }

    /// The modifiers of the plain modifier `name`, as code: its sequence
    /// must be one press without a key.
    pub fn get_mod_key(&self, name: &Name) -> (r: Result<CCode, Error>)
        requires
            self.wf(),
        ensures
            match self.spec_mod_key(name@) {
                Ok(code) => r is Ok && r->Ok_0@ == code,
                Err(e) => r is Err && r->Err_0@ == e,
            },
    {
        match self.get_sequence(name) {
            None => Err(Error::lookup(name.as_str(), "sequences")),
            Some(seq) => {
                if seq.len() == 1 && seq.0[0].key.is_none() {
                    assert(seq@[0] == seq.0[0]@);
                    Ok(seq.0[0].format_mods())
                } else {
                    proof {
                        if seq@.len() == 1 {
                            assert(seq@[0] == seq.0[0]@);
                        }
                    }
                    Err(Error::bad_value("modifierkey sequence", name.as_str()))
                }
            },
        }
    }

    /// The chords of `names` in the mode `mode`, in their order.
    pub fn chords_in_mode(&self, names: &Vec<Name>, mode: &ModeName) -> (r: Result<Vec<Chord>, Error>)
        requires
            self.wf(),
        ensures
            self.modes.has(mode@) ==> r is Ok && r->Ok_0@.len() == names.len() && (forall|i: int|
                0 <= i < names.len() ==> (#[trigger] r->Ok_0@[i])@ == self.first_chord(
                    names[i]@,
                    mode_paths(self.modes.val(mode@)),
                )),
            !self.modes.has(mode@) ==> r is Err && r->Err_0@ == (ErrorView::Lookup {
                key: mode@,
                container: "modes"@,
            }),
    {
        if !self.modes.contains_key(mode.as_str()) {
            return Err(Error::lookup(mode.as_str(), "modes"));
        }
        let mut out: Vec<Chord> = Vec::new();
        let mut i: usize = 0;
        while i < names.len()
            invariant
                i <= names.len(),
                self.wf(),
                self.modes.has(mode@),
                out.len() == i,
                forall|j: int|
                    0 <= j < i ==> (#[trigger] out@[j])@ == self.first_chord(
                        names[j]@,
                        mode_paths(self.modes.val(mode@)),
                    ),
            decreases names.len() - i,
        {
            match self.get_chord_in_mode(&names[i], mode) {
                Ok(chord) => {
                    out.push(chord);
                },
                Err(e) => {
                    return Err(e);
                },
            }
            i += 1;
        }
        Ok(out)
    }

    /// The chords of the anagram modifiers in the mode `mode`.
    pub fn get_anagrams(&self, mode: &ModeName) -> (r: Result<Vec<Chord>, Error>)
        requires
            self.wf(),
        ensures
            self.modes.has(mode@) ==> r is Ok && r->Ok_0@.len() == self.anagram_mods.len() && (forall|i: int|
                0 <= i < self.anagram_mods.len() ==> (#[trigger] r->Ok_0@[i])@ == self.first_chord(
                    self.anagram_mods[i]@,
                    mode_paths(self.modes.val(mode@)),
                )),
            !self.modes.has(mode@) ==> r is Err && r->Err_0@ == (ErrorView::Lookup {
                key: mode@,
                container: "modes"@,
            }),
    {
        self.chords_in_mode(&self.anagram_mods, mode)
    }

    /// The names of all the modifiers, in order.
    pub open spec fn spec_mod_names(&self) -> Seq<Seq<char>> {
        in_order(
            name_views(self.plain_mods@) + name_views(self.word_mods@) + name_views(self.anagram_mods@),
        )
    }

    /// The names of all the modifiers, plain, of words and of anagrams, in
    /// order.
    pub fn get_mod_names(&self) -> (names: Vec<Name>)
        ensures
            name_views(names@) == self.spec_mod_names(),
    {
        let mut all = clone_names(&self.plain_mods);
        let mut more = clone_names(&self.word_mods);
        let ghost a = all@;
        let ghost b = more@;
        all.append(&mut more);
        assert(name_views(all@) =~= name_views(a) + name_views(b));
        let mut last = clone_names(&self.anagram_mods);
        let ghost c = last@;
        let ghost ab = all@;
        all.append(&mut last);
        assert(name_views(all@) =~= name_views(ab) + name_views(c));
        sort_names(&all)
    }

    /// The chords of all the modifiers in the mode `mode`, in the order of
    /// their names.
    pub fn get_mod_chords(&self, mode: &ModeName) -> (r: Result<Vec<Chord>, Error>)
        requires
            self.wf(),
        ensures
            self.modes.has(mode@) ==> r is Ok && r->Ok_0@.len() == self.spec_mod_names().len() && (forall|
                i: int,
            |
                0 <= i < self.spec_mod_names().len() ==> (#[trigger] r->Ok_0@[i])@ == self.first_chord(
                    self.spec_mod_names()[i],
                    mode_paths(self.modes.val(mode@)),
                )),
            !self.modes.has(mode@) ==> r is Err && r->Err_0@ == (ErrorView::Lookup {
                key: mode@,
                container: "modes"@,
            }),
    {
        let names = self.get_mod_names();
        assert(name_views(names@).len() == names.len());
        assert forall|i: int| 0 <= i < names.len() implies names[i]@ == self.spec_mod_names()[i] by {
            assert(name_views(names@)[i] == names[i]@);
        }
        self.chords_in_mode(&names, mode)
    }

    /// The paths of the layouts, in order.
    pub fn get_kmap_paths(&self) -> (paths: Vec<KmapPath>)
        requires
            self.wf(),
        ensures
            paths@.map_values(|p: KmapPath| p@) == self.kmap_ids.key_seq(),
    {
        let mut paths: Vec<KmapPath> = Vec::new();
        let mut i: usize = 0;
        while i < self.kmap_ids.len()
            invariant
                i <= self.kmap_ids.key_seq().len(),
                self.wf(),
                paths.len() == i,
                forall|j: int| 0 <= j < i ==> paths[j]@ == self.kmap_ids.key_seq()[j],
            decreases self.kmap_ids.key_seq().len() - i,
        {
            paths.push(KmapPath(self.kmap_ids.key_at(i).clone()));
            i += 1;
        }
        assert(paths@.map_values(|p: KmapPath| p@) =~= self.kmap_ids.key_seq());
        paths
    }

    /// The paths of the layouts of the mode `mode`, in their order.
    pub fn get_kmaps_for_mode(&self, mode: &ModeName) -> (r: Result<Vec<KmapPath>, Error>)
        requires
            self.wf(),
        ensures
            self.modes.has(mode@) ==> r is Ok && r->Ok_0@.map_values(|p: KmapPath| p@) == mode_paths(
                self.modes.val(mode@),
            ),
            !self.modes.has(mode@) ==> r is Err && r->Err_0@ == (ErrorView::Lookup {
                key: mode@,
                container: "modes"@,
            }),
    {
        match self.modes.get(mode.as_str()) {
            None => Err(Error::lookup(mode.as_str(), "modes")),
            Some(info) => {
                let mut paths: Vec<KmapPath> = Vec::new();
                let mut i: usize = 0;
                while i < info.keymaps.len()
                    invariant
                        i <= info.keymaps.len(),
                        paths.len() == i,
                        forall|j: int| 0 <= j < i ==> paths[j]@ == info.keymaps[j].path@,
                    decreases info.keymaps.len() - i,
                {
                    paths.push(info.keymaps[i].path.clone());
                    i += 1;
                }
                assert(paths@.map_values(|p: KmapPath| p@) =~= mode_paths(*info));
                Ok(paths)
            },
        }
    }

    /// The paths of the layouts of the first `n` modes on which words are
    /// typed.
    pub open spec fn modes_word_paths(&self, n: int) -> Seq<Seq<char>> {
        word_layouts(self.modes, n)
    }

    /// The paths of the layouts on which words are typed: for each mode, in
    /// the order of the modes' names, those of its layouts that say so.
    pub fn get_kmaps_with_words(&self) -> (paths: Vec<KmapPath>)
        requires
            self.wf(),
        ensures
            paths@.map_values(|p: KmapPath| p@) == self.modes_word_paths(self.modes.key_seq().len() as int),
    {
        let mut out: Vec<KmapPath> = Vec::new();
        let mut m: usize = 0;
        assert(out@.map_values(|p: KmapPath| p@) =~= self.modes_word_paths(0));
        while m < self.modes.len()
            invariant
                m <= self.modes.key_seq().len(),
                self.wf(),
                out@.map_values(|p: KmapPath| p@) == self.modes_word_paths(m as int),
            decreases self.modes.key_seq().len() - m,
        {
            let info = self.modes.val_at(m);
            let ghost before = out@.map_values(|p: KmapPath| p@);
            let mut i: usize = 0;
            assert(out@.map_values(|p: KmapPath| p@) =~= before + word_paths(*info, 0));
            while i < info.keymaps.len()
                invariant
                    i <= info.keymaps.len(),
                    out@.map_values(|p: KmapPath| p@) == before + word_paths(*info, i as int),
                decreases info.keymaps.len() - i,
            {
                if info.keymaps[i].use_words {
                    let ghost prev = out@;
                    let path = info.keymaps[i].path.clone();
                    out.push(path);
                    proof {
                        assert(out@ == prev.push(path));
                        assert(out@.map_values(|p: KmapPath| p@) =~= prev.map_values(|p: KmapPath| p@).push(
                            path@,
                        ));
                        assert(word_paths(*info, i + 1) == word_paths(*info, i as int).push(
                            path@,
                        ));
                        assert(out@.map_values(|p: KmapPath| p@) =~= before + word_paths(*info, i + 1));
                    }
                }
                i += 1;
            }
            m += 1;
        }
        out
    }

    /// Whether this registry is `before` with `word` added to the layout
    /// `kmap`: its sequence among the words, its chord on the layout, and
    /// its anagram number taken into the largest; all else as before.
    pub open spec fn with_word(&self, before: &Maps, kmap: Seq<char>, word: crate::types::words::WordView) -> bool {
        &&& self.spec_seq(SeqType::Word, word.name) == Some(word.seq)
        &&& self.spec_chord(word.name, kmap) == Some(word.chord)
        &&& self.max_anagram_num == (if word.chord.anagram_num > before.max_anagram_num {
            word.chord.anagram_num
        } else {
            before.max_anagram_num
        })
        &&& forall|n: Seq<char>, k: Seq<char>|
            !(n == word.name && k == kmap) ==> #[trigger] self.spec_chord(n, k) == before.spec_chord(n, k)
        &&& forall|n: Seq<char>|
            n != word.name ==> #[trigger] self.spec_seq(SeqType::Word, n) == before.spec_seq(SeqType::Word, n)
        &&& forall|k: SeqType| k != SeqType::Word ==> #[trigger] self.seq_map(k) == before.seq_map(k)
        &&& self.modes == before.modes
        &&& self.same_lists(before)
        &&& self.kmap_ids == before.kmap_ids
        &&& self.chords.key_seq() == before.chords.key_seq()
    }

    /// A registry with a word added has the lexicon with the word added.
    pub proof fn lemma_with_word(&self, before: &Maps, kmap: Seq<char>, word: crate::types::words::WordView)
        requires
            self.with_word(before, kmap, word),
        ensures
            self.lexicon() == before.lexicon().with_word(kmap, word),
    {
        let now = self.lexicon();
        let then = before.lexicon().with_word(kmap, word);
        assert forall|p: (Seq<char>, Seq<char>)| now.chords.contains_key(p) == then.chords.contains_key(p) && (
        now.chords.contains_key(p) ==> now.chords[p] == then.chords[p]) by {
            if p == (word.name, kmap) {
                assert(self.spec_chord(p.0, p.1) == Some(word.chord));
            } else {
                assert(!(p.0 == word.name && p.1 == kmap));
                assert(self.spec_chord(p.0, p.1) == before.spec_chord(p.0, p.1));
            }
        }
        assert(now.chords =~= then.chords);
        assert forall|n: Seq<char>| now.words.contains_key(n) == then.words.contains_key(n) && (
        now.words.contains_key(n) ==> now.words[n] == then.words[n]) by {
            if n != word.name {
                assert(self.spec_seq(SeqType::Word, n) == before.spec_seq(SeqType::Word, n));
            }
        }
        assert(now.words =~= then.words);
        assert(now.spellings =~= then.spellings);
    }

    /// Adds the word that `info` describes to the layout `kmap`, from the
    /// spellings `letters` of the letters of its chord and the graphemes
    /// `parts` of its spelling. A word that cannot be built, or a layout
    /// that is not known, leaves the registry as it is.
    pub fn add_word_parts(
        &mut self,
        info: WordConfig,
        kmap: &KmapPath,
        letters: &Vec<String>,
        parts: &Vec<String>,
    ) -> (r: Result<(), Error>)
        requires
            old(self).wf(),
        ensures
            final(self).wf(),
            match built_word(old(self).lexicon(), kmap@, info, views(letters@), views(parts@)) {
                Err(e) => r is Err && r->Err_0@ == e && *final(self) == *old(self),
                Ok(word) => if !old(self).chords.has(kmap@) {
                    r is Err && r->Err_0@ == (ErrorView::Lookup { key: kmap@, container: "kmaps"@ })
                        && *final(self) == *old(self)
                } else {
                    r is Ok && final(self).with_word(old(self), kmap@, word)
                },
            },
    {
        let ghost wanted = info;
        let built = {
            let builder = WordBuilder { info, kmap, all_data: &*self };
            builder.word_from_parts(letters, parts)
        };
        let word = match built {
            Ok(word) => word,
            Err(e) => {
                return Err(e);
            },
        };
        if !self.chords.contains_key(kmap.as_str()) {
            return Err(Error::lookup(kmap.as_str(), "kmaps"));
        }
        let Word { name, seq, chord } = word;
        let anagram = chord.anagram_num.0;
        self.put_sequence(SeqType::Word, name.clone(), seq);
        let ghost between = *self;
        let added = self.add_chord(name, chord, kmap);
        let ghost after = *self;
        if anagram > self.max_anagram_num {
            self.max_anagram_num = anagram;
        }
        proof {
            assert(self.chords == after.chords);
            assert(self.sequences == between.sequences);
            assert forall|n: Seq<char>, k: Seq<char>| !(n == word@.name && k == kmap@) implies #[trigger] self.spec_chord(
                n,
                k,
            ) == old(self).spec_chord(n, k) by {
                assert(self.spec_chord(n, k) == after.spec_chord(n, k));
                assert(between.spec_chord(n, k) == old(self).spec_chord(n, k));
            }
            assert forall|n: Seq<char>| n != word@.name implies #[trigger] self.spec_seq(SeqType::Word, n)
                == old(self).spec_seq(SeqType::Word, n) by {
                assert(self.spec_seq(SeqType::Word, n) == between.spec_seq(SeqType::Word, n));
            }
            assert(self.spec_seq(SeqType::Word, word@.name) == between.spec_seq(SeqType::Word, word@.name));
            assert(self.spec_chord(word@.name, kmap@) == after.spec_chord(word@.name, kmap@));
            assert forall|k: SeqType| k != SeqType::Word implies #[trigger] self.seq_map(k) == old(self).seq_map(k) by {
                assert(between.seq_map(k) == old(self).seq_map(k));
            }
            assert forall|a: int, b: int|
                0 <= a < self.modes.val_seq().len() && 0 <= b < self.modes.val_seq()[a].keymaps.len()
                 implies self.chords.has(#[trigger] mode_paths(self.modes.val_seq()[a])[b]) by {
                assert(after.chords.has(mode_paths(after.modes.val_seq()[a])[b]));
            }
        }
        Ok(())
    }

    /// Adds the word that `info` describes to the layout `kmap`: the
    /// sequence of its spelling under its name among the words, and the
    /// chord of its letters under its name on the layout.
    pub fn add_word(&mut self, info: WordConfig, kmap: &KmapPath) -> (r: Result<(), Error>)
        requires
            old(self).wf(),
        ensures
            final(self).wf(),
            match built_word(
                old(self).lexicon(),
                kmap@,
                info,
                chord_letters(info.spec_chord_spelling()),
                graphemes_of(info.word@),
            ) {
                Err(e) => r is Err && r->Err_0@ == e && *final(self) == *old(self),
                Ok(word) => if !old(self).chords.has(kmap@) {
                    r is Err && r->Err_0@ == (ErrorView::Lookup { key: kmap@, container: "kmaps"@ })
                        && *final(self) == *old(self)
                } else {
                    r is Ok && final(self).with_word(old(self), kmap@, word)
                },
            },
    {
        let spelling = info.chord_spelling();
        let chars = chars_of(spelling.as_str());
        let mut letters: Vec<String> = Vec::new();
        let mut i: usize = 0;
        while i < chars.len()
            invariant
                i <= chars.len(),
                letters.len() == i,
                forall|j: int| 0 <= j < i ==> letters[j]@ == lowercase_of(seq![chars[j]]),
            decreases chars.len() - i,
        {
            letters.push(to_lowercase(char_string(chars[i]).as_str()));
            i += 1;
        }
        assert(views(letters@) =~= chord_letters(info.spec_chord_spelling()));
        let parts = graphemes(info.seq_spelling().as_str());
        self.add_word_parts(info, kmap, &letters, &parts)
    }
}

/// `names` in order.
pub fn sort_names(names: &Vec<Name>) -> (sorted: Vec<Name>)
    ensures
        name_views(sorted@) == in_order(name_views(names@)),
{
    let ghost all = name_views(names@);
    let mut sorted: Vec<Name> = Vec::new();
    let mut i: usize = 0;
    assert(all.take(0) =~= Seq::empty());
    assert(name_views(sorted@) =~= Seq::empty());
    while i < names.len()
        invariant
            i <= names.len(),
            all == name_views(names@),
            name_views(sorted@) == in_order(all.take(i as int)),
        decreases names.len() - i,
    {
        let name = &names[i];
        let ghost keys = name_views(sorted@);
        let mut p: usize = 0;
        while p < sorted.len() && !str_lt(name.as_str(), sorted[p].as_str())
            invariant
                p <= sorted.len(),
                keys == name_views(sorted@),
                forall|j: int| 0 <= j < p ==> !text_lt(name@, keys[j]),
            decreases sorted.len() - p,
        {
            p += 1;
        }
        proof {
            lemma_rank_le(keys, name@, p as int);
            assert(all.take(i + 1).drop_last() == all.take(i as int));
            assert(all.take(i + 1).last() == name@);
        }
        sorted.insert(p, name.clone());
        assert(name_views(sorted@) =~= keys.insert(p as int, name@));
        i += 1;
    }
    assert(all.take(i as int) == all);
    sorted
}

} // verus!
