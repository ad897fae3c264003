//! The lessons of the tutor and the chords that it shows as hints.
//!
//! The state of a session is a value that the caller owns and hands to the
//! functions that read it.

use vstd::prelude::*;
use vstd::string::*;
use crate::sorted_map::StrMap;
use crate::text::{
    string_from_chars, chars_of, concat_strings, graphemes, graphemes_of, lowercase_of, repeat,
    repeat_string, str_eq, to_lowercase, views,
};
use crate::types::chord::{Chord, ChordView};
use crate::types::errors::{Error, ErrorView};
use crate::types::names::{name_views, ModeName, Name};

verus! {

/// What the tutor knows of a keyboard: for each mode the chord of each
/// name, and for each spelling the name of the chord that types it.
#[derive(Debug, PartialEq, Eq)]
pub struct TutorData {
    pub chords: StrMap<StrMap<Chord>>,
    pub spellings: StrMap<Name>,
}

/// How well a key has been learned: how often it must still be typed
/// right before its hint is left out.
#[derive(Debug, Clone, Copy, PartialEq, Eq, Structural)]
pub struct LearnState(pub usize);

/// The state of a session of the tutor.
#[derive(Debug, PartialEq, Eq)]
pub struct State {
    pub tutor_data: Option<TutorData>,
    pub learning_map: StrMap<LearnState>,
    pub initial_learn_state: usize,
    pub mode: ModeName,
}

/// A lesson: its slides, and what is shown before it.
#[derive(Debug, PartialEq, Eq)]
pub struct LessonConfig {
    pub slides: Vec<Slide>,
    pub popup: String,
}

/// A slide of a lesson: an instruction and a line to type.
#[derive(Debug, PartialEq, Eq)]
pub struct Slide {
    pub instruction: String,
    pub line: SlideLine,
}

/// The line of a slide: letters to type one by one, or words with the
/// chords that type them.
#[derive(Debug, PartialEq, Eq)]
pub enum SlideLine {
    Letters(String),
    Words { words: Vec<SlideWord>, show_errors: bool },
}

/// A word of a slide: the names of the chords that are pressed together
/// for it, what it types, and how many characters that counts for if not
/// as many as it has.
#[derive(Debug, PartialEq, Eq)]
pub struct SlideWord {
    pub names: Vec<Name>,
    pub text: String,
    pub length_override: Option<usize>,
}

/// A word of a slide with its chord.
#[derive(Debug, PartialEq, Eq)]
pub struct SlideEntry {
    pub text: String,
    pub chord: Chord,
    pub length: usize,
}

/// Whether the character typed last was the right one, and if not, the
/// chord that was pressed, where it is known.
#[derive(Debug, PartialEq, Eq)]
pub enum PrevCharStatus {
    Correct,
    Incorrect(Option<LabeledChord>),
}

/// A chord with the label under which it is shown.
#[derive(Debug, PartialEq, Eq)]
pub struct LabeledChord {
    pub chord: Chord,
    pub label: Label,
}

/// The label of a chord.
#[derive(Debug, PartialEq, Eq)]
pub struct Label(pub String);

impl View for Label {
    type V = Seq<char>;

    open spec fn view(&self) -> Seq<char> {
        self.0@
    }
}

impl Clone for Label {
    fn clone(&self) -> (copy: Self)
        ensures
            copy@ == self@,
    {
        Label(self.0.clone())
    }
}

/// A `LabeledChord` as a mathematical value.
pub struct LabeledChordView {
    pub chord: ChordView,
    pub label: Seq<char>,
}

impl View for LabeledChord {
    type V = LabeledChordView;

    open spec fn view(&self) -> LabeledChordView {
        LabeledChordView { chord: self.chord@, label: self.label@ }
    }
}

impl Clone for LabeledChord {
    fn clone(&self) -> (copy: Self)
        ensures
            copy@ == self@,
    {
        LabeledChord { chord: self.chord.clone(), label: self.label.clone() }
    }
}

/// The chord without switches, which stands for "no chord".
pub open spec fn no_chord() -> ChordView {
    ChordView { switches: Seq::empty(), anagram_num: 0 }
}

impl TutorData {
    /// The maps of chords are well formed.
    pub open spec fn wf(&self) -> bool {
        &&& self.chords.wf()
        &&& self.spellings.wf()
        &&& forall|i: int| 0 <= i < self.chords.val_seq().len() ==> (#[trigger] self.chords.val_seq()[i]).wf()
    }

    /// The chord of `name` in the mode `mode`. The empty name has the chord
    /// without switches.
    pub open spec fn spec_chord(&self, name: Seq<char>, mode: Seq<char>) -> Option<ChordView> {
        if name.len() == 0 {
            Some(no_chord())
        } else if self.chords.has(mode) && self.chords.val(mode).has(name) {
            Some(self.chords.val(mode).val(name)@)
        } else {
            None
        }
    }

    /// The chord of `name` in the mode `mode`, if there is one. The empty
    /// name has the chord without switches, for places that are skipped.
    pub fn chord(&self, name: &Name, mode: &ModeName) -> (found: Option<Chord>)
        requires
            self.wf(),
        ensures
            match self.spec_chord(name@, mode@) {
                Some(chord) => found is Some && found->0@ == chord,
                None => found is None,
            },
    {
        if str_eq(name.as_str(), "") {
            proof {
                reveal_strlit("");
            }
            let none = Chord::new(0);
            assert(none@.switches =~= Seq::empty());
            return Some(none);
        }
        proof {
            reveal_strlit("");
            if name@.len() == 0 {
                assert(name@ =~= ""@);
            }
        }
        match self.chords.find(mode.as_str()) {
            None => None,
            Some(i) => {
                proof {
                    self.chords.lemma_pos(i as int);
                }
                match self.chords.val_at(i).get(name.as_str()) {
                    Some(chord) => Some(chord.clone()),
                    None => None,
                }
            },
        }
    }
}

impl LearnState {
    /// One step towards having learned the key if it was typed right, one
    /// step back if not.
    pub fn update(&mut self, was_correct: bool)
        requires
            was_correct || old(self).0 < usize::MAX,
        ensures
            final(self).0 == if was_correct {
                if old(self).0 > 0 {
                    (old(self).0 - 1) as usize
                } else {
                    0
                }
            } else {
                (old(self).0 + 1) as usize
            },
    {
        if was_correct {
            if self.0 > 0 {
                self.0 -= 1;
            }
        } else {
            self.0 += 1;
        }
    }

    /// Starts again from `initial`.
    pub fn reset(&mut self, initial: usize)
        ensures
            final(self).0 == initial,
    {
        self.0 = initial;
    }

    /// Whether the key needs no hint any more.
    pub fn is_learned(&self) -> (learned: bool)
        ensures
            learned == (self.0 == 0),
    {
        self.0 == 0
    }
}

impl State {
    /// The maps of the session are well formed.
    pub open spec fn wf(&self) -> bool {
        &&& self.learning_map.wf()
        &&& self.tutor_data is Some ==> self.tutor_data->0.wf()
    }

    /// The state at the start of a session: no data, nothing learned.
    pub fn new() -> (state: State)
        ensures
            state.wf(),
            state.tutor_data is None,
            state.initial_learn_state == 10,
            state.mode@ == Seq::<char>::empty(),
            state.learning_map.key_seq().len() == 0,
    {
        State {
            tutor_data: None,
            learning_map: StrMap::new(),
            initial_learn_state: 10,
            mode: ModeName(String::new()),
        }
    }

    /// Gives the session its data, which it must not have yet.
    pub fn set_tutor_data(&mut self, data: TutorData)
        requires
            old(self).wf(),
            old(self).tutor_data is None,
            data.wf(),
        ensures
            final(self).wf(),
            final(self).tutor_data == Some(data),
            final(self).learning_map == old(self).learning_map,
            final(self).initial_learn_state == old(self).initial_learn_state,
            final(self).mode == old(self).mode,
    {
        self.tutor_data = Some(data);
    }

    /// The chord of `name` in the mode of the session.
    pub fn chord(&self, name: &Name) -> (found: Option<Chord>)
        requires
            self.wf(),
            self.tutor_data is Some,
        ensures
            match self.tutor_data->0.spec_chord(name@, self.mode@) {
                Some(chord) => found is Some && found->0@ == chord,
                None => found is None,
            },
    {
        match &self.tutor_data {
            Some(data) => data.chord(name, &self.mode),
            None => None,
        }
    }

    /// The name of the chord that types `spelling`.
    pub fn name(&self, spelling: &str) -> (found: Option<Name>)
        requires
            self.wf(),
            self.tutor_data is Some,
        ensures
            self.tutor_data->0.spellings.has(spelling@) ==> found is Some && found->0@
                == self.tutor_data->0.spellings.val(spelling@)@,
            !self.tutor_data->0.spellings.has(spelling@) ==> found is None,
    {
        match &self.tutor_data {
            Some(data) => match data.spellings.get(spelling) {
                Some(name) => Some(name.clone()),
                None => None,
            },
            None => None,
        }
    }

    /// Whether the key `name` has been learned, if it has been met.
    pub fn is_learned(&self, name: &str) -> (learned: Option<bool>)
        requires
            self.wf(),
        ensures
            self.learning_map.has(name@) ==> learned == Some(self.learning_map.val(name@).0 == 0),
            !self.learning_map.has(name@) ==> learned is None,
    {
        match self.learning_map.get(name) {
            Some(state) => Some(state.is_learned()),
            None => None,
        }
    }

    /// How often a key must be typed right before its hint is left out.
    pub fn initial_learn_state(&self) -> (n: usize)
        ensures
            n == self.initial_learn_state,
    {
        self.initial_learn_state
    }

    /// The names of the modes, in order.
    pub fn mode_list(&self) -> (modes: Vec<String>)
        requires
            self.wf(),
            self.tutor_data is Some,
        ensures
            views(modes@) == self.tutor_data->0.chords.key_seq(),
    {
        let mut modes: Vec<String> = Vec::new();
        match &self.tutor_data {
            Some(data) => {
                let mut i: usize = 0;
                while i < data.chords.len()
                    invariant
                        i <= data.chords.key_seq().len(),
                        data.wf(),
                        modes.len() == i,
                        forall|j: int| 0 <= j < i ==> modes[j]@ == data.chords.key_seq()[j],
                    decreases data.chords.key_seq().len() - i,
                {
                    modes.push(data.chords.key_at(i).clone());
                    i += 1;
                }
                assert(views(modes@) =~= data.chords.key_seq());
            },
            None => {},
        }
        modes
    }
}

impl PrevCharStatus {
    /// The chord of the backspace key, to be shown after a wrong
    /// character; `backspace` is that chord, if the keyboard has one.
    pub fn backspace(&self, backspace: Option<Chord>) -> (hint: Option<LabeledChord>)
        ensures
            self is Correct || backspace is None ==> hint is None,
            self is Incorrect && backspace is Some ==> hint is Some && hint->0@ == (LabeledChordView {
                chord: backspace->0@,
                label: "bak"@,
            }),
    {
        match self {
            PrevCharStatus::Correct => None,
            PrevCharStatus::Incorrect(_) => LabeledChord::backspace(backspace),
        }
    }

    /// The chord that was pressed in place of the right one, if one was and
    /// it is known.
    pub fn error(&self) -> (wrong: Option<LabeledChord>)
        ensures
            match self {
                PrevCharStatus::Correct => wrong is None,
                PrevCharStatus::Incorrect(None) => wrong is None,
                PrevCharStatus::Incorrect(Some(chord)) => wrong is Some && wrong->0@ == chord@,
            },
    {
        match self {
            PrevCharStatus::Correct => None,
            PrevCharStatus::Incorrect(x) => match x {
                Some(chord) => Some(chord.clone()),
                None => None,
            },
        }
    }

    /// Whether the character typed last was the right one.
    pub fn is_correct(&self) -> (correct: bool)
        ensures
            correct == self is Correct,
    {
        match self {
            PrevCharStatus::Correct => true,
            PrevCharStatus::Incorrect(_) => false,
        }
    }
}

/// Whether one of the first `n` words has a length of its own.
pub open spec fn some_override(words: Seq<SlideWord>, n: int) -> bool {
    exists|i: int| 0 <= i < n && (#[trigger] words[i]).length_override is Some
}

impl SlideLine {
    /// Whether wrong characters are shown: always for letters, and for
    /// words as the slide says.
    pub fn show_errors(&self) -> (show: bool)
        ensures
            show == match self {
                SlideLine::Letters(_) => true,
                SlideLine::Words { show_errors, .. } => *show_errors,
            },
    {
        match self {
            SlideLine::Letters(_) => true,
            SlideLine::Words { show_errors, .. } => *show_errors,
        }
    }

    /// Whether a word of the line has a length of its own.
    pub fn has_length_overrides(&self) -> (yes: bool)
        ensures
            yes == match self {
                SlideLine::Letters(_) => false,
                SlideLine::Words { words, .. } => some_override(words@, words.len() as int),
            },
    {
        match self {
            SlideLine::Letters(_) => false,
            SlideLine::Words { words, .. } => {
                let mut i: usize = 0;
                while i < words.len()
                    invariant
                        i <= words.len(),
                        self is Words,
                        self->words == *words,
                        !some_override(words@, i as int),
                    decreases words.len() - i,
                {
                    if words[i].length_override.is_some() {
                        assert(words@[i as int].length_override is Some);
                        return true;
                    }
                    i += 1;
                }
                false
            },
        }
    }
}

impl SlideEntry {
    /// The number of characters that the entry counts for.
    pub fn len(&self) -> (n: usize)
        ensures
            n == self.length,
    {
        self.length
    }

    /// The label of the entry: its text, if that is one grapheme, with
    /// the names of the keys that have one; else none.
    pub fn label(&self) -> (label: Label)
        ensures
            label@ == if graphemes_of(self.text@).len() == 1 {
                label_of(self.text@)
            } else {
                Seq::empty()
            },
    {
        if graphemes(self.text.as_str()).len() == 1 {
            assert(graphemes_of(self.text@).len() == 1);
            Label::from_char(self.text.as_str())
        } else {
            Label(String::new())
        }
    }

    /// The chord of the entry with its label.
    pub fn to_labeled_chord(&self) -> (hint: LabeledChord)
        ensures
            hint@.chord == self.chord@,
            hint@.label == if graphemes_of(self.text@).len() == 1 {
                label_of(self.text@)
            } else {
                Seq::empty()
            },
    {
        LabeledChord { label: self.label(), chord: self.chord.clone() }
    }
}

impl LabeledChord {
    /// The chord of the backspace key with its label.
    pub fn backspace(backspace: Option<Chord>) -> (hint: Option<LabeledChord>)
        ensures
            backspace is None ==> hint is None,
            backspace is Some ==> hint is Some && hint->0@ == (LabeledChordView {
                chord: backspace->0@,
                label: "bak"@,
            }),
    {
        match backspace {
            Some(chord) => Some(LabeledChord { chord, label: Label("bak".to_owned()) }),
            None => None,
        }
    }
}

/// The label of a character: `ret` for the line feed, `tab` for the
/// tabulator, `spc` for the space, and the character itself for others.
pub open spec fn label_of(character: Seq<char>) -> Seq<char> {
    if character == seq!['\n'] {
        "ret"@
    } else if character == seq!['\t'] {
        "tab"@
    } else if character == seq![' '] {
        "spc"@
    } else {
        character
    }
}

impl Label {
    /// The label of a character.
    pub fn from_char(character: &str) -> (label: Label)
        ensures
            label@ == label_of(character@),
    {
        proof {
            reveal_strlit("\n");
            reveal_strlit("\t");
            reveal_strlit(" ");
            assert("\n"@ =~= seq!['\n']);
            assert("\t"@ =~= seq!['\t']);
            assert(" "@ =~= seq![' ']);
            assert(seq!['\t'][0] != seq!['\n'][0]);
            assert(seq![' '][0] != seq!['\n'][0]);
            assert(seq![' '][0] != seq!['\t'][0]);
        }
        if str_eq(character, "\n") {
            assert(character@ =~= seq!['\n']);
            Label("ret".to_owned())
        } else if str_eq(character, "\t") {
            assert(character@ =~= seq!['\t']);
            Label("tab".to_owned())
        } else if str_eq(character, " ") {
            assert(character@ =~= seq![' ']);
            Label("spc".to_owned())
        } else {
            assert("\n"@ =~= seq!['\n']);
            assert("\t"@ =~= seq!['\t']);
            assert(" "@ =~= seq![' ']);
            Label(character.to_owned())
        }
    }

    /// The number of graphemes of the label.
    pub fn len(&self) -> (n: usize)
        ensures
            n == graphemes_of(self@).len(),
    {
        let parts = graphemes(self.0.as_str());
        assert(views(parts@).len() == parts.len());
        parts.len()
    }

    /// The label in the middle of `width` places: as many spaces before it
    /// as half of what is left, rounded down, and `width` less that many
    /// after it.
    pub fn pad(&self, width: usize) -> (text: String)
        requires
            graphemes_of(self@).len() <= width,
        ensures
            text@ == repeat(' ', ((width - graphemes_of(self@).len()) / 2) as nat) + self@ + repeat(
                ' ',
                (width - (width - graphemes_of(self@).len()) / 2) as nat,
            ),
    {
        proof {
            reveal_strlit(" ");
        }
        let start = (width - self.len()) / 2;
        let mut text = repeat_string(" ", start);
        text.append(self.0.as_str());
        text.append(repeat_string(" ", width - start).as_str());
        text
    }
}

impl Label {
    /// The label in the middle of `width` places, where it is not wider
    /// than that; `None` where it is.
    pub fn try_pad(&self, width: usize) -> (text: Option<String>)
        ensures
            graphemes_of(self@).len() > width ==> text is None,
            graphemes_of(self@).len() <= width ==> text is Some && text->0@ == repeat(
                ' ',
                ((width - graphemes_of(self@).len()) / 2) as nat,
            ) + self@ + repeat(' ', (width - (width - graphemes_of(self@).len()) / 2) as nat),
    {
        if self.len() <= width {
            Some(self.pad(width))
        } else {
            None
        }
    }
}

/// Half of the difference of two widths, rounded to the nearest whole
/// number, a half rounded up: how far the narrower is moved in to stand in
/// the middle of the wider.
pub fn offset(width1: usize, width2: usize) -> (n: usize)
    requires
        width1 <= width2,
    ensures
        n == (width2 - width1 + 1) / 2,
{
    let d = width2 - width1;
    d / 2 + d % 2
}

/// The value of a switch that the lesson leaves out.
pub fn return_true() -> (b: bool)
    ensures
        b,
{
    true
}

/// The graphemes of `s` after the first `start`, at most `end` of them.
pub fn grapheme_slice(s: &str, start: usize, end: usize) -> (parts: Vec<String>)
    ensures
        views(parts@) == slice_of(graphemes_of(s@), start as nat, end as nat),
{
    let all = graphemes(s);
    let ghost g = graphemes_of(s@);
    assert(views(all@).len() == all.len());
    let mut parts: Vec<String> = Vec::new();
    let mut i: usize = start;
    while i < all.len() && parts.len() < end
        invariant
            views(all@) == g,
            g.len() == all.len(),
            parts.len() <= end,
            i == start + parts.len(),
            start <= all.len() ==> i <= all.len(),
            parts.len() == 0 || i <= all.len(),
            forall|j: int| 0 <= j < parts.len() ==> parts[j]@ == g[start + j],
        decreases all.len() - i,
    {
        assert(views(all@)[i as int] == all[i as int]@);
        parts.push(all[i].clone());
        i += 1;
    }
    proof {
        let want = slice_of(g, start as nat, end as nat);
        assert(views(parts@).len() == parts.len());
        if start >= g.len() {
            assert(parts.len() == 0);
        } else if start + end >= g.len() {
            assert(g.skip(start as int).len() == g.len() - start);
            assert(i == all.len());
        } else {
            assert(g.subrange(start as int, (start + end) as int).len() == end);
            assert(parts.len() == end);
        }
        assert(want.len() == parts.len());
        assert forall|j: int| 0 <= j < parts.len() implies views(parts@)[j] == want[j] by {
            assert(views(parts@)[j] == parts[j]@);
        }
        assert(views(parts@) =~= want);
    }
    parts
}

/// The items of `all` after the first `start`, at most `count` of them.
pub open spec fn slice_of(all: Seq<Seq<char>>, start: nat, count: nat) -> Seq<Seq<char>> {
    if start >= all.len() {
        Seq::empty()
    } else if start + count >= all.len() {
        all.skip(start as int)
    } else {
        all.subrange(start as int, (start + count) as int)
    }
}

/// The chords of `names` pressed together, `None` where one of the names
/// has no chord. A chord without switches, as the empty name has, adds
/// nothing; a chord of another width than those before it cannot be
/// pressed with them, and there is no chord then either.
pub open spec fn pressed_together(data: TutorData, mode: Seq<char>, names: Seq<Seq<char>>) -> Option<
    ChordView,
>
    decreases names.len(),
{
    if names.len() == 0 {
        Some(no_chord())
    } else {
        match pressed_together(data, mode, names.drop_last()) {
            None => None,
            Some(so_far) => match data.spec_chord(names.last(), mode) {
                None => None,
                Some(chord) => if chord.switches.len() == 0 {
                    Some(so_far)
                } else if so_far.switches.len() == 0 {
                    Some(ChordView { switches: chord.switches, anagram_num: 0 })
                } else if so_far.switches.len() == chord.switches.len() {
                    Some(so_far.pressed_with(chord))
                } else {
                    None
                },
            },
        }
    }
}

/// Names whose chords cannot be pressed together stay so when more
/// names follow.
proof fn lemma_pressed_together_stays(data: TutorData, mode: Seq<char>, names: Seq<Seq<char>>, n: int)
    requires
        0 <= n <= names.len(),
        pressed_together(data, mode, names.take(n)) is None,
    ensures
        pressed_together(data, mode, names) is None,
    decreases names.len() - n,
{
    if n < names.len() {
        assert(names.take(n + 1).drop_last() == names.take(n));
        lemma_pressed_together_stays(data, mode, names, n + 1);
    } else {
        assert(names.take(n) == names);
    }
}

/// The error of a word whose chords cannot be found or pressed together.
pub open spec fn no_chords_error() -> ErrorView {
    ErrorView::BadValue { thing: "word"@, value: "failed to create chords for word"@ }
}

impl State {
    /// The chords of `names` in the mode of the session, pressed together.
    pub fn chord_of_names(&self, names: &Vec<Name>) -> (found: Option<Chord>)
        requires
            self.wf(),
            self.tutor_data is Some,
        ensures
            match pressed_together(self.tutor_data->0, self.mode@, name_views(names@)) {
                Some(chord) => found is Some && found->0@ == chord,
                None => found is None,
            },
    {
        let ghost all = name_views(names@);
        let ghost data = self.tutor_data->0;
        let mut so_far = Chord::new(0);
        assert(so_far@.switches =~= Seq::<bool>::empty());
        assert(all.take(0) =~= Seq::<Seq<char>>::empty());
        let mut i: usize = 0;
        while i < names.len()
            invariant
                i <= names.len(),
                self.wf(),
                self.tutor_data is Some,
                data == self.tutor_data->0,
                all == name_views(names@),
                pressed_together(data, self.mode@, all.take(i as int)) == Some(so_far@),
            decreases names.len() - i,
        {
            proof {
                assert(all.take(i + 1).drop_last() == all.take(i as int));
                assert(all.take(i + 1).last() == names[i as int]@);
            }
            let chord = match self.chord(&names[i]) {
                Some(chord) => chord,
                None => {
                    proof {
                        lemma_pressed_together_stays(data, self.mode@, all, i + 1);
                    }
                    return None;
                },
            };
            if chord.len() == 0 {
            } else if so_far.len() == 0 {
                so_far = Chord::from_vec(chord.switches);
            } else if so_far.len() == chord.len() {
                so_far.intersect(&chord);
            } else {
                proof {
                    lemma_pressed_together_stays(data, self.mode@, all, i + 1);
                }
                return None;
            }
            i += 1;
        }
        assert(all.take(i as int) == all);
        Some(so_far)
    }

    /// Counts one more time that the key `name` was typed, right or wrong;
    /// a key that is new starts from the initial state.
    pub fn update_learn_state(&mut self, name: String, was_correct: bool)
        requires
            old(self).wf(),
            old(self).initial_learn_state < usize::MAX,
            forall|i: int|
                0 <= i < old(self).learning_map.val_seq().len() ==> (
                #[trigger] old(self).learning_map.val_seq()[i]).0 < usize::MAX,
        ensures
            final(self).wf(),
            final(self).tutor_data == old(self).tutor_data,
            final(self).mode == old(self).mode,
            final(self).initial_learn_state == old(self).initial_learn_state,
            final(self).learning_map.has(name@),
            final(self).learning_map.val(name@).0 == learned_after(
                if old(self).learning_map.has(name@) {
                    old(self).learning_map.val(name@).0
                } else {
                    old(self).initial_learn_state
                },
                was_correct,
            ),
            forall|k: Seq<char>| final(self).learning_map.has(k) == (k == name@ || old(self).learning_map.has(k)),
            forall|k: Seq<char>|
                k != name@ && old(self).learning_map.has(k) ==> final(self).learning_map.val(k) == old(self).learning_map.val(k),
    {
        let mut state = match self.learning_map.get(name.as_str()) {
            Some(state) => {
                proof {
                    let p = self.learning_map.pos(name@);
                    assert(self.learning_map.key_seq()[p] == name@);
                    assert(self.learning_map.val_seq()[p].0 < usize::MAX);
                }
                *state
            },
            None => LearnState(self.initial_learn_state),
        };
        state.update(was_correct);
        self.learning_map.insert(name, state);
    }

    /// Sets how often a key must be typed right, and starts all keys again
    /// from there.
    pub fn set_initial_learn_state(&mut self, initial: usize)
        requires
            old(self).wf(),
        ensures
            final(self).wf(),
            final(self).initial_learn_state == initial,
            final(self).tutor_data == old(self).tutor_data,
            final(self).mode == old(self).mode,
            final(self).learning_map.key_seq() == old(self).learning_map.key_seq(),
            forall|i: int|
                0 <= i < final(self).learning_map.val_seq().len() ==> (
                #[trigger] final(self).learning_map.val_seq()[i]).0 == initial,
    {
        self.reset_all(initial);
        self.initial_learn_state = initial;
    }

    /// Starts all keys again from `initial`.
    fn reset_all(&mut self, initial: usize)
        requires
            old(self).wf(),
        ensures
            final(self).wf(),
            final(self).initial_learn_state == old(self).initial_learn_state,
            final(self).tutor_data == old(self).tutor_data,
            final(self).mode == old(self).mode,
            final(self).learning_map.key_seq() == old(self).learning_map.key_seq(),
            forall|i: int|
                0 <= i < final(self).learning_map.val_seq().len() ==> (
                #[trigger] final(self).learning_map.val_seq()[i]).0 == initial,
    {
        let mut i: usize = 0;
        while i < self.learning_map.len()
            invariant
                i <= self.learning_map.key_seq().len(),
                self.wf(),
                self.initial_learn_state == old(self).initial_learn_state,
                self.tutor_data == old(self).tutor_data,
                self.mode == old(self).mode,
                self.learning_map.key_seq() == old(self).learning_map.key_seq(),
                self.learning_map.val_seq().len() == self.learning_map.key_seq().len(),
                forall|j: int| 0 <= j < i ==> (#[trigger] self.learning_map.val_seq()[j]).0 == initial,
            decreases self.learning_map.key_seq().len() - i,
        {
            self.learning_map.replace_at(i, LearnState(initial));
            i += 1;
        }
    }

    /// Changes to the mode `mode_str`, which must be one of the keyboard,
    /// and starts all keys again, as their chords may be others now.
    /// Returns whether the mode is known; an unknown mode changes nothing.
    pub fn set_mode(&mut self, mode_str: &str) -> (known: bool)
        requires
            old(self).wf(),
            old(self).tutor_data is Some,
        ensures
            final(self).wf(),
            known == old(self).tutor_data->0.chords.has(mode_str@),
            !known ==> *final(self) == *old(self),
            known ==> final(self).mode@ == mode_str@ && final(self).tutor_data == old(self).tutor_data
                && final(self).initial_learn_state == old(self).initial_learn_state && final(self).learning_map.key_seq() == old(self).learning_map.key_seq() && (forall|i: int|
                0 <= i < final(self).learning_map.val_seq().len() ==> (
                #[trigger] final(self).learning_map.val_seq()[i]).0 == old(self).initial_learn_state),
    {
        let known = match &self.tutor_data {
            Some(data) => data.chords.contains_key(mode_str),
            None => false,
        };
        if !known {
            return false;
        }
        self.mode = ModeName::new(mode_str);
        let initial = self.initial_learn_state;
        self.reset_all(initial);
        true
    }
}

/// The state of a key after it was typed once more.
pub open spec fn learned_after(before: usize, was_correct: bool) -> usize {
    if was_correct {
        if before > 0 {
            (before - 1) as usize
        } else {
            0
        }
    } else {
        (before + 1) as usize
    }
}

/// The length of a word of a slide: the one given for it, or else the
/// number of the graphemes `parts` of its text.
pub open spec fn entry_length(word: SlideWord, parts: Seq<Seq<char>>) -> nat {
    match word.length_override {
        Some(n) => n as nat,
        None => parts.len(),
    }
}

impl SlideEntry {
    /// The entry of `word` in the session `state`: its text, its chord and
    /// its length, given the graphemes `parts` of its text. Fails where the
    /// chords of its names cannot be found or pressed together.
    pub fn from_word_parts(word: &SlideWord, state: &State, parts: &Vec<String>) -> (r: Result<
        SlideEntry,
        Error,
    >)
        requires
            state.wf(),
            state.tutor_data is Some,
        ensures
            match pressed_together(state.tutor_data->0, state.mode@, name_views(word.names@)) {
                Some(chord) => r is Ok && r->Ok_0.chord@ == chord && r->Ok_0.text@ == word.text@
                    && r->Ok_0.length == entry_length(*word, views(parts@)),
                None => r is Err && r->Err_0@ == no_chords_error(),
            },
    {
        let chord = match state.chord_of_names(&word.names) {
            Some(chord) => chord,
            None => {
                return Err(Error::bad_value("word", "failed to create chords for word"));
            },
        };
        assert(views(parts@).len() == parts.len());
        let length = match word.length_override {
            Some(n) => n,
            None => parts.len(),
        };
        Ok(SlideEntry { chord, length, text: word.text.clone() })
    }

    /// The entry of `word` in the session `state`.
    pub fn from_word(word: &SlideWord, state: &State) -> (r: Result<SlideEntry, Error>)
        requires
            state.wf(),
            state.tutor_data is Some,
        ensures
            match pressed_together(state.tutor_data->0, state.mode@, name_views(word.names@)) {
                Some(chord) => r is Ok && r->Ok_0.chord@ == chord && r->Ok_0.text@ == word.text@
                    && r->Ok_0.length == entry_length(*word, graphemes_of(word.text@)),
                None => r is Err && r->Err_0@ == no_chords_error(),
            },
    {
        let parts = graphemes(word.text.as_str());
        Self::from_word_parts(word, state, &parts)
    }
}

/// The texts of the entries, one after the other.
pub open spec fn entry_texts(entries: Seq<SlideEntry>) -> Seq<Seq<char>> {
    entries.map_values(|e: SlideEntry| e.text@)
}

impl SlideLine {
    /// The entries of the line in the session `state`, and its text: for
    /// letters no entries and the letters, for words an entry for each
    /// word and their texts one after the other. Fails for the first word
    /// whose chords cannot be found or pressed together.
    pub fn to_entries(&self, state: &State) -> (r: Result<(Vec<SlideEntry>, String), Error>)
        requires
            state.wf(),
            state.tutor_data is Some,
        ensures
            match self {
                SlideLine::Letters(string) => r is Ok && r->Ok_0.0.len() == 0 && r->Ok_0.1@ == string@,
                SlideLine::Words { words, .. } => {
                    &&& r is Err ==> r->Err_0@ == no_chords_error() && exists|i: int|
                        0 <= i < words.len() && pressed_together(
                            state.tutor_data->0,
                            state.mode@,
                            name_views((#[trigger] words[i]).names@),
                        ) is None
                    &&& r is Ok ==> r->Ok_0.0.len() == words.len() && r->Ok_0.1@ == crate::text::concat(
                        entry_texts(r->Ok_0.0@),
                    ) && forall|i: int|
                        0 <= i < words.len() ==> pressed_together(
                            state.tutor_data->0,
                            state.mode@,
                            name_views((#[trigger] words[i]).names@),
                        ) == Some(r->Ok_0.0[i].chord@) && r->Ok_0.0[i].text@ == words[i].text@
                            && r->Ok_0.0[i].length == entry_length(words[i], graphemes_of(words[i].text@))
                },
            },
    {
        match self {
            SlideLine::Letters(string) => Ok((Vec::new(), string.clone())),
            SlideLine::Words { words, .. } => {
                let mut entries: Vec<SlideEntry> = Vec::new();
                let mut texts: Vec<String> = Vec::new();
                let mut i: usize = 0;
                while i < words.len()
                    invariant
                        i <= words.len(),
                        state.wf(),
                        state.tutor_data is Some,
                        self is Words,
                        self->words == *words,
                        entries.len() == i,
                        texts.len() == i,
                        forall|j: int| 0 <= j < i ==> (#[trigger] texts[j])@ == entries[j].text@,
                        forall|j: int|
                            0 <= j < i ==> pressed_together(
                                state.tutor_data->0,
                                state.mode@,
                                name_views((#[trigger] words[j]).names@),
                            ) == Some(entries[j].chord@) && entries[j].text@ == words[j].text@
                                && entries[j].length == entry_length(
                                words[j],
                                graphemes_of(words[j].text@),
                            ),
                    decreases words.len() - i,
                {
                    match SlideEntry::from_word(&words[i], state) {
                        Ok(entry) => {
                            texts.push(entry.text.clone());
                            entries.push(entry);
                        },
                        Err(e) => {
                            return Err(e);
                        },
                    }
                    i += 1;
                }
                assert(views(texts@) =~= entry_texts(entries@));
                let string = concat_strings(&texts);
                Ok((entries, string))
            },
        }
    }
}

/// Whether a character is written as a capital: it is not its own lower
/// case.
pub open spec fn is_capital(character: Seq<char>) -> bool {
    lowercase_of(character) != character
}

/// The chord that types a character whose lower case is `lower`: that of
/// the name that spells `lower`, pressed with the chord of `mod_shift` if
/// `capital`.
pub open spec fn spec_char_chord(data: TutorData, mode: Seq<char>, lower: Seq<char>, capital: bool) -> Option<
    ChordView,
> {
    if !data.spellings.has(lower) {
        None
    } else {
        match data.spec_chord(data.spellings.val(lower)@, mode) {
            None => None,
            Some(chord) => if !capital {
                Some(chord)
            } else {
                match data.spec_chord("mod_shift"@, mode) {
                    None => None,
                    Some(shift) => if shift.switches.len() == chord.switches.len() {
                        Some(chord.pressed_with(shift))
                    } else {
                        None
                    },
                }
            },
        }
    }
}

/// The chord that types a character whose lower case is `lower`, in the
/// session `state`.
pub fn chord_for_lower(lower: &str, capital: bool, state: &State) -> (found: Option<Chord>)
    requires
        state.wf(),
        state.tutor_data is Some,
    ensures
        match spec_char_chord(state.tutor_data->0, state.mode@, lower@, capital) {
            Some(chord) => found is Some && found->0@ == chord,
            None => found is None,
        },
{
    let name = match state.name(lower) {
        Some(name) => name,
        None => {
            return None;
        },
    };
    let mut chord = match state.chord(&name) {
        Some(chord) => chord,
        None => {
            return None;
        },
    };
    if capital {
        let shift = match state.chord(&Name::new("mod_shift")) {
            Some(shift) => shift,
            None => {
                return None;
            },
        };
        if shift.len() != chord.len() {
            return None;
        }
        chord.intersect(&shift);
    }
    Some(chord)
}

/// The chord that types `character` in the session `state`, if there is
/// one: that of its lower case, with the shift if it is a capital.
pub fn char_to_chord(character: &str, state: &State) -> (found: Option<Chord>)
    requires
        state.wf(),
        state.tutor_data is Some,
    ensures
        match spec_char_chord(
            state.tutor_data->0,
            state.mode@,
            lowercase_of(character@),
            is_capital(character@),
        ) {
            Some(chord) => found is Some && found->0@ == chord,
            None => found is None,
        },
{
    let lower = to_lowercase(character);
    let capital = !str_eq(lower.as_str(), character);
    chord_for_lower(lower.as_str(), capital, state)
}

/// The chord of the backspace key in the session `state`.
pub fn backspace_chord(state: &State) -> (found: Option<Chord>)
    requires
        state.wf(),
        state.tutor_data is Some,
    ensures
        match state.tutor_data->0.spec_chord("key_backspace"@, state.mode@) {
            Some(chord) => found is Some && found->0@ == chord,
            None => found is None,
        },
{
    state.chord(&Name::new("key_backspace"))
}

impl LabeledChord {
    /// The chord that types `letter` in the session `state`, with its
    /// label.
    pub fn from_letter(letter: &str, state: &State) -> (hint: Option<LabeledChord>)
        requires
            state.wf(),
            state.tutor_data is Some,
        ensures
            match spec_char_chord(
                state.tutor_data->0,
                state.mode@,
                lowercase_of(letter@),
                is_capital(letter@),
            ) {
                Some(chord) => hint is Some && hint->0@ == (LabeledChordView {
                    chord,
                    label: label_of(letter@),
                }),
                None => hint is None,
            },
    {
        match char_to_chord(letter, state) {
            Some(chord) => Some(LabeledChord { chord, label: Label::from_char(letter) }),
            None => None,
        }
    }
}

/// The number of characters of `s` before its first `_`.
pub open spec fn field_len(s: Seq<char>) -> nat
    decreases s.len(),
{
    if s.len() > 0 && s[0] != '_' {
        1 + field_len(s.drop_first())
    } else {
        0
    }
}

/// `field_len` is the position of the first `_`, or the length of `s`
/// where it has none.
proof fn lemma_field_len(s: Seq<char>, n: int)
    requires
        0 <= n <= s.len(),
        forall|j: int| 0 <= j < n ==> s[j] != '_',
        n < s.len() ==> s[n] == '_',
    ensures
        field_len(s) == n,
    decreases n,
{
    if n > 0 {
        let rest = s.drop_first();
        assert forall|j: int| 0 <= j < n - 1 implies rest[j] != '_' by {
            assert(rest[j] == s[j + 1]);
        }
        if n - 1 < rest.len() {
            assert(rest[n - 1] == s[n]);
        }
        lemma_field_len(rest, n - 1);
    }
}

/// The name of a lesson, made from the name of its file without the
/// extension: what stands before the first `_`, a closing parenthesis and
/// a space, and then the rest with a space in place of each `_`.
pub open spec fn lesson_name(stem: Seq<char>) -> Seq<char> {
    let n = field_len(stem);
    if n >= stem.len() {
        stem + ") "@
    } else {
        stem.take(n as int) + ") "@ + stem.skip(n as int + 1).map_values(
            |c: char| if c == '_' {
                ' '
            } else {
                c
            },
        )
    }
}

/// The name of the lesson whose file, without directory and extension, is
/// called `stem`.
pub fn lesson_path_to_name(stem: &str) -> (name: String)
    ensures
        name@ == lesson_name(stem@),
{
    let chars = chars_of(stem);
    let mut out: Vec<char> = Vec::new();
    let mut n: usize = 0;
    while n < chars.len() && chars[n] != '_'
        invariant
            n <= chars.len(),
            out@ == chars@.take(n as int),
            forall|j: int| 0 <= j < n ==> chars[j] != '_',
        decreases chars.len() - n,
    {
        out.push(chars[n]);
        assert(out@ =~= chars@.take(n + 1));
        n += 1;
    }
    proof {
        lemma_field_len(chars@, n as int);
        reveal_strlit(") ");
    }
    out.push(')');
    out.push(' ');
    assert(out@ =~= chars@.take(n as int) + ") "@);
    if n < chars.len() {
        let ghost head = out@;
        let ghost rest = chars@.skip(n + 1);
        let ghost spaced = rest.map_values(
            |c: char| if c == '_' {
                ' '
            } else {
                c
            },
        );
        let mut i: usize = n + 1;
        while i < chars.len()
            invariant
                n + 1 <= i <= chars.len(),
                rest == chars@.skip(n + 1),
                spaced == rest.map_values(
                    |c: char| if c == '_' {
                        ' '
                    } else {
                        c
                    },
                ),
                out@ == head + spaced.take(i - n - 1),
            decreases chars.len() - i,
        {
            let c = chars[i];
            assert(rest[i - n - 1] == c);
            out.push(if c == '_' { ' ' } else { c });
            assert(out@ =~= head + spaced.take(i - n));
            i += 1;
        }
        assert(spaced.take(i - n - 1) == spaced);
    } else {
        assert(chars@.take(n as int) == chars@);
    }
    string_from_chars(&out)
}

} // verus!
