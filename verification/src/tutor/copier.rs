//! The line that the tutor's pupil copies: what is to be typed, what has
//! been typed, and which chord to show as a hint for the next character.

use std::collections::HashMap;
use vstd::prelude::*;
use vstd::string::*;
use crate::sorted_map::StrMap;
use crate::text::{
    char_string, chars_of, concat, concat2, decimal, decimal_string, graphemes, graphemes_of, lowercase_of,
    repeat, repeat_string, str_eq, string_from_chars, views,
};
use crate::tutor::tutor_util::{
    entry_length, grapheme_slice, is_capital, label_of, no_chords_error, offset, pressed_together, slice_of,
    spec_char_chord, LabeledChord, LabeledChordView, PrevCharStatus, SlideEntry, SlideLine, SlideWord, State,
};
use crate::types::names::name_views;
use crate::types::errors::{Error, ErrorView};

verus! {

broadcast use vstd::std_specs::hash::group_hash_axioms;

/// The line that is copied, and how far the pupil has come.
pub struct Copier {
    num_chars: usize,
    point_marker: String,
    point_offset: usize,
    learned_keys: StrMap<i64>,
    line: CopierLine,
}

struct CopierLine {
    expected: String,
    actual: String,
    index: usize,
    check_errors: bool,
    hint_map: HashMap<usize, LabeledChord>,
    show_hints_within_words: bool,
    was_backspace_typed_last: bool,
}

/// A `Copier` as a mathematical value.
pub struct CopierView {
    /// The width of the line that is shown.
    pub num_chars: nat,
    /// Where in the line that is shown the next character stands.
    pub point_offset: nat,
    /// For each letter that had a hint within a word, how many more times
    /// than wrongly it must be typed correctly before its hint goes away.
    pub learned: Map<Seq<char>, i64>,
    /// What is to be typed, after the blanks that fill the line up to the
    /// point.
    pub expected: Seq<char>,
    /// What has been typed, after the same blanks.
    pub actual: Seq<char>,
    /// The number of characters typed and not taken back.
    pub index: nat,
    /// Whether a wrong character is shown as wrong.
    pub check_errors: bool,
    /// The chords to show at the beginning of the words, by the position of
    /// the word in the line.
    pub hints: Map<usize, LabeledChordView>,
    /// Whether a hint is shown for the letters within a word.
    pub show_hints_within_words: bool,
    /// Whether the pupil has just taken a character back.
    pub was_backspace_typed_last: bool,
}

/// How many times a letter must be typed correctly before its hint goes
/// away, when it is first met.
pub open spec fn first_count() -> i64 {
    5
}

/// How far from the left the point stands in a line of `num_chars`
/// characters: in the middle, and right of it where there is none.
pub open spec fn point_of(num_chars: nat) -> nat {
    (num_chars + 1) / 2
}

impl View for Copier {
    type V = CopierView;

    closed spec fn view(&self) -> CopierView {
        CopierView {
            num_chars: self.num_chars as nat,
            point_offset: self.point_offset as nat,
            learned: self.learned_keys@,
            expected: self.line.expected@,
            actual: self.line.actual@,
            index: self.line.index as nat,
            check_errors: self.line.check_errors,
            hints: Map::new(
                |k: usize| self.line.hint_map@.contains_key(k),
                |k: usize| self.line.hint_map@[k]@,
            ),
            show_hints_within_words: self.line.show_hints_within_words,
            was_backspace_typed_last: self.line.was_backspace_typed_last,
        }
    }
}

/// The chord that types `letter` in the session `state`, with its label,
/// if there is one.
pub open spec fn letter_hint(state: State, letter: Seq<char>) -> Option<LabeledChordView> {
    match spec_char_chord(state.tutor_data->0, state.mode@, lowercase_of(letter), is_capital(letter)) {
        Some(chord) => Some(LabeledChordView { chord, label: label_of(letter) }),
        None => None,
    }
}

/// A hint, if there is one, as a mathematical value.
pub open spec fn hint_view(hint: Option<LabeledChord>) -> Option<LabeledChordView> {
    match hint {
        Some(h) => Some(h@),
        None => None,
    }
}

impl CopierView {
    /// Whether as many characters have been typed as were to be.
    pub open spec fn at_end(self) -> bool {
        graphemes_of(self.actual).len() >= graphemes_of(self.expected).len()
    }

    /// The grapheme of `text` that stands `offset` places after the first
    /// that is shown, if one does: the graphemes typed so far have left the
    /// line, and as many more are shown as the line is wide.
    pub open spec fn shown_at(self, text: Seq<char>, offset: nat) -> Option<Seq<char>> {
        let shown = slice_of(graphemes_of(text), self.index, self.index + self.num_chars);
        if offset < shown.len() {
            Some(shown[offset as int])
        } else {
            None
        }
    }

    /// Whether the hint for the next character is that of a letter within
    /// a word: no word begins here, the line is not at its end, and such
    /// hints are shown.
    pub open spec fn within_word(self) -> bool {
        !self.hints.contains_key(self.index as usize) && !self.at_end() && self.show_hints_within_words
    }

    /// The letters once the next letter of a word has been met: it has
    /// its first count if it was not met before.
    pub open spec fn met(self, letter: Seq<char>) -> Map<Seq<char>, i64> {
        if self.learned.contains_key(letter) {
            self.learned
        } else {
            self.learned.insert(letter, first_count())
        }
    }

    /// The hint to show for the next character in the session `state`:
    /// that of the word that begins here; else, at the end of the line,
    /// that of the new line; else, if hints are shown within words, that of
    /// the next letter, as long as it is not learned or the pupil has just
    /// taken a character back.
    pub open spec fn hint(self, state: State) -> Option<LabeledChordView> {
        if self.hints.contains_key(self.index as usize) {
            Some(self.hints[self.index as usize])
        } else if self.at_end() {
            letter_hint(state, "\n"@)
        } else if !self.show_hints_within_words {
            None
        } else {
            let letter = self.shown_at(self.expected, self.point_offset)->0;
            if self.met(letter)[letter] >= 0 || self.was_backspace_typed_last {
                letter_hint(state, letter)
            } else {
                None
            }
        }
    }

    /// Whether the character typed last is wrong, and what it was, or why
    /// that cannot be said: nothing stands where it should.
    pub open spec fn last_wrong(self, state: State) -> Result<Option<Option<LabeledChordView>>, ErrorView> {
        let place = (self.point_offset - 1) as nat;
        if !self.check_errors {
            Ok(None)
        } else {
            match self.shown_at(self.actual, place) {
                None => Err(ErrorView::BadValue { thing: "character offset"@, value: decimal(place) }),
                Some(actual) => match self.shown_at(self.expected, place) {
                    None => Ok(Some(None)),
                    Some(expected) => if actual != expected {
                        Ok(Some(letter_hint(state, actual)))
                    } else {
                        Ok(None)
                    },
                },
            }
        }
    }
}

impl Copier {
    /// The letters are well kept, and the line that is shown ends at a
    /// position that can be counted.
    pub closed spec fn wf(&self) -> bool {
        &&& self.learned_keys.wf()
        &&& self.line.index + self.num_chars <= usize::MAX
    }

    /// The mark that is shown above the next character.
    pub closed spec fn spec_point_marker(&self) -> Seq<char> {
        self.point_marker@
    }

    /// A copier for lines that are shown `num_chars` wide, before a line
    /// is started: nothing is expected and nothing typed.
    pub fn new(num_chars: usize) -> (copier: Copier)
        requires
            num_chars < usize::MAX,
        ensures
            copier.wf(),
            copier.spec_point_marker() == "▼"@,
            copier@ == (CopierView {
                num_chars: num_chars as nat,
                point_offset: point_of(num_chars as nat),
                learned: Map::empty(),
                expected: Seq::empty(),
                actual: Seq::empty(),
                index: 0,
                check_errors: true,
                hints: Map::empty(),
                show_hints_within_words: true,
                was_backspace_typed_last: false,
            }),
    {
        let line = CopierLine {
            expected: String::new(),
            actual: String::new(),
            index: 0,
            was_backspace_typed_last: false,
            check_errors: true,
            hint_map: HashMap::new(),
            show_hints_within_words: true,
        };
        let copier = Copier {
            num_chars,
            point_offset: (num_chars + 1) / 2,
            point_marker: "▼".to_owned(),
            learned_keys: StrMap::new(),
            line,
        };
        proof {
            assert(copier@.learned =~= Map::empty());
            assert(copier@.hints =~= Map::empty());
            assert(copier@.expected =~= Seq::empty());
            assert(copier@.actual =~= Seq::empty());
        }
        copier
    }

    /// The mark that is shown above the next character.
    pub fn point_marker(&self) -> (mark: &str)
        ensures
            mark@ == self.spec_point_marker(),
    {
        self.point_marker.as_str()
    }

    /// The width and the height of what is shown: the mark, the line to
    /// type and the line typed.
    pub fn size(&self) -> (size: (usize, usize))
        ensures
            size.0 == self@.num_chars,
            size.1 == 3,
    {
        (self.num_chars, 3)
    }

    /// Whether as many characters have been typed as were to be.
    pub fn at_end_of_line(&self) -> (done: bool)
        ensures
            done == self@.at_end(),
    {
        let actual = graphemes(self.line.actual.as_str());
        let expected = graphemes(self.line.expected.as_str());
        proof {
            assert(crate::text::views(actual@).len() == actual.len());
            assert(crate::text::views(expected@).len() == expected.len());
        }
        actual.len() >= expected.len()
    }

    /// The pupil typed `character`.
    pub fn type_char(&mut self, character: char)
        requires
            old(self).wf(),
            old(self)@.index + old(self)@.num_chars < usize::MAX,
        ensures
            final(self).wf(),
            final(self).spec_point_marker() == old(self).spec_point_marker(),
            final(self)@ == (CopierView {
                actual: old(self)@.actual.push(character),
                index: old(self)@.index + 1,
                was_backspace_typed_last: false,
                ..old(self)@
            }),
    {
        let typed = concat2(self.line.actual.as_str(), char_string(character).as_str());
        self.line.actual = typed;
        self.line.index = self.line.index + 1;
        self.line.was_backspace_typed_last = false;
        proof {
            assert(self@.actual =~= old(self)@.actual.push(character));
            assert(self@.hints =~= old(self)@.hints);
        }
    }

    /// The pupil took the last character back, if one is typed.
    pub fn type_backspace(&mut self)
        requires
            old(self).wf(),
        ensures
            final(self).wf(),
            final(self).spec_point_marker() == old(self).spec_point_marker(),
            old(self)@.index == 0 ==> final(self)@ == old(self)@,
            old(self)@.index > 0 ==> final(self)@ == (CopierView {
                actual: if old(self)@.actual.len() > 0 {
                    old(self)@.actual.drop_last()
                } else {
                    old(self)@.actual
                },
                index: (old(self)@.index - 1) as nat,
                was_backspace_typed_last: true,
                ..old(self)@
            }),
    {
        if self.line.index > 0 {
            let mut chars = chars_of(self.line.actual.as_str());
            if chars.len() > 0 {
                chars.pop();
            }
            self.line.actual = string_from_chars(&chars);
            self.line.index = self.line.index - 1;
            self.line.was_backspace_typed_last = true;
            proof {
                assert(self@.hints =~= old(self)@.hints);
                if old(self)@.actual.len() > 0 {
                    assert(self@.actual =~= old(self)@.actual.drop_last());
                } else {
                    assert(self@.actual =~= old(self)@.actual);
                }
            }
        }
    }
}

/// The number of characters that a word of a slide counts for.
pub open spec fn word_length(word: SlideWord) -> nat {
    entry_length(word, graphemes_of(word.text@))
}

/// The position in the line of the word after the first `n`: as many
/// characters as those count for.
pub open spec fn word_position(words: Seq<SlideWord>, n: int) -> nat
    decreases n,
{
    if n <= 0 {
        0
    } else {
        word_position(words, n - 1) + word_length(words[n - 1])
    }
}

/// The chord of a word of a slide in the session `state`, with its label:
/// the word itself, if it is one grapheme, with the names of the keys that
/// have one; else none.
pub open spec fn word_hint(state: State, word: SlideWord) -> LabeledChordView {
    LabeledChordView {
        chord: pressed_together(state.tutor_data->0, state.mode@, name_views(word.names@))->0,
        label: if graphemes_of(word.text@).len() == 1 {
            label_of(word.text@)
        } else {
            Seq::empty()
        },
    }
}

/// The chords to show at the beginning of the first `n` words, by the
/// position of the word; of words at one position the last stays.
pub open spec fn word_hints(state: State, words: Seq<SlideWord>, n: int) -> Map<usize, LabeledChordView>
    decreases n,
{
    if n <= 0 {
        Map::empty()
    } else {
        word_hints(state, words, n - 1).insert(
            word_position(words, n - 1) as usize,
            word_hint(state, words[n - 1]),
        )
    }
}

/// The words of a line, none for a line of letters.
pub open spec fn line_words(line: SlideLine) -> Seq<SlideWord> {
    match line {
        SlideLine::Letters(_) => Seq::empty(),
        SlideLine::Words { words, .. } => words@,
    }
}

/// What is to be typed for a line: its letters, or the texts of its words
/// one after the other.
pub open spec fn line_text(line: SlideLine) -> Seq<char> {
    match line {
        SlideLine::Letters(string) => string@,
        SlideLine::Words { words, .. } => concat(words@.map_values(|w: SlideWord| w.text@)),
    }
}

/// Whether a word of the line has no chord in the session `state`.
pub open spec fn line_fails(state: State, line: SlideLine) -> bool {
    exists|i: int|
        0 <= i < line_words(line).len() && pressed_together(
            state.tutor_data->0,
            state.mode@,
            name_views((#[trigger] line_words(line)[i]).names@),
        ) is None
}

/// The copier at the start of the line `line` in the session `state`:
/// nothing is typed but the blanks that fill the line up to the point.
pub open spec fn started(before: CopierView, state: State, line: SlideLine) -> CopierView {
    CopierView {
        num_chars: before.num_chars,
        point_offset: before.point_offset,
        learned: before.learned,
        expected: repeat(' ', before.point_offset) + line_text(line),
        actual: repeat(' ', before.point_offset),
        index: 0,
        check_errors: match line {
            SlideLine::Letters(_) => true,
            SlideLine::Words { show_errors, .. } => show_errors,
        },
        hints: word_hints(state, line_words(line), line_words(line).len() as int),
        show_hints_within_words: !crate::tutor::tutor_util::some_override(
            line_words(line),
            line_words(line).len() as int,
        ),
        was_backspace_typed_last: false,
    }
}

/// How many of the first `n` characters typed are not those that were to
/// be typed.
pub open spec fn wrong_count(actual: Seq<Seq<char>>, expected: Seq<Seq<char>>, n: int) -> nat
    decreases n,
{
    if n <= 0 {
        0
    } else if actual[n - 1] != expected[n - 1] {
        wrong_count(actual, expected, n - 1) + 1
    } else {
        wrong_count(actual, expected, n - 1)
    }
}

impl Copier {
    /// The grapheme of `string` that stands `offset` places after the
    /// first that is shown.
    fn char_at_offset(&self, string: &str, offset: usize) -> (found: Option<String>)
        requires
            self.wf(),
        ensures
            match self@.shown_at(string@, offset as nat) {
                Some(part) => found is Some && found->0@ == part,
                None => found is None,
            },
    {
        let parts = grapheme_slice(string, self.line.index, self.line.index + self.num_chars);
        assert(views(parts@).len() == parts.len());
        if offset < parts.len() {
            assert(views(parts@)[offset as int] == parts[offset as int]@);
            Some(parts[offset].clone())
        } else {
            None
        }
    }

    /// Whether the character typed last is the one that was to be typed,
    /// and if not, the chord that types it, where it has one. Where wrong
    /// characters are not shown, every character counts as correct. Fails
    /// where nothing typed stands before the point.
    pub fn last_wrong_char(&self, state: &State) -> (r: Result<PrevCharStatus, Error>)
        requires
            self.wf(),
            self@.point_offset > 0,
            state.wf(),
            state.tutor_data is Some,
        ensures
            match self@.last_wrong(*state) {
                Err(e) => r is Err && r->Err_0@ == e,
                Ok(None) => r is Ok && r->Ok_0 is Correct,
                Ok(Some(wrong)) => r is Ok && r->Ok_0 is Incorrect && hint_view(r->Ok_0->Incorrect_0) == wrong,
            },
    {
        if !self.line.check_errors {
            return Ok(PrevCharStatus::Correct);
        }
        let offset = self.point_offset - 1;
        let actual = match self.char_at_offset(self.line.actual.as_str(), offset) {
            Some(actual) => actual,
            None => {
                return Err(Error::bad_value("character offset", decimal_string(offset).as_str()));
            },
        };
        let expected = match self.char_at_offset(self.line.expected.as_str(), offset) {
            Some(expected) => expected,
            None => {
                return Ok(PrevCharStatus::Incorrect(None));
            },
        };
        if !str_eq(actual.as_str(), expected.as_str()) {
            Ok(PrevCharStatus::Incorrect(LabeledChord::from_letter(actual.as_str(), state)))
        } else {
            Ok(PrevCharStatus::Correct)
        }
    }

    /// The hint to show for the next character, if one is to be shown. A
    /// letter within a word that is met for the first time is from then on
    /// counted among the letters.
    pub fn next_hint(&mut self, state: &State) -> (r: Result<Option<LabeledChord>, Error>)
        requires
            old(self).wf(),
            state.wf(),
            state.tutor_data is Some,
            old(self)@.within_word() ==> old(self)@.shown_at(old(self)@.expected, old(self)@.point_offset) is Some,
        ensures
            final(self).wf(),
            final(self).spec_point_marker() == old(self).spec_point_marker(),
            r is Ok,
            hint_view(r->Ok_0) == old(self)@.hint(*state),
            final(self)@ == (CopierView {
                learned: if old(self)@.within_word() {
                    old(self)@.met(old(self)@.shown_at(old(self)@.expected, old(self)@.point_offset)->0)
                } else {
                    old(self)@.learned
                },
                ..old(self)@
            }),
    {
        proof {
            assert(self@.hints.contains_key(self.line.index) == self.line.hint_map@.contains_key(
                self.line.index,
            ));
        }
        match self.line.hint_map.get(&self.line.index) {
            Some(hint) => {
                return Ok(Some(hint.clone()));
            },
            None => {},
        }
        if self.at_end_of_line() {
            proof {
                reveal_strlit("\n");
            }
            return Ok(LabeledChord::from_letter("\n", state));
        }
        if !self.line.show_hints_within_words {
            return Ok(None);
        }
        let next_letter = match self.char_at_offset(self.line.expected.as_str(), self.point_offset) {
            Some(letter) => letter,
            None => vstd::pervasive::unreached(),
        };
        let count = match self.learned_keys.get(next_letter.as_str()) {
            Some(count) => *count,
            None => {
                self.learned_keys.insert(next_letter.clone(), 5);
                5
            },
        };
        proof {
            assert(self@.learned =~= old(self)@.met(next_letter@));
            assert(self@.hints =~= old(self)@.hints);
        }
        if count >= 0 || self.line.was_backspace_typed_last {
            Ok(LabeledChord::from_letter(next_letter.as_str(), state))
        } else {
            Ok(None)
        }
    }

    /// The hint to show for the next character, as `next_hint` gives it, or
    /// `None` where the hint would be that of a letter within a word but no
    /// letter stands at the point; the copier is then as it was.
    pub fn try_next_hint(&mut self, state: &State) -> (r: Option<Result<Option<LabeledChord>, Error>>)
        requires
            old(self).wf(),
            state.wf(),
            state.tutor_data is Some,
        ensures
            final(self).wf(),
            final(self).spec_point_marker() == old(self).spec_point_marker(),
            r is None == (old(self)@.within_word() && old(self)@.shown_at(
                old(self)@.expected,
                old(self)@.point_offset,
            ) is None),
            r is None ==> final(self)@ == old(self)@,
            r is Some ==> r->0 is Ok && hint_view(r->0->Ok_0) == old(self)@.hint(*state) && final(self)@ == (
            CopierView {
                learned: if old(self)@.within_word() {
                    old(self)@.met(old(self)@.shown_at(old(self)@.expected, old(self)@.point_offset)->0)
                } else {
                    old(self)@.learned
                },
                ..old(self)@
            }),
    {
        proof {
            assert(self@.hints.contains_key(self.line.index) == self.line.hint_map@.contains_key(
                self.line.index,
            ));
        }
        let within = !self.line.hint_map.contains_key(&self.line.index) && !self.at_end_of_line()
            && self.line.show_hints_within_words;
        if within && self.char_at_offset(self.line.expected.as_str(), self.point_offset).is_none() {
            None
        } else {
            Some(self.next_hint(state))
        }
    }
}

/// The chords to show at the beginning of the words whose entries are
/// `entries`, by the position of the word.
fn make_hint_map(entries: &Vec<SlideEntry>, Ghost(state): Ghost<State>, Ghost(words): Ghost<Seq<SlideWord>>) -> (map:
    HashMap<usize, LabeledChord>)
    requires
        entries.len() == words.len(),
        word_position(words, words.len() as int) <= usize::MAX,
        forall|i: int|
            0 <= i < words.len() ==> (#[trigger] entries[i]).chord@ == word_hint(state, words[i]).chord
                && entries[i].text@ == words[i].text@ && entries[i].length == word_length(words[i]),
    ensures
        forall|k: usize|
            map@.contains_key(k) == word_hints(state, words, words.len() as int).contains_key(k),
        forall|k: usize|
            map@.contains_key(k) ==> (#[trigger] map@[k])@ == word_hints(state, words, words.len() as int)[k],
{
    let mut position: usize = 0;
    let mut map: HashMap<usize, LabeledChord> = HashMap::new();
    let mut i: usize = 0;
    while i < entries.len()
        invariant
            i <= entries.len(),
            entries.len() == words.len(),
            word_position(words, words.len() as int) <= usize::MAX,
            forall|j: int|
                0 <= j < words.len() ==> (#[trigger] entries[j]).chord@ == word_hint(state, words[j]).chord
                    && entries[j].text@ == words[j].text@ && entries[j].length == word_length(words[j]),
            position == word_position(words, i as int),
            forall|k: usize| map@.contains_key(k) == word_hints(state, words, i as int).contains_key(k),
            forall|k: usize|
                map@.contains_key(k) ==> (#[trigger] map@[k])@ == word_hints(state, words, i as int)[k],
        decreases entries.len() - i,
    {
        proof {
            lemma_position_grows(words, i + 1, words.len() as int);
        }
        map.insert(position, entries[i].to_labeled_chord());
        position = position + entries[i].len();
        i += 1;
    }
    map
}

/// The positions of the words do not go back.
proof fn lemma_position_grows(words: Seq<SlideWord>, n: int, m: int)
    requires
        0 <= n <= m,
    ensures
        word_position(words, n) <= word_position(words, m),
    decreases m,
{
    if n < m {
        lemma_position_grows(words, n, m - 1);
    }
}

impl Copier {
    /// The number of blanks that stand before the line: as many as fill it
    /// up to the point.
    pub fn extra_spaces(&self) -> (n: usize)
        ensures
            n == self@.point_offset,
    {
        self.point_offset
    }

    /// The number of characters that are to be typed, the blanks before
    /// the line counted too.
    pub fn expected_chars(&self) -> (n: usize)
        ensures
            n == graphemes_of(self@.expected).len(),
    {
        let expected = graphemes(self.line.expected.as_str());
        assert(views(expected@).len() == expected.len());
        expected.len()
    }

    /// The number of characters typed that are not those that were to be
    /// typed; what is typed beyond the end of the line does not count.
    pub fn wrong_chars(&self) -> (n: usize)
        ensures
            n == wrong_count(
                graphemes_of(self@.actual),
                graphemes_of(self@.expected),
                if graphemes_of(self@.actual).len() < graphemes_of(self@.expected).len() {
                    graphemes_of(self@.actual).len() as int
                } else {
                    graphemes_of(self@.expected).len() as int
                },
            ),
    {
        let actual = graphemes(self.line.actual.as_str());
        let expected = graphemes(self.line.expected.as_str());
        let ghost a = graphemes_of(self@.actual);
        let ghost e = graphemes_of(self@.expected);
        assert(views(actual@).len() == actual.len());
        assert(views(expected@).len() == expected.len());
        let mut wrong: usize = 0;
        let mut i: usize = 0;
        while i < actual.len() && i < expected.len()
            invariant
                i <= actual.len(),
                i <= expected.len(),
                views(actual@) == a,
                views(expected@) == e,
                wrong <= i,
                wrong == wrong_count(a, e, i as int),
            decreases actual.len() - i,
        {
            assert(views(actual@)[i as int] == actual[i as int]@);
            assert(views(expected@)[i as int] == expected[i as int]@);
            if !str_eq(actual[i].as_str(), expected[i].as_str()) {
                wrong = wrong + 1;
            }
            i += 1;
        }
        wrong
    }

    /// Starts the line `line` in the session `state`: what is to be typed
    /// and what is typed begin with the blanks that fill the line up to the
    /// point, and the words have their hints at their positions. Fails
    /// where a word of the line has no chord; the copier is then as it was.
    pub fn start_line(&mut self, line: &SlideLine, state: &State) -> (r: Result<(), Error>)
        requires
            old(self).wf(),
            state.wf(),
            state.tutor_data is Some,
            !line_fails(*state, *line) ==> word_position(line_words(*line), line_words(*line).len() as int)
                <= usize::MAX,
        ensures
            final(self).wf(),
            final(self).spec_point_marker() == old(self).spec_point_marker(),
            line_fails(*state, *line) ==> r is Err && r->Err_0@ == no_chords_error() && final(self)@ == old(
                self,
            )@,
            !line_fails(*state, *line) ==> r is Ok && final(self)@ == started(old(self)@, *state, *line),
    {
        let (entries, text) = match line.to_entries(state) {
            Ok(pair) => pair,
            Err(e) => {
                proof {
                    match line {
                        SlideLine::Letters(_) => {},
                        SlideLine::Words { words, .. } => {
                            let i = choose|i: int|
                                0 <= i < words.len() && pressed_together(
                                    state.tutor_data->0,
                                    state.mode@,
                                    name_views((#[trigger] words[i]).names@),
                                ) is None;
                            assert(line_words(*line)[i] == words[i]);
                        },
                    }
                }
                return Err(e);
            },
        };
        let ghost words = line_words(*line);
        proof {
            match line {
                SlideLine::Letters(_) => {},
                SlideLine::Words { words: listed, .. } => {
                    assert forall|i: int| 0 <= i < listed.len() implies pressed_together(
                        state.tutor_data->0,
                        state.mode@,
                        name_views((#[trigger] line_words(*line)[i]).names@),
                    ) is Some by {
                        assert(line_words(*line)[i] == listed[i]);
                    }
                    assert(crate::tutor::tutor_util::entry_texts(entries@) =~= listed@.map_values(
                        |w: SlideWord| w.text@,
                    ));
                },
            }
            assert(!line_fails(*state, *line));
        }
        proof {
            reveal_strlit(" ");
        }
        let pad = repeat_string(" ", self.point_offset);
        let expected = concat2(pad.as_str(), text.as_str());
        let hint_map = make_hint_map(&entries, Ghost(*state), Ghost(words));
        self.line = CopierLine {
            expected,
            actual: pad,
            index: 0,
            check_errors: line.show_errors(),
            hint_map,
            show_hints_within_words: !line.has_length_overrides(),
            was_backspace_typed_last: false,
        };
        proof {
            assert(self@.hints =~= started(old(self)@, *state, *line).hints);
        }
        Ok(())
    }
}

impl Copier {
    /// Starts the line `line` as `start_line` does, or gives `None` where
    /// each word has its chord but the positions of the words cannot be
    /// counted; the copier is then as it was.
    pub fn try_start_line(&mut self, line: &SlideLine, state: &State) -> (r: Option<Result<(), Error>>)
        requires
            old(self).wf(),
            state.wf(),
            state.tutor_data is Some,
        ensures
            final(self).wf(),
            final(self).spec_point_marker() == old(self).spec_point_marker(),
            r is None == (!line_fails(*state, *line) && word_position(
                line_words(*line),
                line_words(*line).len() as int,
            ) > usize::MAX),
            r is None ==> final(self)@ == old(self)@,
            r is Some && line_fails(*state, *line) ==> r->0 is Err && r->0->Err_0@ == no_chords_error()
                && final(self)@ == old(self)@,
            r is Some && !line_fails(*state, *line) ==> r->0 is Ok && final(self)@ == started(
                old(self)@,
                *state,
                *line,
            ),
    {
        let ghost words = line_words(*line);
        match line.to_entries(state) {
            Err(_) => {
                proof {
                    match line {
                        SlideLine::Letters(_) => {},
                        SlideLine::Words { words: listed, .. } => {
                            let i = choose|i: int|
                                0 <= i < listed.len() && pressed_together(
                                    state.tutor_data->0,
                                    state.mode@,
                                    name_views((#[trigger] listed[i]).names@),
                                ) is None;
                            assert(line_words(*line)[i] == listed[i]);
                        },
                    }
                    assert(line_fails(*state, *line));
                }
            },
            Ok((entries, _)) => {
                proof {
                    match line {
                        SlideLine::Letters(_) => {},
                        SlideLine::Words { words: listed, .. } => {
                            assert forall|i: int| 0 <= i < listed.len() implies pressed_together(
                                state.tutor_data->0,
                                state.mode@,
                                name_views((#[trigger] line_words(*line)[i]).names@),
                            ) is Some by {
                                assert(line_words(*line)[i] == listed[i]);
                            }
                        },
                    }
                    assert(!line_fails(*state, *line));
                }
                let mut position: usize = 0;
                let mut i: usize = 0;
                while i < entries.len()
                    invariant
                        i <= entries.len(),
                        entries.len() == words.len(),
                        forall|j: int|
                            0 <= j < words.len() ==> (#[trigger] entries[j]).length == word_length(words[j]),
                        position == word_position(words, i as int),
                        words == line_words(*line),
                        !line_fails(*state, *line),
                        self.wf(),
                        self@ == old(self)@,
                        self.spec_point_marker() == old(self).spec_point_marker(),
                    decreases entries.len() - i,
                {
                    if entries[i].len() > usize::MAX - position {
                        proof {
                            lemma_position_grows(words, i + 1, words.len() as int);
                        }
                        return None;
                    }
                    position = position + entries[i].len();
                    i += 1;
                }
            },
        }
        Some(self.start_line(line, state))
    }
}

/// Whether the character typed is the one that was to be typed at its
/// place; where nothing was to be typed, it is not.
pub fn is_as_expected(actual: &str, expected: Option<&String>) -> (right: bool)
    ensures
        right == (expected is Some && expected->0@ == actual@),
{
    match expected {
        Some(expected) => str_eq(actual, expected.as_str()),
        None => false,
    }
}

impl Copier {
    /// The part that is shown of what is to be typed: the graphemes typed
    /// so far have left the line, and as many more are shown as the line
    /// is wide.
    pub fn expected_shown(&self) -> (parts: Vec<String>)
        requires
            self.wf(),
        ensures
            views(parts@) == slice_of(
                graphemes_of(self@.expected),
                self@.index,
                self@.index + self@.num_chars,
            ),
    {
        grapheme_slice(self.line.expected.as_str(), self.line.index, self.line.index + self.num_chars)
    }

    /// The part that is shown of what has been typed.
    pub fn actual_shown(&self) -> (parts: Vec<String>)
        requires
            self.wf(),
        ensures
            views(parts@) == slice_of(
                graphemes_of(self@.actual),
                self@.index,
                self@.index + self@.num_chars,
            ),
    {
        grapheme_slice(self.line.actual.as_str(), self.line.index, self.line.index + self.num_chars)
    }

    /// How far the text is moved in to stand in the middle of what is
    /// shown: not at all, as the text is as wide.
    pub fn text_padding(&self) -> (pad: (usize, usize))
        ensures
            pad.0 == 0,
            pad.1 == 0,
    {
        (offset(self.num_chars, self.num_chars), 0)
    }
}

} // verus!
