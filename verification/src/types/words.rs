//! Words of the dictionary: each is typed by one chord made of the chords of
//! its letters.

use vstd::prelude::*;
use vstd::string::*;
use crate::text::{
    char_string, chars_of, concat3, decimal, decimal_string, graphemes, graphemes_of, lowercase_of,
    to_lowercase, views,
};
use crate::types::chord::{Chord, ChordView};
use crate::types::errors::{Error, ErrorView};
use crate::types::key_press::{press_for, KeyPress, KeyPressView, Sequence};
use crate::types::maps::AllData;
use crate::types::names::{KmapPath, Name};

verus! {

/// Tells apart the names that share one pattern of switches.
#[derive(Debug, Clone, Copy, PartialEq, Eq, Structural)]
pub struct AnagramNum(pub u8);

impl AnagramNum {
    /// The largest anagram number that the firmware's lookup table can hold.
    pub open spec fn spec_max_allowable() -> u8 {
        15
    }

    /// The largest anagram number that the firmware's lookup table can hold.
    #[verifier::when_used_as_spec(spec_max_allowable)]
    pub fn max_allowable() -> (max: u8)
        ensures
            max == Self::spec_max_allowable(),
    {
        15
    }

    /// The anagram numbers from zero to this one, in order.
    pub fn up_to(&self) -> (all: Vec<AnagramNum>)
        ensures
            all@ == Seq::new(self.0 as nat + 1, |i: int| AnagramNum(i as u8)),
    {
        let mut all: Vec<AnagramNum> = Vec::new();
        let mut i: u8 = 0;
        while i < self.0
            invariant
                i <= self.0,
                all@ == Seq::new(i as nat, |j: int| AnagramNum(j as u8)),
            decreases self.0 - i,
        {
            all.push(AnagramNum(i));
            assert(all@ =~= Seq::new(i as nat + 1, |j: int| AnagramNum(j as u8)));
            i += 1;
        }
        all.push(AnagramNum(i));
        assert(all@ =~= Seq::new(self.0 as nat + 1, |j: int| AnagramNum(j as u8)));
        all
    }

    /// Whether the number is one that the firmware can hold.
    pub open spec fn is_valid(self) -> bool {
        self.0 <= Self::spec_max_allowable()
    }

    /// Accepts the numbers up to `max_allowable()` and rejects the others.
    pub fn validate(&self) -> (r: Result<(), Error>)
        ensures
            self.is_valid() ==> r is Ok,
            !self.is_valid() ==> r is Err && r->Err_0@ == (ErrorView::OutOfRange {
                name: "anagram number"@,
                value: self.0 as nat,
                min: 0,
                max: 15,
            }),
    {
        let max = AnagramNum::max_allowable();
        if self.0 > max {
            Err(
                Error::OutOfRange {
                    name: "anagram number".to_owned(),
                    value: self.0 as usize,
                    min: 0,
                    max: max as usize,
                },
            )
        } else {
            Ok(())
        }
    }
}


/// A word of the dictionary as the registry holds it: its name, the
/// sequence that it types and the chord that types it.
#[derive(Debug, PartialEq, Eq)]
pub struct Word {
    pub name: Name,
    pub seq: Sequence,
    pub chord: Chord,
}

/// A `Word` as a mathematical value.
pub struct WordView {
    pub name: Seq<char>,
    pub seq: Seq<KeyPressView>,
    pub chord: ChordView,
}

impl View for Word {
    type V = WordView;

    open spec fn view(&self) -> WordView {
        WordView { name: self.name@, seq: self.seq@, chord: self.chord@ }
    }
}

/// A word as the settings give it: its spelling, the anagram number of its
/// chord, and the letters of its chord where they are not those of the
/// spelling.
#[derive(Debug, PartialEq, Eq)]
pub struct WordConfig {
    pub word: String,
    pub anagram: Option<AnagramNum>,
    pub chord: Option<String>,
}

/// Builds a word for the layout `kmap` from the chords that `all_data`
/// holds for its letters.
pub struct WordBuilder<'a> {
    pub info: WordConfig,
    pub kmap: &'a KmapPath,
    pub all_data: &'a AllData,
}

impl WordConfig {
    /// The letters of the chord.
    pub open spec fn spec_chord_spelling(&self) -> Seq<char> {
        match self.chord {
            Some(letters) => letters@,
            None => self.word@,
        }
    }

    /// The anagram number, 0 where none is given.
    pub open spec fn spec_anagram_num(&self) -> u8 {
        match self.anagram {
            Some(num) => num.0,
            None => 0,
        }
    }

    /// The name of the word: `word_`, its spelling, the letters of its
    /// chord if they are given, and its anagram number, with `_` between.
    pub open spec fn spec_name(&self) -> Seq<char> {
        "word_"@ + self.word@ + (match self.chord {
            Some(letters) => "_"@ + letters@,
            None => Seq::empty(),
        }) + "_"@ + decimal(self.spec_anagram_num() as nat)
    }

    /// The text that the word types.
    pub fn seq_spelling(&self) -> (text: String)
        ensures
            text@ == self.word@,
    {
        self.word.clone()
    }

    /// The letters of the chord: those given for it, or else those of the
    /// word.
    pub fn chord_spelling(&self) -> (text: String)
        ensures
            text@ == self.spec_chord_spelling(),
    {
        match &self.chord {
            Some(letters) => letters.clone(),
            None => self.word.clone(),
        }
    }

    /// The anagram number, 0 where none is given.
    pub fn anagram_num(&self) -> (num: AnagramNum)
        ensures
            num.0 == self.spec_anagram_num(),
    {
        match self.anagram {
            Some(num) => num,
            None => AnagramNum(0),
        }
    }

    /// Whether letters are given for the chord.
    pub fn has_alternate_chord(&self) -> (yes: bool)
        ensures
            yes == self.chord is Some,
    {
        self.chord.is_some()
    }

    /// Accepts the word unless its anagram number is too large.
    pub fn validate(&self) -> (r: Result<(), Error>)
        ensures
            self.spec_anagram_num() <= 15 ==> r is Ok,
            self.spec_anagram_num() > 15 ==> r is Err && r->Err_0@ == (ErrorView::OutOfRange {
                name: "anagram number"@,
                value: self.spec_anagram_num() as nat,
                min: 0,
                max: 15,
            }),
    {
        self.anagram_num().validate()
    }
}

/// What the words of a registry are built from and what they add to it.
pub struct Lexicon {
    /// The number of switches of a chord.
    pub chord_len: nat,
    /// For each spelling, the name of the chord that types it.
    pub spellings: Map<Seq<char>, Seq<char>>,
    /// The chord of each name on each layout, by the name and the path of
    /// the layout.
    pub chords: Map<(Seq<char>, Seq<char>), ChordView>,
    /// The sequence of each word, by its name.
    pub words: Map<Seq<char>, Seq<KeyPressView>>,
    /// The largest anagram number of a word.
    pub max_anagram_num: u8,
}

impl Lexicon {
    /// The lexicon with `word` added to the layout `kmap`: its sequence
    /// among the words, its chord on the layout, and its anagram number
    /// taken into the largest.
    pub open spec fn with_word(self, kmap: Seq<char>, word: WordView) -> Lexicon {
        Lexicon {
            chord_len: self.chord_len,
            spellings: self.spellings,
            chords: self.chords.insert((word.name, kmap), word.chord),
            words: self.words.insert(word.name, word.seq),
            max_anagram_num: if word.chord.anagram_num > self.max_anagram_num {
                word.chord.anagram_num
            } else {
                self.max_anagram_num
            },
        }
    }
}

/// The chord of the letter spelled `spelling` on the layout `kmap`, or why
/// there is none: no chord is known to type the spelling, or the layout has
/// no chord of that name.
pub open spec fn letter_chord(lex: Lexicon, kmap: Seq<char>, spelling: Seq<char>) -> Result<
    ChordView,
    ErrorView,
> {
    if !lex.spellings.contains_key(spelling) {
        Err(ErrorView::Lookup { key: spelling, container: "spellings"@ })
    } else {
        let name = lex.spellings[spelling];
        if lex.chords.contains_key((name, kmap)) {
            Ok(lex.chords[(name, kmap)])
        } else {
            Err(ErrorView::Lookup { key: name, container: "chords"@ })
        }
    }
}

/// `start` with the chords of all the `letters` pressed too, or the error
/// of the first letter that has no chord.
pub open spec fn letters_chord(
    lex: Lexicon,
    kmap: Seq<char>,
    letters: Seq<Seq<char>>,
    start: ChordView,
) -> Result<ChordView, ErrorView>
    decreases letters.len(),
{
    if letters.len() == 0 {
        Ok(start)
    } else {
        match letter_chord(lex, kmap, letters[0]) {
            Ok(chord) => letters_chord(lex, kmap, letters.drop_first(), start.pressed_with(chord)),
            Err(e) => Err(e),
        }
    }
}

/// The presses that type the graphemes, or the error of the first grapheme
/// that no press types.
pub open spec fn graphemes_sequence(parts: Seq<Seq<char>>) -> Result<Seq<KeyPressView>, ErrorView>
    decreases parts.len(),
{
    if parts.len() == 0 {
        Ok(Seq::empty())
    } else {
        match graphemes_sequence(parts.drop_last()) {
            Err(e) => Err(e),
            Ok(presses) => match press_for(parts.last()) {
                Some(press) => Ok(presses.push(press)),
                None => Err(ErrorView::BadValue { thing: "character"@, value: parts.last() }),
            },
        }
    }
}

/// The spellings of the letters of a chord: each character in lower case.
pub open spec fn chord_letters(spelling: Seq<char>) -> Seq<Seq<char>> {
    spelling.map_values(|c: char| lowercase_of(seq![c]))
}

/// The word that the letters and graphemes make, or why they make none: the
/// error of the chord, in its context, before that of the sequence.
pub open spec fn built_word(
    lex: Lexicon,
    kmap: Seq<char>,
    info: WordConfig,
    letters: Seq<Seq<char>>,
    parts: Seq<Seq<char>>,
) -> Result<WordView, ErrorView> {
    let start = ChordView {
        switches: ChordView::blank(lex.chord_len).switches,
        anagram_num: info.spec_anagram_num(),
    };
    let chord = if info.spec_anagram_num() > 15 {
        Err(
            ErrorView::OutOfRange {
                name: "anagram number"@,
                value: info.spec_anagram_num() as nat,
                min: 0,
                max: 15,
            },
        )
    } else {
        letters_chord(lex, kmap, letters, start)
    };
    match chord {
        Err(e) => Err(
            ErrorView::Context {
                message: "Failed to make chord for: '"@ + info.word@ + "'"@,
                cause: Box::new(e),
            },
        ),
        Ok(c) => match graphemes_sequence(parts) {
            Err(e) => Err(
                ErrorView::Context {
                    message: "Failed to make sequence for: '"@ + info.word@ + "'"@,
                    cause: Box::new(e),
                },
            ),
            Ok(seq) => Ok(WordView { name: info.spec_name(), seq, chord: c }),
        },
    }
}

/// A grapheme that no press types, once found, stays the first one.
proof fn lemma_graphemes_error_stays(parts: Seq<Seq<char>>, n: int)
    requires
        0 <= n <= parts.len(),
        graphemes_sequence(parts.take(n)) is Err,
    ensures
        graphemes_sequence(parts) == graphemes_sequence(parts.take(n)),
    decreases parts.len() - n,
{
    if n < parts.len() {
        assert(parts.take(n + 1).drop_last() == parts.take(n));
        lemma_graphemes_error_stays(parts, n + 1);
    } else {
        assert(parts.take(n) == parts);
    }
}

impl<'a> WordBuilder<'a> {
    /// The name of the word.
    pub fn make_name(&self) -> (name: Name)
        ensures
            name@ == self.info.spec_name(),
    {
        let mut name = "word_".to_owned();
        name.append(self.info.seq_spelling().as_str());
        if self.info.has_alternate_chord() {
            name.append("_");
            name.append(self.info.chord_spelling().as_str());
        }
        name.append("_");
        name.append(decimal_string(self.info.anagram_num().0 as usize).as_str());
        assert(name@ =~= self.info.spec_name());
        Name(name)
    }

    /// The presses that type the graphemes `parts`.
    pub fn sequence_from_graphemes(parts: &Vec<String>) -> (r: Result<Sequence, Error>)
        ensures
            match graphemes_sequence(views(parts@)) {
                Ok(seq) => r is Ok && r->Ok_0@ == seq,
                Err(e) => r is Err && r->Err_0@ == e,
            },
    {
        let ghost all = views(parts@);
        let mut seq = Sequence::new();
        let mut i: usize = 0;
        assert(all.take(0) =~= Seq::empty());
        while i < parts.len()
            invariant
                i <= parts.len(),
                all == views(parts@),
                graphemes_sequence(all.take(i as int)) == Ok::<Seq<KeyPressView>, ErrorView>(seq@),
            decreases parts.len() - i,
        {
            proof {
                assert(all.take(i + 1).drop_last() == all.take(i as int));
                assert(all.take(i + 1).last() == parts[i as int]@);
            }
            match KeyPress::from_str(parts[i].as_str()) {
                Ok(press) => {
                    seq.push(press);
                },
                Err(e) => {
                    proof {
                        lemma_graphemes_error_stays(all, i + 1);
                    }
                    return Err(e);
                },
            }
            i += 1;
        }
        assert(all.take(i as int) == all);
        Ok(seq)
    }

    /// The sequence that the word types: a press for each grapheme of its
    /// spelling.
    pub fn make_sequence(&self) -> (r: Result<Sequence, Error>)
        ensures
            match graphemes_sequence(graphemes_of(self.info.word@)) {
                Ok(seq) => r is Ok && r->Ok_0@ == seq,
                Err(e) => r is Err && r->Err_0@ == e,
            },
    {
        let parts = graphemes(self.info.seq_spelling().as_str());
        Self::sequence_from_graphemes(&parts)
    }

    /// The chord of the word whose letters are spelled `letters`: the
    /// chords of the letters pressed together, with the anagram number of
    /// the word. Fails where the anagram number is too large, and for the
    /// first letter that has no chord.
    pub fn chord_from_letters(&self, letters: &Vec<String>) -> (r: Result<Chord, Error>)
        requires
            self.all_data.wf(),
        ensures
            self.info.spec_anagram_num() > 15 ==> r is Err && r->Err_0@ == (ErrorView::OutOfRange {
                name: "anagram number"@,
                value: self.info.spec_anagram_num() as nat,
                min: 0,
                max: 15,
            }),
            self.info.spec_anagram_num() <= 15 ==> match letters_chord(
                self.all_data.lexicon(),
                self.kmap@,
                views(letters@),
                ChordView {
                    switches: ChordView::blank(self.all_data.chord_spec.chord_len()).switches,
                    anagram_num: self.info.spec_anagram_num(),
                },
            ) {
                Ok(chord) => r is Ok && r->Ok_0@ == chord && chord.switches.len()
                    == self.all_data.chord_spec.chord_len() && chord.anagram_num
                    == self.info.spec_anagram_num(),
                Err(e) => r is Err && r->Err_0@ == e,
            },
    {
        let mut chord = self.all_data.chord_spec.blank_chord();
        let num = self.info.anagram_num();
        match num.validate() {
            Err(e) => {
                return Err(e);
            },
            Ok(_) => {},
        }
        chord.anagram_num = num;
        let ghost all = views(letters@);
        let ghost start = chord@;
        let mut i: usize = 0;
        assert(all.skip(0) == all);
        while i < letters.len()
            invariant
                i <= letters.len(),
                self.all_data.wf(),
                all == views(letters@),
                self.info.spec_anagram_num() <= 15,
                start == (ChordView {
                    switches: ChordView::blank(self.all_data.chord_spec.chord_len()).switches,
                    anagram_num: self.info.spec_anagram_num(),
                }),
                chord@.switches.len() == self.all_data.chord_spec.chord_len(),
                chord@.anagram_num == self.info.spec_anagram_num(),
                letters_chord(self.all_data.lexicon(), self.kmap@, all, start) == letters_chord(
                    self.all_data.lexicon(),
                    self.kmap@,
                    all.skip(i as int),
                    chord@,
                ),
            decreases letters.len() - i,
        {
            proof {
                assert(all.skip(i as int)[0] == letters[i as int]@);
                assert(all.skip(i as int).drop_first() == all.skip(i + 1));
            }
            let name = match self.all_data.name_from_spelling(letters[i].as_str()) {
                Ok(name) => name,
                Err(e) => {
                    return Err(e);
                },
            };
            let new_chord = match self.all_data.get_chord(&name, self.kmap) {
                Some(c) => c,
                None => {
                    return Err(Error::lookup(name.as_str(), "chords"));
                },
            };
            chord.intersect(&new_chord);
            i += 1;
        }
        assert(all.skip(i as int).len() == 0);
        Ok(chord)
    }

    /// The chord of the word: the chords of the letters of its chord
    /// spelling, each letter in lower case, pressed together.
    pub fn make_chord(&self) -> (r: Result<Chord, Error>)
        requires
            self.all_data.wf(),
        ensures
            self.info.spec_anagram_num() > 15 ==> r is Err && r->Err_0@ == (ErrorView::OutOfRange {
                name: "anagram number"@,
                value: self.info.spec_anagram_num() as nat,
                min: 0,
                max: 15,
            }),
            self.info.spec_anagram_num() <= 15 ==> match letters_chord(
                self.all_data.lexicon(),
                self.kmap@,
                chord_letters(self.info.spec_chord_spelling()),
                ChordView {
                    switches: ChordView::blank(self.all_data.chord_spec.chord_len()).switches,
                    anagram_num: self.info.spec_anagram_num(),
                },
            ) {
                Ok(chord) => r is Ok && r->Ok_0@ == chord && chord.switches.len()
                    == self.all_data.chord_spec.chord_len() && chord.anagram_num
                    == self.info.spec_anagram_num(),
                Err(e) => r is Err && r->Err_0@ == e,
            },
    {
        let spelling = self.info.chord_spelling();
        let chars = chars_of(spelling.as_str());
        let mut letters: Vec<String> = Vec::new();
        let mut i: usize = 0;
        while i < chars.len()
            invariant
                i <= chars.len(),
                letters.len() == i,
                forall|j: int| 0 <= j < i ==> letters[j]@ == lowercase_of(seq![chars[j]]),
            decreases chars.len() - i,
        {
            letters.push(to_lowercase(char_string(chars[i]).as_str()));
            i += 1;
        }
        assert(views(letters@) =~= chord_letters(self.info.spec_chord_spelling()));
        self.chord_from_letters(&letters)
    }

    /// The word, from the spellings `letters` of the letters of its chord
    /// and the graphemes `parts` of its spelling.
    pub fn word_from_parts(&self, letters: &Vec<String>, parts: &Vec<String>) -> (r: Result<Word, Error>)
        requires
            self.all_data.wf(),
        ensures
            match built_word(self.all_data.lexicon(), self.kmap@, self.info, views(letters@), views(parts@)) {
                Ok(word) => r is Ok && r->Ok_0@ == word && word.chord.switches.len()
                    == self.all_data.chord_spec.chord_len() && word.chord.anagram_num <= 15,
                Err(e) => r is Err && r->Err_0@ == e,
            },
    {
        let seq_spelling = self.info.seq_spelling();
        let name = self.make_name();
        let chord = match self.chord_from_letters(letters) {
            Ok(chord) => chord,
            Err(e) => {
                return Err(
                    e.context(concat3("Failed to make chord for: '", seq_spelling.as_str(), "'").as_str()),
                );
            },
        };
        let seq = match Self::sequence_from_graphemes(parts) {
            Ok(seq) => seq,
            Err(e) => {
                return Err(
                    e.context(concat3("Failed to make sequence for: '", seq_spelling.as_str(), "'").as_str()),
                );
            },
        };
        Ok(Word { name, seq, chord })
    }

    /// The word: its name, the chord of its letters and the sequence of its
    /// spelling. The error of the chord comes before that of the sequence.
    pub fn finalize(&self) -> (r: Result<Word, Error>)
        requires
            self.all_data.wf(),
        ensures
            match built_word(
                self.all_data.lexicon(),
                self.kmap@,
                self.info,
                chord_letters(self.info.spec_chord_spelling()),
                graphemes_of(self.info.word@),
            ) {
                Ok(word) => r is Ok && r->Ok_0@ == word && word.chord.switches.len()
                    == self.all_data.chord_spec.chord_len() && word.chord.anagram_num <= 15,
                Err(e) => r is Err && r->Err_0@ == e,
            },
    {
        let spelling = self.info.chord_spelling();
        let chars = chars_of(spelling.as_str());
        let mut letters: Vec<String> = Vec::new();
        let mut i: usize = 0;
        while i < chars.len()
            invariant
                i <= chars.len(),
                letters.len() == i,
                forall|j: int| 0 <= j < i ==> letters[j]@ == lowercase_of(seq![chars[j]]),
            decreases chars.len() - i,
        {
            letters.push(to_lowercase(char_string(chars[i]).as_str()));
            i += 1;
        }
        assert(views(letters@) =~= chord_letters(self.info.spec_chord_spelling()));
        let parts = graphemes(self.info.seq_spelling().as_str());
        self.word_from_parts(&letters, &parts)
    }
}

} // verus!
