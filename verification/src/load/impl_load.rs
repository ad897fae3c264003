//! The registry built from the settings of a keyboard and the text of its
//! layout files.

use vstd::prelude::*;
use vstd::string::*;
use crate::load::deserialize::{lemma_scan_order_len, OptionsConfig};
use crate::load::kmap_parser::{last_raw, sections_chords, sections_error, sections_of, KmapParser};
use crate::sorted_map::StrMap;
use crate::text::{char_string, concat3, graphemes_of, uppercase_of};
use crate::types::c_tree::models;
use crate::types::chord::{bytes_for, firmware_chord, permutation_error, takes, ChordView};
use crate::types::errors::{Error, ErrorView};
use crate::types::key_press::{press_for_char, KeyPress, KeyPressView, Sequence};
use crate::types::maps::{
    lemma_word_layouts, lemma_word_layouts_known, mode_layouts, mode_paths, numbered, registered,
    word_layouts, KmapInfo, Maps, ModeInfo,
};
use crate::types::names::{clone_names, name_views, KmapPath, ModeName, Name, SeqType};
use crate::types::words::{built_word, chord_letters, Lexicon, WordConfig};

verus! {

/// The settings of a keyboard.
#[derive(Debug, PartialEq, Eq)]
pub struct Settings {
    pub options: OptionsConfig,
    pub modes: StrMap<ModeInfo>,
    pub plain_modifiers: StrMap<KeyPress>,
    pub plain_keys: StrMap<KeyPress>,
    pub macros: StrMap<Sequence>,
    pub word_modifiers: Vec<Name>,
    pub anagram_modifiers: Vec<Name>,
    pub commands: Vec<Name>,
    pub dictionary: Vec<WordConfig>,
}

/// A layout file: its path and what it holds.
#[derive(Debug, PartialEq, Eq)]
pub struct KmapFile {
    pub path: KmapPath,
    pub text: String,
}

impl Settings {
    /// The maps of the settings are well formed, and the matrix is small
    /// enough to be counted.
    pub open spec fn wf(&self) -> bool {
        &&& self.options.fits()
        &&& self.options.kmap_format.0.len() < usize::MAX
        &&& self.modes.wf()
        &&& self.plain_modifiers.wf()
        &&& self.plain_keys.wf()
        &&& self.macros.wf()
    }
}

impl ModeInfo {
    /// A copy of the mode.
    pub fn copy(&self) -> (info: ModeInfo)
        ensures
            mode_paths(info) == mode_paths(*self),
            mode_layouts(info) == mode_layouts(*self),
            info.keymaps.len() == self.keymaps.len(),
            forall|i: int|
                0 <= i < self.keymaps.len() ==> (#[trigger] info.keymaps[i]).use_words
                    == self.keymaps[i].use_words,
    {
        let mut keymaps: Vec<KmapInfo> = Vec::new();
        let mut i: usize = 0;
        while i < self.keymaps.len()
            invariant
                i <= self.keymaps.len(),
                keymaps.len() == i,
                forall|j: int|
                    0 <= j < i ==> (#[trigger] keymaps[j]).path@ == self.keymaps[j].path@ && keymaps[j].use_words
                        == self.keymaps[j].use_words,
            decreases self.keymaps.len() - i,
        {
            keymaps.push(
                KmapInfo { path: self.keymaps[i].path.clone(), use_words: self.keymaps[i].use_words },
            );
            i += 1;
        }
        let info = ModeInfo { keymaps };
        assert(mode_paths(info) =~= mode_paths(*self));
        assert(mode_layouts(info) =~= mode_layouts(*self));
        info
    }
}

impl WordConfig {
    /// A copy of the word.
    pub fn copy(&self) -> (info: WordConfig)
        ensures
            info.word@ == self.word@,
            info.anagram == self.anagram,
            info.chord is Some == self.chord is Some,
            info.chord is Some ==> info.chord->0@ == self.chord->0@,
    {
        WordConfig {
            word: self.word.clone(),
            anagram: self.anagram,
            chord: match &self.chord {
                Some(letters) => Some(letters.clone()),
                None => None,
            },
        }
    }
}

/// The character that a plain key types, if it is the key of a small
/// letter, of a digit or of the space: the spelling by which words find the
/// key.
pub open spec fn typed_char(press: KeyPressView, c: char) -> bool {
    (('a' <= c <= 'z') || ('0' <= c <= '9') || c == ' ') && press_for_char(c) == Some(press)
}

/// The text of the first of `files` whose path is `path`, if there is one.
pub open spec fn file_text(files: Seq<KmapFile>, path: Seq<char>) -> Option<Seq<char>>
    decreases files.len(),
{
    if files.len() == 0 {
        None
    } else if files[0].path@ == path {
        Some(files[0].text@)
    } else {
        file_text(files.drop_first(), path)
    }
}

/// The text of the file at `path`, if it is among `files`: that of the
/// first file with that path.
pub fn find_file<'a>(files: &'a Vec<KmapFile>, path: &KmapPath) -> (found: Option<&'a String>)
    ensures
        match file_text(files@, path@) {
            Some(text) => found is Some && found->0@ == text,
            None => found is None,
        },
{
    let mut i: usize = 0;
    assert(files@.skip(0) == files@);
    while i < files.len()
        invariant
            i <= files.len(),
            file_text(files@, path@) == file_text(files@.skip(i as int), path@),
        decreases files.len() - i,
    {
        proof {
            assert(files@.skip(i as int)[0] == files[i as int]);
            assert(files@.skip(i as int).drop_first() == files@.skip(i + 1));
        }
        if crate::text::str_eq(files[i].path.as_str(), path.as_str()) {
            return Some(&files[i].text);
        }
        i += 1;
    }
    assert(files@.skip(i as int).len() == 0);
    None
}

/// What the error of the layout `path` is wrapped in.
pub open spec fn kmap_message(path: Seq<char>) -> Seq<char> {
    "failure to load kmap: '"@ + path + "'"@
}

/// Why the layout `path` cannot be read, if it cannot: its file is not
/// among `files`, or it is malformed.
pub open spec fn kmap_error(widths: Seq<nat>, files: Seq<KmapFile>, path: Seq<char>) -> Option<ErrorView> {
    match file_text(files, path) {
        None => Some(
            ErrorView::Context {
                message: kmap_message(path),
                cause: Box::new(ErrorView::Lookup { key: path, container: "kmap files"@ }),
            },
        ),
        Some(text) => match sections_error(sections_of(text, widths), widths) {
            Some(line) => Some(
                ErrorView::Context {
                    message: kmap_message(path),
                    cause: Box::new(ErrorView::Syntax { line }),
                },
            ),
            None => None,
        },
    }
}

/// Whether the layout at position `i` is the first that cannot be read.
pub open spec fn first_failing(widths: Seq<nat>, files: Seq<KmapFile>, keys: Seq<Seq<char>>, i: int) -> bool {
    &&& 0 <= i < keys.len()
    &&& kmap_error(widths, files, keys[i]) is Some
    &&& forall|j: int| 0 <= j < i ==> kmap_error(widths, files, #[trigger] keys[j]) is None
}

/// The number of layouts that are read: those before the first that
/// cannot be.
pub open spec fn layouts_read(widths: Seq<nat>, files: Seq<KmapFile>, keys: Seq<Seq<char>>) -> int {
    if exists|i: int| first_failing(widths, files, keys, i) {
        choose|i: int| first_failing(widths, files, keys, i)
    } else {
        keys.len() as int
    }
}

/// The chord that `name` has on the layout `path` once the file of the
/// layout is read, where it had the chord `before`: that of the last chord
/// of the file with the name, or else the one it had.
pub open spec fn chord_after(
    parser: KmapParser,
    files: Seq<KmapFile>,
    path: Seq<char>,
    name: Seq<char>,
    before: Option<ChordView>,
) -> Option<ChordView> {
    match parser.spec_named(file_text(files, path)->0, name) {
        Some(chord) => Some(chord),
        None => before,
    }
}

/// Whether `path` is a layout of one of the first `n` modes.
pub open spec fn is_layout(modes: StrMap<ModeInfo>, path: Seq<char>, n: int) -> bool {
    exists|a: int, b: int|
        0 <= a < n && 0 <= b < mode_paths(modes.val_seq()[a]).len() && #[trigger] mode_paths(
            modes.val_seq()[a],
        )[b] == path
}

/// The paths of the layouts of all the modes, each once, in order.
pub open spec fn layout_keys(modes: StrMap<ModeInfo>) -> Seq<Seq<char>> {
    choose|keys: Seq<Seq<char>>|
        crate::text::sorted(keys) && forall|k: Seq<char>|
            #[trigger] keys.contains(k) == is_layout(modes, k, modes.key_seq().len() as int)
}

/// Whether the name at position `i` stands earlier in the list too.
pub open spec fn repeated(names: Seq<Seq<char>>, i: int) -> bool {
    exists|j: int| 0 <= j < i && #[trigger] names[j] == names[i]
}

/// Whether the name at position `i` is the first that stands in the list
/// twice.
pub open spec fn first_repeated(names: Seq<Seq<char>>, i: int) -> bool {
    &&& 0 <= i < names.len()
    &&& repeated(names, i)
    &&& forall|j: int| 0 <= j < i ==> !repeated(names, j)
}

/// The spellings once the first `n` of the plain keys are looked at: those
/// of `start`, and for each key that types a small letter, a digit or the
/// space, that character spelled by the name of the key; a later key takes
/// the place of an earlier one.
pub open spec fn spelled(start: Map<Seq<char>, Seq<char>>, plain_keys: StrMap<KeyPress>, n: int) -> Map<
    Seq<char>,
    Seq<char>,
>
    decreases n,
{
    if n <= 0 {
        start
    } else {
        let before = spelled(start, plain_keys, n - 1);
        let press = plain_keys.val_seq()[n - 1]@;
        if exists|c: char| typed_char(press, c) {
            before.insert(seq![choose|c: char| typed_char(press, c)], plain_keys.key_seq()[n - 1])
        } else {
            before
        }
    }
}

/// What a command types: one press that carries, in place of a key, the
/// name of the command in upper case.
pub open spec fn command_presses(name: Seq<char>) -> Seq<KeyPressView> {
    seq![KeyPressView { key: Some(uppercase_of(name)), mods: Seq::empty() }]
}

/// The chord that the layout file `text` gives the name `name` on a
/// keyboard with the options `options`: the switches of the last chord of
/// the file with the name, put in the order of the firmware.
pub open spec fn layout_chord(options: OptionsConfig, text: Seq<char>, name: Seq<char>) -> Option<ChordView> {
    let widths = options.kmap_format.spec_items_per_line();
    let raws = sections_chords(sections_of(text, widths), widths);
    match last_raw(raws, name, raws.len() as int) {
        Some(pressed) => Some(
            firmware_chord(
                options.kmap_format.spec_flat_order(),
                options.spec_firmware_order(),
                bytes_for((options.row_pins.len() * options.column_pins.len()) as nat),
                pressed,
            ),
        ),
        None => None,
    }
}

/// Whether the command at position `i` cannot be registered: it is among
/// `known` or stands earlier in the list too.
pub open spec fn clashes(known: StrMap<Sequence>, names: Seq<Seq<char>>, i: int) -> bool {
    known.has(names[i]) || repeated(names, i)
}

/// Whether the command at position `i` is the first that cannot be
/// registered.
pub open spec fn first_clash(known: StrMap<Sequence>, names: Seq<Seq<char>>, i: int) -> bool {
    &&& 0 <= i < names.len()
    &&& clashes(known, names, i)
    &&& forall|j: int| 0 <= j < i ==> !clashes(known, names, j)
}

/// The number of commands that are registered: those before the first that
/// cannot be.
pub open spec fn commands_added(known: StrMap<Sequence>, names: Seq<Seq<char>>) -> int {
    if exists|i: int| first_clash(known, names, i) {
        choose|i: int| first_clash(known, names, i)
    } else {
        names.len() as int
    }
}

/// The first command that cannot be registered is the only first one.
pub proof fn lemma_commands_added(known: StrMap<Sequence>, names: Seq<Seq<char>>, i: int)
    requires
        first_clash(known, names, i),
    ensures
        commands_added(known, names) == i,
{
    let w = choose|w: int| first_clash(known, names, w);
    if w < i {
        assert(!clashes(known, names, w));
    }
    if i < w {
        assert(!clashes(known, names, i));
    }
}

/// The word that `info` describes, built on the layout `kmap`: the chords
/// of the letters of its chord spelling, each in lower case, pressed
/// together, and a press for each grapheme of its spelling.
pub open spec fn word_of(lex: Lexicon, kmap: Seq<char>, info: WordConfig) -> Result<
    crate::types::words::WordView,
    ErrorView,
> {
    built_word(lex, kmap, info, chord_letters(info.spec_chord_spelling()), graphemes_of(info.word@))
}

/// The lexicon once the first `n` words of the dictionary are added to the
/// layout `kmap`, or the error of the first of them that cannot be built.
pub open spec fn words_added(lex: Lexicon, kmap: Seq<char>, dictionary: Seq<WordConfig>, n: int) -> Result<
    Lexicon,
    ErrorView,
>
    decreases n,
{
    if n <= 0 {
        Ok(lex)
    } else {
        match words_added(lex, kmap, dictionary, n - 1) {
            Err(e) => Err(e),
            Ok(before) => match word_of(before, kmap, dictionary[n - 1]) {
                Err(e) => Err(e),
                Ok(word) => Ok(before.with_word(kmap, word)),
            },
        }
    }
}

/// The lexicon once all the words of the dictionary are added to each of
/// the first `k` of the layouts `kmaps`, layout by layout, or the error of
/// the first word that cannot be built.
pub open spec fn layouts_filled(lex: Lexicon, kmaps: Seq<Seq<char>>, dictionary: Seq<WordConfig>, k: int) -> Result<
    Lexicon,
    ErrorView,
>
    decreases k,
{
    if k <= 0 {
        Ok(lex)
    } else {
        match layouts_filled(lex, kmaps, dictionary, k - 1) {
            Err(e) => Err(e),
            Ok(before) => words_added(before, kmaps[k - 1], dictionary, dictionary.len() as int),
        }
    }
}

/// Whether the word at position `i` of the dictionary, on the layout at
/// position `k`, is the first that cannot be built, and `kept` is the
/// lexicon with the words before it.
pub open spec fn stops_at(
    lex: Lexicon,
    kmaps: Seq<Seq<char>>,
    dictionary: Seq<WordConfig>,
    k: int,
    i: int,
    kept: Lexicon,
) -> bool {
    &&& 0 <= k < kmaps.len()
    &&& 0 <= i < dictionary.len()
    &&& layouts_filled(lex, kmaps, dictionary, k) is Ok
    &&& words_added(layouts_filled(lex, kmaps, dictionary, k)->Ok_0, kmaps[k], dictionary, i) == Ok::<
        Lexicon,
        ErrorView,
    >(kept)
    &&& words_added(layouts_filled(lex, kmaps, dictionary, k)->Ok_0, kmaps[k], dictionary, i + 1) is Err
}

/// The first word that cannot be built stays the first.
proof fn lemma_words_error_stays(lex: Lexicon, kmap: Seq<char>, dictionary: Seq<WordConfig>, n: int, m: int)
    requires
        0 <= n <= m,
        words_added(lex, kmap, dictionary, n) is Err,
    ensures
        words_added(lex, kmap, dictionary, m) == words_added(lex, kmap, dictionary, n),
    decreases m,
{
    if n < m {
        lemma_words_error_stays(lex, kmap, dictionary, n, m - 1);
    }
}

/// The first layout with a word that cannot be built stays the first.
proof fn lemma_layouts_error_stays(lex: Lexicon, kmaps: Seq<Seq<char>>, dictionary: Seq<WordConfig>, k: int, m: int)
    requires
        0 <= k <= m,
        layouts_filled(lex, kmaps, dictionary, k) is Err,
    ensures
        layouts_filled(lex, kmaps, dictionary, m) == layouts_filled(lex, kmaps, dictionary, k),
    decreases m,
{
    if k < m {
        lemma_layouts_error_stays(lex, kmaps, dictionary, k, m - 1);
    }
}

/// Without a dictionary the lexicon stays as it is.
proof fn lemma_no_words(lex: Lexicon, kmaps: Seq<Seq<char>>, dictionary: Seq<WordConfig>, k: int)
    requires
        dictionary.len() == 0,
    ensures
        layouts_filled(lex, kmaps, dictionary, k) == Ok::<Lexicon, ErrorView>(lex),
    decreases k,
{
    if k > 0 {
        lemma_no_words(lex, kmaps, dictionary, k - 1);
        assert(words_added(lex, kmaps[k - 1], dictionary, 0) == Ok::<Lexicon, ErrorView>(lex));
    }
}

/// Whether the mode at position `i` is the first that is among `known`.
pub open spec fn first_known_mode(known: StrMap<ModeInfo>, modes: StrMap<ModeInfo>, i: int) -> bool {
    &&& 0 <= i < modes.key_seq().len()
    &&& known.has(modes.key_seq()[i])
    &&& forall|j: int| 0 <= j < i ==> !known.has(#[trigger] modes.key_seq()[j])
}

/// The number of modes that are registered: those before the first that is
/// among `known`.
pub open spec fn modes_added(known: StrMap<ModeInfo>, modes: StrMap<ModeInfo>) -> int {
    if exists|i: int| first_known_mode(known, modes, i) {
        choose|i: int| first_known_mode(known, modes, i)
    } else {
        modes.key_seq().len() as int
    }
}

/// The first mode that is registered already is the only first one.
pub proof fn lemma_modes_added(known: StrMap<ModeInfo>, modes: StrMap<ModeInfo>, i: int)
    requires
        first_known_mode(known, modes, i),
    ensures
        modes_added(known, modes) == i,
{
    let w = choose|w: int| first_known_mode(known, modes, w);
    if w < i {
        assert(!known.has(modes.key_seq()[w]));
    }
    if i < w {
        assert(!known.has(modes.key_seq()[i]));
    }
}

/// The layouts in the order in which they are registered, once the first
/// `n` of the modes are registered after the layouts `order`: mode by mode
/// in the order of their names, the layouts of each in its own order.
pub open spec fn modes_registered(order: Seq<Seq<char>>, modes: StrMap<ModeInfo>, n: int) -> Seq<Seq<char>>
    decreases n,
{
    if n <= 0 {
        order
    } else {
        let info = modes.val_seq()[n - 1];
        registered(modes_registered(order, modes, n - 1), mode_paths(info), info.keymaps.len() as int)
    }
}

impl Maps {
    /// Registers the modes of the settings, in the order of their names.
    /// Stops at the first that is registered already; the modes before it
    /// have been registered.
    pub fn load_modes(&mut self, modes: &StrMap<ModeInfo>) -> (r: Result<(), Error>)
        requires
            old(self).wf(),
            modes.wf(),
        ensures
            final(self).wf(),
            final(self).sequences == old(self).sequences,
            final(self).same_lists(old(self)),
            final(self).max_anagram_num == old(self).max_anagram_num,
            r is Ok == (modes_added(old(self).modes, *modes) == modes.key_seq().len()),
            r is Err ==> r->Err_0@ == (ErrorView::Duplicate {
                key: modes.key_seq()[modes_added(old(self).modes, *modes)],
                container: "modes"@,
            }),
            forall|m: Seq<char>|
                final(self).modes.has(m) == (old(self).modes.has(m) || exists|j: int|
                    0 <= j < modes_added(old(self).modes, *modes) && #[trigger] modes.key_seq()[j] == m),
            forall|m: Seq<char>| old(self).modes.has(m) ==> final(self).modes.val(m) == old(self).modes.val(m),
            forall|i: int|
                0 <= i < modes_added(old(self).modes, *modes) ==> mode_layouts(
                    final(self).modes.val(#[trigger] modes.key_seq()[i]),
                ) == mode_layouts(modes.val_seq()[i]),
            forall|order: Seq<Seq<char>>|
                #[trigger] numbered(old(self).kmap_ids, order) ==> numbered(
                    final(self).kmap_ids,
                    modes_registered(order, *modes, modes_added(old(self).modes, *modes)),
                ),
            forall|k: Seq<char>|
                #[trigger] final(self).chords.has(k) == (old(self).chords.has(k) || is_layout(
                    *modes,
                    k,
                    modes_added(old(self).modes, *modes),
                )),
            forall|n: Seq<char>, k: Seq<char>|
                !old(self).chords.has(k) ==> #[trigger] final(self).spec_chord(n, k) is None,
            forall|n: Seq<char>, k: Seq<char>|
                old(self).chords.has(k) ==> #[trigger] final(self).spec_chord(n, k) == old(self).spec_chord(n, k),
    {
        let mut i: usize = 0;
        while i < modes.len()
            invariant
                i <= modes.key_seq().len(),
                modes.wf(),
                self.wf(),
                self.sequences == old(self).sequences,
                self.same_lists(old(self)),
                self.max_anagram_num == old(self).max_anagram_num,
                forall|j: int| 0 <= j < i ==> !old(self).modes.has(#[trigger] modes.key_seq()[j]),
                forall|m: Seq<char>|
                    self.modes.has(m) == (old(self).modes.has(m) || exists|j: int|
                        0 <= j < i && #[trigger] modes.key_seq()[j] == m),
                forall|m: Seq<char>| old(self).modes.has(m) ==> self.modes.val(m) == old(self).modes.val(m),
                forall|j: int|
                    0 <= j < i ==> mode_layouts(self.modes.val(#[trigger] modes.key_seq()[j])) == mode_layouts(
                        modes.val_seq()[j],
                    ),
                forall|order: Seq<Seq<char>>|
                    #[trigger] numbered(old(self).kmap_ids, order) ==> numbered(
                        self.kmap_ids,
                        modes_registered(order, *modes, i as int),
                    ),
                forall|k: Seq<char>|
                    #[trigger] self.chords.has(k) == (old(self).chords.has(k) || is_layout(
                        *modes,
                        k,
                        i as int,
                    )),
                forall|n: Seq<char>, k: Seq<char>|
                    !old(self).chords.has(k) ==> #[trigger] self.spec_chord(n, k) is None,
                forall|n: Seq<char>, k: Seq<char>|
                    old(self).chords.has(k) ==> #[trigger] self.spec_chord(n, k) == old(self).spec_chord(n, k),
            decreases modes.key_seq().len() - i,
        {
            let name = ModeName(modes.key_at(i).clone());
            let info = modes.val_at(i).copy();
            proof {
                modes.lemma_pos(i as int);
            }
            let ghost before = *self;
            let ghost key = modes.key_seq()[i as int];
            match self.add_mode(name, info) {
                Ok(_) => {},
                Err(e) => {
                    proof {
                        assert(before.modes.has(key));
                        if !old(self).modes.has(key) {
                            let j = choose|j: int| 0 <= j < i && #[trigger] modes.key_seq()[j] == key;
                            crate::text::lemma_sorted_distinct(modes.key_seq(), j, i as int);
                        }
                        assert(first_known_mode(old(self).modes, *modes, i as int));
                        lemma_modes_added(old(self).modes, *modes, i as int);
                    }
                    return Err(e);
                },
            }
            proof {
                assert(!before.modes.has(key));
                assert(!old(self).modes.has(key));
                let paths = mode_paths(modes.val_seq()[i as int]);
                assert forall|order: Seq<Seq<char>>| #[trigger]
                    numbered(old(self).kmap_ids, order) implies numbered(
                    self.kmap_ids,
                    modes_registered(order, *modes, i + 1),
                ) by {
                    let was = modes_registered(order, *modes, i as int);
                    assert(numbered(before.kmap_ids, was));
                }
                assert forall|k: Seq<char>| #[trigger] self.chords.has(k) == (old(self).chords.has(k)
                    || is_layout(*modes, k, i + 1)) by {
                    assert(self.chords.has(k) == (before.chords.has(k) || paths.contains(k)));
                    if paths.contains(k) {
                        let j = paths.index_of(k);
                        assert(mode_paths(modes.val_seq()[i as int])[j] == k);
                    }
                    if is_layout(*modes, k, i + 1) && !is_layout(*modes, k, i as int) {
                        let (a, b) = choose|a: int, b: int|
                            0 <= a < i + 1 && 0 <= b < mode_paths(modes.val_seq()[a]).len()
                                && #[trigger] mode_paths(modes.val_seq()[a])[b] == k;
                        assert(a == i);
                        assert(paths[b] == k);
                    }
                }
                assert forall|n: Seq<char>, k: Seq<char>| !old(self).chords.has(k) implies #[trigger] self.spec_chord(
                    n,
                    k,
                ) is None by {
                    if before.chords.has(k) {
                        assert(self.spec_chord(n, k) == before.spec_chord(n, k));
                    }
                }
                assert forall|n: Seq<char>, k: Seq<char>| old(self).chords.has(k) implies #[trigger] self.spec_chord(
                    n,
                    k,
                ) == old(self).spec_chord(n, k) by {
                    assert(before.chords.has(k));
                    assert(self.spec_chord(n, k) == before.spec_chord(n, k));
                }
                assert forall|m: Seq<char>| self.modes.has(m) == (old(self).modes.has(m) || exists|j: int|
                    0 <= j < i + 1 && #[trigger] modes.key_seq()[j] == m) by {
                    if m == key {
                        assert(modes.key_seq()[i as int] == m);
                    } else {
                        assert(self.modes.has(m) == before.modes.has(m));
                        if before.modes.has(m) && !old(self).modes.has(m) {
                            let j = choose|j: int| 0 <= j < i && #[trigger] modes.key_seq()[j] == m;
                            assert(0 <= j < i + 1 && modes.key_seq()[j] == m);
                        }
                        if exists|j: int| 0 <= j < i + 1 && #[trigger] modes.key_seq()[j] == m {
                            let j = choose|j: int| 0 <= j < i + 1 && #[trigger] modes.key_seq()[j] == m;
                            assert(0 <= j < i && modes.key_seq()[j] == m);
                        }
                    }
                }
                assert forall|m: Seq<char>| old(self).modes.has(m) implies self.modes.val(m) == old(
                    self,
                ).modes.val(m) by {
                    assert(before.modes.has(m));
                    assert(m != key);
                    assert(self.modes.val(m) == before.modes.val(m));
                }
                assert forall|j: int| 0 <= j < i + 1 implies mode_layouts(
                    self.modes.val(#[trigger] modes.key_seq()[j]),
                ) == mode_layouts(modes.val_seq()[j]) by {
                    if j < i {
                        if modes.key_seq()[j] == key {
                            crate::text::lemma_sorted_distinct(modes.key_seq(), j, i as int);
                        }
                        assert(before.modes.has(modes.key_seq()[j]));
                        assert(self.modes.val(modes.key_seq()[j]) == before.modes.val(modes.key_seq()[j]));
                    }
                }
            }
            i += 1;
        }
        proof {
            assert forall|w: int| !first_known_mode(old(self).modes, *modes, w) by {
                if 0 <= w < modes.key_seq().len() {
                    assert(!old(self).modes.has(modes.key_seq()[w]));
                }
            }
        }
        Ok(())
    }

    /// Reads the layout file of each layout of the registry from `files`,
    /// in the order of the paths, and adds its chords. Stops at the first
    /// layout whose file is missing or malformed, with the error in the
    /// context of that layout; the layouts before it have been read.
    pub fn load_chords(&mut self, parser: &KmapParser, files: &Vec<KmapFile>) -> (r: Result<(), Error>)
        requires
            old(self).wf(),
            parser.wf(),
            parser.spec_chord_spec().wf(),
            parser.spec_chord_spec().num_bytes == old(self).chord_spec.num_bytes,
        ensures
            final(self).wf(),
            final(self).same_but_chords(old(self)),
            final(self).chords.key_seq() == old(self).chords.key_seq(),
            layouts_read(parser.widths(), files@, old(self).chords.key_seq()) == old(self).chords.key_seq().len()
                ==> r is Ok,
            layouts_read(parser.widths(), files@, old(self).chords.key_seq()) < old(self).chords.key_seq().len()
                ==> r is Err && Some(r->Err_0@) == kmap_error(
                parser.widths(),
                files@,
                old(self).chords.key_seq()[layouts_read(parser.widths(), files@, old(self).chords.key_seq())],
            ),
            forall|i: int, n: Seq<char>|
                #![trigger final(self).spec_chord(n, old(self).chords.key_seq()[i])]
                0 <= i < old(self).chords.key_seq().len() ==> final(self).spec_chord(
                    n,
                    old(self).chords.key_seq()[i],
                ) == (if i < layouts_read(parser.widths(), files@, old(self).chords.key_seq()) {
                    chord_after(
                        *parser,
                        files@,
                        old(self).chords.key_seq()[i],
                        n,
                        old(self).spec_chord(n, old(self).chords.key_seq()[i]),
                    )
                } else {
                    old(self).spec_chord(n, old(self).chords.key_seq()[i])
                }),
    {
        let paths = self.get_kmap_paths();
        let ghost keys = self.chords.key_seq();
        let mut i: usize = 0;
        while i < paths.len()
            invariant
                i <= paths.len(),
                parser.wf(),
                parser.spec_chord_spec().wf(),
                parser.spec_chord_spec().num_bytes == self.chord_spec.num_bytes,
                self.wf(),
                self.same_but_chords(old(self)),
                keys == old(self).chords.key_seq(),
                self.chords.key_seq() == keys,
                paths@.map_values(|p: KmapPath| p@) == keys,
                paths.len() == keys.len(),
                forall|j: int| 0 <= j < i ==> kmap_error(parser.widths(), files@, #[trigger] keys[j]) is None,
                forall|j: int, n: Seq<char>|
                    #![trigger self.spec_chord(n, keys[j])]
                    0 <= j < keys.len() ==> self.spec_chord(n, keys[j]) == (if j < i {
                        chord_after(*parser, files@, keys[j], n, old(self).spec_chord(n, keys[j]))
                    } else {
                        old(self).spec_chord(n, keys[j])
                    }),
            decreases paths.len() - i,
        {
            let kmap = &paths[i];
            proof {
                assert(paths@.map_values(|p: KmapPath| p@)[i as int] == kmap@);
                assert(keys[i as int] == kmap@);
                assert(self.chords.has(kmap@));
            }
            let message = concat3("failure to load kmap: '", kmap.as_str(), "'");
            let text = match find_file(files, kmap) {
                Some(text) => text,
                None => {
                    proof {
                        lemma_layouts_read(parser.widths(), files@, keys, i as int);
                    }
                    return Err(Error::lookup(kmap.as_str(), "kmap files").context(message.as_str()));
                },
            };
            let chords = match parser.parse(text.as_str()) {
                Ok(chords) => chords,
                Err(e) => {
                    proof {
                        lemma_layouts_read(parser.widths(), files@, keys, i as int);
                    }
                    return Err(e.context(message.as_str()));
                },
            };
            let ghost before = *self;
            match self.add_chords(kmap, &chords) {
                Ok(_) => {},
                Err(e) => {
                    return Err(e.context(message.as_str()));
                },
            }
            proof {
                assert forall|j: int, n: Seq<char>|
                    #![trigger self.spec_chord(n, keys[j])]
                    0 <= j < keys.len() implies self.spec_chord(n, keys[j]) == (if j < i + 1 {
                    chord_after(*parser, files@, keys[j], n, old(self).spec_chord(n, keys[j]))
                } else {
                    old(self).spec_chord(n, keys[j])
                }) by {
                    if j == i {
                        assert(chords.has(n) == (parser.spec_named(text@, n) is Some));
                        if chords.has(n) {
                            assert(Some(chords.val(n)@) == parser.spec_named(text@, n));
                        }
                        assert(before.spec_chord(n, keys[j]) == old(self).spec_chord(n, keys[j]));
                    } else {
                        crate::text::lemma_text_lt_irreflexive(keys[j]);
                        assert(keys[j] != kmap@) by {
                            if keys[j] == keys[i as int] {
                                crate::text::lemma_sorted_distinct(keys, j, i as int);
                            }
                        }
                        assert(self.spec_chord(n, keys[j]) == before.spec_chord(n, keys[j]));
                    }
                }
            }
            i += 1;
        }
        proof {
            assert forall|w: int| !first_failing(parser.widths(), files@, keys, w) by {
                if 0 <= w < keys.len() {
                    assert(kmap_error(parser.widths(), files@, keys[w]) is None);
                }
            }
        }
        Ok(())
    }

    /// Gives each plain key of the settings its sequence, of one press.
    pub fn load_plains(&mut self, plain_keys: &StrMap<KeyPress>)
        requires
            old(self).wf(),
            plain_keys.wf(),
        ensures
            final(self).wf(),
            final(self).same_but_kind(old(self), SeqType::Plain),
            forall|i: int|
                0 <= i < plain_keys.key_seq().len() ==> final(self).spec_seq(
                    SeqType::Plain,
                    #[trigger] plain_keys.key_seq()[i],
                ) == Some(seq![plain_keys.val_seq()[i]@]),
            forall|n: Seq<char>|
                !plain_keys.has(n) ==> #[trigger] final(self).spec_seq(SeqType::Plain, n) == old(self).spec_seq(
                    SeqType::Plain,
                    n,
                ),
    {
        let mut i: usize = 0;
        while i < plain_keys.len()
            invariant
                i <= plain_keys.key_seq().len(),
                plain_keys.wf(),
                self.wf(),
                self.same_but_kind(old(self), SeqType::Plain),
                forall|j: int|
                    0 <= j < i ==> self.spec_seq(SeqType::Plain, #[trigger] plain_keys.key_seq()[j]) == Some(
                        seq![plain_keys.val_seq()[j]@],
                    ),
                forall|n: Seq<char>|
                    !plain_keys.has(n) ==> #[trigger] self.spec_seq(SeqType::Plain, n) == old(self).spec_seq(
                        SeqType::Plain,
                        n,
                    ),
            decreases plain_keys.key_seq().len() - i,
        {
            let name = Name(plain_keys.key_at(i).clone());
            let mut seq = Sequence::new();
            seq.push(plain_keys.val_at(i).clone());
            assert(seq@ =~= seq![plain_keys.val_seq()[i as int]@]);
            let ghost before = *self;
            proof {
                plain_keys.lemma_pos(i as int);
            }
            self.put_sequence(SeqType::Plain, name, seq);
            proof {
                assert forall|j: int| 0 <= j < i implies self.spec_seq(
                    SeqType::Plain,
                    #[trigger] plain_keys.key_seq()[j],
                ) == Some(seq![plain_keys.val_seq()[j]@]) by {
                    if plain_keys.key_seq()[j] == plain_keys.key_seq()[i as int] {
                        crate::text::lemma_sorted_distinct(plain_keys.key_seq(), j, i as int);
                    }
                    assert(self.spec_seq(SeqType::Plain, plain_keys.key_seq()[j]) == before.spec_seq(
                        SeqType::Plain,
                        plain_keys.key_seq()[j],
                    ));
                }
                assert forall|n: Seq<char>| !plain_keys.has(n) implies #[trigger] self.spec_seq(
                    SeqType::Plain,
                    n,
                ) == old(self).spec_seq(SeqType::Plain, n) by {
                    assert(self.spec_seq(SeqType::Plain, n) == before.spec_seq(SeqType::Plain, n));
                }
                assert forall|k: SeqType| k != SeqType::Plain implies #[trigger] self.seq_map(k) == old(self).seq_map(k) by {
                    assert(before.seq_map(k) == old(self).seq_map(k));
                }
            }
            i += 1;
        }
    }

    /// Says, for each plain key that types a small letter, a digit or the
    /// space, that the character is spelled by that key.
    pub fn load_spellings(&mut self, plain_keys: &StrMap<KeyPress>)
        requires
            old(self).wf(),
            plain_keys.wf(),
        ensures
            final(self).wf(),
            final(self).chords == old(self).chords,
            final(self).sequences == old(self).sequences,
            final(self).modes == old(self).modes,
            final(self).word_mods == old(self).word_mods,
            final(self).plain_mods == old(self).plain_mods,
            final(self).anagram_mods == old(self).anagram_mods,
            final(self).commands == old(self).commands,
            final(self).options == old(self).options,
            final(self).chord_spec == old(self).chord_spec,
            final(self).kmap_ids == old(self).kmap_ids,
            final(self).max_anagram_num == old(self).max_anagram_num,
            final(self).lexicon().spellings == spelled(
                old(self).lexicon().spellings,
                *plain_keys,
                plain_keys.key_seq().len() as int,
            ),
    {
        let mut i: usize = 0;
        while i < plain_keys.len()
            invariant
                i <= plain_keys.key_seq().len(),
                plain_keys.wf(),
                self.wf(),
                self.chords == old(self).chords,
                self.sequences == old(self).sequences,
                self.modes == old(self).modes,
                self.word_mods == old(self).word_mods,
                self.plain_mods == old(self).plain_mods,
                self.anagram_mods == old(self).anagram_mods,
                self.commands == old(self).commands,
                self.options == old(self).options,
                self.chord_spec == old(self).chord_spec,
                self.kmap_ids == old(self).kmap_ids,
                self.max_anagram_num == old(self).max_anagram_num,
                self.lexicon().spellings == spelled(old(self).lexicon().spellings, *plain_keys, i as int),
            decreases plain_keys.key_seq().len() - i,
        {
            let press = plain_keys.val_at(i);
            let ghost before = *self;
            match spelling_of(press) {
                Some(c) => {
                    self.add_spelling(char_string(c).as_str(), Name(plain_keys.key_at(i).clone()));
                    proof {
                        let d = choose|d: char| typed_char(press@, d);
                        assert(typed_char(press@, c));
                        assert(d == c);
                        assert(self.lexicon().spellings =~= before.lexicon().spellings.insert(
                            seq![c],
                            plain_keys.key_seq()[i as int],
                        ));
                    }
                },
                None => {},
            }
            i += 1;
        }
    }

    /// Registers the macros of the settings.
    pub fn load_macros(&mut self, macros: &StrMap<Sequence>)
        requires
            old(self).wf(),
            macros.wf(),
        ensures
            final(self).wf(),
            final(self).same_but_kind(old(self), SeqType::Macro),
            forall|i: int|
                0 <= i < macros.key_seq().len() ==> final(self).spec_seq(
                    SeqType::Macro,
                    #[trigger] macros.key_seq()[i],
                ) == Some(macros.val_seq()[i]@),
            forall|n: Seq<char>|
                !macros.has(n) ==> #[trigger] final(self).spec_seq(SeqType::Macro, n) == old(self).spec_seq(
                    SeqType::Macro,
                    n,
                ),
    {
        let mut i: usize = 0;
        while i < macros.len()
            invariant
                i <= macros.key_seq().len(),
                macros.wf(),
                self.wf(),
                self.same_but_kind(old(self), SeqType::Macro),
                forall|j: int|
                    0 <= j < i ==> self.spec_seq(SeqType::Macro, #[trigger] macros.key_seq()[j]) == Some(
                        macros.val_seq()[j]@,
                    ),
                forall|n: Seq<char>|
                    !macros.has(n) ==> #[trigger] self.spec_seq(SeqType::Macro, n) == old(self).spec_seq(
                        SeqType::Macro,
                        n,
                    ),
            decreases macros.key_seq().len() - i,
        {
            let name = Name(macros.key_at(i).clone());
            let seq = macros.val_at(i).clone();
            let ghost before = *self;
            proof {
                macros.lemma_pos(i as int);
            }
            self.put_sequence(SeqType::Macro, name, seq);
            proof {
                assert forall|j: int| 0 <= j < i implies self.spec_seq(
                    SeqType::Macro,
                    #[trigger] macros.key_seq()[j],
                ) == Some(macros.val_seq()[j]@) by {
                    if macros.key_seq()[j] == macros.key_seq()[i as int] {
                        crate::text::lemma_sorted_distinct(macros.key_seq(), j, i as int);
                    }
                    assert(self.spec_seq(SeqType::Macro, macros.key_seq()[j]) == before.spec_seq(
                        SeqType::Macro,
                        macros.key_seq()[j],
                    ));
                }
                assert forall|n: Seq<char>| !macros.has(n) implies #[trigger] self.spec_seq(SeqType::Macro, n)
                    == old(self).spec_seq(SeqType::Macro, n) by {
                    assert(self.spec_seq(SeqType::Macro, n) == before.spec_seq(SeqType::Macro, n));
                }
                assert forall|k: SeqType| k != SeqType::Macro implies #[trigger] self.seq_map(k) == old(self).seq_map(k) by {
                    assert(before.seq_map(k) == old(self).seq_map(k));
                }
            }
            i += 1;
        }
    }

    /// Registers the plain modifiers of the settings, in the order of
    /// their names, each with its sequence of one press.
    pub fn load_plain_mods(&mut self, plain_modifiers: &StrMap<KeyPress>)
        requires
            old(self).wf(),
            plain_modifiers.wf(),
        ensures
            final(self).wf(),
            final(self).chords == old(self).chords,
            final(self).modes == old(self).modes,
            final(self).word_mods == old(self).word_mods,
            final(self).anagram_mods == old(self).anagram_mods,
            final(self).commands == old(self).commands,
            final(self).options == old(self).options,
            final(self).chord_spec == old(self).chord_spec,
            final(self).kmap_ids == old(self).kmap_ids,
            final(self).max_anagram_num == old(self).max_anagram_num,
            final(self).spellings == old(self).spellings,
            forall|k: SeqType| k != SeqType::Plain ==> #[trigger] final(self).seq_map(k) == old(self).seq_map(k),
            name_views(final(self).plain_mods@) == name_views(old(self).plain_mods@)
                + plain_modifiers.key_seq(),
            forall|i: int|
                0 <= i < plain_modifiers.key_seq().len() ==> final(self).spec_seq(
                    SeqType::Plain,
                    #[trigger] plain_modifiers.key_seq()[i],
                ) == Some(seq![plain_modifiers.val_seq()[i]@]),
            forall|n: Seq<char>|
                !plain_modifiers.has(n) ==> #[trigger] final(self).spec_seq(SeqType::Plain, n) == old(self).spec_seq(SeqType::Plain, n),
    {
        let mut i: usize = 0;
        assert(plain_modifiers.key_seq().take(0) =~= Seq::empty());
        assert(name_views(self.plain_mods@) =~= name_views(old(self).plain_mods@) + Seq::empty());
        while i < plain_modifiers.len()
            invariant
                i <= plain_modifiers.key_seq().len(),
                plain_modifiers.wf(),
                self.wf(),
                self.chords == old(self).chords,
                self.modes == old(self).modes,
                self.word_mods == old(self).word_mods,
                self.anagram_mods == old(self).anagram_mods,
                self.commands == old(self).commands,
                self.options == old(self).options,
                self.chord_spec == old(self).chord_spec,
                self.kmap_ids == old(self).kmap_ids,
                self.max_anagram_num == old(self).max_anagram_num,
                self.spellings == old(self).spellings,
                forall|k: SeqType| k != SeqType::Plain ==> #[trigger] self.seq_map(k) == old(self).seq_map(k),
                name_views(self.plain_mods@) == name_views(old(self).plain_mods@)
                    + plain_modifiers.key_seq().take(i as int),
                forall|j: int|
                    0 <= j < i ==> self.spec_seq(SeqType::Plain, #[trigger] plain_modifiers.key_seq()[j])
                        == Some(seq![plain_modifiers.val_seq()[j]@]),
                forall|n: Seq<char>|
                    !plain_modifiers.has(n) ==> #[trigger] self.spec_seq(SeqType::Plain, n) == old(self).spec_seq(SeqType::Plain, n),
            decreases plain_modifiers.key_seq().len() - i,
        {
            let name = Name(plain_modifiers.key_at(i).clone());
            let mut seq = Sequence::new();
            seq.push(plain_modifiers.val_at(i).clone());
            assert(seq@ =~= seq![plain_modifiers.val_seq()[i as int]@]);
            let ghost before = *self;
            proof {
                plain_modifiers.lemma_pos(i as int);
            }
            self.add_modifierkey(name, &seq);
            proof {
                assert forall|k: SeqType| k != SeqType::Plain implies #[trigger] self.seq_map(k) == old(self).seq_map(k) by {
                    assert(before.seq_map(k) == old(self).seq_map(k));
                }
                assert forall|j: int| 0 <= j < i implies self.spec_seq(
                    SeqType::Plain,
                    #[trigger] plain_modifiers.key_seq()[j],
                ) == Some(seq![plain_modifiers.val_seq()[j]@]) by {
                    if plain_modifiers.key_seq()[j] == plain_modifiers.key_seq()[i as int] {
                        crate::text::lemma_sorted_distinct(plain_modifiers.key_seq(), j, i as int);
                    }
                    assert(self.spec_seq(SeqType::Plain, plain_modifiers.key_seq()[j]) == before.spec_seq(
                        SeqType::Plain,
                        plain_modifiers.key_seq()[j],
                    ));
                }
                assert forall|n: Seq<char>| !plain_modifiers.has(n) implies #[trigger] self.spec_seq(
                    SeqType::Plain,
                    n,
                ) == old(self).spec_seq(SeqType::Plain, n) by {
                    assert(self.spec_seq(SeqType::Plain, n) == before.spec_seq(SeqType::Plain, n));
                }
            }
            assert(plain_modifiers.key_seq().take(i + 1) =~= plain_modifiers.key_seq().take(i as int).push(
                plain_modifiers.key_seq()[i as int],
            ));
            assert(name_views(self.plain_mods@) =~= name_views(old(self).plain_mods@)
                + plain_modifiers.key_seq().take(i + 1));
            i += 1;
        }
        assert(plain_modifiers.key_seq().take(i as int) == plain_modifiers.key_seq());
    }

    /// Sets the modifiers of words.
    pub fn load_word_mods(&mut self, names: &Vec<Name>)
        requires
            old(self).wf(),
        ensures
            final(self).wf(),
            name_views(final(self).word_mods@) == name_views(names@),
            final(self).chords == old(self).chords,
            final(self).sequences == old(self).sequences,
            final(self).modes == old(self).modes,
            final(self).plain_mods == old(self).plain_mods,
            final(self).anagram_mods == old(self).anagram_mods,
            final(self).commands == old(self).commands,
            final(self).options == old(self).options,
            final(self).chord_spec == old(self).chord_spec,
            final(self).kmap_ids == old(self).kmap_ids,
            final(self).max_anagram_num == old(self).max_anagram_num,
            final(self).spellings == old(self).spellings,
    {
        self.word_mods = clone_names(names);
    }

    /// Sets the modifiers of anagrams.
    pub fn load_anagram_mods(&mut self, names: &Vec<Name>)
        requires
            old(self).wf(),
        ensures
            final(self).wf(),
            name_views(final(self).anagram_mods@) == name_views(names@),
            final(self).chords == old(self).chords,
            final(self).sequences == old(self).sequences,
            final(self).modes == old(self).modes,
            final(self).plain_mods == old(self).plain_mods,
            final(self).word_mods == old(self).word_mods,
            final(self).commands == old(self).commands,
            final(self).options == old(self).options,
            final(self).chord_spec == old(self).chord_spec,
            final(self).kmap_ids == old(self).kmap_ids,
            final(self).max_anagram_num == old(self).max_anagram_num,
            final(self).spellings == old(self).spellings,
    {
        self.anagram_mods = clone_names(names);
    }

    /// Registers the commands of the settings, in their order. Stops at
    /// the first that is registered already, here or before; the commands
    /// before it have been registered.
    pub fn load_commands(&mut self, names: &Vec<Name>) -> (r: Result<(), Error>)
        requires
            old(self).wf(),
        ensures
            final(self).wf(),
            final(self).chords == old(self).chords,
            final(self).modes == old(self).modes,
            final(self).word_mods == old(self).word_mods,
            final(self).plain_mods == old(self).plain_mods,
            final(self).anagram_mods == old(self).anagram_mods,
            final(self).options == old(self).options,
            final(self).chord_spec == old(self).chord_spec,
            final(self).kmap_ids == old(self).kmap_ids,
            final(self).max_anagram_num == old(self).max_anagram_num,
            final(self).spellings == old(self).spellings,
            forall|k: SeqType| k != SeqType::Command ==> #[trigger] final(self).seq_map(k) == old(self).seq_map(k),
            r is Ok == (commands_added(old(self).seq_map(SeqType::Command), name_views(names@)) == names.len()),
            r is Err ==> r->Err_0@ == (ErrorView::Duplicate {
                key: name_views(names@)[commands_added(
                    old(self).seq_map(SeqType::Command),
                    name_views(names@),
                )],
                container: "commands map"@,
            }),
            name_views(final(self).commands@) == name_views(old(self).commands@) + name_views(names@).take(
                commands_added(old(self).seq_map(SeqType::Command), name_views(names@)),
            ),
            forall|n: Seq<char>|
                #[trigger] final(self).spec_seq(SeqType::Command, n) == (if name_views(names@).take(
                    commands_added(old(self).seq_map(SeqType::Command), name_views(names@)),
                ).contains(n) {
                    Some(command_presses(n))
                } else {
                    old(self).spec_seq(SeqType::Command, n)
                }),
    {
        let ghost all = name_views(names@);
        let ghost known = self.seq_map(SeqType::Command);
        let mut i: usize = 0;
        proof {
            assert(all.take(0) =~= Seq::<Seq<char>>::empty());
            assert(name_views(self.commands@) =~= name_views(old(self).commands@) + all.take(0));
        }
        while i < names.len()
            invariant
                i <= names.len(),
                all == name_views(names@),
                known == old(self).seq_map(SeqType::Command),
                self.wf(),
                self.chords == old(self).chords,
                self.modes == old(self).modes,
                self.word_mods == old(self).word_mods,
                self.plain_mods == old(self).plain_mods,
                self.anagram_mods == old(self).anagram_mods,
                self.options == old(self).options,
                self.chord_spec == old(self).chord_spec,
                self.kmap_ids == old(self).kmap_ids,
                self.max_anagram_num == old(self).max_anagram_num,
                self.spellings == old(self).spellings,
                forall|k: SeqType| k != SeqType::Command ==> #[trigger] self.seq_map(k) == old(self).seq_map(k),
                name_views(self.commands@) == name_views(old(self).commands@) + all.take(i as int),
                forall|n: Seq<char>|
                    #[trigger] self.spec_seq(SeqType::Command, n) == (if all.take(i as int).contains(n) {
                        Some(command_presses(n))
                    } else {
                        old(self).spec_seq(SeqType::Command, n)
                    }),
                forall|k: Seq<char>|
                    #[trigger] self.seq_map(SeqType::Command).has(k) == (known.has(k) || exists|j: int|
                        0 <= j < i && #[trigger] all[j] == k),
                forall|j: int| 0 <= j < i ==> !clashes(known, all, j),
            decreases names.len() - i,
        {
            let ghost before = *self;
            assert(all[i as int] == names[i as int]@);
            match self.add_command(&names[i]) {
                Ok(_) => {},
                Err(e) => {
                    proof {
                        if !known.has(all[i as int]) {
                            let j = choose|j: int| 0 <= j < i && #[trigger] all[j] == all[i as int];
                            assert(repeated(all, i as int));
                        }
                        assert(first_clash(known, all, i as int));
                        lemma_commands_added(known, all, i as int);
                    }
                    return Err(e);
                },
            }
            proof {
                assert(!known.has(all[i as int]));
                assert(!repeated(all, i as int)) by {
                    if repeated(all, i as int) {
                        let j = choose|j: int| 0 <= j < i && #[trigger] all[j] == all[i as int];
                        assert(before.seq_map(SeqType::Command).has(all[i as int]));
                    }
                }
                assert forall|k: Seq<char>| #[trigger] self.seq_map(SeqType::Command).has(k) == (known.has(k)
                    || exists|j: int| 0 <= j < i + 1 && #[trigger] all[j] == k) by {
                    if k == all[i as int] {
                        assert(self.spec_seq(SeqType::Command, k) is Some);
                    } else {
                        assert(self.spec_seq(SeqType::Command, k) == before.spec_seq(SeqType::Command, k));
                        if before.seq_map(SeqType::Command).has(k) && !known.has(k) {
                            let j = choose|j: int| 0 <= j < i && #[trigger] all[j] == k;
                            assert(0 <= j < i + 1 && all[j] == k);
                        }
                    }
                }
                assert(all.take(i + 1) =~= all.take(i as int).push(all[i as int]));
                assert(name_views(self.commands@) =~= name_views(old(self).commands@) + all.take(i + 1));
                assert forall|n: Seq<char>| #[trigger] self.spec_seq(SeqType::Command, n) == (if all.take(
                    i + 1,
                ).contains(n) {
                    Some(command_presses(n))
                } else {
                    old(self).spec_seq(SeqType::Command, n)
                }) by {
                    if n == all[i as int] {
                        assert(all.take(i + 1)[i as int] == n);
                    } else {
                        assert(self.spec_seq(SeqType::Command, n) == before.spec_seq(SeqType::Command, n));
                        if all.take(i as int).contains(n) {
                            let j = all.take(i as int).index_of(n);
                            assert(all.take(i + 1)[j] == n);
                        }
                        if all.take(i + 1).contains(n) {
                            let j = all.take(i + 1).index_of(n);
                            assert(all.take(i as int)[j] == n);
                        }
                    }
                }
                assert forall|k: SeqType| k != SeqType::Command implies #[trigger] self.seq_map(k) == old(self).seq_map(k) by {
                    assert(before.seq_map(k) == old(self).seq_map(k));
                }
            }
            i += 1;
        }
        proof {
            assert(all.take(i as int) == all);
            assert forall|w: int| !first_clash(known, all, w) by {
                if 0 <= w < all.len() {
                    assert(!clashes(known, all, w));
                }
            }
        }
        Ok(())
    }

    /// Adds each word of the dictionary to each layout on which words are
    /// typed: layout by layout, and on each the words in the order of the
    /// dictionary. Stops with the error of the first word that cannot be
    /// built; the words before it have been added.
    pub fn load_word_list(&mut self, dictionary: &Vec<WordConfig>) -> (r: Result<(), Error>)
        requires
            old(self).wf(),
        ensures
            final(self).wf(),
            final(self).modes == old(self).modes,
            final(self).kmap_ids == old(self).kmap_ids,
            final(self).chords.key_seq() == old(self).chords.key_seq(),
            final(self).same_lists(old(self)),
            forall|k: SeqType| k != SeqType::Word ==> #[trigger] final(self).seq_map(k) == old(self).seq_map(k),
            dictionary.len() == 0 ==> *final(self) == *old(self),
            match layouts_filled(
                old(self).lexicon(),
                word_layouts(old(self).modes, old(self).modes.key_seq().len() as int),
                dictionary@,
                word_layouts(old(self).modes, old(self).modes.key_seq().len() as int).len() as int,
            ) {
                Err(e) => r is Err && r->Err_0@ == e,
                Ok(lex) => r is Ok && final(self).lexicon() == lex,
            },
            r is Err ==> exists|k: int, i: int|
                stops_at(
                    old(self).lexicon(),
                    word_layouts(old(self).modes, old(self).modes.key_seq().len() as int),
                    dictionary@,
                    k,
                    i,
                    final(self).lexicon(),
                ),
    {
        let ghost start = self.lexicon();
        let ghost paths = word_layouts(self.modes, self.modes.key_seq().len() as int);
        if dictionary.len() == 0 {
            proof {
                lemma_no_words(start, paths, dictionary@, paths.len() as int);
            }
            return Ok(());
        }
        let kmaps = self.get_kmaps_with_words();
        proof {
            assert(kmaps@.map_values(|p: KmapPath| p@) == paths);
            assert forall|j: int| 0 <= j < paths.len() implies self.chords.has(#[trigger] paths[j]) by {
                lemma_word_layouts_known(self.modes, self.modes.key_seq().len() as int, j);
                let (a, b) = choose|a: int, b: int|
                    0 <= a < self.modes.key_seq().len() && 0 <= b < self.modes.val_seq()[a].keymaps.len()
                        && #[trigger] mode_paths(self.modes.val_seq()[a])[b] == paths[j];
                assert(self.chords.has(mode_paths(self.modes.val_seq()[a])[b]));
            }
        }
        let mut k: usize = 0;
        while k < kmaps.len()
            invariant
                k <= kmaps.len(),
                self.wf(),
                self.modes == old(self).modes,
                self.kmap_ids == old(self).kmap_ids,
                self.chords.key_seq() == old(self).chords.key_seq(),
                self.same_lists(old(self)),
                forall|t: SeqType| t != SeqType::Word ==> #[trigger] self.seq_map(t) == old(self).seq_map(t),
                kmaps@.map_values(|p: KmapPath| p@) == paths,
                forall|j: int| 0 <= j < paths.len() ==> self.chords.has(#[trigger] paths[j]),
                start == old(self).lexicon(),
                paths == word_layouts(old(self).modes, old(self).modes.key_seq().len() as int),
                layouts_filled(start, paths, dictionary@, k as int) == Ok::<Lexicon, ErrorView>(self.lexicon()),
            decreases kmaps.len() - k,
        {
            let ghost base = self.lexicon();
            let ghost path = paths[k as int];
            assert(kmaps[k as int]@ == path) by {
                assert(kmaps@.map_values(|p: KmapPath| p@)[k as int] == kmaps[k as int]@);
            }
            let mut i: usize = 0;
            while i < dictionary.len()
                invariant
                    i <= dictionary.len(),
                    k < kmaps.len(),
                    self.wf(),
                    self.modes == old(self).modes,
                self.kmap_ids == old(self).kmap_ids,
                    self.chords.key_seq() == old(self).chords.key_seq(),
                    self.same_lists(old(self)),
                    forall|t: SeqType| t != SeqType::Word ==> #[trigger] self.seq_map(t) == old(self).seq_map(t),
                    kmaps@.map_values(|p: KmapPath| p@) == paths,
                    forall|j: int| 0 <= j < paths.len() ==> self.chords.has(#[trigger] paths[j]),
                    kmaps[k as int]@ == path,
                    path == paths[k as int],
                    start == old(self).lexicon(),
                    paths == word_layouts(old(self).modes, old(self).modes.key_seq().len() as int),
                    layouts_filled(start, paths, dictionary@, k as int) == Ok::<Lexicon, ErrorView>(base),
                    words_added(base, path, dictionary@, i as int) == Ok::<Lexicon, ErrorView>(self.lexicon()),
                decreases dictionary.len() - i,
            {
                let ghost before = *self;
                let info = dictionary[i].copy();
                proof {
                    assert(info.spec_anagram_num() == dictionary[i as int].spec_anagram_num());
                    assert(info.spec_chord_spelling() == dictionary[i as int].spec_chord_spelling());
                    assert(info.spec_name() == dictionary[i as int].spec_name());
                    assert(word_of(before.lexicon(), path, info) == word_of(
                        before.lexicon(),
                        path,
                        dictionary[i as int],
                    ));
                    assert(before.chords.has(paths[k as int]));
                }
                match self.add_word(info, &kmaps[k]) {
                    Ok(_) => {},
                    Err(e) => {
                        proof {
                            assert(kmaps@.map_values(|p: KmapPath| p@).len() == kmaps.len());
                            assert(words_added(base, path, dictionary@, i + 1) == Err::<Lexicon, ErrorView>(e@));
                            lemma_words_error_stays(base, path, dictionary@, i + 1, dictionary.len() as int);
                            assert(layouts_filled(start, paths, dictionary@, k + 1) == Err::<Lexicon, ErrorView>(
                                e@,
                            ));
                            lemma_layouts_error_stays(start, paths, dictionary@, k + 1, paths.len() as int);
                            assert(self.lexicon() == before.lexicon());
                            assert(stops_at(start, paths, dictionary@, k as int, i as int, self.lexicon()));
                        }
                        return Err(e);
                    },
                }
                proof {
                    let word = word_of(before.lexicon(), path, dictionary[i as int])->Ok_0;
                    self.lemma_with_word(&before, path, word);
                    assert(words_added(base, path, dictionary@, i + 1) == Ok::<Lexicon, ErrorView>(
                        self.lexicon(),
                    ));
                    assert forall|t: SeqType| t != SeqType::Word implies #[trigger] self.seq_map(t) == old(self).seq_map(t) by {
                        assert(before.seq_map(t) == old(self).seq_map(t));
                    }
                }
                i += 1;
            }
            k += 1;
        }
        assert(kmaps@.map_values(|p: KmapPath| p@).len() == kmaps.len());
        Ok(())
    }

    /// The registry of a keyboard: built from its settings and the text of
    /// its layout files. The steps are taken in this order, and the error
    /// of the first that fails is returned in the context of the step: the
    /// options, the modes, the chords of the layouts, the plain keys, the
    /// macros, the plain modifiers, the modifiers of words and of anagrams,
    /// the dictionary, the commands.
    pub fn load(settings: &Settings, files: &Vec<KmapFile>) -> (r: Result<Maps, Error>)
        requires
            settings.wf(),
        ensures
            match load_error(*settings, files@) {
                Some(e) => r is Err && r->Err_0@ == e,
                None => r is Ok,
            },
            r is Ok ==> r->Ok_0.wf(),
            r is Ok ==> models(r->Ok_0.options@) == settings.options.spec_literal_ops()
                + settings.options.spec_auto_ops(),
            r is Ok ==> name_views(r->Ok_0.word_mods@) == name_views(settings.word_modifiers@),
            r is Ok ==> name_views(r->Ok_0.anagram_mods@) == name_views(settings.anagram_modifiers@),
            r is Ok ==> name_views(r->Ok_0.plain_mods@) == settings.plain_modifiers.key_seq(),
            r is Ok ==> name_views(r->Ok_0.commands@) == name_views(settings.commands@),
            r is Ok ==> r->Ok_0.modes.key_seq() == settings.modes.key_seq(),
            r is Ok ==> forall|i: int|
                0 <= i < settings.modes.key_seq().len() ==> mode_layouts(#[trigger] r->Ok_0.modes.val_seq()[i])
                    == mode_layouts(settings.modes.val_seq()[i]),
            r is Ok ==> r->Ok_0.chords.key_seq() == layout_keys(settings.modes),
            r is Ok ==> r->Ok_0.chord_spec.num_matrix_positions == settings.options.row_pins.len()
                * settings.options.column_pins.len(),
            r is Ok ==> takes(
                r->Ok_0.chord_spec.to_firmware_order.forward_seq(),
                settings.options.kmap_format.spec_flat_order(),
                settings.options.spec_firmware_order(),
            ),
            r is Ok ==> numbered(
                r->Ok_0.kmap_ids,
                modes_registered(Seq::empty(), settings.modes, settings.modes.key_seq().len() as int),
            ),
            r is Ok ==> Ok::<Lexicon, ErrorView>(r->Ok_0.lexicon()) == dictionary_added(*settings, files@),
            r is Ok ==> forall|n: Seq<char>|
                #[trigger] r->Ok_0.spec_seq(SeqType::Plain, n) == plain_presses(*settings, n),
            r is Ok ==> forall|n: Seq<char>|
                #[trigger] r->Ok_0.spec_seq(SeqType::Macro, n) == (if settings.macros.has(n) {
                    Some(settings.macros.val(n)@)
                } else {
                    None
                }),
            r is Ok ==> forall|n: Seq<char>|
                #[trigger] r->Ok_0.spec_seq(SeqType::Command, n) == (if name_views(settings.commands@).contains(
                    n,
                ) {
                    Some(command_presses(n))
                } else {
                    None
                }),
            r is Ok ==> r->Ok_0.seq_map(SeqType::Special).key_seq().len() == 0,
    {
        let parser = match KmapParser::new(&settings.options) {
            Ok(parser) => parser,
            Err(e) => {
                return Err(e.context("failure to load options"));
            },
        };
        let chord_spec = match settings.options.global_chord_info() {
            Ok(spec) => spec,
            Err(e) => {
                return Err(e.context("failure to load options"));
            },
        };
        let mut maps = Maps::new(chord_spec);
        maps.options = settings.options.to_vec();
        let ghost fresh = maps;
        let ghost keys = layout_keys(settings.modes);
        let ghost count = settings.modes.key_seq().len() as int;
        proof {
            assert forall|n: Seq<char>, k: SeqType| #[trigger] fresh.spec_seq(k, n) is None by {
                assert(fresh.sequences[k.spec_index()].key_seq().len() == 0);
            }
        }
        match maps.load_modes(&settings.modes) {
            Ok(_) => {},
            Err(e) => {
                return Err(e.context("failure to load modes"));
            },
        }
        proof {
            assert forall|k: Seq<char>| maps.modes.key_seq().contains(k)
                == settings.modes.key_seq().contains(k) by {
                assert(!fresh.modes.has(k));
                if maps.modes.has(k) {
                    assert(settings.modes.has(k));
                }
                if settings.modes.has(k) {
                    assert(maps.modes.has(k));
                }
            }
            crate::types::huffman::lemma_same_keys(maps.modes.key_seq(), settings.modes.key_seq());
            assert forall|i: int| 0 <= i < count implies mode_layouts(#[trigger] maps.modes.val_seq()[i])
                == mode_layouts(settings.modes.val_seq()[i]) by {
                maps.modes.lemma_pos(i);
                assert(mode_layouts(maps.modes.val(settings.modes.key_seq()[i])) == mode_layouts(
                    settings.modes.val_seq()[i],
                ));
            }
            lemma_word_layouts(maps.modes, settings.modes, count);
            assert forall|k: Seq<char>| #[trigger] maps.chords.key_seq().contains(k) == is_layout(
                settings.modes,
                k,
                count,
            ) by {
                assert(!fresh.chords.has(k));
                assert(maps.chords.has(k) == (fresh.chords.has(k) || is_layout(settings.modes, k, count)));
            }
            assert(crate::text::sorted(keys) && forall|k: Seq<char>|
                #[trigger] keys.contains(k) == is_layout(settings.modes, k, count));
            crate::types::huffman::lemma_same_keys(maps.chords.key_seq(), keys);
            assert forall|n: Seq<char>, k: Seq<char>| #[trigger] maps.spec_chord(n, k) is None by {
                assert(!fresh.chords.has(k));
            }
        }
        let ghost moded = maps;
        proof {
            assert(fresh.kmap_ids.key_seq().len() == 0);
            assert(numbered(fresh.kmap_ids, Seq::empty()));
        }
        match maps.load_chords(&parser, files) {
            Ok(_) => {},
            Err(e) => {
                return Err(e.context("failure to load chords"));
            },
        }
        let ghost chorded = maps;
        proof {
            lemma_scan_order_len(settings.options.row_pins@, settings.options.column_pins@);
            assert forall|n: Seq<char>, k: Seq<char>| #[trigger] maps.spec_chord(n, k) == (if keys.contains(k) {
                layout_chord(settings.options, file_text(files@, k)->0, n)
            } else {
                None
            }) by {
                if keys.contains(k) {
                    let i = keys.index_of(k);
                    assert(keys[i] == k);
                    assert(maps.spec_chord(n, keys[i]) == chord_after(
                        parser,
                        files@,
                        keys[i],
                        n,
                        moded.spec_chord(n, keys[i]),
                    ));
                    let widths = settings.options.kmap_format.spec_items_per_line();
                    let text = file_text(files@, k)->0;
                    let raws = sections_chords(sections_of(text, widths), widths);
                    match last_raw(raws, n, raws.len() as int) {
                        Some(pressed) => {
                            parser.spec_chord_spec().lemma_chord_of(
                                settings.options.kmap_format.spec_flat_order(),
                                settings.options.spec_firmware_order(),
                                pressed,
                            );
                        },
                        None => {},
                    }
                } else {
                    assert(!maps.chords.has(k));
                }
            }
        }
        maps.load_plains(&settings.plain_keys);
        let ghost plained = maps;
        maps.load_spellings(&settings.plain_keys);
        proof {
            assert(chorded.lexicon().spellings =~= Map::<Seq<char>, Seq<char>>::empty());
        }
        maps.load_macros(&settings.macros);
        let ghost with_macros = maps;
        maps.load_plain_mods(&settings.plain_modifiers);
        assert(name_views(maps.plain_mods@) =~= settings.plain_modifiers.key_seq());
        let ghost with_mods = maps;
        maps.load_word_mods(&settings.word_modifiers);
        maps.load_anagram_mods(&settings.anagram_modifiers);
        let ghost based = maps;
        proof {
            assert(maps.sequences == with_mods.sequences);
            assert(maps.chords == chorded.chords);
            assert(maps.modes == moded.modes);
            assert forall|n: Seq<char>| #[trigger] maps.spec_seq(SeqType::Plain, n) == plain_presses(
                *settings,
                n,
            ) by {
                assert(maps.spec_seq(SeqType::Plain, n) == with_mods.spec_seq(SeqType::Plain, n));
                if settings.plain_modifiers.has(n) {
                    let i = settings.plain_modifiers.pos(n);
                    assert(settings.plain_modifiers.key_seq()[i] == n);
                } else {
                    assert(with_mods.spec_seq(SeqType::Plain, n) == with_macros.spec_seq(SeqType::Plain, n));
                    assert(with_macros.seq_map(SeqType::Plain) == plained.seq_map(SeqType::Plain));
                    assert(with_macros.spec_seq(SeqType::Plain, n) == plained.spec_seq(SeqType::Plain, n));
                    if settings.plain_keys.has(n) {
                        let i = settings.plain_keys.pos(n);
                        assert(settings.plain_keys.key_seq()[i] == n);
                    } else {
                        assert(plained.spec_seq(SeqType::Plain, n) == chorded.spec_seq(SeqType::Plain, n));
                        assert(chorded.sequences == fresh.sequences);
                        assert(fresh.spec_seq(SeqType::Plain, n) is None);
                    }
                }
            }
            assert forall|n: Seq<char>| #[trigger] maps.spec_seq(SeqType::Macro, n) == (if settings.macros.has(
                n,
            ) {
                Some(settings.macros.val(n)@)
            } else {
                None
            }) by {
                assert(maps.spec_seq(SeqType::Macro, n) == with_mods.spec_seq(SeqType::Macro, n));
                assert(with_mods.seq_map(SeqType::Macro) == with_macros.seq_map(SeqType::Macro));
                assert(with_mods.spec_seq(SeqType::Macro, n) == with_macros.spec_seq(SeqType::Macro, n));
                if settings.macros.has(n) {
                    let i = settings.macros.pos(n);
                    assert(settings.macros.key_seq()[i] == n);
                } else {
                    assert(plained.seq_map(SeqType::Macro) == chorded.seq_map(SeqType::Macro));
                    assert(chorded.sequences == fresh.sequences);
                    assert(fresh.spec_seq(SeqType::Macro, n) is None);
                }
            }
            assert forall|k: SeqType|
                k != SeqType::Plain && k != SeqType::Macro implies #[trigger] maps.seq_map(k)
                == fresh.seq_map(k) by {
                assert(with_mods.seq_map(k) == with_macros.seq_map(k));
                assert(with_macros.seq_map(k) == plained.seq_map(k));
                assert(plained.seq_map(k) == chorded.seq_map(k));
                assert(chorded.sequences == fresh.sequences);
            }
            let base = base_lexicon(*settings, files@);
            let now = maps.lexicon();
            assert forall|p: (Seq<char>, Seq<char>)|
                #![trigger now.chords.dom().contains(p)]
                #![trigger base.chords.dom().contains(p)]
                now.chords.dom().contains(p) == base.chords.dom().contains(p) && (now.chords.dom().contains(p)
                    ==> now.chords[p] == base.chords[p]) by {
                assert(maps.spec_chord(p.0, p.1) == chorded.spec_chord(p.0, p.1));
                assert(chorded.spec_chord(p.0, p.1) == (if keys.contains(p.1) {
                    layout_chord(settings.options, file_text(files@, p.1)->0, p.0)
                } else {
                    None
                }));
            }
            assert(now.chords =~= base.chords);
            assert forall|n: Seq<char>| !now.words.contains_key(n) by {
                assert(maps.seq_map(SeqType::Word) == fresh.seq_map(SeqType::Word));
                assert(fresh.spec_seq(SeqType::Word, n) is None);
            }
            assert(now.words =~= base.words);
            assert(now.spellings == base.spellings);
            assert(now.chord_len == base.chord_len);
            assert(now.max_anagram_num == 0);
            assert(now == base);
            assert(word_layouts(maps.modes, maps.modes.key_seq().len() as int) == word_layouts(
                settings.modes,
                count,
            ));
        }
        match maps.load_word_list(&settings.dictionary) {
            Ok(_) => {},
            Err(e) => {
                return Err(e.context("failure to load dictionary"));
            },
        }
        let ghost worded = maps;
        let ghost known = maps.seq_map(SeqType::Command);
        let ghost listed = name_views(settings.commands@);
        proof {
            assert(worded.seq_map(SeqType::Command) == fresh.seq_map(SeqType::Command));
            assert(known.key_seq().len() == 0);
            assert forall|i: int| 0 <= i < listed.len() implies clashes(known, listed, i) == repeated(
                listed,
                i,
            ) by {
                assert(!known.has(listed[i]));
            }
            if exists|i: int| first_repeated(listed, i) {
                let c = choose|i: int| first_repeated(listed, i);
                assert(first_clash(known, listed, c)) by {
                    assert forall|j: int| 0 <= j < c implies !clashes(known, listed, j) by {
                        assert(!repeated(listed, j));
                    }
                }
                lemma_commands_added(known, listed, c);
            } else {
                assert forall|w: int| !first_clash(known, listed, w) by {
                    if first_clash(known, listed, w) {
                        assert(first_repeated(listed, w)) by {
                            assert forall|j: int| 0 <= j < w implies !repeated(listed, j) by {
                                assert(!clashes(known, listed, j));
                            }
                        }
                    }
                }
            }
        }
        match maps.load_commands(&settings.commands) {
            Ok(_) => {},
            Err(e) => {
                return Err(e.context("failure to load commands"));
            },
        }
        proof {
            assert(listed.take(listed.len() as int) == listed);
            assert(name_views(maps.commands@) =~= name_views(settings.commands@));
            assert forall|n: Seq<char>| #[trigger] maps.spec_seq(SeqType::Plain, n) == plain_presses(
                *settings,
                n,
            ) by {
                assert(maps.seq_map(SeqType::Plain) == worded.seq_map(SeqType::Plain));
                assert(worded.seq_map(SeqType::Plain) == based.seq_map(SeqType::Plain));
                assert(maps.spec_seq(SeqType::Plain, n) == based.spec_seq(SeqType::Plain, n));
            }
            assert forall|n: Seq<char>| #[trigger] maps.spec_seq(SeqType::Macro, n) == (if settings.macros.has(
                n,
            ) {
                Some(settings.macros.val(n)@)
            } else {
                None
            }) by {
                assert(maps.seq_map(SeqType::Macro) == worded.seq_map(SeqType::Macro));
                assert(worded.seq_map(SeqType::Macro) == based.seq_map(SeqType::Macro));
                assert(maps.spec_seq(SeqType::Macro, n) == based.spec_seq(SeqType::Macro, n));
            }
            assert forall|n: Seq<char>| #[trigger] maps.spec_seq(SeqType::Command, n) == (if name_views(
                settings.commands@,
            ).contains(n) {
                Some(command_presses(n))
            } else {
                None
            }) by {
                assert(worded.spec_seq(SeqType::Command, n) == fresh.spec_seq(SeqType::Command, n));
                assert(fresh.spec_seq(SeqType::Command, n) is None);
            }
            assert(maps.seq_map(SeqType::Special) == worded.seq_map(SeqType::Special));
            assert(worded.seq_map(SeqType::Special) == based.seq_map(SeqType::Special));
            assert(based.seq_map(SeqType::Special) == fresh.seq_map(SeqType::Special));
            assert(maps.seq_map(SeqType::Word) == worded.seq_map(SeqType::Word));
            assert(maps.lexicon().words =~= worded.lexicon().words) by {
                assert forall|n: Seq<char>| maps.spec_seq(SeqType::Word, n) == worded.spec_seq(
                    SeqType::Word,
                    n,
                ) by {}
            }
            assert(maps.lexicon().chords =~= worded.lexicon().chords);
            assert(maps.lexicon().spellings =~= worded.lexicon().spellings);
            assert(maps.lexicon() == worded.lexicon());
        }
        Ok(maps)
    }
}

/// The character that the plain key `press` types, if it is the key of a
/// small letter, of a digit or of the space.
pub fn spelling_of(press: &KeyPress) -> (c: Option<char>)
    ensures
        match c {
            Some(c) => typed_char(press@, c) && forall|d: char| typed_char(press@, d) ==> d == c,
            None => forall|c: char| !typed_char(press@, c),
        },
{
    if press.mods.len() != 0 {
        assert(press@.mods.len() != 0);
        return None;
    }
    let code = match &press.key {
        Some(code) => code,
        None => {
            return None;
        },
    };
    let chars = crate::text::chars_of(code.as_str());
    proof {
        reveal_strlit("KEY_");
        reveal_strlit("KEY_SPACE");
    }
    if crate::text::str_eq(code.as_str(), "KEY_SPACE") {
        assert(press@.mods =~= Seq::<Seq<char>>::empty());
        assert forall|c: char| c != ' ' implies !typed_char(press@, c) by {
            if ('a' <= c <= 'z') || ('0' <= c <= '9') {
                assert(press_for_char(c)->0.key->0.len() == 5);
            }
        }
        return Some(' ');
    }
    if chars.len() == 5 && chars[0] == 'K' && chars[1] == 'E' && chars[2] == 'Y' && chars[3] == '_' {
        let last = chars[4];
        let found = if 'A' <= last && last <= 'Z' {
            Some(((last as u32) + 32) as u8 as char)
        } else if '0' <= last && last <= '9' {
            Some(last)
        } else {
            None
        };
        proof {
            assert(press@.mods =~= Seq::<Seq<char>>::empty());
            assert(code@ =~= "KEY_"@ + seq![last]);
            assert forall|c: char| typed_char(press@, c) implies found == Some(c) by {
                let want = press_for_char(c)->0.key->0;
                assert(want == code@);
                if c != ' ' {
                    assert(want[4] == last);
                }
            }
            if found is Some {
                let c = found->0;
                assert(press_for_char(c)->0.key->0 =~= code@);
            }
        }
        return found;
    }
    proof {
        assert forall|c: char| !typed_char(press@, c) by {
            if typed_char(press@, c) {
                let want = press_for_char(c)->0.key->0;
                assert(want == code@);
                if c != ' ' {
                    assert(want.len() == 5);
                    assert(want[0] == 'K' && want[1] == 'E' && want[2] == 'Y' && want[3] == '_');
                }
            }
        }
    }
    None
}

/// The layout at position `i` is the first that cannot be read if it
/// cannot and those before it can.
proof fn lemma_layouts_read(widths: Seq<nat>, files: Seq<KmapFile>, keys: Seq<Seq<char>>, i: int)
    requires
        first_failing(widths, files, keys, i),
    ensures
        layouts_read(widths, files, keys) == i,
{
    let w = choose|w: int| first_failing(widths, files, keys, w);
    assert(first_failing(widths, files, keys, w));
    if w < i {
        assert(kmap_error(widths, files, keys[w]) is None);
    }
    if w > i {
        assert(kmap_error(widths, files, keys[i]) is None);
    }
}


/// An error in the context of a step.
pub open spec fn in_context(message: Seq<char>, cause: ErrorView) -> ErrorView {
    ErrorView::Context { message, cause: Box::new(cause) }
}

/// What a plain name types: the press of the plain modifier of that name,
/// or else that of the plain key.
pub open spec fn plain_presses(settings: Settings, name: Seq<char>) -> Option<Seq<KeyPressView>> {
    if settings.plain_modifiers.has(name) {
        Some(seq![settings.plain_modifiers.val(name)@])
    } else if settings.plain_keys.has(name) {
        Some(seq![settings.plain_keys.val(name)@])
    } else {
        None
    }
}

/// The lexicon of the settings and the layout files before a word is
/// added: the spellings of the plain keys, and the chords of the layout
/// files.
pub open spec fn base_lexicon(settings: Settings, files: Seq<KmapFile>) -> Lexicon {
    let keys = layout_keys(settings.modes);
    Lexicon {
        chord_len: 8 * bytes_for((settings.options.row_pins.len() * settings.options.column_pins.len()) as nat),
        spellings: spelled(Map::empty(), settings.plain_keys, settings.plain_keys.key_seq().len() as int),
        chords: Map::new(
            |p: (Seq<char>, Seq<char>)|
                keys.contains(p.1) && layout_chord(settings.options, file_text(files, p.1)->0, p.0) is Some,
            |p: (Seq<char>, Seq<char>)| layout_chord(settings.options, file_text(files, p.1)->0, p.0)->0,
        ),
        words: Map::empty(),
        max_anagram_num: 0,
    }
}

/// The lexicon once the dictionary of the settings is added to each layout
/// on which words are typed, or the error of the first word that cannot be
/// built.
pub open spec fn dictionary_added(settings: Settings, files: Seq<KmapFile>) -> Result<Lexicon, ErrorView> {
    let paths = word_layouts(settings.modes, settings.modes.key_seq().len() as int);
    layouts_filled(base_lexicon(settings, files), paths, settings.dictionary@, paths.len() as int)
}

/// Why no registry can be built, if none can: the layout and the pins do
/// not match; or else a layout file is missing or malformed; or else a word
/// of the dictionary cannot be built; or else a command stands in the list
/// twice.
pub open spec fn load_error(settings: Settings, files: Seq<KmapFile>) -> Option<ErrorView> {
    let widths = settings.options.kmap_format.spec_items_per_line();
    let keys = layout_keys(settings.modes);
    let commands = name_views(settings.commands@);
    match permutation_error(
        settings.options.kmap_format.spec_flat_order(),
        settings.options.spec_firmware_order(),
    ) {
        Some(e) => Some(
            in_context(
                "failure to load options"@,
                in_context(
                    "'kmap_format' contains pin numbers not present in 'row_pins' or 'column_pins'"@,
                    e,
                ),
            ),
        ),
        None => if layouts_read(widths, files, keys) < keys.len() {
            Some(
                in_context(
                    "failure to load chords"@,
                    kmap_error(widths, files, keys[layouts_read(widths, files, keys)])->0,
                ),
            )
        } else {
            match dictionary_added(settings, files) {
                Err(e) => Some(in_context("failure to load dictionary"@, e)),
                Ok(_) => if exists|i: int| first_repeated(commands, i) {
                    Some(
                        in_context(
                            "failure to load commands"@,
                            ErrorView::Duplicate {
                                key: commands[choose|i: int| first_repeated(commands, i)],
                                container: "commands map"@,
                            },
                        ),
                    )
                } else {
                    None
                },
            }
        },
    }
}

} // verus!
