//! The parser of layout files.
//!
//! A layout file is read line by line. Lines that are blank, or whose first
//! character that is not white space is `#`, do not count. The others come
//! in sections of one line of names and one line for each row of the
//! layout's shape. The names of a section stand side by side above their
//! blocks: the first row holds the first row of each block, and so on. In a
//! block `.` is a switch that is not pressed, and any other character one
//! that is.

use vstd::prelude::*;
use crate::chunks::{chunk_views, chunked, chunks_of, lemma_chunk_len};
use crate::load::deserialize::{flat, OptionsConfig};
use crate::text::{
    char_rows, chars_of, concat, lines_of, split_lines, split_words, string_from_chars, words_of,
};
use crate::types::chord::{permutation_error, takes, Chord, ChordSpec, SwitchPos};
use crate::types::errors::{Error, ErrorView};
use crate::sorted_map::StrMap;
use crate::types::chord::ChordView;
use crate::types::names::Name;

verus! {

/// The character that begins a comment.
pub const COMMENT_START: char = '#';

/// The character of a switch that is not pressed.
pub const UNPRESSED_CHAR: char = '.';

/// A line that counts: its number in the file, the first line being 1, and
/// its words.
#[derive(Debug, PartialEq, Eq)]
pub struct KmapLine {
    pub number: usize,
    pub words: Vec<Vec<char>>,
}

/// A `KmapLine` as a mathematical value.
pub struct LineView {
    pub number: nat,
    pub words: Seq<Seq<char>>,
}

impl View for KmapLine {
    type V = LineView;

    open spec fn view(&self) -> LineView {
        LineView { number: self.number as nat, words: char_rows(self.words@) }
    }
}

/// A chord of a layout file before it is put into the order of the
/// firmware: its name and its switches in the order of the file.
pub struct RawChord {
    pub name: Seq<char>,
    pub pressed: Seq<bool>,
}

/// Whether a line with these words counts: it has a word, and the first
/// does not begin a comment.
pub open spec fn counts(words: Seq<Seq<char>>) -> bool {
    words.len() > 0 && words[0].len() > 0 && words[0][0] != '#'
}

/// The lines that count among `lines`, each with its number.
pub open spec fn counting_lines(lines: Seq<Seq<char>>) -> Seq<LineView>
    decreases lines.len(),
{
    if lines.len() == 0 {
        Seq::empty()
    } else {
        let before = counting_lines(lines.drop_last());
        let words = words_of(lines.last());
        if counts(words) {
            before.push(LineView { number: lines.len(), words })
        } else {
            before
        }
    }
}

/// The sum of `widths`.
pub open spec fn sum(widths: Seq<nat>) -> nat
    decreases widths.len(),
{
    if widths.len() == 0 {
        0
    } else {
        sum(widths.drop_last()) + widths.last()
    }
}

/// The characters of a row: its words without the space between them.
pub open spec fn row_chars(line: LineView) -> Seq<char> {
    concat(line.words)
}

/// Whether a character of a row stands for a pressed switch.
pub open spec fn pressed(c: char) -> bool {
    c != '.'
}

/// The switches of block `b` in a row of blocks that are `width` wide.
pub open spec fn block_row(line: LineView, width: nat, b: int) -> Seq<bool> {
    row_chars(line).subrange(b * width, (b + 1) * width).map_values(|c: char| pressed(c))
}

/// The switches of block `b` in the first `rows` rows of a section.
pub open spec fn block_bits(section: Seq<LineView>, widths: Seq<nat>, b: int, rows: nat) -> Seq<bool>
    decreases rows,
{
    if rows == 0 {
        Seq::empty()
    } else {
        block_bits(section, widths, b, (rows - 1) as nat) + block_row(
            section[rows as int],
            widths[rows - 1],
            b,
        )
    }
}

/// Whether row `l` of a section has as many characters as its blocks need.
pub open spec fn row_fits(section: Seq<LineView>, widths: Seq<nat>, l: int) -> bool {
    row_chars(section[l + 1]).len() == widths[l] * section[0].words.len()
}

/// Whether row `l` is the first row of a section with too many or too few
/// characters.
pub open spec fn first_bad_row(section: Seq<LineView>, widths: Seq<nat>, l: int) -> bool {
    &&& 0 <= l < widths.len()
    &&& !row_fits(section, widths, l)
    &&& forall|j: int| 0 <= j < l ==> row_fits(section, widths, j)
}

/// The number of the line at which a section is malformed, if it is: its
/// last line if it has too few lines, else its first row that does not have
/// as many characters as its blocks need.
pub open spec fn section_error(section: Seq<LineView>, widths: Seq<nat>) -> Option<nat> {
    if section.len() != widths.len() + 1 {
        Some(section.last().number)
    } else if exists|l: int| first_bad_row(section, widths, l) {
        Some(section[(choose|l: int| first_bad_row(section, widths, l)) + 1].number)
    } else {
        None
    }
}

/// The chords of a well-formed section, in the order of their names.
pub open spec fn section_chords(section: Seq<LineView>, widths: Seq<nat>) -> Seq<RawChord> {
    Seq::new(
        section[0].words.len(),
        |b: int| RawChord { name: section[0].words[b], pressed: block_bits(section, widths, b, widths.len()) },
    )
}

/// The number of the line at which the first malformed section is
/// malformed, if there is one.
pub open spec fn sections_error(sections: Seq<Seq<LineView>>, widths: Seq<nat>) -> Option<nat>
    decreases sections.len(),
{
    if sections.len() == 0 {
        None
    } else {
        match sections_error(sections.drop_last(), widths) {
            Some(line) => Some(line),
            None => section_error(sections.last(), widths),
        }
    }
}

/// The chords of all the sections, in order.
pub open spec fn sections_chords(sections: Seq<Seq<LineView>>, widths: Seq<nat>) -> Seq<RawChord>
    decreases sections.len(),
{
    if sections.len() == 0 {
        Seq::empty()
    } else {
        sections_chords(sections.drop_last(), widths) + section_chords(sections.last(), widths)
    }
}

/// The sections of a layout file.
pub open spec fn sections_of(text: Seq<char>, widths: Seq<nat>) -> Seq<Seq<LineView>> {
    chunked(counting_lines(lines_of(text)), widths.len() + 1)
}

/// The views of a list of lines.
pub open spec fn line_views(lines: Seq<KmapLine>) -> Seq<LineView> {
    lines.map_values(|l: KmapLine| l@)
}

/// A chord with its name.
#[derive(Debug, PartialEq, Eq)]
pub struct NamedChord {
    pub name: Name,
    pub chord: Chord,
}

/// Parses layout files of one shape.
#[derive(Debug, PartialEq, Eq)]
pub struct KmapParser {
    items_per_line: Vec<usize>,
    lines_in_block: usize,
    chord_spec: ChordSpec,
}

/// The switches of the last of the first `n` chords of a layout file that
/// is called `name`, if one of them is.
pub open spec fn last_raw(raws: Seq<RawChord>, name: Seq<char>, n: int) -> Option<Seq<bool>>
    decreases n,
{
    if n <= 0 {
        None
    } else if raws[n - 1].name == name {
        Some(raws[n - 1].pressed)
    } else {
        last_raw(raws, name, n - 1)
    }
}

/// The characters of `words`, one word after the other.
pub fn flatten_words(words: &Vec<Vec<char>>) -> (chars: Vec<char>)
    ensures
        chars@ == concat(char_rows(words@)),
{
    let mut chars: Vec<char> = Vec::new();
    let mut i: usize = 0;
    while i < words.len()
        invariant
            i <= words.len(),
            chars@ == concat(char_rows(words@).take(i as int)),
        decreases words.len() - i,
    {
        let word = &words[i];
        let ghost before = chars@;
        let mut j: usize = 0;
        while j < word.len()
            invariant
                j <= word.len(),
                chars@ == before + word@.take(j as int),
            decreases word.len() - j,
        {
            chars.push(word[j]);
            assert(chars@ =~= before + word@.take(j + 1));
            j += 1;
        }
        proof {
            assert(word@.take(j as int) == word@);
            let rows = char_rows(words@);
            assert(rows.take(i + 1).drop_last() == rows.take(i as int));
            assert(rows.take(i + 1).last() == word@);
        }
        i += 1;
    }
    assert(char_rows(words@).take(i as int) == char_rows(words@));
    chars
}

/// The lines of `text` that count, each with its number and its words.
pub fn significant_lines(text: &str) -> (lines: Vec<KmapLine>)
    ensures
        line_views(lines@) == counting_lines(lines_of(text@)),
{
    let chars = chars_of(text);
    let all = split_lines(&chars);
    let ghost rows = lines_of(text@);
    let mut lines: Vec<KmapLine> = Vec::new();
    assert(line_views(lines@) =~= Seq::<LineView>::empty());
    let mut i: usize = 0;
    assert(rows.take(0) =~= Seq::empty());
    while i < all.len()
        invariant
            i <= all.len(),
            rows == char_rows(all@),
            line_views(lines@) == counting_lines(rows.take(i as int)),
        decreases all.len() - i,
    {
        let words = split_words(&all[i]);
        proof {
            assert(rows.take(i + 1).drop_last() == rows.take(i as int));
            assert(rows.take(i + 1).last() == all[i as int]@);
            assert(rows.take(i + 1).len() == i + 1);
            if words.len() > 0 {
                assert(char_rows(words@)[0] == words[0]@);
            }
        }
        if words.len() > 0 && words[0].len() > 0 && words[0][0] != COMMENT_START {
            let ghost before = lines@;
            let line = KmapLine { number: i + 1, words };
            lines.push(line);
            assert(line_views(lines@) =~= line_views(before).push(line@));
        }
        i += 1;
    }
    assert(rows.take(i as int) == rows);
    lines
}

impl KmapParser {
    /// The number of characters of each row of a block.
    pub closed spec fn widths(&self) -> Seq<nat> {
        self.items_per_line@.map_values(|n: usize| n as nat)
    }

    /// What the chords of the layout share.
    pub closed spec fn spec_chord_spec(&self) -> ChordSpec {
        self.chord_spec
    }

    /// The rows of a block hold one character for each switch, and a
    /// section is one line longer than a block.
    pub closed spec fn wf(&self) -> bool {
        &&& self.chord_spec.wf()
        &&& sum(self.widths()) == self.chord_spec.num_switches
        &&& self.lines_in_block == self.items_per_line.len() + 1
    }

    /// The number of the line at which `text` is malformed, if it is.
    pub open spec fn spec_error(&self, text: Seq<char>) -> Option<nat> {
        sections_error(sections_of(text, self.widths()), self.widths())
    }

    /// The chords of a well-formed `text`, in the order of the file, with
    /// their switches in that order too.
    pub open spec fn spec_chords(&self, text: Seq<char>) -> Seq<RawChord> {
        sections_chords(sections_of(text, self.widths()), self.widths())
    }

    /// The switches of block `b` of a section.
    fn block(&self, rows: &Vec<Vec<char>>, b: usize, Ghost(section): Ghost<Seq<LineView>>) -> (bits: Vec<
        bool,
    >)
        requires
            self.wf(),
            section.len() == self.widths().len() + 1,
            rows.len() == self.widths().len(),
            b < section[0].words.len(),
            forall|l: int| 0 <= l < rows.len() ==> (#[trigger] rows[l])@ == row_chars(section[l + 1]),
            forall|l: int| 0 <= l < rows.len() ==> row_fits(section, self.widths(), l),
        ensures
            bits@ == block_bits(section, self.widths(), b as int, self.widths().len()),
            bits.len() == sum(self.widths()),
    {
        let ghost widths = self.widths();
        let mut bits: Vec<bool> = Vec::new();
        let mut l: usize = 0;
        assert(widths.take(0) =~= Seq::empty());
        while l < rows.len()
            invariant
                l <= rows.len(),
                self.wf(),
                widths == self.widths(),
                section.len() == widths.len() + 1,
                rows.len() == widths.len(),
                b < section[0].words.len(),
                forall|l: int| 0 <= l < rows.len() ==> (#[trigger] rows[l])@ == row_chars(section[l + 1]),
                forall|l: int| 0 <= l < rows.len() ==> row_fits(section, widths, l),
                bits@ == block_bits(section, widths, b as int, l as nat),
                bits.len() == sum(widths.take(l as int)),
            decreases rows.len() - l,
        {
            let width = self.items_per_line[l];
            let row = &rows[l];
            let ghost n = section[0].words.len() as int;
            proof {
                assert(widths[l as int] == width);
                assert(row_fits(section, widths, l as int));
                assert(row@.len() == width * n);
                assert(b * width + width <= width * n) by (nonlinear_arith)
                    requires
                        0 <= b < n,
                        width >= 0,
                ;
                assert((b + 1) * width == b * width + width) by (nonlinear_arith);
                assert(widths.take(l + 1).drop_last() == widths.take(l as int));
                assert(row@.len() == row.len());
                assert(0 <= b * width) by (nonlinear_arith)
                    requires
                        b >= 0,
                        width >= 0,
                ;
                assert(b * width <= row.len());
            }
            let start = b * width;
            let ghost before = bits@;
            let ghost part = block_row(section[l + 1], width as nat, b as int);
            let mut k: usize = 0;
            while k < width
                invariant
                    k <= width,
                    start == b * width,
                    start + width <= row.len(),
                    l + 1 < section.len(),
                    row@ == row_chars(section[l + 1]),
                    part == block_row(section[l + 1], width as nat, b as int),
                    (b + 1) * width == b * width + width,
                    bits@ == before + part.take(k as int),
                decreases width - k,
            {
                bits.push(row[start + k] != UNPRESSED_CHAR);
                assert(bits@ =~= before + part.take(k + 1));
                k += 1;
            }
            assert(part.take(k as int) == part);
            l += 1;
        }
        assert(widths.take(l as int) == widths);
        bits
    }

    /// The chords of one section, or the number of the line at which it is
    /// malformed.
    fn parse_section(&self, section: &Vec<KmapLine>) -> (r: Result<Vec<NamedChord>, Error>)
        requires
            self.wf(),
            section.len() > 0,
        ensures
            match section_error(line_views(section@), self.widths()) {
                Some(line) => r is Err && r->Err_0@ == (ErrorView::Syntax { line }),
                None => r is Ok && self.holds(r->Ok_0@, section_chords(line_views(section@), self.widths())),
            },
    {
        let ghost lines = line_views(section@);
        let ghost widths = self.widths();
        if section.len() != self.lines_in_block {
            assert(lines.last() == section[section.len() - 1]@);
            return Err(Error::Syntax { line: section[section.len() - 1].number });
        }
        let names = &section[0].words;
        assert(lines[0].words == char_rows(names@));
        let num_blocks = names.len();
        let mut rows: Vec<Vec<char>> = Vec::new();
        let mut l: usize = 0;
        while l < self.items_per_line.len()
            invariant
                l <= self.items_per_line.len(),
                self.wf(),
                lines == line_views(section@),
                widths == self.widths(),
                section.len() == widths.len() + 1,
                num_blocks == lines[0].words.len(),
                rows.len() == l,
                forall|j: int| 0 <= j < l ==> (#[trigger] rows[j])@ == row_chars(lines[j + 1]),
                forall|j: int| 0 <= j < l ==> row_fits(lines, widths, j),
            decreases self.items_per_line.len() - l,
        {
            let row = flatten_words(&section[l + 1].words);
            assert(lines[l + 1] == section[l + 1]@);
            assert(widths[l as int] == self.items_per_line[l as int]);
            assert(row@ == row_chars(lines[l + 1]));
            assert(row@.len() == row.len());
            let fits = match self.items_per_line[l].checked_mul(num_blocks) {
                Some(want) => row.len() == want,
                None => false,
            };
            if !fits {
                proof {
                    assert(!row_fits(lines, widths, l as int));
                    assert(first_bad_row(lines, widths, l as int));
                    let w = choose|w: int| first_bad_row(lines, widths, w);
                    assert(first_bad_row(lines, widths, w));
                    if w < l {
                        assert(row_fits(lines, widths, w));
                    }
                    if w > l {
                        assert(row_fits(lines, widths, l as int));
                    }
                }
                return Err(Error::Syntax { line: section[l + 1].number });
            }
            rows.push(row);
            l += 1;
        }
        proof {
            assert forall|w: int| !first_bad_row(lines, widths, w) by {
                if 0 <= w < widths.len() {
                    assert(row_fits(lines, widths, w));
                }
            }
        }
        let ghost want = section_chords(lines, widths);
        let mut chords: Vec<NamedChord> = Vec::new();
        let mut b: usize = 0;
        while b < num_blocks
            invariant
                b <= num_blocks,
                self.wf(),
                lines == line_views(section@),
                widths == self.widths(),
                want == section_chords(lines, widths),
                section.len() == widths.len() + 1,
                names == &section[0].words,
                lines[0].words == char_rows(names@),
                num_blocks == names.len(),
                rows.len() == widths.len(),
                forall|j: int| 0 <= j < rows.len() ==> (#[trigger] rows[j])@ == row_chars(lines[j + 1]),
                forall|j: int| 0 <= j < rows.len() ==> row_fits(lines, widths, j),
                chords.len() == b,
                forall|j: int| 0 <= j < b ==> self.holds_one(#[trigger] chords[j], want[j]),
            decreases num_blocks - b,
        {
            let bits = self.block(&rows, b, Ghost(lines));
            let chord = self.chord_spec.to_firmware_order(&bits);
            let name = Name(string_from_chars(&names[b]));
            assert(char_rows(names@)[b as int] == names[b as int]@);
            chords.push(NamedChord { name, chord });
            b += 1;
        }
        Ok(chords)
    }

    /// Whether `chord` is `raw` with its switches put in the order of the
    /// firmware.
    pub open spec fn holds_one(&self, chord: NamedChord, raw: RawChord) -> bool {
        &&& chord.name@ == raw.name
        &&& chord.chord@ == self.spec_chord_spec().chord_of(raw.pressed)
        &&& chord.chord@.switches.len() == self.spec_chord_spec().chord_len()
    }

    /// Whether `chords` are `raw`, one for one, with their switches put in
    /// the order of the firmware.
    pub open spec fn holds(&self, chords: Seq<NamedChord>, raw: Seq<RawChord>) -> bool {
        chords.len() == raw.len() && forall|j: int|
            0 <= j < raw.len() ==> self.holds_one(#[trigger] chords[j], raw[j])
    }

    /// A parser for the layout files of a keyboard with the options `ops`.
    /// Fails where the shape of the layout and the pins of the matrix do
    /// not match.
    pub fn new(ops: &OptionsConfig) -> (r: Result<KmapParser, Error>)
        requires
            ops.fits(),
            ops.kmap_format.0.len() < usize::MAX,
        ensures
            match permutation_error(ops.kmap_format.spec_flat_order(), ops.spec_firmware_order()) {
                Some(e) => r is Err && r->Err_0@ == (ErrorView::Context {
                    message: "'kmap_format' contains pin numbers not present in 'row_pins' or 'column_pins'"@,
                    cause: Box::new(e),
                }),
                None => r is Ok && r->Ok_0.wf() && r->Ok_0.widths() == ops.kmap_format.spec_items_per_line()
                    && r->Ok_0.spec_chord_spec().wf() && takes(
                    r->Ok_0.spec_chord_spec().to_firmware_order.forward_seq(),
                    ops.kmap_format.spec_flat_order(),
                    ops.spec_firmware_order(),
                ) && r->Ok_0.spec_chord_spec().num_matrix_positions == ops.row_pins.len()
                    * ops.column_pins.len(),
            },
    {
        match ops.global_chord_info() {
            Ok(chord_spec) => {
                let items_per_line = ops.kmap_format.items_per_line();
                proof {
                    lemma_flat_len(ops.kmap_format.0@);
                    assert(chord_spec.num_switches == ops.kmap_format.spec_flat_order().len());
                }
                Ok(KmapParser { items_per_line, lines_in_block: 1 + ops.kmap_format.0.len(), chord_spec })
            },
            Err(e) => Err(e),
        }
    }

    /// The chords of the layout file `text`, in the order of the file, or a
    /// syntax error with the number of the line at which the first
    /// malformed section is malformed.
    pub fn parse_pairs(&self, text: &str) -> (r: Result<Vec<NamedChord>, Error>)
        requires
            self.wf(),
        ensures
            match self.spec_error(text@) {
                Some(line) => r is Err && r->Err_0@ == (ErrorView::Syntax { line }),
                None => r is Ok && self.holds(r->Ok_0@, self.spec_chords(text@)),
            },
    {
        let lines = significant_lines(text);
        let ghost all = lines@;
        let ghost counting = line_views(lines@);
        let ghost widths = self.widths();
        let sections = chunks_of(lines, self.lines_in_block);
        let ghost want = sections_of(text@, widths);
        proof {
            assert(chunk_views(sections@).len() == sections.len());
            assert(want.len() == sections.len());
        }
        let mut chords: Vec<NamedChord> = Vec::new();
        let mut i: usize = 0;
        proof {
            assert(want.take(0) =~= Seq::empty());
        }
        while i < sections.len()
            invariant
                i <= sections.len(),
                self.wf(),
                widths == self.widths(),
                want == sections_of(text@, widths),
                want.len() == sections.len(),
                counting == counting_lines(lines_of(text@)),
                chunk_views(sections@) == chunked(all, (widths.len() + 1) as nat),
                line_views(all) == counting,
                sections_error(want.take(i as int), widths) is None,
                self.holds(chords@, sections_chords(want.take(i as int), widths)),
            decreases sections.len() - i,
        {
            proof {
                let size = (widths.len() + 1) as nat;
                assert(counting.len() == all.len());
                lemma_chunk_len(all, size, i as int);
                lemma_chunk_len(counting, size, i as int);
                assert(chunk_views(sections@)[i as int] == sections[i as int]@);
                let from = i * size;
                let to = if (i + 1) * size <= all.len() {
                    (i + 1) * size
                } else {
                    all.len() as int
                };
                assert(0 <= from < to <= all.len());
                assert(sections[i as int]@ == all.subrange(from, to));
                assert(want[i as int] == counting.subrange(from, to));
                assert(line_views(sections[i as int]@) =~= want[i as int]);
                assert(want.take(i + 1).drop_last() == want.take(i as int));
                assert(want.take(i + 1).last() == want[i as int]);
            }
            match self.parse_section(&sections[i]) {
                Ok(more) => {
                    let mut more = more;
                    let ghost before = chords@;
                    let ghost added = more@;
                    chords.append(&mut more);
                    proof {
                        let a = sections_chords(want.take(i as int), widths);
                        let b = section_chords(want[i as int], widths);
                        assert forall|j: int| 0 <= j < a.len() + b.len() implies self.holds_one(
                            #[trigger] chords[j],
                            (a + b)[j],
                        ) by {
                            if j < a.len() {
                                assert(chords[j] == before[j]);
                            } else {
                                assert(chords[j] == added[j - a.len()]);
                            }
                        }
                    }
                },
                Err(e) => {
                    proof {
                        lemma_sections_error_stays(want, widths, i + 1);
                    }
                    return Err(e);
                },
            }
            i += 1;
        }
        assert(want.take(i as int) == want);
        Ok(chords)
    }

    /// The chord that the layout file `text` gives the name `name`, with
    /// its switches in the order of the firmware: that of the last chord of
    /// the file with the name, if there is one.
    pub open spec fn spec_named(&self, text: Seq<char>, name: Seq<char>) -> Option<ChordView> {
        let raws = self.spec_chords(text);
        match last_raw(raws, name, raws.len() as int) {
            Some(pressed) => Some(self.spec_chord_spec().chord_of(pressed)),
            None => None,
        }
    }

    /// The chords of the layout file `text` by their names, each with its
    /// switches in the order of the firmware; of chords with one name the
    /// last stays. A malformed file is a syntax error with the number of
    /// the line at which the first malformed section is malformed.
    pub fn parse(&self, text: &str) -> (r: Result<StrMap<Chord>, Error>)
        requires
            self.wf(),
        ensures
            self.spec_error(text@) is Some ==> r is Err && r->Err_0@ == (ErrorView::Syntax {
                line: self.spec_error(text@)->0,
            }),
            self.spec_error(text@) is None ==> r is Ok && r->Ok_0.wf(),
            self.spec_error(text@) is None ==> forall|j: int|
                0 <= j < r->Ok_0.val_seq().len() ==> (#[trigger] r->Ok_0.val_seq()[j])@.switches.len()
                    == self.spec_chord_spec().chord_len(),
            self.spec_error(text@) is None ==> forall|name: Seq<char>|
                #[trigger] r->Ok_0.has(name) == (self.spec_named(text@, name) is Some),
            self.spec_error(text@) is None ==> forall|name: Seq<char>|
                r->Ok_0.has(name) ==> Some((#[trigger] r->Ok_0.val(name))@) == self.spec_named(text@, name),
    {
        let pairs = match self.parse_pairs(text) {
            Ok(pairs) => pairs,
            Err(e) => {
                return Err(e);
            },
        };
        let ghost raws = self.spec_chords(text@);
        let ghost all = pairs@;
        let mut pairs = pairs;
        let mut map: StrMap<Chord> = StrMap::new();
        let ghost mut n: int = 0;
        assert(all.skip(0) == all);
        while pairs.len() > 0
            invariant
                0 <= n,
                self.spec_error(text@) is None,
                raws == self.spec_chords(text@),
                self.holds(all, raws),
                n + pairs.len() == all.len(),
                pairs@ == all.skip(n),
                map.wf(),
                forall|j: int|
                    0 <= j < map.val_seq().len() ==> (#[trigger] map.val_seq()[j])@.switches.len()
                        == self.spec_chord_spec().chord_len(),
                forall|name: Seq<char>|
                    #![trigger map.has(name)]
                    match last_raw(raws, name, n) {
                        Some(pressed) => map.has(name) && map.val(name)@ == self.spec_chord_spec().chord_of(
                            pressed,
                        ),
                        None => !map.has(name),
                    },
            decreases pairs.len(),
        {
            let item = pairs.remove(0);
            assert(item == all[n]);
            assert(self.holds_one(all[n], raws[n]));
            let NamedChord { name, chord } = item;
            let ghost before = map;
            map.insert(name.0, chord);
            proof {
                assert forall|j: int| 0 <= j < map.val_seq().len() implies (#[trigger] map.val_seq()[j])@.switches.len()
                    == self.spec_chord_spec().chord_len() by {
                    let key = map.key_seq()[j];
                    map.lemma_pos(j);
                    if key != item.name@ {
                        assert(before.has(key));
                        let p = before.pos(key);
                        assert(before.key_seq()[p] == key);
                        assert(before.val_seq()[p] == map.val_seq()[j]);
                    }
                }
                assert forall|name: Seq<char>|
                    #![trigger map.has(name)]
                    match last_raw(raws, name, n + 1) {
                        Some(pressed) => map.has(name) && map.val(name)@ == self.spec_chord_spec().chord_of(
                            pressed,
                        ),
                        None => !map.has(name),
                    } by {
                    if name != item.name@ {
                        assert(map.has(name) == before.has(name));
                    }
                }
                assert(pairs@ =~= all.skip(n + 1));
                n = n + 1;
            }
        }
        proof {
            assert(n == raws.len());
            assert forall|name: Seq<char>| #[trigger] map.has(name) == (self.spec_named(text@, name) is Some) by {
                assert(self.spec_named(text@, name) == match last_raw(raws, name, n) {
                    Some(pressed) => Some(self.spec_chord_spec().chord_of(pressed)),
                    None => None::<ChordView>,
                });
            }
            assert forall|name: Seq<char>| map.has(name) implies Some((#[trigger] map.val(name))@)
                == self.spec_named(text@, name) by {
                assert(self.spec_named(text@, name) == match last_raw(raws, name, n) {
                    Some(pressed) => Some(self.spec_chord_spec().chord_of(pressed)),
                    None => None::<ChordView>,
                });
            }
        }
        Ok(map)
    }
}

/// The lines of a shape hold as many switches as their lengths add up to.
pub proof fn lemma_flat_len(lines: Seq<Vec<SwitchPos>>)
    ensures
        flat(lines).len() == sum(lines.map_values(|line: Vec<SwitchPos>| line@.len())),
    decreases lines.len(),
{
    let lens = lines.map_values(|line: Vec<SwitchPos>| line@.len());
    if lines.len() > 0 {
        lemma_flat_len(lines.drop_last());
        assert(lens.drop_last() =~= lines.drop_last().map_values(|line: Vec<SwitchPos>| line@.len()));
    }
}

/// A malformed section, once found, stays the first one.
proof fn lemma_sections_error_stays(sections: Seq<Seq<LineView>>, widths: Seq<nat>, n: int)
    requires
        0 <= n <= sections.len(),
        sections_error(sections.take(n), widths) is Some,
    ensures
        sections_error(sections, widths) == sections_error(sections.take(n), widths),
    decreases sections.len() - n,
{
    if n < sections.len() {
        assert(sections.take(n + 1).drop_last() == sections.take(n));
        lemma_sections_error_stays(sections, widths, n + 1);
    } else {
        assert(sections.take(n) == sections);
    }
}

} // verus!
