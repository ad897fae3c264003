//! The tables of the layouts and of the modes, and the whole of the main
//! files.

use vstd::prelude::*;
use vstd::string::*;
use crate::format::c_array::{Format, FormatView};
use crate::output::codec::{encode, encode_error, packed};
use crate::output::render::{
    chord_constructor, huffman_render_error, huffman_tree_view, intro, make_debug_macros,
    plain_mod_codes, render_seq_types, seq_type_names, spec_intro, debug_macros_text, KeyCode,
};
use crate::sorted_map::StrMap;
use crate::text::{concat2, decimal};
use crate::types::c_tree::{copy_trees, extend_trees, models, number, push_tree, CTree, CTreeView};
use crate::types::chord::{Chord, ChordView};
use crate::types::errors::{Error, ErrorView};
use crate::types::huffman::HuffmanTable;
use crate::types::key_press::{KeyPress, KeyPressView, Sequence};
use crate::types::maps::{mode_paths, AllData};
use crate::types::names::{code_views, CCode, ModeName, SeqType};

verus! {

/// The columns of the table of one kind of sequence on one layout: for
/// each name that has a chord there and a sequence of the kind, its chord,
/// the anagram number of the chord and the number of bits of its sequence;
/// and the bytes of all these sequences, one after the other.
pub struct KindRows {
    pub chords: Seq<Seq<char>>,
    pub anagrams: Seq<Seq<char>>,
    pub lengths: Seq<Seq<char>>,
    pub bytes: Seq<Seq<char>>,
}

/// The columns for the first `n` chords of a layout, or the error of the
/// first sequence that has no bits.
pub open spec fn kind_rows(layout: StrMap<Chord>, seqs: StrMap<Sequence>, table: HuffmanTable, n: int) -> Result<
    KindRows,
    ErrorView,
>
    decreases n,
{
    if n <= 0 {
        Ok(
            KindRows {
                chords: Seq::empty(),
                anagrams: Seq::empty(),
                lengths: Seq::empty(),
                bytes: Seq::empty(),
            },
        )
    } else {
        match kind_rows(layout, seqs, table, n - 1) {
            Err(e) => Err(e),
            Ok(rows) => {
                let name = layout.key_seq()[n - 1];
                let chord = layout.val_seq()[n - 1]@;
                if !seqs.has(name) {
                    Ok(rows)
                } else {
                    let seq = seqs.val(name)@;
                    match encode_error(table, seq) {
                        Some(e) => Err(e),
                        None => Ok(
                            KindRows {
                                chords: rows.chords.push(chord_constructor(chord.switches)),
                                anagrams: rows.anagrams.push(decimal(chord.anagram_num as nat)),
                                lengths: rows.lengths.push(decimal(encode(table, seq).len())),
                                bytes: rows.bytes + packed(encode(table, seq)),
                            },
                        ),
                    }
                }
            },
        }
    }
}

/// The name of a table: the short name of the layout, the kind of
/// sequence and what the table holds, with `_` between.
pub open spec fn table_name(nick: Seq<char>, kind: SeqType, what: Seq<char>) -> Seq<char> {
    nick + "_"@ + kind.spec_c_name() + "_"@ + what
}

/// An `extern` array.
pub open spec fn array_view(name: Seq<char>, values: Seq<Seq<char>>, c_type: Seq<char>) -> CTreeView {
    CTreeView::Array { name, values, c_type, is_extern: true }
}

/// The tables of one kind of sequence on one layout, and the aggregate
/// that names them and says how many entries they have.
pub open spec fn kind_tables(nick: Seq<char>, kind: SeqType, rows: KindRows) -> Seq<CTreeView> {
    seq![
        array_view(table_name(nick, kind, "chords"@), rows.chords, "ChordData"@),
        array_view(table_name(nick, kind, "anagrams"@), rows.anagrams, "uint8_t"@),
        array_view(table_name(nick, kind, "lengths"@), rows.lengths, "uint16_t"@),
        array_view(table_name(nick, kind, "seqs"@), rows.bytes, "uint8_t"@),
        CTreeView::ConstVar {
            name: table_name(nick, kind, "table"@),
            value: "{"@ + table_name(nick, kind, "chords"@) + ", "@ + table_name(nick, kind, "anagrams"@)
                + ", "@ + table_name(nick, kind, "lengths"@) + ", "@ + table_name(nick, kind, "seqs"@)
                + ", "@ + decimal(rows.chords.len()) + "}"@,
            c_type: "SeqTable"@,
            is_extern: true,
        },
    ]
}

/// The aggregate of a layout: the addresses of its tables, one for each
/// kind of sequence.
pub open spec fn kmap_struct(nick: Seq<char>) -> CTreeView {
    CTreeView::ConstVar {
        name: nick,
        value: "{"@ + crate::text::join(
            SeqType::all().map_values(|k: SeqType| pointer_to(table_name(nick, k, "table"@))),
            ", "@,
        ) + "}"@,
        c_type: "KmapStruct"@,
        is_extern: true,
    }
}

/// The tables of the first `k` kinds of sequence on the layout at position
/// `i`, or the error of the first sequence that has no bits.
pub open spec fn kmap_tables(data: AllData, table: HuffmanTable, i: int, k: int) -> Result<
    Seq<CTreeView>,
    ErrorView,
>
    decreases k,
{
    if k <= 0 {
        Ok(Seq::empty())
    } else {
        match kmap_tables(data, table, i, k - 1) {
            Err(e) => Err(e),
            Ok(trees) => match kind_rows(
                data.chords.val_seq()[i],
                data.sequences[k - 1],
                table,
                data.chords.val_seq()[i].key_seq().len() as int,
            ) {
                Err(e) => Err(e),
                Ok(rows) => Ok(
                    trees + kind_tables(data.kmap_ids.val_seq()[i]@, SeqType::all()[k - 1], rows),
                ),
            },
        }
    }
}

/// For each of the first `n` layouts the group of its tables, or the error
/// of the first sequence that has no bits.
pub open spec fn kmaps_trees(data: AllData, table: HuffmanTable, n: int) -> Result<Seq<CTreeView>, ErrorView>
    decreases n,
{
    if n <= 0 {
        Ok(Seq::empty())
    } else {
        match kmaps_trees(data, table, n - 1) {
            Err(e) => Err(e),
            Ok(trees) => match kmap_tables(data, table, n - 1, 5) {
                Err(e) => Err(e),
                Ok(tables) => Ok(
                    trees.push(CTreeView::Group(tables.push(kmap_struct(data.kmap_ids.val_seq()[n - 1]@)))),
                ),
            },
        }
    }
}

/// A sequence without bits, once found among the chords of a layout,
/// stays the first one.
proof fn lemma_kind_rows_error_stays(
    layout: StrMap<Chord>,
    seqs: StrMap<Sequence>,
    table: HuffmanTable,
    n: int,
    m: int,
)
    requires
        0 <= n <= m,
        kind_rows(layout, seqs, table, n) is Err,
    ensures
        kind_rows(layout, seqs, table, m) == kind_rows(layout, seqs, table, n),
    decreases m - n,
{
    if n < m {
        lemma_kind_rows_error_stays(layout, seqs, table, n, m - 1);
    }
}

/// A sequence without bits, once found among the kinds of a layout,
/// stays the first one.
proof fn lemma_kmap_tables_error_stays(data: AllData, table: HuffmanTable, i: int, k: int, m: int)
    requires
        0 <= k <= m,
        kmap_tables(data, table, i, k) is Err,
    ensures
        kmap_tables(data, table, i, m) == kmap_tables(data, table, i, k),
    decreases m - k,
{
    if k < m {
        lemma_kmap_tables_error_stays(data, table, i, k, m - 1);
    }
}

/// A sequence without bits, once found among the layouts, stays the
/// first one.
proof fn lemma_kmaps_trees_error_stays(data: AllData, table: HuffmanTable, n: int, m: int)
    requires
        0 <= n <= m,
        kmaps_trees(data, table, n) is Err,
    ensures
        kmaps_trees(data, table, m) == kmaps_trees(data, table, n),
    decreases m - n,
{
    if n < m {
        lemma_kmaps_trees_error_stays(data, table, n, m - 1);
    }
}

/// The name of a table.
fn make_table_name(nick: &str, kind: SeqType, what: &str) -> (name: String)
    ensures
        name@ == table_name(nick@, kind, what@),
{
    let mut name = concat2(nick, "_");
    name.append(kind.c_name().as_str());
    name.append("_");
    name.append(what);
    name
}

/// The aggregate of the layout with the short name `nick`.
fn make_kmap_struct(nick: &str) -> (tree: CTree)
    ensures
        tree@ == kmap_struct(nick@),
{
    let mut parts: Vec<String> = Vec::new();
    let mut k: usize = 0;
    while k < 5
        invariant
            k <= 5,
            parts.len() == k,
            forall|j: int|
                0 <= j < k ==> (#[trigger] parts[j])@ == pointer_to(
                    table_name(nick@, SeqType::all()[j], "table"@),
                ),
        decreases 5 - k,
    {
        let kind = SeqType::from_index(k);
        parts.push(concat2("&", make_table_name(nick, kind, "table").as_str()));
        k += 1;
    }
    assert(crate::text::views(parts@) =~= SeqType::all().map_values(
        |k: SeqType| pointer_to(table_name(nick@, k, "table"@)),
    ));
    let mut value = concat2("{", crate::text::join_strings(&parts, ", ").as_str());
    value.append("}");
    CTree::const_var(nick, CCode(value), "KmapStruct")
}

impl AllData {
    /// The tables of the sequences of `kind` on the layout at position `i`.
    fn render_kind(&self, table: &HuffmanTable, i: usize, kind: SeqType) -> (r: Result<Vec<CTree>, Error>)
        requires
            self.wf(),
            table.wf(),
            i < self.chords.key_seq().len(),
        ensures
            match kind_rows(
                self.chords.val_seq()[i as int],
                self.seq_map(kind),
                *table,
                self.chords.val_seq()[i as int].key_seq().len() as int,
            ) {
                Err(e) => r is Err && r->Err_0@ == e,
                Ok(rows) => r is Ok && models(r->Ok_0@) == kind_tables(
                    self.kmap_ids.val_seq()[i as int]@,
                    kind,
                    rows,
                ),
            },
    {
        let layout = self.chords.val_at(i);
        let seqs = self.get_sequences(&kind);
        let nick = self.kmap_ids.val_at(i);
        assert(self.chords_ok(self.chords.val_seq()[i as int]));
        let mut chords: Vec<CCode> = Vec::new();
        let mut anagrams: Vec<CCode> = Vec::new();
        let mut lengths: Vec<CCode> = Vec::new();
        let mut bytes: Vec<CCode> = Vec::new();
        let mut n: usize = 0;
        proof {
            assert(code_views(chords@) =~= Seq::<Seq<char>>::empty());
            assert(code_views(anagrams@) =~= Seq::<Seq<char>>::empty());
            assert(code_views(lengths@) =~= Seq::<Seq<char>>::empty());
            assert(code_views(bytes@) =~= Seq::<Seq<char>>::empty());
        }
        while n < layout.len()
            invariant
                n <= layout.key_seq().len(),
                i < self.chords.key_seq().len(),
                self.wf(),
                *layout == self.chords.val_seq()[i as int],
                *seqs == self.seq_map(kind),
                layout.wf(),
                seqs.wf(),
                table.wf(),
                kind_rows(*layout, *seqs, *table, n as int) == Ok::<KindRows, ErrorView>(
                    KindRows {
                        chords: code_views(chords@),
                        anagrams: code_views(anagrams@),
                        lengths: code_views(lengths@),
                        bytes: code_views(bytes@),
                    },
                ),
            decreases layout.key_seq().len() - n,
        {
            let name = layout.key_at(n);
            let chord = layout.val_at(n);
            if let Some(seq) = seqs.get(name.as_str()) {
                let mut more = match seq.as_bytes(table) {
                    Ok(more) => more,
                    Err(e) => {
                        proof {
                            lemma_kind_rows_error_stays(
                                *layout,
                                *seqs,
                                *table,
                                n + 1,
                                layout.key_seq().len() as int,
                            );
                        }
                        return Err(e);
                    },
                };
                let len = match seq.formatted_length_in_bits(table) {
                    Ok(len) => len,
                    Err(e) => {
                        return Err(e);
                    },
                };
                let ghost c0 = chords@;
                let ghost a0 = anagrams@;
                let ghost l0 = lengths@;
                let ghost b0 = bytes@;
                let ghost added = more@;
                let c = self.chord_spec.to_c_constructor(chord);
                let a = number(chord.anagram_num.0 as usize);
                let l = number(len);
                chords.push(c);
                anagrams.push(a);
                lengths.push(l);
                bytes.append(&mut more);
                proof {
                    assert(code_views(chords@) =~= code_views(c0).push(c@));
                    assert(code_views(anagrams@) =~= code_views(a0).push(a@));
                    assert(code_views(lengths@) =~= code_views(l0).push(l@));
                    assert(code_views(bytes@) =~= code_views(b0) + code_views(added));
                }
            }
            n += 1;
        }
        let count = chords.len();
        assert(code_views(chords@).len() == count);
        let chords_name = make_table_name(nick.as_str(), kind, "chords");
        let anagrams_name = make_table_name(nick.as_str(), kind, "anagrams");
        let lengths_name = make_table_name(nick.as_str(), kind, "lengths");
        let seqs_name = make_table_name(nick.as_str(), kind, "seqs");
        let mut value = concat2("{", chords_name.as_str());
        value.append(", ");
        value.append(anagrams_name.as_str());
        value.append(", ");
        value.append(lengths_name.as_str());
        value.append(", ");
        value.append(seqs_name.as_str());
        value.append(", ");
        value.append(crate::text::decimal_string(count).as_str());
        value.append("}");
        let mut trees: Vec<CTree> = Vec::new();
        assert(models(trees@) =~= Seq::<CTreeView>::empty());
        push_tree(
            &mut trees,
            CTree::array(make_table_name(nick.as_str(), kind, "chords").as_str(), chords, "ChordData"),
        );
        push_tree(
            &mut trees,
            CTree::array(make_table_name(nick.as_str(), kind, "anagrams").as_str(), anagrams, "uint8_t"),
        );
        push_tree(
            &mut trees,
            CTree::array(make_table_name(nick.as_str(), kind, "lengths").as_str(), lengths, "uint16_t"),
        );
        push_tree(
            &mut trees,
            CTree::array(make_table_name(nick.as_str(), kind, "seqs").as_str(), bytes, "uint8_t"),
        );
        push_tree(
            &mut trees,
            CTree::const_var(
                make_table_name(nick.as_str(), kind, "table").as_str(),
                CCode(value),
                "SeqTable",
            ),
        );
        proof {
            let rows = kind_rows(*layout, *seqs, *table, layout.key_seq().len() as int)->Ok_0;
            assert(models(trees@) =~= kind_tables(nick@, kind, rows));
        }
        Ok(trees)
    }

    /// The tables of all the layouts, one group for each layout in the
    /// order of their paths: for each kind of sequence, the chords that
    /// type a sequence of the kind and the sequences, packed into bits.
    /// Fails for the first sequence that has no bits.
    pub fn render_kmaps(&self, table: &HuffmanTable) -> (r: Result<CTree, Error>)
        requires
            self.wf(),
            table.wf(),
        ensures
            match kmaps_trees(*self, *table, self.chords.key_seq().len() as int) {
                Err(e) => r is Err && r->Err_0@ == e,
                Ok(trees) => r is Ok && r->Ok_0@ == CTreeView::Group(trees),
            },
    {
        let mut g: Vec<CTree> = Vec::new();
        assert(models(g@) =~= Seq::<CTreeView>::empty());
        let mut i: usize = 0;
        while i < self.chords.len()
            invariant
                i <= self.chords.key_seq().len(),
                self.wf(),
                table.wf(),
                kmaps_trees(*self, *table, i as int) == Ok::<Seq<CTreeView>, ErrorView>(models(g@)),
            decreases self.chords.key_seq().len() - i,
        {
            let mut tables: Vec<CTree> = Vec::new();
            assert(models(tables@) =~= Seq::<CTreeView>::empty());
            let mut k: usize = 0;
            while k < 5
                invariant
                    k <= 5,
                    i < self.chords.key_seq().len(),
                    self.wf(),
                    table.wf(),
                    kmaps_trees(*self, *table, i as int) is Ok,
                    kmap_tables(*self, *table, i as int, k as int) == Ok::<Seq<CTreeView>, ErrorView>(
                        models(tables@),
                    ),
                decreases 5 - k,
            {
                let kind = SeqType::from_index(k);
                assert(self.seq_map(kind) == self.sequences[k as int]);
                match self.render_kind(table, i, kind) {
                    Ok(more) => {
                        extend_trees(&mut tables, more);
                    },
                    Err(e) => {
                        proof {
                            lemma_kmap_tables_error_stays(*self, *table, i as int, k + 1, 5);
                            lemma_kmaps_trees_error_stays(
                                *self,
                                *table,
                                i + 1,
                                self.chords.key_seq().len() as int,
                            );
                        }
                        return Err(e);
                    },
                }
                k += 1;
            }
            push_tree(&mut tables, make_kmap_struct(self.kmap_ids.val_at(i).as_str()));
            push_tree(&mut g, CTree::group(tables));
            i += 1;
        }
        Ok(CTree::group(g))
    }
}

/// The length of the longest of the first `n` sequences of a map.
pub open spec fn longest_in(seqs: StrMap<Sequence>, n: int) -> nat
    decreases n,
{
    if n <= 0 {
        0
    } else if seqs.val_seq()[n - 1]@.len() > longest_in(seqs, n - 1) {
        seqs.val_seq()[n - 1]@.len()
    } else {
        longest_in(seqs, n - 1)
    }
}

/// The length of the longest sequence of the first `k` kinds.
pub open spec fn longest(data: AllData, k: int) -> nat
    decreases k,
{
    if k <= 0 {
        0
    } else {
        let here = longest_in(data.sequences[k - 1], data.sequences[k - 1].key_seq().len() as int);
        if here > longest(data, k - 1) {
            here
        } else {
            longest(data, k - 1)
        }
    }
}

/// The address of what is called `name`.
pub open spec fn pointer_to(name: Seq<char>) -> Seq<char> {
    "&"@ + name
}

/// The switches of the first `n` modifiers of anagrams on the layouts
/// `paths`, all pressed together.
pub open spec fn anagram_mask(data: AllData, paths: Seq<Seq<char>>, n: int) -> ChordView
    decreases n,
{
    if n <= 0 {
        ChordView::blank(data.chord_spec.chord_len())
    } else {
        anagram_mask(data, paths, n - 1).pressed_with(data.first_chord(data.anagram_mods[n - 1]@, paths))
    }
}

/// The declarations of the mode at position `m`: its layouts, the chords
/// of all the modifiers in the mode, and the switches of its modifiers of
/// anagrams.
pub open spec fn mode_tree(data: AllData, m: int) -> CTreeView {
    let name = data.modes.key_seq()[m];
    let paths = mode_paths(data.modes.val_seq()[m]);
    CTreeView::Group(
        seq![
            array_view(
                name + "_kmaps"@,
                paths.map_values(|p: Seq<char>| pointer_to(data.kmap_ids.val(p)@)),
                "KmapStruct*"@,
            ),
            array_view(
                name + "_mod_chords"@,
                data.spec_mod_names().map_values(
                    |n: Seq<char>| chord_constructor(data.first_chord(n, paths).switches),
                ),
                "ChordData"@,
            ),
            CTreeView::ConstVar {
                name: name + "_anagram_mask"@,
                value: chord_constructor(
                    anagram_mask(data, paths, data.anagram_mods.len() as int).switches,
                ),
                c_type: "ChordData"@,
                is_extern: true,
            },
            CTreeView::ConstVar {
                name,
                value: "{"@ + name + "_kmaps, "@ + decimal(paths.len()) + ", "@ + name + "_mod_chords, &"@
                    + name + "_anagram_mask}"@,
                c_type: "ModeStruct"@,
                is_extern: true,
            },
        ],
    )
}

/// The declarations of the first `n` modes.
pub open spec fn mode_trees(data: AllData, n: int) -> Seq<CTreeView> {
    Seq::new(n as nat, |m: int| mode_tree(data, m))
}

/// The error of a sequence with more presses than the firmware can count.
pub open spec fn too_many_keys(n: nat) -> ErrorView {
    ErrorView::OutOfRange { name: "number of keys in a sequence"@, value: n, min: 0, max: 255 }
}

/// The declarations of the modes: the length of the longest sequence, the
/// tables of the layouts, the declarations of each mode, and the list of
/// the modes. There are none where a sequence has more than 255 presses or
/// has no bits.
pub open spec fn spec_modes(data: AllData, table: HuffmanTable) -> Result<CTreeView, ErrorView> {
    if longest(data, 5) > 255 {
        Err(too_many_keys(longest(data, 5)))
    } else {
        match kmaps_trees(data, table, data.chords.key_seq().len() as int) {
            Err(e) => Err(e),
            Ok(kmaps) => Ok(
                CTreeView::Group(
                    seq![
                        CTreeView::ConstVar {
                            name: "MAX_KEYS_IN_SEQUENCE"@,
                            value: decimal(longest(data, 5)),
                            c_type: "uint8_t"@,
                            is_extern: true,
                        },
                        CTreeView::Group(kmaps),
                    ] + mode_trees(data, data.modes.key_seq().len() as int) + seq![
                        array_view(
                            "mode_structs"@,
                            data.modes.key_seq().map_values(|m: Seq<char>| pointer_to(m)),
                            "ModeStruct*"@,
                        ),
                    ],
                ),
            ),
        }
    }
}

/// The variant of the enumeration of commands that a command's sequence
/// stands for: what its first press carries in place of a key.
pub open spec fn command_variant(seq: Seq<KeyPressView>) -> Seq<char> {
    if seq.len() > 0 {
        seq[0].key_or_blank()
    } else {
        crate::types::key_press::blank_code()
    }
}

/// The variants of the enumeration of commands, in the order of the names
/// of the commands.
pub open spec fn command_variants(seqs: StrMap<Sequence>) -> Seq<Seq<char>> {
    Seq::new(seqs.val_seq().len(), |i: int| command_variant(seqs.val_seq()[i]@))
}

/// An enumeration of bytes.
pub open spec fn enum_view(name: Seq<char>, variants: Seq<Seq<char>>) -> CTreeView {
    CTreeView::EnumDecl { name, variants, size: Some("uint8_t"@) }
}

/// The main files as a tree: what stands at their top; inside the
/// namespace `conf` the options, the code table, the modifiers, the
/// enumerations of commands, kinds of sequence and modes, and the modes;
/// then the macros for reporting. There is no tree where the code table,
/// the modifiers or the modes have none; their errors come in that order.
pub open spec fn spec_main(
    data: AllData,
    table: HuffmanTable,
    message: Option<Seq<char>>,
    keycodes: Seq<KeyCode>,
) -> Result<CTreeView, ErrorView> {
    match huffman_render_error(table) {
        Some(e) => Err(e),
        None => match plain_mod_codes(data, data.plain_mods.len() as int) {
            Err(e) => Err(e),
            Ok(codes) => match spec_modes(data, table) {
                Err(e) => Err(e),
                Ok(modes) => Ok(
                    CTreeView::Group(
                        seq![
                            spec_intro(message, keycodes),
                            CTreeView::Namespace {
                                name: "conf"@,
                                contents: Box::new(
                                    CTreeView::Group(
                                        seq![
                                            CTreeView::Group(models(data.options@)),
                                            huffman_tree_view(table),
                                            data.spec_modifiers(codes),
                                            enum_view(
                                                "Command"@,
                                                command_variants(data.seq_map(SeqType::Command)),
                                            ),
                                            enum_view("SeqType"@, seq_type_names()),
                                            enum_view("Mode"@, data.modes.key_seq()),
                                            modes,
                                        ],
                                    ),
                                ),
                            },
                            CTreeView::LiteralH(debug_macros_text()),
                        ],
                    ),
                ),
            },
        },
    }
}

/// What is included before the main files, as a tree: the message, if
/// there is one, the guard against a second inclusion, and the early
/// options.
pub open spec fn spec_early(message: Option<Seq<char>>, early_options: Seq<CTreeView>) -> CTreeView {
    CTreeView::Group(
        (match message {
            Some(msg) => seq![CTreeView::LiteralH(msg)],
            None => Seq::empty(),
        }) + seq![CTreeView::LiteralH("#pragma once\n"@)] + early_options,
    )
}

/// The text of a tree, or why it has none.
pub open spec fn tree_text(tree: CTreeView, base: Seq<char>) -> Result<FormatView, ErrorView> {
    match tree.bad_array() {
        Some(name) => Err(ErrorView::NotRectangular { name }),
        None => Ok(tree.text(base)),
    }
}

/// The text of the main files, or why there is none.
pub open spec fn spec_main_files(
    data: AllData,
    table: HuffmanTable,
    base: Seq<char>,
    message: Option<Seq<char>>,
    keycodes: Seq<KeyCode>,
) -> Result<FormatView, ErrorView> {
    match spec_main(data, table, message, keycodes) {
        Err(e) => Err(e),
        Ok(tree) => tree_text(tree, base),
    }
}

impl AllData {
    /// The length of the longest sequence.
    pub fn max_seq_length(&self) -> (n: usize)
        requires
            self.wf(),
        ensures
            n == longest(*self, 5),
    {
        let mut most: usize = 0;
        let mut k: usize = 0;
        while k < 5
            invariant
                k <= 5,
                self.wf(),
                most == longest(*self, k as int),
            decreases 5 - k,
        {
            let seqs = &self.sequences[k];
            let mut here: usize = 0;
            let mut i: usize = 0;
            while i < seqs.len()
                invariant
                    i <= seqs.key_seq().len(),
                    seqs.wf(),
                    here == longest_in(*seqs, i as int),
                decreases seqs.key_seq().len() - i,
            {
                let len = seqs.val_at(i).len();
                if len > here {
                    here = len;
                }
                i += 1;
            }
            if here > most {
                most = here;
            }
            k += 1;
        }
        most
    }

    /// The switches of the modifiers of anagrams in the mode `mode`, all
    /// pressed together.
    pub fn get_anagram_mask(&self, mode: &ModeName) -> (r: Result<Chord, Error>)
        requires
            self.wf(),
        ensures
            self.modes.has(mode@) ==> r is Ok && r->Ok_0@ == anagram_mask(
                *self,
                mode_paths(self.modes.val(mode@)),
                self.anagram_mods.len() as int,
            ),
            !self.modes.has(mode@) ==> r is Err && r->Err_0@ == (ErrorView::Lookup {
                key: mode@,
                container: "modes"@,
            }),
    {
        let chords = match self.get_anagrams(mode) {
            Ok(chords) => chords,
            Err(e) => {
                return Err(e);
            },
        };
        let ghost paths = mode_paths(self.modes.val(mode@));
        let mut mask = self.chord_spec.blank_chord();
        let mut i: usize = 0;
        while i < chords.len()
            invariant
                i <= chords.len(),
                self.wf(),
                self.modes.has(mode@),
                paths == mode_paths(self.modes.val(mode@)),
                chords.len() == self.anagram_mods.len(),
                forall|j: int|
                    0 <= j < chords.len() ==> (#[trigger] chords@[j])@ == self.first_chord(
                        self.anagram_mods[j]@,
                        paths,
                    ),
                mask@ == anagram_mask(*self, paths, i as int),
                mask@.switches.len() == self.chord_spec.chord_len(),
            decreases chords.len() - i,
        {
            proof {
                self.lemma_first_chord_len(self.anagram_mods[i as int]@, paths);
                assert(chords@[i as int]@ == self.first_chord(self.anagram_mods[i as int]@, paths));
            }
            mask.intersect(&chords[i]);
            i += 1;
        }
        Ok(mask)
    }

    /// The chord that a mode has for a name is as wide as all chords.
    pub proof fn lemma_first_chord_len(&self, name: Seq<char>, paths: Seq<Seq<char>>)
        requires
            self.wf(),
        ensures
            self.first_chord(name, paths).switches.len() == self.chord_spec.chord_len(),
        decreases paths.len(),
    {
        if paths.len() > 0 {
            match self.spec_chord(name, paths[0]) {
                Some(chord) => {
                    let layout = self.chords.val(paths[0]);
                    let i = self.chords.pos(paths[0]);
                    assert(self.chords.key_seq()[i] == paths[0]);
                    assert(self.chords_ok(self.chords.val_seq()[i]));
                    let j = layout.pos(name);
                    assert(layout.key_seq()[j] == name);
                    assert(layout.val_seq()[j]@.switches.len() == self.chord_spec.chord_len());
                },
                None => {
                    self.lemma_first_chord_len(name, paths.drop_first());
                },
            }
        }
    }

    /// The declarations of the mode at position `m`.
    fn render_mode(&self, m: usize) -> (tree: CTree)
        requires
            self.wf(),
            m < self.modes.key_seq().len(),
        ensures
            tree@ == mode_tree(*self, m as int),
    {
        let name = self.modes.key_at(m);
        let info = self.modes.val_at(m);
        let mode = ModeName(name.clone());
        let ghost paths = mode_paths(*info);
        proof {
            self.modes.lemma_pos(m as int);
        }
        let mut kmaps: Vec<CCode> = Vec::new();
        let mut i: usize = 0;
        while i < info.keymaps.len()
            invariant
                i <= info.keymaps.len(),
                self.wf(),
                m < self.modes.key_seq().len(),
                *info == self.modes.val_seq()[m as int],
                paths == mode_paths(*info),
                kmaps.len() == i,
                forall|j: int|
                    0 <= j < i ==> (#[trigger] kmaps@[j])@ == pointer_to(self.kmap_ids.val(paths[j])@),
            decreases info.keymaps.len() - i,
        {
            let path = &info.keymaps[i].path;
            proof {
                assert(paths[i as int] == path@);
                assert(self.chords.has(mode_paths(self.modes.val_seq()[m as int])[i as int]));
                assert(self.kmap_ids.has(path@));
            }
            let nick = match self.kmap_ids.get(path.as_str()) {
                Some(nick) => concat2("&", nick.as_str()),
                None => String::new(),
            };
            kmaps.push(CCode(nick));
            i += 1;
        }
        assert(code_views(kmaps@) =~= paths.map_values(
            |p: Seq<char>| pointer_to(self.kmap_ids.val(p)@),
        ));
        let mod_chords = match self.get_mod_chords(&mode) {
            Ok(chords) => chords,
            Err(_) => Vec::new(),
        };
        let mut constructors: Vec<CCode> = Vec::new();
        let mut i: usize = 0;
        while i < mod_chords.len()
            invariant
                i <= mod_chords.len(),
                constructors.len() == i,
                forall|j: int|
                    0 <= j < i ==> (#[trigger] constructors@[j])@ == chord_constructor(
                        mod_chords@[j]@.switches,
                    ),
            decreases mod_chords.len() - i,
        {
            constructors.push(self.chord_spec.to_c_constructor(&mod_chords[i]));
            i += 1;
        }
        assert(code_views(constructors@) =~= self.spec_mod_names().map_values(
            |n: Seq<char>| chord_constructor(self.first_chord(n, paths).switches),
        ));
        let mask = match self.get_anagram_mask(&mode) {
            Ok(mask) => mask,
            Err(_) => self.chord_spec.blank_chord(),
        };
        let mut g: Vec<CTree> = Vec::new();
        assert(models(g@) =~= Seq::<CTreeView>::empty());
        push_tree(&mut g, CTree::array(concat2(name.as_str(), "_kmaps").as_str(), kmaps, "KmapStruct*"));
        push_tree(
            &mut g,
            CTree::array(concat2(name.as_str(), "_mod_chords").as_str(), constructors, "ChordData"),
        );
        push_tree(
            &mut g,
            CTree::const_var(
                concat2(name.as_str(), "_anagram_mask").as_str(),
                self.chord_spec.to_c_constructor(&mask),
                "ChordData",
            ),
        );
        let mut value = concat2("{", name.as_str());
        value.append("_kmaps, ");
        value.append(crate::text::decimal_string(info.keymaps.len()).as_str());
        value.append(", ");
        value.append(name.as_str());
        value.append("_mod_chords, &");
        value.append(name.as_str());
        value.append("_anagram_mask}");
        assert(paths.len() == info.keymaps.len());
        push_tree(&mut g, CTree::const_var(name.as_str(), CCode(value), "ModeStruct"));
        let tree = CTree::group(g);
        assert(tree@->Group_0 =~= mode_tree(*self, m as int)->Group_0);
        tree
    }

    /// The declarations of the modes.
    pub fn render_modes(&self, table: &HuffmanTable) -> (r: Result<CTree, Error>)
        requires
            self.wf(),
            table.wf(),
        ensures
            match spec_modes(*self, *table) {
                Err(e) => r is Err && r->Err_0@ == e,
                Ok(tree) => r is Ok && r->Ok_0@ == tree,
            },
    {
        let most = self.max_seq_length();
        if most > 255 {
            return Err(
                Error::OutOfRange {
                    name: "number of keys in a sequence".to_owned(),
                    value: most,
                    min: 0,
                    max: 255,
                },
            );
        }
        let kmaps = match self.render_kmaps(table) {
            Ok(tree) => tree,
            Err(e) => {
                return Err(e);
            },
        };
        let mut g: Vec<CTree> = Vec::new();
        assert(models(g@) =~= Seq::<CTreeView>::empty());
        push_tree(&mut g, CTree::const_var("MAX_KEYS_IN_SEQUENCE", number(most), "uint8_t"));
        push_tree(&mut g, kmaps);
        let ghost head = models(g@);
        let mut mode_struct_names: Vec<CCode> = Vec::new();
        let mut m: usize = 0;
        while m < self.modes.len()
            invariant
                m <= self.modes.key_seq().len(),
                self.wf(),
                models(g@) == head + mode_trees(*self, m as int),
                mode_struct_names.len() == m,
                forall|j: int|
                    0 <= j < m ==> (#[trigger] mode_struct_names@[j])@ == pointer_to(self.modes.key_seq()[j]),
            decreases self.modes.key_seq().len() - m,
        {
            push_tree(&mut g, self.render_mode(m));
            assert(models(g@) =~= head + mode_trees(*self, m + 1));
            mode_struct_names.push(CCode(concat2("&", self.modes.key_at(m).as_str())));
            m += 1;
        }
        assert(code_views(mode_struct_names@) =~= self.modes.key_seq().map_values(
            |m: Seq<char>| pointer_to(m),
        ));
        push_tree(&mut g, CTree::array("mode_structs", mode_struct_names, "ModeStruct*"));
        let tree = CTree::group(g);
        assert(tree@->Group_0 =~= spec_modes(*self, *table)->Ok_0->Group_0);
        Ok(tree)
    }

    /// The enumeration of the commands.
    pub fn render_commands(&self) -> (tree: CTree)
        requires
            self.wf(),
        ensures
            tree@ == enum_view("Command"@, command_variants(self.seq_map(SeqType::Command))),
    {
        let seqs = self.get_sequences(&SeqType::Command);
        let mut variants: Vec<CCode> = Vec::new();
        let mut i: usize = 0;
        while i < seqs.len()
            invariant
                i <= seqs.key_seq().len(),
                seqs.wf(),
                variants.len() == i,
                forall|j: int| 0 <= j < i ==> (#[trigger] variants@[j])@ == command_variant(seqs.val_seq()[j]@),
            decreases seqs.key_seq().len() - i,
        {
            let seq = seqs.val_at(i);
            let variant = if seq.len() > 0 {
                assert(seq@[0] == seq.0[0]@);
                seq.0[0].key_or_blank()
            } else {
                KeyPress::empty_code()
            };
            variants.push(variant);
            i += 1;
        }
        assert(code_views(variants@) =~= command_variants(*seqs));
        CTree::enum_decl("Command", variants)
    }

    /// The enumeration of the modes.
    pub fn render_mode_names(&self) -> (tree: CTree)
        requires
            self.wf(),
        ensures
            tree@ == enum_view("Mode"@, self.modes.key_seq()),
    {
        let mut variants: Vec<CCode> = Vec::new();
        let mut i: usize = 0;
        while i < self.modes.len()
            invariant
                i <= self.modes.key_seq().len(),
                self.wf(),
                variants.len() == i,
                forall|j: int| 0 <= j < i ==> (#[trigger] variants@[j])@ == self.modes.key_seq()[j],
            decreases self.modes.key_seq().len() - i,
        {
            variants.push(CCode(self.modes.key_at(i).clone()));
            i += 1;
        }
        assert(code_views(variants@) =~= self.modes.key_seq());
        CTree::enum_decl("Mode", variants)
    }

    /// The main files as a tree.
    pub fn render_main(&self, table: &HuffmanTable, message: Option<&CCode>, keycodes: &Vec<KeyCode>) -> (r:
        Result<CTree, Error>)
        requires
            self.wf(),
            table.wf(),
            keycodes.len() > 0,
        ensures
            match spec_main(
                *self,
                *table,
                match message {
                    Some(msg) => Some(msg@),
                    None => None,
                },
                keycodes@,
            ) {
                Err(e) => r is Err && r->Err_0@ == e,
                Ok(tree) => r is Ok && r->Ok_0@ == tree,
            },
    {
        let first = intro(message, keycodes);
        let options = self.render_options();
        let codes = match table.render() {
            Ok(tree) => tree,
            Err(e) => {
                return Err(e);
            },
        };
        let modifiers = match self.render_modifiers() {
            Ok(tree) => tree,
            Err(e) => {
                return Err(e);
            },
        };
        let commands = self.render_commands();
        let kinds = render_seq_types();
        let mode_names = self.render_mode_names();
        let modes = match self.render_modes(table) {
            Ok(tree) => tree,
            Err(e) => {
                return Err(e);
            },
        };
        let mut inner: Vec<CTree> = Vec::new();
        assert(models(inner@) =~= Seq::<CTreeView>::empty());
        push_tree(&mut inner, options);
        push_tree(&mut inner, codes);
        push_tree(&mut inner, modifiers);
        push_tree(&mut inner, commands);
        push_tree(&mut inner, kinds);
        push_tree(&mut inner, mode_names);
        push_tree(&mut inner, modes);
        let contents = CTree::group(inner);
        let namespace = CTree::namespace("conf", contents);
        let mut outer: Vec<CTree> = Vec::new();
        assert(models(outer@) =~= Seq::<CTreeView>::empty());
        push_tree(&mut outer, first);
        push_tree(&mut outer, namespace);
        push_tree(&mut outer, make_debug_macros());
        let tree = CTree::group(outer);
        proof {
            let want = spec_main(
                *self,
                *table,
                match message {
                    Some(msg) => Some(msg@),
                    None => None,
                },
                keycodes@,
            )->Ok_0;
            let want_inner = want->Group_0[1]->Namespace_contents;
            assert(contents@->Group_0 =~= want_inner->Group_0);
            assert(tree@->Group_0 =~= want->Group_0);
        }
        Ok(tree)
    }

    /// What is included before the main files, as a tree.
    pub fn render_early_config(message: Option<&CCode>, early_options: &Vec<CTree>) -> (tree: CTree)
        ensures
            tree@ == spec_early(
                match message {
                    Some(msg) => Some(msg@),
                    None => None,
                },
                models(early_options@),
            ),
    {
        let mut group: Vec<CTree> = Vec::new();
        assert(models(group@) =~= Seq::<CTreeView>::empty());
        if let Some(msg) = message {
            push_tree(&mut group, CTree::LiteralH(msg.clone()));
        }
        push_tree(&mut group, CTree::literal_h("#pragma once\n"));
        extend_trees(&mut group, copy_trees(early_options));
        let tree = CTree::group(group);
        proof {
            let want = spec_early(
                match message {
                    Some(msg) => Some(msg@),
                    None => None,
                },
                models(early_options@),
            );
            assert(tree@->Group_0 =~= want->Group_0);
        }
        tree
    }

    /// The text of the main files, called `file_name_base` with their
    /// extensions: the header and the body.
    pub fn main_files(
        &self,
        table: &HuffmanTable,
        file_name_base: &str,
        message: Option<&CCode>,
        keycodes: &Vec<KeyCode>,
    ) -> (r: Result<Format, Error>)
        requires
            self.wf(),
            table.wf(),
            keycodes.len() > 0,
        ensures
            is_output(
                spec_main_files(
                    *self,
                    *table,
                    file_name_base@,
                    match message {
                        Some(msg) => Some(msg@),
                        None => None,
                    },
                    keycodes@,
                ),
                r,
            ),
    {
        match self.render_main(table, message, keycodes) {
            Ok(tree) => tree.format(file_name_base),
            Err(e) => Err(e),
        }
    }
}

/// Whether `r` is the text `want`, or fails with the error `want`.
pub open spec fn is_output(want: Result<FormatView, ErrorView>, r: Result<Format, Error>) -> bool {
    match want {
        Ok(text) => r is Ok && r->Ok_0@ == text,
        Err(e) => r is Err && r->Err_0@ == e,
    }
}

/// The output is determined by what it is made from: two results of
/// `main_files` for the same registry, code table, file name, message and
/// key codes are the same text, character for character, or the same
/// error.
pub proof fn lemma_output_is_determined(
    data: AllData,
    table: HuffmanTable,
    base: Seq<char>,
    message: Option<Seq<char>>,
    keycodes: Seq<KeyCode>,
    first: Result<Format, Error>,
    second: Result<Format, Error>,
)
    requires
        is_output(spec_main_files(data, table, base, message, keycodes), first),
        is_output(spec_main_files(data, table, base, message, keycodes), second),
    ensures
        first is Ok <==> second is Ok,
        first is Ok ==> first->Ok_0@ == second->Ok_0@,
        first is Err ==> first->Err_0@ == second->Err_0@,
{
}

/// Trees that are the same as mathematical values have the same text, and
/// fail on the same array: the text of a tree depends on nothing else.
pub proof fn lemma_text_is_determined(a: CTree, b: CTree, base: Seq<char>)
    requires
        a@ == b@,
    ensures
        tree_text(a@, base) == tree_text(b@, base),
{
}

} // verus!
