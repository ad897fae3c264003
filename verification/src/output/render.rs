//! The registry and the code table as a tree of declarations.

use vstd::prelude::*;
use vstd::string::*;
use crate::bits::{bit_seq, bits_blocks, bits_extend, bits_new, blocks};
use crate::output::codec::packed;
use crate::text::{concat2, concat3, decimal, decimal_string, join, join_strings};
use crate::types::c_tree::{code_strings, copy_trees, models, number, push_tree, CTree, CTreeView};
use crate::types::maps::AllData;
use crate::types::names::{name_views, SeqType};
use crate::types::chord::{Chord, ChordSpec};
use crate::types::errors::{Error, ErrorView};
use crate::types::huffman::HuffmanTable;
use crate::types::key_press::{truncated, KeyPress};
use crate::types::names::{code_views, CCode, Name};

verus! {

/// The name of a key code and its number.
#[derive(Debug, PartialEq, Eq)]
pub struct KeyCode {
    pub name: CCode,
    pub value: usize,
}

/// The comment at the top of a generated file: who made it and when, and
/// that it is not to be changed by hand.
pub open spec fn spec_autogen_message(author: Seq<char>, time: Seq<char>) -> Seq<char> {
    "/**\n * Automatically generated by "@ + author + " on:  "@ + time
        + "\n * Do not make changes here, they will be overwritten.\n */\n\n"@
}

/// The comment at the top of a generated file.
pub fn autogen_message(author: &str, time: &str) -> (message: CCode)
    ensures
        message@ == spec_autogen_message(author@, time@),
{
    let mut s = concat3("/**\n * Automatically generated by ", author, " on:  ");
    s.append(time);
    s.append("\n * Do not make changes here, they will be overwritten.\n */\n\n");
    CCode(s)
}

/// The macros with which the firmware reports, by the level of
/// `DEBUG_MESSAGES`.
pub open spec fn debug_macros_text() -> Seq<char> {
    "\n#if DEBUG_MESSAGES == 0\n"@ + "    #define DEBUG1(msg)\n"@ + "    #define DEBUG1_LN(msg)\n"@
        + "    #define DEBUG2(msg)\n"@ + "    #define DEBUG2_LN(msg)\n"@ + "#else\n"@
        + "   #define ENABLE_SERIAL_DEBUG\n"@ + "   #include <Arduino.h>\n"@
        + "   #define DEBUG1(msg) Serial.print(msg)\n"@ + "   #define DEBUG1_LN(msg) Serial.println(msg)\n"@
        + "   #if DEBUG_MESSAGES == 1\n"@ + "       #define DEBUG2(msg)\n"@
        + "       #define DEBUG2_LN(msg)\n"@ + "   #else\n"@
        + "       #define DEBUG2(msg) Serial.print(msg)\n"@
        + "       #define DEBUG2_LN(msg) Serial.println(msg)\n"@ + "   #endif\n\n"@ + "#endif\n\n"@
}

/// The macros with which the firmware reports, for the header.
pub fn make_debug_macros() -> (tree: CTree)
    ensures
        tree@ == CTreeView::LiteralH(debug_macros_text()),
{
    let mut s = String::new();
    s.append("\n#if DEBUG_MESSAGES == 0\n");
    s.append("    #define DEBUG1(msg)\n");
    s.append("    #define DEBUG1_LN(msg)\n");
    s.append("    #define DEBUG2(msg)\n");
    s.append("    #define DEBUG2_LN(msg)\n");
    s.append("#else\n");
    s.append("   #define ENABLE_SERIAL_DEBUG\n");
    s.append("   #include <Arduino.h>\n");
    s.append("   #define DEBUG1(msg) Serial.print(msg)\n");
    s.append("   #define DEBUG1_LN(msg) Serial.println(msg)\n");
    s.append("   #if DEBUG_MESSAGES == 1\n");
    s.append("       #define DEBUG2(msg)\n");
    s.append("       #define DEBUG2_LN(msg)\n");
    s.append("   #else\n");
    s.append("       #define DEBUG2(msg) Serial.print(msg)\n");
    s.append("       #define DEBUG2_LN(msg) Serial.println(msg)\n");
    s.append("   #endif\n\n");
    s.append("#endif\n\n");
    assert(s@ =~= debug_macros_text());
    CTree::LiteralH(CCode(s))
}

/// `#define name value` for each key code.
pub open spec fn keycode_defines(keycodes: Seq<KeyCode>) -> Seq<CTreeView> {
    keycodes.map_values(
        |k: KeyCode| CTreeView::Define { name: k.name@, value: decimal(k.value as nat) },
    )
}

/// The definitions of the key codes, made only where the first of them is
/// not defined yet.
pub fn render_keycode_definitions(keycodes: &Vec<KeyCode>) -> (tree: CTree)
    requires
        keycodes.len() > 0,
    ensures
        tree@ == (CTreeView::Ifndef {
            conditional: keycodes[0].name@,
            contents: Box::new(CTreeView::Group(keycode_defines(keycodes@))),
        }),
{
    let example = keycodes[0].name.clone();
    let mut defines: Vec<CTree> = Vec::new();
    assert(models(defines@) =~= Seq::<CTreeView>::empty());
    let mut i: usize = 0;
    while i < keycodes.len()
        invariant
            i <= keycodes.len(),
            models(defines@) == keycode_defines(keycodes@).take(i as int),
        decreases keycodes.len() - i,
    {
        push_tree(
            &mut defines,
            CTree::Define { name: keycodes[i].name.clone(), value: number(keycodes[i].value) },
        );
        assert(models(defines@) =~= keycode_defines(keycodes@).take(i + 1));
        i += 1;
    }
    assert(keycode_defines(keycodes@).take(i as int) == keycode_defines(keycodes@));
    CTree::ifndef(example, CTree::group(defines))
}

/// What stands at the top of the main files: the message, if there is one,
/// in the body and in the header; the guard against a second inclusion; the
/// inclusions; the type of a function without arguments; the key codes.
pub open spec fn spec_intro(message: Option<Seq<char>>, keycodes: Seq<KeyCode>) -> CTreeView {
    CTreeView::Group(
        (match message {
            Some(msg) => seq![CTreeView::LiteralC(msg), CTreeView::LiteralH(msg)],
            None => Seq::empty(),
        }) + seq![
            CTreeView::LiteralH("#pragma once\n"@),
            CTreeView::IncludeSelf,
            CTreeView::IncludeH { path: "<stdint.h>"@ },
            CTreeView::IncludeH { path: "\"config_types.h\""@ },
            CTreeView::LiteralH("typedef void (*voidFuncPtr)(void);\n"@),
            CTreeView::Ifndef {
                conditional: keycodes[0].name@,
                contents: Box::new(CTreeView::Group(keycode_defines(keycodes))),
            },
        ],
    )
}

/// What stands at the top of the main files.
pub fn intro(message: Option<&CCode>, keycodes: &Vec<KeyCode>) -> (tree: CTree)
    requires
        keycodes.len() > 0,
    ensures
        tree@ == spec_intro(
            match message {
                Some(msg) => Some(msg@),
                None => None,
            },
            keycodes@,
        ),
{
    let mut group: Vec<CTree> = Vec::new();
    assert(models(group@) =~= Seq::<CTreeView>::empty());
    if let Some(msg) = message {
        push_tree(&mut group, CTree::LiteralC(msg.clone()));
        push_tree(&mut group, CTree::LiteralH(msg.clone()));
    }
    let ghost head = models(group@);
    push_tree(&mut group, CTree::literal_h("#pragma once\n"));
    push_tree(&mut group, CTree::IncludeSelf);
    push_tree(&mut group, CTree::IncludeH { path: CCode::new("<stdint.h>") });
    push_tree(&mut group, CTree::IncludeH { path: CCode::new("\"config_types.h\"") });
    push_tree(&mut group, CTree::literal_h("typedef void (*voidFuncPtr)(void);\n"));
    push_tree(&mut group, render_keycode_definitions(keycodes));
    let tree = CTree::Group(group);
    proof {
        let want = spec_intro(
            match message {
                Some(msg) => Some(msg@),
                None => None,
            },
            keycodes@,
        );
        assert(tree@->Group_0 =~= want->Group_0);
    }
    tree
}

/// The bytes of a chord as numbers: its switches, eight to a byte, the
/// first of each eight lowest.
pub open spec fn chord_bytes(switches: Seq<bool>) -> Seq<Seq<char>> {
    packed(switches)
}

/// The bytes of a chord between braces, with commas between.
pub open spec fn chord_initializer(switches: Seq<bool>) -> Seq<char> {
    "{"@ + join(chord_bytes(switches), ", "@) + "}"@
}

/// The expression of the generated code that makes the chord.
pub open spec fn chord_constructor(switches: Seq<bool>) -> Seq<char> {
    "ChordData("@ + chord_initializer(switches) + ")"@
}

impl ChordSpec {
    /// The bytes of `chord` as numbers of the generated code.
    pub fn to_c_bytes(&self, chord: &Chord) -> (bytes: Vec<CCode>)
        ensures
            code_views(bytes@) == chord_bytes(chord@.switches),
    {
        let mut bits = bits_new();
        bits_extend(&mut bits, &chord.switches);
        assert(bit_seq(bits) =~= chord@.switches);
        let raw = bits_blocks(&bits);
        let ghost want = blocks(chord@.switches);
        assert(raw@.map_values(|b: u8| b as nat).len() == raw.len());
        let mut bytes: Vec<CCode> = Vec::new();
        let mut i: usize = 0;
        while i < raw.len()
            invariant
                i <= raw.len(),
                raw@.map_values(|b: u8| b as nat) == want,
                bytes.len() == i,
                forall|j: int| 0 <= j < i ==> (#[trigger] bytes@[j])@ == decimal(want[j]),
            decreases raw.len() - i,
        {
            assert(raw@.map_values(|b: u8| b as nat)[i as int] == raw[i as int] as nat);
            bytes.push(number(raw[i] as usize));
            i += 1;
        }
        assert(code_views(bytes@) =~= chord_bytes(chord@.switches));
        bytes
    }

    /// The bytes of `chord` between braces.
    pub fn to_c_initializer(&self, chord: &Chord) -> (code: CCode)
        ensures
            code@ == chord_initializer(chord@.switches),
    {
        let bytes = code_strings(&self.to_c_bytes(chord));
        CCode(concat3("{", join_strings(&bytes, ", ").as_str(), "}"))
    }

    /// The expression of the generated code that makes `chord`.
    pub fn to_c_constructor(&self, chord: &Chord) -> (code: CCode)
        ensures
            code@ == chord_constructor(chord@.switches),
    {
        let init = self.to_c_initializer(chord);
        CCode(concat3("ChordData(", init.as_str(), ")"))
    }

    /// The type of a chord in the generated code.
    pub fn c_type_name() -> (name: CCode)
        ensures
            name@ == "ChordData"@,
    {
        CCode::new("ChordData")
    }
}

/// The bits of a code as a binary number of the generated code: the first
/// bit is the lowest, so it is written last. A code without bits is `0`.
pub open spec fn binary_digits(bits: Seq<bool>) -> Seq<char>
    decreases bits.len(),
{
    if bits.len() == 0 {
        Seq::empty()
    } else {
        seq![if bits.last() { '1' } else { '0' }] + binary_digits(bits.drop_last())
    }
}

/// The bits of a code as a binary number of the generated code.
pub open spec fn binary(bits: Seq<bool>) -> Seq<char> {
    if bits.len() == 0 {
        "0"@
    } else {
        "0b"@ + binary_digits(bits)
    }
}

/// The entry of a symbol in the firmware's table: its bits, their number,
/// its code as a byte, and whether it is a modifier.
pub open spec fn huffman_initializer(key: Seq<char>, bits: Seq<bool>, is_mod: bool) -> Seq<char> {
    "{"@ + binary(bits) + ", "@ + decimal(bits.len()) + ", "@ + truncated(key) + ", "@ + (if is_mod {
        "1"@
    } else {
        "0"@
    }) + "}"@
}

/// The most bits that a code of the firmware's table can have.
pub const MAX_CODE_BITS: usize = 32;

/// Whether entry `i` is the first of the table whose code has too many
/// bits for the firmware.
pub open spec fn first_long_code(table: HuffmanTable, i: int) -> bool {
    &&& 0 <= i < table.0.val_seq().len()
    &&& table.0.val_seq()[i].bits@.len() > 32
    &&& forall|j: int| 0 <= j < i ==> (#[trigger] table.0.val_seq()[j]).bits@.len() <= 32
}

/// The entries of the firmware's table, in the order of the symbols.
pub open spec fn huffman_initializers(table: HuffmanTable) -> Seq<Seq<char>> {
    Seq::new(
        table.0.key_seq().len(),
        |i: int|
            huffman_initializer(
                table.0.key_seq()[i],
                table.0.val_seq()[i].bits@,
                table.0.val_seq()[i].is_mod,
            ),
    )
}

/// The code table as declarations: the length of its shortest code, and
/// its entries.
pub open spec fn huffman_tree_view(table: HuffmanTable) -> CTreeView {
    CTreeView::Group(
        seq![
            CTreeView::ConstVar {
                name: "MIN_HUFFMAN_CODE_BIT_LEN"@,
                value: decimal(table.spec_min_bit_length()),
                c_type: "uint8_t"@,
                is_extern: true,
            },
            CTreeView::Array {
                name: "huffman_lookup"@,
                values: huffman_initializers(table),
                c_type: "HuffmanChar"@,
                is_extern: true,
            },
        ],
    )
}

/// The bits of a code as a binary number of the generated code.
pub fn binary_code(bits: &Vec<bool>) -> (code: CCode)
    ensures
        code@ == binary(bits@),
{
    if bits.len() == 0 {
        return CCode::new("0");
    }
    let mut s = "0b".to_owned();
    let mut i: usize = bits.len();
    assert(bits@.take(bits.len() as int) == bits@);
    while i > 0
        invariant
            i <= bits.len(),
            s@ + binary_digits(bits@.take(i as int)) == "0b"@ + binary_digits(bits@),
        decreases i,
    {
        i -= 1;
        let ghost before = s@;
        s.append(if bits[i] { "1" } else { "0" });
        proof {
            reveal_strlit("1");
            reveal_strlit("0");
            let part = bits@.take(i + 1);
            assert(part.drop_last() == bits@.take(i as int));
            assert(part.last() == bits[i as int]);
            assert(s@ + binary_digits(bits@.take(i as int)) =~= before + binary_digits(part));
        }
    }
    proof {
        assert(bits@.take(0) =~= Seq::empty());
        assert(s@ + Seq::<char>::empty() =~= s@);
    }
    CCode(s)
}

/// Why the table cannot be written for the firmware, if it cannot: the
/// code of a symbol, of which the first is reported, has more than 32
/// bits.
pub open spec fn huffman_render_error(table: HuffmanTable) -> Option<ErrorView> {
    if exists|i: int| first_long_code(table, i) {
        let i = choose|i: int| first_long_code(table, i);
        Some(
            ErrorView::OutOfRange {
                name: "huffman code length"@,
                value: table.0.val_seq()[i].bits@.len(),
                min: 0,
                max: 32,
            },
        )
    } else {
        None
    }
}

impl HuffmanTable {
    /// The table as declarations for the firmware. Fails for the first
    /// symbol, in their order, whose code is longer than 32 bits.
    pub fn render(&self) -> (r: Result<CTree, Error>)
        requires
            self.wf(),
        ensures
            match huffman_render_error(*self) {
                Some(e) => r is Err && r->Err_0@ == e,
                None => r is Ok && r->Ok_0@ == huffman_tree_view(*self),
            },
    {
        let mut initializers: Vec<CCode> = Vec::new();
        let mut i: usize = 0;
        while i < self.0.len()
            invariant
                i <= self.0.key_seq().len(),
                self.wf(),
                initializers.len() == i,
                forall|j: int| 0 <= j < i ==> (#[trigger] self.0.val_seq()[j]).bits@.len() <= 32,
                forall|j: int| 0 <= j < i ==> (#[trigger] initializers@[j])@ == huffman_initializers(*self)[j],
            decreases self.0.key_seq().len() - i,
        {
            let key = self.0.key_at(i);
            let entry = self.0.val_at(i);
            if entry.bits.len() > MAX_CODE_BITS {
                proof {
                    assert(first_long_code(*self, i as int));
                    let w = choose|w: int| first_long_code(*self, w);
                    assert(first_long_code(*self, w));
                    if w < i {
                        assert(self.0.val_seq()[w].bits@.len() <= 32);
                    }
                    if w > i {
                        assert(self.0.val_seq()[i as int].bits@.len() <= 32);
                    }
                }
                return Err(
                    Error::OutOfRange {
                        name: "huffman code length".to_owned(),
                        value: entry.bits.len(),
                        min: 0,
                        max: MAX_CODE_BITS,
                    },
                );
            }
            let mut s = concat3("{", binary_code(&entry.bits).as_str(), ", ");
            s.append(decimal_string(entry.bits.len()).as_str());
            s.append(", ");
            s.append(KeyPress::truncate(&CCode(key.clone())).as_str());
            s.append(", ");
            s.append(if entry.is_mod { "1" } else { "0" });
            s.append("}");
            assert(s@ =~= huffman_initializer(key@, entry.bits@, entry.is_mod));
            initializers.push(CCode(s));
            i += 1;
        }
        proof {
            assert forall|w: int| !first_long_code(*self, w) by {
                if 0 <= w < self.0.val_seq().len() {
                    assert(self.0.val_seq()[w].bits@.len() <= 32);
                }
            }
            assert(code_views(initializers@) =~= huffman_initializers(*self));
        }
        let mut group: Vec<CTree> = Vec::new();
        assert(models(group@) =~= Seq::<CTreeView>::empty());
        push_tree(
            &mut group,
            CTree::const_var("MIN_HUFFMAN_CODE_BIT_LEN", number(self.min_bit_length()), "uint8_t"),
        );
        push_tree(&mut group, CTree::array("huffman_lookup", initializers, "HuffmanChar"));
        let tree = CTree::group(group);
        assert(tree@->Group_0 =~= huffman_tree_view(*self)->Group_0);
        Ok(tree)
    }
}

/// The names of all the kinds of sequence in the generated code.
pub open spec fn seq_type_names() -> Seq<Seq<char>> {
    SeqType::all().map_values(|k: SeqType| k.spec_c_name())
}

/// The enumeration of the kinds of sequence.
pub fn render_seq_types() -> (tree: CTree)
    ensures
        tree@ == (CTreeView::EnumDecl {
            name: "SeqType"@,
            variants: seq_type_names(),
            size: Some("uint8_t"@),
        }),
{
    let mut variants: Vec<CCode> = Vec::new();
    variants.push(SeqType::Plain.c_name());
    variants.push(SeqType::Word.c_name());
    variants.push(SeqType::Macro.c_name());
    variants.push(SeqType::Command.c_name());
    variants.push(SeqType::Special.c_name());
    assert(code_views(variants@) =~= seq_type_names());
    CTree::enum_decl("SeqType", variants)
}

/// The names of a list, each as a piece of code.
pub fn names_to_codes(names: &Vec<Name>) -> (codes: Vec<CCode>)
    ensures
        code_views(codes@) == name_views(names@),
{
    let mut codes: Vec<CCode> = Vec::new();
    let mut i: usize = 0;
    while i < names.len()
        invariant
            i <= names.len(),
            codes.len() == i,
            forall|j: int| 0 <= j < i ==> codes[j]@ == names[j]@,
        decreases names.len() - i,
    {
        codes.push(CCode(names[i].0.clone()));
        i += 1;
    }
    assert(code_views(codes@) =~= name_views(names@));
    codes
}

/// The name of a modifier as a variant of the enumeration of modifiers.
pub open spec fn qualified(name: Seq<char>) -> Seq<char> {
    "Modifier::"@ + name
}

/// The names of modifiers as variants of the enumeration of modifiers.
pub fn to_variants(mod_names: &Vec<Name>) -> (variants: Vec<CCode>)
    ensures
        code_views(variants@) == name_views(mod_names@).map_values(|n: Seq<char>| qualified(n)),
{
    let mut variants: Vec<CCode> = Vec::new();
    let mut i: usize = 0;
    while i < mod_names.len()
        invariant
            i <= mod_names.len(),
            variants.len() == i,
            forall|j: int| 0 <= j < i ==> variants[j]@ == qualified(mod_names[j]@),
        decreases mod_names.len() - i,
    {
        variants.push(CCode(concat2("Modifier::", mod_names[i].as_str())));
        i += 1;
    }
    assert(code_views(variants@) =~= name_views(mod_names@).map_values(|n: Seq<char>| qualified(n)));
    variants
}

/// The numbers from 1 to `n`.
pub open spec fn counting(n: nat) -> Seq<Seq<char>> {
    Seq::new(n, |i: int| decimal((i + 1) as nat))
}

/// The codes of the first `n` plain modifiers, or the error of the first
/// of them that has none.
pub open spec fn plain_mod_codes(data: AllData, n: int) -> Result<Seq<Seq<char>>, ErrorView>
    decreases n,
{
    if n <= 0 {
        Ok(Seq::empty())
    } else {
        match plain_mod_codes(data, n - 1) {
            Err(e) => Err(e),
            Ok(codes) => match data.spec_mod_key(data.plain_mods[n - 1]@) {
                Err(e) => Err(e),
                Ok(code) => Ok(codes.push(code)),
            },
        }
    }
}

/// A plain modifier without a code, once found, stays the first one.
proof fn lemma_plain_mod_error_stays(data: AllData, n: int, m: int)
    requires
        0 <= n <= m,
        plain_mod_codes(data, n) is Err,
    ensures
        plain_mod_codes(data, m) == plain_mod_codes(data, n),
    decreases m - n,
{
    if n < m {
        lemma_plain_mod_error_stays(data, n, m - 1);
    }
}

/// An `extern` array of modifiers.
pub open spec fn modifier_array(name: Seq<char>, names: Seq<Seq<char>>) -> CTreeView {
    CTreeView::Array {
        name,
        values: names.map_values(|n: Seq<char>| qualified(n)),
        c_type: "Modifier"@,
        is_extern: true,
    }
}

/// An `extern` array of bytes.
pub open spec fn byte_array(name: Seq<char>, values: Seq<Seq<char>>) -> CTreeView {
    CTreeView::Array { name, values, c_type: "uint8_t"@, is_extern: true }
}

impl AllData {
    /// The options of the keyboard, as one group.
    pub fn render_options(&self) -> (tree: CTree)
        ensures
            tree@ == CTreeView::Group(models(self.options@)),
    {
        CTree::group(copy_trees(&self.options))
    }

    /// The declarations of the modifiers.
    pub open spec fn spec_modifiers(&self, codes: Seq<Seq<char>>) -> CTreeView {
        CTreeView::Group(
            seq![
                CTreeView::EnumDecl {
                    name: "Modifier"@,
                    variants: self.spec_mod_names(),
                    size: Some("uint8_t"@),
                },
                CTreeView::Define {
                    name: "NUM_MODIFIERS"@,
                    value: decimal(self.spec_mod_names().len()),
                },
                CTreeView::ConstVar {
                    name: "MAX_ANAGRAM_NUM"@,
                    value: decimal(self.max_anagram_num as nat),
                    c_type: "uint8_t"@,
                    is_extern: true,
                },
                modifier_array("word_mods"@, name_views(self.word_mods@)),
                modifier_array("plain_mods"@, name_views(self.plain_mods@)),
                modifier_array("anagram_mods"@, name_views(self.anagram_mods@)),
                byte_array("anagram_mod_numbers"@, counting(self.anagram_mods.len() as nat)),
                byte_array("plain_mod_keys"@, codes),
            ],
        )
    }

    /// The modifiers of each plain modifier, as code, in the order of the
    /// plain modifiers.
    pub fn get_plain_mod_codes(&self) -> (r: Result<Vec<CCode>, Error>)
        requires
            self.wf(),
        ensures
            match plain_mod_codes(*self, self.plain_mods.len() as int) {
                Ok(codes) => r is Ok && code_views(r->Ok_0@) == codes,
                Err(e) => r is Err && r->Err_0@ == e,
            },
    {
        let mut codes: Vec<CCode> = Vec::new();
        let mut i: usize = 0;
        assert(code_views(codes@) =~= Seq::<Seq<char>>::empty());
        while i < self.plain_mods.len()
            invariant
                i <= self.plain_mods.len(),
                self.wf(),
                plain_mod_codes(*self, i as int) == Ok::<Seq<Seq<char>>, ErrorView>(code_views(codes@)),
            decreases self.plain_mods.len() - i,
        {
            match self.get_mod_key(&self.plain_mods[i]) {
                Ok(code) => {
                    let ghost before = codes@;
                    codes.push(code);
                    assert(code_views(codes@) =~= code_views(before).push(code@));
                },
                Err(e) => {
                    proof {
                        lemma_plain_mod_error_stays(*self, i + 1, self.plain_mods.len() as int);
                    }
                    return Err(e);
                },
            }
            i += 1;
        }
        Ok(codes)
    }

    /// The declarations of the modifiers: their enumeration and number, the
    /// largest anagram number, the modifiers of words, the plain ones and
    /// those of anagrams, the anagram number that each modifier of anagrams
    /// stands for, and the codes of the plain modifiers. Fails where a
    /// plain modifier has no code.
    pub fn render_modifiers(&self) -> (r: Result<CTree, Error>)
        requires
            self.wf(),
        ensures
            match plain_mod_codes(*self, self.plain_mods.len() as int) {
                Ok(codes) => r is Ok && r->Ok_0@ == self.spec_modifiers(codes),
                Err(e) => r is Err && r->Err_0@ == e,
            },
    {
        let plain_mod_keys = match self.get_plain_mod_codes() {
            Ok(codes) => codes,
            Err(e) => {
                return Err(e);
            },
        };
        let all_mods = self.get_mod_names();
        let num = all_mods.len();
        assert(name_views(all_mods@).len() == all_mods.len());
        let mut numbers: Vec<CCode> = Vec::new();
        let mut i: usize = 0;
        while i < self.anagram_mods.len()
            invariant
                i <= self.anagram_mods.len(),
                numbers.len() == i,
                forall|j: int| 0 <= j < i ==> (#[trigger] numbers@[j])@ == decimal((j + 1) as nat),
            decreases self.anagram_mods.len() - i,
        {
            numbers.push(number(i + 1));
            i += 1;
        }
        assert(code_views(numbers@) =~= counting(self.anagram_mods.len() as nat));
        let mut group: Vec<CTree> = Vec::new();
        assert(models(group@) =~= Seq::<CTreeView>::empty());
        push_tree(&mut group, CTree::enum_decl("Modifier", names_to_codes(&all_mods)));
        push_tree(&mut group, CTree::define("NUM_MODIFIERS", number(num)));
        push_tree(
            &mut group,
            CTree::const_var("MAX_ANAGRAM_NUM", number(self.max_anagram_num as usize), "uint8_t"),
        );
        push_tree(&mut group, CTree::array("word_mods", to_variants(&self.word_mods), "Modifier"));
        push_tree(&mut group, CTree::array("plain_mods", to_variants(&self.plain_mods), "Modifier"));
        push_tree(&mut group, CTree::array("anagram_mods", to_variants(&self.anagram_mods), "Modifier"));
        push_tree(&mut group, CTree::array("anagram_mod_numbers", numbers, "uint8_t"));
        push_tree(&mut group, CTree::array("plain_mod_keys", plain_mod_keys, "uint8_t"));
        let tree = CTree::group(group);
        proof {
            let want = self.spec_modifiers(code_views(plain_mod_keys@));
            assert(tree@->Group_0 =~= want->Group_0);
        }
        Ok(tree)
    }
}

} // verus!
