use pipit_config::output::render::{
    autogen_message, binary_code, intro, make_debug_macros, render_keycode_definitions,
    render_seq_types,
};
use pipit_config::text::{
    chars_of, concat_strings, decimal_string, join_strings, split_lines, split_words, str_eq, str_lt,
};
use pipit_config::{
    AllData, AnagramNum, BoardName, CCode, CTree, Chord, ChordSpec, Delay, Error, HuffmanTable,
    KeyCode, KeyPress, KmapFormat, KmapInfo, KmapPath, Maps, ModeInfo, ModeName, Name,
    OptionsConfig, Permutation, Pin, SeqType, Sequence, StrMap, SwitchPos, Verbosity,
    WordSpacePosition,
};

fn chord_spec() -> ChordSpec {
    let order: Vec<SwitchPos> = (0..9).map(|r| SwitchPos::new(Pin(r), Pin(0))).collect();
    ChordSpec {
        num_bytes: 2,
        num_switches: 9,
        num_matrix_positions: 9,
        to_firmware_order: Permutation::from_to(&order, &order).unwrap(),
    }
}

fn chord(pressed: &[usize], anagram: u8) -> Chord {
    let mut switches = vec![false; 16];
    for p in pressed {
        switches[*p] = true;
    }
    Chord {
        switches,
        anagram_num: AnagramNum(anagram),
    }
}

fn options() -> OptionsConfig {
    OptionsConfig {
        chord_delay: Delay(30),
        held_delay: Delay(200),
        debounce_delay: Delay(10),
        debug_messages: Verbosity::SomeMessages,
        board_name: BoardName::FEATHER_M0_BLE,
        row_pins: vec![Pin(1), Pin(2), Pin(3)],
        column_pins: vec![Pin(4), Pin(5), Pin(6)],
        kmap_format: KmapFormat(vec![]),
        rgb_led_pins: Some([Pin(7), Pin(8), Pin(9)]),
        battery_level_pin: Some(Pin(11)),
        word_space_position: WordSpacePosition::Nowhere,
        output_directory: "out".to_string(),
        tutor_directory: "tutor".to_string(),
        enable_led_typing_feedback: true,
        enable_audio_typing_feedback: false,
    }
}

fn codes(items: &[&str]) -> Vec<CCode> {
    items.iter().map(|s| CCode::new(s)).collect()
}

#[test]
fn text_helpers() {
    assert_eq!(decimal_string(0), "0");
    assert_eq!(decimal_string(9), "9");
    assert_eq!(decimal_string(10), "10");
    assert_eq!(decimal_string(65535), "65535");
    let parts = vec!["a".to_string(), "bc".to_string(), "".to_string()];
    assert_eq!(join_strings(&parts, ", "), "a, bc, ");
    assert_eq!(join_strings(&Vec::new(), ", "), "");
    assert_eq!(concat_strings(&parts), "abc");
    assert!(str_eq("abc", "abc"));
    assert!(!str_eq("abc", "abd"));
    assert!(!str_eq("abc", "ab"));
    assert!(str_lt("ab", "abc"));
    assert!(str_lt("B", "a"));
    assert!(!str_lt("b", "b"));
    assert!(!str_lt("b", "a"));
    assert!(str_lt("z", "é"));
    assert_eq!(chars_of("hé"), vec!['h', 'é']);
}

#[test]
fn lines_and_words() {
    let text: Vec<char> = "a b\n\n c\u{a0}d \nlast".chars().collect();
    let lines = split_lines(&text);
    assert_eq!(lines.len(), 4);
    assert_eq!(lines[1], Vec::<char>::new());
    let words = split_words(&lines[2]);
    assert_eq!(words, vec![vec!['c'], vec!['d']]);
    assert_eq!(split_words(&lines[0]).len(), 2);
    let ended: Vec<char> = "x\n".chars().collect();
    assert_eq!(split_lines(&ended).len(), 1);
    assert_eq!(split_lines(&Vec::new()).len(), 0);
}

#[test]
fn options_become_declarations() {
    let ops = options().get_literal_ops();
    assert_eq!(ops.len(), 12);
    assert_eq!(ops[0], CTree::define("CHORD_DELAY", CCode::new("30")));
    assert_eq!(ops[1], CTree::define("HELD_DELAY", CCode::new("200")));
    assert_eq!(ops[2], CTree::define("DEBOUNCE_DELAY", CCode::new("10")));
    assert_eq!(ops[3], CTree::define("DEBUG_MESSAGES", CCode::new("1")));
    assert_eq!(ops[4], CTree::define("WORD_SPACE_POSITION", CCode::new("2")));
    assert_eq!(ops[5], CTree::ifdef("FEATHER_M0_BLE", true));
    assert_eq!(ops[6], CTree::array("row_pins", codes(&["1", "2", "3"]), "uint8_t"));
    assert_eq!(ops[7], CTree::array("column_pins", codes(&["4", "5", "6"]), "uint8_t"));
    assert_eq!(ops[8], CTree::ifdef("ENABLE_LED_TYPING_FEEDBACK", true));
    assert_eq!(ops[9], CTree::ifdef("ENABLE_AUDIO_TYPING_FEEDBACK", false));
    assert_eq!(ops[10], CTree::array("rgb_led_pins", codes(&["7", "8", "9"]), "uint8_t"));
    assert_eq!(ops[11], CTree::const_var("battery_level_pin", CCode::new("11"), "uint8_t"));
}

#[test]
fn options_that_follow_from_the_others() {
    let ops = options().get_auto_ops();
    assert_eq!(
        ops,
        vec![
            CTree::define("NUM_ROWS", CCode::new("3")),
            CTree::define("NUM_COLUMNS", CCode::new("3")),
            CTree::define("NUM_MATRIX_POSITIONS", CCode::new("9")),
            CTree::define("NUM_BYTES_IN_CHORD", CCode::new("2")),
            CTree::define("NUM_RGB_LED_PINS", CCode::new("3")),
            CTree::ifdef("ENABLE_RGB_LED", true),
            CTree::ifdef("HAS_BATTERY", true),
        ]
    );
    let mut plain = options();
    plain.rgb_led_pins = None;
    plain.battery_level_pin = None;
    assert_eq!(plain.get_literal_ops().len(), 10);
    assert_eq!(plain.get_auto_ops()[4], CTree::define("NUM_RGB_LED_PINS", CCode::new("0")));
    assert_eq!(plain.to_vec().len(), 17);
    assert_eq!(plain.output_directory(), "out");
    assert_eq!(plain.tutor_directory(), "tutor");
}

#[test]
fn chords_as_bytes() {
    let spec = chord_spec();
    let c = chord(&[0, 3, 8], 0);
    assert_eq!(spec.to_c_bytes(&c), codes(&["9", "1"]));
    assert_eq!(spec.to_c_initializer(&c), CCode::new("{9, 1}"));
    assert_eq!(spec.to_c_constructor(&c), CCode::new("ChordData({9, 1})"));
    assert_eq!(ChordSpec::c_type_name(), CCode::new("ChordData"));
    assert_eq!(spec.to_c_bytes(&chord(&[7, 15], 0)), codes(&["128", "128"]));
    assert_eq!(spec.blank_chord(), chord(&[], 0));
    assert_eq!(
        spec.to_firmware_order(&vec![true, false, false, false, false, false, false, false, true]),
        chord(&[0, 8], 0)
    );
}

#[test]
fn banner_and_top_of_the_files() {
    assert_eq!(
        autogen_message("pipit-keyboard", "today"),
        CCode::new(
            "/**\n * Automatically generated by pipit-keyboard on:  today\n * Do not make changes here, they will be overwritten.\n */\n\n"
        )
    );
    let keycodes = vec![
        KeyCode { name: CCode::new("KEY_A"), value: 4 },
        KeyCode { name: CCode::new("KEY_B"), value: 5 },
    ];
    let f = render_keycode_definitions(&keycodes).format("x").unwrap();
    assert_eq!(f.h, "#ifndef KEY_A\n#define KEY_A 4\n#define KEY_B 5\n#endif\n");
    let top = intro(None, &keycodes).format("auto_config").unwrap();
    assert_eq!(
        top.h,
        "#pragma once\n#include <stdint.h>\n#include \"config_types.h\"\ntypedef void (*voidFuncPtr)(void);\n#ifndef KEY_A\n#define KEY_A 4\n#define KEY_B 5\n#endif\n"
    );
    assert_eq!(top.c, "#include \"auto_config.h\"\n");
    let msg = CCode::new("// hello\n");
    let with = intro(Some(&msg), &keycodes).format("auto_config").unwrap();
    assert!(with.h.starts_with("// hello\n#pragma once\n"));
    assert!(with.c.starts_with("// hello\n#include"));
    let macros = make_debug_macros().format("x").unwrap();
    assert!(macros.h.starts_with("\n#if DEBUG_MESSAGES == 0\n    #define DEBUG1(msg)\n"));
    assert!(macros.h.ends_with("   #endif\n\n#endif\n\n"));
}

#[test]
fn codes_as_binary_numbers() {
    assert_eq!(binary_code(&vec![]), CCode::new("0"));
    assert_eq!(binary_code(&vec![true]), CCode::new("0b1"));
    assert_eq!(binary_code(&vec![true, false, false]), CCode::new("0b001"));
    assert_eq!(
        render_seq_types().format("x").unwrap().h,
        "enum SeqType : uint8_t {\n  PLAIN,\n  WORD,\n  MACRO,\n  COMMAND,\n  SPECIAL,\n};\n\n"
    );
}

fn table() -> HuffmanTable {
    HuffmanTable::new(vec![
        KeyPress::new_key("KEY_A"),
        KeyPress::new_key("KEY_A"),
        KeyPress::new_key("KEY_B"),
        KeyPress::new_mod("MODIFIERKEY_CTRL"),
    ])
}

#[test]
fn the_code_table_as_declarations() {
    // Counts: "0" 1, KEY_A 2, KEY_B 1, MODIFIERKEY_CTRL 1. The blank code
    // and KEY_B are merged first, then the modifier and KEY_A, then the
    // two branches: "0" is 00, KEY_B 01, the modifier 10 and KEY_A 11. The
    // first bit of a code is the lowest of its number.
    let f = table().render().unwrap().format("x").unwrap();
    assert_eq!(
        f.h,
        "extern const uint8_t MIN_HUFFMAN_CODE_BIT_LEN;\nextern const HuffmanChar huffman_lookup[];\n"
    );
    assert_eq!(
        f.c,
        "extern const uint8_t MIN_HUFFMAN_CODE_BIT_LEN = 2;\n\nextern const HuffmanChar huffman_lookup[] = {\n {0b00, 2, static_cast<uint8_t>(0), 0}, {0b11, 2, static_cast<uint8_t>(KEY_A), 0}, {0b10, 2, static_cast<uint8_t>(KEY_B), 0}, {0b01, 2, static_cast<uint8_t>(MODIFIERKEY_CTRL), 1}, \n};\n\n"
    );
}

fn registry() -> Maps {
    let mut maps = Maps::new(chord_spec());
    maps.add_mode(
        ModeName::new("default"),
        ModeInfo {
            keymaps: vec![KmapInfo { path: KmapPath::new("one.kmap"), use_words: true }],
        },
    )
    .unwrap();
    let one = KmapPath::new("one.kmap");
    maps.add_chord(Name::new("key_a"), chord(&[0], 0), &one).unwrap();
    maps.add_chord(Name::new("key_b"), chord(&[1], 0), &one).unwrap();
    maps.add_chord(Name::new("mod_ctrl"), chord(&[8], 0), &one).unwrap();
    maps.put_sequence(SeqType::Plain, Name::new("key_a"), Sequence(vec![KeyPress::new_key("KEY_A")]));
    maps.put_sequence(SeqType::Plain, Name::new("key_b"), Sequence(vec![KeyPress::new_key("KEY_B")]));
    maps.add_modifierkey(Name::new("mod_ctrl"), &Sequence(vec![KeyPress::new_mod("MODIFIERKEY_CTRL")]));
    maps.add_command(&Name::new("command_pause")).unwrap();
    maps.options = vec![CTree::define("NUM_ROWS", CCode::new("9"))];
    maps
}

#[test]
fn modifiers_as_declarations() {
    let maps = registry();
    let f = maps.render_modifiers().unwrap().format("x").unwrap();
    assert!(f.h.starts_with("enum Modifier : uint8_t {\n  mod_ctrl,\n};\n\n#define NUM_MODIFIERS 1\n"));
    assert!(f.c.contains("extern const uint8_t MAX_ANAGRAM_NUM = 0;\n\n"));
    assert!(f.c.contains("extern const Modifier plain_mods[] = {\n Modifier::mod_ctrl, \n};\n\n"));
    assert!(f.c.contains("extern const Modifier word_mods[] = {\n};\n\n"));
    assert!(f.c.contains(
        "extern const uint8_t plain_mod_keys[] = {\n static_cast<uint8_t>(MODIFIERKEY_CTRL), \n};\n\n"
    ));
    assert_eq!(
        maps.get_plain_mod_codes(),
        Ok(vec![CCode::new("static_cast<uint8_t>(MODIFIERKEY_CTRL)")])
    );
}

#[test]
fn layouts_as_tables() {
    let maps = registry();
    let f = maps.render_kmaps(&table()).unwrap().format("x").unwrap();
    assert!(f.c.contains(
        "extern const ChordData kmap0_PLAIN_chords[] = {\n ChordData({1, 0}), ChordData({2, 0}), ChordData({0, 1}), \n};\n\n"
    ));
    assert!(f.c.contains("extern const uint8_t kmap0_PLAIN_anagrams[] = {\n 0, 0, 0, \n};\n\n"));
    // key_a is 11 and key_b 01; mod_ctrl is its modifier, 10, and then the
    // blank code, 00.
    assert!(f.c.contains("extern const uint16_t kmap0_PLAIN_lengths[] = {\n 2, 2, 4, \n};\n\n"));
    assert!(f.c.contains("extern const uint8_t kmap0_PLAIN_seqs[] = {\n 3, 2, 1, \n};\n\n"));
    assert!(f.c.contains("extern const ChordData kmap0_WORD_chords[] = {\n};\n\n"));
    assert!(f.h.contains("extern const uint8_t kmap0_SPECIAL_seqs[];\n"));
    assert!(f.c.contains(
        "extern const SeqTable kmap0_PLAIN_table = {kmap0_PLAIN_chords, kmap0_PLAIN_anagrams, kmap0_PLAIN_lengths, kmap0_PLAIN_seqs, 3};\n\n"
    ));
    assert!(f.c.contains("extern const SeqTable kmap0_MACRO_table = {kmap0_MACRO_chords, kmap0_MACRO_anagrams, kmap0_MACRO_lengths, kmap0_MACRO_seqs, 0};\n\n"));
    assert!(f.c.ends_with(
        "extern const KmapStruct kmap0 = {&kmap0_PLAIN_table, &kmap0_WORD_table, &kmap0_MACRO_table, &kmap0_COMMAND_table, &kmap0_SPECIAL_table};\n\n"
    ));
}

#[test]
fn a_sequence_outside_the_table_stops_the_output() {
    let mut maps = registry();
    maps.put_sequence(SeqType::Plain, Name::new("key_b"), Sequence(vec![KeyPress::new_key("KEY_Q")]));
    let want = Error::Lookup {
        key: "KEY_Q".to_string(),
        container: "huffman code table".to_string(),
    };
    assert_eq!(maps.render_kmaps(&table()), Err(want));
    assert!(maps.render_modes(&table()).is_err());
    let keycodes = vec![KeyCode { name: CCode::new("KEY_A"), value: 4 }];
    assert!(maps.render_main(&table(), None, &keycodes).is_err());
    assert!(maps.main_files(&table(), "auto_config", None, &keycodes).is_err());
}

#[test]
fn modes_as_declarations() {
    let maps = registry();
    assert_eq!(maps.max_seq_length(), 1);
    assert_eq!(maps.get_anagram_mask(&ModeName::new("default")), Ok(chord(&[], 0)));
    let f = maps.render_modes(&table()).unwrap().format("x").unwrap();
    assert!(f.c.starts_with("extern const uint8_t MAX_KEYS_IN_SEQUENCE = 1;\n\n"));
    assert!(f.c.contains("extern const KmapStruct* default_kmaps[] = {\n &kmap0, \n};\n\n"));
    assert!(f.c.contains("extern const ChordData default_mod_chords[] = {\n ChordData({0, 1}), \n};\n\n"));
    assert!(f.c.contains("extern const ChordData default_anagram_mask = ChordData({0, 0});\n\n"));
    assert!(f.c.contains(
        "extern const ModeStruct default = {default_kmaps, 1, default_mod_chords, &default_anagram_mask};\n\n"
    ));
    assert!(f.c.ends_with("extern const ModeStruct* mode_structs[] = {\n &default, \n};\n\n"));
}

#[test]
fn the_main_files() {
    let maps = registry();
    let keycodes = vec![KeyCode { name: CCode::new("KEY_A"), value: 4 }];
    let f = maps.main_files(&table(), "auto_config", None, &keycodes).unwrap();
    assert!(f.h.starts_with("#pragma once\n#include <stdint.h>\n"));
    assert!(f.h.contains("namespace conf {\n\n#define NUM_ROWS 9\n"));
    assert!(f.h.contains("enum Command : uint8_t {\n  COMMAND_PAUSE,\n};\n\n"));
    assert!(f.h.contains("enum Mode : uint8_t {\n  default,\n};\n\n"));
    assert!(f.h.ends_with("   #endif\n\n#endif\n\n"));
    assert!(f.c.starts_with("#include \"auto_config.h\"\nnamespace conf {\n\n"));
    assert!(f.c.ends_with("\n} // namespace conf\n"));
    let again = registry().main_files(&table(), "auto_config", None, &keycodes).unwrap();
    assert_eq!(f, again);
    let msg = autogen_message("pipit-keyboard", "now");
    let early = AllData::render_early_config(Some(&msg), &maps.options).format("auto_config_early").unwrap();
    assert!(early.h.ends_with("#pragma once\n#define NUM_ROWS 9\n"));
    assert_eq!(early.c, "");
    let _keys: StrMap<bool> = maps.seq_names();
}

#[test]
fn errors_as_text() {
    assert_eq!(Error::Syntax { line: 12 }.message(), "syntax error in kmap file near line 12");
    assert_eq!(Error::lookup("key_x", "chords").message(), "no entry for 'key_x' in chords");
    assert_eq!(
        Error::lookup("x", "kmaps").context("failure to load chords").message(),
        "failure to load chords: no entry for 'x' in kmaps"
    );
    assert_eq!(
        Error::OutOfRange { name: "anagram number".to_string(), value: 16, min: 0, max: 15 }.message(),
        "anagram number is out of range: 16 is not in 0..=15"
    );
    assert_eq!(Error::bad_value("character", "!").message(), "invalid character: '!'");
    assert_eq!(Error::duplicate("a", "modes").message(), "modes already contains key: a");
    assert_eq!(
        Error::NotRectangular { name: "grid".to_string() }.message(),
        "array is not rectangular: grid"
    );
    assert_eq!(
        Error::UnknownSwitch { row: 3, column: 14 }.message(),
        "no switch at row pin 3, column pin 14"
    );
    assert_eq!(
        Error::NotPermutation.message(),
        "layout and switch matrix do not match one to one"
    );
}
