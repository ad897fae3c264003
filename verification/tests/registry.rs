use pipit_config::load::deserialize::{KmapFormat, OptionsConfig};
use pipit_config::load::impl_load::{spelling_of, KmapFile, Settings};
use pipit_config::types::maps::sort_names;
use pipit_config::{BoardName, Delay, Verbosity, WordSpacePosition};
use pipit_config::{
    AllData, AnagramNum, AnagramSet, CCode, Chord, ChordSpec, Error, KeyPress, KmapInfo,
    KmapPath, Maps, ModeInfo, ModeName, Name, Permutation, Pin, SeqType, Sequence, StrMap,
    SwitchPos, WordBuilder, WordConfig,
};

/// Eight switches in one column.
fn chord_spec() -> ChordSpec {
    let order: Vec<SwitchPos> = (0..8).map(|r| SwitchPos::new(Pin(r), Pin(0))).collect();
    ChordSpec {
        num_bytes: 1,
        num_switches: 8,
        num_matrix_positions: 8,
        to_firmware_order: Permutation::from_to(&order, &order).unwrap(),
    }
}

fn chord(pressed: &[usize], anagram: u8) -> Chord {
    let mut switches = vec![false; 8];
    for p in pressed {
        switches[*p] = true;
    }
    Chord {
        switches,
        anagram_num: AnagramNum(anagram),
    }
}

fn mode(paths: &[(&str, bool)]) -> ModeInfo {
    ModeInfo {
        keymaps: paths
            .iter()
            .map(|(p, w)| KmapInfo {
                path: KmapPath::new(p),
                use_words: *w,
            })
            .collect(),
    }
}

/// One mode with two layouts; letters a and b on the first.
fn registry() -> Maps {
    let mut maps = Maps::new(chord_spec());
    maps.add_mode(ModeName::new("default"), mode(&[("one.kmap", true), ("two.kmap", false)]))
        .unwrap();
    let one = KmapPath::new("one.kmap");
    maps.add_chord(Name::new("key_a"), chord(&[0], 0), &one).unwrap();
    maps.add_chord(Name::new("key_b"), chord(&[1], 0), &one).unwrap();
    maps.add_chord(Name::new("mod_shift"), chord(&[7], 0), &KmapPath::new("two.kmap"))
        .unwrap();
    maps.add_spelling("a", Name::new("key_a"));
    maps.add_spelling("b", Name::new("key_b"));
    maps
}

fn word(spelling: &str, anagram: Option<u8>, chord: Option<&str>) -> WordConfig {
    WordConfig {
        word: spelling.to_string(),
        anagram: anagram.map(AnagramNum),
        chord: chord.map(|c| c.to_string()),
    }
}

#[test]
fn new_registry_is_empty() {
    let maps = Maps::new(chord_spec());
    assert_eq!(maps.get_kmap_paths().len(), 0);
    assert_eq!(maps.get_mod_names().len(), 0);
    assert_eq!(maps.get_num_anagrams(), 1);
    assert_eq!(maps.get_kmaps_with_words().len(), 0);
    assert_eq!(
        maps.get_seq_types(),
        vec![
            SeqType::Plain,
            SeqType::Word,
            SeqType::Macro,
            SeqType::Command,
            SeqType::Special
        ]
    );
}

#[test]
fn modes_register_their_layouts_once() {
    let mut maps = registry();
    maps.add_mode(ModeName::new("other"), mode(&[("two.kmap", true), ("three.kmap", false)]))
        .unwrap();
    assert_eq!(
        maps.get_kmap_paths(),
        vec![
            KmapPath::new("one.kmap"),
            KmapPath::new("three.kmap"),
            KmapPath::new("two.kmap")
        ]
    );
    assert_eq!(maps.kmap_ids.get("one.kmap"), Some(&"kmap0".to_string()));
    assert_eq!(maps.kmap_ids.get("two.kmap"), Some(&"kmap1".to_string()));
    assert_eq!(maps.kmap_ids.get("three.kmap"), Some(&"kmap2".to_string()));
    assert_eq!(
        maps.get_kmaps_for_mode(&ModeName::new("other")),
        Ok(vec![KmapPath::new("two.kmap"), KmapPath::new("three.kmap")])
    );
    // Modes in the order of their names: default, other.
    assert_eq!(
        maps.get_kmaps_with_words(),
        vec![KmapPath::new("one.kmap"), KmapPath::new("two.kmap")]
    );
}

#[test]
fn a_mode_cannot_be_added_twice() {
    let mut maps = registry();
    assert_eq!(
        maps.add_mode(ModeName::new("default"), mode(&[])),
        Err(Error::Duplicate {
            key: "default".to_string(),
            container: "modes".to_string()
        })
    );
}

#[test]
fn chords_are_found_by_name_and_layout() {
    let maps = registry();
    let one = KmapPath::new("one.kmap");
    assert_eq!(maps.get_chord(&Name::new("key_a"), &one), Some(chord(&[0], 0)));
    assert_eq!(maps.get_chord(&Name::new("key_z"), &one), None);
    assert_eq!(maps.get_chord(&Name::new("key_a"), &KmapPath::new("two.kmap")), None);
    assert_eq!(maps.get_chord(&Name::new("key_a"), &KmapPath::new("nowhere")), None);
    assert_eq!(maps.get_chords(&one).unwrap().len(), 2);
    assert!(maps.get_chords(&KmapPath::new("nowhere")).is_err());
}

#[test]
fn a_chord_for_an_unknown_layout_is_refused() {
    let mut maps = registry();
    assert_eq!(
        maps.add_chord(Name::new("x"), chord(&[2], 0), &KmapPath::new("nowhere")),
        Err(Error::Lookup {
            key: "nowhere".to_string(),
            container: "kmaps".to_string()
        })
    );
}

#[test]
fn the_first_layout_of_the_mode_that_has_the_chord_wins() {
    let mut maps = registry();
    let default = ModeName::new("default");
    maps.add_chord(Name::new("mod_shift"), chord(&[6], 0), &KmapPath::new("one.kmap"))
        .unwrap();
    assert_eq!(
        maps.get_chord_in_mode(&Name::new("mod_shift"), &default),
        Ok(chord(&[6], 0))
    );
}

#[test]
fn a_name_without_a_chord_in_the_mode_has_the_blank_chord() {
    let maps = registry();
    let default = ModeName::new("default");
    assert_eq!(
        maps.get_chord_in_mode(&Name::new("mod_shift"), &default),
        Ok(chord(&[7], 0))
    );
    assert_eq!(
        maps.get_chord_in_mode(&Name::new("mod_nothing"), &default),
        Ok(chord(&[], 0))
    );
    assert_eq!(
        maps.get_chord_in_mode(&Name::new("key_a"), &ModeName::new("nope")),
        Err(Error::Lookup {
            key: "nope".to_string(),
            container: "modes".to_string()
        })
    );
}

#[test]
fn commands_are_stored_in_upper_case() {
    let mut maps = registry();
    maps.add_command(&Name::new("command_delete_word")).unwrap();
    let commands = maps.get_sequences(&SeqType::Command);
    assert_eq!(
        commands.get("command_delete_word"),
        Some(&Sequence(vec![KeyPress::new_fake("COMMAND_DELETE_WORD")]))
    );
    assert_eq!(
        maps.add_command(&Name::new("command_delete_word")),
        Err(Error::Duplicate {
            key: "command_delete_word".to_string(),
            container: "commands map".to_string()
        })
    );
    assert_eq!(maps.commands, vec![Name::new("command_delete_word")]);
}

#[test]
fn plain_modifiers_have_a_sequence_and_a_code() {
    let mut maps = registry();
    maps.add_modifierkey(
        Name::new("mod_ctrl"),
        &Sequence(vec![KeyPress::new_mod("MODIFIERKEY_CTRL")]),
    );
    assert_eq!(maps.plain_mods, vec![Name::new("mod_ctrl")]);
    assert_eq!(
        maps.get_mod_key(&Name::new("mod_ctrl")),
        Ok(CCode::new("static_cast<uint8_t>(MODIFIERKEY_CTRL)"))
    );
    assert_eq!(
        maps.get_mod_key(&Name::new("mod_none")),
        Err(Error::Lookup {
            key: "mod_none".to_string(),
            container: "sequences".to_string()
        })
    );
    maps.add_modifierkey(Name::new("mod_bad"), &Sequence(vec![KeyPress::new_key("KEY_A")]));
    assert_eq!(
        maps.get_mod_key(&Name::new("mod_bad")),
        Err(Error::BadValue {
            thing: "modifierkey sequence".to_string(),
            value: "mod_bad".to_string()
        })
    );
}

#[test]
fn sequences_of_a_kind_are_set_once() {
    let mut maps = registry();
    let mut macros: StrMap<Sequence> = StrMap::new();
    macros.insert("macro_x".to_string(), Sequence(vec![KeyPress::new_key("KEY_X")]));
    assert_eq!(maps.set_sequences(&SeqType::Macro, macros), Ok(()));
    assert_eq!(maps.get_sequences(&SeqType::Macro).len(), 1);
    let again: StrMap<Sequence> = StrMap::new();
    assert_eq!(
        maps.set_sequences(&SeqType::Macro, again),
        Err(Error::Duplicate {
            key: "MACRO".to_string(),
            container: "sequences".to_string()
        })
    );
}

#[test]
fn modifier_names_come_out_in_order() {
    let mut maps = registry();
    maps.plain_mods = vec![Name::new("mod_ctrl"), Name::new("mod_alt")];
    maps.word_mods = vec![Name::new("mod_capital")];
    maps.anagram_mods = vec![Name::new("mod_anagram_2"), Name::new("mod_anagram_1")];
    assert_eq!(
        maps.get_mod_names(),
        vec![
            Name::new("mod_alt"),
            Name::new("mod_anagram_1"),
            Name::new("mod_anagram_2"),
            Name::new("mod_capital"),
            Name::new("mod_ctrl"),
        ]
    );
    assert_eq!(
        sort_names(&vec![Name::new("b"), Name::new("B"), Name::new("a"), Name::new("b")]),
        vec![Name::new("B"), Name::new("a"), Name::new("b"), Name::new("b")]
    );
}

#[test]
fn a_word_is_typed_by_the_chords_of_its_letters() {
    let maps = registry();
    let one = KmapPath::new("one.kmap");
    let builder = WordBuilder {
        info: word("ab", None, None),
        kmap: &one,
        all_data: &maps,
    };
    let built = builder.finalize().unwrap();
    assert_eq!(built.name, Name::new("word_ab_0"));
    assert_eq!(built.chord, chord(&[0, 1], 0));
    assert_eq!(
        built.seq,
        Sequence(vec![KeyPress::new_key("KEY_A"), KeyPress::new_key("KEY_B")])
    );
}

#[test]
fn a_word_may_have_letters_of_its_own_for_the_chord() {
    let maps = registry();
    let one = KmapPath::new("one.kmap");
    let builder = WordBuilder {
        info: word("Ab b", Some(2), Some("B")),
        kmap: &one,
        all_data: &maps,
    };
    assert_eq!(builder.make_name(), Name::new("word_Ab b_B_2"));
    assert_eq!(builder.make_chord(), Ok(chord(&[1], 2)));
    let seq = builder.make_sequence().unwrap();
    assert_eq!(seq.len(), 4);
    assert_eq!(
        seq.0[0],
        KeyPress {
            key: Some(CCode::new("KEY_A")),
            mods: vec![CCode::new("MODIFIERKEY_SHIFT")]
        }
    );
    assert_eq!(seq.0[2], KeyPress::new_key("KEY_SPACE"));
}

#[test]
fn a_word_with_an_unknown_letter_fails_in_its_context() {
    let maps = registry();
    let one = KmapPath::new("one.kmap");
    let builder = WordBuilder {
        info: word("abc", None, None),
        kmap: &one,
        all_data: &maps,
    };
    match builder.finalize() {
        Err(Error::Context { message, cause }) => {
            assert_eq!(message, "Failed to make chord for: 'abc'");
            assert_eq!(
                *cause,
                Error::Lookup {
                    key: "c".to_string(),
                    container: "spellings".to_string()
                }
            );
        }
        other => panic!("unexpected: {:?}", other),
    }
}

#[test]
fn a_word_with_a_letter_that_has_no_chord_on_the_layout_fails() {
    let maps = registry();
    let two = KmapPath::new("two.kmap");
    let builder = WordBuilder {
        info: word("a", None, None),
        kmap: &two,
        all_data: &maps,
    };
    assert_eq!(
        builder.make_chord(),
        Err(Error::Lookup {
            key: "key_a".to_string(),
            container: "chords".to_string()
        })
    );
}

#[test]
fn a_word_that_cannot_be_typed_fails_in_its_context() {
    let maps = registry();
    let one = KmapPath::new("one.kmap");
    let builder = WordBuilder {
        info: word("a!", None, Some("a")),
        kmap: &one,
        all_data: &maps,
    };
    match builder.finalize() {
        Err(Error::Context { message, cause }) => {
            assert_eq!(message, "Failed to make sequence for: 'a!'");
            assert_eq!(
                *cause,
                Error::BadValue {
                    thing: "character".to_string(),
                    value: "!".to_string()
                }
            );
        }
        other => panic!("unexpected: {:?}", other),
    }
}

#[test]
fn an_anagram_number_beyond_fifteen_is_out_of_range() {
    assert_eq!(AnagramNum::max_allowable(), 15);
    assert_eq!(AnagramNum(15).validate(), Ok(()));
    let want = Error::OutOfRange {
        name: "anagram number".to_string(),
        value: 16,
        min: 0,
        max: 15,
    };
    assert_eq!(AnagramNum(16).validate(), Err(want));
    assert!(word("a", Some(16), None).validate().is_err());
    assert_eq!(
        AnagramNum(2).up_to(),
        vec![AnagramNum(0), AnagramNum(1), AnagramNum(2)]
    );
    let maps = registry();
    let one = KmapPath::new("one.kmap");
    let builder = WordBuilder {
        info: word("a", Some(16), None),
        kmap: &one,
        all_data: &maps,
    };
    assert!(builder.make_chord().is_err());
}

#[test]
fn adding_a_word_registers_its_sequence_and_its_chord() {
    let mut maps = registry();
    let one = KmapPath::new("one.kmap");
    maps.add_word(word("ba", Some(3), None), &one).unwrap();
    assert_eq!(
        maps.get_chord(&Name::new("word_ba_3"), &one),
        Some(chord(&[0, 1], 3))
    );
    assert_eq!(
        maps.get_sequences(&SeqType::Word).get("word_ba_3"),
        Some(&Sequence(vec![KeyPress::new_key("KEY_B"), KeyPress::new_key("KEY_A")]))
    );
    assert_eq!(maps.get_num_anagrams(), 4);
    maps.add_word(word("ab", Some(1), None), &one).unwrap();
    assert_eq!(maps.get_num_anagrams(), 4);
    assert!(maps.add_word(word("xyz", None, None), &one).is_err());
    assert_eq!(maps.get_sequences(&SeqType::Word).len(), 2);
}

#[test]
fn two_plain_names_on_one_chord_are_a_conflict() {
    let mut maps = registry();
    let one = KmapPath::new("one.kmap");
    maps.add_chord(Name::new("key_c"), chord(&[0], 0), &one).unwrap();
    let lines = maps.checker().check_conflicts();
    assert_eq!(
        lines,
        vec![
            "\nConflicting chords (in parens) or skipped anagrams (\"???\") in 'one.kmap':"
                .to_string(),
            "  anagrams: [(key_a, key_c)]".to_string(),
            "".to_string(),
        ]
    );
}

#[test]
fn a_word_modifier_may_share_a_chord_with_a_plain_name() {
    let mut maps = registry();
    let one = KmapPath::new("one.kmap");
    maps.add_chord(Name::new("mod_capital"), chord(&[0], 0), &one).unwrap();
    maps.word_mods = vec![Name::new("mod_capital")];
    assert_eq!(maps.checker().check_conflicts(), Vec::<String>::new());
    // Two modifiers on one chord are again a conflict.
    maps.add_chord(Name::new("mod_double"), chord(&[1], 0), &one).unwrap();
    maps.add_chord(Name::new("mod_other"), chord(&[1], 0), &one).unwrap();
    maps.anagram_mods = vec![Name::new("mod_double"), Name::new("mod_other")];
    let lines = maps.checker().check_conflicts();
    assert_eq!(lines.len(), 3);
    assert_eq!(lines[1], "  anagrams: [(key_b, mod_double, mod_other)]");
}

#[test]
fn anagram_numbers_without_a_gap_are_fine() {
    let mut maps = registry();
    let one = KmapPath::new("one.kmap");
    maps.add_chord(Name::new("word_x_1"), chord(&[0], 1), &one).unwrap();
    maps.add_chord(Name::new("word_y_2"), chord(&[0], 2), &one).unwrap();
    assert_eq!(maps.checker().check_conflicts(), Vec::<String>::new());
}

#[test]
fn a_skipped_anagram_number_is_reported_with_the_placeholder() {
    let mut maps = registry();
    let one = KmapPath::new("one.kmap");
    maps.add_chord(Name::new("word_y_2"), chord(&[0], 2), &one).unwrap();
    let lines = maps.checker().check_conflicts();
    assert_eq!(lines.len(), 3);
    assert_eq!(lines[1], "  anagrams: [key_a, ???, word_y_2]");
    assert_eq!(lines[2], "");
}

#[test]
fn names_on_one_side_only_are_unused() {
    let mut maps = registry();
    maps.put_sequence(
        SeqType::Plain,
        Name::new("key_a"),
        Sequence(vec![KeyPress::new_key("KEY_A")]),
    );
    maps.put_sequence(
        SeqType::Macro,
        Name::new("macro_hi"),
        Sequence(vec![KeyPress::new_key("KEY_H")]),
    );
    maps.word_mods = vec![Name::new("mod_shift"), Name::new("mod_capital")];
    let lines = maps.checker().check_unused();
    assert_eq!(
        lines,
        vec![
            "Unused chords:".to_string(),
            "  key_b".to_string(),
            "".to_string(),
            "Unused sequences:".to_string(),
            "  macro_hi".to_string(),
            "  mod_capital".to_string(),
            "".to_string(),
        ]
    );
    let all = maps.check();
    assert_eq!(all, lines);
}

#[test]
fn nothing_to_report_prints_nothing() {
    let maps = Maps::new(chord_spec());
    assert_eq!(maps.check(), Vec::<String>::new());
}

#[test]
fn anagram_sets_as_text() {
    let mut set = AnagramSet::new();
    set.insert(AnagramNum(0), Name::new("a"));
    set.insert(AnagramNum(2), Name::new("b"));
    set.insert(AnagramNum(2), Name::new("c"));
    assert_eq!(set.to_string(), "anagrams: [a, ???, (b, c)]");
    assert_eq!(set.max_anagram(), AnagramNum(2));
    assert!(set.contains_anagram(AnagramNum(0)));
    assert!(!set.contains_anagram(AnagramNum(1)));
    assert!(!set.contains_anagram(AnagramNum(9)));
    assert_eq!(set.anagram_to_string(AnagramNum(1)), "???");
    assert_eq!(set.anagram_to_string(AnagramNum(0)), "a");
    assert_eq!(AnagramSet::missing_symbol(), "???");
    let none: StrMap<bool> = StrMap::new();
    assert!(set.has_chord_conflict(&none));
    assert!(set.is_invalid(&none));
    let mut mods: StrMap<bool> = StrMap::new();
    mods.insert("b".to_string(), true);
    assert!(!set.has_chord_conflict(&mods));
    assert!(set.is_invalid(&mods));
    let _unused: AllData = Maps::new(chord_spec());
}

#[test]
fn a_registry_from_settings() {
    let p = |r: u8, c: u8| SwitchPos::new(Pin(r), Pin(c));
    let options = OptionsConfig {
        chord_delay: Delay(30),
        held_delay: Delay(200),
        debounce_delay: Delay(10),
        debug_messages: Verbosity::NoMessages,
        board_name: BoardName::TEENSY_LC,
        row_pins: vec![Pin(1), Pin(2)],
        column_pins: vec![Pin(10), Pin(20)],
        kmap_format: KmapFormat(vec![vec![p(1, 10), p(1, 20)], vec![p(2, 10), p(2, 20)]]),
        rgb_led_pins: None,
        battery_level_pin: None,
        word_space_position: WordSpacePosition::Before,
        output_directory: "out".to_string(),
        tutor_directory: "tutor".to_string(),
        enable_led_typing_feedback: false,
        enable_audio_typing_feedback: false,
    };
    let mut modes: StrMap<ModeInfo> = StrMap::new();
    modes.insert("default".to_string(), mode(&[("one.kmap", true)]));
    let mut plain_keys: StrMap<KeyPress> = StrMap::new();
    plain_keys.insert("key_a".to_string(), KeyPress::new_key("KEY_A"));
    plain_keys.insert("key_b".to_string(), KeyPress::new_key("KEY_B"));
    plain_keys.insert("key_enter".to_string(), KeyPress::new_key("KEY_ENTER"));
    let mut plain_modifiers: StrMap<KeyPress> = StrMap::new();
    plain_modifiers.insert("mod_ctrl".to_string(), KeyPress::new_mod("MODIFIERKEY_CTRL"));
    let settings = Settings {
        options,
        modes,
        plain_modifiers,
        plain_keys,
        macros: StrMap::new(),
        word_modifiers: vec![Name::new("mod_capital")],
        anagram_modifiers: vec![],
        commands: vec![Name::new("command_pause")],
        dictionary: vec![word("ab", None, None)],
    };
    let text = "key_a key_b\nX. .X\n.. ..\nkey_enter mod_ctrl\n.. ..\nX. .X\n";
    let files = vec![KmapFile { path: KmapPath::new("one.kmap"), text: text.to_string() }];
    let maps = Maps::load(&settings, &files).unwrap();
    let one = KmapPath::new("one.kmap");
    assert_eq!(maps.get_chords(&one).unwrap().len(), 5);
    assert_eq!(
        maps.get_chord(&Name::new("word_ab_0"), &one).unwrap().switches,
        vec![true, false, true, false, false, false, false, false]
    );
    assert_eq!(maps.plain_mods, vec![Name::new("mod_ctrl")]);
    assert_eq!(maps.options.len(), 17);
    assert_eq!(spelling_of(&KeyPress::new_key("KEY_A")), Some('a'));
    assert_eq!(spelling_of(&KeyPress::new_key("KEY_7")), Some('7'));
    assert_eq!(spelling_of(&KeyPress::new_key("KEY_SPACE")), Some(' '));
    assert_eq!(spelling_of(&KeyPress::new_key("KEY_ENTER")), None);
    assert_eq!(spelling_of(&KeyPress::new_mod("MODIFIERKEY_CTRL")), None);
    // A layout file that is missing stops the load, with the path in the
    // context.
    match Maps::load(&settings, &Vec::new()) {
        Err(e) => assert_eq!(
            e.message(),
            "failure to load chords: failure to load kmap: 'one.kmap': no entry for 'one.kmap' in kmap files"
        ),
        Ok(_) => panic!("expected an error"),
    }
}

#[test]
fn chords_are_added_in_place_of_those_with_their_names() {
    let mut maps = registry();
    let one = KmapPath::new("one.kmap");
    let mut more: StrMap<Chord> = StrMap::new();
    more.insert("key_x".to_string(), chord(&[4], 0));
    more.insert("key_a".to_string(), chord(&[3], 0));
    maps.add_chords(&one, &more).unwrap();
    assert_eq!(maps.get_chord(&Name::new("key_x"), &one), Some(chord(&[4], 0)));
    assert_eq!(maps.get_chord(&Name::new("key_a"), &one), Some(chord(&[3], 0)));
    assert_eq!(maps.get_chord(&Name::new("key_b"), &one), Some(chord(&[1], 0)));
    assert!(maps.add_chords(&KmapPath::new("nowhere"), &more).is_err());
    assert_eq!(maps.add_chords(&KmapPath::new("nowhere"), &StrMap::new()), Ok(()));
}

#[test]
fn presses_as_raw_bytes() {
    let press = KeyPress { key: Some(CCode::new("KEY_A")), mods: vec![CCode::new("M1"), CCode::new("M2")] };
    assert_eq!(press.as_bytes(true), vec!["KEY_A&0xff".to_string(), "(M1|M2)&0xff".to_string()]);
    assert_eq!(press.as_bytes(false), vec!["KEY_A&0xff".to_string()]);
    assert_eq!(KeyPress::new_key("KEY_B").as_bytes(true), vec!["KEY_B&0xff".to_string(), "(0)&0xff".to_string()]);
    let seq = Sequence(vec![KeyPress::new_key("KEY_B"), KeyPress::new_mod("M")]);
    assert_eq!(
        seq.to_raw_bytes(false),
        vec!["KEY_B&0xff".to_string(), "0&0xff".to_string()]
    );
    assert_eq!(seq.to_bytes(None, false), Ok(seq.to_raw_bytes(false)));
    assert_eq!(seq.lone_keypress().is_err(), true);
    assert_eq!(seq.keypresses().len(), 2);
}

fn small_settings() -> Settings {
    let p = |r: u8, c: u8| SwitchPos::new(Pin(r), Pin(c));
    let options = OptionsConfig {
        chord_delay: Delay(30),
        held_delay: Delay(200),
        debounce_delay: Delay(10),
        debug_messages: Verbosity::NoMessages,
        board_name: BoardName::TEENSY_LC,
        row_pins: vec![Pin(1)],
        column_pins: vec![Pin(10), Pin(20)],
        kmap_format: KmapFormat(vec![vec![p(1, 10), p(1, 20)]]),
        rgb_led_pins: None,
        battery_level_pin: None,
        word_space_position: WordSpacePosition::Before,
        output_directory: "out".to_string(),
        tutor_directory: "tutor".to_string(),
        enable_led_typing_feedback: false,
        enable_audio_typing_feedback: false,
    };
    let mut modes: StrMap<ModeInfo> = StrMap::new();
    modes.insert("b_mode".to_string(), mode(&[("z.kmap", false), ("a.kmap", true)]));
    modes.insert("a_mode".to_string(), mode(&[("z.kmap", true)]));
    Settings {
        options,
        modes,
        plain_modifiers: StrMap::new(),
        plain_keys: StrMap::new(),
        macros: StrMap::new(),
        word_modifiers: vec![],
        anagram_modifiers: vec![],
        commands: vec![],
        dictionary: vec![],
    }
}

fn file(path: &str, text: &str) -> KmapFile {
    KmapFile { path: KmapPath::new(path), text: text.to_string() }
}

#[test]
fn loading_stops_at_the_first_layout_that_cannot_be_read() {
    let settings = small_settings();
    let good = "key_a\nX.\n";
    let bad = "key_a\nX..\n";
    let maps = Maps::load(&settings, &vec![file("z.kmap", good), file("a.kmap", good)]).unwrap();
    assert_eq!(maps.get_kmap_paths(), vec![KmapPath::new("a.kmap"), KmapPath::new("z.kmap")]);
    // Layouts get their short names in the order in which the modes, in
    // the order of their names, list them.
    assert_eq!(maps.kmap_ids.get("z.kmap"), Some(&"kmap0".to_string()));
    assert_eq!(maps.kmap_ids.get("a.kmap"), Some(&"kmap1".to_string()));
    // The layouts are read in the order of their paths.
    let e = Maps::load(&settings, &vec![file("z.kmap", bad), file("a.kmap", bad)]).unwrap_err();
    assert_eq!(
        e.message(),
        "failure to load chords: failure to load kmap: 'a.kmap': syntax error in kmap file near line 2"
    );
    let e = Maps::load(&settings, &vec![file("a.kmap", good)]).unwrap_err();
    assert_eq!(
        e.message(),
        "failure to load chords: failure to load kmap: 'z.kmap': no entry for 'z.kmap' in kmap files"
    );
    // Of two files with one path the first is read.
    assert!(Maps::load(&settings, &vec![file("z.kmap", good), file("a.kmap", good), file("a.kmap", bad)])
        .is_ok());
}

#[test]
fn loading_rejects_a_layout_that_the_pins_do_not_give() {
    let mut settings = small_settings();
    settings.options.kmap_format = KmapFormat(vec![vec![SwitchPos::new(Pin(1), Pin(10))]]);
    let e = Maps::load(&settings, &Vec::new()).unwrap_err();
    assert_eq!(
        e.message(),
        "failure to load options: 'kmap_format' contains pin numbers not present in 'row_pins' or 'column_pins': layout and switch matrix do not match one to one"
    );
}

#[test]
fn loading_rejects_a_command_that_is_listed_twice() {
    let mut settings = small_settings();
    settings.commands = vec![Name::new("c1"), Name::new("c2"), Name::new("c1")];
    let good = "key_a\nX.\n";
    let e = Maps::load(&settings, &vec![file("z.kmap", good), file("a.kmap", good)]).unwrap_err();
    assert_eq!(e.message(), "failure to load commands: commands map already contains key: c1");
}

#[test]
fn loading_rejects_a_word_that_cannot_be_built() {
    let mut settings = small_settings();
    settings.dictionary = vec![word("hi", None, None)];
    let good = "key_a\nX.\n";
    let e = Maps::load(&settings, &vec![file("z.kmap", good), file("a.kmap", good)]).unwrap_err();
    assert_eq!(
        e.message(),
        "failure to load dictionary: Failed to make chord for: 'hi': no entry for 'h' in spellings"
    );
}

#[test]
fn words_are_added_to_each_layout_for_words() {
    let mut settings = small_settings();
    settings.plain_keys.insert("key_a".to_string(), KeyPress::new_key("KEY_A"));
    settings.plain_keys.insert("key_b".to_string(), KeyPress::new_key("KEY_B"));
    settings.dictionary = vec![word("ab", None, None), word("a", Some(3), None)];
    let z = "key_a key_b\nX. .X\n";
    let a = "key_a key_b\n.X X.\n";
    let maps = Maps::load(&settings, &vec![file("z.kmap", z), file("a.kmap", a)]).unwrap();
    // Both layouts are for words in one of the modes, and each word has the
    // chord of its letters as that layout has them.
    assert_eq!(
        maps.get_kmaps_with_words(),
        vec![KmapPath::new("z.kmap"), KmapPath::new("a.kmap")]
    );
    let on = |name: &str, path: &str| {
        maps.get_chord(&Name::new(name), &KmapPath::new(path)).unwrap()
    };
    assert_eq!(on("word_ab_0", "z.kmap").switches[..2], [true, true]);
    assert_eq!(on("word_a_3", "z.kmap").switches[..2], [true, false]);
    assert_eq!(on("word_a_3", "a.kmap").switches[..2], [false, true]);
    assert_eq!(on("word_a_3", "a.kmap").anagram_num, AnagramNum(3));
    assert_eq!(maps.max_anagram_num, 3);
    assert_eq!(maps.get_sequence(&Name::new("word_ab_0")).unwrap().len(), 2);
}

#[test]
fn of_two_keys_that_type_a_letter_the_later_name_spells_it() {
    let mut settings = small_settings();
    settings.plain_keys.insert("key_a".to_string(), KeyPress::new_key("KEY_A"));
    settings.plain_keys.insert("other_a".to_string(), KeyPress::new_key("KEY_A"));
    let text = "key_a other_a\nX. .X\n";
    let files = vec![file("z.kmap", text), file("a.kmap", text)];
    let maps = Maps::load(&settings, &files).unwrap();
    assert_eq!(maps.name_from_spelling("a").unwrap(), Name::new("other_a"));
    settings.dictionary = vec![word("a", None, None)];
    let maps = Maps::load(&settings, &files).unwrap();
    let found = maps.get_chord(&Name::new("word_a_0"), &KmapPath::new("z.kmap")).unwrap();
    assert_eq!(found.switches[..2], [false, true]);
}

#[test]
fn a_word_that_fails_on_a_later_layout_stops_the_load() {
    let mut settings = small_settings();
    settings.plain_keys.insert("key_a".to_string(), KeyPress::new_key("KEY_A"));
    settings.dictionary = vec![word("a", None, None)];
    let with = "key_a\nX.\n";
    let without = "key_q\nX.\n";
    let e = Maps::load(&settings, &vec![file("z.kmap", with), file("a.kmap", without)]).unwrap_err();
    assert_eq!(
        e.message(),
        "failure to load dictionary: Failed to make chord for: 'a': no entry for 'key_a' in chords"
    );
}

#[test]
fn commands_before_a_repeated_one_stay_registered() {
    let mut maps = Maps::new(chord_spec());
    let names = vec![
        Name::new("command_pause"),
        Name::new("command_left"),
        Name::new("command_pause"),
        Name::new("command_right"),
    ];
    let e = maps.load_commands(&names).unwrap_err();
    assert_eq!(e.message(), "commands map already contains key: command_pause");
    assert_eq!(maps.commands, vec![Name::new("command_pause"), Name::new("command_left")]);
    assert!(maps.get_sequences(&SeqType::Command).contains_key("command_left"));
    assert!(!maps.get_sequences(&SeqType::Command).contains_key("command_right"));
}

#[test]
fn modes_before_a_known_one_stay_registered() {
    let mut maps = Maps::new(chord_spec());
    maps.add_mode(ModeName::new("game"), mode(&[("g.kmap", false)])).unwrap();
    let mut modes: StrMap<ModeInfo> = StrMap::new();
    modes.insert("default".to_string(), mode(&[("d.kmap", true)]));
    modes.insert("game".to_string(), mode(&[("other.kmap", true)]));
    modes.insert("zebra".to_string(), mode(&[("z.kmap", true)]));
    let e = maps.load_modes(&modes).unwrap_err();
    assert_eq!(e.message(), "modes already contains key: game");
    assert!(maps.modes.contains_key("default"));
    assert!(!maps.modes.contains_key("zebra"));
    assert_eq!(maps.kmap_ids.get("g.kmap"), Some(&"kmap0".to_string()));
    assert_eq!(maps.kmap_ids.get("d.kmap"), Some(&"kmap1".to_string()));
    assert_eq!(maps.kmap_ids.get("other.kmap"), None);
}
