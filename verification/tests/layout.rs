use pipit_config::load::deserialize::round_up_to_num_bytes;
use pipit_config::{
    BoardName, Chord, Delay, Error, KmapFormat, KmapParser, OptionsConfig, Permutation, Pin,
    SwitchPos, Verbosity, WordSpacePosition,
};

fn pos(row: u8, col: u8) -> SwitchPos {
    SwitchPos::new(Pin(row), Pin(col))
}

fn options(rows: Vec<u8>, columns: Vec<u8>, format: Vec<Vec<SwitchPos>>) -> OptionsConfig {
    OptionsConfig {
        chord_delay: Delay(30),
        held_delay: Delay(200),
        debounce_delay: Delay(10),
        debug_messages: Verbosity::NoMessages,
        board_name: BoardName::TEENSY_LC,
        row_pins: rows.into_iter().map(Pin).collect(),
        column_pins: columns.into_iter().map(Pin).collect(),
        kmap_format: KmapFormat(format),
        rgb_led_pins: None,
        battery_level_pin: None,
        word_space_position: WordSpacePosition::Before,
        output_directory: "out".to_string(),
        tutor_directory: "tutor".to_string(),
        enable_led_typing_feedback: false,
        enable_audio_typing_feedback: false,
    }
}

/// Two rows and two columns; the layout file lists the switches row by row.
fn two_by_two() -> OptionsConfig {
    options(
        vec![1, 2],
        vec![10, 20],
        vec![vec![pos(1, 10), pos(1, 20)], vec![pos(2, 10), pos(2, 20)]],
    )
}

#[test]
fn bytes_are_bits_over_eight_rounded_up() {
    assert_eq!(round_up_to_num_bytes(0), 0);
    assert_eq!(round_up_to_num_bytes(1), 1);
    assert_eq!(round_up_to_num_bytes(8), 1);
    assert_eq!(round_up_to_num_bytes(9), 2);
    assert_eq!(round_up_to_num_bytes(16), 2);
    assert_eq!(round_up_to_num_bytes(17), 3);
    assert_eq!(round_up_to_num_bytes(usize::MAX), usize::MAX / 8 + 1);
}

#[test]
fn chord_bytes_follow_the_matrix() {
    let ops = options(vec![1, 2, 3], vec![4, 5, 6], vec![]);
    assert_eq!(ops.num_rows(), 3);
    assert_eq!(ops.num_columns(), 3);
    assert_eq!(ops.num_matrix_positions(), 9);
    assert_eq!(ops.num_bytes_in_chord(), 2);
}

#[test]
fn firmware_order_goes_down_each_column() {
    let ops = two_by_two();
    assert_eq!(
        ops.firmware_order(),
        vec![pos(1, 10), pos(2, 10), pos(1, 20), pos(2, 20)]
    );
}

#[test]
fn permutation_takes_layout_order_to_firmware_order() {
    let ops = two_by_two();
    let p = Permutation::from_to(&ops.kmap_format.flat_order(), &ops.firmware_order()).unwrap();
    assert_eq!(p.len(), 4);
    // Layout order is (1,10) (1,20) (2,10) (2,20); firmware order is
    // (1,10) (2,10) (1,20) (2,20).
    assert_eq!(p.target(0), 0);
    assert_eq!(p.target(1), 2);
    assert_eq!(p.target(2), 1);
    assert_eq!(p.target(3), 3);
    let moved = p.permute(&vec![true, true, false, false]);
    assert_eq!(moved, vec![true, false, true, false]);
}

#[test]
fn permutation_round_trip() {
    let from = vec![pos(0, 2), pos(0, 0), pos(0, 1), pos(0, 3), pos(0, 4)];
    let to = vec![pos(0, 0), pos(0, 1), pos(0, 2), pos(0, 3), pos(0, 4)];
    let p = Permutation::from_to(&from, &to).unwrap();
    let inv = p.inverse();
    for i in 0..5 {
        assert_eq!(inv.target(p.target(i)), i);
        assert_eq!(p.source(p.target(i)), i);
        assert_eq!(p.target(inv.target(i)), i);
    }
    let bits = vec![true, false, false, true, true];
    assert_eq!(inv.permute(&p.permute(&bits)), bits);
}

#[test]
fn permutation_names_the_unknown_switch() {
    let from = vec![pos(1, 10), pos(9, 10)];
    let to = vec![pos(1, 10), pos(2, 10)];
    assert_eq!(
        Permutation::from_to(&from, &to),
        Err(Error::UnknownSwitch { row: 9, column: 10 })
    );
}

#[test]
fn permutation_rejects_a_switch_listed_twice() {
    let from = vec![pos(1, 10), pos(1, 10)];
    let to = vec![pos(1, 10), pos(2, 10)];
    assert_eq!(Permutation::from_to(&from, &to), Err(Error::NotPermutation));
}

#[test]
fn permutation_rejects_a_layout_that_leaves_switches_out() {
    let from = vec![pos(1, 10)];
    let to = vec![pos(1, 10), pos(2, 10)];
    assert_eq!(Permutation::from_to(&from, &to), Err(Error::NotPermutation));
}

#[test]
fn global_chord_info_wraps_the_error_in_its_context() {
    let ops = options(vec![1], vec![10], vec![vec![pos(7, 7)]]);
    match ops.global_chord_info() {
        Err(Error::Context { message, cause }) => {
            assert_eq!(
                message,
                "'kmap_format' contains pin numbers not present in 'row_pins' or 'column_pins'"
            );
            assert_eq!(*cause, Error::UnknownSwitch { row: 7, column: 7 });
        }
        other => panic!("unexpected: {:?}", other),
    }
}

#[test]
fn global_chord_info_counts() {
    let info = two_by_two().global_chord_info().unwrap();
    assert_eq!(info.num_bytes, 1);
    assert_eq!(info.num_switches, 4);
    assert_eq!(info.num_matrix_positions, 4);
}

#[test]
fn layout_block_of_two_names() {
    let parser = KmapParser::new(&two_by_two()).unwrap();
    let chords = parser.parse("A B\n.X.X\nX..X\n").unwrap();
    assert_eq!(chords.len(), 2);
    assert_eq!(chords.key_at(0), "A");
    assert_eq!(chords.key_at(1), "B");
    // Block A is ".X" over "X.": in layout order [f, t, t, f]. Firmware
    // order is column by column: (1,10) (2,10) (1,20) (2,20).
    assert_eq!(
        chords.get("A").unwrap().switches,
        vec![false, true, true, false, false, false, false, false]
    );
    // Block B is ".X" over ".X": in layout order [f, t, f, t].
    assert_eq!(
        chords.get("B").unwrap().switches,
        vec![false, false, true, true, false, false, false, false]
    );
    assert_eq!(chords.get("A").unwrap().anagram_num.0, 0);
    let pairs = parser.parse_pairs("A B\n.X.X\nX..X\n").unwrap();
    assert_eq!(pairs.len(), 2);
    assert_eq!(pairs[0].name.0, "A");
    assert_eq!(&pairs[1].chord, chords.get("B").unwrap());
}

#[test]
fn layout_skips_comments_and_blank_lines() {
    let parser = KmapParser::new(&two_by_two()).unwrap();
    let text = "# a comment\n\n  key_a  \n   # another\n X.\n\n ..\nkey_b\n..\n.Q\n";
    let chords = parser.parse_pairs(text).unwrap();
    assert_eq!(chords.len(), 2);
    assert_eq!(chords[0].name.0, "key_a");
    assert_eq!(
        chords[0].chord.switches,
        vec![true, false, false, false, false, false, false, false]
    );
    assert_eq!(chords[1].name.0, "key_b");
    assert_eq!(
        chords[1].chord.switches,
        vec![false, false, false, true, false, false, false, false]
    );
}

#[test]
fn layout_rows_may_be_written_with_spaces() {
    let parser = KmapParser::new(&two_by_two()).unwrap();
    let chords = parser.parse("A B\n.X  .X\nX.\t.X\n").unwrap();
    assert_eq!(chords.len(), 2);
    assert_eq!(
        chords.get("B").unwrap().switches,
        vec![false, false, true, true, false, false, false, false]
    );
}

#[test]
fn layout_row_of_wrong_width_is_a_syntax_error_at_its_line() {
    let parser = KmapParser::new(&two_by_two()).unwrap();
    assert_eq!(
        parser.parse("A B\n.X.X\nX..\n"),
        Err(Error::Syntax { line: 3 })
    );
    assert_eq!(
        parser.parse_pairs("# heading\nA\n...\n..\n"),
        Err(Error::Syntax { line: 3 })
    );
}

#[test]
fn layout_section_that_ends_early_is_a_syntax_error_at_its_last_line() {
    let parser = KmapParser::new(&two_by_two()).unwrap();
    assert_eq!(
        parser.parse("A\n..\n..\nB\n..\n"),
        Err(Error::Syntax { line: 5 })
    );
}

#[test]
fn empty_layout_has_no_chords() {
    let parser = KmapParser::new(&two_by_two()).unwrap();
    assert_eq!(parser.parse("").unwrap().len(), 0);
    assert_eq!(parser.parse_pairs("\n# nothing\n\n").unwrap().len(), 0);
}

#[test]
fn of_two_blocks_with_one_name_the_last_stays() {
    let parser = KmapParser::new(&two_by_two()).unwrap();
    let text = "A B\nX. ..\n.. ..\nA\n..\n.X\n";
    assert_eq!(parser.parse_pairs(text).unwrap().len(), 3);
    let chords = parser.parse(text).unwrap();
    assert_eq!(chords.len(), 2);
    assert_eq!(
        chords.get("A").unwrap().switches,
        vec![false, false, false, true, false, false, false, false]
    );
}

#[test]
fn chords_pressed_together() {
    let mut a = Chord::from_vec(vec![true, false, false, false]);
    let b = Chord::from_vec(vec![false, false, true, false]);
    a.intersect(&b);
    assert_eq!(a.switches, vec![true, false, true, false]);
    assert!(!a.is_empty());
    assert!(Chord::new(8).is_empty());
    assert_eq!(Chord::new(8).len(), 8);
    assert!(a.base_eq(&Chord::from_vec(vec![true, false, true, false])));
    assert!(!a.base_eq(&b));
}
