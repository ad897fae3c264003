use pipit_config::tutor::tutor_util::{
    backspace_chord, char_to_chord, grapheme_slice, lesson_path_to_name, offset, return_true, Label, LabeledChord, LearnState, PrevCharStatus,
    SlideEntry, SlideLine, SlideWord, State, TutorData,
};
use pipit_config::{AnagramNum, Chord, ModeName, Name, StrMap};

fn chord(pressed: &[usize]) -> Chord {
    let mut switches = vec![false; 8];
    for p in pressed {
        switches[*p] = true;
    }
    Chord { switches, anagram_num: AnagramNum(0) }
}

fn data() -> TutorData {
    let mut layout: StrMap<Chord> = StrMap::new();
    layout.insert("key_a".to_string(), chord(&[0]));
    let mut chords: StrMap<StrMap<Chord>> = StrMap::new();
    chords.insert("default".to_string(), layout);
    let mut spellings: StrMap<Name> = StrMap::new();
    spellings.insert("a".to_string(), Name::new("key_a"));
    TutorData { chords, spellings }
}

#[test]
fn chords_of_the_tutor() {
    let d = data();
    let default = ModeName::new("default");
    assert_eq!(d.chord(&Name::new("key_a"), &default), Some(chord(&[0])));
    assert_eq!(d.chord(&Name::new("key_b"), &default), None);
    assert_eq!(d.chord(&Name::new("key_a"), &ModeName::new("other")), None);
    assert_eq!(d.chord(&Name::new(""), &default), Some(Chord::new(0)));
}

#[test]
fn a_session() {
    let mut state = State::new();
    assert_eq!(state.initial_learn_state(), 10);
    state.set_tutor_data(data());
    state.mode = ModeName::new("default");
    assert_eq!(state.mode_list(), vec!["default".to_string()]);
    assert_eq!(state.chord(&Name::new("key_a")), Some(chord(&[0])));
    assert_eq!(state.name("a"), Some(Name::new("key_a")));
    assert_eq!(state.name("b"), None);
    assert_eq!(state.is_learned("a"), None);
}

#[test]
fn learning() {
    let mut s = LearnState(1);
    assert!(!s.is_learned());
    s.update(true);
    assert!(s.is_learned());
    s.update(true);
    assert_eq!(s, LearnState(0));
    s.update(false);
    assert_eq!(s, LearnState(1));
    s.reset(5);
    assert_eq!(s, LearnState(5));
}

#[test]
fn status_of_the_last_character() {
    let wrong = LabeledChord { chord: chord(&[1]), label: Label("x".to_string()) };
    let status = PrevCharStatus::Incorrect(Some(wrong.clone()));
    assert!(!status.is_correct());
    assert_eq!(status.error(), Some(wrong));
    assert_eq!(
        status.backspace(Some(chord(&[7]))),
        Some(LabeledChord { chord: chord(&[7]), label: Label("bak".to_string()) })
    );
    assert_eq!(status.backspace(None), None);
    assert!(PrevCharStatus::Correct.is_correct());
    assert_eq!(PrevCharStatus::Correct.error(), None);
    assert_eq!(PrevCharStatus::Correct.backspace(Some(chord(&[7]))), None);
    assert_eq!(PrevCharStatus::Incorrect(None).error(), None);
}

#[test]
fn lines_of_a_slide() {
    let letters = SlideLine::Letters("abc".to_string());
    assert!(letters.show_errors());
    assert!(!letters.has_length_overrides());
    let word = |length_override| SlideWord {
        names: vec![Name::new("key_a")],
        text: "a".to_string(),
        length_override,
    };
    let plain = SlideLine::Words { words: vec![word(None), word(None)], show_errors: false };
    assert!(!plain.show_errors());
    assert!(!plain.has_length_overrides());
    let fixed = SlideLine::Words { words: vec![word(None), word(Some(3))], show_errors: true };
    assert!(fixed.show_errors());
    assert!(fixed.has_length_overrides());
    assert!(return_true());
}

#[test]
fn labels() {
    assert_eq!(Label::from_char("\n"), Label("ret".to_string()));
    assert_eq!(Label::from_char("\t"), Label("tab".to_string()));
    assert_eq!(Label::from_char(" "), Label("spc".to_string()));
    assert_eq!(Label::from_char("q"), Label("q".to_string()));
    assert_eq!(Label("e\u{301}x".to_string()).len(), 2);
    assert_eq!(Label("ab".to_string()).pad(5), " ab    ");
    assert_eq!(Label("ab".to_string()).pad(2), "ab  ");
    assert_eq!(Label("ab".to_string()).try_pad(4), Some(" ab   ".to_string()));
    assert_eq!(Label("abc".to_string()).try_pad(2), None);
    let entry = SlideEntry { text: " ".to_string(), chord: chord(&[2]), length: 1 };
    assert_eq!(entry.len(), 1);
    assert_eq!(entry.label(), Label("spc".to_string()));
    assert_eq!(
        entry.to_labeled_chord(),
        LabeledChord { chord: chord(&[2]), label: Label("spc".to_string()) }
    );
    let long = SlideEntry { text: "the".to_string(), chord: chord(&[2]), length: 3 };
    assert_eq!(long.label(), Label(String::new()));
}

#[test]
fn widths() {
    assert_eq!(offset(3, 3), 0);
    assert_eq!(offset(3, 4), 1);
    assert_eq!(offset(3, 7), 2);
    assert_eq!(offset(0, 9), 5);
}

#[test]
fn slices_of_graphemes() {
    assert_eq!(grapheme_slice("abcdef", 1, 3), vec!["b", "c", "d"]);
    assert_eq!(grapheme_slice("abc", 2, 5), vec!["c"]);
    assert_eq!(grapheme_slice("abc", 5, 2), Vec::<String>::new());
    assert_eq!(grapheme_slice("ae\u{301}o", 1, 1), vec!["e\u{301}"]);
    assert_eq!(grapheme_slice("abc", 0, 0), Vec::<String>::new());
}

#[test]
fn names_of_lessons() {
    assert_eq!(lesson_path_to_name("01_home_row"), "01) home row");
    assert_eq!(lesson_path_to_name("7"), "7) ");
    assert_eq!(lesson_path_to_name("3_"), "3) ");
    assert_eq!(lesson_path_to_name(""), ") ");
    assert_eq!(lesson_path_to_name("_a__b"), ") a  b");
}

fn session() -> State {
    let mut layout: StrMap<Chord> = StrMap::new();
    layout.insert("key_a".to_string(), chord(&[0]));
    layout.insert("key_b".to_string(), chord(&[1]));
    layout.insert("mod_shift".to_string(), chord(&[7]));
    layout.insert("key_backspace".to_string(), chord(&[6]));
    let mut chords: StrMap<StrMap<Chord>> = StrMap::new();
    chords.insert("default".to_string(), layout);
    chords.insert("other".to_string(), StrMap::new());
    let mut spellings: StrMap<Name> = StrMap::new();
    spellings.insert("a".to_string(), Name::new("key_a"));
    spellings.insert("b".to_string(), Name::new("key_b"));
    let mut state = State::new();
    state.set_tutor_data(TutorData { chords, spellings });
    assert!(state.set_mode("default"));
    state
}

#[test]
fn chords_of_characters() {
    let state = session();
    assert_eq!(char_to_chord("a", &state), Some(chord(&[0])));
    assert_eq!(char_to_chord("B", &state), Some(chord(&[1, 7])));
    assert_eq!(char_to_chord("c", &state), None);
    assert_eq!(backspace_chord(&state), Some(chord(&[6])));
    assert_eq!(
        LabeledChord::from_letter("A", &state),
        Some(LabeledChord { chord: chord(&[0, 7]), label: Label("A".to_string()) })
    );
    assert_eq!(LabeledChord::from_letter("?", &state), None);
}

#[test]
fn entries_of_a_line() {
    let state = session();
    let words = vec![
        SlideWord {
            names: vec![Name::new("key_a"), Name::new("key_b"), Name::new("")],
            text: "ab".to_string(),
            length_override: None,
        },
        SlideWord { names: vec![Name::new("key_b")], text: " b".to_string(), length_override: Some(1) },
    ];
    let line = SlideLine::Words { words, show_errors: true };
    let (entries, text) = line.to_entries(&state).unwrap();
    assert_eq!(text, "ab b");
    assert_eq!(entries.len(), 2);
    assert_eq!(entries[0].chord, chord(&[0, 1]));
    assert_eq!(entries[0].length, 2);
    assert_eq!(entries[1].length, 1);
    let letters = SlideLine::Letters("xyz".to_string());
    assert_eq!(letters.to_entries(&state), Ok((Vec::new(), "xyz".to_string())));
    let unknown = SlideLine::Words {
        words: vec![SlideWord { names: vec![Name::new("key_q")], text: "q".to_string(), length_override: None }],
        show_errors: true,
    };
    assert!(unknown.to_entries(&state).is_err());
    assert_eq!(state.chord_of_names(&vec![]), Some(Chord::new(0)));
}

#[test]
fn modes_and_progress() {
    let mut state = session();
    state.update_learn_state("a".to_string(), false);
    assert_eq!(state.is_learned("a"), Some(false));
    assert_eq!(state.learning_map.get("a"), Some(&LearnState(11)));
    state.set_initial_learn_state(1);
    assert_eq!(state.learning_map.get("a"), Some(&LearnState(1)));
    state.update_learn_state("a".to_string(), true);
    assert_eq!(state.is_learned("a"), Some(true));
    state.update_learn_state("b".to_string(), true);
    assert_eq!(state.is_learned("b"), Some(true));
    assert!(!state.set_mode("nowhere"));
    assert_eq!(state.mode, ModeName::new("default"));
    assert!(state.set_mode("other"));
    assert_eq!(state.mode, ModeName::new("other"));
    assert_eq!(state.is_learned("a"), Some(false));
    assert_eq!(char_to_chord("a", &state), None);
}
