use pipit_config::tutor::copier::{is_as_expected, Copier};
use pipit_config::tutor::tutor_util::{
    Label, LabeledChord, PrevCharStatus, SlideLine, SlideWord, State, TutorData,
};
use pipit_config::{AnagramNum, Chord, Error, Name, StrMap};

fn switches(pressed: &[usize]) -> Chord {
    let mut switches = vec![false; 8];
    for p in pressed {
        switches[*p] = true;
    }
    Chord { switches, anagram_num: AnagramNum(0) }
}

fn pupil() -> State {
    let mut layout: StrMap<Chord> = StrMap::new();
    layout.insert("key_a".to_string(), switches(&[0]));
    layout.insert("key_b".to_string(), switches(&[1]));
    layout.insert("mod_shift".to_string(), switches(&[7]));
    let mut chords: StrMap<StrMap<Chord>> = StrMap::new();
    chords.insert("default".to_string(), layout);
    let mut spellings: StrMap<Name> = StrMap::new();
    spellings.insert("a".to_string(), Name::new("key_a"));
    spellings.insert("b".to_string(), Name::new("key_b"));
    let mut state = State::new();
    state.set_tutor_data(TutorData { chords, spellings });
    assert!(state.set_mode("default"));
    state
}

fn two_words() -> SlideLine {
    let words = vec![
        SlideWord {
            names: vec![Name::new("key_a"), Name::new("key_b")],
            text: "ab".to_string(),
            length_override: None,
        },
        SlideWord { names: vec![Name::new("key_b")], text: " b".to_string(), length_override: Some(1) },
    ];
    SlideLine::Words { words, show_errors: false }
}

#[test]
fn a_copier_before_its_first_line() {
    let copier = Copier::new(7);
    assert_eq!(copier.size(), (7, 3));
    assert_eq!(copier.point_marker(), "▼");
    assert_eq!(copier.extra_spaces(), 4);
    assert_eq!(copier.expected_chars(), 0);
    assert_eq!(copier.wrong_chars(), 0);
    assert!(copier.at_end_of_line());
    assert_eq!(Copier::new(0).extra_spaces(), 0);
    assert_eq!(Copier::new(4).extra_spaces(), 2);
    // Nothing is typed, so nothing stands before the point.
    match copier.last_wrong_char(&pupil()) {
        Err(Error::BadValue { thing, value }) => {
            assert_eq!(thing, "character offset");
            assert_eq!(value, "3");
        },
        other => panic!("expected a bad offset, got {:?}", other),
    }
}

#[test]
fn letters_are_copied_one_by_one() {
    let state = pupil();
    let mut copier = Copier::new(4);
    copier.start_line(&SlideLine::Letters("ab".to_string()), &state).unwrap();
    assert_eq!(copier.expected_chars(), 4);
    assert!(!copier.at_end_of_line());
    // The blanks before the line count as typed correctly.
    assert_eq!(copier.last_wrong_char(&state), Ok(PrevCharStatus::Correct));
    let a = LabeledChord { chord: switches(&[0]), label: Label::from_char("a") };
    assert_eq!(copier.next_hint(&state), Ok(Some(a)));
    copier.type_char('a');
    assert_eq!(copier.last_wrong_char(&state), Ok(PrevCharStatus::Correct));
    copier.type_char('x');
    assert_eq!(copier.last_wrong_char(&state), Ok(PrevCharStatus::Incorrect(None)));
    assert_eq!(copier.wrong_chars(), 1);
    assert!(copier.at_end_of_line());
    copier.type_backspace();
    assert!(!copier.at_end_of_line());
    assert_eq!(copier.wrong_chars(), 0);
    let b = LabeledChord { chord: switches(&[1]), label: Label::from_char("b") };
    assert_eq!(copier.next_hint(&state), Ok(Some(b)));
    copier.type_char('B');
    let capital = LabeledChord { chord: switches(&[1, 7]), label: Label::from_char("B") };
    assert_eq!(copier.last_wrong_char(&state), Ok(PrevCharStatus::Incorrect(Some(capital))));
    // At the end of the line the hint is that of the new line, which has
    // no chord here.
    assert_eq!(copier.next_hint(&state), Ok(None));
}

#[test]
fn a_backspace_at_the_start_changes_nothing() {
    let state = pupil();
    let mut copier = Copier::new(4);
    copier.start_line(&SlideLine::Letters("ab".to_string()), &state).unwrap();
    copier.type_backspace();
    assert_eq!(copier.expected_chars(), 4);
    assert!(!copier.at_end_of_line());
    copier.type_char('a');
    copier.type_char('b');
    assert!(copier.at_end_of_line());
}

#[test]
fn words_have_their_hints_where_they_begin() {
    let state = pupil();
    let mut copier = Copier::new(6);
    copier.start_line(&two_words(), &state).unwrap();
    assert_eq!(copier.extra_spaces(), 3);
    assert_eq!(copier.expected_chars(), 7);
    let first = LabeledChord { chord: switches(&[0, 1]), label: Label(String::new()) };
    assert_eq!(copier.next_hint(&state), Ok(Some(first)));
    copier.type_char('a');
    // A word of the line has a length of its own, so no letter within a
    // word has a hint.
    assert_eq!(copier.next_hint(&state), Ok(None));
    // Wrong characters are not shown on this line.
    copier.type_char('x');
    assert_eq!(copier.last_wrong_char(&state), Ok(PrevCharStatus::Correct));
    let second = LabeledChord { chord: switches(&[1]), label: Label(String::new()) };
    assert_eq!(copier.next_hint(&state), Ok(Some(second)));
}

#[test]
fn a_line_with_a_word_without_a_chord_is_not_started() {
    let state = pupil();
    let mut copier = Copier::new(6);
    copier.start_line(&SlideLine::Letters("ab".to_string()), &state).unwrap();
    let unknown = SlideLine::Words {
        words: vec![SlideWord {
            names: vec![Name::new("key_q")],
            text: "q".to_string(),
            length_override: None,
        }],
        show_errors: true,
    };
    assert!(copier.start_line(&unknown, &state).is_err());
    assert_eq!(copier.expected_chars(), 5);
    assert!(matches!(copier.try_start_line(&unknown, &state), Some(Err(_))));
    assert_eq!(copier.try_start_line(&two_words(), &state), Some(Ok(())));
    assert_eq!(copier.expected_chars(), 7);
}

#[test]
fn positions_beyond_counting_are_refused() {
    let state = pupil();
    let mut copier = Copier::new(6);
    let long = |n: usize| SlideWord {
        names: vec![Name::new("key_a")],
        text: "a".to_string(),
        length_override: Some(n),
    };
    let line = SlideLine::Words { words: vec![long(usize::MAX), long(1)], show_errors: true };
    assert_eq!(copier.try_start_line(&line, &state), None);
    assert_eq!(copier.expected_chars(), 0);
    let fits = SlideLine::Words { words: vec![long(usize::MAX - 1), long(1)], show_errors: true };
    assert_eq!(copier.try_start_line(&fits, &state), Some(Ok(())));
}

#[test]
fn a_line_too_narrow_for_its_point_has_no_hint_to_try() {
    let state = pupil();
    let mut copier = Copier::new(1);
    copier.start_line(&SlideLine::Letters("ab".to_string()), &state).unwrap();
    assert_eq!(copier.try_next_hint(&state), None);
    let mut wide = Copier::new(4);
    wide.start_line(&SlideLine::Letters("ab".to_string()), &state).unwrap();
    let a = LabeledChord { chord: switches(&[0]), label: Label::from_char("a") };
    assert_eq!(wide.try_next_hint(&state), Some(Ok(Some(a))));
}

#[test]
fn what_is_shown_of_a_line() {
    let state = pupil();
    let mut copier = Copier::new(3);
    copier.start_line(&SlideLine::Letters("abcdef".to_string()), &state).unwrap();
    let texts = |parts: Vec<String>| parts.join("|");
    assert_eq!(copier.extra_spaces(), 2);
    assert_eq!(texts(copier.expected_shown()), " | |a");
    assert_eq!(texts(copier.actual_shown()), " | ");
    copier.type_char('a');
    copier.type_char('x');
    // What is typed leaves the line; as many more graphemes are shown as
    // the line is wide.
    assert_eq!(texts(copier.expected_shown()), "a|b|c|d|e");
    assert_eq!(texts(copier.actual_shown()), "a|x");
    assert_eq!(copier.text_padding(), (0, 0));
    assert!(is_as_expected("a", Some(&"a".to_string())));
    assert!(!is_as_expected("x", Some(&"b".to_string())));
    assert!(!is_as_expected("x", None));
}
