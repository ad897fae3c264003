use bit_vec::BitVec;
use pipit_config::output::codec::press_bits;
use pipit_config::types::huffman::{count, make_tree, HuffmanNode};
use pipit_config::{CCode, Error, HuffmanTable, KeyPress, Sequence};

fn key(code: &str) -> KeyPress {
    KeyPress::new_key(code)
}

fn with_mods(code: Option<&str>, mods: &[&str]) -> KeyPress {
    KeyPress {
        key: code.map(CCode::new),
        mods: mods.iter().map(|m| CCode::new(m)).collect(),
    }
}

/// KEY_A three times, KEY_B twice, KEY_C once, shift once with KEY_A.
fn presses() -> Vec<KeyPress> {
    vec![
        key("KEY_A"),
        key("KEY_A"),
        with_mods(Some("KEY_A"), &["MODIFIERKEY_SHIFT"]),
        key("KEY_B"),
        key("KEY_B"),
        key("KEY_C"),
    ]
}

fn code(table: &HuffmanTable, symbol: &str) -> Vec<bool> {
    table.bits(&CCode::new(symbol)).unwrap()
}

#[test]
fn counts_are_in_the_order_of_the_codes() {
    let counts = count(&presses());
    assert_eq!(counts.len(), 4);
    assert_eq!(counts.key_at(0), "KEY_A");
    assert_eq!(counts.key_at(1), "KEY_B");
    assert_eq!(counts.key_at(2), "KEY_C");
    assert_eq!(counts.key_at(3), "MODIFIERKEY_SHIFT");
    assert_eq!(*counts.val_at(0), (3, false));
    assert_eq!(*counts.val_at(1), (2, false));
    assert_eq!(*counts.val_at(2), (1, false));
    assert_eq!(*counts.val_at(3), (1, true));
}

#[test]
fn a_press_without_a_key_counts_the_blank_code() {
    let counts = count(&vec![with_mods(None, &["MODIFIERKEY_CTRL"])]);
    assert_eq!(counts.len(), 2);
    assert_eq!(counts.key_at(0), "0");
    assert_eq!(*counts.val_at(0), (1, false));
    assert_eq!(*counts.val_at(1), (1, true));
}

#[test]
fn tree_merges_the_two_lightest_first() {
    let tree = make_tree(&count(&presses())).unwrap();
    assert_eq!(tree.count(), 7);
    // KEY_C (1) and MODIFIERKEY_SHIFT (1) are merged first, KEY_C to the
    // left; then KEY_B (2) with that branch (2), KEY_B to the left as it
    // stands first; then KEY_A (3) with the rest (4).
    match tree {
        HuffmanNode::Branch { left, right } => {
            assert_eq!(left.count(), 3);
            assert_eq!(right.count(), 4);
        }
        HuffmanNode::Leaf { .. } => panic!("expected a branch"),
    }
}

#[test]
fn codes_of_a_small_table() {
    let table = HuffmanTable::new(presses());
    assert_eq!(code(&table, "KEY_A"), vec![false]);
    assert_eq!(code(&table, "KEY_B"), vec![true, false]);
    assert_eq!(code(&table, "KEY_C"), vec![true, true, false]);
    assert_eq!(code(&table, "MODIFIERKEY_SHIFT"), vec![true, true, true]);
    assert_eq!(table.num_bits(&CCode::new("KEY_C")), Ok(3));
    assert_eq!(table.is_mod(&CCode::new("MODIFIERKEY_SHIFT")), Ok(true));
    assert_eq!(table.is_mod(&CCode::new("KEY_A")), Ok(false));
    assert_eq!(table.min_bit_length(), 1);
    assert_eq!(
        table.as_c_bits(&CCode::new("KEY_B")).unwrap(),
        vec![CCode::new("1"), CCode::new("0")]
    );
}

#[test]
fn no_code_begins_another() {
    let table = HuffmanTable::new(presses());
    let symbols = ["KEY_A", "KEY_B", "KEY_C", "MODIFIERKEY_SHIFT"];
    for a in symbols.iter() {
        for b in symbols.iter() {
            if a != b {
                let x = code(&table, a);
                let y = code(&table, b);
                assert!(!(x.len() <= y.len() && y[..x.len()] == x[..]));
            }
        }
    }
}

#[test]
fn unknown_symbol_is_a_lookup_error() {
    let table = HuffmanTable::new(presses());
    assert_eq!(
        table.bits(&CCode::new("KEY_Z")),
        Err(Error::Lookup {
            key: "KEY_Z".to_string(),
            container: "huffman code table".to_string()
        })
    );
    assert!(table.num_bits(&CCode::new("KEY_Z")).is_err());
    assert!(table.is_mod(&CCode::new("KEY_Z")).is_err());
    assert!(table.as_c_bits(&CCode::new("KEY_Z")).is_err());
}

#[test]
fn a_table_of_one_symbol_has_an_empty_code() {
    let table = HuffmanTable::new(vec![key("KEY_A"), key("KEY_A")]);
    assert_eq!(code(&table, "KEY_A"), Vec::<bool>::new());
    assert_eq!(table.min_bit_length(), 0);
}

#[test]
fn modifiers_come_before_the_key() {
    let table = HuffmanTable::new(presses());
    let press = with_mods(Some("KEY_A"), &["MODIFIERKEY_SHIFT"]);
    assert_eq!(
        press_bits(&press, &table).unwrap(),
        vec![true, true, true, false]
    );
    let bits: BitVec<u8> = press.huffman(&table).unwrap();
    assert_eq!(bits.iter().collect::<Vec<bool>>(), vec![true, true, true, false]);
}

#[test]
fn an_empty_press_has_no_bits() {
    let table = HuffmanTable::new(presses());
    let press = with_mods(None, &[]);
    assert_eq!(
        press_bits(&press, &table),
        Err(Error::BadValue {
            thing: "key press".to_string(),
            value: "empty".to_string()
        })
    );
    assert!(press.huffman(&table).is_err());
}

#[test]
fn sequence_bits_and_bytes() {
    let table = HuffmanTable::new(presses());
    let seq = Sequence(vec![
        key("KEY_C"),
        key("KEY_B"),
        with_mods(Some("KEY_A"), &["MODIFIERKEY_SHIFT"]),
        key("KEY_A"),
    ]);
    // 110 10 111 0 0
    let want = vec![
        true, true, false, true, false, true, true, true, false, false,
    ];
    let bits = seq.as_bits(&table).unwrap();
    assert_eq!(bits.iter().collect::<Vec<bool>>(), want);
    assert_eq!(seq.formatted_length_in_bits(&table), Ok(10));
    // The first bit is the lowest of the first byte:
    // 1 + 2 + 8 + 32 + 64 + 128 = 235, and the second byte holds two unset
    // bits.
    assert_eq!(
        seq.as_bytes(&table).unwrap(),
        vec![CCode::new("235"), CCode::new("0")]
    );
}

#[test]
fn sequence_with_an_unknown_key_fails() {
    let table = HuffmanTable::new(presses());
    let seq = Sequence(vec![key("KEY_A"), key("KEY_Q")]);
    assert_eq!(
        seq.as_bytes(&table),
        Err(Error::Lookup {
            key: "KEY_Q".to_string(),
            container: "huffman code table".to_string()
        })
    );
}

#[test]
fn decoding_gives_back_what_was_encoded() {
    let mut all = presses();
    all.push(with_mods(None, &["MODIFIERKEY_CTRL", "MODIFIERKEY_SHIFT"]));
    let table = HuffmanTable::new(all);
    let seq = Sequence(vec![
        key("KEY_B"),
        with_mods(Some("KEY_A"), &["MODIFIERKEY_SHIFT"]),
        with_mods(None, &["MODIFIERKEY_CTRL", "MODIFIERKEY_SHIFT"]),
        key("KEY_C"),
        key("KEY_A"),
    ]);
    let bits: Vec<bool> = seq.as_bits(&table).unwrap().iter().collect();
    assert_eq!(table.decode(&bits), Some(seq));
}

#[test]
fn decoding_rejects_bits_that_end_inside_a_press() {
    let table = HuffmanTable::new(presses());
    // A modifier that no key follows.
    assert_eq!(table.decode(&vec![true, true, true]), None);
    // A code that is cut off.
    assert_eq!(table.decode(&vec![false, true]), None);
    assert_eq!(table.decode(&vec![]), Some(Sequence(vec![])));
}
