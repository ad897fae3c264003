//! Key presses and the sequences that a chord types.

use vstd::prelude::*;
use vstd::string::*;
use crate::text::{char_string, chars_of, concat2, concat3, join, join_strings, views};
use crate::types::errors::{Error, ErrorView};
use crate::types::names::{clone_codes, code_views, CCode};

verus! {

/// One press: a key, held together with some modifiers. Either may be
/// missing. No modifier is listed twice.
#[derive(Debug, PartialEq, Eq)]
pub struct KeyPress {
    pub key: Option<CCode>,
    pub mods: Vec<CCode>,
}

/// A `KeyPress` as a mathematical value.
pub struct KeyPressView {
    pub key: Option<Seq<char>>,
    pub mods: Seq<Seq<char>>,
}

/// What a chord types: key presses, in order.
#[derive(Debug, PartialEq, Eq)]
pub struct Sequence(pub Vec<KeyPress>);

impl View for KeyPress {
    type V = KeyPressView;

    open spec fn view(&self) -> KeyPressView {
        KeyPressView {
            key: match self.key {
                Some(code) => Some(code@),
                None => None,
            },
            mods: code_views(self.mods@),
        }
    }
}

impl View for Sequence {
    type V = Seq<KeyPressView>;

    open spec fn view(&self) -> Seq<KeyPressView> {
        self.0@.map_values(|k: KeyPress| k@)
    }
}

impl Clone for KeyPress {
    fn clone(&self) -> (copy: Self)
        ensures
            copy@ == self@,
    {
        let key = match &self.key {
            Some(code) => Some(code.clone()),
            None => None,
        };
        KeyPress { key, mods: clone_codes(&self.mods) }
    }
}

impl Clone for Sequence {
    fn clone(&self) -> (copy: Self)
        ensures
            copy@ == self@,
    {
        let mut presses: Vec<KeyPress> = Vec::new();
        let mut i: usize = 0;
        while i < self.0.len()
            invariant
                i <= self.0.len(),
                presses.len() == i,
                forall|j: int| 0 <= j < i ==> presses[j]@ == self.0[j]@,
            decreases self.0.len() - i,
        {
            presses.push(self.0[i].clone());
            i += 1;
        }
        let copy = Sequence(presses);
        assert(copy@ =~= self@);
        copy
    }
}

/// The code that stands for "no key" in a press that has modifiers only.
pub open spec fn blank_code() -> Seq<char> {
    "0"@
}

/// `code`, cast to a byte in the generated code.
pub open spec fn truncated(code: Seq<char>) -> Seq<char> {
    "static_cast<uint8_t>("@ + code + ")"@
}

impl KeyPressView {
    /// The key, or the blank code where there is none.
    pub open spec fn key_or_blank(self) -> Seq<char> {
        match self.key {
            Some(code) => code,
            None => blank_code(),
        }
    }

    /// Neither a key nor a modifier.
    pub open spec fn is_empty(self) -> bool {
        self.key is None && self.mods.len() == 0
    }

    /// No modifier is listed twice.
    pub open spec fn wf(self) -> bool {
        self.mods.no_duplicates()
    }

    /// The modifiers as one expression of the generated code: the blank code
    /// where there are none, else their bitwise or, cast to a byte.
    pub open spec fn mods_code(self) -> Seq<char> {
        if self.mods.len() == 0 {
            blank_code()
        } else {
            truncated(join(self.mods, "|"@))
        }
    }
}

impl KeyPress {
    /// The code that stands for "no key".
    pub fn empty_code() -> (code: CCode)
        ensures
            code@ == blank_code(),
    {
        CCode::new("0")
    }

    /// A press of the key `code` alone.
    pub fn new_key(code: &str) -> (press: KeyPress)
        ensures
            press@ == (KeyPressView { key: Some(code@), mods: Seq::empty() }),
    {
        let press = KeyPress { key: Some(CCode::new(code)), mods: Vec::new() };
        assert(press@.mods =~= Seq::empty());
        press
    }

    /// A press of the modifier `code` alone.
    pub fn new_mod(code: &str) -> (press: KeyPress)
        ensures
            press@ == (KeyPressView { key: None, mods: seq![code@] }),
    {
        let mut mods: Vec<CCode> = Vec::new();
        mods.push(CCode::new(code));
        let press = KeyPress { key: None, mods };
        assert(press@.mods =~= seq![code@]);
        press
    }

    /// A press that carries `code` in place of a key: commands are stored
    /// this way.
    pub fn new_fake(code: &str) -> (press: KeyPress)
        ensures
            press@ == (KeyPressView { key: Some(code@), mods: Seq::empty() }),
    {
        KeyPress::new_key(code)
    }

    /// Whether `code` is among the modifiers.
    pub fn has_mod(&self, code: &str) -> (found: bool)
        ensures
            found == self@.mods.contains(code@),
    {
        let mut i: usize = 0;
        while i < self.mods.len()
            invariant
                i <= self.mods.len(),
                forall|j: int| 0 <= j < i ==> self@.mods[j] != code@,
            decreases self.mods.len() - i,
        {
            if crate::text::str_eq(self.mods[i].as_str(), code) {
                assert(self@.mods[i as int] == code@);
                return true;
            }
            i += 1;
        }
        false
    }

    /// Adds the modifier `code`, unless the press has it already.
    pub fn add_mod(&mut self, code: &str)
        requires
            old(self)@.wf(),
        ensures
            final(self)@.wf(),
            final(self)@.key == old(self)@.key,
            final(self)@.mods == if old(self)@.mods.contains(code@) {
                old(self)@.mods
            } else {
                old(self)@.mods.push(code@)
            },
    {
        if !self.has_mod(code) {
            self.mods.push(CCode::new(code));
            assert(self@.mods =~= old(self)@.mods.push(code@));
        }
    }

    /// The key, or the blank code where there is none.
    pub fn key_or_blank(&self) -> (code: CCode)
        ensures
            code@ == self@.key_or_blank(),
    {
        match &self.key {
            Some(code) => code.clone(),
            None => KeyPress::empty_code(),
        }
    }

    /// Whether the press has neither a key nor a modifier.
    pub fn is_empty(&self) -> (empty: bool)
        ensures
            empty == self@.is_empty(),
    {
        self.key.is_none() && self.mods.len() == 0
    }

    /// Rejects a press that has neither a key nor a modifier.
    pub fn ensure_non_empty(&self) -> (r: Result<(), Error>)
        ensures
            !self@.is_empty() ==> r is Ok,
            self@.is_empty() ==> r is Err && r->Err_0@ == (ErrorView::BadValue {
                thing: "key press"@,
                value: "empty"@,
            }),
    {
        if self.is_empty() {
            Err(Error::bad_value("key press", "empty"))
        } else {
            Ok(())
        }
    }

    /// `code`, cast to a byte in the generated code.
    pub fn truncate(code: &CCode) -> (cast: CCode)
        ensures
            cast@ == truncated(code@),
    {
        CCode(concat3("static_cast<uint8_t>(", code.as_str(), ")"))
    }

    /// The modifiers as one expression of the generated code.
    pub fn format_mods(&self) -> (code: CCode)
        ensures
            code@ == self@.mods_code(),
    {
        if self.mods.len() == 0 {
            KeyPress::empty_code()
        } else {
            let mut parts: Vec<String> = Vec::new();
            let mut i: usize = 0;
            while i < self.mods.len()
                invariant
                    i <= self.mods.len(),
                    parts.len() == i,
                    forall|j: int| 0 <= j < i ==> parts[j]@ == self.mods[j]@,
                decreases self.mods.len() - i,
            {
                parts.push(self.mods[i].0.clone());
                i += 1;
            }
            assert(views(parts@) =~= self@.mods);
            let joined = CCode(join_strings(&parts, "|"));
            KeyPress::truncate(&joined)
        }
    }
}

impl Sequence {
    /// The empty sequence.
    pub fn new() -> (seq: Sequence)
        ensures
            seq@ == Seq::<KeyPressView>::empty(),
    {
        let seq = Sequence(Vec::new());
        assert(seq@ =~= Seq::<KeyPressView>::empty());
        seq
    }

    /// Adds a press at the end.
    pub fn push(&mut self, press: KeyPress)
        ensures
            final(self)@ == old(self)@.push(press@),
    {
        self.0.push(press);
        assert(self@ =~= old(self)@.push(press@));
    }

    /// The number of presses.
    pub fn len(&self) -> (n: usize)
        ensures
            n == self@.len(),
    {
        self.0.len()
    }

    /// The presses, in order.
    pub fn keypresses(&self) -> (presses: &Vec<KeyPress>)
        ensures
            presses@.map_values(|k: KeyPress| k@) == self@,
    {
        &self.0
    }

    /// The only press of a sequence of one press.
    pub fn lone_keypress(&self) -> (r: Result<&KeyPress, Error>)
        ensures
            self@.len() == 1 ==> r is Ok && r->Ok_0@ == self@[0],
            self@.len() != 1 ==> r is Err && r->Err_0@ == (ErrorView::BadValue {
                thing: "sequence length"@,
                value: "expected exactly one key press"@,
            }),
    {
        if self.0.len() == 1 {
            Ok(&self.0[0])
        } else {
            Err(Error::bad_value("sequence length", "expected exactly one key press"))
        }
    }
}


/// The modifier that makes a letter a capital.
pub open spec fn shift_code() -> Seq<char> {
    "MODIFIERKEY_SHIFT"@
}

/// The code of the key that is named after the character `c`.
pub open spec fn key_named(c: char) -> Seq<char> {
    "KEY_"@ + seq![c]
}

/// The capital of a small letter of the alphabet `a` to `z`.
pub open spec fn capital(c: char) -> char
    recommends
        'a' <= c <= 'z',
{
    ((c as u32) - 32) as char
}

/// The press that types the character `c`: a small letter, a digit or a
/// space by its key, a capital letter by the key of its letter with the
/// shift modifier. Other characters have no press.
pub open spec fn press_for_char(c: char) -> Option<KeyPressView> {
    if 'a' <= c <= 'z' {
        Some(KeyPressView { key: Some(key_named(capital(c))), mods: Seq::empty() })
    } else if 'A' <= c <= 'Z' {
        Some(KeyPressView { key: Some(key_named(c)), mods: seq![shift_code()] })
    } else if '0' <= c <= '9' {
        Some(KeyPressView { key: Some(key_named(c)), mods: Seq::empty() })
    } else if c == ' ' {
        Some(KeyPressView { key: Some("KEY_SPACE"@), mods: Seq::empty() })
    } else {
        None
    }
}

/// The press that types `text`, which must be a single character that has
/// one.
pub open spec fn press_for(text: Seq<char>) -> Option<KeyPressView> {
    if text.len() == 1 {
        press_for_char(text[0])
    } else {
        None
    }
}

impl KeyPress {
    /// The press that types `text`. Fails where `text` is not a single
    /// small or capital letter of the alphabet, digit or space.
    pub fn from_str(text: &str) -> (r: Result<KeyPress, Error>)
        ensures
            match press_for(text@) {
                Some(press) => r is Ok && r->Ok_0@ == press,
                None => r is Err && r->Err_0@ == (ErrorView::BadValue {
                    thing: "character"@,
                    value: text@,
                }),
            },
    {
        let chars = chars_of(text);
        if chars.len() != 1 {
            return Err(Error::bad_value("character", text));
        }
        let c = chars[0];
        if 'a' <= c && c <= 'z' {
            let upper = ((c as u32) - 32) as u8 as char;
            let name = concat2("KEY_", char_string(upper).as_str());
            Ok(KeyPress::new_key(name.as_str()))
        } else if 'A' <= c && c <= 'Z' {
            let name = concat2("KEY_", char_string(c).as_str());
            let mut press = KeyPress::new_key(name.as_str());
            press.add_mod("MODIFIERKEY_SHIFT");
            assert(press@.mods =~= seq![shift_code()]);
            Ok(press)
        } else if '0' <= c && c <= '9' {
            let name = concat2("KEY_", char_string(c).as_str());
            Ok(KeyPress::new_key(name.as_str()))
        } else if c == ' ' {
            Ok(KeyPress::new_key("KEY_SPACE"))
        } else {
            Err(Error::bad_value("character", text))
        }
    }
}


/// The modifiers of a press as one expression: the blank code where there
/// are none, else their bitwise or.
pub open spec fn mods_or(mods: Seq<Seq<char>>) -> Seq<char> {
    if mods.len() == 0 {
        blank_code()
    } else {
        join(mods, "|"@)
    }
}

/// A press as raw bytes of the generated code: its key, cut to a byte,
/// and, if `use_mods`, its modifiers, cut to a byte.
pub open spec fn raw_bytes(press: KeyPressView, use_mods: bool) -> Seq<Seq<char>> {
    if use_mods {
        seq![press.key_or_blank() + "&0xff"@, "("@ + mods_or(press.mods) + ")&0xff"@]
    } else {
        seq![press.key_or_blank() + "&0xff"@]
    }
}

/// The raw bytes of the presses, one press after the other.
pub open spec fn all_raw_bytes(presses: Seq<KeyPressView>, use_mods: bool) -> Seq<Seq<char>>
    decreases presses.len(),
{
    if presses.len() == 0 {
        Seq::empty()
    } else {
        all_raw_bytes(presses.drop_last(), use_mods) + raw_bytes(presses.last(), use_mods)
    }
}

impl KeyPress {
    /// The press as raw bytes of the generated code.
    pub fn as_bytes(&self, use_mods: bool) -> (bytes: Vec<String>)
        ensures
            views(bytes@) == raw_bytes(self@, use_mods),
    {
        let mut v: Vec<String> = Vec::new();
        v.push(concat2(self.key_or_blank().as_str(), "&0xff"));
        if use_mods {
            let modifier = if self.mods.len() == 0 {
                KeyPress::empty_code().0
            } else {
                let mut parts: Vec<String> = Vec::new();
                let mut i: usize = 0;
                while i < self.mods.len()
                    invariant
                        i <= self.mods.len(),
                        parts.len() == i,
                        forall|j: int| 0 <= j < i ==> parts[j]@ == self.mods[j]@,
                    decreases self.mods.len() - i,
                {
                    parts.push(self.mods[i].0.clone());
                    i += 1;
                }
                assert(views(parts@) =~= self@.mods);
                join_strings(&parts, "|")
            };
            v.push(concat3("(", modifier.as_str(), ")&0xff"));
        }
        assert(views(v@) =~= raw_bytes(self@, use_mods));
        v
    }
}

impl Sequence {
    /// The sequence as raw bytes of the generated code, without
    /// compression.
    pub fn to_raw_bytes(&self, use_mods: bool) -> (bytes: Vec<String>)
        ensures
            views(bytes@) == all_raw_bytes(self@, use_mods),
    {
        let mut v: Vec<String> = Vec::new();
        let mut i: usize = 0;
        assert(views(v@) =~= Seq::<Seq<char>>::empty());
        assert(self@.take(0) =~= Seq::<KeyPressView>::empty());
        while i < self.0.len()
            invariant
                i <= self.0.len(),
                views(v@) == all_raw_bytes(self@.take(i as int), use_mods),
            decreases self.0.len() - i,
        {
            let mut more = self.0[i].as_bytes(use_mods);
            let ghost before = v@;
            let ghost added = more@;
            v.append(&mut more);
            proof {
                assert(views(v@) =~= views(before) + views(added));
                assert(self@.take(i + 1).drop_last() == self@.take(i as int));
                assert(self@.take(i + 1).last() == self.0[i as int]@);
            }
            i += 1;
        }
        assert(self@.take(i as int) == self@);
        v
    }
}

} // verus!
