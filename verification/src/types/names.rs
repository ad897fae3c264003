//! Identifiers: names of chords and sequences, of modes and of layout files,
//! pieces of target-language code, and the kinds of sequence.

use vstd::prelude::*;

verus! {

/// The name of a chord, a sequence or a modifier.
#[derive(Debug, PartialEq, Eq)]
pub struct Name(pub String);

/// The path of a layout file; it identifies the layout.
#[derive(Debug, PartialEq, Eq)]
pub struct KmapPath(pub String);

/// The name of a mode.
#[derive(Debug, PartialEq, Eq)]
pub struct ModeName(pub String);

/// A piece of target-language code: a key code, a number, a type name.
#[derive(Debug, PartialEq, Eq)]
pub struct CCode(pub String);

/// What a sequence is for.
#[derive(Debug, Clone, Copy, PartialEq, Eq, Structural)]
pub enum SeqType {
    Plain,
    Word,
    Macro,
    Command,
    Special,
}

impl View for Name {
    type V = Seq<char>;

    open spec fn view(&self) -> Seq<char> {
        self.0@
    }
}

impl View for KmapPath {
    type V = Seq<char>;

    open spec fn view(&self) -> Seq<char> {
        self.0@
    }
}

impl View for ModeName {
    type V = Seq<char>;

    open spec fn view(&self) -> Seq<char> {
        self.0@
    }
}

impl View for CCode {
    type V = Seq<char>;

    open spec fn view(&self) -> Seq<char> {
        self.0@
    }
}

impl Clone for Name {
    fn clone(&self) -> (copy: Self)
        ensures
            copy@ == self@,
    {
        Name(self.0.clone())
    }
}

impl Clone for KmapPath {
    fn clone(&self) -> (copy: Self)
        ensures
            copy@ == self@,
    {
        KmapPath(self.0.clone())
    }
}

impl Clone for ModeName {
    fn clone(&self) -> (copy: Self)
        ensures
            copy@ == self@,
    {
        ModeName(self.0.clone())
    }
}

impl Clone for CCode {
    fn clone(&self) -> (copy: Self)
        ensures
            copy@ == self@,
    {
        CCode(self.0.clone())
    }
}

impl Name {
    /// The name `text`.
    pub fn new(text: &str) -> (name: Name)
        ensures
            name@ == text@,
    {
        Name(text.to_owned())
    }

    /// The text.
    pub fn as_str(&self) -> (text: &str)
        ensures
            text@ == self@,
    {
        self.0.as_str()
    }
}

impl KmapPath {
    /// The path `text`.
    pub fn new(text: &str) -> (path: KmapPath)
        ensures
            path@ == text@,
    {
        KmapPath(text.to_owned())
    }

    /// The text.
    pub fn as_str(&self) -> (text: &str)
        ensures
            text@ == self@,
    {
        self.0.as_str()
    }
}

impl ModeName {
    /// The mode called `text`.
    pub fn new(text: &str) -> (mode: ModeName)
        ensures
            mode@ == text@,
    {
        ModeName(text.to_owned())
    }

    /// The text.
    pub fn as_str(&self) -> (text: &str)
        ensures
            text@ == self@,
    {
        self.0.as_str()
    }
}

impl CCode {
    /// The code `text`.
    pub fn new(text: &str) -> (code: CCode)
        ensures
            code@ == text@,
    {
        CCode(text.to_owned())
    }

    /// The text.
    pub fn as_str(&self) -> (text: &str)
        ensures
            text@ == self@,
    {
        self.0.as_str()
    }
}

/// The views of a list of names.
pub open spec fn name_views(names: Seq<Name>) -> Seq<Seq<char>> {
    names.map_values(|n: Name| n@)
}

/// The views of a list of pieces of code.
pub open spec fn code_views(codes: Seq<CCode>) -> Seq<Seq<char>> {
    codes.map_values(|c: CCode| c@)
}

/// A copy of a list of names.
pub fn clone_names(names: &Vec<Name>) -> (copy: Vec<Name>)
    ensures
        name_views(copy@) == name_views(names@),
{
    let mut copy: Vec<Name> = Vec::new();
    let mut i: usize = 0;
    while i < names.len()
        invariant
            i <= names.len(),
            copy.len() == i,
            forall|j: int| 0 <= j < i ==> copy[j]@ == names[j]@,
        decreases names.len() - i,
    {
        copy.push(names[i].clone());
        i += 1;
    }
    assert(name_views(copy@) =~= name_views(names@));
    copy
}

/// A copy of a list of pieces of code.
pub fn clone_codes(codes: &Vec<CCode>) -> (copy: Vec<CCode>)
    ensures
        code_views(copy@) == code_views(codes@),
{
    let mut copy: Vec<CCode> = Vec::new();
    let mut i: usize = 0;
    while i < codes.len()
        invariant
            i <= codes.len(),
            copy.len() == i,
            forall|j: int| 0 <= j < i ==> copy[j]@ == codes[j]@,
        decreases codes.len() - i,
    {
        copy.push(codes[i].clone());
        i += 1;
    }
    assert(code_views(copy@) =~= code_views(codes@));
    copy
}

impl SeqType {
    /// All kinds, in the order in which their tables are emitted.
    pub open spec fn all() -> Seq<SeqType> {
        seq![SeqType::Plain, SeqType::Word, SeqType::Macro, SeqType::Command, SeqType::Special]
    }

    /// The position of the kind in `all()`.
    pub open spec fn spec_index(self) -> int {
        match self {
            SeqType::Plain => 0,
            SeqType::Word => 1,
            SeqType::Macro => 2,
            SeqType::Command => 3,
            SeqType::Special => 4,
        }
    }

    /// The position of the kind in `all()`.
    pub fn index(self) -> (i: usize)
        ensures
            i == self.spec_index(),
            i < 5,
    {
        match self {
            SeqType::Plain => 0,
            SeqType::Word => 1,
            SeqType::Macro => 2,
            SeqType::Command => 3,
            SeqType::Special => 4,
        }
    }

    /// The kind at position `i` of `all()`.
    pub fn from_index(i: usize) -> (kind: SeqType)
        requires
            i < 5,
        ensures
            kind == Self::all()[i as int],
            kind.spec_index() == i,
    {
        if i == 0 {
            SeqType::Plain
        } else if i == 1 {
            SeqType::Word
        } else if i == 2 {
            SeqType::Macro
        } else if i == 3 {
            SeqType::Command
        } else {
            SeqType::Special
        }
    }

    /// The kind's name in the generated code.
    pub open spec fn spec_c_name(self) -> Seq<char> {
        match self {
            SeqType::Plain => "PLAIN"@,
            SeqType::Word => "WORD"@,
            SeqType::Macro => "MACRO"@,
            SeqType::Command => "COMMAND"@,
            SeqType::Special => "SPECIAL"@,
        }
    }

    /// The kind's name in the generated code.
    pub fn c_name(self) -> (name: CCode)
        ensures
            name@ == self.spec_c_name(),
    {
        match self {
            SeqType::Plain => CCode::new("PLAIN"),
            SeqType::Word => CCode::new("WORD"),
            SeqType::Macro => CCode::new("MACRO"),
            SeqType::Command => CCode::new("COMMAND"),
            SeqType::Special => CCode::new("SPECIAL"),
        }
    }
}

} // verus!
