//! Compiler for chorded-keyboard layouts: turns a declarative description of
//! switches, chords and key sequences into the packed tables and the
//! header/body text that the keyboard firmware is built from.
//!
//! The front end is in `load`, the data model and the checks in `types`,
//! the text of arrays in `format`, and the back end in `output`. What the
//! typing tutor needs of the compiled model is in `tutor`.

pub mod bits;
pub mod chunks;
pub mod format;
pub mod load;
pub mod output;
pub mod sorted_map;
pub mod text;
pub mod tutor;
pub mod types;

pub use crate::format::c_array::{CArray, Format};
pub use crate::load::deserialize::{
    BoardName, Delay, KmapFormat, OptionsConfig, Verbosity, WordSpacePosition,
};
pub use crate::load::kmap_parser::{KmapParser, NamedChord};
pub use crate::output::render::KeyCode;
pub use crate::sorted_map::StrMap;
pub use crate::types::c_tree::CTree;
pub use crate::types::checker::{AnagramSet, Checker};
pub use crate::types::chord::{Chord, ChordSpec, Permutation, Pin, SwitchPos};
pub use crate::types::errors::Error;
pub use crate::types::huffman::{HuffmanEntry, HuffmanTable};
pub use crate::types::key_press::{KeyPress, Sequence};
pub use crate::types::maps::{AllData, KmapInfo, Maps, ModeInfo};
pub use crate::types::names::{CCode, KmapPath, ModeName, Name, SeqType};
pub use crate::types::words::{AnagramNum, Word, WordBuilder, WordConfig};
