//! The data model: names, chords, key presses, sequences and the registry
//! that owns them.

pub mod c_tree;
pub mod checker;
pub mod chord;
pub mod errors;
pub mod huffman;
pub mod key_press;
pub mod maps;
pub mod names;
pub mod words;
