//! Text of the target language: arrays and the pair of header and body.

pub mod c_array;
