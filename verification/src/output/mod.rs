//! The back end: sequences packed into bits, and the registry turned into
//! the tree of declarations that is written out.

pub mod codec;
pub mod render;
pub mod tables;
