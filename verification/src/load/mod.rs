//! The front end: the settings of a keyboard and its layout files.

pub mod deserialize;
pub mod impl_load;
pub mod kmap_parser;
