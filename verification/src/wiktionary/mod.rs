//! Pages of a Wiktionary XML dump.
pub mod segment_structs;
