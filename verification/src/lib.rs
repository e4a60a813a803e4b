//! Phonetic number–word translation: parsing pronunciation dictionaries,
//! mapping their sound symbols to digits, and extracting pronunciations from
//! dictionary pages.
pub mod text;
pub mod util;
pub mod numbers;
pub mod sound_table;
pub mod graphemes;
pub mod number_word_translator;
pub mod symbol_map;
pub mod cmu_parser;
pub mod nst_parser;
pub mod trygvejw;
pub mod wiktionary;
pub mod cmu_translator;
