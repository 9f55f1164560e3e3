//! The text handling core of an input method for Zhuyin: user perceived
//! characters, Zhuyin syllables, the symbols of a composition, the candidate
//! phrases of its runs and the search for its readings, symbol menus, and
//! the parser of phrase source lines.
pub mod conversion;
pub mod engine;
pub mod grapheme;
pub mod grapheme_order;
pub mod readings;
pub mod symbol;
pub mod text;
pub mod tsi;
pub mod zhuyin;
