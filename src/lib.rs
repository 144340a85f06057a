//! Conversion between short strings and their big-integer ("felt") encoding.
pub mod codec;
pub mod felt;
pub mod hex_text;
pub mod laws;
