//! Conversion between raw byte sequences and their lowercase hexadecimal
//! text representation, together with the [`hex::Hex`] capability trait and
//! its error taxonomy.

pub mod hex;
