//! Masking of sensitive words in free-form text, and recovery of the words
//! from reversible `FIELD_<n>` placeholders.
//!
//! Words are matched without regard to case, as whole tokens or as parts of
//! camelCase, PascalCase, snake_case and kebab-case identifiers. Masking
//! either covers each occurrence with asterisks or replaces it by
//! `FIELD_<n>` with a case suffix, where `n` is the word's position in the
//! canonical table of the collection; decoding puts the words back.

pub mod text;
pub mod case_utils;
pub mod ordering;
pub mod matcher;
pub mod text_processor;
pub mod decoder;
pub mod laws;
pub mod round_trip;



pub use case_utils::{capitalize_first, determine_case_suffix};
pub use text_processor::{decode_obfuscated_text, mask_text, mask_text_with_fields};
