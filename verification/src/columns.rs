//! Typed structure-of-arrays columns and compact validity bitmaps.

pub mod checks;
pub mod dictionary;
pub mod documents;
pub mod mixed;
pub mod packed;
pub mod promotion;
pub mod properties;
pub mod typed;
pub mod validity;
