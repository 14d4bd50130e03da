//! Hebrew text normalisation for speech: expansion of numbers, dates, times,
//! punctuation, geresh conventions and dictionary words, and the reconstruction
//! of diacritised text from per-character predictions.

pub mod text;
pub mod expander;
pub mod pattern;
pub mod model;
