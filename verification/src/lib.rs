//! Phonetic conversion core for a Zhuyin input method.
//!
//! The crate turns a buffer of syllables and literal characters into a
//! segmented sequence of dictionary phrases, and keeps a user dictionary
//! that overlays additions, updates and removals on an immutable base.

pub mod conversion;
pub mod dictionary;
pub mod editor;
pub mod zhuyin;
