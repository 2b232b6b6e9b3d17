//! Phonetic units.

use vstd::prelude::*;

verus! {

/// One Mandarin syllable, held as its packed code.
///
/// Two syllables are the same exactly when their codes are the same, and
/// they are ordered by code.
#[derive(Clone, Copy, Debug, PartialEq, Eq, Structural, PartialOrd, Ord, Hash)]
pub struct Syllable {
    pub value: u16,
}

impl Syllable {
    /// The syllable with the given packed code.
    pub fn new(value: u16) -> (s: Syllable)
        ensures
            s.value == value,
    {
        Syllable { value }
    }

    /// The packed code of the syllable.
    pub fn to_u16(&self) -> (v: u16)
        ensures
            v == self.value,
    {
        self.value
    }
}

} // verus!
