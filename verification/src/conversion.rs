//! The composition buffer and the intervals that a conversion yields.

use crate::dictionary::Dictionary;
use crate::zhuyin::Syllable;
use vstd::prelude::*;

pub mod chewing;
pub mod proofs;

verus! {

/// One position of the composition buffer: a syllable to convert, or a
/// literal character that passes through.
#[derive(Clone, Copy, Debug, PartialEq, Eq, Structural)]
pub enum Symbol {
    Syllable(Syllable),
    Char(char),
}

impl Symbol {
    /// Whether the symbol is a syllable.
    pub fn is_syllable(&self) -> (b: bool)
        ensures
            b == (*self is Syllable),
    {
        match self {
            Symbol::Syllable(_) => true,
            Symbol::Char(_) => false,
        }
    }

    /// Whether the symbol is a literal character.
    pub fn is_char(&self) -> (b: bool)
        ensures
            b == (*self is Char),
    {
        match self {
            Symbol::Syllable(_) => false,
            Symbol::Char(_) => true,
        }
    }

    /// The syllable that the symbol holds.
    pub fn as_syllable(&self) -> (s: Syllable)
        requires
            *self is Syllable,
        ensures
            *self == Symbol::Syllable(s),
    {
        match self {
            Symbol::Syllable(s) => *s,
            Symbol::Char(_) => Syllable::new(0),
        }
    }

    /// The character that the symbol holds.
    pub fn as_char(&self) -> (c: char)
        requires
            *self is Char,
        ensures
            *self == Symbol::Char(c),
    {
        match self {
            Symbol::Syllable(_) => ' ',
            Symbol::Char(c) => *c,
        }
    }
}

/// A position that no phrase may span.
#[derive(Clone, Copy, Debug, PartialEq, Eq, Structural)]
pub struct Break(pub usize);

/// A position at which two adjacent intervals are joined into one.
#[derive(Clone, Copy, Debug, PartialEq, Eq, Structural)]
pub struct Glue(pub usize);

/// The mathematical value of an [`Interval`].
pub struct IntervalView {
    pub start: usize,
    pub end: usize,
    pub is_phrase: bool,
    pub phrase: Seq<char>,
}

/// A half-open span `[start, end)` of the buffer and the text chosen for it.
#[derive(Clone, Debug, PartialEq, Eq)]
pub struct Interval {
    pub start: usize,
    pub end: usize,
    pub is_phrase: bool,
    pub phrase: String,
}

impl View for Interval {
    type V = IntervalView;

    open spec fn view(&self) -> IntervalView {
        IntervalView {
            start: self.start,
            end: self.end,
            is_phrase: self.is_phrase,
            phrase: self.phrase@,
        }
    }
}

/// The views of a sequence of intervals, element by element.
pub open spec fn interval_views(intervals: Seq<Interval>) -> Seq<IntervalView> {
    Seq::new(intervals.len(), |i: int| intervals[i]@)
}

/// The longest buffer that the engine converts.
///
/// With no more symbols than this, every score that the engine computes
/// fits the integer type that holds it.
pub const MAX_BUFFER_LEN: usize = 0xFFFF;

/// The input state of one conversion.
#[derive(Clone, Debug)]
pub struct Composition {
    pub buffer: Vec<Symbol>,
    pub selections: Vec<Interval>,
    pub breaks: Vec<Break>,
    pub glues: Vec<Glue>,
}

impl Composition {
    /// What the engine needs of a composition: no selection ends before it
    /// starts, and the buffer is no longer than [`MAX_BUFFER_LEN`]. Breaks,
    /// glues and selections may lie anywhere, also beyond the buffer, where
    /// they bear on no span.
    pub open spec fn wf(&self) -> bool {
        &&& self.buffer@.len() <= MAX_BUFFER_LEN
        &&& forall|i: int|
            0 <= i < self.selections@.len() ==> (#[trigger] self.selections@[i]).start
                <= self.selections@[i].end
    }

    /// Whether the composition is well formed.
    pub fn is_valid(&self) -> (b: bool)
        ensures
            b == self.wf(),
    {
        if self.buffer.len() > MAX_BUFFER_LEN {
            return false;
        }
        let mut i: usize = 0;
        while i < self.selections.len()
            invariant
                i <= self.selections@.len(),
                forall|k: int|
                    0 <= k < i ==> (#[trigger] self.selections@[k]).start
                        <= self.selections@[k].end,
            decreases self.selections@.len() - i,
        {
            if self.selections[i].start > self.selections[i].end {
                return false;
            }
            i = i + 1;
        }
        true
    }
}

/// An engine that segments a composition buffer into intervals.
pub trait ConversionEngine<D: Dictionary> {
    /// What the engine hands out as its first choice.
    spec fn converted(&self, dict: &D, composition: &Composition) -> Seq<IntervalView>;

    /// What the engine hands out as the alternative number `next`.
    spec fn alternative(&self, dict: &D, composition: &Composition, next: int) -> Seq<
        IntervalView,
    >;

    /// The engine's first choice for the composition; nothing for an empty
    /// buffer.
    fn convert(&self, dict: &D, composition: &Composition) -> (r: Vec<Interval>)
        requires
            dict.wf(),
            composition.wf(),
        ensures
            interval_views(r@) == self.converted(dict, composition),
            composition.buffer@.len() == 0 ==> r@.len() == 0,
    ;

    /// The alternative number `next` for the composition, the first choice
    /// among the alternatives being number 0; nothing for an empty buffer.
    fn convert_next(&self, dict: &D, composition: &Composition, next: usize) -> (r: Vec<Interval>)
        requires
            dict.wf(),
            composition.wf(),
        ensures
            interval_views(r@) == self.alternative(dict, composition, next as int),
            composition.buffer@.len() == 0 ==> r@.len() == 0,
    ;
}

} // verus!
