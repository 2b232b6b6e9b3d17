//! The conversion engine: candidate phrases, paths, their scores, and the
//! search for the best segmentation of a composition buffer.

use crate::conversion::{
    interval_views, Break, Composition, ConversionEngine, Glue, Interval, IntervalView, Symbol,
    MAX_BUFFER_LEN,
};
use crate::dictionary::{phrase_views, Dictionary, Phrase, PhraseView};
use crate::zhuyin::Syllable;
use std::collections::HashMap;
use std::rc::Rc;
use vstd::prelude::*;
use vstd::string::*;

verus! {

broadcast use vstd::std_specs::hash::group_hash_axioms;

/// The mathematical value of a [`PossiblePhrase`].
pub enum PossiblePhraseView {
    Symbol(Symbol),
    Phrase(PhraseView),
}

/// What a span of the buffer may be rendered as: a literal symbol that
/// passes through, or a phrase of the dictionary.
///
/// A phrase is shared between all the paths that use it and never changes
/// after it was found.
#[derive(Debug)]
pub enum PossiblePhrase {
    Symbol(Symbol),
    Phrase(Rc<Phrase>),
}

impl View for PossiblePhrase {
    type V = PossiblePhraseView;

    open spec fn view(&self) -> PossiblePhraseView {
        match *self {
            PossiblePhrase::Symbol(sym) => PossiblePhraseView::Symbol(sym),
            PossiblePhrase::Phrase(phrase) => PossiblePhraseView::Phrase(phrase@),
        }
    }
}

/// `Rc::clone`: another handle to the same phrase. The contract claims that
/// the new handle points to an equal phrase.
#[verifier::external_body]
fn share(phrase: &Rc<Phrase>) -> (r: Rc<Phrase>)
    ensures
        r == *phrase,
{
    Rc::clone(phrase)
}

/// `String::push`: appends one character. The contract claims that the
/// string afterwards is the string before, followed by that character.
#[verifier::external_body]
fn push_char(s: &mut String, c: char)
    ensures
        final(s)@ == old(s)@.push(c),
{
    s.push(c)
}

/// The frequency of a possible phrase: that of the dictionary phrase, and 0
/// for a literal symbol.
pub open spec fn freq_of(phrase: PossiblePhraseView) -> int {
    match phrase {
        PossiblePhraseView::Symbol(_) => 0,
        PossiblePhraseView::Phrase(p) => p.freq as int,
    }
}

/// The text of a possible phrase: that of the dictionary phrase, and the
/// one character of a literal symbol.
pub open spec fn text_of(phrase: PossiblePhraseView) -> Seq<char> {
    match phrase {
        PossiblePhraseView::Symbol(sym) => match sym {
            Symbol::Char(c) => seq![c],
            Symbol::Syllable(_) => Seq::empty(),
        },
        PossiblePhraseView::Phrase(p) => p.text,
    }
}

impl Clone for PossiblePhrase {
    fn clone(&self) -> (r: PossiblePhrase)
        ensures
            r@ == self@,
    {
        match self {
            PossiblePhrase::Symbol(sym) => PossiblePhrase::Symbol(*sym),
            PossiblePhrase::Phrase(phrase) => PossiblePhrase::Phrase(share(phrase)),
        }
    }
}

impl From<Phrase> for PossiblePhrase {
    fn from(value: Phrase) -> (r: PossiblePhrase)
        ensures
            r@ == PossiblePhraseView::Phrase(value@),
    {
        PossiblePhrase::Phrase(Rc::new(value))
    }
}

impl vstd::std_specs::convert::FromSpecImpl<Phrase> for PossiblePhrase {
    open spec fn obeys_from_spec() -> bool {
        false
    }

    open spec fn from_spec(value: Phrase) -> PossiblePhrase {
        arbitrary()
    }
}

impl From<Symbol> for PossiblePhrase {
    fn from(value: Symbol) -> (r: PossiblePhrase) {
        PossiblePhrase::Symbol(value)
    }
}

impl vstd::std_specs::convert::FromSpecImpl<Symbol> for PossiblePhrase {
    open spec fn obeys_from_spec() -> bool {
        true
    }

    open spec fn from_spec(value: Symbol) -> PossiblePhrase {
        PossiblePhrase::Symbol(value)
    }
}

impl PossiblePhrase {
    /// A literal symbol is a possible phrase only where it is a character.
    pub open spec fn wf(&self) -> bool {
        self@ matches PossiblePhraseView::Symbol(sym) ==> sym is Char
    }

    /// The text that the phrase renders as.
    pub fn to_string(&self) -> (s: String)
        requires
            self.wf(),
        ensures
            s@ == text_of(self@),
    {
        match self {
            PossiblePhrase::Symbol(sym) => {
                let mut s = String::new();
                push_char(&mut s, sym.as_char());
                assert(s@ =~= seq![sym->Char_0]);
                s
            },
            PossiblePhrase::Phrase(phrase) => phrase.text.clone(),
        }
    }

    /// The frequency of the phrase.
    pub fn freq(&self) -> (f: u32)
        ensures
            f == freq_of(self@),
    {
        match self {
            PossiblePhrase::Symbol(_) => 0,
            PossiblePhrase::Phrase(phrase) => phrase.freq,
        }
    }
}

/// The mathematical value of a [`PossibleInterval`].
pub struct PossibleIntervalView {
    pub start: usize,
    pub end: usize,
    pub phrase: PossiblePhraseView,
}

/// A span `[start, end)` of the buffer with what it may be rendered as.
#[derive(Debug)]
pub struct PossibleInterval {
    pub start: usize,
    pub end: usize,
    pub phrase: PossiblePhrase,
}

impl View for PossibleInterval {
    type V = PossibleIntervalView;

    open spec fn view(&self) -> PossibleIntervalView {
        PossibleIntervalView { start: self.start, end: self.end, phrase: self.phrase@ }
    }
}

impl Clone for PossibleInterval {
    fn clone(&self) -> (r: PossibleInterval)
        ensures
            r@ == self@,
    {
        PossibleInterval { start: self.start, end: self.end, phrase: self.phrase.clone() }
    }
}

/// Whether the span of `outer` covers the span of `inner`.
pub open spec fn covers(outer: PossibleIntervalView, inner: PossibleIntervalView) -> bool {
    outer.start <= inner.start && outer.end >= inner.end
}

/// The number of buffer positions in the span.
pub open spec fn span(interval: PossibleIntervalView) -> int {
    interval.end - interval.start
}

impl PossibleInterval {
    /// Whether this span covers the other.
    pub fn contains(&self, other: &PossibleInterval) -> (b: bool)
        ensures
            b == covers(self@, other@),
    {
        self.start <= other.start && self.end >= other.end
    }

    /// The number of buffer positions in the span.
    pub fn len(&self) -> (n: usize)
        requires
            self.start <= self.end,
        ensures
            n == span(self@),
    {
        self.end - self.start
    }

    /// The interval as it is handed out: a literal symbol is no phrase.
    pub fn into_interval(self) -> (r: Interval)
        requires
            self.phrase.wf(),
        ensures
            r@ == to_interval(self@),
    {
        let is_phrase = match &self.phrase {
            PossiblePhrase::Symbol(_) => false,
            PossiblePhrase::Phrase(_) => true,
        };
        Interval { start: self.start, end: self.end, is_phrase, phrase: self.phrase.to_string() }
    }
}

/// The interval that a possible interval is handed out as.
pub open spec fn to_interval(interval: PossibleIntervalView) -> IntervalView {
    IntervalView {
        start: interval.start,
        end: interval.end,
        is_phrase: interval.phrase is Phrase,
        phrase: text_of(interval.phrase),
    }
}

/// The most intervals that a scored path holds.
pub const MAX_PATH_LEN: u64 = 0x1_0000_0000_0000;

/// A path whose scores fit their integer type: no more than
/// [`MAX_PATH_LEN`] intervals, each a span that ends no later than
/// [`MAX_BUFFER_LEN`].
pub open spec fn path_bounded(path: Seq<PossibleIntervalView>) -> bool {
    &&& path.len() <= MAX_PATH_LEN
    &&& forall|i: int|
        0 <= i < path.len() ==> (#[trigger] path[i]).start <= path[i].end && path[i].end
            <= MAX_BUFFER_LEN
}

/// The total number of buffer positions that the intervals span.
pub open spec fn largest_sum(path: Seq<PossibleIntervalView>) -> int
    decreases path.len(),
{
    if path.len() == 0 {
        0
    } else {
        largest_sum(path.drop_last()) + span(path.last())
    }
}

/// Six times the average span, rounded down; 0 for the empty path.
pub open spec fn largest_avgwordlen(path: Seq<PossibleIntervalView>) -> int {
    if path.len() == 0 {
        0
    } else {
        6 * largest_sum(path) / (path.len() as int)
    }
}

/// The distance between two lengths.
pub open spec fn distance(a: int, b: int) -> int {
    if a < b {
        b - a
    } else {
        a - b
    }
}

/// The sum of the distances between the span of interval `i` and the spans
/// of the intervals after it and before `j`.
pub open spec fn spread_of(path: Seq<PossibleIntervalView>, i: int, j: int) -> int
    decreases j - i,
{
    if j <= i + 1 {
        0
    } else {
        spread_of(path, i, j - 1) + distance(span(path[i]), span(path[j - 1]))
    }
}

/// The sum, over the intervals before `i`, of their distances to all the
/// intervals after them.
pub open spec fn spread_upto(path: Seq<PossibleIntervalView>, i: int) -> int
    decreases i,
{
    if i <= 0 {
        0
    } else {
        spread_upto(path, i - 1) + spread_of(path, i - 1, path.len() as int)
    }
}

/// Minus the sum of the distances between the spans of every two
/// intervals: the flatter the path, the larger.
pub open spec fn smallest_lenvariance(path: Seq<PossibleIntervalView>) -> int {
    -spread_upto(path, path.len() as int)
}

/// The frequency that an interval adds to a path: that of its phrase, cut
/// down to a 512th where the interval spans a single position.
pub open spec fn reduced_freq(interval: PossibleIntervalView) -> int {
    if span(interval) == 1 {
        freq_of(interval.phrase) / 512
    } else {
        freq_of(interval.phrase)
    }
}

/// The sum of the reduced frequencies of the intervals.
pub open spec fn largest_freqsum(path: Seq<PossibleIntervalView>) -> int
    decreases path.len(),
{
    if path.len() == 0 {
        0
    } else {
        largest_freqsum(path.drop_last()) + reduced_freq(path.last())
    }
}

/// The score of a path: the weighted sum of its four rules.
pub open spec fn path_score(path: Seq<PossibleIntervalView>) -> int {
    1000 * largest_sum(path) + 1000 * largest_avgwordlen(path) + 100 * smallest_lenvariance(path)
        + largest_freqsum(path)
}

/// Whether `big` contains `small` from the positions `i` of `big` and `j`
/// of `small` on, walking both in parallel: every interval of `small` must
/// lie in an interval of `big` that starts before it ends, and `big` is
/// never walked backwards.
pub open spec fn contains_from(
    big: Seq<PossibleIntervalView>,
    small: Seq<PossibleIntervalView>,
    i: int,
    j: int,
) -> bool
    decreases small.len() - j, big.len() - i,
{
    if j >= small.len() || j < 0 || i < 0 {
        true
    } else if i < big.len() && big[i].start < small[j].end {
        if covers(big[i], small[j]) {
            contains_from(big, small, i, j + 1)
        } else {
            contains_from(big, small, i + 1, j)
        }
    } else {
        false
    }
}

/// Whether the path `big` contains the path `small`.
pub open spec fn path_contains(
    big: Seq<PossibleIntervalView>,
    small: Seq<PossibleIntervalView>,
) -> bool {
    contains_from(big, small, 0, 0)
}

/// The views of a sequence of possible intervals, element by element.
pub open spec fn possible_views(intervals: Seq<PossibleInterval>) -> Seq<PossibleIntervalView> {
    Seq::new(intervals.len(), |i: int| intervals[i]@)
}

/// A candidate segmentation: intervals in buffer order.
#[derive(Debug)]
pub struct PossiblePath {
    pub intervals: Vec<PossibleInterval>,
}

impl View for PossiblePath {
    type V = Seq<PossibleIntervalView>;

    open spec fn view(&self) -> Seq<PossibleIntervalView> {
        possible_views(self.intervals@)
    }
}

/// A copy of the intervals that shares each phrase with them.
pub fn clone_intervals(intervals: &Vec<PossibleInterval>) -> (r: Vec<PossibleInterval>)
    ensures
        possible_views(r@) == possible_views(intervals@),
{
    let mut copy: Vec<PossibleInterval> = Vec::new();
    let n: usize = intervals.len();
    let mut i: usize = 0;
    while i < n
        invariant
            i <= n,
            n == intervals@.len(),
            copy@.len() == i,
            forall|k: int| 0 <= k < i ==> copy@[k]@ == intervals@[k]@,
        decreases n - i,
    {
        copy.push(intervals[i].clone());
        i = i + 1;
    }
    assert(possible_views(copy@) =~= possible_views(intervals@));
    copy
}

impl Clone for PossiblePath {
    fn clone(&self) -> (r: PossiblePath)
        ensures
            r@ == self@,
    {
        PossiblePath { intervals: clone_intervals(&self.intervals) }
    }
}

impl Default for PossiblePath {
    fn default() -> (r: PossiblePath)
        ensures
            r@ == Seq::<PossibleIntervalView>::empty(),
    {
        let r = PossiblePath { intervals: Vec::new() };
        assert(r@ =~= Seq::<PossibleIntervalView>::empty());
        r
    }
}

impl PossiblePath {
    /// The score of the path: the higher, the better.
    pub fn score(&self) -> (r: i128)
        requires
            path_bounded(self@),
        ensures
            r == path_score(self@),
    {
        let sum = self.rule_largest_sum();
        let avg = self.rule_largest_avgwordlen();
        let variance = self.rule_smallest_lenvariance();
        let freq = self.rule_largest_freqsum();
        1000 * sum + 1000 * avg + 100 * variance + freq
    }

    /// Whether this path contains the other: whether every interval of the
    /// other lies in an interval of this one, both walked in parallel.
    pub fn contains(&self, other: &PossiblePath) -> (b: bool)
        ensures
            b == path_contains(self@, other@),
    {
        let mut big: usize = 0;
        let mut sml: usize = 0;
        while sml < other.intervals.len()
            invariant
                big <= self.intervals@.len(),
                sml <= other.intervals@.len(),
                path_contains(self@, other@) == contains_from(self@, other@, big as int, sml as int),
            decreases (other.intervals@.len() - sml) + (self.intervals@.len() - big),
        {
            if big < self.intervals.len() && self.intervals[big].start < other.intervals[sml].end {
                if self.intervals[big].contains(&other.intervals[sml]) {
                    sml = sml + 1;
                } else {
                    big = big + 1;
                }
            } else {
                return false;
            }
        }
        true
    }

    /// The total number of buffer positions that the intervals span.
    pub fn rule_largest_sum(&self) -> (r: i128)
        requires
            path_bounded(self@),
        ensures
            r == largest_sum(self@),
            0 <= r <= self@.len() * MAX_BUFFER_LEN,
    {
        let n: usize = self.intervals.len();
        let mut total: i128 = 0;
        let mut i: usize = 0;
        while i < n
            invariant
                i <= n,
                n == self.intervals@.len(),
                path_bounded(self@),
                total == largest_sum(self@.take(i as int)),
                0 <= total <= i * MAX_BUFFER_LEN,
            decreases n - i,
        {
            let interval = &self.intervals[i];
            proof {
                assert(self@[i as int] == interval@);
                assert(self@.take(i + 1).drop_last() =~= self@.take(i as int));
            }
            total = total + (interval.end - interval.start) as i128;
            i = i + 1;
        }
        assert(self@.take(n as int) =~= self@);
        total
    }

    /// Six times the average span of the intervals, rounded down.
    pub fn rule_largest_avgwordlen(&self) -> (r: i128)
        requires
            path_bounded(self@),
        ensures
            r == largest_avgwordlen(self@),
            0 <= r <= 6 * MAX_BUFFER_LEN,
    {
        let n: usize = self.intervals.len();
        if n == 0 {
            return 0;
        }
        let sum: u128 = self.rule_largest_sum() as u128;
        let avg: u128 = 6 * sum / (n as u128);
        proof {
            let total = sum as int;
            let count = n as int;
            assert(6 * total <= count * (6 * MAX_BUFFER_LEN)) by (nonlinear_arith)
                requires
                    total <= count * MAX_BUFFER_LEN,
            ;
            vstd::arithmetic::div_mod::lemma_div_is_ordered(
                6 * total,
                count * (6 * MAX_BUFFER_LEN),
                count,
            );
            vstd::arithmetic::div_mod::lemma_div_multiples_vanish(6 * MAX_BUFFER_LEN as int, count);
            assert(count * (6 * MAX_BUFFER_LEN) == (6 * MAX_BUFFER_LEN) * count) by (nonlinear_arith);
        }
        avg as i128
    }

    /// Minus the sum of the distances between the spans of every two
    /// intervals.
    pub fn rule_smallest_lenvariance(&self) -> (r: i128)
        requires
            path_bounded(self@),
        ensures
            r == smallest_lenvariance(self@),
            -(self@.len() * (MAX_PATH_LEN * MAX_BUFFER_LEN)) <= r <= 0,
    {
        let n: usize = self.intervals.len();
        let mut total: i128 = 0;
        let mut i: usize = 0;
        while i < n
            invariant
                i <= n,
                n == self.intervals@.len(),
                path_bounded(self@),
                total == spread_upto(self@, i as int),
                0 <= total <= i * (MAX_PATH_LEN * MAX_BUFFER_LEN),
            decreases n - i,
        {
            let mut row: i128 = 0;
            let mut j: usize = i + 1;
            while j < n
                invariant
                    i < j <= n,
                    n == self.intervals@.len(),
                    path_bounded(self@),
                    row == spread_of(self@, i as int, j as int),
                    0 <= row <= (j - i - 1) * MAX_BUFFER_LEN,
                decreases n - j,
            {
                let first = &self.intervals[i];
                let second = &self.intervals[j];
                proof {
                    assert(self@[i as int] == first@);
                    assert(self@[j as int] == second@);
                }
                let a: usize = first.len();
                let b: usize = second.len();
                let d: usize = if a < b {
                    b - a
                } else {
                    a - b
                };
                row = row + d as i128;
                j = j + 1;
            }
            assert(row <= MAX_PATH_LEN * MAX_BUFFER_LEN) by (nonlinear_arith)
                requires
                    row <= (n - i - 1) * MAX_BUFFER_LEN,
                    i < n <= MAX_PATH_LEN,
            ;
            assert((i + 1) * (MAX_PATH_LEN * MAX_BUFFER_LEN) == i * (MAX_PATH_LEN * MAX_BUFFER_LEN)
                + MAX_PATH_LEN * MAX_BUFFER_LEN) by (nonlinear_arith);
            assert(i * (MAX_PATH_LEN * MAX_BUFFER_LEN) <= MAX_PATH_LEN * (MAX_PATH_LEN
                * MAX_BUFFER_LEN)) by (nonlinear_arith)
                requires
                    i < n <= MAX_PATH_LEN,
            ;
            total = total + row;
            i = i + 1;
        }
        -total
    }

    /// The sum of the frequencies of the intervals, each cut down to a
    /// 512th where the interval spans a single position.
    pub fn rule_largest_freqsum(&self) -> (r: i128)
        requires
            path_bounded(self@),
        ensures
            r == largest_freqsum(self@),
            0 <= r <= self@.len() * 0xFFFF_FFFF,
    {
        let n: usize = self.intervals.len();
        let mut total: i128 = 0;
        let mut i: usize = 0;
        while i < n
            invariant
                i <= n,
                n == self.intervals@.len(),
                path_bounded(self@),
                total == largest_freqsum(self@.take(i as int)),
                0 <= total <= i * 0xFFFF_FFFF,
            decreases n - i,
        {
            let interval = &self.intervals[i];
            proof {
                assert(self@[i as int] == interval@);
                assert(self@.take(i + 1).drop_last() =~= self@.take(i as int));
            }
            let freq: u32 = interval.phrase.freq();
            let reduced: u32 = if interval.len() == 1 {
                freq / 512
            } else {
                freq
            };
            total = total + reduced as i128;
            i = i + 1;
        }
        assert(self@.take(n as int) =~= self@);
        total
    }
}

/// The intervals gathered so far with one more: where the last of them
/// ends at a glue, the two become one phrase, else the new one is added.
pub open spec fn glue(glues: Seq<Glue>, acc: Seq<IntervalView>, interval: IntervalView) -> Seq<
    IntervalView,
> {
    if acc.len() > 0 && glues.contains(Glue(acc.last().end)) {
        acc.drop_last().push(
            IntervalView {
                start: acc.last().start,
                end: interval.end,
                is_phrase: true,
                phrase: acc.last().phrase + interval.phrase,
            },
        )
    } else {
        acc.push(interval)
    }
}

/// The intervals folded from the left with [`glue`].
pub open spec fn glue_all(glues: Seq<Glue>, intervals: Seq<IntervalView>) -> Seq<IntervalView>
    decreases intervals.len(),
{
    if intervals.len() == 0 {
        Seq::empty()
    } else {
        glue(glues, glue_all(glues, intervals.drop_last()), intervals.last())
    }
}

/// Whether `position` is one of the glues.
pub fn has_glue(glues: &Vec<Glue>, position: usize) -> (b: bool)
    ensures
        b == glues@.contains(Glue(position)),
{
    let mut i: usize = 0;
    while i < glues.len()
        invariant
            i <= glues@.len(),
            forall|k: int| 0 <= k < i ==> glues@[k] != Glue(position),
        decreases glues@.len() - i,
    {
        if glues[i].0 == position {
            assert(glues@[i as int] == Glue(position));
            return true;
        }
        i = i + 1;
    }
    false
}

/// Adds one interval to those gathered so far, merging it into the last of
/// them where that one ends at a glue of the composition.
pub fn glue_fn(com: &Composition, acc: Vec<Interval>, interval: Interval) -> (r: Vec<Interval>)
    ensures
        interval_views(r@) == glue(com.glues@, interval_views(acc@), interval@),
{
    let mut acc = acc;
    let ghost before = interval_views(acc@);
    if acc.len() == 0 {
        acc.push(interval);
        assert(interval_views(acc@) =~= before.push(interval@));
        return acc;
    }
    let last_end: usize = acc[acc.len() - 1].end;
    assert(before.last() == acc@[acc@.len() - 1]@);
    if has_glue(&com.glues, last_end) {
        let last = acc.pop().unwrap();
        let merged = Interval {
            start: last.start,
            end: interval.end,
            is_phrase: true,
            phrase: last.phrase.concat(interval.phrase.as_str()),
        };
        acc.push(merged);
        assert(interval_views(acc@) =~= before.drop_last().push(merged@));
    } else {
        acc.push(interval);
        assert(interval_views(acc@) =~= before.push(interval@));
    }
    acc
}

/// Whether a break lies strictly inside the span `[start, end)`.
pub open spec fn crosses_break(breaks: Seq<Break>, start: int, end: int) -> bool {
    exists|i: int| 0 <= i < breaks.len() && start < (#[trigger] breaks[i]).0 < end
}

/// Whether every symbol is a syllable.
pub open spec fn all_syllables(symbols: Seq<Symbol>) -> bool {
    forall|i: int| 0 <= i < symbols.len() ==> (#[trigger] symbols[i]) is Syllable
}

/// The syllables that the symbols hold.
pub open spec fn syllables_of(symbols: Seq<Symbol>) -> Seq<Syllable> {
    Seq::new(symbols.len(), |i: int| symbols[i]->Syllable_0)
}

/// The `len` characters of `text` from `offset` on, as far as there are any.
pub open spec fn clip(text: Seq<char>, offset: int, len: int) -> Seq<char> {
    let from = if offset < text.len() {
        offset
    } else {
        text.len() as int
    };
    let to = if offset + len < text.len() {
        offset + len
    } else {
        text.len() as int
    };
    text.subrange(from, to)
}

/// Whether a phrase for the span `[start, end)` agrees with a selection:
/// where the selection lies inside the span, the phrase has the selected
/// text at the selection's place.
pub open spec fn agrees(text: Seq<char>, start: int, end: int, selection: IntervalView) -> bool {
    start <= selection.start && end >= selection.end ==> clip(
        text,
        selection.start - start,
        selection.end - selection.start,
    ) == selection.phrase
}

/// Whether a phrase for the span `[start, end)` agrees with every selection.
pub open spec fn compatible(
    text: Seq<char>,
    start: int,
    end: int,
    selections: Seq<IntervalView>,
) -> bool {
    forall|i: int| 0 <= i < selections.len() ==> agrees(text, start, end, #[trigger] selections[i])
}

/// Whether `phrases[k]` is the choice among the first `n` phrases: it is
/// compatible, no compatible one among them is more frequent, and none
/// before it is as frequent.
pub open spec fn best_upto(
    phrases: Seq<PhraseView>,
    n: int,
    k: int,
    start: int,
    end: int,
    selections: Seq<IntervalView>,
) -> bool {
    &&& 0 <= k < n <= phrases.len()
    &&& compatible(phrases[k].text, start, end, selections)
    &&& forall|j: int|
        0 <= j < n && compatible((#[trigger] phrases[j]).text, start, end, selections) ==> {
            &&& phrases[j].freq <= phrases[k].freq
            &&& j < k ==> phrases[j].freq < phrases[k].freq
        }
}

/// The most frequent of the phrases that agree with every selection, the
/// first of them where several are as frequent; none where none agrees.
pub open spec fn best_candidate(
    phrases: Seq<PhraseView>,
    start: int,
    end: int,
    selections: Seq<IntervalView>,
) -> Option<PossiblePhraseView> {
    if exists|k: int| best_upto(phrases, phrases.len() as int, k, start, end, selections) {
        Some(
            PossiblePhraseView::Phrase(
                phrases[choose|k: int|
                    best_upto(phrases, phrases.len() as int, k, start, end, selections)],
            ),
        )
    } else {
        None
    }
}

/// What the span of `symbols` that starts at `start` may be rendered as:
/// nothing where a break lies inside it; the character itself where it is a
/// single literal character; nothing where it holds anything but syllables;
/// else the best candidate that the dictionary files under its syllables.
pub open spec fn best_phrase<D: Dictionary>(
    dict: &D,
    start: int,
    symbols: Seq<Symbol>,
    selections: Seq<IntervalView>,
    breaks: Seq<Break>,
) -> Option<PossiblePhraseView> {
    let end = start + symbols.len();
    if crosses_break(breaks, start, end) {
        None
    } else if symbols.len() == 1 && symbols[0] is Char {
        Some(PossiblePhraseView::Symbol(symbols[0]))
    } else if !all_syllables(symbols) {
        None
    } else {
        best_candidate(dict.phrases_of(syllables_of(symbols)), start, end, selections)
    }
}

/// Whether every selection starts no later than it ends.
pub open spec fn selections_ordered(selections: Seq<IntervalView>) -> bool {
    forall|i: int| 0 <= i < selections.len() ==> (#[trigger] selections[i]).start <= selections[i].end
}

/// Whether `text` holds `expected` in the `len` characters from `offset` on.
pub fn holds_at(text: &str, offset: usize, len: usize, expected: &str) -> (b: bool)
    requires
        offset + len <= usize::MAX,
    ensures
        b == (clip(text@, offset as int, len as int) == expected@),
{
    let total: usize = text.unicode_len();
    let from: usize = if offset < total {
        offset
    } else {
        total
    };
    let to: usize = if offset + len < total {
        offset + len
    } else {
        total
    };
    let wanted: usize = expected.unicode_len();
    if to - from != wanted {
        return false;
    }
    let ghost part = clip(text@, offset as int, len as int);
    let mut i: usize = 0;
    while i < wanted
        invariant
            i <= wanted,
            wanted == expected@.len(),
            total == text@.len(),
            from <= to <= total,
            to - from == wanted,
            part == clip(text@, offset as int, len as int),
            part == text@.subrange(from as int, to as int),
            forall|k: int| 0 <= k < i ==> part[k] == expected@[k],
        decreases wanted - i,
    {
        if text.get_char(from + i) != expected.get_char(i) {
            assert(part[i as int] == text@[from + i]);
            assert(part[i as int] != expected@[i as int]);
            return false;
        }
        i = i + 1;
    }
    assert(part =~= expected@);
    true
}

/// Whether a phrase for the span `[start, end)` agrees with every selection.
pub fn is_compatible(text: &str, start: usize, end: usize, selections: &[Interval]) -> (b: bool)
    requires
        start <= end,
        selections_ordered(interval_views(selections@)),
    ensures
        b == compatible(text@, start as int, end as int, interval_views(selections@)),
{
    let ghost views = interval_views(selections@);
    let mut i: usize = 0;
    while i < selections.len()
        invariant
            i <= selections@.len(),
            start <= end,
            views == interval_views(selections@),
            selections_ordered(views),
            forall|k: int| 0 <= k < i ==> agrees(text@, start as int, end as int, #[trigger] views[k]),
        decreases selections@.len() - i,
    {
        let selection = &selections[i];
        assert(views[i as int] == selection@);
        if start <= selection.start && end >= selection.end {
            let offset: usize = selection.start - start;
            let len: usize = selection.end - selection.start;
            if !holds_at(text, offset, len, selection.phrase.as_str()) {
                assert(!agrees(text@, start as int, end as int, views[i as int]));
                return false;
            }
        }
        i = i + 1;
    }
    true
}

/// No two phrases are the choice among the same phrases.
pub proof fn lemma_best_is_unique(
    phrases: Seq<PhraseView>,
    n: int,
    a: int,
    b: int,
    start: int,
    end: int,
    selections: Seq<IntervalView>,
)
    requires
        best_upto(phrases, n, a, start, end, selections),
        best_upto(phrases, n, b, start, end, selections),
    ensures
        a == b,
{
    if a < b {
        assert(phrases[a].freq < phrases[b].freq);
        assert(phrases[b].freq <= phrases[a].freq);
    } else if b < a {
        assert(phrases[b].freq < phrases[a].freq);
        assert(phrases[a].freq <= phrases[b].freq);
    }
}

/// The views of an optional phrase and of an optional possible phrase agree.
pub open spec fn same_choice(found: Option<PossiblePhrase>, wanted: Option<PossiblePhraseView>) -> bool {
    match found {
        Some(phrase) => wanted == Some(phrase@) && phrase.wf(),
        None => wanted is None,
    }
}

/// The span of the composition's buffer from `begin` to `end`, rendered.
pub open spec fn span_phrase<D: Dictionary>(
    dict: &D,
    comp: &Composition,
    begin: int,
    end: int,
) -> Option<PossiblePhraseView> {
    best_phrase(
        dict,
        begin,
        comp.buffer@.subrange(begin, end),
        interval_views(comp.selections@),
        comp.breaks@,
    )
}

/// The intervals that start at `begin` and end before `end`, by their end.
pub open spec fn row_intervals<D: Dictionary>(
    dict: &D,
    comp: &Composition,
    begin: int,
    end: int,
) -> Seq<PossibleIntervalView>
    decreases end - begin,
{
    if end <= begin {
        Seq::empty()
    } else {
        let before = row_intervals(dict, comp, begin, end - 1);
        match span_phrase(dict, comp, begin, end - 1) {
            Some(phrase) => before.push(
                PossibleIntervalView { start: begin as usize, end: (end - 1) as usize, phrase },
            ),
            None => before,
        }
    }
}

/// The intervals that start before `begin`, by their start and then by
/// their end.
pub open spec fn intervals_before<D: Dictionary>(
    dict: &D,
    comp: &Composition,
    begin: int,
) -> Seq<PossibleIntervalView>
    decreases begin,
{
    if begin <= 0 {
        Seq::empty()
    } else {
        intervals_before(dict, comp, begin - 1) + row_intervals(
            dict,
            comp,
            begin - 1,
            comp.buffer@.len() as int + 1,
        )
    }
}

/// Every span of the buffer that can be rendered, with its rendering.
pub open spec fn all_intervals<D: Dictionary>(dict: &D, comp: &Composition) -> Seq<
    PossibleIntervalView,
> {
    intervals_before(dict, comp, comp.buffer@.len() as int + 1)
}

/// Whether every interval is a span that ends no later than `len` and
/// holds a well-formed phrase.
pub open spec fn intervals_within(intervals: Seq<PossibleInterval>, len: int) -> bool {
    forall|i: int|
        0 <= i < intervals.len() ==> {
            &&& (#[trigger] intervals[i]).start <= intervals[i].end
            &&& intervals[i].end <= len
            &&& intervals[i].phrase.wf()
        }
}

/// The engine that segments a composition buffer into phrases.
#[derive(Debug)]
pub struct ChewingEngine;

impl ChewingEngine {
    /// A new engine.
    pub fn new() -> (engine: ChewingEngine) {
        ChewingEngine
    }

    /// What the span `symbols`, which starts at `start`, may be rendered as.
    #[verifier::loop_isolation(false)]
    pub fn find_best_phrase<D: Dictionary>(
        &self,
        dict: &D,
        start: usize,
        symbols: &[Symbol],
        selections: &[Interval],
        breaks: &[Break],
    ) -> (r: Option<PossiblePhrase>)
        requires
            dict.wf(),
            start + symbols@.len() <= usize::MAX,
            selections_ordered(interval_views(selections@)),
        ensures
            same_choice(
                r,
                best_phrase(dict, start as int, symbols@, interval_views(selections@), breaks@),
            ),
    {
        let end: usize = start + symbols.len();
        let mut i: usize = 0;
        while i < breaks.len()
            invariant
                i <= breaks@.len(),
                forall|k: int| 0 <= k < i ==> !(start < (#[trigger] breaks@[k]).0 < end),
            decreases breaks@.len() - i,
        {
            if breaks[i].0 > start && breaks[i].0 < end {
                assert(start < breaks@[i as int].0 < end);
                return None;
            }
            i = i + 1;
        }
        if symbols.len() == 1 && symbols[0].is_char() {
            return Some(PossiblePhrase::Symbol(symbols[0]));
        }
        let mut syllables: Vec<Syllable> = Vec::new();
        i = 0;
        while i < symbols.len()
            invariant
                i <= symbols@.len(),
                syllables@.len() == i,
                forall|k: int| 0 <= k < i ==> (#[trigger] symbols@[k]) is Syllable,
                forall|k: int| 0 <= k < i ==> syllables@[k] == symbols@[k]->Syllable_0,
            decreases symbols@.len() - i,
        {
            if !symbols[i].is_syllable() {
                return None;
            }
            syllables.push(symbols[i].as_syllable());
            i = i + 1;
        }
        assert(syllables@ =~= syllables_of(symbols@));
        let mut phrases = dict.lookup_all_phrases(syllables.as_slice());
        let ghost found = phrase_views(phrases@);
        let ghost chosen = interval_views(selections@);
        let mut best: Option<usize> = None;
        let mut max_freq: u32 = 0;
        let mut k: usize = 0;
        while k < phrases.len()
            invariant
                k <= phrases@.len(),
                start <= end,
                found == phrase_views(phrases@),
                chosen == interval_views(selections@),
                selections_ordered(chosen),
                match best {
                    Some(b) => max_freq == found[b as int].freq && best_upto(
                        found,
                        k as int,
                        b as int,
                        start as int,
                        end as int,
                        chosen,
                    ),
                    None => forall|j: int|
                        0 <= j < k ==> !compatible(
                            (#[trigger] found[j]).text,
                            start as int,
                            end as int,
                            chosen,
                        ),
                },
            decreases phrases@.len() - k,
        {
            let phrase = &phrases[k];
            assert(found[k as int] == phrase@);
            if is_compatible(phrase.as_str(), start, end, selections) {
                if best.is_none() || phrase.freq() > max_freq {
                    max_freq = phrase.freq();
                    best = Some(k);
                }
            }
            k = k + 1;
        }
        match best {
            Some(b) => {
                proof {
                    let pick = choose|c: int|
                        best_upto(found, found.len() as int, c, start as int, end as int, chosen);
                    lemma_best_is_unique(
                        found,
                        found.len() as int,
                        pick,
                        b as int,
                        start as int,
                        end as int,
                        chosen,
                    );
                }
                let phrase = phrases.swap_remove(b);
                Some(PossiblePhrase::Phrase(Rc::new(phrase)))
            },
            None => {
                assert forall|c: int|
                    !best_upto(found, found.len() as int, c, start as int, end as int, chosen) by {
                    if 0 <= c < found.len() {
                        assert(!compatible(found[c].text, start as int, end as int, chosen));
                    }
                }
                None
            },
        }
    }

    /// Every span of the buffer that can be rendered, with its rendering:
    /// by the start of the span, and then by its end.
    pub fn find_intervals<D: Dictionary>(&self, dict: &D, comp: &Composition) -> (r: Vec<
        PossibleInterval,
    >)
        requires
            dict.wf(),
            comp.wf(),
        ensures
            possible_views(r@) == all_intervals(dict, comp),
            intervals_within(r@, comp.buffer@.len() as int),
            r@.len() <= (comp.buffer@.len() + 1) * (comp.buffer@.len() + 1),
    {
        let len: usize = comp.buffer.len();
        let mut intervals: Vec<PossibleInterval> = Vec::new();
        let mut begin: usize = 0;
        assert(selections_ordered(interval_views(comp.selections@)));
        while begin <= len
            invariant
                begin <= len + 1,
                len == comp.buffer@.len(),
                len <= MAX_BUFFER_LEN,
                dict.wf(),
                selections_ordered(interval_views(comp.selections@)),
                possible_views(intervals@) == intervals_before(dict, comp, begin as int),
                intervals_within(intervals@, len as int),
                intervals@.len() <= begin * (len + 1),
            decreases len + 1 - begin,
        {
            let ghost before = possible_views(intervals@);
            let ghost count = intervals@.len();
            let mut end: usize = begin;
            while end <= len
                invariant
                    begin <= end <= len + 1,
                    begin <= len,
                    len == comp.buffer@.len(),
                    len <= MAX_BUFFER_LEN,
                    dict.wf(),
                    selections_ordered(interval_views(comp.selections@)),
                    possible_views(intervals@) == before + row_intervals(
                        dict,
                        comp,
                        begin as int,
                        end as int,
                    ),
                    intervals_within(intervals@, len as int),
                    intervals@.len() <= count + (end - begin),
                decreases len + 1 - end,
            {
                let symbols = vstd::slice::slice_subrange(comp.buffer.as_slice(), begin, end);
                let found = self.find_best_phrase(
                    dict,
                    begin,
                    symbols,
                    comp.selections.as_slice(),
                    comp.breaks.as_slice(),
                );
                let ghost old_views = possible_views(intervals@);
                if let Some(phrase) = found {
                    let interval = PossibleInterval { start: begin, end, phrase };
                    intervals.push(interval);
                    assert(possible_views(intervals@) =~= old_views.push(interval@));
                }
                end = end + 1;
                assert(possible_views(intervals@) =~= before + row_intervals(
                    dict,
                    comp,
                    begin as int,
                    end as int,
                ));
            }
            assert(count + (len + 1 - begin) <= (begin + 1) * (len + 1)) by (nonlinear_arith)
                requires
                    count <= begin * (len + 1),
            ;
            begin = begin + 1;
        }
        intervals
    }
}

/// The intervals that end at `end`, in the order in which they are given.
pub open spec fn ending_at(intervals: Seq<PossibleIntervalView>, end: int) -> Seq<
    PossibleIntervalView,
>
    decreases intervals.len(),
{
    if intervals.len() == 0 {
        Seq::empty()
    } else {
        let before = ending_at(intervals.drop_last(), end);
        if intervals.last().end == end {
            before.push(intervals.last())
        } else {
            before
        }
    }
}

/// The intervals that end before `ends`, by their end; those that end at the
/// same position keep the order in which they are given.
pub open spec fn sorted_by_end(intervals: Seq<PossibleIntervalView>, ends: int) -> Seq<
    PossibleIntervalView,
>
    decreases ends,
{
    if ends <= 0 {
        Seq::empty()
    } else {
        sorted_by_end(intervals, ends - 1) + ending_at(intervals, ends - 1)
    }
}

/// One step of the search for the best path: the best path that ends where
/// `interval` starts, with `interval` added, takes the place of the best
/// path that ends where `interval` ends if it scores higher.
pub open spec fn relax(best: Seq<Seq<PossibleIntervalView>>, interval: PossibleIntervalView) -> Seq<
    Seq<PossibleIntervalView>,
> {
    let candidate = best[interval.start as int].push(interval);
    if path_score(best[interval.end as int]) < path_score(candidate) {
        best.update(interval.end as int, candidate)
    } else {
        best
    }
}

/// The steps of [`relax`] for the intervals, one after the other.
pub open spec fn relax_all(
    best: Seq<Seq<PossibleIntervalView>>,
    intervals: Seq<PossibleIntervalView>,
) -> Seq<Seq<PossibleIntervalView>>
    decreases intervals.len(),
{
    if intervals.len() == 0 {
        best
    } else {
        relax(relax_all(best, intervals.drop_last()), intervals.last())
    }
}

/// The path that the search ends with for a buffer of `len` symbols: it
/// starts from empty paths for every position, takes the intervals by
/// their end, and hands out what it holds for the position `len`.
pub open spec fn best_path(len: int, intervals: Seq<PossibleIntervalView>) -> Seq<
    PossibleIntervalView,
> {
    relax_all(
        Seq::new((len + 1) as nat, |i: int| Seq::<PossibleIntervalView>::empty()),
        sorted_by_end(intervals, len + 1),
    )[len]
}

/// The views of a sequence of paths, element by element.
pub open spec fn path_views(paths: Seq<PossiblePath>) -> Seq<Seq<PossibleIntervalView>> {
    Seq::new(paths.len(), |i: int| paths[i]@)
}

/// Whether every path holds no more than `count` intervals, each of them
/// within `len`.
pub open spec fn paths_within(paths: Seq<PossiblePath>, count: int, len: int) -> bool {
    forall|i: int|
        0 <= i < paths.len() ==> {
            &&& (#[trigger] paths[i]).intervals@.len() <= count
            &&& intervals_within(paths[i].intervals@, len)
        }
}

/// A path of no more than [`MAX_PATH_LEN`] intervals within
/// [`MAX_BUFFER_LEN`] has scores that fit.
pub proof fn lemma_within_is_bounded(intervals: Seq<PossibleInterval>, len: int)
    requires
        intervals_within(intervals, len),
        len <= MAX_BUFFER_LEN,
        intervals.len() <= MAX_PATH_LEN,
    ensures
        path_bounded(possible_views(intervals)),
{
    assert forall|i: int| 0 <= i < intervals.len() implies (#[trigger] possible_views(
        intervals,
    )[i]).start <= possible_views(intervals)[i].end && possible_views(intervals)[i].end
        <= MAX_BUFFER_LEN by {
        assert(intervals[i].start <= intervals[i].end);
    }
}

impl ChewingEngine {
    /// The best path for a buffer of `len` symbols, found by dynamic
    /// programming over the positions at which a path may end.
    ///
    /// The score of a path depends on the whole path, so every candidate
    /// is scored anew.
    pub fn find_best_path(&self, len: usize, intervals: Vec<PossibleInterval>) -> (r: Vec<
        PossibleInterval,
    >)
        requires
            len <= MAX_BUFFER_LEN,
            intervals_within(intervals@, len as int),
            (len + 1) * intervals@.len() <= MAX_PATH_LEN,
        ensures
            possible_views(r@) == best_path(len as int, possible_views(intervals@)),
            intervals_within(r@, len as int),
    {
        let ghost given = possible_views(intervals@);
        let ghost empty_paths = Seq::new(
            (len + 1) as nat,
            |i: int| Seq::<PossibleIntervalView>::empty(),
        );
        let count: usize = intervals.len();
        let mut highest_score: Vec<PossiblePath> = Vec::new();
        let mut k: usize = 0;
        while k <= len
            invariant
                k <= len + 1,
                len <= MAX_BUFFER_LEN,
                highest_score@.len() == k,
                forall|i: int| 0 <= i < k ==> (#[trigger] highest_score@[i]).intervals@.len() == 0,
            decreases len + 1 - k,
        {
            let empty = PossiblePath::default();
            assert(empty.intervals@.len() == empty@.len());
            highest_score.push(empty);
            k = k + 1;
        }
        assert(path_views(highest_score@) =~= empty_paths) by {
            assert forall|i: int| 0 <= i < highest_score@.len() implies highest_score@[i]@
                == Seq::<PossibleIntervalView>::empty() by {
                assert(highest_score@[i].intervals@.len() == 0);
                assert(highest_score@[i]@ =~= Seq::<PossibleIntervalView>::empty());
            }
        }
        let mut end: usize = 0;
        while end <= len
            invariant
                end <= len + 1,
                len <= MAX_BUFFER_LEN,
                count == intervals@.len(),
                given == possible_views(intervals@),
                intervals_within(intervals@, len as int),
                (len + 1) * count <= MAX_PATH_LEN,
                highest_score@.len() == len + 1,
                paths_within(highest_score@, end * count, len as int),
                path_views(highest_score@) == relax_all(
                    empty_paths,
                    sorted_by_end(given, end as int),
                ),
            decreases len + 1 - end,
        {
            let ghost sorted = sorted_by_end(given, end as int);
            let mut i: usize = 0;
            assert(ending_at(given.take(0), end as int) =~= Seq::empty());
            assert(sorted + Seq::<PossibleIntervalView>::empty() =~= sorted);
            while i < count
                invariant
                    i <= count,
                    end <= len,
                    len <= MAX_BUFFER_LEN,
                    count == intervals@.len(),
                    given == possible_views(intervals@),
                    intervals_within(intervals@, len as int),
                    (len + 1) * count <= MAX_PATH_LEN,
                    highest_score@.len() == len + 1,
                    paths_within(highest_score@, end * count + i, len as int),
                    path_views(highest_score@) == relax_all(
                        empty_paths,
                        sorted + ending_at(given.take(i as int), end as int),
                    ),
                decreases count - i,
            {
                let ghost seen = ending_at(given.take(i as int), end as int);
                assert(given.take(i + 1).drop_last() =~= given.take(i as int));
                assert(given.take(i + 1).last() == intervals@[i as int]@);
                assert(end * count + i < (len + 1) * count) by (nonlinear_arith)
                    requires
                        end <= len,
                        i < count,
                ;
                if intervals[i].end == end {
                    let interval = intervals[i].clone();
                    let start: usize = interval.start;
                    let ghost before = path_views(highest_score@);
                    let mut intervals_of_candidate = clone_intervals(
                        &highest_score[start].intervals,
                    );
                    let ghost prefix = possible_views(intervals_of_candidate@);
                    assert(prefix == before[start as int]);
                    intervals_of_candidate.push(interval);
                    let candidate_path = PossiblePath { intervals: intervals_of_candidate };
                    assert(candidate_path@ =~= before[start as int].push(interval@));
                    proof {
                        assert forall|j: int|
                            0 <= j < candidate_path.intervals@.len() implies {
                            &&& (#[trigger] candidate_path.intervals@[j]).start
                                <= candidate_path.intervals@[j].end
                            &&& candidate_path.intervals@[j].end <= len
                            &&& candidate_path.intervals@[j].phrase.wf()
                        } by {
                            if j < prefix.len() {
                                assert(candidate_path@[j] == before[start as int][j]);
                                assert(highest_score@[start as int].intervals@[j].start
                                    <= highest_score@[start as int].intervals@[j].end);
                                assert(candidate_path.intervals@[j]@
                                    == highest_score@[start as int].intervals@[j]@);
                            } else {
                                assert(candidate_path.intervals@[j]@ == intervals@[i as int]@);
                            }
                        }
                        lemma_within_is_bounded(candidate_path.intervals@, len as int);
                        lemma_within_is_bounded(highest_score@[end as int].intervals@, len as int);
                        assert(before[end as int] == highest_score@[end as int]@);
                    }
                    if highest_score[end].score() < candidate_path.score() {
                        highest_score.set(end, candidate_path);
                        assert(path_views(highest_score@) =~= relax(before, interval@));
                    }
                    assert(path_views(highest_score@) == relax(before, interval@));
                    proof {
                        let all = sorted + seen.push(interval@);
                        assert(all.drop_last() =~= sorted + seen);
                        assert(all.last() == interval@);
                    }
                }
                i = i + 1;
            }
            assert(given.take(count as int) =~= given);
            assert((end + 1) * count == end * count + count) by (nonlinear_arith);
            end = end + 1;
        }
        let last = highest_score.pop().unwrap();
        last.intervals
    }
}

/// Every path of `tails` with `interval` put before it.
pub open spec fn prepend_all(
    interval: PossibleIntervalView,
    tails: Seq<Seq<PossibleIntervalView>>,
) -> Seq<Seq<PossibleIntervalView>> {
    Seq::new(tails.len(), |i: int| seq![interval] + tails[i])
}

/// Every path of `tails` with the path `prefix` put before it.
pub open spec fn with_prefix(
    prefix: Seq<PossibleIntervalView>,
    tails: Seq<Seq<PossibleIntervalView>>,
) -> Seq<Seq<PossibleIntervalView>> {
    Seq::new(tails.len(), |i: int| prefix + tails[i])
}

/// Every segmentation of the buffer from `start` to `target` in which each
/// segment is rendered as the best phrase for its span: first those whose
/// first segment is shortest.
pub open spec fn paths_from<D: Dictionary>(
    dict: &D,
    comp: &Composition,
    start: int,
    target: int,
) -> Seq<Seq<PossibleIntervalView>>
    decreases target - start, target - start + 2,
{
    if start >= target {
        seq![Seq::empty()]
    } else {
        paths_via(dict, comp, start, target, target + 1)
    }
}

/// The segmentations from `start` to `target` whose first segment ends
/// before `ends`.
pub open spec fn paths_via<D: Dictionary>(
    dict: &D,
    comp: &Composition,
    start: int,
    target: int,
    ends: int,
) -> Seq<Seq<PossibleIntervalView>>
    decreases target - start, ends - start,
{
    if ends <= start + 1 || ends > target + 1 {
        Seq::empty()
    } else {
        let before = paths_via(dict, comp, start, target, ends - 1);
        match span_phrase(dict, comp, start, ends - 1) {
            Some(phrase) => before + prepend_all(
                PossibleIntervalView { start: start as usize, end: (ends - 1) as usize, phrase },
                paths_from(dict, comp, ends - 1, target),
            ),
            None => before,
        }
    }
}

/// The key under which the memo holds the span `[start, end)`.
pub open spec fn cell_key(start: int, end: int) -> int {
    start * 0x1_0000 + end
}

/// The memo of the spans rendered so far.
pub type Graph = HashMap<usize, Option<PossiblePhrase>>;

/// Whether everything in the memo is what the span it is filed under is
/// rendered as.
pub open spec fn graph_ok<D: Dictionary>(graph: &Graph, dict: &D, comp: &Composition) -> bool {
    forall|start: int, end: int|
        0 <= start <= end <= MAX_BUFFER_LEN && graph@.contains_key(
            #[trigger] cell_key(start, end) as usize,
        ) ==> same_choice(
            graph@[cell_key(start, end) as usize],
            span_phrase(dict, comp, start, end),
        )
}

/// Whether the memo `after` holds all that the memo `before` held, as it
/// was.
pub open spec fn memo_kept(
    before: Map<usize, Option<PossiblePhrase>>,
    after: Map<usize, Option<PossiblePhrase>>,
) -> bool {
    forall|key: usize| #[trigger]
        before.contains_key(key) ==> after.contains_key(key) && after[key] == before[key]
}

/// Whether `key` is the key of a non-empty span between `start` and
/// `target`.
pub open spec fn is_span_key(key: usize, start: int, target: int) -> bool {
    exists|s: int, e: int| start <= s < e <= target && key == #[trigger] cell_key(s, e)
}

/// Whether all that the memo `after` holds and the memo `before` did not
/// is filed under non-empty spans between `start` and `target`.
pub open spec fn memo_grew_within(
    before: Map<usize, Option<PossiblePhrase>>,
    after: Map<usize, Option<PossiblePhrase>>,
    start: int,
    target: int,
) -> bool {
    forall|key: usize| #[trigger]
        after.contains_key(key) && !before.contains_key(key) ==> is_span_key(key, start, target)
}

/// The path that an optional prefix stands for: none is the empty path.
pub open spec fn prefix_view(prefix: Option<PossiblePath>) -> Seq<PossibleIntervalView> {
    match prefix {
        Some(path) => path@,
        None => Seq::empty(),
    }
}

impl ChewingEngine {
    /// The span `[start, end)` of the buffer, rendered: taken from the memo
    /// where it holds the span, else looked up and filed there.
    pub fn cached_phrase<D: Dictionary>(
        &self,
        dict: &D,
        graph: &mut Graph,
        composition: &Composition,
        start: usize,
        end: usize,
    ) -> (r: Option<PossiblePhrase>)
        requires
            dict.wf(),
            composition.wf(),
            start <= end <= composition.buffer@.len(),
            graph_ok(old(graph), dict, composition),
        ensures
            graph_ok(final(graph), dict, composition),
            same_choice(r, span_phrase(dict, composition, start as int, end as int)),
            final(graph)@.dom() == old(graph)@.dom().insert(
                cell_key(start as int, end as int) as usize,
            ),
            memo_kept(old(graph)@, final(graph)@),
    {
        let key: usize = start * 0x1_0000 + end;
        assert(key == cell_key(start as int, end as int));
        let cached = match graph.get(&key) {
            Some(entry) => Some(
                match entry {
                    Some(phrase) => Some(phrase.clone()),
                    None => None,
                },
            ),
            None => None,
        };
        match cached {
            Some(found) => {
                assert(graph@.dom().insert(key) =~= graph@.dom());
                found
            },
            None => {
                let symbols = vstd::slice::slice_subrange(composition.buffer.as_slice(), start, end);
                let found = self.find_best_phrase(
                    dict,
                    start,
                    symbols,
                    composition.selections.as_slice(),
                    composition.breaks.as_slice(),
                );
                let copy = match &found {
                    Some(phrase) => Some(phrase.clone()),
                    None => None,
                };
                graph.insert(key, copy);
                assert forall|s: int, e: int|
                    0 <= s <= e <= MAX_BUFFER_LEN && graph@.contains_key(
                        #[trigger] cell_key(s, e) as usize,
                    ) implies same_choice(
                    graph@[cell_key(s, e) as usize],
                    span_phrase(dict, composition, s, e),
                ) by {
                    if cell_key(s, e) as usize == key {
                        assert(s == start && e == end);
                    }
                }
                found
            },
        }
    }

    /// Every segmentation of the buffer from `start` to `target`, each put
    /// behind `prefix`.
    pub fn find_all_paths<D: Dictionary>(
        &self,
        dict: &D,
        graph: &mut Graph,
        composition: &Composition,
        start: usize,
        target: usize,
        prefix: Option<PossiblePath>,
    ) -> (r: Vec<PossiblePath>)
        requires
            dict.wf(),
            composition.wf(),
            start <= target <= composition.buffer@.len(),
            graph_ok(old(graph), dict, composition),
            start == target ==> prefix is Some,
            prefix matches Some(path) ==> path.intervals@.len() <= start && intervals_within(
                path.intervals@,
                composition.buffer@.len() as int,
            ),
        ensures
            graph_ok(final(graph), dict, composition),
            path_views(r@) == with_prefix(
                prefix_view(prefix),
                paths_from(dict, composition, start as int, target as int),
            ),
            paths_within(r@, target as int, composition.buffer@.len() as int),
            memo_kept(old(graph)@, final(graph)@),
            memo_grew_within(old(graph)@, final(graph)@, start as int, target as int),
            forall|end: int|
                start < end <= target ==> final(graph)@.contains_key(
                    #[trigger] cell_key(start as int, end) as usize,
                ),
        decreases target - start,
    {
        let ghost before = prefix_view(prefix);
        let ghost entry = graph@;
        if start == target {
            let path = prefix.unwrap();
            let mut only: Vec<PossiblePath> = Vec::new();
            only.push(path);
            assert(path_views(only@) =~= with_prefix(before, seq![Seq::empty()])) by {
                assert(before + Seq::<PossibleIntervalView>::empty() =~= before);
            }
            return only;
        }
        let mut result: Vec<PossiblePath> = Vec::new();
        let mut end: usize = start + 1;
        assert(path_views(result@) =~= with_prefix(
            before,
            paths_via(dict, composition, start as int, target as int, end as int),
        ));
        while end <= target
            invariant
                start < end <= target + 1,
                dict.wf(),
                composition.wf(),
                target <= composition.buffer@.len(),
                graph_ok(graph, dict, composition),
                memo_kept(entry, graph@),
                memo_grew_within(entry, graph@, start as int, target as int),
                forall|filed: int|
                    start < filed < end ==> graph@.contains_key(
                        #[trigger] cell_key(start as int, filed) as usize,
                    ),
                before == prefix_view(prefix),
                prefix matches Some(path) ==> path.intervals@.len() <= start && intervals_within(
                    path.intervals@,
                    composition.buffer@.len() as int,
                ),
                path_views(result@) == with_prefix(
                    before,
                    paths_via(dict, composition, start as int, target as int, end as int),
                ),
                paths_within(result@, target as int, composition.buffer@.len() as int),
            decreases target + 1 - end,
        {
            let ghost so_far = paths_via(dict, composition, start as int, target as int, end as int);
            let ghost held = graph@;
            let found = self.cached_phrase(dict, graph, composition, start, end);
            proof {
                let filed = graph@;
                assert(filed.contains_key(cell_key(start as int, end as int) as usize));
                assert forall|key: usize| #[trigger]
                    filed.contains_key(key) && !entry.contains_key(key) implies is_span_key(
                    key,
                    start as int,
                    target as int,
                ) by {
                    if !held.contains_key(key) {
                        assert(key == cell_key(start as int, end as int));
                    }
                }
            }
            if let Some(phrase) = found {
                let mut intervals = match &prefix {
                    Some(path) => clone_intervals(&path.intervals),
                    None => Vec::new(),
                };
                assert(possible_views(intervals@) =~= before);
                let interval = PossibleInterval { start, end, phrase };
                let ghost old_intervals = intervals@;
                intervals.push(interval);
                let longer = PossiblePath { intervals };
                assert(longer@ =~= before.push(interval@));
                assert(intervals_within(longer.intervals@, composition.buffer@.len() as int)) by {
                    assert forall|j: int| 0 <= j < longer.intervals@.len() implies {
                        &&& (#[trigger] longer.intervals@[j]).start <= longer.intervals@[j].end
                        &&& longer.intervals@[j].end <= composition.buffer@.len()
                        &&& longer.intervals@[j].phrase.wf()
                    } by {
                        if j < old_intervals.len() {
                            assert(longer.intervals@[j] == old_intervals[j]);
                            assert(possible_views(old_intervals)[j] == before[j]);
                            match prefix {
                                Some(path) => {
                                    assert(path@[j] == path.intervals@[j]@);
                                    assert(path.intervals@[j].phrase.wf());
                                },
                                None => {},
                            }
                        }
                    }
                }
                let ghost tails = paths_from(dict, composition, end as int, target as int);
                let ghost old_result = path_views(result@);
                let ghost filed = graph@;
                let mut more = self.find_all_paths(
                    dict,
                    graph,
                    composition,
                    end,
                    target,
                    Some(longer),
                );
                let ghost more_views = path_views(more@);
                result.append(&mut more);
                proof {
                    let grown = graph@;
                    assert forall|key: usize| #[trigger]
                        grown.contains_key(key) && !entry.contains_key(key) implies is_span_key(
                        key,
                        start as int,
                        target as int,
                    ) by {
                        if !filed.contains_key(key) {
                            assert(is_span_key(key, end as int, target as int));
                            let (s, e) = choose|s: int, e: int|
                                end <= s < e <= target && key == #[trigger] cell_key(s, e);
                            assert(start <= s < e <= target && key == cell_key(s, e));
                        }
                    }
                    assert(path_views(result@) =~= old_result + more_views);
                    assert(more_views =~= with_prefix(before, prepend_all(interval@, tails))) by {
                        assert forall|i: int| 0 <= i < tails.len() implies before.push(interval@)
                            + tails[i] == before + (seq![interval@] + tails[i]) by {
                            assert(before.push(interval@) + tails[i] =~= before + (seq![interval@]
                                + tails[i]));
                        }
                    }
                    assert(old_result + more_views =~= with_prefix(
                        before,
                        so_far + prepend_all(interval@, tails),
                    ));
                }
            }
            end = end + 1;
        }
        result
    }
}

/// Whether `k` is the place of the first of the kept paths that contains
/// the candidate, or their number where none does.
pub open spec fn is_first_container(
    kept: Seq<Seq<PossibleIntervalView>>,
    candidate: Seq<PossibleIntervalView>,
    k: int,
) -> bool {
    &&& 0 <= k <= kept.len()
    &&& k < kept.len() ==> path_contains(kept[k], candidate)
    &&& forall|i: int| 0 <= i < k ==> !path_contains(#[trigger] kept[i], candidate)
}

/// The place of the first of the kept paths that contains the candidate,
/// or their number where none does.
pub open spec fn first_container(
    kept: Seq<Seq<PossibleIntervalView>>,
    candidate: Seq<PossibleIntervalView>,
) -> int {
    choose|k: int| is_first_container(kept, candidate, k)
}

/// There is one such place only.
pub proof fn lemma_first_container_is(
    kept: Seq<Seq<PossibleIntervalView>>,
    candidate: Seq<PossibleIntervalView>,
    k: int,
)
    requires
        is_first_container(kept, candidate, k),
    ensures
        first_container(kept, candidate) == k,
{
    let other = first_container(kept, candidate);
    assert(is_first_container(kept, candidate, other));
    if other < k {
        assert(!path_contains(kept[other], candidate));
    } else if k < other {
        assert(!path_contains(kept[k], candidate));
    }
}

/// The paths that the candidate does not contain, in their order.
pub open spec fn not_contained(
    paths: Seq<Seq<PossibleIntervalView>>,
    candidate: Seq<PossibleIntervalView>,
) -> Seq<Seq<PossibleIntervalView>>
    decreases paths.len(),
{
    if paths.len() == 0 {
        Seq::empty()
    } else {
        let before = not_contained(paths.drop_last(), candidate);
        if path_contains(candidate, paths.last()) {
            before
        } else {
            before.push(paths.last())
        }
    }
}

/// The kept paths after one more candidate. Where a kept path contains the
/// candidate, the candidate is dropped, and so are the kept paths before
/// the first such path that the candidate contains. Where none does, the
/// kept paths that the candidate contains are dropped and the candidate is
/// added.
pub open spec fn trim_step(
    kept: Seq<Seq<PossibleIntervalView>>,
    candidate: Seq<PossibleIntervalView>,
) -> Seq<Seq<PossibleIntervalView>> {
    let k = first_container(kept, candidate);
    let head = not_contained(kept.take(k), candidate);
    if k < kept.len() {
        head + kept.skip(k)
    } else {
        head.push(candidate)
    }
}

/// The paths that are left when each one in turn is a candidate.
pub open spec fn trim_all(paths: Seq<Seq<PossibleIntervalView>>) -> Seq<Seq<PossibleIntervalView>>
    decreases paths.len(),
{
    if paths.len() == 0 {
        Seq::empty()
    } else {
        trim_step(trim_all(paths.drop_last()), paths.last())
    }
}

impl ChewingEngine {
    /// Drops the paths that are refinements of other paths.
    ///
    /// The outcome depends on the order of the paths: a candidate is held
    /// against the paths kept so far, in their order.
    pub fn trim_paths(&self, paths: Vec<PossiblePath>) -> (r: Vec<PossiblePath>)
        ensures
            path_views(r@) == trim_all(path_views(paths@)),
            forall|count: int, len: int|
                paths_within(paths@, count, len) ==> paths_within(r@, count, len),
    {
        let ghost given = path_views(paths@);
        let mut trimmed_paths: Vec<PossiblePath> = Vec::new();
        let mut c: usize = 0;
        assert(path_views(trimmed_paths@) =~= trim_all(given.take(0)));
        while c < paths.len()
            invariant
                c <= paths@.len(),
                given == path_views(paths@),
                path_views(trimmed_paths@) == trim_all(given.take(c as int)),
                forall|i: int|
                    0 <= i < trimmed_paths@.len() ==> exists|j: int|
                        0 <= j < paths@.len() && (#[trigger] trimmed_paths@[i]).intervals@
                            == paths@[j].intervals@,
            decreases paths@.len() - c,
        {
            let candidate = &paths[c];
            let ghost kept = path_views(trimmed_paths@);
            let ghost old_trimmed = trimmed_paths@;
            let mut drop_candidate = false;
            let mut keeper: Vec<PossiblePath> = Vec::new();
            let ghost mut first: int = 0;
            let mut j: usize = 0;
            assert(path_views(keeper@) =~= not_contained(kept.take(0), candidate@));
            while j < trimmed_paths.len()
                invariant
                    j <= trimmed_paths@.len(),
                    kept == path_views(trimmed_paths@),
                    old_trimmed == trimmed_paths@,
                    !drop_candidate ==> path_views(keeper@) == not_contained(
                        kept.take(j as int),
                        candidate@,
                    ),
                    !drop_candidate ==> forall|i: int|
                        0 <= i < j ==> !path_contains(#[trigger] kept[i], candidate@),
                    drop_candidate ==> 0 <= first < j && is_first_container(
                        kept,
                        candidate@,
                        first,
                    ),
                    drop_candidate ==> path_views(keeper@) == not_contained(
                        kept.take(first),
                        candidate@,
                    ) + kept.subrange(first, j as int),
                    forall|i: int|
                        0 <= i < keeper@.len() ==> exists|k: int|
                            0 <= k < old_trimmed.len() && (#[trigger] keeper@[i]).intervals@
                                == old_trimmed[k].intervals@,
                decreases trimmed_paths@.len() - j,
            {
                let kept_path = &trimmed_paths[j];
                let ghost before = path_views(keeper@);
                assert(kept[j as int] == kept_path@);
                assert(kept.take(j + 1).drop_last() =~= kept.take(j as int));
                if drop_candidate || kept_path.contains(candidate) {
                    proof {
                        if !drop_candidate {
                            first = j as int;
                            assert(kept.subrange(first, j as int) =~= Seq::empty());
                            assert(before + Seq::<Seq<PossibleIntervalView>>::empty() =~= before);
                        }
                    }
                    drop_candidate = true;
                    keeper.push(share_path(kept_path));
                    assert(path_views(keeper@) =~= before.push(kept[j as int]));
                    assert(kept.subrange(first, j + 1) =~= kept.subrange(first, j as int).push(
                        kept[j as int],
                    ));
                } else if candidate.contains(kept_path) {
                } else {
                    keeper.push(share_path(kept_path));
                    assert(path_views(keeper@) =~= before.push(kept[j as int]));
                }
                j = j + 1;
            }
            proof {
                assert(kept.take(kept.len() as int) =~= kept);
                assert(given.take(c + 1).drop_last() =~= given.take(c as int));
                assert(given.take(c + 1).last() == candidate@);
                if drop_candidate {
                    lemma_first_container_is(kept, candidate@, first);
                    assert(kept.subrange(first, kept.len() as int) =~= kept.skip(first));
                } else {
                    lemma_first_container_is(kept, candidate@, kept.len() as int);
                }
            }
            if !drop_candidate {
                let ghost before = path_views(keeper@);
                keeper.push(share_path(candidate));
                assert(path_views(keeper@) =~= before.push(candidate@));
            }
            trimmed_paths = keeper;
            c = c + 1;
        }
        assert(given.take(paths@.len() as int) =~= given);
        assert forall|count: int, len: int| paths_within(paths@, count, len) implies paths_within(
            trimmed_paths@,
            count,
            len,
        ) by {
            assert forall|i: int| 0 <= i < trimmed_paths@.len() implies {
                &&& (#[trigger] trimmed_paths@[i]).intervals@.len() <= count
                &&& intervals_within(trimmed_paths@[i].intervals@, len)
            } by {
                let j = choose|j: int|
                    0 <= j < paths@.len() && trimmed_paths@[i].intervals@ == paths@[j].intervals@;
                assert(paths@[j].intervals@.len() <= count);
            }
        }
        trimmed_paths
    }
}

/// A path of the same intervals that shares each phrase with the given one.
pub fn share_path(path: &PossiblePath) -> (r: PossiblePath)
    ensures
        r.intervals@ == path.intervals@,
{
    let mut copy: Vec<PossibleInterval> = Vec::new();
    let mut i: usize = 0;
    while i < path.intervals.len()
        invariant
            i <= path.intervals@.len(),
            copy@ == path.intervals@.take(i as int),
        decreases path.intervals@.len() - i,
    {
        let interval = &path.intervals[i];
        let phrase = match &interval.phrase {
            PossiblePhrase::Symbol(sym) => PossiblePhrase::Symbol(*sym),
            PossiblePhrase::Phrase(phrase) => PossiblePhrase::Phrase(share(phrase)),
        };
        copy.push(PossibleInterval { start: interval.start, end: interval.end, phrase });
        assert(copy@ =~= path.intervals@.take(i + 1));
        i = i + 1;
    }
    assert(path.intervals@.take(path.intervals@.len() as int) =~= path.intervals@);
    PossiblePath { intervals: copy }
}

/// Whether `k` is the place of the first of the paths that scores higher
/// than `score`, or their number where none does.
pub open spec fn is_slot(paths: Seq<Seq<PossibleIntervalView>>, score: int, k: int) -> bool {
    &&& 0 <= k <= paths.len()
    &&& k < paths.len() ==> path_score(paths[k]) > score
    &&& forall|i: int| 0 <= i < k ==> path_score(#[trigger] paths[i]) <= score
}

/// The place of the first of the paths that scores higher than `score`, or
/// their number where none does.
pub open spec fn slot_of(paths: Seq<Seq<PossibleIntervalView>>, score: int) -> int {
    choose|k: int| is_slot(paths, score, k)
}

/// There is one such place only.
pub proof fn lemma_slot_is(paths: Seq<Seq<PossibleIntervalView>>, score: int, k: int)
    requires
        is_slot(paths, score, k),
    ensures
        slot_of(paths, score) == k,
{
    let other = slot_of(paths, score);
    assert(is_slot(paths, score, other));
    if other < k {
        assert(path_score(paths[other]) <= score);
    } else if k < other {
        assert(path_score(paths[k]) <= score);
    }
}

/// The paths by their score, the lowest first; paths of the same score
/// keep the order in which they are given.
pub open spec fn sort_by_score(paths: Seq<Seq<PossibleIntervalView>>) -> Seq<
    Seq<PossibleIntervalView>,
>
    decreases paths.len(),
{
    if paths.len() == 0 {
        Seq::empty()
    } else {
        let sorted = sort_by_score(paths.drop_last());
        sorted.insert(slot_of(sorted, path_score(paths.last())), paths.last())
    }
}

/// Sorting keeps the number of paths.
pub proof fn lemma_sort_keeps_len(paths: Seq<Seq<PossibleIntervalView>>)
    ensures
        sort_by_score(paths).len() == paths.len(),
    decreases paths.len(),
{
    if paths.len() > 0 {
        lemma_sort_keeps_len(paths.drop_last());
        let sorted = sort_by_score(paths.drop_last());
        let score = path_score(paths.last());
        lemma_slot_exists(sorted, score, sorted.len() as int);
        let k = choose|k: int| is_slot(sorted, score, k);
        assert(is_slot(sorted, score, k));
    }
}

/// Among the first `n` paths there is a place for every score.
pub proof fn lemma_slot_exists(paths: Seq<Seq<PossibleIntervalView>>, score: int, n: int)
    requires
        0 <= n <= paths.len(),
    ensures
        exists|k: int| is_slot(paths, score, k),
    decreases paths.len() - n,
{
    if exists|i: int| 0 <= i < paths.len() && path_score(paths[i]) > score {
        lemma_first_above(paths, score, paths.len() as int);
    } else {
        assert(is_slot(paths, score, paths.len() as int));
    }
}

/// Where one of the first `n` paths scores higher than `score`, one of them
/// is the first to do so.
pub proof fn lemma_first_above(paths: Seq<Seq<PossibleIntervalView>>, score: int, n: int)
    requires
        0 <= n <= paths.len(),
        exists|i: int| 0 <= i < n && path_score(paths[i]) > score,
    ensures
        exists|k: int| 0 <= k < n && is_slot(paths, score, k),
    decreases n,
{
    if exists|i: int| 0 <= i < n - 1 && path_score(paths[i]) > score {
        lemma_first_above(paths, score, n - 1);
    } else {
        let i = choose|i: int| 0 <= i < n && path_score(paths[i]) > score;
        assert(i == n - 1);
        assert(is_slot(paths, score, n - 1));
    }
}

/// The paths by their score, the lowest first; paths of the same score keep
/// their order.
pub fn sort_paths(paths: Vec<PossiblePath>) -> (r: Vec<PossiblePath>)
    requires
        forall|i: int| 0 <= i < paths@.len() ==> path_bounded(#[trigger] paths@[i]@),
    ensures
        path_views(r@) == sort_by_score(path_views(paths@)),
        r@.len() == paths@.len(),
        forall|i: int|
            0 <= i < r@.len() ==> exists|j: int|
                0 <= j < paths@.len() && (#[trigger] r@[i]).intervals@ == paths@[j].intervals@,
{
    let ghost given = path_views(paths@);
    let mut sorted: Vec<PossiblePath> = Vec::new();
    let mut scores: Vec<i128> = Vec::new();
    let mut i: usize = 0;
    assert(path_views(sorted@) =~= sort_by_score(given.take(0)));
    while i < paths.len()
        invariant
            i <= paths@.len(),
            given == path_views(paths@),
            forall|k: int| 0 <= k < paths@.len() ==> path_bounded(#[trigger] paths@[k]@),
            sorted@.len() == i,
            scores@.len() == i,
            forall|k: int| 0 <= k < i ==> scores@[k] == path_score(#[trigger] sorted@[k]@),
            path_views(sorted@) == sort_by_score(given.take(i as int)),
            forall|k: int|
                0 <= k < sorted@.len() ==> exists|j: int|
                    0 <= j < paths@.len() && (#[trigger] sorted@[k]).intervals@
                        == paths@[j].intervals@,
        decreases paths@.len() - i,
    {
        let path = share_path(&paths[i]);
        assert(path@ == paths@[i as int]@);
        let score: i128 = path.score();
        let ghost before = path_views(sorted@);
        let mut k: usize = 0;
        while k < scores.len() && scores[k] <= score
            invariant
                k <= scores@.len(),
                scores@.len() == sorted@.len(),
                before == path_views(sorted@),
                forall|j: int|
                    0 <= j < scores@.len() ==> scores@[j] == path_score(#[trigger] sorted@[j]@),
                forall|j: int| 0 <= j < k ==> path_score(#[trigger] before[j]) <= score,
            decreases scores@.len() - k,
        {
            assert(before[k as int] == sorted@[k as int]@);
            k = k + 1;
        }
        proof {
            if k < scores@.len() {
                assert(before[k as int] == sorted@[k as int]@);
            }
            lemma_slot_is(before, score as int, k as int);
            assert(given.take(i + 1).drop_last() =~= given.take(i as int));
            assert(given.take(i + 1).last() == path@);
        }
        let ghost old_sorted = sorted@;
        sorted.insert(k, path);
        scores.insert(k, score);
        assert(path_views(sorted@) =~= before.insert(k as int, path@));
        assert forall|j: int| 0 <= j < sorted@.len() implies exists|m: int|
            0 <= m < paths@.len() && (#[trigger] sorted@[j]).intervals@ == paths@[m].intervals@ by {
            if j < k {
                assert(sorted@[j] == old_sorted[j]);
            } else if j == k {
                assert(sorted@[j].intervals@ == paths@[i as int].intervals@);
            } else {
                assert(sorted@[j] == old_sorted[j - 1]);
            }
        }
        i = i + 1;
    }
    assert(given.take(paths@.len() as int) =~= given);
    sorted
}

/// The intervals that possible intervals are handed out as.
pub open spec fn to_intervals(path: Seq<PossibleIntervalView>) -> Seq<IntervalView> {
    Seq::new(path.len(), |i: int| to_interval(path[i]))
}

/// The intervals that a path is handed out as, joined at the glues.
pub fn collect_intervals(com: &Composition, path: &Vec<PossibleInterval>) -> (r: Vec<Interval>)
    requires
        forall|i: int| 0 <= i < path@.len() ==> (#[trigger] path@[i]).phrase.wf(),
    ensures
        interval_views(r@) == glue_all(com.glues@, to_intervals(possible_views(path@))),
{
    let ghost given = to_intervals(possible_views(path@));
    let mut acc: Vec<Interval> = Vec::new();
    let mut i: usize = 0;
    assert(interval_views(acc@) =~= glue_all(com.glues@, given.take(0)));
    while i < path.len()
        invariant
            i <= path@.len(),
            given == to_intervals(possible_views(path@)),
            forall|k: int| 0 <= k < path@.len() ==> (#[trigger] path@[k]).phrase.wf(),
            interval_views(acc@) == glue_all(com.glues@, given.take(i as int)),
        decreases path@.len() - i,
    {
        let interval = path[i].clone().into_interval();
        assert(given.take(i + 1).drop_last() =~= given.take(i as int));
        assert(given.take(i + 1).last() == to_interval(path@[i as int]@));
        acc = glue_fn(com, acc, interval);
        i = i + 1;
    }
    assert(given.take(path@.len() as int) =~= given);
    acc
}

/// What the best path for the composition is handed out as: nothing for an
/// empty buffer.
pub open spec fn convert_spec<D: Dictionary>(dict: &D, comp: &Composition) -> Seq<IntervalView> {
    if comp.buffer@.len() == 0 {
        Seq::empty()
    } else {
        glue_all(
            comp.glues@,
            to_intervals(best_path(comp.buffer@.len() as int, all_intervals(dict, comp))),
        )
    }
}

/// The segmentations of the whole buffer that are left after trimming, the
/// highest score first; of two with the same score, the later one first.
pub open spec fn ranked_paths<D: Dictionary>(dict: &D, comp: &Composition) -> Seq<
    Seq<PossibleIntervalView>,
> {
    sort_by_score(trim_all(paths_from(dict, comp, 0, comp.buffer@.len() as int))).reverse()
}

/// What the alternative number `next` for the composition is handed out
/// as: the alternatives are taken in turn, and after the last comes the
/// first again. Nothing for an empty buffer or where the buffer has no
/// segmentation.
pub open spec fn convert_next_spec<D: Dictionary>(dict: &D, comp: &Composition, next: int) -> Seq<
    IntervalView,
> {
    let ranked = ranked_paths(dict, comp);
    if comp.buffer@.len() == 0 || ranked.len() == 0 {
        Seq::empty()
    } else {
        glue_all(comp.glues@, to_intervals(ranked[next % (ranked.len() as int)]))
    }
}

/// Trimming leaves a path where there is one.
pub proof fn lemma_trim_keeps_one(paths: Seq<Seq<PossibleIntervalView>>)
    requires
        paths.len() > 0,
    ensures
        trim_all(paths).len() > 0,
{
    let kept = trim_all(paths.drop_last());
    let k = first_container(kept, paths.last());
    if exists|i: int| 0 <= i < kept.len() && path_contains(kept[i], paths.last()) {
        lemma_first_container_exists(kept, paths.last(), kept.len() as int);
        let f = choose|f: int| 0 <= f < kept.len() && is_first_container(kept, paths.last(), f);
        lemma_first_container_is(kept, paths.last(), f);
    } else {
        lemma_first_container_is(kept, paths.last(), kept.len() as int);
    }
}

/// Where one of the first `n` kept paths contains the candidate, one of
/// them is the first to do so.
pub proof fn lemma_first_container_exists(
    kept: Seq<Seq<PossibleIntervalView>>,
    candidate: Seq<PossibleIntervalView>,
    n: int,
)
    requires
        0 <= n <= kept.len(),
        exists|i: int| 0 <= i < n && path_contains(kept[i], candidate),
    ensures
        exists|k: int| 0 <= k < n && is_first_container(kept, candidate, k),
    decreases n,
{
    if exists|i: int| 0 <= i < n - 1 && path_contains(kept[i], candidate) {
        lemma_first_container_exists(kept, candidate, n - 1);
    } else {
        let i = choose|i: int| 0 <= i < n && path_contains(kept[i], candidate);
        assert(i == n - 1);
        assert(is_first_container(kept, candidate, n - 1));
    }
}

impl<D: Dictionary> ConversionEngine<D> for ChewingEngine {
    open spec fn converted(&self, dict: &D, composition: &Composition) -> Seq<IntervalView> {
        convert_spec(dict, composition)
    }

    open spec fn alternative(&self, dict: &D, composition: &Composition, next: int) -> Seq<
        IntervalView,
    > {
        convert_next_spec(dict, composition, next)
    }

    /// The best segmentation of the composition's buffer.
    fn convert(&self, dict: &D, composition: &Composition) -> (r: Vec<Interval>) {
        if composition.buffer.len() == 0 {
            let none: Vec<Interval> = Vec::new();
            assert(interval_views(none@) =~= Seq::empty());
            return none;
        }
        let len: usize = composition.buffer.len();
        let intervals = self.find_intervals(dict, composition);
        assert((len + 1) * intervals@.len() <= MAX_PATH_LEN) by (nonlinear_arith)
            requires
                intervals@.len() <= (len + 1) * (len + 1),
                len <= 0xFFFF,
                MAX_PATH_LEN == 0x1_0000_0000_0000,
        ;
        let best = self.find_best_path(len, intervals);
        collect_intervals(composition, &best)
    }

    /// The alternative number `next` among the segmentations of the
    /// composition's buffer, the best one being number 0.
    fn convert_next(&self, dict: &D, composition: &Composition, next: usize) -> (r: Vec<
        Interval,
    >) {
        let len: usize = composition.buffer.len();
        let ghost all = paths_from(dict, composition, 0, len as int);
        proof {
            lemma_sort_keeps_len(trim_all(all));
        }
        if len == 0 {
            let none: Vec<Interval> = Vec::new();
            assert(interval_views(none@) =~= Seq::empty());
            return none;
        }
        let mut graph: Graph = HashMap::new();
        let paths = self.find_all_paths(dict, &mut graph, composition, 0, len, None);
        assert(path_views(paths@) =~= all) by {
            assert forall|i: int| 0 <= i < all.len() implies Seq::<PossibleIntervalView>::empty()
                + all[i] == all[i] by {
                assert(Seq::<PossibleIntervalView>::empty() + all[i] =~= all[i]);
            }
        }
        if paths.len() == 0 {
            let none: Vec<Interval> = Vec::new();
            assert(trim_all(all) =~= Seq::empty());
            assert(interval_views(none@) =~= Seq::empty());
            return none;
        }
        let trimmed_paths = self.trim_paths(paths);
        if trimmed_paths.len() == 0 {
            let none: Vec<Interval> = Vec::new();
            assert(interval_views(none@) =~= Seq::empty());
            return none;
        }
        proof {
            assert(paths_within(trimmed_paths@, len as int, len as int));
            assert forall|i: int| 0 <= i < trimmed_paths@.len() implies path_bounded(
                #[trigger] trimmed_paths@[i]@,
            ) by {
                lemma_within_is_bounded(trimmed_paths@[i].intervals@, len as int);
            }
        }
        let sorted = sort_paths(trimmed_paths);
        let count: usize = sorted.len();
        let index: usize = count - 1 - next % count;
        let chosen = &sorted[index];
        proof {
            let ranked = ranked_paths(dict, composition);
            assert(ranked[next as int % count as int] == path_views(sorted@)[index as int]);
            assert(path_views(sorted@)[index as int] == chosen@);
            let j = choose|j: int|
                0 <= j < trimmed_paths@.len() && sorted@[index as int].intervals@
                    == trimmed_paths@[j].intervals@;
            assert(intervals_within(trimmed_paths@[j].intervals@, len as int));
        }
        collect_intervals(composition, &chosen.intervals)
    }
}

} // verus!
