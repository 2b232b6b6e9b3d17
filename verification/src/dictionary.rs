//! Phrases, dictionary metadata and the read-only lookup contract.

use crate::zhuyin::Syllable;
use vstd::prelude::*;
use vstd::string::*;

pub mod trie;
pub mod proofs;
pub mod trie_buf;

verus! {

/// The mathematical value of a [`Phrase`].
pub struct PhraseView {
    pub text: Seq<char>,
    pub freq: u32,
    pub last_used: Option<u64>,
}

/// A dictionary entry: the rendered text, how often it is used, and when it
/// was last used.
///
/// Two phrases are equal when their texts are equal.
#[derive(Debug, Eq)]
pub struct Phrase {
    pub text: String,
    pub freq: u32,
    pub last_used: Option<u64>,
}

impl View for Phrase {
    type V = PhraseView;

    open spec fn view(&self) -> PhraseView {
        PhraseView { text: self.text@, freq: self.freq, last_used: self.last_used }
    }
}

impl PartialEq for Phrase {
    fn eq(&self, other: &Phrase) -> (r: bool) {
        self.text == other.text
    }
}

impl vstd::std_specs::cmp::PartialEqSpecImpl for Phrase {
    open spec fn obeys_eq_spec() -> bool {
        true
    }

    open spec fn eq_spec(&self, other: &Phrase) -> bool {
        self.text@ == other.text@
    }
}

impl Clone for Phrase {
    fn clone(&self) -> (r: Phrase)
        ensures
            r@ == self@,
    {
        Phrase { text: self.text.clone(), freq: self.freq, last_used: self.last_used }
    }
}

impl<'a> From<(&'a str, u32)> for Phrase {
    fn from(value: (&'a str, u32)) -> (p: Phrase)
        ensures
            p@ == (PhraseView { text: value.0@, freq: value.1, last_used: None }),
    {
        Phrase::new(value.0, value.1)
    }
}

impl<'a> vstd::std_specs::convert::FromSpecImpl<(&'a str, u32)> for Phrase {
    open spec fn obeys_from_spec() -> bool {
        false
    }

    open spec fn from_spec(value: (&'a str, u32)) -> Phrase {
        arbitrary()
    }
}

impl<'a> From<(&'a str, u32, u64)> for Phrase {
    fn from(value: (&'a str, u32, u64)) -> (p: Phrase)
        ensures
            p@ == (PhraseView { text: value.0@, freq: value.1, last_used: Some(value.2) }),
    {
        Phrase::new(value.0, value.1).with_time(value.2)
    }
}

impl<'a> vstd::std_specs::convert::FromSpecImpl<(&'a str, u32, u64)> for Phrase {
    open spec fn obeys_from_spec() -> bool {
        false
    }

    open spec fn from_spec(value: (&'a str, u32, u64)) -> Phrase {
        arbitrary()
    }
}

impl Phrase {
    /// A phrase with the given text and frequency that was never used.
    pub fn new(text: &str, freq: u32) -> (p: Phrase)
        ensures
            p@ == (PhraseView { text: text@, freq, last_used: None }),
    {
        Phrase { text: text.to_owned(), freq, last_used: None }
    }

    /// The same phrase, stamped with the time of its last use.
    pub fn with_time(self, last_used: u64) -> (p: Phrase)
        ensures
            p@ == (PhraseView { text: self@.text, freq: self@.freq, last_used: Some(last_used) }),
    {
        Phrase { text: self.text, freq: self.freq, last_used: Some(last_used) }
    }

    /// The rendered text.
    pub fn as_str(&self) -> (s: &str)
        ensures
            s@ == self@.text,
    {
        self.text.as_str()
    }

    /// The frequency.
    pub fn freq(&self) -> (f: u32)
        ensures
            f == self@.freq,
    {
        self.freq
    }

    /// The time of the last use, if the phrase was ever used.
    pub fn last_used(&self) -> (t: Option<u64>)
        ensures
            t == self@.last_used,
    {
        self.last_used
    }
}

/// The views of a sequence of phrases, element by element.
pub open spec fn phrase_views(phrases: Seq<Phrase>) -> Seq<PhraseView> {
    Seq::new(phrases.len(), |i: int| phrases[i]@)
}

/// Read-only lookup, as the conversion engine consumes it.
pub trait Dictionary {
    /// What the implementation needs to hold of itself.
    spec fn wf(&self) -> bool;

    /// The phrases filed under exactly this syllable sequence, in the order
    /// in which a lookup yields them, each text once.
    spec fn phrases_of(&self, syllables: Seq<Syllable>) -> Seq<PhraseView>;

    /// Every entry of the dictionary, in key order.
    spec fn entries_of(&self) -> Seq<EntryView>;

    /// What the dictionary says of itself.
    spec fn info_of(&self) -> DictionaryInfoView;

    /// Every entry of the dictionary, in key order.
    fn entries(&self) -> (r: Vec<DictEntry>)
        requires
            self.wf(),
        ensures
            entry_views(r@) == self.entries_of(),
            sorted_entries(self.entries_of()),
    ;

    /// What the dictionary says of itself.
    fn about(&self) -> (r: DictionaryInfo)
        ensures
            r@ == self.info_of(),
    ;

    /// The first `first` phrases filed under `syllables`.
    fn lookup_first_n_phrases(&self, syllables: &[Syllable], first: usize) -> (r: Vec<Phrase>)
        requires
            self.wf(),
        ensures
            self.phrases_of(syllables@).len() <= usize::MAX,
            phrase_views(r@) == if first <= self.phrases_of(syllables@).len() {
                self.phrases_of(syllables@).take(first as int)
            } else {
                self.phrases_of(syllables@)
            },
    ;

    /// The first phrase filed under `syllables`, if there is any.
    fn lookup_first_phrase(&self, syllables: &[Syllable]) -> (r: Option<Phrase>)
        requires
            self.wf(),
        ensures
            r is Some <==> self.phrases_of(syllables@).len() > 0,
            r is Some ==> r->0@ == self.phrases_of(syllables@)[0],
    {
        let mut found = self.lookup_first_n_phrases(syllables, 1);
        assert(phrase_views(found@).len() == found@.len());
        if found.len() == 0 {
            None
        } else {
            assert(phrase_views(found@)[0] == found@[0]@);
            Some(found.swap_remove(0))
        }
    }

    /// Every phrase filed under `syllables`.
    fn lookup_all_phrases(&self, syllables: &[Syllable]) -> (r: Vec<Phrase>)
        requires
            self.wf(),
        ensures
            phrase_views(r@) == self.phrases_of(syllables@),
    {
        let all = self.lookup_first_n_phrases(syllables, usize::MAX);
        assert(phrase_views(all@).len() == all@.len());
        all
    }
}

/// The key of a dictionary entry: the syllables and the text of the phrase.
pub type KeyView = (Seq<Syllable>, Seq<char>);

/// The mathematical value of a dictionary entry: the syllables and the
/// phrase filed under them.
pub type EntryView = (Seq<Syllable>, PhraseView);

/// A dictionary entry: the syllables and the phrase filed under them.
pub type DictEntry = (Vec<Syllable>, Phrase);

/// The key of an entry.
pub open spec fn key_of(entry: EntryView) -> KeyView {
    (entry.0, entry.1.text)
}

/// The views of a sequence of entries, element by element.
pub open spec fn entry_views(entries: Seq<DictEntry>) -> Seq<EntryView> {
    Seq::new(entries.len(), |i: int| (entries[i].0@, entries[i].1@))
}

/// The codes of the syllables, one by one.
pub open spec fn syllable_codes(syllables: Seq<Syllable>) -> Seq<int> {
    Seq::new(syllables.len(), |i: int| syllables[i].value as int)
}

/// The code points of the characters, one by one.
pub open spec fn char_codes(text: Seq<char>) -> Seq<int> {
    Seq::new(text.len(), |i: int| text[i] as int)
}

/// Lexicographic order: at the first place where the two differ the
/// smaller number decides, and a sequence comes after each of its proper
/// beginnings.
pub open spec fn lex_lt(a: Seq<int>, b: Seq<int>) -> bool
    decreases a.len(),
{
    if b.len() == 0 {
        false
    } else if a.len() == 0 {
        true
    } else if a[0] != b[0] {
        a[0] < b[0]
    } else {
        lex_lt(a.drop_first(), b.drop_first())
    }
}

/// The order of the keys: by the syllables, and under the same syllables
/// by the text.
pub open spec fn key_lt(a: KeyView, b: KeyView) -> bool {
    lex_lt(syllable_codes(a.0), syllable_codes(b.0)) || (a.0 == b.0 && lex_lt(
        char_codes(a.1),
        char_codes(b.1),
    ))
}

/// Whether the entries stand in the strict order of their keys, so that no
/// key occurs twice.
pub open spec fn sorted_entries(entries: Seq<EntryView>) -> bool {
    forall|i: int, j: int|
        0 <= i < j < entries.len() ==> key_lt(key_of(#[trigger] entries[i]), key_of(#[trigger] entries[j]))
}

/// The lexicographic order is transitive.
pub proof fn lemma_lex_lt_transitive(a: Seq<int>, b: Seq<int>, c: Seq<int>)
    requires
        lex_lt(a, b),
        lex_lt(b, c),
    ensures
        lex_lt(a, c),
    decreases a.len(),
{
    if a.len() > 0 && b.len() > 0 && c.len() > 0 && a[0] == b[0] && b[0] == c[0] {
        lemma_lex_lt_transitive(a.drop_first(), b.drop_first(), c.drop_first());
    }
}

/// No sequence comes before itself.
pub proof fn lemma_lex_lt_irreflexive(a: Seq<int>)
    ensures
        !lex_lt(a, a),
    decreases a.len(),
{
    if a.len() > 0 {
        lemma_lex_lt_irreflexive(a.drop_first());
    }
}

/// The order of the keys is transitive.
pub proof fn lemma_key_lt_transitive(a: KeyView, b: KeyView, c: KeyView)
    requires
        key_lt(a, b),
        key_lt(b, c),
    ensures
        key_lt(a, c),
{
    if lex_lt(syllable_codes(a.0), syllable_codes(b.0)) && lex_lt(
        syllable_codes(b.0),
        syllable_codes(c.0),
    ) {
        lemma_lex_lt_transitive(syllable_codes(a.0), syllable_codes(b.0), syllable_codes(c.0));
    } else if a.0 == b.0 && b.0 == c.0 {
        lemma_lex_lt_transitive(char_codes(a.1), char_codes(b.1), char_codes(c.1));
    }
}

/// No key comes before itself.
pub proof fn lemma_key_lt_irreflexive(a: KeyView)
    ensures
        !key_lt(a, a),
{
    lemma_lex_lt_irreflexive(syllable_codes(a.0));
    lemma_lex_lt_irreflexive(char_codes(a.1));
}

/// What two sequences that agree in their first `n` places compare as.
pub proof fn lemma_lex_lt_after_common(a: Seq<int>, b: Seq<int>, n: int)
    requires
        0 <= n <= a.len(),
        n <= b.len(),
        forall|k: int| 0 <= k < n ==> a[k] == b[k],
    ensures
        lex_lt(a, b) == lex_lt(a.skip(n), b.skip(n)),
    decreases n,
{
    if n > 0 {
        assert(a[0] == b[0]);
        assert forall|k: int| 0 <= k < n - 1 implies a.drop_first()[k] == b.drop_first()[k] by {
            assert(a[k + 1] == b[k + 1]);
        }
        lemma_lex_lt_after_common(a.drop_first(), b.drop_first(), n - 1);
        assert(a.drop_first().skip(n - 1) =~= a.skip(n));
        assert(b.drop_first().skip(n - 1) =~= b.skip(n));
    } else {
        assert(a.skip(0) =~= a);
        assert(b.skip(0) =~= b);
    }
}

/// How two keys stand to each other.
#[derive(Clone, Copy, Debug, PartialEq, Eq, Structural)]
pub enum KeyOrder {
    Before,
    Same,
    After,
}

/// How the sequence `a` stands to the sequence `b`.
pub open spec fn lex_order(a: Seq<int>, b: Seq<int>) -> KeyOrder {
    if lex_lt(a, b) {
        KeyOrder::Before
    } else if lex_lt(b, a) {
        KeyOrder::After
    } else {
        KeyOrder::Same
    }
}

/// How the syllables `a` stand to the syllables `b`; they stand the same
/// only where they are the same.
pub fn order_syllables(a: &[Syllable], b: &[Syllable]) -> (r: KeyOrder)
    ensures
        r == lex_order(syllable_codes(a@), syllable_codes(b@)),
        r is Same <==> a@ == b@,
{
    let ghost x = syllable_codes(a@);
    let ghost y = syllable_codes(b@);
    let mut i: usize = 0;
    while i < a.len() && i < b.len()
        invariant
            i <= a@.len(),
            i <= b@.len(),
            x == syllable_codes(a@),
            y == syllable_codes(b@),
            forall|k: int| 0 <= k < i ==> a@[k] == b@[k],
        decreases a@.len() - i,
    {
        let left: u16 = a[i].value;
        let right: u16 = b[i].value;
        if left != right {
            proof {
                assert forall|k: int| 0 <= k < i implies x[k] == y[k] by {
                    assert(a@[k] == b@[k]);
                }
                lemma_lex_lt_after_common(x, y, i as int);
                lemma_lex_lt_after_common(y, x, i as int);
                assert(x.skip(i as int)[0] == left);
                assert(y.skip(i as int)[0] == right);
                assert(a@[i as int] != b@[i as int]);
            }
            return if left < right {
                KeyOrder::Before
            } else {
                KeyOrder::After
            };
        }
        i = i + 1;
    }
    proof {
        assert forall|k: int| 0 <= k < i implies x[k] == y[k] by {
            assert(a@[k] == b@[k]);
        }
        lemma_lex_lt_after_common(x, y, i as int);
        lemma_lex_lt_after_common(y, x, i as int);
        if a@.len() == b@.len() {
            assert(a@ =~= b@);
        }
    }
    if a.len() < b.len() {
        KeyOrder::Before
    } else if a.len() > b.len() {
        KeyOrder::After
    } else {
        KeyOrder::Same
    }
}

/// How the text `a` stands to the text `b`; they stand the same only where
/// they are the same.
pub fn order_texts(a: &str, b: &str) -> (r: KeyOrder)
    ensures
        r == lex_order(char_codes(a@), char_codes(b@)),
        r is Same <==> a@ == b@,
{
    let ghost x = char_codes(a@);
    let ghost y = char_codes(b@);
    let a_len: usize = a.unicode_len();
    let b_len: usize = b.unicode_len();
    let mut i: usize = 0;
    while i < a_len && i < b_len
        invariant
            a_len == a@.len(),
            b_len == b@.len(),
            i <= a_len,
            i <= b_len,
            x == char_codes(a@),
            y == char_codes(b@),
            forall|k: int| 0 <= k < i ==> a@[k] == b@[k],
        decreases a_len - i,
    {
        let left: char = a.get_char(i);
        let right: char = b.get_char(i);
        if left != right {
            proof {
                assert forall|k: int| 0 <= k < i implies x[k] == y[k] by {
                    assert(a@[k] == b@[k]);
                }
                lemma_lex_lt_after_common(x, y, i as int);
                lemma_lex_lt_after_common(y, x, i as int);
                assert(x.skip(i as int)[0] == left as int);
                assert(y.skip(i as int)[0] == right as int);
                assert(a@[i as int] != b@[i as int]);
            }
            return if left < right {
                KeyOrder::Before
            } else {
                KeyOrder::After
            };
        }
        i = i + 1;
    }
    proof {
        assert forall|k: int| 0 <= k < i implies x[k] == y[k] by {
            assert(a@[k] == b@[k]);
        }
        lemma_lex_lt_after_common(x, y, i as int);
        lemma_lex_lt_after_common(y, x, i as int);
        if a@.len() == b@.len() {
            assert(a@ =~= b@);
        }
    }
    if a_len < b_len {
        KeyOrder::Before
    } else if a_len > b_len {
        KeyOrder::After
    } else {
        KeyOrder::Same
    }
}

/// How the key `a` stands to the key `b`.
pub open spec fn key_order(a: KeyView, b: KeyView) -> KeyOrder {
    if key_lt(a, b) {
        KeyOrder::Before
    } else if key_lt(b, a) {
        KeyOrder::After
    } else {
        KeyOrder::Same
    }
}

/// How the key of the first syllables and text stands to the key of the
/// second; they stand the same only where they are the same.
pub fn order_keys(
    a_syllables: &[Syllable],
    a_text: &str,
    b_syllables: &[Syllable],
    b_text: &str,
) -> (r: KeyOrder)
    ensures
        r == key_order((a_syllables@, a_text@), (b_syllables@, b_text@)),
        r is Same <==> (a_syllables@ == b_syllables@ && a_text@ == b_text@),
{
    proof {
        lemma_lex_lt_irreflexive(syllable_codes(a_syllables@));
    }
    match order_syllables(a_syllables, b_syllables) {
        KeyOrder::Before => KeyOrder::Before,
        KeyOrder::After => KeyOrder::After,
        KeyOrder::Same => order_texts(a_text, b_text),
    }
}

/// The mathematical value of a [`DictionaryInfo`].
pub struct DictionaryInfoView {
    pub name: Option<Seq<char>>,
    pub copyright: Option<Seq<char>>,
    pub license: Option<Seq<char>>,
    pub version: Option<Seq<char>>,
    pub software: Option<Seq<char>>,
}

/// What a dictionary says of itself.
#[derive(Debug)]
pub struct DictionaryInfo {
    pub name: Option<String>,
    pub copyright: Option<String>,
    pub license: Option<String>,
    pub version: Option<String>,
    pub software: Option<String>,
}

/// The view of an optional string.
pub open spec fn text_view(text: Option<String>) -> Option<Seq<char>> {
    match text {
        Some(s) => Some(s@),
        None => None,
    }
}

/// A copy of an optional string.
pub fn clone_text(text: &Option<String>) -> (r: Option<String>)
    ensures
        text_view(r) == text_view(*text),
{
    match text {
        Some(s) => Some(s.clone()),
        None => None,
    }
}

impl View for DictionaryInfo {
    type V = DictionaryInfoView;

    open spec fn view(&self) -> DictionaryInfoView {
        DictionaryInfoView {
            name: text_view(self.name),
            copyright: text_view(self.copyright),
            license: text_view(self.license),
            version: text_view(self.version),
            software: text_view(self.software),
        }
    }
}

impl Clone for DictionaryInfo {
    fn clone(&self) -> (r: DictionaryInfo)
        ensures
            r@ == self@,
    {
        DictionaryInfo {
            name: clone_text(&self.name),
            copyright: clone_text(&self.copyright),
            license: clone_text(&self.license),
            version: clone_text(&self.version),
            software: clone_text(&self.software),
        }
    }
}

impl Default for DictionaryInfo {
    fn default() -> (r: DictionaryInfo)
        ensures
            r@ == (DictionaryInfoView {
                name: None,
                copyright: None,
                license: None,
                version: None,
                software: None,
            }),
    {
        DictionaryInfo { name: None, copyright: None, license: None, version: None, software: None }
    }
}

/// Why a dictionary could not be built.
#[derive(Clone, Copy, Debug, PartialEq, Eq, Structural)]
pub enum BuildDictionaryError {
    /// An entry was handed in that does not come after the entry before it.
    OutOfOrder,
}

/// Why a dictionary could not be changed: with no source, the phrase was
/// there already; else building the new dictionary failed.
#[derive(Clone, Copy, Debug, PartialEq, Eq, Structural)]
pub struct DictionaryUpdateError {
    pub source: Option<BuildDictionaryError>,
}

impl From<BuildDictionaryError> for DictionaryUpdateError {
    fn from(value: BuildDictionaryError) -> (r: DictionaryUpdateError) {
        DictionaryUpdateError { source: Some(value) }
    }
}

impl vstd::std_specs::convert::FromSpecImpl<BuildDictionaryError> for DictionaryUpdateError {
    open spec fn obeys_from_spec() -> bool {
        true
    }

    open spec fn from_spec(value: BuildDictionaryError) -> DictionaryUpdateError {
        DictionaryUpdateError { source: Some(value) }
    }
}

/// The phrases of the entries filed under exactly these syllables, in the
/// order of the entries.
pub open spec fn phrases_under(entries: Seq<EntryView>, syllables: Seq<Syllable>) -> Seq<
    PhraseView,
>
    decreases entries.len(),
{
    if entries.len() == 0 {
        Seq::empty()
    } else {
        let before = phrases_under(entries.drop_last(), syllables);
        if entries.last().0 == syllables {
            before.push(entries.last().1)
        } else {
            before
        }
    }
}

/// A copy of the syllables.
pub fn clone_syllables(syllables: &[Syllable]) -> (r: Vec<Syllable>)
    ensures
        r@ == syllables@,
{
    let mut copy: Vec<Syllable> = Vec::new();
    let mut i: usize = 0;
    while i < syllables.len()
        invariant
            i <= syllables@.len(),
            copy@ == syllables@.take(i as int),
        decreases syllables@.len() - i,
    {
        copy.push(syllables[i]);
        assert(copy@ =~= syllables@.take(i + 1));
        i = i + 1;
    }
    assert(syllables@.take(syllables@.len() as int) =~= syllables@);
    copy
}

/// A copy of the entries.
pub fn clone_entries(entries: &Vec<DictEntry>) -> (r: Vec<DictEntry>)
    ensures
        entry_views(r@) == entry_views(entries@),
{
    let mut copy: Vec<DictEntry> = Vec::new();
    let mut i: usize = 0;
    while i < entries.len()
        invariant
            i <= entries@.len(),
            copy@.len() == i,
            forall|k: int| 0 <= k < i ==> copy@[k].0@ == entries@[k].0@ && copy@[k].1@ == entries@[k].1@,
        decreases entries@.len() - i,
    {
        let entry = &entries[i];
        copy.push((clone_syllables(entry.0.as_slice()), entry.1.clone()));
        i = i + 1;
    }
    assert(entry_views(copy@) =~= entry_views(entries@));
    copy
}

} // verus!
