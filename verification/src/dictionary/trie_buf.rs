//! The user dictionary: additions, updates and removals laid over an
//! immutable dictionary, seen as one.

use crate::dictionary::trie::{TrieDictionary, TrieDictionaryBuilder};
use crate::dictionary::{
    char_codes, clone_syllables, entry_views, key_lt, key_of, lemma_key_lt_irreflexive,
    lemma_key_lt_transitive, lex_lt, order_keys, order_syllables, phrase_views, phrases_under,
    sorted_entries, DictEntry, Dictionary, DictionaryInfo, DictionaryInfoView,
    DictionaryUpdateError, EntryView, KeyOrder, KeyView, Phrase, PhraseView,
};
use crate::zhuyin::Syllable;
use vstd::prelude::*;
use vstd::string::*;

verus! {

/// Whether a text lies in the range of texts that a lookup of the
/// additions covers: before the text made of the one character U+10FFFF.
pub open spec fn in_lookup_range(text: Seq<char>) -> bool {
    lex_lt(char_codes(text), seq![0x10FFFFint])
}

/// The phrases of the additions filed under exactly these syllables whose
/// text lies in the lookup range, in key order.
pub open spec fn buffered_under(entries: Seq<EntryView>, syllables: Seq<Syllable>) -> Seq<
    PhraseView,
>
    decreases entries.len(),
{
    if entries.len() == 0 {
        Seq::empty()
    } else {
        let before = buffered_under(entries.drop_last(), syllables);
        if entries.last().0 == syllables && in_lookup_range(entries.last().1.text) {
            before.push(entries.last().1)
        } else {
            before
        }
    }
}

/// The phrases under these syllables that are not buried, in their order.
pub open spec fn visible_phrases(
    phrases: Seq<PhraseView>,
    syllables: Seq<Syllable>,
    graveyard: Set<KeyView>,
) -> Seq<PhraseView>
    decreases phrases.len(),
{
    if phrases.len() == 0 {
        Seq::empty()
    } else {
        let before = visible_phrases(phrases.drop_last(), syllables, graveyard);
        if graveyard.contains((syllables, phrases.last().text)) {
            before
        } else {
            before.push(phrases.last())
        }
    }
}

/// What the layers hold under these syllables: the phrases of the
/// immutable layer, then those of the additions, without the buried ones.
pub open spec fn layered(
    trie: Seq<EntryView>,
    btree: Seq<EntryView>,
    graveyard: Set<KeyView>,
    syllables: Seq<Syllable>,
) -> Seq<PhraseView> {
    visible_phrases(
        phrases_under(trie, syllables) + buffered_under(btree, syllables),
        syllables,
        graveyard,
    )
}

/// Whether `k` is the place of the first phrase with this text.
pub open spec fn is_first_with_text(phrases: Seq<PhraseView>, text: Seq<char>, k: int) -> bool {
    &&& 0 <= k < phrases.len()
    &&& phrases[k].text == text
    &&& forall|i: int| 0 <= i < k ==> (#[trigger] phrases[i]).text != text
}

/// Whether the first time of use is later than the second; a phrase that
/// was used is later than one that never was.
pub open spec fn used_later(a: Option<u64>, b: Option<u64>) -> bool {
    match (a, b) {
        (Some(x), Some(y)) => x > y,
        (Some(_), None) => true,
        _ => false,
    }
}

/// Whether a phrase takes the place of another with the same text: it is
/// more frequent, or as frequent and used later.
pub open spec fn outranks(phrase: PhraseView, other: PhraseView) -> bool {
    phrase.freq > other.freq || (phrase.freq == other.freq && used_later(
        phrase.last_used,
        other.last_used,
    ))
}

/// The phrases with each text once, at the place where the text came
/// first: of the phrases with the same text the most frequent one stays,
/// of those the one that was used last, and of those the first.
pub open spec fn unique_by_text(phrases: Seq<PhraseView>) -> Seq<PhraseView>
    decreases phrases.len(),
{
    if phrases.len() == 0 {
        Seq::empty()
    } else {
        let before = unique_by_text(phrases.drop_last());
        let phrase = phrases.last();
        if exists|k: int| is_first_with_text(before, phrase.text, k) {
            let k = choose|k: int| is_first_with_text(before, phrase.text, k);
            if outranks(phrase, before[k]) {
                before.update(k, phrase)
            } else {
                before
            }
        } else {
            before.push(phrase)
        }
    }
}

/// The two layers walked together in key order. Where both hold a key, the
/// entry with the greater frequency stays, and that of the additions where
/// the two are as frequent.
pub open spec fn merge(trie: Seq<EntryView>, btree: Seq<EntryView>) -> Seq<EntryView>
    decreases trie.len() + btree.len(),
{
    if trie.len() == 0 {
        btree
    } else if btree.len() == 0 {
        trie
    } else if key_lt(key_of(trie[0]), key_of(btree[0])) {
        seq![trie[0]] + merge(trie.drop_first(), btree)
    } else if key_lt(key_of(btree[0]), key_of(trie[0])) {
        seq![btree[0]] + merge(trie, btree.drop_first())
    } else if trie[0].1.freq > btree[0].1.freq {
        seq![trie[0]] + merge(trie.drop_first(), btree.drop_first())
    } else {
        seq![btree[0]] + merge(trie.drop_first(), btree.drop_first())
    }
}

/// The entries that are not buried, in their order.
pub open spec fn visible_entries(entries: Seq<EntryView>, graveyard: Set<KeyView>) -> Seq<
    EntryView,
>
    decreases entries.len(),
{
    if entries.len() == 0 {
        Seq::empty()
    } else {
        let before = visible_entries(entries.drop_last(), graveyard);
        if graveyard.contains(key_of(entries.last())) {
            before
        } else {
            before.push(entries.last())
        }
    }
}

/// Every entry that the layers hold together, in key order.
pub open spec fn merged(trie: Seq<EntryView>, btree: Seq<EntryView>, graveyard: Set<KeyView>) -> Seq<
    EntryView,
> {
    visible_entries(merge(trie, btree), graveyard)
}

/// Whether `k` is the place of the first entry whose key does not come
/// before `key`, or the number of entries where every key does.
pub open spec fn is_place(entries: Seq<EntryView>, key: KeyView, k: int) -> bool {
    &&& 0 <= k <= entries.len()
    &&& k < entries.len() ==> !key_lt(key_of(entries[k]), key)
    &&& forall|i: int| 0 <= i < k ==> key_lt(key_of(#[trigger] entries[i]), key)
}

/// The place of the first entry whose key does not come before `key`.
pub open spec fn place_of(entries: Seq<EntryView>, key: KeyView) -> int {
    choose|k: int| is_place(entries, key, k)
}

/// There is one such place only.
pub proof fn lemma_place_is(entries: Seq<EntryView>, key: KeyView, k: int)
    requires
        is_place(entries, key, k),
    ensures
        place_of(entries, key) == k,
{
    let other = place_of(entries, key);
    assert(is_place(entries, key, other));
    if other < k {
        assert(key_lt(key_of(entries[other]), key));
    } else if k < other {
        assert(key_lt(key_of(entries[k]), key));
    }
}

/// The entries with one more: it takes the place of the entry with its
/// key, or stands at the place that its key has in the order.
pub open spec fn upsert(entries: Seq<EntryView>, entry: EntryView) -> Seq<EntryView> {
    let k = place_of(entries, key_of(entry));
    if k < entries.len() && key_of(entries[k]) == key_of(entry) {
        entries.update(k, entry)
    } else {
        entries.insert(k, entry)
    }
}

/// The entries without the one that has this key.
pub open spec fn without(entries: Seq<EntryView>, key: KeyView) -> Seq<EntryView> {
    let k = place_of(entries, key);
    if k < entries.len() && key_of(entries[k]) == key {
        entries.remove(k)
    } else {
        entries
    }
}

/// The keys of the buried entries, as they are held.
pub open spec fn buried_keys(graveyard: Seq<(Vec<Syllable>, String)>) -> Seq<KeyView> {
    Seq::new(graveyard.len(), |i: int| (graveyard[i].0@, graveyard[i].1@))
}

/// The entries of an optional immutable layer: none where there is no layer.
pub open spec fn layer_entries(trie: Option<TrieDictionary>) -> Seq<EntryView> {
    match trie {
        Some(layer) => layer.entries_view(),
        None => Seq::empty(),
    }
}

/// The name that a new user dictionary gives itself.
pub const DEFAULT_NAME: &'static str = "我的詞庫";

/// What a new user dictionary says where it knows no better.
pub const UNKNOWN: &'static str = "Unknown";

/// A user dictionary: an immutable layer, the additions and updates made
/// since it was written, and the keys that were removed since.
#[derive(Debug)]
pub struct TrieBufDictionary {
    path: String,
    trie: Option<TrieDictionary>,
    btree: Vec<DictEntry>,
    graveyard: Vec<(Vec<Syllable>, String)>,
}

impl TrieBufDictionary {
    /// Where the dictionary is kept; empty for one that is kept nowhere.
    pub closed spec fn path_view(&self) -> Seq<char> {
        self.path@
    }

    /// The entries of the immutable layer, in key order.
    pub closed spec fn trie_view(&self) -> Seq<EntryView> {
        layer_entries(self.trie)
    }

    /// Whether there is an immutable layer.
    pub closed spec fn has_trie(&self) -> bool {
        self.trie is Some
    }

    /// What the immutable layer says of itself; nothing without a layer.
    pub closed spec fn info_view(&self) -> DictionaryInfoView {
        match self.trie {
            Some(layer) => layer.info_view(),
            None => DictionaryInfoView {
                name: None,
                copyright: None,
                license: None,
                version: None,
                software: None,
            },
        }
    }

    /// The additions and updates, in key order.
    pub closed spec fn btree_view(&self) -> Seq<EntryView> {
        entry_views(self.btree@)
    }

    /// The keys that were removed.
    pub closed spec fn graveyard_view(&self) -> Set<KeyView> {
        buried_keys(self.graveyard@).to_set()
    }

    /// Both layers stand in the strict order of their keys.
    pub open spec fn wf(&self) -> bool {
        &&& sorted_entries(self.trie_view())
        &&& sorted_entries(self.btree_view())
    }

    /// What a lookup under these syllables yields.
    pub open spec fn lookup(&self, syllables: Seq<Syllable>) -> Seq<PhraseView> {
        unique_by_text(
            layered(self.trie_view(), self.btree_view(), self.graveyard_view(), syllables),
        )
    }

    /// Every entry of the dictionary, in key order.
    pub open spec fn merged_view(&self) -> Seq<EntryView> {
        merged(self.trie_view(), self.btree_view(), self.graveyard_view())
    }

    /// A dictionary that is kept nowhere and holds nothing.
    pub fn new_in_memory() -> (r: TrieBufDictionary)
        ensures
            r.wf(),
            r.path_view() == Seq::<char>::empty(),
            !r.has_trie(),
            r.trie_view() == Seq::<EntryView>::empty(),
            r.btree_view() == Seq::<EntryView>::empty(),
            r.graveyard_view() == Set::<KeyView>::empty(),
            r.info_view() == (DictionaryInfoView {
                name: None,
                copyright: None,
                license: None,
                version: None,
                software: None,
            }),
    {
        let r = TrieBufDictionary {
            path: String::new(),
            trie: None,
            btree: Vec::new(),
            graveyard: Vec::new(),
        };
        assert(r.btree_view() =~= Seq::<EntryView>::empty());
        assert(r.graveyard_view() =~= Set::<KeyView>::empty());
        r
    }

    /// Whether this key was removed.
    pub fn is_buried(&self, syllables: &[Syllable], text: &str) -> (b: bool)
        ensures
            b == self.graveyard_view().contains((syllables@, text@)),
    {
        let ghost keys = buried_keys(self.graveyard@);
        let mut i: usize = 0;
        while i < self.graveyard.len()
            invariant
                i <= self.graveyard@.len(),
                keys == buried_keys(self.graveyard@),
                forall|k: int| 0 <= k < i ==> keys[k] != (syllables@, text@),
            decreases self.graveyard@.len() - i,
        {
            let buried = &self.graveyard[i];
            assert(keys[i as int] == (buried.0@, buried.1@));
            match order_keys(buried.0.as_slice(), buried.1.as_str(), syllables, text) {
                KeyOrder::Same => {
                    assert(keys.contains((syllables@, text@)));
                    return true;
                },
                _ => {},
            }
            i = i + 1;
        }
        false
    }
}

/// Whether one of the phrases has this text.
pub open spec fn has_text(phrases: Seq<PhraseView>, text: Seq<char>) -> bool {
    exists|i: int| 0 <= i < phrases.len() && (#[trigger] phrases[i]).text == text
}

/// The phrase as the additions hold it: with the time of its last use, 0
/// where it was never used.
pub open spec fn stamped(phrase: PhraseView) -> PhraseView {
    PhraseView {
        text: phrase.text,
        freq: phrase.freq,
        last_used: Some(
            match phrase.last_used {
                Some(time) => time,
                None => 0,
            },
        ),
    }
}

/// There is one first phrase with a text only.
pub proof fn lemma_first_with_text_is(phrases: Seq<PhraseView>, text: Seq<char>, k: int)
    requires
        is_first_with_text(phrases, text, k),
    ensures
        (choose|c: int| is_first_with_text(phrases, text, c)) == k,
{
    let other = choose|c: int| is_first_with_text(phrases, text, c);
    assert(is_first_with_text(phrases, text, other));
    if other < k {
        assert(phrases[other].text != text);
    } else if k < other {
        assert(phrases[k].text != text);
    }
}

/// Whether a phrase takes the place of another with the same text.
pub fn takes_place_of(phrase: &Phrase, other: &Phrase) -> (b: bool)
    ensures
        b == outranks(phrase@, other@),
{
    if phrase.freq != other.freq {
        return phrase.freq > other.freq;
    }
    match (phrase.last_used, other.last_used) {
        (Some(x), Some(y)) => x > y,
        (Some(_), None) => true,
        _ => false,
    }
}

/// Whether a text lies in the range that a lookup of the additions covers.
pub fn in_range(text: &str) -> (b: bool)
    ensures
        b == in_lookup_range(text@),
{
    let ghost codes = char_codes(text@);
    let ghost bound = seq![0x10FFFFint];
    if text.unicode_len() == 0 {
        return true;
    }
    let first: char = text.get_char(0);
    proof {
        assert(codes[0] == first as int);
        assert(bound[0] == 0x10FFFF);
        assert(first as int <= 0x10FFFF);
        if first == '\u{10FFFF}' {
            assert(bound.drop_first().len() == 0);
            assert(!lex_lt(codes.drop_first(), bound.drop_first()));
        } else {
            assert(first as int != 0x10FFFF);
        }
    }
    first != '\u{10FFFF}'
}

impl TrieBufDictionary {
    /// What the layers hold under these syllables: the phrases of the
    /// immutable layer, then those of the additions, without the removed
    /// ones.
    pub fn entries_iter_for(&self, syllables: &[Syllable]) -> (r: Vec<Phrase>)
        ensures
            phrase_views(r@) == layered(
                self.trie_view(),
                self.btree_view(),
                self.graveyard_view(),
                syllables@,
            ),
    {
        let mut all: Vec<Phrase> = match &self.trie {
            Some(layer) => layer.lookup_all_phrases(syllables),
            None => Vec::new(),
        };
        let ghost from_trie = phrase_views(all@);
        let ghost buffered = entry_views(self.btree@);
        assert(from_trie =~= phrases_under(self.trie_view(), syllables@));
        let mut i: usize = 0;
        assert(phrase_views(all@) =~= from_trie + buffered_under(buffered.take(0), syllables@));
        while i < self.btree.len()
            invariant
                i <= self.btree@.len(),
                buffered == entry_views(self.btree@),
                phrase_views(all@) == from_trie + buffered_under(
                    buffered.take(i as int),
                    syllables@,
                ),
            decreases self.btree@.len() - i,
        {
            let entry = &self.btree[i];
            let ghost before = phrase_views(all@);
            assert(buffered.take(i + 1).drop_last() =~= buffered.take(i as int));
            assert(buffered.take(i + 1).last() == (entry.0@, entry.1@));
            let same = match order_syllables(entry.0.as_slice(), syllables) {
                KeyOrder::Same => true,
                _ => false,
            };
            if same && in_range(entry.1.as_str()) {
                all.push(entry.1.clone());
                assert(phrase_views(all@) =~= before.push(entry.1@));
                assert(before.push(entry.1@) =~= from_trie + buffered_under(
                    buffered.take(i as int),
                    syllables@,
                ).push(entry.1@));
            }
            i = i + 1;
        }
        assert(buffered.take(self.btree@.len() as int) =~= buffered);
        let ghost candidates = phrase_views(all@);
        let mut shown: Vec<Phrase> = Vec::new();
        let mut k: usize = 0;
        assert(phrase_views(shown@) =~= visible_phrases(
            candidates.take(0),
            syllables@,
            self.graveyard_view(),
        ));
        while k < all.len()
            invariant
                k <= all@.len(),
                candidates == phrase_views(all@),
                phrase_views(shown@) == visible_phrases(
                    candidates.take(k as int),
                    syllables@,
                    self.graveyard_view(),
                ),
            decreases all@.len() - k,
        {
            let phrase = &all[k];
            let ghost before = phrase_views(shown@);
            assert(candidates.take(k + 1).drop_last() =~= candidates.take(k as int));
            assert(candidates.take(k + 1).last() == phrase@);
            if !self.is_buried(syllables, phrase.as_str()) {
                shown.push(phrase.clone());
                assert(phrase_views(shown@) =~= before.push(phrase@));
            }
            k = k + 1;
        }
        assert(candidates.take(all@.len() as int) =~= candidates);
        shown
    }

    /// The two layers walked together in key order.
    fn merge_layers(&self) -> (r: Vec<DictEntry>)
        requires
            self.wf(),
        ensures
            entry_views(r@) == merge(self.trie_view(), self.btree_view()),
            sorted_entries(entry_views(r@)),
    {
        let ghost a = self.trie_view();
        let ghost b = self.btree_view();
        let a_len: usize = match &self.trie {
            Some(layer) => layer.len(),
            None => 0,
        };
        let b_len: usize = self.btree.len();
        let mut out: Vec<DictEntry> = Vec::new();
        let mut i: usize = 0;
        let mut j: usize = 0;
        proof {
            assert(a.skip(0) =~= a);
            assert(b.skip(0) =~= b);
            assert(entry_views(out@) + merge(a, b) =~= merge(a, b));
        }
        while i < a_len || j < b_len
            invariant
                i <= a_len,
                j <= b_len,
                a_len == a.len(),
                b_len == b.len(),
                a == self.trie_view(),
                b == self.btree_view(),
                b == entry_views(self.btree@),
                sorted_entries(a),
                sorted_entries(b),
                entry_views(out@) + merge(a.skip(i as int), b.skip(j as int)) == merge(a, b),
                sorted_entries(entry_views(out@)),
                forall|k: int, m: int|
                    0 <= k < out@.len() && i <= m < a.len() ==> key_lt(
                        key_of(#[trigger] entry_views(out@)[k]),
                        key_of(#[trigger] a[m]),
                    ),
                forall|k: int, m: int|
                    0 <= k < out@.len() && j <= m < b.len() ==> key_lt(
                        key_of(#[trigger] entry_views(out@)[k]),
                        key_of(#[trigger] b[m]),
                    ),
            decreases (a_len - i) + (b_len - j),
        {
            let ghost before = entry_views(out@);
            let ghost rest_a = a.skip(i as int);
            let ghost rest_b = b.skip(j as int);
            let take_a: bool;
            let take_b: bool;
            let keep_a: bool;
            if i >= a_len {
                take_a = false;
                take_b = true;
                keep_a = false;
            } else if j >= b_len {
                take_a = true;
                take_b = false;
                keep_a = true;
            } else {
                let x = match &self.trie {
                    Some(layer) => layer.get(i),
                    None => &self.btree[j],
                };
                let y = &self.btree[j];
                assert((x.0@, x.1@) == a[i as int]);
                assert((y.0@, y.1@) == b[j as int]);
                match order_keys(x.0.as_slice(), x.1.as_str(), y.0.as_slice(), y.1.as_str()) {
                    KeyOrder::Before => {
                        take_a = true;
                        take_b = false;
                        keep_a = true;
                    },
                    KeyOrder::After => {
                        take_a = false;
                        take_b = true;
                        keep_a = false;
                    },
                    KeyOrder::Same => {
                        take_a = true;
                        take_b = true;
                        keep_a = x.1.freq > y.1.freq;
                    },
                }
            }
            let entry: DictEntry = if keep_a {
                let x = match &self.trie {
                    Some(layer) => layer.get(i),
                    None => &self.btree[j],
                };
                (clone_syllables(x.0.as_slice()), x.1.clone())
            } else {
                let y = &self.btree[j];
                (clone_syllables(y.0.as_slice()), y.1.clone())
            };
            let ghost emitted = (entry.0@, entry.1@);
            let ghost next_i = if take_a {
                i + 1
            } else {
                i as int
            };
            let ghost next_j = if take_b {
                j + 1
            } else {
                j as int
            };
            proof {
                if i < a_len {
                    assert(rest_a[0] == a[i as int]);
                    assert(rest_a.drop_first() =~= a.skip(i + 1));
                }
                if j < b_len {
                    assert(rest_b[0] == b[j as int]);
                    assert(rest_b.drop_first() =~= b.skip(j + 1));
                }
                if i >= a_len {
                    assert(rest_a.len() == 0);
                    assert(a.skip(next_i).len() == 0);
                    assert(merge(rest_a, rest_b) == rest_b);
                    assert(merge(a.skip(next_i), b.skip(next_j)) == b.skip(next_j));
                    assert(rest_b =~= seq![emitted] + b.skip(next_j));
                } else if j >= b_len {
                    assert(rest_b.len() == 0);
                    assert(merge(rest_a, rest_b) == rest_a);
                    assert(b.skip(next_j).len() == 0);
                    if a.skip(next_i).len() == 0 {
                        assert(merge(a.skip(next_i), b.skip(next_j)) =~= a.skip(next_i));
                    }
                    assert(merge(a.skip(next_i), b.skip(next_j)) =~= a.skip(next_i));
                    assert(rest_a =~= seq![emitted] + a.skip(next_i));
                }
                assert(merge(rest_a, rest_b) =~= seq![emitted] + merge(
                    a.skip(next_i),
                    b.skip(next_j),
                ));
                assert forall|k: int| 0 <= k < before.len() implies key_lt(
                    key_of(#[trigger] before[k]),
                    key_of(emitted),
                ) by {
                    if keep_a {
                        assert(key_lt(key_of(before[k]), key_of(a[i as int])));
                    } else {
                        assert(key_lt(key_of(before[k]), key_of(b[j as int])));
                    }
                }
            }
            out.push(entry);
            proof {
                let after = entry_views(out@);
                assert(after =~= before.push(emitted));
                assert(after + merge(a.skip(next_i), b.skip(next_j)) =~= before + (seq![emitted]
                    + merge(a.skip(next_i), b.skip(next_j))));
                assert forall|k: int, m: int|
                    0 <= k < after.len() && next_i <= m < a.len() implies key_lt(
                    key_of(#[trigger] after[k]),
                    key_of(#[trigger] a[m]),
                ) by {
                    if k < before.len() {
                        assert(key_lt(key_of(before[k]), key_of(a[m])));
                    } else if keep_a {
                        assert(key_lt(key_of(a[i as int]), key_of(a[m])));
                    } else if i < a_len {
                        if take_a {
                            assert(key_of(a[i as int]) == key_of(b[j as int]));
                            assert(key_lt(key_of(a[i as int]), key_of(a[m])));
                        } else {
                            assert(key_lt(key_of(b[j as int]), key_of(a[i as int])));
                            if m > i {
                                assert(key_lt(key_of(a[i as int]), key_of(a[m])));
                                lemma_key_lt_transitive(
                                    key_of(b[j as int]),
                                    key_of(a[i as int]),
                                    key_of(a[m]),
                                );
                            }
                        }
                    }
                }
                assert forall|k: int, m: int|
                    0 <= k < after.len() && next_j <= m < b.len() implies key_lt(
                    key_of(#[trigger] after[k]),
                    key_of(#[trigger] b[m]),
                ) by {
                    if k < before.len() {
                        assert(key_lt(key_of(before[k]), key_of(b[m])));
                    } else if !keep_a {
                        assert(key_lt(key_of(b[j as int]), key_of(b[m])));
                    } else if j < b_len {
                        if take_b {
                            assert(key_of(a[i as int]) == key_of(b[j as int]));
                            assert(key_lt(key_of(b[j as int]), key_of(b[m])));
                        } else {
                            assert(key_lt(key_of(a[i as int]), key_of(b[j as int])));
                            if m > j {
                                assert(key_lt(key_of(b[j as int]), key_of(b[m])));
                                lemma_key_lt_transitive(
                                    key_of(a[i as int]),
                                    key_of(b[j as int]),
                                    key_of(b[m]),
                                );
                            }
                        }
                    }
                }
                assert forall|k: int, m: int| 0 <= k < m < after.len() implies key_lt(
                    key_of(#[trigger] after[k]),
                    key_of(#[trigger] after[m]),
                ) by {
                    if m < before.len() {
                        assert(key_lt(key_of(before[k]), key_of(before[m])));
                    } else {
                        assert(key_lt(key_of(before[k]), key_of(emitted)));
                    }
                }
            }
            if take_a {
                i = i + 1;
            }
            if take_b {
                j = j + 1;
            }
        }
        proof {
            assert(a.skip(i as int).len() == 0);
            assert(merge(a.skip(i as int), b.skip(j as int)) =~= Seq::<EntryView>::empty());
            assert(entry_views(out@) + Seq::<EntryView>::empty() =~= entry_views(out@));
        }
        out
    }

    /// Every entry of the dictionary, in key order: the two layers walked
    /// together, without the removed entries.
    pub fn entries_iter(&self) -> (r: Vec<DictEntry>)
        requires
            self.wf(),
        ensures
            entry_views(r@) == self.merged_view(),
            sorted_entries(entry_views(r@)),
    {
        let all = self.merge_layers();
        let ghost given = entry_views(all@);
        let mut out: Vec<DictEntry> = Vec::new();
        let mut i: usize = 0;
        assert(entry_views(out@) =~= visible_entries(given.take(0), self.graveyard_view()));
        while i < all.len()
            invariant
                i <= all@.len(),
                given == entry_views(all@),
                sorted_entries(given),
                entry_views(out@) == visible_entries(given.take(i as int), self.graveyard_view()),
                sorted_entries(entry_views(out@)),
                forall|k: int, m: int|
                    0 <= k < out@.len() && i <= m < given.len() ==> key_lt(
                        key_of(#[trigger] entry_views(out@)[k]),
                        key_of(#[trigger] given[m]),
                    ),
            decreases all@.len() - i,
        {
            let entry = &all[i];
            let ghost before = entry_views(out@);
            assert(given.take(i + 1).drop_last() =~= given.take(i as int));
            assert(given.take(i + 1).last() == given[i as int]);
            assert(given[i as int] == (entry.0@, entry.1@));
            if !self.is_buried(entry.0.as_slice(), entry.1.as_str()) {
                out.push((clone_syllables(entry.0.as_slice()), entry.1.clone()));
                proof {
                    let after = entry_views(out@);
                    assert(after =~= before.push(given[i as int]));
                    assert forall|k: int, m: int| 0 <= k < m < after.len() implies key_lt(
                        key_of(#[trigger] after[k]),
                        key_of(#[trigger] after[m]),
                    ) by {
                        if m < before.len() {
                            assert(key_lt(key_of(before[k]), key_of(before[m])));
                        } else {
                            assert(key_lt(key_of(before[k]), key_of(given[i as int])));
                        }
                    }
                    assert forall|k: int, m: int|
                        0 <= k < after.len() && i + 1 <= m < given.len() implies key_lt(
                        key_of(#[trigger] after[k]),
                        key_of(#[trigger] given[m]),
                    ) by {
                        if k < before.len() {
                            assert(key_lt(key_of(before[k]), key_of(given[m])));
                        } else {
                            assert(key_lt(key_of(given[i as int]), key_of(given[m])));
                        }
                    }
                }
            }
            i = i + 1;
        }
        assert(given.take(all@.len() as int) =~= given);
        out
    }

    /// Every entry of the dictionary, in key order.
    pub fn entries(&self) -> (r: Vec<DictEntry>)
        requires
            self.wf(),
        ensures
            entry_views(r@) == self.merged_view(),
            sorted_entries(entry_views(r@)),
    {
        self.entries_iter()
    }

    /// The first `first` phrases filed under these syllables, each text
    /// once.
    pub fn lookup_first_n_phrases(&self, syllables: &[Syllable], first: usize) -> (r: Vec<Phrase>)
        ensures
            self.lookup(syllables@).len() <= usize::MAX,
            phrase_views(r@) == if first <= self.lookup(syllables@).len() {
                self.lookup(syllables@).take(first as int)
            } else {
                self.lookup(syllables@)
            },
    {
        let all = self.entries_iter_for(syllables);
        let ghost given = phrase_views(all@);
        let mut phrases: Vec<Phrase> = Vec::new();
        let mut i: usize = 0;
        assert(phrase_views(phrases@) =~= unique_by_text(given.take(0)));
        while i < all.len()
            invariant
                i <= all@.len(),
                given == phrase_views(all@),
                phrase_views(phrases@) == unique_by_text(given.take(i as int)),
            decreases all@.len() - i,
        {
            let phrase = &all[i];
            let ghost before = phrase_views(phrases@);
            assert(given.take(i + 1).drop_last() =~= given.take(i as int));
            assert(given.take(i + 1).last() == phrase@);
            let mut k: usize = 0;
            let mut found: bool = false;
            while k < phrases.len() && !found
                invariant
                    k <= phrases@.len(),
                    before == phrase_views(phrases@),
                    !found ==> forall|m: int| 0 <= m < k ==> (#[trigger] before[m]).text != phrase@.text,
                    found ==> is_first_with_text(before, phrase@.text, k as int),
                decreases phrases@.len() - k + (if found { 0int } else { 1int }),
            {
                assert(before[k as int] == phrases@[k as int]@);
                if phrases[k].text == phrase.text {
                    found = true;
                } else {
                    k = k + 1;
                }
            }
            if found {
                proof {
                    lemma_first_with_text_is(before, phrase@.text, k as int);
                    assert(before[k as int] == phrases@[k as int]@);
                }
                if takes_place_of(phrase, &phrases[k]) {
                    phrases.set(k, phrase.clone());
                    assert(phrase_views(phrases@) =~= before.update(k as int, phrase@));
                }
            } else {
                assert(!exists|c: int| is_first_with_text(before, phrase@.text, c));
                phrases.push(phrase.clone());
                assert(phrase_views(phrases@) =~= before.push(phrase@));
            }
            i = i + 1;
        }
        assert(given.take(all@.len() as int) =~= given);
        assert(phrase_views(phrases@).len() == phrases@.len());
        let ghost whole = phrase_views(phrases@);
        phrases.truncate(first);
        assert(phrase_views(phrases@) =~= if first <= whole.len() {
            whole.take(first as int)
        } else {
            whole
        });
        phrases
    }
}

/// What a new user dictionary says of itself: its name, the software that
/// made it, which is the application's name and version, and that the rest
/// is unknown.
pub open spec fn default_info(software: Seq<char>) -> DictionaryInfoView {
    DictionaryInfoView {
        name: Some(DEFAULT_NAME@),
        copyright: Some(UNKNOWN@),
        license: Some(UNKNOWN@),
        version: Some(UNKNOWN@),
        software: Some(software),
    }
}

impl TrieBufDictionary {
    /// The place that a key has among the additions, and whether an
    /// addition with this key stands there.
    fn find_place(&self, syllables: &[Syllable], text: &str) -> (r: (usize, bool))
        ensures
            is_place(self.btree_view(), (syllables@, text@), r.0 as int),
            r.1 == (r.0 < self.btree_view().len() && key_of(self.btree_view()[r.0 as int]) == (
                syllables@,
                text@,
            )),
            r.0 < self.btree_view().len() && !r.1 ==> key_lt(
                (syllables@, text@),
                key_of(self.btree_view()[r.0 as int]),
            ),
    {
        let ghost held = entry_views(self.btree@);
        let mut k: usize = 0;
        while k < self.btree.len()
            invariant
                k <= self.btree@.len(),
                held == entry_views(self.btree@),
                forall|i: int| 0 <= i < k ==> key_lt(key_of(#[trigger] held[i]), (syllables@, text@)),
            decreases self.btree@.len() - k,
        {
            let entry = &self.btree[k];
            assert(held[k as int] == (entry.0@, entry.1@));
            match order_keys(entry.0.as_slice(), entry.1.as_str(), syllables, text) {
                KeyOrder::Before => {},
                KeyOrder::Same => {
                    proof {
                        lemma_key_lt_irreflexive((syllables@, text@));
                    }
                    return (k, true);
                },
                KeyOrder::After => {
                    return (k, false);
                },
            }
            k = k + 1;
        }
        (k, false)
    }

    /// Files an entry among the additions, in the place of the one with
    /// its key where there is one.
    fn put(&mut self, syllables: &[Syllable], phrase: Phrase)
        requires
            old(self).wf(),
        ensures
            final(self).wf(),
            final(self).btree_view() == upsert(old(self).btree_view(), (syllables@, phrase@)),
            final(self).path_view() == old(self).path_view(),
            final(self).trie_view() == old(self).trie_view(),
            final(self).has_trie() == old(self).has_trie(),
            final(self).info_view() == old(self).info_view(),
            final(self).graveyard_view() == old(self).graveyard_view(),
    {
        let ghost before = entry_views(self.btree@);
        let ghost added = (syllables@, phrase@);
        let (k, found) = self.find_place(syllables, phrase.as_str());
        proof {
            lemma_place_is(before, key_of(added), k as int);
        }
        if found {
            self.btree.set(k, (clone_syllables(syllables), phrase));
            proof {
                let after = entry_views(self.btree@);
                assert(after =~= before.update(k as int, added));
                assert forall|i: int, j: int| 0 <= i < j < after.len() implies key_lt(
                    key_of(#[trigger] after[i]),
                    key_of(#[trigger] after[j]),
                ) by {
                    assert(key_lt(key_of(before[i]), key_of(before[j])));
                }
            }
        } else {
            self.btree.insert(k, (clone_syllables(syllables), phrase));
            proof {
                let after = entry_views(self.btree@);
                assert(after =~= before.insert(k as int, added));
                assert forall|i: int, j: int| 0 <= i < j < after.len() implies key_lt(
                    key_of(#[trigger] after[i]),
                    key_of(#[trigger] after[j]),
                ) by {
                    if j < k {
                        assert(key_lt(key_of(before[i]), key_of(before[j])));
                    } else if j == k {
                        assert(key_lt(key_of(before[i]), key_of(added)));
                    } else if i < k {
                        assert(key_lt(key_of(before[i]), key_of(before[j - 1])));
                    } else if i == k {
                        if j - 1 > k {
                            assert(key_lt(key_of(before[k as int]), key_of(before[j - 1])));
                            lemma_key_lt_transitive(
                                key_of(added),
                                key_of(before[k as int]),
                                key_of(before[j - 1]),
                            );
                        }
                    } else {
                        assert(key_lt(key_of(before[i - 1]), key_of(before[j - 1])));
                    }
                }
            }
        }
    }

    /// Adds a phrase under these syllables. Fails where the dictionary
    /// shows a phrase with this text under them already.
    #[verifier::loop_isolation(false)]
    pub fn add_phrase(&mut self, syllables: &[Syllable], phrase: Phrase) -> (r: Result<
        (),
        DictionaryUpdateError,
    >)
        requires
            old(self).wf(),
        ensures
            final(self).wf(),
            final(self).path_view() == old(self).path_view(),
            final(self).trie_view() == old(self).trie_view(),
            final(self).has_trie() == old(self).has_trie(),
            final(self).info_view() == old(self).info_view(),
            final(self).graveyard_view() == old(self).graveyard_view(),
            r is Err <==> has_text(
                layered(
                    old(self).trie_view(),
                    old(self).btree_view(),
                    old(self).graveyard_view(),
                    syllables@,
                ),
                phrase@.text,
            ),
            r is Err ==> r->Err_0.source is None && final(self).btree_view() == old(
                self,
            ).btree_view(),
            r is Ok ==> final(self).btree_view() == upsert(
                old(self).btree_view(),
                (syllables@, stamped(phrase@)),
            ),
    {
        let shown = self.entries_iter_for(syllables);
        let ghost views = phrase_views(shown@);
        let mut i: usize = 0;
        while i < shown.len()
            invariant
                i <= shown@.len(),
                views == phrase_views(shown@),
                forall|k: int| 0 <= k < i ==> (#[trigger] views[k]).text != phrase@.text,
            decreases shown@.len() - i,
        {
            assert(views[i as int] == shown@[i as int]@);
            if shown[i].text == phrase.text {
                return Err(DictionaryUpdateError { source: None });
            }
            i = i + 1;
        }
        let time: u64 = match phrase.last_used {
            Some(time) => time,
            None => 0,
        };
        let entry = Phrase { text: phrase.text, freq: phrase.freq, last_used: Some(time) };
        self.put(syllables, entry);
        Ok(())
    }

    /// Files the phrase under these syllables with a new frequency and
    /// time of use, whether it was there or not.
    pub fn update_phrase(
        &mut self,
        syllables: &[Syllable],
        phrase: Phrase,
        user_freq: u32,
        time: u64,
    ) -> (r: Result<(), DictionaryUpdateError>)
        requires
            old(self).wf(),
        ensures
            r is Ok,
            final(self).wf(),
            final(self).path_view() == old(self).path_view(),
            final(self).trie_view() == old(self).trie_view(),
            final(self).has_trie() == old(self).has_trie(),
            final(self).info_view() == old(self).info_view(),
            final(self).graveyard_view() == old(self).graveyard_view(),
            final(self).btree_view() == upsert(
                old(self).btree_view(),
                (
                    syllables@,
                    PhraseView { text: phrase@.text, freq: user_freq, last_used: Some(time) },
                ),
            ),
    {
        let entry = Phrase { text: phrase.text, freq: user_freq, last_used: Some(time) };
        self.put(syllables, entry);
        Ok(())
    }

    /// Removes the phrase with this text under these syllables: it leaves
    /// the additions, and its key is buried, so that the immutable layer
    /// does not show it either.
    pub fn remove_phrase(&mut self, syllables: &[Syllable], phrase_str: &str) -> (r: Result<
        (),
        DictionaryUpdateError,
    >)
        requires
            old(self).wf(),
        ensures
            r is Ok,
            final(self).wf(),
            final(self).path_view() == old(self).path_view(),
            final(self).trie_view() == old(self).trie_view(),
            final(self).has_trie() == old(self).has_trie(),
            final(self).info_view() == old(self).info_view(),
            final(self).btree_view() == without(old(self).btree_view(), (syllables@, phrase_str@)),
            final(self).graveyard_view() == old(self).graveyard_view().insert(
                (syllables@, phrase_str@),
            ),
    {
        let ghost before = entry_views(self.btree@);
        let ghost key = (syllables@, phrase_str@);
        let (k, found) = self.find_place(syllables, phrase_str);
        proof {
            lemma_place_is(before, key, k as int);
        }
        if found {
            self.btree.remove(k);
            proof {
                let after = entry_views(self.btree@);
                assert(after =~= before.remove(k as int));
                assert forall|i: int, j: int| 0 <= i < j < after.len() implies key_lt(
                    key_of(#[trigger] after[i]),
                    key_of(#[trigger] after[j]),
                ) by {
                    let from_i = if i < k {
                        i
                    } else {
                        i + 1
                    };
                    let from_j = if j < k {
                        j
                    } else {
                        j + 1
                    };
                    assert(key_lt(key_of(before[from_i]), key_of(before[from_j])));
                }
            }
        }
        let ghost buried = buried_keys(self.graveyard@);
        if !self.is_buried(syllables, phrase_str) {
            self.graveyard.push((clone_syllables(syllables), phrase_str.to_owned()));
            proof {
                let after = buried_keys(self.graveyard@);
                assert(after =~= buried.push(key));
                assert(after.to_set() =~= buried.to_set().insert(key)) by {
                    assert forall|x: KeyView| after.contains(x) <==> (buried.contains(x) || x
                        == key) by {
                        if after.contains(x) {
                            let m = choose|m: int| 0 <= m < after.len() && after[m] == x;
                            if m < buried.len() {
                                assert(buried[m] == x);
                            }
                        }
                        if buried.contains(x) {
                            let m = choose|m: int| 0 <= m < buried.len() && buried[m] == x;
                            assert(after[m] == x);
                        }
                        if x == key {
                            assert(after[after.len() - 1] == x);
                        }
                    }
                }
            }
        } else {
            assert(buried.to_set().insert(key) =~= buried.to_set());
        }
        Ok(())
    }

    /// What the dictionary says of itself: what its immutable layer says,
    /// and nothing without one.
    pub fn about(&self) -> (r: DictionaryInfo)
        ensures
            r@ == self.info_view(),
    {
        match &self.trie {
            Some(layer) => layer.about(),
            None => DictionaryInfo::default(),
        }
    }

    /// Where the dictionary is kept; empty for one that is kept nowhere.
    pub fn path(&self) -> (r: &str)
        ensures
            r@ == self.path_view(),
    {
        self.path.as_str()
    }

    /// The immutable layer, as it is to be written where the dictionary is
    /// kept.
    pub fn trie(&self) -> (r: Option<&TrieDictionary>)
        ensures
            r is Some == self.has_trie(),
            r matches Some(layer) ==> layer.entries_view() == self.trie_view() && layer.info_view()
                == self.info_view() && (self.wf() ==> layer.wf()),
    {
        self.trie.as_ref()
    }

    /// Opens the dictionary kept at `path` from what is stored there. Where
    /// nothing is stored yet, the dictionary starts with an empty immutable
    /// layer that says of itself what a new user dictionary says, with
    /// `software`, the application's name and version, as its maker.
    pub fn open(path: &str, software: &str, stored: Option<TrieDictionary>) -> (r:
        TrieBufDictionary)
        requires
            stored matches Some(layer) ==> layer.wf(),
        ensures
            r.wf(),
            r.path_view() == path@,
            r.has_trie(),
            r.btree_view() == Seq::<EntryView>::empty(),
            r.graveyard_view() == Set::<KeyView>::empty(),
            match stored {
                Some(layer) => r.trie_view() == layer.entries_view() && r.info_view()
                    == layer.info_view(),
                None => r.trie_view() == Seq::<EntryView>::empty() && r.info_view()
                    == default_info(software@),
            },
    {
        let trie = match stored {
            Some(layer) => layer,
            None => {
                let info = DictionaryInfo {
                    name: Some(DEFAULT_NAME.to_owned()),
                    copyright: Some(UNKNOWN.to_owned()),
                    license: Some(UNKNOWN.to_owned()),
                    version: Some(UNKNOWN.to_owned()),
                    software: Some(software.to_owned()),
                };
                let mut builder = TrieDictionaryBuilder::new();
                let _ = builder.set_info(info);
                builder.build()
            },
        };
        let r = TrieBufDictionary {
            path: path.to_owned(),
            trie: Some(trie),
            btree: Vec::new(),
            graveyard: Vec::new(),
        };
        assert(r.btree_view() =~= Seq::<EntryView>::empty());
        assert(r.graveyard_view() =~= Set::<KeyView>::empty());
        r
    }

    /// Takes what is stored where the dictionary is kept as the immutable
    /// layer. A dictionary that is kept nowhere stays as it is.
    pub fn reopen(&mut self, stored: TrieDictionary) -> (r: Result<(), DictionaryUpdateError>)
        requires
            old(self).wf(),
            stored.wf(),
        ensures
            r is Ok,
            final(self).wf(),
            final(self).path_view() == old(self).path_view(),
            final(self).btree_view() == old(self).btree_view(),
            final(self).graveyard_view() == old(self).graveyard_view(),
            old(self).path_view().len() == 0 ==> final(self).trie_view() == old(self).trie_view()
                && final(self).has_trie() == old(self).has_trie() && final(self).info_view()
                == old(self).info_view(),
            old(self).path_view().len() > 0 ==> final(self).trie_view() == stored.entries_view()
                && final(self).has_trie() && final(self).info_view() == stored.info_view(),
    {
        if !self.path.as_str().is_empty() {
            self.trie = Some(stored);
        }
        Ok(())
    }

    /// The whole dictionary as one immutable layer: what a flush writes
    /// where the dictionary is kept.
    pub fn build_layer(&self) -> (layer: TrieDictionary)
        requires
            self.wf(),
        ensures
            layer.wf(),
            layer.entries_view() == self.merged_view(),
            layer.info_view() == self.info_view(),
    {
        let mut builder = TrieDictionaryBuilder::new();
        let _ = builder.set_info(self.about());
        let all = self.entries();
        let ghost given = entry_views(all@);
        let mut i: usize = 0;
        while i < all.len()
            invariant
                i <= all@.len(),
                given == entry_views(all@),
                sorted_entries(given),
                builder.wf(),
                builder.info_view() == self.info_view(),
                builder.entries_view() == given.take(i as int),
            decreases all@.len() - i,
        {
            let entry = &all[i];
            assert(given[i as int] == (entry.0@, entry.1@));
            proof {
                if i > 0 {
                    assert(given.take(i as int).last() == given[i - 1]);
                    assert(key_lt(key_of(given[i - 1]), key_of(given[i as int])));
                }
            }
            let filed = builder.insert(entry.0.as_slice(), entry.1.clone());
            assert(filed is Ok);
            assert(given.take(i as int).push(given[i as int]) =~= given.take(i + 1));
            i = i + 1;
        }
        assert(given.take(all@.len() as int) =~= given);
        builder.build()
    }

    /// Makes the whole dictionary the immutable layer: the layers as they
    /// are seen together become the new layer, and the additions and the
    /// buried keys are forgotten. A dictionary that is kept nowhere stays
    /// as it is.
    pub fn flush(&mut self) -> (r: Result<(), DictionaryUpdateError>)
        requires
            old(self).wf(),
        ensures
            r is Ok,
            final(self).wf(),
            final(self).path_view() == old(self).path_view(),
            final(self).info_view() == old(self).info_view(),
            old(self).path_view().len() == 0 ==> final(self).trie_view() == old(self).trie_view()
                && final(self).has_trie() == old(self).has_trie() && final(self).btree_view()
                == old(self).btree_view() && final(self).graveyard_view() == old(
                self,
            ).graveyard_view(),
            old(self).path_view().len() > 0 ==> final(self).trie_view() == old(self).merged_view()
                && final(self).has_trie() && final(self).btree_view() == Seq::<EntryView>::empty()
                && final(self).graveyard_view() == Set::<KeyView>::empty(),
    {
        if self.path.as_str().is_empty() {
            return Ok(());
        }
        self.trie = Some(self.build_layer());
        self.btree.clear();
        self.graveyard.clear();
        assert(self.btree_view() =~= Seq::<EntryView>::empty());
        assert(self.graveyard_view() =~= Set::<KeyView>::empty());
        Ok(())
    }
}

/// The additions of a dictionary that is kept nowhere after one more
/// phrase was handed in: a phrase whose text is shown under these
/// syllables already is left out.
pub open spec fn file_one(
    btree: Seq<EntryView>,
    syllables: Seq<Syllable>,
    phrase: PhraseView,
) -> Seq<EntryView> {
    if has_text(
        layered(Seq::<EntryView>::empty(), btree, Set::<KeyView>::empty(), syllables),
        phrase.text,
    ) {
        btree
    } else {
        upsert(btree, (syllables, stamped(phrase)))
    }
}

/// The additions after the phrases were handed in under these syllables,
/// one after the other.
pub open spec fn file_each(
    btree: Seq<EntryView>,
    syllables: Seq<Syllable>,
    phrases: Seq<PhraseView>,
) -> Seq<EntryView>
    decreases phrases.len(),
{
    if phrases.len() == 0 {
        btree
    } else {
        file_one(file_each(btree, syllables, phrases.drop_last()), syllables, phrases.last())
    }
}

/// The additions after every group of phrases was handed in under its
/// syllables, one group after the other.
pub open spec fn file_groups(btree: Seq<EntryView>, groups: Seq<(Vec<Syllable>, Vec<Phrase>)>) -> Seq<
    EntryView,
>
    decreases groups.len(),
{
    if groups.len() == 0 {
        btree
    } else {
        file_each(
            file_groups(btree, groups.drop_last()),
            groups.last().0@,
            phrase_views(groups.last().1@),
        )
    }
}

impl<const N: usize> From<[(Vec<Syllable>, Vec<Phrase>); N]> for TrieBufDictionary {
    /// A dictionary that is kept nowhere and holds the phrases, each group
    /// under its syllables. A phrase whose text its group holds already is
    /// left out.
    fn from(value: [(Vec<Syllable>, Vec<Phrase>); N]) -> (r: TrieBufDictionary)
        ensures
            r.wf(),
            r.path_view() == Seq::<char>::empty(),
            !r.has_trie(),
            r.trie_view() == Seq::<EntryView>::empty(),
            r.graveyard_view() == Set::<KeyView>::empty(),
            r.btree_view() == file_groups(Seq::<EntryView>::empty(), value@),
    {
        let mut dict = TrieBufDictionary::new_in_memory();
        let mut i: usize = 0;
        assert(value@.take(0) =~= Seq::empty());
        while i < N
            invariant
                i <= N,
                value@.len() == N,
                dict.wf(),
                dict.path_view() == Seq::<char>::empty(),
                !dict.has_trie(),
                dict.trie_view() == Seq::<EntryView>::empty(),
                dict.graveyard_view() == Set::<KeyView>::empty(),
                dict.btree_view() == file_groups(Seq::<EntryView>::empty(), value@.take(i as int)),
            decreases N - i,
        {
            let group = &value[i];
            let ghost before = dict.btree_view();
            let ghost phrases = phrase_views(group.1@);
            let mut j: usize = 0;
            assert(phrases.take(0) =~= Seq::empty());
            while j < group.1.len()
                invariant
                    j <= group.1@.len(),
                    phrases == phrase_views(group.1@),
                    dict.wf(),
                    dict.path_view() == Seq::<char>::empty(),
                    !dict.has_trie(),
                    dict.trie_view() == Seq::<EntryView>::empty(),
                    dict.graveyard_view() == Set::<KeyView>::empty(),
                    dict.btree_view() == file_each(before, group.0@, phrases.take(j as int)),
                decreases group.1@.len() - j,
            {
                let phrase = group.1[j].clone();
                assert(phrases.take(j + 1).drop_last() =~= phrases.take(j as int));
                assert(phrases.take(j + 1).last() == phrase@);
                let _ = dict.add_phrase(group.0.as_slice(), phrase);
                j = j + 1;
            }
            assert(phrases.take(group.1@.len() as int) =~= phrases);
            assert(value@.take(i + 1).drop_last() =~= value@.take(i as int));
            assert(value@.take(i + 1).last() == value@[i as int]);
            i = i + 1;
        }
        assert(value@.take(N as int) =~= value@);
        dict
    }
}

impl<const N: usize> vstd::std_specs::convert::FromSpecImpl<[(Vec<Syllable>, Vec<Phrase>); N]> for TrieBufDictionary {
    open spec fn obeys_from_spec() -> bool {
        false
    }

    open spec fn from_spec(value: [(Vec<Syllable>, Vec<Phrase>); N]) -> TrieBufDictionary {
        arbitrary()
    }
}

impl Dictionary for TrieBufDictionary {
    open spec fn wf(&self) -> bool {
        TrieBufDictionary::wf(self)
    }

    open spec fn phrases_of(&self, syllables: Seq<Syllable>) -> Seq<PhraseView> {
        self.lookup(syllables)
    }

    open spec fn entries_of(&self) -> Seq<EntryView> {
        self.merged_view()
    }

    open spec fn info_of(&self) -> DictionaryInfoView {
        self.info_view()
    }

    fn entries(&self) -> (r: Vec<DictEntry>) {
        TrieBufDictionary::entries(self)
    }

    fn about(&self) -> (r: DictionaryInfo) {
        TrieBufDictionary::about(self)
    }

    fn lookup_first_n_phrases(&self, syllables: &[Syllable], first: usize) -> (r: Vec<Phrase>) {
        TrieBufDictionary::lookup_first_n_phrases(self, syllables, first)
    }
}

} // verus!
