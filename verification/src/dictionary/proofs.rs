//! What holds of every user dictionary: proofs about what its lookups show
//! after phrases were added and removed.

use crate::dictionary::trie_buf::{
    buffered_under, has_text, is_first_with_text, is_place, layered, merge, merged, outranks,
    place_of, stamped, unique_by_text, upsert, visible_entries, visible_phrases,
};
use crate::dictionary::{
    char_codes, key_lt, key_of, lemma_key_lt_irreflexive, lemma_key_lt_transitive, lex_lt,
    phrases_under, sorted_entries, syllable_codes, EntryView, KeyView, PhraseView,
};
use crate::zhuyin::Syllable;
use vstd::prelude::*;

verus! {

/// None of the phrases that are shown is buried.
pub proof fn lemma_visible_phrases_unburied(
    phrases: Seq<PhraseView>,
    syllables: Seq<Syllable>,
    graveyard: Set<KeyView>,
)
    ensures
        forall|i: int|
            0 <= i < visible_phrases(phrases, syllables, graveyard).len() ==> {
                &&& !graveyard.contains(
                    (syllables, (#[trigger] visible_phrases(phrases, syllables, graveyard)[i]).text),
                )
                &&& phrases.contains(visible_phrases(phrases, syllables, graveyard)[i])
            },
    decreases phrases.len(),
{
    if phrases.len() > 0 {
        lemma_visible_phrases_unburied(phrases.drop_last(), syllables, graveyard);
        let before = visible_phrases(phrases.drop_last(), syllables, graveyard);
        let out = visible_phrases(phrases, syllables, graveyard);
        assert forall|i: int| 0 <= i < out.len() implies {
            &&& !graveyard.contains((syllables, (#[trigger] out[i]).text))
            &&& phrases.contains(out[i])
        } by {
            if i < before.len() {
                assert(out[i] == before[i]);
                let j = choose|j: int|
                    0 <= j < phrases.drop_last().len() && phrases.drop_last()[j] == before[i];
                assert(phrases[j] == before[i]);
            } else {
                assert(out[i] == phrases[phrases.len() - 1]);
            }
        }
    }
}

/// Every phrase that is left when each text is shown once is one of the
/// phrases.
pub proof fn lemma_unique_taken(phrases: Seq<PhraseView>)
    ensures
        forall|i: int|
            0 <= i < unique_by_text(phrases).len() ==> phrases.contains(
                #[trigger] unique_by_text(phrases)[i],
            ),
    decreases phrases.len(),
{
    if phrases.len() > 0 {
        lemma_unique_taken(phrases.drop_last());
        let before = unique_by_text(phrases.drop_last());
        let phrase = phrases.last();
        let out = unique_by_text(phrases);
        assert(phrases[phrases.len() - 1] == phrase);
        assert forall|i: int| 0 <= i < out.len() implies phrases.contains(#[trigger] out[i]) by {
            if out[i] != phrase {
                assert(i < before.len() && out[i] == before[i]);
                let j = choose|j: int|
                    0 <= j < phrases.drop_last().len() && phrases.drop_last()[j] == before[i];
                assert(phrases[j] == before[i]);
            }
        }
    }
}

/// None of the entries that are shown is buried, and each is one of the
/// entries.
pub proof fn lemma_visible_entries_unburied(entries: Seq<EntryView>, graveyard: Set<KeyView>)
    ensures
        forall|i: int|
            0 <= i < visible_entries(entries, graveyard).len() ==> {
                &&& !graveyard.contains(key_of(#[trigger] visible_entries(entries, graveyard)[i]))
                &&& entries.contains(visible_entries(entries, graveyard)[i])
            },
    decreases entries.len(),
{
    if entries.len() > 0 {
        lemma_visible_entries_unburied(entries.drop_last(), graveyard);
        let before = visible_entries(entries.drop_last(), graveyard);
        let out = visible_entries(entries, graveyard);
        assert forall|i: int| 0 <= i < out.len() implies {
            &&& !graveyard.contains(key_of(#[trigger] out[i]))
            &&& entries.contains(out[i])
        } by {
            if i < before.len() {
                assert(out[i] == before[i]);
                let j = choose|j: int|
                    0 <= j < entries.drop_last().len() && entries.drop_last()[j] == before[i];
                assert(entries[j] == before[i]);
            } else {
                assert(out[i] == entries[entries.len() - 1]);
            }
        }
    }
}

/// A removed phrase is hidden: for as long as its key is buried, no lookup
/// under its syllables shows a phrase with its text and the entries of the
/// dictionary hold no entry with its key, whatever the two layers hold.
pub proof fn buried_key_is_hidden(
    trie: Seq<EntryView>,
    btree: Seq<EntryView>,
    graveyard: Set<KeyView>,
    syllables: Seq<Syllable>,
    text: Seq<char>,
)
    requires
        graveyard.contains((syllables, text)),
    ensures
        !has_text(layered(trie, btree, graveyard, syllables), text),
        !has_text(unique_by_text(layered(trie, btree, graveyard, syllables)), text),
        forall|i: int|
            0 <= i < merged(trie, btree, graveyard).len() ==> key_of(
                #[trigger] merged(trie, btree, graveyard)[i],
            ) != (syllables, text),
{
    let candidates = phrases_under(trie, syllables) + buffered_under(btree, syllables);
    let shown = layered(trie, btree, graveyard, syllables);
    lemma_visible_phrases_unburied(candidates, syllables, graveyard);
    lemma_unique_taken(shown);
    let once = unique_by_text(shown);
    assert forall|i: int| 0 <= i < once.len() implies (#[trigger] once[i]).text != text by {
        assert(shown.contains(once[i]));
        let j = choose|j: int| 0 <= j < shown.len() && shown[j] == once[i];
        assert(!graveyard.contains((syllables, shown[j].text)));
    }
    lemma_visible_entries_unburied(merge(trie, btree), graveyard);
}

/// Of two different sequences one comes before the other.
pub proof fn lemma_lex_lt_total(a: Seq<int>, b: Seq<int>)
    requires
        !lex_lt(a, b),
        !lex_lt(b, a),
    ensures
        a == b,
    decreases a.len(),
{
    if a.len() > 0 && b.len() > 0 {
        lemma_lex_lt_total(a.drop_first(), b.drop_first());
        assert(a =~= seq![a[0]] + a.drop_first());
        assert(b =~= seq![b[0]] + b.drop_first());
    } else {
        assert(a =~= b);
    }
}

/// Of two different keys one comes before the other.
pub proof fn lemma_key_lt_total(a: KeyView, b: KeyView)
    requires
        !key_lt(a, b),
        !key_lt(b, a),
    ensures
        a == b,
{
    lemma_lex_lt_total(syllable_codes(a.0), syllable_codes(b.0));
    assert(a.0 =~= b.0) by {
        assert(a.0.len() == syllable_codes(a.0).len());
        assert(b.0.len() == syllable_codes(b.0).len());
        assert forall|i: int| 0 <= i < a.0.len() implies a.0[i] == b.0[i] by {
            assert(syllable_codes(a.0)[i] == syllable_codes(b.0)[i]);
        }
    }
    lemma_lex_lt_total(char_codes(a.1), char_codes(b.1));
    assert(a.1 =~= b.1) by {
        assert(a.1.len() == char_codes(a.1).len());
        assert(b.1.len() == char_codes(b.1).len());
        assert forall|i: int| 0 <= i < a.1.len() implies a.1[i] == b.1[i] by {
            assert(char_codes(a.1)[i] == char_codes(b.1)[i]);
        }
    }
}

/// Every entry of the two layers walked together is an entry of one of
/// them.
pub proof fn lemma_merge_taken(trie: Seq<EntryView>, btree: Seq<EntryView>)
    ensures
        forall|i: int|
            0 <= i < merge(trie, btree).len() ==> trie.contains(#[trigger] merge(trie, btree)[i])
                || btree.contains(merge(trie, btree)[i]),
    decreases trie.len() + btree.len(),
{
    let out = merge(trie, btree);
    if trie.len() == 0 || btree.len() == 0 {
    } else {
        let (rest_a, rest_b) = if key_lt(key_of(trie[0]), key_of(btree[0])) {
            (trie.drop_first(), btree)
        } else if key_lt(key_of(btree[0]), key_of(trie[0])) {
            (trie, btree.drop_first())
        } else {
            (trie.drop_first(), btree.drop_first())
        };
        lemma_merge_taken(rest_a, rest_b);
        let rest = merge(rest_a, rest_b);
        assert forall|i: int| 0 <= i < out.len() implies trie.contains(#[trigger] out[i])
            || btree.contains(out[i]) by {
            if i == 0 {
                assert(out[0] == trie[0] || out[0] == btree[0]);
            } else {
                assert(out[i] == rest[i - 1]);
                if rest_a.contains(rest[i - 1]) {
                    let j = choose|j: int| 0 <= j < rest_a.len() && rest_a[j] == rest[i - 1];
                    if rest_a.len() == trie.len() {
                        assert(trie[j] == rest[i - 1]);
                    } else {
                        assert(trie[j + 1] == rest[i - 1]);
                    }
                } else {
                    let j = choose|j: int| 0 <= j < rest_b.len() && rest_b[j] == rest[i - 1];
                    if rest_b.len() == btree.len() {
                        assert(btree[j] == rest[i - 1]);
                    } else {
                        assert(btree[j + 1] == rest[i - 1]);
                    }
                }
            }
        }
    }
}

/// Two layers in key order, walked together, are in key order.
pub proof fn lemma_merge_sorted(trie: Seq<EntryView>, btree: Seq<EntryView>)
    requires
        sorted_entries(trie),
        sorted_entries(btree),
    ensures
        sorted_entries(merge(trie, btree)),
    decreases trie.len() + btree.len(),
{
    let out = merge(trie, btree);
    if trie.len() == 0 || btree.len() == 0 {
    } else {
        let before = key_lt(key_of(trie[0]), key_of(btree[0]));
        let after = key_lt(key_of(btree[0]), key_of(trie[0]));
        let (rest_a, rest_b) = if before {
            (trie.drop_first(), btree)
        } else if after {
            (trie, btree.drop_first())
        } else {
            (trie.drop_first(), btree.drop_first())
        };
        assert(sorted_entries(trie.drop_first())) by {
            assert forall|i: int, j: int| 0 <= i < j < trie.drop_first().len() implies key_lt(
                key_of(#[trigger] trie.drop_first()[i]),
                key_of(#[trigger] trie.drop_first()[j]),
            ) by {
                assert(key_lt(key_of(trie[i + 1]), key_of(trie[j + 1])));
            }
        }
        assert(sorted_entries(btree.drop_first())) by {
            assert forall|i: int, j: int| 0 <= i < j < btree.drop_first().len() implies key_lt(
                key_of(#[trigger] btree.drop_first()[i]),
                key_of(#[trigger] btree.drop_first()[j]),
            ) by {
                assert(key_lt(key_of(btree[i + 1]), key_of(btree[j + 1])));
            }
        }
        lemma_merge_sorted(rest_a, rest_b);
        lemma_merge_taken(rest_a, rest_b);
        let rest = merge(rest_a, rest_b);
        let first = out[0];
        if !before && !after {
            lemma_key_lt_total(key_of(trie[0]), key_of(btree[0]));
        }
        assert forall|m: int| 0 <= m < rest.len() implies key_lt(
            key_of(first),
            key_of(#[trigger] rest[m]),
        ) by {
            if rest_a.contains(rest[m]) {
                let j = choose|j: int| 0 <= j < rest_a.len() && rest_a[j] == rest[m];
                if rest_a.len() == trie.len() {
                    assert(first == btree[0]);
                    if j > 0 {
                        assert(key_lt(key_of(trie[0]), key_of(trie[j])));
                        lemma_key_lt_transitive(key_of(btree[0]), key_of(trie[0]), key_of(trie[j]));
                    }
                } else {
                    assert(key_lt(key_of(trie[0]), key_of(trie[j + 1])));
                }
            } else {
                let j = choose|j: int| 0 <= j < rest_b.len() && rest_b[j] == rest[m];
                if rest_b.len() == btree.len() {
                    assert(first == trie[0]);
                    if j > 0 {
                        assert(key_lt(key_of(btree[0]), key_of(btree[j])));
                        lemma_key_lt_transitive(
                            key_of(trie[0]),
                            key_of(btree[0]),
                            key_of(btree[j]),
                        );
                    }
                } else {
                    assert(key_lt(key_of(btree[0]), key_of(btree[j + 1])));
                }
            }
        }
        assert forall|i: int, j: int| 0 <= i < j < out.len() implies key_lt(
            key_of(#[trigger] out[i]),
            key_of(#[trigger] out[j]),
        ) by {
            assert(out[j] == rest[j - 1]);
            if i > 0 {
                assert(out[i] == rest[i - 1]);
            }
        }
    }
}

/// The entries in key order that are shown are in key order.
pub proof fn lemma_visible_entries_sorted(entries: Seq<EntryView>, graveyard: Set<KeyView>)
    requires
        sorted_entries(entries),
    ensures
        sorted_entries(visible_entries(entries, graveyard)),
    decreases entries.len(),
{
    if entries.len() > 0 {
        let short = entries.drop_last();
        assert(sorted_entries(short)) by {
            assert forall|i: int, j: int| 0 <= i < j < short.len() implies key_lt(
                key_of(#[trigger] short[i]),
                key_of(#[trigger] short[j]),
            ) by {
                assert(key_lt(key_of(entries[i]), key_of(entries[j])));
            }
        }
        lemma_visible_entries_sorted(short, graveyard);
        lemma_visible_entries_unburied(short, graveyard);
        let before = visible_entries(short, graveyard);
        let out = visible_entries(entries, graveyard);
        assert forall|i: int, j: int| 0 <= i < j < out.len() implies key_lt(
            key_of(#[trigger] out[i]),
            key_of(#[trigger] out[j]),
        ) by {
            if j < before.len() {
                assert(key_lt(key_of(before[i]), key_of(before[j])));
            } else {
                assert(out[j] == entries[entries.len() - 1]);
                assert(out[i] == before[i]);
                let m = choose|m: int| 0 <= m < short.len() && short[m] == before[i];
                assert(key_lt(key_of(entries[m]), key_of(entries[entries.len() - 1])));
            }
        }
    }
}

/// The entries of a dictionary are in key order.
pub proof fn merged_entries_are_sorted(
    trie: Seq<EntryView>,
    btree: Seq<EntryView>,
    graveyard: Set<KeyView>,
)
    requires
        sorted_entries(trie),
        sorted_entries(btree),
    ensures
        sorted_entries(merged(trie, btree, graveyard)),
{
    lemma_merge_sorted(trie, btree);
    lemma_visible_entries_sorted(merge(trie, btree), graveyard);
}

/// An addition whose key the immutable layer does not hold is an entry of
/// the two layers walked together.
pub proof fn lemma_merge_keeps_addition(trie: Seq<EntryView>, btree: Seq<EntryView>, j: int)
    requires
        0 <= j < btree.len(),
        forall|i: int| 0 <= i < trie.len() ==> key_of(#[trigger] trie[i]) != key_of(btree[j]),
    ensures
        merge(trie, btree).contains(btree[j]),
    decreases trie.len() + btree.len(),
{
    let out = merge(trie, btree);
    if trie.len() == 0 {
        assert(out[j] == btree[j]);
    } else {
        let before = key_lt(key_of(trie[0]), key_of(btree[0]));
        let after = key_lt(key_of(btree[0]), key_of(trie[0]));
        if !before && !after {
            lemma_key_lt_total(key_of(trie[0]), key_of(btree[0]));
        }
        assert forall|i: int| 0 <= i < trie.drop_first().len() implies key_of(
            #[trigger] trie.drop_first()[i],
        ) != key_of(btree[j]) by {
            assert(trie.drop_first()[i] == trie[i + 1]);
        }
        if before {
            lemma_merge_keeps_addition(trie.drop_first(), btree, j);
            let rest = merge(trie.drop_first(), btree);
            let m = choose|m: int| 0 <= m < rest.len() && rest[m] == btree[j];
            assert(out[m + 1] == btree[j]);
        } else if j == 0 {
            assert(out[0] == btree[0]);
        } else {
            assert(btree.drop_first()[j - 1] == btree[j]);
            let rest_a = if after {
                trie
            } else {
                trie.drop_first()
            };
            lemma_merge_keeps_addition(rest_a, btree.drop_first(), j - 1);
            let rest = merge(rest_a, btree.drop_first());
            let m = choose|m: int| 0 <= m < rest.len() && rest[m] == btree[j];
            assert(out[m + 1] == btree[j]);
        }
    }
}

/// An entry that is not buried is shown.
pub proof fn lemma_visible_entries_keep(
    entries: Seq<EntryView>,
    graveyard: Set<KeyView>,
    entry: EntryView,
)
    requires
        entries.contains(entry),
        !graveyard.contains(key_of(entry)),
    ensures
        visible_entries(entries, graveyard).contains(entry),
    decreases entries.len(),
{
    let out = visible_entries(entries, graveyard);
    if entries.last() == entry {
        assert(out[out.len() - 1] == entry);
    } else {
        let j = choose|j: int| 0 <= j < entries.len() && entries[j] == entry;
        assert(entries.drop_last()[j] == entry);
        lemma_visible_entries_keep(entries.drop_last(), graveyard, entry);
        let before = visible_entries(entries.drop_last(), graveyard);
        let m = choose|m: int| 0 <= m < before.len() && before[m] == entry;
        assert(out[m] == entry);
    }
}

/// A phrase that is not buried is shown.
pub proof fn lemma_visible_phrases_keep(
    phrases: Seq<PhraseView>,
    syllables: Seq<Syllable>,
    graveyard: Set<KeyView>,
    phrase: PhraseView,
)
    requires
        phrases.contains(phrase),
        !graveyard.contains((syllables, phrase.text)),
    ensures
        visible_phrases(phrases, syllables, graveyard).contains(phrase),
    decreases phrases.len(),
{
    let out = visible_phrases(phrases, syllables, graveyard);
    if phrases.last() == phrase {
        assert(out[out.len() - 1] == phrase);
    } else {
        let j = choose|j: int| 0 <= j < phrases.len() && phrases[j] == phrase;
        assert(phrases.drop_last()[j] == phrase);
        lemma_visible_phrases_keep(phrases.drop_last(), syllables, graveyard, phrase);
        let before = visible_phrases(phrases.drop_last(), syllables, graveyard);
        let m = choose|m: int| 0 <= m < before.len() && before[m] == phrase;
        assert(out[m] == phrase);
    }
}

/// The phrase of an entry is among the phrases under its syllables.
pub proof fn lemma_phrases_under_keep(entries: Seq<EntryView>, entry: EntryView)
    requires
        entries.contains(entry),
    ensures
        phrases_under(entries, entry.0).contains(entry.1),
    decreases entries.len(),
{
    let out = phrases_under(entries, entry.0);
    if entries.last() == entry {
        assert(out[out.len() - 1] == entry.1);
    } else {
        let j = choose|j: int| 0 <= j < entries.len() && entries[j] == entry;
        assert(entries.drop_last()[j] == entry);
        lemma_phrases_under_keep(entries.drop_last(), entry);
        let before = phrases_under(entries.drop_last(), entry.0);
        let m = choose|m: int| 0 <= m < before.len() && before[m] == entry.1;
        assert(out[m] == entry.1);
    }
}

/// Every phrase under some syllables is the phrase of an entry filed under
/// them.
pub proof fn lemma_phrases_under_taken(entries: Seq<EntryView>, syllables: Seq<Syllable>)
    ensures
        forall|i: int|
            0 <= i < phrases_under(entries, syllables).len() ==> entries.contains(
                (syllables, #[trigger] phrases_under(entries, syllables)[i]),
            ),
    decreases entries.len(),
{
    if entries.len() > 0 {
        lemma_phrases_under_taken(entries.drop_last(), syllables);
        let before = phrases_under(entries.drop_last(), syllables);
        let out = phrases_under(entries, syllables);
        assert forall|i: int| 0 <= i < out.len() implies entries.contains(
            (syllables, #[trigger] out[i]),
        ) by {
            if i < before.len() {
                assert(out[i] == before[i]);
                let j = choose|j: int|
                    0 <= j < entries.drop_last().len() && entries.drop_last()[j] == (
                        syllables,
                        before[i],
                    );
                assert(entries[j] == (syllables, before[i]));
            } else {
                assert(entries[entries.len() - 1] == (syllables, out[i]));
            }
        }
    }
}

/// Whether no two of the phrases have the same text.
pub open spec fn distinct_texts(phrases: Seq<PhraseView>) -> bool {
    forall|i: int, j: int|
        0 <= i < j < phrases.len() ==> (#[trigger] phrases[i]).text != (#[trigger] phrases[j]).text
}

/// Under the same syllables, entries in key order have different texts.
pub proof fn lemma_phrases_under_distinct(entries: Seq<EntryView>, syllables: Seq<Syllable>)
    requires
        sorted_entries(entries),
    ensures
        distinct_texts(phrases_under(entries, syllables)),
    decreases entries.len(),
{
    if entries.len() > 0 {
        let short = entries.drop_last();
        assert(sorted_entries(short)) by {
            assert forall|i: int, j: int| 0 <= i < j < short.len() implies key_lt(
                key_of(#[trigger] short[i]),
                key_of(#[trigger] short[j]),
            ) by {
                assert(key_lt(key_of(entries[i]), key_of(entries[j])));
            }
        }
        lemma_phrases_under_distinct(short, syllables);
        lemma_phrases_under_taken(short, syllables);
        let before = phrases_under(short, syllables);
        let out = phrases_under(entries, syllables);
        assert forall|i: int, j: int| 0 <= i < j < out.len() implies (#[trigger] out[i]).text != (
        #[trigger] out[j]).text by {
            if j < before.len() {
                assert(before[i].text != before[j].text);
            } else {
                assert(out[i] == before[i]);
                let m = choose|m: int| 0 <= m < short.len() && short[m] == (syllables, before[i]);
                assert(key_lt(key_of(entries[m]), key_of(entries[entries.len() - 1])));
                lemma_key_lt_irreflexive(key_of(entries[m]));
            }
        }
    }
}

/// Phrases with different texts are shown as they are.
pub proof fn lemma_unique_of_distinct(phrases: Seq<PhraseView>)
    requires
        distinct_texts(phrases),
    ensures
        unique_by_text(phrases) == phrases,
    decreases phrases.len(),
{
    if phrases.len() > 0 {
        let short = phrases.drop_last();
        assert(distinct_texts(short)) by {
            assert forall|i: int, j: int| 0 <= i < j < short.len() implies (
            #[trigger] short[i]).text != (#[trigger] short[j]).text by {
                assert(phrases[i].text != phrases[j].text);
            }
        }
        lemma_unique_of_distinct(short);
        let phrase = phrases.last();
        assert forall|k: int| !is_first_with_text(short, phrase.text, k) by {
            if 0 <= k < short.len() {
                assert(phrases[k].text != phrases[phrases.len() - 1].text);
            }
        }
        assert(short.push(phrase) =~= phrases);
    } else {
        assert(unique_by_text(phrases) =~= phrases);
    }
}

/// With nothing buried, every phrase is shown.
pub proof fn lemma_nothing_buried(phrases: Seq<PhraseView>, syllables: Seq<Syllable>)
    ensures
        visible_phrases(phrases, syllables, Set::<KeyView>::empty()) == phrases,
    decreases phrases.len(),
{
    if phrases.len() > 0 {
        lemma_nothing_buried(phrases.drop_last(), syllables);
        assert(phrases.drop_last().push(phrases.last()) =~= phrases);
    } else {
        assert(visible_phrases(phrases, syllables, Set::<KeyView>::empty()) =~= phrases);
    }
}

/// Every key has a place among the first `n` entries.
pub proof fn lemma_place_exists(entries: Seq<EntryView>, key: KeyView, n: int)
    requires
        0 <= n <= entries.len(),
        forall|i: int| 0 <= i < n ==> key_lt(key_of(#[trigger] entries[i]), key),
    ensures
        exists|k: int| is_place(entries, key, k),
    decreases entries.len() - n,
{
    if n == entries.len() {
        assert(is_place(entries, key, n));
    } else if key_lt(key_of(entries[n]), key) {
        lemma_place_exists(entries, key, n + 1);
    } else {
        assert(is_place(entries, key, n));
    }
}

/// An entry that was filed is among the entries, and every other entry
/// among them was there before.
pub proof fn lemma_upsert_holds(entries: Seq<EntryView>, entry: EntryView)
    ensures
        upsert(entries, entry).contains(entry),
        forall|i: int|
            0 <= i < upsert(entries, entry).len() ==> (#[trigger] upsert(entries, entry)[i])
                == entry || entries.contains(upsert(entries, entry)[i]),
{
    lemma_place_exists(entries, key_of(entry), 0);
    let k = place_of(entries, key_of(entry));
    assert(is_place(entries, key_of(entry), k));
    let out = upsert(entries, entry);
    assert(out[k] == entry);
    assert forall|i: int| 0 <= i < out.len() implies (#[trigger] out[i]) == entry
        || entries.contains(out[i]) by {
        if out[i] != entry {
            if k < entries.len() && key_of(entries[k]) == key_of(entry) {
                assert(out[i] == entries[i]);
            } else if i < k {
                assert(out[i] == entries[i]);
            } else {
                assert(out[i] == entries[i - 1]);
            }
        }
    }
}

/// Filing an entry keeps the entries in key order.
pub proof fn lemma_upsert_sorted(entries: Seq<EntryView>, entry: EntryView)
    requires
        sorted_entries(entries),
    ensures
        sorted_entries(upsert(entries, entry)),
{
    lemma_place_exists(entries, key_of(entry), 0);
    let k = place_of(entries, key_of(entry));
    assert(is_place(entries, key_of(entry), k));
    let out = upsert(entries, entry);
    if k < entries.len() && key_of(entries[k]) == key_of(entry) {
        assert forall|i: int, j: int| 0 <= i < j < out.len() implies key_lt(
            key_of(#[trigger] out[i]),
            key_of(#[trigger] out[j]),
        ) by {
            assert(key_lt(key_of(entries[i]), key_of(entries[j])));
        }
    } else {
        if k < entries.len() && !key_lt(key_of(entry), key_of(entries[k])) {
            lemma_key_lt_total(key_of(entries[k]), key_of(entry));
        }
        assert forall|i: int, j: int| 0 <= i < j < out.len() implies key_lt(
            key_of(#[trigger] out[i]),
            key_of(#[trigger] out[j]),
        ) by {
            if j < k {
                assert(key_lt(key_of(entries[i]), key_of(entries[j])));
            } else if j == k {
                assert(key_lt(key_of(entries[i]), key_of(entry)));
            } else if i < k {
                assert(key_lt(key_of(entries[i]), key_of(entries[j - 1])));
            } else if i == k {
                if j - 1 > k {
                    assert(key_lt(key_of(entries[k]), key_of(entries[j - 1])));
                    lemma_key_lt_transitive(
                        key_of(entry),
                        key_of(entries[k]),
                        key_of(entries[j - 1]),
                    );
                }
            } else {
                assert(key_lt(key_of(entries[i - 1]), key_of(entries[j - 1])));
            }
        }
    }
}

/// What a lookup under these syllables shows once the dictionary was
/// flushed: the layers as they were seen together are the immutable layer,
/// and nothing is added or buried.
pub open spec fn lookup_after_flush(
    trie: Seq<EntryView>,
    btree: Seq<EntryView>,
    graveyard: Set<KeyView>,
    syllables: Seq<Syllable>,
) -> Seq<PhraseView> {
    unique_by_text(
        layered(
            merged(trie, btree, graveyard),
            Seq::<EntryView>::empty(),
            Set::<KeyView>::empty(),
            syllables,
        ),
    )
}

/// A phrase that was added comes back after a flush: where the dictionary
/// showed no phrase with this text under these syllables, so that adding
/// it succeeds, and the key was not buried, a lookup under these syllables
/// after the flush shows the phrase as it was filed. Where neither layer
/// held anything under these syllables, it is the only phrase that the
/// lookup shows, and so the first.
pub proof fn added_phrase_survives_flush(
    trie: Seq<EntryView>,
    btree: Seq<EntryView>,
    graveyard: Set<KeyView>,
    syllables: Seq<Syllable>,
    phrase: PhraseView,
)
    requires
        sorted_entries(trie),
        sorted_entries(btree),
        !has_text(layered(trie, btree, graveyard, syllables), phrase.text),
        !graveyard.contains((syllables, phrase.text)),
    ensures
        lookup_after_flush(
            trie,
            upsert(btree, (syllables, stamped(phrase))),
            graveyard,
            syllables,
        ).contains(stamped(phrase)),
        (forall|i: int| 0 <= i < trie.len() ==> (#[trigger] trie[i]).0 != syllables) && (forall|
            i: int,
        |
            0 <= i < btree.len() ==> (#[trigger] btree[i]).0 != syllables) ==> lookup_after_flush(
            trie,
            upsert(btree, (syllables, stamped(phrase))),
            graveyard,
            syllables,
        ) == seq![stamped(phrase)],
{
    let entry = (syllables, stamped(phrase));
    let filed = upsert(btree, entry);
    let all = merge(trie, filed);
    let kept = merged(trie, filed, graveyard);
    lemma_upsert_holds(btree, entry);
    lemma_upsert_sorted(btree, entry);
    let j = choose|j: int| 0 <= j < filed.len() && filed[j] == entry;
    assert forall|i: int| 0 <= i < trie.len() implies key_of(#[trigger] trie[i]) != key_of(
        filed[j],
    ) by {
        if key_of(trie[i]) == key_of(entry) {
            assert(trie.contains(trie[i]));
            lemma_phrases_under_keep(trie, trie[i]);
            let under = phrases_under(trie, syllables);
            let candidates = under + buffered_under(btree, syllables);
            let m = choose|m: int| 0 <= m < under.len() && under[m] == trie[i].1;
            assert(candidates[m] == trie[i].1);
            lemma_visible_phrases_keep(candidates, syllables, graveyard, trie[i].1);
            let shown = layered(trie, btree, graveyard, syllables);
            let n = choose|n: int| 0 <= n < shown.len() && shown[n] == trie[i].1;
            assert(shown[n].text == phrase.text);
        }
    }
    lemma_merge_keeps_addition(trie, filed, j);
    lemma_visible_entries_keep(all, graveyard, entry);
    lemma_phrases_under_keep(kept, entry);
    merged_entries_are_sorted(trie, filed, graveyard);
    let under = phrases_under(kept, syllables);
    lemma_phrases_under_distinct(kept, syllables);
    lemma_unique_of_distinct(under);
    lemma_nothing_buried(under + buffered_under(Seq::<EntryView>::empty(), syllables), syllables);
    assert(under + buffered_under(Seq::<EntryView>::empty(), syllables) =~= under);
    let after = lookup_after_flush(trie, filed, graveyard, syllables);
    assert(after == under);
    if (forall|i: int| 0 <= i < trie.len() ==> (#[trigger] trie[i]).0 != syllables) && (forall|
        i: int,
    |
        0 <= i < btree.len() ==> (#[trigger] btree[i]).0 != syllables) {
        lemma_phrases_under_taken(kept, syllables);
        lemma_visible_entries_unburied(all, graveyard);
        lemma_merge_taken(trie, filed);
        assert forall|i: int| 0 <= i < under.len() implies under[i] == stamped(phrase) by {
            let found = (syllables, under[i]);
            assert(kept.contains(found));
            let a = choose|a: int| 0 <= a < kept.len() && kept[a] == found;
            assert(all.contains(kept[a]));
            let b = choose|b: int| 0 <= b < all.len() && all[b] == found;
            if trie.contains(all[b]) {
                let c = choose|c: int| 0 <= c < trie.len() && trie[c] == found;
                assert(trie[c].0 == syllables);
            } else {
                assert(filed.contains(all[b]));
                let c = choose|c: int| 0 <= c < filed.len() && filed[c] == found;
                if filed[c] != entry {
                    assert(btree.contains(filed[c]));
                    let d = choose|d: int| 0 <= d < btree.len() && btree[d] == found;
                    assert(btree[d].0 == syllables);
                }
            }
        }
        let m = choose|m: int| 0 <= m < under.len() && under[m] == stamped(phrase);
        if under.len() > 1 {
            assert(under[0].text != under[1].text);
        }
        assert(under =~= seq![stamped(phrase)]);
    }
}

/// Where one of the first `n` phrases has a text, one of them is the first
/// to have it.
pub proof fn lemma_first_with_text_exists(phrases: Seq<PhraseView>, text: Seq<char>, n: int)
    requires
        0 <= n <= phrases.len(),
        exists|i: int| 0 <= i < n && phrases[i].text == text,
    ensures
        exists|k: int| 0 <= k < n && is_first_with_text(phrases, text, k),
    decreases n,
{
    if exists|i: int| 0 <= i < n - 1 && phrases[i].text == text {
        lemma_first_with_text_exists(phrases, text, n - 1);
    } else {
        let i = choose|i: int| 0 <= i < n && phrases[i].text == text;
        assert(i == n - 1);
        assert(is_first_with_text(phrases, text, n - 1));
    }
}

/// A lookup shows each text once: whatever the layers hold, no two of the
/// phrases that are left have the same text.
pub proof fn lookup_shows_each_text_once(phrases: Seq<PhraseView>)
    ensures
        distinct_texts(unique_by_text(phrases)),
    decreases phrases.len(),
{
    if phrases.len() > 0 {
        lookup_shows_each_text_once(phrases.drop_last());
        let before = unique_by_text(phrases.drop_last());
        let phrase = phrases.last();
        let out = unique_by_text(phrases);
        if exists|k: int| is_first_with_text(before, phrase.text, k) {
            let k = choose|k: int| is_first_with_text(before, phrase.text, k);
            assert forall|i: int, j: int| 0 <= i < j < out.len() implies (#[trigger] out[i]).text
                != (#[trigger] out[j]).text by {
                assert(out[i].text == before[i].text);
                assert(out[j].text == before[j].text);
            }
        } else {
            assert forall|i: int, j: int| 0 <= i < j < out.len() implies (#[trigger] out[i]).text
                != (#[trigger] out[j]).text by {
                if j < before.len() {
                    assert(before[i].text != before[j].text);
                } else if before[i].text == phrase.text {
                    lemma_first_with_text_exists(before, phrase.text, before.len() as int);
                }
            }
        }
    }
}

/// A lookup keeps the most frequent: for every phrase that the layers
/// hold, the lookup shows a phrase with its text that is at least as
/// frequent.
pub proof fn lookup_keeps_most_frequent(phrases: Seq<PhraseView>, i: int)
    requires
        0 <= i < phrases.len(),
    ensures
        exists|k: int|
            0 <= k < unique_by_text(phrases).len() && (#[trigger] unique_by_text(phrases)[k]).text
                == phrases[i].text && unique_by_text(phrases)[k].freq >= phrases[i].freq,
    decreases phrases.len(),
{
    let before = unique_by_text(phrases.drop_last());
    let phrase = phrases.last();
    let out = unique_by_text(phrases);
    if i < phrases.len() - 1 {
        lookup_keeps_most_frequent(phrases.drop_last(), i);
        let m = choose|m: int|
            0 <= m < before.len() && (#[trigger] before[m]).text == phrases.drop_last()[i].text
                && before[m].freq >= phrases.drop_last()[i].freq;
        if exists|k: int| is_first_with_text(before, phrase.text, k) {
            let k = choose|k: int| is_first_with_text(before, phrase.text, k);
            if m == k && outranks(phrase, before[k]) {
                assert(out[m] == phrase);
            } else {
                assert(out[m] == before[m]);
            }
        } else {
            assert(out[m] == before[m]);
        }
        assert(out[m].text == phrases[i].text && out[m].freq >= phrases[i].freq);
    } else if exists|k: int| is_first_with_text(before, phrase.text, k) {
        let k = choose|k: int| is_first_with_text(before, phrase.text, k);
        assert(out[k].text == phrases[i].text && out[k].freq >= phrases[i].freq);
    } else {
        assert(out[out.len() - 1] == phrase);
    }
}

} // verus!
