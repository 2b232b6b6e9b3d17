//! The immutable layer of a dictionary: a table of entries in key order,
//! and the builder that makes one.

use crate::dictionary::{
    clone_entries, clone_syllables, entry_views, key_lt, key_of, lemma_key_lt_transitive,
    order_keys, order_syllables, phrase_views, phrases_under, sorted_entries,
    BuildDictionaryError, DictEntry, Dictionary, DictionaryInfo, DictionaryInfoView, EntryView,
    KeyOrder, Phrase, PhraseView,
};
use crate::zhuyin::Syllable;
use vstd::prelude::*;

verus! {

/// An immutable dictionary: its entries stand in the strict order of their
/// keys.
#[derive(Debug)]
pub struct TrieDictionary {
    info: DictionaryInfo,
    entries: Vec<DictEntry>,
}

impl Clone for TrieDictionary {
    fn clone(&self) -> (r: TrieDictionary)
        ensures
            r.entries_view() == self.entries_view(),
            r.info_view() == self.info_view(),
    {
        TrieDictionary { info: self.info.clone(), entries: clone_entries(&self.entries) }
    }
}

impl TrieDictionary {
    /// The entries, in their order.
    pub closed spec fn entries_view(&self) -> Seq<EntryView> {
        entry_views(self.entries@)
    }

    /// What the dictionary says of itself.
    pub closed spec fn info_view(&self) -> DictionaryInfoView {
        self.info@
    }

    /// The entries stand in the strict order of their keys.
    pub open spec fn wf(&self) -> bool {
        sorted_entries(self.entries_view())
    }

    /// What the dictionary says of itself.
    pub fn about(&self) -> (r: DictionaryInfo)
        ensures
            r@ == self.info_view(),
    {
        self.info.clone()
    }

    /// Every entry, in key order.
    pub fn entries(&self) -> (r: Vec<DictEntry>)
        ensures
            entry_views(r@) == self.entries_view(),
    {
        clone_entries(&self.entries)
    }

    /// The entry at place `i`.
    pub fn get(&self, i: usize) -> (r: &DictEntry)
        requires
            i < self.entries_view().len(),
        ensures
            (r.0@, r.1@) == self.entries_view()[i as int],
    {
        &self.entries[i]
    }

    /// The number of entries.
    pub fn len(&self) -> (n: usize)
        ensures
            n == self.entries_view().len(),
    {
        self.entries.len()
    }

    /// The phrases filed under exactly these syllables, in key order.
    pub fn lookup_all_phrases(&self, syllables: &[Syllable]) -> (r: Vec<Phrase>)
        ensures
            phrase_views(r@) == phrases_under(self.entries_view(), syllables@),
    {
        let ghost all = entry_views(self.entries@);
        let mut found: Vec<Phrase> = Vec::new();
        let mut i: usize = 0;
        assert(phrase_views(found@) =~= phrases_under(all.take(0), syllables@));
        while i < self.entries.len()
            invariant
                i <= self.entries@.len(),
                all == entry_views(self.entries@),
                phrase_views(found@) == phrases_under(all.take(i as int), syllables@),
            decreases self.entries@.len() - i,
        {
            let entry = &self.entries[i];
            let ghost before = phrase_views(found@);
            assert(all.take(i + 1).drop_last() =~= all.take(i as int));
            assert(all.take(i + 1).last() == all[i as int]);
            match order_syllables(entry.0.as_slice(), syllables) {
                KeyOrder::Same => {
                    found.push(entry.1.clone());
                    assert(phrase_views(found@) =~= before.push(all[i as int].1));
                },
                _ => {},
            }
            i = i + 1;
        }
        assert(all.take(self.entries@.len() as int) =~= all);
        found
    }
}

/// Makes an immutable dictionary from entries handed in in key order.
#[derive(Debug)]
pub struct TrieDictionaryBuilder {
    info: DictionaryInfo,
    entries: Vec<DictEntry>,
}

impl TrieDictionaryBuilder {
    /// The entries handed in so far.
    pub closed spec fn entries_view(&self) -> Seq<EntryView> {
        entry_views(self.entries@)
    }

    /// What the dictionary will say of itself.
    pub closed spec fn info_view(&self) -> DictionaryInfoView {
        self.info@
    }

    /// The entries handed in so far stand in the strict order of their keys.
    pub open spec fn wf(&self) -> bool {
        sorted_entries(self.entries_view())
    }

    /// A builder with no entries that says nothing of itself.
    pub fn new() -> (r: TrieDictionaryBuilder)
        ensures
            r.wf(),
            r.entries_view() == Seq::<EntryView>::empty(),
            r.info_view() == (DictionaryInfoView {
                name: None,
                copyright: None,
                license: None,
                version: None,
                software: None,
            }),
    {
        let r = TrieDictionaryBuilder { info: DictionaryInfo::default(), entries: Vec::new() };
        assert(r.entries_view() =~= Seq::<EntryView>::empty());
        r
    }

    /// Sets what the dictionary will say of itself.
    pub fn set_info(&mut self, info: DictionaryInfo) -> (r: Result<(), BuildDictionaryError>)
        ensures
            r is Ok,
            final(self).info_view() == info@,
            final(self).entries_view() == old(self).entries_view(),
    {
        self.info = info;
        Ok(())
    }

    /// Adds an entry, which must come after the entry handed in last.
    pub fn insert(&mut self, syllables: &[Syllable], phrase: Phrase) -> (r: Result<
        (),
        BuildDictionaryError,
    >)
        requires
            old(self).wf(),
        ensures
            final(self).wf(),
            final(self).info_view() == old(self).info_view(),
            r is Ok <==> (old(self).entries_view().len() == 0 || key_lt(
                key_of(old(self).entries_view().last()),
                (syllables@, phrase@.text),
            )),
            r is Ok ==> final(self).entries_view() == old(self).entries_view().push(
                (syllables@, phrase@),
            ),
            r is Err ==> final(self).entries_view() == old(self).entries_view(),
            r is Err ==> r->Err_0 == BuildDictionaryError::OutOfOrder,
    {
        let ghost before = entry_views(self.entries@);
        let count: usize = self.entries.len();
        if count > 0 {
            let last = &self.entries[count - 1];
            assert(before.last() == (last.0@, last.1@));
            match order_keys(last.0.as_slice(), last.1.as_str(), syllables, phrase.as_str()) {
                KeyOrder::Before => {},
                _ => {
                    return Err(BuildDictionaryError::OutOfOrder);
                },
            }
        }
        let ghost added = (syllables@, phrase@);
        self.entries.push((clone_syllables(syllables), phrase));
        proof {
            let after = entry_views(self.entries@);
            assert(after =~= before.push(added));
            assert forall|i: int, j: int| 0 <= i < j < after.len() implies key_lt(
                key_of(#[trigger] after[i]),
                key_of(#[trigger] after[j]),
            ) by {
                if j == after.len() - 1 {
                    if i < j - 1 {
                        assert(key_lt(key_of(before[i]), key_of(before[j - 1])));
                        lemma_key_lt_transitive(
                            key_of(before[i]),
                            key_of(before[j - 1]),
                            key_of(added),
                        );
                    }
                } else {
                    assert(key_lt(key_of(before[i]), key_of(before[j])));
                }
            }
        }
        Ok(())
    }

    /// The dictionary of the entries handed in.
    pub fn build(self) -> (r: TrieDictionary)
        requires
            self.wf(),
        ensures
            r.wf(),
            r.entries_view() == self.entries_view(),
            r.info_view() == self.info_view(),
    {
        TrieDictionary { info: self.info, entries: self.entries }
    }
}

impl Dictionary for TrieDictionary {
    open spec fn wf(&self) -> bool {
        TrieDictionary::wf(self)
    }

    open spec fn phrases_of(&self, syllables: Seq<Syllable>) -> Seq<PhraseView> {
        phrases_under(self.entries_view(), syllables)
    }

    open spec fn entries_of(&self) -> Seq<EntryView> {
        self.entries_view()
    }

    open spec fn info_of(&self) -> DictionaryInfoView {
        self.info_view()
    }

    fn entries(&self) -> (r: Vec<DictEntry>) {
        TrieDictionary::entries(self)
    }

    fn about(&self) -> (r: DictionaryInfo) {
        TrieDictionary::about(self)
    }

    fn lookup_first_n_phrases(&self, syllables: &[Syllable], first: usize) -> (r: Vec<Phrase>) {
        let mut found = TrieDictionary::lookup_all_phrases(self, syllables);
        let ghost whole = phrase_views(found@);
        assert(whole.len() == found@.len());
        found.truncate(first);
        assert(phrase_views(found@) =~= if first <= whole.len() {
            whole.take(first as int)
        } else {
            whole
        });
        found
    }
}

} // verus!
