use chewing::dictionary::trie::{TrieDictionary, TrieDictionaryBuilder};
use chewing::dictionary::trie_buf::TrieBufDictionary;
use chewing::dictionary::{
    order_keys, order_syllables, order_texts, BuildDictionaryError, Dictionary,
    DictionaryUpdateError, KeyOrder, Phrase,
};
use chewing::zhuyin::Syllable;

const SOFTWARE: &str = "chewing-tests 1.0";
const D: u16 = 5 << 9;
const Z: u16 = 19 << 9;
const I: u16 = 1 << 7;
const AN: u16 = 9 << 3;
const TONE3: u16 = 3;
const TONE4: u16 = 4;

fn syl(parts: &[u16]) -> Syllable {
    let mut value = 0;
    for part in parts {
        value |= part;
    }
    Syllable::new(value)
}

fn zi_dian() -> Vec<Syllable> {
    vec![syl(&[Z, TONE4]), syl(&[D, I, AN, TONE3])]
}

/// What is stored under a path: stands for the file between a flush and
/// the next time the dictionary is opened.
fn stored(dict: &TrieBufDictionary) -> Option<TrieDictionary> {
    dict.trie().cloned()
}

#[test]
fn create_new_dictionary_in_memory_and_query() {
    let mut dict = TrieBufDictionary::open("user.dat", SOFTWARE, None);
    let info = dict.about();
    dict.add_phrase(&zi_dian(), ("dict", 1, 2).into()).unwrap();
    assert_eq!(Some("Unknown".to_string()), info.copyright);
    assert_eq!(
        Some(("dict", 1, 2).into()),
        dict.lookup_first_phrase(&zi_dian())
    );
}

#[test]
fn create_new_dictionary_and_query() {
    let mut dict = TrieBufDictionary::open("user.dat", SOFTWARE, None);
    dict.add_phrase(&zi_dian(), ("dict", 1, 2).into()).unwrap();
    dict.flush().unwrap();
    let dict = TrieBufDictionary::open("user.dat", SOFTWARE, stored(&dict));
    let info = dict.about();
    assert_eq!(Some("Unknown".to_string()), info.copyright);
    assert_eq!(
        Some(("dict", 1, 2).into()),
        dict.lookup_first_phrase(&zi_dian())
    );
}

#[test]
fn create_new_dictionary_and_enumerate() {
    let mut dict = TrieBufDictionary::open("user.dat", SOFTWARE, None);
    dict.add_phrase(&zi_dian(), ("dict", 1, 2).into()).unwrap();
    dict.flush().unwrap();
    assert_eq!(
        vec![(zi_dian(), Phrase::from(("dict", 1, 2)))],
        dict.entries()
    );
}

fn fields(phrase: &Phrase) -> (String, u32, Option<u64>) {
    (phrase.as_str().to_string(), phrase.freq(), phrase.last_used())
}

#[test]
fn new_dictionary_names_itself() {
    let dict = TrieBufDictionary::open("user.dat", SOFTWARE, None);
    let info = dict.about();
    assert_eq!(Some("我的詞庫".to_string()), info.name);
    assert_eq!(Some("Unknown".to_string()), info.copyright);
    assert_eq!(Some("Unknown".to_string()), info.license);
    assert_eq!(Some("Unknown".to_string()), info.version);
    assert_eq!(Some("chewing-tests 1.0".to_string()), info.software);
    assert_eq!("user.dat", dict.path());
    let in_memory = TrieBufDictionary::new_in_memory();
    assert_eq!(None, in_memory.about().name);
    assert_eq!("", in_memory.path());
    assert!(in_memory.trie().is_none());
}

#[test]
fn round_trip_keeps_the_added_phrase() {
    let mut dict = TrieBufDictionary::open("user.dat", SOFTWARE, None);
    dict.add_phrase(&zi_dian(), ("dict", 7, 9).into()).unwrap();
    dict.flush().unwrap();
    let mut reopened = TrieBufDictionary::open("user.dat", SOFTWARE, stored(&dict));
    let found = reopened.lookup_first_phrase(&zi_dian()).unwrap();
    assert_eq!(("dict".to_string(), 7, Some(9)), fields(&found));
    reopened.reopen(stored(&dict).unwrap()).unwrap();
    let found = reopened.lookup_first_phrase(&zi_dian()).unwrap();
    assert_eq!(("dict".to_string(), 7, Some(9)), fields(&found));
}

#[test]
fn phrase_added_without_time_is_stamped_zero() {
    let mut dict = TrieBufDictionary::new_in_memory();
    dict.add_phrase(&zi_dian(), ("dict", 3).into()).unwrap();
    let found = dict.lookup_first_phrase(&zi_dian()).unwrap();
    assert_eq!(("dict".to_string(), 3, Some(0)), fields(&found));
}

#[test]
fn adding_a_shown_phrase_again_fails() {
    let mut dict = TrieBufDictionary::new_in_memory();
    dict.add_phrase(&zi_dian(), ("dict", 1, 2).into()).unwrap();
    assert_eq!(
        Err(DictionaryUpdateError { source: None }),
        dict.add_phrase(&zi_dian(), ("dict", 5, 6).into())
    );
    let found = dict.lookup_all_phrases(&zi_dian());
    assert_eq!(1, found.len());
    assert_eq!(("dict".to_string(), 1, Some(2)), fields(&found[0]));
    let mut file_backed = TrieBufDictionary::open("user.dat", SOFTWARE, None);
    file_backed
        .add_phrase(&zi_dian(), ("dict", 1, 2).into())
        .unwrap();
    file_backed.flush().unwrap();
    assert!(file_backed
        .add_phrase(&zi_dian(), ("dict", 5, 6).into())
        .is_err());
}

#[test]
fn update_is_an_unconditional_upsert() {
    let mut dict = TrieBufDictionary::new_in_memory();
    dict.update_phrase(&zi_dian(), ("dict", 1).into(), 10, 20)
        .unwrap();
    let found = dict.lookup_all_phrases(&zi_dian());
    assert_eq!(1, found.len());
    assert_eq!(("dict".to_string(), 10, Some(20)), fields(&found[0]));
    dict.update_phrase(&zi_dian(), ("dict", 1).into(), 30, 40)
        .unwrap();
    let found = dict.lookup_all_phrases(&zi_dian());
    assert_eq!(1, found.len());
    assert_eq!(("dict".to_string(), 30, Some(40)), fields(&found[0]));
}

#[test]
fn removed_phrase_is_hidden_from_every_lookup() {
    let mut dict = TrieBufDictionary::open("user.dat", SOFTWARE, None);
    dict.add_phrase(&zi_dian(), ("dict", 1, 2).into()).unwrap();
    dict.add_phrase(&zi_dian(), ("other", 1, 2).into()).unwrap();
    dict.flush().unwrap();
    dict.remove_phrase(&zi_dian(), "dict").unwrap();
    let found = dict.lookup_all_phrases(&zi_dian());
    assert_eq!(1, found.len());
    assert_eq!("other", found[0].as_str());
    assert_eq!("other", dict.lookup_first_phrase(&zi_dian()).unwrap().as_str());
    assert_eq!(1, dict.lookup_first_n_phrases(&zi_dian(), 5).len());
    assert_eq!(1, dict.entries_iter_for(&zi_dian()).len());
    let entries = dict.entries();
    assert_eq!(1, entries.len());
    assert_eq!("other", entries[0].1.as_str());
    assert_eq!(2, dict.trie().unwrap().len());
    dict.update_phrase(&zi_dian(), ("dict", 1).into(), 50, 60)
        .unwrap();
    assert_eq!(1, dict.lookup_all_phrases(&zi_dian()).len());
    dict.flush().unwrap();
    assert_eq!(1, dict.trie().unwrap().len());
    assert_eq!(1, dict.lookup_all_phrases(&zi_dian()).len());
}

#[test]
fn lookup_shows_each_text_once_with_the_greater_frequency() {
    let mut dict = TrieBufDictionary::open("user.dat", SOFTWARE, None);
    dict.add_phrase(&zi_dian(), ("dict", 5, 0).into()).unwrap();
    dict.add_phrase(&zi_dian(), ("word", 5, 0).into()).unwrap();
    dict.flush().unwrap();
    dict.update_phrase(&zi_dian(), ("dict", 0).into(), 9, 11)
        .unwrap();
    dict.update_phrase(&zi_dian(), ("word", 0).into(), 2, 12)
        .unwrap();
    dict.update_phrase(&zi_dian(), ("added", 0).into(), 1, 13)
        .unwrap();
    assert_eq!(5, dict.entries_iter_for(&zi_dian()).len());
    let found: Vec<_> = dict
        .lookup_all_phrases(&zi_dian())
        .iter()
        .map(fields)
        .collect();
    assert_eq!(
        vec![
            ("dict".to_string(), 9, Some(11)),
            ("word".to_string(), 5, Some(0)),
            ("added".to_string(), 1, Some(13)),
        ],
        found
    );
    let first_two = dict.lookup_first_n_phrases(&zi_dian(), 2);
    assert_eq!(2, first_two.len());
    assert_eq!("word", first_two[1].as_str());
    assert!(dict.lookup_first_n_phrases(&zi_dian(), 0).is_empty());
}

#[test]
fn entries_merge_both_layers_in_key_order() {
    let first = vec![syl(&[D, I, AN, TONE3])];
    let mut dict = TrieBufDictionary::open("user.dat", SOFTWARE, None);
    dict.add_phrase(&zi_dian(), ("b", 5, 0).into()).unwrap();
    dict.add_phrase(&zi_dian(), ("d", 5, 0).into()).unwrap();
    dict.flush().unwrap();
    dict.update_phrase(&zi_dian(), ("b", 0).into(), 5, 1).unwrap();
    dict.update_phrase(&zi_dian(), ("d", 0).into(), 4, 2).unwrap();
    dict.update_phrase(&zi_dian(), ("c", 0).into(), 1, 3).unwrap();
    dict.update_phrase(&first, ("z", 0).into(), 1, 4).unwrap();
    let entries: Vec<_> = dict
        .entries()
        .iter()
        .map(|(syllables, phrase)| (syllables.clone(), fields(phrase)))
        .collect();
    assert_eq!(
        vec![
            (first.clone(), ("z".to_string(), 1, Some(4))),
            (zi_dian(), ("b".to_string(), 5, Some(1))),
            (zi_dian(), ("c".to_string(), 1, Some(3))),
            (zi_dian(), ("d".to_string(), 5, Some(0))),
        ],
        entries
    );
    assert_eq!(dict.entries().len(), dict.entries_iter().len());
}

#[test]
fn flush_in_memory_changes_nothing() {
    let mut dict = TrieBufDictionary::new_in_memory();
    dict.add_phrase(&zi_dian(), ("dict", 1, 2).into()).unwrap();
    dict.remove_phrase(&zi_dian(), "gone").unwrap();
    dict.flush().unwrap();
    assert!(dict.trie().is_none());
    assert_eq!(1, dict.lookup_all_phrases(&zi_dian()).len());
    let builder = TrieDictionaryBuilder::new();
    dict.reopen(builder.build()).unwrap();
    assert!(dict.trie().is_none());
}

#[test]
fn text_that_starts_with_the_last_character_is_outside_lookups() {
    let mut dict = TrieBufDictionary::new_in_memory();
    dict.add_phrase(&zi_dian(), ("\u{10FFFF}", 1, 2).into())
        .unwrap();
    dict.add_phrase(&zi_dian(), ("a\u{10FFFF}", 1, 2).into())
        .unwrap();
    let found = dict.lookup_all_phrases(&zi_dian());
    assert_eq!(1, found.len());
    assert_eq!("a\u{10FFFF}", found[0].as_str());
    assert_eq!(2, dict.entries().len());
}

#[test]
fn builder_takes_entries_in_key_order_only() {
    let mut builder = TrieDictionaryBuilder::new();
    assert_eq!(Ok(()), builder.insert(&zi_dian(), ("b", 1).into()));
    assert_eq!(
        Err(BuildDictionaryError::OutOfOrder),
        builder.insert(&zi_dian(), ("b", 2).into())
    );
    assert_eq!(
        Err(BuildDictionaryError::OutOfOrder),
        builder.insert(&zi_dian(), ("a", 1).into())
    );
    assert_eq!(
        Err(BuildDictionaryError::OutOfOrder),
        builder.insert(&[syl(&[D, I, AN, TONE3])], ("c", 1).into())
    );
    assert_eq!(Ok(()), builder.insert(&zi_dian(), ("c", 1).into()));
    let trie = builder.build();
    assert_eq!(2, trie.len());
    assert_eq!(2, trie.lookup_all_phrases(&zi_dian()).len());
    assert_eq!(1, trie.lookup_first_n_phrases(&zi_dian(), 1).len());
    assert_eq!("c", trie.get(1).1.as_str());
    assert_eq!(None, trie.about().name);
    assert_eq!(
        DictionaryUpdateError {
            source: Some(BuildDictionaryError::OutOfOrder)
        },
        DictionaryUpdateError::from(BuildDictionaryError::OutOfOrder)
    );
}

#[test]
fn keys_are_ordered_by_syllables_and_then_by_text() {
    let short = [syl(&[Z, TONE4])];
    let long = zi_dian();
    assert_eq!(KeyOrder::Before, order_syllables(&short, &long));
    assert_eq!(KeyOrder::After, order_syllables(&long, &short));
    assert_eq!(KeyOrder::Same, order_syllables(&long, &zi_dian()));
    assert_eq!(KeyOrder::Before, order_syllables(&[], &short));
    assert_eq!(KeyOrder::Before, order_texts("", "a"));
    assert_eq!(KeyOrder::Before, order_texts("表", "錶"));
    assert_eq!(KeyOrder::After, order_texts("ab", "a"));
    assert_eq!(KeyOrder::Same, order_texts("代表", "代表"));
    assert_eq!(KeyOrder::Before, order_texts("z", "\u{10FFFF}"));
    assert_eq!(KeyOrder::Before, order_keys(&short, "z", &long, "a"));
    assert_eq!(KeyOrder::After, order_keys(&long, "b", &long, "a"));
    assert_eq!(KeyOrder::Same, order_keys(&long, "a", &long, "a"));
}

#[test]
fn phrases_are_equal_by_text() {
    assert_eq!(Phrase::new("dict", 1), Phrase::new("dict", 2).with_time(3));
    assert_ne!(Phrase::new("dict", 1), Phrase::new("word", 1));
}

#[test]
fn dictionary_from_groups_leaves_out_repeated_texts() {
    let dict = TrieBufDictionary::from([
        (zi_dian(), vec![("dict", 1).into(), ("word", 2).into(), ("dict", 3).into()]),
        (vec![syl(&[Z, TONE4])], vec![("z", 4).into()]),
    ]);
    let found: Vec<_> = dict
        .lookup_all_phrases(&zi_dian())
        .iter()
        .map(fields)
        .collect();
    assert_eq!(
        vec![
            ("dict".to_string(), 1, Some(0)),
            ("word".to_string(), 2, Some(0)),
        ],
        found
    );
    assert_eq!(3, dict.entries().len());
    assert_eq!("", dict.path());
}

#[test]
fn of_equally_frequent_phrases_the_one_used_later_is_shown() {
    let mut dict = TrieBufDictionary::open("user.dat", SOFTWARE, None);
    dict.add_phrase(&zi_dian(), ("dict", 5, 3).into()).unwrap();
    dict.flush().unwrap();
    dict.update_phrase(&zi_dian(), ("dict", 0).into(), 5, 7)
        .unwrap();
    let found = dict.lookup_all_phrases(&zi_dian());
    assert_eq!(1, found.len());
    assert_eq!(("dict".to_string(), 5, Some(7)), fields(&found[0]));
    dict.update_phrase(&zi_dian(), ("dict", 0).into(), 5, 1)
        .unwrap();
    let found = dict.lookup_all_phrases(&zi_dian());
    assert_eq!(("dict".to_string(), 5, Some(3)), fields(&found[0]));
    let entries = dict.entries();
    assert_eq!(1, entries.len());
    assert_eq!(("dict".to_string(), 5, Some(1)), fields(&entries[0].1));
}

#[test]
fn immutable_dictionary_is_a_dictionary() {
    let mut builder = TrieDictionaryBuilder::new();
    builder.insert(&zi_dian(), ("a", 1).into()).unwrap();
    builder.insert(&zi_dian(), ("b", 2).into()).unwrap();
    let trie = builder.build();
    assert_eq!("a", trie.lookup_first_phrase(&zi_dian()).unwrap().as_str());
    assert_eq!(2, Dictionary::lookup_all_phrases(&trie, &zi_dian()).len());
    assert!(trie.lookup_first_phrase(&[syl(&[Z, TONE4])]).is_none());
    assert_eq!(2, Dictionary::entries(&trie).len());
    assert_eq!(None, Dictionary::about(&trie).copyright);
    let copy = trie.clone();
    assert_eq!(trie.entries(), copy.entries());
}

#[test]
fn built_layer_holds_the_whole_dictionary() {
    let mut dict = TrieBufDictionary::open("user.dat", SOFTWARE, None);
    dict.add_phrase(&zi_dian(), ("b", 1, 2).into()).unwrap();
    dict.add_phrase(&zi_dian(), ("a", 3, 4).into()).unwrap();
    dict.remove_phrase(&zi_dian(), "b").unwrap();
    let layer = dict.build_layer();
    assert_eq!(1, layer.len());
    assert_eq!("a", layer.get(0).1.as_str());
    assert_eq!(Some("Unknown".to_string()), layer.about().license);
    assert_eq!(0, dict.trie().unwrap().len());
    assert_eq!(1, dict.entries().len());
}

#[test]
fn phrase_added_after_its_removal_stays_hidden() {
    let mut dict = TrieBufDictionary::open("user.dat", SOFTWARE, None);
    dict.add_phrase(&zi_dian(), ("dict", 1, 2).into()).unwrap();
    dict.remove_phrase(&zi_dian(), "dict").unwrap();
    assert_eq!(Ok(()), dict.add_phrase(&zi_dian(), ("dict", 3, 4).into()));
    assert!(dict.lookup_first_phrase(&zi_dian()).is_none());
    dict.flush().unwrap();
    assert!(dict.lookup_first_phrase(&zi_dian()).is_none());
    assert_eq!(Ok(()), dict.add_phrase(&zi_dian(), ("dict", 5, 6).into()));
    let found = dict.lookup_first_phrase(&zi_dian()).unwrap();
    assert_eq!(("dict".to_string(), 5, Some(6)), fields(&found));
}
