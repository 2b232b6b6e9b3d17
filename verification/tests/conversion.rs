use chewing::conversion::chewing::{ChewingEngine, Graph, PossibleInterval, PossiblePath};
use chewing::conversion::{Break, Composition, ConversionEngine, Glue, Interval, Symbol};
use chewing::dictionary::trie_buf::TrieBufDictionary;
use chewing::dictionary::Phrase;
use chewing::zhuyin::Syllable;

const B: u16 = 1 << 9;
const M: u16 = 3 << 9;
const D: u16 = 5 << 9;
const G: u16 = 9 << 9;
const K: u16 = 10 << 9;
const H: u16 = 11 << 9;
const X: u16 = 14 << 9;
const SH: u16 = 17 << 9;
const C: u16 = 20 << 9;
const I: u16 = 1 << 7;
const U: u16 = 2 << 7;
const A: u16 = 1 << 3;
const O: u16 = 2 << 3;
const E: u16 = 3 << 3;
const AI: u16 = 5 << 3;
const EI: u16 = 6 << 3;
const AU: u16 = 7 << 3;
const EN: u16 = 10 << 3;
const TONE2: u16 = 2;
const TONE3: u16 = 3;
const TONE4: u16 = 4;

fn syl(parts: &[u16]) -> Syllable {
    let mut value = 0;
    for part in parts {
        value |= part;
    }
    Syllable::new(value)
}

fn test_dictionary() -> TrieBufDictionary {
    TrieBufDictionary::from([
        (vec![syl(&[G, U, O, TONE2])], vec![("國", 1).into()]),
        (vec![syl(&[M, I, EN, TONE2])], vec![("民", 1).into()]),
        (vec![syl(&[D, A, TONE4])], vec![("大", 1).into()]),
        (vec![syl(&[H, U, EI, TONE4])], vec![("會", 1).into()]),
        (vec![syl(&[D, AI, TONE4])], vec![("代", 1).into()]),
        (
            vec![syl(&[B, I, AU, TONE3])],
            vec![("表", 1).into(), ("錶", 1).into()],
        ),
        (
            vec![syl(&[G, U, O, TONE2]), syl(&[M, I, EN, TONE2])],
            vec![("國民", 200).into()],
        ),
        (
            vec![syl(&[D, A, TONE4]), syl(&[H, U, EI, TONE4])],
            vec![("大會", 200).into()],
        ),
        (
            vec![syl(&[D, AI, TONE4]), syl(&[B, I, AU, TONE3])],
            vec![("代表", 200).into(), ("戴錶", 100).into()],
        ),
        (vec![syl(&[X, I, EN])], vec![("心", 1).into()]),
        (
            vec![syl(&[K, U, TONE4]), syl(&[I, EN])],
            vec![("庫音", 300).into()],
        ),
        (
            vec![syl(&[X, I, EN]), syl(&[K, U, TONE4]), syl(&[I, EN])],
            vec![("新酷音", 200).into()],
        ),
        (
            vec![syl(&[C, E, TONE4]), syl(&[SH, TONE4]), syl(&[I, TONE2])],
            vec![("測試儀", 42).into()],
        ),
        (
            vec![syl(&[C, E, TONE4]), syl(&[SH, TONE4])],
            vec![("測試", 9318).into()],
        ),
        (
            vec![syl(&[I, TONE2]), syl(&[X, I, A, TONE4])],
            vec![("一下", 10576).into()],
        ),
        (vec![syl(&[X, I, A, TONE4])], vec![("下", 10576).into()]),
    ])
}

fn interval(start: usize, end: usize, phrase: &str) -> Interval {
    Interval {
        start,
        end,
        is_phrase: true,
        phrase: phrase.to_string(),
    }
}

fn six_syllables() -> Vec<Symbol> {
    vec![
        Symbol::Syllable(syl(&[G, U, O, TONE2])),
        Symbol::Syllable(syl(&[M, I, EN, TONE2])),
        Symbol::Syllable(syl(&[D, A, TONE4])),
        Symbol::Syllable(syl(&[H, U, EI, TONE4])),
        Symbol::Syllable(syl(&[D, AI, TONE4])),
        Symbol::Syllable(syl(&[B, I, AU, TONE3])),
    ]
}

#[test]
fn convert_empty_composition() {
    let dict = test_dictionary();
    let engine = ChewingEngine::new();
    let composition = Composition {
        buffer: vec![],
        selections: vec![],
        breaks: vec![],
        glues: vec![],
    };
    assert_eq!(Vec::<Interval>::new(), engine.convert(&dict, &composition));
}

#[test]
fn convert_simple_chinese_composition() {
    let dict = test_dictionary();
    let engine = ChewingEngine::new();
    let composition = Composition {
        buffer: six_syllables(),
        selections: vec![],
        breaks: vec![],
        glues: vec![],
    };
    assert_eq!(
        vec![
            Interval {
                start: 0,
                end: 2,
                is_phrase: true,
                phrase: "國民".to_string()
            },
            Interval {
                start: 2,
                end: 4,
                is_phrase: true,
                phrase: "大會".to_string()
            },
            Interval {
                start: 4,
                end: 6,
                is_phrase: true,
                phrase: "代表".to_string()
            },
        ],
        engine.convert(&dict, &composition)
    );
}

#[test]
fn convert_chinese_composition_with_breaks() {
    let dict = test_dictionary();
    let engine = ChewingEngine::new();
    let composition = Composition {
        buffer: six_syllables(),
        selections: vec![],
        breaks: vec![Break(1), Break(5)],
        glues: vec![],
    };
    assert_eq!(
        vec![
            Interval {
                start: 0,
                end: 1,
                is_phrase: true,
                phrase: "國".to_string()
            },
            Interval {
                start: 1,
                end: 2,
                is_phrase: true,
                phrase: "民".to_string()
            },
            Interval {
                start: 2,
                end: 4,
                is_phrase: true,
                phrase: "大會".to_string()
            },
            Interval {
                start: 4,
                end: 5,
                is_phrase: true,
                phrase: "代".to_string()
            },
            Interval {
                start: 5,
                end: 6,
                is_phrase: true,
                phrase: "表".to_string()
            },
        ],
        engine.convert(&dict, &composition)
    );
}

#[test]
fn convert_chinese_composition_with_good_selection() {
    let dict = test_dictionary();
    let engine = ChewingEngine::new();
    let composition = Composition {
        buffer: six_syllables(),
        selections: vec![Interval {
            start: 4,
            end: 6,
            is_phrase: true,
            phrase: "戴錶".to_string(),
        }],
        breaks: vec![],
        glues: vec![],
    };
    assert_eq!(
        vec![
            Interval {
                start: 0,
                end: 2,
                is_phrase: true,
                phrase: "國民".to_string()
            },
            Interval {
                start: 2,
                end: 4,
                is_phrase: true,
                phrase: "大會".to_string()
            },
            Interval {
                start: 4,
                end: 6,
                is_phrase: true,
                phrase: "戴錶".to_string()
            },
        ],
        engine.convert(&dict, &composition)
    );
}

#[test]
fn convert_chinese_composition_with_substring_selection() {
    let dict = test_dictionary();
    let engine = ChewingEngine::new();
    let composition = Composition {
        buffer: vec![
            Symbol::Syllable(syl(&[X, I, EN])),
            Symbol::Syllable(syl(&[K, U, TONE4])),
            Symbol::Syllable(syl(&[I, EN])),
        ],
        selections: vec![Interval {
            start: 1,
            end: 3,
            is_phrase: true,
            phrase: "酷音".to_string(),
        }],
        breaks: vec![],
        glues: vec![],
    };
    assert_eq!(
        vec![Interval {
            start: 0,
            end: 3,
            is_phrase: true,
            phrase: "新酷音".to_string()
        },],
        engine.convert(&dict, &composition)
    );
}

#[test]
fn multiple_single_word_selection() {
    let dict = test_dictionary();
    let engine = ChewingEngine::new();
    let composition = Composition {
        buffer: vec![
            Symbol::Syllable(syl(&[D, AI, TONE4])),
            Symbol::Syllable(syl(&[B, I, AU, TONE3])),
        ],
        selections: vec![
            Interval {
                start: 0,
                end: 1,
                is_phrase: true,
                phrase: "代".to_string(),
            },
            Interval {
                start: 1,
                end: 2,
                is_phrase: true,
                phrase: "錶".to_string(),
            },
        ],
        breaks: vec![],
        glues: vec![],
    };
    assert_eq!(
        vec![
            Interval {
                start: 0,
                end: 1,
                is_phrase: true,
                phrase: "代".to_string()
            },
            Interval {
                start: 1,
                end: 2,
                is_phrase: true,
                phrase: "錶".to_string()
            }
        ],
        engine.convert(&dict, &composition)
    );
}

fn cycle_composition() -> Composition {
    Composition {
        buffer: vec![
            Symbol::Syllable(syl(&[C, E, TONE4])),
            Symbol::Syllable(syl(&[SH, TONE4])),
            Symbol::Syllable(syl(&[I, TONE2])),
            Symbol::Syllable(syl(&[X, I, A, TONE4])),
        ],
        selections: vec![],
        breaks: vec![],
        glues: vec![],
    }
}

#[test]
fn convert_cycle_alternatives() {
    let dict = test_dictionary();
    let engine = ChewingEngine::new();
    let composition = cycle_composition();
    assert_eq!(
        vec![
            Interval {
                start: 0,
                end: 2,
                is_phrase: true,
                phrase: "測試".to_string()
            },
            Interval {
                start: 2,
                end: 4,
                is_phrase: true,
                phrase: "一下".to_string()
            }
        ],
        engine.convert_next(&dict, &composition, 0)
    );
    assert_eq!(
        vec![
            Interval {
                start: 0,
                end: 3,
                is_phrase: true,
                phrase: "測試儀".to_string()
            },
            Interval {
                start: 3,
                end: 4,
                is_phrase: true,
                phrase: "下".to_string()
            }
        ],
        engine.convert_next(&dict, &composition, 1)
    );
    assert_eq!(
        vec![
            Interval {
                start: 0,
                end: 2,
                is_phrase: true,
                phrase: "測試".to_string()
            },
            Interval {
                start: 2,
                end: 4,
                is_phrase: true,
                phrase: "一下".to_string()
            }
        ],
        engine.convert_next(&dict, &composition, 2)
    );
}

#[test]
fn possible_path_contains() {
    let path_1 = PossiblePath {
        intervals: vec![
            PossibleInterval {
                start: 0,
                end: 2,
                phrase: Phrase::new("測試", 0).into(),
            },
            PossibleInterval {
                start: 2,
                end: 4,
                phrase: Phrase::new("一下", 0).into(),
            },
        ],
    };
    let path_2 = PossiblePath {
        intervals: vec![
            PossibleInterval {
                start: 0,
                end: 2,
                phrase: Phrase::new("測試", 0).into(),
            },
            PossibleInterval {
                start: 2,
                end: 3,
                phrase: Phrase::new("遺", 0).into(),
            },
            PossibleInterval {
                start: 3,
                end: 4,
                phrase: Phrase::new("下", 0).into(),
            },
        ],
    };
    assert!(path_1.contains(&path_2));
}

#[test]
fn refined_path_does_not_contain_coarser_path() {
    let coarse = PossiblePath {
        intervals: vec![PossibleInterval {
            start: 0,
            end: 2,
            phrase: Phrase::new("測試", 0).into(),
        }],
    };
    let fine = PossiblePath {
        intervals: vec![
            PossibleInterval {
                start: 0,
                end: 1,
                phrase: Phrase::new("測", 0).into(),
            },
            PossibleInterval {
                start: 1,
                end: 2,
                phrase: Phrase::new("試", 0).into(),
            },
        ],
    };
    assert!(coarse.contains(&fine));
    assert!(!fine.contains(&coarse));
    assert!(coarse.contains(&PossiblePath { intervals: vec![] }));
}

fn scored_path() -> PossiblePath {
    PossiblePath {
        intervals: vec![
            PossibleInterval {
                start: 0,
                end: 1,
                phrase: Phrase::new("下", 10576).into(),
            },
            PossibleInterval {
                start: 1,
                end: 4,
                phrase: Phrase::new("測試儀", 42).into(),
            },
            PossibleInterval {
                start: 4,
                end: 6,
                phrase: Phrase::new("測試", 9318).into(),
            },
        ],
    }
}

#[test]
fn score_rules_have_exact_values() {
    let path = scored_path();
    assert_eq!(6, path.rule_largest_sum());
    assert_eq!(12, path.rule_largest_avgwordlen());
    assert_eq!(-4, path.rule_smallest_lenvariance());
    assert_eq!(20 + 42 + 9318, path.rule_largest_freqsum());
    assert_eq!(6000 + 12000 - 400 + 9380, path.score());
}

#[test]
fn score_of_empty_path_is_zero() {
    let path = PossiblePath { intervals: vec![] };
    assert_eq!(0, path.rule_largest_sum());
    assert_eq!(0, path.rule_largest_avgwordlen());
    assert_eq!(0, path.rule_smallest_lenvariance());
    assert_eq!(0, path.rule_largest_freqsum());
    assert_eq!(0, path.score());
}

#[test]
fn average_word_length_rounds_down() {
    let path = PossiblePath {
        intervals: vec![
            PossibleInterval {
                start: 0,
                end: 3,
                phrase: Phrase::new("測試儀", 0).into(),
            },
            PossibleInterval {
                start: 3,
                end: 4,
                phrase: Phrase::new("下", 511).into(),
            },
            PossibleInterval {
                start: 4,
                end: 5,
                phrase: Phrase::new("下", 512).into(),
            },
            PossibleInterval {
                start: 5,
                end: 6,
                phrase: Phrase::new("下", 1023).into(),
            },
        ],
    };
    assert_eq!(9, path.rule_largest_avgwordlen());
    assert_eq!(-6, path.rule_smallest_lenvariance());
    assert_eq!(2, path.rule_largest_freqsum());
}

#[test]
fn literal_characters_pass_through() {
    let dict = test_dictionary();
    let engine = ChewingEngine::new();
    let composition = Composition {
        buffer: vec![
            Symbol::Char('a'),
            Symbol::Syllable(syl(&[G, U, O, TONE2])),
            Symbol::Syllable(syl(&[M, I, EN, TONE2])),
            Symbol::Char('!'),
        ],
        selections: vec![],
        breaks: vec![],
        glues: vec![],
    };
    assert_eq!(
        vec![
            Interval {
                start: 0,
                end: 1,
                is_phrase: false,
                phrase: "a".to_string()
            },
            interval(1, 3, "國民"),
            Interval {
                start: 3,
                end: 4,
                is_phrase: false,
                phrase: "!".to_string()
            },
        ],
        engine.convert(&dict, &composition)
    );
}

#[test]
fn glue_joins_adjacent_intervals() {
    let dict = test_dictionary();
    let engine = ChewingEngine::new();
    let composition = Composition {
        buffer: six_syllables(),
        selections: vec![],
        breaks: vec![],
        glues: vec![Glue(2)],
    };
    assert_eq!(
        vec![interval(0, 4, "國民大會"), interval(4, 6, "代表")],
        engine.convert(&dict, &composition)
    );
}

#[test]
fn glue_joins_literal_characters_into_a_phrase() {
    let dict = test_dictionary();
    let engine = ChewingEngine::new();
    let composition = Composition {
        buffer: vec![Symbol::Char('o'), Symbol::Char('k')],
        selections: vec![],
        breaks: vec![],
        glues: vec![Glue(1)],
    };
    assert_eq!(
        vec![interval(0, 2, "ok")],
        engine.convert(&dict, &composition)
    );
}

#[test]
fn glue_inside_an_interval_changes_nothing() {
    let dict = test_dictionary();
    let engine = ChewingEngine::new();
    let composition = Composition {
        buffer: six_syllables(),
        selections: vec![],
        breaks: vec![],
        glues: vec![Glue(1)],
    };
    assert_eq!(
        vec![
            interval(0, 2, "國民"),
            interval(2, 4, "大會"),
            interval(4, 6, "代表")
        ],
        engine.convert(&dict, &composition)
    );
}

fn is_contiguous_cover(intervals: &[Interval], len: usize) -> bool {
    let mut at = 0;
    for interval in intervals {
        if interval.start != at || interval.end <= interval.start {
            return false;
        }
        at = interval.end;
    }
    at == len
}

#[test]
fn results_cover_the_buffer_contiguously() {
    let dict = test_dictionary();
    let engine = ChewingEngine::new();
    let mut composition = Composition {
        buffer: six_syllables(),
        selections: vec![],
        breaks: vec![Break(3)],
        glues: vec![Glue(4)],
    };
    assert!(is_contiguous_cover(
        &engine.convert(&dict, &composition),
        6
    ));
    for next in 0..5 {
        assert!(is_contiguous_cover(
            &engine.convert_next(&dict, &composition, next),
            6
        ));
    }
    composition.breaks = vec![];
    composition.glues = vec![];
    for next in 0..5 {
        assert!(is_contiguous_cover(
            &engine.convert_next(&dict, &composition, next),
            6
        ));
    }
}

#[test]
fn no_interval_spans_a_break() {
    let dict = test_dictionary();
    let engine = ChewingEngine::new();
    let composition = Composition {
        buffer: six_syllables(),
        selections: vec![],
        breaks: vec![Break(1), Break(3)],
        glues: vec![],
    };
    let mut results = vec![engine.convert(&dict, &composition)];
    for next in 0..4 {
        results.push(engine.convert_next(&dict, &composition, next));
    }
    for result in results {
        assert!(!result.is_empty());
        for interval in result {
            for position in [1, 3] {
                assert!(!(interval.start < position && position < interval.end));
            }
        }
    }
}

#[test]
fn selection_inside_an_interval_is_kept() {
    let dict = test_dictionary();
    let engine = ChewingEngine::new();
    let composition = Composition {
        buffer: six_syllables(),
        selections: vec![interval(5, 6, "錶")],
        breaks: vec![],
        glues: vec![],
    };
    assert_eq!(
        vec![
            interval(0, 2, "國民"),
            interval(2, 4, "大會"),
            interval(4, 6, "戴錶")
        ],
        engine.convert(&dict, &composition)
    );
    let alternative = engine.convert_next(&dict, &composition, 0);
    let last = alternative.last().unwrap();
    assert_eq!(Some('錶'), last.phrase.chars().nth(5 - last.start));
}

#[test]
fn convert_next_is_cyclic() {
    let dict = test_dictionary();
    let engine = ChewingEngine::new();
    let composition = cycle_composition();
    for next in 0..2 {
        let first = engine.convert_next(&dict, &composition, next);
        for rounds in 1..4 {
            assert_eq!(
                first,
                engine.convert_next(&dict, &composition, next + 2 * rounds)
            );
        }
    }
    assert_ne!(
        engine.convert_next(&dict, &composition, 0),
        engine.convert_next(&dict, &composition, 1)
    );
}

#[test]
fn convert_agrees_with_the_first_alternative() {
    let dict = test_dictionary();
    let engine = ChewingEngine::new();
    let composition = Composition {
        buffer: six_syllables(),
        selections: vec![],
        breaks: vec![],
        glues: vec![],
    };
    assert_eq!(
        engine.convert(&dict, &composition),
        engine.convert_next(&dict, &composition, 0)
    );
    let composition = cycle_composition();
    assert_eq!(
        engine.convert(&dict, &composition),
        engine.convert_next(&dict, &composition, 0)
    );
}

#[test]
fn convert_next_without_segmentation_is_empty() {
    let dict = test_dictionary();
    let engine = ChewingEngine::new();
    let composition = Composition {
        buffer: vec![
            Symbol::Syllable(syl(&[G, U, O, TONE2])),
            Symbol::Syllable(syl(&[K, U, TONE4])),
        ],
        selections: vec![],
        breaks: vec![],
        glues: vec![],
    };
    assert_eq!(
        Vec::<Interval>::new(),
        engine.convert_next(&dict, &composition, 0)
    );
    let empty = Composition {
        buffer: vec![],
        selections: vec![],
        breaks: vec![],
        glues: vec![],
    };
    assert_eq!(
        Vec::<Interval>::new(),
        engine.convert_next(&dict, &empty, 3)
    );
}

#[test]
fn most_frequent_phrase_wins_and_first_wins_on_ties() {
    let dict = test_dictionary();
    let engine = ChewingEngine::new();
    let biau = [Symbol::Syllable(syl(&[B, I, AU, TONE3]))];
    let found = engine
        .find_best_phrase(&dict, 0, &biau, &[], &[])
        .unwrap();
    assert_eq!("表", found.to_string());
    assert_eq!(1, found.freq());
    let pair = [
        Symbol::Syllable(syl(&[D, AI, TONE4])),
        Symbol::Syllable(syl(&[B, I, AU, TONE3])),
    ];
    let found = engine
        .find_best_phrase(&dict, 0, &pair, &[], &[])
        .unwrap();
    assert_eq!("代表", found.to_string());
    assert_eq!(200, found.freq());
    assert!(engine
        .find_best_phrase(&dict, 0, &pair, &[], &[Break(1)])
        .is_none());
    assert!(engine
        .find_best_phrase(&dict, 0, &pair, &[], &[Break(0), Break(2)])
        .is_some());
    let mixed = [Symbol::Syllable(syl(&[D, AI, TONE4])), Symbol::Char('x')];
    assert!(engine
        .find_best_phrase(&dict, 0, &mixed, &[], &[])
        .is_none());
    let literal = [Symbol::Char('x')];
    let found = engine
        .find_best_phrase(&dict, 7, &literal, &[], &[])
        .unwrap();
    assert_eq!("x", found.to_string());
    assert_eq!(0, found.freq());
}

#[test]
fn find_intervals_lists_every_span_with_a_phrase() {
    let dict = test_dictionary();
    let engine = ChewingEngine::new();
    let composition = cycle_composition();
    let spans: Vec<(usize, usize, String)> = engine
        .find_intervals(&dict, &composition)
        .iter()
        .map(|it| (it.start, it.end, it.phrase.to_string()))
        .collect();
    assert_eq!(
        vec![
            (0, 2, "測試".to_string()),
            (0, 3, "測試儀".to_string()),
            (2, 4, "一下".to_string()),
            (3, 4, "下".to_string()),
        ],
        spans
    );
}

#[test]
fn trim_paths_drops_refinements() {
    let engine = ChewingEngine::new();
    let coarse = || PossiblePath {
        intervals: vec![PossibleInterval {
            start: 0,
            end: 2,
            phrase: Phrase::new("測試", 0).into(),
        }],
    };
    let fine = || PossiblePath {
        intervals: vec![
            PossibleInterval {
                start: 0,
                end: 1,
                phrase: Phrase::new("測", 0).into(),
            },
            PossibleInterval {
                start: 1,
                end: 2,
                phrase: Phrase::new("試", 0).into(),
            },
        ],
    };
    let kept = engine.trim_paths(vec![fine(), coarse()]);
    assert_eq!(1, kept.len());
    assert_eq!(1, kept[0].intervals.len());
    let kept = engine.trim_paths(vec![coarse(), fine()]);
    assert_eq!(1, kept.len());
    assert_eq!(1, kept[0].intervals.len());
    assert!(engine.trim_paths(vec![]).is_empty());
}

#[test]
fn composition_validity_is_checked() {
    let mut composition = Composition {
        buffer: six_syllables(),
        selections: vec![interval(4, 6, "戴錶")],
        breaks: vec![Break(6)],
        glues: vec![Glue(0)],
    };
    assert!(composition.is_valid());
    composition.selections = vec![interval(4, 7, "戴錶"), interval(4, 4, "")];
    composition.breaks = vec![Break(7)];
    composition.glues = vec![Glue(9)];
    assert!(composition.is_valid());
    composition.selections = vec![interval(4, 6, "戴錶"), interval(4, 3, "")];
    assert!(!composition.is_valid());
    composition.selections = vec![];
    assert!(composition.is_valid());
    composition.buffer = vec![Symbol::Char('a'); 0xFFFF];
    assert!(composition.is_valid());
    composition.buffer.push(Symbol::Char('a'));
    assert!(!composition.is_valid());
}

#[test]
fn breaks_glues_and_selections_beyond_the_buffer_bear_on_nothing() {
    let dict = test_dictionary();
    let engine = ChewingEngine::new();
    let composition = Composition {
        buffer: six_syllables(),
        selections: vec![interval(5, 8, "錶錶錶")],
        breaks: vec![Break(7), Break(6), Break(0)],
        glues: vec![Glue(6), Glue(9)],
    };
    assert!(composition.is_valid());
    let expected = vec![
        interval(0, 2, "國民"),
        interval(2, 4, "大會"),
        interval(4, 6, "代表"),
    ];
    assert_eq!(expected, engine.convert(&dict, &composition));
    assert_eq!(expected, engine.convert_next(&dict, &composition, 0));
}

#[test]
fn symbols_tell_syllables_from_characters() {
    let syllable = Symbol::Syllable(syl(&[G, U, O, TONE2]));
    let character = Symbol::Char('x');
    assert!(syllable.is_syllable());
    assert!(!syllable.is_char());
    assert!(character.is_char());
    assert!(!character.is_syllable());
    assert_eq!(syl(&[G, U, O, TONE2]), syllable.as_syllable());
    assert_eq!('x', character.as_char());
    assert_eq!(G | U | O | TONE2, syl(&[G, U, O, TONE2]).to_u16());
}

#[test]
fn best_path_takes_intervals_by_their_end() {
    let engine = ChewingEngine::new();
    let intervals = vec![
        PossibleInterval {
            start: 2,
            end: 4,
            phrase: Phrase::new("一下", 10576).into(),
        },
        PossibleInterval {
            start: 0,
            end: 3,
            phrase: Phrase::new("測試儀", 42).into(),
        },
        PossibleInterval {
            start: 3,
            end: 4,
            phrase: Phrase::new("下", 10576).into(),
        },
        PossibleInterval {
            start: 0,
            end: 2,
            phrase: Phrase::new("測試", 9318).into(),
        },
    ];
    let best: Vec<(usize, usize, String)> = engine
        .find_best_path(4, intervals)
        .iter()
        .map(|it| (it.start, it.end, it.phrase.to_string()))
        .collect();
    assert_eq!(
        vec![(0, 2, "測試".to_string()), (2, 4, "一下".to_string())],
        best
    );
    assert!(engine.find_best_path(4, vec![]).is_empty());
}

#[test]
fn convert_without_a_full_segmentation_hands_out_what_the_search_holds() {
    let dict = test_dictionary();
    let engine = ChewingEngine::new();
    let composition = Composition {
        buffer: vec![
            Symbol::Syllable(syl(&[G, U, O, TONE2])),
            Symbol::Syllable(syl(&[K, U, TONE4])),
        ],
        selections: vec![],
        breaks: vec![],
        glues: vec![],
    };
    assert_eq!(Vec::<Interval>::new(), engine.convert(&dict, &composition));
}

#[test]
fn glue_at_a_break_joins_the_intervals_all_the_same() {
    let dict = test_dictionary();
    let engine = ChewingEngine::new();
    let composition = Composition {
        buffer: six_syllables(),
        selections: vec![],
        breaks: vec![Break(2)],
        glues: vec![Glue(2)],
    };
    assert_eq!(
        vec![interval(0, 4, "國民大會"), interval(4, 6, "代表")],
        engine.convert(&dict, &composition)
    );
}

#[test]
fn literal_character_passes_through_whatever_is_selected() {
    let dict = test_dictionary();
    let engine = ChewingEngine::new();
    let composition = Composition {
        buffer: vec![Symbol::Char('a')],
        selections: vec![interval(0, 1, "b")],
        breaks: vec![],
        glues: vec![],
    };
    assert_eq!(
        vec![Interval {
            start: 0,
            end: 1,
            is_phrase: false,
            phrase: "a".to_string()
        }],
        engine.convert(&dict, &composition)
    );
}

#[test]
fn selection_that_no_phrase_meets_leaves_the_span_out() {
    let dict = test_dictionary();
    let engine = ChewingEngine::new();
    let composition = Composition {
        buffer: vec![
            Symbol::Syllable(syl(&[D, AI, TONE4])),
            Symbol::Syllable(syl(&[B, I, AU, TONE3])),
        ],
        selections: vec![interval(0, 1, "戴")],
        breaks: vec![],
        glues: vec![],
    };
    assert_eq!(
        vec![interval(0, 2, "戴錶")],
        engine.convert(&dict, &composition)
    );
    let pair = [
        Symbol::Syllable(syl(&[D, AI, TONE4])),
        Symbol::Syllable(syl(&[B, I, AU, TONE3])),
    ];
    assert!(engine
        .find_best_phrase(&dict, 0, &pair[..1], &composition.selections, &[])
        .is_none());
}

#[test]
fn convert_hands_out_adjoining_intervals_that_end_with_the_buffer() {
    let dict = test_dictionary();
    let engine = ChewingEngine::new();
    let mut composition = Composition {
        buffer: vec![
            Symbol::Syllable(syl(&[K, U, TONE4])),
            Symbol::Syllable(syl(&[G, U, O, TONE2])),
            Symbol::Syllable(syl(&[M, I, EN, TONE2])),
        ],
        selections: vec![],
        breaks: vec![],
        glues: vec![],
    };
    assert_eq!(
        vec![interval(1, 3, "國民")],
        engine.convert(&dict, &composition)
    );
    composition.breaks = vec![Break(2)];
    composition.glues = vec![Glue(1)];
    let result = engine.convert(&dict, &composition);
    assert_eq!(vec![interval(1, 2, "國"), interval(2, 3, "民")], result);
    for pair in result.windows(2) {
        assert_eq!(pair[0].end, pair[1].start);
    }
    assert_eq!(3, result.last().unwrap().end);
    composition.breaks = vec![];
    composition.glues = vec![Glue(2)];
    composition.selections = vec![interval(1, 2, "民")];
    composition.buffer = six_syllables();
    assert_eq!(
        vec![interval(0, 4, "國民大會"), interval(4, 6, "代表")],
        engine.convert(&dict, &composition)
    );
    composition.selections = vec![interval(2, 3, "民")];
    assert_eq!(
        vec![interval(3, 4, "會"), interval(4, 6, "代表")],
        engine.convert(&dict, &composition)
    );
}

#[test]
fn find_all_paths_files_the_spans_it_renders() {
    let dict = test_dictionary();
    let engine = ChewingEngine::new();
    let composition = cycle_composition();
    let key = |start: usize, end: usize| start * 0x1_0000 + end;
    let mut graph = Graph::new();
    let paths = engine.find_all_paths(&dict, &mut graph, &composition, 0, 4, None);
    assert_eq!(2, paths.len());
    let mut filed: Vec<usize> = graph.keys().copied().collect();
    filed.sort();
    assert_eq!(
        vec![
            key(0, 1),
            key(0, 2),
            key(0, 3),
            key(0, 4),
            key(2, 3),
            key(2, 4),
            key(3, 4)
        ],
        filed
    );
    assert_eq!("測試", graph[&key(0, 2)].as_ref().unwrap().to_string());
    assert!(graph[&key(0, 1)].is_none());
    let again = engine.find_all_paths(&dict, &mut graph, &composition, 2, 4, None);
    assert_eq!(1, again.len());
    assert_eq!(7, graph.len());
    let found = engine.cached_phrase(&dict, &mut graph, &composition, 1, 2);
    assert!(found.is_none());
    assert_eq!(8, graph.len());
    assert!(graph.contains_key(&key(1, 2)));
    let found = engine.cached_phrase(&dict, &mut graph, &composition, 0, 3);
    assert_eq!("測試儀", found.unwrap().to_string());
    assert_eq!(8, graph.len());
}
