use hanzi_deck::entry::{
    CapPinyin, CharWriting, CommonEntry, Definition, EntryId, GrammarEntry, Pinyin, Stroke,
    SyllableEntry, Triplet, WordEntry,
};
use hanzi_deck::outside::Segmenter;
use hanzi_deck::store::{EntryStore, MergeError};
use std::collections::HashSet;

fn py(s: &str) -> Pinyin {
    Pinyin::from_normalized(s.to_string())
}

fn def(s: &str) -> Definition {
    Definition { pinyin: None, english: vec![s.to_string()] }
}

fn strokes(path: &str) -> CharWriting {
    CharWriting::Strokes(vec![Stroke { path: path.to_string(), start_x: 1, start_y: 2 }])
}

fn record_a() -> WordEntry {
    let mut a = WordEntry::from_id("中".to_string());
    a.pinyin = vec![py("zhōng")];
    a.definitions = vec![def("middle")];
    a.freq = vec![10];
    a.hsk_lev = Some(3);
    a.dependencies = vec![EntryId::Word("口".to_string())];
    a.traditional = Some("中".to_string());
    a
}

fn record_b() -> WordEntry {
    let mut b = WordEntry::from_id("中".to_string());
    b.pinyin = vec![py("zhòng"), py("zhōng")];
    b.definitions = vec![def("hit")];
    b.freq = vec![20];
    b.hsk_lev = Some(1);
    b.writing = vec![strokes("M 0 0")];
    b.audio_file = Some("zhong.mp3".to_string());
    b
}

fn readings(w: &WordEntry) -> HashSet<String> {
    w.pinyin.iter().map(|p| p.as_str().to_string()).collect()
}

#[test]
fn merge_in_either_order() {
    let base = WordEntry::from_id("中".to_string());
    let mut ab = base.clone();
    ab.merge(record_a());
    ab.merge(record_b());
    let mut ba = base.clone();
    ba.merge(record_b());
    ba.merge(record_a());
    assert_eq!(readings(&ab), readings(&ba));
    assert_eq!(ab.pinyin.len(), 2);
    let mut fa = ab.freq.clone();
    let mut fb = ba.freq.clone();
    fa.sort();
    fb.sort();
    assert_eq!(fa, fb);
    assert_eq!(ab.definitions.len(), 2);
    assert_eq!(ba.definitions.len(), 2);
    assert_eq!(ab.hsk_lev, Some(1));
    assert_eq!(ba.hsk_lev, Some(1));
    assert_eq!(ab.dependencies.len(), 1);
    assert_eq!(ba.dependencies.len(), 1);
}

#[test]
fn first_resolved_writing_wins() {
    let mut w = WordEntry::from_id("中".to_string());
    let mut first = WordEntry::from_id("中".to_string());
    first.writing = vec![strokes("first")];
    let mut second = WordEntry::from_id("中".to_string());
    second.writing = vec![strokes("second")];
    w.merge(first);
    w.merge(second);
    match &w.writing[0] {
        CharWriting::Strokes(s) => assert_eq!(s[0].path, "first"),
        CharWriting::Char(_) => panic!("slot left unresolved"),
    }
    // a placeholder never replaces a resolved slot
    w.merge(WordEntry::from_id("中".to_string()));
    assert!(!w.writing[0].is_placeholder());
}

#[test]
fn first_present_traditional_and_audio_win() {
    let mut w = record_a();
    let mut other = WordEntry::from_id("中".to_string());
    other.traditional = Some("X".to_string());
    other.audio_file = Some("a.mp3".to_string());
    w.merge(other);
    assert_eq!(w.traditional, Some("中".to_string()));
    assert_eq!(w.audio_file, Some("a.mp3".to_string()));
}

#[test]
fn level_merge_is_min_or_present() {
    let mut w = WordEntry::from_id("好".to_string());
    let mut l4 = WordEntry::from_id("好".to_string());
    l4.hsk_lev = Some(4);
    w.merge(l4);
    assert_eq!(w.hsk_lev, Some(4));
    let mut l2 = WordEntry::from_id("好".to_string());
    l2.hsk_lev = Some(2);
    w.merge(l2);
    assert_eq!(w.hsk_lev, Some(2));
    w.merge(WordEntry::from_id("好".to_string()));
    assert_eq!(w.hsk_lev, Some(2));
}

#[test]
fn upsert_creates_then_merges() {
    let mut store = EntryStore::new();
    assert_eq!(store.upsert(CommonEntry::WordEntry(record_a())), Ok(()));
    assert_eq!(store.upsert(CommonEntry::WordEntry(record_b())), Ok(()));
    assert_eq!(store.len(), 1);
    match store.get(&EntryId::Word("中".to_string())) {
        Some(CommonEntry::WordEntry(w)) => {
            assert_eq!(w.definitions.len(), 2);
            assert_eq!(w.hsk_lev, Some(1));
        }
        _ => panic!("entry missing"),
    }
    assert!(store.get(&EntryId::Syllable("中".to_string())).is_none());
}

#[test]
fn duplicate_syllable_is_refused() {
    let mut store = EntryStore::new();
    let s = || {
        CommonEntry::SyllableEntry(SyllableEntry { id: py("ma"), audio_file: "ma.mp3".to_string() })
    };
    assert_eq!(store.upsert(s()), Ok(()));
    assert_eq!(store.upsert(s()), Err(MergeError::NotMergeable));
    assert_eq!(store.len(), 1);
}

#[test]
fn duplicate_grammar_is_refused() {
    let t = || Triplet { zh: "把".to_string(), en: "ba".to_string(), py: py("bǎ") };
    let g = || {
        CommonEntry::GrammarEntry(GrammarEntry {
            id: "1".to_string(),
            structure: t(),
            example: t(),
            hsk_lev: Some(2),
            hsk_sublev: None,
        })
    };
    let mut store = EntryStore::new();
    assert_eq!(store.upsert(g()), Ok(()));
    assert_eq!(store.upsert(g()), Err(MergeError::NotMergeable));
}

#[test]
fn writings_copied_from_characters() {
    let mut store = EntryStore::new();
    let mut ni = WordEntry::from_id("你".to_string());
    ni.writing = vec![strokes("ni")];
    assert!(store.upsert(CommonEntry::WordEntry(ni)).is_ok());
    assert!(store.upsert(CommonEntry::WordEntry(WordEntry::from_id("你好".to_string()))).is_ok());
    store.fill_writings();
    match &store.entries()[1] {
        CommonEntry::WordEntry(w) => {
            assert_eq!(w.writing.len(), 2);
            assert!(!w.writing[0].is_placeholder());
            assert!(w.writing[1].is_placeholder());
            assert!(w.is_missing_some_writing());
        }
        _ => panic!("not a word"),
    }
}

#[test]
fn reading_supplied_only_when_missing() {
    let mut store = EntryStore::new();
    assert!(store.upsert(CommonEntry::WordEntry(WordEntry::from_id("好".to_string()))).is_ok());
    assert!(store.upsert(CommonEntry::WordEntry(record_a())).is_ok());
    assert!(store.needs_reading(0));
    assert!(!store.needs_reading(1));
    store.supply_reading(0, py("hǎo"));
    store.supply_reading(1, py("other"));
    match (&store.entries()[0], &store.entries()[1]) {
        (CommonEntry::WordEntry(a), CommonEntry::WordEntry(b)) => {
            assert_eq!(a.pinyin[0].as_str(), "hǎo");
            assert_eq!(b.pinyin.len(), 1);
            assert_eq!(b.pinyin[0].as_str(), "zhōng");
        }
        _ => panic!("not words"),
    }
}

#[test]
fn name_gloss_for_radical_not_for_ideograph() {
    let mut store = EntryStore::new();
    assert!(store.upsert(CommonEntry::WordEntry(WordEntry::from_id("⺀".to_string()))).is_ok());
    assert!(store.upsert(CommonEntry::WordEntry(WordEntry::from_id("丁".to_string()))).is_ok());
    store.add_name_definitions();
    match (&store.entries()[0], &store.entries()[1]) {
        (CommonEntry::WordEntry(a), CommonEntry::WordEntry(b)) => {
            assert_eq!(a.definitions.len(), 1);
            assert_eq!(a.definitions[0].english, vec!["CJK RADICAL REPEAT".to_string()]);
            // "CJK UNIFIED IDEOGRAPH-4E01" only restates the code point
            assert_eq!(b.definitions.len(), 0);
        }
        _ => panic!("not words"),
    }
}

#[test]
fn deletion_spares_leveled_entries() {
    let mut store = EntryStore::new();
    let mut latin = WordEntry::from_id("abc".to_string());
    latin.definitions = vec![def("letters")];
    let mut leveled = WordEntry::from_id("xyz".to_string());
    leveled.hsk_lev = Some(1);
    let mut kept = WordEntry::from_id("水".to_string());
    kept.definitions = vec![def("water")];
    let bare = WordEntry::from_id("火".to_string());
    let word = WordEntry::from_id("火山".to_string());
    let mut drawn = WordEntry::from_id("山".to_string());
    drawn.writing = vec![strokes("shan")];
    for w in [latin, leveled, kept, bare, word, drawn] {
        assert!(store.upsert(CommonEntry::WordEntry(w)).is_ok());
    }
    assert!(store.upsert(CommonEntry::SyllableEntry(SyllableEntry {
        id: py("shui"),
        audio_file: "s.mp3".to_string(),
    }))
    .is_ok());
    store.remove_deletable();
    let ids: Vec<String> = store.entries().iter().map(|e| e.id().text().clone()).collect();
    assert_eq!(
        ids,
        vec!["xyz".to_string(), "水".to_string(), "火山".to_string(), "山".to_string(), "shui".to_string()]
    );
    assert_eq!(store.find(&EntryId::Word("水".to_string())), Some(1));
    assert_eq!(store.find(&EntryId::Word("火".to_string())), None);
}

#[test]
fn word_dependencies_add_characters() {
    let mut w = WordEntry::from_id("你好".to_string());
    w.dependencies = vec![EntryId::Word("好".to_string()), EntryId::Word("人".to_string())];
    let d = w.dependencies();
    let texts: Vec<String> = d.iter().map(|e| e.text().clone()).collect();
    assert_eq!(texts, vec!["好".to_string(), "人".to_string(), "你".to_string()]);
    let single = WordEntry::from_id("你".to_string());
    assert!(single.dependencies().is_empty());
}

#[test]
fn grammar_dependencies_segment_text() {
    let seg = Segmenter::new();
    let t = Triplet { zh: "我爱你".to_string(), en: "I love you".to_string(), py: py("") };
    let d = t.dependencies(&seg);
    let joined: String = d.iter().map(|e| e.text().clone()).collect();
    assert_eq!(joined, "我爱你");
    assert!(d.iter().all(|e| matches!(e, EntryId::Word(_))));
    assert!(!d.is_empty());
}

#[test]
fn capitalization_flag() {
    let c = CapPinyin::from_reading(py("běijīng"));
    assert!(!c.is_capitalized());
    let d = CapPinyin { py: "běijīng".to_string(), cap: true };
    assert!(d.is_capitalized());
}

#[test]
fn media_of_each_kind() {
    let w = CommonEntry::WordEntry(record_b());
    assert_eq!(w.media(), vec!["zhong.mp3".to_string()]);
    let s = CommonEntry::SyllableEntry(SyllableEntry { id: py("ma"), audio_file: "m.mp3".to_string() });
    assert_eq!(s.media(), vec!["m.mp3".to_string()]);
}

#[test]
fn first_definition_prefers_first_reading() {
    let mut w = WordEntry::from_id("行".to_string());
    w.pinyin = vec![py("xíng"), py("háng")];
    w.definitions = vec![
        Definition {
            pinyin: Some(CapPinyin { py: "háng".to_string(), cap: false }),
            english: vec!["row; line".to_string()],
        },
        Definition {
            pinyin: Some(CapPinyin { py: "xíng".to_string(), cap: false }),
            english: vec!["to walk; to go".to_string(), "capable".to_string()],
        },
    ];
    assert_eq!(w.first_definition(), Some("to walk".to_string()));
    w.pinyin = vec![py("xing")];
    assert_eq!(w.first_definition(), Some("row".to_string()));
    w.definitions.clear();
    assert_eq!(w.first_definition(), None);
}

#[test]
fn simple_english_summary() {
    let mut w = WordEntry::from_id("你好".to_string());
    w.pinyin = vec![py("nǐ hǎo")];
    assert_eq!(w.simple_english(), None);
    w.definitions = vec![def("hello; hi")];
    w.simple_definitions = vec!["greeting".to_string()];
    assert_eq!(w.simple_english(), Some("(2) hello | greeting".to_string()));
}
