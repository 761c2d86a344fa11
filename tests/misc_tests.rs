use hanzi_deck::entry::{CommonEntry, EntryId, GrammarEntry, Pinyin, SyllableEntry, Triplet, WordEntry};
use hanzi_deck::priority::{grammar_priority, level_score, word_priority, PRIORITY_ONE, SYLLABLE_PRIORITY};
use hanzi_deck::sources::{get_hsks, AudioPath, CedictEntry, Dong, HskEntry};
use hanzi_deck::utils::{base91_encode, guid_for, guids_unique, is_good_cjk};

fn py(s: &str) -> Pinyin {
    Pinyin::from_normalized(s.to_string())
}

#[test]
fn good_cjk_blocks() {
    assert!(is_good_cjk('中'));
    assert!(is_good_cjk('㐀'));
    assert!(is_good_cjk('⺀'));
    assert!(!is_good_cjk('a'));
    assert!(!is_good_cjk('。'));
    assert!(!is_good_cjk('ア'));
}

#[test]
fn base91_digits() {
    assert_eq!(base91_encode(0), "");
    assert_eq!(base91_encode(1), "b");
    assert_eq!(base91_encode(90), "~");
    assert_eq!(base91_encode(91), "ba");
    assert_eq!(base91_encode(91 * 91 + 2), "bac");
}

#[test]
fn guid_depends_on_identity() {
    let a = guid_for(&EntryId::Word("中".to_string()));
    let b = guid_for(&EntryId::Word("中".to_string()));
    let c = guid_for(&EntryId::Syllable("中".to_string()));
    assert_eq!(a, b);
    assert_ne!(a, c);
    assert!(!a.is_empty());
}

#[test]
fn priorities_in_fixed_point() {
    assert_eq!(level_score(None), 0);
    assert_eq!(level_score(Some(1)), 900_000);
    assert_eq!(word_priority(Some(1), PRIORITY_ONE), 950_000);
    assert_eq!(word_priority(None, 0), 0);
    assert_eq!(word_priority(Some(4), 500_000), 550_000);
    // sub-level 0: 0.5 * ls + 0.5 * ls
    assert_eq!(grammar_priority(Some(2), Some(0)), 800_000);
    // absent sub-level counts as last
    assert_eq!(grammar_priority(Some(2), None), 400_000);
    assert_eq!(grammar_priority(Some(2), Some(500_000)), 600_000);
    let s = CommonEntry::SyllableEntry(SyllableEntry { id: py("a"), audio_file: String::new() });
    assert_eq!(s.priority(0), SYLLABLE_PRIORITY);
    let t = || Triplet { zh: String::new(), en: String::new(), py: py("") };
    let g = CommonEntry::GrammarEntry(GrammarEntry {
        id: "7".to_string(),
        structure: t(),
        example: t(),
        hsk_lev: Some(1),
        hsk_sublev: Some(1_000_000),
    });
    assert_eq!(g.priority(0), 450_000);
}

#[test]
fn hsk_lists_take_their_level() {
    let e = |zh: &str| HskEntry {
        tr: zh.to_string(),
        zh: zh.to_string(),
        pinyin: py("x"),
        def: String::new(),
        level: None,
    };
    let lists = vec![vec![e("爱"), e("八")], vec![], vec![e("吧")]];
    let r = get_hsks(&lists);
    assert_eq!(r.len(), 3);
    let levels: Vec<Option<u8>> = r
        .iter()
        .map(|c| match c {
            CommonEntry::WordEntry(w) => w.hsk_lev,
            _ => None,
        })
        .collect();
    assert_eq!(levels, vec![Some(1), Some(1), Some(3)]);
}

#[test]
fn audio_and_dictionary_candidates() {
    let w = AudioPath { id: "你".to_string(), path: "cmn-你.mp3".to_string() }.to_word_entry();
    assert_eq!(w.audio_file, Some("cmn-你.mp3".to_string()));
    assert_eq!(w.writing.len(), 1);
    let c = CedictEntry {
        simplified: "中国".to_string(),
        traditional: "中國".to_string(),
        pinyin: "Zhong1 guo2".to_string(),
        definitions: vec!["China".to_string()],
    };
    let cap = hanzi_deck::entry::CapPinyin { py: "zhōng guó".to_string(), cap: true };
    let w: WordEntry = c.to_word_entry(py("zhōng guó"), cap);
    assert_eq!(w.traditional, Some("中國".to_string()));
    assert_eq!(w.definitions.len(), 1);
    assert!(w.definitions[0].pinyin.as_ref().unwrap().is_capitalized());
    assert_eq!(w.writing.len(), 2);
}

#[test]
fn dong_gloss_cleanup() {
    let d = Dong { gloss: Some("to love (v); affection".to_string()), original_meaning: Some("  first  ".to_string()) };
    assert_eq!(d.get_gloss(), Some("to love ; affection".to_string()));
    assert_eq!(d.get_glosses(), vec!["to love".to_string(), "affection".to_string()]);
    assert_eq!(d.get_original(), Some("first".to_string()));
    let e = Dong { gloss: Some("(old) variant,".to_string()), original_meaning: Some("  ".to_string()) };
    assert_eq!(e.get_gloss(), Some("variant".to_string()));
    assert_eq!(e.get_original(), None);
    let f = Dong { gloss: Some("(x)".to_string()), original_meaning: None };
    assert_eq!(f.get_gloss(), None);
    assert!(f.get_glosses().is_empty());
}

#[test]
fn word_total_priority() {
    let mut w = WordEntry::from_id("好".to_string());
    w.hsk_lev = Some(1);
    assert_eq!(w.total_priority(PRIORITY_ONE), 950_000);
    w.hsk_lev = None;
    assert_eq!(w.total_priority(500_000), 250_000);
}

#[test]
fn guid_collisions_detected() {
    let a = EntryId::Word("中".to_string());
    let b = EntryId::Word("国".to_string());
    assert!(guids_unique(&vec![a.clone(), b.clone()]));
    assert!(!guids_unique(&vec![a.clone(), b, a]));
    assert!(guids_unique(&vec![]));
}
