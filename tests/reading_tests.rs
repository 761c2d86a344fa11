use hanzi_deck::reading::{
    finish_reading, is_tone_marked, prepare_hanzi_reading, prepare_reading, reading_words,
};

/// What the syllable parser makes of one word; only words with a tone mark
/// are given to it.
fn syllables(word: &str) -> Option<Vec<String>> {
    if !is_tone_marked(word) {
        return None;
    }
    Some(
        pinyin_parser::PinyinParser::new()
            .preserve_spaces(true)
            .preserve_punctuations(true)
            .with_strictness(pinyin_parser::Strictness::Loose)
            .preserve_miscellaneous(true)
            .parse(word)
            .collect(),
    )
}

fn test_pyfrom(a: &str, b: &str) {
    let prepared = prepare_reading(a);
    let words = reading_words(&prepared);
    let parsed: Vec<Option<Vec<String>>> = words.iter().map(|w| syllables(w)).collect();
    assert_eq!(finish_reading(&words, &parsed).as_str(), b);
}

#[test]
fn py() {
    test_pyfrom("wo3bu2zhi1dao english", "wǒ bú zhī dao english");
    test_pyfrom("wo3bu2zhi1dao5 english", "wǒ bú zhī dao english");
    test_pyfrom("wo3 bu2 zhi1 dao english", "wǒ bú zhī dao english");
    test_pyfrom("wǒ bú zhī dao english", "wǒ bú zhī dao english");
    test_pyfrom("wǒbúzhīdao english", "wǒ bú zhī dao english");
}

#[test]
fn prepare_spaces_tone_numbers() {
    assert_eq!(prepare_reading("  ni3hao3  "), "nǐ hǎo");
    assert_eq!(prepare_reading("ma"), "ma");
}

#[test]
fn words_split_on_spaces() {
    assert_eq!(reading_words("a  b"), vec!["a".to_string(), String::new(), "b".to_string()]);
    assert_eq!(reading_words(""), vec![String::new()]);
}

#[test]
fn finish_keeps_unparsed_words() {
    let words = vec!["nihao".to_string(), "xyz".to_string()];
    let parsed = vec![Some(vec!["ni".to_string(), " ".to_string(), "hao ".to_string()]), None];
    assert_eq!(finish_reading(&words, &parsed).as_str(), "ni hao xyz");
}

#[test]
fn tone_marks_detected() {
    assert!(is_tone_marked("wǒbú"));
    assert!(!is_tone_marked("english"));
    assert!(!is_tone_marked("dao"));
}

#[test]
fn toned_reading_of_characters() {
    assert_eq!(prepare_hanzi_reading("你好"), "nǐhǎo");
    assert_eq!(prepare_hanzi_reading("a你"), "nǐ");
}
