use hanzi_deck::entry::{CommonEntry, WordEntry};
use hanzi_deck::examples::{
    add_examples, best_examples, example_score, length_bonus, qualifying_count, select_corpus,
    Example, TatoebaRecord, WordIndex, LB_ONE, LB_STEP,
};
use hanzi_deck::outside::Segmenter;
use hanzi_deck::priority::PRIORITY_ONE;

fn word(id: &str) -> CommonEntry {
    CommonEntry::WordEntry(WordEntry::from_id(id.to_string()))
}

fn example(zh: &str, tokens: &[&str]) -> Example {
    Example {
        tokens: tokens.iter().map(|t| t.to_string()).collect(),
        zh: zh.to_string(),
        en: String::new(),
    }
}

#[test]
fn length_bonus_band_edges() {
    assert_eq!(length_bonus(7), LB_ONE);
    assert_eq!(length_bonus(14), LB_ONE);
    assert_eq!(length_bonus(10), LB_ONE);
    assert!(length_bonus(6) < length_bonus(7));
    assert_eq!(length_bonus(6), 6 * LB_STEP);
    assert_eq!(length_bonus(0), 0);
    assert_eq!(length_bonus(15), LB_ONE / 2);
    assert_eq!(length_bonus(16), LB_ONE / 4);
    assert_eq!(length_bonus(200), 0);
}

#[test]
fn qualifying_count_skips_other_characters() {
    assert_eq!(qualifying_count("我爱你!abc"), 3);
    assert_eq!(qualifying_count(""), 0);
}

#[test]
fn taught_tokens_add_flat_bonus() {
    // one sentence of qualifying length 10 holding the target as a token; every
    // other token is a word of lower priority that is already taught
    let entries = vec![word("我"), word("今天"), word("在"), word("学校"), word("中文"), word("学习")];
    let prio = vec![100_000u64, 200_000, 300_000, 400_000, 500_000, 600_000];
    let idx = WordIndex::build(&entries, &prio);
    let ex = example("我今天在学校学习中文", &["我", "今天", "在", "学校", "学习", "中文"]);
    assert_eq!(qualifying_count(&ex.zh), 10);
    let s = example_score(&ex, &"学习".to_string(), 5, 600_000, &idx);
    // 3 * 1.0 + 5 * 1 + 6 * 0.2
    let unit = LB_ONE as i128 * PRIORITY_ONE as i128;
    assert_eq!(s, 3 * unit + 5 * unit + 6 * (LB_ONE as i128) * (PRIORITY_ONE as i128 / 5));
}

#[test]
fn untaught_important_token_bonus() {
    // the target comes first; a later word of lower priority counts 4 * gap
    let entries = vec![word("学习"), word("中文")];
    let prio = vec![600_000u64, 500_000];
    let idx = WordIndex::build(&entries, &prio);
    let ex = example("学习中文", &["学习", "中文", "吧"]);
    let s = example_score(&ex, &"学习".to_string(), 0, 600_000, &idx);
    let lb = 4 * LB_STEP as i128;
    let p = PRIORITY_ONE as i128;
    let l = LB_ONE as i128;
    let useful = p / 5 + 4 * (500_000 - 600_000) + p / 5;
    assert_eq!(s, 3 * lb * p + 5 * l * p + useful * l);
}

#[test]
fn no_exact_token_no_token_bonus() {
    let entries = vec![word("学")];
    let prio = vec![100_000u64];
    let idx = WordIndex::build(&entries, &prio);
    let ex = example("学习", &["学习"]);
    let s = example_score(&ex, &"学".to_string(), 0, 100_000, &idx);
    let p = PRIORITY_ONE as i128;
    let l = LB_ONE as i128;
    assert_eq!(s, 3 * (2 * LB_STEP as i128) * p + (p / 5) * l);
}

#[test]
fn best_examples_keeps_top_three_once() {
    let entries = vec![word("好")];
    let prio = vec![100_000u64];
    let idx = WordIndex::build(&entries, &prio);
    let corpus = vec![
        example("好", &["好"]),
        example("好好好好好好好", &["好"]),
        example("你好", &["你", "好"]),
        example("不好吗", &["不", "好", "吗"]),
        example("很好", &["很", "好"]),
    ];
    let cands = vec![0usize, 1, 1, 2, 3, 4, 0];
    let r = best_examples(&cands, &corpus, &"好".to_string(), 0, 100_000, &idx);
    assert_eq!(r.len(), 3);
    assert_eq!(r[0], 1);
    let mut seen = r.clone();
    seen.sort();
    seen.dedup();
    assert_eq!(seen.len(), 3);
    let few = best_examples(&vec![2usize, 2], &corpus, &"好".to_string(), 0, 100_000, &idx);
    assert_eq!(few, vec![2]);
}

#[test]
fn add_examples_finds_sentences_with_the_word() {
    let seg = Segmenter::new();
    let corpus = vec![
        Example::new("我们在学校学习。".to_string(), "We study at school.".to_string(), &seg),
        Example::new("他喜欢喝茶".to_string(), "He likes tea.".to_string(), &seg),
        Example::new("学校很大".to_string(), "The school is big.".to_string(), &seg),
    ];
    let entries = vec![word("学校"), word("咖啡")];
    let prio = vec![500_000u64, 400_000];
    let r = add_examples(&entries, &prio, &corpus);
    assert_eq!(r.len(), 2);
    let mut found = r[0].clone();
    found.sort();
    assert_eq!(found, vec![0, 2]);
    assert!(r[1].is_empty());
}

#[test]
fn example_tokens_are_script_words() {
    let seg = Segmenter::new();
    let ex = Example::new("你好，world! 我爱你。".to_string(), String::new(), &seg);
    assert!(!ex.tokens.is_empty());
    for t in ex.tokens.iter() {
        assert!(!t.is_empty());
        assert!(t.chars().all(|c| hanzi_deck::utils::is_good_cjk(c)), "{:?}", t);
    }
    let joined: String = ex.tokens.concat();
    assert_eq!(joined, "你好我爱你");
}

#[test]
fn sentences_sharing_a_suffix_are_all_candidates() {
    let seg = Segmenter::new();
    let corpus = vec![
        Example::new("我喜欢学校".to_string(), String::new(), &seg),
        Example::new("他喜欢学校".to_string(), String::new(), &seg),
        Example::new("学校".to_string(), String::new(), &seg),
        Example::new("你喜欢学校".to_string(), String::new(), &seg),
    ];
    let entries = vec![word("学校")];
    let prio = vec![500_000u64];
    let r = add_examples(&entries, &prio, &corpus);
    assert_eq!(r[0].len(), 3);
    let mut seen = r[0].clone();
    seen.sort();
    seen.dedup();
    assert_eq!(seen.len(), 3);
}

#[test]
fn corpus_keeps_last_record_per_sentence() {
    let rec = |zh_id: u64, zh: &str, en: &str| TatoebaRecord {
        zh_id,
        zh: zh.to_string(),
        en_id: 0,
        en: en.to_string(),
    };
    let long = "长".repeat(27);
    let records = vec![
        rec(1, "你好", "hello"),
        rec(2, "谢谢", "thanks"),
        rec(1, "你好", "hi"),
        rec(3, &long, "too long"),
        rec(2, "谢谢", &"x".repeat(61)),
    ];
    // read from the end: 2 (last record too long, so sentence 2 is gone), 3 (too long), 1 (index 2)
    assert_eq!(select_corpus(&records), vec![2]);
}
