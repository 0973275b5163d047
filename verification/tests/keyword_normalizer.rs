//! Tests of turning text into keywords.

use ramaria_memory::keyword::normalizer::{
    dedup_to_strings, is_cjk, BigramNormalizer, BigramWithDictionaryNormalizer,
    CommaSeparatedNormalizer, KeywordNormalizer,
};
use ramaria_memory::keyword::token::{KeywordSet, KeywordToken};

fn strs(tokens: Vec<KeywordToken>) -> Vec<String> {
    tokens.into_iter().map(|t| t.into_inner()).collect()
}

#[test]
fn comma_basic() {
    let n = CommaSeparatedNormalizer;
    let out = strs(n.normalize("工作压力, 职场焦虑，WORK , 工作压力"));
    assert_eq!(out, vec!["工作压力", "职场焦虑", "work"]);
}

#[test]
fn comma_invalid_inputs() {
    let n = CommaSeparatedNormalizer;
    assert!(n.normalize("").is_empty());
    assert!(n.normalize("   ").is_empty());
    assert!(n.normalize("，, ，，").is_empty());
    assert!(n.normalize("！！！").is_empty());
}

#[test]
fn comma_single_items() {
    let n = CommaSeparatedNormalizer;
    assert_eq!(strs(n.normalize("家")), vec!["家"]);
    assert_eq!(strs(n.normalize("996")), vec!["996"]);
    assert_eq!(strs(n.normalize("ChatGPT")), vec!["chatgpt"]);
}

#[test]
fn comma_dedup_case_insensitive() {
    let n = CommaSeparatedNormalizer;
    let out = strs(n.normalize("AI, ai, Ai"));
    assert_eq!(out, vec!["ai"]);
}

#[test]
fn bigram_basic() {
    let n = BigramNormalizer;
    let out = strs(n.normalize("机器学习"));
    assert_eq!(out, vec!["机器", "器学", "学习"]);

    let out = strs(n.normalize("Machine Learning"));
    assert_eq!(out, vec!["machine", "learning"]);

    let out = strs(n.normalize("我在学Rust和Python"));
    assert!(out.contains(&"rust".to_string()));
    assert!(out.contains(&"python".to_string()));
    assert!(out.iter().any(|t| t == "我在" || t == "在学"));

    assert!(n.normalize("").is_empty());
    assert!(n.normalize("我").is_empty());
    assert!(n.normalize("！？。").is_empty());
    assert!(n.normalize("a b c").is_empty());
}

#[test]
fn bigram_keeps_duplicates() {
    let n = BigramNormalizer;
    let out = strs(n.normalize("天气天气"));
    assert_eq!(out, vec!["天气", "气天", "天气"]);
}

#[test]
fn dict_word_kept_whole() {
    let n = BigramWithDictionaryNormalizer::from_dictionary(&["工作压力".to_string()]);
    let out = strs(n.normalize("工作压力很大"));
    assert!(out.contains(&"工作压力".to_string()));
    assert!(
        !out.contains(&"作压".to_string()),
        "词典命中后不应产生跨词噪声 bigram"
    );
    assert!(out.contains(&"很大".to_string()));
}

#[test]
fn dict_empty_falls_back_to_bigram() {
    let n = BigramWithDictionaryNormalizer::from_dictionary(&[]);
    assert!(n.is_empty());
    let plain = BigramNormalizer;
    let a = strs(n.normalize("机器学习"));
    let b = strs(plain.normalize("机器学习"));
    assert_eq!(a, b);
}

#[test]
fn dict_longest_match_wins() {
    let n = BigramWithDictionaryNormalizer::from_dictionary(&[
        "工作".to_string(),
        "工作压力".to_string(),
        "压力".to_string(),
    ]);
    let out = strs(n.normalize("工作压力"));
    assert_eq!(out, vec!["工作压力"]);
}

#[test]
fn dict_alpha_unchanged() {
    let n = BigramWithDictionaryNormalizer::from_dictionary(&["rust".to_string()]);
    assert!(n.is_empty());
    let out = strs(n.normalize("使用Rust开发"));
    assert!(out.contains(&"rust".to_string()));
    assert!(out.contains(&"使用".to_string()));
    assert!(out.contains(&"开发".to_string()));
}

#[test]
fn dict_ignores_single_char() {
    let n = BigramWithDictionaryNormalizer::from_dictionary(&[
        "家".to_string(),
        "工作".to_string(),
    ]);
    assert_eq!(n.max_word_len(), 2);
    let out = strs(n.normalize("回家工作"));
    assert!(out.contains(&"工作".to_string()));
    assert!(out.contains(&"回家".to_string()));
}

#[test]
fn dict_construction_cleans_input() {
    let n = BigramWithDictionaryNormalizer::from_dictionary(&[
        "  Work Stress ".to_string(),
        "".to_string(),
        "！".to_string(),
        "学习 工作".to_string(),
    ]);
    assert!(n.is_empty(), "上述词条（含空格/标点/非纯 CJK）均不应入典");
    let out = strs(n.normalize("work stress"));
    assert_eq!(out, vec!["work", "stress"]);
}

#[test]
fn dedup_to_strings_keeps_order() {
    let n = CommaSeparatedNormalizer;
    let tokens = n.normalize("b, a, b, c");
    let out = dedup_to_strings(tokens);
    assert_eq!(out, vec!["b", "a", "c"]);
}

#[test]
fn ideographs_are_told_apart() {
    assert!(is_cjk('中'));
    assert!(is_cjk('\u{3400}'));
    assert!(!is_cjk('a'));
    assert!(!is_cjk('，'));
}

#[test]
fn tokens_are_normal_and_blank_ones_refused() {
    assert!(KeywordToken::new("  ").is_none());
    let t = KeywordToken::new("  Rust ").unwrap();
    assert_eq!(t.as_str(), "rust");
    assert_eq!(KeywordToken::new(t.as_str()).unwrap(), t);
}

#[test]
fn sets_hold_each_token_once() {
    let mut s = KeywordSet::new();
    assert!(s.is_empty());
    assert!(s.insert(KeywordToken::new("甲").unwrap()));
    assert!(!s.insert(KeywordToken::new("甲").unwrap()));
    assert_eq!(s.len(), 1);
    assert!(s.contains(&KeywordToken::new("甲").unwrap()));
}

#[test]
fn a_copied_dictionary_keeps_its_words() {
    let n = BigramWithDictionaryNormalizer::from_dictionary(&["工作压力".to_string()]);
    let copied = n.clone();
    assert_eq!(copied.max_word_len(), 4);
    assert!(!copied.is_empty());
    assert!(BigramWithDictionaryNormalizer::default().is_empty());
}
