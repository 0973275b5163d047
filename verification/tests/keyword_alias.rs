//! Tests of other words for keywords.

use ramaria_memory::keyword::alias::{is_similar_keyword, levenshtein_distance, AliasManager};

fn counts(list: &[(&str, u32)]) -> Vec<(String, u32)> {
    list.iter().map(|(k, n)| (k.to_string(), *n)).collect()
}

#[test]
fn register_and_resolve_alias() {
    let mut mgr = AliasManager::new();
    mgr.register_alias("职场焦虑", 1, "工作压力").unwrap();
    let result = mgr.resolve_alias("职场焦虑");
    assert!(result.is_some());
    let (token, id) = result.unwrap();
    assert_eq!(token.as_str(), "工作压力");
    assert_eq!(id, 1);
}

#[test]
fn resolve_nonexistent_alias() {
    let mgr = AliasManager::new();
    assert!(mgr.resolve_alias("不存在的").is_none());
}

#[test]
fn cyclic_alias_rejected() {
    let mut mgr = AliasManager::new();
    let result = mgr.register_alias("工作压力", 1, "工作压力");
    assert!(result.is_err());
    let err = result.unwrap_err();
    assert!(err.contains("指向自身"));
    assert_eq!(mgr.alias_count(), 0);
}

#[test]
fn invalid_canonical_rejected() {
    let mut mgr = AliasManager::new();
    let result = mgr.register_alias("别名", 1, "");
    assert!(result.is_err());
}

#[test]
fn invalid_canonical_message() {
    let mut mgr = AliasManager::new();
    assert_eq!(
        mgr.register_alias("别名", 1, "  ").unwrap_err(),
        "规范词文本无效（空或纯空白）: '  '"
    );
    assert_eq!(
        mgr.register_alias("a", 1, "a").unwrap_err(),
        "别名不能指向自身: 'a' 与规范词相同"
    );
}

#[test]
fn overwrite_alias() {
    let mut mgr = AliasManager::new();
    mgr.register_alias("焦虑", 1, "工作压力").unwrap();
    mgr.register_alias("焦虑", 2, "职业倦怠").unwrap();
    let result = mgr.resolve_alias_text("焦虑");
    assert_eq!(result, Some("职业倦怠"));
}

#[test]
fn unregister_alias() {
    let mut mgr = AliasManager::new();
    mgr.register_alias("a", 1, "b").unwrap();
    assert!(mgr.is_alias("a"));
    assert!(mgr.unregister_alias("a"));
    assert!(!mgr.is_alias("a"));
    assert!(!mgr.unregister_alias("a"));
}

#[test]
fn canonical_id_lookup() {
    let mut mgr = AliasManager::new();
    mgr.register_alias("a1", 42, "规范词").unwrap();
    assert_eq!(mgr.canonical_id("规范词"), Some(42));
}

#[test]
fn canonical_id_is_kept_and_found_in_normal_form() {
    let mut mgr = AliasManager::new();
    mgr.register_alias("a1", 42, "Work").unwrap();
    mgr.register_alias("a2", 43, " work ").unwrap();
    assert_eq!(mgr.canonical_id(" WORK "), Some(42));
    assert_eq!(mgr.resolve_alias("a2").unwrap().1, 43);
    assert_eq!(mgr.canonical_count(), 1);
    assert_eq!(mgr.alias_count(), 2);
}

#[test]
fn nonexistent_canonical_id() {
    let mgr = AliasManager::new();
    assert!(mgr.canonical_id("不存在").is_none());
}

#[test]
fn load_use_counts() {
    let mut mgr = AliasManager::new();
    mgr.load_use_counts(counts(&[("工作压力", 15), ("职场焦虑", 8)]));
    assert_eq!(mgr.use_count("工作压力"), 15);
    assert_eq!(mgr.use_count("职场焦虑"), 8);
    assert_eq!(mgr.use_count("不存在的"), 0);
}

#[test]
fn empty_use_counts_no_suggestions() {
    let mgr = AliasManager::new();
    let suggestions = mgr.suggest_merges(3);
    assert!(suggestions.is_empty());
}

#[test]
fn low_use_no_suggestion() {
    let mut mgr = AliasManager::new();
    mgr.load_use_counts(counts(&[("a", 1), ("b", 2)]));
    let suggestions = mgr.suggest_merges(5);
    assert!(suggestions.is_empty());
}

#[test]
fn similar_keywords_get_suggestion() {
    let mut mgr = AliasManager::new();
    mgr.load_use_counts(counts(&[("工作压力", 20), ("工作负担", 10)]));
    let suggestions = mgr.suggest_merges(3);
    assert!(!suggestions.is_empty(), "相似关键词应产生合并建议");
    assert_eq!(suggestions[0].canonical_text, "工作压力");
}

#[test]
fn suggestion_is_spelled_out() {
    let mut mgr = AliasManager::new();
    mgr.load_use_counts(counts(&[("工作压力", 20), ("工作负担", 10)]));
    let suggestions = mgr.suggest_merges(3);
    assert_eq!(suggestions.len(), 1);
    assert_eq!(suggestions[0].alias_text, "工作负担");
    assert_eq!(suggestions[0].alias_use_count, 10);
    assert_eq!(suggestions[0].canonical_id, 0);
    assert_eq!(
        suggestions[0].reason,
        "'工作压力' (使用 20 次) 与 '工作负担' (使用 10 次) 相似，建议合并到 '工作压力'"
    );
}

#[test]
fn alias_higher_usage_suggests_reverse() {
    let mut mgr = AliasManager::new();
    mgr.register_alias("流行词", 1, "规范词").unwrap();
    mgr.load_use_counts(counts(&[("流行词", 50), ("规范词", 3)]));
    let suggestions = mgr.suggest_merges(3);
    assert!(!suggestions.is_empty());
    assert!(suggestions[0].reason.contains("使用量高于当前规范词"));
}

#[test]
fn clear_resets_state() {
    let mut mgr = AliasManager::new();
    mgr.register_alias("a", 1, "b").unwrap();
    mgr.load_use_counts(counts(&[("c", 5)]));
    mgr.clear();
    assert_eq!(mgr.alias_count(), 0);
    assert_eq!(mgr.canonical_count(), 0);
    assert_eq!(mgr.use_count("c"), 0);
}

#[test]
fn test_levenshtein_cases() {
    let cases = [
        ("abc", "abc", 0),
        ("abc", "abcd", 1),
        ("abcd", "abc", 1),
        ("abc", "abd", 1),
    ];
    for (a, b, expected) in cases {
        assert_eq!(levenshtein_distance(a, b), expected, "{a} vs {b}");
    }
}

#[test]
fn levenshtein_is_symmetric_and_bounded() {
    for (a, b) in [("kitten", "sitten"), ("工作压力", "工作"), ("", "ab"), ("flaw", "lawn")] {
        assert_eq!(levenshtein_distance(a, b), levenshtein_distance(b, a));
    }
    assert_eq!(levenshtein_distance("", "ab"), 2);
    assert_eq!(levenshtein_distance("flaw", "lawn"), 2);
}

#[test]
fn test_is_similar_cases() {
    let cases = [
        ("same", "same", false),
        ("工作压力", "工作焦虑", true),
        ("职场工作压力", "工作压力", true),
        ("abc", "xyz", false),
    ];
    for (a, b, expected) in cases {
        assert_eq!(is_similar_keyword(a, b), expected, "{a} vs {b}");
    }
}

#[test]
fn shared_latin_letters_are_no_shared_ideographs() {
    assert!(!is_similar_keyword("stone", "planet"));
}

#[test]
fn a_reversed_suggestion_is_spelled_out() {
    let mut mgr = AliasManager::new();
    mgr.register_alias("流行词", 1, "规范词").unwrap();
    mgr.load_use_counts(counts(&[("流行词", 50), ("规范词", 3)]));
    let suggestions = mgr.suggest_merges(3);
    assert_eq!(suggestions.len(), 1);
    assert_eq!(suggestions[0].canonical_text, "流行词");
    assert_eq!(suggestions[0].canonical_id, 1);
    assert_eq!(suggestions[0].alias_text, "规范词");
    assert_eq!(suggestions[0].alias_use_count, 3);
    assert_eq!(
        suggestions[0].reason,
        "别名 '流行词' (使用 50 次) 使用量高于当前规范词 '规范词' (3 次)，建议交换规范/别名角色"
    );
    assert_eq!(suggestions[0].clone(), suggestions[0]);
}

#[test]
fn similarity_goes_both_ways() {
    let cases = [
        ("好好甲乙丙", "好丁戊己庚", false),
        ("好好甲乙丙", "好好丁戊己", false),
        ("工作甲乙丙", "丁戊己作工", true),
        ("职场工作压力", "工作压力", true),
        ("abc", "abd", true),
        ("", "甲", true),
    ];
    for (a, b, expected) in cases {
        assert_eq!(is_similar_keyword(a, b), expected, "{a} vs {b}");
        assert_eq!(is_similar_keyword(b, a), expected, "{b} vs {a}");
        assert!(!is_similar_keyword(a, a));
    }
}

#[test]
fn a_detour_is_not_shorter() {
    let words = ["kitten", "sitting", "mitten", "", "工作压力"];
    for a in words {
        for b in words {
            for c in words {
                let direct = levenshtein_distance(a, c);
                assert!(direct <= levenshtein_distance(a, b) + levenshtein_distance(b, c));
            }
        }
    }
}
