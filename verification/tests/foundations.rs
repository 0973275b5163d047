//! Tests of texts, identifiers, numbers, orders and maps.

use ramaria_memory::binary64::{clamp_unit, Real};
use ramaria_memory::ids::new_request_id;
use ramaria_memory::keyword::normalizer::{BigramNormalizer, KeywordNormalizer};
use ramaria_memory::order::stable_order;
use ramaria_memory::text::{
    chars_of, decimal_chars, is_whitespace, lines_of, replace_text, signed_chars, string_of,
    text_before, trim_text, truncate_chars, truncate_chars_bare,
};
use ramaria_memory::text_map::TextMap;
use ramaria_memory::utils::{extract_first_json_object, strip_thinking};

fn as_real(x: f64) -> Real {
    Real { bits: x.to_bits() }
}

#[test]
fn white_space_is_that_of_the_language() {
    for code in 0..=0x10ffffu32 {
        if let Some(c) = char::from_u32(code) {
            assert_eq!(is_whitespace(c), c.is_whitespace(), "{code:x}");
        }
    }
}

#[test]
fn trimming_lines_and_replacing_are_those_of_the_language() {
    for s in ["", "  ", " a b ", "\u{3000}工作\t\n", "x"] {
        assert_eq!(trim_text(s), s.trim());
    }
    for s in ["", "a", "a\n", "a\nb", "a\r\n\nb\r", "\n", "\r\n\r\n"] {
        let lines: Vec<String> = lines_of(s).iter().map(|v| string_of(v)).collect();
        let expected: Vec<&str> = s.lines().collect();
        assert_eq!(lines, expected, "{s:?}");
    }
    for (s, from, to) in [("aXbX", "X", "yX"), ("aaa", "aa", "b"), ("abc", "d", "e")] {
        assert_eq!(replace_text(s, from, to), s.replace(from, to));
    }
}

#[test]
fn texts_are_ordered_as_in_the_language() {
    let list = ["", "a", "ab", "b", "工作", "工作压力", "社交", "\u{10000}", "\u{ffff}"];
    for a in list {
        for b in list {
            assert_eq!(text_before(a, b), a < b, "{a} {b}");
        }
    }
}

#[test]
fn numbers_are_spelled_in_decimal() {
    for n in [0u64, 7, 10, 1234567890, u64::MAX] {
        assert_eq!(string_of(&decimal_chars(n)), n.to_string());
    }
    for n in [0i64, -1, 42, i64::MIN, i64::MAX] {
        assert_eq!(string_of(&signed_chars(n)), n.to_string());
    }
}

#[test]
fn shortening_counts_the_ellipsis() {
    assert_eq!(truncate_chars("一二三", 3), "一二三");
    assert_eq!(truncate_chars("一二三四", 3), "一二…");
    assert_eq!(truncate_chars("一二", 1), "…");
    assert_eq!(truncate_chars("一二", 0), "");
    assert_eq!(truncate_chars_bare("一二三", 2), "一二");
    assert_eq!(truncate_chars_bare("一", 2), "一");
}

#[test]
fn characters_go_there_and_back() {
    let s = "a工\u{1F600}";
    assert_eq!(string_of(&chars_of(s)), s);
}

#[test]
fn letters_and_digits_end_at_other_characters() {
    let n = BigramNormalizer;
    let found: Vec<String> = n
        .normalize("ab1-cd é1")
        .into_iter()
        .map(|t| t.into_inner())
        .collect();
    assert!(found.contains(&"ab1".to_string()));
    assert!(found.contains(&"cd".to_string()));
}

#[test]
fn requests_get_random_numbers() {
    let a = new_request_id();
    let b = new_request_id();
    assert_ne!(a, b);
    let id = uuid::Uuid::from_u128(a);
    assert_eq!(id.get_version_num(), 4);
    assert_eq!(id.get_variant(), uuid::Variant::RFC4122);
}

#[test]
fn numbers_compare_as_in_the_language() {
    let list = [
        0.0,
        -0.0,
        1.0,
        -1.0,
        0.45,
        f64::MIN_POSITIVE,
        f64::INFINITY,
        f64::NEG_INFINITY,
        f64::NAN,
        -f64::NAN,
    ];
    for a in list {
        assert_eq!(as_real(a).is_nan(), a.is_nan());
        for b in list {
            assert_eq!(as_real(a).is_less(&as_real(b)), a < b, "{a} {b}");
            assert_eq!(as_real(a).is_at_most(&as_real(b)), a <= b, "{a} {b}");
        }
    }
    assert_eq!(clamp_unit(as_real(-0.5)), as_real(0.0));
    assert_eq!(clamp_unit(as_real(7.0)), as_real(1.0));
    assert_eq!(clamp_unit(as_real(0.3)), as_real(0.3));
}

#[test]
fn records_keep_their_order_where_keys_are_equal() {
    let keys: Vec<Vec<i128>> = vec![vec![2], vec![1, 5], vec![2], vec![1], vec![]];
    assert_eq!(stable_order(&keys), vec![4, 3, 1, 0, 2]);
}

#[test]
fn maps_hold_the_last_value() {
    let mut m: TextMap<u32> = TextMap::new();
    m.insert("a".to_string(), 1);
    m.insert("b".to_string(), 2);
    m.insert("a".to_string(), 3);
    assert_eq!(m.len(), 2);
    assert_eq!(m.get("a"), Some(&3));
    assert!(m.remove("a"));
    assert!(!m.remove("a"));
    assert!(!m.contains_key("a"));
    assert_eq!(m.get("b"), Some(&2));
}

#[test]
fn thinking_is_stripped() {
    assert_eq!(strip_thinking(" 你好 "), "你好");
    assert_eq!(strip_thinking("<think>a</think>b<think>c</think>d"), "bd");
    assert_eq!(strip_thinking("<think>a"), "<think>a");
}

#[test]
fn the_first_object_is_found() {
    assert_eq!(
        extract_first_json_object("x {\"a\": {\"b\": \"}\\\"}\"}} y {}").as_deref(),
        Some("{\"a\": {\"b\": \"}\\\"}\"}}")
    );
    assert_eq!(extract_first_json_object("{ open"), None);
    assert_eq!(extract_first_json_object("none"), None);
}
