//! Tests of searching in steps.

use ramaria_memory::binary64::Real;
use ramaria_memory::keyword::composite::{
    CompositeIndex, CompositeIndexConfig, FuzzyError, FuzzyKeywordIndex,
};
use ramaria_memory::keyword::index::{
    KeywordQuery, KeywordRef, MatchStrategy, ScoringStrategy,
};
use ramaria_memory::keyword::token::{KeywordSet, KeywordToken};

const NOW_MS: i64 = 2_000_000_000_000;

fn as_real(x: f64) -> Real {
    Real { bits: x.to_bits() }
}

/// Counts the keywords that a document matches.
struct Hits;

impl ScoringStrategy for Hits {
    fn score(
        &self,
        _doc_count: usize,
        frequencies: &Vec<usize>,
        _salience: Real,
        _created_at: i64,
        _now_ms: i64,
    ) -> Real {
        as_real(frequencies.len() as f64)
    }
}

fn l1_ref(id: u128, persona: &str) -> KeywordRef {
    KeywordRef::L1 {
        id,
        persona_uid: persona.to_string(),
    }
}

fn tokens(list: &[&str]) -> Vec<KeywordToken> {
    list.iter().filter_map(|s| KeywordToken::new(s)).collect()
}

fn query_for(keywords: &[&str], persona: &str, top_k: usize) -> KeywordQuery {
    KeywordQuery {
        keywords: KeywordSet::from_tokens(tokens(keywords)),
        persona_uid: Some(persona.to_string()),
        top_k,
        strategy: MatchStrategy::Exact,
    }
}

fn vector(text: &str) -> Vec<f32> {
    match text {
        "工作压力" => vec![1.0, 0.0, 0.0, 0.0],
        "职场焦虑" => vec![1.0, 1.0, 0.0, 0.0],
        "加班" => vec![0.0, 0.0, 1.0, 0.0],
        _ => vec![0.0, 0.0, 0.0, 1.0],
    }
}

fn bits(v: &[f32]) -> Vec<u32> {
    v.iter().map(|x| x.to_bits()).collect()
}

fn cosine(a: &[f32], b: &[u32]) -> f64 {
    let mut dot = 0.0;
    let mut na = 0.0;
    let mut nb = 0.0;
    for (x, y) in a.iter().zip(b) {
        let x = *x as f64;
        let y = f32::from_bits(*y) as f64;
        dot += x * y;
        na += x * x;
        nb += y * y;
    }
    if na == 0.0 || nb == 0.0 {
        return 0.0;
    }
    dot / (na.sqrt() * nb.sqrt())
}

fn build(list: &[&str]) -> FuzzyKeywordIndex {
    let terms = tokens(list);
    let texts = FuzzyKeywordIndex::texts_to_embed(&terms).unwrap();
    let vectors = texts.iter().map(|t| bits(&vector(t))).collect();
    FuzzyKeywordIndex::build(terms, vectors).unwrap()
}

fn similarities(fuzzy: &FuzzyKeywordIndex, word: &str) -> Vec<Real> {
    let own = vector(word);
    fuzzy
        .vector_list()
        .iter()
        .map(|v| as_real(cosine(&own, v)))
        .collect()
}

fn expand(fuzzy: &FuzzyKeywordIndex, word: &str, top_k: usize) -> Vec<KeywordToken> {
    let sims = similarities(fuzzy, word);
    let found = fuzzy.expand(&KeywordToken::new(word).unwrap(), &sims, top_k);
    found.into_iter().map(|(t, _)| t).collect()
}

fn search(
    composite: &CompositeIndex,
    query: &KeywordQuery,
    embedder: bool,
) -> Vec<(KeywordRef, Real)> {
    let sims: Option<Vec<Option<Vec<Real>>>> = match composite.fuzzy() {
        Some(fuzzy) if embedder => Some(
            query
                .keywords
                .tokens()
                .iter()
                .map(|t| Some(similarities(fuzzy, t.as_str())))
                .collect(),
        ),
        _ => None,
    };
    composite.query(query, sims.as_ref(), NOW_MS, &Hits)
}

fn semantic_sample() -> CompositeIndex {
    let mut composite = CompositeIndex::new(CompositeIndexConfig::default());
    composite.index_parsed(
        l1_ref(1, "user-0001"),
        Some("工作压力, 加班"),
        as_real(0.8),
        NOW_MS - 86_400_000,
    );
    composite.index_parsed(
        l1_ref(2, "user-0001"),
        Some("职场焦虑, 内耗"),
        as_real(0.7),
        NOW_MS - 86_400_000,
    );
    composite
}

#[test]
fn composite_index_ops() {
    let mut composite = CompositeIndex::new(CompositeIndexConfig::default());
    assert_eq!(composite.doc_count(), 0);
    let reff = l1_ref(5, "p1");
    composite.index_parsed(reff.clone(), Some("爬山"), as_real(0.5), NOW_MS);
    assert_eq!(composite.doc_count(), 1);
    assert!(composite.remove(&reff));
    assert_eq!(composite.doc_count(), 0);
}

#[test]
fn exact_sufficient_no_fallback() {
    let composite = semantic_sample();
    let results = search(&composite, &query_for(&["工作压力"], "user-0001", 5), false);
    assert_eq!(results.len(), 1);
    assert_eq!(results[0].0.persona_uid(), Some("user-0001"));
}

#[test]
fn substring_fallback_when_exact_insufficient() {
    let mut composite = CompositeIndex::new(CompositeIndexConfig::default());
    composite.index_parsed(
        l1_ref(1, "p1"),
        Some("工作压力"),
        as_real(0.5),
        NOW_MS - 86_400_000,
    );
    let results = search(&composite, &query_for(&["工作"], "p1", 5), false);
    assert_eq!(results.len(), 1, "子串回退应补足结果");
}

#[test]
fn substring_fallback_disabled() {
    let mut composite = CompositeIndex::new(CompositeIndexConfig {
        enable_substring_fallback: false,
        ..Default::default()
    });
    composite.index_parsed(
        l1_ref(1, "p1"),
        Some("工作压力"),
        as_real(0.5),
        NOW_MS - 86_400_000,
    );
    let results = search(&composite, &query_for(&["工作"], "p1", 5), false);
    assert!(results.is_empty(), "关闭子串回退后不应命中");
}

#[test]
fn semantic_expansion_finds_related_doc() {
    let mut composite = semantic_sample();
    composite.set_fuzzy(Some(build(&["工作压力", "职场焦虑", "加班", "内耗"])));
    let results = search(&composite, &query_for(&["工作压力"], "user-0001", 5), true);
    assert_eq!(results.len(), 2, "应包含精确 + 语义两篇文档");
    assert_eq!(results[0].0, l1_ref(1, "user-0001"));
    assert_eq!(results[1].0, l1_ref(2, "user-0001"));
}

#[test]
fn semantic_layer_not_ready_degrades() {
    let composite = semantic_sample();
    let results = search(&composite, &query_for(&["工作压力"], "user-0001", 5), true);
    assert_eq!(results.len(), 1);
}

#[test]
fn later_steps_do_not_exceed_what_is_asked_for() {
    let mut composite = semantic_sample();
    composite.set_fuzzy(Some(build(&["工作压力", "职场焦虑"])));
    let query = query_for(&["工作压力"], "user-0001", 1);
    assert!(!composite.wants_expansion(&query, 1, true));
    assert_eq!(search(&composite, &query, true).len(), 1);
}

#[test]
fn fuzzy_build_success() {
    let fuzzy = build(&["工作压力", "职场焦虑"]);
    assert!(fuzzy.is_ready());
    assert_eq!(fuzzy.len(), 2);
    assert_eq!(fuzzy.dim(), 4);
}

#[test]
fn fuzzy_build_empty_terms_err() {
    let result = FuzzyKeywordIndex::texts_to_embed(&Vec::new());
    assert!(matches!(result, Err(FuzzyError::EmptyDictionary)));
    let result = FuzzyKeywordIndex::build(Vec::new(), Vec::new());
    assert!(matches!(result, Err(FuzzyError::EmptyDictionary)));
}

#[test]
fn fuzzy_build_bad_vectors_err() {
    let result = FuzzyKeywordIndex::build(tokens(&["甲", "乙"]), vec![vec![0]]);
    assert!(matches!(
        result,
        Err(FuzzyError::CountMismatch {
            got: 1,
            expected: 2
        })
    ));
    let result = FuzzyKeywordIndex::build(tokens(&["甲", "乙"]), vec![vec![0, 1], vec![0]]);
    match result {
        Err(e) => {
            assert!(matches!(e, FuzzyError::BadDimension { dim: 2 }));
            assert!(e.message().contains('2'));
        }
        Ok(_) => panic!("the vectors differ in length"),
    }
}

#[test]
fn fuzzy_expand_skips_self() {
    let fuzzy = build(&["工作压力"]);
    assert!(
        expand(&fuzzy, "工作压力", 3).is_empty(),
        "自身不参与扩展"
    );
}

#[test]
fn fuzzy_expand_keeps_the_most_similar() {
    let fuzzy = FuzzyKeywordIndex::build(
        tokens(&["甲", "乙", "丙", "丁"]),
        vec![vec![0], vec![0], vec![0], vec![0]],
    )
    .unwrap();
    let sims = vec![as_real(0.75), as_real(0.9), as_real(0.69), as_real(0.75)];
    let query = KeywordToken::new("词").unwrap();
    let found = fuzzy.expand(&query, &sims, 10);
    let names: Vec<&str> = found.iter().map(|(t, _)| t.as_str()).collect();
    assert_eq!(names, vec!["乙", "丁", "甲"]);
    assert_eq!(fuzzy.expand(&query, &sims, 1).len(), 1);
    assert!(fuzzy.expand(&query, &sims, 0).is_empty());
}

/// 查询词 embed 失败 → 返回空扩展（不 panic）
#[test]
fn fuzzy_expand_embed_error_empty() {
    let fuzzy = build(&["工作压力"]);
    let _ = expand(&fuzzy, "不存在词", 3);
    let mut composite = semantic_sample();
    composite.set_fuzzy(Some(build(&["工作压力", "职场焦虑"])));
    let query = query_for(&["工作压力"], "user-0001", 5);
    let unknown: Vec<Option<Vec<Real>>> = vec![None];
    assert!(composite.related_keywords(&query, &unknown).is_empty());
    assert_eq!(composite.query(&query, Some(&unknown), NOW_MS, &Hits).len(), 1);
}

#[test]
fn later_steps_come_after_earlier_ones() {
    let mut composite = semantic_sample();
    composite.set_fuzzy(Some(build(&["工作压力", "职场焦虑"])));
    let query = query_for(&["工作压力"], "user-0001", 5);
    let found = composite.literal_query(&query, NOW_MS, &Hits);
    assert_eq!(found.len(), 1);
    assert!(composite.wants_expansion(&query, found.len(), true));
    assert!(!composite.wants_expansion(&query, found.len(), false));
    assert!(!composite.wants_expansion(&query, 5, true));
    let sims = vec![Some(similarities(composite.fuzzy().unwrap(), "工作压力"))];
    let more = composite.expanded_query(&query, found, &sims, NOW_MS, &Hits);
    assert_eq!(more.len(), 2);
    assert!(more[0].0.same(&l1_ref(1, "user-0001")));
    assert!(more[1].0.same(&l1_ref(2, "user-0001")));
}
