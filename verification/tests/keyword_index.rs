//! Tests of the keyword index.

use ramaria_memory::binary64::Real;
use ramaria_memory::keyword::index::{
    keyword_ref_label, KeywordIndex, KeywordQuery, KeywordRef, MatchStrategy, ScoringStrategy,
};
use ramaria_memory::keyword::token::{KeywordSet, KeywordToken};

const NOW_MS: i64 = 2_000_000_000_000;

fn as_real(x: f64) -> Real {
    Real { bits: x.to_bits() }
}

/// Rare words, salient documents and new ones score high.
struct Scorer;

fn idf(n_docs: f64, df: f64) -> f64 {
    if df <= 0.0 {
        return 0.0;
    }
    ((n_docs - df + 0.5) / (df + 0.5) + 1.0).ln()
}

impl ScoringStrategy for Scorer {
    fn score(
        &self,
        doc_count: usize,
        frequencies: &Vec<usize>,
        salience: Real,
        created_at: i64,
        now_ms: i64,
    ) -> Real {
        let mut sum = 0.0;
        for df in frequencies {
            sum += idf(doc_count as f64, *df as f64);
        }
        if sum <= 0.0 {
            return as_real(0.0);
        }
        let age_days = (now_ms - created_at) as f64 / 86_400_000.0;
        let weight = 1.0 + 0.5 * f64::from_bits(salience.bits).clamp(0.0, 1.0);
        as_real(sum * weight * (-age_days.max(0.0) / 30.0).exp())
    }
}

fn l1_ref(id: u128, persona: &str) -> KeywordRef {
    KeywordRef::L1 {
        id,
        persona_uid: persona.to_string(),
    }
}

fn l2_ref(id: i64, persona: &str) -> KeywordRef {
    KeywordRef::L2 {
        id,
        persona_uid: persona.to_string(),
    }
}

fn q(
    keywords: &[&str],
    persona: Option<&str>,
    strategy: MatchStrategy,
    top_k: usize,
) -> KeywordQuery {
    KeywordQuery {
        keywords: KeywordSet::from_tokens(
            keywords.iter().filter_map(|s| KeywordToken::new(s)).collect(),
        ),
        persona_uid: persona.map(|s| s.to_string()),
        top_k,
        strategy,
    }
}

fn run(index: &KeywordIndex, query: &KeywordQuery) -> Vec<(KeywordRef, Real)> {
    index.query_with_scorer(query, NOW_MS, &Scorer)
}

fn sample_index() -> KeywordIndex {
    let mut index = KeywordIndex::new();
    index.index_parsed(
        l1_ref(101, "user-0001"),
        Some("工作压力, 加班, 失眠"),
        as_real(0.9),
        NOW_MS - 86_400_000,
    );
    index.index_parsed(
        l1_ref(102, "user-0001"),
        Some("运动, 爬山, 放松"),
        as_real(0.5),
        NOW_MS - 30 * 86_400_000,
    );
    index.index_parsed(
        l2_ref(1, "user-0002"),
        Some("工作压力, 职场"),
        as_real(0.7),
        NOW_MS - 86_400_000,
    );
    index
}

#[test]
fn empty_index_query_empty() {
    let index = KeywordIndex::new();
    assert_eq!(index.doc_count(), 0);
    assert!(index.is_empty());
    let results = run(&index, &q(&["工作"], None, MatchStrategy::Exact, 10));
    assert!(results.is_empty());
}

#[test]
fn exact_query_persona_filter() {
    let index = sample_index();
    let results = run(
        &index,
        &q(&["工作压力"], Some("user-0001"), MatchStrategy::Exact, 10),
    );
    assert_eq!(results.len(), 1);
    match &results[0].0 {
        KeywordRef::L1 { persona_uid, .. } => assert_eq!(persona_uid, "user-0001"),
        other => panic!("应为 L1 引用，得到 {other:?}"),
    }
}

#[test]
fn exact_query_global() {
    let index = sample_index();
    let results = run(&index, &q(&["工作压力"], None, MatchStrategy::Exact, 10));
    assert_eq!(results.len(), 2, "两个 persona 的文档都应命中");
}

#[test]
fn substring_query_hits_superstring() {
    let index = sample_index();
    let exact = run(
        &index,
        &q(&["工作"], Some("user-0001"), MatchStrategy::Exact, 10),
    );
    assert!(exact.is_empty(), "精确匹配不命中子串");
    let sub = run(
        &index,
        &q(&["工作"], Some("user-0001"), MatchStrategy::Substring, 10),
    );
    assert!(!sub.is_empty(), "子串应命中工作压力");
    assert_eq!(sub.len(), 1);
}

#[test]
fn substring_no_match_empty() {
    let index = sample_index();
    let results = run(
        &index,
        &q(&["不存在词xyz"], None, MatchStrategy::Substring, 10),
    );
    assert!(results.is_empty());
}

#[test]
fn recency_boosts_newer_doc() {
    let mut index = KeywordIndex::new();
    index.index_parsed(
        l1_ref(7, "p1"),
        Some("爬山"),
        as_real(0.5),
        NOW_MS - 60 * 86_400_000,
    );
    index.index_parsed(l1_ref(8, "p1"), Some("爬山"), as_real(0.5), NOW_MS - 86_400_000);
    let results = run(
        &index,
        &q(&["爬山"], Some("p1"), MatchStrategy::Exact, 10),
    );
    assert_eq!(results.len(), 2);
    assert_eq!(results[0].0, l1_ref(8, "p1"), "近期文档应排前");
}

#[test]
fn salience_boosts_higher_significance() {
    let mut index = KeywordIndex::new();
    index.index_parsed(l1_ref(7, "p1"), Some("爬山"), as_real(0.2), NOW_MS - 86_400_000);
    index.index_parsed(l1_ref(8, "p1"), Some("爬山"), as_real(0.9), NOW_MS - 86_400_000);
    let results = run(
        &index,
        &q(&["爬山"], Some("p1"), MatchStrategy::Exact, 10),
    );
    assert_eq!(results[0].0, l1_ref(8, "p1"), "高显著性命中应排前");
}

#[test]
fn idf_prefers_rare_term() {
    let mut index = KeywordIndex::new();
    index.index_parsed(l1_ref(1, "p1"), Some("量子"), as_real(0.5), NOW_MS - 86_400_000);
    for i in 0..9 {
        index.index_parsed(
            l1_ref(10 + i, "p1"),
            Some("工作"),
            as_real(0.5),
            NOW_MS - 86_400_000,
        );
    }
    let hits = index.candidates(&q(&["工作"], None, MatchStrategy::Exact, 20));
    let df_work = hits[0].frequencies[0];
    assert_eq!(df_work, 9);
    let n = index.doc_count() as f64;
    let idf_rare = idf(n, 1.0);
    let idf_common = idf(n, df_work as f64);
    assert!(idf_rare > idf_common, "稀有词 IDF 应更高");
}

#[test]
fn remove_doc() {
    let mut index = sample_index();
    let reff = l1_ref(55, "user-0001");
    index.index_parsed(reff.clone(), Some("独有词"), as_real(0.5), NOW_MS);
    assert_eq!(index.doc_count(), 4);
    assert!(index.remove(&reff));
    assert!(!index.remove(&reff), "重复移除返回 false");
    assert_eq!(index.doc_count(), 3);
    let results = run(&index, &q(&["独有词"], None, MatchStrategy::Exact, 10));
    assert!(results.is_empty());
}

#[test]
fn remove_doc_batch() {
    let mut index = sample_index();
    index.index_parsed(l1_ref(61, "p"), Some("甲"), as_real(0.5), NOW_MS);
    index.index_parsed(l1_ref(62, "p"), Some("乙"), as_real(0.5), NOW_MS);
    let removed = index.remove_doc_batch(&[61, 62], &[]);
    assert_eq!(removed, 2);
    assert!(run(&index, &q(&["甲"], None, MatchStrategy::Exact, 5)).is_empty());
}

#[test]
fn reindex_is_idempotent() {
    let mut index = KeywordIndex::new();
    let reff = l1_ref(9, "p1");
    index.index_parsed(reff.clone(), Some("旧词"), as_real(0.5), NOW_MS);
    assert_eq!(index.doc_count(), 1);
    index.index_parsed(reff.clone(), Some("新词"), as_real(0.9), NOW_MS);
    assert_eq!(index.doc_count(), 1, "重复 index 不累积文档");
    assert!(run(&index, &q(&["旧词"], None, MatchStrategy::Exact, 5)).is_empty());
    assert_eq!(
        run(&index, &q(&["新词"], None, MatchStrategy::Exact, 5)).len(),
        1
    );
}

#[test]
fn clear_resets() {
    let mut index = sample_index();
    index.clear();
    assert_eq!(index.doc_count(), 0);
    assert!(run(&index, &q(&["工作压力"], None, MatchStrategy::Exact, 5)).is_empty());
}

#[test]
fn top_k_truncates() {
    let mut index = KeywordIndex::new();
    for i in 0..5 {
        index.index_parsed(
            l1_ref(20 + i as u128, "p1"),
            Some("爬山"),
            as_real(0.5),
            NOW_MS - i * 86_400_000,
        );
    }
    let results = run(&index, &q(&["爬山"], Some("p1"), MatchStrategy::Exact, 3));
    assert_eq!(results.len(), 3);
}

#[test]
fn one_result_per_doc() {
    let mut index = KeywordIndex::new();
    index.index_parsed(
        l1_ref(9, "p1"),
        Some("工作压力, 加班"),
        as_real(0.5),
        NOW_MS - 86_400_000,
    );
    let results = run(
        &index,
        &q(&["工作压力", "加班"], Some("p1"), MatchStrategy::Exact, 5),
    );
    assert_eq!(results.len(), 1, "一篇文档只应出现在结果中一次");
}

#[test]
fn query_empty_keywords() {
    let index = sample_index();
    let empty = q(&[], None, MatchStrategy::Exact, 5);
    assert!(run(&index, &empty).is_empty());
}

#[test]
fn same_score_tiebreak_by_newest() {
    let mut index = KeywordIndex::new();
    let newer = l1_ref(4, "p1");
    let older = l1_ref(3, "p1");
    index.index_parsed(
        older.clone(),
        Some("爬山"),
        as_real(0.5),
        NOW_MS - 10 * 86_400_000,
    );
    index.index_parsed(newer.clone(), Some("爬山"), as_real(0.5), NOW_MS - 86_400_000);
    let results = run(&index, &q(&["爬山"], Some("p1"), MatchStrategy::Exact, 5));
    assert_eq!(results[0].0, newer);
    assert_eq!(results[1].0, older);
}

/// Gives every document the same score.
struct Flat(f64);

impl ScoringStrategy for Flat {
    fn score(
        &self,
        _doc_count: usize,
        _frequencies: &Vec<usize>,
        _salience: Real,
        _created_at: i64,
        _now_ms: i64,
    ) -> Real {
        as_real(self.0)
    }
}

#[test]
fn equal_scores_go_by_time_and_then_by_label() {
    let mut index = KeywordIndex::new();
    index.index_parsed(l2_ref(5, "p"), Some("词"), as_real(0.5), 100);
    index.index_parsed(l1_ref(2, "p"), Some("词"), as_real(0.5), 100);
    index.index_parsed(l1_ref(1, "p"), Some("词"), as_real(0.5), 100);
    index.index_parsed(l2_ref(9, "p"), Some("词"), as_real(0.5), 200);
    let query = q(&["词"], None, MatchStrategy::Exact, 10);
    let results = index.query_with_scorer(&query, NOW_MS, &Flat(1.0));
    let refs: Vec<KeywordRef> = results.into_iter().map(|(r, _)| r).collect();
    assert_eq!(
        refs,
        vec![l2_ref(9, "p"), l1_ref(1, "p"), l1_ref(2, "p"), l2_ref(5, "p")]
    );
    assert!(index.query_with_scorer(&query, NOW_MS, &Flat(0.0)).is_empty());
    assert!(index.query_with_scorer(&query, NOW_MS, &Flat(-1.0)).is_empty());
}

#[test]
fn labels_spell_identifiers() {
    let id = uuid::Uuid::from_u128(0x0123_4567_89ab_cdef_0011_2233_4455_6677);
    assert_eq!(
        keyword_ref_label(&l1_ref(id.as_u128(), "p")),
        Some(format!("L1:{id}"))
    );
    assert_eq!(keyword_ref_label(&l2_ref(-7, "p")), Some("L2:-7".to_string()));
}

#[test]
fn removing_undoes_indexing() {
    let mut index = sample_index();
    let query = q(&["工作压力"], None, MatchStrategy::Exact, 10);
    let before = run(&index, &query);
    index.index_parsed(l1_ref(77, "x"), Some("工作压力"), as_real(0.3), NOW_MS);
    assert!(index.remove(&l1_ref(77, "x")));
    assert_eq!(run(&index, &query), before);
}

#[test]
fn substring_covers_exact() {
    let index = sample_index();
    for word in ["工作压力", "爬山", "职场"] {
        let exact = run(&index, &q(&[word], None, MatchStrategy::Exact, 10));
        let sub = run(&index, &q(&[word], None, MatchStrategy::Substring, 10));
        for (r, _) in exact {
            assert!(sub.iter().any(|(s, _)| *s == r));
        }
    }
}

#[test]
fn fewer_results_are_the_best_ones() {
    let index = sample_index();
    let words = ["工作压力", "加班", "失眠"];
    let all = run(&index, &q(&words, None, MatchStrategy::Substring, 10));
    assert!(all.len() > 1);
    for k in 0..=all.len() {
        let some = run(&index, &q(&words, None, MatchStrategy::Substring, k));
        assert_eq!(some, all[..k].to_vec());
    }
}

#[test]
fn a_copied_index_finds_the_same() {
    let mut index = sample_index();
    let query = q(&["工作压力"], None, MatchStrategy::Substring, 10);
    let found = run(&index, &query);
    let copied = index.clone();
    index.clear();
    assert!(run(&index, &query).is_empty());
    assert_eq!(run(&copied, &query), found);
}

#[test]
fn removing_restores_the_answers() {
    let mut index = sample_index();
    let queries = [
        q(&["工作压力"], None, MatchStrategy::Exact, 10),
        q(&["工作"], None, MatchStrategy::Substring, 10),
        q(&["失眠", "加班"], Some("user-0001"), MatchStrategy::Exact, 1),
    ];
    let count = index.doc_count();
    let answers: Vec<_> = queries.iter().map(|x| run(&index, x)).collect();
    index.index_parsed(
        l2_ref(900, "user-0001"),
        Some("工作压力, 工作环境, 失眠"),
        as_real(1.0),
        NOW_MS,
    );
    assert_ne!(run(&index, &queries[0]), answers[0]);
    assert!(index.remove(&l2_ref(900, "user-0001")));
    assert_eq!(index.doc_count(), count);
    for (x, expected) in queries.iter().zip(&answers) {
        assert_eq!(&run(&index, x), expected);
    }
    assert!(!index.remove(&l2_ref(900, "user-0001")));
    assert_eq!(index.doc_count(), count);
}
