//! Tests of the keyword service.

use ramaria_memory::binary64::Real;
use ramaria_memory::keyword::composite::FuzzyKeywordIndex;
use ramaria_memory::keyword::index::{
    KeywordQuery, KeywordRef, MatchStrategy, ScoringStrategy,
};
use ramaria_memory::keyword::service::{
    query_text_labels, KeywordPoolRow, KeywordPoolSnapshot, KeywordService, L1DocView, L2DocView,
};
use ramaria_memory::keyword::token::{KeywordSet, KeywordToken};

const NOW_MS: i64 = 2_000_000_000_000;

fn as_real(x: f64) -> Real {
    Real { bits: x.to_bits() }
}

/// Counts the keywords that a document matches.
struct Hits;

impl ScoringStrategy for Hits {
    fn score(
        &self,
        _doc_count: usize,
        frequencies: &Vec<usize>,
        _salience: Real,
        _created_at: i64,
        _now_ms: i64,
    ) -> Real {
        as_real(frequencies.len() as f64)
    }
}

fn token(s: &str) -> KeywordToken {
    KeywordToken::new(s).unwrap()
}

fn row(
    rowid: i64,
    keyword: &str,
    status: Option<&str>,
    canonical_id: Option<i64>,
) -> KeywordPoolRow {
    KeywordPoolRow {
        rowid,
        keyword: keyword.to_string(),
        use_count: 1,
        created_at: rowid,
        alias_status: status.map(|s| s.to_string()),
        canonical_id,
        canonical_keyword: None,
    }
}

fn sample_rows() -> Vec<KeywordPoolRow> {
    vec![
        row(1, "工作压力", None, None),
        row(2, "职场焦虑", Some("pending"), Some(1)),
        row(3, "职业倦怠", Some("alias"), Some(1)),
        row(4, "爬山", Some("canonical"), None),
    ]
}

fn l1_view(id: u128, persona: Option<&str>, keywords: Option<&str>) -> L1DocView {
    L1DocView {
        id,
        summary: String::new(),
        keywords: keywords.map(|s| s.to_string()),
        persona_uid: persona.map(|s| s.to_string()),
        created_at: NOW_MS,
        salience: as_real(0.8),
        last_accessed_at: None,
    }
}

fn l2_view(id: i64, persona: &str, keywords: Option<&str>) -> L2DocView {
    L2DocView {
        id,
        title: String::new(),
        summary: String::new(),
        keywords: keywords.map(|s| s.to_string()),
        attitude: None,
        paraphrase: None,
        persona_uid: persona.to_string(),
        share: as_real(0.5),
        confidence: as_real(0.7),
        created_at: NOW_MS,
        salience: as_real(0.6),
    }
}

fn query_for(keywords: &[&str], persona: Option<&str>) -> KeywordQuery {
    KeywordQuery {
        keywords: KeywordSet::from_tokens(
            keywords.iter().filter_map(|s| KeywordToken::new(s)).collect(),
        ),
        persona_uid: persona.map(|s| s.to_string()),
        top_k: 20,
        strategy: MatchStrategy::Exact,
    }
}

fn search(svc: &KeywordService, keywords: &[&str], persona: Option<&str>) -> Vec<KeywordRef> {
    let query = query_for(keywords, persona);
    let found = svc.composite().literal_query(&query, NOW_MS, &Hits);
    found.into_iter().map(|(r, _)| r).collect()
}

fn labels(svc: &KeywordService, text: &str, persona: &str) -> Vec<(String, Real)> {
    query_text_labels(
        svc.composite(),
        &svc.pool_snapshot(),
        text,
        Some(persona),
        10,
        NOW_MS,
        &Hits,
    )
}

#[test]
fn load_pool_entries_maps_three_states() {
    let mut svc = KeywordService::new();
    svc.load_pool_entries(&sample_rows());
    assert_eq!(svc.pool_len(), 4);

    assert_eq!(
        svc.pool().resolve(&token("工作压力")).unwrap().as_str(),
        "工作压力"
    );
    assert_eq!(svc.pool().resolve(&token("爬山")).unwrap().as_str(), "爬山");
    assert_eq!(
        svc.pool().resolve(&token("职场焦虑")).unwrap().as_str(),
        "工作压力"
    );
    assert_eq!(
        svc.pool().resolve(&token("职业倦怠")).unwrap().as_str(),
        "工作压力"
    );
    assert_eq!(svc.pool().list_canonicals().len(), 2);
}

#[test]
fn load_pool_entries_handles_invalid_and_missing_canonical() {
    let mut svc = KeywordService::new();
    let rows = vec![
        row(1, "  ", None, None),
        row(2, "孤儿别名", Some("alias"), None),
    ];
    svc.load_pool_entries(&rows);
    assert_eq!(svc.pool_len(), 1);
    assert!(svc.pool().entry_by_id(2).unwrap().status.is_canonical());
}

#[test]
fn upsert_pool_tokens_accumulates_mirror() {
    let mut svc = KeywordService::new();
    svc.load_pool_entries(&sample_rows());
    let before = svc
        .pool()
        .entry_by_token(&token("工作压力"))
        .unwrap()
        .use_count;
    let list = [token("工作压力"), token("新词")];
    assert!(svc.can_upsert_tokens(&list, NOW_MS));
    svc.upsert_pool_tokens(&list, NOW_MS);
    assert_eq!(
        svc.pool()
            .entry_by_token(&token("工作压力"))
            .unwrap()
            .use_count,
        before + 1
    );
    assert_eq!(
        svc.pool().entry_by_token(&token("新词")).unwrap().use_count,
        1
    );
}

#[test]
fn reset_docs_from_views_indexes_l1_and_l2() {
    let mut svc = KeywordService::new();
    svc.reset_docs_from_views(
        &[
            l1_view(11, Some("p1"), Some("工作压力, 加班")),
            l1_view(12, None, Some("爬山")),
        ],
        &[l2_view(7, "p2", Some("职场, 内耗"))],
    );
    assert_eq!(svc.doc_count(), 3);

    svc.reset_docs_from_views(
        &[l1_view(11, Some("p1"), Some("工作压力, 加班"))],
        &[l2_view(7, "p2", Some("职场, 内耗"))],
    );
    assert_eq!(svc.doc_count(), 2);
}

#[test]
fn incremental_index_and_remove_are_idempotent() {
    let mut svc = KeywordService::new();
    let id = 21;
    let doc = l1_view(id, Some("p1"), Some("失眠, 焦虑"));
    svc.index_l1(&doc);
    svc.index_l1(&doc);
    assert_eq!(svc.doc_count(), 1);

    assert!(svc.remove_l1(id));
    assert!(!svc.remove_l1(id), "重复移除返回 false");
    assert_eq!(svc.doc_count(), 0);

    svc.index_l1(&doc);
    svc.index_l2(&l2_view(9, "p2", Some("加班")));
    assert_eq!(svc.remove_doc_batch(&[id], &[9]), 2);
    assert_eq!(svc.remove_doc_batch(&[id], &[9]), 0, "幂等：不存在即忽略");
}

#[test]
fn an_event_is_removed_by_its_number() {
    let mut svc = KeywordService::new();
    svc.index_l2(&l2_view(9, "p2", Some("加班")));
    svc.index_l1(&l1_view(9, Some("p1"), Some("加班")));
    assert!(!svc.remove_l2(8));
    assert!(svc.remove_l2(9));
    assert!(!svc.remove_l2(9));
    assert_eq!(svc.doc_count(), 1);
}

#[test]
fn persona_filter_keeps_isolation() {
    let mut svc = KeywordService::new();
    svc.reset_docs_from_views(
        &[
            l1_view(1, Some("p1"), Some("工作压力")),
            l1_view(2, Some("p2"), Some("工作压力")),
        ],
        &[],
    );
    let r1 = search(&svc, &["工作压力"], Some("p1"));
    assert_eq!(r1.len(), 1);
    assert_eq!(r1[0].persona_uid(), Some("p1"));
    let rg = search(&svc, &["工作压力"], None);
    assert_eq!(rg.len(), 2);
}

#[test]
fn rebuild_fuzzy_embedder_none_keeps_two_layers() {
    let mut svc = KeywordService::new();
    svc.load_pool_entries(&sample_rows());
    let terms = svc.canonical_terms();
    svc.rebuild_fuzzy(terms, None);
    assert!(svc.composite().fuzzy().is_none());
    svc.index_l1(&l1_view(5, Some("p1"), Some("工作压力")));
    assert_eq!(search(&svc, &["工作压力"], Some("p1")).len(), 1);
}

#[test]
fn rebuild_fuzzy_empty_terms_keeps_two_layers() {
    let mut svc = KeywordService::new();
    svc.rebuild_fuzzy(Vec::new(), Some(Vec::new()));
    assert!(svc.composite().fuzzy().is_none());
}

#[test]
fn rebuild_fuzzy_success_mounts_layer() {
    let mut svc = KeywordService::new();
    svc.load_pool_entries(&sample_rows());
    let terms = svc.canonical_terms();
    let n = terms.len();
    let vectors = vec![vec![1.0f32.to_bits(), 0.5f32.to_bits()]; n];
    svc.rebuild_fuzzy(terms, Some(vectors));
    let fuzzy = svc.composite().fuzzy().expect("应挂载语义层");
    assert!(fuzzy.is_ready());
    assert_eq!(fuzzy.len(), n);
}

#[test]
fn rebuild_fuzzy_failure_degrades_to_none() {
    let mut svc = KeywordService::new();
    svc.load_pool_entries(&sample_rows());
    let terms = svc.canonical_terms();
    svc.rebuild_fuzzy(terms, Some(vec![vec![0]]));
    assert!(svc.composite().fuzzy().is_none());
}

#[test]
fn set_fuzzy_replaces_layer() {
    let mut svc = KeywordService::new();
    let terms = vec![token("工作压力"), token("职场焦虑")];
    let fuzzy = FuzzyKeywordIndex::build(terms, vec![vec![1], vec![2]]).unwrap();
    svc.set_fuzzy(Some(fuzzy));
    assert!(svc.composite().fuzzy().is_some());
    svc.set_fuzzy(None);
    assert!(svc.composite().fuzzy().is_none());
}

#[test]
fn pool_snapshot_contains_dict_and_alias_resolve() {
    let mut svc = KeywordService::new();
    svc.load_pool_entries(&sample_rows());
    let snapshot = svc.pool_snapshot();
    assert_eq!(snapshot.dictionary().len(), 4);
    assert!(snapshot.dictionary().iter().any(|d| d == "工作压力"));
    assert!(snapshot.dictionary().iter().any(|d| d == "职业倦怠"));
    assert_eq!(
        snapshot.resolve().get("职场焦虑").map(String::as_str),
        Some("工作压力")
    );
    assert_eq!(
        snapshot.resolve().get("职业倦怠").map(String::as_str),
        Some("工作压力")
    );
    assert!(
        snapshot.resolve().get("工作压力").is_none(),
        "canonical 不收录自反映射"
    );
}

#[test]
fn composite_arc_shares_same_mirror() {
    let mut svc = KeywordService::new();
    svc.index_l1(&l1_view(5, Some("p1"), Some("爬山")));
    let arc = svc.composite_arc();
    assert_eq!(arc.doc_count(), 1);
    svc.clear_docs();
    assert_eq!(arc.doc_count(), 1, "旧 Arc 快照不受后续写影响");
    assert_eq!(svc.doc_count(), 0);
}

#[test]
fn query_text_labels_aliases_to_canonical_doc() {
    let mut svc = KeywordService::new();
    svc.load_pool_entries(&sample_rows());
    let doc_id = uuid::Uuid::from_u128(0x77);
    svc.index_l1(&l1_view(doc_id.as_u128(), Some("p1"), Some("工作压力")));

    let hits = labels(&svc, "最近职场焦虑", "p1");
    assert_eq!(hits.len(), 1, "别名查询应命中规范词文档");
    assert_eq!(hits[0].0, format!("L1:{doc_id}"));
}

#[test]
fn query_text_labels_empty_pool_falls_back_bigram() {
    let mut svc = KeywordService::new();
    let doc_id = uuid::Uuid::from_u128(0x78);
    svc.index_l1(&l1_view(doc_id.as_u128(), Some("p1"), Some("工作压力")));

    let hits = labels(&svc, "工作压力很大", "p1");
    assert!(
        hits.iter().any(|(l, _)| l == &format!("L1:{doc_id}")),
        "空词典时 bigram + 子串应命中（label 兼容）"
    );
}

#[test]
fn query_text_labels_degrade_cases() {
    let mut svc = KeywordService::new();
    svc.load_pool_entries(&sample_rows());
    assert!(labels(&svc, "工作压力", "p1").is_empty());

    svc.index_l1(&l1_view(9, Some("p1"), Some("工作压力")));
    assert!(labels(&svc, "   ", "p1").is_empty());

    assert!(
        labels(&svc, "工作压力", "p2").is_empty(),
        "跨 persona 隔离不命中"
    );
}

#[test]
fn services_search_by_parts_as_well() {
    let mut svc = KeywordService::default();
    svc.index_l1(&l1_view(5, Some("p1"), Some("工作压力")));
    assert_eq!(search(&svc, &["工作"], Some("p1")).len(), 1);
    svc.reset_docs_from_views(&[l1_view(6, Some("p1"), Some("职场压力"))], &[]);
    assert_eq!(search(&svc, &["职场"], Some("p1")).len(), 1);
    svc.clear_docs();
    svc.index_l2(&l2_view(7, "p1", Some("压力测试")));
    assert_eq!(search(&svc, &["压力"], Some("p1")).len(), 1);
}

#[test]
fn documents_leave_the_semantic_layer_alone() {
    let mut svc = KeywordService::new();
    let terms = vec![token("工作压力"), token("职场焦虑")];
    svc.set_fuzzy(FuzzyKeywordIndex::build(terms, vec![vec![1], vec![2]]).ok());
    svc.index_l1(&l1_view(5, Some("p1"), Some("工作压力")));
    svc.index_l2(&l2_view(6, "p1", Some("加班")));
    assert!(svc.remove_l1(5));
    assert!(svc.remove_l2(6));
    let fuzzy = svc.composite().fuzzy().unwrap();
    assert_eq!(fuzzy.len(), 2);
    assert_eq!(fuzzy.vector_list(), &vec![vec![1], vec![2]]);
    svc.reset_docs_from_views(&[], &[]);
    assert!(svc.composite().fuzzy().is_none());
}

#[test]
fn a_copied_service_goes_its_own_way() {
    let mut svc = KeywordService::new();
    svc.load_pool_entries(&sample_rows());
    svc.index_l1(&l1_view(5, Some("p1"), Some("工作压力")));
    let copied = svc.clone();
    svc.clear_docs();
    svc.upsert_pool_tokens(&[token("新词")], NOW_MS);
    assert_eq!(copied.doc_count(), 1);
    assert_eq!(copied.pool_len(), 4);
    assert_eq!(svc.pool_len(), 5);
    let snapshot = svc.pool_snapshot().clone();
    assert_eq!(snapshot.dictionary().len(), 5);
    assert_eq!(
        snapshot.resolve().get("职场焦虑").map(String::as_str),
        Some("工作压力")
    );
    assert!(KeywordPoolSnapshot::default().dictionary().is_empty());
}
