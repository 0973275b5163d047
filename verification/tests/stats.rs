//! Tests of the statistics of events.

use ramaria_memory::binary64::Real;
use ramaria_memory::inference::stats::admission::{
    are_different_batches, classify_event, classify_events, cluster_overlaps, keyword_overlap,
    prefilter_events, promote_tentative_events, TentativePromotionConfig,
    TentativePromotionResult,
};
use ramaria_memory::inference::stats::category::{
    extract_motive_tags, extract_primary_category, group_by_category, group_by_motive,
    group_enrichments,
    recurrence_counts,
};
use ramaria_memory::inference::stats::config::{
    situation_multiplier, AdmissionTrack, CalibratedWeightConfig, EventEnrichment, GroupFigures,
    MemoryEvent, Presentation, StatsConfig,
};
use ramaria_memory::inference::stats::representative::select_representative_events;
use ramaria_memory::inference::stats::run::{
    descending_order, finish_phase_a_stats, plan_phase_a_stats, rank_categories, rank_motives,
    CrossFigures, StatsSummary,
};

fn as_real(x: f64) -> Real {
    Real { bits: x.to_bits() }
}

fn number(x: Real) -> f64 {
    f64::from_bits(x.bits)
}

#[allow(clippy::too_many_arguments)]
fn make_event(
    title: &str,
    summary: &str,
    keywords: Option<&str>,
    confidence: f64,
    salience: f64,
    valence: f64,
    share: f64,
    presentation: Presentation,
    attitude: Option<&str>,
) -> MemoryEvent {
    MemoryEvent {
        id: 1,
        persona_uid: "user-0001".to_string(),
        title: title.to_string(),
        summary: summary.to_string(),
        keywords: keywords.map(|s| s.to_string()),
        attitude: attitude.map(|s| s.to_string()),
        motives: None,
        confidence: as_real(confidence),
        salience: as_real(salience),
        valence: as_real(valence),
        share: as_real(share),
        presentation,
        situation_strength: None,
        created_at: 1_700_000_000_000,
    }
}

fn make_event_with_time(
    title: &str,
    keywords: Option<&str>,
    confidence: f64,
    salience: f64,
    created_at: i64,
) -> MemoryEvent {
    let mut ev = make_event(
        title,
        "摘要",
        keywords,
        confidence,
        salience,
        0.0,
        0.5,
        Presentation::Mixed,
        None,
    );
    ev.created_at = created_at;
    ev
}

#[allow(clippy::too_many_arguments)]
fn make_event_with_motives(
    title: &str,
    summary: &str,
    keywords: Option<&str>,
    confidence: f64,
    salience: f64,
    valence: f64,
    share: f64,
    presentation: Presentation,
    attitude: Option<&str>,
    motives: Option<&str>,
) -> MemoryEvent {
    let mut ev = make_event(
        title,
        summary,
        keywords,
        confidence,
        salience,
        valence,
        share,
        presentation,
        attitude,
    );
    ev.motives = motives.map(|s| s.to_string());
    ev.situation_strength = Some(3);
    ev
}

/// How often the topic of each event comes back, in relation to the most frequent one.
fn recurrence(events: &Vec<MemoryEvent>) -> Vec<f64> {
    let (counts, most) = recurrence_counts(events);
    counts.iter().map(|n| *n as f64 / most as f64).collect()
}

/// Promotes tentative events, with the mean similarity of their keywords.
fn promote(
    tentative: &Vec<MemoryEvent>,
    confirmed: &Vec<MemoryEvent>,
    config: &TentativePromotionConfig,
) -> TentativePromotionResult {
    let groups = group_by_category(tentative);
    let similar: Vec<String> = groups
        .iter()
        .filter(|(_, cluster)| {
            let pairs = cluster_overlaps(cluster);
            let mut sum = 0.0;
            for (shared, together) in &pairs {
                if *together > 0 {
                    sum += *shared as f64 / *together as f64;
                }
            }
            !pairs.is_empty()
                && sum / pairs.len() as f64 >= number(config.keyword_similarity_threshold)
        })
        .map(|(name, _)| name.clone())
        .collect();
    promote_tentative_events(tentative, confirmed, &similar, config)
}

/// Figures of a group: the weights of the events are their saliences.
fn simple_figures(events: &[MemoryEvent], members: &[usize], total: f64) -> GroupFigures {
    let saliences: Vec<f64> = members.iter().map(|i| number(events[*i].salience)).collect();
    let sum: f64 = saliences.iter().sum();
    let mean = |f: &dyn Fn(&MemoryEvent) -> f64| {
        let all: f64 = members
            .iter()
            .map(|i| f(&events[*i]) * number(events[*i].salience))
            .sum();
        as_real(all / sum)
    };
    let told = |p: Presentation| mean(&|e| if e.presentation == p { 1.0 } else { 0.0 });
    GroupFigures {
        n_eff: as_real(sum),
        valence_mean: mean(&|e| number(e.valence)),
        valence_std: as_real(0.0),
        valence_positive_ratio: mean(&|e| if number(e.valence) > 0.0 { 1.0 } else { 0.0 }),
        share_mean: mean(&|e| number(e.share)),
        share_std: as_real(0.0),
        presentation_objective_ratio: told(Presentation::Objective),
        presentation_subjective_ratio: told(Presentation::Subjective),
        presentation_mixed_ratio: told(Presentation::Mixed),
        avg_salience: as_real(sum / members.len() as f64),
        group_weight: as_real(sum / total),
    }
}

/// The statistics with these figures.
fn run_phase_a_stats(events: &Vec<MemoryEvent>, config: &StatsConfig) -> StatsSummary {
    let plan = plan_phase_a_stats(events, config);
    let total: f64 = plan.active.iter().map(|e| number(e.salience)).sum();
    let figures = |groups: &Vec<(String, Vec<usize>)>| -> Vec<GroupFigures> {
        groups
            .iter()
            .map(|(_, members)| simple_figures(&plan.active, members, total))
            .collect()
    };
    let categories = rank_categories(&plan.categories, &figures(&plan.categories));
    let motives = rank_motives(&plan.motives, &figures(&plan.motives));
    let cross = CrossFigures {
        emotional_stability: as_real(0.0),
        narrative_consistency: as_real(1.0),
        share_skewness: as_real(0.0),
        share_kurtosis: as_real(0.0),
    };
    finish_phase_a_stats(plan, categories, motives, cross, config)
}

fn situation_multiplier_cases() {
    let cases = [
        (None, 1.0),
        (Some(3), 1.0),
        (Some(1), 1.5),
        (Some(2), 1.5),
        (Some(4), 0.5),
        (Some(5), 0.5),
        (Some(0), 1.0),
        (Some(6), 1.0),
        (Some(100), 1.0),
    ];
    for (strength, expected) in cases {
        assert!(
            (number(situation_multiplier(strength)) - expected).abs() < 1e-10,
            "strength={strength:?} 期望 {expected}",
        );
    }
}

#[test]
fn stats_situation_multiplier_cases() {
    situation_multiplier_cases();
}

#[test]
fn tests_situation_multiplier_cases() {
    situation_multiplier_cases();
}

fn classify_event_cases() {
    let cases = [
        (0.9, AdmissionTrack::Confirmed),
        (0.6, AdmissionTrack::Confirmed),
        (0.5, AdmissionTrack::Tentative),
        (0.45, AdmissionTrack::Tentative),
        (0.5999, AdmissionTrack::Tentative),
        (0.3, AdmissionTrack::Discarded),
        (0.4499, AdmissionTrack::Discarded),
        (f64::NAN, AdmissionTrack::Discarded),
        (-0.1, AdmissionTrack::Discarded),
    ];
    for (confidence, expected) in cases {
        let ev = make_event("E", "s", None, confidence, 0.5, 0.0, 0.5, Presentation::Mixed, None);
        assert_eq!(classify_event(&ev), expected, "confidence={confidence}");
    }
}

#[test]
fn stats_classify_event_cases() {
    classify_event_cases();
}

#[test]
fn tests_classify_event_cases() {
    classify_event_cases();
}

fn classify_events_mixed() {
    let events = vec![
        make_event("E1", "s", None, 0.9, 0.8, 0.5, 0.5, Presentation::Mixed, None),
        make_event("E2", "s", None, 0.5, 0.6, -0.2, 0.3, Presentation::Subjective, None),
        make_event("E3", "s", None, 0.3, 0.5, 0.6, 0.9, Presentation::Mixed, None),
    ];
    let classified = classify_events(&events);
    assert_eq!(classified.confirmed.len(), 1);
    assert_eq!(classified.tentative.len(), 1);
    assert_eq!(classified.discarded_count, 1);
    assert_eq!(classified.active_count(), 2);
}

#[test]
fn stats_classify_events_mixed() {
    classify_events_mixed();
}

#[test]
fn tests_classify_events_mixed() {
    classify_events_mixed();
}

fn classify_events_empty() {
    let classified = classify_events(&Vec::new());
    assert_eq!(classified.confirmed.len(), 0);
    assert_eq!(classified.tentative.len(), 0);
    assert_eq!(classified.discarded_count, 0);
}

#[test]
fn stats_classify_events_empty() {
    classify_events_empty();
}

#[test]
fn tests_classify_events_empty() {
    classify_events_empty();
}

fn admission_track_confidence_factor() {
    assert!((number(AdmissionTrack::Confirmed.confidence_factor(as_real(0.5))) - 1.0).abs() < 1e-10);
    assert!((number(AdmissionTrack::Tentative.confidence_factor(as_real(0.5))) - 0.5).abs() < 1e-10);
    assert!((number(AdmissionTrack::Discarded.confidence_factor(as_real(0.5))) - 0.0).abs() < 1e-10);

    assert!((number(AdmissionTrack::Tentative.confidence_factor(as_real(0.3))) - 0.3).abs() < 1e-10);
}

#[test]
fn stats_admission_track_confidence_factor() {
    admission_track_confidence_factor();
}

#[test]
fn tests_admission_track_confidence_factor() {
    admission_track_confidence_factor();
}

fn admission_track_as_str() {
    assert_eq!(AdmissionTrack::Confirmed.as_str(), "confirmed");
    assert_eq!(AdmissionTrack::Tentative.as_str(), "tentative");
    assert_eq!(AdmissionTrack::Discarded.as_str(), "discarded");
}

#[test]
fn stats_admission_track_as_str() {
    admission_track_as_str();
}

#[test]
fn tests_admission_track_as_str() {
    admission_track_as_str();
}

fn enrichment_from_event() {
    let event = make_event("E", "s", None, 0.9, 0.8, -0.5, 0.5, Presentation::Mixed, None);
    let enrichment = EventEnrichment::from_event(&event);
    assert!((number(enrichment.emotional_intensity) - 0.5).abs() < 1e-10);
    assert!((number(enrichment.mention_frequency) - 0.8).abs() < 1e-10);
    assert_eq!(enrichment.source_count, 1);
}

#[test]
fn stats_enrichment_from_event() {
    enrichment_from_event();
}

#[test]
fn tests_enrichment_from_event() {
    enrichment_from_event();
}

fn enrichment_derive_batch_recurrence() {
    let events = vec![
        make_event("E1", "s", Some("工作"), 0.9, 0.8, 0.5, 0.5, Presentation::Mixed, None),
        make_event("E2", "s", Some("工作"), 0.9, 0.6, -0.2, 0.3, Presentation::Subjective, None),
        make_event("E3", "s", Some("社交"), 0.8, 0.5, 0.6, 0.9, Presentation::Mixed, None),
    ];
    let enrichments = recurrence(&events);
    assert_eq!(enrichments.len(), 3);

    assert!((enrichments[0] - 1.0).abs() < 1e-10);
    assert!((enrichments[1] - 1.0).abs() < 1e-10);
    assert!((enrichments[2] - 0.5).abs() < 1e-10);
}

#[test]
fn stats_enrichment_derive_batch_recurrence() {
    enrichment_derive_batch_recurrence();
}

#[test]
fn tests_enrichment_derive_batch_recurrence() {
    enrichment_derive_batch_recurrence();
}

fn enrichment_derive_batch_empty() {
    let enrichments = recurrence(&Vec::new());
    assert!(enrichments.is_empty());
}

#[test]
fn stats_enrichment_derive_batch_empty() {
    enrichment_derive_batch_empty();
}

#[test]
fn tests_enrichment_derive_batch_empty() {
    enrichment_derive_batch_empty();
}

fn prefilter_excludes_low_confidence() {
    let config = StatsConfig::default();
    let events = vec![
        make_event("E1", "s1", Some("工作,会议"), 0.9, 0.8, 0.5, 0.7, Presentation::Objective, None),
        make_event("E2", "s2", Some("社交,聚会"), 0.3, 0.6, -0.2, 0.3, Presentation::Subjective, None),
        make_event("E3", "s3", Some("工作,项目"), 0.8, 0.5, 0.6, 0.9, Presentation::Mixed, None),
    ];
    let (filtered, excluded) = prefilter_events(&events, &config);
    assert_eq!(excluded, 1, "应排除 1 条低置信度事件");
    assert_eq!(filtered.len(), 2);
    let titles: Vec<&str> = filtered.iter().map(|e| e.title.as_str()).collect();
    assert!(titles.contains(&"E1"));
    assert!(titles.contains(&"E3"));
    assert!(!titles.contains(&"E2"));
}

#[test]
fn stats_prefilter_excludes_low_confidence() {
    prefilter_excludes_low_confidence();
}

#[test]
fn tests_prefilter_excludes_low_confidence() {
    prefilter_excludes_low_confidence();
}

fn prefilter_all_pass_when_high_confidence() {
    let config = StatsConfig::default();
    let events = vec![
        make_event("E1", "s1", Some("工作"), 0.9, 0.5, 0.0, 0.5, Presentation::Mixed, None),
        make_event("E2", "s2", Some("社交"), 0.8, 0.5, 0.0, 0.5, Presentation::Mixed, None),
    ];
    let (filtered, excluded) = prefilter_events(&events, &config);
    assert_eq!(excluded, 0);
    assert_eq!(filtered.len(), 2);
}

#[test]
fn stats_prefilter_all_pass_when_high_confidence() {
    prefilter_all_pass_when_high_confidence();
}

#[test]
fn tests_prefilter_all_pass_when_high_confidence() {
    prefilter_all_pass_when_high_confidence();
}

fn prefilter_empty_input() {
    let config = StatsConfig::default();
    let (filtered, excluded) = prefilter_events(&Vec::new(), &config);
    assert_eq!(excluded, 0);
    assert!(filtered.is_empty());
}

#[test]
fn stats_prefilter_empty_input() {
    prefilter_empty_input();
}

#[test]
fn tests_prefilter_empty_input() {
    prefilter_empty_input();
}

fn are_different_batches_cases() {
    let config = TentativePromotionConfig::default();
    let base_time = 1700000000000i64;
    let a = make_event_with_time("E1", Some("工作"), 0.5, 0.6, base_time);
    let b = make_event_with_time("E2", Some("工作"), 0.5, 0.6, base_time + 8 * 3600 * 1000);
    assert!(are_different_batches(&a, &b, &config));
    let b = make_event_with_time("E2", Some("工作"), 0.5, 0.6, base_time + 3 * 3600 * 1000);
    assert!(!are_different_batches(&a, &b, &config));
    let c = make_event_with_time("E3", Some("工作"), 0.5, 0.6, 0);
    let d = make_event_with_time("E4", Some("工作"), 0.5, 0.6, base_time);
    assert!(!are_different_batches(&c, &d, &config));
}

#[test]
fn stats_are_different_batches_cases() {
    are_different_batches_cases();
}

#[test]
fn tests_are_different_batches_cases() {
    are_different_batches_cases();
}

fn promote_tentative_cross_batch_promotes() {
    let config = TentativePromotionConfig::default();
    let base_time = 1700000000000i64;
    let tentative = vec![
        make_event_with_time("E1", Some("工作, 会议, 压力"), 0.5, 0.6, base_time),
        make_event_with_time("E2", Some("工作, 会议, 项目"), 0.55, 0.5, base_time + 8 * 3600 * 1000),
    ];
    let result = promote(&tentative, &Vec::new(), &config);

    assert_eq!(result.promoted_count, 2);
    assert_eq!(result.remaining_count, 0);
    for event in &result.promoted {
        assert!(
            (number(event.confidence) - 0.6).abs() < 1e-10,
            "提升后 confidence 应为 0.6，实际为 {}",
            number(event.confidence)
        );
    }
}

#[test]
fn stats_promote_tentative_cross_batch_promotes() {
    promote_tentative_cross_batch_promotes();
}

#[test]
fn tests_promote_tentative_cross_batch_promotes() {
    promote_tentative_cross_batch_promotes();
}

fn promote_tentative_single_event_not_promoted() {
    let config = TentativePromotionConfig::default();
    let tentative = vec![make_event_with_time("E1", Some("工作, 会议"), 0.5, 0.6, 1700000000000i64)];
    let result = promote(&tentative, &Vec::new(), &config);

    assert_eq!(result.promoted_count, 0);
    assert_eq!(result.remaining_count, 1);
}

#[test]
fn stats_promote_tentative_single_event_not_promoted() {
    promote_tentative_single_event_not_promoted();
}

#[test]
fn tests_promote_tentative_single_event_not_promoted() {
    promote_tentative_single_event_not_promoted();
}

fn promote_tentative_same_batch_not_promoted() {
    let config = TentativePromotionConfig::default();
    let base_time = 1700000000000i64;
    let tentative = vec![
        make_event_with_time("E1", Some("工作, 会议"), 0.5, 0.6, base_time),
        make_event_with_time("E2", Some("工作, 项目"), 0.55, 0.5, base_time + 3600 * 1000),
    ];
    let result = promote(&tentative, &Vec::new(), &config);

    assert_eq!(result.promoted_count, 0);
    assert_eq!(result.remaining_count, 2);
}

#[test]
fn stats_promote_tentative_same_batch_not_promoted() {
    promote_tentative_same_batch_not_promoted();
}

#[test]
fn tests_promote_tentative_same_batch_not_promoted() {
    promote_tentative_same_batch_not_promoted();
}

fn promote_tentative_low_keyword_similarity_not_promoted() {
    let config = TentativePromotionConfig::default();
    let base_time = 1700000000000i64;
    let tentative = vec![
        make_event_with_time("E1", Some("工作, 会议"), 0.5, 0.6, base_time),
        make_event_with_time("E2", Some("社交, 聚会"), 0.55, 0.5, base_time + 8 * 3600 * 1000),
    ];
    let result = promote(&tentative, &Vec::new(), &config);

    assert_eq!(result.promoted_count, 0);
    assert_eq!(result.remaining_count, 2);
}

#[test]
fn stats_promote_tentative_low_keyword_similarity_not_promoted() {
    promote_tentative_low_keyword_similarity_not_promoted();
}

#[test]
fn tests_promote_tentative_low_keyword_similarity_not_promoted() {
    promote_tentative_low_keyword_similarity_not_promoted();
}

fn promote_tentative_mixed_clusters() {
    let config = TentativePromotionConfig::default();
    let base_time = 1700000000000i64;
    let tentative = vec![
        make_event_with_time("E1", Some("工作, 会议, 压力"), 0.5, 0.6, base_time),
        make_event_with_time("E2", Some("工作, 会议, 项目"), 0.55, 0.5, base_time + 8 * 3600 * 1000),
        make_event_with_time("E3", Some("社交, 聚会"), 0.5, 0.4, base_time),
    ];
    let result = promote(&tentative, &Vec::new(), &config);

    assert_eq!(result.promoted_count, 2, "工作簇应提升");
    assert_eq!(result.remaining_count, 1, "社交簇不提升");
    let promoted_titles: Vec<&str> = result.promoted.iter().map(|e| e.title.as_str()).collect();
    assert!(promoted_titles.contains(&"E1"));
    assert!(promoted_titles.contains(&"E2"));
    assert_eq!(result.remaining_tentative[0].title, "E3");
}

#[test]
fn stats_promote_tentative_mixed_clusters() {
    promote_tentative_mixed_clusters();
}

#[test]
fn tests_promote_tentative_mixed_clusters() {
    promote_tentative_mixed_clusters();
}

fn promote_tentative_empty_input() {
    let config = TentativePromotionConfig::default();
    let tentative: Vec<MemoryEvent> = vec![];
    let result = promote(&tentative, &Vec::new(), &config);

    assert_eq!(result.promoted_count, 0);
    assert_eq!(result.remaining_count, 0);
    assert!(result.promoted.is_empty());
    assert!(result.remaining_tentative.is_empty());
}

#[test]
fn stats_promote_tentative_empty_input() {
    promote_tentative_empty_input();
}

#[test]
fn tests_promote_tentative_empty_input() {
    promote_tentative_empty_input();
}

fn promote_tentative_custom_min_cluster_size() {
    let config = TentativePromotionConfig {
        min_cluster_size: 3,
        ..Default::default()
    };
    let base_time = 1700000000000i64;
    let tentative = vec![
        make_event_with_time("E1", Some("工作, 会议, 压力"), 0.5, 0.6, base_time),
        make_event_with_time("E2", Some("工作, 会议, 项目"), 0.55, 0.5, base_time + 8 * 3600 * 1000),
        make_event_with_time("E3", Some("工作, 会议, 汇报"), 0.5, 0.4, base_time + 16 * 3600 * 1000),
    ];
    let result = promote(&tentative, &Vec::new(), &config);

    assert_eq!(result.promoted_count, 3);
    assert_eq!(result.remaining_count, 0);
}

#[test]
fn stats_promote_tentative_custom_min_cluster_size() {
    promote_tentative_custom_min_cluster_size();
}

#[test]
fn tests_promote_tentative_custom_min_cluster_size() {
    promote_tentative_custom_min_cluster_size();
}

fn promote_tentative_respects_confirmed_list() {
    let config = TentativePromotionConfig::default();
    let base_time = 1700000000000i64;
    let tentative = vec![
        make_event_with_time("E1", Some("工作, 会议"), 0.5, 0.6, base_time),
        make_event_with_time("E2", Some("工作, 会议, 项目"), 0.55, 0.5, base_time + 8 * 3600 * 1000),
    ];
    let confirmed = vec![make_event(
        "E0_confirmed", "已有确认事件", Some("工作"), 0.9, 0.8, 0.5, 0.5, Presentation::Mixed, None,
    )];
    let result = promote(&tentative, &confirmed, &config);

    assert_eq!(result.promoted_count, 2);
}

#[test]
fn stats_promote_tentative_respects_confirmed_list() {
    promote_tentative_respects_confirmed_list();
}

#[test]
fn tests_promote_tentative_respects_confirmed_list() {
    promote_tentative_respects_confirmed_list();
}

fn extract_primary_category_cases() {
    let cases = [
        (Some("工作, 会议, 紧张"), "工作"),
        (Some("家庭"), "家庭"),
        (None, "未分类"),
        (Some(""), "未分类"),
    ];
    for (keywords, expected) in cases {
        let ev = make_event("E1", "摘要", keywords, 0.8, 0.5, 0.0, 0.5, Presentation::Mixed, None);
        assert_eq!(extract_primary_category(&ev), expected);
    }
}

#[test]
fn stats_extract_primary_category_cases() {
    extract_primary_category_cases();
}

#[test]
fn tests_extract_primary_category_cases() {
    extract_primary_category_cases();
}

fn group_by_category_works() {
    let events = vec![
        make_event("E1", "s1", Some("工作"), 0.9, 0.5, 0.0, 0.5, Presentation::Mixed, None),
        make_event("E2", "s2", Some("社交"), 0.8, 0.5, 0.0, 0.5, Presentation::Mixed, None),
        make_event("E3", "s3", Some("工作"), 0.7, 0.5, 0.0, 0.5, Presentation::Mixed, None),
    ];
    let grouped = group_by_category(&events);
    assert_eq!(grouped.len(), 2);
    let social_group = grouped.iter().find(|(k, _)| k == "社交").unwrap();
    assert_eq!(social_group.1.len(), 1);
    let work_group = grouped.iter().find(|(k, _)| k == "工作").unwrap();
    assert_eq!(work_group.1.len(), 2);
}

#[test]
fn stats_group_by_category_works() {
    group_by_category_works();
}

#[test]
fn tests_group_by_category_works() {
    group_by_category_works();
}

fn representative_events_limit() {
    let config = StatsConfig {
        max_representative_events: 2,
        ..Default::default()
    };
    let events = vec![
        make_event("E1", "s1", Some("工作"), 0.9, 0.9, 0.5, 0.5, Presentation::Mixed, Some("态度1")),
        make_event("E2", "s2", Some("工作"), 0.9, 0.5, 0.3, 0.5, Presentation::Mixed, Some("态度2")),
        make_event("E3", "s3", Some("工作"), 0.9, 0.8, 0.6, 0.5, Presentation::Mixed, Some("态度3")),
        make_event("E4", "s4", Some("工作"), 0.9, 0.3, 0.1, 0.5, Presentation::Mixed, Some("态度4")),
    ];
    let cats: Vec<String> = group_by_category(&events).into_iter().map(|(c, _)| c).collect();
    let representatives = select_representative_events(&events, &cats, config.max_representative_events);
    assert_eq!(representatives.len(), 2, "最多 2 条");
    let saliences: Vec<f64> = representatives.iter().map(|r| number(r.salience)).collect();
    assert!(saliences.contains(&0.9));
    assert!(saliences.contains(&0.8));
}

#[test]
fn stats_representative_events_limit() {
    representative_events_limit();
}

#[test]
fn tests_representative_events_limit() {
    representative_events_limit();
}

fn representative_events_preserves_attitude_original() {
    let config = StatsConfig::default();
    let events = vec![make_event("E1", "摘要", Some("工作"), 0.9, 0.9, 0.5, 0.5, Presentation::Mixed, Some("对项目进展感到满意"))];
    let cats: Vec<String> = group_by_category(&events).into_iter().map(|(c, _)| c).collect();
    let reps = select_representative_events(&events, &cats, config.max_representative_events);
    assert_eq!(reps.len(), 1);
    assert_eq!(reps[0].attitude.as_deref(), Some("对项目进展感到满意"));
}

#[test]
fn stats_representative_events_preserves_attitude_original() {
    representative_events_preserves_attitude_original();
}

#[test]
fn tests_representative_events_preserves_attitude_original() {
    representative_events_preserves_attitude_original();
}

fn run_phase_a_stats_v13_calibrated() {
    let config = StatsConfig::default();
    let events = vec![
        make_event("E1", "工作会议摘要", Some("工作,会议"), 0.9, 0.8, 0.7, 0.8, Presentation::Objective, Some("对成果满意")),
        make_event("E2", "低置信事件", Some("工作,闲聊"), 0.3, 0.5, 0.0, 0.5, Presentation::Mixed, None),
        make_event("E3", "社交聚会摘要", Some("社交,聚会"), 0.8, 0.7, 0.5, 0.9, Presentation::Subjective, Some("聚会很愉快")),
        make_event("E4", "家庭事件摘要", Some("家庭,晚餐"), 0.7, 0.6, -0.2, 0.3, Presentation::Mixed, Some("家庭小摩擦")),
    ];
    let summary = run_phase_a_stats(&events, &config);

    assert_eq!(summary.total_events_in, 4);
    assert_eq!(summary.total_events_filtered, 3);
    assert_eq!(summary.discarded_count, 1);
    assert!(summary.confirmed_count > 0);
    assert_eq!(summary.category_count, 3);
    assert!(!summary.categories.is_empty());
    let last = summary.categories.last().unwrap();
    assert!(number(summary.categories[0].group_weight) >= number(last.group_weight));
    assert!(number(summary.cross_category.emotional_stability) >= 0.0);
    assert_eq!(summary.cross_category.attitude_contradiction_count, 1);
    assert!(!summary.representative_events.is_empty());
}

#[test]
fn stats_run_phase_a_stats_v13_calibrated() {
    run_phase_a_stats_v13_calibrated();
}

#[test]
fn tests_run_phase_a_stats_v13_calibrated() {
    run_phase_a_stats_v13_calibrated();
}

fn run_phase_a_stats_v13_includes_tentative() {
    let config = StatsConfig::default();
    let events = vec![
        make_event("E1", "s1", Some("工作"), 0.9, 0.8, 0.5, 0.5, Presentation::Mixed, None),
        make_event("E2", "待定事件", Some("工作"), 0.5, 0.6, -0.3, 0.3, Presentation::Subjective, None),
    ];
    let summary = run_phase_a_stats(&events, &config);

    assert_eq!(summary.total_events_in, 2);
    assert_eq!(summary.total_events_filtered, 2);
    assert_eq!(summary.confirmed_count, 1);
    assert_eq!(summary.tentative_count, 1);
    assert_eq!(summary.discarded_count, 0);
    assert_eq!(summary.category_count, 1);
}

#[test]
fn stats_run_phase_a_stats_v13_includes_tentative() {
    run_phase_a_stats_v13_includes_tentative();
}

#[test]
fn tests_run_phase_a_stats_v13_includes_tentative() {
    run_phase_a_stats_v13_includes_tentative();
}

fn run_phase_a_stats_v13_all_discarded() {
    let config = StatsConfig::default();
    let events = vec![
        make_event("E1", "低置信", Some("工作"), 0.3, 0.5, 0.0, 0.5, Presentation::Mixed, None),
        make_event("E2", "也低置信", Some("社交"), 0.2, 0.5, 0.0, 0.5, Presentation::Mixed, None),
    ];
    let summary = run_phase_a_stats(&events, &config);
    assert_eq!(summary.total_events_in, 2);
    assert_eq!(summary.total_events_filtered, 0);
    assert_eq!(summary.discarded_count, 2);
    assert_eq!(summary.category_count, 0);
    assert!(summary.categories.is_empty());
}

#[test]
fn stats_run_phase_a_stats_v13_all_discarded() {
    run_phase_a_stats_v13_all_discarded();
}

#[test]
fn tests_run_phase_a_stats_v13_all_discarded() {
    run_phase_a_stats_v13_all_discarded();
}

fn run_phase_a_stats_v13_empty_input() {
    let config = StatsConfig::default();
    let summary = run_phase_a_stats(&Vec::new(), &config);
    assert_eq!(summary.total_events_in, 0);
    assert_eq!(summary.total_events_filtered, 0);
}

#[test]
fn stats_run_phase_a_stats_v13_empty_input() {
    run_phase_a_stats_v13_empty_input();
}

#[test]
fn tests_run_phase_a_stats_v13_empty_input() {
    run_phase_a_stats_v13_empty_input();
}

fn run_phase_a_stats_v12_compat_path() {
    let config = StatsConfig {
        use_calibrated_weights: false,
        ..Default::default()
    };
    let events = vec![
        make_event("E1", "s1", Some("工作,会议"), 0.9, 0.8, 0.7, 0.8, Presentation::Objective, Some("满意")),
        make_event("E2", "低置信事件", Some("工作,闲聊"), 0.3, 0.5, 0.0, 0.5, Presentation::Mixed, None),
        make_event("E3", "s3", Some("社交,聚会"), 0.8, 0.7, 0.5, 0.9, Presentation::Subjective, Some("愉快")),
        make_event("E4", "s4", Some("家庭,晚餐"), 0.7, 0.6, -0.2, 0.3, Presentation::Mixed, Some("小摩擦")),
    ];
    let summary = run_phase_a_stats(&events, &config);

    assert_eq!(summary.total_events_in, 4);
    assert_eq!(summary.total_events_filtered, 3);
    assert_eq!(summary.category_count, 3);
    assert!(summary.confirmed_count > 0);
    assert_eq!(summary.tentative_count, 0);
}

#[test]
fn stats_run_phase_a_stats_v12_compat_path() {
    run_phase_a_stats_v12_compat_path();
}

#[test]
fn tests_run_phase_a_stats_v12_compat_path() {
    run_phase_a_stats_v12_compat_path();
}

fn extract_motive_tags_cases() {
    let event = make_event_with_motives("E1", "s", Some("工作"), 0.9, 0.8, 0.5, 0.5, Presentation::Mixed, None, Some("地位维护,自主性,归属"));
    let tags = extract_motive_tags(&event);
    assert_eq!(tags.len(), 3);
    assert_eq!(tags[0], "地位维护");
    assert_eq!(tags[1], "自主性");
    assert_eq!(tags[2], "归属");
    let event = make_event_with_motives("E2", "s", Some("社交"), 0.8, 0.6, 0.0, 0.5, Presentation::Mixed, None, None);
    assert!(extract_motive_tags(&event).is_empty());
    let event = make_event_with_motives("E3", "s", Some("社交"), 0.8, 0.6, 0.0, 0.5, Presentation::Mixed, None, Some(" , , "));
    assert!(extract_motive_tags(&event).is_empty());
    let event = make_event_with_motives("E4", "s", Some("工作"), 0.9, 0.8, 0.5, 0.5, Presentation::Mixed, None, Some("自主性"));
    let tags = extract_motive_tags(&event);
    assert_eq!(tags.len(), 1);
    assert_eq!(tags[0], "自主性");
    let event = make_event_with_motives("E5", "s", Some("工作"), 0.9, 0.8, 0.5, 0.5, Presentation::Mixed, None, Some(" 地位维护 , 自主性 , 归属 "));
    let tags = extract_motive_tags(&event);
    assert_eq!(tags.len(), 3);
    assert_eq!(tags[0], "地位维护");
    assert_eq!(tags[1], "自主性");
    assert_eq!(tags[2], "归属");
}

#[test]
fn stats_extract_motive_tags_cases() {
    extract_motive_tags_cases();
}

#[test]
fn tests_extract_motive_tags_cases() {
    extract_motive_tags_cases();
}

fn group_by_motive_handles_multi_tag_events() {
    let e1 = make_event_with_motives("E1", "s", Some("工作"), 0.9, 0.8, 0.5, 0.5, Presentation::Mixed, None, Some("地位维护,自主性"));
    let e2 = make_event_with_motives("E2", "s", Some("社交"), 0.8, 0.6, 0.0, 0.5, Presentation::Mixed, None, Some("归属"));
    let e3 = make_event_with_motives("E3", "s", Some("工作"), 0.7, 0.7, 0.3, 0.5, Presentation::Mixed, None, Some("地位维护"));
    let events = vec![e1, e2, e3];
    let grouped = group_by_motive(&events);

    assert_eq!(grouped.len(), 3);

    let status_group: Vec<_> = grouped.iter().filter(|(k, _)| k == "地位维护").collect();
    assert_eq!(status_group.len(), 1);
    assert_eq!(status_group[0].1.len(), 2);

    let autonomy_group: Vec<_> = grouped.iter().filter(|(k, _)| k == "自主性").collect();
    assert_eq!(autonomy_group.len(), 1);
    assert_eq!(autonomy_group[0].1.len(), 1);

    let belonging_group: Vec<_> = grouped.iter().filter(|(k, _)| k == "归属").collect();
    assert_eq!(belonging_group.len(), 1);
    assert_eq!(belonging_group[0].1.len(), 1);
}

#[test]
fn stats_group_by_motive_handles_multi_tag_events() {
    group_by_motive_handles_multi_tag_events();
}

#[test]
fn tests_group_by_motive_handles_multi_tag_events() {
    group_by_motive_handles_multi_tag_events();
}

fn group_by_motive_empty_when_no_motives() {
    let e1 = make_event_with_motives("E1", "s", Some("工作"), 0.9, 0.8, 0.5, 0.5, Presentation::Mixed, None, None);
    let e2 = make_event_with_motives("E2", "s", Some("社交"), 0.8, 0.6, 0.0, 0.5, Presentation::Mixed, None, None);
    let grouped = group_by_motive(&vec![e1, e2]);
    assert!(grouped.is_empty());
}

#[test]
fn stats_group_by_motive_empty_when_no_motives() {
    group_by_motive_empty_when_no_motives();
}

#[test]
fn tests_group_by_motive_empty_when_no_motives() {
    group_by_motive_empty_when_no_motives();
}

fn calibrated_weight_config_defaults() {
    let config = CalibratedWeightConfig::default();
    assert!((number(config.salience_exponent) - 1.0).abs() < 1e-10);
    assert!((number(config.recurrence_boost_max) - 0.30).abs() < 1e-10);
    assert!((number(config.intensity_boost_max) - 0.20).abs() < 1e-10);
    assert!((number(config.mention_boost_max) - 0.15).abs() < 1e-10);
    assert_eq!(config.min_sources_for_full_support, 3);
    assert!((number(config.tentative_weight_factor) - 0.5).abs() < 1e-10);
}

#[test]
fn stats_calibrated_weight_config_defaults() {
    calibrated_weight_config_defaults();
}

#[test]
fn tests_calibrated_weight_config_defaults() {
    calibrated_weight_config_defaults();
}

#[test]
fn the_first_keyword_that_is_not_blank_is_the_category() {
    let ev = make_event("E", "s", Some(" , 工作,会议"), 0.8, 0.5, 0.0, 0.5, Presentation::Mixed, None);
    assert_eq!(extract_primary_category(&ev), "工作");
}

#[test]
fn categories_come_in_the_order_of_texts() {
    let names = ["b", "a", "c", "a"];
    let events: Vec<MemoryEvent> = names
        .iter()
        .map(|n| make_event(n, "s", Some(n), 0.8, 0.5, 0.0, 0.5, Presentation::Mixed, None))
        .collect();
    let groups = group_by_category(&events);
    let found: Vec<(&str, usize)> = groups.iter().map(|(n, g)| (n.as_str(), g.len())).collect();
    assert_eq!(found, vec![("a", 2), ("b", 1), ("c", 1)]);
}

#[test]
fn a_motive_named_twice_counts_once() {
    let ev = make_event_with_motives(
        "E", "s", None, 0.8, 0.5, 0.0, 0.5, Presentation::Mixed, None, Some("归属, 归属"),
    );
    let groups = group_by_motive(&vec![ev]);
    assert_eq!(groups.len(), 1);
    assert_eq!(groups[0].0, "归属");
    assert_eq!(groups[0].1.len(), 1);
}

#[test]
fn overlaps_count_different_keywords() {
    let a = make_event_with_time("A", Some("工作, 会议, 工作"), 0.5, 0.6, 1);
    let b = make_event_with_time("B", Some("会议, 项目"), 0.5, 0.6, 1);
    assert_eq!(keyword_overlap(&a, &b), (1, 3));
    assert_eq!(keyword_overlap(&b, &a), (1, 3));
    let c = make_event_with_time("C", None, 0.5, 0.6, 1);
    assert_eq!(keyword_overlap(&a, &c), (0, 2));
    assert_eq!(cluster_overlaps(&vec![a, b, c]).len(), 3);
}

#[test]
fn batches_at_the_interval_are_different() {
    let config = TentativePromotionConfig::default();
    let a = make_event_with_time("A", None, 0.5, 0.6, 1000);
    let b = make_event_with_time("B", None, 0.5, 0.6, 1000 + 6 * 3600 * 1000);
    assert!(are_different_batches(&a, &b, &config));
    assert!(are_different_batches(&b, &a, &config));
    let c = make_event_with_time("C", None, 0.5, 0.6, 999 + 6 * 3600 * 1000);
    assert!(!are_different_batches(&a, &c, &config));
}

#[test]
fn feelings_are_at_most_one() {
    for (valence, expected) in [(-0.5, 0.5), (0.25, 0.25), (-3.0, 1.0), (f64::NAN, 1.0), (-0.0, 0.0)] {
        let ev = make_event("E", "s", None, 0.9, 0.8, valence, 0.5, Presentation::Mixed, None);
        assert_eq!(number(EventEnrichment::from_event(&ev).emotional_intensity), expected);
    }
}

#[test]
fn values_are_ordered_from_the_largest() {
    let values = vec![as_real(0.5), as_real(2.0), as_real(-1.0), as_real(0.5), as_real(-0.0), as_real(0.0)];
    assert_eq!(descending_order(&values), vec![1, 0, 3, 4, 5, 2]);
}

#[test]
fn representatives_follow_the_order_of_the_categories() {
    let make = |title: &str, category: &str, salience: f64| {
        make_event(title, "s", Some(category), 0.9, salience, 0.5, 0.5, Presentation::Mixed, None)
    };
    let events = vec![
        make("w1", "工作", 0.3),
        make("s1", "社交", 0.9),
        make("w2", "工作", 0.7),
        make("w3", "工作", 0.7),
        make("x1", "其他", 0.4),
        make("y1", "另外", 0.8),
    ];
    let order = vec!["工作".to_string(), "社交".to_string()];
    let found = select_representative_events(&events, &order, 2);
    let titles: Vec<&str> = found.iter().map(|r| r.title.as_str()).collect();
    assert_eq!(titles, vec!["w2", "w3", "s1", "y1", "x1"]);
    assert_eq!(found[0].category, "工作");
    assert!(select_representative_events(&events, &order, 0).is_empty());
}

#[test]
fn events_that_count_are_confirmed_ones_first() {
    let make = |title: &str, confidence: f64| {
        make_event(title, "s", None, confidence, 0.5, 0.0, 0.5, Presentation::Mixed, None)
    };
    let events = vec![make("a", 0.5), make("b", 0.9), make("c", 0.1), make("d", 0.7)];
    let plan = plan_phase_a_stats(&events, &StatsConfig::default());
    let titles: Vec<&str> = plan.active.iter().map(|e| e.title.as_str()).collect();
    assert_eq!(titles, vec!["b", "d", "a"]);
    assert_eq!(plan.max_recurrence, 3);
    assert_eq!(plan.recurrence, vec![3, 3, 3]);
    let strict = StatsConfig {
        use_calibrated_weights: false,
        confidence_threshold: as_real(0.8),
        ..Default::default()
    };
    let plan = plan_phase_a_stats(&events, &strict);
    assert_eq!(plan.active.len(), 1);
    assert_eq!(plan.discarded_count, 3);
    assert!(plan.motives.is_empty());
}

#[test]
fn categories_and_motives_come_with_their_figures() {
    let make = |category: &str, salience: f64, motives: &str| {
        make_event_with_motives(
            "E",
            "s",
            Some(category),
            0.9,
            salience,
            0.5,
            0.25,
            Presentation::Objective,
            None,
            Some(motives),
        )
    };
    let events = vec![
        make("工作", 0.2, "归属"),
        make("社交", 0.9, "归属,自主性"),
        make("工作", 0.3, "公平"),
    ];
    let summary = run_phase_a_stats(&events, &StatsConfig::default());
    assert_eq!(summary.categories[0].category, "社交");
    assert_eq!(summary.categories[0].event_count, 1);
    assert_eq!(summary.categories[1].category, "工作");
    assert_eq!(summary.categories[1].event_count, 2);
    assert_eq!(number(summary.categories[1].n_eff), 0.5);
    assert_eq!(number(summary.categories[1].share_mean), 0.25);
    assert_eq!(number(summary.categories[1].presentation_objective_ratio), 1.0);
    let names: Vec<&str> = summary.motive_stats.iter().map(|m| m.motive.as_str()).collect();
    assert_eq!(names, vec!["归属", "自主性", "公平"]);
    assert_eq!(summary.motive_stats[0].event_count, 2);
    assert_eq!(number(summary.motive_stats[2].avg_salience), 0.3);
    let titles: Vec<&str> = summary
        .representative_events
        .iter()
        .map(|r| r.category.as_str())
        .collect();
    assert_eq!(titles, vec!["社交", "工作", "工作"]);
}

#[test]
fn enrichments_go_by_identifier() {
    let known = |n: usize| EventEnrichment {
        source_count: n,
        ..EventEnrichment::default()
    };
    let mut events: Vec<MemoryEvent> = Vec::new();
    for id in [7, 8, 7, 9] {
        let mut ev = make_event_with_time("E", None, 0.9, 0.8, 1);
        ev.id = id;
        events.push(ev);
    }
    let list = vec![known(1), known(2), known(3)];
    let own = group_enrichments(&events, &[2, 1, 3, 0], &list);
    let sources: Vec<usize> = own.iter().map(|e| e.source_count).collect();
    assert_eq!(sources, vec![1, 2, 0, 1]);
    assert_eq!(own[2], EventEnrichment::default());
}

#[test]
fn a_repeated_motive_is_told_of_one_event() {
    let ev = make_event_with_motives(
        "E", "s", None, 0.9, 0.5, 0.0, 0.5, Presentation::Mixed, None, Some("a,a"),
    );
    let plan = plan_phase_a_stats(&vec![ev], &StatsConfig::default());
    let figures = vec![simple_figures(&plan.active, &[0], 1.0); plan.motives.len()];
    let told = rank_motives(&plan.motives, &figures);
    assert_eq!(told.len(), 1);
    assert_eq!(told[0].motive, "a");
    assert_eq!(told[0].event_count, 1);
}

#[test]
fn discarded_events_change_two_counts() {
    let config = StatsConfig::default();
    let keep = vec![
        make_event_with_time("A", Some("工作"), 0.9, 0.8, 1),
        make_event_with_time("B", Some("家庭"), 0.5, 0.8, 2),
    ];
    let plain = plan_phase_a_stats(&keep, &config);
    for at in 0..3 {
        let mut events = keep.clone();
        events.insert(at, make_event_with_time("C", Some("工作"), 0.1, 0.8, 3));
        let plan = plan_phase_a_stats(&events, &config);
        assert_eq!(plan.total_events_in, plain.total_events_in + 1);
        assert_eq!(plan.discarded_count, plain.discarded_count + 1);
        assert_eq!(plan.confirmed_count, plain.confirmed_count);
        assert_eq!(plan.tentative_count, plain.tentative_count);
        assert_eq!(plan.categories, plain.categories);
        assert_eq!(plan.recurrence, plain.recurrence);
        let titles: Vec<&str> = plan.active.iter().map(|e| e.title.as_str()).collect();
        assert_eq!(titles, vec!["A", "B"]);
    }
}

#[test]
fn categories_are_stood_for_in_full() {
    let mut events: Vec<MemoryEvent> = Vec::new();
    for (title, category, salience) in [
        ("A", "工作", 0.1),
        ("B", "工作", 0.9),
        ("C", "家庭", 0.5),
        ("D", "工作", 0.5),
        ("E", "工作", 0.5),
    ] {
        events.push(make_event_with_time(title, Some(category), 0.9, salience, 1));
    }
    for (max, expected) in [
        (0, vec![]),
        (1, vec!["B", "C"]),
        (3, vec!["B", "D", "E", "C"]),
        (9, vec!["B", "D", "E", "A", "C"]),
    ] {
        let categories = vec!["工作".to_string(), "家庭".to_string()];
        let chosen = select_representative_events(&events, &categories, max);
        let titles: Vec<&str> = chosen.iter().map(|e| e.title.as_str()).collect();
        assert_eq!(titles, expected);
    }
}

#[test]
fn promotion_changes_the_confidence_alone() {
    let config = TentativePromotionConfig::default();
    let late = 1_700_000_000_000 + 8 * 3600 * 1000;
    let tentative = vec![
        make_event_with_time("A", Some("工作, 会议"), 0.5, 0.6, 1_700_000_000_000),
        make_event_with_time("B", Some("家庭"), 0.46, 0.5, late),
        make_event_with_time("C", Some("工作, 会议"), 0.55, 0.4, late),
    ];
    let result = promote(&tentative, &Vec::new(), &config);
    let told = |v: &Vec<MemoryEvent>| -> Vec<(String, f64, f64)> {
        v.iter()
            .map(|e| (e.title.clone(), number(e.confidence), number(e.salience)))
            .collect()
    };
    assert_eq!(
        told(&result.promoted),
        vec![("A".to_string(), 0.6, 0.6), ("C".to_string(), 0.6, 0.4)]
    );
    assert_eq!(
        told(&result.remaining_tentative),
        vec![("B".to_string(), 0.46, 0.5)]
    );
}
