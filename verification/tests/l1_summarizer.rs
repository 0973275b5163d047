//! Tests of summarising conversations.

use ramaria_memory::binary64::Real;
use ramaria_memory::keyword::token::KeywordToken;
use ramaria_memory::l1::run::{
    plan_session, settle_blocks, ChunkError, ChunkL1, SessionPlan, SummaryAction, SummaryEvent,
    SummaryMode, SummaryRun,
};
use ramaria_memory::l1::summarizer::{
    blocks_or_whole, build_prior_context, chunk_request, collect_evidence_notes, finish_chunk,
    format_messages, is_progressive_triggered, json_candidates, keyword_candidates, keyword_rows,
    normalize_optional_slot, parse_failure_text, parse_keywords, progressive_splitter,
    session_message, slot_suffix, validate_and_build, validate_continuation,
    validate_evidence_notes, wants_segments, EvidenceItem, EvidenceNote, L1ProgressiveConfig,
    L1SummarizerConfig, L1SummaryResponse, MemoryL1, Message, MessageRole,
};
use ramaria_memory::utils::{
    clamp_salience, clamp_valence, extract_first_json_object, strip_thinking,
};

fn as_real(x: f64) -> Real {
    Real { bits: x.to_bits() }
}

fn number(x: Real) -> f64 {
    f64::from_bits(x.bits)
}

/// Reads an item of the list of notes as the caller of the library does.
fn read_item(v: &serde_json::Value) -> EvidenceItem {
    if let Some(s) = v.as_str() {
        return EvidenceItem::Text(s.to_string());
    }
    let object = match v.as_object() {
        Some(o) => o,
        None => return EvidenceItem::Other,
    };
    let text = match object.get("text").and_then(|x| x.as_str()) {
        Some(s) => s.to_string(),
        None => return EvidenceItem::Malformed,
    };
    let slot = |key: &str| {
        object
            .get(key)
            .and_then(|x| x.as_str())
            .map(|s| s.to_string())
    };
    EvidenceItem::Note(EvidenceNote {
        text,
        time: slot("time"),
        who: slot("who"),
        cause: slot("cause"),
    })
}

/// Reads an answer as the caller of the library does.
fn read_response(raw: &str) -> Option<L1SummaryResponse> {
    let v: serde_json::Value = serde_json::from_str(raw).ok()?;
    let object = v.as_object()?;
    let text = |key: &str| {
        object
            .get(key)
            .and_then(|x| x.as_str())
            .map(|s| s.to_string())
    };
    let float = |key: &str| object.get(key).and_then(|x| x.as_f64()).map(as_real);
    let items = object
        .get("evidence_notes")
        .and_then(|x| x.as_array())
        .map(|a| a.iter().map(read_item).collect());
    Some(L1SummaryResponse {
        summary: text("summary"),
        keywords: text("keywords"),
        time_period: text("time_period"),
        atmosphere: text("atmosphere"),
        valence: float("valence"),
        salience: float("salience"),
        situation_strength: object
            .get("situation_strength")
            .and_then(|x| x.as_i64())
            .map(|x| x as i32),
        evidence_notes: collect_evidence_notes(items),
        continuation: text("continuation"),
    })
}

fn response(summary: &str) -> L1SummaryResponse {
    L1SummaryResponse {
        summary: Some(summary.into()),
        keywords: None,
        time_period: None,
        atmosphere: None,
        valence: Some(as_real(0.5)),
        salience: Some(as_real(0.5)),
        situation_strength: None,
        evidence_notes: None,
        continuation: None,
    }
}

fn message(role: MessageRole, created_at: i64, content: &str) -> Message {
    Message {
        role,
        content: content.to_string(),
        created_at,
        persona_uid: None,
    }
}

fn target_msg(created_at: i64, content: &str) -> Message {
    let mut m = message(MessageRole::Assistant, created_at, content);
    m.persona_uid = Some("char-0001".to_string());
    m
}

fn user_msg(created_at: i64, content: &str) -> Message {
    message(MessageRole::User, created_at, content)
}

fn make_l1(summary: &str, notes: Vec<EvidenceNote>) -> MemoryL1 {
    MemoryL1 {
        id: 1,
        session_id: 2,
        summary: summary.to_string(),
        keywords: None,
        time_period: None,
        atmosphere: None,
        valence: as_real(0.0),
        salience: as_real(0.5),
        absorbed: false,
        created_at: 0,
        last_accessed_at: None,
        persona_uid: Some("char-0001".to_string()),
        context_json: None,
        situation_strength: None,
        evidence_notes: Some(notes),
        continuation: Some("延续".to_string()),
    }
}

#[test]
fn default_config_max_tokens_sufficient() {
    let cfg = L1SummarizerConfig::default();
    assert_eq!(cfg.max_tokens, 1024, "L1 默认 max_tokens 应为 1024");
    assert!(
        (number(cfg.temperature) - 0.3).abs() < f64::EPSILON,
        "temperature 默认 0.3"
    );
}

#[test]
fn extract_with_markdown_block() {
    let input = "```json\n{\"summary\": \"测试\"}\n```";
    let result = extract_first_json_object(input).unwrap();
    assert!(result.contains("\"summary\""));
}

#[test]
fn clamp_valence_boundary() {
    let result = number(clamp_valence(as_real(0.25)));
    assert!(result == 0.0 || result == 0.5);
}

#[test]
fn levels_are_the_nearest_ones() {
    for (x, level) in [
        (-7.0, -1.0),
        (-0.6, -0.5),
        (0.1, 0.0),
        (0.3, 0.5),
        (0.9, 1.0),
        (f64::NAN, 0.0),
    ] {
        assert_eq!(number(clamp_valence(as_real(x))), level, "valence {x}");
    }
    for (x, level) in [
        (-7.0, 0.0),
        (0.2, 0.25),
        (0.45, 0.5),
        (0.7, 0.75),
        (0.95, 1.0),
        (f64::NAN, 0.5),
    ] {
        assert_eq!(number(clamp_salience(as_real(x))), level, "salience {x}");
    }
}

#[test]
fn validate_summary_empty_fallback() {
    let parsed = response("");
    let (l1, _keywords) = validate_and_build(&parsed, 1, 2, 3);
    assert!(l1.summary.contains("失败"));
}

#[test]
fn validate_time_period_invalid() {
    let mut parsed = response("测试摘要");
    parsed.time_period = Some("午夜".into());
    parsed.valence = Some(as_real(0.0));
    let (l1, _) = validate_and_build(&parsed, 1, 2, 3);
    assert!(l1.time_period.is_none(), "非法 time_period 应被过滤");
}

#[test]
fn validate_time_period_trimmed() {
    let mut parsed = response("测试摘要");
    parsed.time_period = Some(" 深夜 ".into());
    let (l1, _) = validate_and_build(&parsed, 1, 2, 3);
    assert_eq!(l1.time_period.as_deref(), Some("深夜"));
    assert_eq!((l1.session_id, l1.id, l1.created_at), (1, 2, 3));
    assert!(!l1.absorbed);
}

#[test]
fn validate_atmosphere_truncation() {
    let mut parsed = response("测试摘要");
    parsed.time_period = Some("上午".into());
    parsed.atmosphere = Some("非常轻松愉快的一天".into());
    let (l1, _) = validate_and_build(&parsed, 1, 2, 3);
    let atm = l1.atmosphere.unwrap();
    assert!(atm.chars().count() <= 4, "atmosphere 应截断到 ≤4 字: {atm}");
    assert_eq!(atm, "非常轻松");
}

#[test]
fn validate_keywords_parsing() {
    let mut parsed = response("测试");
    parsed.keywords = Some("工作, 学习, 编程".into());
    parsed.time_period = Some("下午".into());
    parsed.atmosphere = Some("专注高效".into());
    parsed.valence = Some(as_real(0.0));
    let (_l1, keywords) = validate_and_build(&parsed, 1, 2, 3);
    assert_eq!(keywords.len(), 3);
    assert!(keywords.contains(&KeywordToken::new("工作").unwrap()));
    assert!(keywords.contains(&KeywordToken::new("学习").unwrap()));
    assert!(keywords.contains(&KeywordToken::new("编程").unwrap()));
}

#[test]
fn parse_valid_json_direct() {
    let raw = r#"{"summary": "测试摘要", "valence": 0.5, "salience": 0.5}"#;
    let parsed = read_response(raw).unwrap();
    assert_eq!(parsed.summary.unwrap(), "测试摘要");
}

#[test]
fn parse_with_think_tags() {
    let raw = "<think>reasoning</think>\n{\"summary\": \"测试\"}";
    let stripped = strip_thinking(raw);
    let parsed = read_response(&stripped).unwrap();
    assert_eq!(parsed.summary.unwrap(), "测试");
}

#[test]
fn parse_with_prefix_text() {
    let raw = "这是前缀说明文字 {\"summary\": \"测试\", \"valence\": 0.0}";
    let extracted = extract_first_json_object(raw).unwrap();
    let parsed = read_response(&extracted).unwrap();
    assert_eq!(parsed.summary.unwrap(), "测试");
}

#[test]
fn parse_situation_strength_from_json() {
    let raw = r#"{"summary": "测试", "valence": 0.0, "salience": 0.5, "situation_strength": 2}"#;
    let parsed = read_response(raw).unwrap();
    assert_eq!(parsed.situation_strength, Some(2));
}

#[test]
fn parse_situation_strength_missing_defaults_none() {
    let raw = r#"{"summary": "测试", "valence": 0.0, "salience": 0.5}"#;
    let parsed = read_response(raw).unwrap();
    assert_eq!(parsed.situation_strength, None);
}

#[test]
fn validate_and_build_does_not_inject_situation_strength() {
    for llm_value in [Some(5), None] {
        let mut parsed = response("测试摘要");
        parsed.time_period = Some("上午".into());
        parsed.atmosphere = Some("轻松".into());
        parsed.situation_strength = llm_value;
        let (l1, _) = validate_and_build(&parsed, 1, 2, 3);
        assert_eq!(
            l1.situation_strength, None,
            "validate_and_build 不应注入 situation_strength（LLM 输入 {llm_value:?}）"
        );
    }
}

#[test]
fn summarize_session_injects_situation_strength_priority() {
    for (answer, configured, expected) in [
        (Some(5), Some(2), 5),
        (Some(5), None, 5),
        (None, Some(2), 2),
        (None, None, 3),
    ] {
        let mut parsed = response("测试摘要");
        parsed.situation_strength = answer;
        let config = L1SummarizerConfig {
            situation_strength: configured,
            utt_splitter: None,
            ..Default::default()
        };
        let (l1, _) = finish_chunk(&parsed, 1, 2, 3, &config, false);
        assert_eq!(l1.situation_strength, Some(expected));
    }
}

#[test]
fn evidence_notes_valid_list_is_preserved() {
    let notes = vec![
        EvidenceNote::new("用户表示最近一个月每天加班到10点以后"),
        EvidenceNote::new("用户说'感觉身体被掏空了'"),
        EvidenceNote::new("用户提到'周末也经常被叫去开会'"),
    ];
    let result = validate_evidence_notes(&Some(notes));
    assert_eq!(result.len(), 3);
    assert!(result[0].text.contains("加班"));
}

#[test]
fn evidence_notes_null_downgrades_to_empty() {
    let result = validate_evidence_notes(&None);
    assert!(result.is_empty(), "evidence_notes 为 None 时应降级为空数组");
}

#[test]
fn evidence_notes_empty_array_downgrades_to_empty() {
    let result = validate_evidence_notes(&Some(vec![]));
    assert!(result.is_empty(), "evidence_notes 为空数组时应降级为空数组");
}

#[test]
fn evidence_notes_short_items_are_filtered() {
    let notes = vec![
        EvidenceNote::new("太长的一条完整证据描述文本"),
        EvidenceNote::new("短"),
        EvidenceNote::new("OK"),
        EvidenceNote::new("足够长的证据描述文本内容"),
    ];
    let result = validate_evidence_notes(&Some(notes));
    assert_eq!(result.len(), 2);
    assert!(result[0].text.contains("太长"));
    assert!(result[1].text.contains("足够"));
}

#[test]
fn evidence_notes_all_short_downgrades_to_empty() {
    let notes = vec![
        EvidenceNote::new("短"),
        EvidenceNote::new("A"),
        EvidenceNote::new("B"),
    ];
    let result = validate_evidence_notes(&Some(notes));
    assert!(result.is_empty(), "全部 evidence 过短时应降级为空数组");
}

#[test]
fn evidence_notes_of_five_characters_are_kept() {
    let notes = vec![EvidenceNote::new(" 一二三四五 "), EvidenceNote::new(" 一二三四 ")];
    let result = validate_evidence_notes(&Some(notes));
    assert_eq!(result.len(), 1);
    assert_eq!(result[0].text, "一二三四五");
}

#[test]
fn evidence_notes_parse_from_valid_json() {
    let raw = r#"{
            "summary": "测试",
            "valence": 0.0,
            "salience": 0.5,
            "evidence_notes": ["证据一：用户提到项目延期", "证据二：用户表示压力很大"]
        }"#;
    let parsed = read_response(raw).unwrap();
    let notes = parsed.evidence_notes.unwrap();
    assert_eq!(notes.len(), 2);
    assert!(notes[0].text.contains("项目延期"));
}

#[test]
fn evidence_notes_parse_structured_object_array() {
    let raw = r#"{
            "summary": "测试",
            "valence": 0.0,
            "salience": 0.5,
            "evidence_notes": [
                {"text": "用户提到项目延期", "time": "上周三", "who": "用户", "cause": "需求变更"}
            ]
        }"#;
    let parsed = read_response(raw).unwrap();
    let notes = parsed.evidence_notes.unwrap();
    assert_eq!(notes.len(), 1);
    assert_eq!(notes[0].text, "用户提到项目延期");
    assert_eq!(notes[0].time.as_deref(), Some("上周三"));
    assert_eq!(notes[0].who.as_deref(), Some("用户"));
    assert_eq!(notes[0].cause.as_deref(), Some("需求变更"));
}

#[test]
fn evidence_notes_parse_mixed_items() {
    let raw = r#"{
            "summary": "测试",
            "evidence_notes": ["旧格式字符串", {"text": "新格式对象"}]
        }"#;
    let parsed = read_response(raw).unwrap();
    let notes = parsed.evidence_notes.unwrap();
    assert_eq!(notes.len(), 2);
    assert_eq!(notes[0].text, "旧格式字符串");
    assert!(notes[0].time.is_none());
    assert_eq!(notes[1].text, "新格式对象");
}

#[test]
fn evidence_notes_parse_null_array_defaults_none() {
    let raw = r#"{"summary": "测试", "evidence_notes": null}"#;
    let parsed = read_response(raw).unwrap();
    assert!(parsed.evidence_notes.is_none());
}

#[test]
fn evidence_notes_parse_missing_field_defaults_none() {
    let raw = r#"{"summary": "测试", "valence": 0.0, "salience": 0.5}"#;
    let parsed = read_response(raw).unwrap();
    assert!(parsed.evidence_notes.is_none());
}

#[test]
fn validate_and_build_evidence_notes_present() {
    let mut parsed = response("测试摘要");
    parsed.time_period = Some("上午".into());
    parsed.atmosphere = Some("专注".into());
    parsed.valence = Some(as_real(0.0));
    parsed.evidence_notes = Some(vec![EvidenceNote::new("用户提到项目截止日期临近")]);
    let (l1, _) = validate_and_build(&parsed, 1, 2, 3);
    let notes = l1.evidence_notes.expect("evidence_notes 不应为 None");
    assert_eq!(notes.len(), 1);
    assert!(notes[0].text.contains("项目截止日期"));
}

#[test]
fn validate_and_build_evidence_notes_missing_downgrades() {
    let mut parsed = response("测试摘要");
    parsed.time_period = Some("上午".into());
    parsed.atmosphere = Some("轻松".into());
    let (l1, _) = validate_and_build(&parsed, 1, 2, 3);
    let notes = l1
        .evidence_notes
        .expect("evidence_notes 不应为 None，应为 Some(vec![])");
    assert!(notes.is_empty(), "缺失 evidence_notes 时应降级为空数组");
}

#[test]
fn evidence_notes_full_object_slots_preserved() {
    let notes = vec![EvidenceNote {
        text: "用户提到项目延期到月底".into(),
        time: Some("上周三".into()),
        who: Some("用户".into()),
        cause: Some("需求变更频繁".into()),
    }];
    let result = validate_evidence_notes(&Some(notes));
    assert_eq!(result.len(), 1);
    assert_eq!(result[0].text, "用户提到项目延期到月底");
    assert_eq!(result[0].time.as_deref(), Some("上周三"));
    assert_eq!(result[0].who.as_deref(), Some("用户"));
    assert_eq!(result[0].cause.as_deref(), Some("需求变更频繁"));
}

#[test]
fn evidence_notes_blank_optional_slots_normalized_to_none() {
    let notes = vec![EvidenceNote {
        text: "用户表示最近压力很大".into(),
        time: Some("".into()),
        who: Some("   ".into()),
        cause: Some("".into()),
    }];
    let result = validate_evidence_notes(&Some(notes));
    assert_eq!(result.len(), 1, "text 有效时条目应保留");
    assert!(result[0].time.is_none(), "空 time 应归一为 None");
    assert!(result[0].who.is_none(), "空白 who 应归一为 None");
    assert!(result[0].cause.is_none(), "空 cause 应归一为 None");
}

#[test]
fn evidence_notes_optional_slots_are_trimmed() {
    let notes = vec![EvidenceNote {
        text: "用户提到通勤时间变长".into(),
        time: Some(" 上周五 ".into()),
        who: Some(" 同事 ".into()),
        cause: Some(" 搬家 ".into()),
    }];
    let result = validate_evidence_notes(&Some(notes));
    assert_eq!(result[0].time.as_deref(), Some("上周五"));
    assert_eq!(result[0].who.as_deref(), Some("同事"));
    assert_eq!(result[0].cause.as_deref(), Some("搬家"));
}

#[test]
fn evidence_notes_parse_invalid_object_item_skipped() {
    let raw = r#"{
            "summary": "测试",
            "evidence_notes": [
                {"text": 123, "cause": "非法类型"},
                {"text": "用户提到项目顺利上线"}
            ]
        }"#;
    let parsed = read_response(raw).unwrap();
    let notes = parsed.evidence_notes.expect("应产出部分有效条目");
    assert_eq!(notes.len(), 1, "非法条目应被跳过，合法条目保留");
    assert_eq!(notes[0].text, "用户提到项目顺利上线");
}

#[test]
fn evidence_notes_parse_non_object_items_skipped() {
    let raw = r#"{
            "summary": "测试",
            "evidence_notes": [42, true, "用户提到天气转凉"]
        }"#;
    let parsed = read_response(raw).unwrap();
    let notes = parsed.evidence_notes.expect("应产出部分有效条目");
    assert_eq!(notes.len(), 1, "数字/布尔条目应被跳过");
    assert_eq!(notes[0].text, "用户提到天气转凉");
}

#[test]
fn optional_slots_are_trimmed_or_missing() {
    assert_eq!(normalize_optional_slot(None), None);
    assert_eq!(normalize_optional_slot(Some("  ".to_string())), None);
    assert_eq!(
        normalize_optional_slot(Some(" a b ".to_string())),
        Some("a b".to_string())
    );
}

#[test]
fn prior_context_short_block_injects_raw_text() {
    let chunk = vec![
        user_msg(1000, "今天工作好累"),
        target_msg(2000, "辛苦了，早点休息"),
    ];
    let cfg = L1SummarizerConfig::default();
    let ctx = build_prior_context(
        &chunk,
        Some(&make_l1("摘要", vec![])),
        &cfg,
        "用户：",
        "助手：",
    );
    assert!(ctx.contains("今天工作好累"), "应注入短块原文");
    assert!(ctx.contains("辛苦了，早点休息"), "应注入短块原文");
    assert!(!ctx.contains("[上一块摘要]"), "短块不应注入摘要形态");
}

#[test]
fn prior_context_long_block_injects_summary_and_notes() {
    let chunk: Vec<Message> = (0..21)
        .map(|i| {
            if i % 2 == 0 {
                target_msg(1000 + i * 1000, &format!("target 消息 {i}"))
            } else {
                user_msg(1000 + i * 1000, &format!("user 消息 {i}"))
            }
        })
        .collect();
    let prev_l1 = make_l1(
        "用户抱怨项目延期",
        vec![EvidenceNote {
            text: "用户提到项目延期到月底".into(),
            time: Some("上周三".into()),
            who: Some("用户".into()),
            cause: Some("需求变更频繁".into()),
        }],
    );
    let cfg = L1SummarizerConfig::default();
    let ctx = build_prior_context(&chunk, Some(&prev_l1), &cfg, "用户：", "助手：");
    assert!(ctx.contains("[上一块摘要] 用户抱怨项目延期"), "应注入摘要");
    assert!(ctx.contains("用户提到项目延期到月底"), "应注入线索 text");
    assert!(ctx.contains("时间：上周三"), "线索可选槽位应保留");
    assert!(ctx.contains("人物：用户"), "线索 who 槽位应保留");
    assert!(ctx.contains("原因：需求变更频繁"), "线索 cause 槽位应保留");
    assert_eq!(
        ctx,
        "[上一块摘要] 用户抱怨项目延期\n[上一块线索]\n- 用户提到项目延期到月底（时间：上周三 · 人物：用户 · 原因：需求变更频繁）"
    );
}

#[test]
fn prior_context_long_block_l1_without_notes_injects_summary_only() {
    let chunk: Vec<Message> = (0..21).map(|i| user_msg(1000 + i * 1000, "消息")).collect();
    let prev_l1 = make_l1("用户聊了天气", vec![]);
    let cfg = L1SummarizerConfig::default();
    let ctx = build_prior_context(&chunk, Some(&prev_l1), &cfg, "用户：", "助手：");
    assert!(ctx.contains("[上一块摘要] 用户聊了天气"));
    assert!(!ctx.contains("[上一块线索]"), "无线索时不应输出线索段落");
}

#[test]
fn prior_context_long_block_without_l1_truncates_raw() {
    let chunk: Vec<Message> = (0..21)
        .map(|i| user_msg(1000 + i * 1000, "这是一条足够长的用户消息内容用于截断测试"))
        .collect();
    let cfg = L1SummarizerConfig {
        prior_context_max_chars: 100,
        ..Default::default()
    };
    let ctx = build_prior_context(&chunk, None, &cfg, "用户：", "助手：");
    assert!(ctx.ends_with('…'), "应含统一省略号截断标记");
    assert!(
        ctx.chars().count() <= 100,
        "截断后长度受控（统一工具预算内含省略号）: {}",
        ctx.chars().count()
    );
}

#[test]
fn prior_context_threshold_boundary() {
    let cfg = L1SummarizerConfig::default();
    let mut chunk: Vec<Message> = (0..20).map(|i| user_msg(1000 + i * 1000, "内容")).collect();
    let ctx = build_prior_context(
        &chunk,
        Some(&make_l1("摘要", vec![])),
        &cfg,
        "用户：",
        "助手：",
    );
    assert!(!ctx.contains("[上一块摘要]"), "= 阈值仍为短块原文形态");
    chunk.push(user_msg(1000 + 20 * 1000, "内容"));
    let ctx2 = build_prior_context(
        &chunk,
        Some(&make_l1("摘要", vec![])),
        &cfg,
        "用户：",
        "助手：",
    );
    assert!(ctx2.contains("[上一块摘要]"), "超过阈值应注入 L1 摘要");
}

#[test]
fn slots_that_are_missing_leave_no_brackets() {
    assert_eq!(slot_suffix(&EvidenceNote::new("文")), "");
    let note = EvidenceNote {
        text: "文".into(),
        time: None,
        who: Some(" 甲 ".into()),
        cause: Some(" ".into()),
    };
    assert_eq!(slot_suffix(&note), "（人物：甲）");
}

#[test]
fn continuation_valid_values_kept() {
    for (raw, expected) in [("延续", "延续"), (" 转折 ", "转折"), ("无关", "无关")] {
        let v = validate_continuation(Some(raw));
        assert_eq!(v.as_deref(), Some(expected), "值 {raw} 应保留");
    }
}

#[test]
fn continuation_invalid_value_dropped() {
    let v = validate_continuation(Some("延续中"));
    assert!(v.is_none(), "非法 continuation 应置 None");
    let v2 = validate_continuation(Some("cont"));
    assert!(v2.is_none());
}

#[test]
fn continuation_missing_or_blank_dropped() {
    assert!(validate_continuation(None).is_none());
    assert!(validate_continuation(Some("   ")).is_none());
    assert!(validate_continuation(Some("")).is_none());
}

#[test]
fn messages_of_users_and_assistants_make_lines() {
    let list = vec![
        user_msg(1, "早"),
        message(MessageRole::System, 2, "系统"),
        target_msg(3, "好"),
        message(MessageRole::Tool, 4, "工具"),
    ];
    assert_eq!(format_messages(&list, "U:", "A:"), "U:早\nA:好");
    assert_eq!(format_messages(&Vec::new(), "U:", "A:"), "");
}

#[test]
fn keyword_fields_are_stored_and_split() {
    let (stored, list) = parse_keywords(Some(" 工作,, Rust , "));
    assert_eq!(stored.as_deref(), Some("工作,, Rust ,"));
    let names: Vec<&str> = list.iter().map(|t| t.as_str()).collect();
    assert_eq!(names, vec!["工作", "rust"]);
    assert!(parse_keywords(None).0.is_none());
    assert!(parse_keywords(Some("  ")).0.is_none());
}

#[test]
fn large_dictionaries_give_their_first_keywords() {
    assert_eq!(keyword_candidates(&Vec::new()), None);
    let some: Vec<String> = vec!["甲".into(), "乙".into()];
    assert_eq!(keyword_candidates(&some).as_deref(), Some("甲, 乙"));
    let hundred: Vec<String> = (0..100).map(|i| format!("k{i}")).collect();
    assert!(keyword_candidates(&hundred).unwrap().ends_with("k99"));
    let more: Vec<String> = (0..101).map(|i| format!("k{i}")).collect();
    assert!(keyword_candidates(&more).unwrap().ends_with(", k49"));
}

#[test]
fn answers_are_tried_in_order() {
    let plain = "{\"summary\":1}";
    assert_eq!(json_candidates(plain), vec![plain, plain]);
    let raw = "<think>{x}</think> 说明 {\"a\":\"}\"} 完";
    assert_eq!(
        json_candidates(raw),
        vec![raw, "说明 {\"a\":\"}\"} 完", "{x}"]
    );
    assert_eq!(json_candidates("无"), vec!["无"]);
}

#[test]
fn a_failure_to_read_tells_the_length_alone() {
    assert_eq!(
        parse_failure_text("这不是 JSON"),
        "L1 摘要 JSON 解析失败，原始响应 8 字符（不记录原文，防隐私泄漏）（若响应不完整，可能是 max_tokens 输出预算不足导致截断）"
    );
}

#[test]
fn sessions_are_named_in_messages() {
    let id = uuid::Uuid::from_u128(77);
    assert_eq!(
        session_message("session ", 77, " 无消息，无法生成摘要"),
        format!("session {id} 无消息，无法生成摘要")
    );
}

#[test]
fn keywords_are_stored_with_the_document() {
    let mut l1 = make_l1("摘要", vec![]);
    l1.id = 0xabc;
    let tokens = vec![
        KeywordToken::new("工作").unwrap(),
        KeywordToken::new("学习").unwrap(),
    ];
    let rows = keyword_rows(&l1, &tokens);
    assert_eq!(rows.len(), 2);
    assert_eq!(rows[1].keyword, "学习");
    assert_eq!(rows[1].doc_type, "l1");
    assert_eq!(rows[1].doc_id, uuid::Uuid::from_u128(0xabc).to_string());
    assert_eq!(rows[1].persona_uid, "char-0001");
    assert_eq!(number(rows[1].weight), 1.0);
    l1.persona_uid = None;
    assert_eq!(keyword_rows(&l1, &tokens)[0].persona_uid, "");
}

#[test]
fn requests_carry_the_prompt() {
    let config = L1SummarizerConfig::default();
    let chunk = vec![user_msg(1, "你好")];
    let request = chunk_request(&chunk, None, None, &config, "v3");
    assert_eq!(request.system_prompt, "");
    assert!(request.history.is_empty());
    assert_eq!(request.template_version.as_deref(), Some("v3"));
    assert!(request.user_message.contains("用户：你好"));
    assert!(!request.user_message.contains("continuation"));
    assert_eq!(request.max_tokens, 1024);
    let again = chunk_request(&chunk, None, Some("上文甲"), &config, "v3");
    assert!(again.user_message.contains("上文甲"));
    assert_ne!(request.request_id, again.request_id);
}

/// Drives a run: block `i` gets the answer `answers[i]`. Gives what was told to each block,
/// which summaries were stored, and the last action.
fn drive(
    mode: SummaryMode,
    blocks: Vec<Vec<Message>>,
    config: &L1SummarizerConfig,
    answers: &[&str],
) -> (Vec<Option<String>>, Vec<String>, SummaryAction, Vec<ChunkL1>) {
    let mut told = Vec::new();
    let mut stored = Vec::new();
    let (mut run, mut action) = SummaryRun::start(mode, blocks, config);
    loop {
        let event = match &action {
            SummaryAction::Generate(i, prior) => {
                told.push(prior.clone());
                let mut found = None;
                for text in json_candidates(answers[*i]) {
                    if found.is_none() {
                        found = read_response(&text);
                    }
                }
                match found {
                    Some(parsed) => {
                        let (l1, keywords) =
                            finish_chunk(&parsed, 1, *i as u128, 0, config, prior.is_some());
                        SummaryEvent::Generated(ChunkL1 { l1, keywords })
                    }
                    None => SummaryEvent::GenerationFailed(ChunkError::Unreadable(
                        parse_failure_text(answers[*i]),
                    )),
                }
            }
            SummaryAction::Save(i) => {
                stored.push(run.summary(*i).unwrap().l1.summary.clone());
                SummaryEvent::Saved
            }
            SummaryAction::WriteBack(i) => {
                assert!(run.summary(*i).is_some());
                SummaryEvent::WrittenBack
            }
            _ => break,
        };
        assert!(run.fits(&event));
        let next = run.step(event);
        run = next.0;
        action = next.1;
    }
    (told, stored, action, run.into_summaries())
}

fn two_blocks() -> Vec<Vec<Message>> {
    let t2 = 31 * 60_000;
    vec![
        vec![
            user_msg(0, "块1：用户开场"),
            target_msg(1000, "块1：助手回应"),
        ],
        vec![
            user_msg(t2, "块2：用户继续提问"),
            target_msg(t2 + 1000, "块2：助手回复"),
        ],
    ]
}

fn llm_json(summary: &str, continuation: Option<&str>) -> String {
    let more = match continuation {
        Some(c) => format!(",\"continuation\":\"{c}\""),
        None => String::new(),
    };
    format!(
        "{{\"summary\":\"{summary}\",\"keywords\":\"测试,关键词\",\"time_period\":\"上午\",\"atmosphere\":\"平静\",\"valence\":0.0,\"salience\":0.5,\"evidence_notes\":[]{more}}}"
    )
}

#[test]
fn multi_block_generates_one_l1_per_block_with_continuation() {
    let config = L1SummarizerConfig {
        persona_uid: Some("char-0001".into()),
        ..Default::default()
    };
    let one = llm_json("块1 摘要", None);
    let two = llm_json("块2 摘要（延续上一话题）", Some("延续"));
    let (_, stored, action, made) =
        drive(SummaryMode::Session, two_blocks(), &config, &[&one, &two]);
    assert_eq!(stored, vec!["块1 摘要", "块2 摘要（延续上一话题）"]);
    assert!(matches!(action, SummaryAction::ReturnOne(1)));
    assert!(made[0].l1.continuation.is_none());
    assert_eq!(made[1].l1.continuation.as_deref(), Some("延续"));
    assert_eq!(made[1].l1.persona_uid.as_deref(), Some("char-0001"));
}

#[test]
fn second_block_prompt_includes_prior_block_raw() {
    let config = L1SummarizerConfig::default();
    let one = llm_json("块1 摘要", None);
    let two = llm_json("块2 摘要", Some("无关"));
    let (told, _, _, _) = drive(SummaryMode::Session, two_blocks(), &config, &[&one, &two]);
    assert_eq!(told[0], None);
    assert_eq!(
        told[1].as_deref(),
        Some("用户：块1：用户开场\n助手：块1：助手回应")
    );
    let blocks = two_blocks();
    let request = chunk_request(&blocks[1], None, told[1].as_deref(), &config, "v3");
    assert!(request.user_message.contains("块1：用户开场"));
    assert!(request.user_message.contains("continuation"));
    assert!(request.user_message.contains("块2：用户继续提问"));
}

#[test]
fn single_block_session_matches_v1_4_behavior() {
    let config = L1SummarizerConfig::default();
    let blocks = vec![vec![user_msg(0, "单块消息"), target_msg(1000, "单块回复")]];
    let one = llm_json("单块摘要", Some("延续"));
    let (told, stored, _, made) = drive(SummaryMode::Session, blocks, &config, &[&one]);
    assert_eq!(told, vec![None]);
    assert_eq!(stored.len(), 1);
    assert!(made[0].l1.continuation.is_none());
}

#[test]
fn block_failure_degrades_and_later_blocks_continue() {
    let config = L1SummarizerConfig::default();
    let two = llm_json("块2 摘要", Some("转折"));
    let (told, stored, action, _) = drive(
        SummaryMode::Session,
        two_blocks(),
        &config,
        &["这不是 JSON", &two],
    );
    assert_eq!(stored, vec!["块2 摘要"]);
    assert!(told[1].as_ref().unwrap().contains("块1：用户开场"));
    assert!(matches!(action, SummaryAction::ReturnOne(1)));
}

#[test]
fn all_blocks_fail_returns_error_no_partial_write() {
    let config = L1SummarizerConfig::default();
    for mode in [SummaryMode::Session, SummaryMode::Progressive] {
        let (_, stored, action, made) = drive(mode, two_blocks(), &config, &["坏1", "坏二二"]);
        assert!(stored.is_empty());
        assert!(made.is_empty());
        match action {
            SummaryAction::ReturnError(ChunkError::Unreadable(e)) => {
                assert_eq!(e, parse_failure_text("坏二二"));
            }
            other => panic!("expected an error, got {other:?}"),
        }
    }
}

#[test]
fn a_storage_failure_stops_the_work() {
    let config = L1SummarizerConfig::default();
    let blocks = vec![vec![user_msg(0, "甲")]];
    let (run, _) = SummaryRun::start(SummaryMode::Session, blocks, &config);
    let parsed = response("摘要");
    let (l1, keywords) = finish_chunk(&parsed, 1, 2, 3, &config, false);
    let (run, action) = run.step(SummaryEvent::Generated(ChunkL1 { l1, keywords }));
    assert!(matches!(action, SummaryAction::Save(0)));
    assert!(!run.fits(&SummaryEvent::WrittenBack));
    let (_, action) = run.step(SummaryEvent::SaveFailed);
    assert!(matches!(action, SummaryAction::ReturnStorageError(0)));
}

#[test]
fn no_splitter_config_falls_back_to_v1_4_single_block() {
    let whole = vec![user_msg(0, "早上的消息"), user_msg(2 * 3600 * 1000, "深夜的消息")];
    let blocks = blocks_or_whole(Vec::new(), whole);
    assert_eq!(blocks.len(), 1);
    assert_eq!(blocks[0].len(), 2);
    let kept = blocks_or_whole(two_blocks(), Vec::new());
    assert_eq!(kept.len(), 2);
}

fn progressive_cfg() -> L1ProgressiveConfig {
    L1ProgressiveConfig {
        enabled: true,
        msg_threshold: 10,
        span_hours: 24,
        tail_msg_count: 5,
    }
}

#[test]
fn progressive_trigger_by_count_boundary() {
    let msgs_10: Vec<Message> = (0..10).map(|i| user_msg(i * 1000, "内容")).collect();
    let cfg = L1ProgressiveConfig {
        msg_threshold: 10,
        ..Default::default()
    };
    assert!(
        !is_progressive_triggered(&msgs_10, &cfg),
        "消息数恰好等于阈值不应触发"
    );

    let msgs_11: Vec<Message> = (0..11).map(|i| user_msg(i * 1000, "内容")).collect();
    assert!(
        is_progressive_triggered(&msgs_11, &cfg),
        "消息数超过阈值应触发"
    );
}

#[test]
fn progressive_trigger_by_span_boundary() {
    let span_23h = 23 * 3600 * 1000;
    let msgs_23h = vec![user_msg(0, "开头"), user_msg(span_23h, "结尾")];
    let cfg = L1ProgressiveConfig {
        span_hours: 24,
        ..Default::default()
    };
    assert!(
        !is_progressive_triggered(&msgs_23h, &cfg),
        "跨度 23h（≤ 阈值 24h）不应触发"
    );

    let msgs_25h = vec![user_msg(0, "开头"), user_msg(25 * 3600 * 1000, "结尾")];
    assert!(
        is_progressive_triggered(&msgs_25h, &cfg),
        "跨度 25h（> 阈值 24h）应触发"
    );
    let exact = vec![user_msg(0, "开头"), user_msg(24 * 3600 * 1000, "结尾")];
    assert!(!is_progressive_triggered(&exact, &cfg));
    let beyond = vec![user_msg(i64::MIN, "开头"), user_msg(i64::MAX, "结尾")];
    assert!(is_progressive_triggered(&beyond, &cfg));
}

/// Summarises a session that is not split; one summary is made and stored.
fn summarised_whole(messages: Vec<Message>, segments: &L1ProgressiveConfig, summary: &str) {
    let config = L1SummarizerConfig {
        utt_splitter: None,
        persona_uid: Some("char-0001".into()),
        ..Default::default()
    };
    assert!(matches!(
        plan_session(&messages, 1, Some(segments), &config),
        SessionPlan::Whole
    ));
    let answer = llm_json(summary, None);
    let (told, stored, action, made) =
        drive(SummaryMode::Session, vec![messages], &config, &[&answer]);
    assert_eq!(told, vec![None]);
    assert_eq!(stored, vec![summary]);
    assert!(matches!(action, SummaryAction::ReturnOne(0)));
    assert_eq!(made.len(), 1);
}

#[test]
fn progressive_disabled_falls_back_to_single_l1() {
    let msgs: Vec<Message> = (0..11).map(|i| user_msg(i * 1000, "长会话内容")).collect();
    let mut cfg = progressive_cfg();
    assert!(wants_segments(&msgs, &cfg));
    cfg.enabled = false;
    assert!(!wants_segments(&msgs, &cfg));
    summarised_whole(msgs, &cfg, "整会话摘要");
}

#[test]
fn progressive_triggered_generates_multiple_l1_in_candidate_pool() {
    let splitter = progressive_splitter(&progressive_cfg());
    assert_eq!(splitter.max_msgs_per_block, 5);
    assert_eq!(splitter.theta_gap_minutes, 10);
    let blocks: Vec<Vec<Message>> = [(0, 5), (5, 10), (10, 12)]
        .iter()
        .map(|(a, b)| {
            (*a..*b)
                .map(|i| user_msg(i * 1000, &format!("长会话消息 {i}")))
                .collect()
        })
        .collect();
    let config = L1SummarizerConfig::default();
    let one = llm_json("段 1 摘要", None);
    let two = llm_json("段 2 摘要", Some("延续"));
    let three = llm_json("段 3 摘要（尾部）", Some("延续"));
    let (told, stored, action, made) = drive(
        SummaryMode::Progressive,
        blocks,
        &config,
        &[&one, &two, &three],
    );
    assert!(matches!(action, SummaryAction::ReturnAll));
    assert_eq!(stored.len(), 3);
    assert!(made.iter().all(|c| !c.l1.absorbed));
    assert!(made[2].l1.summary.contains("尾部"));
    assert!(made[2].l1.continuation.is_some());
    assert!(told[2].as_ref().unwrap().contains("长会话消息 9"));
    assert!(!told[2].as_ref().unwrap().contains("长会话消息 4"));
}

#[test]
fn a_failed_segment_is_told_by_its_own_words() {
    let long: Vec<Message> = (0..21).map(|i| user_msg(i, "第二段")).collect();
    let blocks = vec![vec![user_msg(0, "第一段")], long, vec![user_msg(99, "第三段")]];
    let config = L1SummarizerConfig::default();
    let one = llm_json("段 1 摘要", None);
    let three = llm_json("段 3 摘要", None);
    let (told, stored, _, _) = drive(
        SummaryMode::Progressive,
        blocks,
        &config,
        &[&one, "坏", &three],
    );
    assert_eq!(stored, vec!["段 1 摘要", "段 3 摘要"]);
    let prior = told[2].as_ref().unwrap();
    assert!(prior.contains("第二段"));
    assert!(!prior.contains("段 1 摘要"));
}

#[test]
fn progressive_not_triggered_single_l1() {
    let msgs = vec![user_msg(0, "短会话消息 1"), user_msg(1000, "短会话消息 2")];
    assert!(!wants_segments(&msgs, &progressive_cfg()));
    summarised_whole(msgs, &progressive_cfg(), "短会话摘要");
}

/// A configuration without blocks.
fn whole_config(persona: Option<&str>) -> L1SummarizerConfig {
    L1SummarizerConfig {
        temperature: as_real(0.3),
        max_tokens: 2048,
        user_prefix: "用户：".into(),
        assistant_prefix: "助手：".into(),
        persona_uid: persona.map(|s| s.to_string()),
        context_json: None,
        situation_strength: None,
        utt_splitter: None,
        prior_context_threshold: 20,
        prior_context_max_chars: 1500,
    }
}

/// 测试 summarize_session 完整流程：消息→格式化→解析→校验→存储。
#[test]
fn summarize_session_integration_basic() {
    let messages = vec![
        user_msg(0, "今天天气真不错"),
        message(MessageRole::Assistant, 1, "是啊，适合出去走走"),
        user_msg(2, "不过最近工作有点累"),
    ];
    let config = whole_config(Some("test-persona"));
    assert!(matches!(
        plan_session(&messages, 1, None, &config),
        SessionPlan::Whole
    ));
    let candidates = keyword_candidates(&vec!["天气".into(), "工作".into(), "疲惫".into()]);
    let request = chunk_request(&messages, candidates.as_deref(), None, &config, "v3");
    assert!(request.user_message.contains("天气, 工作, 疲惫"));
    assert!(request.user_message.contains("助手：是啊，适合出去走走"));
    let answer = r#"{
        "summary": "用户和助手聊了天气和最近的工作状态",
        "keywords": "天气,工作压力,日常闲聊",
        "time_period": "上午",
        "atmosphere": "轻松闲聊",
        "valence": 0.3,
        "salience": 0.5,
        "evidence_notes": ["用户说天气不错", "用户提到最近工作有点累"]
    }"#;
    let blocks = blocks_or_whole(Vec::new(), messages);
    let (_, stored, action, made) = drive(SummaryMode::Session, blocks, &config, &[answer]);
    assert!(matches!(action, SummaryAction::ReturnOne(0)));
    let l1 = &made[0].l1;
    assert_eq!(l1.persona_uid, Some("test-persona".into()));
    assert!(l1.summary.contains("天气"), "摘要应包含天气相关内容");
    assert!(
        !l1.evidence_notes.as_ref().unwrap().is_empty(),
        "evidence_notes 不应为空"
    );
    assert_eq!(stored.len(), 1, "应保存 1 条 L1 记录");
    assert!(
        keyword_rows(l1, &made[0].keywords).len() >= 1,
        "应写入至少 1 个关键词"
    );
}

/// 测试空消息 session 返回错误。
#[test]
fn summarize_session_empty_messages_errors() {
    let config = whole_config(None);
    match plan_session(&Vec::new(), 77, Some(&progressive_cfg()), &config) {
        SessionPlan::Refuse(m) => assert_eq!(
            m,
            format!("session {} 无消息，无法生成摘要", uuid::Uuid::from_u128(77))
        ),
        _ => panic!("空消息 session 应返回错误"),
    }
}

/// 测试返回 JSON 中 evidence_notes 缺失时降级。
#[test]
fn summarize_session_missing_evidence_notes_degrades() {
    let config = whole_config(None);
    let answer = r#"{
        "summary": "一条测试消息",
        "keywords": "测试",
        "time_period": "未知",
        "atmosphere": "中性",
        "valence": 0.0,
        "salience": 0.3
    }"#;
    let blocks = vec![vec![user_msg(0, "测试消息")]];
    let (_, _, action, made) = drive(SummaryMode::Session, blocks, &config, &[answer]);
    assert!(
        matches!(action, SummaryAction::ReturnOne(0)),
        "缺少 evidence_notes 不应阻塞流程"
    );
    let notes = made[0]
        .l1
        .evidence_notes
        .as_ref()
        .expect("evidence_notes 应为 Some");
    assert!(notes.is_empty(), "缺失 evidence_notes 时应降级为空数组");
}

#[test]
fn sessions_are_planned_by_their_length() {
    let long: Vec<Message> = (0..11).map(|i| user_msg(i * 1000, "内容")).collect();
    let short = vec![user_msg(0, "内容")];
    let config = L1SummarizerConfig::default();
    let segments = progressive_cfg();
    match plan_session(&long, 1, Some(&segments), &config) {
        SessionPlan::Split(mode, c) => {
            assert_eq!(mode, SummaryMode::Progressive);
            assert_eq!(c.max_msgs_per_block, 5);
        }
        _ => panic!("segments"),
    }
    for plan in [
        plan_session(&short, 1, Some(&segments), &config),
        plan_session(&long, 1, None, &config),
    ] {
        match plan {
            SessionPlan::Split(mode, c) => {
                assert_eq!(mode, SummaryMode::Session);
                assert_eq!(Some(c), config.utt_splitter);
            }
            _ => panic!("blocks"),
        }
    }
}

#[test]
fn a_session_without_segments_is_planned_again() {
    let messages = vec![user_msg(0, "甲"), user_msg(1, "乙")];
    let back = match settle_blocks(SummaryMode::Progressive, Vec::new(), messages) {
        Err(back) => back,
        Ok(_) => panic!("no segments"),
    };
    assert_eq!(back.len(), 2);
    match settle_blocks(SummaryMode::Session, Vec::new(), back) {
        Ok(blocks) => assert_eq!(blocks.len(), 1),
        Err(_) => panic!("whole"),
    }
    match settle_blocks(SummaryMode::Progressive, two_blocks(), Vec::new()) {
        Ok(blocks) => assert_eq!(blocks.len(), 2),
        Err(_) => panic!("segments"),
    }
}
