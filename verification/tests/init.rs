//! Tests of the cold start.

use ramaria_memory::init::cold_start::{
    cold_start_prompt, format_blocks_for_prompt, parse_fact_source, parse_profile_field,
    parse_trait_layer, ColdAction, ColdEvent, ColdStart, ColdStartConfig, ColdStartFactJson,
    ColdStartResponse, ColdStartResult, ColdStartTraitJson, FactSource, PersonaKind,
    PersonaSummary, ProfileField, TraitLayer, TraitSource, TraitStatus, COLD_START_PROMPT,
};
use ramaria_memory::init::{parse_persona_toml, PersonaTomlError};

#[test]
fn test_parse_basic_persona_toml() {
    let content = r#"[identity]
assistant_name = "黎杋枫"
user_name = "烧酒"

[blocks]
A_persona = "你是黎杋枫。性格知性稳重。"
E_rules = "用||分隔回复。"
"#;

    let parsed = parse_persona_toml(content).expect("解析失败");
    assert_eq!(parsed.assistant_name, "黎杋枫");
    assert_eq!(parsed.user_name, "烧酒");
    assert_eq!(parsed.blocks.len(), 2);
    assert_eq!(parsed.blocks[0].0, "A_persona");
    assert_eq!(parsed.blocks[0].1, "你是黎杋枫。性格知性稳重。");
    assert_eq!(parsed.blocks[1].0, "E_rules");
    assert_eq!(parsed.blocks[1].1, "用||分隔回复。");
}

#[test]
fn test_parse_multiline_toml() {
    let content = r#"[identity]
assistant_name = "测试助手"
user_name = "用户"

[blocks]
A_persona = """
第一行内容
第二行内容
第三行内容
"""
"#;

    let parsed = parse_persona_toml(content).expect("解析失败");
    assert_eq!(parsed.assistant_name, "测试助手");
    assert_eq!(parsed.blocks.len(), 1);
    assert!(parsed.blocks[0].1.contains("第一行内容"));
    assert!(parsed.blocks[0].1.contains("第二行内容"));
    assert!(parsed.blocks[0].1.contains("第三行内容"));
}

#[test]
fn test_parse_empty_blocks() {
    let content = r#"[identity]
assistant_name = "test"
user_name = "user"

[blocks]
"#;

    let parsed = parse_persona_toml(content).expect("解析失败");
    assert_eq!(parsed.assistant_name, "test");
    assert_eq!(parsed.blocks.len(), 0);
}

#[test]
fn test_parse_missing_assistant_name() {
    let content = r#"[identity]
user_name = "user"
"#;

    let err = parse_persona_toml(content).unwrap_err();
    let err_msg = err.message();
    assert!(err_msg.contains("assistant_name"));
}

#[test]
fn test_parse_unclosed_multiline() {
    let content = r#"[identity]
assistant_name = "test"

[blocks]
A_persona = """
未闭合的多行字符串
"#;

    let err = parse_persona_toml(content).unwrap_err();
    let err_msg = err.message();
    assert!(err_msg.contains("未闭合"));
}

#[test]
fn test_parse_with_comments() {
    let content = r#"# 这是注释
[identity]
assistant_name = "name"
# 这也是注释
user_name = "user"
"#;

    let parsed = parse_persona_toml(content).expect("解析失败");
    assert_eq!(parsed.assistant_name, "name");
    assert_eq!(parsed.user_name, "user");
}

#[test]
fn test_parse_with_escaped_quotes() {
    let content = r#"[identity]
assistant_name = "name"
user_name = "user"

[blocks]
A_persona = '你是黎杋枫。被问及"是否是AI"时温柔回避。'
"#;

    let parsed = parse_persona_toml(content).expect("解析失败");
    assert_eq!(parsed.assistant_name, "name");
    assert_eq!(parsed.blocks.len(), 1);
    let block_value = &parsed.blocks[0].1;
    assert!(block_value.contains("黎杋枫"));
}

#[test]
fn test_parse_profile_field_english() {
    assert_eq!(parse_profile_field("BasicInfo"), ProfileField::BasicInfo);
    assert_eq!(
        parse_profile_field("PersonalStatus"),
        ProfileField::PersonalStatus
    );
    assert_eq!(parse_profile_field("Interests"), ProfileField::Interests);
    assert_eq!(parse_profile_field("Social"), ProfileField::Social);
    assert_eq!(parse_profile_field("History"), ProfileField::History);
    assert_eq!(
        parse_profile_field("RecentContext"),
        ProfileField::RecentContext
    );
    assert_eq!(
        parse_profile_field("SpeakingStyle"),
        ProfileField::SpeakingStyle
    );
}

#[test]
fn test_parse_profile_field_chinese() {
    assert_eq!(parse_profile_field("身份信息"), ProfileField::BasicInfo);
    assert_eq!(
        parse_profile_field("性格描述"),
        ProfileField::PersonalStatus
    );
    assert_eq!(parse_profile_field("兴趣爱好"), ProfileField::Interests);
    assert_eq!(parse_profile_field("社交关系"), ProfileField::Social);
    assert_eq!(parse_profile_field("背景"), ProfileField::History);
    assert_eq!(parse_profile_field("近期背景"), ProfileField::RecentContext);
    assert_eq!(parse_profile_field("说话风格"), ProfileField::SpeakingStyle);
}

#[test]
fn test_parse_profile_field_unknown() {
    assert_eq!(parse_profile_field("UnknownField"), ProfileField::BasicInfo);
}

#[test]
fn test_parse_trait_layer_english() {
    assert_eq!(parse_trait_layer("Base"), TraitLayer::Base);
    assert_eq!(parse_trait_layer("Primary"), TraitLayer::Primary);
    assert_eq!(parse_trait_layer("Accent"), TraitLayer::Accent);
}

#[test]
fn test_parse_trait_layer_chinese() {
    assert_eq!(parse_trait_layer("底色"), TraitLayer::Base);
    assert_eq!(parse_trait_layer("主色调"), TraitLayer::Primary);
    assert_eq!(parse_trait_layer("点缀"), TraitLayer::Accent);
}

#[test]
fn test_parse_trait_layer_unknown() {
    assert_eq!(parse_trait_layer("Unknown"), TraitLayer::Accent);
}

#[test]
fn test_format_blocks_for_prompt() {
    let blocks = vec![
        ("A_persona".to_string(), "你是助手".to_string()),
        ("E_rules".to_string(), "用||分隔".to_string()),
    ];
    let formatted = format_blocks_for_prompt(&blocks);
    assert!(formatted.contains("## A_persona"));
    assert!(formatted.contains("你是助手"));
    assert!(formatted.contains("## E_rules"));
    assert!(formatted.contains("用||分隔"));
}

#[test]
fn test_cold_start_result_new() {
    let result = ColdStartResult {
        persona_uid: "rama-0001".to_string(),
        is_new: true,
        fact_count: 15,
        trait_count: 8,
    };
    assert_eq!(result.persona_uid, "rama-0001");
    assert!(result.is_new);
    assert_eq!(result.fact_count, 15);
    assert_eq!(result.trait_count, 8);
}

#[test]
fn test_cold_start_result_existing() {
    let result = ColdStartResult {
        persona_uid: "rama-0001".to_string(),
        is_new: false,
        fact_count: 20,
        trait_count: 10,
    };
    assert!(!result.is_new);
}

#[test]
fn test_real_persona_toml_parse_and_prompt() {
    let content = r#"[identity]
assistant_name = "黎杋枫"
user_name = "烧酒"

[blocks]

A_persona = """
你是黎杋枫。女，生日3月21日。
你是烧酒的学习伙伴和生活挚友。
性格：知性稳重，情绪稳定，偶有冷幽默。
"""

E_rules = """
用||分隔成多条短句发送。
不反问。不重复对方的词开头。
"""
"#;

    let parsed = parse_persona_toml(content).expect("真实配置解析失败");
    assert_eq!(parsed.assistant_name, "黎杋枫");
    assert_eq!(parsed.user_name, "烧酒");
    assert!(parsed.blocks.len() >= 2);

    let prompt = cold_start_prompt(&parsed.blocks);
    assert!(prompt.contains("黎杋枫"));
    assert!(prompt.contains("知性稳重"));
    assert!(prompt.contains("用||分隔"));
    assert!(!prompt.contains("{persona_config}"));
}

#[test]
fn test_cold_start_config_default() {
    let cfg = ColdStartConfig::default();
    assert_eq!(f64::from_bits(cfg.temperature.bits), 0.3);
    assert_eq!(cfg.max_tokens, 4096);
}

/// The value under a key of an object.
fn text_at(v: &serde_json::Value, key: &str) -> Option<String> {
    v.get(key).and_then(|x| x.as_str()).map(|x| x.to_string())
}

/// Reads an answer as the caller of the library does.
fn read_response(json: &str) -> ColdStartResponse {
    let v: serde_json::Value = serde_json::from_str(json).expect("反序列化失败");
    let facts = v.get("facts").and_then(|x| x.as_array()).unwrap();
    let traits = v.get("traits").and_then(|x| x.as_array()).unwrap();
    ColdStartResponse {
        facts: facts
            .iter()
            .map(|f| ColdStartFactJson {
                field: text_at(f, "field").unwrap(),
                content: text_at(f, "content").unwrap(),
                source: text_at(f, "source"),
            })
            .collect(),
        traits: traits
            .iter()
            .map(|t| ColdStartTraitJson {
                layer: text_at(t, "layer").unwrap(),
                trait_label: text_at(t, "trait_label").unwrap(),
                meaning: text_at(t, "meaning").unwrap(),
                not_meaning: text_at(t, "not_meaning"),
                trigger: text_at(t, "trigger"),
                suppress: text_at(t, "suppress"),
                related: text_at(t, "related"),
            })
            .collect(),
    }
}

const FULL: &str = r#"{
    "facts": [
        {"field": "BasicInfo", "content": "她的名字是黎杋枫", "source": "Manual"},
        {"field": "PersonalStatus", "content": "她性格知性稳重"}
    ],
    "traits": [
        {
            "layer": "Base",
            "trait_label": "知性稳重",
            "meaning": "以理性克制的态度交流",
            "not_meaning": null,
            "trigger": "日常对话",
            "suppress": null,
            "related": "理性,情绪稳定"
        }
    ]
}"#;

#[test]
fn test_deserialize_full_response() {
    let resp = read_response(FULL);
    assert_eq!(resp.facts.len(), 2);
    assert_eq!(resp.facts[0].field, "BasicInfo");
    assert_eq!(resp.facts[0].content, "她的名字是黎杋枫");
    assert_eq!(resp.traits.len(), 1);
    assert_eq!(resp.traits[0].layer, "Base");
    assert_eq!(resp.traits[0].trait_label, "知性稳重");
}

#[test]
fn test_deserialize_minimal_response() {
    let resp = read_response(r#"{"facts": [], "traits": []}"#);
    assert!(resp.facts.is_empty());
    assert!(resp.traits.is_empty());
}

#[test]
fn test_deserialize_missing_source() {
    let json = r#"{
        "facts": [{"field": "BasicInfo", "content": "测试"}],
        "traits": []
    }"#;
    let resp = read_response(json);
    assert_eq!(resp.facts[0].source, None);
    assert_eq!(parse_fact_source(&resp.facts[0].source), FactSource::Manual);
}

#[test]
fn fact_sources_by_name() {
    assert_eq!(parse_fact_source(&Some("L1".to_string())), FactSource::L1);
    assert_eq!(
        parse_fact_source(&Some("Event".to_string())),
        FactSource::Event
    );
    assert_eq!(
        parse_fact_source(&Some("别处".to_string())),
        FactSource::Manual
    );
}

#[test]
fn comments_and_blank_lines_are_passed_over() {
    let plain = "[identity]\nassistant_name = \"a\"\n[blocks]\nk = \"\"\"\n一\n二\n\"\"\"\n";
    let noisy =
        "# x\n[identity]\n\nassistant_name = \"a\"\n[blocks]\nk = \"\"\"\n一\n # y\n\n二\n\"\"\"\n";
    let a = parse_persona_toml(plain).unwrap();
    let b = parse_persona_toml(noisy).unwrap();
    assert_eq!(a.blocks, b.blocks);
    assert_eq!(a.blocks[0].1, "一\n二");
}

#[test]
fn errors_of_persona_files() {
    assert_eq!(
        parse_persona_toml("").unwrap_err(),
        PersonaTomlError::MissingAssistantName
    );
    assert_eq!(
        parse_persona_toml("[blocks]\nk = \"\"\"\n").unwrap_err(),
        PersonaTomlError::UnclosedMultiline
    );
    assert_eq!(
        parse_persona_toml("[identity]\nassistant_name = \"\n").unwrap_err(),
        PersonaTomlError::LoneQuote
    );
    assert_eq!(
        parse_persona_toml("[other]\nk = \"\n[blocks]\nm = \"\"\"\n").unwrap_err(),
        PersonaTomlError::LoneQuote
    );
    assert_eq!(
        PersonaTomlError::LoneQuote.message(),
        "persona.toml 中存在未闭合的引号 (\")"
    );
    let empty = "[identity]\nassistant_name = \"甲\"\n[blocks]\nk = \"\"\n";
    assert_eq!(parse_persona_toml(empty).unwrap().blocks[0].1, "");
}

#[test]
fn a_long_text_belongs_to_its_section() {
    let content = "[identity]\nassistant_name = \"A\"\nnote = \"\"\"\nx\n\"\"\"\n";
    let p = parse_persona_toml(content).unwrap();
    assert_eq!(p.assistant_name, "A");
    assert_eq!(p.user_name, "");
    assert!(p.blocks.is_empty());
    let other = "[identity]\nassistant_name = \"A\"\n[other]\nk = \"\"\"\nx\n\"\"\"\n";
    assert!(parse_persona_toml(other).unwrap().blocks.is_empty());
    let block = "[identity]\nassistant_name = \"A\"\n[blocks]\nk = \"\"\"\n甲\n乙 \n\"\"\"\n";
    let p = parse_persona_toml(block).unwrap();
    assert_eq!(p.blocks, vec![("k".to_string(), "甲\n乙".to_string())]);
}

#[test]
fn a_name_stands_on_one_line() {
    let long = "[identity]\nassistant_name = \"\"\"\n甲\n\"\"\"\n";
    assert!(matches!(
        parse_persona_toml(long),
        Err(PersonaTomlError::MissingAssistantName)
    ));
    let both = "[identity]\nassistant_name = \"A\"\nuser_name = \"B\"\nassistant_name = \"\"\"\n甲\n\"\"\"\nuser_name = \"\"\"\n乙\n\"\"\"\n";
    let p = parse_persona_toml(both).unwrap();
    assert_eq!(p.assistant_name, "A");
    assert_eq!(p.user_name, "B");
}

const FILE: &str = "[identity]\nassistant_name = \"黎杋枫\"\n[blocks]\nA = \"你是助手\"\n";

fn step(run: ColdStart, event: ColdEvent) -> (ColdStart, ColdAction) {
    assert!(run.fits(&event), "{event:?} does not fit {run:?}");
    run.step(event)
}

/// A cold start that has made the persona and asks the model.
fn asking() -> (ColdStart, ColdAction) {
    let (run, action) = ColdStart::start(FILE.to_string(), ColdStartConfig::default());
    assert!(matches!(action, ColdAction::ListPersonas));
    let others = vec![
        PersonaSummary {
            uid: "user-0001".to_string(),
            kind: PersonaKind::Other,
            active: true,
        },
        PersonaSummary {
            uid: "rama-0000".to_string(),
            kind: PersonaKind::Rama,
            active: false,
        },
    ];
    let (run, action) = step(run, ColdEvent::Personas(others));
    match action {
        ColdAction::CreatePersona(p) => {
            assert_eq!(p.uid, "rama-0001");
            assert_eq!(p.name, "黎杋枫");
            assert_eq!(p.kind, PersonaKind::Rama);
            assert_eq!(p.display_order, 1);
            assert_eq!(p.source, "manual");
        }
        other => panic!("expected a persona, got {other:?}"),
    }
    step(run, ColdEvent::Created)
}

fn finished(action: ColdAction) -> ColdStartResult {
    match action {
        ColdAction::Finish(r) => r,
        other => panic!("expected a result, got {other:?}"),
    }
}

#[test]
fn an_existing_persona_is_counted_and_kept() {
    let (run, _) = ColdStart::start("[".to_string(), ColdStartConfig::default());
    let there = vec![PersonaSummary {
        uid: "rama-0007".to_string(),
        kind: PersonaKind::Rama,
        active: true,
    }];
    let (mut run, mut action) = step(run, ColdEvent::Personas(there));
    let mut fields = Vec::new();
    while let ColdAction::CountFacts(uid, field) = action {
        assert_eq!(uid, "rama-0007");
        fields.push(field);
        let next = step(run, ColdEvent::Counted(fields.len()));
        run = next.0;
        action = next.1;
    }
    assert_eq!(fields.len(), 7);
    assert_eq!(fields[0], ProfileField::BasicInfo);
    assert_eq!(fields[6], ProfileField::SpeakingStyle);
    assert!(matches!(action, ColdAction::CountTraits(ref u) if u == "rama-0007"));
    let r = finished(step(run, ColdEvent::Counted(5)).1);
    assert_eq!(r.persona_uid, "rama-0007");
    assert!(!r.is_new);
    assert_eq!(r.fact_count, 28);
    assert_eq!(r.trait_count, 5);
}

#[test]
fn a_new_persona_is_made_and_told() {
    let (run, action) = asking();
    match action {
        ColdAction::Ask(q) => {
            assert_eq!(
                q.system_prompt,
                "你是一个精确的角色画像分析助手。请严格按照要求的 JSON 格式输出。"
            );
            assert!(q.user_message.contains("## A\n\n你是助手\n\n"));
            assert_eq!(q.max_tokens, 4096);
            assert_eq!(
                uuid::Uuid::from_u128(q.request_id).get_version_num(),
                4
            );
        }
        other => panic!("expected a question, got {other:?}"),
    }
    let reply = format!("<think>想</think>好的 {FULL} 完");
    let (run, action) = step(run, ColdEvent::Reply(reply));
    let json = match action {
        ColdAction::ReadJson(j) => j,
        other => panic!("expected an object, got {other:?}"),
    };
    assert_eq!(json, FULL);
    let (run, action) = step(run, ColdEvent::Read(read_response(&json)));
    match action {
        ColdAction::SaveFact(f) => {
            assert_eq!(f.persona_uid, "rama-0001");
            assert_eq!(f.field, ProfileField::BasicInfo);
            assert_eq!(f.content, "她的名字是黎杋枫");
            assert_eq!(f.source, FactSource::Manual);
        }
        other => panic!("expected a fact, got {other:?}"),
    }
    let (run, action) = step(run, ColdEvent::Stored(false));
    assert!(matches!(action, ColdAction::SaveFact(_)));
    let (run, action) = step(run, ColdEvent::Stored(true));
    match action {
        ColdAction::SaveTrait(t) => {
            assert_eq!(t.layer, TraitLayer::Base);
            assert_eq!(t.trait_label, "知性稳重");
            assert_eq!(t.not_meaning, None);
            assert_eq!(t.trigger.as_deref(), Some("日常对话"));
            assert_eq!(t.source, TraitSource::Manual);
            assert_eq!(t.status, TraitStatus::Active);
            assert_eq!(t.display_order, 1);
        }
        other => panic!("expected a trait, got {other:?}"),
    }
    let r = finished(step(run, ColdEvent::Stored(true)).1);
    assert_eq!(r.persona_uid, "rama-0001");
    assert!(r.is_new);
    assert_eq!(r.fact_count, 1);
    assert_eq!(r.trait_count, 1);
}

#[test]
fn what_goes_wrong_after_the_persona_is_made_does_not_stop() {
    let (run, _) = asking();
    let r = finished(step(run, ColdEvent::NoReply).1);
    assert!(r.is_new);
    assert_eq!((r.fact_count, r.trait_count), (0, 0));
    let (run, _) = asking();
    let r = finished(step(run, ColdEvent::Reply("没有".to_string())).1);
    assert!(r.is_new);
    let (run, _) = asking();
    let (run, _) = step(run, ColdEvent::Reply("{}".to_string()));
    let r = finished(step(run, ColdEvent::Unreadable).1);
    assert!(r.is_new);
}

#[test]
fn a_bad_file_or_storage_stops_a_cold_start() {
    let (run, _) = ColdStart::start(String::new(), ColdStartConfig::default());
    let (_, action) = step(run, ColdEvent::Personas(Vec::new()));
    assert!(matches!(
        action,
        ColdAction::RefuseFile(PersonaTomlError::MissingAssistantName)
    ));
    let (run, _) = ColdStart::start(FILE.to_string(), ColdStartConfig::default());
    let (_, action) = step(run, ColdEvent::StorageFailed);
    assert!(matches!(action, ColdAction::ReturnStorageError));
    let lone = "[blocks]\nk = \"\n".to_string();
    let (run, _) = ColdStart::start(lone, ColdStartConfig::default());
    let (_, action) = step(run, ColdEvent::Personas(Vec::new()));
    assert!(matches!(
        action,
        ColdAction::RefuseFile(PersonaTomlError::LoneQuote)
    ));
}

#[test]
fn the_prompt_has_its_placeholder() {
    assert!(COLD_START_PROMPT.contains("{persona_config}"));
}
