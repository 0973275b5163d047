//! Cold start: making the persona of the assistant where there is none yet, as a machine of
//! steps.

use vstd::prelude::*;

use crate::binary64::Real;
use crate::chat::{asks, ChatRequest};
use crate::ids::{new_request_id, random_version};
use crate::init::{block_texts, parse_persona_toml, toml_error, toml_scan,
    PersonaTomlError};
use crate::text::{copy_opt, copy_text, opt_text, push_text, replace, replace_text, same_text,
    string_of};
use crate::utils::{extract_first_json_object, first_object, strip_thinking, unthought};

verus! {

/// The request to take a persona apart; the persona goes where the placeholder stands.
pub const COLD_START_PROMPT: &'static str = r#"你是一个角色画像结构化分析助手。请分析下面给出的角色设定配置，提取结构化的人物事实和性格标签。

【角色配置】
{persona_config}

【任务要求】
1. 提取 10-20 条结构化人物事实（facts），每条包含：
   - field: 必须从以下选项中选一个 —— "BasicInfo"（基础信息：姓名/年龄/性别/生日/身份）、"PersonalStatus"（近期状态/性格描述）、"Interests"（兴趣爱好/偏好/习惯）、"Social"（社交关系/与他人的关系）、"History"（背景/历史事件/经历）、"RecentContext"（近期背景/当前处境）、"SpeakingStyle"（说话风格/表达习惯/回复规则）
   - content: 用第三人称陈述句描述该事实，如"她的名字是黎杋枫"、"她性格知性稳重"
   - source: 始终填 "Manual"

2. 提取 5-15 条性格标签（traits），每条包含：
   - layer: 从以下选项中选一个 —— "Base"（底色，跨场景一致的基础性格，如"知性稳重"）、"Primary"（主色调，经常表现但非绝对的次要特质，如"冷幽默"）、"Accent"（点缀，特定场景下出现的条件性特质，如"引导探索不直接给答案"）
   - trait_label: 简短中文性格标签，如"知性"、"幽默感"、"回避型回应"
   - meaning: 这个标签的具体含义，1-2句话，第三人称
   - not_meaning: 不是什么意思（澄清边界），1-2句话，可选填null
   - trigger: 触发此特质的典型场景，可选填null
   - suppress: 抑制此特质的典型场景，可选填null
   - related: 与此特质相关的其他标签名（逗号分隔），可选填null

【输出格式要求】
严格按照以下 JSON 格式输出，不要输出任何其他内容（不要加 markdown 代码块，不要加说明文字）：

{
  "facts": [
    {
      "field": "BasicInfo",
      "content": "她的名字是黎杋枫",
      "source": "Manual"
    }
  ],
  "traits": [
    {
      "layer": "Base",
      "trait_label": "知性稳重",
      "meaning": "她以理性、克制的态度与人交流，不情绪化，保持一致的成熟气质",
      "not_meaning": "不是冷漠或疏离，她在稳重中仍有关心",
      "trigger": "日常对话、知识讲解、情绪安抚",
      "suppress": "极端紧急情况可能需要更直接表达",
      "related": "理性,情绪稳定"
    }
  ]
}

【注意事项】
- 从角色配置中提取所有明确陈述和隐含信息
- 如果配置中有具体的说话风格要求（如用||断句、不反问等），归入 SpeakingStyle
- 性格标签避免过度抽象（如"有思想"），应具体可操作（如"善于比喻讲解"）
- 输出必须为合法 JSON，字符串中使用双引号，不能使用单引号
- content 和 meaning 中避免直接复制配置原文，要用自己的话重新组织"#;

/// What the model is told to be.
pub const COLD_START_SYSTEM: &'static str =
    "你是一个精确的角色画像分析助手。请严格按照要求的 JSON 格式输出。";

/// The name of the persona that a cold start makes.
pub const RAMA_UID: &'static str = "rama-0001";

/// Where that persona stands among the others.
pub const RAMA_DISPLAY_ORDER: i64 = 1;

/// Where that persona comes from.
pub const RAMA_SOURCE: &'static str = "manual";

/// How the model is asked.
#[derive(Debug, Clone, Copy, PartialEq, Eq, Structural)]
pub struct ColdStartConfig {
    pub temperature: Real,
    pub max_tokens: u32,
}

impl Default for ColdStartConfig {
    /// The temperature is three tenths.
    fn default() -> (r: Self)
        ensures
            r.temperature == (Real { bits: 0x3fd3_3333_3333_3333 }),
            r.max_tokens == 4096,
    {
        ColdStartConfig {
            temperature: Real { bits: 0x3fd3_3333_3333_3333 },
            max_tokens: 4096,
        }
    }
}

/// What a cold start came to.
#[derive(Debug, Clone)]
pub struct ColdStartResult {
    pub persona_uid: String,
    /// Whether the persona was made just now.
    pub is_new: bool,
    pub fact_count: usize,
    pub trait_count: usize,
}

/// What a fact is about.
#[derive(Debug, Clone, Copy, PartialEq, Eq, Structural)]
pub enum ProfileField {
    BasicInfo,
    PersonalStatus,
    Interests,
    Social,
    History,
    RecentContext,
    SpeakingStyle,
}

/// How deep a trait lies.
#[derive(Debug, Clone, Copy, PartialEq, Eq, Structural)]
pub enum TraitLayer {
    Base,
    Primary,
    Accent,
}

/// Where a fact comes from.
#[derive(Debug, Clone, Copy, PartialEq, Eq, Structural)]
pub enum FactSource {
    L1,
    Event,
    Manual,
}

/// Where a trait comes from.
#[derive(Debug, Clone, Copy, PartialEq, Eq, Structural)]
pub enum TraitSource {
    /// From what people wrote.
    Manual,
    /// From elsewhere.
    Other,
}

/// Whether a trait holds at present.
#[derive(Debug, Clone, Copy, PartialEq, Eq, Structural)]
pub enum TraitStatus {
    Active,
    /// It does not hold, or not yet.
    Other,
}

/// The field that a name stands for; an unknown name stands for the basic facts.
pub open spec fn profile_field(s: Seq<char>) -> ProfileField {
    if s == "PersonalStatus"@ || s == "性格描述"@ || s == "性格"@ || s == "Personality"@ || s == "近期状态"@ {
        ProfileField::PersonalStatus
    } else if s == "Interests"@ || s == "兴趣爱好"@ || s == "偏好"@ || s == "习惯"@ || s == "Preference"@ || s == "偏好/习惯"@ {
        ProfileField::Interests
    } else if s == "Social"@ || s == "社交关系"@ || s == "关系"@ || s == "Relationship"@ || s == "社交情况"@ || s == "与他人的关系"@ {
        ProfileField::Social
    } else if s == "History"@ || s == "历史事件"@ || s == "背景"@ || s == "经历"@ || s == "Background"@ || s == "背景/经历"@ {
        ProfileField::History
    } else if s == "RecentContext"@ || s == "近期背景"@ || s == "当前处境"@ {
        ProfileField::RecentContext
    } else if s == "SpeakingStyle"@ || s == "说话风格"@ || s == "表达习惯"@ || s == "风格"@ || s == "说话风格/表达习惯"@ {
        ProfileField::SpeakingStyle
    } else {
        ProfileField::BasicInfo
    }
}

/// The field that a name stands for.
pub fn parse_profile_field(s: &str) -> (r: ProfileField)
    ensures
        r == profile_field(s@),
{
    if same_text(s, "PersonalStatus") || same_text(s, "性格描述") || same_text(s, "性格") || same_text(s, "Personality") || same_text(s, "近期状态") {
        ProfileField::PersonalStatus
    } else if same_text(s, "Interests") || same_text(s, "兴趣爱好") || same_text(s, "偏好") || same_text(s, "习惯") || same_text(s, "Preference") || same_text(s, "偏好/习惯") {
        ProfileField::Interests
    } else if same_text(s, "Social") || same_text(s, "社交关系") || same_text(s, "关系") || same_text(s, "Relationship") || same_text(s, "社交情况") || same_text(s, "与他人的关系") {
        ProfileField::Social
    } else if same_text(s, "History") || same_text(s, "历史事件") || same_text(s, "背景") || same_text(s, "经历") || same_text(s, "Background") || same_text(s, "背景/经历") {
        ProfileField::History
    } else if same_text(s, "RecentContext") || same_text(s, "近期背景") || same_text(s, "当前处境") {
        ProfileField::RecentContext
    } else if same_text(s, "SpeakingStyle") || same_text(s, "说话风格") || same_text(s, "表达习惯") || same_text(s, "风格") || same_text(s, "说话风格/表达习惯") {
        ProfileField::SpeakingStyle
    } else {
        ProfileField::BasicInfo
    }
}

/// The layer that a name stands for; an unknown name stands for the accents.
pub open spec fn trait_layer(s: Seq<char>) -> TraitLayer {
    if s == "Base"@ || s == "底色"@ || s == "基础"@ {
        TraitLayer::Base
    } else if s == "Primary"@ || s == "主色调"@ || s == "主要"@ {
        TraitLayer::Primary
    } else {
        TraitLayer::Accent
    }
}

/// The layer that a name stands for.
pub fn parse_trait_layer(s: &str) -> (r: TraitLayer)
    ensures
        r == trait_layer(s@),
{
    if same_text(s, "Base") || same_text(s, "底色") || same_text(s, "基础") {
        TraitLayer::Base
    } else if same_text(s, "Primary") || same_text(s, "主色调") || same_text(s, "主要") {
        TraitLayer::Primary
    } else {
        TraitLayer::Accent
    }
}

/// The source that a name stands for; an unknown or missing one stands for what people wrote.
pub open spec fn fact_source(o: Option<Seq<char>>) -> FactSource {
    if o == Some("L1"@) {
        FactSource::L1
    } else if o == Some("Event"@) {
        FactSource::Event
    } else {
        FactSource::Manual
    }
}

/// The source that a name stands for.
pub fn parse_fact_source(o: &Option<String>) -> (r: FactSource)
    ensures
        r == fact_source(opt_text(*o)),
{
    match o {
        Some(s) => if same_text(s.as_str(), "L1") {
            FactSource::L1
        } else if same_text(s.as_str(), "Event") {
            FactSource::Event
        } else {
            FactSource::Manual
        },
        None => FactSource::Manual,
    }
}

/// The number of fields.
pub const FIELD_COUNT: usize = 7;

/// The fields, in the order in which their facts are counted.
pub open spec fn field_at(i: int) -> ProfileField {
    if i == 0 {
        ProfileField::BasicInfo
    } else if i == 1 {
        ProfileField::PersonalStatus
    } else if i == 2 {
        ProfileField::Interests
    } else if i == 3 {
        ProfileField::Social
    } else if i == 4 {
        ProfileField::History
    } else if i == 5 {
        ProfileField::RecentContext
    } else {
        ProfileField::SpeakingStyle
    }
}

/// The field number `i`.
fn numbered_field(i: usize) -> (r: ProfileField)
    ensures
        r == field_at(i as int),
{
    if i == 0 {
        ProfileField::BasicInfo
    } else if i == 1 {
        ProfileField::PersonalStatus
    } else if i == 2 {
        ProfileField::Interests
    } else if i == 3 {
        ProfileField::Social
    } else if i == 4 {
        ProfileField::History
    } else if i == 5 {
        ProfileField::RecentContext
    } else {
        ProfileField::SpeakingStyle
    }
}

/// Every field is counted once.
pub proof fn law_every_field_is_counted(field: ProfileField)
    ensures
        exists|i: int| 0 <= i < FIELD_COUNT && #[trigger] field_at(i) == field,
        forall|i: int, j: int|
            0 <= i < FIELD_COUNT && 0 <= j < FIELD_COUNT && #[trigger] field_at(i)
                == #[trigger] field_at(j) ==> i == j,
{
    assert(field_at(0) == ProfileField::BasicInfo);
    assert(field_at(1) == ProfileField::PersonalStatus);
    assert(field_at(2) == ProfileField::Interests);
    assert(field_at(3) == ProfileField::Social);
    assert(field_at(4) == ProfileField::History);
    assert(field_at(5) == ProfileField::RecentContext);
    assert(field_at(6) == ProfileField::SpeakingStyle);
}

/// The blocks of a persona file as one text, each under its name.
pub open spec fn blocks_text(blocks: Seq<(Seq<char>, Seq<char>)>) -> Seq<char>
    decreases blocks.len(),
{
    if blocks.len() == 0 {
        Seq::empty()
    } else {
        blocks_text(blocks.drop_last()) + "## "@ + blocks.last().0 + "\n\n"@ + blocks.last().1
            + "\n\n"@
    }
}

/// The blocks of a persona file as one text, each under its name.
pub fn format_blocks_for_prompt(blocks: &Vec<(String, String)>) -> (r: String)
    ensures
        r@ == blocks_text(block_texts(blocks@)),
{
    let ghost all = block_texts(blocks@);
    let mut out: Vec<char> = Vec::new();
    let mut i: usize = 0;
    assert(out@ =~= blocks_text(all.take(0)));
    while i < blocks.len()
        invariant
            i <= blocks@.len(),
            all == block_texts(blocks@),
            out@ == blocks_text(all.take(i as int)),
        decreases blocks@.len() - i,
    {
        assert(all.take(i + 1).drop_last() =~= all.take(i as int));
        assert(all.take(i + 1).last() == (blocks@[i as int].0@, blocks@[i as int].1@));
        push_text(&mut out, "## ");
        push_text(&mut out, blocks[i].0.as_str());
        push_text(&mut out, "\n\n");
        push_text(&mut out, blocks[i].1.as_str());
        push_text(&mut out, "\n\n");
        i += 1;
    }
    assert(all.take(i as int) =~= all);
    string_of(&out)
}

/// The request to take the persona of a file apart.
pub open spec fn cold_prompt(content: Seq<char>) -> Seq<char> {
    replace(COLD_START_PROMPT@, "{persona_config}"@, blocks_text(toml_scan(content).blocks))
}

/// The request to take named blocks apart.
pub fn cold_start_prompt(blocks: &Vec<(String, String)>) -> (r: String)
    ensures
        r@ == replace(
            COLD_START_PROMPT@,
            "{persona_config}"@,
            blocks_text(block_texts(blocks@)),
        ),
{
    let text = format_blocks_for_prompt(blocks);
    replace_text(COLD_START_PROMPT, "{persona_config}", text.as_str())
}

/// Whose persona it is.
#[derive(Debug, Clone, Copy, PartialEq, Eq, Structural)]
pub enum PersonaKind {
    /// The assistant.
    Rama,
    Other,
}

/// What is known of a persona that exists.
#[derive(Debug)]
pub struct PersonaSummary {
    pub uid: String,
    pub kind: PersonaKind,
    pub active: bool,
}

/// The name of the first active persona of the assistant.
pub open spec fn first_rama(personas: Seq<PersonaSummary>) -> Option<Seq<char>>
    decreases personas.len(),
{
    if personas.len() == 0 {
        None
    } else if personas[0].kind is Rama && personas[0].active {
        Some(personas[0].uid@)
    } else {
        first_rama(personas.drop_first())
    }
}

/// The name of the first active persona of the assistant.
pub fn find_rama(personas: &Vec<PersonaSummary>) -> (r: Option<String>)
    ensures
        opt_text(r) == first_rama(personas@),
{
    let mut i: usize = 0;
    assert(personas@.skip(0) =~= personas@);
    while i < personas.len()
        invariant
            i <= personas@.len(),
            first_rama(personas@) == first_rama(personas@.skip(i as int)),
        decreases personas@.len() - i,
    {
        let p = &personas[i];
        assert(personas@.skip(i as int)[0] == *p);
        assert(personas@.skip(i as int).drop_first() =~= personas@.skip(i + 1));
        if p.kind == PersonaKind::Rama && p.active {
            return Some(copy_text(p.uid.as_str()));
        }
        i += 1;
    }
    None
}

/// A persona to be made.
#[derive(Debug)]
pub struct NewPersona {
    pub uid: String,
    pub name: String,
    pub kind: PersonaKind,
    pub display_order: i64,
    pub source: String,
}

/// A fact as the model tells it.
#[derive(Debug)]
pub struct ColdStartFactJson {
    pub field: String,
    pub content: String,
    pub source: Option<String>,
}

/// A trait as the model tells it.
#[derive(Debug)]
pub struct ColdStartTraitJson {
    pub layer: String,
    pub trait_label: String,
    pub meaning: String,
    pub not_meaning: Option<String>,
    pub trigger: Option<String>,
    pub suppress: Option<String>,
    pub related: Option<String>,
}

/// What the model tells of a persona.
#[derive(Debug)]
pub struct ColdStartResponse {
    pub facts: Vec<ColdStartFactJson>,
    pub traits: Vec<ColdStartTraitJson>,
}

/// A fact about a persona.
#[derive(Debug)]
pub struct PersonaFact {
    pub persona_uid: String,
    pub field: ProfileField,
    pub content: String,
    pub source: FactSource,
}

/// What a `PersonaFact` says.
pub struct FactView {
    pub persona_uid: Seq<char>,
    pub field: ProfileField,
    pub content: Seq<char>,
    pub source: FactSource,
}

impl View for PersonaFact {
    type V = FactView;

    open spec fn view(&self) -> FactView {
        FactView {
            persona_uid: self.persona_uid@,
            field: self.field,
            content: self.content@,
            source: self.source,
        }
    }
}

/// The fact that the model tells.
pub open spec fn fact_of(j: ColdStartFactJson) -> FactView {
    FactView {
        persona_uid: RAMA_UID@,
        field: profile_field(j.field@),
        content: j.content@,
        source: fact_source(opt_text(j.source)),
    }
}

/// The fact that the model tells.
pub fn make_fact(j: &ColdStartFactJson) -> (r: PersonaFact)
    ensures
        r@ == fact_of(*j),
{
    PersonaFact {
        persona_uid: copy_text(RAMA_UID),
        field: parse_profile_field(j.field.as_str()),
        content: copy_text(j.content.as_str()),
        source: parse_fact_source(&j.source),
    }
}

/// A trait of a persona.
#[derive(Debug)]
pub struct PersonalityTrait {
    pub persona_uid: String,
    pub layer: TraitLayer,
    pub trait_label: String,
    pub meaning: String,
    pub not_meaning: Option<String>,
    pub trigger: Option<String>,
    pub suppress: Option<String>,
    pub related: Option<String>,
    pub source: TraitSource,
    pub status: TraitStatus,
    pub display_order: i32,
}

/// What a `PersonalityTrait` says.
pub struct TraitView {
    pub persona_uid: Seq<char>,
    pub layer: TraitLayer,
    pub trait_label: Seq<char>,
    pub meaning: Seq<char>,
    pub not_meaning: Option<Seq<char>>,
    pub trigger: Option<Seq<char>>,
    pub suppress: Option<Seq<char>>,
    pub related: Option<Seq<char>>,
    pub source: TraitSource,
    pub status: TraitStatus,
    pub display_order: i32,
}

impl View for PersonalityTrait {
    type V = TraitView;

    open spec fn view(&self) -> TraitView {
        TraitView {
            persona_uid: self.persona_uid@,
            layer: self.layer,
            trait_label: self.trait_label@,
            meaning: self.meaning@,
            not_meaning: opt_text(self.not_meaning),
            trigger: opt_text(self.trigger),
            suppress: opt_text(self.suppress),
            related: opt_text(self.related),
            source: self.source,
            status: self.status,
            display_order: self.display_order,
        }
    }
}

/// The trait number `i` that the model tells, as one that people wrote and that is active. The
/// traits are numbered from one.
pub open spec fn trait_of(j: ColdStartTraitJson, i: int) -> TraitView {
    TraitView {
        persona_uid: RAMA_UID@,
        layer: trait_layer(j.layer@),
        trait_label: j.trait_label@,
        meaning: j.meaning@,
        not_meaning: opt_text(j.not_meaning),
        trigger: opt_text(j.trigger),
        suppress: opt_text(j.suppress),
        related: opt_text(j.related),
        source: TraitSource::Manual,
        status: TraitStatus::Active,
        display_order: (i + 1) as i32,
    }
}

/// The trait number `i` that the model tells.
pub fn make_trait(j: &ColdStartTraitJson, i: usize) -> (r: PersonalityTrait)
    requires
        i < usize::MAX,
    ensures
        r@ == trait_of(*j, i as int),
{
    PersonalityTrait {
        persona_uid: copy_text(RAMA_UID),
        layer: parse_trait_layer(j.layer.as_str()),
        trait_label: copy_text(j.trait_label.as_str()),
        meaning: copy_text(j.meaning.as_str()),
        not_meaning: copy_opt(&j.not_meaning),
        trigger: copy_opt(&j.trigger),
        suppress: copy_opt(&j.suppress),
        related: copy_opt(&j.related),
        source: TraitSource::Manual,
        status: TraitStatus::Active,
        display_order: #[verifier::truncate] ((i + 1) as i32),
    }
}

/// What has happened.
#[derive(Debug)]
pub enum ColdEvent {
    /// These personas exist.
    Personas(Vec<PersonaSummary>),
    /// There are so many.
    Counted(usize),
    /// The persona was made.
    Created,
    /// What was asked for could not be had from the storage.
    StorageFailed,
    /// The model answered.
    Reply(String),
    /// The model did not answer.
    NoReply,
    /// The answer was read.
    Read(ColdStartResponse),
    /// The answer could not be read.
    Unreadable,
    /// A fact or a trait was stored, or not.
    Stored(bool),
}

/// What to do next.
#[derive(Debug)]
pub enum ColdAction {
    ListPersonas,
    CountFacts(String, ProfileField),
    CountTraits(String),
    CreatePersona(NewPersona),
    Ask(ChatRequest),
    /// Read the answer in this object.
    ReadJson(String),
    SaveFact(PersonaFact),
    SaveTrait(PersonalityTrait),
    Finish(ColdStartResult),
    RefuseFile(PersonaTomlError),
    ReturnStorageError,
}

/// What a `ColdAction` says. The number of a request is left to chance.
pub enum ColdActionView {
    ListPersonas,
    CountFacts(Seq<char>, ProfileField),
    CountTraits(Seq<char>),
    /// The name of the persona.
    CreatePersona(Seq<char>),
    /// What the model is asked.
    Ask(Seq<char>),
    ReadJson(Seq<char>),
    SaveFact(FactView),
    SaveTrait(TraitView),
    /// The persona, whether it is new, and how many facts and traits there are.
    Finish(Seq<char>, bool, int, int),
    RefuseFile(PersonaTomlError),
    ReturnStorageError,
}

/// Whether an action is what a view says, for a given configuration.
pub open spec fn says(action: ColdAction, view: ColdActionView, config: ColdStartConfig) -> bool {
    match (action, view) {
        (ColdAction::ListPersonas, ColdActionView::ListPersonas) => true,
        (ColdAction::CountFacts(u, f), ColdActionView::CountFacts(v, g)) => u@ == v && f == g,
        (ColdAction::CountTraits(u), ColdActionView::CountTraits(v)) => u@ == v,
        (ColdAction::CreatePersona(p), ColdActionView::CreatePersona(name)) => {
            &&& p.uid@ == RAMA_UID@
            &&& p.name@ == name
            &&& p.kind is Rama
            &&& p.display_order == RAMA_DISPLAY_ORDER
            &&& p.source@ == RAMA_SOURCE@
        },
        (ColdAction::Ask(r), ColdActionView::Ask(prompt)) => {
            &&& asks(r, COLD_START_SYSTEM@, prompt, config.temperature, config.max_tokens, None)
            &&& random_version(r.request_id)
        },
        (ColdAction::ReadJson(a), ColdActionView::ReadJson(b)) => a@ == b,
        (ColdAction::SaveFact(a), ColdActionView::SaveFact(b)) => a@ == b,
        (ColdAction::SaveTrait(a), ColdActionView::SaveTrait(b)) => a@ == b,
        (ColdAction::Finish(r), ColdActionView::Finish(uid, is_new, facts, traits)) => {
            &&& r.persona_uid@ == uid
            &&& r.is_new == is_new
            &&& r.fact_count == facts
            &&& r.trait_count == traits
        },
        (ColdAction::RefuseFile(a), ColdActionView::RefuseFile(b)) => a == b,
        (ColdAction::ReturnStorageError, ColdActionView::ReturnStorageError) => true,
        _ => false,
    }
}

/// Where a cold start stands.
#[derive(Debug)]
pub enum ColdPhase {
    Listing,
    /// The persona that exists, the field that is being counted, and the facts so far.
    CountingFacts(String, usize, usize),
    /// The persona that exists, and its facts.
    CountingTraits(String, usize),
    /// The blocks of the file.
    Creating(Vec<(String, String)>),
    Asking,
    Reading,
    /// The fact that is being stored, and how many were stored.
    SavingFacts(usize, usize),
    /// The trait that is being stored, and how many facts and traits were stored.
    SavingTraits(usize, usize, usize),
    Finished,
}

/// Where a cold start stands, as seen from outside.
pub enum ColdPhaseView {
    Listing,
    CountingFacts(Seq<char>, int, int),
    CountingTraits(Seq<char>, int),
    Creating,
    Asking,
    Reading,
    SavingFacts(int, int),
    SavingTraits(int, int, int),
    Finished,
}

impl View for ColdPhase {
    type V = ColdPhaseView;

    open spec fn view(&self) -> ColdPhaseView {
        match self {
            ColdPhase::Listing => ColdPhaseView::Listing,
            ColdPhase::CountingFacts(u, i, n) => ColdPhaseView::CountingFacts(
                u@,
                *i as int,
                *n as int,
            ),
            ColdPhase::CountingTraits(u, n) => ColdPhaseView::CountingTraits(u@, *n as int),
            ColdPhase::Creating(_) => ColdPhaseView::Creating,
            ColdPhase::Asking => ColdPhaseView::Asking,
            ColdPhase::Reading => ColdPhaseView::Reading,
            ColdPhase::SavingFacts(i, n) => ColdPhaseView::SavingFacts(*i as int, *n as int),
            ColdPhase::SavingTraits(i, f, n) => ColdPhaseView::SavingTraits(
                *i as int,
                *f as int,
                *n as int,
            ),
            ColdPhase::Finished => ColdPhaseView::Finished,
        }
    }
}

/// A cold start, as seen from outside.
pub struct ColdView {
    /// The persona file.
    pub content: Seq<char>,
    pub config: ColdStartConfig,
    /// What the model told.
    pub facts: Seq<ColdStartFactJson>,
    pub traits: Seq<ColdStartTraitJson>,
    pub phase: ColdPhaseView,
}

/// A cold start that made the persona and nothing else.
pub open spec fn bare(run: ColdView) -> (ColdView, ColdActionView) {
    (
        ColdView { phase: ColdPhaseView::Finished, ..run },
        ColdActionView::Finish(RAMA_UID@, true, 0, 0),
    )
}

/// Goes on with trait `i`, or ends where there is no such trait.
pub open spec fn next_trait(run: ColdView, i: int, facts: int, traits: int) -> (
    ColdView,
    ColdActionView,
) {
    if i < run.traits.len() {
        (
            ColdView { phase: ColdPhaseView::SavingTraits(i, facts, traits), ..run },
            ColdActionView::SaveTrait(trait_of(run.traits[i], i)),
        )
    } else {
        (
            ColdView { phase: ColdPhaseView::Finished, ..run },
            ColdActionView::Finish(RAMA_UID@, true, facts, traits),
        )
    }
}

/// Goes on with fact `i`, or with the traits where there is no such fact.
pub open spec fn next_fact(run: ColdView, i: int, facts: int) -> (ColdView, ColdActionView) {
    if i < run.facts.len() {
        (
            ColdView { phase: ColdPhaseView::SavingFacts(i, facts), ..run },
            ColdActionView::SaveFact(fact_of(run.facts[i])),
        )
    } else {
        next_trait(run, 0, facts, 0)
    }
}

/// One more where something was stored.
pub open spec fn counted(n: int, stored: bool) -> int {
    if stored {
        n + 1
    } else {
        n
    }
}

/// The next state of a cold start, and the action that it asks for.
pub open spec fn cold_step(run: ColdView, event: ColdEvent) -> (ColdView, ColdActionView) {
    let to = |phase: ColdPhaseView| ColdView { phase, ..run };
    match (run.phase, event) {
        (ColdPhaseView::Listing, ColdEvent::Personas(ps)) => match first_rama(ps@) {
            Some(uid) => (
                to(ColdPhaseView::CountingFacts(uid, 0, 0)),
                ColdActionView::CountFacts(uid, field_at(0)),
            ),
            None => match toml_error(run.content) {
                Some(e) => (to(ColdPhaseView::Finished), ColdActionView::RefuseFile(e)),
                None => (
                    to(ColdPhaseView::Creating),
                    ColdActionView::CreatePersona(toml_scan(run.content).assistant_name),
                ),
            },
        },
        (ColdPhaseView::CountingFacts(uid, i, total), ColdEvent::Counted(n)) => if i + 1
            < FIELD_COUNT {
            (
                to(ColdPhaseView::CountingFacts(uid, i + 1, total + n)),
                ColdActionView::CountFacts(uid, field_at(i + 1)),
            )
        } else {
            (
                to(ColdPhaseView::CountingTraits(uid, total + n)),
                ColdActionView::CountTraits(uid),
            )
        },
        (ColdPhaseView::CountingTraits(uid, facts), ColdEvent::Counted(n)) => (
            to(ColdPhaseView::Finished),
            ColdActionView::Finish(uid, false, facts, n as int),
        ),
        (ColdPhaseView::Creating, ColdEvent::Created) => (
            to(ColdPhaseView::Asking),
            ColdActionView::Ask(cold_prompt(run.content)),
        ),
        (ColdPhaseView::Asking, ColdEvent::Reply(raw)) => match first_object(unthought(raw@)) {
            Some(j) => (to(ColdPhaseView::Reading), ColdActionView::ReadJson(j)),
            None => bare(run),
        },
        (ColdPhaseView::Asking, _) => bare(run),
        (ColdPhaseView::Reading, ColdEvent::Read(r)) => next_fact(
            ColdView { facts: r.facts@, traits: r.traits@, ..run },
            0,
            0,
        ),
        (ColdPhaseView::Reading, _) => bare(run),
        (ColdPhaseView::SavingFacts(i, n), ColdEvent::Stored(b)) => next_fact(
            run,
            i + 1,
            counted(n, b),
        ),
        (ColdPhaseView::SavingTraits(i, f, n), ColdEvent::Stored(b)) => next_trait(
            run,
            i + 1,
            f,
            counted(n, b),
        ),
        _ => (to(ColdPhaseView::Finished), ColdActionView::ReturnStorageError),
    }
}

/// Whether an event can come of the action that a cold start is waiting for.
pub open spec fn cold_expects(run: ColdView, event: ColdEvent) -> bool {
    match (run.phase, event) {
        (ColdPhaseView::Listing, ColdEvent::Personas(_)) => true,
        (ColdPhaseView::CountingFacts(_, _, total), ColdEvent::Counted(n)) => total + n
            <= usize::MAX,
        (ColdPhaseView::CountingTraits(_, _), ColdEvent::Counted(_)) => true,
        (ColdPhaseView::Creating, ColdEvent::Created) => true,
        (
            ColdPhaseView::Listing
            | ColdPhaseView::CountingFacts(_, _, _)
            | ColdPhaseView::CountingTraits(_, _)
            | ColdPhaseView::Creating,
            ColdEvent::StorageFailed,
        ) => true,
        (ColdPhaseView::Asking, ColdEvent::Reply(_) | ColdEvent::NoReply) => true,
        (ColdPhaseView::Reading, ColdEvent::Read(_) | ColdEvent::Unreadable) => true,
        (
            ColdPhaseView::SavingFacts(_, _) | ColdPhaseView::SavingTraits(_, _, _),
            ColdEvent::Stored(_),
        ) => true,
        _ => false,
    }
}

/// What holds of a cold start at every step: what is being counted or stored exists, and no
/// more was stored than was tried.
pub open spec fn cold_ok(run: ColdView) -> bool {
    match run.phase {
        ColdPhaseView::CountingFacts(_, i, n) => 0 <= i < FIELD_COUNT && 0 <= n,
        ColdPhaseView::CountingTraits(_, n) => 0 <= n,
        ColdPhaseView::SavingFacts(i, n) => 0 <= n <= i < run.facts.len(),
        ColdPhaseView::SavingTraits(i, f, n) => 0 <= n <= i < run.traits.len() && 0 <= f
            <= run.facts.len(),
        _ => true,
    }
}

/// A cold start.
#[derive(Debug)]
pub struct ColdStart {
    content: String,
    config: ColdStartConfig,
    facts: Vec<ColdStartFactJson>,
    traits: Vec<ColdStartTraitJson>,
    phase: ColdPhase,
}

impl ColdStart {
    /// The cold start as seen from outside.
    pub closed spec fn view(&self) -> ColdView {
        ColdView {
            content: self.content@,
            config: self.config,
            facts: self.facts@,
            traits: self.traits@,
            phase: self.phase@,
        }
    }

    #[verifier::type_invariant]
    spec fn inv(self) -> bool {
        &&& cold_ok(self.view())
        &&& self.phase matches ColdPhase::Creating(blocks) ==> block_texts(blocks@) == toml_scan(
            self.content@,
        ).blocks
    }

    /// A cold start with a persona file, and the first action.
    pub fn start(content: String, config: ColdStartConfig) -> (r: (ColdStart, ColdAction))
        ensures
            r.0@ == (ColdView {
                content: content@,
                config,
                facts: Seq::empty(),
                traits: Seq::empty(),
                phase: ColdPhaseView::Listing,
            }),
            cold_ok(r.0@),
            r.1 is ListPersonas,
    {
        let facts: Vec<ColdStartFactJson> = Vec::new();
        let traits: Vec<ColdStartTraitJson> = Vec::new();
        (
            ColdStart { content, config, facts, traits, phase: ColdPhase::Listing },
            ColdAction::ListPersonas,
        )
    }

    /// Whether an event can come of the action that the cold start is waiting for.
    pub fn fits(&self, event: &ColdEvent) -> (r: bool)
        ensures
            r == cold_expects(self@, *event),
    {
        match (&self.phase, event) {
            (ColdPhase::Listing, ColdEvent::Personas(_)) => true,
            (ColdPhase::CountingFacts(_, _, total), ColdEvent::Counted(n)) => *n <= usize::MAX
                - *total,
            (ColdPhase::CountingTraits(_, _), ColdEvent::Counted(_)) => true,
            (ColdPhase::Creating(_), ColdEvent::Created) => true,
            (
                ColdPhase::Listing
                | ColdPhase::CountingFacts(_, _, _)
                | ColdPhase::CountingTraits(_, _)
                | ColdPhase::Creating(_),
                ColdEvent::StorageFailed,
            ) => true,
            (ColdPhase::Asking, ColdEvent::Reply(_) | ColdEvent::NoReply) => true,
            (ColdPhase::Reading, ColdEvent::Read(_) | ColdEvent::Unreadable) => true,
            (
                ColdPhase::SavingFacts(_, _) | ColdPhase::SavingTraits(_, _, _),
                ColdEvent::Stored(_),
            ) => true,
            _ => false,
        }
    }

    /// The action that ends a cold start.
    fn finish(uid: String, is_new: bool, fact_count: usize, trait_count: usize) -> (r: ColdAction)
        ensures
            forall|config: ColdStartConfig|
                #[trigger] says(
                    r,
                    ColdActionView::Finish(uid@, is_new, fact_count as int, trait_count as int),
                    config,
                ),
    {
        ColdAction::Finish(
            ColdStartResult { persona_uid: uid, is_new, fact_count, trait_count },
        )
    }

    /// Goes on with trait `i`.
    fn go_on_traits(
        content: String,
        config: ColdStartConfig,
        facts: Vec<ColdStartFactJson>,
        traits: Vec<ColdStartTraitJson>,
        i: usize,
        f: usize,
        n: usize,
    ) -> (r: (ColdStart, ColdAction))
        requires
            n <= i <= traits@.len(),
            f <= facts@.len(),
        ensures
            ({
                let run = ColdView {
                    content: content@,
                    config,
                    facts: facts@,
                    traits: traits@,
                    phase: ColdPhaseView::Finished,
                };
                let (next, action) = next_trait(run, i as int, f as int, n as int);
                r.0@ == next && says(r.1, action, config)
            }),
    {
        if i < traits.len() {
            let t = make_trait(&traits[i], i);
            (
                ColdStart {
                    content,
                    config,
                    facts,
                    traits,
                    phase: ColdPhase::SavingTraits(i, f, n),
                },
                ColdAction::SaveTrait(t),
            )
        } else {
            (
                ColdStart { content, config, facts, traits, phase: ColdPhase::Finished },
                ColdStart::finish(copy_text(RAMA_UID), true, f, n),
            )
        }
    }

    /// Goes on with fact `i`.
    fn go_on_facts(
        content: String,
        config: ColdStartConfig,
        facts: Vec<ColdStartFactJson>,
        traits: Vec<ColdStartTraitJson>,
        i: usize,
        n: usize,
    ) -> (r: (ColdStart, ColdAction))
        requires
            n <= i <= facts@.len(),
        ensures
            ({
                let run = ColdView {
                    content: content@,
                    config,
                    facts: facts@,
                    traits: traits@,
                    phase: ColdPhaseView::Finished,
                };
                let (next, action) = next_fact(run, i as int, n as int);
                r.0@ == next && says(r.1, action, config)
            }),
    {
        if i < facts.len() {
            let fact = make_fact(&facts[i]);
            (
                ColdStart {
                    content,
                    config,
                    facts,
                    traits,
                    phase: ColdPhase::SavingFacts(i, n),
                },
                ColdAction::SaveFact(fact),
            )
        } else {
            ColdStart::go_on_traits(content, config, facts, traits, 0, n, 0)
        }
    }

    /// Goes on after an event.
    pub fn step(self, event: ColdEvent) -> (r: (ColdStart, ColdAction))
        requires
            cold_expects(self@, event),
        ensures
            r.0@ == cold_step(self@, event).0,
            says(r.1, cold_step(self@, event).1, self@.config),
            cold_ok(r.0@),
    {
        proof {
            use_type_invariant(&self);
            law_cold_stays_ok(self@, event);
        }
        let ColdStart { content, config, facts, traits, phase } = self;
        assert(facts@.len() == facts.len());
        assert(traits@.len() == traits.len());
        let (next, action) = match (phase, event) {
            (ColdPhase::Listing, ColdEvent::Personas(ps)) => match find_rama(&ps) {
                Some(uid) => {
                    let copy = copy_text(uid.as_str());
                    (
                        ColdPhase::CountingFacts(uid, 0, 0),
                        ColdAction::CountFacts(copy, numbered_field(0)),
                    )
                },
                None => match parse_persona_toml(content.as_str()) {
                    Ok(p) => (
                        ColdPhase::Creating(p.blocks),
                        ColdAction::CreatePersona(
                            NewPersona {
                                uid: copy_text(RAMA_UID),
                                name: p.assistant_name,
                                kind: PersonaKind::Rama,
                                display_order: RAMA_DISPLAY_ORDER,
                                source: copy_text(RAMA_SOURCE),
                            },
                        ),
                    ),
                    Err(e) => (ColdPhase::Finished, ColdAction::RefuseFile(e)),
                },
            },
            (ColdPhase::CountingFacts(uid, i, total), ColdEvent::Counted(n)) => {
                let copy = copy_text(uid.as_str());
                if i + 1 < FIELD_COUNT {
                    (
                        ColdPhase::CountingFacts(uid, i + 1, total + n),
                        ColdAction::CountFacts(copy, numbered_field(i + 1)),
                    )
                } else {
                    (ColdPhase::CountingTraits(uid, total + n), ColdAction::CountTraits(copy))
                }
            },
            (ColdPhase::CountingTraits(uid, total), ColdEvent::Counted(n)) => (
                ColdPhase::Finished,
                ColdStart::finish(uid, false, total, n),
            ),
            (ColdPhase::Creating(blocks), ColdEvent::Created) => {
                let request = ChatRequest {
                    system_prompt: copy_text(COLD_START_SYSTEM),
                    memory_context: None,
                    history: Vec::new(),
                    user_message: cold_start_prompt(&blocks),
                    temperature: config.temperature,
                    max_tokens: config.max_tokens,
                    request_id: new_request_id(),
                    template_version: None,
                };
                (ColdPhase::Asking, ColdAction::Ask(request))
            },
            (ColdPhase::Asking, ColdEvent::Reply(raw)) => {
                let text = strip_thinking(raw.as_str());
                match extract_first_json_object(text.as_str()) {
                    Some(j) => (ColdPhase::Reading, ColdAction::ReadJson(j)),
                    None => (
                        ColdPhase::Finished,
                        ColdStart::finish(copy_text(RAMA_UID), true, 0, 0),
                    ),
                }
            },
            (ColdPhase::Reading, ColdEvent::Read(r)) => {
                return ColdStart::go_on_facts(content, config, r.facts, r.traits, 0, 0);
            },
            (ColdPhase::Asking, _) | (ColdPhase::Reading, _) => (
                ColdPhase::Finished,
                ColdStart::finish(copy_text(RAMA_UID), true, 0, 0),
            ),
            (ColdPhase::SavingFacts(i, n), ColdEvent::Stored(b)) => {
                let m: usize = if b {
                    n + 1
                } else {
                    n
                };
                return ColdStart::go_on_facts(content, config, facts, traits, i + 1, m);
            },
            (ColdPhase::SavingTraits(i, f, n), ColdEvent::Stored(b)) => {
                let m: usize = if b {
                    n + 1
                } else {
                    n
                };
                return ColdStart::go_on_traits(content, config, facts, traits, i + 1, f, m);
            },
            _ => (ColdPhase::Finished, ColdAction::ReturnStorageError),
        };
        (ColdStart { content, config, facts, traits, phase: next }, action)
    }
}

/// What holds of a cold start at one step holds at the next.
pub proof fn law_cold_stays_ok(run: ColdView, event: ColdEvent)
    requires
        cold_ok(run),
        cold_expects(run, event),
    ensures
        cold_ok(cold_step(run, event).0),
{
}

/// How many more steps a cold start can take at most, beyond what the model tells.
pub open spec fn cold_rank(run: ColdView) -> (int, int) {
    match run.phase {
        ColdPhaseView::Listing => (4, 0),
        ColdPhaseView::CountingFacts(_, i, _) => (3, FIELD_COUNT - i),
        ColdPhaseView::CountingTraits(_, _) => (2, 0),
        ColdPhaseView::Creating => (3, 2),
        ColdPhaseView::Asking => (3, 1),
        ColdPhaseView::Reading => (3, 0),
        ColdPhaseView::SavingFacts(i, _) => (2, run.facts.len() - i),
        ColdPhaseView::SavingTraits(i, _, _) => (1, run.traits.len() - i),
        ColdPhaseView::Finished => (0, 0),
    }
}

/// A cold start comes to an end: every step goes down in the order of the ranks.
pub proof fn law_cold_start_ends(run: ColdView, event: ColdEvent)
    requires
        cold_ok(run),
        cold_expects(run, event),
    ensures
        ({
            let a = cold_rank(run);
            let b = cold_rank(cold_step(run, event).0);
            &&& 0 <= b.0 <= a.0
            &&& 0 <= b.1
            &&& b.0 < a.0 || b.1 < a.1
        }),
{
}

/// Where the assistant has an active persona, it is kept: nothing is asked of the model or
/// stored, and the result names that persona as one that was there.
pub proof fn law_existing_persona_is_kept(run: ColdView, event: ColdEvent)
    requires
        cold_ok(run),
        cold_expects(run, event),
        run.phase is CountingFacts || run.phase is CountingTraits || (run.phase is Listing
            && event is Personas && first_rama(event->Personas_0@) is Some),
    ensures
        ({
            let (next, action) = cold_step(run, event);
            let uid = match run.phase {
                ColdPhaseView::CountingFacts(u, _, _) => u,
                ColdPhaseView::CountingTraits(u, _) => u,
                _ => first_rama(event->Personas_0@)->0,
            };
            match action {
                ColdActionView::CountFacts(u, _) => u == uid && next.phase is CountingFacts,
                ColdActionView::CountTraits(u) => u == uid && next.phase is CountingTraits,
                ColdActionView::Finish(u, is_new, _, _) => u == uid && !is_new,
                ColdActionView::ReturnStorageError => event is StorageFailed,
                _ => false,
            }
        }),
{
}

/// Once the persona is made, nothing that goes wrong stops the cold start: it goes on to a
/// result that says that the persona is new.
pub proof fn law_made_persona_is_reported(run: ColdView, event: ColdEvent)
    requires
        cold_ok(run),
        cold_expects(run, event),
        run.phase is Asking || run.phase is Reading || run.phase is SavingFacts
            || run.phase is SavingTraits,
    ensures
        ({
            let (next, action) = cold_step(run, event);
            if next.phase is Finished {
                action matches ColdActionView::Finish(u, is_new, facts, traits) && {
                    &&& u == RAMA_UID@
                    &&& is_new
                    &&& 0 <= facts <= next.facts.len() || facts == 0
                    &&& 0 <= traits <= next.traits.len() || traits == 0
                }
            } else {
                next.phase is Reading || next.phase is SavingFacts || next.phase is SavingTraits
            }
        }),
{
}

/// The persona is made only of a file that can be read, and only where the assistant has no
/// active persona.
pub proof fn law_persona_made_once(run: ColdView, event: ColdEvent)
    requires
        cold_ok(run),
        cold_expects(run, event),
        cold_step(run, event).1 is CreatePersona,
    ensures
        run.phase is Listing,
        event matches ColdEvent::Personas(ps) && first_rama(ps@) is None,
        toml_error(run.content) is None,
{
}

/// Each field has its names; any other name stands for the basic facts.
pub proof fn law_names_of_fields(s: Seq<char>)
    ensures
        ({
            let status = seq![
                "PersonalStatus"@,
                "性格描述"@,
                "性格"@,
                "Personality"@,
                "近期状态"@,
            ];
            let interests = seq![
                "Interests"@,
                "兴趣爱好"@,
                "偏好"@,
                "习惯"@,
                "Preference"@,
                "偏好/习惯"@,
            ];
            let social = seq![
                "Social"@,
                "社交关系"@,
                "关系"@,
                "Relationship"@,
                "社交情况"@,
                "与他人的关系"@,
            ];
            let history = seq![
                "History"@,
                "历史事件"@,
                "背景"@,
                "经历"@,
                "Background"@,
                "背景/经历"@,
            ];
            let context = seq![
                "RecentContext"@,
                "近期背景"@,
                "当前处境"@,
            ];
            let style = seq![
                "SpeakingStyle"@,
                "说话风格"@,
                "表达习惯"@,
                "风格"@,
                "说话风格/表达习惯"@,
            ];
            profile_field(s) == (if status.contains(s) {
                ProfileField::PersonalStatus
            } else if interests.contains(s) {
                ProfileField::Interests
            } else if social.contains(s) {
                ProfileField::Social
            } else if history.contains(s) {
                ProfileField::History
            } else if context.contains(s) {
                ProfileField::RecentContext
            } else if style.contains(s) {
                ProfileField::SpeakingStyle
            } else {
                ProfileField::BasicInfo
            })
        }),
{
    let status = seq![
        "PersonalStatus"@,
        "性格描述"@,
        "性格"@,
        "Personality"@,
        "近期状态"@,
    ];
    assert(status[0] == "PersonalStatus"@);
    assert(status[1] == "性格描述"@);
    assert(status[2] == "性格"@);
    assert(status[3] == "Personality"@);
    assert(status[4] == "近期状态"@);
    let interests = seq![
        "Interests"@,
        "兴趣爱好"@,
        "偏好"@,
        "习惯"@,
        "Preference"@,
        "偏好/习惯"@,
    ];
    assert(interests[0] == "Interests"@);
    assert(interests[1] == "兴趣爱好"@);
    assert(interests[2] == "偏好"@);
    assert(interests[3] == "习惯"@);
    assert(interests[4] == "Preference"@);
    assert(interests[5] == "偏好/习惯"@);
    let social = seq![
        "Social"@,
        "社交关系"@,
        "关系"@,
        "Relationship"@,
        "社交情况"@,
        "与他人的关系"@,
    ];
    assert(social[0] == "Social"@);
    assert(social[1] == "社交关系"@);
    assert(social[2] == "关系"@);
    assert(social[3] == "Relationship"@);
    assert(social[4] == "社交情况"@);
    assert(social[5] == "与他人的关系"@);
    let history = seq![
        "History"@,
        "历史事件"@,
        "背景"@,
        "经历"@,
        "Background"@,
        "背景/经历"@,
    ];
    assert(history[0] == "History"@);
    assert(history[1] == "历史事件"@);
    assert(history[2] == "背景"@);
    assert(history[3] == "经历"@);
    assert(history[4] == "Background"@);
    assert(history[5] == "背景/经历"@);
    let context = seq![
        "RecentContext"@,
        "近期背景"@,
        "当前处境"@,
    ];
    assert(context[0] == "RecentContext"@);
    assert(context[1] == "近期背景"@);
    assert(context[2] == "当前处境"@);
    let style = seq![
        "SpeakingStyle"@,
        "说话风格"@,
        "表达习惯"@,
        "风格"@,
        "说话风格/表达习惯"@,
    ];
    assert(style[0] == "SpeakingStyle"@);
    assert(style[1] == "说话风格"@);
    assert(style[2] == "表达习惯"@);
    assert(style[3] == "风格"@);
    assert(style[4] == "说话风格/表达习惯"@);
}

/// Each layer has its names, and any other name stands for the accents. Of the sources two have
/// names; any other name, and none, stands for what people wrote.
pub proof fn law_names_of_layers_and_sources(s: Seq<char>)
    ensures
        trait_layer("Base"@) == TraitLayer::Base,
        trait_layer("底色"@) == TraitLayer::Base,
        trait_layer("基础"@) == TraitLayer::Base,
        trait_layer("Primary"@) == TraitLayer::Primary,
        trait_layer("主色调"@) == TraitLayer::Primary,
        trait_layer("主要"@) == TraitLayer::Primary,
        s != "Base"@ && s != "底色"@ && s != "基础"@ && s != "Primary"@ && s != "主色调"@ && s
            != "主要"@ ==> trait_layer(s) == TraitLayer::Accent,
        fact_source(Some("L1"@)) == FactSource::L1,
        fact_source(Some("Event"@)) == FactSource::Event,
        s != "L1"@ && s != "Event"@ ==> fact_source(Some(s)) == FactSource::Manual,
        fact_source(None) == FactSource::Manual,
{
    reveal_strlit("Base");
    reveal_strlit("底色");
    reveal_strlit("基础");
    reveal_strlit("Primary");
    reveal_strlit("主色调");
    reveal_strlit("主要");
    reveal_strlit("L1");
    reveal_strlit("Event");
    assert("Primary"@.len() == 7 && "主色调"@.len() == 3 && "主要"@.len() == 2);
    assert("Base"@.len() == 4 && "底色"@.len() == 2 && "基础"@.len() == 2);
    assert("主要"@[0] == '主' && "底色"@[0] == '底' && "基础"@[0] == '基');
    assert("L1"@.len() != "Event"@.len());
}

/// Blocks are told one after the other, each by its name as a heading and its text.
pub proof fn law_blocks_are_told_in_order(
    a: Seq<(Seq<char>, Seq<char>)>,
    b: Seq<(Seq<char>, Seq<char>)>,
    name: Seq<char>,
    text: Seq<char>,
)
    ensures
        blocks_text(Seq::empty()).len() == 0,
        blocks_text(seq![(name, text)]) == "## "@ + name + "\n\n"@ + text + "\n\n"@,
        blocks_text(a + b) == blocks_text(a) + blocks_text(b),
    decreases b.len(),
{
    let one = seq![(name, text)];
    assert(one.drop_last() =~= Seq::<(Seq<char>, Seq<char>)>::empty());
    assert(one.last() == (name, text));
    let none = blocks_text(one.drop_last());
    assert(none =~= Seq::<char>::empty());
    assert(none + "## "@ =~= "## "@);
    assert(blocks_text(one) =~= "## "@ + name + "\n\n"@ + text + "\n\n"@);
    if b.len() == 0 {
        assert(a + b =~= a);
        assert(blocks_text(a) + blocks_text(b) =~= blocks_text(a));
    } else {
        law_blocks_are_told_in_order(a, b.drop_last(), name, text);
        assert((a + b).drop_last() =~= a + b.drop_last());
        assert((a + b).last() == b.last());
        assert(blocks_text(a + b) =~= blocks_text(a) + blocks_text(b));
    }
}

/// The model is asked by the prompt with the blocks of the file in the place that is kept for
/// them.
pub proof fn law_prompt_tells_blocks(content: Seq<char>)
    ensures
        cold_prompt(content) == replace(
            COLD_START_PROMPT@,
            "{persona_config}"@,
            blocks_text(toml_scan(content).blocks),
        ),
        COLD_START_SYSTEM@
            == "你是一个精确的角色画像分析助手。请严格按照要求的 JSON 格式输出。"@,
{
}

/// The first active persona of the assistant is taken; without one there is none.
pub proof fn law_first_active_persona(personas: Seq<PersonaSummary>)
    ensures
        forall|k: int|
            0 <= k < personas.len() && (#[trigger] personas[k]).kind is Rama && personas[k].active && (
            forall|j: int|
                0 <= j < k ==> !((#[trigger] personas[j]).kind is Rama && personas[j].active))
                ==> first_rama(personas) == Some(personas[k].uid@),
        (forall|j: int|
            0 <= j < personas.len() ==> !((#[trigger] personas[j]).kind is Rama
                && personas[j].active)) ==> first_rama(personas) is None,
    decreases personas.len(),
{
    if personas.len() > 0 && !(personas[0].kind is Rama && personas[0].active) {
        let rest = personas.drop_first();
        law_first_active_persona(rest);
        assert forall|k: int|
            0 <= k < personas.len() && (#[trigger] personas[k]).kind is Rama && personas[k].active && (
            forall|j: int|
                0 <= j < k ==> !((#[trigger] personas[j]).kind is Rama && personas[j].active)) implies first_rama(
            personas,
        ) == Some(personas[k].uid@) by {
            assert(rest[k - 1] == personas[k]);
            assert forall|j: int| 0 <= j < k - 1 implies !((#[trigger] rest[j]).kind is Rama
                && rest[j].active) by {
                assert(personas[j + 1] == rest[j]);
            }
        }
        if forall|j: int|
            0 <= j < personas.len() ==> !((#[trigger] personas[j]).kind is Rama
                && personas[j].active) {
            assert forall|j: int| 0 <= j < rest.len() implies !((#[trigger] rest[j]).kind is Rama
                && rest[j].active) by {
                assert(personas[j + 1] == rest[j]);
            }
        }
    }
}

/// A fact is what the model tells of the persona that is made: its field and its source by their
/// names, its content as it stands.
pub proof fn law_facts_are_kept(j: ColdStartFactJson)
    ensures
        fact_of(j).persona_uid == "rama-0001"@,
        fact_of(j).field == profile_field(j.field@),
        fact_of(j).content == j.content@,
        fact_of(j).source == fact_source(opt_text(j.source)),
{
}

/// A trait is what the model tells of the persona that is made, as one that people wrote and that
/// is active. Traits are numbered from one.
pub proof fn law_traits_are_kept(j: ColdStartTraitJson, i: int)
    requires
        0 <= i < i32::MAX,
    ensures
        trait_of(j, i).persona_uid == "rama-0001"@,
        trait_of(j, i).layer == trait_layer(j.layer@),
        trait_of(j, i).trait_label == j.trait_label@,
        trait_of(j, i).meaning == j.meaning@,
        trait_of(j, i).not_meaning == opt_text(j.not_meaning),
        trait_of(j, i).trigger == opt_text(j.trigger),
        trait_of(j, i).suppress == opt_text(j.suppress),
        trait_of(j, i).related == opt_text(j.related),
        trait_of(j, i).source == TraitSource::Manual,
        trait_of(j, i).status == TraitStatus::Active,
        trait_of(j, i).display_order == i + 1,
{
}

/// An active persona of the assistant is counted, from the first field on. Without one the file
/// is read: it is refused where it cannot be read, and otherwise a persona of its name is made.
pub proof fn law_how_a_cold_start_begins(run: ColdView, ps: Vec<PersonaSummary>)
    requires
        run.phase is Listing,
    ensures
        ({
            let (next, action) = cold_step(run, ColdEvent::Personas(ps));
            &&& first_rama(ps@) matches Some(uid) ==> next.phase == ColdPhaseView::CountingFacts(
                uid,
                0,
                0,
            ) && action == ColdActionView::CountFacts(uid, ProfileField::BasicInfo)
            &&& first_rama(ps@) is None && toml_error(run.content) is Some ==> next.phase is Finished
                && action == ColdActionView::RefuseFile(toml_error(run.content)->0)
            &&& first_rama(ps@) is None && toml_error(run.content) is None ==> next.phase is Creating
                && action == ColdActionView::CreatePersona(toml_scan(run.content).assistant_name)
        }),
{
}

/// The facts of every field are counted, in order, and summed up; then the traits are counted,
/// and both numbers are told of the persona that was there.
pub proof fn law_counts_are_summed_up(run: ColdView, uid: Seq<char>, i: int, total: int, n: usize)
    requires
        0 <= i < 7,
    ensures
        ({
            let fields = seq![
                ProfileField::BasicInfo,
                ProfileField::PersonalStatus,
                ProfileField::Interests,
                ProfileField::Social,
                ProfileField::History,
                ProfileField::RecentContext,
                ProfileField::SpeakingStyle,
            ];
            let (next, action) = cold_step(
                ColdView { phase: ColdPhaseView::CountingFacts(uid, i, total), ..run },
                ColdEvent::Counted(n),
            );
            &&& i < 6 ==> next.phase == ColdPhaseView::CountingFacts(uid, i + 1, total + n)
                && action == ColdActionView::CountFacts(uid, fields[i + 1])
            &&& i == 6 ==> next.phase == ColdPhaseView::CountingTraits(uid, total + n) && action
                == ColdActionView::CountTraits(uid)
        }),
        ({
            let (next, action) = cold_step(
                ColdView { phase: ColdPhaseView::CountingTraits(uid, total), ..run },
                ColdEvent::Counted(n),
            );
            next.phase is Finished && action == ColdActionView::Finish(uid, false, total, n as int)
        }),
{
}

/// When the persona is made, the model is asked. Its answer is read from the first object in it,
/// without what was only thought. Where there is no answer, no object, or nothing to read, the
/// persona is told as new, without facts and traits.
pub proof fn law_model_is_asked_once(run: ColdView, event: ColdEvent)
    requires
        cold_expects(run, event),
    ensures
        ({
            let (next, action) = cold_step(run, event);
            &&& run.phase is Creating && event is Created ==> next.phase is Asking && action
                == ColdActionView::Ask(cold_prompt(run.content))
            &&& run.phase is Asking && (event matches ColdEvent::Reply(raw) && first_object(
                unthought(raw@),
            ) is Some) ==> next.phase is Reading && action == ColdActionView::ReadJson(
                first_object(unthought(event->Reply_0@))->0,
            )
            &&& run.phase is Asking && (event is NoReply || (event matches ColdEvent::Reply(raw)
                && first_object(unthought(raw@)) is None)) ==> next.phase is Finished && action
                == ColdActionView::Finish("rama-0001"@, true, 0, 0)
            &&& run.phase is Reading && event is Unreadable ==> next.phase is Finished && action
                == ColdActionView::Finish("rama-0001"@, true, 0, 0)
        }),
{
}

/// What the model told is stored: all facts in order, then all traits in order.
pub proof fn law_told_is_stored(run: ColdView, r: ColdStartResponse)
    requires
        run.phase is Reading,
    ensures
        ({
            let (next, action) = cold_step(run, ColdEvent::Read(r));
            &&& next.facts == r.facts@
            &&& next.traits == r.traits@
            &&& r.facts@.len() > 0 ==> next.phase == ColdPhaseView::SavingFacts(0, 0) && action
                == ColdActionView::SaveFact(fact_of(r.facts@[0]))
            &&& r.facts@.len() == 0 && r.traits@.len() > 0 ==> next.phase
                == ColdPhaseView::SavingTraits(0, 0, 0) && action == ColdActionView::SaveTrait(
                trait_of(r.traits@[0], 0),
            )
            &&& r.facts@.len() == 0 && r.traits@.len() == 0 ==> next.phase is Finished && action
                == ColdActionView::Finish("rama-0001"@, true, 0, 0)
        }),
{
}

/// After a fact comes the next one, after the last fact the first trait, after a trait the next
/// one, and after the last trait the result, with the numbers of what was stored. What could not
/// be stored is not counted and stops nothing.
pub proof fn law_stored_is_counted(run: ColdView, i: int, f: int, n: int, stored: bool)
    ensures
        ({
            let m = n + (if stored {
                1int
            } else {
                0int
            });
            let (next, action) = cold_step(
                ColdView { phase: ColdPhaseView::SavingFacts(i, n), ..run },
                ColdEvent::Stored(stored),
            );
            &&& i + 1 < run.facts.len() ==> next.phase == ColdPhaseView::SavingFacts(i + 1, m)
                && action == ColdActionView::SaveFact(fact_of(run.facts[i + 1]))
            &&& i + 1 >= run.facts.len() && run.traits.len() > 0 ==> next.phase
                == ColdPhaseView::SavingTraits(0, m, 0) && action == ColdActionView::SaveTrait(
                trait_of(run.traits[0], 0),
            )
            &&& i + 1 >= run.facts.len() && run.traits.len() == 0 ==> next.phase is Finished
                && action == ColdActionView::Finish("rama-0001"@, true, m, 0)
        }),
        ({
            let m = n + (if stored {
                1int
            } else {
                0int
            });
            let (next, action) = cold_step(
                ColdView { phase: ColdPhaseView::SavingTraits(i, f, n), ..run },
                ColdEvent::Stored(stored),
            );
            &&& i + 1 < run.traits.len() ==> next.phase == ColdPhaseView::SavingTraits(
                i + 1,
                f,
                m,
            ) && action == ColdActionView::SaveTrait(trait_of(run.traits[i + 1], i + 1))
            &&& i + 1 >= run.traits.len() ==> next.phase is Finished && action
                == ColdActionView::Finish("rama-0001"@, true, f, m)
        }),
{
}

/// A failure of the storage ends a cold start with a report of it, as long as the persona is not
/// made; the file and the configuration never change.
pub proof fn law_storage_failure_is_reported(run: ColdView, event: ColdEvent)
    requires
        cold_expects(run, event),
    ensures
        event is StorageFailed ==> cold_step(run, event).0.phase is Finished && cold_step(
            run,
            event,
        ).1 is ReturnStorageError,
        cold_step(run, event).1 is ReturnStorageError ==> event is StorageFailed,
        cold_step(run, event).0.content == run.content,
        cold_step(run, event).0.config == run.config,
        !(event is Read) ==> cold_step(run, event).0.facts == run.facts && cold_step(
            run,
            event,
        ).0.traits == run.traits,
{
}

/// A step waits for what its action can bring, and for nothing else.
pub proof fn law_what_a_cold_start_expects(run: ColdView, event: ColdEvent)
    ensures
        cold_expects(run, event) ==> {
            &&& event is Personas ==> run.phase is Listing
            &&& event is Counted ==> run.phase is CountingFacts || run.phase is CountingTraits
            &&& event is Created ==> run.phase is Creating
            &&& event is StorageFailed ==> run.phase is Listing || run.phase is CountingFacts
                || run.phase is CountingTraits || run.phase is Creating
            &&& event is Reply || event is NoReply ==> run.phase is Asking
            &&& event is Read || event is Unreadable ==> run.phase is Reading
            &&& event is Stored ==> run.phase is SavingFacts || run.phase is SavingTraits
        },
        run.phase is Listing && (event is Personas || event is StorageFailed) ==> cold_expects(
            run,
            event,
        ),
        run.phase is CountingTraits && (event is Counted || event is StorageFailed)
            ==> cold_expects(run, event),
        run.phase is CountingFacts && event is StorageFailed ==> cold_expects(run, event),
        (run.phase matches ColdPhaseView::CountingFacts(_, _, t) && event matches ColdEvent::Counted(
            n,
        ) && t + n <= usize::MAX) ==> cold_expects(run, event),
        run.phase is Creating && (event is Created || event is StorageFailed) ==> cold_expects(
            run,
            event,
        ),
        run.phase is Asking && (event is Reply || event is NoReply) ==> cold_expects(run, event),
        run.phase is Reading && (event is Read || event is Unreadable) ==> cold_expects(run, event),
        (run.phase is SavingFacts || run.phase is SavingTraits) && event is Stored ==> cold_expects(
            run,
            event,
        ),
{
}

/// An action that says something does it: the persona that is made, the request that is asked,
/// what is stored and the result are what is said, and nothing else is done.
pub proof fn law_actions_do_what_they_say(
    action: ColdAction,
    view: ColdActionView,
    config: ColdStartConfig,
)
    requires
        says(action, view, config),
    ensures
        action is ListPersonas <==> view is ListPersonas,
        view matches ColdActionView::CountFacts(u, f) ==> (action matches ColdAction::CountFacts(
            a,
            b,
        ) && a@ == u && b == f),
        view matches ColdActionView::CountTraits(u) ==> (action matches ColdAction::CountTraits(a)
            && a@ == u),
        view matches ColdActionView::CreatePersona(name) ==> (
        action matches ColdAction::CreatePersona(p) && p.uid@ == "rama-0001"@ && p.name@ == name
            && p.kind == PersonaKind::Rama && p.display_order == 1 && p.source@ == "manual"@),
        view matches ColdActionView::Ask(prompt) ==> (action matches ColdAction::Ask(r)
            && r.user_message@ == prompt && r.system_prompt@ == COLD_START_SYSTEM@ && r.temperature
            == config.temperature && r.max_tokens == config.max_tokens && r.history@.len() == 0
            && r.memory_context is None && r.template_version is None),
        view matches ColdActionView::ReadJson(j) ==> (action matches ColdAction::ReadJson(a) && a@
            == j),
        view matches ColdActionView::SaveFact(f) ==> (action matches ColdAction::SaveFact(a) && a@
            == f),
        view matches ColdActionView::SaveTrait(t) ==> (action matches ColdAction::SaveTrait(a) && a@
            == t),
        view matches ColdActionView::Finish(uid, is_new, facts, traits) ==> (
        action matches ColdAction::Finish(r) && r.persona_uid@ == uid && r.is_new == is_new
            && r.fact_count == facts && r.trait_count == traits),
        view matches ColdActionView::RefuseFile(e) ==> (action matches ColdAction::RefuseFile(a) && a
            == e),
        action is ReturnStorageError <==> view is ReturnStorageError,
{
}

/// What a fact and a trait say is what stands in their fields.
pub proof fn law_facts_and_traits_are_seen(f: PersonaFact, t: PersonalityTrait)
    ensures
        f@.persona_uid == f.persona_uid@ && f@.field == f.field,
        f@.content == f.content@ && f@.source == f.source,
        t@.persona_uid == t.persona_uid@ && t@.layer == t.layer,
        t@.trait_label == t.trait_label@ && t@.meaning == t.meaning@,
        t@.not_meaning == opt_text(t.not_meaning) && t@.trigger == opt_text(t.trigger),
        t@.suppress == opt_text(t.suppress) && t@.related == opt_text(t.related),
        t@.source == t.source && t@.status == t.status,
        t@.display_order == t.display_order,
{
}

/// A cold start begins by asking which personas there are; where nothing else is said the model
/// is asked with little warmth for a long answer.
pub proof fn law_first_action_of_a_cold_start(
    content: String,
    config: ColdStartConfig,
    r: (ColdStart, ColdAction),
    d: ColdStartConfig,
)
    requires
        call_ensures(ColdStart::start, (content, config), r),
        call_ensures(ColdStartConfig::default, (), d),
    ensures
        r.0@.content == content@,
        r.0@.config == config,
        r.0@.facts.len() == 0 && r.0@.traits.len() == 0,
        r.0@.phase is Listing,
        r.1 is ListPersonas,
        d.temperature.bits == 0x3fd3_3333_3333_3333,
        d.max_tokens == 4096,
{
}

} // verus!
