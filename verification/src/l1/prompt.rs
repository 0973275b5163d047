//! The prompts that ask a language model for the summary of a conversation.

use vstd::prelude::*;

use crate::text::{blank, is_space, law_trim_takes_spaces_off, replace, replace_text, trim,
    trim_text};

verus! {

/// The prompt where there are neither keyword candidates nor a preceding block.
pub const L1_SUMMARY_PROMPT_BASE: &'static str = r#"# Context（背景）
你是一个对话摘要助手。将一段多人对话提炼为一条结构化摘要，供记忆系统后续检索和聚合。

# Role（角色定位）
你以客观第三方视角观察对话，不添加主观评价。你用精确的离散值描述情绪和显著性，而非模糊的自然语言。

# Action（执行任务）
根据下方对话内容，生成一条结构化摘要，包含 8 个字段：

1. **summary** — 第三人称一句话客观描述本次对话的核心结论，不超过 50 字。只记结论不记过程，用对话中的实际人物名称指代。
2. **keywords** — 3–5 个中文名词标签，逗号分隔。只取名词，不取动词或形容词，避免同义词重复。无合适关键词时填空字符串。
3. **time_period** — 六选一：清晨 / 上午 / 下午 / 傍晚 / 夜间 / 深夜（无法判断时根据内容氛围推断）
4. **atmosphere** — 四字以内描述对话整体氛围，如"专注高效""轻松愉快""情绪低落"
5. **valence** — 情绪效价，五选一：
   - `-1.0` 非常消极（崩溃、绝望、强烈愤怒）
   - `-0.5` 偏消极（疲惫、担心、轻度低落）
   - `0.0` 中性（平静日常、技术问答、无明显情绪）
   - `0.5` 偏积极（放松、满意、轻度开心）
   - `1.0` 非常积极（兴奋、强烈成就感、里程碑）
6. **salience** — 情感显著性，五选一：
   - `0.0` 平淡（纯闲聊或技术问答，无情感投入）
   - `0.25` 轻微（有轻微情绪但不重要）
   - `0.5` 中等（正常对话，有情感内容）
   - `0.75` 较高（情绪明显，或话题对分析对象有重要意义）
   - `1.0` 极高（强烈情绪，或人生重要节点/里程碑）
7. **situation_strength** — 情境强度，1–5 整数：
   - `1` 很弱情境（纯粹闲聊、寒暄、无实质内容）
   - `2` 较弱情境（日常琐事、随性聊天）
   - `3` 中性情境（普通对话、一般交流）
   - `4` 较强情境（重要对话、关键决策、正式场合）
   - `5` 强情境（危机处理、重大人生事件、强烈冲突）
8. **evidence_notes** — 1–3 条支撑 summary 结论的结构化证据线索（对象数组），记录"谁在什么条件下表达了什么/经历了什么"，引用原话或转述具体事实。每条对象含 4 个槽位：
   - `text`（必填）— 证据文本，不少于 5 个中文字符
   - `time`（可选）— 时间点描述，如"上周三晚上"，无法判断时省略
   - `who`（可选）— 涉及的人物/角色，无法判断时省略
   - `cause`（可选）— 原因/触发条件，仅当对话中可辨时填写一句短句原因；无法辨明时省略该槽位，不要编造

# Format（输出格式）
你的整个回复必须是一个裸 JSON 对象，以 { 开头、以 } 结尾，不要添加任何其他内容：

{"summary":"...","keywords":"...","time_period":"...","atmosphere":"...","valence":0.0,"salience":0.5,"situation_strength":3,"evidence_notes":[{"text":"...","time":"...","who":"...","cause":"..."}]}

# Target（质量目标）
- summary 客观、精炼、可独立理解（脱离对话原文仍有信息量）
- valence/salience 严格使用五档离散值，不做微调（如 0.3、0.7 等无效值）
- evidence_notes 从对话中提取，不编造；cause 槽位仅在对话中可辨时填写，宁缺毋滥

---

# 对话内容
{conversation}"#;

/// The prompt where there is a preceding block, but no keyword candidates.
pub const L1_SUMMARY_PROMPT_BASE_WITH_PRIOR: &'static str = r#"# Context（背景）
你是一个对话摘要助手。将一段多人对话提炼为一条结构化摘要，供记忆系统后续检索和聚合。

# Role（角色定位）
你以客观第三方视角观察对话，不添加主观评价。你用精确的离散值描述情绪和显著性，而非模糊的自然语言。

# Action（执行任务）
根据下方对话内容，生成一条结构化摘要，包含 9 个字段：

1. **summary** — 第三人称一句话客观描述本次对话的核心结论，不超过 50 字。只记结论不记过程，用对话中的实际人物名称指代。
2. **keywords** — 3–5 个中文名词标签，逗号分隔。只取名词，不取动词或形容词，避免同义词重复。无合适关键词时填空字符串。
3. **time_period** — 六选一：清晨 / 上午 / 下午 / 傍晚 / 夜间 / 深夜（无法判断时根据内容氛围推断）
4. **atmosphere** — 四字以内描述对话整体氛围，如"专注高效""轻松愉快""情绪低落"
5. **valence** — 情绪效价，五选一：
   - `-1.0` 非常消极（崩溃、绝望、强烈愤怒）
   - `-0.5` 偏消极（疲惫、担心、轻度低落）
   - `0.0` 中性（平静日常、技术问答、无明显情绪）
   - `0.5` 偏积极（放松、满意、轻度开心）
   - `1.0` 非常积极（兴奋、强烈成就感、里程碑）
6. **salience** — 情感显著性，五选一：
   - `0.0` 平淡（纯闲聊或技术问答，无情感投入）
   - `0.25` 轻微（有轻微情绪但不重要）
   - `0.5` 中等（正常对话，有情感内容）
   - `0.75` 较高（情绪明显，或话题对分析对象有重要意义）
   - `1.0` 极高（强烈情绪，或人生重要节点/里程碑）
7. **situation_strength** — 情境强度，1–5 整数：
   - `1` 很弱情境（纯粹闲聊、寒暄、无实质内容）
   - `2` 较弱情境（日常琐事、随性聊天）
   - `3` 中性情境（普通对话、一般交流）
   - `4` 较强情境（重要对话、关键决策、正式场合）
   - `5` 强情境（危机处理、重大人生事件、强烈冲突）
8. **evidence_notes** — 1–3 条支撑 summary 结论的结构化证据线索（对象数组），记录"谁在什么条件下表达了什么/经历了什么"，引用原话或转述具体事实。每条对象含 4 个槽位：
   - `text`（必填）— 证据文本，不少于 5 个中文字符
   - `time`（可选）— 时间点描述，如"上周三晚上"，无法判断时省略
   - `who`（可选）— 涉及的人物/角色，无法判断时省略
   - `cause`（可选）— 原因/触发条件，仅当对话中可辨时填写一句短句原因；无法辨明时省略该槽位，不要编造
9. **continuation** — 当前对话相对上一块的话题延续关系，严格三选一：
   - `延续` — 承接上一块话题继续讨论（摘要与线索中体现延续性）
   - `转折` — 话题发生转换或明显偏移
   - `无关` — 与上一块完全无关（独立摘要，忽略上文）

# Format（输出格式）
你的整个回复必须是一个裸 JSON 对象，以 { 开头、以 } 结尾，不要添加任何其他内容：

{"summary":"...","keywords":"...","time_period":"...","atmosphere":"...","valence":0.0,"salience":0.5,"situation_strength":3,"continuation":"延续","evidence_notes":[{"text":"...","time":"...","who":"...","cause":"..."}]}

# Target（质量目标）
- summary 客观、精炼、可独立理解（脱离对话原文仍有信息量）
- valence/salience 严格使用五档离散值，不做微调（如 0.3、0.7 等无效值）
- continuation 严格三选一（延续/转折/无关），不输出中间值
- evidence_notes 从对话中提取，不编造；cause 槽位仅在对话中可辨时填写，宁缺毋滥
- 上一块上文仅用于判断延续性，绝不把上一块内容写进本块摘要

---

# 上一块上文（仅用于判断话题延续性，不要重复摘要上一块内容）
{prior_context}

# 对话内容
{conversation}"#;

/// The prompt where there are keyword candidates, but no preceding block.
pub const L1_SUMMARY_PROMPT_WITH_KEYWORDS: &'static str = r#"# Context（背景）
你是一个对话摘要助手。将一段多人对话提炼为一条结构化摘要，供记忆系统后续检索和聚合。

# Role（角色定位）
你以客观第三方视角观察对话，不添加主观评价。你用精确的离散值描述情绪和显著性，而非模糊的自然语言。

# Action（执行任务）
根据下方对话内容，生成一条结构化摘要，包含 8 个字段：

1. **summary** — 第三人称一句话客观描述本次对话的核心结论，不超过 50 字。只记结论不记过程，用对话中的实际人物名称指代。
2. **keywords** — 3–5 个中文名词标签，逗号分隔。只取名词，不取动词或形容词，避免同义词重复。优先从下方候选列表中选择。
3. **time_period** — 六选一：清晨 / 上午 / 下午 / 傍晚 / 夜间 / 深夜（无法判断时根据内容氛围推断）
4. **atmosphere** — 四字以内描述对话整体氛围，如"专注高效""轻松愉快""情绪低落"
5. **valence** — 情绪效价，五选一：
   - `-1.0` 非常消极（崩溃、绝望、强烈愤怒）
   - `-0.5` 偏消极（疲惫、担心、轻度低落）
   - `0.0` 中性（平静日常、技术问答、无明显情绪）
   - `0.5` 偏积极（放松、满意、轻度开心）
   - `1.0` 非常积极（兴奋、强烈成就感、里程碑）
6. **salience** — 情感显著性，五选一：
   - `0.0` 平淡（纯闲聊或技术问答，无情感投入）
   - `0.25` 轻微（有轻微情绪但不重要）
   - `0.5` 中等（正常对话，有情感内容）
   - `0.75` 较高（情绪明显，或话题对分析对象有重要意义）
   - `1.0` 极高（强烈情绪，或人生重要节点/里程碑）
7. **situation_strength** — 情境强度，1–5 整数：
   - `1` 很弱情境（纯粹闲聊、寒暄、无实质内容）
   - `2` 较弱情境（日常琐事、随性聊天）
   - `3` 中性情境（普通对话、一般交流）
   - `4` 较强情境（重要对话、关键决策、正式场合）
   - `5` 强情境（危机处理、重大人生事件、强烈冲突）
8. **evidence_notes** — 1–3 条支撑 summary 结论的结构化证据线索（对象数组），记录"谁在什么条件下表达了什么/经历了什么"，引用原话或转述具体事实。每条对象含 4 个槽位：
   - `text`（必填）— 证据文本，不少于 5 个中文字符
   - `time`（可选）— 时间点描述，如"上周三晚上"，无法判断时省略
   - `who`（可选）— 涉及的人物/角色，无法判断时省略
   - `cause`（可选）— 原因/触发条件，仅当对话中可辨时填写一句短句原因；无法辨明时省略该槽位，不要编造

# Format（输出格式）
你的整个回复必须是一个裸 JSON 对象，以 { 开头、以 } 结尾，不要添加任何其他内容：

{"summary":"...","keywords":"...","time_period":"...","atmosphere":"...","valence":0.0,"salience":0.5,"situation_strength":3,"evidence_notes":[{"text":"...","time":"...","who":"...","cause":"..."}]}

# Target（质量目标）
- summary 客观、精炼、可独立理解（脱离对话原文仍有信息量）
- keywords 优先使用候选列表中的词，便于跨会话聚合
- valence/salience 严格使用五档离散值，不做微调（如 0.3、0.7 等无效值）
- evidence_notes 从对话中提取，不编造；cause 槽位仅在对话中可辨时填写，宁缺毋滥

---

# 关键词候选列表（仅供提示，可选用列表外的关键词）
{keyword_candidates}

# 对话内容
{conversation}"#;

/// The prompt where there are keyword candidates and a preceding block.
pub const L1_SUMMARY_PROMPT_WITH_KEYWORDS_AND_PRIOR: &'static str = r#"# Context（背景）
你是一个对话摘要助手。将一段多人对话提炼为一条结构化摘要，供记忆系统后续检索和聚合。

# Role（角色定位）
你以客观第三方视角观察对话，不添加主观评价。你用精确的离散值描述情绪和显著性，而非模糊的自然语言。

# Action（执行任务）
根据下方对话内容，生成一条结构化摘要，包含 9 个字段：

1. **summary** — 第三人称一句话客观描述本次对话的核心结论，不超过 50 字。只记结论不记过程，用对话中的实际人物名称指代。
2. **keywords** — 3–5 个中文名词标签，逗号分隔。只取名词，不取动词或形容词，避免同义词重复。优先从下方候选列表中选择。
3. **time_period** — 六选一：清晨 / 上午 / 下午 / 傍晚 / 夜间 / 深夜（无法判断时根据内容氛围推断）
4. **atmosphere** — 四字以内描述对话整体氛围，如"专注高效""轻松愉快""情绪低落"
5. **valence** — 情绪效价，五选一：
   - `-1.0` 非常消极（崩溃、绝望、强烈愤怒）
   - `-0.5` 偏消极（疲惫、担心、轻度低落）
   - `0.0` 中性（平静日常、技术问答、无明显情绪）
   - `0.5` 偏积极（放松、满意、轻度开心）
   - `1.0` 非常积极（兴奋、强烈成就感、里程碑）
6. **salience** — 情感显著性，五选一：
   - `0.0` 平淡（纯闲聊或技术问答，无情感投入）
   - `0.25` 轻微（有轻微情绪但不重要）
   - `0.5` 中等（正常对话，有情感内容）
   - `0.75` 较高（情绪明显，或话题对分析对象有重要意义）
   - `1.0` 极高（强烈情绪，或人生重要节点/里程碑）
7. **situation_strength** — 情境强度，1–5 整数：
   - `1` 很弱情境（纯粹闲聊、寒暄、无实质内容）
   - `2` 较弱情境（日常琐事、随性聊天）
   - `3` 中性情境（普通对话、一般交流）
   - `4` 较强情境（重要对话、关键决策、正式场合）
   - `5` 强情境（危机处理、重大人生事件、强烈冲突）
8. **evidence_notes** — 1–3 条支撑 summary 结论的结构化证据线索（对象数组），记录"谁在什么条件下表达了什么/经历了什么"，引用原话或转述具体事实。每条对象含 4 个槽位：
   - `text`（必填）— 证据文本，不少于 5 个中文字符
   - `time`（可选）— 时间点描述，如"上周三晚上"，无法判断时省略
   - `who`（可选）— 涉及的人物/角色，无法判断时省略
   - `cause`（可选）— 原因/触发条件，仅当对话中可辨时填写一句短句原因；无法辨明时省略该槽位，不要编造
9. **continuation** — 当前对话相对上一块的话题延续关系，严格三选一：
   - `延续` — 承接上一块话题继续讨论（摘要与线索中体现延续性）
   - `转折` — 话题发生转换或明显偏移
   - `无关` — 与上一块完全无关（独立摘要，忽略上文）

# Format（输出格式）
你的整个回复必须是一个裸 JSON 对象，以 { 开头、以 } 结尾，不要添加任何其他内容：

{"summary":"...","keywords":"...","time_period":"...","atmosphere":"...","valence":0.0,"salience":0.5,"situation_strength":3,"continuation":"延续","evidence_notes":[{"text":"...","time":"...","who":"...","cause":"..."}]}

# Target（质量目标）
- summary 客观、精炼、可独立理解（脱离对话原文仍有信息量）
- keywords 优先使用候选列表中的词，便于跨会话聚合
- valence/salience 严格使用五档离散值，不做微调（如 0.3、0.7 等无效值）
- continuation 严格三选一（延续/转折/无关），不输出中间值
- evidence_notes 从对话中提取，不编造；cause 槽位仅在对话中可辨时填写，宁缺毋滥
- 上一块上文仅用于判断延续性，绝不把上一块内容写进本块摘要

---

# 上一块上文（仅用于判断话题延续性，不要重复摘要上一块内容）
{prior_context}

# 关键词候选列表（仅供提示，可选用列表外的关键词）
{keyword_candidates}

# 对话内容
{conversation}"#;

/// Up to this number of keywords, all of them are candidates.
pub const KEYWORD_INJECT_THRESHOLD: usize = 100;

/// Beyond the threshold, so many of the most used keywords are candidates.
pub const KEYWORD_INJECT_LIMIT: usize = 50;

/// The prompt for a conversation: the template for what is at hand, with its placeholders
/// filled in. Blank candidates and a blank preceding block count as missing.
pub open spec fn l1_prompt(
    conversation: Seq<char>,
    candidates: Option<Seq<char>>,
    prior: Option<Seq<char>>,
) -> Seq<char> {
    let kw = match candidates {
        Some(s) => trim(s),
        None => Seq::empty(),
    };
    let before = match prior {
        Some(s) => trim(s),
        None => Seq::empty(),
    };
    if kw.len() > 0 && before.len() > 0 {
        replace(
            replace(
                replace(
                    L1_SUMMARY_PROMPT_WITH_KEYWORDS_AND_PRIOR@,
                    "{conversation}"@,
                    conversation,
                ),
                "{keyword_candidates}"@,
                kw,
            ),
            "{prior_context}"@,
            before,
        )
    } else if before.len() > 0 {
        replace(
            replace(L1_SUMMARY_PROMPT_BASE_WITH_PRIOR@, "{conversation}"@, conversation),
            "{prior_context}"@,
            before,
        )
    } else if kw.len() > 0 {
        replace(
            replace(L1_SUMMARY_PROMPT_WITH_KEYWORDS@, "{conversation}"@, conversation),
            "{keyword_candidates}"@,
            kw,
        )
    } else {
        replace(L1_SUMMARY_PROMPT_BASE@, "{conversation}"@, conversation)
    }
}

/// The text of an optional piece of text.
pub open spec fn str_text(o: Option<&str>) -> Option<Seq<char>> {
    match o {
        Some(s) => Some(s@),
        None => None,
    }
}

/// The prompt for a conversation.
pub fn build_l1_prompt(
    conversation_text: &str,
    keyword_candidates: Option<&str>,
    prior_context: Option<&str>,
) -> (r: String)
    ensures
        r@ == l1_prompt(conversation_text@, str_text(keyword_candidates), str_text(prior_context)),
{
    let kw = match keyword_candidates {
        Some(s) => trim_text(s),
        None => String::new(),
    };
    let before = match prior_context {
        Some(s) => trim_text(s),
        None => String::new(),
    };
    let has_kw = !kw.as_str().is_empty();
    let has_before = !before.as_str().is_empty();
    if has_kw && has_before {
        let a = replace_text(
            L1_SUMMARY_PROMPT_WITH_KEYWORDS_AND_PRIOR,
            "{conversation}",
            conversation_text,
        );
        let b = replace_text(a.as_str(), "{keyword_candidates}", kw.as_str());
        replace_text(b.as_str(), "{prior_context}", before.as_str())
    } else if has_before {
        let a = replace_text(
            L1_SUMMARY_PROMPT_BASE_WITH_PRIOR,
            "{conversation}",
            conversation_text,
        );
        replace_text(a.as_str(), "{prior_context}", before.as_str())
    } else if has_kw {
        let a = replace_text(L1_SUMMARY_PROMPT_WITH_KEYWORDS, "{conversation}", conversation_text);
        replace_text(a.as_str(), "{keyword_candidates}", kw.as_str())
    } else {
        replace_text(L1_SUMMARY_PROMPT_BASE, "{conversation}", conversation_text)
    }
}

/// A blank preceding block makes the same prompt as none.
pub proof fn law_blank_prior_is_none(
    conversation: Seq<char>,
    candidates: Option<Seq<char>>,
    prior: Seq<char>,
)
    requires
        blank(prior),
    ensures
        l1_prompt(conversation, candidates, Some(prior)) == l1_prompt(
            conversation,
            candidates,
            None,
        ),
{
    assert(trim(prior) =~= Seq::empty());
}

/// Blank keyword candidates make the same prompt as none.
pub proof fn law_blank_candidates_are_none(
    conversation: Seq<char>,
    candidates: Seq<char>,
    prior: Option<Seq<char>>,
)
    requires
        blank(candidates),
    ensures
        l1_prompt(conversation, Some(candidates), prior) == l1_prompt(conversation, None, prior),
{
    assert(trim(candidates) =~= Seq::empty());
}

/// The prompt is made from the template for what is at hand: with keyword candidates, with a
/// preceding block, with both or with neither. Each placeholder of it gets its text, without the
/// spaces round it where it is optional.
pub proof fn law_prompt_fits_what_is_at_hand(
    conversation: Seq<char>,
    candidates: Option<Seq<char>>,
    prior: Option<Seq<char>>,
)
    ensures
        (candidates is None || blank(candidates->0)) && (prior is None || blank(prior->0))
            ==> l1_prompt(conversation, candidates, prior) == replace(
            L1_SUMMARY_PROMPT_BASE@,
            "{conversation}"@,
            conversation,
        ),
        candidates is Some && !blank(candidates->0) && (prior is None || blank(prior->0))
            ==> l1_prompt(conversation, candidates, prior) == replace(
            replace(L1_SUMMARY_PROMPT_WITH_KEYWORDS@, "{conversation}"@, conversation),
            "{keyword_candidates}"@,
            trim(candidates->0),
        ),
        (candidates is None || blank(candidates->0)) && prior is Some && !blank(prior->0)
            ==> l1_prompt(conversation, candidates, prior) == replace(
            replace(L1_SUMMARY_PROMPT_BASE_WITH_PRIOR@, "{conversation}"@, conversation),
            "{prior_context}"@,
            trim(prior->0),
        ),
        candidates is Some && !blank(candidates->0) && prior is Some && !blank(prior->0)
            ==> l1_prompt(conversation, candidates, prior) == replace(
            replace(
                replace(
                    L1_SUMMARY_PROMPT_WITH_KEYWORDS_AND_PRIOR@,
                    "{conversation}"@,
                    conversation,
                ),
                "{keyword_candidates}"@,
                trim(candidates->0),
            ),
            "{prior_context}"@,
            trim(prior->0),
        ),
{
}

/// Blank candidates and a blank preceding block are as good as none.
pub proof fn law_blank_parts_are_missing(
    conversation: Seq<char>,
    candidates: Option<Seq<char>>,
    prior: Option<Seq<char>>,
    s: Seq<char>,
)
    requires
        forall|i: int| 0 <= i < s.len() ==> is_space(#[trigger] s[i]),
    ensures
        l1_prompt(conversation, Some(s), prior) == l1_prompt(conversation, None, prior),
        l1_prompt(conversation, candidates, Some(s)) == l1_prompt(conversation, candidates, None),
{
    law_trim_takes_spaces_off(s);
    assert(trim(s) =~= Seq::<char>::empty());
}

} // verus!
