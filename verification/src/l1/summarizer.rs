//! Summarising a conversation block by block.

use vstd::prelude::*;

use crate::binary64::{Real, ONE_BITS};
use crate::chat::{asks, ChatRequest};
use crate::ids::{hyphenated, id_text, new_request_id, random_version};
use crate::keyword::token::{lemma_trim_ends, lemma_trim_fixed, token_text, token_texts,
    KeywordToken};
use crate::l1::prompt::{build_l1_prompt, l1_prompt, str_text, KEYWORD_INJECT_LIMIT,
    KEYWORD_INJECT_THRESHOLD};
use crate::text::{append_chars, blank, char_seqs, chars_of, copy_opt, copy_text, cut, decimal,
    decimal_chars, is_space, join, join_parts,
    law_trim_takes_spaces_off, lower, opt_text, push_text, same_text, shortened, split,
    split_on, string_of, texts, trim, trim_chars, trim_end, trim_start, trim_text, truncate_chars,
    truncate_chars_bare};
use crate::utils::{clamp_salience, clamp_valence, extract_first_json_object, first_object,
    salience_level, strip_thinking, unthought, valence_level};

verus! {

/// Who says a message.
#[derive(Debug, Clone, Copy, PartialEq, Eq, Structural)]
pub enum MessageRole {
    User,
    Assistant,
    System,
    Tool,
}

/// A message of a conversation.
#[derive(Debug, Clone)]
pub struct Message {
    pub role: MessageRole,
    pub content: String,
    pub created_at: i64,
    pub persona_uid: Option<String>,
}

/// The lines that the messages make; only users and assistants have lines.
pub open spec fn message_lines(
    messages: Seq<Message>,
    user_prefix: Seq<char>,
    assistant_prefix: Seq<char>,
) -> Seq<Seq<char>>
    decreases messages.len(),
{
    if messages.len() == 0 {
        Seq::empty()
    } else {
        let front = message_lines(messages.drop_last(), user_prefix, assistant_prefix);
        let m = messages.last();
        match m.role {
            MessageRole::User => front.push(user_prefix + m.content@),
            MessageRole::Assistant => front.push(assistant_prefix + m.content@),
            _ => front,
        }
    }
}

/// The conversation as text, one line for each message of a user or an assistant.
pub open spec fn conversation_text(
    messages: Seq<Message>,
    user_prefix: Seq<char>,
    assistant_prefix: Seq<char>,
) -> Seq<char> {
    join(message_lines(messages, user_prefix, assistant_prefix), "\n"@)
}

/// The conversation as text.
pub fn format_messages(messages: &Vec<Message>, user_prefix: &str, assistant_prefix: &str) -> (r:
    String)
    ensures
        r@ == conversation_text(messages@, user_prefix@, assistant_prefix@),
{
    let mut lines: Vec<Vec<char>> = Vec::new();
    let mut i: usize = 0;
    assert(char_seqs(lines@) =~= message_lines(
        messages@.take(0),
        user_prefix@,
        assistant_prefix@,
    ));
    while i < messages.len()
        invariant
            i <= messages@.len(),
            char_seqs(lines@) == message_lines(
                messages@.take(i as int),
                user_prefix@,
                assistant_prefix@,
            ),
        decreases messages@.len() - i,
    {
        let m = &messages[i];
        assert(messages@.take(i + 1).drop_last() =~= messages@.take(i as int));
        assert(messages@.take(i + 1).last() == *m);
        let prefix = match m.role {
            MessageRole::User => Some(user_prefix),
            MessageRole::Assistant => Some(assistant_prefix),
            _ => None,
        };
        match prefix {
            Some(p) => {
                let mut line = chars_of(p);
                push_text(&mut line, m.content.as_str());
                let ghost lv = line@;
                let ghost before = char_seqs(lines@);
                lines.push(line);
                assert(char_seqs(lines@) =~= before.push(lv));
            },
            None => {},
        }
        i += 1;
    }
    assert(messages@.take(i as int) =~= messages@);
    let out = join_parts(&lines, "\n");
    string_of(&out)
}

/// When a conversation is summarised in segments.
#[derive(Debug, Clone, Copy, PartialEq, Eq, Structural)]
pub struct L1ProgressiveConfig {
    pub enabled: bool,
    /// With more messages than this.
    pub msg_threshold: u32,
    /// With more hours than this from the first message to the last.
    pub span_hours: u32,
    /// The number of messages of a segment, at most.
    pub tail_msg_count: usize,
}

/// The time from the first message to the last, in milliseconds, as far as it can be held.
pub open spec fn message_span(messages: Seq<Message>) -> int {
    if messages.len() == 0 {
        0
    } else {
        let d = messages.last().created_at - messages[0].created_at;
        if d > i64::MAX {
            i64::MAX as int
        } else {
            d
        }
    }
}

/// Whether a conversation is long enough for segments, by its number of messages or by its
/// span.
pub open spec fn progressive(messages: Seq<Message>, cfg: L1ProgressiveConfig) -> bool {
    messages.len() > cfg.msg_threshold || message_span(messages) > cfg.span_hours * 3_600_000
}

/// Whether a conversation is long enough for segments.
pub fn is_progressive_triggered(messages: &Vec<Message>, cfg: &L1ProgressiveConfig) -> (r: bool)
    ensures
        r == progressive(messages@, *cfg),
{
    let n: usize = messages.len();
    if n as u64 > cfg.msg_threshold as u64 {
        return true;
    }
    if n == 0 {
        return false;
    }
    let first: i128 = messages[0].created_at as i128;
    let last: i128 = messages[n - 1].created_at as i128;
    let mut span: i128 = last - first;
    if span > i64::MAX as i128 {
        span = i64::MAX as i128;
    }
    span > (cfg.span_hours as i128) * 3_600_000
}

/// Whether a conversation is summarised in segments.
pub fn wants_segments(messages: &Vec<Message>, cfg: &L1ProgressiveConfig) -> (r: bool)
    ensures
        r == (cfg.enabled && progressive(messages@, *cfg)),
{
    cfg.enabled && is_progressive_triggered(messages, cfg)
}

/// A message about a session, with the session between `before` and `after`.
pub fn session_message(before: &str, session_id: u128, after: &str) -> (r: String)
    ensures
        r@ == before@ + hyphenated(session_id) + after@,
{
    let mut m = chars_of(before);
    push_text(&mut m, id_text(session_id).as_str());
    push_text(&mut m, after);
    string_of(&m)
}

/// How a conversation is split into blocks.
#[derive(Debug, Clone, Copy, PartialEq, Eq, Structural)]
pub struct UttSplitterConfig {
    /// The pause that ends a block, in minutes.
    pub theta_gap_minutes: u32,
    /// The number of messages of a block, at most.
    pub max_msgs_per_block: usize,
}

/// How a long conversation is split into segments.
pub open spec fn segment_splitter(cfg: L1ProgressiveConfig) -> UttSplitterConfig {
    UttSplitterConfig {
        theta_gap_minutes: 10,
        max_msgs_per_block: if cfg.tail_msg_count > 1 {
            cfg.tail_msg_count
        } else {
            1
        },
    }
}

/// How a long conversation is split into segments: after ten minutes, and with at least one
/// message in each.
pub fn progressive_splitter(cfg: &L1ProgressiveConfig) -> (r: UttSplitterConfig)
    ensures
        r == segment_splitter(*cfg),
{
    UttSplitterConfig {
        theta_gap_minutes: 10,
        max_msgs_per_block: if cfg.tail_msg_count > 1 {
            cfg.tail_msg_count
        } else {
            1
        },
    }
}

/// The blocks of a conversation: those that splitting gave, or the whole conversation where
/// it gave none.
pub fn blocks_or_whole(split: Vec<Vec<Message>>, messages: Vec<Message>) -> (r: Vec<Vec<Message>>)
    ensures
        if split@.len() > 0 {
            r@ == split@
        } else {
            r@ == seq![messages]
        },
        r@.len() > 0,
{
    if split.len() > 0 {
        split
    } else {
        let mut out: Vec<Vec<Message>> = Vec::new();
        out.push(messages);
        assert(out@ =~= seq![messages]);
        out
    }
}

/// A piece of evidence for a summary.
#[derive(Debug)]
pub struct EvidenceNote {
    pub text: String,
    pub time: Option<String>,
    pub who: Option<String>,
    pub cause: Option<String>,
}

/// What an `EvidenceNote` says.
pub struct NoteView {
    pub text: Seq<char>,
    pub time: Option<Seq<char>>,
    pub who: Option<Seq<char>>,
    pub cause: Option<Seq<char>>,
}

impl View for EvidenceNote {
    type V = NoteView;

    open spec fn view(&self) -> NoteView {
        NoteView {
            text: self.text@,
            time: opt_text(self.time),
            who: opt_text(self.who),
            cause: opt_text(self.cause),
        }
    }
}

/// What a sequence of notes says.
pub open spec fn note_views(v: Seq<EvidenceNote>) -> Seq<NoteView> {
    v.map_values(|n: EvidenceNote| n@)
}

impl EvidenceNote {
    /// A note of a text alone.
    pub fn new(text: &str) -> (r: Self)
        ensures
            r@ == (NoteView { text: text@, time: None, who: None, cause: None }),
    {
        EvidenceNote { text: copy_text(text), time: None, who: None, cause: None }
    }
}

impl Clone for EvidenceNote {
    fn clone(&self) -> (r: Self)
        ensures
            r@ == self@,
    {
        EvidenceNote {
            text: copy_text(self.text.as_str()),
            time: copy_opt(&self.time),
            who: copy_opt(&self.who),
            cause: copy_opt(&self.cause),
        }
    }
}

/// The value of an optional slot: trimmed, and missing where it is blank.
pub open spec fn slot_value(o: Option<Seq<char>>) -> Option<Seq<char>> {
    match o {
        Some(s) => if blank(s) {
            None
        } else {
            Some(trim(s))
        },
        None => None,
    }
}

/// The value of an optional slot: trimmed, and missing where it is blank.
pub fn normalize_optional_slot(value: Option<String>) -> (r: Option<String>)
    ensures
        opt_text(r) == slot_value(opt_text(value)),
{
    match value {
        Some(s) => {
            let t = trim_text(s.as_str());
            if t.as_str().is_empty() {
                None
            } else {
                Some(t)
            }
        },
        None => None,
    }
}

/// A note with its slots put in order.
pub open spec fn tidy_note(n: NoteView) -> NoteView {
    NoteView {
        text: trim(n.text),
        time: slot_value(n.time),
        who: slot_value(n.who),
        cause: slot_value(n.cause),
    }
}

/// The notes that are long enough, put in order. Less than five characters are too few.
pub open spec fn kept_notes(notes: Seq<NoteView>) -> Seq<NoteView>
    decreases notes.len(),
{
    if notes.len() == 0 {
        Seq::empty()
    } else {
        let front = kept_notes(notes.drop_last());
        if trim(notes.last().text).len() >= 5 {
            front.push(tidy_note(notes.last()))
        } else {
            front
        }
    }
}

/// What optional notes say.
pub open spec fn opt_notes(o: Option<Vec<EvidenceNote>>) -> Option<Seq<NoteView>> {
    match o {
        Some(v) => Some(note_views(v@)),
        None => None,
    }
}

/// The notes that can be used; none where there are none.
pub open spec fn usable_notes(raw: Option<Seq<NoteView>>) -> Seq<NoteView> {
    match raw {
        Some(v) => kept_notes(v),
        None => Seq::empty(),
    }
}

/// The notes that can be used: long enough, and put in order.
pub fn validate_evidence_notes(raw: &Option<Vec<EvidenceNote>>) -> (r: Vec<EvidenceNote>)
    ensures
        note_views(r@) == usable_notes(opt_notes(*raw)),
{
    let mut out: Vec<EvidenceNote> = Vec::new();
    assert(note_views(out@) =~= Seq::<NoteView>::empty());
    match raw {
        Some(list) => {
            let ghost all = note_views(list@);
            let mut i: usize = 0;
            assert(note_views(out@) =~= kept_notes(all.take(0)));
            while i < list.len()
                invariant
                    i <= list@.len(),
                    all == note_views(list@),
                    note_views(out@) == kept_notes(all.take(i as int)),
                decreases list@.len() - i,
            {
                let n = &list[i];
                assert(all.take(i + 1).drop_last() =~= all.take(i as int));
                assert(all.take(i + 1).last() == n@);
                let v = chars_of(n.text.as_str());
                let t = trim_chars(&v);
                if t.len() >= 5 {
                    let note = EvidenceNote {
                        text: string_of(&t),
                        time: normalize_optional_slot(copy_opt(&n.time)),
                        who: normalize_optional_slot(copy_opt(&n.who)),
                        cause: normalize_optional_slot(copy_opt(&n.cause)),
                    };
                    let ghost nv = note@;
                    let ghost before = note_views(out@);
                    out.push(note);
                    assert(note_views(out@) =~= before.push(nv));
                }
                i += 1;
            }
            assert(all.take(i as int) =~= all);
        },
        None => {},
    }
    out
}

/// An item of the list of notes, as it came.
#[derive(Debug)]
pub enum EvidenceItem {
    /// A plain text.
    Text(String),
    /// An object with the slots of a note.
    Note(EvidenceNote),
    /// An object that is no note.
    Malformed,
    /// Anything else.
    Other,
}

/// The notes among the items: texts make notes, objects are notes, the rest is passed over.
pub open spec fn item_notes(items: Seq<EvidenceItem>) -> Seq<NoteView>
    decreases items.len(),
{
    if items.len() == 0 {
        Seq::empty()
    } else {
        let front = item_notes(items.drop_last());
        match items.last() {
            EvidenceItem::Text(s) => front.push(
                NoteView { text: s@, time: None, who: None, cause: None },
            ),
            EvidenceItem::Note(n) => front.push(n@),
            _ => front,
        }
    }
}

/// The notes among the items; nothing where there was no list.
pub fn collect_evidence_notes(items: Option<Vec<EvidenceItem>>) -> (r: Option<Vec<EvidenceNote>>)
    ensures
        match (items, r) {
            (Some(v), Some(n)) => note_views(n@) == item_notes(v@),
            (None, None) => true,
            _ => false,
        },
{
    let list = match items {
        Some(v) => v,
        None => return None,
    };
    let mut out: Vec<EvidenceNote> = Vec::new();
    let mut i: usize = 0;
    assert(note_views(out@) =~= item_notes(list@.take(0)));
    while i < list.len()
        invariant
            i <= list@.len(),
            note_views(out@) == item_notes(list@.take(i as int)),
        decreases list@.len() - i,
    {
        assert(list@.take(i + 1).drop_last() =~= list@.take(i as int));
        assert(list@.take(i + 1).last() == list@[i as int]);
        let ghost before = note_views(out@);
        match &list[i] {
            EvidenceItem::Text(s) => {
                let n = EvidenceNote::new(s.as_str());
                let ghost nv = n@;
                out.push(n);
                assert(note_views(out@) =~= before.push(nv));
            },
            EvidenceItem::Note(n) => {
                out.push(n.clone());
                assert(note_views(out@) =~= before.push(n@));
            },
            _ => {},
        }
        i += 1;
    }
    assert(list@.take(i as int) =~= list@);
    Some(out)
}

/// How a block continues the one before it: one of three words, if it is one of them.
pub open spec fn continuation_value(raw: Option<Seq<char>>) -> Option<Seq<char>> {
    match raw {
        Some(s) => if trim(s) == "延续"@ || trim(s) == "转折"@ || trim(s) == "无关"@ {
            Some(trim(s))
        } else {
            None
        },
        None => None,
    }
}

/// How a block continues the one before it: one of three words, if it is one of them.
pub fn validate_continuation(raw: Option<&str>) -> (r: Option<String>)
    ensures
        opt_text(r) == continuation_value(str_text(raw)),
{
    match raw {
        Some(s) => {
            let t = trim_text(s);
            if same_text(t.as_str(), "延续") || same_text(t.as_str(), "转折") || same_text(
                t.as_str(),
                "无关",
            ) {
                Some(t)
            } else {
                None
            }
        },
        None => None,
    }
}

/// The keywords among the pieces, in normal form; blank pieces give none.
pub open spec fn piece_keywords(pieces: Seq<Seq<char>>) -> Seq<Seq<char>>
    decreases pieces.len(),
{
    if pieces.len() == 0 {
        Seq::empty()
    } else {
        let front = piece_keywords(pieces.drop_last());
        if blank(pieces.last()) {
            front
        } else {
            front.push(token_text(pieces.last()))
        }
    }
}

/// The keywords of a field: what stands between commas.
pub open spec fn field_keywords(raw: Option<Seq<char>>) -> Seq<Seq<char>> {
    match slot_value(raw) {
        Some(s) => piece_keywords(split(s, |c: char| c == ',')),
        None => Seq::empty(),
    }
}

/// The field as it is stored, and its keywords.
pub fn parse_keywords(raw: Option<&str>) -> (r: (Option<String>, Vec<KeywordToken>))
    ensures
        opt_text(r.0) == slot_value(str_text(raw)),
        token_texts(r.1@) == field_keywords(str_text(raw)),
{
    let mut list: Vec<KeywordToken> = Vec::new();
    assert(token_texts(list@) =~= Seq::<Seq<char>>::empty());
    let s = match raw {
        Some(s) => trim_text(s),
        None => return (None, list),
    };
    if s.as_str().is_empty() {
        return (None, list);
    }
    let v = chars_of(s.as_str());
    let pieces = split_on(&v, ',', ',');
    assert((|c: char| c == ',' || c == ',') =~= (|c: char| c == ','));
    let ghost all = pieces@.map_values(|p: Vec<char>| p@);
    let mut i: usize = 0;
    assert(token_texts(list@) =~= piece_keywords(all.take(0)));
    while i < pieces.len()
        invariant
            i <= pieces@.len(),
            all == pieces@.map_values(|p: Vec<char>| p@),
            token_texts(list@) == piece_keywords(all.take(i as int)),
        decreases pieces@.len() - i,
    {
        assert(all.take(i + 1).drop_last() =~= all.take(i as int));
        assert(all.take(i + 1).last() == pieces@[i as int]@);
        match KeywordToken::from_chars(&pieces[i]) {
            Some(t) => {
                let ghost tv = t@;
                let ghost before = token_texts(list@);
                list.push(t);
                assert(token_texts(list@) =~= before.push(tv));
            },
            None => {},
        }
        i += 1;
    }
    assert(all.take(i as int) =~= all);
    (Some(s), list)
}

/// The candidates for keywords: all of a small dictionary, the first of a large one.
pub open spec fn candidate_text(keywords: Seq<Seq<char>>) -> Option<Seq<char>> {
    if keywords.len() == 0 {
        None
    } else if keywords.len() <= KEYWORD_INJECT_THRESHOLD {
        Some(join(keywords, ", "@))
    } else {
        Some(join(keywords.take(KEYWORD_INJECT_LIMIT as int), ", "@))
    }
}

/// The candidates for keywords, of a dictionary whose most used keywords come first.
pub fn keyword_candidates(keywords: &Vec<String>) -> (r: Option<String>)
    ensures
        opt_text(r) == candidate_text(texts(keywords@)),
{
    let mut n: usize = keywords.len();
    if n == 0 {
        return None;
    }
    if n > KEYWORD_INJECT_THRESHOLD {
        n = KEYWORD_INJECT_LIMIT;
    }
    let mut parts: Vec<Vec<char>> = Vec::new();
    let mut i: usize = 0;
    assert(char_seqs(parts@) =~= texts(keywords@).take(0));
    while i < n
        invariant
            i <= n <= keywords@.len(),
            char_seqs(parts@) == texts(keywords@).take(i as int),
        decreases n - i,
    {
        let ghost before = char_seqs(parts@);
        parts.push(chars_of(keywords[i].as_str()));
        i += 1;
        assert(char_seqs(parts@) =~= before.push(keywords@[i - 1]@));
        assert(texts(keywords@).take(i as int) =~= texts(keywords@).take(i - 1).push(
            keywords@[i - 1]@,
        ));
    }
    assert(keywords@.len() == n ==> texts(keywords@).take(n as int) =~= texts(keywords@));
    let out = join_parts(&parts, ", ");
    Some(string_of(&out))
}

/// What of an answer may be the wanted object, in the order in which it is tried: the whole
/// answer, the answer without thinking where that makes a difference, and the first object
/// in it.
pub open spec fn json_attempts(raw: Seq<char>) -> Seq<Seq<char>> {
    let first = seq![raw];
    let second = if unthought(raw) != raw {
        first.push(unthought(raw))
    } else {
        first
    };
    match first_object(raw) {
        Some(o) => second.push(o),
        None => second,
    }
}

/// What of an answer may be the wanted object, in the order in which it is tried.
pub fn json_candidates(raw: &str) -> (r: Vec<String>)
    ensures
        texts(r@) == json_attempts(raw@),
{
    let mut out: Vec<String> = Vec::new();
    out.push(copy_text(raw));
    assert(texts(out@) =~= seq![raw@]);
    let stripped = strip_thinking(raw);
    if !same_text(stripped.as_str(), raw) {
        let ghost before = texts(out@);
        let ghost sv = stripped@;
        out.push(stripped);
        assert(texts(out@) =~= before.push(sv));
    }
    match extract_first_json_object(raw) {
        Some(o) => {
            let ghost before = texts(out@);
            let ghost ov = o@;
            out.push(o);
            assert(texts(out@) =~= before.push(ov));
        },
        None => {},
    }
    out
}

/// The report that no candidate of an answer of `n` characters could be read. It tells the
/// length alone, nothing of the answer.
pub open spec fn unreadable_text(n: nat) -> Seq<char> {
    "L1 摘要 JSON 解析失败，原始响应 "@ + decimal(n)
        + " 字符（不记录原文，防隐私泄漏）（若响应不完整，可能是 max_tokens 输出预算不足导致截断）"@
}

/// The report that no candidate of an answer could be read.
pub fn parse_failure_text(raw: &str) -> (r: String)
    ensures
        r@ == unreadable_text(raw@.len()),
{
    let v = chars_of(raw);
    let mut m = chars_of("L1 摘要 JSON 解析失败，原始响应 ");
    append_chars(&mut m, &decimal_chars(v.len() as u64));
    push_text(
        &mut m,
        " 字符（不记录原文，防隐私泄漏）（若响应不完整，可能是 max_tokens 输出预算不足导致截断）",
    );
    string_of(&m)
}

/// A summary of a block of messages.
#[derive(Debug, Clone)]
pub struct MemoryL1 {
    pub id: u128,
    pub session_id: u128,
    pub summary: String,
    pub keywords: Option<String>,
    pub time_period: Option<String>,
    pub atmosphere: Option<String>,
    pub valence: Real,
    pub salience: Real,
    pub absorbed: bool,
    pub created_at: i64,
    pub last_accessed_at: Option<i64>,
    pub persona_uid: Option<String>,
    pub context_json: Option<String>,
    pub situation_strength: Option<i32>,
    pub evidence_notes: Option<Vec<EvidenceNote>>,
    pub continuation: Option<String>,
}

/// What a `MemoryL1` says.
pub struct L1View {
    pub id: u128,
    pub session_id: u128,
    pub summary: Seq<char>,
    pub keywords: Option<Seq<char>>,
    pub time_period: Option<Seq<char>>,
    pub atmosphere: Option<Seq<char>>,
    pub valence: Real,
    pub salience: Real,
    pub absorbed: bool,
    pub created_at: i64,
    pub last_accessed_at: Option<i64>,
    pub persona_uid: Option<Seq<char>>,
    pub context_json: Option<Seq<char>>,
    pub situation_strength: Option<i32>,
    pub evidence_notes: Option<Seq<NoteView>>,
    pub continuation: Option<Seq<char>>,
}

impl View for MemoryL1 {
    type V = L1View;

    open spec fn view(&self) -> L1View {
        L1View {
            id: self.id,
            session_id: self.session_id,
            summary: self.summary@,
            keywords: opt_text(self.keywords),
            time_period: opt_text(self.time_period),
            atmosphere: opt_text(self.atmosphere),
            valence: self.valence,
            salience: self.salience,
            absorbed: self.absorbed,
            created_at: self.created_at,
            last_accessed_at: self.last_accessed_at,
            persona_uid: opt_text(self.persona_uid),
            context_json: opt_text(self.context_json),
            situation_strength: self.situation_strength,
            evidence_notes: opt_notes(self.evidence_notes),
            continuation: opt_text(self.continuation),
        }
    }
}

/// An answer with a summary, as it came: every field may be missing.
#[derive(Debug)]
pub struct L1SummaryResponse {
    pub summary: Option<String>,
    pub keywords: Option<String>,
    pub time_period: Option<String>,
    pub atmosphere: Option<String>,
    pub valence: Option<Real>,
    pub salience: Option<Real>,
    pub situation_strength: Option<i32>,
    pub evidence_notes: Option<Vec<EvidenceNote>>,
    pub continuation: Option<String>,
}

/// What an `L1SummaryResponse` says.
pub struct ResponseView {
    pub summary: Option<Seq<char>>,
    pub keywords: Option<Seq<char>>,
    pub time_period: Option<Seq<char>>,
    pub atmosphere: Option<Seq<char>>,
    pub valence: Option<Real>,
    pub salience: Option<Real>,
    pub situation_strength: Option<i32>,
    pub evidence_notes: Option<Seq<NoteView>>,
    pub continuation: Option<Seq<char>>,
}

impl View for L1SummaryResponse {
    type V = ResponseView;

    open spec fn view(&self) -> ResponseView {
        ResponseView {
            summary: opt_text(self.summary),
            keywords: opt_text(self.keywords),
            time_period: opt_text(self.time_period),
            atmosphere: opt_text(self.atmosphere),
            valence: self.valence,
            salience: self.salience,
            situation_strength: self.situation_strength,
            evidence_notes: opt_notes(self.evidence_notes),
            continuation: opt_text(self.continuation),
        }
    }
}

/// How summaries are made.
#[derive(Debug, Clone)]
pub struct L1SummarizerConfig {
    pub temperature: Real,
    pub max_tokens: u32,
    pub user_prefix: String,
    pub assistant_prefix: String,
    /// Whom the summaries are about.
    pub persona_uid: Option<String>,
    pub context_json: Option<String>,
    pub situation_strength: Option<i32>,
    /// How a conversation is split into blocks; without it, it is one block.
    pub utt_splitter: Option<UttSplitterConfig>,
    /// With more messages than this, a block is told to the next one by its summary.
    pub prior_context_threshold: usize,
    /// How much of a long block without a summary is told to the next one.
    pub prior_context_max_chars: usize,
}

impl Default for UttSplitterConfig {
    fn default() -> (r: Self)
        ensures
            r.theta_gap_minutes == 10,
            r.max_msgs_per_block == 40,
    {
        UttSplitterConfig { theta_gap_minutes: 10, max_msgs_per_block: 40 }
    }
}

impl Default for L1ProgressiveConfig {
    fn default() -> (r: Self)
        ensures
            !r.enabled,
            r.msg_threshold == 100,
            r.span_hours == 24,
            r.tail_msg_count == 60,
    {
        L1ProgressiveConfig {
            enabled: false,
            msg_threshold: 100,
            span_hours: 24,
            tail_msg_count: 60,
        }
    }
}

impl Default for L1SummarizerConfig {
    /// The temperature is three tenths.
    fn default() -> (r: Self)
        ensures
            r.temperature == (Real { bits: 0x3fd3_3333_3333_3333 }),
            r.max_tokens == 1024,
            r.user_prefix@ == "用户："@,
            r.assistant_prefix@ == "助手："@,
            r.persona_uid is None,
            r.context_json is None,
            r.situation_strength is None,
            r.utt_splitter == Some(
                (UttSplitterConfig { theta_gap_minutes: 10, max_msgs_per_block: 40 }),
            ),
            r.prior_context_threshold == 20,
            r.prior_context_max_chars == 1500,
    {
        L1SummarizerConfig {
            temperature: Real { bits: 0x3fd3_3333_3333_3333 },
            max_tokens: 1024,
            user_prefix: copy_text("用户："),
            assistant_prefix: copy_text("助手："),
            persona_uid: None,
            context_json: None,
            situation_strength: None,
            utt_splitter: Some(
                UttSplitterConfig { theta_gap_minutes: 10, max_msgs_per_block: 40 },
            ),
            prior_context_threshold: 20,
            prior_context_max_chars: 1500,
        }
    }
}

/// The part of a slot in a line about a note; none where the slot is blank.
pub open spec fn slot_parts(label: Seq<char>, o: Option<Seq<char>>) -> Seq<Seq<char>> {
    match slot_value(o) {
        Some(s) => seq![label + s],
        None => Seq::empty(),
    }
}

/// What a line about a note tells of its slots.
pub open spec fn slots_text(n: NoteView) -> Seq<char> {
    let parts = slot_parts("时间："@, n.time) + slot_parts("人物："@, n.who) + slot_parts(
        "原因："@,
        n.cause,
    );
    if parts.len() == 0 {
        Seq::empty()
    } else {
        "（"@ + join(parts, " · "@) + "）"@
    }
}

/// Adds the part of a slot, if it has one.
fn push_slot(parts: &mut Vec<Vec<char>>, label: &str, value: &Option<String>)
    ensures
        char_seqs(final(parts)@) == char_seqs(old(parts)@) + slot_parts(label@, opt_text(*value)),
{
    match value {
        Some(s) => {
            let t = trim_text(s.as_str());
            if !t.as_str().is_empty() {
                let mut p = chars_of(label);
                push_text(&mut p, t.as_str());
                let ghost pv = p@;
                parts.push(p);
                assert(char_seqs(parts@) =~= char_seqs(old(parts)@) + seq![pv]);
            } else {
                assert(char_seqs(parts@) =~= char_seqs(old(parts)@) + Seq::<Seq<char>>::empty());
            }
        },
        None => {
            assert(char_seqs(parts@) =~= char_seqs(old(parts)@) + Seq::<Seq<char>>::empty());
        },
    }
}

/// What a line about a note tells of its slots.
pub fn slot_suffix(note: &EvidenceNote) -> (r: String)
    ensures
        r@ == slots_text(note@),
{
    let mut parts: Vec<Vec<char>> = Vec::new();
    push_slot(&mut parts, "时间：", &note.time);
    push_slot(&mut parts, "人物：", &note.who);
    push_slot(&mut parts, "原因：", &note.cause);
    assert(char_seqs(parts@) =~= slot_parts("时间："@, note@.time) + slot_parts(
        "人物："@,
        note@.who,
    ) + slot_parts("原因："@, note@.cause));
    if parts.len() == 0 {
        return String::new();
    }
    let mut m = chars_of("（");
    append_chars(&mut m, &join_parts(&parts, " · "));
    push_text(&mut m, "）");
    string_of(&m)
}

/// The lines about notes; a blank note has none.
pub open spec fn note_lines(notes: Seq<NoteView>) -> Seq<Seq<char>>
    decreases notes.len(),
{
    if notes.len() == 0 {
        Seq::empty()
    } else {
        let front = note_lines(notes.drop_last());
        let n = notes.last();
        if blank(n.text) {
            front
        } else {
            front.push("- "@ + trim(n.text) + slots_text(n))
        }
    }
}

/// What a block is told of the one before it by a summary.
pub open spec fn summary_context(prev: L1View) -> Seq<char> {
    let head = "[上一块摘要] "@ + prev.summary;
    let lines = match prev.evidence_notes {
        Some(notes) => note_lines(notes),
        None => Seq::empty(),
    };
    if lines.len() == 0 {
        head
    } else {
        head + "\n[上一块线索]"@ + "\n"@ + join(lines, "\n"@)
    }
}

/// What a block is told of the one before it: a short block word for word, a long one by its
/// summary and notes, or by its beginning where it has no summary.
pub open spec fn prior_text(
    block: Seq<Message>,
    prev: Option<L1View>,
    threshold: nat,
    max_chars: nat,
    user_prefix: Seq<char>,
    assistant_prefix: Seq<char>,
) -> Seq<char> {
    let words = conversation_text(block, user_prefix, assistant_prefix);
    if block.len() <= threshold {
        words
    } else {
        match prev {
            Some(p) => summary_context(p),
            None => shortened(words, max_chars),
        }
    }
}

/// The lines about notes.
fn list_notes(notes: &Vec<EvidenceNote>) -> (lines: Vec<Vec<char>>)
    ensures
        char_seqs(lines@) == note_lines(note_views(notes@)),
{
    let ghost all = note_views(notes@);
    let mut lines: Vec<Vec<char>> = Vec::new();
    let mut i: usize = 0;
    assert(char_seqs(lines@) =~= note_lines(all.take(0)));
    while i < notes.len()
        invariant
            i <= notes@.len(),
            all == note_views(notes@),
            char_seqs(lines@) == note_lines(all.take(i as int)),
        decreases notes@.len() - i,
    {
        let n = &notes[i];
        assert(all.take(i + 1).drop_last() =~= all.take(i as int));
        assert(all.take(i + 1).last() == n@);
        let t = trim_text(n.text.as_str());
        if !t.as_str().is_empty() {
            let mut line = chars_of("- ");
            push_text(&mut line, t.as_str());
            push_text(&mut line, slot_suffix(n).as_str());
            let ghost lv = line@;
            let ghost before = char_seqs(lines@);
            lines.push(line);
            assert(char_seqs(lines@) =~= before.push(lv));
        }
        i += 1;
    }
    assert(all.take(i as int) =~= all);
    lines
}

/// What an optional summary says.
pub open spec fn opt_l1(o: Option<&MemoryL1>) -> Option<L1View> {
    match o {
        Some(l) => Some(l@),
        None => None,
    }
}

/// What a block is told of the one before it.
pub fn build_prior_context(
    prev_chunk: &Vec<Message>,
    prev_l1: Option<&MemoryL1>,
    config: &L1SummarizerConfig,
    user_prefix: &str,
    assistant_prefix: &str,
) -> (r: String)
    ensures
        r@ == prior_text(
            prev_chunk@,
            opt_l1(prev_l1),
            config.prior_context_threshold as nat,
            config.prior_context_max_chars as nat,
            user_prefix@,
            assistant_prefix@,
        ),
{
    if prev_chunk.len() <= config.prior_context_threshold {
        return format_messages(prev_chunk, user_prefix, assistant_prefix);
    }
    match prev_l1 {
        Some(prev) => {
            let mut m = chars_of("[上一块摘要] ");
            push_text(&mut m, prev.summary.as_str());
            match &prev.evidence_notes {
                Some(notes) => {
                    let lines = list_notes(notes);
                    if lines.len() > 0 {
                        push_text(&mut m, "\n[上一块线索]");
                        push_text(&mut m, "\n");
                        append_chars(&mut m, &join_parts(&lines, "\n"));
                    }
                },
                None => {},
            }
            string_of(&m)
        },
        None => {
            let raw = format_messages(prev_chunk, user_prefix, assistant_prefix);
            truncate_chars(raw.as_str(), config.prior_context_max_chars)
        },
    }
}

/// Whether a text names a time of day.
pub open spec fn day_time(s: Seq<char>) -> bool {
    ||| s == "清晨"@
    ||| s == "上午"@
    ||| s == "下午"@
    ||| s == "傍晚"@
    ||| s == "夜间"@
    ||| s == "深夜"@
}

/// The time of day that a field names, if it names one.
pub open spec fn period_value(o: Option<Seq<char>>) -> Option<Seq<char>> {
    match o {
        Some(s) => if day_time(trim(s)) {
            Some(trim(s))
        } else {
            None
        },
        None => None,
    }
}

/// The time of day that a field names, if it names one.
fn validate_period(o: &Option<String>) -> (r: Option<String>)
    ensures
        opt_text(r) == period_value(opt_text(*o)),
{
    match o {
        Some(s) => {
            let t = trim_text(s.as_str());
            let u = t.as_str();
            if same_text(u, "清晨") || same_text(u, "上午") || same_text(u, "下午") || same_text(
                u,
                "傍晚",
            ) || same_text(u, "夜间") || same_text(u, "深夜") {
                Some(t)
            } else {
                None
            }
        },
        None => None,
    }
}

/// The summary that a field holds, or a text that says that there is none.
pub open spec fn summary_value(o: Option<Seq<char>>) -> Seq<char> {
    match slot_value(o) {
        Some(s) => s,
        None => "（摘要生成失败，内容为空）"@,
    }
}

/// A number, or the one that stands for a missing one.
pub open spec fn number_or(o: Option<Real>, bits: u64) -> Real {
    match o {
        Some(x) => x,
        None => Real { bits },
    }
}

/// A number, or the one that stands for a missing one.
fn take_number(o: Option<Real>, bits: u64) -> (r: Real)
    ensures
        r == number_or(o, bits),
{
    match o {
        Some(x) => x,
        None => Real { bits },
    }
}

/// The bit pattern of a half.
pub const HALF_BITS: u64 = 0x3fe0_0000_0000_0000;

/// The summary that an answer makes, with every field brought into its range.
pub open spec fn built_l1(p: ResponseView, session_id: u128, id: u128, now: i64) -> L1View {
    L1View {
        id,
        session_id,
        summary: summary_value(p.summary),
        keywords: slot_value(p.keywords),
        time_period: period_value(p.time_period),
        atmosphere: match p.atmosphere {
            Some(s) => Some(cut(trim(s), 4)),
            None => None,
        },
        valence: valence_level(number_or(p.valence, 0)),
        salience: salience_level(number_or(p.salience, HALF_BITS)),
        absorbed: false,
        created_at: now,
        last_accessed_at: None,
        persona_uid: None,
        context_json: None,
        situation_strength: None,
        evidence_notes: Some(usable_notes(p.evidence_notes)),
        continuation: continuation_value(p.continuation),
    }
}

/// An optional text as a reference.
fn opt_ref(o: &Option<String>) -> (r: Option<&str>)
    ensures
        str_text(r) == opt_text(*o),
{
    match o {
        Some(s) => Some(s.as_str()),
        None => None,
    }
}

/// The summary that an answer makes, and its keywords.
pub fn validate_and_build(
    parsed: &L1SummaryResponse,
    session_id: u128,
    id: u128,
    now_ms: i64,
) -> (r: (MemoryL1, Vec<KeywordToken>))
    ensures
        r.0@ == built_l1(parsed@, session_id, id, now_ms),
        token_texts(r.1@) == field_keywords(parsed@.keywords),
{
    let summary = match normalize_optional_slot(copy_opt(&parsed.summary)) {
        Some(s) => s,
        None => copy_text("（摘要生成失败，内容为空）"),
    };
    let (keywords, list) = parse_keywords(opt_ref(&parsed.keywords));
    let atmosphere = match &parsed.atmosphere {
        Some(s) => {
            let t = trim_text(s.as_str());
            Some(truncate_chars_bare(t.as_str(), 4))
        },
        None => None,
    };
    let l1 = MemoryL1 {
        id,
        session_id,
        summary,
        keywords,
        time_period: validate_period(&parsed.time_period),
        atmosphere,
        valence: clamp_valence(take_number(parsed.valence, 0)),
        salience: clamp_salience(take_number(parsed.salience, HALF_BITS)),
        absorbed: false,
        created_at: now_ms,
        last_accessed_at: None,
        persona_uid: None,
        context_json: None,
        situation_strength: None,
        evidence_notes: Some(validate_evidence_notes(&parsed.evidence_notes)),
        continuation: validate_continuation(opt_ref(&parsed.continuation)),
    };
    (l1, list)
}

/// The strength of the situation: what the answer says, else what is configured, else the
/// middle one of five.
pub open spec fn strength(answer: Option<i32>, config: Option<i32>) -> i32 {
    match (answer, config) {
        (Some(x), _) => x,
        (None, Some(x)) => x,
        (None, None) => 3,
    }
}

/// The summary of a block: what the answer makes, for the persona and in the context of the
/// configuration. A block that was told of none before it continues none.
pub open spec fn chunk_l1(
    p: ResponseView,
    session_id: u128,
    id: u128,
    now: i64,
    config: L1SummarizerConfig,
    has_prior: bool,
) -> L1View {
    L1View {
        persona_uid: opt_text(config.persona_uid),
        context_json: opt_text(config.context_json),
        situation_strength: Some(strength(p.situation_strength, config.situation_strength)),
        continuation: if has_prior {
            continuation_value(p.continuation)
        } else {
            None
        },
        ..built_l1(p, session_id, id, now)
    }
}

/// The summary of a block, and its keywords.
pub fn finish_chunk(
    parsed: &L1SummaryResponse,
    session_id: u128,
    id: u128,
    now_ms: i64,
    config: &L1SummarizerConfig,
    has_prior: bool,
) -> (r: (MemoryL1, Vec<KeywordToken>))
    ensures
        r.0@ == chunk_l1(parsed@, session_id, id, now_ms, *config, has_prior),
        token_texts(r.1@) == field_keywords(parsed@.keywords),
{
    let (mut l1, keywords) = validate_and_build(parsed, session_id, id, now_ms);
    l1.persona_uid = copy_opt(&config.persona_uid);
    l1.context_json = copy_opt(&config.context_json);
    l1.situation_strength = match (parsed.situation_strength, config.situation_strength) {
        (Some(x), _) => Some(x),
        (None, Some(x)) => Some(x),
        (None, None) => Some(3),
    };
    l1.continuation = if has_prior {
        validate_continuation(opt_ref(&parsed.continuation))
    } else {
        None
    };
    (l1, keywords)
}

/// The request for the summary of a block, with the version of the prompts as it is given.
pub fn chunk_request(
    chunk: &Vec<Message>,
    keyword_candidates: Option<&str>,
    prior_context: Option<&str>,
    config: &L1SummarizerConfig,
    template_version: &str,
) -> (r: ChatRequest)
    ensures
        asks(
            r,
            Seq::empty(),
            l1_prompt(
                conversation_text(chunk@, config.user_prefix@, config.assistant_prefix@),
                str_text(keyword_candidates),
                str_text(prior_context),
            ),
            config.temperature,
            config.max_tokens,
            Some(template_version@),
        ),
        random_version(r.request_id),
{
    let conversation = format_messages(
        chunk,
        config.user_prefix.as_str(),
        config.assistant_prefix.as_str(),
    );
    let user_message = build_l1_prompt(conversation.as_str(), keyword_candidates, prior_context);
    let system_prompt = String::new();
    assert(system_prompt@ =~= Seq::<char>::empty());
    ChatRequest {
        system_prompt,
        memory_context: None,
        history: Vec::new(),
        user_message,
        temperature: config.temperature,
        max_tokens: config.max_tokens,
        request_id: new_request_id(),
        template_version: Some(copy_text(template_version)),
    }
}

/// A keyword of a document, as it is stored.
#[derive(Debug)]
pub struct KeywordRefRow {
    pub keyword: String,
    pub doc_type: String,
    pub doc_id: String,
    pub persona_uid: String,
    pub weight: Real,
}

/// What a `KeywordRefRow` says.
pub struct RefRowView {
    pub keyword: Seq<char>,
    pub doc_type: Seq<char>,
    pub doc_id: Seq<char>,
    pub persona_uid: Seq<char>,
    pub weight: Real,
}

impl View for KeywordRefRow {
    type V = RefRowView;

    open spec fn view(&self) -> RefRowView {
        RefRowView {
            keyword: self.keyword@,
            doc_type: self.doc_type@,
            doc_id: self.doc_id@,
            persona_uid: self.persona_uid@,
            weight: self.weight,
        }
    }
}

/// The row of a keyword of a summary. Without a persona the name of the persona is empty.
pub open spec fn ref_row(l1: L1View, keyword: Seq<char>) -> RefRowView {
    RefRowView {
        keyword,
        doc_type: "l1"@,
        doc_id: hyphenated(l1.id),
        persona_uid: match l1.persona_uid {
            Some(p) => p,
            None => Seq::empty(),
        },
        weight: Real { bits: ONE_BITS },
    }
}

/// The rows of the keywords of a summary, in their order.
pub fn keyword_rows(l1: &MemoryL1, keywords: &Vec<KeywordToken>) -> (r: Vec<KeywordRefRow>)
    ensures
        r@.len() == keywords@.len(),
        forall|i: int|
            0 <= i < r@.len() ==> (#[trigger] r@[i])@ == ref_row(l1@, keywords@[i]@),
{
    let mut out: Vec<KeywordRefRow> = Vec::new();
    let mut i: usize = 0;
    while i < keywords.len()
        invariant
            i <= keywords@.len(),
            out@.len() == i,
            forall|j: int|
                0 <= j < out@.len() ==> (#[trigger] out@[j])@ == ref_row(l1@, keywords@[j]@),
        decreases keywords@.len() - i,
    {
        let persona_uid = match &l1.persona_uid {
            Some(p) => copy_text(p.as_str()),
            None => {
                let none = String::new();
                assert(none@ =~= Seq::<char>::empty());
                none
            },
        };
        out.push(
            KeywordRefRow {
                keyword: copy_text(keywords[i].as_str()),
                doc_type: copy_text("l1"),
                doc_id: id_text(l1.id),
                persona_uid,
                weight: Real { bits: ONE_BITS },
            },
        );
        i += 1;
    }
    out
}

/// What is kept of an answer is in range: the summary is not blank, the time of day is one of
/// six or none, the mood has at most four characters, the notes have at least five each, and
/// the numbers are levels.
pub proof fn law_summary_in_range(p: ResponseView, session_id: u128, id: u128, now: i64)
    ensures
        !blank(built_l1(p, session_id, id, now).summary),
        built_l1(p, session_id, id, now).time_period matches Some(s) ==> day_time(s),
        built_l1(p, session_id, id, now).atmosphere matches Some(s) ==> s.len() <= 4,
        built_l1(p, session_id, id, now).evidence_notes matches Some(notes) && forall|i: int|
            0 <= i < notes.len() ==> (#[trigger] notes[i]).text.len() >= 5,
        valence_level(built_l1(p, session_id, id, now).valence) == built_l1(
            p,
            session_id,
            id,
            now,
        ).valence,
        salience_level(built_l1(p, session_id, id, now).salience) == built_l1(
            p,
            session_id,
            id,
            now,
        ).salience,
{
    reveal_strlit("（摘要生成失败，内容为空）");
    let fallback = "（摘要生成失败，内容为空）"@;
    assert(!is_space(fallback[0]));
    assert(!is_space(fallback[fallback.len() - 1]));
    assert(trim(fallback).len() > 0) by {
        reveal_with_fuel(trim_start, 2);
        reveal_with_fuel(trim_end, 2);
    }
    match p.summary {
        Some(s) => {
            lemma_trim_ends(s);
            if !blank(s) {
                lemma_trim_fixed(trim(s));
            }
        },
        None => {},
    }
    match p.evidence_notes {
        Some(notes) => lemma_kept_notes(notes),
        None => {},
    }
}

/// Notes that are kept are long enough.
proof fn lemma_kept_notes(notes: Seq<NoteView>)
    ensures
        forall|i: int|
            0 <= i < kept_notes(notes).len() ==> (#[trigger] kept_notes(notes)[i]).text.len() >= 5,
    decreases notes.len(),
{
    if notes.len() > 0 {
        lemma_kept_notes(notes.drop_last());
    }
}

/// Without a block before it, a block continues none, whatever the answer says.
pub proof fn law_first_block_continues_none(
    p: ResponseView,
    session_id: u128,
    id: u128,
    now: i64,
    config: L1SummarizerConfig,
)
    ensures
        chunk_l1(p, session_id, id, now, config, false).continuation is None,
{
}

/// The keywords of a field are what stands between its commas, in order: every piece that is
/// not blank gives one, without the spaces round it and in lower case. There are as many
/// keywords as pieces that are not blank.
pub proof fn law_keywords_of_pieces(s: Seq<char>)
    ensures
        field_keywords(Some(s)) == split(trim(s), |c: char| c == ',').filter(
            |p: Seq<char>| exists|i: int| 0 <= i < p.len() && !is_space(#[trigger] p[i]),
        ).map_values(|p: Seq<char>| lower(trim(p))),
        field_keywords(Some(s)).len() == split(trim(s), |c: char| c == ',').filter(
            |p: Seq<char>| exists|i: int| 0 <= i < p.len() && !is_space(#[trigger] p[i]),
        ).len(),
        field_keywords(None).len() == 0,
{
    let pieces = split(trim(s), |c: char| c == ',');
    lemma_piece_keywords(pieces);
    if blank(s) {
        reveal_with_fuel(Seq::filter, 2);
        reveal_with_fuel(split, 2);
        let keep = |p: Seq<char>| exists|i: int| 0 <= i < p.len() && !is_space(#[trigger] p[i]);
        assert(pieces =~= seq![Seq::<char>::empty()]);
        assert(pieces.drop_last() =~= Seq::<Seq<char>>::empty());
        assert(!keep(pieces.last()));
        assert(pieces.filter(keep) =~= Seq::<Seq<char>>::empty());
        assert(field_keywords(Some(s)) =~= pieces.filter(keep).map_values(
            |p: Seq<char>| lower(trim(p)),
        ));
    }
}

proof fn lemma_piece_keywords(pieces: Seq<Seq<char>>)
    ensures
        piece_keywords(pieces) == pieces.filter(
            |p: Seq<char>| exists|i: int| 0 <= i < p.len() && !is_space(#[trigger] p[i]),
        ).map_values(|p: Seq<char>| lower(trim(p))),
    decreases pieces.len(),
{
    reveal(Seq::filter);
    let keep = |p: Seq<char>| exists|i: int| 0 <= i < p.len() && !is_space(#[trigger] p[i]);
    let f = |p: Seq<char>| lower(trim(p));
    if pieces.len() > 0 {
        lemma_piece_keywords(pieces.drop_last());
        law_trim_takes_spaces_off(pieces.last());
        let front = pieces.drop_last().filter(keep);
        assert(keep(pieces.last()) == !blank(pieces.last()));
        if !blank(pieces.last()) {
            assert(front.push(pieces.last()).map_values(f) =~= front.map_values(f).push(
                lower(trim(pieces.last())),
            ));
        }
    } else {
        assert(pieces.filter(keep).map_values(f) =~= Seq::<Seq<char>>::empty());
    }
}

/// A comma parts the keywords of a field: those before it come first, those behind it follow.
pub proof fn law_comma_parts_keywords(a: Seq<char>, b: Seq<char>)
    requires
        a.len() > 0,
        b.len() > 0,
        !is_space(a[0]),
        !is_space(b.last()),
    ensures
        field_keywords(Some(a + seq![','] + b)) == piece_keywords(split(a, |c: char| c == ','))
            + piece_keywords(split(b, |c: char| c == ',')),
{
    let s = a + seq![','] + b;
    let comma = |c: char| c == ',';
    assert(s =~= a.push(',') + b);
    crate::text::law_split_at_separator(a, ',', b, comma);
    assert(s[0] == a[0]);
    assert(s.last() == b.last());
    lemma_trim_fixed(s);
    let keep = |p: Seq<char>| exists|i: int| 0 <= i < p.len() && !is_space(#[trigger] p[i]);
    let f = |p: Seq<char>| lower(trim(p));
    let x = split(a, comma);
    let y = split(b, comma);
    lemma_piece_keywords(x);
    lemma_piece_keywords(y);
    lemma_piece_keywords(x + y);
    Seq::filter_distributes_over_add(x, y, keep);
    assert((x.filter(keep) + y.filter(keep)).map_values(f) =~= x.filter(keep).map_values(f)
        + y.filter(keep).map_values(f));
}

/// A field that is blank is stored as none; any other is stored without the spaces round it.
pub proof fn law_blank_fields_are_none(o: Option<Seq<char>>)
    ensures
        slot_value(o) is Some <==> (o matches Some(s) && exists|i: int|
            0 <= i < s.len() && !is_space(#[trigger] s[i])),
        slot_value(o) is Some ==> slot_value(o) == Some(trim(o->0)),
{
    match o {
        Some(s) => law_trim_takes_spaces_off(s),
        None => {},
    }
}

/// A conversation has a line for each message of a user or an assistant, in order: the prefix
/// of who says it, then what is said.
pub proof fn law_lines_of_messages(
    messages: Seq<Message>,
    user_prefix: Seq<char>,
    assistant_prefix: Seq<char>,
)
    ensures
        message_lines(messages, user_prefix, assistant_prefix) == messages.filter(
            |m: Message| m.role == MessageRole::User || m.role == MessageRole::Assistant,
        ).map_values(
            |m: Message|
                (if m.role == MessageRole::User {
                    user_prefix
                } else {
                    assistant_prefix
                }) + m.content@,
        ),
        conversation_text(messages, user_prefix, assistant_prefix) == join(
            message_lines(messages, user_prefix, assistant_prefix),
            "\n"@,
        ),
    decreases messages.len(),
{
    reveal(Seq::filter);
    let keep = |m: Message| m.role == MessageRole::User || m.role == MessageRole::Assistant;
    let f = |m: Message|
        (if m.role == MessageRole::User {
            user_prefix
        } else {
            assistant_prefix
        }) + m.content@;
    if messages.len() > 0 {
        law_lines_of_messages(messages.drop_last(), user_prefix, assistant_prefix);
        let front = messages.drop_last().filter(keep);
        if keep(messages.last()) {
            assert(front.push(messages.last()).map_values(f) =~= front.map_values(f).push(
                f(messages.last()),
            ));
        }
    } else {
        assert(messages.filter(keep).map_values(f) =~= Seq::<Seq<char>>::empty());
    }
}

/// A conversation is long when it has more messages than allowed, or when more hours than
/// allowed lie between its first message and its last.
pub proof fn law_long_conversations(messages: Seq<Message>, cfg: L1ProgressiveConfig)
    ensures
        messages.len() > cfg.msg_threshold ==> progressive(messages, cfg),
        messages.len() <= cfg.msg_threshold && messages.len() > 0 ==> (progressive(messages, cfg)
            <==> messages.last().created_at - messages[0].created_at > cfg.span_hours * 60 * 60
            * 1000),
        messages.len() == 0 ==> !progressive(messages, cfg),
{
    assert(cfg.span_hours * 3_600_000 < i64::MAX);
}

/// The segments of a long conversation end after ten minutes and hold as many messages as
/// wanted, but at least one.
pub proof fn law_segments(cfg: L1ProgressiveConfig)
    ensures
        segment_splitter(cfg).theta_gap_minutes == 10,
        segment_splitter(cfg).max_msgs_per_block >= 1,
        segment_splitter(cfg).max_msgs_per_block >= cfg.tail_msg_count,
        segment_splitter(cfg).max_msgs_per_block == 1 || segment_splitter(cfg).max_msgs_per_block
            == cfg.tail_msg_count,
{
}

/// Every note with at least five characters besides the spaces round it is kept, in order,
/// without the spaces round its text and its slots; slots that are blank are none.
pub proof fn law_long_notes_are_kept(notes: Seq<NoteView>)
    ensures
        usable_notes(Some(notes)) == notes.filter(|n: NoteView| trim(n.text).len() >= 5).map_values(
            |n: NoteView|
                NoteView {
                    text: trim(n.text),
                    time: slot_value(n.time),
                    who: slot_value(n.who),
                    cause: slot_value(n.cause),
                },
        ),
        usable_notes(None).len() == 0,
    decreases notes.len(),
{
    reveal(Seq::filter);
    let keep = |n: NoteView| trim(n.text).len() >= 5;
    let f = |n: NoteView|
        NoteView {
            text: trim(n.text),
            time: slot_value(n.time),
            who: slot_value(n.who),
            cause: slot_value(n.cause),
        };
    if notes.len() > 0 {
        law_long_notes_are_kept(notes.drop_last());
        let front = notes.drop_last().filter(keep);
        if keep(notes.last()) {
            assert(front.push(notes.last()).map_values(f) =~= front.map_values(f).push(
                f(notes.last()),
            ));
        }
    } else {
        assert(notes.filter(keep).map_values(f) =~= Seq::<NoteView>::empty());
    }
}

/// Every text and every note among the items of an answer gives a note, in order; nothing else
/// does.
pub proof fn law_items_give_notes(items: Seq<EvidenceItem>)
    ensures
        item_notes(items) == items.filter(
            |x: EvidenceItem| x is Text || x is Note,
        ).map_values(
            |x: EvidenceItem|
                match x {
                    EvidenceItem::Note(n) => NoteView {
                        text: n.text@,
                        time: opt_text(n.time),
                        who: opt_text(n.who),
                        cause: opt_text(n.cause),
                    },
                    EvidenceItem::Text(s) => NoteView {
                        text: s@,
                        time: None,
                        who: None,
                        cause: None,
                    },
                    _ => arbitrary(),
                },
        ),
    decreases items.len(),
{
    reveal(Seq::filter);
    let keep = |x: EvidenceItem| x is Text || x is Note;
    let f = |x: EvidenceItem|
        match x {
            EvidenceItem::Note(n) => NoteView {
                text: n.text@,
                time: opt_text(n.time),
                who: opt_text(n.who),
                cause: opt_text(n.cause),
            },
            EvidenceItem::Text(s) => NoteView { text: s@, time: None, who: None, cause: None },
            _ => arbitrary(),
        };
    if items.len() > 0 {
        law_items_give_notes(items.drop_last());
        let front = items.drop_last().filter(keep);
        if keep(items.last()) {
            assert(front.push(items.last()).map_values(f) =~= front.map_values(f).push(
                f(items.last()),
            ));
        }
    } else {
        assert(items.filter(keep).map_values(f) =~= Seq::<NoteView>::empty());
    }
}

/// What an answer says of the block before counts where it is one of three words, with or
/// without spaces round it.
pub proof fn law_continuation_words(s: Seq<char>)
    ensures
        continuation_value(None) is None,
        continuation_value(Some(s)) is Some <==> trim(s) == "延续"@ || trim(s) == "转折"@ || trim(s)
            == "无关"@,
        continuation_value(Some(s)) matches Some(t) ==> t == trim(s),
{
}

/// A time of day counts where it is one of six words, with or without spaces round it.
pub proof fn law_times_of_day(s: Seq<char>)
    ensures
        period_value(None) is None,
        period_value(Some(s)) is Some <==> seq![
            "清晨"@,
            "上午"@,
            "下午"@,
            "傍晚"@,
            "夜间"@,
            "深夜"@,
        ].contains(trim(s)),
        period_value(Some(s)) matches Some(t) ==> t == trim(s),
{
    let all = seq!["清晨"@, "上午"@, "下午"@, "傍晚"@, "夜间"@, "深夜"@];
    assert(all[0] == "清晨"@ && all[1] == "上午"@ && all[2] == "下午"@);
    assert(all[3] == "傍晚"@ && all[4] == "夜间"@ && all[5] == "深夜"@);
}

/// Up to a hundred keywords are all suggested; of more, the first fifty are.
pub proof fn law_suggested_keywords(keywords: Seq<Seq<char>>)
    ensures
        keywords.len() == 0 <==> candidate_text(keywords) is None,
        0 < keywords.len() <= 100 ==> candidate_text(keywords) == Some(join(keywords, ", "@)),
        keywords.len() > 100 ==> candidate_text(keywords) == Some(join(keywords.take(50), ", "@)),
{
}

/// An answer is read first as it is, then without what was only thought, then by the first
/// object in it; nothing else is tried.
pub proof fn law_reading_attempts(raw: Seq<char>)
    ensures
        json_attempts(raw)[0] == raw,
        json_attempts(raw).contains(unthought(raw)),
        first_object(raw) matches Some(o) ==> json_attempts(raw).last() == o,
        first_object(raw) is None ==> json_attempts(raw).last() == unthought(raw),
        json_attempts(raw).len() == 1 + (if unthought(raw) != raw {
            1int
        } else {
            0int
        }) + (if first_object(raw) is Some {
            1int
        } else {
            0int
        }),
{
    let a = json_attempts(raw);
    if unthought(raw) != raw {
        assert(a[1] == unthought(raw));
    } else {
        assert(a[0] == unthought(raw));
    }
}

/// A note is told by its slots in the order time, who, cause; slots that are blank are left
/// out, and without slots nothing is told.
pub proof fn law_slots_are_told(n: NoteView)
    ensures
        slots_text(n) == ({
            let told = seq![("时间："@, n.time), ("人物："@, n.who), ("原因："@, n.cause)].filter(
                |x: (Seq<char>, Option<Seq<char>>)| slot_value(x.1) is Some,
            ).map_values(|x: (Seq<char>, Option<Seq<char>>)| x.0 + trim(x.1->0));
            if told.len() == 0 {
                Seq::empty()
            } else {
                "（"@ + join(told, " · "@) + "）"@
            }
        }),
{
    reveal_with_fuel(Seq::filter, 4);
    let keep = |x: (Seq<char>, Option<Seq<char>>)| slot_value(x.1) is Some;
    let f = |x: (Seq<char>, Option<Seq<char>>)| x.0 + trim(x.1->0);
    let a = seq![("时间："@, n.time)];
    let b = a.push(("人物："@, n.who));
    let all = seq![("时间："@, n.time), ("人物："@, n.who), ("原因："@, n.cause)];
    assert(all.drop_last() =~= b);
    assert(b.drop_last() =~= a);
    assert(a.drop_last() =~= Seq::empty());
    assert(a.filter(keep).map_values(f) =~= slot_parts("时间："@, n.time));
    assert(b.filter(keep).map_values(f) =~= slot_parts("时间："@, n.time) + slot_parts(
        "人物："@,
        n.who,
    ));
    assert(all.filter(keep).map_values(f) =~= slot_parts("时间："@, n.time) + slot_parts(
        "人物："@,
        n.who,
    ) + slot_parts("原因："@, n.cause));
}

/// Every note whose text is not blank has a line, in order.
pub proof fn law_lines_of_notes(notes: Seq<NoteView>)
    ensures
        note_lines(notes) == notes.filter(
            |n: NoteView| exists|i: int| 0 <= i < n.text.len() && !is_space(#[trigger] n.text[i]),
        ).map_values(|n: NoteView| "- "@ + trim(n.text) + slots_text(n)),
    decreases notes.len(),
{
    reveal(Seq::filter);
    let keep = |n: NoteView|
        exists|i: int| 0 <= i < n.text.len() && !is_space(#[trigger] n.text[i]);
    let f = |n: NoteView| "- "@ + trim(n.text) + slots_text(n);
    if notes.len() > 0 {
        law_lines_of_notes(notes.drop_last());
        law_trim_takes_spaces_off(notes.last().text);
        let front = notes.drop_last().filter(keep);
        assert(keep(notes.last()) == !blank(notes.last().text));
        if keep(notes.last()) {
            assert(front.push(notes.last()).map_values(f) =~= front.map_values(f).push(
                f(notes.last()),
            ));
        }
    } else {
        assert(notes.filter(keep).map_values(f) =~= Seq::<Seq<char>>::empty());
    }
}

/// A short block is told to the next one in its own words. A long one is told by its summary
/// and the lines of its notes, or, without a summary, by the beginning of its words.
pub proof fn law_what_the_next_block_is_told(
    block: Seq<Message>,
    prev: Option<L1View>,
    threshold: nat,
    max_chars: nat,
    user_prefix: Seq<char>,
    assistant_prefix: Seq<char>,
)
    ensures
        block.len() <= threshold ==> prior_text(
            block,
            prev,
            threshold,
            max_chars,
            user_prefix,
            assistant_prefix,
        ) == join(message_lines(block, user_prefix, assistant_prefix), "\n"@),
        block.len() > threshold && prev is None ==> prior_text(
            block,
            prev,
            threshold,
            max_chars,
            user_prefix,
            assistant_prefix,
        ) == shortened(
            join(message_lines(block, user_prefix, assistant_prefix), "\n"@),
            max_chars,
        ),
        block.len() > threshold && prev is Some ==> prior_text(
            block,
            prev,
            threshold,
            max_chars,
            user_prefix,
            assistant_prefix,
        ) == (if prev->0.evidence_notes is Some && note_lines(
            prev->0.evidence_notes->0,
        ).len() > 0 {
            "[上一块摘要] "@ + prev->0.summary + "\n[上一块线索]"@ + "\n"@ + join(
                note_lines(prev->0.evidence_notes->0),
                "\n"@,
            )
        } else {
            "[上一块摘要] "@ + prev->0.summary
        }),
{
}

/// The summary of a block keeps what its answer says: the text, the keywords and the notes
/// without the spaces round them, the mood by its first four characters, the numbers as levels,
/// 0 and a half where they are missing. It is new: not absorbed, never read.
pub proof fn law_summary_keeps_answer(p: ResponseView, session_id: u128, id: u128, now: i64)
    ensures
        ({
            let l = built_l1(p, session_id, id, now);
            &&& l.id == id
            &&& l.session_id == session_id
            &&& l.created_at == now
            &&& l.last_accessed_at is None
            &&& !l.absorbed
            &&& l.summary == (match slot_value(p.summary) {
                Some(s) => s,
                None => "（摘要生成失败，内容为空）"@,
            })
            &&& l.keywords == slot_value(p.keywords)
            &&& l.time_period == period_value(p.time_period)
            &&& l.continuation == continuation_value(p.continuation)
            &&& l.evidence_notes == Some(usable_notes(p.evidence_notes))
            &&& l.atmosphere is Some <==> p.atmosphere is Some
            &&& p.atmosphere matches Some(s) ==> l.atmosphere == Some(
                trim(s).take(
                    if trim(s).len() < 4 {
                        trim(s).len() as int
                    } else {
                        4
                    },
                ),
            )
            &&& p.valence matches Some(v) ==> l.valence == valence_level(v)
            &&& p.valence is None ==> l.valence == valence_level(Real { bits: 0 })
            &&& p.salience matches Some(v) ==> l.salience == salience_level(v)
            &&& p.salience is None ==> l.salience == salience_level(
                Real { bits: 0x3FE0_0000_0000_0000 },
            )
        }),
{
    match p.atmosphere {
        Some(s) => crate::text::law_shortening(trim(s), 4),
        None => {},
    }
}

/// The summary of a block of a conversation is about the persona of the run and has its
/// context. Its strength is that of the answer, else that of the run, else 3. It says how it
/// continues the block before it where there is one. The rest is as the answer says.
pub proof fn law_summary_of_block(
    p: ResponseView,
    session_id: u128,
    id: u128,
    now: i64,
    config: L1SummarizerConfig,
    has_prior: bool,
)
    ensures
        ({
            let l = chunk_l1(p, session_id, id, now, config, has_prior);
            &&& l.persona_uid == opt_text(config.persona_uid)
            &&& l.context_json == opt_text(config.context_json)
            &&& p.situation_strength is Some ==> l.situation_strength == p.situation_strength
            &&& p.situation_strength is None && config.situation_strength is Some
                ==> l.situation_strength == config.situation_strength
            &&& p.situation_strength is None && config.situation_strength is None
                ==> l.situation_strength == Some(3i32)
            &&& has_prior ==> l.continuation == continuation_value(p.continuation)
            &&& !has_prior ==> l.continuation is None
            &&& l.id == id
            &&& l.session_id == session_id
            &&& l.created_at == now
            &&& !l.absorbed
            &&& l.last_accessed_at is None
            &&& l.summary == built_l1(p, session_id, id, now).summary
            &&& l.keywords == slot_value(p.keywords)
            &&& l.time_period == period_value(p.time_period)
            &&& l.atmosphere == built_l1(p, session_id, id, now).atmosphere
            &&& l.valence == built_l1(p, session_id, id, now).valence
            &&& l.salience == built_l1(p, session_id, id, now).salience
            &&& l.evidence_notes == Some(usable_notes(p.evidence_notes))
        }),
{
}

/// The row of a keyword leads from the keyword to the summary and its persona, with weight 1.
pub proof fn law_rows_lead_to_summary(l1: L1View, keyword: Seq<char>)
    ensures
        ref_row(l1, keyword).keyword == keyword,
        ref_row(l1, keyword).doc_type == "l1"@,
        ref_row(l1, keyword).doc_id == hyphenated(l1.id),
        l1.persona_uid matches Some(p) ==> ref_row(l1, keyword).persona_uid == p,
        l1.persona_uid is None ==> ref_row(l1, keyword).persona_uid.len() == 0,
        ref_row(l1, keyword).weight == (Real { bits: 0x3FF0_0000_0000_0000 }),
{
}

/// What a summary, an answer, a note and a row say is what stands in their fields.
pub proof fn law_fields_are_seen(
    l: MemoryL1,
    a: L1SummaryResponse,
    n: EvidenceNote,
    k: KeywordRefRow,
)
    ensures
        l@.id == l.id && l@.session_id == l.session_id && l@.summary == l.summary@,
        l@.keywords == opt_text(l.keywords) && l@.time_period == opt_text(l.time_period),
        l@.atmosphere == opt_text(l.atmosphere) && l@.valence == l.valence,
        l@.salience == l.salience && l@.absorbed == l.absorbed && l@.created_at == l.created_at,
        l@.last_accessed_at == l.last_accessed_at && l@.persona_uid == opt_text(l.persona_uid),
        l@.context_json == opt_text(l.context_json),
        l@.situation_strength == l.situation_strength,
        l@.evidence_notes == opt_notes(l.evidence_notes),
        l@.continuation == opt_text(l.continuation),
        a@.summary == opt_text(a.summary) && a@.keywords == opt_text(a.keywords),
        a@.time_period == opt_text(a.time_period) && a@.atmosphere == opt_text(a.atmosphere),
        a@.valence == a.valence && a@.salience == a.salience,
        a@.situation_strength == a.situation_strength,
        a@.evidence_notes == opt_notes(a.evidence_notes),
        a@.continuation == opt_text(a.continuation),
        n@.text == n.text@ && n@.time == opt_text(n.time),
        n@.who == opt_text(n.who) && n@.cause == opt_text(n.cause),
        k@.keyword == k.keyword@ && k@.doc_type == k.doc_type@ && k@.doc_id == k.doc_id@,
        k@.persona_uid == k.persona_uid@ && k@.weight == k.weight,
{
}

/// An answer that cannot be read is told by its length alone.
pub proof fn law_unreadable_answer_is_told(n: nat)
    ensures
        unreadable_text(n) == "L1 摘要 JSON 解析失败，原始响应 "@ + decimal(n)
            + " 字符（不记录原文，防隐私泄漏）（若响应不完整，可能是 max_tokens 输出预算不足导致截断）"@,
{
}

/// What a list of notes says is what each of them says, in order.
pub proof fn law_notes_are_seen(v: Seq<EvidenceNote>, o: Option<Vec<EvidenceNote>>)
    ensures
        note_views(v).len() == v.len(),
        forall|i: int| 0 <= i < v.len() ==> #[trigger] note_views(v)[i] == v[i]@,
        o matches Some(n) ==> opt_notes(o) == Some(note_views(n@)),
        o is None ==> opt_notes(o) is None,
{
}

/// Reading the keywords of a field gives the field without the spaces round it, none where it is
/// blank, and a keyword for each piece between its commas that is not blank, in order.
pub proof fn law_reading_keywords(s: &str, r: (Option<String>, Vec<KeywordToken>))
    requires
        call_ensures(parse_keywords, (Some(s),), r),
    ensures
        r.1@.len() == split(trim(s@), |c: char| c == ',').filter(
            |p: Seq<char>| exists|i: int| 0 <= i < p.len() && !is_space(#[trigger] p[i]),
        ).len(),
        forall|k: int|
            0 <= k < r.1@.len() ==> (#[trigger] r.1@[k])@ == lower(
                trim(
                    split(trim(s@), |c: char| c == ',').filter(
                        |p: Seq<char>|
                            exists|i: int| 0 <= i < p.len() && !is_space(#[trigger] p[i]),
                    )[k],
                ),
            ),
        r.0 is Some <==> exists|i: int| 0 <= i < s@.len() && !is_space(#[trigger] s@[i]),
        r.0 matches Some(f) ==> f@ == trim(s@),
{
    law_keywords_of_pieces(s@);
    law_blank_fields_are_none(Some(s@));
    assert forall|k: int| 0 <= k < r.1@.len() implies (#[trigger] r.1@[k])@ == token_texts(
        r.1@,
    )[k] by {
    }
}

/// Segments are made where they are enabled and the conversation is long.
pub proof fn law_when_segments_are_made(messages: &Vec<Message>, cfg: &L1ProgressiveConfig, r: bool)
    requires
        call_ensures(wants_segments, (messages, cfg), r),
    ensures
        r ==> cfg.enabled,
        cfg.enabled && messages@.len() > cfg.msg_threshold ==> r,
        cfg.enabled && 0 < messages@.len() <= cfg.msg_threshold ==> (r
            <==> messages@.last().created_at - messages@[0].created_at > cfg.span_hours * 60 * 60
            * 1000),
        messages@.len() == 0 ==> !r,
{
    law_long_conversations(messages@, *cfg);
}

/// Every keyword of a summary has a row, in order, that leads to it.
pub proof fn law_every_keyword_has_a_row(
    l1: &MemoryL1,
    keywords: &Vec<KeywordToken>,
    r: Vec<KeywordRefRow>,
    i: int,
)
    requires
        call_ensures(keyword_rows, (l1, keywords), r),
        0 <= i < keywords@.len(),
    ensures
        r@.len() == keywords@.len(),
        r@[i].keyword@ == keywords@[i]@,
        r@[i].doc_type@ == "l1"@,
        r@[i].doc_id@ == hyphenated(l1.id),
        l1.persona_uid matches Some(p) ==> r@[i].persona_uid@ == p@,
        l1.persona_uid is None ==> r@[i].persona_uid@.len() == 0,
        r@[i].weight.bits == 0x3ff0_0000_0000_0000,
{
    assert(r@[i]@ == ref_row(l1@, keywords@[i]@));
}

/// How conversations are summarised where nothing else is said.
pub proof fn law_default_summaries(
    a: UttSplitterConfig,
    b: L1ProgressiveConfig,
    c: L1SummarizerConfig,
)
    requires
        call_ensures(UttSplitterConfig::default, (), a),
        call_ensures(L1ProgressiveConfig::default, (), b),
        call_ensures(L1SummarizerConfig::default, (), c),
    ensures
        a.theta_gap_minutes == 10 && a.max_msgs_per_block == 40,
        !b.enabled && b.msg_threshold == 100 && b.span_hours == 24 && b.tail_msg_count == 60,
        c.temperature.bits == 0x3fd3_3333_3333_3333 && c.max_tokens == 1024,
        c.user_prefix@ == "用户："@ && c.assistant_prefix@ == "助手："@,
        c.persona_uid is None && c.context_json is None && c.situation_strength is None,
        c.utt_splitter == Some(a),
        c.prior_context_threshold == 20 && c.prior_context_max_chars == 1500,
{
}

} // verus!
