//! Summarising a conversation, as a machine of steps: what to do next after each event.

use vstd::prelude::*;

use crate::ids::hyphenated;
use crate::keyword::token::{token_texts, KeywordToken};
use crate::l1::summarizer::{blocks_or_whole, build_prior_context, prior_text, progressive,
    progressive_splitter, segment_splitter, session_message, wants_segments, L1ProgressiveConfig,
    L1SummarizerConfig, L1View, MemoryL1, Message, UttSplitterConfig};
use crate::text::opt_text;

verus! {

/// How the blocks of a conversation are summarised.
#[derive(Debug, Clone, Copy, PartialEq, Eq, Structural)]
pub enum SummaryMode {
    /// All blocks are summarised before the first summary is stored; the last summary is
    /// the result.
    Session,
    /// Every summary is stored before the next block is summarised; all summaries are the
    /// result.
    Progressive,
}

/// How the work on a session begins.
#[derive(Debug)]
pub enum SessionPlan {
    /// There is nothing to summarise, as this tells.
    Refuse(String),
    /// The messages are split into blocks.
    Split(SummaryMode, UttSplitterConfig),
    /// All messages are one block.
    Whole,
}

/// Whether `plan` is how the work on a session begins. A session without messages is
/// refused. A long one is split into segments where this is asked for and enabled; any other
/// one is split into blocks where the configuration says how.
pub open spec fn plans(
    plan: SessionPlan,
    messages: Seq<Message>,
    session_id: u128,
    segments: Option<L1ProgressiveConfig>,
    config: L1SummarizerConfig,
) -> bool {
    if messages.len() == 0 {
        plan matches SessionPlan::Refuse(m) && m@ == "session "@ + hyphenated(session_id)
            + " 无消息，无法生成摘要"@
    } else if segments is Some && segments->0.enabled && progressive(messages, segments->0) {
        plan == SessionPlan::Split(SummaryMode::Progressive, segment_splitter(segments->0))
    } else {
        match config.utt_splitter {
            Some(c) => plan == SessionPlan::Split(SummaryMode::Session, c),
            None => plan == SessionPlan::Whole,
        }
    }
}

/// How the work on a session begins, with `segments` where long sessions are summarised in
/// segments.
pub fn plan_session(
    messages: &Vec<Message>,
    session_id: u128,
    segments: Option<&L1ProgressiveConfig>,
    config: &L1SummarizerConfig,
) -> (r: SessionPlan)
    ensures
        plans(
            r,
            messages@,
            session_id,
            match segments {
                Some(c) => Some(*c),
                None => None,
            },
            *config,
        ),
{
    if messages.len() == 0 {
        return SessionPlan::Refuse(
            session_message("session ", session_id, " 无消息，无法生成摘要"),
        );
    }
    match segments {
        Some(c) => if wants_segments(messages, c) {
            return SessionPlan::Split(SummaryMode::Progressive, progressive_splitter(c));
        },
        None => {},
    }
    match config.utt_splitter {
        Some(c) => SessionPlan::Split(SummaryMode::Session, c),
        None => SessionPlan::Whole,
    }
}

/// The blocks of a session after it was split. Where there are none, the whole session is
/// one block; but where segments were wanted, the messages come back, and the session is to
/// be planned without segments.
pub fn settle_blocks(
    mode: SummaryMode,
    split: Vec<Vec<Message>>,
    messages: Vec<Message>,
) -> (r: Result<Vec<Vec<Message>>, Vec<Message>>)
    ensures
        match r {
            Ok(blocks) => {
                &&& blocks@.len() > 0
                &&& if split@.len() > 0 {
                    blocks@ == split@
                } else {
                    mode is Session && blocks@ == seq![messages]
                }
            },
            Err(back) => mode is Progressive && split@.len() == 0 && back == messages,
        },
{
    if split.len() == 0 && mode == SummaryMode::Progressive {
        Err(messages)
    } else {
        Ok(blocks_or_whole(split, messages))
    }
}

/// The summary of a block and its keywords.
#[derive(Debug)]
pub struct ChunkL1 {
    pub l1: MemoryL1,
    pub keywords: Vec<KeywordToken>,
}

/// What a `ChunkL1` says.
pub struct ChunkView {
    pub l1: L1View,
    pub keywords: Seq<Seq<char>>,
}

impl View for ChunkL1 {
    type V = ChunkView;

    open spec fn view(&self) -> ChunkView {
        ChunkView { l1: self.l1@, keywords: token_texts(self.keywords@) }
    }
}

/// Why a block could not be summarised.
#[derive(Debug)]
pub enum ChunkError {
    /// There was no answer.
    Llm(String),
    /// The answer could not be read.
    Unreadable(String),
}

/// What a `ChunkError` says.
pub enum ChunkErrorView {
    Llm(Seq<char>),
    Unreadable(Seq<char>),
}

impl View for ChunkError {
    type V = ChunkErrorView;

    open spec fn view(&self) -> ChunkErrorView {
        match self {
            ChunkError::Llm(e) => ChunkErrorView::Llm(e@),
            ChunkError::Unreadable(e) => ChunkErrorView::Unreadable(e@),
        }
    }
}

/// What has happened.
#[derive(Debug)]
pub enum SummaryEvent {
    Generated(ChunkL1),
    GenerationFailed(ChunkError),
    Saved,
    SaveFailed,
    WrittenBack,
}

/// What a `SummaryEvent` says.
pub enum SummaryEventView {
    Generated(ChunkView),
    GenerationFailed(ChunkErrorView),
    Saved,
    SaveFailed,
    WrittenBack,
}

impl View for SummaryEvent {
    type V = SummaryEventView;

    open spec fn view(&self) -> SummaryEventView {
        match self {
            SummaryEvent::Generated(c) => SummaryEventView::Generated(c@),
            SummaryEvent::GenerationFailed(e) => SummaryEventView::GenerationFailed(e@),
            SummaryEvent::Saved => SummaryEventView::Saved,
            SummaryEvent::SaveFailed => SummaryEventView::SaveFailed,
            SummaryEvent::WrittenBack => SummaryEventView::WrittenBack,
        }
    }
}

/// What to do next.
#[derive(Debug)]
pub enum SummaryAction {
    /// Summarise a block, which is told this of the one before it.
    Generate(usize, Option<String>),
    /// Store the summary of a block.
    Save(usize),
    /// Note the keywords of the summary of a block.
    WriteBack(usize),
    /// Return the summary of a block.
    ReturnOne(usize),
    /// Return all summaries.
    ReturnAll,
    /// Report that no block could be summarised, for this reason at last.
    ReturnError(ChunkError),
    /// Report that the summary of a block could not be stored.
    ReturnStorageError(usize),
}

/// What a `SummaryAction` says.
pub enum SummaryActionView {
    Generate(int, Option<Seq<char>>),
    Save(int),
    WriteBack(int),
    ReturnOne(int),
    ReturnAll,
    ReturnError(ChunkErrorView),
    ReturnStorageError(int),
}

impl View for SummaryAction {
    type V = SummaryActionView;

    open spec fn view(&self) -> SummaryActionView {
        match self {
            SummaryAction::Generate(i, p) => SummaryActionView::Generate(*i as int, opt_text(*p)),
            SummaryAction::Save(i) => SummaryActionView::Save(*i as int),
            SummaryAction::WriteBack(i) => SummaryActionView::WriteBack(*i as int),
            SummaryAction::ReturnOne(i) => SummaryActionView::ReturnOne(*i as int),
            SummaryAction::ReturnAll => SummaryActionView::ReturnAll,
            SummaryAction::ReturnError(e) => SummaryActionView::ReturnError(e@),
            SummaryAction::ReturnStorageError(i) => SummaryActionView::ReturnStorageError(
                *i as int,
            ),
        }
    }
}

/// Where the work stands, with the number of the block.
#[derive(Debug, Clone, Copy, PartialEq, Eq, Structural)]
pub enum SummaryPhase {
    Generating(usize),
    Saving(usize),
    Indexing(usize),
    Finished,
}

/// Where the work stands, as seen from outside.
pub enum SummaryPhaseView {
    Generating(int),
    Saving(int),
    Indexing(int),
    Finished,
}

impl View for SummaryPhase {
    type V = SummaryPhaseView;

    open spec fn view(&self) -> SummaryPhaseView {
        match self {
            SummaryPhase::Generating(i) => SummaryPhaseView::Generating(*i as int),
            SummaryPhase::Saving(i) => SummaryPhaseView::Saving(*i as int),
            SummaryPhase::Indexing(i) => SummaryPhaseView::Indexing(*i as int),
            SummaryPhase::Finished => SummaryPhaseView::Finished,
        }
    }
}

/// The work on a conversation, as seen from outside.
pub struct SummaryRunView {
    pub mode: SummaryMode,
    pub blocks: Seq<Vec<Message>>,
    pub config: L1SummarizerConfig,
    /// What was made of each block that was tried; nothing where that failed.
    pub made: Seq<Option<ChunkView>>,
    /// The last failure.
    pub error: Option<ChunkErrorView>,
    pub phase: SummaryPhaseView,
}

/// What optional summaries say.
pub open spec fn made_views(v: Seq<Option<ChunkL1>>) -> Seq<Option<ChunkView>> {
    v.map_values(
        |o: Option<ChunkL1>|
            match o {
                Some(c) => Some(c@),
                None => None,
            },
    )
}

/// The first block from `i` on that has a summary; the number of blocks where none has.
pub open spec fn next_made(made: Seq<Option<ChunkView>>, i: int) -> int
    decreases made.len() - i,
{
    if i >= made.len() || made[i] is Some {
        i
    } else {
        next_made(made, i + 1)
    }
}

/// What block `i` is told of the one before it.
pub open spec fn told(run: SummaryRunView, i: int) -> Option<Seq<char>> {
    if i == 0 {
        None
    } else {
        Some(
            prior_text(
                run.blocks[i - 1]@,
                match run.made[i - 1] {
                    Some(c) => Some(c.l1),
                    None => None,
                },
                run.config.prior_context_threshold as nat,
                run.config.prior_context_max_chars as nat,
                run.config.user_prefix@,
                run.config.assistant_prefix@,
            ),
        )
    }
}

/// Goes on with block `i`, or ends the generation where there is no such block.
pub open spec fn go_on(run: SummaryRunView, i: int) -> (SummaryRunView, SummaryActionView) {
    let to = |phase: SummaryPhaseView| SummaryRunView { phase, ..run };
    let first = next_made(run.made, 0);
    if i < run.blocks.len() {
        (to(SummaryPhaseView::Generating(i)), SummaryActionView::Generate(i, told(run, i)))
    } else if first >= run.made.len() {
        (to(SummaryPhaseView::Finished), SummaryActionView::ReturnError(run.error->0))
    } else if run.mode is Session {
        (to(SummaryPhaseView::Saving(first)), SummaryActionView::Save(first))
    } else {
        (to(SummaryPhaseView::Finished), SummaryActionView::ReturnAll)
    }
}

/// The next state of the work, and the action that it asks for.
pub open spec fn summary_step(run: SummaryRunView, event: SummaryEventView) -> (
    SummaryRunView,
    SummaryActionView,
) {
    let to = |phase: SummaryPhaseView| SummaryRunView { phase, ..run };
    match (run.phase, event) {
        (SummaryPhaseView::Generating(i), SummaryEventView::Generated(c)) => {
            let next = SummaryRunView { made: run.made.push(Some(c)), ..run };
            if run.mode is Session {
                go_on(next, i + 1)
            } else {
                (
                    SummaryRunView { phase: SummaryPhaseView::Saving(i), ..next },
                    SummaryActionView::Save(i),
                )
            }
        },
        (SummaryPhaseView::Generating(i), SummaryEventView::GenerationFailed(e)) => go_on(
            SummaryRunView { made: run.made.push(None), error: Some(e), ..run },
            i + 1,
        ),
        (SummaryPhaseView::Saving(i), SummaryEventView::Saved) => (
            to(SummaryPhaseView::Indexing(i)),
            SummaryActionView::WriteBack(i),
        ),
        (SummaryPhaseView::Saving(i), _) => (
            to(SummaryPhaseView::Finished),
            SummaryActionView::ReturnStorageError(i),
        ),
        (SummaryPhaseView::Indexing(i), _) => if run.mode is Session {
            let next = next_made(run.made, i + 1);
            if next < run.made.len() {
                (to(SummaryPhaseView::Saving(next)), SummaryActionView::Save(next))
            } else {
                (to(SummaryPhaseView::Finished), SummaryActionView::ReturnOne(i))
            }
        } else {
            go_on(run, i + 1)
        },
        _ => (to(SummaryPhaseView::Finished), SummaryActionView::ReturnAll),
    }
}

/// Whether an event can come of the action that the work is waiting for.
pub open spec fn summary_expects(phase: SummaryPhaseView, event: SummaryEventView) -> bool {
    match phase {
        SummaryPhaseView::Generating(_) => event is Generated || event is GenerationFailed,
        SummaryPhaseView::Saving(_) => event is Saved || event is SaveFailed,
        SummaryPhaseView::Indexing(_) => event is WrittenBack,
        SummaryPhaseView::Finished => false,
    }
}

/// What holds of the work at every step: there is a block; the blocks before the one that is
/// being summarised have been tried, and so have all blocks when a whole session is stored;
/// what is stored has been made; and a failure is remembered.
pub open spec fn summary_ok(run: SummaryRunView) -> bool {
    &&& run.blocks.len() > 0
    &&& run.made.len() <= run.blocks.len()
    &&& forall|j: int|
        0 <= j < run.made.len() && (#[trigger] run.made[j]) is None ==> run.error is Some
    &&& match run.phase {
        SummaryPhaseView::Generating(i) => 0 <= i < run.blocks.len() && run.made.len() == i,
        SummaryPhaseView::Saving(i) | SummaryPhaseView::Indexing(i) => {
            &&& 0 <= i < run.made.len()
            &&& run.made[i] is Some
            &&& run.mode is Session ==> run.made.len() == run.blocks.len()
            &&& run.mode is Progressive ==> run.made.len() == i + 1
        },
        SummaryPhaseView::Finished => true,
    }
}

/// `next_made` finds the first summary from `i` on.
proof fn lemma_next_made(made: Seq<Option<ChunkView>>, i: int)
    requires
        0 <= i <= made.len(),
    ensures
        i <= next_made(made, i) <= made.len(),
        next_made(made, i) < made.len() ==> made[next_made(made, i)] is Some,
        forall|j: int| i <= j < next_made(made, i) ==> (#[trigger] made[j]) is None,
    decreases made.len() - i,
{
    if i < made.len() && made[i] is None {
        lemma_next_made(made, i + 1);
    }
}

/// The work on a conversation.
#[derive(Debug)]
pub struct SummaryRun<'a> {
    mode: SummaryMode,
    blocks: Vec<Vec<Message>>,
    config: &'a L1SummarizerConfig,
    made: Vec<Option<ChunkL1>>,
    error: Option<ChunkError>,
    phase: SummaryPhase,
}

/// What an optional failure says.
pub open spec fn opt_error(o: Option<ChunkError>) -> Option<ChunkErrorView> {
    match o {
        Some(e) => Some(e@),
        None => None,
    }
}

/// The first block from `i` on that has a summary.
fn find_made(made: &Vec<Option<ChunkL1>>, i: usize) -> (r: usize)
    requires
        i <= made@.len(),
    ensures
        r == next_made(made_views(made@), i as int),
        i <= r <= made@.len(),
{
    let ghost mv = made_views(made@);
    let mut j: usize = i;
    while j < made.len()
        invariant
            i <= j <= made@.len(),
            mv == made_views(made@),
            next_made(mv, i as int) == next_made(mv, j as int),
        decreases made@.len() - j,
    {
        match &made[j] {
            Some(_) => {
                assert(mv[j as int] is Some);
                return j;
            },
            None => {
                assert(mv[j as int] is None);
            },
        }
        j += 1;
    }
    j
}

impl<'a> SummaryRun<'a> {
    /// The work as seen from outside.
    pub closed spec fn view(&self) -> SummaryRunView {
        SummaryRunView {
            mode: self.mode,
            blocks: self.blocks@,
            config: *self.config,
            made: made_views(self.made@),
            error: opt_error(self.error),
            phase: self.phase@,
        }
    }

    #[verifier::type_invariant]
    spec fn inv(self) -> bool {
        summary_ok(self.view())
    }

    /// The work on blocks of which none was tried, and the first action.
    pub fn start(
        mode: SummaryMode,
        blocks: Vec<Vec<Message>>,
        config: &'a L1SummarizerConfig,
    ) -> (r: (SummaryRun<'a>, SummaryAction))
        requires
            blocks@.len() > 0,
        ensures
            r.0@ == (SummaryRunView {
                mode,
                blocks: blocks@,
                config: *config,
                made: Seq::empty(),
                error: None,
                phase: SummaryPhaseView::Generating(0),
            }),
            r.1@ == SummaryActionView::Generate(0, None),
            summary_ok(r.0@),
    {
        let made: Vec<Option<ChunkL1>> = Vec::new();
        assert(made_views(made@) =~= Seq::<Option<ChunkView>>::empty());
        (
            SummaryRun {
                mode,
                blocks,
                config,
                made,
                error: None,
                phase: SummaryPhase::Generating(0),
            },
            SummaryAction::Generate(0, None),
        )
    }

    /// Whether an event can come of the action that the work is waiting for.
    pub fn fits(&self, event: &SummaryEvent) -> (r: bool)
        ensures
            r == summary_expects(self@.phase, event@),
    {
        match (&self.phase, event) {
            (
                SummaryPhase::Generating(_),
                SummaryEvent::Generated(_) | SummaryEvent::GenerationFailed(_),
            ) => true,
            (SummaryPhase::Saving(_), SummaryEvent::Saved | SummaryEvent::SaveFailed) => true,
            (SummaryPhase::Indexing(_), SummaryEvent::WrittenBack) => true,
            _ => false,
        }
    }

    /// The messages of a block.
    pub fn block(&self, i: usize) -> (r: &Vec<Message>)
        requires
            i < self@.blocks.len(),
        ensures
            *r == self@.blocks[i as int],
    {
        &self.blocks[i]
    }

    /// The number of blocks.
    pub fn block_count(&self) -> (r: usize)
        ensures
            r == self@.blocks.len(),
    {
        self.blocks.len()
    }

    /// The summary of a block, if it was tried and has one.
    pub fn summary(&self, i: usize) -> (r: Option<&ChunkL1>)
        ensures
            match r {
                Some(c) => i < self@.made.len() && self@.made[i as int] == Some(c@),
                None => i < self@.made.len() ==> self@.made[i as int] is None,
            },
    {
        if i < self.made.len() {
            match &self.made[i] {
                Some(c) => Some(c),
                None => None,
            }
        } else {
            None
        }
    }

    /// Goes on with block `i`, or ends the generation.
    fn advance(self, i: usize) -> (r: (SummaryRun<'a>, SummaryAction))
        requires
            self@.made.len() == i,
            i <= self@.blocks.len(),
        ensures
            (r.0@, r.1@) == go_on(self@, i as int),
    {
        proof {
            use_type_invariant(&self);
            lemma_next_made(self@.made, 0);
        }
        let SummaryRun { mode, blocks, config, made, error, phase: _ } = self;
        if i < blocks.len() {
            let prior = if i == 0 {
                None
            } else {
                let prev = match &made[i - 1] {
                    Some(c) => Some(&c.l1),
                    None => None,
                };
                Some(
                    build_prior_context(
                        &blocks[i - 1],
                        prev,
                        config,
                        config.user_prefix.as_str(),
                        config.assistant_prefix.as_str(),
                    ),
                )
            };
            return (
                SummaryRun {
                    mode,
                    blocks,
                    config,
                    made,
                    error,
                    phase: SummaryPhase::Generating(i),
                },
                SummaryAction::Generate(i, prior),
            );
        }
        let first: usize = find_made(&made, 0);
        if first >= made.len() {
            assert(made_views(made@)[0] is None);
            match error {
                Some(e) => (
                    SummaryRun {
                        mode,
                        blocks,
                        config,
                        made,
                        error: Some(SummaryRun::copy_error(&e)),
                        phase: SummaryPhase::Finished,
                    },
                    SummaryAction::ReturnError(e),
                ),
                None => (
                    SummaryRun {
                        mode,
                        blocks,
                        config,
                        made,
                        error: None,
                        phase: SummaryPhase::Finished,
                    },
                    SummaryAction::ReturnAll,
                ),
            }
        } else if mode == SummaryMode::Session {
            (
                SummaryRun {
                    mode,
                    blocks,
                    config,
                    made,
                    error,
                    phase: SummaryPhase::Saving(first),
                },
                SummaryAction::Save(first),
            )
        } else {
            (
                SummaryRun { mode, blocks, config, made, error, phase: SummaryPhase::Finished },
                SummaryAction::ReturnAll,
            )
        }
    }

    /// A copy of a failure.
    fn copy_error(e: &ChunkError) -> (r: ChunkError)
        ensures
            r@ == e@,
    {
        match e {
            ChunkError::Llm(s) => ChunkError::Llm(s.clone()),
            ChunkError::Unreadable(s) => ChunkError::Unreadable(s.clone()),
        }
    }

    /// Goes on after an event.
    pub fn step(self, event: SummaryEvent) -> (r: (SummaryRun<'a>, SummaryAction))
        requires
            summary_expects(self@.phase, event@),
        ensures
            (r.0@, r.1@) == summary_step(self@, event@),
            summary_ok(r.0@),
    {
        proof {
            use_type_invariant(&self);
            law_summary_stays_ok(self@, event@);
        }
        let ghost before = self@;
        let SummaryRun { mode, blocks, config, mut made, error, phase } = self;
        let ghost was = made_views(made@);
        assert(blocks@.len() == blocks.len());
        assert(made@.len() == made.len());
        match (phase, event) {
            (SummaryPhase::Generating(i), SummaryEvent::Generated(c)) => {
                let ghost cv = c@;
                made.push(Some(c));
                assert(made_views(made@) =~= was.push(Some(cv)));
                if mode == SummaryMode::Session {
                    assert(summary_ok(
                        SummaryRunView {
                            made: was.push(Some(cv)),
                            phase: SummaryPhaseView::Finished,
                            ..before
                        },
                    ));
                    let run = SummaryRun {
                        mode,
                        blocks,
                        config,
                        made,
                        error,
                        phase: SummaryPhase::Finished,
                    };
                    run.advance(i + 1)
                } else {
                    (
                        SummaryRun {
                            mode,
                            blocks,
                            config,
                            made,
                            error,
                            phase: SummaryPhase::Saving(i),
                        },
                        SummaryAction::Save(i),
                    )
                }
            },
            (SummaryPhase::Generating(i), SummaryEvent::GenerationFailed(e)) => {
                made.push(None);
                assert(made_views(made@) =~= was.push(None));
                let run = SummaryRun {
                    mode,
                    blocks,
                    config,
                    made,
                    error: Some(e),
                    phase: SummaryPhase::Finished,
                };
                run.advance(i + 1)
            },
            (SummaryPhase::Saving(i), SummaryEvent::Saved) => (
                SummaryRun {
                    mode,
                    blocks,
                    config,
                    made,
                    error,
                    phase: SummaryPhase::Indexing(i),
                },
                SummaryAction::WriteBack(i),
            ),
            (SummaryPhase::Saving(i), _) => (
                SummaryRun { mode, blocks, config, made, error, phase: SummaryPhase::Finished },
                SummaryAction::ReturnStorageError(i),
            ),
            (SummaryPhase::Indexing(i), _) => {
                if mode == SummaryMode::Session {
                    let next: usize = find_made(&made, i + 1);
                    if next < made.len() {
                        (
                            SummaryRun {
                                mode,
                                blocks,
                                config,
                                made,
                                error,
                                phase: SummaryPhase::Saving(next),
                            },
                            SummaryAction::Save(next),
                        )
                    } else {
                        (
                            SummaryRun {
                                mode,
                                blocks,
                                config,
                                made,
                                error,
                                phase: SummaryPhase::Finished,
                            },
                            SummaryAction::ReturnOne(i),
                        )
                    }
                } else {
                    let run = SummaryRun {
                        mode,
                        blocks,
                        config,
                        made,
                        error,
                        phase: SummaryPhase::Finished,
                    };
                    run.advance(i + 1)
                }
            },
            _ => (
                SummaryRun { mode, blocks, config, made, error, phase: SummaryPhase::Finished },
                SummaryAction::ReturnAll,
            ),
        }
    }

    /// The summary of a block, if it was tried and has one, out of the work.
    pub fn into_summary(self, i: usize) -> (r: Option<ChunkL1>)
        ensures
            match r {
                Some(c) => i < self@.made.len() && self@.made[i as int] == Some(c@),
                None => i < self@.made.len() ==> self@.made[i as int] is None,
            },
    {
        let mut made = self.made;
        if i < made.len() {
            made.remove(i)
        } else {
            None
        }
    }

    /// The summaries that were made, in the order of their blocks.
    pub fn into_summaries(self) -> (r: Vec<ChunkL1>)
        ensures
            r@.map_values(|c: ChunkL1| c@) == all_made(self@.made),
    {
        let mut made = self.made;
        let ghost all = made_views(made@);
        let mut out: Vec<ChunkL1> = Vec::new();
        assert(out@.map_values(|c: ChunkL1| c@) =~= Seq::<ChunkView>::empty());
        assert(out@.map_values(|c: ChunkL1| c@) + all_made(all) =~= all_made(all));
        while made.len() > 0
            invariant
                all == made_views(self.made@),
                out@.map_values(|c: ChunkL1| c@) + all_made(made_views(made@)) == all_made(all),
            decreases made@.len(),
        {
            let ghost mv = made_views(made@);
            let ghost ov = out@.map_values(|c: ChunkL1| c@);
            let first = made.remove(0);
            assert(made_views(made@) =~= mv.drop_first());
            match first {
                Some(c) => {
                    let ghost cv = c@;
                    out.push(c);
                    assert(mv[0] == Some(cv));
                    assert(out@.map_values(|c: ChunkL1| c@) =~= ov.push(cv));
                    assert(ov.push(cv) + all_made(mv.drop_first()) =~= ov + all_made(mv));
                },
                None => {
                    assert(mv[0] is None);
                },
            }
        }
        assert(all_made(made_views(made@)) =~= Seq::<ChunkView>::empty());
        assert(out@.map_values(|c: ChunkL1| c@) =~= all_made(all));
        out
    }
}

/// The summaries that were made, in the order of their blocks.
pub open spec fn all_made(made: Seq<Option<ChunkView>>) -> Seq<ChunkView>
    decreases made.len(),
{
    if made.len() == 0 {
        Seq::empty()
    } else {
        match made[0] {
            Some(c) => seq![c] + all_made(made.drop_first()),
            None => all_made(made.drop_first()),
        }
    }
}

/// What holds of the work at one step holds at the next.
pub proof fn law_summary_stays_ok(run: SummaryRunView, event: SummaryEventView)
    requires
        summary_ok(run),
        summary_expects(run.phase, event),
    ensures
        summary_ok(summary_step(run, event).0),
{
    match run.phase {
        SummaryPhaseView::Generating(i) => {
            match event {
                SummaryEventView::Generated(c) => lemma_next_made(run.made.push(Some(c)), 0),
                SummaryEventView::GenerationFailed(_) => lemma_next_made(run.made.push(None), 0),
                _ => {},
            }
        },
        SummaryPhaseView::Indexing(i) => {
            lemma_next_made(run.made, i + 1);
            lemma_next_made(run.made, 0);
        },
        _ => {},
    }
}

/// How many more steps the work can take at most.
pub open spec fn summary_steps_left(run: SummaryRunView) -> int {
    let n = run.blocks.len();
    match (run.mode, run.phase) {
        (_, SummaryPhaseView::Finished) => 0,
        (SummaryMode::Session, SummaryPhaseView::Generating(i)) => 3 * n + 1 - i,
        (SummaryMode::Session, SummaryPhaseView::Saving(i)) => 2 * (n - i),
        (SummaryMode::Session, SummaryPhaseView::Indexing(i)) => 2 * (n - i) - 1,
        (SummaryMode::Progressive, SummaryPhaseView::Generating(i)) => 3 * (n - i),
        (SummaryMode::Progressive, SummaryPhaseView::Saving(i)) => 3 * (n - i) - 1,
        (SummaryMode::Progressive, SummaryPhaseView::Indexing(i)) => 3 * (n - i) - 2,
    }
}

/// The work comes to an end: every step leaves fewer steps to take.
pub proof fn law_summary_ends(run: SummaryRunView, event: SummaryEventView)
    requires
        summary_ok(run),
        summary_expects(run.phase, event),
    ensures
        0 <= summary_steps_left(summary_step(run, event).0) < summary_steps_left(run),
{
    law_summary_stays_ok(run, event);
    match run.phase {
        SummaryPhaseView::Generating(i) => {
            match event {
                SummaryEventView::Generated(c) => lemma_next_made(run.made.push(Some(c)), 0),
                SummaryEventView::GenerationFailed(_) => lemma_next_made(run.made.push(None), 0),
                _ => {},
            }
        },
        SummaryPhaseView::Indexing(i) => {
            lemma_next_made(run.made, i + 1);
        },
        _ => {},
    }
}

/// A failed block does not stop the work. Only where no block has a summary is a failure
/// reported, and it is the last one. A session returns the summary of the last block that
/// has one; in segments, the work returns where some block has one.
pub proof fn law_result_of_summaries(run: SummaryRunView, event: SummaryEventView)
    requires
        summary_ok(run),
        summary_expects(run.phase, event),
    ensures
        ({
            let (next, action) = summary_step(run, event);
            &&& action matches SummaryActionView::ReturnError(e) ==> {
                &&& next.error == Some(e)
                &&& next.made.len() == next.blocks.len()
                &&& forall|j: int| 0 <= j < next.made.len() ==> (#[trigger] next.made[j]) is None
            }
            &&& action matches SummaryActionView::ReturnOne(k) ==> {
                &&& run.mode is Session
                &&& 0 <= k < next.made.len() == next.blocks.len()
                &&& next.made[k] is Some
                &&& forall|j: int|
                    k < j < next.made.len() ==> (#[trigger] next.made[j]) is None
            }
            &&& action is ReturnAll ==> {
                &&& run.mode is Progressive
                &&& next.made.len() == next.blocks.len()
                &&& exists|j: int| 0 <= j < next.made.len() && (#[trigger] next.made[j]) is Some
            }
        }),
{
    match run.phase {
        SummaryPhaseView::Generating(i) => {
            match event {
                SummaryEventView::Generated(c) => {
                    lemma_next_made(run.made.push(Some(c)), 0);
                    assert(run.made.push(Some(c))[i] is Some);
                },
                SummaryEventView::GenerationFailed(e) => {
                    lemma_next_made(run.made.push(None), 0);
                    assert(run.made.push(None)[i] is None);
                },
                _ => {},
            }
        },
        SummaryPhaseView::Indexing(i) => {
            lemma_next_made(run.made, i + 1);
            lemma_next_made(run.made, 0);
        },
        _ => {},
    }
}

/// Only what was made is stored, a session only once every block was tried, and after one
/// summary the next one in order: none is skipped.
pub proof fn law_saves_what_was_made(run: SummaryRunView, event: SummaryEventView)
    requires
        summary_ok(run),
        summary_expects(run.phase, event),
    ensures
        ({
            let (next, action) = summary_step(run, event);
            action matches SummaryActionView::Save(k) ==> {
                &&& 0 <= k < next.made.len()
                &&& next.made[k] is Some
                &&& run.mode is Session ==> next.made.len() == next.blocks.len()
                &&& forall|j: int|
                    (run.phase matches SummaryPhaseView::Indexing(i) && i < j < k) || (
                    run.mode is Session && run.phase is Generating && 0 <= j < k) ==> (
                    #[trigger] next.made[j]) is None
            }
        }),
{
    law_summary_stays_ok(run, event);
    match run.phase {
        SummaryPhaseView::Generating(i) => {
            match event {
                SummaryEventView::Generated(c) => lemma_next_made(run.made.push(Some(c)), 0),
                SummaryEventView::GenerationFailed(e) => lemma_next_made(run.made.push(None), 0),
                _ => {},
            }
        },
        SummaryPhaseView::Indexing(i) => lemma_next_made(run.made, i + 1),
        _ => {},
    }
}

/// A block is told of the one before it and of no other: what it is told depends on that
/// block and on what was made of it.
pub proof fn law_told_of_one_block(a: SummaryRunView, b: SummaryRunView, i: int)
    requires
        0 <= i,
        a.config == b.config,
        i > 0 ==> a.blocks[i - 1] == b.blocks[i - 1] && a.made[i - 1] == b.made[i - 1],
    ensures
        told(a, i) == told(b, i),
{
}

/// A session without messages is refused. A session that is long is split into segments where
/// this is asked for and enabled. Any other session is split where there is a way to split it,
/// and otherwise stays whole.
pub proof fn law_how_sessions_begin(
    plan: SessionPlan,
    messages: Seq<Message>,
    session_id: u128,
    segments: Option<L1ProgressiveConfig>,
    config: L1SummarizerConfig,
)
    requires
        plans(plan, messages, session_id, segments, config),
    ensures
        plan is Refuse <==> messages.len() == 0,
        plan matches SessionPlan::Refuse(m) ==> m@ == "session "@ + hyphenated(session_id)
            + " 无消息，无法生成摘要"@,
        (plan matches SessionPlan::Split(mode, _) && mode is Progressive) <==> messages.len() > 0
            && segments is Some && segments->0.enabled && progressive(messages, segments->0),
        plan matches SessionPlan::Split(mode, c) ==> (if mode is Progressive {
            c == segment_splitter(segments->0)
        } else {
            config.utt_splitter == Some(c)
        }),
        plan is Whole ==> config.utt_splitter is None,
{
}

/// What is found is the first block from the given one on of which something was made.
pub proof fn law_next_made_is_first(made: Seq<Option<ChunkView>>, i: int)
    requires
        0 <= i <= made.len(),
    ensures
        i <= next_made(made, i) <= made.len(),
        next_made(made, i) < made.len() ==> made[next_made(made, i)] is Some,
        forall|j: int| i <= j < next_made(made, i) ==> (#[trigger] made[j]) is None,
    decreases made.len() - i,
{
    if i < made.len() && made[i] is None {
        law_next_made_is_first(made, i + 1);
    }
}

/// Every block is tried, in order, whether or not those before it could be summarised. What was
/// made of it is kept behind what was made before.
pub proof fn law_blocks_are_tried_in_turn(run: SummaryRunView, event: SummaryEventView, i: int)
    requires
        summary_ok(run),
        run.phase == SummaryPhaseView::Generating(i),
        summary_expects(run.phase, event),
    ensures
        event matches SummaryEventView::Generated(c) ==> summary_step(run, event).0.made
            == run.made.push(Some(c)) && summary_step(run, event).0.error == run.error,
        event matches SummaryEventView::GenerationFailed(e) ==> summary_step(run, event).0.made
            == run.made.push(None) && summary_step(run, event).0.error == Some(e),
        i + 1 < run.blocks.len() && (run.mode is Session || event is GenerationFailed) ==> {
            &&& summary_step(run, event).0.phase == SummaryPhaseView::Generating(i + 1)
            &&& summary_step(run, event).1 == SummaryActionView::Generate(
                i + 1,
                Some(
                    prior_text(
                        run.blocks[i]@,
                        match event {
                            SummaryEventView::Generated(c) => Some(c.l1),
                            _ => None,
                        },
                        run.config.prior_context_threshold as nat,
                        run.config.prior_context_max_chars as nat,
                        run.config.user_prefix@,
                        run.config.assistant_prefix@,
                    ),
                ),
            )
        },
        run.mode is Progressive && event is Generated ==> summary_step(run, event).0.phase
            == SummaryPhaseView::Saving(i) && summary_step(run, event).1 == SummaryActionView::Save(
            i,
        ),
{
    let c = match event {
        SummaryEventView::Generated(c) => Some(c),
        _ => None,
    };
    assert(run.made.push(c)[i] == c);
}

/// After the last block of a session the first summary is stored; without any summary the last
/// failure is reported. In segments, a failure at the last block ends the work: with all
/// summaries, or with that failure where there are none.
pub proof fn law_after_the_last_block(run: SummaryRunView, event: SummaryEventView, i: int)
    requires
        summary_ok(run),
        run.phase == SummaryPhaseView::Generating(i),
        summary_expects(run.phase, event),
        i + 1 == run.blocks.len(),
        run.mode is Session || event is GenerationFailed,
    ensures
        ({
            let (next, action) = summary_step(run, event);
            &&& (forall|j: int| 0 <= j < next.made.len() ==> (#[trigger] next.made[j]) is None)
                ==> next.phase is Finished && next.error is Some && action
                == SummaryActionView::ReturnError(next.error->0)
            &&& (exists|j: int| 0 <= j < next.made.len() && (#[trigger] next.made[j]) is Some)
                && run.mode is Progressive ==> next.phase is Finished && action is ReturnAll
            &&& forall|j: int|
                run.mode is Session && 0 <= j < next.made.len() && (#[trigger] next.made[j]) is Some
                    && (forall|k: int| 0 <= k < j ==> (#[trigger] next.made[k]) is None)
                    ==> next.phase == SummaryPhaseView::Saving(j) && action
                    == SummaryActionView::Save(j)
        }),
{
    let (next, action) = summary_step(run, event);
    law_next_made_is_first(next.made, 0);
    let n = next_made(next.made, 0);
    let made = match event {
        SummaryEventView::Generated(c) => run.made.push(Some(c)),
        _ => run.made.push(None),
    };
    assert(next.made == made);
    assert forall|j: int|
        run.mode is Session && 0 <= j < next.made.len() && (#[trigger] next.made[j]) is Some && (
        forall|k: int| 0 <= k < j ==> (#[trigger] next.made[k]) is None) implies next.phase
        == SummaryPhaseView::Saving(j) && action == SummaryActionView::Save(j) by {
        if n < j {
            assert(next.made[n] is None);
        }
        assert(n == j);
    }
    if forall|j: int| 0 <= j < next.made.len() ==> (#[trigger] next.made[j]) is None {
        if n < next.made.len() {
            assert(next.made[n] is None);
        }
        assert(next.made[i] is None);
    }
    if exists|j: int| 0 <= j < next.made.len() && (#[trigger] next.made[j]) is Some {
        let j = choose|j: int| 0 <= j < next.made.len() && (#[trigger] next.made[j]) is Some;
        assert(n <= j);
    }
}

/// A summary that is stored is noted by its keywords; one that cannot be stored ends the work
/// with a report of that.
pub proof fn law_stored_summaries_are_noted(run: SummaryRunView, event: SummaryEventView, i: int)
    requires
        summary_ok(run),
        run.phase == SummaryPhaseView::Saving(i),
        summary_expects(run.phase, event),
    ensures
        event is Saved ==> summary_step(run, event).0.phase == SummaryPhaseView::Indexing(i)
            && summary_step(run, event).1 == SummaryActionView::WriteBack(i),
        event is SaveFailed ==> summary_step(run, event).0.phase is Finished && summary_step(
            run,
            event,
        ).1 == SummaryActionView::ReturnStorageError(i),
        summary_step(run, event).0.made == run.made,
        summary_step(run, event).0.error == run.error,
{
}

/// After the keywords of a summary were noted, a session stores the next summary, and returns
/// the last one when there is no other. In segments the next block is tried, and all summaries
/// are returned after the last one.
pub proof fn law_after_noting_keywords(run: SummaryRunView, event: SummaryEventView, i: int)
    requires
        summary_ok(run),
        run.phase == SummaryPhaseView::Indexing(i),
        summary_expects(run.phase, event),
    ensures
        ({
            let (next, action) = summary_step(run, event);
            &&& next.made == run.made
            &&& next.error == run.error
            &&& run.mode is Session && (forall|j: int|
                i < j < run.made.len() ==> (#[trigger] run.made[j]) is None) ==> next.phase
                is Finished && action == SummaryActionView::ReturnOne(i)
            &&& forall|k: int|
                run.mode is Session && i < k < run.made.len() && (#[trigger] run.made[k]) is Some
                    && (forall|j: int| i < j < k ==> (#[trigger] run.made[j]) is None)
                    ==> next.phase == SummaryPhaseView::Saving(k) && action
                    == SummaryActionView::Save(k)
            &&& run.mode is Progressive && i + 1 < run.blocks.len() ==> next.phase
                == SummaryPhaseView::Generating(i + 1) && (action matches SummaryActionView::Generate(
                k,
                _,
            ) && k == i + 1)
            &&& run.mode is Progressive && i + 1 == run.blocks.len() ==> next.phase is Finished
                && action is ReturnAll
        }),
{
    let (next, action) = summary_step(run, event);
    if run.mode is Session {
        law_next_made_is_first(run.made, i + 1);
        let n = next_made(run.made, i + 1);
        assert forall|k: int|
            run.mode is Session && i < k < run.made.len() && (#[trigger] run.made[k]) is Some && (
            forall|j: int| i < j < k ==> (#[trigger] run.made[j]) is None) implies next.phase
            == SummaryPhaseView::Saving(k) && action == SummaryActionView::Save(k) by {
            if n < k {
                assert(run.made[n] is None);
            }
            assert(n == k);
        }
        if forall|j: int| i < j < run.made.len() ==> (#[trigger] run.made[j]) is None {
            if n < run.made.len() {
                assert(run.made[n] is None);
            }
        }
    } else {
        law_next_made_is_first(run.made, 0);
        assert(run.made[i] is Some);
    }
}

/// The mode, the blocks and the configuration stay the same from one step to the next.
pub proof fn law_work_stays_the_same(run: SummaryRunView, event: SummaryEventView)
    ensures
        summary_step(run, event).0.mode == run.mode,
        summary_step(run, event).0.blocks == run.blocks,
        summary_step(run, event).0.config == run.config,
{
}

/// The first block is told of none; every other one is told of the block before it, by its
/// summary where it has one.
pub proof fn law_blocks_are_told_of_the_one_before(run: SummaryRunView, i: int)
    requires
        0 <= i <= run.blocks.len(),
        i <= run.made.len(),
    ensures
        told(run, 0) is None,
        i > 0 && run.made[i - 1] is Some ==> told(run, i) == Some(
            prior_text(
                run.blocks[i - 1]@,
                Some(run.made[i - 1]->0.l1),
                run.config.prior_context_threshold as nat,
                run.config.prior_context_max_chars as nat,
                run.config.user_prefix@,
                run.config.assistant_prefix@,
            ),
        ),
        i > 0 && run.made[i - 1] is None ==> told(run, i) == Some(
            prior_text(
                run.blocks[i - 1]@,
                None,
                run.config.prior_context_threshold as nat,
                run.config.prior_context_max_chars as nat,
                run.config.user_prefix@,
                run.config.assistant_prefix@,
            ),
        ),
{
}

/// All summaries that were made are given, in the order of their blocks.
pub proof fn law_all_summaries_are_given(made: Seq<Option<ChunkView>>)
    ensures
        all_made(made) == made.filter(|o: Option<ChunkView>| o is Some).map_values(
            |o: Option<ChunkView>| o->0,
        ),
    decreases made.len(),
{
    let keep = |o: Option<ChunkView>| o is Some;
    let f = |o: Option<ChunkView>| o->0;
    if made.len() > 0 {
        let one = seq![made[0]];
        let rest = made.drop_first();
        law_all_summaries_are_given(rest);
        assert(made =~= one + rest);
        Seq::filter_distributes_over_add(one, rest, keep);
        reveal_with_fuel(Seq::filter, 2);
        assert(one.drop_last() =~= Seq::<Option<ChunkView>>::empty());
        if made[0] is Some {
            assert(one.filter(keep) =~= one);
            assert((one + rest.filter(keep)).map_values(f) =~= seq![made[0]->0]
                + rest.filter(keep).map_values(f));
        } else {
            assert(one.filter(keep) =~= Seq::<Option<ChunkView>>::empty());
            assert(made.filter(keep) =~= rest.filter(keep));
        }
    } else {
        reveal(Seq::filter);
        assert(made.filter(keep).map_values(f) =~= Seq::<ChunkView>::empty());
    }
}

/// What a step expects to hear is what its action can bring.
pub proof fn law_what_is_expected(i: int, event: SummaryEventView)
    ensures
        summary_expects(SummaryPhaseView::Generating(i), event) <==> event is Generated || event
            is GenerationFailed,
        summary_expects(SummaryPhaseView::Saving(i), event) <==> event is Saved || event
            is SaveFailed,
        summary_expects(SummaryPhaseView::Indexing(i), event) <==> event is WrittenBack,
        !summary_expects(SummaryPhaseView::Finished, event),
{
}

/// Events, actions and phases are seen as they are.
pub proof fn law_steps_are_seen(
    c: ChunkL1,
    e: ChunkError,
    s: String,
    i: usize,
    p: Option<String>,
)
    ensures
        c@.l1 == c.l1@ && c@.keywords == token_texts(c.keywords@),
        ChunkError::Llm(s)@ == ChunkErrorView::Llm(s@),
        ChunkError::Unreadable(s)@ == ChunkErrorView::Unreadable(s@),
        SummaryEvent::Generated(c)@ == SummaryEventView::Generated(c@),
        SummaryEvent::GenerationFailed(e)@ == SummaryEventView::GenerationFailed(e@),
        SummaryEvent::Saved@ == SummaryEventView::Saved,
        SummaryEvent::SaveFailed@ == SummaryEventView::SaveFailed,
        SummaryEvent::WrittenBack@ == SummaryEventView::WrittenBack,
        SummaryAction::Generate(i, p)@ == SummaryActionView::Generate(i as int, opt_text(p)),
        SummaryAction::Save(i)@ == SummaryActionView::Save(i as int),
        SummaryAction::WriteBack(i)@ == SummaryActionView::WriteBack(i as int),
        SummaryAction::ReturnOne(i)@ == SummaryActionView::ReturnOne(i as int),
        SummaryAction::ReturnAll@ == SummaryActionView::ReturnAll,
        SummaryAction::ReturnError(e)@ == SummaryActionView::ReturnError(e@),
        SummaryAction::ReturnStorageError(i)@ == SummaryActionView::ReturnStorageError(i as int),
        SummaryPhase::Generating(i)@ == SummaryPhaseView::Generating(i as int),
        SummaryPhase::Saving(i)@ == SummaryPhaseView::Saving(i as int),
        SummaryPhase::Indexing(i)@ == SummaryPhaseView::Indexing(i as int),
        SummaryPhase::Finished@ == SummaryPhaseView::Finished,
{
}

/// What is kept of the blocks is what was made of each of them, in order.
pub proof fn law_what_was_made_is_seen(v: Seq<Option<ChunkL1>>, o: Option<ChunkError>)
    ensures
        made_views(v).len() == v.len(),
        forall|i: int|
            0 <= i < v.len() ==> ((#[trigger] made_views(v)[i]) is Some <==> v[i] is Some) && (
            v[i] matches Some(c) ==> made_views(v)[i] == Some(c@)),
        o matches Some(e) ==> opt_error(o) == Some(e@),
        o is None ==> opt_error(o) is None,
{
}

/// A session that could not be split is one block; segments that could not be made are given
/// back. Otherwise the blocks are those that were made.
pub proof fn law_unsplit_session_is_one_block(
    mode: SummaryMode,
    split: Vec<Vec<Message>>,
    messages: Vec<Message>,
    r: Result<Vec<Vec<Message>>, Vec<Message>>,
)
    requires
        call_ensures(settle_blocks, (mode, split, messages), r),
    ensures
        split@.len() > 0 ==> (r matches Ok(blocks) && blocks@ == split@),
        split@.len() == 0 && mode is Session ==> (r matches Ok(blocks) && blocks@.len() == 1
            && blocks@[0] == messages),
        split@.len() == 0 && mode is Progressive ==> (r matches Err(back) && back == messages),
{
}

/// The work begins with the first block, which is told of none.
pub proof fn law_how_summaries_begin(
    mode: SummaryMode,
    blocks: Vec<Vec<Message>>,
    config: &L1SummarizerConfig,
    r: (SummaryRun, SummaryAction),
)
    requires
        call_ensures(SummaryRun::start, (mode, blocks, config), r),
    ensures
        r.0@.mode == mode,
        r.0@.blocks == blocks@,
        r.0@.config == *config,
        r.0@.made.len() == 0,
        r.0@.error is None,
        r.0@.phase == SummaryPhaseView::Generating(0),
        r.1@ == SummaryActionView::Generate(0, None),
{
}

} // verus!
