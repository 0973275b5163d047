//! Background jobs: what kinds there are, and how one is run with retries.
//!
//! `JobRun` decides; whoever runs it performs the actions and hands back what came of them.

use vstd::arithmetic::power2::pow2;
use vstd::prelude::*;

use crate::text::{chars_of, copy_text, decimal, push_number, push_text, signed_chars,
    signed_decimal, string_of, append_chars};

pub mod status;

verus! {

/// The kinds of background jobs.
#[derive(Debug, Clone, Copy, PartialEq, Eq)]
#[non_exhaustive]
pub enum JobType {
    /// Summarising a conversation.
    L1Summary,
    /// Extracting events from summaries.
    EventExtract,
    /// Inferring traits from events.
    PersonalityInference,
    /// Calibrating the whole portrait.
    Calibration,
    /// Rebuilding the indexes.
    IndexRebuild,
    /// Something else, by its name.
    Custom(&'static str),
}

impl JobType {
    /// The name under which jobs of this kind are stored.
    pub open spec fn name(self) -> Seq<char> {
        match self {
            JobType::L1Summary => "l1_summary"@,
            JobType::EventExtract => "event_extract"@,
            JobType::PersonalityInference => "personality_inference"@,
            JobType::Calibration => "calibration"@,
            JobType::IndexRebuild => "index_rebuild"@,
            JobType::Custom(s) => s@,
        }
    }

    /// The name under which jobs of this kind are stored.
    pub fn as_str(&self) -> (r: &str)
        ensures
            r@ == self.name(),
    {
        match self {
            JobType::L1Summary => "l1_summary",
            JobType::EventExtract => "event_extract",
            JobType::PersonalityInference => "personality_inference",
            JobType::Calibration => "calibration",
            JobType::IndexRebuild => "index_rebuild",
            JobType::Custom(s) => s,
        }
    }

    /// The name as it is shown.
    pub fn to_text(&self) -> (r: String)
        ensures
            r@ == self.name(),
    {
        copy_text(self.as_str())
    }
}

/// How jobs are retried.
#[derive(Debug, Clone, Copy, PartialEq, Eq, Structural)]
pub struct JobManagerConfig {
    /// The number of attempts after which a job is given up.
    pub max_retries: u32,
    /// The wait after the first attempt, in milliseconds; it doubles with each attempt.
    pub retry_base_delay_ms: u64,
}

impl Default for JobManagerConfig {
    fn default() -> (r: Self)
        ensures
            r.max_retries == 3,
            r.retry_base_delay_ms == 1000,
    {
        JobManagerConfig { max_retries: 3, retry_base_delay_ms: 1000 }
    }
}

/// What came of one attempt.
#[derive(Debug)]
#[non_exhaustive]
pub enum JobResult {
    /// The job is done.
    Success,
    /// The attempt failed, and another one may succeed.
    Retryable(String),
    /// The attempt failed, and so would every other.
    Fatal(String),
}

/// The longest wait between two attempts, in milliseconds.
pub const MAX_DELAY_MS: u64 = 60_000;

/// The wait after so many attempts: the base delay, doubled with each attempt after the
/// first, up to a minute.
pub open spec fn backoff(base: u64, attempts: u32) -> int {
    let d = base * pow2(if attempts == 0 {
        0
    } else {
        (attempts - 1) as nat
    });
    if d < MAX_DELAY_MS {
        d
    } else {
        MAX_DELAY_MS as int
    }
}

/// The wait after so many attempts, in milliseconds.
pub fn backoff_delay(base: u64, attempts: u32) -> (r: u64)
    ensures
        r == backoff(base, attempts),
{
    let steps: u32 = if attempts == 0 {
        0
    } else {
        attempts - 1
    };
    let mut d: u64 = if base < MAX_DELAY_MS {
        base
    } else {
        MAX_DELAY_MS
    };
    let mut k: u32 = 0;
    proof {
        vstd::arithmetic::power2::lemma2_to64();
        lemma_capped(base as nat, 0, steps as nat);
    }
    while k < steps && d < MAX_DELAY_MS && d > 0
        invariant
            k <= steps,
            d <= MAX_DELAY_MS,
            d == capped(base as nat, k as nat),
            d == 0 ==> base == 0,
        decreases steps - k,
    {
        proof {
            vstd::arithmetic::power2::lemma_pow2_unfold((k + 1) as nat);
            assert(base * pow2((k + 1) as nat) == 2 * (base * pow2(k as nat))) by (nonlinear_arith)
                requires
                    pow2((k + 1) as nat) == 2 * pow2(k as nat),
            ;
        }
        d = if 2 * d < MAX_DELAY_MS {
            2 * d
        } else {
            MAX_DELAY_MS
        };
        k += 1;
    }
    proof {
        lemma_capped(base as nat, k as nat, steps as nat);
        if d == 0 {
            assert(base * pow2(steps as nat) == 0) by (nonlinear_arith)
                requires
                    base == 0,
            ;
        }
    }
    d
}

spec fn capped(base: nat, k: nat) -> nat {
    if base * pow2(k) < MAX_DELAY_MS {
        base * pow2(k)
    } else {
        MAX_DELAY_MS as nat
    }
}

/// The capped delay never falls.
proof fn lemma_capped(base: nat, k: nat, n: nat)
    requires
        k <= n,
    ensures
        capped(base, k) <= capped(base, n),
        capped(base, n) <= MAX_DELAY_MS,
{
    if k < n {
        vstd::arithmetic::power2::lemma_pow2_strictly_increases(k, n);
        assert(base * pow2(k) <= base * pow2(n)) by (nonlinear_arith)
            requires
                pow2(k) < pow2(n),
        ;
    }
}

/// The wait never exceeds a minute, and never falls from one attempt to the next.
pub proof fn law_backoff_monotone(base: u64, a: u32, b: u32)
    requires
        a <= b,
    ensures
        0 <= backoff(base, a) <= backoff(base, b) <= MAX_DELAY_MS,
{
    let k: nat = if a == 0 {
        0
    } else {
        (a - 1) as nat
    };
    let n: nat = if b == 0 {
        0
    } else {
        (b - 1) as nat
    };
    lemma_capped(base as nat, k, n);
}

/// The kind of error that a failed job is reported as.
#[derive(Debug, Clone, Copy, PartialEq, Eq, Structural)]
pub enum ErrorCategory {
    Llm,
    Index,
    Validation,
}

/// The kind of error that a failed job of this type is reported as.
pub open spec fn category_of(job_type: JobType) -> ErrorCategory {
    match job_type {
        JobType::L1Summary | JobType::EventExtract | JobType::PersonalityInference =>
            ErrorCategory::Llm,
        JobType::IndexRebuild => ErrorCategory::Index,
        JobType::Calibration | JobType::Custom(_) => ErrorCategory::Validation,
    }
}

/// The kind of error that a failed job of this type is reported as.
pub fn error_category(job_type: JobType) -> (r: ErrorCategory)
    ensures
        r == category_of(job_type),
{
    match job_type {
        JobType::L1Summary | JobType::EventExtract | JobType::PersonalityInference =>
            ErrorCategory::Llm,
        JobType::IndexRebuild => ErrorCategory::Index,
        JobType::Calibration | JobType::Custom(_) => ErrorCategory::Validation,
    }
}

/// What is to be done next for a job.
#[derive(Debug)]
pub enum JobAction {
    /// Store the state `running`.
    MarkRunning,
    /// Store the state `retrying`, with the error.
    MarkRetrying(String),
    /// Store the state `failed`, with the error.
    MarkFailed(String),
    /// Store the state `completed`.
    MarkCompleted,
    /// Store the state `fatal`, with the error.
    MarkFatal(String),
    /// Find out whether the job was cancelled.
    CheckCancel,
    /// Run the job once.
    Attempt,
    /// Wait, in milliseconds.
    Sleep(u64),
    /// Report success, with the number of the job.
    ReturnOk(i64),
    /// Report failure.
    ReturnErr(ErrorCategory, String),
    /// Report the error with which storing the state failed.
    ReturnStorageError,
}

/// What came of an action.
#[derive(Debug)]
pub enum JobEvent {
    /// The state was stored.
    Stored,
    /// The state could not be stored, for this reason.
    StoreFailed(String),
    /// Whether the job was cancelled.
    Cancelled(bool),
    /// The attempt ended.
    Attempted(JobResult),
    /// The wait is over.
    Slept,
}

/// How far a job has come.
#[derive(Debug)]
pub enum JobPhase {
    /// The first `running` is being stored.
    Starting,
    /// Before an attempt, the cancellation is looked at.
    Checking,
    /// An attempt is under way.
    Attempting,
    /// The `retrying` after an attempt with this error is being stored.
    Retrying(String),
    /// Before the wait, the cancellation is looked at.
    BeforeSleep,
    /// The wait is under way.
    Sleeping,
    /// After the wait, the cancellation is looked at.
    AfterSleep,
    /// The `running` of another attempt is being stored.
    Resuming,
    /// The `completed` is being stored.
    Completing,
    /// The `failed` is being stored; then this error is reported.
    Failing(String),
    /// The `fatal` is being stored; then this error is reported, stored or not.
    Dying(String),
    /// All is done.
    Finished,
}

/// What a `JobPhase` says.
pub enum PhaseView {
    Starting,
    Checking,
    Attempting,
    Retrying(Seq<char>),
    BeforeSleep,
    Sleeping,
    AfterSleep,
    Resuming,
    Completing,
    Failing(Seq<char>),
    Dying(Seq<char>),
    Finished,
}

/// What a `JobAction` says.
pub enum ActionView {
    MarkRunning,
    MarkRetrying(Seq<char>),
    MarkFailed(Seq<char>),
    MarkCompleted,
    MarkFatal(Seq<char>),
    CheckCancel,
    Attempt,
    Sleep(u64),
    ReturnOk(i64),
    ReturnErr(ErrorCategory, Seq<char>),
    ReturnStorageError,
}

/// What a `JobEvent` says.
pub enum EventView {
    Stored,
    StoreFailed(Seq<char>),
    Cancelled(bool),
    Succeeded,
    FailedOnce(Seq<char>),
    FailedForGood(Seq<char>),
    Slept,
}

impl View for JobPhase {
    type V = PhaseView;

    open spec fn view(&self) -> PhaseView {
        match self {
            JobPhase::Starting => PhaseView::Starting,
            JobPhase::Checking => PhaseView::Checking,
            JobPhase::Attempting => PhaseView::Attempting,
            JobPhase::Retrying(e) => PhaseView::Retrying(e@),
            JobPhase::BeforeSleep => PhaseView::BeforeSleep,
            JobPhase::Sleeping => PhaseView::Sleeping,
            JobPhase::AfterSleep => PhaseView::AfterSleep,
            JobPhase::Resuming => PhaseView::Resuming,
            JobPhase::Completing => PhaseView::Completing,
            JobPhase::Failing(e) => PhaseView::Failing(e@),
            JobPhase::Dying(e) => PhaseView::Dying(e@),
            JobPhase::Finished => PhaseView::Finished,
        }
    }
}

impl View for JobAction {
    type V = ActionView;

    open spec fn view(&self) -> ActionView {
        match self {
            JobAction::MarkRunning => ActionView::MarkRunning,
            JobAction::MarkRetrying(e) => ActionView::MarkRetrying(e@),
            JobAction::MarkFailed(e) => ActionView::MarkFailed(e@),
            JobAction::MarkCompleted => ActionView::MarkCompleted,
            JobAction::MarkFatal(e) => ActionView::MarkFatal(e@),
            JobAction::CheckCancel => ActionView::CheckCancel,
            JobAction::Attempt => ActionView::Attempt,
            JobAction::Sleep(d) => ActionView::Sleep(*d),
            JobAction::ReturnOk(id) => ActionView::ReturnOk(*id),
            JobAction::ReturnErr(c, e) => ActionView::ReturnErr(*c, e@),
            JobAction::ReturnStorageError => ActionView::ReturnStorageError,
        }
    }
}

impl View for JobEvent {
    type V = EventView;

    open spec fn view(&self) -> EventView {
        match self {
            JobEvent::Stored => EventView::Stored,
            JobEvent::StoreFailed(e) => EventView::StoreFailed(e@),
            JobEvent::Cancelled(b) => EventView::Cancelled(*b),
            JobEvent::Attempted(JobResult::Success) => EventView::Succeeded,
            JobEvent::Attempted(JobResult::Retryable(e)) => EventView::FailedOnce(e@),
            JobEvent::Attempted(JobResult::Fatal(e)) => EventView::FailedForGood(e@),
            JobEvent::Slept => EventView::Slept,
        }
    }
}

/// A job that is being run, as seen from outside.
pub struct RunView {
    pub job_type: JobType,
    pub job_id: i64,
    pub config: JobManagerConfig,
    /// The number of attempts that were begun.
    pub attempts: u32,
    pub phase: PhaseView,
}

/// Whether `event` can come of the action that the phase is waiting for.
pub open spec fn expects(phase: PhaseView, event: EventView) -> bool {
    match phase {
        PhaseView::Starting
        | PhaseView::Retrying(_)
        | PhaseView::Resuming
        | PhaseView::Completing
        | PhaseView::Failing(_)
        | PhaseView::Dying(_) => event is Stored || event is StoreFailed,
        PhaseView::Checking | PhaseView::BeforeSleep | PhaseView::AfterSleep => event is Cancelled,
        PhaseView::Attempting => event is Succeeded || event is FailedOnce
            || event is FailedForGood,
        PhaseView::Sleeping => event is Slept,
        PhaseView::Finished => false,
    }
}

/// The message for a job whose first state could not be stored.
pub open spec fn start_failed_text(e: Seq<char>) -> Seq<char> {
    "标记 running 失败 (storage 不可用): "@ + e
}

/// The message for a job whose retry could not be noted.
pub open spec fn retry_failed_text(e: Seq<char>, cause: Seq<char>) -> Seq<char> {
    "标记 retrying 失败 (storage 不可用): "@ + e + " (原始错误: "@ + cause + ")"@
}

/// The message for a job whose resumption could not be noted.
pub open spec fn resume_failed_text(attempts: u32, max: u32, e: Seq<char>) -> Seq<char> {
    "标记 running 失败 (storage 不可用，重试 #"@ + decimal(attempts as nat) + "/"@ + decimal(
        max as nat,
    ) + "): "@ + e
}

/// How every message about a job begins: its type and its number.
pub open spec fn job_head(job_type: JobType, id: i64) -> Seq<char> {
    "任务 "@ + job_type.name() + " (id="@ + signed_decimal(id as int)
}

/// The message for a job that failed for good.
pub open spec fn fatal_text(job_type: JobType, id: i64, e: Seq<char>) -> Seq<char> {
    job_head(job_type, id) + ") 致命错误: "@ + e
}

/// The message for a job that was attempted too often.
pub open spec fn exhausted_text(job_type: JobType, id: i64, max: u32, e: Seq<char>) -> Seq<char> {
    job_head(job_type, id) + ") 已达最大重试次数 "@ + decimal(max as nat) + ": "@ + e
}

pub open spec fn cancelled_text() -> Seq<char> {
    "任务已被取消（应用正在关闭）"@
}

pub open spec fn cancelled_before_text() -> Seq<char> {
    "任务在重试等待前被取消（应用正在关闭）"@
}

pub open spec fn cancelled_after_text() -> Seq<char> {
    "任务在重试等待后被取消（应用正在关闭）"@
}

/// The next state of a job, and the action that it asks for.
pub open spec fn job_step(run: RunView, event: EventView) -> (RunView, ActionView) {
    let to = |phase: PhaseView| RunView { phase, ..run };
    let err = |e: Seq<char>| ActionView::ReturnErr(category_of(run.job_type), e);
    match (run.phase, event) {
        (PhaseView::Starting, EventView::Stored) => (
            to(PhaseView::Checking),
            ActionView::CheckCancel,
        ),
        (PhaseView::Starting, EventView::StoreFailed(e)) => (
            to(PhaseView::Dying(start_failed_text(e))),
            ActionView::MarkFatal(start_failed_text(e)),
        ),
        (PhaseView::Checking, EventView::Cancelled(true)) => (
            to(PhaseView::Failing(cancelled_text())),
            ActionView::MarkFailed(cancelled_text()),
        ),
        (PhaseView::Checking, EventView::Cancelled(false)) => (
            RunView {
                attempts: (run.attempts + 1) as u32,
                phase: PhaseView::Attempting,
                ..run
            },
            ActionView::Attempt,
        ),
        (PhaseView::Attempting, EventView::Succeeded) => (
            to(PhaseView::Completing),
            ActionView::MarkCompleted,
        ),
        (PhaseView::Attempting, EventView::FailedForGood(e)) => (
            to(PhaseView::Failing(fatal_text(run.job_type, run.job_id, e))),
            ActionView::MarkFailed(e),
        ),
        (PhaseView::Attempting, EventView::FailedOnce(e)) => if run.attempts
            >= run.config.max_retries {
            (
                to(
                    PhaseView::Failing(
                        exhausted_text(run.job_type, run.job_id, run.config.max_retries, e),
                    ),
                ),
                ActionView::MarkFailed(e),
            )
        } else {
            (to(PhaseView::Retrying(e)), ActionView::MarkRetrying(e))
        },
        (PhaseView::Retrying(cause), EventView::StoreFailed(e)) => (
            to(PhaseView::Dying(retry_failed_text(e, cause))),
            ActionView::MarkFatal(retry_failed_text(e, cause)),
        ),
        (PhaseView::Retrying(_), _) => (to(PhaseView::BeforeSleep), ActionView::CheckCancel),
        (PhaseView::BeforeSleep, EventView::Cancelled(true)) => (
            to(PhaseView::Failing(cancelled_before_text())),
            ActionView::MarkFailed(cancelled_before_text()),
        ),
        (PhaseView::BeforeSleep, _) => (
            to(PhaseView::Sleeping),
            ActionView::Sleep(backoff(run.config.retry_base_delay_ms, run.attempts) as u64),
        ),
        (PhaseView::Sleeping, _) => (to(PhaseView::AfterSleep), ActionView::CheckCancel),
        (PhaseView::AfterSleep, EventView::Cancelled(true)) => (
            to(PhaseView::Failing(cancelled_after_text())),
            ActionView::MarkFailed(cancelled_after_text()),
        ),
        (PhaseView::AfterSleep, _) => (to(PhaseView::Resuming), ActionView::MarkRunning),
        (PhaseView::Resuming, EventView::StoreFailed(e)) => (
            to(PhaseView::Dying(resume_failed_text(run.attempts, run.config.max_retries, e))),
            ActionView::MarkFatal(resume_failed_text(run.attempts, run.config.max_retries, e)),
        ),
        (PhaseView::Resuming, _) => (to(PhaseView::Checking), ActionView::CheckCancel),
        (PhaseView::Completing, EventView::Stored) => (
            to(PhaseView::Finished),
            ActionView::ReturnOk(run.job_id),
        ),
        (PhaseView::Failing(e), EventView::Stored) => (to(PhaseView::Finished), err(e)),
        (PhaseView::Dying(e), _) => (to(PhaseView::Finished), err(e)),
        _ => (to(PhaseView::Finished), ActionView::ReturnStorageError),
    }
}

/// A job that is being run.
#[derive(Debug)]
pub struct JobRun {
    job_type: JobType,
    job_id: i64,
    config: JobManagerConfig,
    attempts: u32,
    phase: JobPhase,
}

impl JobRun {
    /// The job as seen from outside.
    pub closed spec fn view(&self) -> RunView {
        RunView {
            job_type: self.job_type,
            job_id: self.job_id,
            config: self.config,
            attempts: self.attempts,
            phase: self.phase@,
        }
    }

    /// Before an attempt, there is room for one more.
    #[verifier::type_invariant]
    spec fn inv(self) -> bool {
        run_ok(self.view())
    }

    /// A job that was just created, and the first action for it.
    pub fn start(job_type: JobType, job_id: i64, config: JobManagerConfig) -> (r: (
        JobRun,
        JobAction,
    ))
        ensures
            r.0@ == (RunView {
                job_type,
                job_id,
                config,
                attempts: 0,
                phase: PhaseView::Starting,
            }),
            r.1@ == ActionView::MarkRunning,
    {
        (
            JobRun { job_type, job_id, config, attempts: 0, phase: JobPhase::Starting },
            JobAction::MarkRunning,
        )
    }

    /// Whether an event can come of the action that the job is waiting for.
    pub fn fits(&self, event: &JobEvent) -> (r: bool)
        ensures
            r == expects(self@.phase, event@),
    {
        match (&self.phase, event) {
            (
                JobPhase::Starting
                | JobPhase::Retrying(_)
                | JobPhase::Resuming
                | JobPhase::Completing
                | JobPhase::Failing(_)
                | JobPhase::Dying(_),
                JobEvent::Stored | JobEvent::StoreFailed(_),
            ) => true,
            (
                JobPhase::Checking | JobPhase::BeforeSleep | JobPhase::AfterSleep,
                JobEvent::Cancelled(_),
            ) => true,
            (JobPhase::Attempting, JobEvent::Attempted(_)) => true,
            (JobPhase::Sleeping, JobEvent::Slept) => true,
            _ => false,
        }
    }

    /// Goes on after an event.
    pub fn step(self, event: JobEvent) -> (r: (JobRun, JobAction))
        requires
            expects(self@.phase, event@),
        ensures
            (r.0@, r.1@) == job_step(self@, event@),
    {
        proof {
            use_type_invariant(&self);
        }
        let JobRun { job_type, job_id, config, attempts, phase } = self;
        let (next, action) = match (phase, event) {
            (JobPhase::Starting, JobEvent::Stored) => (JobPhase::Checking, JobAction::CheckCancel),
            (JobPhase::Starting, JobEvent::StoreFailed(e)) => {
                let mut m = chars_of("标记 running 失败 (storage 不可用): ");
                push_text(&mut m, e.as_str());
                JobRun::die(m)
            },
            (JobPhase::Checking, JobEvent::Cancelled(true)) => JobRun::cancel(
                "任务已被取消（应用正在关闭）",
            ),
            (JobPhase::Checking, JobEvent::Cancelled(false)) => {
                return (
                    JobRun {
                        job_type,
                        job_id,
                        config,
                        attempts: attempts + 1,
                        phase: JobPhase::Attempting,
                    },
                    JobAction::Attempt,
                );
            },
            (JobPhase::Attempting, JobEvent::Attempted(JobResult::Success)) => (
                JobPhase::Completing,
                JobAction::MarkCompleted,
            ),
            (JobPhase::Attempting, JobEvent::Attempted(JobResult::Fatal(e))) => {
                let mut m = JobRun::head(job_type, job_id);
                push_text(&mut m, ") 致命错误: ");
                push_text(&mut m, e.as_str());
                (JobPhase::Failing(string_of(&m)), JobAction::MarkFailed(e))
            },
            (JobPhase::Attempting, JobEvent::Attempted(JobResult::Retryable(e))) => {
                if attempts >= config.max_retries {
                    let mut m = JobRun::head(job_type, job_id);
                    push_text(&mut m, ") 已达最大重试次数 ");
                    push_number(&mut m, config.max_retries);
                    push_text(&mut m, ": ");
                    push_text(&mut m, e.as_str());
                    (JobPhase::Failing(string_of(&m)), JobAction::MarkFailed(e))
                } else {
                    let copy = e.clone();
                    (JobPhase::Retrying(e), JobAction::MarkRetrying(copy))
                }
            },
            (JobPhase::Retrying(cause), JobEvent::StoreFailed(e)) => {
                let mut m = chars_of("标记 retrying 失败 (storage 不可用): ");
                push_text(&mut m, e.as_str());
                push_text(&mut m, " (原始错误: ");
                push_text(&mut m, cause.as_str());
                push_text(&mut m, ")");
                JobRun::die(m)
            },
            (JobPhase::Retrying(_), _) => (JobPhase::BeforeSleep, JobAction::CheckCancel),
            (JobPhase::BeforeSleep, JobEvent::Cancelled(true)) => JobRun::cancel(
                "任务在重试等待前被取消（应用正在关闭）",
            ),
            (JobPhase::BeforeSleep, _) => (
                JobPhase::Sleeping,
                JobAction::Sleep(backoff_delay(config.retry_base_delay_ms, attempts)),
            ),
            (JobPhase::Sleeping, _) => (JobPhase::AfterSleep, JobAction::CheckCancel),
            (JobPhase::AfterSleep, JobEvent::Cancelled(true)) => JobRun::cancel(
                "任务在重试等待后被取消（应用正在关闭）",
            ),
            (JobPhase::AfterSleep, _) => (JobPhase::Resuming, JobAction::MarkRunning),
            (JobPhase::Resuming, JobEvent::StoreFailed(e)) => {
                let mut m = chars_of("标记 running 失败 (storage 不可用，重试 #");
                push_number(&mut m, attempts);
                push_text(&mut m, "/");
                push_number(&mut m, config.max_retries);
                push_text(&mut m, "): ");
                push_text(&mut m, e.as_str());
                JobRun::die(m)
            },
            (JobPhase::Resuming, _) => (JobPhase::Checking, JobAction::CheckCancel),
            (JobPhase::Completing, JobEvent::Stored) => (
                JobPhase::Finished,
                JobAction::ReturnOk(job_id),
            ),
            (JobPhase::Failing(e), JobEvent::Stored) => (
                JobPhase::Finished,
                JobAction::ReturnErr(error_category(job_type), e),
            ),
            (JobPhase::Dying(e), _) => (
                JobPhase::Finished,
                JobAction::ReturnErr(error_category(job_type), e),
            ),
            _ => (JobPhase::Finished, JobAction::ReturnStorageError),
        };
        (JobRun { job_type, job_id, config, attempts, phase: next }, action)
    }

    /// The beginning of a message about a job.
    fn head(job_type: JobType, job_id: i64) -> (r: Vec<char>)
        ensures
            r@ == job_head(job_type, job_id),
    {
        let mut m = chars_of("任务 ");
        push_text(&mut m, job_type.as_str());
        push_text(&mut m, " (id=");
        append_chars(&mut m, &signed_chars(job_id));
        m
    }

    /// Giving up because the state cannot be stored.
    fn die(m: Vec<char>) -> (r: (JobPhase, JobAction))
        ensures
            r.0@ == PhaseView::Dying(m@),
            r.1@ == ActionView::MarkFatal(m@),
    {
        (JobPhase::Dying(string_of(&m)), JobAction::MarkFatal(string_of(&m)))
    }

    /// Giving up because the job was cancelled.
    fn cancel(m: &str) -> (r: (JobPhase, JobAction))
        ensures
            r.0@ == PhaseView::Failing(m@),
            r.1@ == ActionView::MarkFailed(m@),
    {
        (JobPhase::Failing(copy_text(m)), JobAction::MarkFailed(copy_text(m)))
    }
}

/// What holds of every job that is being run: there are never more attempts than allowed
/// (one at least is), and while another one is coming there is room for it.
pub open spec fn run_ok(run: RunView) -> bool {
    let again = run.attempts == 0 || run.attempts < run.config.max_retries;
    match run.phase {
        PhaseView::Starting => run.attempts == 0,
        PhaseView::Checking => again,
        PhaseView::Attempting => run.attempts == 1 || 0 < run.attempts <= run.config.max_retries,
        PhaseView::Retrying(_)
        | PhaseView::BeforeSleep
        | PhaseView::Sleeping
        | PhaseView::AfterSleep
        | PhaseView::Resuming => 0 < run.attempts < run.config.max_retries,
        _ => run.attempts <= run.config.max_retries || run.attempts <= 1,
    }
}

/// A job that is being run never gets more attempts than allowed, whatever happens.
pub proof fn law_attempts_bounded(run: RunView, event: EventView)
    requires
        run_ok(run),
        expects(run.phase, event),
    ensures
        run_ok(job_step(run, event).0),
        job_step(run, event).0.attempts <= 1 || job_step(run, event).0.attempts
            <= run.config.max_retries,
{
}

/// How many more steps a job can take at most.
pub open spec fn steps_left(run: RunView) -> nat {
    let rounds: nat = if run.config.max_retries > run.attempts {
        (run.config.max_retries - run.attempts) as nat
    } else if run.attempts == 0 {
        1
    } else {
        0
    };
    let here: nat = match run.phase {
        PhaseView::Attempting => 10,
        PhaseView::Retrying(_) => 9,
        PhaseView::BeforeSleep => 8,
        PhaseView::Sleeping => 7,
        PhaseView::AfterSleep => 6,
        PhaseView::Resuming => 5,
        PhaseView::Starting => 5,
        PhaseView::Checking => 4,
        PhaseView::Completing | PhaseView::Failing(_) | PhaseView::Dying(_) => 1,
        PhaseView::Finished => 0,
    };
    10 * rounds + here
}

/// Running a job comes to an end: every step leaves fewer steps to take.
pub proof fn law_job_ends(run: RunView, event: EventView)
    requires
        run_ok(run),
        expects(run.phase, event),
    ensures
        steps_left(job_step(run, event).0) < steps_left(run),
{
}

/// A job ends exactly when a report is made.
pub proof fn law_report_is_last(run: RunView, event: EventView)
    requires
        run_ok(run),
        expects(run.phase, event),
    ensures
        job_step(run, event).0.phase is Finished <==> (job_step(run, event).1 is ReturnOk
            || job_step(run, event).1 is ReturnErr || job_step(run, event).1 is ReturnStorageError),
{
}

/// Success is reported only of a job whose last attempt succeeded, once that is stored.
pub proof fn law_success_needs_success(run: RunView, e1: EventView, e2: EventView)
    requires
        run_ok(run),
        expects(run.phase, e1),
        expects(job_step(run, e1).0.phase, e2),
    ensures
        job_step(job_step(run, e1).0, e2).1 is ReturnOk ==> run.phase is Attempting
            && e1 is Succeeded && e2 is Stored,
{
}

/// A job that is found cancelled is marked as failed and reported as failed; nothing is
/// attempted any more.
pub proof fn law_cancelled_is_reported(run: RunView, e: EventView)
    requires
        run_ok(run),
        expects(run.phase, EventView::Cancelled(true)),
        e is Stored || e is StoreFailed,
    ensures
        job_step(run, EventView::Cancelled(true)).1 is MarkFailed,
        job_step(job_step(run, EventView::Cancelled(true)).0, e).1 == (if e is Stored {
            ActionView::ReturnErr(
                category_of(run.job_type),
                job_step(run, EventView::Cancelled(true)).1->MarkFailed_0,
            )
        } else {
            ActionView::ReturnStorageError
        }),
{
}

/// Between an attempt that may be repeated and the next one lies the wait for that number
/// of attempts.
pub proof fn law_retry_waits(run: RunView, e: Seq<char>)
    requires
        run_ok(run),
        run.phase is Attempting,
        run.attempts < run.config.max_retries,
    ensures
        ({
            let a = job_step(run, EventView::FailedOnce(e));
            let b = job_step(a.0, EventView::Stored);
            let c = job_step(b.0, EventView::Cancelled(false));
            let d = job_step(c.0, EventView::Slept);
            let f = job_step(d.0, EventView::Cancelled(false));
            let g = job_step(f.0, EventView::Stored);
            let h = job_step(g.0, EventView::Cancelled(false));
            &&& a.1 == ActionView::MarkRetrying(e)
            &&& b.1 == ActionView::CheckCancel
            &&& c.1 == ActionView::Sleep(
                backoff(run.config.retry_base_delay_ms, run.attempts) as u64,
            )
            &&& d.1 == ActionView::CheckCancel
            &&& f.1 == ActionView::MarkRunning
            &&& g.1 == ActionView::CheckCancel
            &&& h.1 == ActionView::Attempt
            &&& h.0.attempts == run.attempts + 1
        }),
{
}

/// A step changes how often the job was attempted only by asking for an attempt, which is one
/// more, and it changes nothing of the job itself.
pub proof fn law_only_attempts_count(run: RunView, event: EventView)
    requires
        run_ok(run),
        expects(run.phase, event),
    ensures
        ({
            let (next, action) = job_step(run, event);
            &&& next.job_type == run.job_type
            &&& next.job_id == run.job_id
            &&& next.config == run.config
            &&& next.attempts == run.attempts + if action is Attempt {
                1int
            } else {
                0int
            }
        }),
{
}

/// An attempt is asked for where the job was looked at before an attempt and is not cancelled,
/// and nowhere else.
pub proof fn law_attempt_needs_no_cancellation(run: RunView, event: EventView)
    requires
        run_ok(run),
        expects(run.phase, event),
    ensures
        job_step(run, event).1 is Attempt <==> run.phase is Checking && event
            == EventView::Cancelled(false),
        job_step(run, event).0.phase is Attempting <==> job_step(run, event).1 is Attempt,
{
}

/// A failure for good ends the job at once, whatever the job is and however many attempts are
/// left: its error is stored as that of a failed job, and is what the report ends with.
pub proof fn law_fatal_failure_ends(run: RunView, e: Seq<char>, stored: EventView)
    requires
        run_ok(run),
        run.phase is Attempting,
        stored is Stored || stored is StoreFailed,
    ensures
        ({
            let (next, action) = job_step(run, EventView::FailedForGood(e));
            let (last, report) = job_step(next, stored);
            &&& action == ActionView::MarkFailed(e)
            &&& next.phase is Failing
            &&& expects(next.phase, stored)
            &&& last.phase is Finished
            &&& stored is StoreFailed ==> report is ReturnStorageError
            &&& stored is Stored ==> report == ActionView::ReturnErr(
                category_of(run.job_type),
                "任务 "@ + run.job_type.name() + " (id="@ + signed_decimal(run.job_id as int)
                    + ") 致命错误: "@ + e,
            )
        }),
{
}

/// A failure that may pass is tried again while attempts are left; the last one ends the job,
/// and the report tells how many attempts there were to be.
pub proof fn law_passing_failure(run: RunView, e: Seq<char>, stored: EventView)
    requires
        run_ok(run),
        run.phase is Attempting,
        stored is Stored || stored is StoreFailed,
    ensures
        ({
            let (next, action) = job_step(run, EventView::FailedOnce(e));
            let (last, report) = job_step(next, stored);
            if run.attempts < run.config.max_retries {
                &&& action == ActionView::MarkRetrying(e)
                &&& stored is Stored ==> report is CheckCancel && last.phase is BeforeSleep
                &&& stored matches EventView::StoreFailed(why) ==> report == ActionView::MarkFatal(
                    "标记 retrying 失败 (storage 不可用): "@ + why + " (原始错误: "@ + e + ")"@,
                )
            } else {
                &&& action == ActionView::MarkFailed(e)
                &&& last.phase is Finished
                &&& stored is StoreFailed ==> report is ReturnStorageError
                &&& stored is Stored ==> report == ActionView::ReturnErr(
                    category_of(run.job_type),
                    "任务 "@ + run.job_type.name() + " (id="@ + signed_decimal(run.job_id as int)
                        + ") 已达最大重试次数 "@ + decimal(run.config.max_retries as nat) + ": "@
                        + e,
                )
            }
        }),
{
}

/// A job is marked for another attempt only after a failure that may pass, with that failure,
/// and only where another attempt is allowed.
pub proof fn law_retry_needs_passing_failure(run: RunView, event: EventView)
    requires
        run_ok(run),
        expects(run.phase, event),
    ensures
        job_step(run, event).1 matches ActionView::MarkRetrying(e) ==> run.phase is Attempting
            && event == EventView::FailedOnce(e) && run.attempts < run.config.max_retries,
        job_step(run, event).0.phase is Retrying <==> job_step(run, event).1 is MarkRetrying,
{
}

/// A success is stored and then reported with the number of the job.
pub proof fn law_success_is_reported(run: RunView, stored: EventView)
    requires
        run_ok(run),
        run.phase is Attempting,
        stored is Stored || stored is StoreFailed,
    ensures
        ({
            let (next, action) = job_step(run, EventView::Succeeded);
            let (last, report) = job_step(next, stored);
            &&& action is MarkCompleted
            &&& expects(next.phase, stored)
            &&& last.phase is Finished
            &&& report == (if stored is Stored {
                ActionView::ReturnOk(run.job_id)
            } else {
                ActionView::ReturnStorageError
            })
        }),
{
}

/// A job is marked as completed only after an attempt that succeeded, and as failed only after
/// a cancellation or a failed attempt.
pub proof fn law_marks_tell_what_happened(run: RunView, event: EventView)
    requires
        run_ok(run),
        expects(run.phase, event),
    ensures
        job_step(run, event).1 is MarkCompleted <==> run.phase is Attempting && event is Succeeded,
        job_step(run, event).1 is MarkFailed <==> event == EventView::Cancelled(true) || event
            is FailedForGood || (event is FailedOnce && run.attempts >= run.config.max_retries),
        job_step(run, event).1 is MarkFatal <==> event is StoreFailed && (run.phase is Starting
            || run.phase is Retrying || run.phase is Resuming),
{
}

/// A cancelled job is told so in words that fit the moment.
pub proof fn law_cancellation_is_told(run: RunView)
    requires
        run_ok(run),
        expects(run.phase, EventView::Cancelled(true)),
    ensures
        job_step(run, EventView::Cancelled(true)).1 == ActionView::MarkFailed(
            if run.phase is Checking {
                "任务已被取消（应用正在关闭）"@
            } else if run.phase is BeforeSleep {
                "任务在重试等待前被取消（应用正在关闭）"@
            } else {
                "任务在重试等待后被取消（应用正在关闭）"@
            },
        ),
{
}

/// Where the state of a job that goes on cannot be stored, it is given up: that is marked, and
/// the same words are reported, whether or not the mark could be stored.
pub proof fn law_lost_state_is_fatal(run: RunView, why: Seq<char>, then: EventView)
    requires
        run_ok(run),
        run.phase is Starting || run.phase is Resuming || run.phase is Retrying,
        then is Stored || then is StoreFailed,
    ensures
        ({
            let (next, action) = job_step(run, EventView::StoreFailed(why));
            let (last, report) = job_step(next, then);
            &&& action is MarkFatal
            &&& report == ActionView::ReturnErr(category_of(run.job_type), action->MarkFatal_0)
            &&& last.phase is Finished
            &&& run.phase is Starting ==> action->MarkFatal_0 == "标记 running 失败 (storage 不可用): "@ + why
            &&& run.phase is Resuming ==> action->MarkFatal_0
                == "标记 running 失败 (storage 不可用，重试 #"@ + decimal(run.attempts as nat) + "/"@
                + decimal(run.config.max_retries as nat) + "): "@ + why
        }),
{
}

/// A job that has been marked as running is looked at before anything else is done.
pub proof fn law_running_is_checked_first(run: RunView)
    requires
        run_ok(run),
        run.phase is Starting || run.phase is Resuming,
    ensures
        job_step(run, EventView::Stored).1 is CheckCancel,
        job_step(run, EventView::Stored).0.phase is Checking,
{
}

/// The wait after the first attempt is the base, and it doubles with each further attempt, up
/// to a minute.
pub proof fn law_backoff_doubles(base: u64, attempts: u32)
    requires
        attempts < u32::MAX,
    ensures
        backoff(base, 1) == (if base < 60_000 {
            base as int
        } else {
            60_000
        }),
        attempts > 0 ==> backoff(base, (attempts + 1) as u32) == (if 2 * backoff(base, attempts)
            < 60_000 {
            2 * backoff(base, attempts)
        } else {
            60_000
        }),
{
    vstd::arithmetic::power2::lemma2_to64();
    let k = (attempts - 1) as nat;
    assert(base * pow2(0) == base) by (nonlinear_arith)
        requires
            pow2(0) == 1,
    ;
    if attempts > 0 {
        vstd::arithmetic::power2::lemma_pow2_unfold((k + 1) as nat);
        assert(base * pow2((k + 1) as nat) == 2 * (base * pow2(k))) by (nonlinear_arith)
            requires
                pow2((k + 1) as nat) == 2 * pow2(k),
        ;
    }
}

/// A job waits only where a failure was marked for another attempt and no cancellation came,
/// and as long as the attempts so far ask for.
pub proof fn law_waits_before_next_attempt(run: RunView, event: EventView)
    requires
        run_ok(run),
        expects(run.phase, event),
    ensures
        job_step(run, event).1 matches ActionView::Sleep(ms) ==> run.phase is BeforeSleep && event
            == EventView::Cancelled(false) && ms == backoff(
            run.config.retry_base_delay_ms,
            run.attempts,
        ),
        run.phase is BeforeSleep && event == EventView::Cancelled(false) ==> job_step(
            run,
            event,
        ).1 is Sleep,
{
    law_backoff_monotone(run.config.retry_base_delay_ms, run.attempts, run.attempts);
}

/// Errors of the jobs that use the model are errors of the model, those of rebuilding the index
/// are errors of the index, and all others are errors of validation.
pub proof fn law_error_categories(job_type: JobType)
    ensures
        category_of(job_type) is Llm <==> job_type is L1Summary || job_type is EventExtract
            || job_type is PersonalityInference,
        category_of(job_type) is Index <==> job_type is IndexRebuild,
        category_of(job_type) is Validation <==> job_type is Calibration || job_type is Custom,
{
}

/// Whatever can come of an action is expected after it, and nothing else.
pub proof fn law_outcomes_are_expected(run: RunView, event: EventView, then: EventView)
    requires
        run_ok(run),
        expects(run.phase, event),
    ensures
        ({
            let (next, action) = job_step(run, event);
            expects(next.phase, then) == match action {
                ActionView::Attempt => then is Succeeded || then is FailedOnce || then
                    is FailedForGood,
                ActionView::CheckCancel => then is Cancelled,
                ActionView::Sleep(_) => then is Slept,
                ActionView::ReturnOk(_)
                | ActionView::ReturnErr(_, _)
                | ActionView::ReturnStorageError => false,
                _ => then is Stored || then is StoreFailed,
            }
        }),
{
}

/// What an attempt came to is seen as what it is: as a success, as a failure that may pass, or
/// as one for good, with its error.
pub proof fn law_events_are_seen(event: JobEvent)
    ensures
        event@ == match event {
            JobEvent::Attempted(JobResult::Success) => EventView::Succeeded,
            JobEvent::Attempted(JobResult::Retryable(e)) => EventView::FailedOnce(e@),
            JobEvent::Attempted(JobResult::Fatal(e)) => EventView::FailedForGood(e@),
            JobEvent::Cancelled(b) => EventView::Cancelled(b),
            JobEvent::Stored => EventView::Stored,
            JobEvent::StoreFailed(e) => EventView::StoreFailed(e@),
            JobEvent::Slept => EventView::Slept,
        },
{
}

/// Actions that look alike are alike: they are of one sort, and their texts and numbers agree.
pub proof fn law_actions_are_seen(a: JobAction, b: JobAction)
    ensures
        a@ == b@ <==> match (a, b) {
            (JobAction::MarkRunning, JobAction::MarkRunning) => true,
            (JobAction::MarkRetrying(x), JobAction::MarkRetrying(y)) => x@ == y@,
            (JobAction::MarkFailed(x), JobAction::MarkFailed(y)) => x@ == y@,
            (JobAction::MarkCompleted, JobAction::MarkCompleted) => true,
            (JobAction::MarkFatal(x), JobAction::MarkFatal(y)) => x@ == y@,
            (JobAction::CheckCancel, JobAction::CheckCancel) => true,
            (JobAction::Attempt, JobAction::Attempt) => true,
            (JobAction::Sleep(x), JobAction::Sleep(y)) => x == y,
            (JobAction::ReturnOk(x), JobAction::ReturnOk(y)) => x == y,
            (JobAction::ReturnErr(c, x), JobAction::ReturnErr(d, y)) => c == d && x@ == y@,
            (JobAction::ReturnStorageError, JobAction::ReturnStorageError) => true,
            _ => false,
        },
        a is MarkFailed <==> a@ is MarkFailed,
        a is MarkRetrying <==> a@ is MarkRetrying,
        a is MarkCompleted <==> a@ is MarkCompleted,
        a is MarkFatal <==> a@ is MarkFatal,
        a is MarkRunning <==> a@ is MarkRunning,
        a is Attempt <==> a@ is Attempt,
        a is Sleep <==> a@ is Sleep,
        a is CheckCancel <==> a@ is CheckCancel,
        a is ReturnOk <==> a@ is ReturnOk,
        a is ReturnErr <==> a@ is ReturnErr,
        a matches JobAction::MarkFailed(x) ==> a@ == ActionView::MarkFailed(x@),
        a matches JobAction::MarkRetrying(x) ==> a@ == ActionView::MarkRetrying(x@),
        a matches JobAction::Sleep(x) ==> a@ == ActionView::Sleep(x),
        a matches JobAction::ReturnOk(x) ==> a@ == ActionView::ReturnOk(x),
        a matches JobAction::ReturnErr(c, x) ==> a@ == ActionView::ReturnErr(c, x@),
{
}

/// Jobs are stored under the names of their kinds.
pub proof fn law_names_of_jobs(s: &'static str)
    ensures
        JobType::L1Summary.name() == "l1_summary"@,
        JobType::EventExtract.name() == "event_extract"@,
        JobType::PersonalityInference.name() == "personality_inference"@,
        JobType::Calibration.name() == "calibration"@,
        JobType::IndexRebuild.name() == "index_rebuild"@,
        JobType::Custom(s).name() == s@,
{
}

/// After the wait a job looks for a cancellation, and without one is marked as running again.
pub proof fn law_after_waiting(run: RunView)
    ensures
        run.phase is Sleeping ==> job_step(run, EventView::Slept).0.phase is AfterSleep && job_step(
            run,
            EventView::Slept,
        ).1 is CheckCancel,
        run.phase is AfterSleep ==> job_step(run, EventView::Cancelled(false)).0.phase is Resuming
            && job_step(run, EventView::Cancelled(false)).1 is MarkRunning,
        backoff(run.config.retry_base_delay_ms, 0) == backoff(run.config.retry_base_delay_ms, 1),
{
}

/// A job that fails for good in an attempt is marked as failed with that error, and nothing else
/// is tried.
pub proof fn law_step_after_fatal_failure(
    run: JobRun,
    e: String,
    r: (JobRun, JobAction),
)
    requires
        call_ensures(JobRun::step, (run, JobEvent::Attempted(JobResult::Fatal(e))), r),
        run@.phase is Attempting,
    ensures
        r.0@.phase is Failing,
        r.0@.attempts == run@.attempts,
        r.1 matches JobAction::MarkFailed(m) && m@ == e@,
{
}

/// A job that failed and may pass is marked for another attempt where one is left, and otherwise
/// as failed, with that error.
pub proof fn law_step_after_passing_failure(
    run: JobRun,
    e: String,
    r: (JobRun, JobAction),
)
    requires
        call_ensures(JobRun::step, (run, JobEvent::Attempted(JobResult::Retryable(e))), r),
        run@.phase is Attempting,
    ensures
        run@.attempts < run@.config.max_retries ==> r.0@.phase is Retrying && (
        r.1 matches JobAction::MarkRetrying(m) && m@ == e@),
        run@.attempts >= run@.config.max_retries ==> r.0@.phase is Failing && (
        r.1 matches JobAction::MarkFailed(m) && m@ == e@),
{
}

/// A job begins without attempts, and is first marked as running.
pub proof fn law_how_a_job_begins(
    job_type: JobType,
    job_id: i64,
    config: JobManagerConfig,
    r: (JobRun, JobAction),
)
    requires
        call_ensures(JobRun::start, (job_type, job_id, config), r),
    ensures
        r.0@.job_type == job_type,
        r.0@.job_id == job_id,
        r.0@.config == config,
        r.0@.attempts == 0,
        r.0@.phase is Starting,
        r.1 is MarkRunning,
{
}

/// Where nothing else is said, a job is attempted three times, and waits a second at first.
pub proof fn law_default_retries(r: JobManagerConfig)
    requires
        call_ensures(JobManagerConfig::default, (), r),
    ensures
        r.max_retries == 3,
        r.retry_base_delay_ms == 1000,
{
}

} // verus!
