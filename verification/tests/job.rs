//! Tests of running jobs.

use ramaria_memory::job::{
    backoff_delay, ErrorCategory, JobAction, JobEvent, JobManagerConfig, JobResult, JobRun, JobType,
};
use ramaria_memory::job::status;

#[test]
fn test_job_type_as_str() {
    assert_eq!(JobType::L1Summary.as_str(), "l1_summary");
    assert_eq!(JobType::EventExtract.as_str(), "event_extract");
    assert_eq!(
        JobType::PersonalityInference.as_str(),
        "personality_inference"
    );
    assert_eq!(JobType::Calibration.as_str(), "calibration");
    assert_eq!(JobType::IndexRebuild.as_str(), "index_rebuild");
    assert_eq!(JobType::Custom("custom_task").as_str(), "custom_task");
}

#[test]
fn test_job_type_display() {
    assert_eq!(JobType::L1Summary.to_text(), "l1_summary");
    assert_eq!(JobType::Custom("adhoc").to_text(), "adhoc");
}

#[test]
fn test_status_constants() {
    assert_eq!(status::PENDING, "pending");
    assert_eq!(status::RUNNING, "running");
    assert_eq!(status::COMPLETED, "completed");
    assert_eq!(status::FAILED, "failed");
    assert_eq!(status::RETRYING, "retrying");
    assert_eq!(status::FATAL, "fatal");
}

#[test]
fn test_job_manager_config_default() {
    let cfg = JobManagerConfig::default();
    assert_eq!(cfg.max_retries, 3);
    assert_eq!(cfg.retry_base_delay_ms, 1000);
}

#[test]
fn test_job_manager_config_custom() {
    let cfg = JobManagerConfig {
        max_retries: 5,
        retry_base_delay_ms: 2000,
    };
    assert_eq!(cfg.max_retries, 5);
    assert_eq!(cfg.retry_base_delay_ms, 2000);
}

#[test]
fn test_job_result_variants() {
    let _ = JobResult::Success;
    let _ = JobResult::Retryable("network timeout".into());
    let _ = JobResult::Fatal("disk full".into());
}

/// Takes one step with an event that fits.
fn step(run: JobRun, event: JobEvent) -> (JobRun, JobAction) {
    assert!(run.fits(&event), "{event:?} does not fit {run:?}");
    run.step(event)
}

#[test]
fn a_job_that_succeeds_is_completed() {
    let (run, action) = JobRun::start(JobType::L1Summary, 7, JobManagerConfig::default());
    assert!(matches!(action, JobAction::MarkRunning));
    let (run, action) = step(run, JobEvent::Stored);
    assert!(matches!(action, JobAction::CheckCancel));
    let (run, action) = step(run, JobEvent::Cancelled(false));
    assert!(matches!(action, JobAction::Attempt));
    let (run, action) = step(run, JobEvent::Attempted(JobResult::Success));
    assert!(matches!(action, JobAction::MarkCompleted));
    let (run, action) = step(run, JobEvent::Stored);
    assert!(matches!(action, JobAction::ReturnOk(7)));
    assert!(!run.fits(&JobEvent::Stored));
}

#[test]
fn a_job_is_repeated_after_growing_waits() {
    let config = JobManagerConfig {
        max_retries: 3,
        retry_base_delay_ms: 1000,
    };
    let (run, _) = JobRun::start(JobType::EventExtract, 9, config);
    let (mut run, _) = step(run, JobEvent::Stored);
    let mut waits = Vec::new();
    let mut attempts = 0;
    let last = loop {
        let (r, action) = step(run, JobEvent::Cancelled(false));
        assert!(matches!(action, JobAction::Attempt));
        attempts += 1;
        let failed = JobEvent::Attempted(JobResult::Retryable("超时".to_string()));
        let (r, action) = step(r, failed);
        if let JobAction::MarkFailed(e) = action {
            assert_eq!(e, "超时");
            break step(r, JobEvent::Stored).1;
        }
        assert!(matches!(action, JobAction::MarkRetrying(ref e) if e == "超时"));
        let (r, action) = step(r, JobEvent::Stored);
        assert!(matches!(action, JobAction::CheckCancel));
        let (r, action) = step(r, JobEvent::Cancelled(false));
        match action {
            JobAction::Sleep(ms) => waits.push(ms),
            other => panic!("expected a wait, got {other:?}"),
        }
        let (r, action) = step(r, JobEvent::Slept);
        assert!(matches!(action, JobAction::CheckCancel));
        let (r, action) = step(r, JobEvent::Cancelled(false));
        assert!(matches!(action, JobAction::MarkRunning));
        let (r, action) = step(r, JobEvent::Stored);
        assert!(matches!(action, JobAction::CheckCancel));
        run = r;
    };
    assert_eq!(attempts, 3);
    assert_eq!(waits, vec![1000, 2000]);
    match last {
        JobAction::ReturnErr(category, e) => {
            assert_eq!(category, ErrorCategory::Llm);
            assert_eq!(e, "任务 event_extract (id=9) 已达最大重试次数 3: 超时");
        }
        other => panic!("expected a report, got {other:?}"),
    }
}

#[test]
fn a_fatal_failure_is_not_repeated() {
    let (run, _) = JobRun::start(JobType::Custom("adhoc"), -3, JobManagerConfig::default());
    let (run, _) = step(run, JobEvent::Stored);
    let (run, _) = step(run, JobEvent::Cancelled(false));
    let failed = JobEvent::Attempted(JobResult::Fatal("磁盘满".to_string()));
    let (run, action) = step(run, failed);
    assert!(matches!(action, JobAction::MarkFailed(ref e) if e == "磁盘满"));
    match step(run, JobEvent::Stored).1 {
        JobAction::ReturnErr(_, e) => assert_eq!(e, "任务 adhoc (id=-3) 致命错误: 磁盘满"),
        other => panic!("expected a report, got {other:?}"),
    }
}

#[test]
fn a_cancelled_job_is_marked_failed() {
    let (run, _) = JobRun::start(JobType::L1Summary, 1, JobManagerConfig::default());
    let (run, _) = step(run, JobEvent::Stored);
    let (run, action) = step(run, JobEvent::Cancelled(true));
    assert!(matches!(action, JobAction::MarkFailed(ref e) if e == "任务已被取消（应用正在关闭）"));
    assert!(matches!(
        step(run, JobEvent::Stored).1,
        JobAction::ReturnErr(_, _)
    ));
}

#[test]
fn a_job_that_cannot_be_marked_dies() {
    let (run, _) = JobRun::start(JobType::L1Summary, 1, JobManagerConfig::default());
    let (run, action) = step(run, JobEvent::StoreFailed("锁".to_string()));
    let text = "标记 running 失败 (storage 不可用): 锁";
    assert!(matches!(action, JobAction::MarkFatal(ref e) if e == text));
    match step(run, JobEvent::StoreFailed("锁".to_string())).1 {
        JobAction::ReturnErr(_, e) => assert_eq!(e, text),
        other => panic!("expected a report, got {other:?}"),
    }
}

#[test]
fn waits_double_up_to_a_limit() {
    assert_eq!(backoff_delay(1000, 1), 1000);
    assert_eq!(backoff_delay(1000, 2), 2000);
    assert_eq!(backoff_delay(1000, 3), 4000);
    let far = backoff_delay(1000, 60);
    assert_eq!(far, backoff_delay(u64::MAX, 1));
    assert_eq!(far, backoff_delay(u64::MAX, u32::MAX));
}
