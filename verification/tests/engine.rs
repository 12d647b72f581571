use nado::config::{Normalize, Program};
use nado::engine::{
    aggregate, candidate_display_names, classify_candidate, classify_origin, effective_timeout,
    sort_failures, verdict_of, FailReason, Failure, FailureRef, Verdict,
};
use nado::runner::RunOutput;

fn run_output(success: bool, code: Option<i32>, stdout: &str, timed_out: bool) -> RunOutput {
    RunOutput {
        success,
        exit_code: code,
        stdout: stdout.as_bytes().to_vec(),
        stderr: Vec::new(),
        timed_out,
    }
}

fn default_norm() -> Normalize {
    Normalize {
        trim_trailing_ws: true,
        ignore_final_newline: true,
    }
}

fn failure(case_index: usize, candidate: FailureRef, reason: FailReason) -> Failure {
    Failure {
        case_index,
        input: b"1 2\n".to_vec(),
        candidate,
        reason,
        origin_stdout: Vec::new(),
        candidate_stdout: Vec::new(),
        origin_stderr: Vec::new(),
        candidate_stderr: Vec::new(),
    }
}

#[test]
fn origin_classification() {
    assert!(classify_origin(&run_output(true, Some(0), "3\n", false)).is_none());
    assert!(matches!(
        classify_origin(&run_output(false, Some(2), "", false)),
        Some(FailReason::OriginExit { code: Some(2) })
    ));
    assert!(matches!(
        classify_origin(&run_output(false, None, "", true)),
        Some(FailReason::OriginTimedOut)
    ));
}

#[test]
fn candidate_classification() {
    let cfg = default_norm();
    let expected = b"3".to_vec();
    assert!(classify_candidate(&expected, &run_output(true, Some(0), "3\n", false), &cfg).is_none());
    assert!(matches!(
        classify_candidate(&expected, &run_output(true, Some(0), "4\n", false), &cfg),
        Some(FailReason::OutputMismatch)
    ));
    assert!(matches!(
        classify_candidate(&expected, &run_output(false, Some(1), "3\n", false), &cfg),
        Some(FailReason::CandidateExit { code: Some(1) })
    ));
    assert!(matches!(
        classify_candidate(&expected, &run_output(false, None, "", true), &cfg),
        Some(FailReason::CandidateTimedOut)
    ));
}

#[test]
fn whitespace_differences_normalize_away() {
    let cfg = default_norm();
    let expected = b"1 2\n3".to_vec();
    let got = run_output(true, Some(0), "1 2 \r\n3\r\n", false);
    assert!(classify_candidate(&expected, &got, &cfg).is_none());
}

#[test]
fn display_names_fall_back_to_indexed_names() {
    let named = Program {
        name: Some(b"mine".to_vec()),
        cmd: vec![b"x".to_vec()],
        image: None,
        timeout_ms: None,
        mounts: vec![],
    };
    let unnamed = Program {
        name: None,
        cmd: vec![b"y".to_vec()],
        image: None,
        timeout_ms: None,
        mounts: vec![],
    };
    let names = candidate_display_names(&vec![named, unnamed]);
    assert_eq!(names[0].as_slice(), b"mine");
    assert_eq!(names[1].as_slice(), b"candidate-2");
}

#[test]
fn timeouts_default_to_the_engine_timeout() {
    let p = Program {
        name: None,
        cmd: vec![b"x".to_vec()],
        image: None,
        timeout_ms: Some(250),
        mounts: vec![],
    };
    assert_eq!(effective_timeout(&p, 1000), 250);
    let q = Program { timeout_ms: None, ..p };
    assert_eq!(effective_timeout(&q, 1000), 1000);
}

#[test]
fn failures_sort_by_case_then_candidate_with_infra_last() {
    let mut v = vec![
        failure(2, FailureRef::Candidate(0), FailReason::OutputMismatch),
        failure(0, FailureRef::Origin, FailReason::OriginTimedOut),
        failure(0, FailureRef::Candidate(1), FailReason::OutputMismatch),
        failure(0, FailureRef::Candidate(0), FailReason::OutputMismatch),
    ];
    sort_failures(&mut v);
    assert_eq!(v[0].case_index, 0);
    assert!(matches!(v[0].candidate, FailureRef::Candidate(0)));
    assert!(matches!(v[1].candidate, FailureRef::Candidate(1)));
    assert!(matches!(v[2].candidate, FailureRef::Origin));
    assert_eq!(v[3].case_index, 2);
}

#[test]
fn all_pass_aggregation_exits_zero() {
    let report = aggregate(Vec::new(), 2, true);
    assert_eq!(report.exit_code, 0);
    assert!(matches!(verdict_of(&report, 0), Verdict::Pass));
    assert!(matches!(verdict_of(&report, 1), Verdict::Pass));
}

#[test]
fn mismatch_yields_fail_verdict() {
    let fs = vec![failure(3, FailureRef::Candidate(0), FailReason::OutputMismatch)];
    let report = aggregate(fs, 2, false);
    assert_eq!(report.exit_code, 1);
    assert!(matches!(verdict_of(&report, 0), Verdict::Fail { count: 1 }));
    assert!(matches!(verdict_of(&report, 1), Verdict::Pass));
}

#[test]
fn origin_failure_yields_unknown_verdict() {
    let fs = vec![failure(0, FailureRef::Origin, FailReason::OriginExit { code: Some(2) })];
    let report = aggregate(fs, 1, true);
    assert_eq!(report.exit_code, 1);
    assert_eq!(report.infra.len(), 1);
    assert!(matches!(verdict_of(&report, 0), Verdict::Unknown));
}

#[test]
fn stop_on_first_fail_keeps_one_failure_per_candidate() {
    let mut fs = Vec::new();
    for case in 0..50 {
        fs.push(failure(case, FailureRef::Candidate(0), FailReason::OutputMismatch));
        fs.push(failure(case, FailureRef::Candidate(1), FailReason::OutputMismatch));
    }
    sort_failures(&mut fs);
    let report = aggregate(fs, 2, true);
    assert_eq!(report.exit_code, 1);
    assert_eq!(report.per_candidate[0].len(), 1);
    assert_eq!(report.per_candidate[1].len(), 1);
    assert_eq!(report.per_candidate[0][0].case_index, 0);
    assert!(matches!(verdict_of(&report, 0), Verdict::Fail { count: 1 }));
}

#[test]
fn without_stop_all_failures_are_kept() {
    let mut fs = Vec::new();
    for case in 0..5 {
        fs.push(failure(case, FailureRef::Candidate(0), FailReason::OutputMismatch));
    }
    let report = aggregate(fs, 1, false);
    assert_eq!(report.per_candidate[0].len(), 5);
    assert!(matches!(verdict_of(&report, 0), Verdict::Fail { count: 5 }));
}

#[test]
fn engine_failures_count_as_infrastructure() {
    let fs = vec![failure(0, FailureRef::Engine, FailReason::EngineError)];
    let report = aggregate(fs, 1, true);
    assert_eq!(report.exit_code, 1);
    assert_eq!(report.infra.len(), 1);
    assert!(matches!(verdict_of(&report, 0), Verdict::Unknown));
}
