use rand_verifier::diff::SideVerdict;
use rand_verifier::fuzz::qemu::{
    ask_answer, job_event, manifest, output_pending, parse_agent_verdict, poll_previous,
    poll_results, read_again, reply_of, worker_step, JobState, PollAction, WorkerEvent, FLUSH_NAME, MAX_READS,
    NO_ANSWER, QEMU_BATCH, QEMU_RUN_SCRIPT,
};
use rand_verifier::klog::ReasonCategory;


#[test]
fn parse_verdicts() {
    assert_eq!(
        parse_agent_verdict("ACCEPT\n"),
        Some((SideVerdict::Accept, None))
    );
    let (v, m) =
        parse_agent_verdict("REJECT invalid stack off=-520 size=8 errno=13\n").unwrap();
    assert!(matches!(v, SideVerdict::Reject { .. }));
    assert!(m.unwrap().contains("invalid stack off"));
    assert!(parse_agent_verdict("").is_none());
    assert!(parse_agent_verdict("TIMEOUT\n").is_none());
}

#[test]
fn parse_infra_failures_are_none() {
    // infrastructure failures are not kernel verdicts: they must
    // surface as Skipped, never as findings
    assert!(parse_agent_verdict("AGENT-TIMEOUT\n").is_none());
    assert!(parse_agent_verdict("REJECT cannot-read job file errno=2\n").is_none());
    assert!(parse_agent_verdict("REJECT invalid-program bytes errno=22\n").is_none());
    assert!(parse_agent_verdict("REJECT no-error-line errno=28\n").is_none());
}

#[test]
fn agent_verdict_carries_its_category() {
    let (v, m) = parse_agent_verdict("REJECT R2 !read_ok errno=13\n").unwrap();
    assert_eq!(v, SideVerdict::Reject { category: ReasonCategory::UninitRead });
    assert_eq!(m.unwrap(), "R2 !read_ok");
}

#[test]
fn batches_fill_and_flush() {
    let step = worker_step(job_event("seed-1"), 0);
    assert!(step.enqueue && !step.send && !step.acknowledge && !step.stop);
    let step = worker_step(job_event("seed-1"), QEMU_BATCH - 1);
    assert!(step.enqueue && step.send);
    let step = worker_step(job_event(FLUSH_NAME), 3);
    assert!(!step.enqueue && step.send && step.acknowledge && !step.stop);
    let step = worker_step(WorkerEvent::Disconnected, 3);
    assert!(step.send && step.stop);
}

#[test]
fn manifest_lists_one_name_a_line() {
    assert_eq!(manifest(&["a".to_string(), "b".to_string()]), "a\nb\n");
    assert_eq!(manifest(&[]), "");
}

#[test]
fn polling_waits_sends_and_gives_up() {
    assert_eq!(poll_previous(false, false, false), PollAction::Done);
    assert_eq!(poll_previous(true, false, false), PollAction::Wait);
    assert_eq!(poll_previous(false, true, true), PollAction::GiveUp);
    let done = JobState { job_file: false, out_file: true };
    let open = JobState { job_file: true, out_file: false };
    assert_eq!(poll_results(&[done], false), PollAction::Done);
    assert_eq!(poll_results(&[done, open], false), PollAction::Wait);
}

#[test]
fn answers_without_a_verdict_are_skipped() {
    assert_eq!(
        ask_answer(Ok((SideVerdict::Accept, None))),
        (SideVerdict::Accept, None, None)
    );
    assert_eq!(ask_answer(Err("gone".to_string())).0, SideVerdict::Skipped);
    assert!(output_pending(""));
    assert!(QEMU_RUN_SCRIPT.starts_with("#!/bin/sh"));
}

#[test]
fn replies_of_outputs() {
    assert_eq!(reply_of("ACCEPT\n"), Ok((SideVerdict::Accept, None)));
    assert!(matches!(
        reply_of("REJECT invalid stack off=-520 size=8 errno=13\n"),
        Ok((SideVerdict::Reject { .. }, Some(_)))
    ));
    for output in ["", "AGENT-TIMEOUT\n", "REJECT cannot-read job file errno=2\n"] {
        assert_eq!(reply_of(output), Err(NO_ANSWER.to_string()));
    }
    assert!(read_again(" \n", 1));
    assert!(!read_again("ACCEPT\n", 1));
    assert!(!read_again("", MAX_READS));
}
