//! Kernel verdicts from a guest machine over a shared directory.
//!
//! The host drops batches of programs into a share; the guest runs its agent
//! on each of them and writes the verdict back. The host waits until the
//! guest has consumed the previous batch, clears stale results, writes the
//! new batch and polls until every job has its result. This module holds what
//! is decided on the way: when a batch goes out, when to go on waiting, and
//! what an agent's output means.

use vstd::prelude::*;

use crate::diff::SideVerdict;
use crate::klog;
use crate::klog::{categorize_reason, ReasonCategory};
use crate::text;
use crate::text::{begins_with, chars_of, cut, find, find_last, same_str, same_text, skip_space, string_of, trimmed};

verus! {

/// Programs sent to the guest per round trip.
pub const QEMU_BATCH: usize = 100;

/// The script the guest runs for one batch: verify every job file, write
/// `out/<name>.out`.
///
/// `timeout 30` guards the guest kernel verifier: a pathological program can
/// keep it busy for minutes, which would stall the batch. When the timeout
/// kills the agent, an explicit marker is written, so that polling for the
/// result ends quickly.
pub const QEMU_RUN_SCRIPT: &'static str = r###"#!/bin/sh
STRICT=""
[ -f /mnt/host/strict ] && STRICT="--strict"
# Force a fresh 9p readdir of the job dir BEFORE reading the manifest:
# the 9p client can serve a stale directory listing, so a job file
# written just now may not appear in a glob yet. An explicit ls
# refreshes the readdir cache so the manifest-driven opens below see
# every file (stale listings surfaced as REJECT cannot-read job file
# errno=2).
ls -la /mnt/host/job/ > /mnt/host/out/.diag-jobls 2>&1
ls /mnt/host/job/ >/dev/null 2>&1
id > /mnt/host/out/.diag-id 2>&1
ls -la /sbin/agent >> /mnt/host/out/.diag-id 2>&1
id /sbin/agent >> /mnt/host/out/.diag-id 2>&1 || true
# security_model=none can map host files to non-root guest ownership
# even though we run as root, so make the batch world-readable/writable
# before opening it (EACCES used to surface as cannot-read errno=13).
chmod 777 /mnt/host/job /mnt/host/out 2>/dev/null
for f in /mnt/host/job/*.bin; do chmod 666 "$f" 2>/dev/null; done
# Process exactly the job files listed in /mnt/host/manifest (one name
# per line). The manifest is a plain file the host writes AFTER all
# job/*.bin are on disk, so we never depend on 9p directory readdir
# visibility — the guest opens the manifest by path, which is reliable
# even when readdir lags.
if [ -f /mnt/host/manifest ]; then
    while IFS= read -r name; do
        [ -n "$name" ] || continue
        f="/mnt/host/job/$name.bin"
        [ -e "$f" ] || continue
        timeout 30 /sbin/agent "$f" $STRICT > "/mnt/host/out/$name.out" 2>&1
        rc=$?
        if [ $rc -eq 124 ]; then
            echo "AGENT-TIMEOUT" > "/mnt/host/out/$name.out"
        fi
        rm -f "$f"
    done < /mnt/host/manifest
fi
# tell the host this batch is fully consumed. The host waits for every
# out file, not for this marker, so a slow file cannot strand a job.
touch /mnt/host/batch-done
"###;

/// The name of the job that asks for the pending batch to be sent at once.
pub const FLUSH_NAME: &'static str = "__flush__";

// ── When a batch goes out ───────────────────────────────────────────────────

/// What the worker of the queue is woken by.
#[derive(Debug, Clone, Copy, PartialEq, Eq, Structural)]
pub enum WorkerEvent {
    /// A program to verify.
    Job,
    /// A request to send what is pending.
    Flush,
    /// Nothing came for a while.
    Timeout,
    /// Nobody is left who could send a job.
    Disconnected,
}

/// What the worker does about it, in this order.
#[derive(Debug, Clone, Copy, PartialEq, Eq, Structural)]
pub struct WorkerStep {
    /// Put the job behind those pending.
    pub enqueue: bool,
    /// Send everything that is pending as one batch.
    pub send: bool,
    /// Tell the sender of the flush request that it is done.
    pub acknowledge: bool,
    /// Stop.
    pub stop: bool,
}

/// The kind of job that a name asks for.
pub fn job_event(name: &str) -> (e: WorkerEvent)
    ensures
        e == (if name@ == FLUSH_NAME@ {
            WorkerEvent::Flush
        } else {
            WorkerEvent::Job
        }),
{
    if same_str(name, FLUSH_NAME) {
        WorkerEvent::Flush
    } else {
        WorkerEvent::Job
    }
}

/// The step of the worker with `pending` jobs waiting: jobs are collected
/// until a batch is full, and go out early on request, when nothing more
/// comes, and at the end.
pub fn worker_step(event: WorkerEvent, pending: usize) -> (step: WorkerStep)
    ensures
        step.enqueue == (event is Job),
        step.acknowledge == (event is Flush),
        step.stop == (event is Disconnected),
        step.send == match event {
            WorkerEvent::Job => pending + 1 >= QEMU_BATCH,
            _ => pending > 0,
        },
{
    WorkerStep {
        enqueue: matches!(event, WorkerEvent::Job),
        send: match event {
            WorkerEvent::Job => pending >= QEMU_BATCH - 1,
            _ => pending > 0,
        },
        acknowledge: matches!(event, WorkerEvent::Flush),
        stop: matches!(event, WorkerEvent::Disconnected),
    }
}

/// Jobs pending after a step.
pub open spec fn pending_after(step: WorkerStep, pending: nat) -> nat {
    if step.send {
        0
    } else if step.enqueue {
        pending + 1
    } else {
        pending
    }
}

/// Every batch that goes out holds at least one job and at most
/// [`QEMU_BATCH`] of them, provided that no more were pending before; and
/// nothing is pending when the worker stops.
pub proof fn batches_are_bounded(event: WorkerEvent, pending: nat, step: WorkerStep)
    requires
        pending < QEMU_BATCH,
        step.enqueue == (event is Job),
        step.stop == (event is Disconnected),
        step.send == match event {
            WorkerEvent::Job => pending + 1 >= QEMU_BATCH,
            _ => pending > 0,
        },
    ensures
        pending_after(step, pending) < QEMU_BATCH,
        step.send ==> 1 <= pending + (if step.enqueue {
            1int
        } else {
            0
        }) <= QEMU_BATCH,
        step.stop ==> pending_after(step, pending) == 0,
{
}

// ── The manifest ────────────────────────────────────────────────────────────

/// The manifest of a batch: each name on a line of its own.
pub open spec fn manifest_text(names: Seq<String>) -> Seq<char>
    decreases names.len(),
{
    if names.len() == 0 {
        seq![]
    } else {
        manifest_text(names.drop_last()) + names.last()@ + seq!['\n']
    }
}

/// The manifest of a batch.
pub fn manifest(names: &[String]) -> (s: String)
    ensures
        s@ == manifest_text(names@),
{
    let mut s: String = String::new();
    let mut i: usize = 0;
    assert(names@.take(0) == Seq::<String>::empty());
    while i < names.len()
        invariant
            i <= names@.len(),
            s@ == manifest_text(names@.take(i as int)),
        decreases names@.len() - i,
    {
        proof {
            assert(names@.take(i + 1).drop_last() == names@.take(i as int));
        }
        s.append(names[i].as_str());
        s.push('\n');
        i = i + 1;
        assert(s@ =~= manifest_text(names@.take(i as int)));
    }
    assert(names@.take(i as int) == names@);
    s
}

// ── Waiting ─────────────────────────────────────────────────────────────────

/// What to do next while waiting for the guest.
#[derive(Debug, Clone, Copy, PartialEq, Eq, Structural)]
pub enum PollAction {
    /// What was waited for is there.
    Done,
    /// The deadline has passed.
    GiveUp,
    /// Look again in a moment.
    Wait,
}

/// What the share shows of one job of the batch.
#[derive(Debug, Clone, Copy, PartialEq, Eq, Structural)]
pub struct JobState {
    /// The job file is still there.
    pub job_file: bool,
    /// The result file is there.
    pub out_file: bool,
}

pub open spec fn poll_action(waiting: bool, late: bool) -> PollAction {
    if !waiting {
        PollAction::Done
    } else if late {
        PollAction::GiveUp
    } else {
        PollAction::Wait
    }
}

fn poll(waiting: bool, late: bool) -> (a: PollAction)
    ensures
        a == poll_action(waiting, late),
{
    if !waiting {
        PollAction::Done
    } else if late {
        PollAction::GiveUp
    } else {
        PollAction::Wait
    }
}

/// Whether the guest has consumed the previous batch: its job directory is
/// empty and its completion marker is gone.
pub fn poll_previous(job_has_files: bool, batch_done: bool, late: bool) -> (a: PollAction)
    ensures
        a == poll_action(job_has_files || batch_done, late),
{
    poll(job_has_files || batch_done, late)
}

/// A job is open until its file is consumed and its result is there.
pub open spec fn is_open(s: JobState) -> bool {
    s.job_file || !s.out_file
}

/// Some job of the batch is open.
pub open spec fn some_open(jobs: Seq<JobState>) -> bool {
    exists|i: int| 0 <= i < jobs.len() && is_open(#[trigger] jobs[i])
}

/// Whether every job of the batch has its result.
pub fn poll_results(jobs: &[JobState], late: bool) -> (a: PollAction)
    ensures
        a == poll_action(some_open(jobs@), late),
{
    let mut i: usize = 0;
    while i < jobs.len()
        invariant
            i <= jobs@.len(),
            forall|k: int| 0 <= k < i ==> !is_open(#[trigger] jobs@[k]),
        decreases jobs@.len() - i,
    {
        if jobs[i].job_file || !jobs[i].out_file {
            assert(is_open(jobs@[i as int]));
            return poll(true, late);
        }
        i = i + 1;
    }
    poll(false, late)
}

// ── What the agent says ─────────────────────────────────────────────────────

/// The first line that is not blank, without white space at its ends.
pub open spec fn first_line(s: Seq<char>) -> Seq<char> {
    let t = text::trim_start(s);
    match text::find_from(t, seq!['\n'], 0) {
        Some(i) => text::trim_end(t.take(i)),
        None => text::trim_end(t),
    }
}

/// The reason of a rejection without the error number behind it.
pub open spec fn without_errno(reason: Seq<char>) -> Seq<char> {
    match text::find_back(reason, " errno="@, reason.len() as int) {
        Some(i) => reason.take(i),
        None => reason,
    }
}

/// The reason in a line that reports a rejection by the kernel's verifier.
/// Failures to read or load the program are not verdicts.
pub open spec fn rejection(line: Seq<char>) -> Option<Seq<char>> {
    let rest = line.skip("REJECT "@.len() as int);
    if !text::begins(line, "REJECT "@) {
        None
    } else if text::begins(rest, "cannot-read"@) || text::begins(rest, "invalid-program"@)
        || text::begins(rest, "no-error-line"@) {
        None
    } else {
        Some(without_errno(rest))
    }
}

/// `r` is the verdict in an agent's output: `ACCEPT`, or
/// `REJECT <reason> errno=<n>`; anything else is no verdict.
pub open spec fn agent_verdict(output: Seq<char>, r: Option<(SideVerdict, Option<String>)>) -> bool {
    let line = first_line(output);
    if line == "ACCEPT"@ {
        r == Some((SideVerdict::Accept, None::<String>))
    } else {
        match rejection(line) {
            Some(reason) => {
                &&& r is Some
                &&& (r->0).0 == SideVerdict::Reject { category: klog::category_of_text(text::trim(reason)) }
                &&& (r->0).1 is Some
                &&& (r->0).1->0@ == reason
            },
            None => r is None,
        }
    }
}

/// The first line that is not blank.
fn first_line_of(v: &[char]) -> (line: Vec<char>)
    ensures
        line@ == first_line(v@),
{
    let feed: [char; 1] = ['\n'];
    let from: usize = skip_space(v, 0);
    let t: Vec<char> = cut(v, from, v.len());
    proof {
        assert(feed@ =~= seq!['\n']);
        assert(v@.skip(0) == v@);
        assert(t@ =~= text::trim_start(v@));
    }
    let to: usize = match find(&t, &feed, 0) {
        Some(i) => i,
        None => t.len(),
    };
    let head: Vec<char> = cut(&t, 0, to);
    proof {
        assert(head@ =~= t@.take(to as int));
        assert(t@.take(t@.len() as int) =~= t@);
        lemma_trimmed_once(v@, to as int);
    }
    trimmed(&head)
}

/// A text that begins without white space keeps its beginning.
proof fn lemma_trimmed_once(s: Seq<char>, n: int)
    requires
        0 <= n <= text::trim_start(s).len(),
    ensures
        text::trim_start(text::trim_start(s).take(n)) == text::trim_start(s).take(n),
    decreases s.len(),
{
    if s.len() > 0 && text::is_space(s[0]) {
        lemma_trimmed_once(s.drop_first(), n);
    }
}

/// Parse one agent output: `ACCEPT` or `REJECT <reason> errno=<n>`.
///
/// Infrastructure failures (the agent could not read the job file, the guest
/// verifier hit the per-program timeout, or the load failed without a
/// verifier-log line) return `None`: they are not kernel verdicts and surface
/// as `Skipped`, never as findings.
pub fn parse_agent_verdict(text: &str) -> (r: Option<(SideVerdict, Option<String>)>)
    ensures
        agent_verdict(text@, r),
{
    let line: Vec<char> = first_line_of(&chars_of(text));
    if same_text(&line, &chars_of("ACCEPT")) {
        return Some((SideVerdict::Accept, None));
    }
    if !begins_with(&line, "REJECT ") {
        return None;
    }
    proof {
        reveal_strlit("REJECT ");
    }
    let rest: Vec<char> = cut(&line, 7, line.len());
    proof {
        assert(rest@ =~= line@.skip(7));
    }
    if begins_with(&rest, "cannot-read") || begins_with(&rest, "invalid-program") || begins_with(
        &rest,
        "no-error-line",
    ) {
        return None;
    }
    let to: usize = match find_last(&rest, &chars_of(" errno=")) {
        Some(i) => i,
        None => rest.len(),
    };
    let reason: Vec<char> = cut(&rest, 0, to);
    proof {
        assert(reason@ =~= without_errno(rest@));
    }
    let message: String = string_of(&reason);
    let category: ReasonCategory = categorize_reason(message.as_str());
    Some((SideVerdict::Reject { category }, Some(message)))
}

/// Whether an agent's output is still empty, so that it is read again.
pub fn output_pending(output: &str) -> (b: bool)
    ensures
        b == (text::trim(output@).len() == 0),
{
    trimmed(&chars_of(output)).len() == 0
}

/// How often the output of an agent is read at most.
pub const MAX_READS: usize = 10;

/// Whether an output is read once more behind `reads` reads: it is still empty,
/// and not too many were made.
pub fn read_again(output: &str, reads: usize) -> (b: bool)
    ensures
        b == (reads < MAX_READS && text::trim(output@).len() == 0),
{
    reads < MAX_READS && output_pending(output)
}

/// What is reported when the guest does not answer.
pub const NO_ANSWER: &'static str = "qemu: parse/read failure";

/// What an agent's output means for the job: its verdict, or that there is none.
pub fn reply_of(text: &str) -> (reply: Result<(SideVerdict, Option<String>), String>)
    ensures
        match reply {
            Ok(verdict) => agent_verdict(text@, Some(verdict)),
            Err(why) => agent_verdict(text@, None) && why@ == NO_ANSWER@,
        },
{
    match parse_agent_verdict(text) {
        Some(verdict) => Ok(verdict),
        None => Err(string_of(&chars_of(NO_ANSWER))),
    }
}

/// What an asker is told: what the guest says, or `Skipped` with the reason why
/// it says nothing.
pub fn ask_answer(reply: Result<(SideVerdict, Option<String>), String>) -> (r: (
    SideVerdict,
    Option<String>,
    Option<u32>,
))
    ensures
        match reply {
            Ok((v, m)) => r == (v, m, None::<u32>),
            Err(e) => r == (SideVerdict::Skipped, Some(e), None::<u32>),
        },
{
    match reply {
        Ok((v, m)) => (v, m, None),
        Err(e) => (SideVerdict::Skipped, Some(e), None),
    }
}

/// An output of a guest that timed out, or that is empty, never becomes a finding.
pub proof fn timeouts_are_no_answers(output: Seq<char>, r: Option<(SideVerdict, Option<String>)>)
    requires
        agent_verdict(output, r),
        first_line(output) == "AGENT-TIMEOUT"@ || first_line(output).len() == 0,
    ensures
        r is None,
{
    reveal_strlit("AGENT-TIMEOUT");
    reveal_strlit("ACCEPT");
    reveal_strlit("REJECT ");
    let line = first_line(output);
    if text::begins(line, "REJECT "@) {
        assert(line.subrange(0, 7)[0] == 'R');
        assert(line[0] == 'R');
    }
    if line == "ACCEPT"@ {
        assert(line[1] == 'C');
    }
}

} // verus!
