//! What a load into the kernel verifier means: the decisions around the raw
//! `bpf()` system call, from its reply and its log.

use vstd::prelude::*;

use crate::klog;
use crate::klog::{categorize_reason, parse_verifier_log, ReasonCategory};

verus! {

/// Size of the verifier log buffer: 1 MiB.
pub const LOG_BUF_SIZE: usize = 0x10_0000;

/// The error number "operation not permitted".
pub const EPERM: i32 = 1;

/// CAP_BPF: enough to load a program.
pub const CAP_BPF: u32 = 39;

/// CAP_NET_ADMIN: kept beside CAP_BPF for the checks of the net namespace. It
/// brings no leniency of the verifier.
pub const CAP_NET_ADMIN: u32 = 12;

/// The outcome of loading a program into the real kernel verifier.
#[derive(Debug, Clone, PartialEq, Eq)]
pub enum KernelOutcome {
    /// The kernel verifier accepted the program.
    Accept,
    /// The kernel verifier rejected it, for a reason that its log gives.
    Reject { insn_idx: u32, message: String, category: ReasonCategory },
    /// The load was not permitted: a privilege problem, no verdict.
    Privilege,
    /// The load failed with `errno` and the log holds no error.
    NoErrorLine { errno: i32 },
    /// The program could not even be prepared: empty, or not whole slots.
    InvalidProgram,
}

/// The reply of the system call.
#[derive(Debug, Clone, Copy, PartialEq, Eq, Structural)]
pub enum LoadReply {
    Loaded,
    Failed { errno: i32 },
}

/// The text of bytes, where sequences that are not UTF-8 are replaced.
pub uninterp spec fn lossy_text(bytes: Seq<u8>) -> Seq<char>;

/// `String::from_utf8_lossy` turns bytes into text: valid UTF-8 is decoded,
/// and what is not valid is replaced in a way that depends on the bytes alone.
#[verifier::external_body]
fn from_utf8_lossy(bytes: &[u8]) -> (s: String)
    ensures
        s@ == lossy_text(bytes@),
        vstd::utf8::valid_utf8(bytes@) ==> s@ == vstd::utf8::decode_utf8(bytes@),
{
    String::from_utf8_lossy(bytes).into_owned()
}

/// The bytes in front of the first NUL.
pub open spec fn until_nul(buf: Seq<u8>) -> Seq<u8>
    decreases buf.len(),
{
    if buf.len() == 0 || buf[0] == 0 {
        seq![]
    } else {
        seq![buf[0]] + until_nul(buf.drop_first())
    }
}

proof fn lemma_until_nul(buf: Seq<u8>, k: int)
    requires
        0 <= k <= buf.len(),
        forall|i: int| 0 <= i < k ==> buf[i] != 0,
        k < buf.len() ==> buf[k] == 0,
    ensures
        until_nul(buf) == buf.take(k),
    decreases k,
{
    if k > 0 {
        lemma_until_nul(buf.drop_first(), k - 1);
        assert(buf.take(k) =~= seq![buf[0]] + buf.drop_first().take(k - 1));
    } else {
        assert(buf.take(0) =~= seq![]);
    }
}

/// The NUL-terminated verifier log in a buffer.
pub fn log_text(log_buf: &[u8]) -> (s: String)
    ensures
        s@ == lossy_text(until_nul(log_buf@)),
{
    let mut end: usize = 0;
    while end < log_buf.len() && log_buf[end] != 0
        invariant
            end <= log_buf@.len(),
            forall|i: int| 0 <= i < end ==> log_buf@[i] != 0,
        decreases log_buf@.len() - end,
    {
        end = end + 1;
    }
    proof {
        lemma_until_nul(log_buf@, end as int);
        assert(log_buf@.subrange(0, end as int) == log_buf@.take(end as int));
    }
    from_utf8_lossy(vstd::slice::slice_subrange(log_buf, 0, end))
}

/// A program that can be handed to the kernel: whole slots, at least one.
pub open spec fn loadable(insns: Seq<u8>) -> bool {
    insns.len() > 0 && insns.len() % 8 == 0
}

/// Whether a program can be handed to the kernel.
pub fn is_loadable(insns: &[u8]) -> (b: bool)
    ensures
        b == loadable(insns@),
{
    insns.len() > 0 && insns.len() % 8 == 0
}

/// What a reply of the system call with a log means.
pub open spec fn reply_means(reply: LoadReply, log: Seq<char>, outcome: KernelOutcome) -> bool {
    match reply {
        LoadReply::Loaded => outcome == KernelOutcome::Accept,
        LoadReply::Failed { errno } => if errno == EPERM {
            outcome == KernelOutcome::Privilege
        } else {
            match klog::log_error(log) {
                Some((idx, text)) => {
                    &&& outcome matches KernelOutcome::Reject { insn_idx, message, category }
                    &&& insn_idx == idx
                    &&& message@ == text
                    &&& category == klog::category_of_text(crate::text::trim(text))
                },
                None => outcome == (KernelOutcome::NoErrorLine { errno }),
            }
        },
    }
}

/// The outcome that a reply of the system call with a log means.
pub fn outcome_of_log(reply: LoadReply, log: &str) -> (outcome: KernelOutcome)
    ensures
        reply_means(reply, log@, outcome),
{
    match reply {
        LoadReply::Loaded => KernelOutcome::Accept,
        LoadReply::Failed { errno } => {
            if errno == EPERM {
                return KernelOutcome::Privilege;
            }
            match parse_verifier_log(log) {
                Some((insn_idx, message)) => {
                    let category: ReasonCategory = categorize_reason(&message);
                    KernelOutcome::Reject { insn_idx, message, category }
                },
                None => KernelOutcome::NoErrorLine { errno },
            }
        },
    }
}

/// The outcome of a load and its log, from the program, the reply of the
/// system call and the log buffer. A program that is not loadable has neither
/// reply nor log.
pub fn load_outcome(insns: &[u8], reply: LoadReply, log_buf: &[u8]) -> (r: (KernelOutcome, String))
    ensures
        if loadable(insns@) {
            &&& r.1@ == lossy_text(until_nul(log_buf@))
            &&& reply_means(reply, r.1@, r.0)
        } else {
            r.0 == KernelOutcome::InvalidProgram && r.1@ == Seq::<char>::empty()
        },
{
    if !is_loadable(insns) {
        return (KernelOutcome::InvalidProgram, String::new());
    }
    let log: String = log_text(log_buf);
    (outcome_of_log(reply, &log), log)
}

// ── Capabilities ────────────────────────────────────────────────────────────

/// The capability `cap` is set in the two words of a capability set.
pub open spec fn holds_cap(words: (u32, u32), cap: u32) -> bool {
    if cap < 32 { (words.0 >> cap) & 1 == 1 } else { (words.1 >> ((cap - 32) as u32)) & 1 == 1 }
}

/// The two words of the capability set that is kept: CAP_BPF and
/// CAP_NET_ADMIN and nothing else, so that the verifier applies its strict
/// rules while loads keep working. (CAP_SYS_ADMIN is a superset of every BPF
/// capability, so it has to go together with CAP_PERFMON.)
pub fn kept_caps() -> (words: (u32, u32))
    ensures
        words == (0x1000u32, 0x80u32),
        forall|cap: u32|
            cap < 64 ==> #[trigger] holds_cap(words, cap) == (cap == CAP_BPF || cap
                == CAP_NET_ADMIN),
{
    proof {
        assert forall|cap: u32| cap < 64 implies #[trigger] holds_cap((0x1000, 0x80), cap) == (cap
            == CAP_BPF || cap == CAP_NET_ADMIN) by {
            if cap < 32 {
                assert(((0x1000u32 >> cap) & 1 == 1) == (cap == 12)) by (bit_vector)
                    requires
                        cap < 32,
                ;
            } else {
                let c = (cap - 32) as u32;
                assert(((0x80u32 >> c) & 1 == 1) == (c == 7)) by (bit_vector)
                    requires
                        c < 32,
                ;
            }
        }
    }
    (0x1000, 0x80)
}

/// Whether the capability set that was read back is the one to be kept.
pub fn caps_dropped(effective: (u32, u32)) -> (ok: bool)
    ensures
        ok == (effective == (0x1000u32, 0x80u32)),
        ok ==> forall|cap: u32|
            cap < 64 ==> #[trigger] holds_cap(effective, cap) == (cap == CAP_BPF || cap
                == CAP_NET_ADMIN),
{
    let kept: (u32, u32) = kept_caps();
    effective.0 == kept.0 && effective.1 == kept.1
}

} // verus!
