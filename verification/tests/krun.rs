use rand_verifier::klog::ReasonCategory;
use rand_verifier::krun::{
    caps_dropped, is_loadable, kept_caps, load_outcome, log_text, outcome_of_log, KernelOutcome,
    LoadReply, EPERM,
};

// r0 = 0; exit
const MINIMAL_EXIT: [u8; 16] = [
    0xb7, 0x00, 0x00, 0x00, 0x00, 0x00, 0x00, 0x00, // r0 = 0
    0x95, 0x00, 0x00, 0x00, 0x00, 0x00, 0x00, 0x00, // exit
];

// call unknown#99; exit: every kernel rejects this
const UNKNOWN_HELPER: [u8; 16] = [
    0x85, 0x00, 0x00, 0x00, 0x63, 0x00, 0x00, 0x00, // call 99
    0x95, 0x00, 0x00, 0x00, 0x00, 0x00, 0x00, 0x00, // exit
];

/// A log buffer of the kernel: the text, then NULs.
fn log_buf(text: &str) -> Vec<u8> {
    let mut buf = text.as_bytes().to_vec();
    buf.resize(4096, 0);
    buf
}

#[test]
fn kernel_load_accept_smoke() {
    let log = log_buf("processed 2 insns (limit 1000000)\n");
    match load_outcome(&MINIMAL_EXIT, LoadReply::Loaded, &log).0 {
        KernelOutcome::Accept => {}
        other => panic!("expected accept, got {:?}", other),
    }
    match load_outcome(&MINIMAL_EXIT, LoadReply::Failed { errno: EPERM }, &log_buf("")).0 {
        KernelOutcome::Privilege => {}
        other => panic!("expected privilege, got {:?}", other),
    }
}

#[test]
fn kernel_load_reject_smoke() {
    let log = log_buf("0: (85) call unknown#99\ninvalid func unknown#99\nprocessed 1 insns\n");
    match load_outcome(&UNKNOWN_HELPER, LoadReply::Failed { errno: 22 }, &log).0 {
        KernelOutcome::Reject { insn_idx, category, .. } => {
            assert_eq!(insn_idx, 0);
            assert_eq!(category, ReasonCategory::HelperArgs);
        }
        other => panic!("expected reject, got {:?}", other),
    }
}

#[test]
fn kernel_load_invalid_program() {
    let log = log_buf("");
    assert_eq!(
        load_outcome(&[], LoadReply::Failed { errno: 22 }, &log).0,
        KernelOutcome::InvalidProgram
    );
    assert_eq!(
        load_outcome(&[0u8, 1u8], LoadReply::Failed { errno: 22 }, &log).0,
        KernelOutcome::InvalidProgram
    );
    assert!(is_loadable(&MINIMAL_EXIT));
}

#[test]
fn kernel_log_ends_at_the_first_nul() {
    assert_eq!(log_text(b"R1 !read_ok\0junk"), "R1 !read_ok");
    // bytes that are no text are replaced
    assert_eq!(log_text(&[0x41, 0xff, 0x42]), "A\u{fffd}B");
    assert_eq!(log_text(&[0, 0, 0]), "");
}

#[test]
fn kernel_reply_decides_the_outcome() {
    assert_eq!(outcome_of_log(LoadReply::Loaded, ""), KernelOutcome::Accept);
    match outcome_of_log(LoadReply::Failed { errno: 22 }, "R2 !read_ok\n") {
        KernelOutcome::Reject { message, category, .. } => {
            assert_eq!(message, "R2 !read_ok");
            assert_eq!(category, ReasonCategory::UninitRead);
        }
        other => panic!("expected reject, got {:?}", other),
    }
}

#[test]
fn kept_capabilities_are_two() {
    assert_eq!(kept_caps(), (0x1000, 0x80));
    assert!(caps_dropped((0x1000, 0x80)));
    assert!(!caps_dropped((0x1000, 0x180)));
    assert!(!caps_dropped((0, 0x80)));
}
