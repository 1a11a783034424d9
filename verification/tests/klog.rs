use rand_verifier::klog::{categorize_reason, parse_verifier_log, ReasonCategory};


// Sample logs modeled on the kernel's actual output formats
// (verifier.c / cfg.c / syscall.c message strings).

#[test]
fn categorize_unknown_helper() {
    assert_eq!(
        categorize_reason("invalid func unknown#99"),
        ReasonCategory::HelperArgs
    );
    assert_eq!(
        categorize_reason("program of this type cannot use helper bpf_get_prandom_u32#7"),
        ReasonCategory::HelperArgs
    );
}

#[test]
fn categorize_uninit_read() {
    assert_eq!(categorize_reason("R2 !read_ok"), ReasonCategory::UninitRead);
    assert_eq!(
        categorize_reason("invalid read from stack off -8+0 size 8"),
        ReasonCategory::UninitRead
    );
}

#[test]
fn categorize_stack() {
    assert_eq!(
        categorize_reason("invalid stack off=-520 size=8"),
        ReasonCategory::StackBounds
    );
    assert_eq!(
        categorize_reason("invalid write to stack R10 off=-520 size=8"),
        ReasonCategory::StackBounds
    );
    assert_eq!(
        categorize_reason("invalid read from stack R10 off=8 size=8"),
        ReasonCategory::StackBounds
    );
    assert_eq!(
        categorize_reason("misaligned stack access off 0+-4 size 8"),
        ReasonCategory::StackAlign
    );
    // the uninitialized-slot form carries the offset as "off -8+0"
    // (no '='): bounds are fine, the slot was never written
    assert_eq!(
        categorize_reason("invalid read from stack R10 off -8+0 size 8"),
        ReasonCategory::UninitRead
    );
}

#[test]
fn categorize_pointer() {
    assert_eq!(
        categorize_reason("R1 pointer arithmetic on ctx prohibited"),
        ReasonCategory::PointerArith
    );
    assert_eq!(
        categorize_reason("R1 stack pointer arithmetic goes out of range, prohibited for null"),
        ReasonCategory::PointerArith
    );
    assert_eq!(
        categorize_reason("R2 invalid mem access 'map_value'"),
        ReasonCategory::PointerArith
    );
    assert_eq!(
        categorize_reason("leaking pointer from stack off -8"),
        ReasonCategory::PointerArith
    );
}

#[test]
fn categorize_helper_args() {
    assert_eq!(
        categorize_reason("R1 type=ctx expected=map_ptr"),
        ReasonCategory::HelperArgs
    );
    assert_eq!(
        categorize_reason("arg#0 expected pointer to map, got ctx"),
        ReasonCategory::HelperArgs
    );
}

#[test]
fn categorize_cfg_and_unreachable() {
    assert_eq!(
        categorize_reason("jump out of range from insn 1 to 101"),
        ReasonCategory::CfgJump
    );
    assert_eq!(
        categorize_reason("last insn is not an exit or jmp"),
        ReasonCategory::CfgJump
    );
    assert_eq!(
        categorize_reason("unreachable insn 2"),
        ReasonCategory::Unreachable
    );
}

#[test]
fn categorize_loop_and_complexity() {
    assert_eq!(
        categorize_reason("back-edge from insn 1 to 0"),
        ReasonCategory::Loop
    );
    assert_eq!(
        categorize_reason(
            "infinite loop detected at insn 0 cur state: R10=fp0 old state: R10=fp0"
        ),
        ReasonCategory::Loop
    );
    assert_eq!(
        categorize_reason("The sequence of 2049 jumps is too complex."),
        ReasonCategory::Complexity
    );
    assert_eq!(
        categorize_reason("BPF program is too large. Processed 1000001 insn"),
        ReasonCategory::Complexity
    );
}

#[test]
fn categorize_privileged_messages() {
    // messages observed on privileged loads (bpf-next, 2026-08)
    assert_eq!(
        categorize_reason("frame pointer is read only"),
        ReasonCategory::PointerArith
    );
    assert_eq!(
        categorize_reason(
            "math between fp pointer and register with unbounded min value is not allowed"
        ),
        ReasonCategory::PointerArith
    );
    assert_eq!(
        categorize_reason("math between fp pointer and 2147483647 is not allowed"),
        ReasonCategory::PointerArith
    );
    assert_eq!(
        categorize_reason("value -9223372035854775808 makes fp pointer be out of bounds"),
        ReasonCategory::PointerArith
    );
    assert_eq!(
        categorize_reason("fp pointer offset 2147483648 is not allowed"),
        ReasonCategory::PointerArith
    );
    assert_eq!(
        categorize_reason("R1 32-bit pointer arithmetic prohibited"),
        ReasonCategory::PointerArith
    );
}

#[test]
fn categorize_exit_r0() {
    assert_eq!(
        categorize_reason("R0 not a scalar value"),
        ReasonCategory::ExitR0
    );
    assert_eq!(
        categorize_reason("cannot return stack pointer to the caller"),
        ReasonCategory::ExitR0
    );
    assert_eq!(
        categorize_reason("R0 leaks addr as return value"),
        ReasonCategory::ExitR0
    );
    // leaks into memory are pointer problems, not exit problems
    assert_eq!(
        categorize_reason("R3 leaks addr into mem"),
        ReasonCategory::PointerArith
    );
}

#[test]
fn parse_accept_log_returns_none() {
    // an accepted program's log ends with the summary line only
    let log = "\
0: (b7) r0 = 1
1: (95) exit
processed 2 insns (limit 1000000) max_states_per_insn 0 total_states 0 peak_states 0 mark_read 0
";
    assert_eq!(parse_verifier_log(log), None);
}

#[test]
fn parse_reject_log_unknown_helper() {
    let log = "\
0: (85) call unknown#99
invalid func unknown#99
processed 1 insns (limit 1000000) max_states_per_insn 0 total_states 0 peak_states 0 mark_read 0
";
    let (insn_idx, message) = parse_verifier_log(log).expect("error line");
    assert_eq!(insn_idx, 0);
    assert_eq!(message, "invalid func unknown#99");
}

#[test]
fn parse_reject_log_uninit() {
    let log = "\
0: (b7) r0 = 1
1: (bf) r2 = r0
2: (95) exit
R2 !read_ok
processed 3 insns (limit 1000000) max_states_per_insn 0 total_states 0 peak_states 0 mark_read 0
";
    let (insn_idx, message) = parse_verifier_log(log).expect("error line");
    assert_eq!(insn_idx, 2);
    assert_eq!(message, "R2 !read_ok");
    assert_eq!(categorize_reason(&message), ReasonCategory::UninitRead);
}

#[test]
fn parse_reject_log_unreachable() {
    // the error mentions its own insn index; the trace scan finds
    // the last traced insn, which is the same one here
    let log = "\
0: (b7) r0 = 1
1: (05) goto pc+0
2: (95) exit
unreachable insn 2
processed 3 insns (limit 1000000) max_states_per_insn 0 total_states 0 peak_states 0 mark_read 0
";
    let (insn_idx, message) = parse_verifier_log(log).expect("error line");
    assert_eq!(insn_idx, 2);
    assert_eq!(message, "unreachable insn 2");
}

#[test]
fn parse_reject_log_with_state_dumps() {
    // log_level 2 adds "N: R..." register dumps and "from X to Y:"
    // state transitions before the failing trace — the error block
    // is still identified by the last trace line
    let log = "\
0: R1=ctx() R10=fp0
0: (b7) r0 = 1
1: R0=scalar() R10=fp0
from 1 to 2: R0=scalar() R10=fp0
1: (79) r0 = *(u64 *)(r10 -8)
invalid read from stack off -8+0 size 8
processed 2 insns (limit 1000000) max_states_per_insn 0 total_states 0 peak_states 0 mark_read 1
";
    let (insn_idx, message) = parse_verifier_log(log).expect("error line");
    assert_eq!(insn_idx, 1);
    assert_eq!(message, "invalid read from stack off -8+0 size 8");
}

#[test]
fn parse_reject_log_multiline_error() {
    // the helper-argument message is printed in two parts:
    // "R1 type=ctx expected=" + "map_ptr"
    let log = "\
0: (85) call map_lookup_elem#1
R1 type=ctx expected=
map_ptr
processed 1 insns (limit 1000000) max_states_per_insn 0 total_states 0 peak_states 0 mark_read 0
";
    let (insn_idx, message) = parse_verifier_log(log).expect("error block");
    assert_eq!(insn_idx, 0);
    assert!(message.contains("R1 type=ctx expected="), "{}", message);
    assert!(message.contains("map_ptr"), "{}", message);
    assert_eq!(categorize_reason(&message), ReasonCategory::HelperArgs);
}

#[test]
fn parse_cfg_stage_error_without_traces() {
    // CFG-stage errors are detected before any instruction is
    // traced — the log has no "N: (op) ..." lines at all
    let log = "\
unreachable insn 2
processed 3 insns (limit 1000000) max_states_per_insn 0 total_states 0 peak_states 0 mark_read 0
";
    let (insn_idx, message) = parse_verifier_log(log).expect("error");
    assert_eq!(insn_idx, 2);
    assert_eq!(message, "unreachable insn 2");

    let log = "\
jump out of range from insn 1 to 101
processed 2 insns (limit 1000000) max_states_per_insn 0 total_states 0 peak_states 0 mark_read 0
";
    let (insn_idx, message) = parse_verifier_log(log).expect("error");
    assert_eq!(insn_idx, 1);
    assert_eq!(categorize_reason(&message), ReasonCategory::CfgJump);

    let log = "\
last insn is not an exit or jmp
processed 1 insns (limit 1000000) max_states_per_insn 0 total_states 0 peak_states 0 mark_read 0
";
    let (_, message) = parse_verifier_log(log).expect("error");
    assert_eq!(categorize_reason(&message), ReasonCategory::CfgJump);
}

#[test]
fn parse_empty_log_returns_none() {
    assert_eq!(parse_verifier_log(""), None);
    assert_eq!(
        parse_verifier_log("processed 1 insns (limit 1000000)"),
        None
    );
}
