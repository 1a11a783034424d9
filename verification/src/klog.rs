//! Reading of the kernel verifier's log.

use vstd::prelude::*;

use crate::text;
use crate::text::{
    begins_with, chars_of, contains_str, cut, find, parse_number, same_text, split, string_of, trimmed,
    trimmed_start, Separator,
};

verus! {

/// The normalized reason category of a verifier rejection, the kernel's or
/// the mini verifier's.
#[derive(Debug, Clone, Copy, PartialEq, Eq, PartialOrd, Ord, Structural)]
pub enum ReasonCategory {
    /// Reading a register or stack slot before it was initialized.
    UninitRead,
    /// Stack access outside the frame.
    StackBounds,
    /// Stack access that is not aligned.
    StackAlign,
    /// Pointer arithmetic, pointer leaks and invalid memory accesses.
    PointerArith,
    /// Helper call problems: unknown helper, wrong argument types.
    HelperArgs,
    /// CFG violations: jump targets, subprogram boundaries.
    CfgJump,
    /// Loop-related rejections.
    Loop,
    /// Unreachable instructions.
    Unreachable,
    /// Exit-time R0 problems.
    ExitR0,
    /// Exploration complexity limits.
    Complexity,
    /// Reference tracking problems.
    Ref,
    /// Anything else.
    Other,
}

/// The category of a trimmed message. The more specific patterns come first.
pub open spec fn category_of_text(m: Seq<char>) -> ReasonCategory {
    if text::has(m, "Unreleased reference"@)
        || text::has(m, "release of unacquired reference"@) {
        ReasonCategory::Ref
    } else if text::has(m, "misaligned"@) {
        ReasonCategory::StackAlign
    } else if text::has(m, "stack"@)
        && text::has(m, "off="@)
        && text::has(m, "invalid"@) {
        ReasonCategory::StackBounds
    } else if text::has(m, "!read_ok"@)
        || text::has(m, "invalid read from stack"@) {
        ReasonCategory::UninitRead
    } else if text::has(m, "unreachable insn"@) {
        ReasonCategory::Unreachable
    } else if text::has(m, "jump out of range"@)
        || text::has(m, "jump into the middle"@)
        || text::has(m, "indirect jump out of range"@)
        || text::has(m, "last insn is not an exit"@)
        || text::has(m, "call to invalid destination"@) {
        ReasonCategory::CfgJump
    } else if text::has(m, "back-edge"@)
        || text::has(m, "infinite loop detected"@) {
        ReasonCategory::Loop
    } else if text::has(m, "leaks addr as return"@)
        || text::has(m, "R0 "@)
        || text::has(m, "cannot return"@)
        || text::has(m, "not a scalar"@) {
        ReasonCategory::ExitR0
    } else if text::has(m, "pointer arithmetic"@)
        || text::has(m, "pointer comparison"@)
        || text::has(m, "invalid mem access"@)
        || text::has(m, "leaks addr"@)
        || text::has(m, "leaking pointer"@)
        || text::has(m, "subtraction from stack pointer"@)
        || text::has(m, "frame pointer is read only"@)
        || text::has(m, "unbounded min value"@)
        || text::has(m, "math between"@)
        || text::has(m, "out of bounds"@)
        || text::has(m, "pointer offset"@) {
        ReasonCategory::PointerArith
    } else if text::has(m, "variable stack access"@) {
        ReasonCategory::StackBounds
    } else if text::has(m, "invalid func"@)
        || text::has(m, "unknown func"@)
        || text::has(m, "helper"@)
        || text::has(m, "arg#"@)
        || text::has(m, "expected"@)
        || text::has(m, "Possibly NULL pointer"@) {
        ReasonCategory::HelperArgs
    } else if text::has(m, "too complex"@)
        || text::has(m, "BPF program is too large"@)
        || text::has(m, "iteration limit"@) {
        ReasonCategory::Complexity
    } else {
        ReasonCategory::Other
    }
}

/// Map a kernel verifier error message to its reason category.
pub fn categorize_reason(message: &str) -> (category: ReasonCategory)
    ensures
        category == category_of_text(text::trim(message@)),
{
    let m: Vec<char> = trimmed(&chars_of(message));
    if contains_str(&m, "Unreleased reference")
        || contains_str(&m, "release of unacquired reference") {
        ReasonCategory::Ref
    } else if contains_str(&m, "misaligned") {
        ReasonCategory::StackAlign
    } else if contains_str(&m, "stack")
        && contains_str(&m, "off=")
        && contains_str(&m, "invalid") {
        ReasonCategory::StackBounds
    } else if contains_str(&m, "!read_ok")
        || contains_str(&m, "invalid read from stack") {
        ReasonCategory::UninitRead
    } else if contains_str(&m, "unreachable insn") {
        ReasonCategory::Unreachable
    } else if contains_str(&m, "jump out of range")
        || contains_str(&m, "jump into the middle")
        || contains_str(&m, "indirect jump out of range")
        || contains_str(&m, "last insn is not an exit")
        || contains_str(&m, "call to invalid destination") {
        ReasonCategory::CfgJump
    } else if contains_str(&m, "back-edge")
        || contains_str(&m, "infinite loop detected") {
        ReasonCategory::Loop
    } else if contains_str(&m, "leaks addr as return")
        || contains_str(&m, "R0 ")
        || contains_str(&m, "cannot return")
        || contains_str(&m, "not a scalar") {
        ReasonCategory::ExitR0
    } else if contains_str(&m, "pointer arithmetic")
        || contains_str(&m, "pointer comparison")
        || contains_str(&m, "invalid mem access")
        || contains_str(&m, "leaks addr")
        || contains_str(&m, "leaking pointer")
        || contains_str(&m, "subtraction from stack pointer")
        || contains_str(&m, "frame pointer is read only")
        || contains_str(&m, "unbounded min value")
        || contains_str(&m, "math between")
        || contains_str(&m, "out of bounds")
        || contains_str(&m, "pointer offset") {
        ReasonCategory::PointerArith
    } else if contains_str(&m, "variable stack access") {
        ReasonCategory::StackBounds
    } else if contains_str(&m, "invalid func")
        || contains_str(&m, "unknown func")
        || contains_str(&m, "helper")
        || contains_str(&m, "arg#")
        || contains_str(&m, "expected")
        || contains_str(&m, "Possibly NULL pointer") {
        ReasonCategory::HelperArgs
    } else if contains_str(&m, "too complex")
        || contains_str(&m, "BPF program is too large")
        || contains_str(&m, "iteration limit") {
        ReasonCategory::Complexity
    } else {
        ReasonCategory::Other
    }
}

// ── The error in a log ──────────────────────────────────────────────────────

/// A line that every log ends with, or an empty one.
pub open spec fn is_summary(t: Seq<char>) -> bool {
    ||| t.len() == 0
    ||| text::begins(t, "processed "@)
    ||| text::begins(t, "verification time "@)
    ||| text::begins(t, "stack depth "@)
    ||| text::begins(t, "insns processed "@)
}

/// The number in front of the first colon, and what stands behind it.
pub open spec fn at_colon(t: Seq<char>) -> Option<(Seq<char>, Seq<char>)> {
    match text::find_from(t, seq![':'], 0) {
        Some(i) => Some((t.take(i), t.skip(i + 1))),
        None => None,
    }
}

/// The instruction index of a trace line `N: (op) ..`.
pub open spec fn trace_index(t: Seq<char>) -> Option<u32> {
    match at_colon(t) {
        Some((num, rest)) => if text::begins(text::trim_start(rest), seq!['(']) {
            text::number(num)
        } else {
            None
        },
        None => None,
    }
}

/// A line of the error block: neither summary, trace nor state transition.
pub open spec fn is_message(t: Seq<char>) -> bool {
    !is_summary(t) && trace_index(t) is None && !text::begins(t, "from "@)
}

/// How many lines there are up to the last trace, itself among them.
pub open spec fn behind_last_trace(lines: Seq<Seq<char>>) -> int
    decreases lines.len(),
{
    if lines.len() == 0 {
        0
    } else if trace_index(lines.last()) is Some {
        lines.len() as int
    } else {
        behind_last_trace(lines.drop_last())
    }
}

/// The lines of the error block among these, joined by spaces.
pub open spec fn joined_messages(lines: Seq<Seq<char>>) -> Seq<char>
    decreases lines.len(),
{
    if lines.len() == 0 {
        seq![]
    } else {
        let head = joined_messages(lines.drop_last());
        if !is_message(lines.last()) {
            head
        } else if head.len() == 0 {
            lines.last()
        } else {
            head.push(' ') + lines.last()
        }
    }
}

/// The words of a text: the pieces between white space that are not empty.
pub open spec fn words(pieces: Seq<Seq<char>>) -> Seq<Seq<char>>
    decreases pieces.len(),
{
    if pieces.len() == 0 {
        seq![]
    } else if pieces.last().len() == 0 {
        words(pieces.drop_last())
    } else {
        words(pieces.drop_last()).push(pieces.last())
    }
}

/// The text without the commas at its end.
pub open spec fn without_commas(s: Seq<char>) -> Seq<char>
    decreases s.len(),
{
    if s.len() > 0 && s.last() == ',' { without_commas(s.drop_last()) } else { s }
}

/// The number behind the first word "insn" that a word follows, from the
/// `k`-th word on; 0 where there is none.
pub open spec fn named_insn(list: Seq<Seq<char>>, k: int) -> u32
    decreases list.len() - k,
{
    if k < 0 || k + 1 >= list.len() {
        0
    } else if list[k] == "insn"@ {
        match text::number(without_commas(list[k + 1])) {
            Some(n) => n,
            None => 0,
        }
    } else {
        named_insn(list, k + 1)
    }
}

/// The lines of a log without the white space at their ends.
pub open spec fn log_lines(log: Seq<char>) -> Seq<Seq<char>> {
    text::pieces(log, Separator::LineFeed).map_values(|l: Seq<char>| text::trim(l))
}

/// The error in a log: everything between the last trace and the summary, or
/// the whole log where there is no trace. Its index is that of the trace, or
/// the one that the message names.
pub open spec fn log_error(log: Seq<char>) -> Option<(u32, Seq<char>)> {
    let lines = log_lines(log);
    let from = behind_last_trace(lines);
    let message = joined_messages(lines.skip(from));
    if message.len() == 0 {
        None
    } else if from > 0 {
        Some((trace_index(lines[from - 1])->0, message))
    } else {
        Some((named_insn(words(text::pieces(message, Separator::WhiteSpace)), 0), message))
    }
}

fn summary(t: &[char]) -> (b: bool)
    ensures
        b == is_summary(t@),
{
    t.len() == 0 || begins_with(t, "processed ") || begins_with(t, "verification time ")
        || begins_with(t, "stack depth ") || begins_with(t, "insns processed ")
}

fn trace(t: &[char]) -> (r: Option<u32>)
    ensures
        r == trace_index(t@),
{
    let colon: [char; 1] = [':'];
    proof {
        assert(colon@ =~= seq![':']);
    }
    match find(t, &colon, 0) {
        Some(i) => {
            assert(i < t.len());
            let rest: Vec<char> = trimmed_start(&cut(t, i + 1, t.len()));
            let num: Vec<char> = cut(t, 0, i);
            proof {
                assert(num@ =~= t@.take(i as int));
                assert(t@.subrange(i + 1, t@.len() as int) =~= t@.skip(i + 1));
                assert(text::begins(rest@, seq!['(']) == (rest@.len() > 0 && rest@[0] == '(')) by {
                    if rest@.len() > 0 {
                        assert(rest@.subrange(0, 1) =~= seq![rest@[0]]);
                        assert(seq![rest@[0]][0] == rest@[0] && seq!['('][0] == '(');
                    }
                }
            }
            if rest.len() > 0 && rest[0] == '(' {
                parse_number(&num)
            } else {
                None
            }
        },
        None => None,
    }
}

fn message_line(t: &[char]) -> (b: bool)
    ensures
        b == is_message(t@),
{
    !summary(t) && trace(t).is_none() && !begins_with(t, "from ")
}

/// The index of the instruction that a message names.
fn index_in(message: &[char]) -> (n: u32)
    ensures
        n == named_insn(words(text::pieces(message@, Separator::WhiteSpace)), 0),
{
    let parts: Vec<Vec<char>> = split(message, Separator::WhiteSpace);
    let mut list: Vec<Vec<char>> = Vec::new();
    let mut i: usize = 0;
    let ghost all = text::texts(parts@);
    proof {
        assert(all.take(0) == Seq::<Seq<char>>::empty());
        assert(text::texts(list@) =~= words(all.take(0)));
    }
    while i < parts.len()
        invariant
            i <= parts@.len(),
            all == text::texts(parts@),
            text::texts(list@) == words(all.take(i as int)),
        decreases parts@.len() - i,
    {
        let ghost before = text::texts(list@);
        proof {
            assert(all.take(i + 1).drop_last() == all.take(i as int));
            assert(all.take(i + 1).last() == parts@[i as int]@);
        }
        if parts[i].len() > 0 {
            let word: Vec<char> = cut(&parts[i], 0, parts[i].len());
            proof {
                assert(word@ =~= parts@[i as int]@);
            }
            list.push(word);
            proof {
                assert(text::texts(list@) =~= before.push(parts@[i as int]@));
            }
        }
        i = i + 1;
    }
    proof {
        assert(all.take(i as int) == all);
    }
    let ghost found = text::texts(list@);
    let insn: Vec<char> = chars_of("insn");
    let mut k: usize = 0;
    let count: usize = list.len();
    while k < count && k < count - 1
        invariant
            count == list@.len(),
            k <= count,
            insn@ == "insn"@,
            found == text::texts(list@),
            found == words(text::pieces(message@, Separator::WhiteSpace)),
            named_insn(found, k as int) == named_insn(found, 0),
        decreases list@.len() - k,
    {
        assert(found[k as int] == list@[k as int]@);
        if same_text(&list[k], &insn) {
            let mut word: Vec<char> = cut(&list[k + 1], 0, list[k + 1].len());
            proof {
                assert(word@ =~= found[k + 1]);
            }
            while word.len() > 0 && word[word.len() - 1] == ','
                invariant
                    without_commas(word@) == without_commas(found[k + 1]),
                decreases word@.len(),
            {
                let ghost before = word@;
                word.pop();
                assert(word@ == before.drop_last());
            }
            return match parse_number(&word) {
                Some(n) => n,
                None => 0,
            };
        }
        k = k + 1;
    }
    0
}

/// Extract the error `(insn_idx, message)` from a kernel verifier log, `None`
/// when it holds no error.
///
/// At `log_level = 1` a log is a list of instruction traces `N: (op) ..`, the
/// error behind the instruction that caused it, and a summary. The error can
/// span several lines. State transitions `from X to Y: ..` are left out.
/// CFG-stage errors come before any trace; they name the instruction in the
/// message.
pub fn parse_verifier_log(log: &str) -> (r: Option<(u32, String)>)
    ensures
        match r {
            Some((idx, message)) => log_error(log@) == Some((idx, message@)),
            None => log_error(log@) is None,
        },
{
    let raw: Vec<Vec<char>> = split(&chars_of(log), Separator::LineFeed);
    let ghost lines = log_lines(log@);
    let mut clean: Vec<Vec<char>> = Vec::new();
    let mut i: usize = 0;
    while i < raw.len()
        invariant
            i <= raw@.len() == lines.len(),
            text::texts(raw@) == text::pieces(log@, Separator::LineFeed),
            lines == log_lines(log@),
            clean@.len() == i,
            forall|k: int| 0 <= k < i ==> (#[trigger] clean@[k])@ == lines[k],
        decreases raw@.len() - i,
    {
        let line: Vec<char> = trimmed(&raw[i]);
        assert(text::texts(raw@)[i as int] == raw@[i as int]@);
        clean.push(line);
        i = i + 1;
    }
    // the lines up to the last trace
    let mut from: usize = clean.len();
    let mut traced: Option<u32> = None;
    proof {
        assert(lines.take(from as int) == lines);
    }
    while from > 0 && traced.is_none()
        invariant
            from <= clean@.len() == lines.len(),
            forall|k: int| 0 <= k < clean@.len() ==> (#[trigger] clean@[k])@ == lines[k],
            traced is None ==> behind_last_trace(lines.take(from as int)) == behind_last_trace(
                lines,
            ),
            traced is Some ==> from > 0 && behind_last_trace(lines) == from && trace_index(
                lines[from - 1],
            ) == traced,
        decreases from, (if traced is None { 1int } else { 0 }),
    {
        let t: Option<u32> = trace(&clean[from - 1]);
        proof {
            assert(lines.take(from as int).last() == lines[from - 1]);
            assert(lines.take(from as int).drop_last() == lines.take(from - 1));
        }
        if t.is_some() {
            traced = t;
        } else {
            from = from - 1;
        }
    }
    let mut message: Vec<char> = Vec::new();
    let mut k: usize = from;
    let ghost tail = lines.skip(from as int);
    proof {
        assert(tail.take(0) == Seq::<Seq<char>>::empty());
    }
    while k < clean.len()
        invariant
            from <= k <= clean@.len() == lines.len(),
            forall|j: int| 0 <= j < clean@.len() ==> (#[trigger] clean@[j])@ == lines[j],
            tail == lines.skip(from as int),
            message@ == joined_messages(tail.take(k - from)),
        decreases clean@.len() - k,
    {
        proof {
            assert(tail.take(k - from + 1).drop_last() == tail.take(k - from));
            assert(tail.take(k - from + 1).last() == lines[k as int]);
        }
        if message_line(&clean[k]) {
            let ghost before = message@;
            if message.len() > 0 {
                message.push(' ');
            }
            let ghost start = message@;
            let mut j: usize = 0;
            let line: &Vec<char> = &clean[k];
            proof {
                assert(start + line@.take(0) == start);
            }
            while j < line.len()
                invariant
                    j <= line@.len(),
                    message@ == start + line@.take(j as int),
                decreases line@.len() - j,
            {
                message.push(line[j]);
                assert(line@.take(j + 1) == line@.take(j as int).push(line@[j as int]));
                j = j + 1;
            }
            proof {
                assert(line@.take(j as int) == line@);
                assert(Seq::<char>::empty() + line@ == line@);
            }
        }
        k = k + 1;
    }
    proof {
        assert(tail.take(k - from) == tail);
    }
    if message.len() == 0 {
        return None;
    }
    match traced {
        Some(idx) => Some((idx, string_of(&message))),
        None => {
            let idx: u32 = index_in(&message);
            Some((idx, string_of(&message)))
        },
    }
}

} // verus!
