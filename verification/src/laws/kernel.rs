//! The kernel's word: what a message is about, which error a log holds, and what
//! the guest's agent answers.

use vstd::prelude::*;

use crate::diff::SideVerdict;
use crate::fuzz::qemu;
use crate::klog;
use crate::klog::ReasonCategory;
use crate::krun;
use crate::krun::{KernelOutcome, LoadReply};
use crate::laws::texts;
use crate::laws::texts::{blank, tight, whole};
use crate::text;
use crate::text::Separator;

verus! {

// ── What a message is about ─────────────────────────────────────────────────

/// The phrase stands somewhere in the message.
pub open spec fn tells(m: Seq<char>, phrase: Seq<char>) -> bool {
    exists|a: Seq<char>, b: Seq<char>| m == #[trigger] (a + phrase + b)
}

/// The message speaks of the subject, by one of its phrases. The subjects are
/// numbered from the most specific on.
pub open spec fn speaks_of(m: Seq<char>, subject: int) -> bool {
    if subject == 0 {
        {
            ||| tells(m, "Unreleased reference"@)
            ||| tells(m, "release of unacquired reference"@)
        }
    } else if subject == 1 {
        tells(m, "misaligned"@)
    } else if subject == 2 {
        tells(m, "stack"@) && tells(m, "off="@) && tells(m, "invalid"@)
    } else if subject == 3 {
        {
            ||| tells(m, "!read_ok"@)
            ||| tells(m, "invalid read from stack"@)
        }
    } else if subject == 4 {
        tells(m, "unreachable insn"@)
    } else if subject == 5 {
        {
            ||| tells(m, "jump out of range"@)
            ||| tells(m, "jump into the middle"@)
            ||| tells(m, "indirect jump out of range"@)
            ||| tells(m, "last insn is not an exit"@)
            ||| tells(m, "call to invalid destination"@)
        }
    } else if subject == 6 {
        {
            ||| tells(m, "back-edge"@)
            ||| tells(m, "infinite loop detected"@)
        }
    } else if subject == 7 {
        {
            ||| tells(m, "leaks addr as return"@)
            ||| tells(m, "R0 "@)
            ||| tells(m, "cannot return"@)
            ||| tells(m, "not a scalar"@)
        }
    } else if subject == 8 {
        {
            ||| tells(m, "pointer arithmetic"@)
            ||| tells(m, "pointer comparison"@)
            ||| tells(m, "invalid mem access"@)
            ||| tells(m, "leaks addr"@)
            ||| tells(m, "leaking pointer"@)
            ||| tells(m, "subtraction from stack pointer"@)
            ||| tells(m, "frame pointer is read only"@)
            ||| tells(m, "unbounded min value"@)
            ||| tells(m, "math between"@)
            ||| tells(m, "out of bounds"@)
            ||| tells(m, "pointer offset"@)
        }
    } else if subject == 9 {
        tells(m, "variable stack access"@)
    } else if subject == 10 {
        {
            ||| tells(m, "invalid func"@)
            ||| tells(m, "unknown func"@)
            ||| tells(m, "helper"@)
            ||| tells(m, "arg#"@)
            ||| tells(m, "expected"@)
            ||| tells(m, "Possibly NULL pointer"@)
        }
    } else if subject == 11 {
        {
            ||| tells(m, "too complex"@)
            ||| tells(m, "BPF program is too large"@)
            ||| tells(m, "iteration limit"@)
        }
    } else {
        false
    }
}

/// The category of a subject.
pub open spec fn category_of_subject(subject: int) -> ReasonCategory {
    if subject == 0 {
        ReasonCategory::Ref
    } else if subject == 1 {
        ReasonCategory::StackAlign
    } else if subject == 2 {
        ReasonCategory::StackBounds
    } else if subject == 3 {
        ReasonCategory::UninitRead
    } else if subject == 4 {
        ReasonCategory::Unreachable
    } else if subject == 5 {
        ReasonCategory::CfgJump
    } else if subject == 6 {
        ReasonCategory::Loop
    } else if subject == 7 {
        ReasonCategory::ExitR0
    } else if subject == 8 {
        ReasonCategory::PointerArith
    } else if subject == 9 {
        ReasonCategory::StackBounds
    } else if subject == 10 {
        ReasonCategory::HelperArgs
    } else if subject == 11 {
        ReasonCategory::Complexity
    } else {
        ReasonCategory::Other
    }
}

/// A message has the category of the most specific subject that it speaks of; it
/// has no special one exactly where it speaks of none. White space around it
/// changes nothing.
#[verifier::rlimit(60)]
#[verifier::spinoff_prover]
pub proof fn most_specific_subject_decides(a: Seq<char>, m: Seq<char>, b: Seq<char>, subject: int)
    requires
        blank(a),
        blank(b),
        tight(m),
        forall|k: int| 0 <= k < subject ==> !#[trigger] speaks_of(m, k),
        0 <= subject < 12 && speaks_of(m, subject) || subject >= 12,
    ensures
        klog::category_of_text(text::trim(a + m + b)) == category_of_subject(subject),
{
    texts::trimming_takes_the_blank_ends(a, m, b);
    texts::holding_is_standing_between(m, "Unreleased reference"@);
    texts::holding_is_standing_between(m, "release of unacquired reference"@);
    texts::holding_is_standing_between(m, "misaligned"@);
    texts::holding_is_standing_between(m, "stack"@);
    texts::holding_is_standing_between(m, "off="@);
    texts::holding_is_standing_between(m, "invalid"@);
    texts::holding_is_standing_between(m, "!read_ok"@);
    texts::holding_is_standing_between(m, "invalid read from stack"@);
    texts::holding_is_standing_between(m, "unreachable insn"@);
    texts::holding_is_standing_between(m, "jump out of range"@);
    texts::holding_is_standing_between(m, "jump into the middle"@);
    texts::holding_is_standing_between(m, "indirect jump out of range"@);
    texts::holding_is_standing_between(m, "last insn is not an exit"@);
    texts::holding_is_standing_between(m, "call to invalid destination"@);
    texts::holding_is_standing_between(m, "back-edge"@);
    texts::holding_is_standing_between(m, "infinite loop detected"@);
    texts::holding_is_standing_between(m, "leaks addr as return"@);
    texts::holding_is_standing_between(m, "R0 "@);
    texts::holding_is_standing_between(m, "cannot return"@);
    texts::holding_is_standing_between(m, "not a scalar"@);
    texts::holding_is_standing_between(m, "pointer arithmetic"@);
    texts::holding_is_standing_between(m, "pointer comparison"@);
    texts::holding_is_standing_between(m, "invalid mem access"@);
    texts::holding_is_standing_between(m, "leaks addr"@);
    texts::holding_is_standing_between(m, "leaking pointer"@);
    texts::holding_is_standing_between(m, "subtraction from stack pointer"@);
    texts::holding_is_standing_between(m, "frame pointer is read only"@);
    texts::holding_is_standing_between(m, "unbounded min value"@);
    texts::holding_is_standing_between(m, "math between"@);
    texts::holding_is_standing_between(m, "out of bounds"@);
    texts::holding_is_standing_between(m, "pointer offset"@);
    texts::holding_is_standing_between(m, "variable stack access"@);
    texts::holding_is_standing_between(m, "invalid func"@);
    texts::holding_is_standing_between(m, "unknown func"@);
    texts::holding_is_standing_between(m, "helper"@);
    texts::holding_is_standing_between(m, "arg#"@);
    texts::holding_is_standing_between(m, "expected"@);
    texts::holding_is_standing_between(m, "Possibly NULL pointer"@);
    texts::holding_is_standing_between(m, "too complex"@);
    texts::holding_is_standing_between(m, "BPF program is too large"@);
    texts::holding_is_standing_between(m, "iteration limit"@);
    assert(0 < subject ==> !speaks_of(m, 0));
    assert(1 < subject ==> !speaks_of(m, 1));
    assert(2 < subject ==> !speaks_of(m, 2));
    assert(3 < subject ==> !speaks_of(m, 3));
    assert(4 < subject ==> !speaks_of(m, 4));
    assert(5 < subject ==> !speaks_of(m, 5));
    assert(6 < subject ==> !speaks_of(m, 6));
    assert(7 < subject ==> !speaks_of(m, 7));
    assert(8 < subject ==> !speaks_of(m, 8));
    assert(9 < subject ==> !speaks_of(m, 9));
    assert(10 < subject ==> !speaks_of(m, 10));
    assert(11 < subject ==> !speaks_of(m, 11));
}

// ── The error in a log ──────────────────────────────────────────────────────

/// One line behind a log.
pub open spec fn with_line(log: Seq<char>, line: Seq<char>) -> Seq<char> {
    log.push('\n') + line
}

/// A line on its own: no line feed in it, and no white space at its ends.
pub open spec fn is_line(line: Seq<char>) -> bool {
    whole(line, Separator::LineFeed) && tight(line)
}

/// The line begins with the words.
pub open spec fn opens_with(line: Seq<char>, words: Seq<char>) -> bool {
    exists|rest: Seq<char>| line == #[trigger] (words + rest)
}

/// The line is one of the counts that close a log, or empty.
pub open spec fn closes_log(line: Seq<char>) -> bool {
    ||| line.len() == 0
    ||| opens_with(line, "processed "@)
    ||| opens_with(line, "verification time "@)
    ||| opens_with(line, "stack depth "@)
    ||| opens_with(line, "insns processed "@)
}

/// The line traces the instruction `n`: its index, a colon and the opcode in
/// brackets.
pub open spec fn traces(line: Seq<char>, n: u32) -> bool {
    exists|num: Seq<char>, gap: Seq<char>, rest: Seq<char>|
        line == #[trigger] (num.push(':') + gap + seq!['('] + rest) && blank(gap)
            && text::number(num) == Some(n)
}

/// No line of the log traces an instruction.
pub open spec fn untraced(log: Seq<char>) -> bool {
    klog::behind_last_trace(klog::log_lines(log)) == 0
}

proof fn lemma_line(log: Seq<char>, line: Seq<char>)
    requires
        is_line(line),
    ensures
        klog::log_lines(with_line(log, line)) == klog::log_lines(log).push(line),
        text::trim(line) == line,
{
    texts::a_separator_makes_a_piece(log, '\n', line, Separator::LineFeed);
    texts::trimming_takes_the_blank_ends(seq![], line, seq![]);
    assert(seq![] + line + seq![] =~= line);
    assert(klog::log_lines(with_line(log, line)) =~= klog::log_lines(log).push(line));
}

proof fn lemma_digits_hold_no_colon(num: Seq<char>)
    requires
        text::number(num) is Some,
    ensures
        forall|i: int| 0 <= i < num.len() ==> #[trigger] num[i] != ':',
{
    let d = text::unsigned_digits(num);
    assert forall|i: int| 0 <= i < num.len() implies #[trigger] num[i] != ':' by {
        if num.len() > 1 && num[0] == '+' {
            if i > 0 {
                assert(text::is_digit(d[i - 1]));
            }
        } else {
            assert(text::is_digit(d[i]));
        }
    }
}

pub proof fn lemma_find_first(t: Seq<char>, c: char, i: int, from: int)
    requires
        0 <= from <= i < t.len(),
        t[i] == c,
        forall|k: int| from <= k < i ==> #[trigger] t[k] != c,
    ensures
        text::find_from(t, seq![c], from) == Some(i),
    decreases i - from,
{
    assert(t.subrange(i, i + 1) =~= seq![c]);
    if from < i {
        assert(t.subrange(from, from + 1)[0] == t[from]);
        assert(seq![c][0] == c);
        lemma_find_first(t, c, i, from + 1);
    }
}

proof fn lemma_trace(line: Seq<char>, n: u32)
    requires
        traces(line, n),
    ensures
        klog::trace_index(line) == Some(n),
{
    let (num, gap, rest) = choose|num: Seq<char>, gap: Seq<char>, rest: Seq<char>|
        line == #[trigger] (num.push(':') + gap + seq!['('] + rest) && blank(gap)
            && text::number(num) == Some(n);
    lemma_digits_hold_no_colon(num);
    let i = num.len() as int;
    assert forall|k: int| 0 <= k < i implies #[trigger] line[k] != ':' by {
        assert(line[k] == num[k]);
    }
    lemma_find_first(line, ':', i, 0);
    assert(line.take(i) =~= num);
    let tail = seq!['('] + rest;
    assert(line.skip(i + 1) =~= gap + tail);
    assert(gap + tail + seq![] =~= gap + tail);
    assert(tail[0] == '(');
    texts::lemma_trim_start(gap, tail);
    assert(tail.subrange(0, 1) =~= seq!['(']);
}

proof fn lemma_leading_blanks(s: Seq<char>) -> (gap: Seq<char>)
    ensures
        blank(gap),
        s == gap + text::trim_start(s),
    decreases s.len(),
{
    if s.len() > 0 && text::is_space(s[0]) {
        let g = lemma_leading_blanks(s.drop_first());
        let gap = seq![s[0]] + g;
        assert forall|i: int| 0 <= i < gap.len() implies #[trigger] text::is_space(gap[i]) by {
            if i > 0 {
                assert(text::is_space(g[i - 1]));
            }
        }
        assert(s =~= seq![s[0]] + s.drop_first());
        assert(s =~= gap + text::trim_start(s));
        gap
    } else {
        assert(s =~= seq![] + s);
        seq![]
    }
}

proof fn lemma_found(t: Seq<char>, c: char, from: int)
    requires
        0 <= from,
        text::find_from(t, seq![c], from) is Some,
    ensures
        0 <= text::find_from(t, seq![c], from)->0 < t.len(),
        t[text::find_from(t, seq![c], from)->0] == c,
    decreases t.len() - from,
{
    if text::occurs_at(t, seq![c], from) {
        assert(t.subrange(from, from + 1)[0] == t[from]);
        assert(seq![c][0] == c);
    } else {
        lemma_found(t, c, from + 1);
    }
}

/// A line is a trace exactly where it has the form of one.
pub proof fn traces_by_form(line: Seq<char>, n: u32)
    ensures
        klog::trace_index(line) == Some(n) <==> traces(line, n),
{
    if klog::trace_index(line) == Some(n) {
        lemma_found(line, ':', 0);
        let i = text::find_from(line, seq![':'], 0)->0;
        let num = line.take(i);
        let behind = line.skip(i + 1);
        let gap = lemma_leading_blanks(behind);
        let t = text::trim_start(behind);
        assert(t.subrange(0, 1)[0] == t[0]);
        assert(seq!['('][0] == '(');
        let rest = t.skip(1);
        assert(t =~= seq!['('] + rest);
        assert(line =~= num.push(':') + behind);
        assert(line =~= num.push(':') + gap + seq!['('] + rest);
    }
    if traces(line, n) {
        lemma_trace(line, n);
    }
}

proof fn lemma_closing(line: Seq<char>)
    ensures
        klog::is_summary(line) == closes_log(line),
{
    texts::beginning_is_standing_first(line, "processed "@);
    texts::beginning_is_standing_first(line, "verification time "@);
    texts::beginning_is_standing_first(line, "stack depth "@);
    texts::beginning_is_standing_first(line, "insns processed "@);
}

/// A traced instruction opens a new block: what stood before it is no error.
pub proof fn a_trace_clears_the_error(log: Seq<char>, line: Seq<char>, n: u32)
    requires
        is_line(line),
        traces(line, n),
    ensures
        klog::log_error(with_line(log, line)) is None,
        !untraced(with_line(log, line)),
{
    lemma_line(log, line);
    lemma_trace(line, n);
    let lines = klog::log_lines(with_line(log, line));
    assert(lines.last() == line);
    assert(lines.skip(lines.len() as int) =~= seq![]);
}

/// What follows a trace is the error of the traced instruction.
pub proof fn a_message_blames_the_last_trace(
    log: Seq<char>,
    line: Seq<char>,
    n: u32,
    message: Seq<char>,
)
    requires
        is_line(line),
        traces(line, n),
        is_line(message),
        !closes_log(message),
        !opens_with(message, "from "@),
        klog::trace_index(message) is None,
    ensures
        klog::log_error(with_line(with_line(log, line), message)) == Some((n, message)),
{
    a_trace_clears_the_error(log, line, n);
    lemma_line(log, line);
    lemma_trace(line, n);
    let one = with_line(log, line);
    lemma_line(one, message);
    lemma_closing(message);
    texts::beginning_is_standing_first(message, "from "@);
    let a = klog::log_lines(one);
    let b = klog::log_lines(with_line(one, message));
    assert(b.drop_last() =~= a);
    assert(a.last() == line);
    assert(klog::behind_last_trace(b) == a.len());
    assert(b.skip(a.len() as int) =~= seq![message]);
    assert(seq![message].drop_last() =~= seq![]);
    assert(klog::joined_messages(seq![message]) == message) by {
        reveal_with_fuel(klog::joined_messages, 2);
    }
    assert(b[a.len() - 1] == line);
}

proof fn lemma_behind_bound(lines: Seq<Seq<char>>)
    ensures
        0 <= klog::behind_last_trace(lines) <= lines.len(),
    decreases lines.len(),
{
    if lines.len() > 0 {
        lemma_behind_bound(lines.drop_last());
    }
}

/// A further line of a block goes on with its error: the counts that close a log
/// and the transitions between states change nothing, and a message is put behind
/// the error with one space.
pub proof fn a_block_goes_on(log: Seq<char>, line: Seq<char>)
    requires
        is_line(line),
        klog::trace_index(line) is None,
    ensures
        closes_log(line) || opens_with(line, "from "@) ==> klog::log_error(with_line(log, line))
            == klog::log_error(log),
        !closes_log(line) && !opens_with(line, "from "@) && klog::log_error(log) is Some ==> {
            &&& klog::log_error(with_line(log, line)) is Some
            &&& (klog::log_error(with_line(log, line))->0).1 == (klog::log_error(log)->0).1.push(' ')
                + line
            &&& !untraced(log) ==> (klog::log_error(with_line(log, line))->0).0 == (klog::log_error(
                log,
            )->0).0
        },
        !closes_log(line) && !opens_with(line, "from "@) && klog::log_error(log) is None ==> {
            &&& klog::log_error(with_line(log, line)) is Some
            &&& (klog::log_error(with_line(log, line))->0).1 == line
        },
        untraced(with_line(log, line)) == untraced(log),
{
    lemma_line(log, line);
    lemma_closing(line);
    texts::beginning_is_standing_first(line, "from "@);
    let a = klog::log_lines(log);
    let b = klog::log_lines(with_line(log, line));
    assert(b.drop_last() =~= a);
    assert(b.last() == line);
    lemma_behind_bound(a);
    let k = klog::behind_last_trace(a);
    assert(klog::behind_last_trace(b) == k);
    assert(b.skip(k) =~= a.skip(k).push(line));
    assert(b.skip(k).drop_last() =~= a.skip(k));
    assert(b.skip(k).last() == line);
    if k > 0 {
        assert(b[k - 1] == a[k - 1]);
    }
}

/// An empty log holds no error.
pub proof fn an_empty_log_is_silent()
    ensures
        klog::log_error(Seq::empty()) is None,
        untraced(Seq::empty()),
{
    texts::a_whole_text_is_one_piece(seq![], Separator::LineFeed);
    let lines = klog::log_lines(seq![]);
    texts::trimming_takes_the_blank_ends(seq![], seq![], seq![]);
    assert(seq![] + Seq::<char>::empty() + seq![] =~= seq![]);
    assert(lines =~= seq![Seq::<char>::empty()]);
    assert(lines.drop_last() =~= seq![]);
    assert(text::find_from(Seq::<char>::empty(), seq![':'], 0) is None);
    assert(klog::behind_last_trace(lines) == 0) by {
        reveal_with_fuel(klog::behind_last_trace, 2);
    }
    assert(lines.skip(0) =~= lines);
    assert(klog::joined_messages(lines) == Seq::<char>::empty()) by {
        reveal_with_fuel(klog::joined_messages, 2);
    }
}

/// An untraced error is on the instruction whose number follows its first word
/// "insn", commas aside; on the first instruction where no number does.
pub proof fn an_untraced_error_names_its_instruction(log: Seq<char>, k: int)
    requires
        untraced(log),
        klog::log_error(log) is Some,
        ({
            let ws = klog::words(text::pieces((klog::log_error(log)->0).1, Separator::WhiteSpace));
            &&& 0 <= k < ws.len()
            &&& k + 1 < ws.len() ==> ws[k] == "insn"@
            &&& forall|j: int| 0 <= j < k ==> #[trigger] ws[j] != "insn"@
        }),
    ensures
        ({
            let ws = klog::words(text::pieces((klog::log_error(log)->0).1, Separator::WhiteSpace));
            let named = if k + 1 < ws.len() {
                text::number(klog::without_commas(ws[k + 1]))
            } else {
                None
            };
            (klog::log_error(log)->0).0 == (match named {
                Some(n) => n,
                None => 0,
            })
        }),
{
    let ws = klog::words(text::pieces((klog::log_error(log)->0).1, Separator::WhiteSpace));
    lemma_named(ws, 0, k);
}

proof fn lemma_named(ws: Seq<Seq<char>>, from: int, k: int)
    requires
        0 <= from <= k < ws.len(),
        forall|j: int| 0 <= j < k ==> #[trigger] ws[j] != "insn"@,
    ensures
        klog::named_insn(ws, from) == klog::named_insn(ws, k),
    decreases k - from,
{
    if from < k {
        assert(ws[from] != "insn"@);
        lemma_named(ws, from + 1, k);
    }
}

/// A blank behind a text, and a word behind it, is one more word; blanks alone are
/// none.
pub proof fn words_stand_between_blanks(s: Seq<char>, c: char, word: Seq<char>)
    requires
        text::is_space(c),
        whole(word, Separator::WhiteSpace),
    ensures
        klog::words(text::pieces(s.push(c) + word, Separator::WhiteSpace)) == if word.len() > 0 {
            klog::words(text::pieces(s, Separator::WhiteSpace)).push(word)
        } else {
            klog::words(text::pieces(s, Separator::WhiteSpace))
        },
        klog::words(text::pieces(word, Separator::WhiteSpace)) == if word.len() > 0 {
            seq![word]
        } else {
            seq![]
        },
{
    texts::a_separator_makes_a_piece(s, c, word, Separator::WhiteSpace);
    texts::a_whole_text_is_one_piece(word, Separator::WhiteSpace);
    let p = text::pieces(s, Separator::WhiteSpace);
    assert(p.push(word).drop_last() =~= p);
    assert(p.push(word).last() == word);
    assert(seq![word].drop_last() =~= seq![]);
    assert(klog::words(seq![word]) =~= if word.len() > 0 {
        seq![word]
    } else {
        seq![]
    }) by {
        reveal_with_fuel(klog::words, 2);
    }
}

/// Commas behind a word are no part of it.
pub proof fn commas_are_dropped(s: Seq<char>)
    requires
        s.len() > 0 ==> s.last() != ',',
    ensures
        klog::without_commas(s) == s,
        klog::without_commas(s.push(',')) == s,
        klog::without_commas(s.push(',').push(',')) == s,
{
    assert(s.push(',').drop_last() =~= s);
    assert(s.push(',').push(',').drop_last() =~= s.push(','));
    assert(klog::without_commas(s) == s);
    assert(klog::without_commas(s.push(',')) == s);
}

// ── What a load means ───────────────────────────────────────────────────────

/// A load is an accept exactly where the kernel took the program, no verdict where
/// it was not permitted, and a reject exactly where its log holds an error.
pub proof fn loads_by_reply(reply: LoadReply, log: Seq<char>, outcome: KernelOutcome)
    requires
        krun::reply_means(reply, log, outcome),
    ensures
        outcome is Accept <==> reply is Loaded,
        outcome is Privilege <==> reply == (LoadReply::Failed { errno: 1 }),
        outcome is Reject <==> reply is Failed && reply->errno != 1 && klog::log_error(log) is Some,
        outcome is NoErrorLine <==> reply is Failed && reply->errno != 1 && klog::log_error(log)
            is None,
        !(outcome is InvalidProgram),
        outcome is NoErrorLine ==> outcome->errno == reply->errno,
        outcome matches KernelOutcome::Reject { insn_idx, message, .. } ==> klog::log_error(log)
            == Some((insn_idx, message@)),
{
}

/// The reason of a reject is that of its message.
pub proof fn rejects_by_message(
    reply: LoadReply,
    log: Seq<char>,
    outcome: KernelOutcome,
    a: Seq<char>,
    m: Seq<char>,
    b: Seq<char>,
    subject: int,
)
    requires
        krun::reply_means(reply, log, outcome),
        outcome is Reject,
        outcome->message@ == a + m + b,
        blank(a),
        blank(b),
        tight(m),
        forall|k: int| 0 <= k < subject ==> !#[trigger] speaks_of(m, k),
        0 <= subject < 12 && speaks_of(m, subject) || subject >= 12,
    ensures
        outcome->category == category_of_subject(subject),
{
    most_specific_subject_decides(a, m, b, subject);
}

/// A program that can be loaded is one slot of eight bytes or more of them.
pub proof fn whole_slots_are_loadable(insns: Seq<u8>, k: nat)
    ensures
        insns.len() == 8 * k && k > 0 ==> krun::loadable(insns),
        krun::loadable(insns) ==> insns.len() >= 8 && insns.len() == 8 * (insns.len() / 8),
{
}

/// The log in a buffer ends in front of the first NUL.
pub proof fn logs_end_at_nul(text: Seq<u8>, rest: Seq<u8>)
    requires
        forall|i: int| 0 <= i < text.len() ==> #[trigger] text[i] != 0,
    ensures
        krun::until_nul(text) == text,
        krun::until_nul(text.push(0) + rest) == text,
    decreases text.len(),
{
    let all = text.push(0) + rest;
    if text.len() > 0 {
        assert(text[0] != 0);
        let t = text.drop_first();
        assert forall|i: int| 0 <= i < t.len() implies #[trigger] t[i] != 0 by {
            assert(text[i + 1] != 0);
        }
        logs_end_at_nul(t, rest);
        assert(all.drop_first() =~= t.push(0) + rest);
        assert(seq![text[0]] + t =~= text);
    } else {
        assert(all[0] == 0);
        assert(text =~= seq![]);
    }
}

// ── What the agent answers ──────────────────────────────────────────────────

/// The line is the first of the output that is not blank.
pub open spec fn answers(output: Seq<char>, line: Seq<char>) -> bool {
    exists|before: Seq<char>, gap: Seq<char>, rest: Seq<char>|
        output == #[trigger] (before + line + gap + rest) && blank(before) && blank(gap) && whole(
            gap,
            Separator::LineFeed,
        ) && (rest.len() > 0 ==> rest[0] == '\n')
}

/// The load failed before the kernel's verifier had a say.
pub open spec fn is_failure(report: Seq<char>) -> bool {
    ||| opens_with(report, "cannot-read"@)
    ||| opens_with(report, "invalid-program"@)
    ||| opens_with(report, "no-error-line"@)
}

proof fn lemma_failure(report: Seq<char>)
    ensures
        is_failure(report) == (text::begins(report, "cannot-read"@) || text::begins(
            report,
            "invalid-program"@,
        ) || text::begins(report, "no-error-line"@)),
{
    texts::beginning_is_standing_first(report, "cannot-read"@);
    texts::beginning_is_standing_first(report, "invalid-program"@);
    texts::beginning_is_standing_first(report, "no-error-line"@);
}

proof fn lemma_answer(output: Seq<char>, line: Seq<char>)
    requires
        is_line(line),
        line.len() > 0,
        answers(output, line),
    ensures
        qemu::first_line(output) == line,
{
    let (before, gap, rest) = choose|before: Seq<char>, gap: Seq<char>, rest: Seq<char>|
        output == #[trigger] (before + line + gap + rest) && blank(before) && blank(gap) && whole(
            gap,
            Separator::LineFeed,
        ) && (rest.len() > 0 ==> rest[0] == '\n');
    let t = line + gap + rest;
    assert(output =~= before + t);
    assert(t[0] == line[0]);
    texts::lemma_trim_start(before, t);
    let n = (line + gap).len() as int;
    assert forall|k: int| 0 <= k < n implies #[trigger] t[k] != '\n' by {
        if k < line.len() {
            assert(!Separator::LineFeed.is(line[k]));
        } else {
            assert(!Separator::LineFeed.is(gap[k - line.len()]));
        }
    }
    texts::lemma_trim_end(line, gap);
    if rest.len() > 0 {
        assert(t[n] == rest[0]);
        lemma_find_first(t, '\n', n, 0);
        assert(t.take(n) =~= line + gap);
    } else {
        assert(t =~= line + gap);
        if text::find_from(t, seq!['\n'], 0) is Some {
            lemma_found(t, '\n', 0);
        }
    }
}

/// The agent accepts with the one word `ACCEPT`, and only with it.
pub proof fn the_agent_accepts(
    output: Seq<char>,
    line: Seq<char>,
    r: Option<(SideVerdict, Option<String>)>,
)
    requires
        qemu::agent_verdict(output, r),
        is_line(line),
        line.len() > 0,
        answers(output, line),
    ensures
        (r is Some && (r->0).0 is Accept) <==> line == "ACCEPT"@,
        r is Some && (r->0).0 is Accept ==> (r->0).1 is None,
        !(r is Some && (r->0).0 is Skipped),
{
    lemma_answer(output, line);
}

/// What is neither an accept nor begins with `REJECT` is no verdict, nor is a load
/// that failed before the verifier had a say.
pub proof fn the_agent_gives_no_verdict(
    output: Seq<char>,
    line: Seq<char>,
    r: Option<(SideVerdict, Option<String>)>,
)
    requires
        qemu::agent_verdict(output, r),
        is_line(line),
        line.len() > 0,
        answers(output, line),
    ensures
        line != "ACCEPT"@ && !opens_with(line, "REJECT "@) ==> r is None,
        forall|report: Seq<char>|
            line == #[trigger] ("REJECT "@ + report) && is_failure(report) ==> r is None,
        forall|report: Seq<char>|
            line == #[trigger] ("REJECT "@ + report) && !is_failure(report) ==> r is Some
                && (r->0).0 is Reject && (r->0).1 is Some,
{
    lemma_answer(output, line);
    texts::beginning_is_standing_first(line, "REJECT "@);
    reveal_strlit("ACCEPT");
    reveal_strlit("REJECT ");
    assert forall|report: Seq<char>| line == #[trigger] ("REJECT "@ + report) implies line
        != "ACCEPT"@ && line.skip(7) == report && text::begins(line, "REJECT "@) by {
        assert(line[0] == 'R');
        assert(line.skip(7) =~= report);
    }
    assert forall|report: Seq<char>| line == #[trigger] ("REJECT "@ + report) implies is_failure(
        report,
    ) == (text::begins(report, "cannot-read"@) || text::begins(report, "invalid-program"@)
        || text::begins(report, "no-error-line"@)) by {
        lemma_failure(report);
    }
}

proof fn lemma_find_last(s: Seq<char>, p: Seq<char>, i: int, from: int)
    requires
        p.len() > 0,
        text::occurs_at(s, p, i),
        i <= from,
        forall|k: int| i < k ==> !#[trigger] text::occurs_at(s, p, k),
    ensures
        text::find_back(s, p, from) == Some(i),
    decreases from - i,
{
    if i < from {
        assert(!text::occurs_at(s, p, from));
        lemma_find_last(s, p, i, from - 1);
    }
}

proof fn lemma_reason(reason: Seq<char>, errno: Seq<char>)
    requires
        whole(errno, Separator::WhiteSpace),
    ensures
        qemu::without_errno(reason + " errno="@ + errno) == reason,
{
    let report = reason + " errno="@ + errno;
    reveal_strlit(" errno=");
    let i = reason.len() as int;
    assert(report.subrange(i, i + 7) =~= " errno="@);
    assert forall|k: int| i < k implies !#[trigger] text::occurs_at(report, " errno="@, k) by {
        if text::occurs_at(report, " errno="@, k) {
            assert(report.subrange(k, k + 7)[0] == report[k]);
            assert(report[k] == ' ');
            if k < i + 7 {
                assert(report[k] == " errno="@[k - i]);
            } else {
                assert(!Separator::WhiteSpace.is(errno[k - i - 7]));
                assert(text::is_space(' '));
            }
        }
    }
    lemma_find_last(report, " errno="@, i, report.len() as int);
    assert(report.take(i) =~= reason);
}

proof fn lemma_report(
    output: Seq<char>,
    report: Seq<char>,
    r: Option<(SideVerdict, Option<String>)>,
)
    requires
        qemu::agent_verdict(output, r),
        is_line("REJECT "@ + report),
        answers(output, "REJECT "@ + report),
        !is_failure(report),
    ensures
        r is Some,
        (r->0).1 is Some,
        (r->0).1->0@ == qemu::without_errno(report),
        (r->0).0 == (SideVerdict::Reject {
            category: klog::category_of_text(text::trim(qemu::without_errno(report))),
        }),
{
    let line = "REJECT "@ + report;
    reveal_strlit("REJECT ");
    reveal_strlit("ACCEPT");
    lemma_answer(output, line);
    assert(line[0] == 'R');
    assert("ACCEPT"@[0] == 'A');
    assert(line.skip(7) =~= report);
    assert(line.subrange(0, 7) =~= "REJECT "@);
    lemma_failure(report);
}

/// The agent rejects with a reason and the error number behind it: the reason is
/// the message, and gives the category.
pub proof fn the_agent_rejects(
    output: Seq<char>,
    reason: Seq<char>,
    errno: Seq<char>,
    r: Option<(SideVerdict, Option<String>)>,
    a: Seq<char>,
    m: Seq<char>,
    b: Seq<char>,
    subject: int,
)
    requires
        qemu::agent_verdict(output, r),
        is_line("REJECT "@ + (reason + " errno="@ + errno)),
        answers(output, "REJECT "@ + (reason + " errno="@ + errno)),
        !is_failure(reason + " errno="@ + errno),
        whole(errno, Separator::WhiteSpace),
        reason == a + m + b,
        blank(a),
        blank(b),
        tight(m),
        forall|k: int| 0 <= k < subject ==> !#[trigger] speaks_of(m, k),
        0 <= subject < 12 && speaks_of(m, subject) || subject >= 12,
    ensures
        r is Some,
        (r->0).0 == (SideVerdict::Reject { category: category_of_subject(subject) }),
        (r->0).1 is Some,
        (r->0).1->0@ == reason,
{
    lemma_report(output, reason + " errno="@ + errno, r);
    lemma_reason(reason, errno);
    most_specific_subject_decides(a, m, b, subject);
}

/// A wait ends when nothing is waited for, and is given up only at the deadline.
pub proof fn waits_end(waiting: bool, late: bool)
    ensures
        qemu::poll_action(waiting, late) is Done <==> !waiting,
        qemu::poll_action(waiting, late) is GiveUp <==> waiting && late,
        qemu::poll_action(waiting, late) is Wait <==> waiting && !late,
{
}

/// A job is finished exactly where its file is gone and its result is there.
pub proof fn jobs_end_with_a_result(s: qemu::JobState)
    ensures
        !qemu::is_open(s) <==> !s.job_file && s.out_file,
{
}

/// Jobs are collected, and go out when a hundred are there, on request, when
/// nothing more comes, and at the end. Only a job is put behind those pending, only
/// a request is acknowledged, and only the end stops the worker.
pub proof fn batches_go_out(event: qemu::WorkerEvent, pending: usize, step: qemu::WorkerStep)
    requires
        call_ensures(qemu::worker_step, (event, pending), step),
    ensures
        step.enqueue <==> event is Job,
        step.acknowledge <==> event is Flush,
        step.stop <==> event is Disconnected,
        event is Job ==> (step.send <==> pending >= 99),
        !(event is Job) ==> (step.send <==> pending > 0),
{
}

/// A job asks for a flush by its name.
pub proof fn flushes_are_named(name: &str, event: qemu::WorkerEvent)
    requires
        call_ensures(qemu::job_event, (name,), event),
    ensures
        event is Flush <==> name@ == "__flush__"@,
        event is Job <==> name@ != "__flush__"@,
{
}

/// A batch waits while the guest holds files of the last one or its marker stands.
pub proof fn batches_wait_for_the_last(
    job_has_files: bool,
    batch_done: bool,
    late: bool,
    action: qemu::PollAction,
)
    requires
        call_ensures(qemu::poll_previous, (job_has_files, batch_done, late), action),
    ensures
        action is Done <==> !job_has_files && !batch_done,
        action is GiveUp <==> (job_has_files || batch_done) && late,
{
}

/// A batch is done when each of its jobs is gone and has its result.
pub proof fn batches_are_done(jobs: &[qemu::JobState], late: bool, action: qemu::PollAction)
    requires
        call_ensures(qemu::poll_results, (jobs, late), action),
    ensures
        action is Done <==> forall|i: int|
            0 <= i < jobs@.len() ==> !(#[trigger] jobs@[i]).job_file && jobs@[i].out_file,
        action is GiveUp ==> late,
        action is Wait ==> !late,
{
    if action is Done {
        assert forall|i: int| 0 <= i < jobs@.len() implies !(#[trigger] jobs@[i]).job_file
            && jobs@[i].out_file by {
            assert(!qemu::is_open(jobs@[i]));
        }
    } else {
        let i = choose|i: int| 0 <= i < jobs@.len() && qemu::is_open(#[trigger] jobs@[i]);
        assert(jobs@[i].job_file || !jobs@[i].out_file);
    }
}

/// An output that is blank is read again, ten times at most.
pub proof fn blank_outputs_are_read_again(output: &str, reads: usize, again: bool)
    requires
        call_ensures(qemu::read_again, (output, reads), again),
    ensures
        again <==> reads < 10 && blank(output@),
{
    let s = output@;
    if blank(s) {
        texts::trimming_takes_the_blank_ends(s, seq![], seq![]);
        assert(s + seq![] + seq![] =~= s);
    } else {
        let gap = lemma_leading_blanks(s);
        let t = text::trim_start(s);
        lemma_trimmed_start(s);
        if t.len() == 0 {
            assert(s =~= gap);
            assert(blank(s));
        }
        lemma_trim_end_keeps(t);
    }
}

proof fn lemma_trimmed_start(s: Seq<char>)
    ensures
        text::trim_start(s).len() > 0 ==> !text::is_space(text::trim_start(s)[0]),
    decreases s.len(),
{
    if s.len() > 0 && text::is_space(s[0]) {
        lemma_trimmed_start(s.drop_first());
    }
}

proof fn lemma_trim_end_keeps(t: Seq<char>)
    requires
        t.len() > 0,
        !text::is_space(t[0]),
    ensures
        text::trim_end(t).len() > 0,
    decreases t.len(),
{
    if text::is_space(t.last()) {
        assert(t.len() > 1);
        lemma_trim_end_keeps(t.drop_last());
    }
}

/// An output without a verdict is answered by an error, one with a verdict by it.
pub proof fn replies_hold_the_verdict(
    output: &str,
    reply: Result<(SideVerdict, Option<String>), String>,
    r: (SideVerdict, Option<String>, Option<u32>),
)
    requires
        call_ensures(qemu::reply_of, (output,), reply),
        call_ensures(qemu::ask_answer, (reply,), r),
    ensures
        reply is Err <==> qemu::agent_verdict(output@, None),
        reply is Err ==> r.0 is Skipped && r.1 is Some && r.1->0@ == "qemu: parse/read failure"@,
        reply is Ok ==> qemu::agent_verdict(output@, Some((r.0, r.1))),
        r.2 is None,
{
}

/// The manifest has one line for each name, in their order.
pub proof fn manifests_list_the_names(names: Seq<String>)
    requires
        forall|i: int| 0 <= i < names.len() ==> whole(#[trigger] names[i]@, Separator::LineFeed),
    ensures
        text::pieces(qemu::manifest_text(names), Separator::LineFeed) == names.map_values(
            |s: String| s@,
        ).push(Seq::empty()),
    decreases names.len(),
{
    let all = qemu::manifest_text(names);
    if names.len() == 0 {
        assert(names.map_values(|s: String| s@).push(Seq::<char>::empty()) =~= seq![seq![]]);
    } else {
        let init = names.drop_last();
        let last = names[names.len() - 1]@;
        assert forall|i: int| 0 <= i < init.len() implies whole(
            #[trigger] init[i]@,
            Separator::LineFeed,
        ) by {
            assert(whole(names[i]@, Separator::LineFeed));
        }
        manifests_list_the_names(init);
        let head = qemu::manifest_text(init);
        lemma_last_piece_grows(head, last);
        assert(all =~= (head + last).push('\n'));
        assert(all.drop_last() =~= head + last);
        let a = init.map_values(|s: String| s@);
        assert(a.push(Seq::<char>::empty()).drop_last() =~= a);
        assert(a.push(Seq::<char>::empty()).last() + last =~= last);
        assert(names.map_values(|s: String| s@) =~= a.push(last));
        assert(all.last() == '\n');
    }
}

proof fn lemma_last_piece_grows(s: Seq<char>, t: Seq<char>)
    requires
        whole(t, Separator::LineFeed),
    ensures
        text::pieces(s + t, Separator::LineFeed) == text::pieces(
            s,
            Separator::LineFeed,
        ).drop_last().push(text::pieces(s, Separator::LineFeed).last() + t),
    decreases t.len(),
{
    let p = text::pieces(s, Separator::LineFeed);
    text::lemma_pieces_nonempty(s, Separator::LineFeed);
    if t.len() == 0 {
        assert(s + t =~= s);
        assert(p.last() + t =~= p.last());
        assert(p =~= p.drop_last().push(p.last()));
    } else {
        let u = t.drop_last();
        assert(!Separator::LineFeed.is(t[t.len() - 1]));
        assert forall|i: int| 0 <= i < u.len() implies !Separator::LineFeed.is(#[trigger] u[i]) by {
            assert(!Separator::LineFeed.is(t[i]));
        }
        lemma_last_piece_grows(s, u);
        assert((s + t).drop_last() =~= s + u);
        assert((s + t).last() == t.last());
        let q = p.drop_last().push(p.last() + u);
        assert(q.drop_last() =~= p.drop_last());
        assert((p.last() + u).push(t.last()) =~= p.last() + t);
    }
}

} // verus!
