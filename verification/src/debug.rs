//! Where reports go, and what a crash report says.

use crate::text::{
    chars_of, decimal, decimal_number, lemma_decimal_reads_back, lines_of, push_decimal, push_text, rows, split_lines,
    string_of, texts,
};
use vstd::prelude::*;

verus! {

/// The destinations of reports.
#[derive(Debug)]
pub struct DebugSinks {
    /// Reports go to the standard error stream.
    pub stderr: bool,
    /// Reports go to a log file, which is open.
    pub log_file: bool,
    /// Where crash reports go, if anywhere. The file is made at the first crash.
    pub error_log: Option<String>,
}

impl Default for DebugSinks {
    fn default() -> (s: DebugSinks)
        ensures
            !s.stderr && !s.log_file && s.error_log is None,
    {
        DebugSinks { stderr: false, log_file: false, error_log: None }
    }
}

/// Send reports to the standard error stream.
pub fn enable_debug_stderr(sinks: &mut DebugSinks)
    ensures
        *final(sinks) == (DebugSinks { stderr: true, ..*old(sinks) }),
{
    sinks.stderr = true;
}

/// A log file was opened.
pub fn open_log_file(sinks: &mut DebugSinks)
    ensures
        *final(sinks) == (DebugSinks { log_file: true, ..*old(sinks) }),
{
    sinks.log_file = true;
}

/// The log file was closed.
pub fn close_log_file(sinks: &mut DebugSinks)
    ensures
        *final(sinks) == (DebugSinks { log_file: false, ..*old(sinks) }),
{
    sinks.log_file = false;
}

/// Remember where crash reports go.
pub fn set_error_log(sinks: &mut DebugSinks, path: &str)
    ensures
        final(sinks).error_log matches Some(p) && p@ == path@,
        *final(sinks) == (DebugSinks { error_log: final(sinks).error_log, ..*old(sinks) }),
{
    sinks.error_log = Some(path.to_owned());
}

/// Forget where crash reports go.
pub fn close_error_log(sinks: &mut DebugSinks)
    ensures
        *final(sinks) == (DebugSinks { error_log: None, ..*old(sinks) }),
{
    sinks.error_log = None;
}

/// Whether reports go anywhere.
pub fn any_debug_active(sinks: &DebugSinks) -> (r: bool)
    ensures
        r == (sinks.stderr || sinks.log_file),
{
    sinks.stderr || sinks.log_file
}

/// Where a line goes that is reported if `enabled`: to the standard error
/// stream, and to the log file.
pub fn debug_line(sinks: &DebugSinks, enabled: bool) -> (r: (bool, bool))
    ensures
        r == (enabled && sinks.stderr, enabled && sinks.log_file),
{
    (enabled && sinks.stderr, enabled && sinks.log_file)
}

/// The lines of a block that is reported if `enabled`.
pub fn debug_block(enabled: bool, block: &str) -> (r: Vec<String>)
    ensures
        texts(r@) == if enabled {
            lines_of(block@)
        } else {
            Seq::empty()
        },
{
    let mut out: Vec<String> = Vec::new();
    if !enabled {
        assert(texts(out@) =~= Seq::empty());
        return out;
    }
    let lines = split_lines(&chars_of(block));
    let ghost all = lines_of(block@);
    assert(texts(out@) =~= all.take(0));
    for i in 0..lines.len()
        invariant
            rows(lines@) == all,
            all == lines_of(block@),
            texts(out@) == all.take(i as int),
    {
        let ghost prev = texts(out@);
        assert(rows(lines@)[i as int] == lines@[i as int]@);
        out.push(string_of(&lines[i]));
        assert(texts(out@) =~= prev.push(lines@[i as int]@));
        assert(texts(out@) =~= all.take(i + 1));
    }
    assert(all.take(all.len() as int) =~= all);
    out
}

/// `s`, with a line feed at its end.
pub open spec fn ended_line(s: Seq<char>) -> Seq<char> {
    if s.len() > 0 && s.last() == '\n' {
        s
    } else {
        s + "\n"@
    }
}

/// A section of a crash report under its title; nothing if it is empty.
pub open spec fn crash_section(title: Seq<char>, body: Seq<char>) -> Seq<char> {
    if body.len() == 0 {
        Seq::empty()
    } else {
        "--- "@ + title + " ---\n"@ + ended_line(body)
    }
}

/// A signed number in decimal.
pub open spec fn signed_decimal(n: int) -> Seq<char> {
    if n < 0 {
        "-"@ + decimal((-n) as nat)
    } else {
        decimal(n as nat)
    }
}

/// The line that begins and ends a crash report.
pub open spec fn crash_rule() -> Seq<char> {
    "============================================================\n"@
}

/// A crash report, with `time_text` for the time.
pub open spec fn crash_text(
    time_text: Seq<char>,
    cmd: Seq<char>,
    stdout: Seq<char>,
    stderr: Seq<char>,
    exit_code: Option<i32>,
) -> Seq<char> {
    let exit = match exit_code {
        Some(c) => signed_decimal(c as int),
        None => "spawn_failed"@,
    };
    crash_rule() + "crash  t="@ + time_text + "s  exit="@ + exit + "\ncmd: "@ + cmd + "\n"@
        + crash_section("stdout"@, stdout) + crash_section("stderr"@, stderr) + crash_rule()
}

fn push_section(out: &mut String, title: &str, body: &str)
    ensures
        final(out)@ == old(out)@ + crash_section(title@, body@),
{
    let ghost before = out@;
    let chars = chars_of(body);
    if chars.len() == 0 {
        assert(out@ =~= before + crash_section(title@, body@));
        return;
    }
    push_text(out, "--- ");
    push_text(out, title);
    push_text(out, " ---\n");
    push_text(out, body);
    if chars[chars.len() - 1] != '\n' {
        push_text(out, "\n");
    }
    assert(out@ =~= before + crash_section(title@, body@));
}

fn push_signed(out: &mut String, n: i32)
    ensures
        final(out)@ == old(out)@ + signed_decimal(n as int),
{
    let ghost before = out@;
    if n < 0 {
        push_text(out, "-");
        push_decimal(out, (-(n as i64)) as u64);
    } else {
        push_decimal(out, n as u64);
    }
    assert(out@ =~= before + signed_decimal(n as int));
}

/// The report of a run of the command `cmd` that gave no result, where
/// `time_text` writes the time.
pub fn crash_report(time_text: &str, cmd: &str, stdout: &str, stderr: &str, exit_code: Option<i32>) -> (r: String)
    ensures
        r@ == crash_text(time_text@, cmd@, stdout@, stderr@, exit_code),
{
    let mut out = "============================================================\n".to_owned();
    push_text(&mut out, "crash  t=");
    push_text(&mut out, time_text);
    push_text(&mut out, "s  exit=");
    match exit_code {
        Some(c) => push_signed(&mut out, c),
        None => push_text(&mut out, "spawn_failed"),
    }
    push_text(&mut out, "\ncmd: ");
    push_text(&mut out, cmd);
    push_text(&mut out, "\n");
    push_section(&mut out, "stdout", stdout);
    push_section(&mut out, "stderr", stderr);
    push_text(&mut out, "============================================================\n");
    out
}

/// What stands in a section ends with one line feed of its own or the one that it
/// had; an empty section is left out.
pub proof fn lemma_sections_end_with_a_line(title: Seq<char>, body: Seq<char>)
    ensures
        ended_line(body).len() > 0 && ended_line(body).last() == '\n',
        body.len() > 0 && body.last() == '\n' ==> ended_line(body) == body,
        !(body.len() > 0 && body.last() == '\n') ==> ended_line(body).drop_last() == body,
        body.len() == 0 ==> crash_section(title, body).len() == 0,
        body.len() > 0 ==> crash_section(title, body) == "--- "@ + title + " ---\n"@ + ended_line(body),
{
    reveal_strlit("\n");
    assert((body + "\n"@).drop_last() =~= body);
}

/// A number in decimal with its sign reads back as it is.
pub proof fn lemma_signed_numbers_read_back(n: int)
    ensures
        n >= 0 ==> decimal_number(signed_decimal(n)) == n,
        n < 0 ==> signed_decimal(n)[0] == '-' && decimal_number(signed_decimal(n).skip(1)) == -n,
{
    reveal_strlit("-");
    if n < 0 {
        lemma_decimal_reads_back((-n) as nat);
        assert(signed_decimal(n).skip(1) =~= decimal((-n) as nat));
    } else {
        lemma_decimal_reads_back(n as nat);
    }
}

/// A crash report tells the exit code, or that there was none, the command, and
/// what the run wrote: whatever it wrote to either stream stands in the report.
pub proof fn lemma_crash_report_holds_the_output(
    time_text: Seq<char>,
    cmd: Seq<char>,
    stdout: Seq<char>,
    stderr: Seq<char>,
    exit_code: Option<i32>,
)
    ensures
        ({
            let exit = match exit_code {
                Some(c) => signed_decimal(c as int),
                None => "spawn_failed"@,
            };
            let bare = crash_text(time_text, cmd, Seq::empty(), Seq::empty(), exit_code);
            let rule = "============================================================\n"@;
            &&& bare == rule + "crash  t="@ + time_text + "s  exit="@ + exit + "\ncmd: "@ + cmd + "\n"@ + rule
            &&& crash_text(time_text, cmd, stdout, stderr, exit_code) == bare.take(bare.len() - rule.len())
                + crash_section("stdout"@, stdout) + crash_section("stderr"@, stderr) + rule
        }),
{
    let exit = match exit_code {
        Some(c) => signed_decimal(c as int),
        None => "spawn_failed"@,
    };
    let rule = "============================================================\n"@;
    let none = Seq::<char>::empty();
    let bare = crash_text(time_text, cmd, none, none, exit_code);
    let front = rule + "crash  t="@ + time_text + "s  exit="@ + exit + "\ncmd: "@ + cmd + "\n"@;
    assert(front + none + none =~= front);
    assert(bare =~= front + rule);
    assert(bare.take(bare.len() - rule.len()) =~= front);
}

} // verus!
