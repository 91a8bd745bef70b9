//! The check of a wrapper's answer to `--version` before a run starts.

use crate::text::{
    all_white, begins_with, chars_of, lemma_lines_follow_one_another, lemma_trailing_white_goes, lines_of, rows,
    same_chars, slice_of, split_lines, split_words, string_of, trim_end, trimmed_end, white, words, written_lines,
};
use vstd::prelude::*;

verus! {

/// Why a wrapper's answer is refused.
#[derive(Clone, Copy, Debug, PartialEq, Eq, Structural)]
pub enum ProbeError {
    /// The wrapper failed.
    Failed,
    /// There is no output.
    NoOutput,
    /// The last line does not begin with `supports:`.
    NoSupportsLine,
    /// The last line does not list `version`.
    VersionNotListed,
}

impl ProbeError {
    /// What is wrong, in words; of a failure `status` says how it ended.
    pub fn detail(self, status: &str) -> (r: String)
        ensures
            r@ == match self {
                ProbeError::Failed => "exited with "@ + status@,
                ProbeError::NoOutput => "produced no output"@,
                ProbeError::NoSupportsLine => "did not end with a `supports:` line"@,
                ProbeError::VersionNotListed => "`supports:` line does not list `version`"@,
            },
    {
        match self {
            ProbeError::Failed => {
                let mut out = "exited with ".to_owned();
                crate::text::push_text(&mut out, status);
                out
            },
            ProbeError::NoOutput => "produced no output".to_owned(),
            ProbeError::NoSupportsLine => "did not end with a `supports:` line".to_owned(),
            ProbeError::VersionNotListed => "`supports:` line does not list `version`".to_owned(),
        }
    }
}

/// What an answer comes to: its text without trailing white characters, or what
/// is wrong with it.
pub open spec fn probe_outcome(success: bool, stdout: Seq<char>) -> Result<Seq<char>, ProbeError> {
    let text = trimmed_end(stdout);
    let lines = lines_of(text);
    let key = "supports:"@;
    if !success {
        Err(ProbeError::Failed)
    } else if lines.len() == 0 {
        Err(ProbeError::NoOutput)
    } else if !key.is_prefix_of(lines.last()) {
        Err(ProbeError::NoSupportsLine)
    } else if !words(lines.last().skip(key.len() as int)).contains("version"@) {
        Err(ProbeError::VersionNotListed)
    } else {
        Ok(text)
    }
}

/// Whether a wrapper answered as it must: it succeeded, and the last line of its
/// output begins with `supports:` and lists `version`. Returns the output
/// without trailing white characters.
pub fn check_version_answer(success: bool, stdout: &str) -> (r: Result<String, ProbeError>)
    ensures
        match r {
            Ok(text) => probe_outcome(success, stdout@) == Ok::<Seq<char>, ProbeError>(text@),
            Err(e) => probe_outcome(success, stdout@) == Err::<Seq<char>, ProbeError>(e),
        },
{
    let text = trim_end(&chars_of(stdout));
    if !success {
        return Err(ProbeError::Failed);
    }
    let lines = split_lines(&text);
    assert(rows(lines@).len() == lines@.len());
    if lines.len() == 0 {
        return Err(ProbeError::NoOutput);
    }
    let last = &lines[lines.len() - 1];
    assert(rows(lines@).last() == last@);
    let key = chars_of("supports:");
    if !begins_with(last, &key) {
        return Err(ProbeError::NoSupportsLine);
    }
    let rest = slice_of(last, key.len(), last.len());
    assert(rest@ =~= last@.skip(key@.len() as int));
    let features = split_words(&rest);
    let version = chars_of("version");
    let ghost all = words(rest@);
    for i in 0..features.len()
        invariant
            all == rows(features@),
            version@ == "version"@,
            key@ == "supports:"@,
            success,
            text@ == trimmed_end(stdout@),
            all == words(lines_of(text@).last().skip(key@.len() as int)),
            lines_of(text@).len() > 0,
            key@.is_prefix_of(lines_of(text@).last()),
            forall|j: int| 0 <= j < i ==> (#[trigger] all[j]) != "version"@,
    {
        assert(all[i as int] == features@[i as int]@);
        if same_chars(&features[i], &version) {
            assert(all.contains("version"@));
            return Ok(string_of(&text));
        }
    }
    assert(all.len() == features@.len());
    Err(ProbeError::VersionNotListed)
}

proof fn lemma_last_line_stands_last(head: Seq<Seq<char>>, last: Seq<char>)
    requires
        forall|i: int|
            0 <= i < head.len() ==> !(#[trigger] head[i]).contains('\n') && (head[i].len() == 0
                || head[i].last() != '\r'),
        !last.contains('\n'),
        last.len() > 0,
    ensures
        lines_of(written_lines(head) + last) == head.push(last),
    decreases head.len(),
{
    if head.len() == 0 {
        lemma_lines_follow_one_another(last, Seq::empty());
        assert(written_lines(head) + last =~= last);
        assert(head.push(last) =~= seq![last]);
    } else {
        let rest = head.skip(1);
        assert forall|i: int| 0 <= i < rest.len() implies !(#[trigger] rest[i]).contains('\n') && (rest[i].len()
            == 0 || rest[i].last() != '\r') by {
            assert(rest[i] == head[i + 1]);
        }
        lemma_last_line_stands_last(rest, last);
        assert(!head[0].contains('\n'));
        lemma_lines_follow_one_another(head[0], written_lines(rest) + last);
        assert(written_lines(head) + last =~= head[0] + seq!['\n'] + (written_lines(rest) + last));
        assert(seq![head[0]] + rest.push(last) =~= head.push(last));
    }
}

/// An answer is accepted exactly if the wrapper succeeded and the last line of what
/// it wrote, white characters at the end aside, begins with `supports:` and has the
/// word `version` after it; what was accepted is all that was written before those
/// white characters.
pub proof fn lemma_answer_is_judged_by_its_last_line(
    success: bool,
    head: Seq<Seq<char>>,
    last: Seq<char>,
    padding: Seq<char>,
)
    requires
        forall|i: int|
            0 <= i < head.len() ==> !(#[trigger] head[i]).contains('\n') && (head[i].len() == 0
                || head[i].last() != '\r'),
        !last.contains('\n'),
        last.len() > 0,
        !white(last.last()),
        all_white(padding),
    ensures
        ({
            let written = written_lines(head) + last;
            let outcome = probe_outcome(success, written + padding);
            &&& !success ==> outcome == Err::<Seq<char>, ProbeError>(ProbeError::Failed)
            &&& success && !"supports:"@.is_prefix_of(last) ==> outcome == Err::<Seq<char>, ProbeError>(
                ProbeError::NoSupportsLine,
            )
            &&& forall|rest: Seq<char>|
                #![trigger words(rest)]
                success && last == "supports:"@ + rest ==> (if words(rest).contains("version"@) {
                    outcome == Ok::<Seq<char>, ProbeError>(written)
                } else {
                    outcome == Err::<Seq<char>, ProbeError>(ProbeError::VersionNotListed)
                })
        }),
        success && all_white(padding) ==> probe_outcome(success, padding) == Err::<Seq<char>, ProbeError>(
            ProbeError::NoOutput,
        ),
{
    let written = written_lines(head) + last;
    let key = "supports:"@;
    lemma_last_line_stands_last(head, last);
    lemma_trailing_white_goes(written, padding);
    assert(written.last() == last.last());
    assert(trimmed_end(written) == written);
    assert(head.push(last).last() == last);
    assert forall|rest: Seq<char>|
        #![trigger words(rest)]
        last == key + rest implies key.is_prefix_of(last) && last.skip(key.len() as int) == rest by {
        assert(last.subrange(0, key.len() as int) =~= key);
        assert(last.skip(key.len() as int) =~= rest);
    }
    let none = Seq::<char>::empty();
    lemma_trailing_white_goes(none, padding);
    assert(none + padding =~= padding);
    lemma_lines_follow_one_another(none, none);
}

} // verus!
