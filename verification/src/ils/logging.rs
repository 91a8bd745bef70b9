//! What is reported when the incumbent or the home base changes.

use crate::cache::{config_hash, hash_config};
use crate::config::{lemma_finite_is_listed, lists, listing, pair_views, Assignment, Config};
use crate::ils::evaluation::ConfigEvaluation;
use crate::params::ParamSpace;
use crate::text::{
    decimal, hex_text, hex_u64, hexadecimal, join, joined, lemma_hash_text_reads_back, lemma_hexadecimal_reads_back,
    push_decimal, push_text, same_text, texts,
};
use vstd::prelude::*;

verus! {

/// The value of a name as it is reported, in a configuration that holds the
/// active parameters only.
pub open spec fn shown_value(m: Assignment, name: Seq<char>) -> Seq<char> {
    if m.contains_key(name) {
        m[name]
    } else {
        "<inactive>"@
    }
}

/// The change of a name between two configurations of active parameters, if it
/// changes: `name: before -> after`.
pub open spec fn change_of(before: Assignment, after: Assignment, name: Seq<char>) -> Option<Seq<char>> {
    if before.contains_key(name) == after.contains_key(name) && (before.contains_key(name)
        ==> before[name] == after[name]) {
        None
    } else {
        Some(name + ": "@ + shown_value(before, name) + " -> "@ + shown_value(after, name))
    }
}

/// The changes between two configurations of active parameters, by name.
pub open spec fn changes_between(before: Assignment, after: Assignment) -> Seq<Seq<char>> {
    listing(before.union_prefer_right(after)).filter_map(
        |p: (Seq<char>, Seq<char>)| change_of(before, after, p.0),
    )
}

/// The changes from one configuration to another as far as they are active.
pub open spec fn argument_changes(space: &ParamSpace, current: Assignment, next: Assignment) -> Seq<char> {
    joined(changes_between(space.projected(current), space.projected(next)), "; "@)
}

/// The report of the changes is empty exactly if nothing changes as far as active
/// parameters go.
pub proof fn lemma_silence_means_no_change(space: &ParamSpace, current: Assignment, next: Assignment)
    requires
        current.dom().finite(),
        next.dom().finite(),
    ensures
        argument_changes(space, current, next).len() == 0 <==> space.projected(current) == space.projected(next),
{
    let before = space.projected(current);
    let after = space.projected(next);
    let u = before.union_prefer_right(after);
    assert(u.dom().subset_of(current.dom().union(next.dom())));
    vstd::set_lib::lemma_set_subset_finite(current.dom().union(next.dom()), u.dom());
    lemma_changes_tell(before, after);
}

proof fn lemma_changes_tell(before: Assignment, after: Assignment)
    requires
        before.union_prefer_right(after).dom().finite(),
    ensures
        joined(changes_between(before, after), "; "@).len() == 0 <==> before == after,
{
    let u = before.union_prefer_right(after);
    let l = listing(u);
    let f = |p: (Seq<char>, Seq<char>)| change_of(before, after, p.0);
    if before == after {
        lemma_filter_map_none(l, f);
    }
    lemma_changes_are_texts(l, before, after);
    lemma_joined_is_empty(changes_between(before, after), "; "@);
    if changes_between(before, after).len() == 0 {
        lemma_finite_is_listed(u);
        lemma_filter_map_all_none(l, f);
        assert forall|k: Seq<char>| change_of(before, after, k) is None by {
            if before.contains_key(k) || after.contains_key(k) {
                assert(u.contains_key(k));
                let i = choose|i: int| 0 <= i < l.len() && (#[trigger] l[i]).0 == k;
                assert(f(l[i]) is None);
            }
        }
        assert forall|k: Seq<char>| before.contains_key(k) <==> after.contains_key(k) by {
            assert(change_of(before, after, k) is None);
        }
        assert forall|k: Seq<char>| before.contains_key(k) implies before[k] == after[k] by {
            assert(change_of(before, after, k) is None);
        }
        assert(before =~= after);
    }
}

proof fn lemma_changes_are_texts(l: Seq<(Seq<char>, Seq<char>)>, before: Assignment, after: Assignment)
    ensures
        ({
            let changes = l.filter_map(|p: (Seq<char>, Seq<char>)| change_of(before, after, p.0));
            forall|i: int| 0 <= i < changes.len() ==> (#[trigger] changes[i]).len() > 0
        }),
    decreases l.len(),
{
    let f = |p: (Seq<char>, Seq<char>)| change_of(before, after, p.0);
    if l.len() > 0 {
        lemma_changes_are_texts(l.drop_last(), before, after);
        reveal_strlit(": ");
        let shorter = l.drop_last().filter_map(f);
        let changes = l.filter_map(f);
        assert forall|i: int| 0 <= i < changes.len() implies (#[trigger] changes[i]).len() > 0 by {
            if i < shorter.len() {
                assert(changes[i] == shorter[i]);
            }
        }
    }
}

proof fn lemma_joined_is_empty(parts: Seq<Seq<char>>, sep: Seq<char>)
    requires
        forall|i: int| 0 <= i < parts.len() ==> (#[trigger] parts[i]).len() > 0,
    ensures
        joined(parts, sep).len() == 0 <==> parts.len() == 0,
{
    if parts.len() > 0 {
        assert(parts[parts.len() - 1].len() > 0);
    }
}

proof fn lemma_filter_map_all_none(
    l: Seq<(Seq<char>, Seq<char>)>,
    f: spec_fn((Seq<char>, Seq<char>)) -> Option<Seq<char>>,
)
    requires
        l.filter_map(f).len() == 0,
    ensures
        forall|i: int| 0 <= i < l.len() ==> f(#[trigger] l[i]) is None,
    decreases l.len(),
{
    if l.len() > 0 {
        let d = l.drop_last();
        assert(f(l.last()) is None);
        lemma_filter_map_all_none(d, f);
        assert forall|i: int| 0 <= i < l.len() implies f(#[trigger] l[i]) is None by {
            if i < d.len() {
                assert(d[i] == l[i]);
            }
        }
    }
}

proof fn lemma_filter_map_none(
    l: Seq<(Seq<char>, Seq<char>)>,
    f: spec_fn((Seq<char>, Seq<char>)) -> Option<Seq<char>>,
)
    requires
        forall|p: (Seq<char>, Seq<char>)| (#[trigger] f(p)) is None,
    ensures
        l.filter_map(f) == Seq::<Seq<char>>::empty(),
    decreases l.len(),
{
    if l.len() > 0 {
        lemma_filter_map_none(l.drop_last(), f);
    }
}

/// Whether a name is among the first `n` of a list of pairs.
spec fn named_among(l: Seq<(Seq<char>, Seq<char>)>, n: int, name: Seq<char>) -> bool {
    exists|j: int| 0 <= j < n && (#[trigger] l[j]).0 == name
}

fn merged(a: &Config, b: &Config) -> (r: Config)
    ensures
        r@ == a@.union_prefer_right(b@),
{
    let mut out = a.clone();
    let pairs = b.pairs();
    let ghost l = pair_views(pairs@);
    for i in 0..pairs.len()
        invariant
            l == pair_views(pairs@),
            lists(b@, l),
            forall|k: Seq<char>| #[trigger]
                out@.contains_key(k) <==> a@.contains_key(k) || named_among(l, i as int, k),
            forall|k: Seq<char>| #[trigger]
                out@.contains_key(k) ==> out@[k] == if named_among(l, i as int, k) {
                    b@[k]
                } else {
                    a@[k]
                },
    {
        let ghost prev = out@;
        assert(l[i as int] == (pairs@[i as int].0@, pairs@[i as int].1@));
        out.insert(pairs[i].0.clone(), pairs[i].1.clone());
        proof {
            let name = l[i as int].0;
            assert forall|k: Seq<char>| #[trigger] named_among(l, i + 1, k) <==> named_among(l, i as int, k)
                || k == name by {
                if k == name {
                    assert(l[i as int].0 == k);
                }
                if named_among(l, i as int, k) {
                    let j = choose|j: int| 0 <= j < i && (#[trigger] l[j]).0 == k;
                    assert(0 <= j < i + 1 && l[j].0 == k);
                }
            }
            assert forall|k: Seq<char>| #[trigger] out@.contains_key(k) implies out@[k]
                == if named_among(l, i + 1, k) {
                b@[k]
            } else {
                a@[k]
            } by {
                if k != name {
                    assert(prev.contains_key(k));
                }
            }
        }
    }
    proof {
        assert forall|k: Seq<char>| #[trigger] named_among(l, l.len() as int, k) <==> b@.contains_key(k) by {}
        assert(out@ =~= a@.union_prefer_right(b@));
    }
    out
}

fn describe_change(before: &Config, after: &Config, name: &str) -> (r: Option<String>)
    ensures
        match r {
            Some(t) => change_of(before@, after@, name@) == Some(t@),
            None => change_of(before@, after@, name@) is None,
        },
{
    let old_value = before.get(name);
    let new_value = after.get(name);
    let same = match (old_value, new_value) {
        (Some(a), Some(b)) => same_text(a.as_str(), b.as_str()),
        (None, None) => true,
        _ => false,
    };
    if same {
        return None;
    }
    let mut out = name.to_owned();
    push_text(&mut out, ": ");
    match old_value {
        Some(v) => push_text(&mut out, v.as_str()),
        None => push_text(&mut out, "<inactive>"),
    }
    push_text(&mut out, " -> ");
    match new_value {
        Some(v) => push_text(&mut out, v.as_str()),
        None => push_text(&mut out, "<inactive>"),
    }
    Some(out)
}

/// The changes from one configuration to another as far as they are active, by
/// name: `limit: <inactive> -> 2; mode: fast -> slow`.
pub fn format_argument_changes(current: &Config, next: &Config, space: &ParamSpace) -> (r: String)
    ensures
        r@ == argument_changes(space, current@, next@),
        r@.len() == 0 <==> space.projected(current@) == space.projected(next@),
{
    let before = space.active_config(current);
    let after = space.active_config(next);
    let all = merged(&before, &after);
    let pairs = all.pairs();
    let ghost l = listing(before@.union_prefer_right(after@));
    let ghost f = |p: (Seq<char>, Seq<char>)| change_of(before@, after@, p.0);
    let mut out: Vec<String> = Vec::new();
    assert(l.take(0).filter_map(f) =~= Seq::empty());
    assert(texts(out@) =~= Seq::empty());
    for i in 0..pairs.len()
        invariant
            l == pair_views(pairs@),
            f == (|p: (Seq<char>, Seq<char>)| change_of(before@, after@, p.0)),
            texts(out@) == l.take(i as int).filter_map(f),
    {
        let ghost prev = texts(out@);
        proof {
            assert(l[i as int] == (pairs@[i as int].0@, pairs@[i as int].1@));
            l.lemma_filter_map_take_succ(f, i as int);
        }
        match describe_change(&before, &after, pairs[i].0.as_str()) {
            Some(t) => {
                let ghost view = t@;
                out.push(t);
                assert(texts(out@) =~= prev.push(view));
                assert(l.take(i + 1).filter_map(f) =~= prev.push(view));
            },
            None => {
                assert(l.take(i + 1).filter_map(f) =~= prev);
            },
        }
    }
    assert(l.take(l.len() as int) =~= l);
    proof {
        lemma_changes_tell(before@, after@);
    }
    join(&out, "; ")
}

/// The report of a new incumbent with the given hash, with `score_text` for its
/// score.
pub open spec fn incumbent_report(
    hash: u64,
    eval: ConfigEvaluation,
    score_text: Seq<char>,
    n_runs: nat,
) -> Seq<char> {
    "ils: new incumbent: hash="@ + hexadecimal(hash as nat, 16) + " score="@ + score_text + " instances="@
        + decimal(n_runs) + eval.shown_runhash(n_runs)
}

/// The report of a new incumbent with the given hash, where `score_text` writes
/// its score.
pub fn incumbent_line(hash: u64, eval: &ConfigEvaluation, score_text: &str, n_runs: usize) -> (r: String)
    ensures
        r@ == incumbent_report(hash, *eval, score_text@, n_runs as nat),
{
    let mut out = "ils: new incumbent: hash=".to_owned();
    push_text(&mut out, hex_text(hash).as_str());
    push_text(&mut out, " score=");
    push_text(&mut out, score_text);
    push_text(&mut out, " instances=");
    push_decimal(&mut out, n_runs as u64);
    push_text(&mut out, eval.runhash_suffix(n_runs).as_str());
    out
}

/// The report of a new incumbent, where `score_text` writes its score.
pub fn log_incumbent(
    incumbent: &Config,
    eval: &ConfigEvaluation,
    score_text: &str,
    n_runs: usize,
    space: &ParamSpace,
) -> (r: String)
    ensures
        r@ == incumbent_report(
            config_hash(space.projected(incumbent@)),
            *eval,
            score_text@,
            n_runs as nat,
        ),
{
    let hash: u64 = hash_config(&space.active_config(incumbent));
    incumbent_line(hash, eval, score_text, n_runs)
}

/// The report of a new home base with the given hash and changes, with
/// `score_text` for its score; nothing if there is no change.
pub open spec fn home_base_report(
    hash: u64,
    changes: Seq<char>,
    eval: ConfigEvaluation,
    score_text: Seq<char>,
    n_runs: nat,
) -> Option<Seq<char>> {
    if changes.len() == 0 {
        None
    } else {
        Some(
            "ils: new home base: hash="@ + hexadecimal(hash as nat, 16) + " score="@ + eval.shown(
                score_text,
                n_runs,
            ) + " instances="@ + decimal(n_runs) + eval.shown_runhash(n_runs) + " changes: "@ + changes,
        )
    }
}

/// A text, if there is one.
pub open spec fn text_of(s: Option<String>) -> Option<Seq<char>> {
    match s {
        Some(t) => Some(t@),
        None => None,
    }
}

/// The report of a new home base with the given hash and changes, where
/// `score_text` writes its score; nothing if there is no change.
pub fn home_base_line(hash: u64, changes: &str, eval: &ConfigEvaluation, score_text: &str, n_runs: usize) -> (r: Option<
    String,
>)
    ensures
        text_of(r) == home_base_report(hash, changes@, *eval, score_text@, n_runs as nat),
{
    if changes.unicode_len() == 0 {
        return None;
    }
    let mut out = "ils: new home base: hash=".to_owned();
    push_text(&mut out, hex_text(hash).as_str());
    push_text(&mut out, " score=");
    push_text(&mut out, eval.display(score_text, n_runs).as_str());
    push_text(&mut out, " instances=");
    push_decimal(&mut out, n_runs as u64);
    push_text(&mut out, eval.runhash_suffix(n_runs).as_str());
    push_text(&mut out, " changes: ");
    push_text(&mut out, changes);
    Some(out)
}

/// The report of a new home base, where `score_text` writes its score. A
/// replacement without effective change is not reported.
pub fn log_home_base(
    previous: &Config,
    home_base: &Config,
    eval: &ConfigEvaluation,
    score_text: &str,
    n_runs: usize,
    space: &ParamSpace,
) -> (r: Option<String>)
    ensures
        text_of(r) == home_base_report(
            config_hash(space.projected(home_base@)),
            argument_changes(space, previous@, home_base@),
            *eval,
            score_text@,
            n_runs as nat,
        ),
{
    let changes = format_argument_changes(previous, home_base, space);
    let hash: u64 = hash_config(&space.active_config(home_base));
    home_base_line(hash, changes.as_str(), eval, score_text, n_runs)
}

/// A new home base is reported exactly if it differs from the one before in the
/// value of an active parameter, or in which parameters are active.
pub proof fn lemma_home_base_is_reported_if_it_changes(
    space: &ParamSpace,
    previous: Assignment,
    home_base: Assignment,
    hash: u64,
    eval: ConfigEvaluation,
    score_text: Seq<char>,
    n_runs: nat,
)
    requires
        previous.dom().finite(),
        home_base.dom().finite(),
    ensures
        home_base_report(hash, argument_changes(space, previous, home_base), eval, score_text, n_runs) is None
            <==> space.projected(previous) == space.projected(home_base),
{
    lemma_silence_means_no_change(space, previous, home_base);
}

/// A change tells the name, the value before and the value after; a parameter that
/// is not active is told to be inactive.
pub proof fn lemma_change_tells_before_and_after(before: Assignment, after: Assignment, name: Seq<char>)
    ensures
        before.contains_key(name) && after.contains_key(name) && before[name] != after[name] ==> change_of(
            before,
            after,
            name,
        ) == Some(name + ": "@ + before[name] + " -> "@ + after[name]),
        before.contains_key(name) && !after.contains_key(name) ==> change_of(before, after, name) == Some(
            name + ": "@ + before[name] + " -> "@ + "<inactive>"@,
        ),
        !before.contains_key(name) && after.contains_key(name) ==> change_of(before, after, name) == Some(
            name + ": "@ + "<inactive>"@ + " -> "@ + after[name],
        ),
        before.contains_key(name) && after.contains_key(name) && before[name] == after[name] ==> change_of(
            before,
            after,
            name,
        ) is None,
        !before.contains_key(name) && !after.contains_key(name) ==> change_of(before, after, name) is None,
{
}

/// Reports of a new incumbent or home base tell its hash, which reads back.
pub proof fn lemma_reports_tell_the_hash(
    hash: u64,
    changes: Seq<char>,
    eval: ConfigEvaluation,
    score_text: Seq<char>,
    n_runs: nat,
)
    requires
        changes.len() > 0,
    ensures
        hex_u64(
            incumbent_report(hash, eval, score_text, n_runs).subrange(
                "ils: new incumbent: hash="@.len() as int,
                "ils: new incumbent: hash="@.len() as int + 16,
            ),
        ) == Some(hash),
        home_base_report(hash, changes, eval, score_text, n_runs) matches Some(line) && hex_u64(
            line.subrange(
                "ils: new home base: hash="@.len() as int,
                "ils: new home base: hash="@.len() as int + 16,
            ),
        ) == Some(hash) && line.subrange(line.len() - changes.len(), line.len() as int) == changes,
{
    let h = hexadecimal(hash as nat, 16);
    lemma_hash_text_reads_back(hash);
    lemma_hexadecimal_reads_back(hash as nat, 16);
    let a = incumbent_report(hash, eval, score_text, n_runs);
    let p = "ils: new incumbent: hash="@;
    assert(a.subrange(p.len() as int, p.len() as int + 16) =~= h);
    let b = home_base_report(hash, changes, eval, score_text, n_runs)->Some_0;
    let q = "ils: new home base: hash="@;
    assert(b.subrange(q.len() as int, q.len() as int + 16) =~= h);
    assert(b.subrange(b.len() - changes.len(), b.len() as int) =~= changes);
}

/// Reports tell, in this order, the hash, the score, the number of instances, the
/// fingerprint if there is one, and for a home base what changed. An incumbent's
/// score is told bare, a home base's as far as it is complete.
pub proof fn lemma_reports_tell_score_and_instances(
    hash: u64,
    changes: Seq<char>,
    eval: ConfigEvaluation,
    score_text: Seq<char>,
    n_runs: nat,
)
    ensures
        incumbent_report(hash, eval, score_text, n_runs) == "ils: new incumbent: hash="@ + (hexadecimal(
            hash as nat,
            16,
        ) + (" score="@ + score_text) + (" instances="@ + decimal(n_runs)) + eval.shown_runhash(n_runs)),
        changes.len() > 0 && eval.complete ==> home_base_report(hash, changes, eval, score_text, n_runs) == Some(
            "ils: new home base: hash="@ + (hexadecimal(hash as nat, 16) + (" score="@ + score_text) + (
            " instances="@ + decimal(n_runs)) + eval.shown_runhash(n_runs) + (" changes: "@ + changes)),
        ),
{
    let h = hexadecimal(hash as nat, 16);
    assert(incumbent_report(hash, eval, score_text, n_runs) =~= "ils: new incumbent: hash="@ + (h + (" score="@
        + score_text) + (" instances="@ + decimal(n_runs)) + eval.shown_runhash(n_runs)));
    if changes.len() > 0 && eval.complete {
        assert(home_base_report(hash, changes, eval, score_text, n_runs)->Some_0 =~= "ils: new home base: hash="@ + (h
            + (" score="@ + score_text) + (" instances="@ + decimal(n_runs)) + eval.shown_runhash(n_runs) + (
        " changes: "@ + changes)));
    }
}

} // verus!
