//! What the export of a cache writes: per configuration the instances solved,
//! all results, and the fingerprints combined.

use crate::config::{collected, listing};
use crate::formats::{config_from_json, config_to_yaml, json_reading, yaml_text};
use crate::text::{
    before, decimal, digit_value, hex_text, hex_u64, hexadecimal, is_before, joined, lemma_before_total,
    lemma_before_transitive, lemma_decimal_reads_back, lemma_hash_text_reads_back, lemma_hexadecimal_reads_back,
    lemma_joined_is_taken_apart, lemma_words_are_separated_by_white, lemma_words_of_two_texts, pieces, push_decimal,
    push_text, same_text, texts, white, words,
};
use vstd::prelude::*;

verus! {

/// Whether a status counts as a success: one of the success tokens of TPTP and
/// of SMT-LIB.
pub open spec fn is_solved_status(status: Seq<char>) -> bool {
    ||| status == "Theorem"@
    ||| status == "Unsatisfiable"@
    ||| status == "Satisfiable"@
    ||| status == "CounterSatisfiable"@
    ||| status == "ContradictoryAxioms"@
    ||| status == "sat"@
    ||| status == "unsat"@
}

/// Whether a status counts as a success.
pub fn is_solved(status: &str) -> (r: bool)
    ensures
        r == is_solved_status(status@),
{
    same_text(status, "Theorem") || same_text(status, "Unsatisfiable") || same_text(status, "Satisfiable")
        || same_text(status, "CounterSatisfiable") || same_text(status, "ContradictoryAxioms") || same_text(
        status,
        "sat",
    ) || same_text(status, "unsat")
}

/// A signed hash as the unsigned number with the same 64 bits.
pub open spec fn unsigned(hash: i64) -> nat {
    if hash >= 0 {
        hash as nat
    } else {
        (hash + 0x1_0000_0000_0000_0000) as nat
    }
}

/// A signed hash as the unsigned number with the same 64 bits.
pub fn to_unsigned(hash: i64) -> (r: u64)
    ensures
        r == unsigned(hash),
{
    if hash >= 0 {
        hash as u64
    } else {
        u64::MAX - ((-(hash + 1)) as u64)
    }
}

/// The name of the file of a configuration: `ram-` and its hash.
pub open spec fn file_name_of(hash: i64) -> Seq<char> {
    "ram-"@ + hexadecimal(unsigned(hash), 16)
}

/// The name of the file of a configuration.
pub fn file_name(hash: i64) -> (r: String)
    ensures
        r@ == file_name_of(hash),
{
    let mut out = "ram-".to_owned();
    push_text(&mut out, hex_text(to_unsigned(hash)).as_str());
    out
}

/// Whether texts are strictly increasing.
pub open spec fn increasing_texts(s: Seq<Seq<char>>) -> bool {
    forall|i: int, j: int| 0 <= i < j < s.len() ==> before(#[trigger] s[i], #[trigger] s[j])
}

/// A row of the results: hash, instance path and status.
pub type SolvedRow = (i64, String, String);

/// Whether the first `n` rows say that the configuration solved the instance.
pub open spec fn solved_in(rows: Seq<SolvedRow>, n: int, hash: i64, path: Seq<char>) -> bool {
    exists|k: int|
        0 <= k < n && (#[trigger] rows[k]).0 == hash && rows[k].1@ == path && is_solved_status(
            rows[k].2@,
        )
}

/// The instances that a configuration solved.
#[derive(Debug)]
pub struct SolvedGroup {
    pub hash: i64,
    pub paths: Vec<String>,
}

/// Whether groups hold exactly the instances that the first `n` rows say were
/// solved: by increasing hash, in each group by increasing path, each once.
pub open spec fn groups_solved(groups: Seq<SolvedGroup>, rows: Seq<SolvedRow>, n: int) -> bool {
    &&& forall|i: int, j: int|
        0 <= i < j < groups.len() ==> (#[trigger] groups[i]).hash < (#[trigger] groups[j]).hash
    &&& forall|g: int|
        0 <= g < groups.len() ==> {
            &&& increasing_texts(texts((#[trigger] groups[g]).paths@))
            &&& groups[g].paths@.len() > 0
            &&& forall|path: Seq<char>| #[trigger]
                texts(groups[g].paths@).contains(path) <==> solved_in(rows, n, groups[g].hash, path)
        }
    &&& forall|hash: i64, path: Seq<char>| #[trigger]
        solved_in(rows, n, hash, path) ==> exists|g: int|
            0 <= g < groups.len() && (#[trigger] groups[g]).hash == hash
}

/// Adds a text to strictly increasing ones, in its place, unless it is there.
fn insert_text(paths: &mut Vec<String>, path: &String)
    requires
        increasing_texts(texts(old(paths)@)),
    ensures
        increasing_texts(texts(final(paths)@)),
        forall|p: Seq<char>| #[trigger]
            texts(final(paths)@).contains(p) <==> texts(old(paths)@).contains(p) || p == path@,
        final(paths)@.len() > 0,
{
    let ghost l = texts(paths@);
    let mut i: usize = 0;
    while i < paths.len() && is_before(paths[i].as_str(), path.as_str())
        invariant
            i <= paths.len(),
            l == texts(paths@),
            *paths == *old(paths),
            forall|j: int| 0 <= j < i ==> before(#[trigger] l[j], path@),
        decreases paths.len() - i,
    {
        assert(l[i as int] == paths@[i as int]@);
        i += 1;
    }
    if i < paths.len() {
        assert(l[i as int] == paths@[i as int]@);
        if same_text(paths[i].as_str(), path.as_str()) {
            assert(l.contains(path@));
            return;
        }
    }
    let ghost entry = path@;
    proof {
        assert forall|j: int| i <= j < l.len() implies before(entry, #[trigger] l[j]) by {
            lemma_before_total(entry, l[i as int]);
            if i < j {
                assert(before(l[i as int], l[j]));
                if before(entry, l[i as int]) {
                    lemma_before_transitive(entry, l[i as int], l[j]);
                }
            }
        }
    }
    paths.insert(i, path.clone());
    proof {
        let r = texts(paths@);
        assert(r =~= l.insert(i as int, entry));
        assert forall|a: int, b: int| 0 <= a < b < r.len() implies before(#[trigger] r[a], #[trigger] r[b]) by {
            let qa = if a < i { a } else { a - 1 };
            let qb = if b < i { b } else { b - 1 };
            if a != i && b != i {
                assert(before(l[qa], l[qb]));
            } else if a == i {
                assert(before(entry, l[qb]));
            } else {
                assert(before(l[qa], entry));
            }
        }
        assert forall|p: Seq<char>| #[trigger] r.contains(p) <==> l.contains(p) || p == entry by {
            if l.contains(p) {
                let k = choose|k: int| 0 <= k < l.len() && l[k] == p;
                assert(r[if k < i { k } else { k + 1 }] == p);
            }
            if p == entry {
                assert(r[i as int] == p);
            }
            if r.contains(p) {
                let k = choose|k: int| 0 <= k < r.len() && r[k] == p;
                if k != i {
                    assert(l[if k < i { k } else { k - 1 }] == p);
                }
            }
        }
    }
}

/// What stands under a hash.
trait Hashed {
    spec fn key(&self) -> i64;

    fn hash(&self) -> (r: i64)
        ensures
            r == self.key(),
    ;
}

impl Hashed for SolvedGroup {
    spec fn key(&self) -> i64 {
        self.hash
    }

    fn hash(&self) -> i64 {
        self.hash
    }
}

impl Hashed for RunhashSummary {
    spec fn key(&self) -> i64 {
        self.hash
    }

    fn hash(&self) -> i64 {
        self.hash
    }
}

impl Hashed for HashGroup {
    spec fn key(&self) -> i64 {
        self.hash
    }

    fn hash(&self) -> i64 {
        self.hash
    }
}

/// The position of a hash among increasing ones, or where it belongs; and whether
/// it is there.
fn place_of<T: Hashed>(entries: &Vec<T>, hash: i64) -> (r: (usize, bool))
    requires
        forall|i: int, j: int|
            0 <= i < j < entries@.len() ==> (#[trigger] entries@[i]).key() < (#[trigger] entries@[j]).key(),
    ensures
        r.0 <= entries@.len(),
        r.1 <==> r.0 < entries@.len() && entries@[r.0 as int].key() == hash,
        forall|j: int| 0 <= j < r.0 ==> (#[trigger] entries@[j]).key() < hash,
        forall|j: int| r.0 <= j < entries@.len() && !r.1 ==> hash < (#[trigger] entries@[j]).key(),
{
    let mut i: usize = 0;
    while i < entries.len() && entries[i].hash() < hash
        invariant
            i <= entries@.len(),
            forall|j: int| 0 <= j < i ==> (#[trigger] entries@[j]).key() < hash,
        decreases entries@.len() - i,
    {
        i += 1;
    }
    let found = i < entries.len() && entries[i].hash() == hash;
    proof {
        assert forall|j: int| i <= j < entries@.len() && !found implies hash < (#[trigger] entries@[j]).key() by {
            if i < j {
                assert(entries@[i as int].key() < entries@[j].key());
            }
        }
    }
    (i, found)
}

/// The instances that each configuration solved: by increasing hash, and for
/// each by increasing path without repetition. Configurations that solved none
/// do not occur.
pub fn solved_groups(rows: &Vec<SolvedRow>) -> (r: Vec<SolvedGroup>)
    ensures
        groups_solved(r@, rows@, rows@.len() as int),
{
    let mut groups: Vec<SolvedGroup> = Vec::new();
    for k in 0..rows.len()
        invariant
            groups_solved(groups@, rows@, k as int),
    {
        let ghost prev = groups@;
        let hash: i64 = rows[k].0;
        let ghost row_path = rows@[k as int].1@;
        let ghost solved_now = is_solved_status(rows@[k as int].2@);
        proof {
            assert forall|h: i64, p: Seq<char>| #[trigger] solved_in(rows@, k + 1, h, p) <==> solved_in(
                rows@,
                k as int,
                h,
                p,
            ) || (solved_now && h == hash && p == row_path) by {
                if solved_in(rows@, k as int, h, p) {
                    let j = choose|j: int|
                        0 <= j < k && (#[trigger] rows@[j]).0 == h && rows@[j].1@ == p
                            && is_solved_status(rows@[j].2@);
                    assert(0 <= j < k + 1 && rows@[j].0 == h);
                }
                if solved_now && h == hash && p == row_path {
                    assert(rows@[k as int].0 == h);
                }
            }
        }
        if is_solved(rows[k].2.as_str()) {
            let (at, found) = place_of(&groups, hash);
            if found {
                let old_group = groups.remove(at);
                let mut paths = old_group.paths;
                insert_text(&mut paths, &rows[k].1);
                groups.insert(at, SolvedGroup { hash, paths });
                proof {
                    assert(groups@ =~= prev.update(at as int, groups@[at as int]));
                    lemma_group_updated(prev, groups@, rows@, k as int, at as int);
                }
            } else {
                let mut paths: Vec<String> = Vec::new();
                insert_text(&mut paths, &rows[k].1);
                groups.insert(at, SolvedGroup { hash, paths });
                proof {
                    assert(groups@ =~= prev.insert(at as int, groups@[at as int]));
                    lemma_group_inserted(prev, groups@, rows@, k as int, at as int);
                }
            }
        }
    }
    groups
}

proof fn lemma_group_updated(prev: Seq<SolvedGroup>, next: Seq<SolvedGroup>, rows: Seq<SolvedRow>, k: int, at: int)
    requires
        groups_solved(prev, rows, k),
        0 <= at < prev.len(),
        next == prev.update(at, next[at]),
        next[at].hash == prev[at].hash == rows[k].0,
        next[at].paths@.len() > 0,
        increasing_texts(texts(next[at].paths@)),
        forall|p: Seq<char>| #[trigger]
            texts(next[at].paths@).contains(p) <==> texts(prev[at].paths@).contains(p) || p == rows[k].1@,
        is_solved_status(rows[k].2@),
        forall|h: i64, p: Seq<char>| #[trigger]
            solved_in(rows, k + 1, h, p) <==> solved_in(rows, k, h, p) || (h == rows[k].0 && p
                == rows[k].1@),
    ensures
        groups_solved(next, rows, k + 1),
{
    assert forall|g: int| 0 <= g < next.len() implies {
        &&& increasing_texts(texts((#[trigger] next[g]).paths@))
        &&& next[g].paths@.len() > 0
        &&& forall|path: Seq<char>| #[trigger]
            texts(next[g].paths@).contains(path) <==> solved_in(rows, k + 1, next[g].hash, path)
    } by {
        assert(prev[g].paths@.len() > 0);
        if g != at {
            if g < at {
                assert(prev[g].hash < prev[at].hash);
            } else {
                assert(prev[at].hash < prev[g].hash);
            }
        }
    }
    assert forall|h: i64, p: Seq<char>| #[trigger] solved_in(rows, k + 1, h, p) implies exists|g: int|
        0 <= g < next.len() && (#[trigger] next[g]).hash == h by {
        if h == rows[k].0 {
            assert(next[at].hash == h);
        } else {
            assert(solved_in(rows, k, h, p));
            let g = choose|g: int| 0 <= g < prev.len() && (#[trigger] prev[g]).hash == h;
            assert(next[g].hash == h);
        }
    }
}

proof fn lemma_group_inserted(prev: Seq<SolvedGroup>, next: Seq<SolvedGroup>, rows: Seq<SolvedRow>, k: int, at: int)
    requires
        groups_solved(prev, rows, k),
        0 <= at <= prev.len(),
        next == prev.insert(at, next[at]),
        next[at].hash == rows[k].0,
        next[at].paths@.len() > 0,
        increasing_texts(texts(next[at].paths@)),
        forall|p: Seq<char>| #[trigger] texts(next[at].paths@).contains(p) <==> p == rows[k].1@,
        forall|j: int| 0 <= j < at ==> (#[trigger] prev[j]).hash < rows[k].0,
        forall|j: int| at <= j < prev.len() ==> rows[k].0 < (#[trigger] prev[j]).hash,
        is_solved_status(rows[k].2@),
        forall|h: i64, p: Seq<char>| #[trigger]
            solved_in(rows, k + 1, h, p) <==> solved_in(rows, k, h, p) || (h == rows[k].0 && p
                == rows[k].1@),
    ensures
        groups_solved(next, rows, k + 1),
{
    assert forall|p: Seq<char>| !#[trigger] solved_in(rows, k, rows[k].0, p) by {
        if solved_in(rows, k, rows[k].0, p) {
            let g = choose|g: int| 0 <= g < prev.len() && (#[trigger] prev[g]).hash == rows[k].0;
            assert(prev[g].hash == rows[k].0);
        }
    }
    assert(forall|j: int| 0 <= j < at ==> #[trigger] next[j] == prev[j]);
    assert(forall|j: int| at < j < next.len() ==> #[trigger] next[j] == prev[j - 1]);
    assert forall|g: int| 0 <= g < next.len() implies {
        &&& increasing_texts(texts((#[trigger] next[g]).paths@))
        &&& next[g].paths@.len() > 0
        &&& forall|path: Seq<char>| #[trigger]
            texts(next[g].paths@).contains(path) <==> solved_in(rows, k + 1, next[g].hash, path)
    } by {
        if g != at {
            let q = if g < at { g } else { g - 1 };
            assert(next[g] == prev[q]);
            assert(prev[q].paths@.len() > 0);
        }
    }
    assert forall|i: int, j: int| 0 <= i < j < next.len() implies (#[trigger] next[i]).hash < (
    #[trigger] next[j]).hash by {
        let qi = if i < at { i } else { i - 1 };
        let qj = if j < at { j } else { j - 1 };
        if i != at && j != at {
            assert(prev[qi].hash < prev[qj].hash);
        } else if i == at {
            assert(rows[k].0 < prev[qj].hash);
        } else {
            assert(prev[qi].hash < rows[k].0);
        }
    }
    assert forall|h: i64, p: Seq<char>| #[trigger] solved_in(rows, k + 1, h, p) implies exists|g: int|
        0 <= g < next.len() && (#[trigger] next[g]).hash == h by {
        if h == rows[k].0 {
            assert(next[at].hash == h);
        } else {
            assert(solved_in(rows, k, h, p));
            let g = choose|g: int| 0 <= g < prev.len() && (#[trigger] prev[g]).hash == h;
            assert(next[if g < at { g } else { g + 1 }].hash == h);
        }
    }
}

/// The line of a result: path, status, runtime and fingerprint between tabs.
pub open spec fn status_text(
    path: Seq<char>,
    status: Seq<char>,
    runtime_text: Seq<char>,
    runhash: Option<i64>,
) -> Seq<char> {
    path + "\t"@ + status + "\t"@ + runtime_text + "\t"@ + match runhash {
        Some(h) => hexadecimal(unsigned(h), 16),
        None => Seq::empty(),
    }
}

/// The line of a result, where `runtime_text` writes its runtime. Without a
/// fingerprint the last field is empty.
pub fn status_line(path: &str, status: &str, runtime_text: &str, runhash: Option<i64>) -> (r: String)
    ensures
        r@ == status_text(path@, status@, runtime_text@, runhash),
{
    let mut out = path.to_owned();
    push_text(&mut out, "\t");
    push_text(&mut out, status);
    push_text(&mut out, "\t");
    push_text(&mut out, runtime_text);
    push_text(&mut out, "\t");
    match runhash {
        Some(h) => {
            push_text(&mut out, hex_text(to_unsigned(h)).as_str());
        },
        None => {
            assert(out@ + Seq::<char>::empty() =~= out@);
        },
    }
    out
}

/// The fingerprints of a configuration combined.
#[derive(Clone, Copy, Debug, PartialEq, Eq, Structural)]
pub struct RunhashSummary {
    pub hash: i64,
    /// Exclusive or of the fingerprints.
    pub runhash: u64,
    /// How many results have a fingerprint.
    pub contributors: usize,
    /// How many results there are.
    pub n: usize,
}

/// The number of the first `n` rows with that hash.
pub open spec fn results_of(rows: Seq<(i64, Option<i64>)>, hash: i64, n: nat) -> nat
    decreases n,
{
    if n == 0 {
        0
    } else {
        results_of(rows, hash, (n - 1) as nat) + if rows[n - 1].0 == hash {
            1nat
        } else {
            0nat
        }
    }
}

/// The number of the first `n` rows with that hash and a fingerprint.
pub open spec fn contributors_of(rows: Seq<(i64, Option<i64>)>, hash: i64, n: nat) -> nat
    decreases n,
{
    if n == 0 {
        0
    } else {
        contributors_of(rows, hash, (n - 1) as nat) + if rows[n - 1].0 == hash && rows[n - 1].1 is Some {
            1nat
        } else {
            0nat
        }
    }
}

/// The exclusive or of the fingerprints of the first `n` rows with that hash.
pub open spec fn combined_of(rows: Seq<(i64, Option<i64>)>, hash: i64, n: nat) -> u64
    decreases n,
{
    if n == 0 {
        0
    } else {
        let shorter = combined_of(rows, hash, (n - 1) as nat);
        match rows[n - 1].1 {
            Some(h) if rows[n - 1].0 == hash => shorter ^ (unsigned(h) as u64),
            _ => shorter,
        }
    }
}

/// The summary of a hash over the first `n` rows.
pub open spec fn summary_of(rows: Seq<(i64, Option<i64>)>, hash: i64, n: nat) -> RunhashSummary {
    RunhashSummary {
        hash,
        runhash: combined_of(rows, hash, n),
        contributors: contributors_of(rows, hash, n) as usize,
        n: results_of(rows, hash, n) as usize,
    }
}

/// Whether summaries are those of all hashes of the first `n` rows, by
/// increasing hash.
pub open spec fn summarises(s: Seq<RunhashSummary>, rows: Seq<(i64, Option<i64>)>, n: nat) -> bool {
    &&& forall|i: int, j: int| 0 <= i < j < s.len() ==> (#[trigger] s[i]).hash < (#[trigger] s[j]).hash
    &&& forall|g: int| 0 <= g < s.len() ==> (#[trigger] s[g]) == summary_of(rows, s[g].hash, n)
    &&& forall|h: i64| #[trigger]
        results_of(rows, h, n) > 0 <==> exists|g: int| 0 <= g < s.len() && (#[trigger] s[g]).hash == h
}

proof fn lemma_counts_bounded(rows: Seq<(i64, Option<i64>)>, hash: i64, n: nat)
    ensures
        contributors_of(rows, hash, n) <= results_of(rows, hash, n) <= n,
    decreases n,
{
    if n > 0 {
        lemma_counts_bounded(rows, hash, (n - 1) as nat);
    }
}

/// The summary of every hash that occurs, by increasing hash. A row is a hash
/// and the fingerprint of the result, if it has one.
pub fn runhash_summaries(rows: &Vec<(i64, Option<i64>)>) -> (r: Vec<RunhashSummary>)
    ensures
        summarises(r@, rows@, rows@.len()),
{
    let mut out: Vec<RunhashSummary> = Vec::new();
    for k in 0..rows.len()
        invariant
            summarises(out@, rows@, k as nat),
    {
        let ghost prev = out@;
        let ghost n = (k + 1) as nat;
        let row: (i64, Option<i64>) = rows[k];
        let hash: i64 = row.0;
        let (at, found) = place_of(&out, hash);
        proof {
            lemma_counts_bounded(rows@, hash, k as nat);
            lemma_counts_bounded(rows@, hash, n);
        }
        let old: RunhashSummary = if found {
            out[at]
        } else {
            proof {
                if results_of(rows@, hash, k as nat) > 0 {
                    let g = choose|g: int| 0 <= g < prev.len() && (#[trigger] prev[g]).hash == hash;
                    assert(prev[g].hash == hash);
                }
                lemma_no_results_no_combination(rows@, hash, k as nat);
            }
            RunhashSummary { hash, runhash: 0, contributors: 0, n: 0 }
        };
        assert(old == summary_of(rows@, hash, k as nat));
        let new = match row.1 {
            Some(h) => RunhashSummary {
                hash,
                runhash: old.runhash ^ to_unsigned(h),
                contributors: old.contributors + 1,
                n: old.n + 1,
            },
            None => RunhashSummary {
                hash,
                runhash: old.runhash,
                contributors: old.contributors,
                n: old.n + 1,
            },
        };
        assert(new == summary_of(rows@, hash, n));
        proof {
            assert forall|h: i64| h != hash implies #[trigger] summary_of(rows@, h, n) == summary_of(
                rows@,
                h,
                k as nat,
            ) && results_of(rows@, h, n) == results_of(rows@, h, k as nat) by {}
        }
        if found {
            out.set(at, new);
            proof {
                assert(out@ =~= prev.update(at as int, new));
                assert forall|g: int| 0 <= g < out@.len() implies (#[trigger] out@[g]) == summary_of(
                    rows@,
                    out@[g].hash,
                    n,
                ) by {
                    if g != at {
                        assert(prev[g] == summary_of(rows@, prev[g].hash, k as nat));
                        if g < at {
                            assert(prev[g].hash < prev[at as int].hash);
                        } else {
                            assert(prev[at as int].hash < prev[g].hash);
                        }
                    }
                }
                assert forall|h: i64| #[trigger] results_of(rows@, h, n) > 0 <==> exists|g: int|
                    0 <= g < out@.len() && (#[trigger] out@[g]).hash == h by {
                    if h == hash {
                        assert(out@[at as int].hash == h);
                    } else {
                        assert(summary_of(rows@, h, n) == summary_of(rows@, h, k as nat));
                        if results_of(rows@, h, k as nat) > 0 {
                            let g = choose|g: int| 0 <= g < prev.len() && (#[trigger] prev[g]).hash == h;
                            assert(out@[g].hash == h);
                        }
                        if exists|g: int| 0 <= g < out@.len() && (#[trigger] out@[g]).hash == h {
                            let g = choose|g: int| 0 <= g < out@.len() && (#[trigger] out@[g]).hash == h;
                            assert(prev[g].hash == h);
                        }
                    }
                }
            }
        } else {
            out.insert(at, new);
            proof {
                assert(out@ =~= prev.insert(at as int, new));
                assert(forall|j: int| 0 <= j < at ==> #[trigger] out@[j] == prev[j]);
                assert(forall|j: int| at < j < out@.len() ==> #[trigger] out@[j] == prev[j - 1]);
                assert forall|g: int| 0 <= g < out@.len() implies (#[trigger] out@[g]) == summary_of(
                    rows@,
                    out@[g].hash,
                    n,
                ) by {
                    if g != at {
                        let q = if g < at { g } else { g - 1 };
                        assert(out@[g] == prev[q]);
                        assert(prev[q] == summary_of(rows@, prev[q].hash, k as nat));
                        assert(prev[q].hash != hash);
                    }
                }
                assert forall|i: int, j: int| 0 <= i < j < out@.len() implies (#[trigger] out@[i]).hash < (
                #[trigger] out@[j]).hash by {
                    let qi = if i < at { i } else { i - 1 };
                    let qj = if j < at { j } else { j - 1 };
                    if i != at && j != at {
                        assert(prev[qi].hash < prev[qj].hash);
                    } else if i == at {
                        assert(hash < prev[qj].hash);
                    } else {
                        assert(prev[qi].hash < hash);
                    }
                }
                assert forall|h: i64| #[trigger] results_of(rows@, h, n) > 0 <==> exists|g: int|
                    0 <= g < out@.len() && (#[trigger] out@[g]).hash == h by {
                    if h == hash {
                        assert(out@[at as int].hash == h);
                    } else {
                        assert(summary_of(rows@, h, n) == summary_of(rows@, h, k as nat));
                        if results_of(rows@, h, k as nat) > 0 {
                            let g = choose|g: int| 0 <= g < prev.len() && (#[trigger] prev[g]).hash == h;
                            assert(out@[if g < at { g } else { g + 1 }].hash == h);
                        }
                        if exists|g: int| 0 <= g < out@.len() && (#[trigger] out@[g]).hash == h {
                            let g = choose|g: int| 0 <= g < out@.len() && (#[trigger] out@[g]).hash == h;
                            assert(g != at);
                            assert(prev[if g < at { g } else { g - 1 }].hash == h);
                        }
                    }
                }
            }
        }
    }
    out
}

proof fn lemma_no_results_no_combination(rows: Seq<(i64, Option<i64>)>, hash: i64, n: nat)
    requires
        results_of(rows, hash, n) == 0,
    ensures
        combined_of(rows, hash, n) == 0,
        contributors_of(rows, hash, n) == 0,
    decreases n,
{
    if n > 0 {
        lemma_no_results_no_combination(rows, hash, (n - 1) as nat);
    }
}

/// Whether a summary has anything to report.
pub open spec fn contributes(s: RunhashSummary) -> bool {
    s.contributors > 0
}

/// The line of a configuration: its name, the fingerprints combined, and how
/// many results there are.
pub open spec fn runhash_text(s: RunhashSummary) -> Seq<char> {
    file_name_of(s.hash) + " "@ + hexadecimal(s.runhash as nat, 16) + " "@ + decimal(s.n as nat)
}

/// The lines of the configurations with a fingerprint.
pub open spec fn runhash_report(summaries: Seq<RunhashSummary>) -> Seq<Seq<char>> {
    summaries.filter(|s: RunhashSummary| contributes(s)).map_values(|s: RunhashSummary| runhash_text(s))
}

/// Exactly the configurations with a fingerprint have a line each, in order.
pub proof fn lemma_lines_are_for_contributors(a: Seq<RunhashSummary>, s: RunhashSummary)
    ensures
        s.contributors > 0 ==> runhash_report(a.push(s)) == runhash_report(a).push(runhash_text(s)),
        s.contributors == 0 ==> runhash_report(a.push(s)) == runhash_report(a),
        runhash_report(Seq::empty()).len() == 0,
{
    let keep = |s: RunhashSummary| contributes(s);
    let show = |s: RunhashSummary| runhash_text(s);
    a.lemma_filter_push(s, keep);
    if s.contributors > 0 {
        assert(a.filter(keep).push(s).map_values(show) =~= a.filter(keep).map_values(show).push(show(s)));
    }
    assert(Seq::<RunhashSummary>::empty().filter(keep) =~= Seq::empty());
}

/// The lines of the configurations with a fingerprint, by increasing hash.
pub fn runhash_lines(summaries: &Vec<RunhashSummary>) -> (r: Vec<String>)
    ensures
        texts(r@) == summaries@.filter(|s: RunhashSummary| contributes(s)).map_values(
            |s: RunhashSummary| runhash_text(s),
        ),
        texts(r@) == runhash_report(summaries@),
{
    let ghost keep = |s: RunhashSummary| contributes(s);
    let ghost show = |s: RunhashSummary| runhash_text(s);
    let ghost all = summaries@;
    let mut out: Vec<String> = Vec::new();
    assert(all.take(0).filter(keep) =~= Seq::empty());
    assert(texts(out@) =~= all.take(0).filter(keep).map_values(show));
    for i in 0..summaries.len()
        invariant
            all == summaries@,
            keep == (|s: RunhashSummary| contributes(s)),
            show == (|s: RunhashSummary| runhash_text(s)),
            texts(out@) == all.take(i as int).filter(keep).map_values(show),
    {
        let ghost prev = texts(out@);
        let ghost kept = all.take(i as int).filter(keep);
        let s: RunhashSummary = summaries[i];
        proof {
            assert(all.take(i + 1) =~= all.take(i as int).push(s));
            all.take(i as int).lemma_filter_push(s, keep);
        }
        if s.contributors > 0 {
            let mut line = file_name(s.hash);
            push_text(&mut line, " ");
            push_text(&mut line, hex_text(s.runhash).as_str());
            push_text(&mut line, " ");
            push_decimal(&mut line, s.n as u64);
            let ghost view = line@;
            out.push(line);
            assert(texts(out@) =~= prev.push(view));
            assert(kept.push(s).map_values(show) =~= prev.push(view));
        }
    }
    assert(all.take(all.len() as int) =~= all);
    out
}

/// A configuration appears exactly if some result of it has a fingerprint, and
/// its count takes in every result, with a fingerprint or not.
pub proof fn lemma_count_takes_in_every_result(rows: Seq<(i64, Option<i64>)>, hash: i64)
    requires
        rows.len() <= usize::MAX,
    ensures
        contributes(summary_of(rows, hash, rows.len())) <==> exists|k: int|
            0 <= k < rows.len() && (#[trigger] rows[k]).0 == hash && rows[k].1 is Some,
        summary_of(rows, hash, rows.len()).n == results_of(rows, hash, rows.len()),
{
    lemma_counts_bounded(rows, hash, rows.len());
    lemma_contributors_exist(rows, hash, rows.len());
}

proof fn lemma_contributors_exist(rows: Seq<(i64, Option<i64>)>, hash: i64, n: nat)
    requires
        n <= rows.len(),
    ensures
        contributors_of(rows, hash, n) > 0 <==> exists|k: int|
            0 <= k < n && (#[trigger] rows[k]).0 == hash && rows[k].1 is Some,
    decreases n,
{
    if n > 0 {
        lemma_contributors_exist(rows, hash, (n - 1) as nat);
        if contributors_of(rows, hash, n) > 0 {
            if rows[n - 1].0 == hash && rows[n - 1].1 is Some {
                assert(rows[n - 1].0 == hash);
            } else {
                let k = choose|k: int| 0 <= k < n - 1 && (#[trigger] rows[k]).0 == hash && rows[k].1 is Some;
                assert(rows[k].0 == hash);
            }
        }
    }
}

/// The positions among the first `n` hashes at which a hash stands, in order.
pub open spec fn positions_of(hashes: Seq<i64>, hash: i64, n: nat) -> Seq<usize>
    decreases n,
{
    if n == 0 {
        Seq::empty()
    } else {
        let shorter = positions_of(hashes, hash, (n - 1) as nat);
        if hashes[n - 1] == hash {
            shorter.push((n - 1) as usize)
        } else {
            shorter
        }
    }
}

/// The positions of the rows of one configuration.
#[derive(Debug)]
pub struct HashGroup {
    pub hash: i64,
    pub rows: Vec<usize>,
}

/// Whether there is a group for a hash.
pub open spec fn has_group(groups: Seq<HashGroup>, hash: i64) -> bool {
    exists|g: int| 0 <= g < groups.len() && (#[trigger] groups[g]).hash == hash
}

/// Whether groups hold the positions of the first `n` hashes: by increasing
/// hash, in each group in order.
pub open spec fn groups_hashes(groups: Seq<HashGroup>, hashes: Seq<i64>, n: nat) -> bool {
    &&& forall|i: int, j: int|
        0 <= i < j < groups.len() ==> (#[trigger] groups[i]).hash < (#[trigger] groups[j]).hash
    &&& forall|g: int|
        0 <= g < groups.len() ==> (#[trigger] groups[g]).rows@ == positions_of(hashes, groups[g].hash, n)
            && groups[g].rows@.len() > 0
    &&& forall|k: int| 0 <= k < n ==> has_group(groups, #[trigger] hashes[k])
}

/// The rows of each configuration, of which the hashes are given row by row: by
/// increasing hash, the rows of each in order.
pub fn group_rows(hashes: &Vec<i64>) -> (r: Vec<HashGroup>)
    ensures
        groups_hashes(r@, hashes@, hashes@.len()),
{
    let mut out: Vec<HashGroup> = Vec::new();
    for k in 0..hashes.len()
        invariant
            groups_hashes(out@, hashes@, k as nat),
    {
        let ghost prev = out@;
        let ghost n = (k + 1) as nat;
        let hash: i64 = hashes[k];
        let (at, found) = place_of(&out, hash);
        proof {
            assert forall|h: i64| h != hash implies #[trigger] positions_of(hashes@, h, n) == positions_of(
                hashes@,
                h,
                k as nat,
            ) by {}
        }
        if found {
            let group = out.remove(at);
            let mut rows = group.rows;
            rows.push(k);
            out.insert(at, HashGroup { hash, rows });
            proof {
                assert(out@ =~= prev.update(at as int, out@[at as int]));
                assert forall|g: int| 0 <= g < out@.len() implies (#[trigger] out@[g]).rows@ == positions_of(
                    hashes@,
                    out@[g].hash,
                    n,
                ) && out@[g].rows@.len() > 0 by {
                    assert(prev[g].rows@.len() > 0);
                    if g < at {
                        assert(prev[g].hash < prev[at as int].hash);
                    } else if g > at {
                        assert(prev[at as int].hash < prev[g].hash);
                    }
                }
                assert forall|j: int| 0 <= j < n implies has_group(out@, #[trigger] hashes@[j]) by {
                    if j == k {
                        assert(out@[at as int].hash == hashes@[j]);
                    } else {
                        assert(has_group(prev, hashes@[j]));
                        let g = choose|g: int| 0 <= g < prev.len() && (#[trigger] prev[g]).hash == hashes@[j];
                        assert(out@[g].hash == hashes@[j]);
                    }
                }
            }
        } else {
            let mut rows: Vec<usize> = Vec::new();
            rows.push(k);
            proof {
                lemma_no_positions(hashes@, hash, k as nat, prev);
                assert(rows@ =~= positions_of(hashes@, hash, n));
            }
            out.insert(at, HashGroup { hash, rows });
            proof {
                assert(out@ =~= prev.insert(at as int, out@[at as int]));
                assert(forall|j: int| 0 <= j < at ==> #[trigger] out@[j] == prev[j]);
                assert(forall|j: int| at < j < out@.len() ==> #[trigger] out@[j] == prev[j - 1]);
                assert forall|g: int| 0 <= g < out@.len() implies (#[trigger] out@[g]).rows@ == positions_of(
                    hashes@,
                    out@[g].hash,
                    n,
                ) && out@[g].rows@.len() > 0 by {
                    if g != at {
                        let q = if g < at { g } else { g - 1 };
                        assert(out@[g] == prev[q]);
                        assert(prev[q].rows@.len() > 0);
                    }
                }
                assert forall|i: int, j: int| 0 <= i < j < out@.len() implies (#[trigger] out@[i]).hash < (
                #[trigger] out@[j]).hash by {
                    let qi = if i < at { i } else { i - 1 };
                    let qj = if j < at { j } else { j - 1 };
                    if i != at && j != at {
                        assert(prev[qi].hash < prev[qj].hash);
                    } else if i == at {
                        assert(hash < prev[qj].hash);
                    } else {
                        assert(prev[qi].hash < hash);
                    }
                }
                assert forall|j: int| 0 <= j < n implies has_group(out@, #[trigger] hashes@[j]) by {
                    if j == k {
                        assert(out@[at as int].hash == hashes@[j]);
                    } else {
                        assert(has_group(prev, hashes@[j]));
                        let g = choose|g: int| 0 <= g < prev.len() && (#[trigger] prev[g]).hash == hashes@[j];
                        assert(out@[if g < at { g } else { g + 1 }].hash == hashes@[j]);
                    }
                }
            }
        }
    }
    out
}

proof fn lemma_no_positions(hashes: Seq<i64>, hash: i64, n: nat, groups: Seq<HashGroup>)
    requires
        forall|g: int| 0 <= g < groups.len() ==> (#[trigger] groups[g]).hash != hash,
        forall|k: int| 0 <= k < n ==> has_group(groups, #[trigger] hashes[k]),
    ensures
        positions_of(hashes, hash, n) == Seq::<usize>::empty(),
    decreases n,
{
    if n > 0 {
        lemma_no_positions(hashes, hash, (n - 1) as nat, groups);
        assert(has_group(groups, hashes[n - 1]));
        let g = choose|g: int| 0 <= g < groups.len() && (#[trigger] groups[g]).hash == hashes[n - 1];
        assert(groups[g].hash != hash);
    }
}

/// Why a recorded configuration cannot be exported.
pub enum ConfError {
    /// The record is not a configuration in JSON.
    Corrupt(serde_json::Error),
    /// The configuration cannot be written as YAML.
    Unwritable(serde_yaml::Error),
}

/// The export of a recorded configuration: the record itself and a line feed, or
/// the configuration as YAML.
pub fn conf_body(json: &str, as_json: bool) -> (r: Result<String, ConfError>)
    ensures
        if as_json {
            r matches Ok(body) && body@ == json@ + "\n"@
        } else {
            match json_reading(json@) {
                None => r matches Err(ConfError::Corrupt(_)),
                Some(pairs) => match (r, yaml_text(listing(collected(pairs)))) {
                    (Ok(body), Some(text)) => body@ == text,
                    (Err(ConfError::Unwritable(_)), None) => true,
                    _ => false,
                },
            }
        },
{
    if as_json {
        let mut body = json.to_owned();
        push_text(&mut body, "\n");
        return Ok(body);
    }
    match config_from_json(json) {
        Err(e) => Err(ConfError::Corrupt(e)),
        Ok(config) => match config_to_yaml(&config) {
            Ok(text) => Ok(text),
            Err(e) => Err(ConfError::Unwritable(e)),
        },
    }
}

/// What counts as solved: the success statuses of TPTP and of SMT-LIB, letter by
/// letter, and nothing else.
pub proof fn lemma_solved_statuses(status: Seq<char>)
    ensures
        status == "Theorem"@ || status == "Unsatisfiable"@ || status == "Satisfiable"@ || status
            == "CounterSatisfiable"@ || status == "ContradictoryAxioms"@ || status == "sat"@ || status
            == "unsat"@ <==> is_solved_status(status),
{
}

/// Different hashes have different unsigned numbers, which leave the same rest on
/// division by 2^64, and so different file names.
pub proof fn lemma_file_names_tell_hashes_apart(a: i64, b: i64)
    ensures
        0 <= unsigned(a) <= u64::MAX,
        (unsigned(a) - a) % 0x1_0000_0000_0000_0000 == 0,
        a >= 0 ==> unsigned(a) == a,
        unsigned(a) == unsigned(b) ==> a == b,
        file_name_of(a) == file_name_of(b) ==> a == b,
        "ram-"@.is_prefix_of(file_name_of(a)),
        hex_u64(file_name_of(a).skip("ram-"@.len() as int)) == Some(unsigned(a) as u64),
{
    lemma_hash_text_reads_back(unsigned(a) as u64);
    lemma_hash_text_reads_back(unsigned(b) as u64);
    let p = "ram-"@;
    assert(file_name_of(a).skip(p.len() as int) =~= hexadecimal(unsigned(a), 16));
    assert(file_name_of(b).skip(p.len() as int) =~= hexadecimal(unsigned(b), 16));
    assert(file_name_of(a).subrange(0, p.len() as int) =~= p);
}

/// An instance is listed for a configuration exactly if some row says that the
/// configuration solved it.
pub proof fn lemma_solved_instances_are_listed(groups: Seq<SolvedGroup>, rows: Seq<SolvedRow>, hash: i64, path: Seq<char>)
    requires
        groups_solved(groups, rows, rows.len() as int),
    ensures
        (exists|g: int|
            0 <= g < groups.len() && (#[trigger] groups[g]).hash == hash && texts(groups[g].paths@).contains(
                path,
            )) <==> exists|k: int|
            0 <= k < rows.len() && (#[trigger] rows[k]).0 == hash && rows[k].1@ == path && is_solved_status(
                rows[k].2@,
            ),
        forall|i: int, j: int|
            0 <= i < j < groups.len() ==> (#[trigger] groups[i]).hash < (#[trigger] groups[j]).hash,
        forall|g: int|
            0 <= g < groups.len() ==> (#[trigger] groups[g]).paths@.len() > 0 && increasing_texts(
                texts(groups[g].paths@),
            ),
{
    let n = rows.len() as int;
    if exists|k: int|
        0 <= k < rows.len() && (#[trigger] rows[k]).0 == hash && rows[k].1@ == path && is_solved_status(
            rows[k].2@,
        ) {
        assert(solved_in(rows, n, hash, path));
        let g = choose|g: int| 0 <= g < groups.len() && (#[trigger] groups[g]).hash == hash;
        assert(texts(groups[g].paths@).contains(path));
    }
    if exists|g: int|
        0 <= g < groups.len() && (#[trigger] groups[g]).hash == hash && texts(groups[g].paths@).contains(path) {
        let g = choose|g: int|
            0 <= g < groups.len() && (#[trigger] groups[g]).hash == hash && texts(groups[g].paths@).contains(
                path,
            );
        assert(solved_in(rows, n, groups[g].hash, path));
    }
}

/// One more row adds one result to its configuration, its fingerprint to the
/// combined one if it has one, and nothing to any other configuration.
pub proof fn lemma_row_adds_to_its_summary(rows: Seq<(i64, Option<i64>)>, row: (i64, Option<i64>), hash: i64)
    requires
        rows.len() < usize::MAX,
    ensures
        ({
            let before = summary_of(rows, hash, rows.len());
            let after = summary_of(rows.push(row), hash, rows.len() + 1);
            &&& row.0 != hash ==> after == before
            &&& row.0 == hash ==> after.n == before.n + 1
            &&& row.0 == hash ==> after.contributors == before.contributors + if row.1 is Some {
                1int
            } else {
                0int
            }
            &&& row.0 == hash && row.1 is None ==> after.runhash == before.runhash
            &&& row.0 == hash && row.1 is Some ==> after.runhash ^ before.runhash == unsigned(row.1->Some_0) as u64
            &&& summary_of(rows, hash, 0).n == 0 && summary_of(rows, hash, 0).contributors == 0 && summary_of(
                rows,
                hash,
                0,
            ).runhash == 0
            &&& after.hash == hash
        }),
{
    let n = rows.len();
    lemma_summary_looks_at_the_first(rows, rows.push(row), hash, n);
    lemma_counts_bounded(rows, hash, n);
    lemma_counts_bounded(rows.push(row), hash, n + 1);
    if let Some(h) = row.1 {
        let a = combined_of(rows, hash, n);
        let b = unsigned(h) as u64;
        assert((a ^ b) ^ a == b) by (bit_vector);
    }
}

proof fn lemma_summary_looks_at_the_first(
    a: Seq<(i64, Option<i64>)>,
    b: Seq<(i64, Option<i64>)>,
    hash: i64,
    n: nat,
)
    requires
        n <= a.len(),
        n <= b.len(),
        forall|i: int| 0 <= i < a.len() && i < b.len() ==> #[trigger] a[i] == b[i],
    ensures
        results_of(a, hash, n) == results_of(b, hash, n),
        contributors_of(a, hash, n) == contributors_of(b, hash, n),
        combined_of(a, hash, n) == combined_of(b, hash, n),
    decreases n,
{
    if n > 0 {
        assert(a[n - 1] == b[n - 1]);
        lemma_summary_looks_at_the_first(a, b, hash, (n - 1) as nat);
    }
}

/// There is one summary for each configuration that has a result.
pub proof fn lemma_every_configuration_is_summarised(s: Seq<RunhashSummary>, rows: Seq<(i64, Option<i64>)>, k: int)
    requires
        summarises(s, rows, rows.len()),
        0 <= k < rows.len(),
    ensures
        exists|g: int| 0 <= g < s.len() && (#[trigger] s[g]).hash == rows[k].0,
        forall|g: int|
            0 <= g < s.len() ==> exists|j: int| 0 <= j < rows.len() && (#[trigger] rows[j]).0 == (
            #[trigger] s[g]).hash,
        forall|g: int| 0 <= g < s.len() ==> (#[trigger] s[g]) == summary_of(rows, s[g].hash, rows.len()),
        forall|i: int, j: int| 0 <= i < j < s.len() ==> (#[trigger] s[i]).hash < (#[trigger] s[j]).hash,
{
    lemma_results_exist(rows, rows[k].0, rows.len());
    assert(results_of(rows, rows[k].0, rows.len()) > 0);
    assert forall|g: int| 0 <= g < s.len() implies exists|j: int|
        0 <= j < rows.len() && (#[trigger] rows[j]).0 == (#[trigger] s[g]).hash by {
        lemma_results_exist(rows, s[g].hash, rows.len());
        assert(results_of(rows, s[g].hash, rows.len()) > 0);
    }
}

proof fn lemma_results_exist(rows: Seq<(i64, Option<i64>)>, hash: i64, n: nat)
    requires
        n <= rows.len(),
    ensures
        results_of(rows, hash, n) > 0 <==> exists|k: int| 0 <= k < n && (#[trigger] rows[k]).0 == hash,
    decreases n,
{
    if n > 0 {
        lemma_results_exist(rows, hash, (n - 1) as nat);
        if results_of(rows, hash, n) > 0 {
            if rows[n - 1].0 == hash {
                assert(rows[n - 1].0 == hash);
            } else {
                let k = choose|k: int| 0 <= k < n - 1 && (#[trigger] rows[k]).0 == hash;
                assert(rows[k].0 == hash);
            }
        }
        if exists|k: int| 0 <= k < n && (#[trigger] rows[k]).0 == hash {
            let k = choose|k: int| 0 <= k < n && (#[trigger] rows[k]).0 == hash;
            if k < n - 1 {
                assert(rows[k].0 == hash);
            }
        }
    }
}

/// Every row is in the group of its hash, every group holds rows of its hash only,
/// and the groups come by increasing hash.
pub proof fn lemma_every_row_is_in_its_group(groups: Seq<HashGroup>, hashes: Seq<i64>, k: int)
    requires
        groups_hashes(groups, hashes, hashes.len()),
        hashes.len() <= usize::MAX,
        0 <= k < hashes.len(),
    ensures
        exists|g: int|
            0 <= g < groups.len() && (#[trigger] groups[g]).hash == hashes[k] && groups[g].rows@.contains(
                k as usize,
            ),
        forall|g: int|
            0 <= g < groups.len() && (#[trigger] groups[g]).rows@.contains(k as usize) ==> groups[g].hash
                == hashes[k],
        forall|i: int, j: int|
            0 <= i < j < groups.len() ==> (#[trigger] groups[i]).hash < (#[trigger] groups[j]).hash,
{
    let n = hashes.len();
    assert(has_group(groups, hashes[k]));
    let g = choose|g: int| 0 <= g < groups.len() && (#[trigger] groups[g]).hash == hashes[k];
    lemma_positions_are_all_there(hashes, hashes[k], n);
    assert(groups[g].rows@ == positions_of(hashes, groups[g].hash, n));
    assert forall|h: int|
        0 <= h < groups.len() && (#[trigger] groups[h]).rows@.contains(k as usize) implies groups[h].hash
        == hashes[k] by {
        lemma_positions_are_all_there(hashes, groups[h].hash, n);
        assert(groups[h].rows@ == positions_of(hashes, groups[h].hash, n));
    }
}

/// The positions of a hash are exactly those at which it stands, in order.
pub proof fn lemma_positions_are_all_there(hashes: Seq<i64>, hash: i64, n: nat)
    requires
        n <= hashes.len() <= usize::MAX,
    ensures
        forall|k: int|
            0 <= k < n ==> (positions_of(hashes, hash, n).contains(k as usize) <==> #[trigger] hashes[k] == hash),
        forall|i: int, j: int|
            0 <= i < j < positions_of(hashes, hash, n).len() ==> (#[trigger] positions_of(hashes, hash, n)[i]) < (
            #[trigger] positions_of(hashes, hash, n)[j]),
        forall|i: int|
            0 <= i < positions_of(hashes, hash, n).len() ==> (#[trigger] positions_of(hashes, hash, n)[i]) < n,
    decreases n,
{
    if n > 0 {
        let m = (n - 1) as nat;
        lemma_positions_are_all_there(hashes, hash, m);
        let shorter = positions_of(hashes, hash, m);
        let longer = positions_of(hashes, hash, n);
        assert forall|i: int| 0 <= i < longer.len() implies (#[trigger] longer[i]) < n by {
            if i < shorter.len() {
                assert(longer[i] == shorter[i]);
                assert(shorter[i] < m);
            }
        }
        assert forall|i: int, j: int| 0 <= i < j < longer.len() implies (#[trigger] longer[i]) < (
        #[trigger] longer[j]) by {
            assert(longer[i] == shorter[i]);
            assert(shorter[i] < m);
            if j < shorter.len() {
                assert(longer[j] == shorter[j]);
            }
        }
        assert forall|k: int| 0 <= k < n implies (longer.contains(k as usize) <==> #[trigger] hashes[k] == hash) by {
            if k < m {
                if shorter.contains(k as usize) {
                    let x = choose|x: int| 0 <= x < shorter.len() && shorter[x] == k as usize;
                    assert(longer[x] == k as usize);
                }
                if longer.contains(k as usize) {
                    let x = choose|x: int| 0 <= x < longer.len() && longer[x] == k as usize;
                    assert(shorter[x] == k as usize);
                }
            } else {
                if hashes[k] == hash {
                    assert(longer[longer.len() - 1] == k as usize);
                } else if longer.contains(k as usize) {
                    let x = choose|x: int| 0 <= x < longer.len() && longer[x] == k as usize;
                    assert(shorter[x] < m);
                }
            }
        }
    }
}

/// The fields of a result line stand between tabs: path, status, runtime and
/// fingerprint, the last empty if there is none.
pub proof fn lemma_status_line_is_taken_apart(
    path: Seq<char>,
    status: Seq<char>,
    runtime_text: Seq<char>,
    runhash: Option<i64>,
)
    requires
        !path.contains('\t'),
        !status.contains('\t'),
        !runtime_text.contains('\t'),
    ensures
        ({
            let fields = pieces(status_text(path, status, runtime_text, runhash), '\t');
            &&& fields.len() == 4
            &&& fields[0] == path
            &&& fields[1] == status
            &&& fields[2] == runtime_text
            &&& runhash is None ==> fields[3].len() == 0
            &&& runhash matches Some(h) ==> hex_u64(fields[3]) == Some(unsigned(h) as u64) && fields[3].len() == 16
        }),
{
    reveal_strlit("\t");
    assert("\t"@ =~= seq!['\t']);
    let last = match runhash {
        Some(h) => hexadecimal(unsigned(h), 16),
        None => Seq::empty(),
    };
    assert(!last.contains('\t')) by {
        if let Some(h) = runhash {
            lemma_hexadecimal_reads_back(unsigned(h), 16);
            lemma_hash_text_reads_back(unsigned(h) as u64);
            assert forall|i: int| 0 <= i < last.len() implies last[i] != '\t' by {
                assert(digit_value(last[i]) is Some);
            }
        }
    }
    if let Some(h) = runhash {
        lemma_hexadecimal_reads_back(unsigned(h), 16);
        lemma_hash_text_reads_back(unsigned(h) as u64);
    }
    let parts = seq![path, status, runtime_text, last];
    assert(joined(parts, seq!['\t']) =~= path + seq!['\t'] + status + seq!['\t'] + runtime_text + seq!['\t'] + last)
        by {
        let p3 = parts.drop_last();
        let p2 = p3.drop_last();
        let p1 = p2.drop_last();
        assert(joined(p1, seq!['\t']) == p1[0]);
        assert(joined(p2, seq!['\t']) == joined(p1, seq!['\t']) + seq!['\t'] + p2.last());
        assert(joined(p3, seq!['\t']) == joined(p2, seq!['\t']) + seq!['\t'] + p3.last());
    }
    assert forall|i: int| 0 <= i < parts.len() implies !(#[trigger] parts[i]).contains('\t') by {}
    lemma_joined_is_taken_apart(parts, '\t');
}

/// The line of a configuration tells, word by word, its file name, the combined
/// fingerprint and how many results there are.
pub proof fn lemma_runhash_line_tells_three_words(s: RunhashSummary)
    ensures
        words(runhash_text(s)) == seq![
            file_name_of(s.hash),
            hexadecimal(s.runhash as nat, 16),
            decimal(s.n as nat),
        ],
        hex_u64(hexadecimal(s.runhash as nat, 16)) == Some(s.runhash),
        contributes(s) <==> s.contributors > 0,
{
    reveal_strlit(" ");
    reveal_strlit("ram-");
    assert(" "@ =~= seq![' ']);
    let (a, b, c) = (file_name_of(s.hash), hexadecimal(s.runhash as nat, 16), decimal(s.n as nat));
    lemma_hash_text_reads_back(s.runhash);
    lemma_hexadecimal_reads_back(s.runhash as nat, 16);
    lemma_hexadecimal_reads_back(unsigned(s.hash), 16);
    lemma_decimal_reads_back(s.n as nat);
    let h = hexadecimal(unsigned(s.hash), 16);
    assert forall|i: int| 0 <= i < a.len() implies !white(#[trigger] a[i]) by {
        if i >= 4 {
            assert(a[i] == h[i - 4]);
            assert(digit_value(h[i - 4]) is Some);
        }
    }
    assert forall|i: int| 0 <= i < b.len() implies !white(#[trigger] b[i]) by {
        assert(digit_value(b[i]) is Some);
    }
    assert forall|i: int| 0 <= i < c.len() implies !white(#[trigger] c[i]) by {
        assert('0' <= c[i] <= '9');
    }
    lemma_words_of_two_texts(a, ' ', b);
    lemma_words_of_two_texts(a + seq![' '] + b, ' ', c);
    lemma_words_are_separated_by_white(a, ' ', Seq::empty());
    lemma_words_are_separated_by_white(b, ' ', Seq::empty());
    lemma_words_are_separated_by_white(c, ' ', Seq::empty());
    assert(words(runhash_text(s)) =~= seq![a, b, c]);
}

} // verus!
