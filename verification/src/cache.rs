//! The rules of the result cache: which results it keeps, and what it answers.
//!
//! One row is kept for each pair of configuration and instance. A result is
//! never replaced, except that a timeout gives way to any other result and to a
//! timeout at a greater cutoff.

use crate::config::{
    collected, distinct_names, lemma_listing_unique, lemma_order_is_irrelevant, listing, lists, pair_views,
    Assignment, Config,
};
use crate::measure::Measure;
use crate::params::ParamSpace;
use crate::text::{
    chars_of, contains_text, decimal, decimal_number, equal_ignoring_case, join, joined, lemma_decimal_reads_back,
    lemma_joined_is_taken_apart, pieces, push_decimal, same_ignoring_case, same_text, texts,
};
use vstd::prelude::*;

verus! {

/// The quality of a run that was cut off or gave no result: ten million.
pub const PENALTY_BITS: u64 = 0x4163_12d0_0000_0000;

/// A single cached solver result.
#[derive(Clone, Debug)]
pub struct CachedResult {
    pub runtime: Measure,
    pub quality: Measure,
    pub status: String,
    pub runhash: Option<u64>,
}

/// A row of the cache: a result and the cutoff that it was obtained with.
#[derive(Debug)]
pub struct StoredResult {
    pub result: CachedResult,
    pub cutoff: Measure,
}

/// A result by the values that it holds.
pub struct ResultView {
    pub runtime: Measure,
    pub quality: Measure,
    pub status: Seq<char>,
    pub runhash: Option<u64>,
}

/// A row by the values that it holds.
pub struct RowView {
    pub result: ResultView,
    pub cutoff: Measure,
}

impl View for CachedResult {
    type V = ResultView;

    open spec fn view(&self) -> ResultView {
        ResultView {
            runtime: self.runtime,
            quality: self.quality,
            status: self.status@,
            runhash: self.runhash,
        }
    }
}

impl View for StoredResult {
    type V = RowView;

    open spec fn view(&self) -> RowView {
        RowView { result: self.result@, cutoff: self.cutoff }
    }
}

/// The penalty quality.
pub open spec fn penalty() -> Measure {
    Measure { bits: PENALTY_BITS }
}

/// Whether a status says that the run was cut off.
pub open spec fn is_timeout_status(status: Seq<char>) -> bool {
    same_ignoring_case(status, "timeout"@)
}

/// Whether a result with the given status and cutoff takes the place of the one
/// that is kept, of which status and cutoff are given.
pub open spec fn overrides(kept: Option<(Seq<char>, Measure)>, status: Seq<char>, cutoff: Measure) -> bool {
    match kept {
        None => true,
        Some((kept_status, kept_cutoff)) => is_timeout_status(kept_status) && (!is_timeout_status(
            status,
        ) || kept_cutoff.below(cutoff)),
    }
}

/// Whether a new result takes the place of the one that is kept.
pub open spec fn replaces(kept: Option<RowView>, new: RowView) -> bool {
    overrides(
        match kept {
            Some(k) => Some((k.result.status, k.cutoff)),
            None => None,
        },
        new.result.status,
        new.cutoff,
    )
}

/// The row that is kept after a new result.
pub open spec fn kept_after(kept: Option<RowView>, new: RowView) -> RowView {
    match kept {
        Some(k) if !replaces(kept, new) => k,
        _ => new,
    }
}

/// What the cache answers for a row to a request at a cutoff.
///
/// A timeout at a smaller cutoff says nothing. A longer run than the cutoff
/// allows is a timeout at that cutoff.
pub open spec fn answer(row: RowView, requested: Measure) -> Option<ResultView> {
    if is_timeout_status(row.result.status) {
        if row.cutoff.below(requested) {
            None
        } else {
            Some(ResultView { runtime: requested, ..row.result })
        }
    } else if requested.below(row.result.runtime) {
        Some(
            ResultView {
                runtime: requested,
                quality: penalty(),
                status: "TIMEOUT"@,
                runhash: None,
            },
        )
    } else {
        Some(row.result)
    }
}

/// The row that is kept after a sequence of results, if there was any.
pub open spec fn kept_after_all(results: Seq<RowView>) -> Option<RowView>
    decreases results.len(),
{
    if results.len() == 0 {
        None
    } else {
        Some(kept_after(kept_after_all(results.drop_last()), results.last()))
    }
}

/// A result that is no timeout is kept whatever follows it.
pub proof fn lemma_solved_result_is_kept(kept: RowView, new: RowView)
    requires
        !is_timeout_status(kept.result.status),
    ensures
        kept_after(Some(kept), new) == kept,
{
}

/// The cutoff of a kept timeout never decreases while it stays a timeout.
pub proof fn lemma_timeout_cutoff_grows(kept: RowView, new: RowView)
    requires
        is_timeout_status(kept.result.status),
        is_timeout_status(kept_after(Some(kept), new).result.status),
        !kept.cutoff.nan(),
    ensures
        kept.cutoff.at_most(kept_after(Some(kept), new).cutoff),
{
}

/// Storing the same result a second time changes nothing.
pub proof fn lemma_storing_twice_is_storing_once(kept: Option<RowView>, new: RowView)
    ensures
        kept_after(Some(kept_after(kept, new)), new) == kept_after(kept, new),
{
}

/// What was kept is one of the results that were stored.
pub proof fn lemma_kept_was_stored(results: Seq<RowView>)
    ensures
        kept_after_all(results) is None <==> results.len() == 0,
        kept_after_all(results) matches Some(row) ==> results.contains(row),
    decreases results.len(),
{
    if results.len() > 0 {
        let shorter = results.drop_last();
        lemma_kept_was_stored(shorter);
        let last = results.last();
        assert(results[results.len() - 1] == last);
        if let Some(k) = kept_after_all(shorter) {
            let i = choose|i: int| 0 <= i < shorter.len() && shorter[i] == k;
            assert(results[i] == k);
        }
    }
}

/// Of a sequence of results the first that is no timeout is kept, whatever comes
/// before and after it.
pub proof fn lemma_first_solved_result_is_kept(results: Seq<RowView>, i: int)
    requires
        0 <= i < results.len(),
        !is_timeout_status(results[i].result.status),
        forall|j: int| 0 <= j < i ==> is_timeout_status((#[trigger] results[j]).result.status),
    ensures
        kept_after_all(results) == Some(results[i]),
    decreases results.len(),
{
    let shorter = results.drop_last();
    if i < shorter.len() {
        assert forall|j: int| 0 <= j < i implies is_timeout_status((#[trigger] shorter[j]).result.status) by {
            assert(shorter[j] == results[j]);
        }
        lemma_first_solved_result_is_kept(shorter, i);
    } else {
        lemma_kept_was_stored(shorter);
        if let Some(k) = kept_after_all(shorter) {
            let j = choose|j: int| 0 <= j < shorter.len() && shorter[j] == k;
            assert(results[j] == k);
        }
    }
}

/// Of a sequence of timeouts one with the greatest cutoff is kept.
pub proof fn lemma_longest_timeout_is_kept(results: Seq<RowView>, i: int)
    requires
        0 <= i < results.len(),
        forall|j: int|
            0 <= j < results.len() ==> is_timeout_status((#[trigger] results[j]).result.status)
                && !results[j].cutoff.nan(),
    ensures
        kept_after_all(results) matches Some(row) && results[i].cutoff.at_most(row.cutoff),
    decreases results.len(),
{
    let shorter = results.drop_last();
    assert(!results[results.len() - 1].cutoff.nan());
    if shorter.len() > 0 {
        assert forall|j: int| 0 <= j < shorter.len() implies is_timeout_status(
            (#[trigger] shorter[j]).result.status,
        ) && !shorter[j].cutoff.nan() by {
            assert(shorter[j] == results[j]);
        }
        lemma_longest_timeout_is_kept(shorter, if i < shorter.len() { i } else { 0 });
        lemma_kept_was_stored(shorter);
        let k = kept_after_all(shorter)->Some_0;
        let j = choose|j: int| 0 <= j < shorter.len() && shorter[j] == k;
        assert(is_timeout_status(shorter[j].result.status));
    }
}

/// What was written first is read back: a request at the cutoff of the only
/// stored result answers that result, unless the run went past its own cutoff.
pub proof fn lemma_read_gives_back_write(row: RowView)
    requires
        !row.cutoff.below(row.result.runtime),
        is_timeout_status(row.result.status) ==> row.result.runtime == row.cutoff,
    ensures
        answer(kept_after(None, row), row.cutoff) == Some(row.result),
{
}

/// An answer at a cutoff never reports a longer run than the cutoff.
pub proof fn lemma_answer_respects_cutoff(row: RowView, requested: Measure)
    requires
        !requested.nan(),
    ensures
        answer(row, requested) matches Some(r) ==> !requested.below(r.runtime),
{
}

/// A stored result that is no timeout and whose run was no longer than the
/// requested cutoff is answered unchanged, whatever cutoff it was stored with.
pub proof fn lemma_result_within_the_cutoff_is_answered_unchanged(row: RowView, requested: Measure)
    requires
        !is_timeout_status(row.result.status),
        !requested.below(row.result.runtime),
    ensures
        answer(row, requested) == Some(row.result),
{
}

/// What is answered for a result that is no timeout does not depend on the cutoff
/// that it was stored with.
pub proof fn lemma_stored_cutoff_matters_for_timeouts_only(row: RowView, other: RowView, requested: Measure)
    requires
        row.result == other.result,
        !is_timeout_status(row.result.status),
    ensures
        answer(row, requested) == answer(other, requested),
        answer(row, requested) is Some,
{
}

/// A longer run than the requested cutoff is answered as a timeout at that
/// cutoff, with the penalty for its quality and no fingerprint.
pub proof fn lemma_longer_run_is_answered_as_a_timeout(row: RowView, requested: Measure)
    requires
        !is_timeout_status(row.result.status),
        requested.below(row.result.runtime),
    ensures
        answer(row, requested) matches Some(r) && r.runtime == requested && r.status == "TIMEOUT"@
            && is_timeout_status(r.status) && r.quality == (Measure { bits: 0x4163_12d0_0000_0000 })
            && r.runhash is None,
{
    reveal_strlit("TIMEOUT");
    reveal_strlit("timeout");
}

/// A timeout is answered exactly at cutoffs that are not greater than its own, as
/// a timeout at the requested cutoff and otherwise unchanged.
pub proof fn lemma_timeout_is_answered_up_to_its_cutoff(row: RowView, requested: Measure)
    requires
        is_timeout_status(row.result.status),
    ensures
        answer(row, requested) is None <==> row.cutoff.below(requested),
        answer(row, requested) matches Some(r) ==> r.runtime == requested && r.status == row.result.status
            && r.quality == row.result.quality && r.runhash == row.result.runhash,
{
}

/// What is answered at a cutoff is answered at every smaller one, and there it is
/// what the answer itself would give if it were stored.
pub proof fn lemma_answers_nest(row: RowView, greater: Measure, smaller: Measure)
    requires
        smaller.at_most(greater),
        answer(row, greater) is Some,
        !row.result.runtime.nan(),
        !row.cutoff.nan(),
    ensures
        answer(row, smaller) is Some,
        answer(
            RowView { result: answer(row, greater)->Some_0, cutoff: greater },
            smaller,
        ) matches Some(again) && again.runtime == answer(row, smaller)->Some_0.runtime && is_timeout_status(
            again.status,
        ) == is_timeout_status(answer(row, smaller)->Some_0.status),
{
    reveal_strlit("TIMEOUT");
    reveal_strlit("timeout");
}

/// A status says that a run was cut off exactly if it reads `timeout` in capital
/// or small letters.
pub proof fn lemma_timeouts_are_told_by_their_letters(status: Seq<char>)
    ensures
        is_timeout_status(status) <==> {
            &&& status.len() == 7
            &&& status[0] == 't' || status[0] == 'T'
            &&& status[1] == 'i' || status[1] == 'I'
            &&& status[2] == 'm' || status[2] == 'M'
            &&& status[3] == 'e' || status[3] == 'E'
            &&& status[4] == 'o' || status[4] == 'O'
            &&& status[5] == 'u' || status[5] == 'U'
            &&& status[6] == 't' || status[6] == 'T'
        },
{
    reveal_strlit("timeout");
}

/// The first result is kept. A timeout gives way to every result that is none,
/// and to a timeout exactly if that has a greater cutoff.
pub proof fn lemma_timeouts_give_way(kept: RowView, new: RowView)
    ensures
        kept_after(None, new) == new,
        is_timeout_status(kept.result.status) && !is_timeout_status(new.result.status) ==> kept_after(
            Some(kept),
            new,
        ) == new,
        is_timeout_status(kept.result.status) && is_timeout_status(new.result.status) && kept.cutoff.below(
            new.cutoff,
        ) ==> kept_after(Some(kept), new) == new,
        is_timeout_status(kept.result.status) && is_timeout_status(new.result.status)
            && !kept.cutoff.below(new.cutoff) ==> kept_after(Some(kept), new) == kept,
{
}

/// Storing a result loses no answer: what could be answered before can be
/// answered after.
pub proof fn lemma_storing_loses_no_answer(kept: RowView, new: RowView, requested: Measure)
    requires
        answer(kept, requested) is Some,
        !kept.cutoff.nan(),
        !new.cutoff.nan(),
        !requested.nan(),
    ensures
        answer(kept_after(Some(kept), new), requested) is Some,
{
}

/// The row that the cache keeps after a new result.
pub fn merge(kept: Option<StoredResult>, new: StoredResult) -> (r: StoredResult)
    ensures
        r@ == kept_after(
            match kept {
                Some(k) => Some(k@),
                None => None,
            },
            new@,
        ),
{
    match kept {
        None => new,
        Some(k) => {
            if should_write(Some((k.result.status.as_str(), k.cutoff)), new.result.status.as_str(), new.cutoff) {
                new
            } else {
                k
            }
        },
    }
}

fn is_timeout(status: &str) -> (r: bool)
    ensures
        r == is_timeout_status(status@),
{
    equal_ignoring_case(&chars_of(status), &chars_of("timeout"))
}

/// Whether a result with the given status and cutoff takes the place of the one
/// that is kept, of which status and cutoff are given.
pub fn should_write(existing: Option<(&str, Measure)>, status: &str, cutoff: Measure) -> (r: bool)
    ensures
        r == overrides(
            match existing {
                Some(e) => Some((e.0@, e.1)),
                None => None,
            },
            status@,
            cutoff,
        ),
{
    match existing {
        None => true,
        Some((existing_status, existing_cutoff)) => is_timeout(existing_status) && (!is_timeout(status)
            || existing_cutoff.lt(cutoff)),
    }
}

/// What the cache answers for a stored result to a request at a cutoff.
pub fn adapt_cached_result(cached: CachedResult, stored_cutoff: Measure, requested_cutoff: Measure) -> (r: Option<
    CachedResult,
>)
    ensures
        match r {
            Some(c) => answer(RowView { result: cached@, cutoff: stored_cutoff }, requested_cutoff) == Some(c@),
            None => answer(RowView { result: cached@, cutoff: stored_cutoff }, requested_cutoff) is None,
        },
{
    if is_timeout(cached.status.as_str()) {
        if stored_cutoff.lt(requested_cutoff) {
            return None;
        }
        return Some(
            CachedResult {
                runtime: requested_cutoff,
                quality: cached.quality,
                status: cached.status,
                runhash: cached.runhash,
            },
        );
    }
    if requested_cutoff.lt(cached.runtime) {
        return Some(
            CachedResult {
                runtime: requested_cutoff,
                quality: Measure { bits: PENALTY_BITS },
                status: "TIMEOUT".to_owned(),
                runhash: None,
            },
        );
    }
    Some(cached)
}

/// Whether a solver result may be stored: it comes from an execution and
/// concluded something.
pub fn is_storable(cacheable: bool, status: &str) -> (r: bool)
    ensures
        r == (cacheable && status@ != "UNKNOWN"@),
{
    cacheable && !same_text(status, "UNKNOWN")
}

/// The hash of a list of pairs: what `std::hash::BuildHasher::hash_one` gives
/// for it with `std::hash::DefaultHasher` in its initial state.
pub uninterp spec fn hash_of_pairs(pairs: Seq<(Seq<char>, Seq<char>)>) -> u64;

/// `std::hash::BuildHasher::hash_one` with
/// `std::hash::BuildHasherDefault<std::hash::DefaultHasher>`: the hash of the
/// pairs by a hasher that starts from the same state every time. It depends on
/// nothing but the texts, within one build of the program; other builds may
/// hash otherwise.
#[verifier::external_body]
fn hash_pairs(pairs: &Vec<(String, String)>) -> (h: u64)
    ensures
        h == hash_of_pairs(pair_views(pairs@)),
{
    std::hash::BuildHasher::hash_one(
        &std::hash::BuildHasherDefault::<std::collections::hash_map::DefaultHasher>::default(),
        pairs,
    )
}

/// The hash of a configuration: that of its pairs by increasing name.
pub open spec fn config_hash(m: Assignment) -> u64 {
    hash_of_pairs(listing(m))
}

/// The hash of a configuration does not depend on the order in which its pairs
/// are given.
pub proof fn lemma_hash_ignores_order(a: Seq<(Seq<char>, Seq<char>)>, b: Seq<(Seq<char>, Seq<char>)>)
    requires
        distinct_names(a),
        distinct_names(b),
        forall|x: (Seq<char>, Seq<char>)| a.contains(x) <==> b.contains(x),
    ensures
        config_hash(collected(a)) == config_hash(collected(b)),
{
    lemma_order_is_irrelevant(a, b);
}

/// Configurations that differ only in inactive parameters have active
/// projections with one hash.
pub proof fn lemma_hash_ignores_inactive(space: &ParamSpace, m: Assignment, name: Seq<char>, value: Seq<char>)
    requires
        !space.active_name(m, name),
        !space.active_name(m.insert(name, value), name),
    ensures
        config_hash(space.projected(m.insert(name, value))) == config_hash(space.projected(m)),
{
    space.lemma_inactive_value_is_irrelevant(m, name, value);
}

/// Deterministic hash of a configuration. It depends on the assignment alone,
/// not on the order in which it was built.
pub fn hash_config(config: &Config) -> (h: u64)
    ensures
        h == config_hash(config@),
{
    hash_pairs(config.pairs())
}

/// The numbered placeholders of a query for `n` values, of which the first has
/// the given number.
pub open spec fn placeholder_list(n: nat, first: nat) -> Seq<char> {
    joined(Seq::new(n, |i: int| seq!['?'] + decimal((first + i) as nat)), ","@)
}

/// The numbered placeholders of a query for `n` values: `?1,?2,?3` from number 1 on.
pub fn placeholders(n: usize, first: usize) -> (r: String)
    requires
        first + n <= usize::MAX,
    ensures
        r@ == placeholder_list(n as nat, first as nat),
{
    let mut parts: Vec<String> = Vec::new();
    let ghost all = Seq::new(n as nat, |i: int| seq!['?'] + decimal((first + i) as nat));
    for i in 0..n
        invariant
            first + n <= usize::MAX,
            all == Seq::new(n as nat, |i: int| seq!['?'] + decimal((first + i) as nat)),
            texts(parts@) == all.take(i as int),
    {
        let mut part = String::new();
        part.push('?');
        assert(part@ =~= seq!['?']);
        push_decimal(&mut part, (first + i) as u64);
        let ghost view = part@;
        let ghost prev = texts(parts@);
        parts.push(part);
        assert(texts(parts@) =~= prev.push(view));
        assert(texts(parts@) =~= all.take(i + 1));
    }
    assert(all.take(n as int) =~= all);
    join(&parts, ",")
}

/// Whether a results table with these columns can be used: it records status
/// and cutoff.
pub fn is_compatible_schema(columns: &Vec<String>) -> (r: bool)
    ensures
        r == (texts(columns@).contains("status_id"@) && texts(columns@).contains("cutoff"@)),
        r == records_status_and_cutoff(texts(columns@)),
{
    contains_text(columns, "status_id") && contains_text(columns, "cutoff")
}

/// The placeholders of a query are as many as there are values, numbered one after
/// another from the first on.
pub proof fn lemma_placeholders_are_numbered(n: nat, first: nat)
    requires
        n > 0,
    ensures
        ({
            let parts = pieces(placeholder_list(n, first), ',');
            &&& parts.len() == n
            &&& forall|i: int|
                0 <= i < n ==> (#[trigger] parts[i]).len() > 1 && parts[i][0] == '?' && decimal_number(
                    parts[i].skip(1),
                ) == first + i
        }),
        placeholder_list(0, first).len() == 0,
{
    reveal_strlit(",");
    assert(","@ =~= seq![',']);
    let parts = Seq::new(n, |i: int| seq!['?'] + decimal((first + i) as nat));
    assert forall|i: int| 0 <= i < n implies !(#[trigger] parts[i]).contains(',') && parts[i].len() > 1
        && parts[i][0] == '?' && decimal_number(parts[i].skip(1)) == first + i by {
        let d = decimal((first + i) as nat);
        lemma_decimal_reads_back((first + i) as nat);
        assert(parts[i].skip(1) =~= d);
        assert forall|k: int| 0 <= k < parts[i].len() implies parts[i][k] != ',' by {
            if k > 0 {
                assert(parts[i][k] == d[k - 1]);
                assert('0' <= d[k - 1] <= '9');
            }
        }
    }
    lemma_joined_is_taken_apart(parts, ',');
}

/// The hash of a configuration is that of all its pairs by increasing name.
pub proof fn lemma_hash_takes_in_every_pair(m: Assignment, l: Seq<(Seq<char>, Seq<char>)>)
    requires
        lists(m, l),
    ensures
        config_hash(m) == hash_of_pairs(l),
{
    lemma_listing_unique(m, l, l);
}

/// Whether a results table with these columns records what the cache needs.
pub open spec fn records_status_and_cutoff(columns: Seq<Seq<char>>) -> bool {
    columns.contains("status_id"@) && columns.contains("cutoff"@)
}

/// A table can be used exactly if it has both a column for the status and one for
/// the cutoff; other columns do not matter.
pub proof fn lemma_other_columns_do_not_matter(columns: Seq<Seq<char>>, other: Seq<char>)
    ensures
        records_status_and_cutoff(columns) ==> records_status_and_cutoff(columns.push(other)),
        other != "status_id"@ && other != "cutoff"@ && records_status_and_cutoff(columns.push(other))
            ==> records_status_and_cutoff(columns),
        !columns.contains("cutoff"@) ==> !records_status_and_cutoff(columns),
        !columns.contains("status_id"@) ==> !records_status_and_cutoff(columns),
        columns.contains("status_id"@) && columns.contains("cutoff"@) ==> records_status_and_cutoff(columns),
{
    let longer = columns.push(other);
    assert forall|x: Seq<char>| columns.contains(x) implies longer.contains(x) by {
        let i = choose|i: int| 0 <= i < columns.len() && columns[i] == x;
        assert(longer[i] == x);
    }
    assert forall|x: Seq<char>| longer.contains(x) && x != other implies columns.contains(x) by {
        let i = choose|i: int| 0 <= i < longer.len() && longer[i] == x;
        assert(columns[i] == x);
    }
}

} // verus!
