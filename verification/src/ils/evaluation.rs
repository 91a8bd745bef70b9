//! Evaluations of one configuration: scores, and what is gathered for them.

use crate::cache::{config_hash, hash_config};
use crate::config::{Assignment, Config};
use crate::eval::{EvalResult, EvalTask, TaskResult, TaskResultView};
use crate::ils::futell::{
    beyond_ceiling, future_telling_active, future_telling_rejects, tells_future, CheckpointTracker, TrackerView,
};
use crate::ils::IlsOptions;
use crate::measure::{Measure, COUNT_LIMIT};
use crate::params::ParamSpace;
use crate::scenario::{OverallObjective, RunObjective};
use crate::text::{decimal, hex_text, hexadecimal, push_decimal, push_text};
use std::sync::Arc;
use vstd::prelude::*;

verus! {

/// A score, and whether it is one.
///
/// When `complete` is false the evaluation was stopped early, and the score over
/// the `n_done` instances that happened to finish first is no measurement of the
/// configuration.
#[derive(Clone, Copy, Debug, PartialEq, Eq, Structural)]
pub struct ConfigEvaluation {
    pub score: Measure,
    pub complete: bool,
    pub n_done: usize,
    /// Exclusive or of the fingerprints of the runs that have one.
    pub runhash: u64,
    /// How many runs contributed to `runhash`.
    pub runhash_n: usize,
    /// The number of instances unsolved at the checkpoint, if that was known
    /// while the evaluation was in flight.
    pub checkpoint: Option<Measure>,
}

impl ConfigEvaluation {
    /// A complete evaluation of which only the score is known.
    pub open spec fn plain(score: Measure, n_done: usize) -> ConfigEvaluation {
        ConfigEvaluation { score, complete: true, n_done, runhash: 0, runhash_n: 0, checkpoint: None }
    }

    /// A complete evaluation of which only the score is known.
    pub fn complete(score: Measure, n_done: usize) -> (e: ConfigEvaluation)
        ensures
            e == ConfigEvaluation::plain(score, n_done),
    {
        ConfigEvaluation { score, complete: true, n_done, runhash: 0, runhash_n: 0, checkpoint: None }
    }

    /// The score as it is reported, with `score_text` for its digits: alone when
    /// complete, `>score (done/all)` otherwise.
    pub open spec fn shown(self, score_text: Seq<char>, n_instances: nat) -> Seq<char> {
        if self.complete {
            score_text
        } else {
            ">"@ + score_text + " ("@ + decimal(self.n_done as nat) + "/"@ + decimal(n_instances) + ")"@
        }
    }

    /// The score as it is reported, where `score_text` writes its digits:
    /// `2.698475` when complete, `>2.698475 (312/473)` otherwise.
    pub fn display(&self, score_text: &str, n_instances: usize) -> (r: String)
        ensures
            r@ == self.shown(score_text@, n_instances as nat),
    {
        if self.complete {
            return score_text.to_owned();
        }
        let mut out = ">".to_owned();
        push_text(&mut out, score_text);
        push_text(&mut out, " (");
        push_decimal(&mut out, self.n_done as u64);
        push_text(&mut out, "/");
        push_decimal(&mut out, n_instances as u64);
        push_text(&mut out, ")");
        out
    }

    /// The fingerprint as it is reported: nothing if no run contributed.
    pub open spec fn shown_runhash(self, n_instances: nat) -> Seq<char> {
        if self.runhash_n == 0 {
            Seq::empty()
        } else {
            " runhash="@ + hexadecimal(self.runhash as nat, 16) + " (n="@ + decimal(self.runhash_n as nat)
                + "/"@ + decimal(n_instances) + ")"@
        }
    }

    /// The fingerprint as it is reported beside a score.
    pub fn runhash_suffix(&self, n_instances: usize) -> (r: String)
        ensures
            r@ == self.shown_runhash(n_instances as nat),
    {
        if self.runhash_n == 0 {
            let out = String::new();
            assert(out@ =~= Seq::empty());
            return out;
        }
        let mut out = " runhash=".to_owned();
        push_text(&mut out, hex_text(self.runhash).as_str());
        push_text(&mut out, " (n=");
        push_decimal(&mut out, self.runhash_n as u64);
        push_text(&mut out, "/");
        push_decimal(&mut out, n_instances as u64);
        push_text(&mut out, ")");
        out
    }
}

/// What a score is formed from.
#[derive(Debug)]
pub enum ScoreParts {
    /// The mean of these values, summed in this order.
    Mean(Vec<Measure>),
    /// This value.
    Middle(Measure),
    /// The mean of these two values.
    Between(Measure, Measure),
}

/// What a score is formed from.
pub enum ScorePartsView {
    Mean(Seq<Measure>),
    Middle(Measure),
    Between(Measure, Measure),
}

impl View for ScoreParts {
    type V = ScorePartsView;

    open spec fn view(&self) -> ScorePartsView {
        match *self {
            ScoreParts::Mean(v) => ScorePartsView::Mean(v@),
            ScoreParts::Middle(m) => ScorePartsView::Middle(m),
            ScoreParts::Between(a, b) => ScorePartsView::Between(a, b),
        }
    }
}

/// Under the runtime objective the qualities have no part in the score, and the
/// mean is over exactly the runtimes.
pub proof fn lemma_runtime_score_ignores_qualities(
    options: IlsOptions,
    runtimes: Seq<Measure>,
    qualities: Seq<Measure>,
    others: Seq<Measure>,
)
    requires
        options.run_obj == RunObjective::Runtime,
    ensures
        score_of(options, runtimes, qualities) == score_of(options, runtimes, others),
        options.overall_obj == OverallObjective::Mean ==> score_of(options, runtimes, qualities)
            == ScorePartsView::Mean(runtimes),
{
}

/// Under the quality objective the runtimes have no part in the score, and the
/// mean is over exactly the qualities.
pub proof fn lemma_quality_score_ignores_runtimes(
    options: IlsOptions,
    runtimes: Seq<Measure>,
    others: Seq<Measure>,
    qualities: Seq<Measure>,
)
    requires
        options.run_obj == RunObjective::Quality,
    ensures
        score_of(options, runtimes, qualities) == score_of(options, others, qualities),
        options.overall_obj == OverallObjective::Mean ==> score_of(options, runtimes, qualities)
            == ScorePartsView::Mean(qualities),
{
}

/// The two objectives change places with the two kinds of values.
pub proof fn lemma_objectives_are_symmetric(
    a: IlsOptions,
    b: IlsOptions,
    runtimes: Seq<Measure>,
    qualities: Seq<Measure>,
)
    requires
        a.run_obj == RunObjective::Runtime,
        b.run_obj == RunObjective::Quality,
        a.overall_obj == b.overall_obj,
    ensures
        score_of(a, runtimes, qualities) == score_of(b, qualities, runtimes),
{
}

/// The median is the middle of the values in whatever way they are put in order
/// of size: the middle one of an odd number, the two about the middle of an even
/// number.
pub proof fn lemma_median_is_in_the_middle(
    options: IlsOptions,
    runtimes: Seq<Measure>,
    qualities: Seq<Measure>,
    by_size: Seq<Measure>,
)
    requires
        options.overall_obj == OverallObjective::Median,
        options.run_obj == RunObjective::Runtime ==> by_size.to_multiset() == runtimes.to_multiset(),
        options.run_obj == RunObjective::Quality ==> by_size.to_multiset() == qualities.to_multiset(),
        forall|i: int, j: int|
            0 <= i < j < by_size.len() ==> (#[trigger] by_size[i]).total_rank() <= (
            #[trigger] by_size[j]).total_rank(),
    ensures
        forall|k: int|
            by_size.len() == 2 * k + 1 ==> score_of(options, runtimes, qualities) == #[trigger] middle_at(
                by_size,
                k,
            ),
        forall|k: int|
            by_size.len() == 2 * k && k > 0 ==> score_of(options, runtimes, qualities)
                == #[trigger] about_middle(by_size, k),
{
    let values = match options.run_obj {
        RunObjective::Runtime => runtimes,
        RunObjective::Quality => qualities,
    };
    let leq = ordered();
    lemma_ordered_is_total();
    values.lemma_sort_by_ensures(leq);
    assert(vstd::relations::sorted_by(by_size, leq)) by {
        assert forall|a: int, b: int| 0 <= a < b < by_size.len() implies #[trigger] leq(
            by_size[a],
            by_size[b],
        ) by {
            assert(by_size[a].total_rank() <= by_size[b].total_rank());
        }
    }
    vstd::seq_lib::lemma_sorted_unique(by_size, values.sort_by(leq), leq);
    vstd::seq_lib::to_multiset_len(by_size);
    vstd::seq_lib::to_multiset_len(values);
}

/// The value at a position, alone.
pub open spec fn middle_at(s: Seq<Measure>, k: int) -> ScorePartsView {
    ScorePartsView::Middle(s[k])
}

/// The values before and at a position.
pub open spec fn about_middle(s: Seq<Measure>, k: int) -> ScorePartsView {
    ScorePartsView::Between(s[k - 1], s[k])
}

/// A median does not depend on the order of the runs.
pub proof fn lemma_median_ignores_order(a: Seq<Measure>, b: Seq<Measure>)
    requires
        a.to_multiset() == b.to_multiset(),
    ensures
        median_of(a) == median_of(b),
{
    let leq = ordered();
    lemma_ordered_is_total();
    a.lemma_sort_by_ensures(leq);
    b.lemma_sort_by_ensures(leq);
    vstd::seq_lib::lemma_sorted_unique(a.sort_by(leq), b.sort_by(leq), leq);
    vstd::seq_lib::to_multiset_len(a);
    vstd::seq_lib::to_multiset_len(b);
}

/// The values that an objective looks at.
pub open spec fn objective_values(
    objective: RunObjective,
    runtimes: Seq<Measure>,
    qualities: Seq<Measure>,
) -> Seq<Measure> {
    match objective {
        RunObjective::Runtime => runtimes,
        RunObjective::Quality => qualities,
    }
}

/// The total order of encodings.
pub open spec fn ordered() -> spec_fn(Measure, Measure) -> bool {
    |a: Measure, b: Measure| a.total_rank() <= b.total_rank()
}

/// What the median of some values is formed from: the middle one of an odd
/// number of values by size, the two middle ones of an even number.
pub open spec fn median_of(values: Seq<Measure>) -> ScorePartsView {
    let s = values.sort_by(ordered());
    let n = values.len() as int;
    if n % 2 == 0 {
        ScorePartsView::Between(s[n / 2 - 1], s[n / 2])
    } else {
        ScorePartsView::Middle(s[n / 2])
    }
}

/// What the score of some runs is formed from.
pub open spec fn score_of(options: IlsOptions, runtimes: Seq<Measure>, qualities: Seq<Measure>) -> ScorePartsView {
    let values = objective_values(options.run_obj, runtimes, qualities);
    match options.overall_obj {
        OverallObjective::Mean => ScorePartsView::Mean(values),
        OverallObjective::Median => median_of(values),
    }
}

proof fn lemma_ordered_is_total()
    ensures
        vstd::relations::total_ordering(ordered()),
{
    let leq = ordered();
    assert forall|a: Measure, b: Measure| #[trigger] leq(a, b) && #[trigger] leq(b, a) implies a == b by {}
}

fn copy_measures(values: &Vec<Measure>) -> (r: Vec<Measure>)
    ensures
        r@ == values@,
{
    let mut out: Vec<Measure> = Vec::new();
    for i in 0..values.len()
        invariant
            out@ == values@.take(i as int),
    {
        out.push(values[i]);
        assert(out@ =~= values@.take(i + 1));
    }
    assert(values@.take(values@.len() as int) =~= values@);
    out
}

/// The values by size.
pub fn sorted(values: &Vec<Measure>) -> (r: Vec<Measure>)
    ensures
        r@ == values@.sort_by(ordered()),
        r@.len() == values@.len(),
{
    let mut out: Vec<Measure> = Vec::new();
    assert(values@.take(0) =~= out@);
    for i in 0..values.len()
        invariant
            vstd::relations::sorted_by(out@, ordered()),
            out@.to_multiset() == values@.take(i as int).to_multiset(),
    {
        let v: Measure = values[i];
        let mut at: usize = out.len();
        while at > 0 && v.precedes(out[at - 1])
            invariant
                at <= out@.len(),
                vstd::relations::sorted_by(out@, ordered()),
                forall|k: int| at <= k < out@.len() ==> v.total_rank() <= (#[trigger] out@[k]).total_rank(),
            decreases at,
        {
            at -= 1;
        }
        let ghost prev = out@;
        proof {
            let leq = ordered();
            assert forall|k: int| 0 <= k < at implies (#[trigger] prev[k]).total_rank() <= v.total_rank() by {
                if k < at - 1 {
                    assert(leq(prev[k], prev[at - 1]));
                }
            }
        }
        out.insert(at, v);
        proof {
            let leq = ordered();
            assert forall|a: int, b: int| 0 <= a < b < out@.len() implies #[trigger] leq(out@[a], out@[b]) by {
                let qa = if a < at { a } else { a - 1 };
                let qb = if b < at { b } else { b - 1 };
                if a != at && b != at {
                    assert(leq(prev[qa], prev[qb]));
                } else if a == at {
                    assert(v.total_rank() <= prev[qb].total_rank());
                } else {
                    assert(prev[qa].total_rank() <= v.total_rank());
                }
            }
            vstd::seq_lib::to_multiset_insert(prev, at as int, v);
            assert(values@.take(i + 1) =~= values@.take(i as int).push(v));
            vstd::seq_lib::to_multiset_build(values@.take(i as int), v);
        }
    }
    proof {
        assert(values@.take(values@.len() as int) =~= values@);
        lemma_ordered_is_total();
        values@.lemma_sort_by_ensures(ordered());
        vstd::seq_lib::lemma_sorted_unique(out@, values@.sort_by(ordered()), ordered());
        vstd::seq_lib::to_multiset_len(out@);
        vstd::seq_lib::to_multiset_len(values@);
    }
    out
}

/// What the median of some values is formed from.
pub fn median_parts(values: &Vec<Measure>) -> (r: ScoreParts)
    requires
        values@.len() > 0,
    ensures
        r@ == median_of(values@),
{
    let s = sorted(values);
    let n: usize = s.len();
    if n % 2 == 0 {
        ScoreParts::Between(s[n / 2 - 1], s[n / 2])
    } else {
        ScoreParts::Middle(s[n / 2])
    }
}

/// What the score of some runs is formed from.
pub fn compute_score(runtimes: &Vec<Measure>, qualities: &Vec<Measure>, options: &IlsOptions) -> (r: ScoreParts)
    requires
        options.overall_obj == OverallObjective::Median ==> objective_values(
            options.run_obj,
            runtimes@,
            qualities@,
        ).len() > 0,
    ensures
        r@ == score_of(*options, runtimes@, qualities@),
{
    let values = match options.run_obj {
        RunObjective::Runtime => runtimes,
        RunObjective::Quality => qualities,
    };
    match options.overall_obj {
        OverallObjective::Mean => ScoreParts::Mean(copy_measures(values)),
        OverallObjective::Median => median_parts(values),
    }
}

impl EvalResult {
    /// What the mean runtime is formed from.
    pub fn mean(&self) -> (r: ScoreParts)
        ensures
            r@ == ScorePartsView::Mean(self.runtimes@),
    {
        ScoreParts::Mean(copy_measures(&self.runtimes))
    }

    /// What the median runtime is formed from.
    pub fn median(&self) -> (r: ScoreParts)
        requires
            self.runtimes@.len() > 0,
        ensures
            r@ == median_of(self.runtimes@),
    {
        median_parts(&self.runtimes)
    }
}

/// The value of a result that an objective looks at.
pub open spec fn value_of(objective: RunObjective, result: TaskResultView) -> Measure {
    match objective {
        RunObjective::Runtime => result.runtime,
        RunObjective::Quality => result.quality,
    }
}

/// The value of a result that the objective looks at.
pub fn objective_value(options: &IlsOptions, result: &TaskResult) -> (v: Measure)
    ensures
        v == value_of(options.run_obj, result@),
{
    match options.run_obj {
        RunObjective::Runtime => result.runtime,
        RunObjective::Quality => result.quality,
    }
}

/// Of a result, the runtime objective looks at the runtime and the quality
/// objective at the quality.
pub proof fn lemma_objective_picks_its_value(a: TaskResultView, b: TaskResultView)
    ensures
        value_of(RunObjective::Runtime, a) == a.runtime,
        value_of(RunObjective::Quality, a) == a.quality,
        a.runtime == b.runtime ==> value_of(RunObjective::Runtime, a) == value_of(RunObjective::Runtime, b),
        a.quality == b.quality ==> value_of(RunObjective::Quality, a) == value_of(RunObjective::Quality, b),
{
}

/// The sums that come with a result.
#[derive(Clone, Copy, Debug)]
pub struct Sums {
    /// The sum of the objective's values so far and that of the result.
    pub partial: Measure,
    /// When the run finished on its virtual worker: its start there and its runtime.
    pub finish: Measure,
    /// The sum of runtimes at the checkpoint so far and that of the result.
    pub time_sum: Measure,
}

/// What an evaluation is held against.
#[derive(Clone, Copy, Debug)]
pub struct Bounds {
    /// The score of the incumbent, if there is one to hold against.
    pub incumbent_score: Option<Measure>,
    /// What beating the incumbent may cost: the multiplier, its score and the
    /// number of instances multiplied.
    pub budget: Measure,
    /// The checkpoint of the incumbent, if it has one.
    pub incumbent_checkpoint: Option<Measure>,
    /// The checkpoint of the incumbent and the tolerated margin.
    pub ceiling: Measure,
}

/// What has been gathered of one configuration.
pub struct Tally {
    pub n_instances: usize,
    pub runtimes: Vec<Measure>,
    pub qualities: Vec<Measure>,
    pub partial: Measure,
    pub runhash: u64,
    pub runhash_n: usize,
    /// Whether the checkpoint has been reported.
    pub checkpoint_logged: bool,
    /// Kept only where future-telling applies.
    pub tracker: Option<CheckpointTracker>,
}

/// What has been gathered of one configuration.
pub struct TallyView {
    pub n_instances: nat,
    pub runtimes: Seq<Measure>,
    pub qualities: Seq<Measure>,
    pub partial: Measure,
    pub runhash: u64,
    pub runhash_n: nat,
    pub checkpoint_logged: bool,
    pub tracker: Option<TrackerView>,
}

impl View for Tally {
    type V = TallyView;

    open spec fn view(&self) -> TallyView {
        TallyView {
            n_instances: self.n_instances as nat,
            runtimes: self.runtimes@,
            qualities: self.qualities@,
            partial: self.partial,
            runhash: self.runhash,
            runhash_n: self.runhash_n as nat,
            checkpoint_logged: self.checkpoint_logged,
            tracker: match self.tracker {
                Some(t) => Some(t@),
                None => None,
            },
        }
    }
}

/// What a look at the checkpoint shows.
#[derive(Clone, Copy, Debug, PartialEq, Eq, Structural)]
pub struct CheckpointLook {
    /// The unsolved count, the first time that it is known.
    pub news: Option<Measure>,
    /// The unsolved count, if it speaks against the configuration.
    pub rejected: Option<Measure>,
}

impl TallyView {
    /// One runtime and one quality for each result, and a tracker that has seen
    /// the results until it was ready.
    pub open spec fn wf(self) -> bool {
        &&& self.runtimes.len() == self.qualities.len() <= self.n_instances
        &&& self.n_instances < COUNT_LIMIT && self.n_instances <= usize::MAX
        &&& self.runhash_n <= self.runtimes.len()
        &&& self.tracker matches Some(t) ==> {
            &&& t.wf()
            &&& t.n_total == self.n_instances
            &&& t.n_seen <= self.runtimes.len()
            &&& !t.ready ==> t.n_seen == self.runtimes.len()
        }
    }

    /// Nothing gathered yet.
    pub open spec fn empty(self) -> bool {
        &&& self.runtimes.len() == 0
        &&& self.qualities.len() == 0
        &&& self.partial.bits == 0
        &&& self.runhash == 0
        &&& self.runhash_n == 0
        &&& !self.checkpoint_logged
        &&& self.tracker matches Some(t) ==> t.fresh()
    }

    /// Nothing gathered yet of `n_instances`, with a fresh tracker if
    /// future-telling applies.
    pub open spec fn begun(
        self,
        options: IlsOptions,
        checkpoint_time: Measure,
        cutoff_time: Measure,
        n_instances: nat,
    ) -> bool {
        &&& self.empty()
        &&& self.n_instances == n_instances
        &&& self.tracker is Some <==> tells_future(options, n_instances as int)
        &&& self.tracker matches Some(k) ==> {
            &&& k.n_total == n_instances
            &&& k.checkpoint_time == checkpoint_time
            &&& k.cutoff_time == cutoff_time
            &&& k.time_sum.bits == 0
            &&& k.busy.len() == if options.future_telling_cores >= 1 {
                options.future_telling_cores as int
            } else {
                1
            }
        }
    }

    /// With one more result.
    pub open spec fn with_result(self, r: TaskResultView, sums: Sums) -> TallyView {
        TallyView {
            runtimes: self.runtimes.push(r.runtime),
            qualities: self.qualities.push(r.quality),
            partial: sums.partial,
            runhash: match r.runhash {
                Some(h) => self.runhash ^ h,
                None => self.runhash,
            },
            runhash_n: if r.runhash is Some {
                self.runhash_n + 1
            } else {
                self.runhash_n
            },
            tracker: match self.tracker {
                Some(t) => Some(t.recorded(r.instance_id, r.runtime, sums.finish, sums.time_sum)),
                None => None,
            },
            ..self
        }
    }

    /// After the report of a start.
    pub open spec fn with_start(self, id: i64, at: Measure, rel: Measure) -> TallyView {
        TallyView {
            tracker: match self.tracker {
                Some(t) => Some(t.dispatched(id, at, rel)),
                None => None,
            },
            ..self
        }
    }

    /// After a look at the clock.
    pub open spec fn with_clock(self, now: Measure) -> TallyView {
        TallyView {
            tracker: match self.tracker {
                Some(t) => Some(
                    if t.t0 is Some {
                        t.refreshed(now)
                    } else {
                        t
                    },
                ),
                None => None,
            },
            ..self
        }
    }

    /// The unsolved count at the checkpoint, once it is known.
    pub open spec fn checkpoint(self) -> Option<Measure> {
        match self.tracker {
            Some(t) => t.unsolved(),
            None => None,
        }
    }

    /// Whether more has been spent than beating the incumbent allows.
    pub open spec fn over_budget(self, options: IlsOptions, bounds: Bounds) -> bool {
        options.pruning && bounds.incumbent_score is Some && !self.partial.at_most(bounds.budget)
    }

    /// What a look at the checkpoint shows.
    pub open spec fn look(self, bounds: Bounds) -> CheckpointLook {
        match self.checkpoint() {
            None => CheckpointLook { news: None, rejected: None },
            Some(c) => CheckpointLook {
                news: if self.checkpoint_logged {
                    None
                } else {
                    Some(c)
                },
                rejected: match bounds.incumbent_checkpoint {
                    Some(i) if beyond_ceiling(c, i, bounds.ceiling) => Some(c),
                    _ => None,
                },
            },
        }
    }

    /// After a look at the checkpoint.
    pub open spec fn looked(self) -> TallyView {
        TallyView { checkpoint_logged: self.checkpoint_logged || self.checkpoint() is Some, ..self }
    }

    /// Whether every result is in.
    pub open spec fn complete(self) -> bool {
        self.runtimes.len() >= self.n_instances
    }

    /// The evaluation that the results make, with the given score.
    pub open spec fn evaluation(self, score: Measure) -> ConfigEvaluation {
        ConfigEvaluation {
            score,
            complete: self.complete(),
            n_done: self.runtimes.len() as usize,
            runhash: self.runhash,
            runhash_n: self.runhash_n as usize,
            checkpoint: self.checkpoint(),
        }
    }

    /// The score is reported bare when every result is in, and marked as a lower
    /// bound, with how many of how many results it rests on, when not.
    pub proof fn lemma_incomplete_scores_are_marked(e: ConfigEvaluation, score_text: Seq<char>, n: nat)
        ensures
            e.complete ==> e.shown(score_text, n) == score_text,
            !e.complete ==> e.shown(score_text, n)[0] == '>' && e.shown(score_text, n).subrange(
                1,
                1 + score_text.len() as int,
            ) == score_text && e.shown(score_text, n).skip(1 + score_text.len() as int) == " ("@ + decimal(
                e.n_done as nat,
            ) + "/"@ + decimal(n) + ")"@,
            e.runhash_n == 0 ==> e.shown_runhash(n).len() == 0,
            e.runhash_n > 0 ==> e.shown_runhash(n) == " runhash="@ + hexadecimal(e.runhash as nat, 16) + " (n="@
                + decimal(e.runhash_n as nat) + "/"@ + decimal(n) + ")"@,
    {
        reveal_strlit(">");
        if !e.complete {
            let s = e.shown(score_text, n);
            assert(s.subrange(1, 1 + score_text.len() as int) =~= score_text);
            assert(s.skip(1 + score_text.len() as int) =~= " ("@ + decimal(e.n_done as nat) + "/"@ + decimal(n) + ")"@);
        }
    }

    /// The combined fingerprint does not depend on the order in which results
    /// arrive.
    pub proof fn lemma_runhash_ignores_order(self, a: TaskResultView, sa: Sums, b: TaskResultView, sb: Sums)
        ensures
            self.with_result(a, sa).with_result(b, sb).runhash == self.with_result(b, sb).with_result(
                a,
                sa,
            ).runhash,
            self.with_result(a, sa).with_result(b, sb).runhash_n == self.with_result(
                b,
                sb,
            ).with_result(a, sa).runhash_n,
    {
        let h = self.runhash;
        if let (Some(x), Some(y)) = (a.runhash, b.runhash) {
            assert((h ^ x) ^ y == (h ^ y) ^ x) by (bit_vector);
        }
    }

    /// Two runs with one fingerprint cancel out.
    pub proof fn lemma_equal_runhashes_cancel(self, a: TaskResultView, sa: Sums, b: TaskResultView, sb: Sums)
        requires
            a.runhash == b.runhash,
        ensures
            self.with_result(a, sa).with_result(b, sb).runhash == self.runhash,
    {
        let h = self.runhash;
        if let Some(x) = a.runhash {
            assert((h ^ x) ^ x == h) by (bit_vector);
        }
    }

    /// Whatever the objective, a configuration is stopped for its cost exactly if
    /// pruning is on, there is a score to beat and what it has cost so far is not
    /// within the budget.
    pub proof fn lemma_capped_exactly_beyond_the_budget(self, options: IlsOptions, bounds: Bounds)
        ensures
            self.partial.at_most(bounds.budget) ==> !self.over_budget(options, bounds),
            !options.pruning ==> !self.over_budget(options, bounds),
            bounds.incumbent_score is None ==> !self.over_budget(options, bounds),
            options.pruning && bounds.incumbent_score is Some && bounds.budget.below(self.partial)
                ==> self.over_budget(options, bounds),
            options.pruning && bounds.incumbent_score is Some && (self.partial.nan() || bounds.budget.nan())
                ==> self.over_budget(options, bounds),
    {
    }

    /// Whether a configuration is stopped for its cost is a matter of pruning, of
    /// there being a score to beat, and of cost and budget, and of nothing else.
    pub proof fn lemma_capping_looks_at_cost_and_budget_only(
        self,
        other: TallyView,
        options: IlsOptions,
        other_options: IlsOptions,
        bounds: Bounds,
        other_bounds: Bounds,
    )
        requires
            self.partial == other.partial,
            options.pruning == other_options.pruning,
            bounds.budget == other_bounds.budget,
            bounds.incumbent_score is Some <==> other_bounds.incumbent_score is Some,
        ensures
            self.over_budget(options, bounds) == other.over_budget(other_options, other_bounds),
    {
    }

    /// Cost that exceeds a budget exceeds every smaller budget, and so does any
    /// greater cost.
    pub proof fn lemma_capping_is_monotone(
        self,
        costlier: TallyView,
        options: IlsOptions,
        bounds: Bounds,
        tighter: Bounds,
    )
        requires
            self.over_budget(options, bounds),
            self.partial.at_most(costlier.partial),
            tighter.budget.at_most(bounds.budget),
            bounds.incumbent_score is Some,
            tighter.incumbent_score is Some,
        ensures
            costlier.over_budget(options, tighter),
    {
    }

    /// A result adds its runtime and its quality at the end of those before it,
    /// sets the cost to the sum that comes with it, and changes neither how many
    /// results there are to be nor whether the checkpoint was reported.
    pub proof fn lemma_result_is_entered(self, r: TaskResultView, sums: Sums)
        ensures
            ({
                let t = self.with_result(r, sums);
                &&& t.runtimes.len() == self.runtimes.len() + 1
                &&& t.qualities.len() == self.qualities.len() + 1
                &&& t.runtimes.drop_last() == self.runtimes
                &&& t.qualities.drop_last() == self.qualities
                &&& t.runtimes.last() == r.runtime
                &&& t.qualities.last() == r.quality
                &&& t.partial == sums.partial
                &&& t.n_instances == self.n_instances
                &&& t.checkpoint_logged == self.checkpoint_logged
                &&& t.tracker is Some <==> self.tracker is Some
            }),
    {
        let t = self.with_result(r, sums);
        assert(t.runtimes.drop_last() =~= self.runtimes);
        assert(t.qualities.drop_last() =~= self.qualities);
    }

    /// A run without a fingerprint changes nothing of the combined one; a run with
    /// one is counted, and its fingerprint is what the combined one changes by.
    pub proof fn lemma_runhash_counts_contributors(self, r: TaskResultView, sums: Sums)
        ensures
            r.runhash is None ==> self.with_result(r, sums).runhash == self.runhash && self.with_result(
                r,
                sums,
            ).runhash_n == self.runhash_n,
            r.runhash matches Some(h) ==> self.with_result(r, sums).runhash ^ self.runhash == h
                && self.with_result(r, sums).runhash_n == self.runhash_n + 1,
    {
        if let Some(h) = r.runhash {
            let a = self.runhash;
            assert((a ^ h) ^ a == h) by (bit_vector);
        }
    }

    /// An evaluation has the score that it is given, says how many results it rests
    /// on, and is complete exactly if there is one for each instance.
    pub proof fn lemma_evaluation_says_what_it_rests_on(self, score: Measure)
        requires
            self.wf(),
        ensures
            ({
                let e = self.evaluation(score);
                &&& e.score == score
                &&& e.n_done == self.runtimes.len()
                &&& e.complete <==> e.n_done == self.n_instances
                &&& e.runhash == self.runhash
                &&& e.runhash_n == self.runhash_n
                &&& e.checkpoint is Some ==> self.tracker is Some
            }),
    {
    }

    /// The checkpoint is reported once, and speaks against a configuration only
    /// if it is known, the incumbent has one too, and it lies beyond the ceiling.
    pub proof fn lemma_checkpoint_is_reported_once(self, bounds: Bounds)
        ensures
            self.look(bounds).news is Some <==> self.checkpoint() is Some && !self.checkpoint_logged,
            self.look(bounds).news is Some ==> self.look(bounds).news == self.checkpoint(),
            self.looked().look(bounds).news is None,
            self.looked().look(bounds).rejected == self.look(bounds).rejected,
            self.looked().runtimes == self.runtimes,
            self.looked().qualities == self.qualities,
            self.looked().partial == self.partial,
            self.looked().tracker == self.tracker,
            self.look(bounds).rejected is Some ==> self.look(bounds).rejected == self.checkpoint(),
            self.look(bounds).rejected is Some <==> (self.checkpoint() matches Some(c)
                && bounds.incumbent_checkpoint matches Some(i) && c.finite() && i.finite()
                && bounds.ceiling.below(c)),
    {
    }

    /// What is begun holds nothing and costs nothing yet. It keeps a tracker exactly
    /// if future-telling is asked for and there are more instances than virtual
    /// workers, with the given horizon and cutoff and a free bucket for each worker.
    pub proof fn lemma_a_tally_begins_empty(
        self,
        options: IlsOptions,
        checkpoint_time: Measure,
        cutoff_time: Measure,
        n_instances: nat,
    )
        requires
            self.begun(options, checkpoint_time, cutoff_time, n_instances),
        ensures
            self.n_instances == n_instances,
            self.runtimes.len() == 0 && self.qualities.len() == 0 && self.partial.bits == 0,
            self.runhash == 0 && self.runhash_n == 0 && !self.checkpoint_logged,
            self.tracker is Some <==> options.future_telling && n_instances > options.future_telling_cores,
            self.tracker matches Some(k) ==> {
                &&& k.n_total == n_instances
                &&& k.checkpoint_time == checkpoint_time
                &&& k.cutoff_time == cutoff_time
                &&& k.n_seen == 0 && k.n_counted == 0 && k.solved_count == 0 && !k.ready && k.t0 is None
                &&& k.busy.len() == options.future_telling_cores || options.future_telling_cores == 0
                    && k.busy.len() == 1
                &&& forall|w: int| 0 <= w < k.busy.len() ==> (#[trigger] k.busy[w]).bits == 0
                &&& forall|w: usize| !k.pending.contains_key(w)
                &&& forall|id: i64| !k.assigned.contains_key(id)
            },
    {
    }

    /// A reported start or a look at the clock changes nothing but the tracker.
    pub proof fn lemma_starts_and_clocks_touch_the_tracker_only(self, id: i64, at: Measure, rel: Measure, now: Measure)
        ensures
            self.with_start(id, at, rel) == (TallyView { tracker: self.with_start(id, at, rel).tracker, ..self }),
            self.with_clock(now) == (TallyView { tracker: self.with_clock(now).tracker, ..self }),
            self.tracker matches Some(t) ==> self.with_start(id, at, rel).tracker == Some(
                t.dispatched(id, at, rel),
            ),
            self.tracker matches Some(t) ==> (t.t0 is Some ==> self.with_clock(now).tracker == Some(
                t.refreshed(now),
            )) && (t.t0 is None ==> self.with_clock(now).tracker == Some(t)),
            self.tracker is None ==> self.with_start(id, at, rel) == self && self.with_clock(now) == self,
    {
    }

    /// A checkpoint is known only if it was reached before the last result.
    pub proof fn lemma_checkpoint_comes_before_completion(self)
        requires
            self.wf(),
            self.checkpoint() is Some,
        ensures
            self.tracker->Some_0.ready,
            self.tracker->Some_0.n_seen < self.n_instances,
    {
    }
}

impl Tally {
    /// Nothing gathered yet. A tracker with its horizon at `checkpoint_time` is
    /// kept if future-telling applies.
    pub fn new(options: &IlsOptions, checkpoint_time: Measure, cutoff_time: Measure, n_instances: usize) -> (t: Tally)
        requires
            n_instances < COUNT_LIMIT,
        ensures
            t@.wf(),
            t@.begun(*options, checkpoint_time, cutoff_time, n_instances as nat),
    {
        let tracker = if future_telling_active(options, n_instances) {
            Some(
                CheckpointTracker::new(
                    options.future_telling_cores,
                    checkpoint_time,
                    cutoff_time,
                    n_instances,
                ),
            )
        } else {
            None
        };
        Tally {
            n_instances,
            runtimes: Vec::new(),
            qualities: Vec::new(),
            partial: Measure::zero(),
            runhash: 0,
            runhash_n: 0,
            checkpoint_logged: false,
            tracker,
        }
    }

    /// When the run of an instance whose result arrives began on its virtual
    /// worker, and the sum of runtimes at the checkpoint so far; if there is a
    /// tracker.
    pub fn tracker_sums(&self, instance_id: i64) -> (r: Option<(Measure, Measure)>)
        requires
            self@.wf(),
        ensures
            r == match self@.tracker {
                Some(t) => Some((t.start_of(instance_id), t.time_sum)),
                None => None,
            },
    {
        match &self.tracker {
            Some(t) => Some((t.start_for(instance_id), t.time_sum)),
            None => None,
        }
    }

    /// The time of the first reported start, if there is a tracker and it has one.
    pub fn origin(&self) -> (r: Option<Measure>)
        ensures
            r == match self@.tracker {
                Some(t) => t.t0,
                None => None,
            },
    {
        match &self.tracker {
            Some(t) => t.t0,
            None => None,
        }
    }

    /// Enter a result.
    pub fn accumulate(&mut self, result: &TaskResult, sums: Sums)
        requires
            old(self)@.wf(),
            !old(self)@.complete(),
        ensures
            final(self)@ == old(self)@.with_result(result@, sums),
            final(self)@.wf(),
    {
        self.runtimes.push(result.runtime);
        self.qualities.push(result.quality);
        if let Some(h) = result.runhash {
            self.runhash = self.runhash ^ h;
            self.runhash_n = self.runhash_n + 1;
        }
        self.partial = sums.partial;
        if let Some(t) = &mut self.tracker {
            t.record(result.instance_id, result.runtime, sums.finish, sums.time_sum);
        }
    }

    /// A worker has started an instance.
    pub fn record_start(&mut self, instance_id: i64, at: Measure, rel: Measure)
        requires
            old(self)@.wf(),
        ensures
            final(self)@ == old(self)@.with_start(instance_id, at, rel),
            final(self)@.wf(),
    {
        if let Some(t) = &mut self.tracker {
            t.record_dispatch(instance_id, at, rel);
        }
    }

    /// Look at the clock.
    pub fn poll(&mut self, now: Measure)
        requires
            old(self)@.wf(),
        ensures
            final(self)@ == old(self)@.with_clock(now),
            final(self)@.wf(),
    {
        if let Some(t) = &mut self.tracker {
            t.poll(now);
        }
    }

    /// The unsolved count at the checkpoint, once it is known.
    pub fn checkpoint_score(&self) -> (r: Option<Measure>)
        requires
            self@.wf(),
        ensures
            r == self@.checkpoint(),
    {
        match &self.tracker {
            Some(t) => t.score(),
            None => None,
        }
    }

    /// Whether every result is in.
    pub fn is_complete(&self) -> (r: bool)
        ensures
            r == self@.complete(),
    {
        self.runtimes.len() >= self.n_instances
    }

    /// What the score is formed from; nothing if there is no result.
    pub fn score_parts(&self, options: &IlsOptions) -> (r: Option<ScoreParts>)
        requires
            self@.wf(),
        ensures
            match r {
                Some(parts) => self@.runtimes.len() > 0 && parts@ == score_of(
                    *options,
                    self@.runtimes,
                    self@.qualities,
                ),
                None => self@.runtimes.len() == 0,
            },
    {
        if self.runtimes.len() == 0 {
            return None;
        }
        Some(compute_score(&self.runtimes, &self.qualities, options))
    }

    /// Whether more has been spent than beating the incumbent allows. Costs
    /// never go down, so passing the budget settles that the configuration
    /// does not beat the bound.
    pub fn check_capping(&self, options: &IlsOptions, bounds: &Bounds) -> (r: bool)
        ensures
            r == self@.over_budget(*options, *bounds),
    {
        options.pruning && bounds.incumbent_score.is_some() && !self.partial.le(bounds.budget)
    }

    /// Look at the checkpoint: report it once, and say whether it speaks
    /// against the configuration.
    pub fn check_future_telling(&mut self, bounds: &Bounds) -> (r: CheckpointLook)
        requires
            old(self)@.wf(),
        ensures
            r == old(self)@.look(*bounds),
            final(self)@ == old(self)@.looked(),
            final(self)@.wf(),
    {
        let ckpt = match self.checkpoint_score() {
            Some(c) => c,
            None => return CheckpointLook { news: None, rejected: None },
        };
        let news = if self.checkpoint_logged {
            None
        } else {
            Some(ckpt)
        };
        self.checkpoint_logged = true;
        let rejected = match bounds.incumbent_checkpoint {
            Some(inc) => if future_telling_rejects(ckpt, inc, bounds.ceiling) {
                Some(ckpt)
            } else {
                None
            },
            None => None,
        };
        CheckpointLook { news, rejected }
    }
}

/// The evaluation on no instances: there is nothing to run.
pub fn evaluation_of_nothing() -> (e: ConfigEvaluation)
    ensures
        e == ConfigEvaluation::plain(Measure { bits: 0 }, 0),
{
    ConfigEvaluation::complete(Measure::zero(), 0)
}

/// Whether a task evaluates a configuration: it carries the active projection
/// and its hash.
pub open spec fn evaluates(
    task: EvalTask,
    neighbor_id: int,
    config: Assignment,
    space: &ParamSpace,
    instances: Seq<(i64, String)>,
) -> bool {
    &&& task.neighbor_id == neighbor_id
    &&& task.config@ == space.projected(config)
    &&& task.hash == config_hash(space.projected(config))
    &&& task.instances@ == instances
}

/// A task carries the values of the active parameters and no others, their hash,
/// and all the instances.
pub proof fn lemma_task_carries_the_active_values(
    task: EvalTask,
    neighbor_id: int,
    config: Assignment,
    space: &ParamSpace,
    instances: Seq<(i64, String)>,
    name: Seq<char>,
)
    requires
        evaluates(task, neighbor_id, config, space, instances),
    ensures
        task.config@.contains_key(name) <==> config.contains_key(name) && space.active_name(config, name),
        task.config@.contains_key(name) ==> task.config@[name] == config[name],
        task.hash == config_hash(task.config@),
        task.instances@ == instances,
        task.neighbor_id == neighbor_id,
{
}

/// The task to evaluate a configuration. Only its active projection is hashed
/// and sent to the solver.
pub fn evaluation_task(neighbor_id: usize, config: &Config, space: &ParamSpace, instances: &Arc<Vec<(i64, String)>>) -> (t:
    EvalTask)
    ensures
        evaluates(t, neighbor_id as int, config@, space, instances@),
{
    let active = space.active_config(config);
    let hash: u64 = hash_config(&active);
    EvalTask { neighbor_id, config: active, hash, instances: instances.clone() }
}

/// The tasks to evaluate all neighbours of a round on the same instances.
pub fn submit_neighbours(neighbors: &Vec<Config>, space: &ParamSpace, instances: &Arc<Vec<(i64, String)>>) -> (r: Vec<
    EvalTask,
>)
    ensures
        r@.len() == neighbors@.len(),
        forall|i: int|
            0 <= i < r@.len() ==> evaluates(#[trigger] r@[i], i, neighbors@[i]@, space, instances@),
{
    let mut out: Vec<EvalTask> = Vec::new();
    for i in 0..neighbors.len()
        invariant
            out@.len() == i,
            forall|k: int|
                0 <= k < i ==> evaluates(#[trigger] out@[k], k, neighbors@[k]@, space, instances@),
    {
        out.push(evaluation_task(i, &neighbors[i], space, instances));
    }
    out
}

/// An evaluation of which only the score is known counts as complete and has neither
/// fingerprint nor checkpoint.
pub proof fn lemma_plain_evaluation_is_its_score(score: Measure, n_done: usize)
    ensures
        ConfigEvaluation::plain(score, n_done).score == score,
        ConfigEvaluation::plain(score, n_done).complete,
        ConfigEvaluation::plain(score, n_done).n_done == n_done,
        ConfigEvaluation::plain(score, n_done).runhash_n == 0,
        ConfigEvaluation::plain(score, n_done).checkpoint is None,
{
}

} // verus!
