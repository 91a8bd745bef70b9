//! Evaluation of a single configuration: the decisions taken as its results
//! arrive.

use crate::cache::is_storable;
use crate::eval::{DispatchEvent, TaskResult, TaskResultView};
use crate::ils::counters::{self, Counters};
use crate::ils::evaluation::{
    score_of, Bounds, CheckpointLook, ConfigEvaluation, ScoreParts, Sums, Tally, TallyView,
};
use crate::ils::IlsOptions;
use crate::measure::{Measure, COUNT_LIMIT, INFINITE};
use vstd::prelude::*;

verus! {

/// What a result leads to.
#[derive(Clone, Copy, Debug, PartialEq, Eq, Structural)]
pub enum CollectVerdict {
    /// The result belongs to another batch or configuration.
    Stale,
    /// Results are outstanding.
    Waiting,
    /// More was spent than beating the incumbent allows: stop.
    Capped,
    /// The checkpoint speaks against the configuration: stop.
    Rejected,
    /// Every result is in.
    Complete,
}

/// What is to be done about a result.
#[derive(Clone, Copy, Debug, PartialEq, Eq, Structural)]
pub struct CollectStep {
    /// Whether the result is to be stored.
    pub store: bool,
    pub verdict: CollectVerdict,
    /// The unsolved count at the checkpoint, when it is first known.
    pub checkpoint: Option<Measure>,
}

/// Gathers the results of one configuration.
pub struct SingleConfigCollector {
    pub batch_id: u64,
    pub expected_nid: usize,
    pub tally: Tally,
}

/// Whether a result is to be stored: it was produced by an execution and
/// concluded something.
pub open spec fn storable(r: TaskResultView) -> bool {
    r.cacheable && r.status != "UNKNOWN"@
}

/// What a result leads to that the gathered results already hold.
pub open spec fn verdict_of(t: TallyView, options: IlsOptions, bounds: Bounds) -> CollectVerdict {
    if t.over_budget(options, bounds) {
        CollectVerdict::Capped
    } else if t.complete() {
        CollectVerdict::Complete
    } else if t.look(bounds).rejected is Some {
        CollectVerdict::Rejected
    } else {
        CollectVerdict::Waiting
    }
}

/// The gathered results after the decision on them.
pub open spec fn decided(t: TallyView, options: IlsOptions, bounds: Bounds) -> TallyView {
    if t.over_budget(options, bounds) || t.complete() {
        t
    } else {
        t.looked()
    }
}

/// The evaluation that gathered results make, of which `score` is the score.
pub open spec fn concluded(t: TallyView, score: Measure) -> ConfigEvaluation {
    t.evaluation(
        if t.runtimes.len() == 0 {
            Measure { bits: INFINITE }
        } else {
            score
        },
    )
}

/// An evaluation has the score of its results, and an infinite one without any; it
/// is complete exactly if every result is in.
pub proof fn lemma_conclusion_tells_what_is_in(t: TallyView, score: Measure)
    requires
        t.wf(),
    ensures
        t.runtimes.len() > 0 ==> concluded(t, score).score == score,
        t.runtimes.len() == 0 ==> concluded(t, score).score.bits == 0x7ff0_0000_0000_0000,
        concluded(t, score).n_done == t.runtimes.len(),
        concluded(t, score).complete <==> t.runtimes.len() == t.n_instances,
        concluded(t, score).runhash == t.runhash,
        concluded(t, score).runhash_n == t.runhash_n,
        t.tracker is None ==> concluded(t, score).checkpoint is None,
        t.tracker matches Some(k) ==> concluded(t, score).checkpoint == k.unsolved(),
{
}

impl SingleConfigCollector {
    /// Whether a message concerns the batch and configuration of the collector.
    pub open spec fn concerns(&self, batch_id: u64, neighbor_id: usize) -> bool {
        batch_id == self.batch_id && neighbor_id == self.expected_nid
    }

    /// A collector for the configuration `expected_nid` of a batch.
    /// `checkpoint_time` is the horizon of future-telling.
    pub fn new(
        options: &IlsOptions,
        checkpoint_time: Measure,
        cutoff_time: Measure,
        n_instances: usize,
        batch_id: u64,
        expected_nid: usize,
    ) -> (c: SingleConfigCollector)
        requires
            n_instances < COUNT_LIMIT,
        ensures
            c.batch_id == batch_id,
            c.expected_nid == expected_nid,
            c.tally@.wf(),
            c.tally@.begun(*options, checkpoint_time, cutoff_time, n_instances as nat),
    {
        SingleConfigCollector {
            batch_id,
            expected_nid,
            tally: Tally::new(options, checkpoint_time, cutoff_time, n_instances),
        }
    }

    /// Whether every result is in.
    pub fn is_complete(&self) -> (r: bool)
        ensures
            r == self.tally@.complete(),
    {
        self.tally.is_complete()
    }

    /// A worker has started an instance, `rel` after the first start.
    pub fn record_dispatch(&mut self, d: &DispatchEvent, rel: Measure)
        requires
            old(self).tally@.wf(),
        ensures
            final(self).tally@ == if old(self).concerns(d.batch_id, d.neighbor_id) {
                old(self).tally@.with_start(d.instance_id, d.dispatch_time, rel)
            } else {
                old(self).tally@
            },
            final(self).tally@.wf(),
            final(self).batch_id == old(self).batch_id,
            final(self).expected_nid == old(self).expected_nid,
    {
        if d.batch_id != self.batch_id || d.neighbor_id != self.expected_nid {
            return;
        }
        self.tally.record_start(d.instance_id, d.dispatch_time, rel);
    }

    /// Nothing arrived for a while: look at the clock, `now` after the first
    /// start.
    pub fn poll_tracker(&mut self, now: Measure)
        requires
            old(self).tally@.wf(),
        ensures
            final(self).tally@ == old(self).tally@.with_clock(now),
            final(self).tally@.wf(),
            final(self).batch_id == old(self).batch_id,
            final(self).expected_nid == old(self).expected_nid,
    {
        self.tally.poll(now);
    }

    /// A result has arrived. `sums` holds the sums that it makes, `bounds` what
    /// the configuration is held against.
    pub fn on_result(
        &mut self,
        result: &TaskResult,
        sums: Sums,
        options: &IlsOptions,
        bounds: &Bounds,
        counters: &mut Counters,
    ) -> (step: CollectStep)
        requires
            old(self).tally@.wf(),
            !old(self).tally@.complete(),
        ensures
            final(self).tally@.wf(),
            final(self).batch_id == old(self).batch_id,
            final(self).expected_nid == old(self).expected_nid,
            step.store == storable(result@),
            ({
                let t = old(self).tally@.with_result(result@, sums);
                if !old(self).concerns(result.batch_id, result.neighbor_id) {
                    &&& step.verdict == CollectVerdict::Stale
                    &&& step.checkpoint is None
                    &&& final(self).tally@ == old(self).tally@
                    &&& *final(counters) == *old(counters)
                } else {
                    &&& step.verdict == verdict_of(t, *options, *bounds)
                    &&& final(self).tally@ == decided(t, *options, *bounds)
                    &&& step.checkpoint == if t.over_budget(*options, *bounds) || t.complete() {
                        None
                    } else {
                        t.look(*bounds).news
                    }
                    &&& *final(counters) == if step.verdict == CollectVerdict::Rejected {
                        old(counters).rejected()
                    } else {
                        *old(counters)
                    }
                }
            }),
    {
        let store = is_storable(result.cacheable, result.status.as_str());
        if result.batch_id != self.batch_id || result.neighbor_id != self.expected_nid {
            return CollectStep { store, verdict: CollectVerdict::Stale, checkpoint: None };
        }
        self.tally.accumulate(result, sums);
        if self.tally.check_capping(options, bounds) {
            return CollectStep { store, verdict: CollectVerdict::Capped, checkpoint: None };
        }
        if self.tally.is_complete() {
            return CollectStep { store, verdict: CollectVerdict::Complete, checkpoint: None };
        }
        let look: CheckpointLook = self.tally.check_future_telling(bounds);
        if look.rejected.is_some() {
            counters::future_telling_rejected(counters);
            return CollectStep { store, verdict: CollectVerdict::Rejected, checkpoint: look.news };
        }
        CollectStep { store, verdict: CollectVerdict::Waiting, checkpoint: look.news }
    }

    /// What the score is formed from; nothing if there is no result.
    pub fn score_parts(&self, options: &IlsOptions) -> (r: Option<ScoreParts>)
        requires
            self.tally@.wf(),
        ensures
            match r {
                Some(parts) => self.tally@.runtimes.len() > 0 && parts@ == score_of(
                    *options,
                    self.tally@.runtimes,
                    self.tally@.qualities,
                ),
                None => self.tally@.runtimes.len() == 0,
            },
    {
        self.tally.score_parts(options)
    }

    /// The evaluation that the results make. `score` is the score of the
    /// results; without any result it is infinite.
    pub fn finish(&self, score: Measure, counters: &mut Counters) -> (e: ConfigEvaluation)
        requires
            self.tally@.wf(),
        ensures
            e == self.tally@.evaluation(
                if self.tally@.runtimes.len() == 0 {
                    Measure { bits: INFINITE }
                } else {
                    score
                },
            ),
            e == concluded(self.tally@, score),
            *final(counters) == old(counters).evaluated(!e.complete),
    {
        let complete = self.tally.is_complete();
        counters::eval(counters, !complete);
        ConfigEvaluation {
            score: if self.tally.runtimes.len() == 0 {
                Measure::infinity()
            } else {
                score
            },
            complete,
            n_done: self.tally.runtimes.len(),
            runhash: self.tally.runhash,
            runhash_n: self.tally.runhash_n,
            checkpoint: self.tally.checkpoint_score(),
        }
    }
}

/// An evaluation that a checkpoint rejected is not complete, whatever its score.
pub proof fn lemma_rejected_is_incomplete(t: TallyView, options: IlsOptions, bounds: Bounds, score: Measure)
    requires
        verdict_of(t, options, bounds) == CollectVerdict::Rejected,
    ensures
        !decided(t, options, bounds).evaluation(score).complete,
{
}

/// Completion wins over a verdict at the checkpoint.
pub proof fn lemma_completion_wins_over_checkpoint(t: TallyView, options: IlsOptions, bounds: Bounds)
    requires
        t.complete(),
    ensures
        verdict_of(t, options, bounds) != CollectVerdict::Rejected,
{
}

/// Where future-telling does not apply nothing is rejected.
pub proof fn lemma_without_tracker_nothing_is_rejected(t: TallyView, options: IlsOptions, bounds: Bounds)
    requires
        t.tracker is None,
    ensures
        verdict_of(t, options, bounds) != CollectVerdict::Rejected,
        verdict_of(t, options, bounds) == CollectVerdict::Waiting || t.complete() || t.over_budget(
            options,
            bounds,
        ),
{
}

/// Without pruning, or without an incumbent to hold against, nothing is capped.
pub proof fn lemma_without_bound_nothing_is_capped(t: TallyView, options: IlsOptions, bounds: Bounds)
    requires
        !options.pruning || bounds.incumbent_score is None,
    ensures
        verdict_of(t, options, bounds) != CollectVerdict::Capped,
{
}

/// A configuration whose cost is within the budget is not capped, whatever the
/// objective; one whose cost is beyond it is, where pruning is on and there is a
/// score to beat.
pub proof fn lemma_capped_exactly_beyond_the_budget(t: TallyView, options: IlsOptions, bounds: Bounds)
    ensures
        t.partial.at_most(bounds.budget) ==> verdict_of(t, options, bounds) != CollectVerdict::Capped,
        options.pruning && bounds.incumbent_score is Some && !t.partial.at_most(bounds.budget)
            ==> verdict_of(t, options, bounds) == CollectVerdict::Capped,
        verdict_of(t, options, bounds) != CollectVerdict::Stale,
{
}

/// A configuration that is not capped is complete exactly when its last result
/// is in, and until then it is stopped only if the checkpoint speaks against it.
pub proof fn lemma_uncapped_runs_to_the_end(t: TallyView, options: IlsOptions, bounds: Bounds)
    requires
        t.wf(),
        verdict_of(t, options, bounds) != CollectVerdict::Capped,
    ensures
        verdict_of(t, options, bounds) == CollectVerdict::Complete <==> t.runtimes.len() == t.n_instances,
        t.runtimes.len() < t.n_instances && t.look(bounds).rejected is None ==> verdict_of(
            t,
            options,
            bounds,
        ) == CollectVerdict::Waiting,
        t.runtimes.len() < t.n_instances && t.look(bounds).rejected is Some ==> verdict_of(
            t,
            options,
            bounds,
        ) == CollectVerdict::Rejected,
{
}

/// A decision changes nothing of what was gathered.
pub proof fn lemma_decision_keeps_the_results(t: TallyView, options: IlsOptions, bounds: Bounds, score: Measure)
    ensures
        decided(t, options, bounds).evaluation(score) == t.evaluation(score),
        decided(t, options, bounds).runtimes == t.runtimes,
        decided(t, options, bounds).qualities == t.qualities,
        decided(t, options, bounds).partial == t.partial,
        decided(t, options, bounds).tracker == t.tracker,
{
}

/// A result is kept exactly if an execution produced it and it is not unknown.
pub proof fn lemma_only_conclusive_results_are_stored(r: TaskResultView)
    ensures
        !r.cacheable ==> !storable(r),
        r.status == "UNKNOWN"@ ==> !storable(r),
        r.cacheable && r.status != "UNKNOWN"@ ==> storable(r),
{
}

impl SingleConfigCollector {
    /// A message concerns a collector exactly if it is of its batch and about its
    /// configuration.
    pub proof fn lemma_messages_are_told_apart(&self, batch_id: u64, neighbor_id: usize)
        ensures
            batch_id != self.batch_id ==> !self.concerns(batch_id, neighbor_id),
            neighbor_id != self.expected_nid ==> !self.concerns(batch_id, neighbor_id),
            self.concerns(self.batch_id, self.expected_nid),
    {
    }
}

} // verus!
