//! One round of the local search: all neighbours of a configuration evaluated
//! at once, until one improves on it or all have reached a verdict.

use crate::cache::is_storable;
use crate::eval::{DispatchEvent, TaskResult, TaskResultView};
use crate::ils::collect::{storable, verdict_of, CollectVerdict};
use crate::ils::compare::{dominates, strictly_better};
use crate::ils::counters::{self, Counters};
use crate::ils::evaluation::{
    score_of, Bounds, CheckpointLook, ConfigEvaluation, ScoreParts, Sums, Tally, TallyView,
};
use crate::ils::IlsOptions;
use crate::measure::{Measure, COUNT_LIMIT};
use crate::params::count_true;
use vstd::prelude::*;

verus! {

/// What a result leads to.
#[derive(Clone, Copy, Debug, PartialEq, Eq, Structural)]
pub enum RoundVerdict {
    /// The result belongs to another batch, or to a neighbour with a verdict.
    Stale,
    /// Results of the neighbour are outstanding.
    Waiting,
    /// The neighbour spent more than beating the incumbent allows: cancel it.
    Capped,
    /// The checkpoint speaks against the neighbour: cancel it.
    Rejected,
    /// Every result of the neighbour is in: its score decides.
    Complete,
}

/// What is to be done about a result.
#[derive(Clone, Copy, Debug, PartialEq, Eq, Structural)]
pub struct RoundStep {
    /// Whether the result is to be stored.
    pub store: bool,
    pub verdict: RoundVerdict,
    /// The unsolved count at the checkpoint, when it is first known.
    pub checkpoint: Option<Measure>,
}

/// Gathers the results of the neighbours of one round.
pub struct NeighbourRound {
    pub batch_id: u64,
    pub n_instances: usize,
    pub tallies: Vec<Tally>,
    /// Which neighbours have reached a verdict.
    pub done: Vec<bool>,
    pub n_done: usize,
}

/// The state of a round as mathematical values.
pub struct RoundView {
    pub batch_id: u64,
    pub n_instances: nat,
    pub tallies: Seq<TallyView>,
    pub done: Seq<bool>,
    pub n_done: nat,
}

impl View for NeighbourRound {
    type V = RoundView;

    open spec fn view(&self) -> RoundView {
        RoundView {
            batch_id: self.batch_id,
            n_instances: self.n_instances as nat,
            tallies: self.tallies@.map_values(|t: Tally| t@),
            done: self.done@,
            n_done: self.n_done as nat,
        }
    }
}

/// What a result leads to that the gathered results of its neighbour already hold.
pub open spec fn round_verdict(t: TallyView, options: IlsOptions, bounds: Bounds) -> RoundVerdict {
    if t.over_budget(options, bounds) {
        RoundVerdict::Capped
    } else if t.complete() {
        RoundVerdict::Complete
    } else if t.look(bounds).rejected is Some {
        RoundVerdict::Rejected
    } else {
        RoundVerdict::Waiting
    }
}

/// Whether a verdict settles a neighbour.
pub open spec fn settles(v: RoundVerdict) -> bool {
    v == RoundVerdict::Capped || v == RoundVerdict::Rejected || v == RoundVerdict::Complete
}

/// The counters after a verdict.
pub open spec fn counted(c: Counters, v: RoundVerdict) -> Counters {
    match v {
        RoundVerdict::Capped => c.evaluated(true),
        RoundVerdict::Rejected => c.evaluated(true).rejected(),
        RoundVerdict::Complete => c.evaluated(false),
        _ => c,
    }
}

impl RoundView {
    /// Each neighbour has its own tally, is done or lacks a result, and as many
    /// as `n_done` are done.
    pub open spec fn wf(self) -> bool {
        &&& self.tallies.len() == self.done.len() <= usize::MAX
        &&& self.n_done == count_true(self.done)
        &&& forall|i: int|
            0 <= i < self.tallies.len() ==> {
                &&& (#[trigger] self.tallies[i]).wf()
                &&& self.tallies[i].n_instances == self.n_instances
                &&& !self.done[i] ==> !self.tallies[i].complete() || self.n_instances == 0
            }
    }

    /// Whether a message concerns a neighbour of this round without a verdict.
    pub open spec fn concerns(self, batch_id: u64, neighbor_id: usize) -> bool {
        batch_id == self.batch_id && neighbor_id < self.done.len() && !self.done[neighbor_id as int]
    }

    /// Whether every neighbour has a verdict.
    pub open spec fn over(self) -> bool {
        self.n_done >= self.done.len()
    }

    /// The tally of its neighbour with a result.
    pub open spec fn tally_with(self, r: TaskResultView, sums: Sums) -> TallyView {
        self.tallies[r.neighbor_id as int].with_result(r, sums)
    }

    /// What a result leads to.
    pub open spec fn verdict(
        self,
        r: TaskResultView,
        sums: Sums,
        options: IlsOptions,
        bounds: Bounds,
    ) -> RoundVerdict {
        if !self.concerns(r.batch_id, r.neighbor_id) {
            RoundVerdict::Stale
        } else {
            round_verdict(self.tally_with(r, sums), options, bounds)
        }
    }

    /// After a result.
    pub open spec fn with_result(
        self,
        r: TaskResultView,
        sums: Sums,
        options: IlsOptions,
        bounds: Bounds,
    ) -> RoundView {
        if !self.concerns(r.batch_id, r.neighbor_id) {
            self
        } else {
            let t = self.tally_with(r, sums);
            let k = r.neighbor_id as int;
            let v = round_verdict(t, options, bounds);
            RoundView {
                tallies: self.tallies.update(
                    k,
                    if v == RoundVerdict::Capped || v == RoundVerdict::Complete {
                        t
                    } else {
                        t.looked()
                    },
                ),
                done: if settles(v) {
                    self.done.update(k, true)
                } else {
                    self.done
                },
                n_done: if settles(v) {
                    self.n_done + 1
                } else {
                    self.n_done
                },
                ..self
            }
        }
    }

    /// After the report of a start.
    pub open spec fn with_start(self, batch_id: u64, neighbor_id: usize, id: i64, at: Measure, rel: Measure) -> RoundView {
        if self.concerns(batch_id, neighbor_id) {
            let k = neighbor_id as int;
            RoundView { tallies: self.tallies.update(k, self.tallies[k].with_start(id, at, rel)), ..self }
        } else {
            self
        }
    }

    /// After a look at the clock, for each neighbour that long after its first
    /// start.
    pub open spec fn with_clock(self, now: Seq<Measure>) -> RoundView {
        RoundView {
            tallies: Seq::new(self.tallies.len(), |i: int| self.tallies[i].with_clock(now[i])),
            ..self
        }
    }

    /// The evaluation of a neighbour whose results are all in.
    pub open spec fn evaluation(self, k: int, score: Measure) -> ConfigEvaluation {
        self.tallies[k].evaluation(score)
    }

    /// A neighbour with a verdict keeps it, and what was gathered of it.
    pub proof fn lemma_verdicts_are_final(
        self,
        r: TaskResultView,
        sums: Sums,
        options: IlsOptions,
        bounds: Bounds,
        k: int,
    )
        requires
            self.wf(),
            0 <= k < self.done.len(),
            self.done[k],
        ensures
            self.with_result(r, sums, options, bounds).done[k],
            self.with_result(r, sums, options, bounds).tallies[k] == self.tallies[k],
    {
    }

    /// A result touches no neighbour but its own.
    pub proof fn lemma_results_touch_one_neighbour(
        self,
        r: TaskResultView,
        sums: Sums,
        options: IlsOptions,
        bounds: Bounds,
        k: int,
    )
        requires
            self.wf(),
            0 <= k < self.done.len(),
            k != r.neighbor_id,
        ensures
            self.with_result(r, sums, options, bounds).done[k] == self.done[k],
            self.with_result(r, sums, options, bounds).tallies[k] == self.tallies[k],
    {
    }

    /// A round is over exactly when every neighbour has a verdict.
    pub proof fn lemma_over_means_all_done(self)
        requires
            self.wf(),
        ensures
            self.n_done <= self.done.len(),
            self.over() <==> forall|i: int| 0 <= i < self.done.len() ==> self.done[i],
    {
        lemma_count_true_is_full(self.done);
    }

    proof fn lemma_with_result_wf(self, r: TaskResultView, sums: Sums, options: IlsOptions, bounds: Bounds)
        requires
            self.wf(),
            self.concerns(r.batch_id, r.neighbor_id),
            self.tally_with(r, sums).wf(),
        ensures
            self.with_result(r, sums, options, bounds).wf(),
            self.n_done < usize::MAX,
    {
        let k = r.neighbor_id as int;
        lemma_count_true_set(self.done, k);
        lemma_count_true_is_full(self.done.update(k, true));
    }
}

proof fn lemma_count_true_set(s: Seq<bool>, i: int)
    requires
        0 <= i < s.len(),
        !s[i],
    ensures
        count_true(s.update(i, true)) == count_true(s) + 1,
    decreases s.len(),
{
    let u = s.update(i, true);
    if i == s.len() - 1 {
        assert(u.drop_last() =~= s.drop_last());
    } else {
        assert(u.drop_last() =~= s.drop_last().update(i, true));
        lemma_count_true_set(s.drop_last(), i);
    }
}

proof fn lemma_count_true_is_full(s: Seq<bool>)
    ensures
        count_true(s) <= s.len(),
        count_true(s) == s.len() <==> forall|i: int| 0 <= i < s.len() ==> s[i],
    decreases s.len(),
{
    if s.len() > 0 {
        let d = s.drop_last();
        lemma_count_true_is_full(d);
        if forall|i: int| 0 <= i < s.len() ==> s[i] {
            assert forall|i: int| 0 <= i < d.len() implies d[i] by {
                assert(s[i]);
            }
        }
        if count_true(s) == s.len() {
            assert forall|i: int| 0 <= i < s.len() implies s[i] by {
                if i < d.len() {
                    assert(d[i]);
                }
            }
        }
    }
}

proof fn lemma_count_true_none(s: Seq<bool>)
    requires
        forall|i: int| 0 <= i < s.len() ==> !s[i],
    ensures
        count_true(s) == 0,
    decreases s.len(),
{
    if s.len() > 0 {
        lemma_count_true_none(s.drop_last());
    }
}

impl NeighbourRound {
    /// A round of `n` neighbours on `n_instances` instances. `checkpoint_time` is
    /// the horizon of future-telling.
    pub fn new(
        options: &IlsOptions,
        checkpoint_time: Measure,
        cutoff_time: Measure,
        n: usize,
        n_instances: usize,
        batch_id: u64,
    ) -> (r: NeighbourRound)
        requires
            n_instances < COUNT_LIMIT,
        ensures
            r@.wf(),
            r@.batch_id == batch_id,
            r@.n_instances == n_instances,
            r@.tallies.len() == n,
            r@.n_done == 0,
            forall|i: int|
                0 <= i < n ==> {
                    &&& !r@.done[i]
                    &&& (#[trigger] r@.tallies[i]).begun(
                        *options,
                        checkpoint_time,
                        cutoff_time,
                        n_instances as nat,
                    )
                },
    {
        let mut tallies: Vec<Tally> = Vec::new();
        let mut done: Vec<bool> = Vec::new();
        for i in 0..n
            invariant
                n_instances < COUNT_LIMIT,
                tallies@.len() == i,
                done@.len() == i,
                forall|k: int| 0 <= k < i ==> !done@[k],
                forall|k: int|
                    0 <= k < i ==> {
                        let t = (#[trigger] tallies@[k])@;
                        &&& t.wf()
                        &&& t.begun(*options, checkpoint_time, cutoff_time, n_instances as nat)
                    },
        {
            tallies.push(Tally::new(options, checkpoint_time, cutoff_time, n_instances));
            done.push(false);
        }
        proof {
            lemma_count_true_none(done@);
        }
        NeighbourRound { batch_id, n_instances, tallies, done, n_done: 0 }
    }

    /// Whether every neighbour has a verdict.
    pub fn is_over(&self) -> (r: bool)
        requires
            self@.wf(),
        ensures
            r == self@.over(),
    {
        self.n_done >= self.done.len()
    }

    /// Whether a message concerns a neighbour of this round without a verdict.
    pub fn awaits(&self, batch_id: u64, neighbor_id: usize) -> (r: bool)
        requires
            self@.wf(),
        ensures
            r == self@.concerns(batch_id, neighbor_id),
    {
        batch_id == self.batch_id && neighbor_id < self.done.len() && !self.done[neighbor_id]
    }

    /// A worker has started an instance of a neighbour, `rel` after the first
    /// start for that neighbour.
    pub fn record_dispatch(&mut self, d: &DispatchEvent, rel: Measure)
        requires
            old(self)@.wf(),
        ensures
            final(self)@ == old(self)@.with_start(
                d.batch_id,
                d.neighbor_id,
                d.instance_id,
                d.dispatch_time,
                rel,
            ),
            final(self)@.wf(),
    {
        if !self.awaits(d.batch_id, d.neighbor_id) {
            return;
        }
        let ghost before = self@;
        let k: usize = d.neighbor_id;
        assert(before.tallies[k as int] == self.tallies@[k as int]@);
        self.tallies[k].record_start(d.instance_id, d.dispatch_time, rel);
        assert(self@.tallies =~= before.tallies.update(
            k as int,
            before.tallies[k as int].with_start(d.instance_id, d.dispatch_time, rel),
        ));
    }

    /// Nothing arrived for a while: look at the clock. `now` holds, for each
    /// neighbour, the time since its first start.
    pub fn poll_trackers(&mut self, now: &Vec<Measure>)
        requires
            old(self)@.wf(),
            now@.len() == old(self)@.tallies.len(),
        ensures
            final(self)@ == old(self)@.with_clock(now@),
            final(self)@.wf(),
    {
        let ghost before = self@;
        let n: usize = self.tallies.len();
        for i in 0..n
            invariant
                n == before.tallies.len(),
                before.wf(),
                now@.len() == before.tallies.len(),
                self@.tallies.len() == before.tallies.len(),
                self@ == (RoundView { tallies: self@.tallies, ..before }),
                forall|k: int|
                    0 <= k < i ==> (#[trigger] self@.tallies[k]) == before.tallies[k].with_clock(now@[k]),
                forall|k: int| i <= k < before.tallies.len() ==> (#[trigger] self@.tallies[k]) == before.tallies[k],
                forall|k: int|
                    0 <= k < before.tallies.len() ==> (#[trigger] self@.tallies[k]).wf(),
        {
            let ghost prev = self@;
            assert(prev.tallies[i as int] == self.tallies@[i as int]@);
            self.tallies[i].poll(now[i]);
            assert(self@.tallies =~= prev.tallies.update(i as int, prev.tallies[i as int].with_clock(now@[i as int])));
        }
        assert(self@.tallies =~= before.with_clock(now@).tallies);
    }

    /// A result has arrived. `sums` holds the sums that it makes for its
    /// neighbour, `bounds` what the neighbours are held against. Without
    /// instances there are no results.
    pub fn on_result(
        &mut self,
        result: &TaskResult,
        sums: Sums,
        options: &IlsOptions,
        bounds: &Bounds,
        counters: &mut Counters,
    ) -> (step: RoundStep)
        requires
            old(self)@.wf(),
            old(self)@.n_instances > 0,
        ensures
            final(self)@ == old(self)@.with_result(result@, sums, *options, *bounds),
            final(self)@.wf(),
            step.store == storable(result@),
            step.verdict == old(self)@.verdict(result@, sums, *options, *bounds),
            step.checkpoint == if step.verdict == RoundVerdict::Waiting || step.verdict
                == RoundVerdict::Rejected {
                old(self)@.tally_with(result@, sums).look(*bounds).news
            } else {
                None
            },
            *final(counters) == counted(*old(counters), step.verdict),
            step.verdict == RoundVerdict::Complete ==> result.neighbor_id < final(self)@.tallies.len()
                && final(self)@.tallies[result.neighbor_id as int].complete(),
    {
        let store = is_storable(result.cacheable, result.status.as_str());
        if !self.awaits(result.batch_id, result.neighbor_id) {
            return RoundStep { store, verdict: RoundVerdict::Stale, checkpoint: None };
        }
        let ghost before = self@;
        let k: usize = result.neighbor_id;
        assert(before.tallies[k as int] == self.tallies@[k as int]@);
        self.tallies[k].accumulate(result, sums);
        let ghost t = before.tally_with(result@, sums);
        proof {
            assert(self.tallies@[k as int]@ == t);
            before.lemma_with_result_wf(result@, sums, *options, *bounds);
        }
        if self.tallies[k].check_capping(options, bounds) {
            self.done.set(k, true);
            self.n_done = self.n_done + 1;
            counters::eval(counters, true);
            assert(self@.tallies =~= before.tallies.update(k as int, t));
            return RoundStep { store, verdict: RoundVerdict::Capped, checkpoint: None };
        }
        if self.tallies[k].is_complete() {
            self.done.set(k, true);
            self.n_done = self.n_done + 1;
            counters::eval(counters, false);
            assert(self@.tallies =~= before.tallies.update(k as int, t));
            return RoundStep { store, verdict: RoundVerdict::Complete, checkpoint: None };
        }
        let look: CheckpointLook = self.tallies[k].check_future_telling(bounds);
        assert(self@.tallies =~= before.tallies.update(k as int, t.looked()));
        if look.rejected.is_some() {
            self.done.set(k, true);
            self.n_done = self.n_done + 1;
            counters::eval(counters, true);
            counters::future_telling_rejected(counters);
            return RoundStep { store, verdict: RoundVerdict::Rejected, checkpoint: look.news };
        }
        RoundStep { store, verdict: RoundVerdict::Waiting, checkpoint: look.news }
    }

    /// What the score of a neighbour is formed from; nothing if it has no result.
    pub fn score_parts(&self, neighbor_id: usize, options: &IlsOptions) -> (r: Option<ScoreParts>)
        requires
            self@.wf(),
            neighbor_id < self@.tallies.len(),
        ensures
            match r {
                Some(parts) => parts@ == score_of(
                    *options,
                    self@.tallies[neighbor_id as int].runtimes,
                    self@.tallies[neighbor_id as int].qualities,
                ) && self@.tallies[neighbor_id as int].runtimes.len() > 0,
                None => self@.tallies[neighbor_id as int].runtimes.len() == 0,
            },
    {
        assert(self@.tallies[neighbor_id as int] == self.tallies@[neighbor_id as int]@);
        self.tallies[neighbor_id].score_parts(options)
    }

    /// All results of a neighbour are in and make `score`. Its evaluation, if it
    /// is better than the current one: the round ends with it.
    pub fn judge(&self, neighbor_id: usize, score: Measure, current_score: Measure, options: &IlsOptions) -> (r: Option<
        ConfigEvaluation,
    >)
        requires
            self@.wf(),
            neighbor_id < self@.tallies.len(),
            self@.tallies[neighbor_id as int].complete(),
        ensures
            r is Some <==> ends_round(*options, score, current_score, self@.n_instances as int),
            match r {
                Some(e) => strictly_better(
                    options.approach,
                    score,
                    self@.n_instances as int,
                    current_score,
                    self@.n_instances as int,
                ) && e == self@.evaluation(neighbor_id as int, score) && e.complete && e.n_done
                    == self@.n_instances,
                None => !strictly_better(
                    options.approach,
                    score,
                    self@.n_instances as int,
                    current_score,
                    self@.n_instances as int,
                ),
            },
    {
        if !dominates(score, self.n_instances, current_score, self.n_instances, options) {
            return None;
        }
        assert(self@.tallies[neighbor_id as int] == self.tallies@[neighbor_id as int]@);
        let t = &self.tallies[neighbor_id];
        Some(
            ConfigEvaluation {
                score,
                complete: true,
                n_done: self.n_instances,
                runhash: t.runhash,
                runhash_n: t.runhash_n,
                checkpoint: t.checkpoint_score(),
            },
        )
    }
}

impl RoundView {
    /// A neighbour whose cost is within the budget is not capped by its result,
    /// whatever the objective; one whose cost is beyond it is, where pruning is on
    /// and there is a score to beat.
    pub proof fn lemma_capped_exactly_beyond_the_budget(
        self,
        r: TaskResultView,
        sums: Sums,
        options: IlsOptions,
        bounds: Bounds,
    )
        ensures
            sums.partial.at_most(bounds.budget) ==> self.verdict(r, sums, options, bounds)
                != RoundVerdict::Capped,
            self.concerns(r.batch_id, r.neighbor_id) && options.pruning && bounds.incumbent_score is Some
                && !sums.partial.at_most(bounds.budget) ==> self.verdict(r, sums, options, bounds)
                == RoundVerdict::Capped,
            !options.pruning || bounds.incumbent_score is None ==> self.verdict(r, sums, options, bounds)
                != RoundVerdict::Capped,
    {
    }

    /// A result of another batch, of a neighbour that is none or of one with a
    /// verdict changes nothing; every other result counts.
    pub proof fn lemma_stale_exactly_without_a_neighbour(
        self,
        r: TaskResultView,
        sums: Sums,
        options: IlsOptions,
        bounds: Bounds,
    )
        ensures
            self.verdict(r, sums, options, bounds) == RoundVerdict::Stale <==> r.batch_id != self.batch_id
                || r.neighbor_id >= self.done.len() || self.done[r.neighbor_id as int],
            self.verdict(r, sums, options, bounds) == RoundVerdict::Stale ==> self.with_result(
                r,
                sums,
                options,
                bounds,
            ) == self,
    {
    }

    /// A result that counts adds its runtime and quality to its neighbour, which
    /// reaches a verdict unless it waits for more; a neighbour that is not capped
    /// is complete exactly with its last result.
    pub proof fn lemma_result_reaches_its_neighbour(
        self,
        r: TaskResultView,
        sums: Sums,
        options: IlsOptions,
        bounds: Bounds,
    )
        requires
            self.wf(),
            self.n_instances > 0,
            r.batch_id == self.batch_id,
            r.neighbor_id < self.done.len(),
            !self.done[r.neighbor_id as int],
        ensures
            ({
                let k = r.neighbor_id as int;
                let v = self.verdict(r, sums, options, bounds);
                let next = self.with_result(r, sums, options, bounds);
                &&& next.tallies[k].runtimes == self.tallies[k].runtimes.push(r.runtime)
                &&& next.tallies[k].qualities == self.tallies[k].qualities.push(r.quality)
                &&& next.tallies[k].partial == sums.partial
                &&& v == RoundVerdict::Capped || v == RoundVerdict::Complete ==> next.tallies[k]
                    == self.tallies[k].with_result(r, sums)
                &&& v == RoundVerdict::Waiting || v == RoundVerdict::Rejected ==> next.tallies[k]
                    == self.tallies[k].with_result(r, sums).looked()
                &&& next.done[k] <==> v != RoundVerdict::Waiting
                &&& next.n_done == self.n_done + if v == RoundVerdict::Waiting {
                    0int
                } else {
                    1int
                }
                &&& v != RoundVerdict::Capped ==> (v == RoundVerdict::Complete
                    <==> next.tallies[k].runtimes.len() == self.n_instances)
                &&& next.batch_id == self.batch_id
                &&& next.n_instances == self.n_instances
            }),
    {
        assert(self.tallies[r.neighbor_id as int].wf());
    }

    /// In a round a result leads to what it would lead to for a single
    /// configuration.
    pub proof fn lemma_neighbours_are_judged_alike(t: TallyView, options: IlsOptions, bounds: Bounds)
        ensures
            round_verdict(t, options, bounds) == RoundVerdict::Capped <==> verdict_of(t, options, bounds)
                == CollectVerdict::Capped,
            round_verdict(t, options, bounds) == RoundVerdict::Complete <==> verdict_of(t, options, bounds)
                == CollectVerdict::Complete,
            round_verdict(t, options, bounds) == RoundVerdict::Rejected <==> verdict_of(t, options, bounds)
                == CollectVerdict::Rejected,
            round_verdict(t, options, bounds) == RoundVerdict::Waiting <==> verdict_of(t, options, bounds)
                == CollectVerdict::Waiting,
    {
    }

    /// Every verdict counts one evaluation, one that is not complete counts as
    /// capped, and a rejection at a checkpoint counts as such; a result without a
    /// verdict counts nothing.
    pub proof fn lemma_verdicts_are_counted(c: Counters, v: RoundVerdict)
        requires
            c.evals < usize::MAX,
            c.capped < usize::MAX,
            c.future_telling_rejected < usize::MAX,
        ensures
            v == RoundVerdict::Stale || v == RoundVerdict::Waiting ==> counted(c, v) == c,
            v == RoundVerdict::Capped || v == RoundVerdict::Rejected || v == RoundVerdict::Complete
                ==> counted(c, v).evals == c.evals + 1,
            counted(c, v).capped == c.capped + if v == RoundVerdict::Capped || v == RoundVerdict::Rejected {
                1int
            } else {
                0int
            },
            counted(c, v).future_telling_rejected == c.future_telling_rejected + if v
                == RoundVerdict::Rejected {
                1int
            } else {
                0int
            },
    {
    }
}

/// Whether a neighbour with that score ends the round of a configuration with the
/// current one.
pub open spec fn ends_round(options: IlsOptions, score: Measure, current_score: Measure, n_runs: int) -> bool {
    strictly_better(options.approach, score, n_runs, current_score, n_runs)
}

/// A round ends with the first neighbour that is strictly better, whatever the
/// approach; one that is as good or worse does not end it.
pub proof fn lemma_round_ends_with_an_improvement(
    options: IlsOptions,
    score: Measure,
    current_score: Measure,
    n_runs: int,
)
    ensures
        ends_round(options, score, current_score, n_runs) <==> score.below(current_score),
        !ends_round(options, score, score, n_runs),
{
}

impl RoundView {
    /// A reported start reaches the neighbour that it is for, if that is of this
    /// round and without a verdict, and no other.
    pub proof fn lemma_starts_reach_their_neighbour(
        self,
        batch_id: u64,
        neighbor_id: usize,
        id: i64,
        at: Measure,
        rel: Measure,
        k: int,
    )
        requires
            self.wf(),
            0 <= k < self.tallies.len(),
        ensures
            ({
                let next = self.with_start(batch_id, neighbor_id, id, at, rel);
                let reached = batch_id == self.batch_id && k == neighbor_id && !self.done[k];
                &&& next.tallies.len() == self.tallies.len()
                &&& reached ==> next.tallies[k] == self.tallies[k].with_start(id, at, rel)
                &&& !reached ==> next.tallies[k] == self.tallies[k]
                &&& next.done == self.done && next.n_done == self.n_done && next.batch_id == self.batch_id
                &&& next.n_instances == self.n_instances
            }),
    {
    }

    /// A look at the clock is one for every neighbour, by its own time.
    pub proof fn lemma_clock_is_looked_at_for_each(self, now: Seq<Measure>, k: int)
        requires
            0 <= k < self.tallies.len(),
        ensures
            self.with_clock(now).tallies[k] == self.tallies[k].with_clock(now[k]),
            self.with_clock(now).tallies.len() == self.tallies.len(),
            self.with_clock(now).done == self.done,
            self.with_clock(now).n_done == self.n_done,
            self.with_clock(now).batch_id == self.batch_id,
    {
    }

    /// The evaluation of a neighbour whose results are all in is complete and has
    /// the score of those results.
    pub proof fn lemma_complete_neighbour_is_evaluated_in_full(self, k: int, score: Measure)
        requires
            self.wf(),
            0 <= k < self.tallies.len(),
            self.tallies[k].runtimes.len() == self.n_instances,
        ensures
            self.evaluation(k, score).score == score,
            self.evaluation(k, score).complete,
            self.evaluation(k, score).n_done == self.n_instances,
            self.evaluation(k, score).runhash == self.tallies[k].runhash,
            self.evaluation(k, score).runhash_n == self.tallies[k].runhash_n,
    {
        assert(self.tallies[k].wf());
    }
}

} // verus!
