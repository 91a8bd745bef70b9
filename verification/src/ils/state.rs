//! What a run carries from one round to the next: the incumbent, the home base
//! and the counts of the summary.

use crate::config::{Assignment, Config};
use crate::ils::compare::{acceptance_criterion, accepts, dominates, strictly_better};
use crate::ils::counters::{increment, one_more};
use crate::ils::evaluation::ConfigEvaluation;
use crate::ils::{IlsOptions, RestartReason};
use crate::measure::Measure;
use vstd::prelude::*;

verus! {

/// The incumbent, the best configuration found; the home base, where the next
/// perturbation starts from; and the counts of the summary.
pub struct RunState {
    pub incumbent: Config,
    pub incumbent_score: Measure,
    /// The incumbent's unsolved count at its checkpoint, if it has one.
    pub incumbent_checkpoint: Option<Measure>,
    /// On how many instances `incumbent_score` was measured.
    pub incumbent_runs: usize,
    pub last_lm: Config,
    pub last_lm_eval: ConfigEvaluation,
    /// On how many instances `last_lm_eval` was measured.
    pub last_lm_runs: usize,
    pub home_base_checkpoint: Option<Measure>,
    /// Consecutive rounds whose local optimum was not accepted.
    pub rejections: usize,
    /// How often the incumbent was replaced.
    pub n_incumbents: usize,
    pub n_rounds: usize,
    /// Rounds whose descent made a move.
    pub n_searched: usize,
    /// Rounds that made no move from a start that was capped.
    pub n_gated: usize,
}

/// The state as mathematical values.
pub struct RunView {
    pub incumbent: Assignment,
    pub incumbent_score: Measure,
    pub incumbent_checkpoint: Option<Measure>,
    pub incumbent_runs: nat,
    pub last_lm: Assignment,
    pub last_lm_eval: ConfigEvaluation,
    pub last_lm_runs: nat,
    pub home_base_checkpoint: Option<Measure>,
    pub rejections: usize,
    pub n_incumbents: usize,
    pub n_rounds: usize,
    pub n_searched: usize,
    pub n_gated: usize,
}

impl View for RunState {
    type V = RunView;

    open spec fn view(&self) -> RunView {
        RunView {
            incumbent: self.incumbent@,
            incumbent_score: self.incumbent_score,
            incumbent_checkpoint: self.incumbent_checkpoint,
            incumbent_runs: self.incumbent_runs as nat,
            last_lm: self.last_lm@,
            last_lm_eval: self.last_lm_eval,
            last_lm_runs: self.last_lm_runs as nat,
            home_base_checkpoint: self.home_base_checkpoint,
            rejections: self.rejections,
            n_incumbents: self.n_incumbents,
            n_rounds: self.n_rounds,
            n_searched: self.n_searched,
            n_gated: self.n_gated,
        }
    }
}

impl RunView {
    /// Incumbent and home base are the starting point.
    pub open spec fn started(start: Assignment, eval: ConfigEvaluation, n_runs: nat) -> RunView {
        RunView {
            incumbent: start,
            incumbent_score: eval.score,
            incumbent_checkpoint: eval.checkpoint,
            incumbent_runs: n_runs,
            last_lm: start,
            last_lm_eval: eval,
            last_lm_runs: n_runs,
            home_base_checkpoint: None,
            rejections: 0,
            n_incumbents: 0,
            n_rounds: 0,
            n_searched: 0,
            n_gated: 0,
        }
    }

    /// Whether an evaluation makes its configuration the incumbent: it is
    /// complete and strictly better.
    pub open spec fn promotes(self, options: IlsOptions, eval: ConfigEvaluation, n_runs: nat) -> bool {
        eval.complete && strictly_better(
            options.approach,
            eval.score,
            n_runs as int,
            self.incumbent_score,
            n_runs as int,
        )
    }

    /// After a candidate for the incumbent.
    pub open spec fn challenged(
        self,
        candidate: Assignment,
        eval: ConfigEvaluation,
        n_runs: nat,
        options: IlsOptions,
    ) -> RunView {
        if self.promotes(options, eval, n_runs) {
            RunView {
                incumbent: candidate,
                incumbent_score: eval.score,
                incumbent_checkpoint: eval.checkpoint,
                incumbent_runs: n_runs,
                n_incumbents: one_more(self.n_incumbents),
                ..self
            }
        } else {
            self
        }
    }

    /// With another home base; an incomplete evaluation is refused.
    pub open spec fn rehomed(self, home_base: Assignment, eval: ConfigEvaluation, n_runs: nat) -> RunView {
        if eval.complete {
            RunView {
                last_lm: home_base,
                last_lm_eval: eval,
                last_lm_runs: n_runs,
                home_base_checkpoint: eval.checkpoint,
                ..self
            }
        } else {
            self
        }
    }

    /// Whether a local optimum becomes the home base.
    pub open spec fn accepts(
        self,
        options: IlsOptions,
        eval: ConfigEvaluation,
        n_runs: nat,
        ceiling: Measure,
    ) -> bool {
        eval.complete && accepts(
            options,
            eval.score,
            n_runs as int,
            self.last_lm_eval.score,
            n_runs as int,
            self.incumbent_score,
            ceiling,
        )
    }

    /// After a local optimum was held against the home base.
    pub open spec fn judged(
        self,
        new_lm: Assignment,
        eval: ConfigEvaluation,
        n_runs: nat,
        ceiling: Measure,
        options: IlsOptions,
    ) -> RunView {
        if self.accepts(options, eval, n_runs, ceiling) {
            RunView {
                last_lm: new_lm,
                last_lm_eval: eval,
                last_lm_runs: n_runs,
                home_base_checkpoint: eval.checkpoint,
                rejections: 0,
                ..self
            }
        } else {
            RunView {
                rejections: one_more(self.rejections),
                home_base_checkpoint: if eval.complete {
                    self.last_lm_eval.checkpoint
                } else {
                    self.home_base_checkpoint
                },
                ..self
            }
        }
    }

    /// With one more round.
    pub open spec fn with_round(self, steps: usize, gated_start: bool) -> RunView {
        RunView {
            n_rounds: one_more(self.n_rounds),
            n_searched: if steps > 0 {
                one_more(self.n_searched)
            } else {
                self.n_searched
            },
            n_gated: if steps == 0 && gated_start {
                one_more(self.n_gated)
            } else {
                self.n_gated
            },
            ..self
        }
    }

    /// Whether stagnation calls for a restart.
    pub open spec fn stagnates(self, options: IlsOptions) -> bool {
        options.restart_failures > 0 && self.rejections >= options.restart_failures
    }

    /// With incumbent and home base measured anew on more instances.
    pub open spec fn remeasured(self, incumbent: ConfigEvaluation, home: ConfigEvaluation, n_runs: nat) -> RunView {
        RunView {
            incumbent_score: incumbent.score,
            incumbent_checkpoint: incumbent.checkpoint,
            incumbent_runs: n_runs,
            last_lm_eval: home,
            last_lm_runs: n_runs,
            home_base_checkpoint: home.checkpoint,
            ..self
        }
    }

    /// An incomplete evaluation replaces neither incumbent nor home base, however
    /// good its score looks.
    pub proof fn lemma_incomplete_replaces_nothing(
        self,
        config: Assignment,
        eval: ConfigEvaluation,
        n_runs: nat,
        ceiling: Measure,
        options: IlsOptions,
    )
        requires
            !eval.complete,
        ensures
            self.challenged(config, eval, n_runs, options) == self,
            self.rehomed(config, eval, n_runs) == self,
            self.judged(config, eval, n_runs, ceiling, options).last_lm == self.last_lm,
            self.judged(config, eval, n_runs, ceiling, options).last_lm_eval == self.last_lm_eval,
    {
    }
}

impl RunView {
    /// After a sequence of candidates for the incumbent, all measured on the
    /// same instances.
    pub open spec fn challenged_by_all(
        self,
        candidates: Seq<(Assignment, ConfigEvaluation)>,
        n_runs: nat,
        options: IlsOptions,
    ) -> RunView
        decreases candidates.len(),
    {
        if candidates.len() == 0 {
            self
        } else {
            self.challenged_by_all(candidates.drop_last(), n_runs, options).challenged(
                candidates.last().0,
                candidates.last().1,
                n_runs,
                options,
            )
        }
    }

    /// The incumbent is the best of all: no complete evaluation among the
    /// candidates, nor the one that the incumbent started with, is better than
    /// its score.
    pub proof fn lemma_incumbent_is_best(
        self,
        candidates: Seq<(Assignment, ConfigEvaluation)>,
        n_runs: nat,
        options: IlsOptions,
        i: int,
    )
        requires
            !self.incumbent_score.nan(),
            0 <= i < candidates.len(),
            candidates[i].1.complete,
        ensures
            ({
                let end = self.challenged_by_all(candidates, n_runs, options);
                &&& !candidates[i].1.score.below(end.incumbent_score)
                &&& !self.incumbent_score.below(end.incumbent_score)
            }),
    {
        self.lemma_incumbent_score_falls(candidates, n_runs, options, i);
    }

    proof fn lemma_incumbent_score_falls(
        self,
        candidates: Seq<(Assignment, ConfigEvaluation)>,
        n_runs: nat,
        options: IlsOptions,
        i: int,
    )
        requires
            !self.incumbent_score.nan(),
            0 <= i < candidates.len() && candidates[i].1.complete || i == -1,
        ensures
            ({
                let end = self.challenged_by_all(candidates, n_runs, options);
                &&& !end.incumbent_score.nan()
                &&& i >= 0 ==> !candidates[i].1.score.below(end.incumbent_score)
                &&& !self.incumbent_score.below(end.incumbent_score)
            }),
        decreases candidates.len(),
    {
        if candidates.len() > 0 {
            let shorter = candidates.drop_last();
            if i < shorter.len() {
                assert(i >= 0 ==> shorter[i] == candidates[i]);
                self.lemma_incumbent_score_falls(shorter, n_runs, options, i);
            } else {
                self.lemma_incumbent_score_falls(shorter, n_runs, options, -1);
            }
        }
    }

    /// What became the incumbent is one of the candidates, unless none did.
    pub proof fn lemma_incumbent_was_a_candidate(
        self,
        candidates: Seq<(Assignment, ConfigEvaluation)>,
        n_runs: nat,
        options: IlsOptions,
    )
        ensures
            ({
                let end = self.challenged_by_all(candidates, n_runs, options);
                ||| end.incumbent == self.incumbent && end.incumbent_score == self.incumbent_score
                ||| exists|i: int|
                    0 <= i < candidates.len() && (#[trigger] candidates[i]).0 == end.incumbent
                        && candidates[i].1.complete && candidates[i].1.score == end.incumbent_score
            }),
        decreases candidates.len(),
    {
        if candidates.len() > 0 {
            let shorter = candidates.drop_last();
            self.lemma_incumbent_was_a_candidate(shorter, n_runs, options);
            let middle = self.challenged_by_all(shorter, n_runs, options);
            let end = self.challenged_by_all(candidates, n_runs, options);
            if middle.promotes(options, candidates.last().1, n_runs) {
                assert(candidates[candidates.len() - 1].0 == end.incumbent);
            } else if !(middle.incumbent == self.incumbent && middle.incumbent_score
                == self.incumbent_score) {
                let i = choose|i: int|
                    0 <= i < shorter.len() && (#[trigger] shorter[i]).0 == middle.incumbent
                        && shorter[i].1.complete && shorter[i].1.score == middle.incumbent_score;
                assert(candidates[i] == shorter[i]);
            }
        }
    }
}

impl RunState {
    /// Incumbent and home base are the starting point.
    pub fn new(start: Config, start_eval: ConfigEvaluation, n_runs: usize) -> (s: RunState)
        ensures
            s@ == RunView::started(start@, start_eval, n_runs as nat),
    {
        RunState {
            incumbent: start.clone(),
            incumbent_score: start_eval.score,
            incumbent_checkpoint: start_eval.checkpoint,
            incumbent_runs: n_runs,
            last_lm: start,
            last_lm_eval: start_eval,
            last_lm_runs: n_runs,
            home_base_checkpoint: None,
            rejections: 0,
            n_incumbents: 0,
            n_rounds: 0,
            n_searched: 0,
            n_gated: 0,
        }
    }

    /// Promote `candidate` to incumbent if it strictly dominates the current
    /// one; returns whether it did. An incomplete evaluation is refused before
    /// any comparison.
    pub fn try_promote_incumbent(
        &mut self,
        candidate: &Config,
        eval: &ConfigEvaluation,
        n_runs: usize,
        options: &IlsOptions,
    ) -> (r: bool)
        ensures
            r == old(self)@.promotes(*options, *eval, n_runs as nat),
            final(self)@ == old(self)@.challenged(candidate@, *eval, n_runs as nat, *options),
    {
        if !eval.complete {
            return false;
        }
        if !dominates(eval.score, n_runs, self.incumbent_score, n_runs, options) {
            return false;
        }
        self.incumbent = candidate.clone();
        self.incumbent_score = eval.score;
        self.incumbent_checkpoint = eval.checkpoint;
        self.incumbent_runs = n_runs;
        self.n_incumbents = increment(self.n_incumbents);
        true
    }

    /// Replace the home base outright; an incomplete evaluation is refused.
    pub fn set_home_base(&mut self, new_home_base: Config, eval: ConfigEvaluation, n_runs: usize)
        ensures
            final(self)@ == old(self)@.rehomed(new_home_base@, eval, n_runs as nat),
    {
        if !eval.complete {
            return;
        }
        self.last_lm = new_home_base;
        self.last_lm_eval = eval;
        self.last_lm_runs = n_runs;
        self.home_base_checkpoint = eval.checkpoint;
    }

    /// Hold a local optimum against the home base, and count consecutive
    /// rejections. An incomplete evaluation is rejected before any comparison.
    /// `ceiling` is the incumbent's score and the tolerated margin.
    pub fn accept_or_reject_home_base(
        &mut self,
        new_lm: Config,
        new_lm_eval: ConfigEvaluation,
        n_runs: usize,
        ceiling: Measure,
        options: &IlsOptions,
    ) -> (accepted: bool)
        ensures
            accepted == old(self)@.accepts(*options, new_lm_eval, n_runs as nat, ceiling),
            final(self)@ == old(self)@.judged(new_lm@, new_lm_eval, n_runs as nat, ceiling, *options),
    {
        if !new_lm_eval.complete {
            self.rejections = increment(self.rejections);
            return false;
        }
        let (lm, _score, took_new) = acceptance_criterion(
            new_lm,
            new_lm_eval.score,
            n_runs,
            self.last_lm.clone(),
            self.last_lm_eval.score,
            n_runs,
            self.incumbent_score,
            ceiling,
            options,
        );
        self.last_lm = lm;
        if took_new {
            self.last_lm_eval = new_lm_eval;
            self.last_lm_runs = n_runs;
            self.rejections = 0;
        } else {
            self.rejections = increment(self.rejections);
        }
        self.home_base_checkpoint = self.last_lm_eval.checkpoint;
        took_new
    }

    /// Count one completed round. `gated_start` says that its starting point was
    /// capped.
    pub fn record_round(&mut self, steps: usize, gated_start: bool)
        ensures
            final(self)@ == old(self)@.with_round(steps, gated_start),
    {
        self.n_rounds = increment(self.n_rounds);
        if steps > 0 {
            self.n_searched = increment(self.n_searched);
        } else if gated_start {
            self.n_gated = increment(self.n_gated);
        }
    }

    /// Whether stagnation calls for a restart.
    pub fn is_stagnant(&self, options: &IlsOptions) -> (r: bool)
        ensures
            r == self@.stagnates(*options),
    {
        options.restart_failures > 0 && self.rejections >= options.restart_failures
    }

    /// Whether a restart should fire, and why. Either trigger may fire; `heads`
    /// is the toss of the coin that comes up with `restart_probability`.
    pub fn restart_reason(&self, options: &IlsOptions, heads: bool) -> (r: Option<RestartReason>)
        ensures
            r == if self@.stagnates(*options) {
                Some(RestartReason::Stagnation)
            } else if (Measure { bits: 0 }).below(options.restart_probability) && heads {
                Some(RestartReason::Probability)
            } else {
                None
            },
    {
        if self.is_stagnant(options) {
            Some(RestartReason::Stagnation)
        } else if Measure::zero().lt(options.restart_probability) && heads {
            Some(RestartReason::Probability)
        } else {
            None
        }
    }

    /// Incumbent and home base were measured anew on more instances.
    pub fn raise_fidelity(&mut self, incumbent: ConfigEvaluation, home: ConfigEvaluation, n_runs: usize)
        ensures
            final(self)@ == old(self)@.remeasured(incumbent, home, n_runs as nat),
    {
        self.incumbent_score = incumbent.score;
        self.incumbent_checkpoint = incumbent.checkpoint;
        self.incumbent_runs = n_runs;
        self.last_lm_eval = home;
        self.last_lm_runs = n_runs;
        self.home_base_checkpoint = home.checkpoint;
    }
}

impl RunView {
    /// Every round is counted once: as searched if its descent made a move, as
    /// gated if it made none from a start that was capped, and otherwise as neither.
    pub proof fn lemma_rounds_are_counted_once(self, steps: usize, gated_start: bool)
        requires
            self.n_rounds < usize::MAX,
            self.n_searched < usize::MAX,
            self.n_gated < usize::MAX,
        ensures
            ({
                let next = self.with_round(steps, gated_start);
                &&& next.n_rounds == self.n_rounds + 1
                &&& steps > 0 ==> next.n_searched == self.n_searched + 1 && next.n_gated == self.n_gated
                &&& steps == 0 && gated_start ==> next.n_searched == self.n_searched && next.n_gated
                    == self.n_gated + 1
                &&& steps == 0 && !gated_start ==> next.n_searched == self.n_searched && next.n_gated
                    == self.n_gated
                &&& next.incumbent == self.incumbent && next.incumbent_score == self.incumbent_score
                &&& next.incumbent_checkpoint == self.incumbent_checkpoint && next.incumbent_runs
                    == self.incumbent_runs
                &&& next.last_lm == self.last_lm && next.last_lm_eval == self.last_lm_eval
                &&& next.last_lm_runs == self.last_lm_runs && next.home_base_checkpoint
                    == self.home_base_checkpoint
                &&& next.rejections == self.rejections && next.n_incumbents == self.n_incumbents
            }),
    {
    }

    /// A candidate for the incumbent touches nothing but the incumbent, and that as
    /// a whole: configuration, score, checkpoint and number of instances come from
    /// one evaluation.
    pub proof fn lemma_promotion_takes_the_whole_evaluation(
        self,
        candidate: Assignment,
        eval: ConfigEvaluation,
        n_runs: nat,
        options: IlsOptions,
    )
        ensures
            ({
                let next = self.challenged(candidate, eval, n_runs, options);
                let better = eval.complete && eval.score.below(self.incumbent_score);
                &&& self.promotes(options, eval, n_runs) <==> better
                &&& better ==> next.incumbent == candidate && next.incumbent_score == eval.score
                    && next.incumbent_checkpoint == eval.checkpoint && next.incumbent_runs == n_runs
                &&& better && self.n_incumbents < usize::MAX ==> next.n_incumbents == self.n_incumbents + 1
                &&& !better ==> next == self
                &&& next.last_lm == self.last_lm && next.last_lm_eval == self.last_lm_eval
                &&& next.last_lm_runs == self.last_lm_runs && next.home_base_checkpoint
                    == self.home_base_checkpoint
                &&& next.rejections == self.rejections && next.n_rounds == self.n_rounds
                &&& next.n_searched == self.n_searched && next.n_gated == self.n_gated
            }),
    {
    }

    /// A new home base touches nothing but the home base, and that as a whole.
    pub proof fn lemma_rehoming_takes_the_whole_evaluation(self, home: Assignment, eval: ConfigEvaluation, n_runs: nat)
        ensures
            ({
                let next = self.rehomed(home, eval, n_runs);
                &&& eval.complete ==> next.last_lm == home && next.last_lm_eval == eval && next.last_lm_runs
                    == n_runs && next.home_base_checkpoint == eval.checkpoint
                &&& !eval.complete ==> next == self
                &&& next.incumbent == self.incumbent && next.incumbent_score == self.incumbent_score
                &&& next.incumbent_checkpoint == self.incumbent_checkpoint && next.incumbent_runs
                    == self.incumbent_runs
                &&& next.rejections == self.rejections && next.n_incumbents == self.n_incumbents
                &&& next.n_rounds == self.n_rounds && next.n_searched == self.n_searched && next.n_gated
                    == self.n_gated
            }),
    {
    }

    /// A local optimum that is accepted becomes the home base as a whole and ends
    /// the row of rejections; one that is not makes it longer by one and leaves the
    /// home base. Neither touches the incumbent.
    pub proof fn lemma_judgement_moves_or_counts(
        self,
        new_lm: Assignment,
        eval: ConfigEvaluation,
        n_runs: nat,
        ceiling: Measure,
        options: IlsOptions,
    )
        ensures
            ({
                let next = self.judged(new_lm, eval, n_runs, ceiling, options);
                let tolerated = (Measure { bits: 0 }).below(options.acceptance_tolerance) && eval.score.finite()
                    && self.incumbent_score.finite() && eval.score.at_most(ceiling);
                let taken = eval.complete && (eval.score.at_most(self.last_lm_eval.score) || tolerated);
                &&& !options.acceptance_tolerance.nan() ==> (self.accepts(options, eval, n_runs, ceiling)
                    <==> taken)
                &&& self.accepts(options, eval, n_runs, ceiling) ==> next.last_lm == new_lm && next.last_lm_eval
                    == eval && next.last_lm_runs == n_runs && next.home_base_checkpoint == eval.checkpoint
                    && next.rejections == 0
                &&& !self.accepts(options, eval, n_runs, ceiling) ==> next.last_lm == self.last_lm
                    && next.last_lm_eval == self.last_lm_eval && next.last_lm_runs == self.last_lm_runs && (
                self.rejections < usize::MAX ==> next.rejections == self.rejections + 1)
                &&& !self.accepts(options, eval, n_runs, ceiling) && eval.complete ==> next.home_base_checkpoint
                    == self.last_lm_eval.checkpoint
                &&& !eval.complete ==> next.home_base_checkpoint == self.home_base_checkpoint
                &&& next.incumbent == self.incumbent && next.incumbent_score == self.incumbent_score
                &&& next.incumbent_checkpoint == self.incumbent_checkpoint && next.incumbent_runs
                    == self.incumbent_runs
                &&& next.n_incumbents == self.n_incumbents && next.n_rounds == self.n_rounds
                &&& next.n_searched == self.n_searched && next.n_gated == self.n_gated
            }),
    {
    }

    /// On more instances incumbent and home base stay what they are, and each has
    /// the evaluation that was made of it; nothing else changes.
    pub proof fn lemma_remeasuring_gives_each_its_evaluation(
        self,
        incumbent: ConfigEvaluation,
        home: ConfigEvaluation,
        n_runs: nat,
    )
        ensures
            ({
                let next = self.remeasured(incumbent, home, n_runs);
                &&& next.incumbent == self.incumbent && next.last_lm == self.last_lm
                &&& next.incumbent_score == incumbent.score && next.incumbent_checkpoint == incumbent.checkpoint
                &&& next.last_lm_eval == home && next.home_base_checkpoint == home.checkpoint
                &&& next.incumbent_runs == n_runs && next.last_lm_runs == n_runs
                &&& next.rejections == self.rejections && next.n_incumbents == self.n_incumbents
                &&& next.n_rounds == self.n_rounds && next.n_searched == self.n_searched && next.n_gated
                    == self.n_gated
            }),
    {
    }

    /// At the start incumbent and home base are the starting point with its
    /// evaluation, and nothing is counted.
    pub proof fn lemma_start_is_both(start: Assignment, eval: ConfigEvaluation, n_runs: nat)
        ensures
            ({
                let s = RunView::started(start, eval, n_runs);
                &&& s.incumbent == start && s.last_lm == start
                &&& s.incumbent_score == eval.score && s.incumbent_checkpoint == eval.checkpoint
                &&& s.last_lm_eval == eval && s.incumbent_runs == n_runs && s.last_lm_runs == n_runs
                &&& s.rejections == 0 && s.n_incumbents == 0 && s.n_rounds == 0 && s.n_searched == 0 && s.n_gated == 0
                &&& s.home_base_checkpoint is None
            }),
    {
    }

    /// Stagnation calls for a restart once as many local optima in a row were
    /// rejected as is asked for, and never if none is asked for.
    pub proof fn lemma_stagnation_is_a_row_of_rejections(self, options: IlsOptions)
        ensures
            options.restart_failures == 0 ==> !self.stagnates(options),
            options.restart_failures > 0 && self.rejections >= options.restart_failures ==> self.stagnates(
                options,
            ),
            self.rejections < options.restart_failures ==> !self.stagnates(options),
    {
    }
}

} // verus!
