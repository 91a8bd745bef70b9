//! What a run of the search rests on: which reports its scores come from, and
//! what each report changes.

use crate::cache::config_hash;
use crate::config::Assignment;
use crate::ils::descent::{DescentStageView, DescentView};
use crate::ils::evaluation::ConfigEvaluation;
use crate::ils::neighbourhood::{is_draw, neighbours, walk};
use crate::ils::search::{ActionView, EventView, SearchView, StageView};
use crate::ils::state::RunView;
use crate::ils::{Approach, IlsOptions, RestartReason, RestartTarget};
use crate::measure::Measure;
use crate::params::ParamSpace;
use crate::random::is_reordering;
use vstd::prelude::*;

verus! {

/// Whether two configurations have one hash as far as their active parameters go.
pub open spec fn alike(space: &ParamSpace, a: Assignment, b: Assignment) -> bool {
    config_hash(space.projected(a)) == config_hash(space.projected(b))
}

/// What is known of scores: a configuration, a number of instances, and a score of
/// the one on the other.
pub type Known = spec_fn(Assignment, nat, Measure) -> bool;

/// Whether the score of a configuration, or of one like it, is known.
pub open spec fn known_alike(space: &ParamSpace, known: Known, m: Assignment, n_runs: nat, score: Measure) -> bool {
    exists|other: Assignment| alike(space, other, m) && #[trigger] known(other, n_runs, score)
}

impl SearchView {
    /// Whether an event answers what the search asked for with an evaluation of
    /// the given configuration on the given number of instances.
    pub open spec fn reports(
        self,
        event: EventView,
        config: Assignment,
        n_runs: nat,
        eval: ConfigEvaluation,
    ) -> bool {
        match (self.request(), event) {
            (
                ActionView::Evaluate { config: asked, n_runs: asked_runs, .. },
                EventView::Evaluated { eval: reported, .. },
            ) => asked == config && asked_runs == n_runs && reported == eval,
            (
                ActionView::RunRound { neighbours, n_runs: asked_runs, .. },
                EventView::RoundOver { winner: Some((k, reported)), .. },
            ) => k < neighbours.len() && neighbours[k as int] == config && asked_runs == n_runs && reported
                == eval,
            _ => false,
        }
    }

    /// Whether one of the events of a run, in answer to what the search then asked
    /// for, reported that score for the given configuration on the given number of
    /// instances.
    pub open spec fn was_reported(
        self,
        space: &ParamSpace,
        events: Seq<EventView>,
        config: Assignment,
        n_runs: nat,
        score: Measure,
    ) -> bool {
        exists|k: int, eval: ConfigEvaluation|
            0 <= k < events.len() && eval.score == score && #[trigger] self.after_all(
                space,
                events.take(k),
            ).reports(events[k], config, n_runs, eval)
    }

    /// Whether the scores that a search holds are known, each for the
    /// configuration that it is held for and on the present number of instances.
    spec fn rests_on(self, space: &ParamSpace, known: Known) -> bool {
        &&& self.stage.state() matches Some(state) ==> {
            &&& known(state.incumbent, self.n_runs, state.incumbent_score)
            &&& known_alike(space, known, state.last_lm, self.n_runs, state.last_lm_eval.score)
        }
        &&& match self.stage {
            StageView::DrawProbe { current, eval, .. } => known(current, self.n_runs, eval.score),
            StageView::MeasureProbe { current, eval, .. } => known(current, self.n_runs, eval.score),
            StageView::Descend { descent, .. } => known(descent.config, self.n_runs, descent.eval.score),
            StageView::Judge { new_lm, new_eval, .. } => known(new_lm, self.n_runs, new_eval.score),
            StageView::GrowHomeBase { state, incumbent_eval } => known(
                state.incumbent,
                self.next_runs(),
                incumbent_eval.score,
            ),
            _ => true,
        }
    }

    spec fn state_rests_on(self, space: &ParamSpace, state: RunView, known: Known) -> bool {
        &&& known(state.incumbent, self.n_runs, state.incumbent_score)
        &&& known_alike(space, known, state.last_lm, self.n_runs, state.last_lm_eval.score)
    }

    proof fn lemma_descent_rests(
        self,
        space: &ParamSpace,
        state: RunView,
        descent: DescentView,
        first: bool,
        gated: bool,
        expired: bool,
        known: Known,
    )
        requires
            self.state_rests_on(space, state, known),
            known(descent.config, self.n_runs, descent.eval.score),
        ensures
            self.on_descent(state, descent, first, gated, expired).rests_on(space, known),
    {
        assert(alike(space, descent.config, descent.config));
        assert(known_alike(space, known, descent.config, self.n_runs, descent.eval.score));
    }

    proof fn lemma_start_rests(
        self,
        space: &ParamSpace,
        current: Assignment,
        eval: ConfigEvaluation,
        left: nat,
        expired: bool,
        known: Known,
    )
        requires
            known(current, self.n_runs, eval.score),
        ensures
            self.on_start(current, eval, left, expired).rests_on(space, known),
    {
        assert(alike(space, current, current));
        assert(known_alike(space, known, current, self.n_runs, eval.score));
        self.lemma_descent_rests(
            space,
            RunView::started(current, eval, self.n_runs),
            DescentView::begun(current, eval, expired),
            true,
            false,
            expired,
            known,
        );
    }

    proof fn lemma_evaluation_rests(
        self,
        space: &ParamSpace,
        eval: ConfigEvaluation,
        expired: bool,
        known: Known,
    )
        requires
            self.wf(space),
            self.rests_on(space, known),
            self.awaits(space, EventView::Evaluated { eval, expired }),
            forall|m: Assignment, n: nat|
                self.reports(EventView::Evaluated { eval, expired }, m, n, eval) ==> #[trigger] known(
                    m,
                    n,
                    eval.score,
                ),
        ensures
            self.after_evaluation(space, eval, expired).rests_on(space, known),
    {
        reveal(SearchView::after_evaluation);
        match self.stage {
            StageView::MeasureStart { start } => {
                assert(known(start, self.n_runs, eval.score));
                self.lemma_start_rests(space, start, eval, self.options.random_probes as nat, expired, known);
            },
            StageView::MeasureProbe { current, eval: current_eval, left, probe } => {
                assert(known(probe, self.n_runs, eval.score));
                let plain = ConfigEvaluation::plain(eval.score, self.n_runs as usize);
                self.lemma_start_rests(space, probe, plain, (left - 1) as nat, expired, known);
                self.lemma_start_rests(space, current, current_eval, (left - 1) as nat, expired, known);
            },
            StageView::MeasurePerturbed { state, config } => {
                assert(known(config, self.n_runs, eval.score));
                self.lemma_descent_rests(
                    space,
                    state,
                    DescentView::begun(config, eval, false),
                    false,
                    !eval.complete,
                    false,
                    known,
                );
            },
            StageView::MeasureRestart { config, .. } => {
                assert(known(config, self.n_runs, eval.score));
                assert(alike(space, config, config));
                assert(known_alike(space, known, config, self.n_runs, eval.score));
            },
            StageView::GrowIncumbent { state } => {
                assert(known(state.incumbent, self.next_runs(), eval.score));
                if self.home_is_incumbent(space, state) {
                    assert(alike(space, state.incumbent, state.last_lm));
                    assert(known_alike(space, known, state.last_lm, self.next_runs(), eval.score));
                }
            },
            StageView::GrowHomeBase { state, .. } => {
                assert(known(state.last_lm, self.next_runs(), eval.score));
                assert(alike(space, state.last_lm, state.last_lm));
                assert(known_alike(space, known, state.last_lm, self.next_runs(), eval.score));
            },
            _ => {},
        }
    }

    proof fn lemma_round_rests(
        self,
        space: &ParamSpace,
        winner: Option<(nat, ConfigEvaluation)>,
        expired: bool,
        known: Known,
    )
        requires
            self.wf(space),
            self.rests_on(space, known),
            self.awaits(space, EventView::RoundOver { winner, expired }),
            winner matches Some(w) ==> forall|m: Assignment, n: nat|
                self.reports(EventView::RoundOver { winner, expired }, m, n, w.1) ==> #[trigger] known(
                    m,
                    n,
                    w.1.score,
                ),
        ensures
            self.after_round(winner, expired).rests_on(space, known),
    {
        reveal(SearchView::after_round);
        if let StageView::Descend { state, descent, first, gated } = self.stage {
            if let (DescentStageView::Round(ns), Some((k, e))) = (descent.stage, winner) {
                assert(known(ns[k as int], self.n_runs, e.score));
            }
            self.lemma_descent_rests(
                space,
                state,
                descent.after_round(winner, expired),
                first,
                gated,
                expired,
                known,
            );
        }
    }

    proof fn lemma_judgement_rests(self, space: &ParamSpace, ceiling: Measure, expired: bool, known: Known)
        requires
            self.wf(space),
            self.rests_on(space, known),
            self.stage is Judge,
        ensures
            self.after_ceiling(ceiling, expired).rests_on(space, known),
    {
        reveal(SearchView::after_ceiling);
        if let StageView::Judge { new_lm, new_eval, .. } = self.stage {
            assert(alike(space, new_lm, new_lm));
            assert(known_alike(space, known, new_lm, self.n_runs, new_eval.score));
        }
    }

    proof fn lemma_event_rests(self, space: &ParamSpace, event: EventView, known: Known)
        requires
            self.wf(space),
            self.rests_on(space, known),
            self.awaits(space, event),
            forall|m: Assignment, n: nat, e: ConfigEvaluation| #[trigger]
                self.reports(event, m, n, e) ==> known(m, n, e.score),
        ensures
            self.next(space, event).rests_on(space, known),
    {
        match event {
            EventView::Drawn(_) => {
                reveal(SearchView::after_draw);
            },
            EventView::Undrawn => {},
            EventView::Arranged(ns) => {
                reveal(SearchView::after_arrangement);
                if let StageView::Descend { state, descent, first, gated } = self.stage {
                    self.lemma_descent_rests(
                        space,
                        state,
                        descent.ordered(ns),
                        first,
                        gated,
                        false,
                        known,
                    );
                }
            },
            EventView::Evaluated { eval, expired } => {
                assert forall|m: Assignment, n: nat| self.reports(event, m, n, eval) implies #[trigger] known(
                    m,
                    n,
                    eval.score,
                ) by {}
                self.lemma_evaluation_rests(space, eval, expired, known);
            },
            EventView::RoundOver { winner, expired } => {
                if let Some(w) = winner {
                    assert forall|m: Assignment, n: nat| self.reports(event, m, n, w.1) implies #[trigger] known(
                        m,
                        n,
                        w.1.score,
                    ) by {}
                }
                self.lemma_round_rests(space, winner, expired, known);
            },
            EventView::Ceiling { ceiling, expired } => {
                self.lemma_judgement_rests(space, ceiling, expired, known);
            },
            EventView::Coin { .. } => {
                reveal(SearchView::after_coin);
            },
        }
    }

    proof fn lemma_more_is_known(self, space: &ParamSpace, less: Known, more: Known)
        requires
            self.rests_on(space, less),
            forall|m: Assignment, n: nat, s: Measure| #[trigger] less(m, n, s) ==> more(m, n, s),
        ensures
            self.rests_on(space, more),
    {
        if let Some(state) = self.stage.state() {
            let other = choose|other: Assignment|
                alike(space, other, state.last_lm) && #[trigger] less(
                    other,
                    self.n_runs,
                    state.last_lm_eval.score,
                );
            assert(more(other, self.n_runs, state.last_lm_eval.score));
        }
    }

    spec fn reported(self, space: &ParamSpace, events: Seq<EventView>) -> Known {
        |m: Assignment, n: nat, s: Measure| self.was_reported(space, events, m, n, s)
    }

    proof fn lemma_run_rests_on_reports(self, space: &ParamSpace, events: Seq<EventView>)
        requires
            self.wf(space),
            self.stage is DrawStart || self.stage is MeasureStart,
            self.awaits_all(space, events),
        ensures
            self.after_all(space, events).rests_on(space, self.reported(space, events)),
        decreases events.len(),
    {
        if events.len() > 0 {
            let shorter = events.drop_last();
            let last = events.len() - 1;
            let middle = self.after_all(space, shorter);
            let less = self.reported(space, shorter);
            let more = self.reported(space, events);
            self.lemma_run_rests_on_reports(space, shorter);
            self.lemma_every_run_progresses(space, shorter);
            assert(events.take(last) =~= shorter);
            assert forall|m: Assignment, n: nat, s: Measure| #[trigger] less(m, n, s) implies more(m, n, s) by {
                let (k, eval) = choose|k: int, eval: ConfigEvaluation|
                    0 <= k < shorter.len() && eval.score == s && #[trigger] self.after_all(
                        space,
                        shorter.take(k),
                    ).reports(shorter[k], m, n, eval);
                assert(shorter.take(k) =~= events.take(k));
                assert(self.after_all(space, events.take(k)).reports(events[k], m, n, eval));
            }
            middle.lemma_more_is_known(space, less, more);
            assert forall|m: Assignment, n: nat, e: ConfigEvaluation| #[trigger]
                middle.reports(events.last(), m, n, e) implies more(m, n, e.score) by {
                assert(self.after_all(space, events.take(last)).reports(events[last], m, n, e));
            }
            middle.lemma_event_rests(space, events.last(), more);
        }
    }

    /// Over a whole run: at every moment the score of the incumbent is one that was
    /// reported in answer to a request to evaluate that very configuration on the
    /// present number of instances, and the score of the home base one that was
    /// reported for that configuration, or one with the same hash of its active
    /// parameters, on that number.
    pub proof fn lemma_scores_were_reported(
        space: &ParamSpace,
        initial: Option<Assignment>,
        options: IlsOptions,
        n_total: usize,
        events: Seq<EventView>,
    )
        requires
            SearchView::opened(initial, options, n_total as nat).awaits_all(space, events),
        ensures
            ({
                let first = SearchView::opened(initial, options, n_total as nat);
                let end = first.after_all(space, events);
                end.stage.state() matches Some(state) ==> {
                    &&& first.was_reported(space, events, state.incumbent, end.n_runs, state.incumbent_score)
                    &&& exists|home: Assignment|
                        alike(space, home, state.last_lm) && #[trigger] first.was_reported(
                            space,
                            events,
                            home,
                            end.n_runs,
                            state.last_lm_eval.score,
                        )
                }
            }),
    {
        let first = SearchView::opened(initial, options, n_total as nat);
        SearchView::lemma_opened_is_wf(space, initial, options, n_total);
        first.lemma_run_rests_on_reports(space, events);
        let end = first.after_all(space, events);
        if let Some(state) = end.stage.state() {
            let known = first.reported(space, events);
            let home = choose|home: Assignment|
                alike(space, home, state.last_lm) && #[trigger] known(
                    home,
                    end.n_runs,
                    state.last_lm_eval.score,
                );
            assert(first.was_reported(space, events, home, end.n_runs, state.last_lm_eval.score));
        }
    }

    /// What a run returns is a configuration with a score that was reported for it
    /// on the number of instances that the search had reached.
    pub proof fn lemma_result_was_reported(
        space: &ParamSpace,
        initial: Option<Assignment>,
        options: IlsOptions,
        n_total: usize,
        events: Seq<EventView>,
        incumbent: Assignment,
        score: Measure,
    )
        requires
            SearchView::opened(initial, options, n_total as nat).awaits_all(space, events),
            SearchView::opened(initial, options, n_total as nat).after_all(space, events).request() == (
            ActionView::Done { incumbent, score }),
        ensures
            ({
                let first = SearchView::opened(initial, options, n_total as nat);
                first.was_reported(space, events, incumbent, first.after_all(space, events).n_runs, score)
            }),
    {
        SearchView::lemma_scores_were_reported(space, initial, options, n_total, events);
    }

    /// When the number of instances grows, incumbent and home base are measured on
    /// the new number one after the other, and each gets the evaluation that was
    /// reported for it. Where one of the two is not complete and finite, the search
    /// ends with the scores that it had.
    pub proof fn lemma_growth_gives_each_its_own_score(
        self,
        space: &ParamSpace,
        state: RunView,
        of_incumbent: ConfigEvaluation,
        of_home: ConfigEvaluation,
        early: bool,
        late: bool,
    )
        requires
            self.wf(space),
            self.stage == (StageView::GrowIncumbent { state }),
        ensures
            ({
                let middle = self.next(space, EventView::Evaluated { eval: of_incumbent, expired: early });
                let end = middle.next(space, EventView::Evaluated { eval: of_home, expired: late });
                let usable = of_incumbent.complete && of_incumbent.score.finite();
                let home_usable = of_home.complete && of_home.score.finite();
                let same = alike(space, state.last_lm, state.incumbent);
                &&& self.request() == (ActionView::Evaluate {
                    config: state.incumbent,
                    n_runs: self.next_runs(),
                    bound: None,
                    incumbent_checkpoint: None,
                })
                &&& !usable ==> middle == self.at(StageView::Finished { state })
                &&& usable && same ==> middle.n_runs == self.next_runs() && middle.stage.state() == Some(
                    RunView {
                        incumbent_score: of_incumbent.score,
                        incumbent_checkpoint: of_incumbent.checkpoint,
                        incumbent_runs: self.next_runs(),
                        last_lm_eval: of_incumbent,
                        last_lm_runs: self.next_runs(),
                        home_base_checkpoint: of_incumbent.checkpoint,
                        ..state
                    },
                )
                &&& usable && !same ==> {
                    &&& middle.n_runs == self.n_runs
                    &&& middle.stage.state() == Some(state)
                    &&& middle.request() == (ActionView::Evaluate {
                        config: state.last_lm,
                        n_runs: self.next_runs(),
                        bound: None,
                        incumbent_checkpoint: None,
                    })
                    &&& !home_usable ==> end == self.at(StageView::Finished { state })
                    &&& home_usable ==> end.n_runs == self.next_runs() && end.stage.state() == Some(
                        RunView {
                            incumbent_score: of_incumbent.score,
                            incumbent_checkpoint: of_incumbent.checkpoint,
                            incumbent_runs: self.next_runs(),
                            last_lm_eval: of_home,
                            last_lm_runs: self.next_runs(),
                            home_base_checkpoint: of_home.checkpoint,
                            ..state
                        },
                    ) && (end.stage is Finished <==> late)
                }
            }),
    {
        reveal(SearchView::after_evaluation);
    }
}

impl SearchView {
    /// A drawn configuration is measured next, on the present number of instances,
    /// and nothing else changes. A start is measured freely, a probe against the
    /// best start so far, any other against the incumbent.
    pub proof fn lemma_drawn_configuration_is_measured(self, space: &ParamSpace, m: Assignment)
        requires
            self.wf(space),
            self.awaits(space, EventView::Drawn(m)),
        ensures
            ({
                let next = self.next(space, EventView::Drawn(m));
                &&& next.n_runs == self.n_runs
                &&& next.options == self.options
                &&& next.stage.state() == self.stage.state()
                &&& next.best_score() == self.best_score()
                &&& next.request() matches ActionView::Evaluate { config, n_runs, bound, incumbent_checkpoint }
                    && config == m && n_runs == self.n_runs && match self.stage {
                    StageView::DrawStart => bound is None && incumbent_checkpoint is None,
                    StageView::DrawProbe { eval, .. } => bound == Some(eval.score) && incumbent_checkpoint
                        == eval.checkpoint,
                    StageView::DrawPerturbed { state } => bound == Some(state.incumbent_score)
                        && incumbent_checkpoint == state.incumbent_checkpoint,
                    StageView::DrawRestart { state, .. } => bound == Some(state.incumbent_score)
                        && incumbent_checkpoint == state.incumbent_checkpoint,
                    _ => false,
                }
            }),
    {
        reveal(SearchView::after_draw);
    }

    /// The measured start is followed by the probes, if there are to be any, and
    /// by the first descent otherwise; if time is up the search ends with it.
    pub proof fn lemma_start_is_the_first_incumbent(
        self,
        space: &ParamSpace,
        start: Assignment,
        eval: ConfigEvaluation,
        expired: bool,
    )
        requires
            self.wf(space),
            self.stage == (StageView::MeasureStart { start }),
        ensures
            ({
                let next = self.next(space, EventView::Evaluated { eval, expired });
                &&& self.request() matches ActionView::Evaluate { config, n_runs, bound, .. } && config == start
                    && n_runs == self.n_runs && bound is None
                &&& next.n_runs == self.n_runs
                &&& self.options.random_probes > 0 && !expired ==> next.stage == (StageView::DrawProbe {
                    current: start,
                    eval,
                    left: self.options.random_probes as nat,
                })
                &&& self.options.random_probes == 0 && !expired ==> {
                    &&& next.stage matches StageView::Descend { descent, first, .. } && first
                        && descent.config == start && descent.eval == eval && descent.steps == 0
                    &&& next.stage.state() matches Some(s) && s.incumbent == start && s.incumbent_score
                        == eval.score && s.last_lm == start && s.last_lm_eval == eval
                }
                &&& expired ==> next.stage is Finished
                &&& next.stage.state() matches Some(s) ==> s.incumbent == start && s.incumbent_score
                    == eval.score && s.incumbent_checkpoint == eval.checkpoint && s.last_lm == start
            }),
    {
        reveal(SearchView::after_evaluation);
    }

    /// A probe takes the place of the start exactly if it was measured in full and
    /// is strictly better; there is one probe less to come.
    pub proof fn lemma_probe_replaces_a_worse_start(
        self,
        space: &ParamSpace,
        current: Assignment,
        current_eval: ConfigEvaluation,
        left: nat,
        probe: Assignment,
        eval: ConfigEvaluation,
        expired: bool,
    )
        requires
            self.wf(space),
            self.stage == (StageView::MeasureProbe { current, eval: current_eval, left, probe }),
        ensures
            ({
                let next = self.next(space, EventView::Evaluated { eval, expired });
                let taken = eval.complete && eval.score.below(current_eval.score);
                let best = if taken {
                    probe
                } else {
                    current
                };
                let score = if taken {
                    eval.score
                } else {
                    current_eval.score
                };
                &&& next.n_runs == self.n_runs
                &&& next.best_score() == Some(score)
                &&& left > 1 && !expired ==> (next.stage matches StageView::DrawProbe {
                    current: c,
                    eval: e,
                    left: l,
                } && c == best && e.score == score && l == left - 1 && (!taken ==> e == current_eval))
                &&& left == 1 || expired ==> (next.stage.state() matches Some(s) && s.incumbent == best
                    && s.incumbent_score == score && s.last_lm == best)
                &&& left == 1 && !expired ==> next.stage is Descend
                &&& expired ==> next.stage is Finished
            }),
    {
        reveal(SearchView::after_evaluation);
    }

    /// A perturbed configuration is where the next descent starts; the incumbent
    /// and the home base stay. If time is up the search ends as it is.
    pub proof fn lemma_perturbation_starts_a_descent(
        self,
        space: &ParamSpace,
        state: RunView,
        config: Assignment,
        eval: ConfigEvaluation,
        expired: bool,
    )
        requires
            self.wf(space),
            self.stage == (StageView::MeasurePerturbed { state, config }),
        ensures
            ({
                let next = self.next(space, EventView::Evaluated { eval, expired });
                &&& next.n_runs == self.n_runs
                &&& expired ==> next.stage == (StageView::Finished { state })
                &&& !expired ==> (next.stage matches StageView::Descend { state: s, descent, first, gated } && s
                    == state && descent.config == config && descent.eval == eval && descent.steps == 0 && !first
                    && (gated <==> !eval.complete))
            }),
    {
        reveal(SearchView::after_evaluation);
    }

    /// With its neighbours in order a descent has them evaluated, in that order and
    /// against the incumbent; the winner of a round is where the descent goes on.
    pub proof fn lemma_descent_goes_to_the_winner(
        self,
        space: &ParamSpace,
        state: RunView,
        descent: DescentView,
        first: bool,
        gated: bool,
        ns: Seq<Assignment>,
        k: nat,
        eval: ConfigEvaluation,
    )
        requires
            self.wf(space),
            self.stage == (StageView::Descend { state, descent, first, gated }),
            descent.stage is Arranging,
            0 <= k < ns.len(),
        ensures
            ({
                let asked = self.next(space, EventView::Arranged(ns));
                let moved = asked.next(space, EventView::RoundOver { winner: Some((k, eval)), expired: false });
                &&& asked.request() == (ActionView::RunRound {
                    current: descent.config,
                    current_eval: descent.eval,
                    neighbours: ns,
                    n_runs: self.n_runs,
                    incumbent_score: state.incumbent_score,
                    incumbent_checkpoint: state.incumbent_checkpoint,
                })
                &&& asked.stage.state() == Some(state)
                &&& moved.n_runs == self.n_runs
                &&& moved.stage matches StageView::Descend { state: s, descent: d, first: f, gated: g } && s
                    == state && d.config == ns[k as int] && d.eval == eval && d.stage is Arranging && f == first
                    && g == gated && (descent.steps < usize::MAX ==> d.steps == descent.steps + 1)
            }),
    {
        reveal(SearchView::after_arrangement);
        reveal(SearchView::after_round);
    }

    /// The end of a descent: the local optimum becomes the incumbent exactly if it
    /// was measured in full and is strictly better, with its score. The first
    /// descent also settles the home base, and so does every one of a random
    /// search; otherwise the local optimum is held against the home base next,
    /// which stays for now.
    pub proof fn lemma_local_optimum_challenges_the_incumbent(
        self,
        space: &ParamSpace,
        event: EventView,
        state: RunView,
        descent: DescentView,
        first: bool,
        gated: bool,
    )
        requires
            self.wf(space),
            self.awaits(space, event),
            self.stage == (StageView::Descend { state, descent, first, gated }),
            match event {
                EventView::Arranged(ns) => ns.len() == 0,
                EventView::RoundOver { winner, expired } => winner is None || expired,
                _ => false,
            },
        ensures
            ({
                let next = self.next(space, event);
                let expired = event matches EventView::RoundOver { expired, .. } && expired;
                let (config, eval) = match (event, descent.stage) {
                    (
                        EventView::RoundOver { winner: Some((k, e)), .. },
                        DescentStageView::Round(ns),
                    ) => (ns[k as int], e),
                    _ => (descent.config, descent.eval),
                };
                let promoted = eval.complete && eval.score.below(state.incumbent_score);
                &&& next.n_runs == self.n_runs
                &&& next.stage.state() matches Some(s) && {
                    &&& promoted ==> s.incumbent == config && s.incumbent_score == eval.score
                        && s.incumbent_checkpoint == eval.checkpoint
                    &&& !promoted ==> s.incumbent == state.incumbent && s.incumbent_score
                        == state.incumbent_score && s.incumbent_checkpoint == state.incumbent_checkpoint
                    &&& state.n_incumbents < usize::MAX ==> s.n_incumbents == state.n_incumbents + if promoted {
                        1int
                    } else {
                        0int
                    }
                    &&& state.n_rounds < usize::MAX ==> s.n_rounds == state.n_rounds + 1
                    &&& s.rejections == state.rejections
                    &&& (first || self.options.approach == Approach::Random) && eval.complete ==> s.last_lm
                        == config && s.last_lm_eval == eval
                    &&& !((first || self.options.approach == Approach::Random) && eval.complete) ==> s.last_lm
                        == state.last_lm && s.last_lm_eval == state.last_lm_eval
                }
                &&& first || self.options.approach == Approach::Random ==> if expired {
                    next.stage is Finished
                } else {
                    next.stage is DrawPerturbed
                }
                &&& !first && self.options.approach != Approach::Random ==> (next.stage matches StageView::Judge {
                    new_lm,
                    new_eval,
                    promoted: p,
                    ..
                } && new_lm == config && new_eval == eval && p == promoted)
            }),
    {
        reveal(SearchView::after_arrangement);
        reveal(SearchView::after_round);
    }

    /// Held against the home base, a local optimum takes its place if it was
    /// measured in full and is no worse, or lies within the tolerated margin over
    /// the incumbent; otherwise it counts as a rejection. The incumbent stays.
    pub proof fn lemma_local_optimum_is_held_against_the_home_base(
        self,
        space: &ParamSpace,
        state: RunView,
        new_lm: Assignment,
        new_eval: ConfigEvaluation,
        promoted: bool,
        ceiling: Measure,
        expired: bool,
    )
        requires
            self.wf(space),
            self.stage == (StageView::Judge { state, new_lm, new_eval, promoted }),
        ensures
            ({
                let next = self.next(space, EventView::Ceiling { ceiling, expired });
                let tolerated = !self.options.acceptance_tolerance.at_most(Measure { bits: 0 })
                    && new_eval.score.finite() && state.incumbent_score.finite() && new_eval.score.at_most(
                    ceiling,
                );
                let accepted = new_eval.complete && (new_eval.score.at_most(state.last_lm_eval.score)
                    || tolerated);
                &&& self.request() == (ActionView::FormCeiling { incumbent_score: state.incumbent_score })
                &&& next.n_runs == self.n_runs
                &&& next.stage.state() matches Some(s) && {
                    &&& s.incumbent == state.incumbent && s.incumbent_score == state.incumbent_score
                    &&& accepted ==> s.last_lm == new_lm && s.last_lm_eval == new_eval && s.rejections == 0
                    &&& !accepted ==> s.last_lm == state.last_lm && s.last_lm_eval == state.last_lm_eval
                    &&& !accepted && state.rejections < usize::MAX ==> s.rejections == state.rejections + 1
                    &&& s.n_rounds == state.n_rounds && s.n_incumbents == state.n_incumbents
                    &&& ({
                        let stagnates = self.options.restart_failures > 0 && s.rejections
                            >= self.options.restart_failures;
                        &&& stagnates && !expired ==> (next.stage matches StageView::DrawRestart {
                            promoted: p,
                            reason,
                            ..
                        } && p == promoted && reason == RestartReason::Stagnation)
                        &&& stagnates && expired ==> next.stage is Finished
                        &&& !stagnates ==> (next.stage is FlipCoin <==> (Measure { bits: 0 }).below(
                            self.options.restart_probability,
                        ))
                        &&& !stagnates && !(next.stage is FlipCoin) ==> self.goes_on(next, promoted, expired)
                    })
                }
            }),
    {
        reveal(SearchView::after_ceiling);
    }

    /// How the search goes on without a restart: a focused search whose incumbent
    /// was not replaced measures it on more instances while there are more; any
    /// other begins the next round, or ends if time is up.
    pub open spec fn goes_on(self, next: SearchView, promoted: bool, expired: bool) -> bool {
        if !promoted && self.options.approach == Approach::Focused && self.n_runs < self.n_total {
            next.stage is GrowIncumbent
        } else if expired {
            next.stage is Finished
        } else {
            next.stage is DrawPerturbed
        }
    }

    /// Heads restart the search, tails let it go on; neither changes what was
    /// found.
    pub proof fn lemma_coin_decides_on_a_restart(
        self,
        space: &ParamSpace,
        state: RunView,
        promoted: bool,
        heads: bool,
        expired: bool,
    )
        requires
            self.wf(space),
            self.stage == (StageView::FlipCoin { state, promoted }),
        ensures
            ({
                let next = self.next(space, EventView::Coin { heads, expired });
                &&& next.n_runs == self.n_runs
                &&& next.stage.state() == Some(state)
                &&& heads && !expired ==> (next.stage matches StageView::DrawRestart { promoted: p, reason, .. } && p
                    == promoted && reason == RestartReason::Probability)
                &&& heads && expired ==> next.stage is Finished
                &&& !heads ==> self.goes_on(next, promoted, expired)
            }),
    {
        reveal(SearchView::after_coin);
    }

    /// After a restart the configuration restarted from is the home base if it was
    /// measured in full, the rejections are forgotten, and the incumbent stays.
    pub proof fn lemma_restart_moves_the_home_base_only(
        self,
        space: &ParamSpace,
        state: RunView,
        promoted: bool,
        reason: RestartReason,
        config: Assignment,
        eval: ConfigEvaluation,
        expired: bool,
    )
        requires
            self.wf(space),
            self.stage == (StageView::MeasureRestart { state, promoted, reason, config }),
        ensures
            ({
                let next = self.next(space, EventView::Evaluated { eval, expired });
                &&& next.n_runs == self.n_runs
                &&& next.stage.state() matches Some(s) && {
                    &&& s.incumbent == state.incumbent && s.incumbent_score == state.incumbent_score
                    &&& s.incumbent_checkpoint == state.incumbent_checkpoint
                    &&& s.rejections == 0
                    &&& eval.complete ==> s.last_lm == config && s.last_lm_eval == eval
                    &&& !eval.complete ==> s.last_lm == state.last_lm && s.last_lm_eval == state.last_lm_eval
                    &&& s.n_rounds == state.n_rounds && s.n_incumbents == state.n_incumbents
                }
                &&& self.goes_on(next, promoted, expired)
            }),
    {
        reveal(SearchView::after_evaluation);
    }

    /// What is drawn at each stage: a start and a probe by chance from the whole
    /// space; a perturbation by a walk from the home base, in a random search by
    /// chance; a restart by a walk from the incumbent or by chance, as is asked for.
    pub proof fn lemma_draws_come_from_where_they_should(self, space: &ParamSpace, m: Assignment)
        requires
            self.awaits(space, EventView::Drawn(m)),
        ensures
            match self.stage {
                StageView::DrawStart => is_draw(space, m) && space.legal(m),
                StageView::DrawProbe { .. } => is_draw(space, m) && space.legal(m),
                StageView::DrawPerturbed { state } => if self.options.approach == Approach::Random {
                    is_draw(space, m) && space.legal(m)
                } else {
                    walk(space, state.last_lm, m, self.options.perturbation_strength as nat)
                },
                StageView::DrawRestart { state, .. } => if self.options.restart_target == RestartTarget::Random {
                    is_draw(space, m) && space.legal(m)
                } else {
                    walk(space, state.incumbent, m, self.options.restart_strength as nat)
                },
                _ => false,
            },
    {
    }

    /// A search starts with the configuration that it is given, or a drawn one if
    /// none is given; a focused one on few instances, any other on all.
    pub proof fn lemma_search_starts_where_it_is_told(initial: Option<Assignment>, options: IlsOptions, n_total: nat)
        requires
            n_total > 0,
        ensures
            ({
                let first = SearchView::opened(initial, options, n_total);
                &&& initial matches Some(m) ==> (first.request() matches ActionView::Evaluate {
                    config,
                    n_runs,
                    ..
                } && config == m && n_runs == first.n_runs)
                &&& initial is None ==> first.request() is Draw
                &&& options.approach != Approach::Focused ==> first.n_runs == n_total
                &&& options.approach == Approach::Focused && 1 <= options.initial_fidelity <= n_total
                    ==> first.n_runs == options.initial_fidelity
                &&& options.approach == Approach::Focused && options.initial_fidelity == 0 ==> first.n_runs == 1
                &&& options.approach == Approach::Focused && options.initial_fidelity > n_total ==> first.n_runs
                    == n_total
                &&& first.n_total == n_total
                &&& first.options == options
            }),
    {
    }
}

impl SearchView {
    /// What a search that waits asks for: to toss the coin, to draw, to give up, or,
    /// once it is finished, to return the incumbent with its score.
    pub proof fn lemma_finished_search_returns_the_incumbent(self)
        ensures
            self.stage matches StageView::Finished { state } ==> self.request() == (ActionView::Done {
                incumbent: state.incumbent,
                score: state.incumbent_score,
            }),
            self.request() is Done ==> self.stage is Finished,
            self.stage is FlipCoin ==> self.request() is FlipCoin,
            self.stage is Stuck <==> self.request() is GiveUp,
            self.stage.drawing() ==> self.request() is Draw,
            self.stage is Judge <==> self.request() is FormCeiling,
    {
    }

    /// What a search waits for: every answer to a request for an evaluation, to a
    /// request for the margin and to the toss of a coin; the end of a round without a
    /// winner, or with one of the neighbours that was measured in full and is
    /// strictly better; and the neighbours of the current configuration, all of them
    /// in any order.
    pub proof fn lemma_every_fitting_answer_is_awaited(self, space: &ParamSpace, event: EventView)
        ensures
            match event {
                EventView::Evaluated { .. } => self.awaits(space, event) <==> self.request() is Evaluate,
                EventView::Ceiling { .. } => self.awaits(space, event) <==> self.request() is FormCeiling,
                EventView::Coin { .. } => self.awaits(space, event) <==> self.request() is FlipCoin,
                EventView::RoundOver { winner: None, .. } => self.awaits(space, event)
                    <==> self.request() is RunRound,
                EventView::RoundOver { winner: Some((k, e)), .. } => self.awaits(space, event) <==> (
                self.request() matches ActionView::RunRound { neighbours, current_eval, .. } && k
                    < neighbours.len() && e.complete && e.score.below(current_eval.score)),
                EventView::Arranged(ns) => self.awaits(space, event) <==> (self.stage matches StageView::Descend {
                    descent,
                    ..
                } && descent.stage is Arranging && is_reordering(neighbours(space, descent.config), ns)),
                _ => true,
            },
    {
    }
}

impl SearchView {
    /// A focused search grows by the step that it is told, or by one if that is
    /// none, up to all instances.
    pub proof fn lemma_search_grows_by_its_step(self, space: &ParamSpace)
        requires
            self.wf(space),
        ensures
            self.options.fidelity_step > 0 && self.n_runs + self.options.fidelity_step <= self.n_total
                ==> self.next_runs() == self.n_runs + self.options.fidelity_step,
            self.n_runs + self.options.fidelity_step > self.n_total ==> self.next_runs() == self.n_total,
            self.options.fidelity_step == 0 && self.n_runs < self.n_total ==> self.next_runs() == self.n_runs
                + 1,
            self.n_runs <= self.next_runs() <= self.n_total,
    {
    }
}

} // verus!
