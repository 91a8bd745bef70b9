//! The search as a whole: which configuration is evaluated next, on how many
//! instances, and what becomes of the outcome.
//!
//! A [`Search`] says with [`Search::action`] what it waits for, and goes on with
//! [`Search::advance`] when it is answered. Every answer comes with the word
//! whether time was up at that moment.
//!
//! A score is only meaningful relative to the instances that it was measured
//! on. The focused search raises their number during a run; incumbent and home
//! base are then measured anew together, so that no comparison crosses numbers
//! of instances.

use crate::cache::{config_hash, hash_config};
use crate::config::{Assignment, Config};
use crate::ils::compare::{dominates, strictly_better};
use crate::ils::descent::{wins, Descent, DescentStage, DescentStageView, DescentView};
use crate::ils::evaluation::ConfigEvaluation;
use crate::ils::neighbourhood::{
    assignments, has_legal_draw, in_domain, is_draw, lemma_draw_stays_within, lemma_given_stays_within,
    lemma_neighbour_differs_in_one_value, lemma_neighbour_stays_within, lemma_walk_is_legal,
    lemma_walk_stays_within, names_every_parameter, neighbours, perturbation, random_config,
    shuffled_neighbourhood, stays_within, walk,
};
use crate::ils::state::{RunState, RunView};
use crate::ils::{
    first_fidelity, initial_n_runs, next_fidelity, next_n_runs, Approach, IlsOptions, RestartReason, RestartTarget,
};
use crate::measure::Measure;
use crate::params::ParamSpace;
use crate::random::{is_permutation, is_reordering, rearranged};
use vstd::prelude::*;

verus! {

/// What a search waits for.
pub enum Stage {
    /// A random configuration to start from.
    DrawStart,
    /// The evaluation of the starting point.
    MeasureStart { start: Config },
    /// A random configuration to hold against the starting point.
    DrawProbe { current: Config, eval: ConfigEvaluation, left: usize },
    /// The evaluation of that configuration.
    MeasureProbe { current: Config, eval: ConfigEvaluation, left: usize, probe: Config },
    /// The end of a descent.
    Descend { state: RunState, descent: Descent, first: bool, gated: bool },
    /// A configuration near the home base, or a random one.
    DrawPerturbed { state: RunState },
    /// The evaluation of that configuration.
    MeasurePerturbed { state: RunState, config: Config },
    /// The ceiling up to which a local optimum is accepted.
    Judge { state: RunState, new_lm: Config, new_eval: ConfigEvaluation, promoted: bool },
    /// The toss of a coin.
    FlipCoin { state: RunState, promoted: bool },
    /// A configuration to restart from.
    DrawRestart { state: RunState, promoted: bool, reason: RestartReason },
    /// The evaluation of that configuration.
    MeasureRestart { state: RunState, promoted: bool, reason: RestartReason, config: Config },
    /// The evaluation of the incumbent on more instances.
    GrowIncumbent { state: RunState },
    /// The evaluation of the home base on as many.
    GrowHomeBase { state: RunState, incumbent_eval: ConfigEvaluation },
    /// Nothing: the search is over.
    Finished { state: RunState },
    /// Nothing: every configuration that could be drawn is forbidden.
    Stuck,
}

/// What a search waits for.
pub enum StageView {
    DrawStart,
    MeasureStart { start: Assignment },
    DrawProbe { current: Assignment, eval: ConfigEvaluation, left: nat },
    MeasureProbe { current: Assignment, eval: ConfigEvaluation, left: nat, probe: Assignment },
    Descend { state: RunView, descent: DescentView, first: bool, gated: bool },
    DrawPerturbed { state: RunView },
    MeasurePerturbed { state: RunView, config: Assignment },
    Judge { state: RunView, new_lm: Assignment, new_eval: ConfigEvaluation, promoted: bool },
    FlipCoin { state: RunView, promoted: bool },
    DrawRestart { state: RunView, promoted: bool, reason: RestartReason },
    MeasureRestart { state: RunView, promoted: bool, reason: RestartReason, config: Assignment },
    GrowIncumbent { state: RunView },
    GrowHomeBase { state: RunView, incumbent_eval: ConfigEvaluation },
    Finished { state: RunView },
    Stuck,
}

impl View for Stage {
    type V = StageView;

    open spec fn view(&self) -> StageView {
        match *self {
            Stage::DrawStart => StageView::DrawStart,
            Stage::MeasureStart { start } => StageView::MeasureStart { start: start@ },
            Stage::DrawProbe { current, eval, left } => StageView::DrawProbe {
                current: current@,
                eval,
                left: left as nat,
            },
            Stage::MeasureProbe { current, eval, left, probe } => StageView::MeasureProbe {
                current: current@,
                eval,
                left: left as nat,
                probe: probe@,
            },
            Stage::Descend { state, descent, first, gated } => StageView::Descend {
                state: state@,
                descent: descent@,
                first,
                gated,
            },
            Stage::DrawPerturbed { state } => StageView::DrawPerturbed { state: state@ },
            Stage::MeasurePerturbed { state, config } => StageView::MeasurePerturbed {
                state: state@,
                config: config@,
            },
            Stage::Judge { state, new_lm, new_eval, promoted } => StageView::Judge {
                state: state@,
                new_lm: new_lm@,
                new_eval,
                promoted,
            },
            Stage::FlipCoin { state, promoted } => StageView::FlipCoin { state: state@, promoted },
            Stage::DrawRestart { state, promoted, reason } => StageView::DrawRestart {
                state: state@,
                promoted,
                reason,
            },
            Stage::MeasureRestart { state, promoted, reason, config } => StageView::MeasureRestart {
                state: state@,
                promoted,
                reason,
                config: config@,
            },
            Stage::GrowIncumbent { state } => StageView::GrowIncumbent { state: state@ },
            Stage::GrowHomeBase { state, incumbent_eval } => StageView::GrowHomeBase {
                state: state@,
                incumbent_eval,
            },
            Stage::Finished { state } => StageView::Finished { state: state@ },
            Stage::Stuck => StageView::Stuck,
        }
    }
}

/// What stays the same in a search, and on how many instances it measures.
#[derive(Clone, Copy)]
pub struct Frame {
    pub options: IlsOptions,
    /// How many instances there are.
    pub n_total: usize,
    /// On how many of them configurations are measured.
    pub n_runs: usize,
    /// The configuration that the search was given to start from.
    pub initial: Ghost<Option<Assignment>>,
}

/// A search in progress.
pub struct Search {
    pub frame: Frame,
    pub stage: Stage,
}

/// A search in progress.
pub struct SearchView {
    pub options: IlsOptions,
    pub n_total: nat,
    pub n_runs: nat,
    pub initial: Option<Assignment>,
    pub stage: StageView,
}

impl View for Search {
    type V = SearchView;

    open spec fn view(&self) -> SearchView {
        SearchView {
            options: self.frame.options,
            n_total: self.frame.n_total as nat,
            n_runs: self.frame.n_runs as nat,
            initial: self.frame.initial@,
            stage: self.stage@,
        }
    }
}

/// What a search is told.
pub enum EventView {
    /// A configuration was drawn.
    Drawn(Assignment),
    /// No legal configuration could be drawn.
    Undrawn,
    /// The neighbours of the current configuration, in the order to try.
    Arranged(Seq<Assignment>),
    /// A configuration was evaluated.
    Evaluated { eval: ConfigEvaluation, expired: bool },
    /// A round is over, with the winning neighbour if there is one.
    RoundOver { winner: Option<(nat, ConfigEvaluation)>, expired: bool },
    /// The incumbent's score and the tolerated margin.
    Ceiling { ceiling: Measure, expired: bool },
    /// A coin was tossed.
    Coin { heads: bool, expired: bool },
}

/// How the surroundings answer a search.
#[derive(Clone, Copy, Debug)]
pub enum SearchEvent {
    /// A configuration was evaluated.
    Evaluated { eval: ConfigEvaluation, expired: bool },
    /// A round is over, with the winning neighbour if there is one.
    RoundOver { winner: Option<(usize, ConfigEvaluation)>, expired: bool },
    /// The incumbent's score and the tolerated margin.
    Ceiling { ceiling: Measure, expired: bool },
    /// A coin was tossed that comes up with the probability of a restart.
    Coin { heads: bool, expired: bool },
}

impl View for SearchEvent {
    type V = EventView;

    open spec fn view(&self) -> EventView {
        match *self {
            SearchEvent::Evaluated { eval, expired } => EventView::Evaluated { eval, expired },
            SearchEvent::RoundOver { winner, expired } => EventView::RoundOver {
                winner: match winner {
                    Some((k, e)) => Some((k as nat, e)),
                    None => None,
                },
                expired,
            },
            SearchEvent::Ceiling { ceiling, expired } => EventView::Ceiling { ceiling, expired },
            SearchEvent::Coin { heads, expired } => EventView::Coin { heads, expired },
        }
    }
}

/// Neighbours are legal, in whatever order they are tried.
pub proof fn lemma_arranged_neighbours_are_legal(space: &ParamSpace, m: Assignment, ns: Seq<Assignment>, k: int)
    requires
        is_reordering(neighbours(space, m), ns),
        0 <= k < ns.len(),
    ensures
        space.legal(ns[k]),
{
    let all = neighbours(space, m);
    let p = choose|p: Seq<int>| #[trigger] is_permutation(p, all.len() as int) && ns == rearranged(all, p);
    assert(ns[k] == all[p[k]]);
    assert(all.contains(ns[k]));
    lemma_neighbour_differs_in_one_value(space, m, ns[k]);
}

/// Whether a measurement is usable as the new score of a retained configuration.
pub open spec fn measured(eval: ConfigEvaluation) -> bool {
    eval.complete && eval.score.finite()
}

impl StageView {
    /// Incumbent, home base and counts, from the first descent on.
    pub open spec fn state(self) -> Option<RunView> {
        match self {
            StageView::Descend { state, .. } => Some(state),
            StageView::DrawPerturbed { state } => Some(state),
            StageView::MeasurePerturbed { state, .. } => Some(state),
            StageView::Judge { state, .. } => Some(state),
            StageView::FlipCoin { state, .. } => Some(state),
            StageView::DrawRestart { state, .. } => Some(state),
            StageView::MeasureRestart { state, .. } => Some(state),
            StageView::GrowIncumbent { state } => Some(state),
            StageView::GrowHomeBase { state, .. } => Some(state),
            StageView::Finished { state } => Some(state),
            _ => None,
        }
    }

    /// Whether the search waits for chance alone.
    pub open spec fn drawing(self) -> bool {
        match self {
            StageView::DrawStart => true,
            StageView::DrawProbe { .. } => true,
            StageView::DrawPerturbed { .. } => true,
            StageView::DrawRestart { .. } => true,
            StageView::Descend { descent, .. } => descent.stage is Arranging,
            _ => false,
        }
    }

    /// How many draws may follow one another.
    pub open spec fn draws_left(self) -> nat {
        match self {
            StageView::Descend { descent, .. } if descent.stage is Arranging => 2,
            _ => if self.drawing() {
                1
            } else {
                0
            },
        }
    }
}

impl SearchView {
    /// The same search at another stage.
    pub open spec fn at(self, stage: StageView) -> SearchView {
        SearchView { stage, ..self }
    }

    /// At the head of the main loop.
    pub open spec fn head(self, state: RunView, expired: bool) -> SearchView {
        self.at(
            if expired {
                StageView::Finished { state }
            } else {
                StageView::DrawPerturbed { state }
            },
        )
    }

    /// On with a descent, and with its outcome once it is over.
    pub open spec fn on_descent(
        self,
        state: RunView,
        descent: DescentView,
        first: bool,
        gated: bool,
        expired: bool,
    ) -> SearchView {
        let config = descent.config;
        let eval = descent.eval;
        if !(descent.stage is Over) {
            self.at(StageView::Descend { state, descent, first, gated })
        } else if first {
            let next = state.challenged(config, eval, self.n_runs, self.options).rehomed(
                config,
                eval,
                self.n_runs,
            ).with_round(descent.steps, false);
            self.head(next, expired)
        } else {
            let counted = state.with_round(descent.steps, gated);
            let next = counted.challenged(config, eval, self.n_runs, self.options);
            if self.options.approach == Approach::Random {
                self.head(next.rehomed(config, eval, self.n_runs), expired)
            } else {
                self.at(
                    StageView::Judge {
                        state: next,
                        new_lm: config,
                        new_eval: eval,
                        promoted: counted.promotes(self.options, eval, self.n_runs),
                    },
                )
            }
        }
    }

    /// On with the probes that are left, or with the first descent.
    pub open spec fn on_start(
        self,
        current: Assignment,
        eval: ConfigEvaluation,
        left: nat,
        expired: bool,
    ) -> SearchView {
        if left > 0 && !expired {
            self.at(StageView::DrawProbe { current, eval, left })
        } else {
            self.on_descent(
                RunView::started(current, eval, self.n_runs),
                DescentView::begun(current, eval, expired),
                true,
                false,
                expired,
            )
        }
    }

    /// On with a restart, unless time is up.
    pub open spec fn on_restart(
        self,
        state: RunView,
        promoted: bool,
        reason: RestartReason,
        expired: bool,
    ) -> SearchView {
        self.at(
            if expired {
                StageView::Finished { state }
            } else {
                StageView::DrawRestart { state, promoted, reason }
            },
        )
    }

    /// The number of instances after an increase.
    pub open spec fn next_runs(self) -> nat {
        next_fidelity(
            self.n_runs as int,
            self.options.fidelity_step as int,
            self.n_total as int,
        ) as nat
    }

    /// On with more instances if the incumbent of a focused search survived,
    /// and with the next round otherwise.
    pub open spec fn on_survival(self, state: RunView, promoted: bool, expired: bool) -> SearchView {
        if !promoted && self.options.approach == Approach::Focused && self.next_runs() > self.n_runs {
            self.at(StageView::GrowIncumbent { state })
        } else {
            self.head(state, expired)
        }
    }

    /// On with more instances, on which incumbent and home base were measured.
    pub open spec fn on_growth(
        self,
        state: RunView,
        incumbent: ConfigEvaluation,
        home: ConfigEvaluation,
        expired: bool,
    ) -> SearchView {
        SearchView { n_runs: self.next_runs(), ..self }.head(
            state.remeasured(incumbent, home, self.next_runs()),
            expired,
        )
    }

    /// On after the incumbent was measured on more instances: with the home base
    /// too, unless that is the same configuration.
    pub open spec fn on_incumbent_measured(
        self,
        state: RunView,
        eval: ConfigEvaluation,
        home_is_incumbent: bool,
        expired: bool,
    ) -> SearchView {
        if !measured(eval) {
            self.at(StageView::Finished { state })
        } else if home_is_incumbent {
            self.on_growth(state, eval, eval, expired)
        } else {
            self.at(StageView::GrowHomeBase { state, incumbent_eval: eval })
        }
    }

    /// Whether home base and incumbent are the same as far as active parameters go.
    pub open spec fn home_is_incumbent(self, space: &ParamSpace, state: RunView) -> bool {
        config_hash(space.projected(state.last_lm)) == config_hash(space.projected(state.incumbent))
    }

    /// After a draw.
    #[verifier::opaque]
    pub open spec fn after_draw(self, m: Assignment) -> SearchView {
        match self.stage {
            StageView::DrawStart => self.at(StageView::MeasureStart { start: m }),
            StageView::DrawProbe { current, eval, left } => self.at(
                StageView::MeasureProbe { current, eval, left, probe: m },
            ),
            StageView::DrawPerturbed { state } => self.at(
                StageView::MeasurePerturbed { state, config: m },
            ),
            StageView::DrawRestart { state, promoted, reason } => self.at(
                StageView::MeasureRestart { state, promoted, reason, config: m },
            ),
            _ => self,
        }
    }

    /// After the neighbours of the current configuration were put in order.
    #[verifier::opaque]
    pub open spec fn after_arrangement(self, ns: Seq<Assignment>) -> SearchView {
        match self.stage {
            StageView::Descend { state, descent, first, gated } => self.on_descent(
                state,
                descent.ordered(ns),
                first,
                gated,
                false,
            ),
            _ => self,
        }
    }

    /// Whether a probe takes the place of the starting point: it is complete and
    /// strictly better.
    pub open spec fn probe_improves(self, probe: ConfigEvaluation, current: ConfigEvaluation) -> bool {
        probe.complete && strictly_better(
            self.options.approach,
            probe.score,
            self.n_runs as int,
            current.score,
            self.n_runs as int,
        )
    }

    /// After an evaluation.
    #[verifier::opaque]
    pub open spec fn after_evaluation(
        self,
        space: &ParamSpace,
        eval: ConfigEvaluation,
        expired: bool,
    ) -> SearchView {
        match self.stage {
            StageView::MeasureStart { start } => self.on_start(
                start,
                eval,
                self.options.random_probes as nat,
                expired,
            ),
            StageView::MeasureProbe { current, eval: current_eval, left, probe } => {
                if self.probe_improves(eval, current_eval) {
                    self.on_start(
                        probe,
                        ConfigEvaluation::plain(eval.score, self.n_runs as usize),
                        (left - 1) as nat,
                        expired,
                    )
                } else {
                    self.on_start(current, current_eval, (left - 1) as nat, expired)
                }
            },
            StageView::MeasurePerturbed { state, config } => {
                if expired {
                    self.at(StageView::Finished { state })
                } else {
                    self.on_descent(
                        state,
                        DescentView::begun(config, eval, false),
                        false,
                        !eval.complete,
                        false,
                    )
                }
            },
            StageView::MeasureRestart { state, promoted, config, .. } => self.on_survival(
                RunView { rejections: 0, ..state.rehomed(config, eval, self.n_runs) },
                promoted,
                expired,
            ),
            StageView::GrowIncumbent { state } => self.on_incumbent_measured(
                state,
                eval,
                self.home_is_incumbent(space, state),
                expired,
            ),
            StageView::GrowHomeBase { state, incumbent_eval } => {
                if !measured(eval) {
                    self.at(StageView::Finished { state })
                } else {
                    self.on_growth(state, incumbent_eval, eval, expired)
                }
            },
            _ => self,
        }
    }

    /// After a round.
    #[verifier::opaque]
    pub open spec fn after_round(self, winner: Option<(nat, ConfigEvaluation)>, expired: bool) -> SearchView {
        match self.stage {
            StageView::Descend { state, descent, first, gated } => self.on_descent(
                state,
                descent.after_round(winner, expired),
                first,
                gated,
                expired,
            ),
            _ => self,
        }
    }

    /// After the ceiling for acceptance was formed.
    #[verifier::opaque]
    pub open spec fn after_ceiling(self, ceiling: Measure, expired: bool) -> SearchView {
        match self.stage {
            StageView::Judge { state, new_lm, new_eval, promoted } => {
                let judged = state.judged(new_lm, new_eval, self.n_runs, ceiling, self.options);
                if judged.stagnates(self.options) {
                    self.on_restart(judged, promoted, RestartReason::Stagnation, expired)
                } else if (Measure { bits: 0 }).below(self.options.restart_probability) {
                    self.at(StageView::FlipCoin { state: judged, promoted })
                } else {
                    self.on_survival(judged, promoted, expired)
                }
            },
            _ => self,
        }
    }

    /// After the toss of a coin.
    #[verifier::opaque]
    pub open spec fn after_coin(self, heads: bool, expired: bool) -> SearchView {
        match self.stage {
            StageView::FlipCoin { state, promoted } => {
                if heads {
                    self.on_restart(state, promoted, RestartReason::Probability, expired)
                } else {
                    self.on_survival(state, promoted, expired)
                }
            },
            _ => self,
        }
    }

    /// After an event.
    pub open spec fn next(self, space: &ParamSpace, event: EventView) -> SearchView {
        match event {
            EventView::Drawn(m) => self.after_draw(m),
            EventView::Undrawn => self.at(StageView::Stuck),
            EventView::Arranged(ns) => self.after_arrangement(ns),
            EventView::Evaluated { eval, expired } => self.after_evaluation(space, eval, expired),
            EventView::RoundOver { winner, expired } => self.after_round(winner, expired),
            EventView::Ceiling { ceiling, expired } => self.after_ceiling(ceiling, expired),
            EventView::Coin { heads, expired } => self.after_coin(heads, expired),
        }
    }

    /// Whether a configuration is one that the search may hold: the one that it
    /// was given, or a legal one, with values that were given or are in the
    /// domains.
    pub open spec fn admissible(self, space: &ParamSpace, m: Assignment) -> bool {
        &&& self.initial == Some(m) || space.legal(m)
        &&& stays_within(space, self.initial, m)
    }

    /// Incumbent and home base are admissible and measured on `n_runs` instances.
    pub open spec fn state_wf(self, space: &ParamSpace, state: RunView) -> bool {
        &&& self.admissible(space, state.incumbent)
        &&& self.admissible(space, state.last_lm)
        &&& state.incumbent_runs == self.n_runs
        &&& state.last_lm_runs == self.n_runs
    }

    /// What holds of a search at every moment.
    pub open spec fn wf(self, space: &ParamSpace) -> bool {
        &&& self.n_runs <= self.n_total <= usize::MAX
        &&& self.n_total > 0 ==> self.n_runs > 0
        &&& self.options.approach != Approach::Focused ==> self.n_runs == self.n_total
        &&& self.stage.state() matches Some(state) ==> self.state_wf(space, state)
        &&& match self.stage {
            StageView::DrawStart => self.initial is None,
            StageView::MeasureStart { start } => self.admissible(space, start),
            StageView::DrawProbe { current, left, .. } => self.admissible(space, current) && 0 < left
                <= usize::MAX,
            StageView::MeasureProbe { current, left, probe, .. } => {
                &&& self.admissible(space, current)
                &&& self.admissible(space, probe)
                &&& 0 < left <= usize::MAX
            },
            StageView::Descend { descent, .. } => {
                &&& self.admissible(space, descent.config)
                &&& descent.wf(space)
                &&& !(descent.stage is Over)
            },
            StageView::MeasurePerturbed { config, .. } => self.admissible(space, config),
            StageView::Judge { new_lm, .. } => self.admissible(space, new_lm),
            StageView::FlipCoin { state, .. } => !state.stagnates(self.options) && (Measure { bits: 0 }).below(
                self.options.restart_probability,
            ),
            StageView::MeasureRestart { config, .. } => self.admissible(space, config),
            StageView::GrowIncumbent { .. } => self.options.approach == Approach::Focused
                && self.next_runs() > self.n_runs,
            StageView::GrowHomeBase { incumbent_eval, .. } => {
                &&& self.options.approach == Approach::Focused
                &&& self.next_runs() > self.n_runs
                &&& measured(incumbent_eval)
            },
            StageView::Stuck => !has_legal_draw(space),
            _ => true,
        }
    }

    /// Whether a configuration may be what a draw gives at this stage.
    pub open spec fn admits_draw(self, space: &ParamSpace, m: Assignment) -> bool {
        let random = is_draw(space, m) && space.legal(m);
        match self.stage {
            StageView::DrawStart => random,
            StageView::DrawProbe { .. } => random,
            StageView::DrawPerturbed { state } => if self.options.approach == Approach::Random {
                random
            } else {
                walk(space, state.last_lm, m, self.options.perturbation_strength as nat)
            },
            StageView::DrawRestart { state, .. } => match self.options.restart_target {
                RestartTarget::Incumbent => walk(
                    space,
                    state.incumbent,
                    m,
                    self.options.restart_strength as nat,
                ),
                RestartTarget::Random => random,
            },
            _ => false,
        }
    }

    /// Whether an event answers what the search waits for.
    pub open spec fn awaits(self, space: &ParamSpace, event: EventView) -> bool {
        match event {
            EventView::Drawn(m) => self.admits_draw(space, m),
            EventView::Undrawn => !has_legal_draw(space) && match self.stage {
                StageView::DrawStart => true,
                StageView::DrawProbe { .. } => true,
                StageView::DrawPerturbed { .. } => self.options.approach == Approach::Random,
                StageView::DrawRestart { .. } => self.options.restart_target == RestartTarget::Random,
                _ => false,
            },
            EventView::Arranged(ns) => match self.stage {
                StageView::Descend { descent, .. } => descent.stage is Arranging && is_reordering(
                    neighbours(space, descent.config),
                    ns,
                ),
                _ => false,
            },
            EventView::Evaluated { .. } => match self.stage {
                StageView::MeasureStart { .. } => true,
                StageView::MeasureProbe { .. } => true,
                StageView::MeasurePerturbed { .. } => true,
                StageView::MeasureRestart { .. } => true,
                StageView::GrowIncumbent { .. } => true,
                StageView::GrowHomeBase { .. } => true,
                _ => false,
            },
            EventView::RoundOver { winner, .. } => match self.stage {
                StageView::Descend { descent, .. } => match descent.stage {
                    DescentStageView::Round(ns) => winner matches Some(w) ==> wins(
                        ns,
                        w,
                        self.options.approach,
                        descent.eval.score,
                        self.n_runs,
                    ),
                    _ => false,
                },
                _ => false,
            },
            EventView::Ceiling { .. } => self.stage is Judge,
            EventView::Coin { .. } => self.stage is FlipCoin,
        }
    }

    /// From one moment to a later one: the number of instances does not
    /// decrease, and while it stays the same the incumbent's score does not get
    /// worse; the incumbent is replaced only by a configuration with a strictly
    /// better score.
    pub open spec fn progresses_to(self, later: SearchView) -> bool {
        &&& self.n_runs <= later.n_runs <= self.n_total == later.n_total
        &&& later.options == self.options
        &&& later.initial == self.initial
        &&& (self.stage.state(), later.stage.state()) matches (Some(a), Some(b)) ==> {
            &&& self.n_runs == later.n_runs ==> b.incumbent_score == a.incumbent_score
                || b.incumbent_score.below(a.incumbent_score)
            &&& b.incumbent != a.incumbent && self.n_runs == later.n_runs
                ==> b.incumbent_score.below(a.incumbent_score)
        }
        &&& self.stage.state() is Some && !(later.stage is Stuck) ==> later.stage.state() is Some
    }

    /// A move of the descent or the walk leads from an admissible configuration
    /// to an admissible one.
    proof fn lemma_walk_is_admissible(self, space: &ParamSpace, from: Assignment, to: Assignment, steps: nat)
        requires
            self.admissible(space, from),
            walk(space, from, to, steps),
        ensures
            self.admissible(space, to),
    {
        lemma_walk_is_legal(space, from, to, steps);
        lemma_walk_stays_within(space, self.initial, from, to, steps);
    }

    proof fn lemma_neighbours_are_admissible(self, space: &ParamSpace, m: Assignment, ns: Seq<Assignment>, k: int)
        requires
            self.admissible(space, m),
            is_reordering(neighbours(space, m), ns),
            0 <= k < ns.len(),
        ensures
            self.admissible(space, ns[k]),
    {
        lemma_arranged_neighbours_are_legal(space, m, ns, k);
        lemma_neighbour_stays_within(space, self.initial, m, ns[k]);
    }

    proof fn lemma_on_descent(
        self,
        space: &ParamSpace,
        state: RunView,
        descent: DescentView,
        first: bool,
        gated: bool,
        expired: bool,
    )
        requires
            self.n_runs <= self.n_total <= usize::MAX,
            self.n_total > 0 ==> self.n_runs > 0,
            self.options.approach != Approach::Focused ==> self.n_runs == self.n_total,
            self.state_wf(space, state),
            self.admissible(space, descent.config),
            descent.wf(space),
        ensures
            self.on_descent(state, descent, first, gated, expired).wf(space),
            self.at(StageView::Finished { state }).progresses_to(
                self.on_descent(state, descent, first, gated, expired),
            ),
    {
    }

    proof fn lemma_draw_keeps_wf(self, space: &ParamSpace, m: Assignment)
        requires
            self.wf(space),
            self.admits_draw(space, m),
        ensures
            self.after_draw(m).wf(space),
            self.progresses_to(self.after_draw(m)),
    {
        reveal(SearchView::after_draw);
        if is_draw(space, m) {
            lemma_draw_stays_within(space, self.initial, m);
        }
        match self.stage {
            StageView::DrawPerturbed { state } => {
                if self.options.approach != Approach::Random {
                    self.lemma_walk_is_admissible(
                        space,
                        state.last_lm,
                        m,
                        self.options.perturbation_strength as nat,
                    );
                }
            },
            StageView::DrawRestart { state, .. } => {
                if self.options.restart_target == RestartTarget::Incumbent {
                    self.lemma_walk_is_admissible(
                        space,
                        state.incumbent,
                        m,
                        self.options.restart_strength as nat,
                    );
                }
            },
            _ => {},
        }
    }

    proof fn lemma_start_keeps_wf(
        self,
        space: &ParamSpace,
        current: Assignment,
        eval: ConfigEvaluation,
        left: nat,
        expired: bool,
    )
        requires
            self.wf(space),
            self.stage.state() is None,
            self.admissible(space, current),
            left <= usize::MAX,
        ensures
            self.on_start(current, eval, left, expired).wf(space),
            self.progresses_to(self.on_start(current, eval, left, expired)),
    {
        self.lemma_on_descent(
            space,
            RunView::started(current, eval, self.n_runs),
            DescentView::begun(current, eval, expired),
            true,
            false,
            expired,
        );
    }

    proof fn lemma_survival_keeps_wf(self, space: &ParamSpace, state: RunView, promoted: bool, expired: bool)
        requires
            self.wf(space),
            self.state_wf(space, state),
            self.stage.state() matches Some(s) && s.incumbent == state.incumbent && s.incumbent_score
                == state.incumbent_score,
        ensures
            self.on_survival(state, promoted, expired).wf(space),
            self.progresses_to(self.on_survival(state, promoted, expired)),
    {
    }

    proof fn lemma_growth_keeps_wf(
        self,
        space: &ParamSpace,
        state: RunView,
        incumbent: ConfigEvaluation,
        home: ConfigEvaluation,
        expired: bool,
    )
        requires
            self.wf(space),
            self.stage.state() == Some(state),
            self.options.approach == Approach::Focused,
            self.next_runs() > self.n_runs,
        ensures
            self.on_growth(state, incumbent, home, expired).wf(space),
            self.progresses_to(self.on_growth(state, incumbent, home, expired)),
    {
    }

    proof fn lemma_evaluation_keeps_wf(self, space: &ParamSpace, eval: ConfigEvaluation, expired: bool)
        requires
            self.wf(space),
            self.awaits(space, EventView::Evaluated { eval, expired }),
        ensures
            self.after_evaluation(space, eval, expired).wf(space),
            self.progresses_to(self.after_evaluation(space, eval, expired)),
    {
        reveal(SearchView::after_evaluation);
        match self.stage {
            StageView::MeasureStart { start } => {
                self.lemma_start_keeps_wf(space, start, eval, self.options.random_probes as nat, expired);
            },
            StageView::MeasureProbe { current, eval: current_eval, left, probe } => {
                let plain = ConfigEvaluation::plain(eval.score, self.n_runs as usize);
                self.lemma_start_keeps_wf(space, probe, plain, (left - 1) as nat, expired);
                self.lemma_start_keeps_wf(space, current, current_eval, (left - 1) as nat, expired);
            },
            StageView::MeasurePerturbed { state, config } => {
                self.lemma_on_descent(
                    space,
                    state,
                    DescentView::begun(config, eval, false),
                    false,
                    !eval.complete,
                    false,
                );
            },
            StageView::MeasureRestart { state, promoted, config, .. } => {
                let next = RunView { rejections: 0, ..state.rehomed(config, eval, self.n_runs) };
                self.lemma_survival_keeps_wf(space, next, promoted, expired);
            },
            StageView::GrowIncumbent { state } => {
                self.lemma_growth_keeps_wf(space, state, eval, eval, expired);
            },
            StageView::GrowHomeBase { state, incumbent_eval } => {
                self.lemma_growth_keeps_wf(space, state, incumbent_eval, eval, expired);
            },
            _ => {},
        }
    }

    proof fn lemma_round_keeps_wf(
        self,
        space: &ParamSpace,
        winner: Option<(nat, ConfigEvaluation)>,
        expired: bool,
    )
        requires
            self.wf(space),
            self.awaits(space, EventView::RoundOver { winner, expired }),
        ensures
            self.after_round(winner, expired).wf(space),
            self.progresses_to(self.after_round(winner, expired)),
    {
        reveal(SearchView::after_round);
        if let StageView::Descend { state, descent, first, gated } = self.stage {
            if let (DescentStageView::Round(ns), Some((k, e))) = (descent.stage, winner) {
                self.lemma_neighbours_are_admissible(space, descent.config, ns, k as int);
            }
            self.lemma_on_descent(
                space,
                state,
                descent.after_round(winner, expired),
                first,
                gated,
                expired,
            );
        }
    }

    proof fn lemma_judgement_keeps_wf(self, space: &ParamSpace, ceiling: Measure, expired: bool)
        requires
            self.wf(space),
            self.stage is Judge,
        ensures
            self.after_ceiling(ceiling, expired).wf(space),
            self.progresses_to(self.after_ceiling(ceiling, expired)),
    {
        reveal(SearchView::after_ceiling);
        if let StageView::Judge { state, new_lm, new_eval, promoted } = self.stage {
            let judged = state.judged(new_lm, new_eval, self.n_runs, ceiling, self.options);
            self.lemma_survival_keeps_wf(space, judged, promoted, expired);
        }
    }

    proof fn lemma_arrangement_keeps_wf(self, space: &ParamSpace, ns: Seq<Assignment>)
        requires
            self.wf(space),
            self.awaits(space, EventView::Arranged(ns)),
        ensures
            self.after_arrangement(ns).wf(space),
            self.progresses_to(self.after_arrangement(ns)),
    {
        reveal(SearchView::after_arrangement);
        if let StageView::Descend { state, descent, first, gated } = self.stage {
            self.lemma_on_descent(space, state, descent.ordered(ns), first, gated, false);
        }
    }

    proof fn lemma_coin_keeps_wf(self, space: &ParamSpace, heads: bool, expired: bool)
        requires
            self.wf(space),
            self.stage is FlipCoin,
        ensures
            self.after_coin(heads, expired).wf(space),
            self.progresses_to(self.after_coin(heads, expired)),
    {
        reveal(SearchView::after_coin);
        if let StageView::FlipCoin { state, promoted } = self.stage {
            self.lemma_survival_keeps_wf(space, state, promoted, expired);
        }
    }

    /// A draw brings the search nearer to where no draw is due.
    proof fn lemma_draw_is_used_up(self, space: &ParamSpace, event: EventView)
        requires
            self.awaits(space, event),
            by_chance(event),
        ensures
            self.next(space, event).stage.draws_left() < self.stage.draws_left(),
    {
        reveal(SearchView::after_draw);
        reveal(SearchView::after_arrangement);
    }

    /// Every event keeps what holds of a search, and leads onward.
    pub proof fn lemma_every_event_keeps_wf(self, space: &ParamSpace, event: EventView)
        requires
            self.wf(space),
            self.awaits(space, event),
        ensures
            self.next(space, event).wf(space),
            self.progresses_to(self.next(space, event)),
    {
        match event {
            EventView::Drawn(m) => {
                self.lemma_draw_keeps_wf(space, m);
            },
            EventView::Undrawn => {},
            EventView::Arranged(ns) => {
                self.lemma_arrangement_keeps_wf(space, ns);
            },
            EventView::Evaluated { eval, expired } => {
                self.lemma_evaluation_keeps_wf(space, eval, expired);
            },
            EventView::RoundOver { winner, expired } => {
                self.lemma_round_keeps_wf(space, winner, expired);
            },
            EventView::Ceiling { ceiling, expired } => {
                self.lemma_judgement_keeps_wf(space, ceiling, expired);
            },
            EventView::Coin { heads, expired } => {
                self.lemma_coin_keeps_wf(space, heads, expired);
            },
        }
    }

    /// After a sequence of events.
    pub open spec fn after_all(self, space: &ParamSpace, events: Seq<EventView>) -> SearchView
        decreases events.len(),
    {
        if events.len() == 0 {
            self
        } else {
            self.after_all(space, events.drop_last()).next(space, events.last())
        }
    }

    /// Whether each event of a sequence answers what the search then waits for.
    pub open spec fn awaits_all(self, space: &ParamSpace, events: Seq<EventView>) -> bool
        decreases events.len(),
    {
        events.len() > 0 ==> {
            &&& self.awaits_all(space, events.drop_last())
            &&& self.after_all(space, events.drop_last()).awaits(space, events.last())
        }
    }

    /// Over a whole run, whatever happens in it: what holds of a search holds at
    /// every moment, and every moment leads onward from the first.
    pub proof fn lemma_every_run_progresses(self, space: &ParamSpace, events: Seq<EventView>)
        requires
            self.wf(space),
            self.awaits_all(space, events),
        ensures
            self.after_all(space, events).wf(space),
            self.progresses_to(self.after_all(space, events)),
        decreases events.len(),
    {
        if events.len() > 0 {
            let before = self.after_all(space, events.drop_last());
            self.lemma_every_run_progresses(space, events.drop_last());
            before.lemma_every_event_keeps_wf(space, events.last());
            assert(before.stage is Stuck ==> !before.awaits(space, events.last()));
        }
    }

    /// What a finished search returns is the configuration that it was given or
    /// a legal one, and its score was measured on the number of instances that
    /// the search had reached.
    pub proof fn lemma_result_is_admissible(self, space: &ParamSpace, events: Seq<EventView>)
        requires
            self.wf(space),
            self.awaits_all(space, events),
            self.after_all(space, events).stage is Finished,
        ensures
            ({
                let end = self.after_all(space, events);
                let state = end.stage->Finished_state;
                &&& self.initial == Some(state.incumbent) || space.legal(state.incumbent)
                &&& state.incumbent_runs == end.n_runs
                &&& self.n_runs <= end.n_runs <= self.n_total
            }),
    {
        self.lemma_every_run_progresses(space, events);
    }

    /// What a finished search returns names every parameter if the configuration
    /// that it was given does (or none was given), and has for each name a value of
    /// the domain of a parameter of that name, or the value that it was given.
    pub proof fn lemma_result_names_the_parameters(
        space: &ParamSpace,
        initial: Option<Assignment>,
        options: IlsOptions,
        n_total: usize,
        events: Seq<EventView>,
    )
        requires
            initial matches Some(g) ==> names_every_parameter(space, g),
            SearchView::opened(initial, options, n_total as nat).awaits_all(space, events),
            SearchView::opened(initial, options, n_total as nat).after_all(space, events).stage is Finished,
        ensures
            ({
                let end = SearchView::opened(initial, options, n_total as nat).after_all(space, events);
                let found = end.stage->Finished_state.incumbent;
                &&& names_every_parameter(space, found)
                &&& forall|name: Seq<char>| #[trigger]
                    found.contains_key(name) ==> in_domain(space, name, found[name]) || (initial matches Some(g)
                        && g.contains_key(name) && g[name] == found[name])
            }),
    {
        let first = SearchView::opened(initial, options, n_total as nat);
        SearchView::lemma_opened_is_wf(space, initial, options, n_total);
        first.lemma_every_run_progresses(space, events);
        reveal(stays_within);
        let found = first.after_all(space, events).stage->Finished_state.incumbent;
        assert forall|i: int| 0 <= i < space.params@.len() implies found.contains_key(
            (#[trigger] space.params@[i]).name@,
        ) by {
            if let Some(g) = initial {
                assert(g.contains_key(space.params@[i].name@));
            }
        }
    }

    /// What a finished search returns assigns the same names as the configuration
    /// that it was given, where that names exactly the parameters.
    pub proof fn lemma_result_keeps_names(
        space: &ParamSpace,
        given: Assignment,
        options: IlsOptions,
        n_total: usize,
        events: Seq<EventView>,
    )
        requires
            names_every_parameter(space, given),
            forall|name: Seq<char>| #[trigger] given.contains_key(name) ==> exists|i: int|
                0 <= i < space.params@.len() && (#[trigger] space.params@[i]).name@ == name,
            SearchView::opened(Some(given), options, n_total as nat).awaits_all(space, events),
            SearchView::opened(Some(given), options, n_total as nat).after_all(space, events).stage is Finished,
        ensures
            SearchView::opened(Some(given), options, n_total as nat).after_all(
                space,
                events,
            ).stage->Finished_state.incumbent.dom() == given.dom(),
    {
        SearchView::lemma_result_names_the_parameters(space, Some(given), options, n_total, events);
        let found = SearchView::opened(Some(given), options, n_total as nat).after_all(
            space,
            events,
        ).stage->Finished_state.incumbent;
        assert forall|name: Seq<char>| found.contains_key(name) == given.contains_key(name) by {
            if given.contains_key(name) {
                let i = choose|i: int|
                    0 <= i < space.params@.len() && (#[trigger] space.params@[i]).name@ == name;
                assert(found.contains_key(space.params@[i].name@));
            }
        }
        assert(found.dom() =~= given.dom());
    }

    /// A search gives up only where every configuration is forbidden: while any is
    /// legal, no run of events leads to a search that has stopped without a result.
    pub proof fn lemma_search_gives_up_only_in_vain(self, space: &ParamSpace, events: Seq<EventView>)
        requires
            self.wf(space),
            self.awaits_all(space, events),
            has_legal_draw(space),
        ensures
            !(self.after_all(space, events).stage is Stuck),
    {
        self.lemma_every_run_progresses(space, events);
    }

    /// The score of the best configuration so far, once the starting point was
    /// measured.
    pub open spec fn best_score(self) -> Option<Measure> {
        match self.stage {
            StageView::DrawProbe { eval, .. } => Some(eval.score),
            StageView::MeasureProbe { eval, .. } => Some(eval.score),
            _ => match self.stage.state() {
                Some(state) => Some(state.incumbent_score),
                None => None,
            },
        }
    }

    /// Whether the best score is known and is `score` or below it, unless the search
    /// has given up or measures on other instances by now.
    spec fn is_no_worse(self, score: Measure, n_runs: nat) -> bool {
        self.stage is Stuck || self.n_runs != n_runs || (self.best_score() matches Some(best) && (best == score
            || best.below(score)))
    }

    proof fn lemma_start_is_no_worse(
        self,
        current: Assignment,
        eval: ConfigEvaluation,
        left: nat,
        expired: bool,
        score: Measure,
    )
        requires
            eval.score == score || eval.score.below(score),
        ensures
            self.on_start(current, eval, left, expired).is_no_worse(score, self.n_runs),
    {
    }

    proof fn lemma_event_is_no_worse(self, space: &ParamSpace, event: EventView, score: Measure, n_runs: nat)
        requires
            self.wf(space),
            self.awaits(space, event),
            self.n_runs >= n_runs,
            self.is_no_worse(score, n_runs),
        ensures
            self.next(space, event).is_no_worse(score, n_runs),
    {
        self.lemma_every_event_keeps_wf(space, event);
        match self.stage {
            StageView::DrawProbe { .. } => {
                reveal(SearchView::after_draw);
            },
            StageView::MeasureProbe { current, eval: current_eval, left, probe } => {
                reveal(SearchView::after_evaluation);
                if let EventView::Evaluated { eval, expired } = event {
                    if self.n_runs == n_runs {
                        if self.probe_improves(eval, current_eval) {
                            let plain = ConfigEvaluation::plain(eval.score, self.n_runs as usize);
                            self.lemma_start_is_no_worse(probe, plain, (left - 1) as nat, expired, score);
                        } else {
                            self.lemma_start_is_no_worse(current, current_eval, (left - 1) as nat, expired, score);
                        }
                    }
                }
            },
            _ => {},
        }
    }

    /// What a search returns is no worse than its starting point, as long as it
    /// measures on the same instances, which all but a focused search do: at every
    /// moment of a run that begins with the evaluation of the starting point, the
    /// best score so far is the one of that evaluation or below it. In a finished
    /// search the best score is that of the incumbent.
    pub proof fn lemma_result_is_no_worse_than_the_start(
        self,
        space: &ParamSpace,
        events: Seq<EventView>,
        eval: ConfigEvaluation,
        expired: bool,
    )
        requires
            self.wf(space),
            self.stage is MeasureStart,
            self.awaits_all(space, events),
            events.len() > 0,
            events[0] == (EventView::Evaluated { eval, expired }),
        ensures
            ({
                let end = self.after_all(space, events);
                &&& self.options.approach != Approach::Focused ==> end.n_runs == self.n_runs
                &&& end.n_runs == self.n_runs && !(end.stage is Stuck) ==> {
                    &&& end.best_score() matches Some(best) && (best == eval.score || best.below(eval.score))
                    &&& end.stage matches StageView::Finished { state } ==> state.incumbent_score
                        == eval.score || state.incumbent_score.below(eval.score)
                }
            }),
    {
        self.lemma_every_run_progresses(space, events);
        self.lemma_run_is_no_worse(space, events, eval, expired);
    }

    proof fn lemma_run_is_no_worse(
        self,
        space: &ParamSpace,
        events: Seq<EventView>,
        eval: ConfigEvaluation,
        expired: bool,
    )
        requires
            self.wf(space),
            self.stage is MeasureStart,
            self.awaits_all(space, events),
            events.len() > 0,
            events[0] == (EventView::Evaluated { eval, expired }),
        ensures
            self.after_all(space, events).is_no_worse(eval.score, self.n_runs),
        decreases events.len(),
    {
        let shorter = events.drop_last();
        if shorter.len() == 0 {
            assert(self.after_all(space, shorter) == self);
            reveal(SearchView::after_evaluation);
            if let StageView::MeasureStart { start } = self.stage {
                self.lemma_start_is_no_worse(
                    start,
                    eval,
                    self.options.random_probes as nat,
                    expired,
                    eval.score,
                );
            }
        } else {
            assert(shorter[0] == events[0]);
            self.lemma_run_is_no_worse(space, shorter, eval, expired);
            self.lemma_every_run_progresses(space, shorter);
            self.after_all(space, shorter).lemma_event_is_no_worse(
                space,
                events.last(),
                eval.score,
                self.n_runs,
            );
        }
    }

    /// At every moment the scores of incumbent and home base were measured on
    /// the same instances.
    pub proof fn lemma_comparisons_never_cross_fidelities(self, space: &ParamSpace, events: Seq<EventView>)
        requires
            self.wf(space),
            self.awaits_all(space, events),
        ensures
            ({
                let end = self.after_all(space, events);
                end.stage.state() matches Some(state) ==> state.incumbent_runs == end.n_runs
                    && state.last_lm_runs == end.n_runs
            }),
    {
        self.lemma_every_run_progresses(space, events);
    }
}

/// What a search wants done.
pub enum Action<'a> {
    /// Evaluate a configuration on the first `n_runs` instances, held against
    /// the score `bound` if there is one.
    Evaluate {
        config: &'a Config,
        n_runs: usize,
        bound: Option<Measure>,
        incumbent_checkpoint: Option<Measure>,
    },
    /// Evaluate the neighbours of a configuration on the first `n_runs`
    /// instances until one improves on it.
    RunRound {
        current: &'a Config,
        current_eval: ConfigEvaluation,
        neighbours: &'a Vec<Config>,
        n_runs: usize,
        incumbent_score: Measure,
        incumbent_checkpoint: Option<Measure>,
    },
    /// Form the incumbent's score and the tolerated margin.
    FormCeiling { incumbent_score: Measure },
    /// Toss a coin that comes up with the probability of a restart.
    FlipCoin,
    /// Draw by chance.
    Draw,
    /// Return the incumbent.
    Done { incumbent: &'a Config, score: Measure },
    /// Give up.
    GiveUp,
}

/// What a search wants done.
pub enum ActionView {
    Evaluate {
        config: Assignment,
        n_runs: nat,
        bound: Option<Measure>,
        incumbent_checkpoint: Option<Measure>,
    },
    RunRound {
        current: Assignment,
        current_eval: ConfigEvaluation,
        neighbours: Seq<Assignment>,
        n_runs: nat,
        incumbent_score: Measure,
        incumbent_checkpoint: Option<Measure>,
    },
    FormCeiling { incumbent_score: Measure },
    FlipCoin,
    Draw,
    Done { incumbent: Assignment, score: Measure },
    GiveUp,
}

impl<'a> View for Action<'a> {
    type V = ActionView;

    open spec fn view(&self) -> ActionView {
        match *self {
            Action::Evaluate { config, n_runs, bound, incumbent_checkpoint } => ActionView::Evaluate {
                config: config@,
                n_runs: n_runs as nat,
                bound,
                incumbent_checkpoint,
            },
            Action::RunRound {
                current,
                current_eval,
                neighbours,
                n_runs,
                incumbent_score,
                incumbent_checkpoint,
            } => ActionView::RunRound {
                current: current@,
                current_eval,
                neighbours: assignments(neighbours@),
                n_runs: n_runs as nat,
                incumbent_score,
                incumbent_checkpoint,
            },
            Action::FormCeiling { incumbent_score } => ActionView::FormCeiling { incumbent_score },
            Action::FlipCoin => ActionView::FlipCoin,
            Action::Draw => ActionView::Draw,
            Action::Done { incumbent, score } => ActionView::Done { incumbent: incumbent@, score },
            Action::GiveUp => ActionView::GiveUp,
        }
    }
}

/// The request for an evaluation without anything to hold against.
pub open spec fn measure_freely(config: Assignment, n_runs: nat) -> ActionView {
    ActionView::Evaluate { config, n_runs, bound: None, incumbent_checkpoint: None }
}

/// The request for an evaluation held against the incumbent.
pub open spec fn measure_against(config: Assignment, n_runs: nat, state: RunView) -> ActionView {
    ActionView::Evaluate {
        config,
        n_runs,
        bound: Some(state.incumbent_score),
        incumbent_checkpoint: state.incumbent_checkpoint,
    }
}

/// The event that a draw makes.
pub open spec fn draw_event(config: Option<Config>) -> EventView {
    match config {
        Some(c) => EventView::Drawn(c@),
        None => EventView::Undrawn,
    }
}

/// A configuration, if there is one, as a mathematical map.
pub open spec fn assignment_of(config: Option<Config>) -> Option<Assignment> {
    match config {
        Some(c) => Some(c@),
        None => None,
    }
}

/// Whether an event is a matter of chance alone.
pub open spec fn by_chance(event: EventView) -> bool {
    event is Drawn || event is Undrawn || event is Arranged
}

impl SearchView {
    /// What the search wants done.
    pub open spec fn request(self) -> ActionView {
        match self.stage {
            StageView::MeasureStart { start } => measure_freely(start, self.n_runs),
            StageView::MeasureProbe { eval, probe, .. } => ActionView::Evaluate {
                config: probe,
                n_runs: self.n_runs,
                bound: Some(eval.score),
                incumbent_checkpoint: eval.checkpoint,
            },
            StageView::Descend { state, descent, .. } => match descent.stage {
                DescentStageView::Round(ns) => ActionView::RunRound {
                    current: descent.config,
                    current_eval: descent.eval,
                    neighbours: ns,
                    n_runs: self.n_runs,
                    incumbent_score: state.incumbent_score,
                    incumbent_checkpoint: state.incumbent_checkpoint,
                },
                _ => ActionView::Draw,
            },
            StageView::MeasurePerturbed { state, config } => measure_against(config, self.n_runs, state),
            StageView::Judge { state, .. } => ActionView::FormCeiling {
                incumbent_score: state.incumbent_score,
            },
            StageView::FlipCoin { .. } => ActionView::FlipCoin,
            StageView::MeasureRestart { state, config, .. } => measure_against(
                config,
                self.n_runs,
                state,
            ),
            StageView::GrowIncumbent { state } => measure_freely(state.incumbent, self.next_runs()),
            StageView::GrowHomeBase { state, .. } => measure_freely(state.last_lm, self.next_runs()),
            StageView::Finished { state } => ActionView::Done {
                incumbent: state.incumbent,
                score: state.incumbent_score,
            },
            StageView::Stuck => ActionView::GiveUp,
            _ => ActionView::Draw,
        }
    }

    /// Whatever a search asks to be evaluated is the configuration that it was
    /// given or a legal one, and it asks for no more instances than there are.
    pub proof fn lemma_requests_are_admissible(self, space: &ParamSpace)
        requires
            self.wf(space),
        ensures
            match self.request() {
                ActionView::Evaluate { config, n_runs, .. } => self.admissible(space, config) && n_runs
                    <= self.n_total,
                ActionView::RunRound { neighbours, n_runs, .. } => n_runs <= self.n_total && forall|k: int|
                    0 <= k < neighbours.len() ==> space.legal(#[trigger] neighbours[k]),
                _ => true,
            },
    {
        if let StageView::Descend { descent, .. } = self.stage {
            if let DescentStageView::Round(ns) = descent.stage {
                assert forall|k: int| 0 <= k < ns.len() implies space.legal(#[trigger] ns[k]) by {
                    lemma_arranged_neighbours_are_legal(space, descent.config, ns, k);
                }
            }
        }
    }

    /// When the number of instances grows it does so by one step, incumbent and
    /// home base stay what they are, and both have complete and finite scores on
    /// the new number.
    pub proof fn lemma_growth_measures_both_anew(self, space: &ParamSpace, event: EventView)
        requires
            self.wf(space),
            self.awaits(space, event),
            self.next(space, event).n_runs != self.n_runs,
        ensures
            ({
                let next = self.next(space, event);
                &&& next.n_runs == self.next_runs()
                &&& self.options.approach == Approach::Focused
                &&& (self.stage.state(), next.stage.state()) matches (Some(a), Some(b)) && {
                    &&& b.incumbent == a.incumbent
                    &&& b.last_lm == a.last_lm
                    &&& b.incumbent_score.finite()
                    &&& measured(b.last_lm_eval)
                    &&& b.incumbent_runs == next.n_runs
                    &&& b.last_lm_runs == next.n_runs
                }
            }),
    {
        reveal(SearchView::after_draw);
        reveal(SearchView::after_arrangement);
        reveal(SearchView::after_evaluation);
        reveal(SearchView::after_round);
        reveal(SearchView::after_ceiling);
        reveal(SearchView::after_coin);
    }

    /// Whether at most `n` draws lead to `later`, where no draw is due.
    pub open spec fn draws_to(self, space: &ParamSpace, later: SearchView, n: nat) -> bool
        decreases n,
    {
        if !self.stage.drawing() {
            later == self
        } else {
            n > 0 && exists|e: EventView| #[trigger]
                self.awaits(space, e) && by_chance(e) && self.next(space, e).draws_to(
                    space,
                    later,
                    (n - 1) as nat,
                )
        }
    }

    /// What draws lead to keeps what holds of a search, and leads onward.
    pub proof fn lemma_draws_keep_wf(self, space: &ParamSpace, later: SearchView, n: nat)
        requires
            self.wf(space),
            self.draws_to(space, later, n),
        ensures
            later.wf(space),
            self.progresses_to(later),
        decreases n,
    {
        if self.stage.drawing() {
            let e = choose|e: EventView| #[trigger]
                self.awaits(space, e) && by_chance(e) && self.next(space, e).draws_to(
                    space,
                    later,
                    (n - 1) as nat,
                );
            self.lemma_every_event_keeps_wf(space, e);
            self.next(space, e).lemma_draws_keep_wf(space, later, (n - 1) as nat);
        }
    }

    /// What holds of a search holds at its beginning.
    pub proof fn lemma_opened_is_wf(
        space: &ParamSpace,
        initial: Option<Assignment>,
        options: IlsOptions,
        n_total: usize,
    )
        ensures
            SearchView::opened(initial, options, n_total as nat).wf(space),
    {
        if let Some(m) = initial {
            lemma_given_stays_within(space, m);
        }
    }

    /// A search at its beginning.
    pub open spec fn opened(initial: Option<Assignment>, options: IlsOptions, n_total: nat) -> SearchView {
        SearchView {
            options,
            n_total,
            n_runs: if options.approach == Approach::Focused {
                first_fidelity(options.initial_fidelity as int, n_total as int) as nat
            } else {
                n_total
            },
            initial,
            stage: match initial {
                Some(m) => StageView::MeasureStart { start: m },
                None => StageView::DrawStart,
            },
        }
    }
}

impl Frame {
    /// The search with this frame, at no stage in particular.
    pub open spec fn search(self) -> SearchView {
        SearchView {
            options: self.options,
            n_total: self.n_total as nat,
            n_runs: self.n_runs as nat,
            initial: self.initial@,
            stage: StageView::Stuck,
        }
    }
}

fn head(frame: Frame, state: RunState, expired: bool) -> (s: Search)
    ensures
        s@ == frame.search().head(state@, expired),
{
    Search {
        frame,
        stage: if expired {
            Stage::Finished { state }
        } else {
            Stage::DrawPerturbed { state }
        },
    }
}

fn on_descent(frame: Frame, state: RunState, descent: Descent, first: bool, gated: bool, expired: bool) -> (s: Search)
    ensures
        s@ == frame.search().on_descent(state@, descent@, first, gated, expired),
{
    let mut state = state;
    match descent.stage {
        DescentStage::Over => {
            let config = descent.config;
            let eval = descent.eval;
            if first {
                state.try_promote_incumbent(&config, &eval, frame.n_runs, &frame.options);
                state.set_home_base(config, eval, frame.n_runs);
                state.record_round(descent.steps, false);
                head(frame, state, expired)
            } else {
                state.record_round(descent.steps, gated);
                let promoted = state.try_promote_incumbent(&config, &eval, frame.n_runs, &frame.options);
                match frame.options.approach {
                    Approach::Random => {
                        state.set_home_base(config, eval, frame.n_runs);
                        head(frame, state, expired)
                    },
                    _ => Search {
                        frame,
                        stage: Stage::Judge { state, new_lm: config, new_eval: eval, promoted },
                    },
                }
            }
        },
        _ => Search { frame, stage: Stage::Descend { state, descent, first, gated } },
    }
}

fn on_start(frame: Frame, current: Config, eval: ConfigEvaluation, left: usize, expired: bool) -> (s: Search)
    ensures
        s@ == frame.search().on_start(current@, eval, left as nat, expired),
{
    if left > 0 && !expired {
        return Search { frame, stage: Stage::DrawProbe { current, eval, left } };
    }
    let state = RunState::new(current.clone(), eval, frame.n_runs);
    let descent = Descent::begin(current, eval, expired);
    on_descent(frame, state, descent, true, false, expired)
}

fn on_restart(frame: Frame, state: RunState, promoted: bool, reason: RestartReason, expired: bool) -> (s: Search)
    ensures
        s@ == frame.search().on_restart(state@, promoted, reason, expired),
{
    Search {
        frame,
        stage: if expired {
            Stage::Finished { state }
        } else {
            Stage::DrawRestart { state, promoted, reason }
        },
    }
}

fn on_survival(frame: Frame, state: RunState, promoted: bool, expired: bool) -> (s: Search)
    ensures
        s@ == frame.search().on_survival(state@, promoted, expired),
{
    let grows = match frame.options.approach {
        Approach::Focused => !promoted && next_n_runs(
            frame.n_runs,
            frame.options.fidelity_step,
            frame.n_total,
        ) > frame.n_runs,
        _ => false,
    };
    if grows {
        Search { frame, stage: Stage::GrowIncumbent { state } }
    } else {
        head(frame, state, expired)
    }
}

fn on_growth(frame: Frame, state: RunState, incumbent: ConfigEvaluation, home: ConfigEvaluation, expired: bool) -> (s:
    Search)
    ensures
        s@ == frame.search().on_growth(state@, incumbent, home, expired),
{
    let n_runs: usize = next_n_runs(frame.n_runs, frame.options.fidelity_step, frame.n_total);
    let mut state = state;
    state.raise_fidelity(incumbent, home, n_runs);
    head(
        Frame { options: frame.options, n_total: frame.n_total, n_runs, initial: frame.initial },
        state,
        expired,
    )
}

/// Go on after the incumbent was measured on more instances, where
/// `home_is_incumbent` says whether the home base is the same configuration.
pub fn on_incumbent_measured(
    frame: Frame,
    state: RunState,
    eval: ConfigEvaluation,
    home_is_incumbent: bool,
    expired: bool,
) -> (s: Search)
    ensures
        s@ == frame.search().on_incumbent_measured(state@, eval, home_is_incumbent, expired),
{
    if !(eval.complete && eval.score.is_finite()) {
        return Search { frame, stage: Stage::Finished { state } };
    }
    if home_is_incumbent {
        on_growth(frame, state, eval, eval, expired)
    } else {
        Search { frame, stage: Stage::GrowHomeBase { state, incumbent_eval: eval } }
    }
}

impl Search {
    /// Whether an event answers what the search waits for, of the events that
    /// come from outside.
    pub fn is_awaited(&self, event: &SearchEvent, space: &ParamSpace) -> (r: bool)
        ensures
            r == self@.awaits(space, event@),
    {
        match (&self.stage, event) {
            (Stage::MeasureStart { .. }, SearchEvent::Evaluated { .. }) => true,
            (Stage::MeasureProbe { .. }, SearchEvent::Evaluated { .. }) => true,
            (Stage::MeasurePerturbed { .. }, SearchEvent::Evaluated { .. }) => true,
            (Stage::MeasureRestart { .. }, SearchEvent::Evaluated { .. }) => true,
            (Stage::GrowIncumbent { .. }, SearchEvent::Evaluated { .. }) => true,
            (Stage::GrowHomeBase { .. }, SearchEvent::Evaluated { .. }) => true,
            (Stage::Descend { descent, .. }, SearchEvent::RoundOver { winner, .. }) => {
                match (&descent.stage, winner) {
                    (DescentStage::Round(ns), Some((k, e))) => {
                        assert(assignments(ns@).len() == ns@.len());
                        *k < ns.len() && e.complete && dominates(
                            e.score,
                            self.frame.n_runs,
                            descent.eval.score,
                            self.frame.n_runs,
                            &self.frame.options,
                        )
                    },
                    (DescentStage::Round(_), None) => true,
                    _ => false,
                }
            },
            (Stage::Judge { .. }, SearchEvent::Ceiling { .. }) => true,
            (Stage::FlipCoin { .. }, SearchEvent::Coin { .. }) => true,
            _ => false,
        }
    }

    /// What the search wants done.
    pub fn action(&self) -> (a: Action<'_>)
        ensures
            a@ == self@.request(),
    {
        let n_runs: usize = self.frame.n_runs;
        match &self.stage {
            Stage::MeasureStart { start } => Action::Evaluate {
                config: start,
                n_runs,
                bound: None,
                incumbent_checkpoint: None,
            },
            Stage::MeasureProbe { eval, probe, .. } => Action::Evaluate {
                config: probe,
                n_runs,
                bound: Some(eval.score),
                incumbent_checkpoint: eval.checkpoint,
            },
            Stage::Descend { state, descent, .. } => match &descent.stage {
                DescentStage::Round(ns) => Action::RunRound {
                    current: &descent.config,
                    current_eval: descent.eval,
                    neighbours: ns,
                    n_runs,
                    incumbent_score: state.incumbent_score,
                    incumbent_checkpoint: state.incumbent_checkpoint,
                },
                _ => Action::Draw,
            },
            Stage::MeasurePerturbed { state, config } => Action::Evaluate {
                config,
                n_runs,
                bound: Some(state.incumbent_score),
                incumbent_checkpoint: state.incumbent_checkpoint,
            },
            Stage::Judge { state, .. } => Action::FormCeiling {
                incumbent_score: state.incumbent_score,
            },
            Stage::FlipCoin { .. } => Action::FlipCoin,
            Stage::MeasureRestart { state, config, .. } => Action::Evaluate {
                config,
                n_runs,
                bound: Some(state.incumbent_score),
                incumbent_checkpoint: state.incumbent_checkpoint,
            },
            Stage::GrowIncumbent { state } => Action::Evaluate {
                config: &state.incumbent,
                n_runs: next_n_runs(n_runs, self.frame.options.fidelity_step, self.frame.n_total),
                bound: None,
                incumbent_checkpoint: None,
            },
            Stage::GrowHomeBase { state, .. } => Action::Evaluate {
                config: &state.last_lm,
                n_runs: next_n_runs(n_runs, self.frame.options.fidelity_step, self.frame.n_total),
                bound: None,
                incumbent_checkpoint: None,
            },
            Stage::Finished { state } => Action::Done {
                incumbent: &state.incumbent,
                score: state.incumbent_score,
            },
            Stage::Stuck => Action::GiveUp,
            _ => Action::Draw,
        }
    }

    /// Incumbent, home base and counts, from the first descent on.
    pub fn state(&self) -> (r: Option<&RunState>)
        ensures
            match r {
                Some(s) => self@.stage.state() == Some(s@),
                None => self@.stage.state() is None,
            },
    {
        match &self.stage {
            Stage::Descend { state, .. } => Some(state),
            Stage::DrawPerturbed { state } => Some(state),
            Stage::MeasurePerturbed { state, .. } => Some(state),
            Stage::Judge { state, .. } => Some(state),
            Stage::FlipCoin { state, .. } => Some(state),
            Stage::DrawRestart { state, .. } => Some(state),
            Stage::MeasureRestart { state, .. } => Some(state),
            Stage::GrowIncumbent { state } => Some(state),
            Stage::GrowHomeBase { state, .. } => Some(state),
            Stage::Finished { state } => Some(state),
            _ => None,
        }
    }

    fn evaluated(self, eval: ConfigEvaluation, expired: bool, space: &ParamSpace) -> (s: Search)
        requires
            self@.stage matches StageView::MeasureProbe { left, .. } ==> left > 0,
        ensures
            s@ == self@.after_evaluation(space, eval, expired),
    {
        proof {
            reveal(SearchView::after_evaluation);
        }
        let frame = self.frame;
        match self.stage {
            Stage::MeasureStart { start } => on_start(frame, start, eval, frame.options.random_probes, expired),
            Stage::MeasureProbe { current, eval: current_eval, left, probe } => {
                if eval.complete && dominates(
                    eval.score,
                    frame.n_runs,
                    current_eval.score,
                    frame.n_runs,
                    &frame.options,
                ) {
                    let plain = ConfigEvaluation::complete(eval.score, frame.n_runs);
                    on_start(frame, probe, plain, left - 1, expired)
                } else {
                    on_start(frame, current, current_eval, left - 1, expired)
                }
            },
            Stage::MeasurePerturbed { state, config } => {
                if expired {
                    Search { frame, stage: Stage::Finished { state } }
                } else {
                    let descent = Descent::begin(config, eval, false);
                    on_descent(frame, state, descent, false, !eval.complete, false)
                }
            },
            Stage::MeasureRestart { state, promoted, reason: _, config } => {
                let mut state = state;
                state.set_home_base(config, eval, frame.n_runs);
                state.rejections = 0;
                on_survival(frame, state, promoted, expired)
            },
            Stage::GrowIncumbent { state } => {
                let home: u64 = hash_config(&space.active_config(&state.last_lm));
                let best: u64 = hash_config(&space.active_config(&state.incumbent));
                on_incumbent_measured(frame, state, eval, home == best, expired)
            },
            Stage::GrowHomeBase { state, incumbent_eval } => {
                if !(eval.complete && eval.score.is_finite()) {
                    return Search { frame, stage: Stage::Finished { state } };
                }
                on_growth(frame, state, incumbent_eval, eval, expired)
            },
            stage => Search { frame, stage },
        }
    }

    fn round_over(self, winner: Option<(usize, ConfigEvaluation)>, expired: bool) -> (s: Search)
        requires
            winner matches Some((k, e)) ==> (self@.stage matches StageView::Descend { descent, .. } && (
            descent.stage matches DescentStageView::Round(ns) && k < ns.len())),
        ensures
            s@ == self@.after_round(
                match winner {
                    Some((k, e)) => Some((k as nat, e)),
                    None => None,
                },
                expired,
            ),
    {
        proof {
            reveal(SearchView::after_round);
        }
        let frame = self.frame;
        match self.stage {
            Stage::Descend { state, descent, first, gated } => on_descent(
                frame,
                state,
                descent.round_over(winner, expired),
                first,
                gated,
                expired,
            ),
            stage => Search { frame, stage },
        }
    }

    fn ceiling_formed(self, ceiling: Measure, expired: bool) -> (s: Search)
        ensures
            s@ == self@.after_ceiling(ceiling, expired),
    {
        proof {
            reveal(SearchView::after_ceiling);
        }
        let frame = self.frame;
        match self.stage {
            Stage::Judge { state, new_lm, new_eval, promoted } => {
                let mut state = state;
                state.accept_or_reject_home_base(new_lm, new_eval, frame.n_runs, ceiling, &frame.options);
                if let Some(reason) = state.restart_reason(&frame.options, false) {
                    on_restart(frame, state, promoted, reason, expired)
                } else if Measure::zero().lt(frame.options.restart_probability) {
                    Search { frame, stage: Stage::FlipCoin { state, promoted } }
                } else {
                    on_survival(frame, state, promoted, expired)
                }
            },
            stage => Search { frame, stage },
        }
    }

    fn coin_tossed(self, heads: bool, expired: bool) -> (s: Search)
        requires
            self@.stage matches StageView::FlipCoin { state, .. } ==> !state.stagnates(
                self@.options,
            ) && (Measure { bits: 0 }).below(self@.options.restart_probability),
        ensures
            s@ == self@.after_coin(heads, expired),
    {
        proof {
            reveal(SearchView::after_coin);
        }
        let frame = self.frame;
        match self.stage {
            Stage::FlipCoin { state, promoted } => {
                if let Some(reason) = state.restart_reason(&frame.options, heads) {
                    on_restart(frame, state, promoted, reason, expired)
                } else {
                    on_survival(frame, state, promoted, expired)
                }
            },
            stage => Search { frame, stage },
        }
    }

    /// Go on after an answer, up to the next draw.
    pub fn answered(self, event: SearchEvent, space: &ParamSpace) -> (s: Search)
        requires
            self@.wf(space),
            self@.awaits(space, event@),
        ensures
            s@ == self@.next(space, event@),
    {
        match event {
            SearchEvent::Evaluated { eval, expired } => self.evaluated(eval, expired, space),
            SearchEvent::RoundOver { winner, expired } => self.round_over(winner, expired),
            SearchEvent::Ceiling { ceiling, expired } => self.ceiling_formed(ceiling, expired),
            SearchEvent::Coin { heads, expired } => self.coin_tossed(heads, expired),
        }
    }

    /// Whether the search waits for chance alone.
    pub fn is_drawing(&self) -> (r: bool)
        ensures
            r == self@.stage.drawing(),
    {
        match &self.stage {
            Stage::DrawStart => true,
            Stage::DrawProbe { .. } => true,
            Stage::DrawPerturbed { .. } => true,
            Stage::DrawRestart { .. } => true,
            Stage::Descend { descent, .. } => match &descent.stage {
                DescentStage::Arranging => true,
                _ => false,
            },
            _ => false,
        }
    }

    /// Go on with a configuration that was drawn; without one the search gives up.
    pub fn drawn(self, config: Option<Config>, space: &ParamSpace) -> (s: Search)
        requires
            self@.wf(space),
            self@.awaits(space, draw_event(config)),
        ensures
            s@ == self@.next(space, draw_event(config)),
    {
        proof {
            reveal(SearchView::after_draw);
        }
        let frame = self.frame;
        let m = match config {
            Some(m) => m,
            None => return Search { frame, stage: Stage::Stuck },
        };
        let stage = match self.stage {
            Stage::DrawStart => Stage::MeasureStart { start: m },
            Stage::DrawProbe { current, eval, left } => Stage::MeasureProbe {
                current,
                eval,
                left,
                probe: m,
            },
            Stage::DrawPerturbed { state } => Stage::MeasurePerturbed { state, config: m },
            Stage::DrawRestart { state, promoted, reason } => Stage::MeasureRestart {
                state,
                promoted,
                reason,
                config: m,
            },
            stage => stage,
        };
        Search { frame, stage }
    }

    /// Go on with the neighbours of the current configuration, in the order to try.
    pub fn arranged(self, ns: Vec<Config>, space: &ParamSpace) -> (s: Search)
        requires
            self@.wf(space),
            self@.awaits(space, EventView::Arranged(assignments(ns@))),
        ensures
            s@ == self@.next(space, EventView::Arranged(assignments(ns@))),
    {
        proof {
            reveal(SearchView::after_arrangement);
        }
        let frame = self.frame;
        match self.stage {
            Stage::Descend { state, descent, first, gated } => on_descent(
                frame,
                state,
                descent.ordered(ns),
                first,
                gated,
                false,
            ),
            stage => Search { frame, stage },
        }
    }

    /// Make one draw.
    fn draw_once(self, space: &ParamSpace, rng: &mut rand::rngs::ThreadRng) -> (r: (Search, Ghost<EventView>))
        requires
            self@.wf(space),
            self@.stage.drawing(),
        ensures
            by_chance(r.1@),
            self@.awaits(space, r.1@),
            r.0@ == self@.next(space, r.1@),
            r.0@.wf(space),
            r.0@.stage.draws_left() < self@.stage.draws_left(),
    {
        let ghost before = self@;
        let options = self.frame.options;
        let config: Option<Config> = match &self.stage {
            Stage::Descend { descent, .. } => {
                let ns = shuffled_neighbourhood(&descent.config, space, rng);
                let ghost event = EventView::Arranged(assignments(ns@));
                proof {
                    before.lemma_every_event_keeps_wf(space, event);
                    before.lemma_draw_is_used_up(space, event);
                }
                return (self.arranged(ns, space), Ghost(event));
            },
            Stage::DrawPerturbed { state } => match options.approach {
                Approach::Random => random_config(space, rng),
                _ => Some(perturbation(state.last_lm.clone(), options.perturbation_strength, space, rng)),
            },
            Stage::DrawRestart { state, .. } => match options.restart_target {
                RestartTarget::Incumbent => Some(
                    perturbation(state.incumbent.clone(), options.restart_strength, space, rng),
                ),
                RestartTarget::Random => random_config(space, rng),
            },
            _ => random_config(space, rng),
        };
        let ghost event = draw_event(config);
        proof {
            before.lemma_every_event_keeps_wf(space, event);
            before.lemma_draw_is_used_up(space, event);
        }
        (self.drawn(config, space), Ghost(event))
    }

    /// Make the draws that are due.
    pub fn settled(self, space: &ParamSpace, rng: &mut rand::rngs::ThreadRng) -> (s: Search)
        requires
            self@.wf(space),
        ensures
            s@.wf(space),
            !s@.stage.drawing(),
            self@.draws_to(space, s@, self@.stage.draws_left()),
            self@.progresses_to(s@),
        decreases self@.stage.draws_left(),
    {
        if !self.is_drawing() {
            return self;
        }
        let ghost before = self@;
        let (next, Ghost(event)) = self.draw_once(space, rng);
        let ghost middle = next@;
        let s = next.settled(space, rng);
        proof {
            middle.lemma_more_draws_suffice(
                space,
                s@,
                middle.stage.draws_left(),
                (before.stage.draws_left() - 1) as nat,
            );
            assert(before.awaits(space, event) && by_chance(event) && before.next(space, event).draws_to(
                space,
                s@,
                (before.stage.draws_left() - 1) as nat,
            ));
            before.lemma_draws_keep_wf(space, s@, before.stage.draws_left());
        }
        s
    }

    /// A search over `n_total` instances, from a given configuration or a random
    /// one.
    pub fn start(
        initial: Option<Config>,
        options: &IlsOptions,
        n_total: usize,
        space: &ParamSpace,
        rng: &mut rand::rngs::ThreadRng,
    ) -> (s: Search)
        ensures
            s@.wf(space),
            !s@.stage.drawing(),
            ({
                let first = SearchView::opened(assignment_of(initial), *options, n_total as nat);
                first.wf(space) && first.draws_to(space, s@, 1)
            }),
    {
        let n_runs: usize = match options.approach {
            Approach::Focused => initial_n_runs(options.initial_fidelity, n_total),
            _ => n_total,
        };
        let ghost given = assignment_of(initial);
        let frame = Frame { options: *options, n_total, n_runs, initial: Ghost(given) };
        let stage = match initial {
            Some(start) => Stage::MeasureStart { start },
            None => Stage::DrawStart,
        };
        let search = Search { frame, stage };
        let ghost first = SearchView::opened(given, *options, n_total as nat);
        assert(search@ == first);
        proof {
            SearchView::lemma_opened_is_wf(space, given, *options, n_total);
        }
        let s = search.settled(space, rng);
        proof {
            first.lemma_more_draws_suffice(space, s@, first.stage.draws_left(), 1);
        }
        s
    }

    /// Go on after an answer, with the draws that are then due.
    pub fn advance(self, event: SearchEvent, space: &ParamSpace, rng: &mut rand::rngs::ThreadRng) -> (s: Search)
        requires
            self@.wf(space),
            self@.awaits(space, event@),
        ensures
            s@.wf(space),
            !s@.stage.drawing(),
            self@.next(space, event@).draws_to(space, s@, 2),
            self@.progresses_to(s@),
    {
        let ghost before = self@;
        proof {
            before.lemma_every_event_keeps_wf(space, event@);
        }
        let next = self.answered(event, space);
        let ghost middle = next@;
        let s = next.settled(space, rng);
        proof {
            middle.lemma_more_draws_suffice(space, s@, middle.stage.draws_left(), 2);
            before.lemma_progress_is_transitive(middle, s@);
        }
        s
    }
}

impl SearchView {
    proof fn lemma_more_draws_suffice(self, space: &ParamSpace, later: SearchView, n: nat, m: nat)
        requires
            self.draws_to(space, later, n),
            n <= m,
        ensures
            self.draws_to(space, later, m),
        decreases n,
    {
        if self.stage.drawing() {
            let e = choose|e: EventView| #[trigger]
                self.awaits(space, e) && by_chance(e) && self.next(space, e).draws_to(
                    space,
                    later,
                    (n - 1) as nat,
                );
            self.next(space, e).lemma_more_draws_suffice(space, later, (n - 1) as nat, (m - 1) as nat);
            assert(self.awaits(space, e) && by_chance(e) && self.next(space, e).draws_to(
                space,
                later,
                (m - 1) as nat,
            ));
        }
    }

    proof fn lemma_progress_is_transitive(self, middle: SearchView, later: SearchView)
        requires
            self.progresses_to(middle),
            middle.progresses_to(later),
            middle.stage is Stuck ==> later.stage is Stuck,
        ensures
            self.progresses_to(later),
    {
    }
}

} // verus!
