//! Basic local search: first-improvement descent through neighbourhoods.
//!
//! All neighbours of the current configuration are evaluated at once; the first
//! one found to be better takes its place. The descent ends where no neighbour
//! is better, or when time is up.

use crate::config::{Assignment, Config};
use crate::ils::compare::{lemma_dominance_is_transitive, strictly_better};
use crate::ils::counters::one_more;
use crate::ils::evaluation::ConfigEvaluation;
use crate::ils::neighbourhood::{assignments, neighbours};
use crate::ils::Approach;
use crate::measure::Measure;
use crate::params::ParamSpace;
use crate::random::is_reordering;
use vstd::prelude::*;

verus! {

/// What a descent waits for.
pub enum DescentStage {
    /// The neighbours of the current configuration, in the order to try.
    Arranging,
    /// The outcome of the round on these neighbours.
    Round(Vec<Config>),
    /// Nothing: the current configuration is where the descent ends.
    Over,
}

/// A descent in progress.
pub struct Descent {
    pub config: Config,
    pub eval: ConfigEvaluation,
    /// How many moves were made.
    pub steps: usize,
    pub stage: DescentStage,
}

/// What a descent waits for.
pub enum DescentStageView {
    Arranging,
    Round(Seq<Assignment>),
    Over,
}

/// A descent in progress.
pub struct DescentView {
    pub config: Assignment,
    pub eval: ConfigEvaluation,
    pub steps: usize,
    pub stage: DescentStageView,
}

impl View for DescentStage {
    type V = DescentStageView;

    open spec fn view(&self) -> DescentStageView {
        match *self {
            DescentStage::Arranging => DescentStageView::Arranging,
            DescentStage::Round(v) => DescentStageView::Round(assignments(v@)),
            DescentStage::Over => DescentStageView::Over,
        }
    }
}

impl View for Descent {
    type V = DescentView;

    open spec fn view(&self) -> DescentView {
        DescentView {
            config: self.config@,
            eval: self.eval,
            steps: self.steps,
            stage: self.stage@,
        }
    }
}

/// Whether a neighbour may end a round: it is one of those tried, its results
/// are all in, and it is better than the current configuration.
pub open spec fn wins(
    neighbours: Seq<Assignment>,
    winner: (nat, ConfigEvaluation),
    approach: Approach,
    current_score: Measure,
    n_runs: nat,
) -> bool {
    &&& winner.0 < neighbours.len()
    &&& winner.1.complete
    &&& strictly_better(
        approach,
        winner.1.score,
        n_runs as int,
        current_score,
        n_runs as int,
    )
}

impl DescentView {
    /// A descent from a configuration with its evaluation. It is over at once if
    /// time is up.
    pub open spec fn begun(config: Assignment, eval: ConfigEvaluation, expired: bool) -> DescentView {
        DescentView {
            config,
            eval,
            steps: 0,
            stage: if expired {
                DescentStageView::Over
            } else {
                DescentStageView::Arranging
            },
        }
    }

    /// With the neighbours to try; the descent is over if there are none.
    pub open spec fn ordered(self, neighbours: Seq<Assignment>) -> DescentView {
        DescentView {
            stage: if neighbours.len() == 0 {
                DescentStageView::Over
            } else {
                DescentStageView::Round(neighbours)
            },
            ..self
        }
    }

    /// After a round: the winner becomes the current configuration; without one
    /// the descent is over.
    pub open spec fn after_round(self, winner: Option<(nat, ConfigEvaluation)>, expired: bool) -> DescentView {
        match (self.stage, winner) {
            (DescentStageView::Round(ns), Some((k, eval))) => DescentView {
                config: ns[k as int],
                eval,
                steps: one_more(self.steps),
                stage: if expired {
                    DescentStageView::Over
                } else {
                    DescentStageView::Arranging
                },
            },
            _ => DescentView { stage: DescentStageView::Over, ..self },
        }
    }

    /// The neighbours that are tried are those of the current configuration.
    pub open spec fn wf(self, space: &ParamSpace) -> bool {
        self.stage matches DescentStageView::Round(ns) ==> is_reordering(
            neighbours(space, self.config),
            ns,
        ) && ns.len() > 0
    }

    /// Every move of a descent is a strict improvement to a fully evaluated
    /// configuration, so the descent as a whole is one.
    pub proof fn lemma_moves_improve(
        self,
        winner: (nat, ConfigEvaluation),
        expired: bool,
        approach: Approach,
        n_runs: nat,
        start: Measure,
    )
        requires
            self.stage matches DescentStageView::Round(ns) && wins(
                ns,
                winner,
                approach,
                self.eval.score,
                n_runs,
            ),
            self.eval.score == start || strictly_better(
                approach,
                self.eval.score,
                n_runs as int,
                start,
                n_runs as int,
            ),
        ensures
            ({
                let after = self.after_round(Some(winner), expired);
                &&& after.eval.complete
                &&& strictly_better(
                    approach,
                    after.eval.score,
                    n_runs as int,
                    start,
                    n_runs as int,
                )
            }),
    {
        if self.eval.score != start {
            lemma_dominance_is_transitive(
                approach,
                winner.1.score,
                n_runs as int,
                self.eval.score,
                n_runs as int,
                start,
                n_runs as int,
            );
        }
    }

    /// After a sequence of moves, each to one of the neighbours tried.
    pub open spec fn after_moves(self, moves: Seq<(Seq<Assignment>, (nat, ConfigEvaluation))>) -> DescentView
        decreases moves.len(),
    {
        if moves.len() == 0 {
            self
        } else {
            self.after_moves(moves.drop_last()).ordered(moves.last().0).after_round(
                Some(moves.last().1),
                false,
            )
        }
    }

    /// Whether each move of a sequence is to a winner of its round.
    pub open spec fn all_win(
        self,
        moves: Seq<(Seq<Assignment>, (nat, ConfigEvaluation))>,
        approach: Approach,
        n_runs: nat,
    ) -> bool
        decreases moves.len(),
    {
        moves.len() > 0 ==> {
            let before = self.after_moves(moves.drop_last());
            &&& self.all_win(moves.drop_last(), approach, n_runs)
            &&& wins(moves.last().0, moves.last().1, approach, before.eval.score, n_runs)
        }
    }

    /// A descent that moved ends at a fully evaluated configuration that is
    /// strictly better than where it began.
    pub proof fn lemma_descent_improves(
        self,
        moves: Seq<(Seq<Assignment>, (nat, ConfigEvaluation))>,
        approach: Approach,
        n_runs: nat,
    )
        requires
            self.all_win(moves, approach, n_runs),
            moves.len() > 0,
        ensures
            self.after_moves(moves).eval.complete,
            strictly_better(
                approach,
                self.after_moves(moves).eval.score,
                n_runs as int,
                self.eval.score,
                n_runs as int,
            ),
        decreases moves.len(),
    {
        let shorter = moves.drop_last();
        let before = self.after_moves(shorter);
        if shorter.len() > 0 {
            self.lemma_descent_improves(shorter, approach, n_runs);
        }
        before.ordered(moves.last().0).lemma_moves_improve(
            moves.last().1,
            false,
            approach,
            n_runs,
            self.eval.score,
        );
    }

    /// A descent that made no move ends where it began.
    pub proof fn lemma_round_without_winner_ends_in_place(self, expired: bool)
        ensures
            self.after_round(None, expired).config == self.config,
            self.after_round(None, expired).eval == self.eval,
            self.after_round(None, expired).steps == self.steps,
            self.after_round(None, expired).stage is Over,
    {
    }
}

impl Descent {
    /// A descent from a configuration with its evaluation.
    pub fn begin(config: Config, eval: ConfigEvaluation, expired: bool) -> (d: Descent)
        ensures
            d@ == DescentView::begun(config@, eval, expired),
    {
        Descent {
            config,
            eval,
            steps: 0,
            stage: if expired {
                DescentStage::Over
            } else {
                DescentStage::Arranging
            },
        }
    }

    /// The neighbours of the current configuration, in the order to try.
    pub fn ordered(self, neighbours: Vec<Config>) -> (d: Descent)
        ensures
            d@ == self@.ordered(assignments(neighbours@)),
    {
        assert(assignments(neighbours@).len() == neighbours@.len());
        Descent {
            config: self.config,
            eval: self.eval,
            steps: self.steps,
            stage: if neighbours.len() == 0 {
                DescentStage::Over
            } else {
                DescentStage::Round(neighbours)
            },
        }
    }

    /// The round is over, with the winning neighbour if there is one.
    pub fn round_over(self, winner: Option<(usize, ConfigEvaluation)>, expired: bool) -> (d: Descent)
        requires
            winner matches Some((k, e)) ==> (self@.stage matches DescentStageView::Round(ns) && k < ns.len()),
        ensures
            d@ == self@.after_round(
                match winner {
                    Some((k, e)) => Some((k as nat, e)),
                    None => None,
                },
                expired,
            ),
    {
        match (self.stage, winner) {
            (DescentStage::Round(ns), Some((k, eval))) => {
                assert(assignments(ns@)[k as int] == ns@[k as int]@);
                Descent {
                    config: ns[k].clone(),
                    eval,
                    steps: if self.steps == usize::MAX {
                        0
                    } else {
                        self.steps + 1
                    },
                    stage: if expired {
                        DescentStage::Over
                    } else {
                        DescentStage::Arranging
                    },
                }
            },
            _ => Descent {
                config: self.config,
                eval: self.eval,
                steps: self.steps,
                stage: DescentStage::Over,
            },
        }
    }
}

} // verus!
