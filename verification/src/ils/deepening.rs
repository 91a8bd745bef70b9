//! Iterative deepening: runs on growing numbers of instances with growing
//! cutoffs, each of which starts from the incumbent of the one before.

use crate::config::{Assignment, Config};
use crate::ils::lesser;
use crate::ils::search::assignment_of;
use crate::measure::Measure;
use vstd::prelude::*;

verus! {

/// One phase: how many instances it looks at, its cutoff, and by when it has to
/// be over, counted from the start of the first.
#[derive(Clone, Copy, Debug, PartialEq, Eq, Structural)]
pub struct Phase {
    pub n: usize,
    pub cutoff: Measure,
    pub budget: Measure,
}

/// The number of phases for a number of growths.
pub open spec fn phases_for(growths: usize) -> int {
    if growths < usize::MAX {
        growths + 1
    } else {
        1
    }
}

/// The number of instances of a phase that is to have `raw` of them.
pub open spec fn instances_for(raw: usize, n_total: usize) -> int {
    lesser(
        if raw >= 1 {
            raw as int
        } else {
            1
        },
        n_total as int,
    )
}

/// There is always a phase, and one more for every growth.
pub proof fn lemma_one_phase_more_for_every_growth(growths: usize)
    ensures
        phases_for(growths) >= 1,
        growths < usize::MAX ==> phases_for(growths) == growths + 1,
        growths == usize::MAX ==> phases_for(growths) == 1,
{
}

/// A phase has the number of instances that it is to have, but at least one and no
/// more than there are.
pub proof fn lemma_phases_have_the_wanted_size(raw: usize, n_total: usize)
    ensures
        1 <= raw <= n_total ==> instances_for(raw, n_total) == raw,
        raw > n_total ==> instances_for(raw, n_total) == n_total,
        raw == 0 && n_total > 0 ==> instances_for(raw, n_total) == 1,
        n_total == 0 ==> instances_for(raw, n_total) == 0,
{
}

/// The number of phases: one more than it takes to grow from the smallest to the
/// full extent. Where nothing grows, which the largest number stands for, there
/// is one phase.
pub fn phase_count(growths: usize) -> (n: usize)
    ensures
        n == if growths < usize::MAX {
            growths + 1
        } else {
            1
        },
        n == phases_for(growths),
{
    if growths < usize::MAX {
        growths + 1
    } else {
        1
    }
}

/// The number of instances of a phase: at least one, as far as there are any.
pub fn phase_size(raw: usize, n_total: usize) -> (n: usize)
    ensures
        n == lesser(
            if raw >= 1 {
                raw as int
            } else {
                1
            },
            n_total as int,
        ),
        n == instances_for(raw, n_total),
{
    let wanted: usize = if raw >= 1 {
        raw
    } else {
        1
    };
    if wanted <= n_total {
        wanted
    } else {
        n_total
    }
}

/// The exponent of a phase's shrinking factors: the last phase is not shrunk.
pub fn phase_exponent(count: usize, index: usize) -> (e: usize)
    requires
        index < count,
    ensures
        e == count - 1 - index,
{
    count - 1 - index
}

/// What comes next.
#[derive(Clone, Copy, Debug, PartialEq, Eq, Structural)]
pub enum Deepen {
    /// Run this phase.
    Run { index: usize, phase: Phase },
    /// The budget of this phase is spent: stop.
    Exhausted { index: usize },
    /// Stop.
    Over,
}

/// Iterative deepening in progress.
pub struct Deepening {
    pub schedule: Vec<Phase>,
    /// How many phases have been run.
    pub depth: usize,
    /// Where the next phase starts from.
    pub initial: Option<Config>,
    /// The incumbent of the last phase, with its score.
    pub best: Option<(Config, Measure)>,
}

/// Iterative deepening in progress.
pub struct DeepeningView {
    pub schedule: Seq<Phase>,
    pub depth: nat,
    pub initial: Option<Assignment>,
    pub best: Option<(Assignment, Measure)>,
}

impl View for Deepening {
    type V = DeepeningView;

    open spec fn view(&self) -> DeepeningView {
        DeepeningView {
            schedule: self.schedule@,
            depth: self.depth as nat,
            initial: assignment_of(self.initial),
            best: match self.best {
                Some((c, s)) => Some((c@, s)),
                None => None,
            },
        }
    }
}

impl DeepeningView {
    /// After a phase, the next starts from its incumbent.
    pub open spec fn wf(self) -> bool {
        &&& self.depth <= self.schedule.len()
        &&& self.depth == 0 <==> self.best is None
        &&& self.best matches Some(b) ==> self.initial == Some(b.0)
    }

    /// What comes next, with the time that is left to the next phase.
    pub open spec fn decision(self, interrupted: bool, remaining: Measure) -> Deepen {
        if interrupted || self.depth >= self.schedule.len() {
            Deepen::Over
        } else if remaining.at_most(Measure { bits: 0 }) {
            Deepen::Exhausted { index: self.depth as usize }
        } else {
            Deepen::Run { index: self.depth as usize, phase: self.schedule[self.depth as int] }
        }
    }

    /// After a phase with the given outcome.
    pub open spec fn deepened(self, incumbent: Assignment, score: Measure) -> DeepeningView {
        DeepeningView {
            depth: self.depth + 1,
            initial: Some(incumbent),
            best: Some((incumbent, score)),
            ..self
        }
    }

    /// The phases of the schedule are run in order, one after another, until time
    /// is up for the next, all have been run or there is an interruption.
    pub proof fn lemma_phases_run_in_order(
        self,
        interrupted: bool,
        remaining: Measure,
        incumbent: Assignment,
        score: Measure,
    )
        requires
            self.wf(),
            self.schedule.len() <= usize::MAX,
        ensures
            interrupted ==> self.decision(interrupted, remaining) == Deepen::Over,
            self.depth == self.schedule.len() ==> self.decision(interrupted, remaining) == Deepen::Over,
            !interrupted && self.depth < self.schedule.len() && (Measure { bits: 0 }).below(remaining)
                ==> self.decision(interrupted, remaining) == (Deepen::Run {
                index: self.depth as usize,
                phase: self.schedule[self.depth as int],
            }),
            !interrupted && self.depth < self.schedule.len() && remaining.at_most(Measure { bits: 0 })
                ==> self.decision(interrupted, remaining) == (Deepen::Exhausted { index: self.depth as usize }),
            self.deepened(incumbent, score).depth == self.depth + 1,
            self.deepened(incumbent, score).schedule == self.schedule,
    {
    }

    /// Each phase starts from the incumbent of the one before, and the outcome
    /// of the last phase is the outcome of all.
    pub proof fn lemma_phases_are_chained(self, incumbent: Assignment, score: Measure)
        requires
            self.wf(),
            self.depth < self.schedule.len(),
        ensures
            self.deepened(incumbent, score).wf(),
            self.deepened(incumbent, score).initial == Some(incumbent),
            self.deepened(incumbent, score).best == Some((incumbent, score)),
    {
    }
}

impl Deepening {
    /// Deepening along a schedule, from a given configuration or none.
    pub fn new(initial: Option<Config>, schedule: Vec<Phase>) -> (d: Deepening)
        ensures
            d@ == (DeepeningView {
                schedule: schedule@,
                depth: 0,
                initial: assignment_of(initial),
                best: None,
            }),
            d@.wf(),
    {
        Deepening { schedule, depth: 0, initial, best: None }
    }

    /// By when the next phase has to be over, if there is a next phase.
    pub fn next_budget(&self) -> (r: Option<Measure>)
        ensures
            r == if self@.depth < self@.schedule.len() {
                Some(self@.schedule[self@.depth as int].budget)
            } else {
                None
            },
    {
        if self.depth < self.schedule.len() {
            Some(self.schedule[self.depth].budget)
        } else {
            None
        }
    }

    /// What comes next. `remaining` is the budget of the next phase less the time
    /// that has passed.
    pub fn decide(&self, interrupted: bool, remaining: Measure) -> (r: Deepen)
        ensures
            r == self@.decision(interrupted, remaining),
    {
        if interrupted || self.depth >= self.schedule.len() {
            return Deepen::Over;
        }
        if remaining.le(Measure::zero()) {
            return Deepen::Exhausted { index: self.depth };
        }
        Deepen::Run { index: self.depth, phase: self.schedule[self.depth] }
    }

    /// Where the next phase starts from.
    pub fn seed(&self) -> (r: Option<Config>)
        ensures
            assignment_of(r) == self@.initial,
    {
        match &self.initial {
            Some(c) => Some(c.clone()),
            None => None,
        }
    }

    /// A phase is over, with its incumbent and score.
    pub fn finish_phase(&mut self, incumbent: Config, score: Measure)
        requires
            old(self)@.wf(),
            old(self)@.depth < old(self)@.schedule.len(),
        ensures
            final(self)@ == old(self)@.deepened(incumbent@, score),
            final(self)@.wf(),
    {
        assert(self.depth < self.schedule.len());
        self.depth = self.depth + 1;
        self.initial = Some(incumbent.clone());
        self.best = Some((incumbent, score));
    }

    /// The outcome: the incumbent of the last phase that ran, if any ran.
    pub fn outcome(self) -> (r: Option<(Config, Measure)>)
        requires
            self@.wf(),
        ensures
            match r {
                Some((c, s)) => self@.depth > 0 && self@.best == Some((c@, s)),
                None => self@.depth == 0,
            },
    {
        self.best
    }
}

} // verus!
