//! Per-run counters behind the summary at the end of a run.

use vstd::prelude::*;

verus! {

/// How many evaluations reached a verdict, and how.
#[derive(Clone, Copy, Debug, PartialEq, Eq, Structural)]
pub struct Counters {
    /// Evaluations that reached a verdict, completed or not.
    pub evals: usize,
    /// Those of them that did not complete.
    pub capped: usize,
    /// Those that a checkpoint rejected. Kept apart from `capped`: a checkpoint
    /// is a heuristic, a spent budget is a proof.
    pub future_telling_rejected: usize,
}

/// One more, round the end of the machine word.
pub open spec fn one_more(n: usize) -> usize {
    if n == usize::MAX {
        0
    } else {
        (n + 1) as usize
    }
}

/// One more, round the end of the machine word.
pub(crate) fn increment(n: usize) -> (r: usize)
    ensures
        r == one_more(n),
{
    if n == usize::MAX {
        0
    } else {
        n + 1
    }
}

impl Counters {
    /// The counters after an evaluation reached a verdict.
    pub open spec fn evaluated(self, capped: bool) -> Counters {
        Counters {
            evals: one_more(self.evals),
            capped: if capped {
                one_more(self.capped)
            } else {
                self.capped
            },
            ..self
        }
    }

    /// The counters after a rejection at a checkpoint.
    pub open spec fn rejected(self) -> Counters {
        Counters { future_telling_rejected: one_more(self.future_telling_rejected), ..self }
    }
}

impl Default for Counters {
    fn default() -> (c: Counters)
        ensures
            c == (Counters { evals: 0, capped: 0, future_telling_rejected: 0 }),
    {
        Counters { evals: 0, capped: 0, future_telling_rejected: 0 }
    }
}

/// Start over from zero.
pub fn reset(counters: &mut Counters)
    ensures
        *final(counters) == (Counters { evals: 0, capped: 0, future_telling_rejected: 0 }),
{
    *counters = Counters { evals: 0, capped: 0, future_telling_rejected: 0 };
}

/// One configuration evaluated to a verdict, completed or capped. A neighbour
/// cancelled because another one improved first reached no verdict and is not
/// counted.
pub fn eval(counters: &mut Counters, capped: bool)
    ensures
        *final(counters) == old(counters).evaluated(capped),
{
    counters.evals = increment(counters.evals);
    if capped {
        counters.capped = increment(counters.capped);
    }
}

/// A rejection at a checkpoint, counted beside the verdict that it is.
pub fn future_telling_rejected(counters: &mut Counters)
    ensures
        *final(counters) == old(counters).rejected(),
{
    counters.future_telling_rejected = increment(counters.future_telling_rejected);
}

/// The three counts: evaluations, capped ones, rejections at a checkpoint.
pub fn get(counters: &Counters) -> (r: (usize, usize, usize))
    ensures
        r == (counters.evals, counters.capped, counters.future_telling_rejected),
{
    (counters.evals, counters.capped, counters.future_telling_rejected)
}

/// An evaluation that reaches a verdict counts once, as capped only if it was; a
/// rejection at a checkpoint counts beside it.
pub proof fn lemma_verdicts_count_once(c: Counters, capped: bool)
    requires
        c.evals < usize::MAX,
        c.capped < usize::MAX,
        c.future_telling_rejected < usize::MAX,
    ensures
        c.evaluated(capped).evals == c.evals + 1,
        c.evaluated(true).capped == c.capped + 1,
        c.evaluated(false).capped == c.capped,
        c.evaluated(capped).future_telling_rejected == c.future_telling_rejected,
        c.rejected().future_telling_rejected == c.future_telling_rejected + 1,
        c.rejected().evals == c.evals,
        c.rejected().capped == c.capped,
{
}

} // verus!
