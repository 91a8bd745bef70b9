//! Comparison of scores: dominance and acceptance. Lower is better.

use crate::config::Config;
use crate::ils::{Approach, IlsOptions};
use crate::measure::Measure;
use vstd::prelude::*;

verus! {

/// Whether a score measured on `a_runs` instances may be held against one
/// measured on `b_runs`: the focused search asks for at least as many.
pub open spec fn comparable(approach: Approach, a_runs: int, b_runs: int) -> bool {
    approach == Approach::Focused ==> a_runs >= b_runs
}

/// `a` is strictly better than `b`.
pub open spec fn strictly_better(
    approach: Approach,
    a_score: Measure,
    a_runs: int,
    b_score: Measure,
    b_runs: int,
) -> bool {
    comparable(approach, a_runs, b_runs) && a_score.below(b_score)
}

/// `a` is at least as good as `b`.
pub open spec fn at_least_as_good(
    approach: Approach,
    a_score: Measure,
    a_runs: int,
    b_score: Measure,
    b_runs: int,
) -> bool {
    comparable(approach, a_runs, b_runs) && a_score.at_most(b_score)
}

/// Whether a score lies within the margin around the incumbent that a positive
/// tolerance opens; `ceiling` is the incumbent's score and the margin.
pub open spec fn within_tolerance(
    tolerance: Measure,
    new_score: Measure,
    incumbent_score: Measure,
    ceiling: Measure,
) -> bool {
    &&& !tolerance.at_most(Measure { bits: 0 })
    &&& new_score.finite()
    &&& incumbent_score.finite()
    &&& new_score.at_most(ceiling)
}

/// Whether the new local optimum becomes the home base.
pub open spec fn accepts(
    options: IlsOptions,
    new_score: Measure,
    new_runs: int,
    last_score: Measure,
    last_runs: int,
    incumbent_score: Measure,
    ceiling: Measure,
) -> bool {
    ||| at_least_as_good(options.approach, new_score, new_runs, last_score, last_runs)
    ||| within_tolerance(options.acceptance_tolerance, new_score, incumbent_score, ceiling)
}

/// `a` dominates `b` when `a` is strictly better. The focused search also
/// requires at least as many runs. Ties do not count as improvement.
pub fn dominates(a_score: Measure, a_runs: usize, b_score: Measure, b_runs: usize, options: &IlsOptions) -> (r: bool)
    ensures
        r == strictly_better(options.approach, a_score, a_runs as int, b_score, b_runs as int),
{
    match options.approach {
        Approach::Basic | Approach::Random => a_score.lt(b_score),
        Approach::Focused => a_runs >= b_runs && a_score.lt(b_score),
    }
}

/// `a` is at least as good as `b`: as [`dominates`], with ties resolved in
/// favour of `a`.
pub fn weakly_dominates(
    a_score: Measure,
    a_runs: usize,
    b_score: Measure,
    b_runs: usize,
    options: &IlsOptions,
) -> (r: bool)
    ensures
        r == at_least_as_good(options.approach, a_score, a_runs as int, b_score, b_runs as int),
{
    match options.approach {
        Approach::Basic | Approach::Random => a_score.le(b_score),
        Approach::Focused => a_runs >= b_runs && a_score.le(b_score),
    }
}

/// Whether `new_score` is close enough to the incumbent to be accepted as the
/// home base despite being worse than the current one. `ceiling` is the
/// incumbent's score and the tolerated margin.
pub fn accepted_within_tolerance(
    new_score: Measure,
    incumbent_score: Measure,
    ceiling: Measure,
    options: &IlsOptions,
) -> (r: bool)
    ensures
        r == within_tolerance(options.acceptance_tolerance, new_score, incumbent_score, ceiling),
{
    if options.acceptance_tolerance.le(Measure::zero()) {
        return false;
    }
    if !new_score.is_finite() || !incumbent_score.is_finite() {
        return false;
    }
    new_score.le(ceiling)
}

/// Return the new local optimum if it is accepted, and the previous one
/// otherwise, with its score and whether the new one was taken.
pub fn acceptance_criterion(
    new: Config,
    new_score: Measure,
    new_runs: usize,
    last: Config,
    last_score: Measure,
    last_runs: usize,
    incumbent_score: Measure,
    ceiling: Measure,
    options: &IlsOptions,
) -> (r: (Config, Measure, bool))
    ensures
        r.2 == accepts(
            *options,
            new_score,
            new_runs as int,
            last_score,
            last_runs as int,
            incumbent_score,
            ceiling,
        ),
        r.2 ==> r.0@ == new@ && r.1 == new_score,
        !r.2 ==> r.0@ == last@ && r.1 == last_score,
{
    if weakly_dominates(new_score, new_runs, last_score, last_runs, options) {
        return (new, new_score, true);
    }
    if accepted_within_tolerance(new_score, incumbent_score, ceiling, options) {
        return (new, new_score, true);
    }
    (last, last_score, false)
}

/// Strict dominance orders measurements: nothing dominates itself, and no two
/// dominate each other.
pub proof fn lemma_dominance_is_strict(approach: Approach, a: Measure, a_runs: int, b: Measure, b_runs: int)
    ensures
        !strictly_better(approach, a, a_runs, a, a_runs),
        !(strictly_better(approach, a, a_runs, b, b_runs) && strictly_better(
            approach,
            b,
            b_runs,
            a,
            a_runs,
        )),
        strictly_better(approach, a, a_runs, b, b_runs) ==> at_least_as_good(
            approach,
            a,
            a_runs,
            b,
            b_runs,
        ),
{
}

/// Strict dominance is transitive.
pub proof fn lemma_dominance_is_transitive(
    approach: Approach,
    a: Measure,
    a_runs: int,
    b: Measure,
    b_runs: int,
    c: Measure,
    c_runs: int,
)
    requires
        strictly_better(approach, a, a_runs, b, b_runs),
        strictly_better(approach, b, b_runs, c, c_runs),
    ensures
        strictly_better(approach, a, a_runs, c, c_runs),
{
}

/// In a focused search a score from fewer instances wins no comparison, however
/// good it looks.
pub proof fn lemma_smaller_sample_never_wins(a: Measure, a_runs: int, b: Measure, b_runs: int)
    requires
        a_runs < b_runs,
    ensures
        !strictly_better(Approach::Focused, a, a_runs, b, b_runs),
        !at_least_as_good(Approach::Focused, a, a_runs, b, b_runs),
{
}

/// Without tolerance a local optimum is accepted exactly if it is at least as
/// good as the home base.
pub proof fn lemma_zero_tolerance_accepts_no_worse(
    options: IlsOptions,
    new_score: Measure,
    last_score: Measure,
    n_runs: int,
    incumbent_score: Measure,
    ceiling: Measure,
)
    requires
        options.acceptance_tolerance.at_most(Measure { bits: 0 }),
    ensures
        accepts(options, new_score, n_runs, last_score, n_runs, incumbent_score, ceiling)
            <==> new_score.at_most(last_score),
{
}

/// The margin does not drift: whatever the home base is, a worse local optimum
/// is accepted only up to the ceiling over the incumbent.
pub proof fn lemma_tolerance_is_anchored_at_the_incumbent(
    options: IlsOptions,
    new_score: Measure,
    last_score: Measure,
    n_runs: int,
    incumbent_score: Measure,
    ceiling: Measure,
)
    requires
        accepts(options, new_score, n_runs, last_score, n_runs, incumbent_score, ceiling),
        last_score.below(new_score),
    ensures
        new_score.at_most(ceiling),
{
}

/// Lower is better, and ties are no improvement: on the same instances one score
/// beats another exactly if it is less, and is at least as good exactly if it is
/// not greater, whatever the approach. In a basic or random search the numbers of
/// instances do not matter.
pub proof fn lemma_lower_is_better(approach: Approach, a: Measure, b: Measure, n_runs: int, a_runs: int, b_runs: int)
    ensures
        strictly_better(approach, a, n_runs, b, n_runs) <==> a.below(b),
        at_least_as_good(approach, a, n_runs, b, n_runs) <==> a.at_most(b),
        approach != Approach::Focused ==> (strictly_better(approach, a, a_runs, b, b_runs) <==> a.below(b)),
        approach != Approach::Focused ==> (at_least_as_good(approach, a, a_runs, b, b_runs) <==> a.at_most(
            b,
        )),
        a_runs >= b_runs ==> (strictly_better(Approach::Focused, a, a_runs, b, b_runs) <==> a.below(b)),
        a_runs >= b_runs ==> (at_least_as_good(Approach::Focused, a, a_runs, b, b_runs) <==> a.at_most(b)),
{
}

/// A local optimum that is no worse than the home base is accepted, and so is a
/// finite one within the margin that a positive tolerance opens over a finite
/// incumbent; no other is.
pub proof fn lemma_accepted_exactly_if_no_worse_or_tolerated(
    options: IlsOptions,
    new_score: Measure,
    last_score: Measure,
    n_runs: int,
    incumbent_score: Measure,
    ceiling: Measure,
)
    ensures
        new_score.at_most(last_score) ==> accepts(
            options,
            new_score,
            n_runs,
            last_score,
            n_runs,
            incumbent_score,
            ceiling,
        ),
        (Measure { bits: 0 }).below(options.acceptance_tolerance) && new_score.finite()
            && incumbent_score.finite() && new_score.at_most(ceiling) ==> accepts(
            options,
            new_score,
            n_runs,
            last_score,
            n_runs,
            incumbent_score,
            ceiling,
        ),
        !new_score.at_most(last_score) && (!new_score.at_most(ceiling) || !new_score.finite()
            || !incumbent_score.finite()) ==> !accepts(
            options,
            new_score,
            n_runs,
            last_score,
            n_runs,
            incumbent_score,
            ceiling,
        ),
{
}

/// What is accepted with one score is accepted with any better one.
pub proof fn lemma_acceptance_is_monotone(
    options: IlsOptions,
    better: Measure,
    new_score: Measure,
    last_score: Measure,
    n_runs: int,
    incumbent_score: Measure,
    ceiling: Measure,
)
    requires
        accepts(options, new_score, n_runs, last_score, n_runs, incumbent_score, ceiling),
        better.at_most(new_score),
        better.finite(),
    ensures
        accepts(options, better, n_runs, last_score, n_runs, incumbent_score, ceiling),
{
}

} // verus!
