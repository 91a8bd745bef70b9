//! Iterated local search: initialization, basic local search, perturbation,
//! acceptance.

pub mod collect;
pub mod compare;
pub mod counters;
pub mod deepening;
pub mod descent;
pub mod evaluation;
pub mod futell;
pub mod history;
pub mod logging;
pub mod neighbourhood;
pub mod round;
pub mod search;
pub mod state;

use crate::measure::Measure;
use crate::random::{as_ints, is_permutation, is_reordering, rearranged, seeded_permutation, seeded_positions};
use crate::scenario::{OverallObjective, RunObjective};
use crate::DebugOptions;
use vstd::prelude::*;

verus! {

/// Variant of the search.
#[derive(Clone, Copy, Debug, PartialEq, Eq, Structural)]
pub enum Approach {
    Basic,
    Focused,
    Random,
}

/// Where a restart puts the home base.
#[derive(Clone, Copy, Debug, PartialEq, Eq, Structural)]
pub enum RestartTarget {
    /// Perturb the incumbent by `restart_strength` steps.
    Incumbent,
    /// Draw a uniformly random configuration.
    Random,
}

/// Why a restart fired.
#[derive(Clone, Copy, Debug, PartialEq, Eq, Structural)]
pub enum RestartReason {
    /// `restart_failures` consecutive local optima were rejected.
    Stagnation,
    /// The `restart_probability` coin came up.
    Probability,
}

impl RestartReason {
    /// The reason as it is reported.
    pub fn as_str(self) -> (s: &'static str)
        ensures
            s@ == match self {
                RestartReason::Stagnation => "stagnation"@,
                RestartReason::Probability => "probability"@,
            },
    {
        match self {
            RestartReason::Stagnation => "stagnation",
            RestartReason::Probability => "probability",
        }
    }
}

/// All tunable settings for a single run of the search.
#[derive(Clone, Copy, Debug)]
pub struct IlsOptions {
    pub approach: Approach,
    /// Max parallel worker threads.
    pub n_workers: usize,
    /// Number of neighbourhood steps for perturbation.
    pub perturbation_strength: usize,
    /// Probability of restarting the home base after a round; 0 disables it.
    pub restart_probability: Measure,
    /// Restart the home base after this many consecutive rejected local
    /// optima; 0 disables it. Both triggers may be enabled at once.
    pub restart_failures: usize,
    /// Where a restart puts the home base.
    pub restart_target: RestartTarget,
    /// Perturbation steps a restart applies to the incumbent.
    pub restart_strength: usize,
    /// Relative margin around the incumbent within which a worse local
    /// optimum is still accepted as the new home base; 0 disables it.
    pub acceptance_tolerance: Measure,
    /// How many random configurations to probe before the first descent,
    /// keeping any that beats the starting point.
    pub random_probes: usize,
    /// Initial number of instances used to evaluate each configuration.
    pub initial_fidelity: usize,
    /// Number of instances added when the focused search increases fidelity.
    pub fidelity_step: usize,
    /// Adaptive capping multiplier.
    pub bound_multiplier: Measure,
    /// Enable adaptive capping.
    pub pruning: bool,
    /// Wall-clock budget for the whole run in seconds.
    pub tuner_timeout: Measure,
    pub run_obj: RunObjective,
    pub overall_obj: OverallObjective,
    /// Shuffle the instances once, deterministically, before dispatch.
    pub instance_shuffle: bool,
    /// Seed for `instance_shuffle`.
    pub instance_shuffle_seed: u64,
    /// Early rejection of neighbours at a checkpoint.
    pub future_telling: bool,
    /// Checkpoint horizon, as a multiple of the cutoff time.
    pub future_telling_checkpoint: Measure,
    /// Virtual worker count for the checkpoint simulation.
    pub future_telling_cores: usize,
    /// Relative rejection margin.
    pub future_telling_tolerance: Measure,
    /// Disable cache lookups; writes still happen.
    pub cache_disable: bool,
    pub debug: DebugOptions,
}

/// The lesser of two numbers.
pub open spec fn lesser(a: int, b: int) -> int {
    if a <= b {
        a
    } else {
        b
    }
}

/// The number of instances that a focused search starts with.
pub open spec fn first_fidelity(initial_fidelity: int, n_total: int) -> int {
    lesser(
        if initial_fidelity >= 1 {
            initial_fidelity
        } else {
            1
        },
        n_total,
    )
}

/// The number of instances after one increase.
pub open spec fn next_fidelity(current: int, fidelity_step: int, n_total: int) -> int {
    lesser(
        current + if fidelity_step >= 1 {
            fidelity_step
        } else {
            1
        },
        n_total,
    )
}

/// A focused search starts with the wanted number of instances, at least one and
/// no more than there are.
pub proof fn lemma_first_fidelity_is_the_wanted_one(wanted: int, n_total: int)
    requires
        wanted >= 0,
        n_total >= 0,
    ensures
        1 <= wanted <= n_total ==> first_fidelity(wanted, n_total) == wanted,
        wanted == 0 && n_total >= 1 ==> first_fidelity(wanted, n_total) == 1,
        wanted >= n_total ==> first_fidelity(wanted, n_total) == n_total || n_total == 0,
        0 <= first_fidelity(wanted, n_total) <= n_total,
        n_total > 0 ==> first_fidelity(wanted, n_total) > 0,
{
}

/// Every increase is by the wanted step, or one if that is none, up to all
/// instances; so it is strict until all are reached, and then there is none.
pub proof fn lemma_fidelity_grows_to_all(current: int, step: int, n_total: int)
    requires
        0 <= current <= n_total,
        step >= 0,
    ensures
        current == n_total ==> next_fidelity(current, step, n_total) == n_total,
        current < n_total ==> current < next_fidelity(current, step, n_total) <= n_total,
        step > 0 && current + step <= n_total ==> next_fidelity(current, step, n_total) == current + step,
        current + step > n_total ==> next_fidelity(current, step, n_total) == n_total,
        step == 0 && current < n_total ==> next_fidelity(current, step, n_total) == current + 1,
{
}

/// The number of instances that a focused search starts with: at least one, as
/// far as there are any.
pub fn initial_n_runs(initial_fidelity: usize, n_total: usize) -> (n: usize)
    ensures
        n == first_fidelity(initial_fidelity as int, n_total as int),
{
    let wanted: usize = if initial_fidelity >= 1 {
        initial_fidelity
    } else {
        1
    };
    if wanted <= n_total {
        wanted
    } else {
        n_total
    }
}

/// The number of instances after one increase: by at least one, up to all.
pub fn next_n_runs(current: usize, fidelity_step: usize, n_total: usize) -> (n: usize)
    ensures
        n == next_fidelity(current as int, fidelity_step as int, n_total as int),
{
    let step: usize = if fidelity_step >= 1 {
        fidelity_step
    } else {
        1
    };
    if current > n_total || step > n_total - current {
        n_total
    } else {
        current + step
    }
}

/// Instances, each an id and a path, as mathematical values.
pub open spec fn instance_views(instances: Seq<(i64, String)>) -> Seq<(i64, Seq<char>)> {
    instances.map_values(|p: (i64, String)| (p.0, p.1@))
}

/// Instances in the order that a permutation of their positions gives. No
/// instance is lost, doubled or changed; only their order is.
pub fn arrange_instances(instances: &Vec<(i64, String)>, order: &Vec<usize>) -> (r: Vec<(i64, String)>)
    requires
        is_permutation(as_ints(order@), instances@.len() as int),
    ensures
        instance_views(r@) == rearranged(instance_views(instances@), as_ints(order@)),
        is_reordering(instance_views(instances@), instance_views(r@)),
{
    let ghost p = as_ints(order@);
    let ghost all = instance_views(instances@);
    let mut out: Vec<(i64, String)> = Vec::new();
    assert(instance_views(out@) =~= rearranged(all, p).take(0));
    for i in 0..order.len()
        invariant
            p == as_ints(order@),
            all == instance_views(instances@),
            is_permutation(p, instances@.len() as int),
            instance_views(out@) == rearranged(all, p).take(i as int),
    {
        assert(p[i as int] == order@[i as int]);
        let k: usize = order[i];
        let ghost prev = instance_views(out@);
        out.push((instances[k].0, instances[k].1.clone()));
        assert(instance_views(out@) =~= prev.push(all[k as int]));
        assert(instance_views(out@) =~= rearranged(all, p).take(i + 1));
    }
    assert(instance_views(out@) =~= rearranged(all, p));
    assert(is_permutation(p, all.len() as int));
    out
}

/// Shuffle `instances`, deterministic on `seed`.
pub fn shuffle_instances(instances: &Vec<(i64, String)>, seed: u64) -> (r: Vec<(i64, String)>)
    ensures
        instance_views(r@) == rearranged(
            instance_views(instances@),
            seeded_positions(instances@.len(), seed),
        ),
        is_reordering(instance_views(instances@), instance_views(r@)),
{
    let order = seeded_permutation(instances.len(), seed);
    arrange_instances(instances, &order)
}

} // verus!
