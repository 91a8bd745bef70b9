use ramparils::config::Config;
use ramparils::eval::{DispatchEvent, TaskResult};
use ramparils::ils::collect::{CollectVerdict, SingleConfigCollector};
use ramparils::ils::counters::{self, Counters};
use ramparils::ils::deepening::{phase_count, phase_exponent, phase_size, Deepen, Deepening, Phase};
use ramparils::ils::descent::{Descent, DescentStage};
use ramparils::ils::evaluation::{
    evaluation_of_nothing, objective_value, Bounds, ConfigEvaluation, ScoreParts, Sums, Tally,
};
use ramparils::ils::round::{NeighbourRound, RoundVerdict};
use ramparils::ils::search::{Action, Search, SearchEvent};
use ramparils::ils::state::RunState;
use ramparils::ils::{Approach, IlsOptions, RestartReason, RestartTarget};
use ramparils::measure::Measure;
use ramparils::params::ParamSpace;
use ramparils::scenario::{OverallObjective, RunObjective};
use ramparils::DebugOptions;

fn m(x: f64) -> Measure {
    Measure { bits: x.to_bits() }
}

fn f(x: Measure) -> f64 {
    f64::from_bits(x.bits)
}

fn focused_options() -> IlsOptions {
    IlsOptions {
        approach: Approach::Focused,
        n_workers: 1,
        perturbation_strength: 4,
        restart_probability: m(0.0),
        restart_failures: 0,
        restart_target: RestartTarget::Incumbent,
        restart_strength: 8,
        acceptance_tolerance: m(0.0),
        random_probes: 0,
        initial_fidelity: 1,
        fidelity_step: 1,
        bound_multiplier: m(10.0),
        pruning: true,
        tuner_timeout: m(60.0),
        run_obj: RunObjective::Runtime,
        overall_obj: OverallObjective::Mean,
        instance_shuffle: true,
        instance_shuffle_seed: 0,
        future_telling: false,
        future_telling_checkpoint: m(1.0),
        future_telling_cores: 1,
        future_telling_tolerance: m(0.0),
        cache_disable: false,
        debug: DebugOptions::default(),
    }
}

fn cfg(pairs: &[(&str, &str)]) -> Config {
    let list: Vec<(String, String)> = pairs.iter().map(|(k, v)| (k.to_string(), v.to_string())).collect();
    Config::from_pairs(&list)
}

fn result(batch_id: u64, neighbor_id: usize, instance_id: i64, runtime: f64) -> TaskResult {
    TaskResult {
        batch_id,
        neighbor_id,
        instance_id,
        hash: 1,
        runtime: m(runtime),
        quality: m(0.0),
        status: "sat".to_string(),
        runhash: None,
        cacheable: true,
        cutoff: m(2.0),
    }
}

fn bounds(options: &IlsOptions, incumbent: Option<f64>, checkpoint: Option<f64>, n_instances: usize) -> Bounds {
    Bounds {
        incumbent_score: incumbent.map(m),
        budget: m(f(options.bound_multiplier) * incumbent.unwrap_or(0.0) * n_instances as f64),
        incumbent_checkpoint: checkpoint.map(m),
        ceiling: m(checkpoint.map_or(0.0, |c| c + f(options.future_telling_tolerance) * c.abs())),
    }
}

fn sums(tally: &Tally, options: &IlsOptions, r: &TaskResult) -> Sums {
    let (start, time_sum) = tally.tracker_sums(r.instance_id).map_or((0.0, 0.0), |(s, t)| (f(s), f(t)));
    Sums {
        partial: m(f(tally.partial) + f(objective_value(options, r))),
        finish: m(start + f(r.runtime)),
        time_sum: m(time_sum + f(r.runtime)),
    }
}

fn score_value(parts: ScoreParts) -> f64 {
    match parts {
        ScoreParts::Mean(v) => v.iter().map(|x| f(*x)).sum::<f64>() / v.len() as f64,
        ScoreParts::Middle(x) => f(x),
        ScoreParts::Between(a, b) => (f(a) + f(b)) / 2.0,
    }
}

fn collect_score(c: &SingleConfigCollector, options: &IlsOptions) -> Measure {
    c.score_parts(options).map_or(m(0.0), |p| m(score_value(p)))
}

fn collector(options: &IlsOptions, cutoff: f64, n_instances: usize) -> SingleConfigCollector {
    let horizon = cutoff * f(options.future_telling_checkpoint);
    SingleConfigCollector::new(options, m(horizon), m(cutoff), n_instances, 1, 0)
}

fn check_evaluation_marks_partial_cache_result_incomplete() {
    let mut options = focused_options();
    options.pruning = false;
    let mut counters = Counters::default();
    let mut c = collector(&options, 2.0, 2);
    let mut cached = result(1, 0, 1, 0.1);
    cached.cacheable = false;
    let s = sums(&c.tally, &options, &cached);
    let step = c.on_result(&cached, s, &options, &bounds(&options, None, None, 2), &mut counters);
    assert_eq!(step.verdict, CollectVerdict::Waiting);
    assert!(!step.store);
    // Time is up before the second instance finishes.
    let evaluation = c.finish(collect_score(&c, &options), &mut counters);
    assert!(!evaluation.complete);
    assert!((f(evaluation.score) - 0.1).abs() < 1e-9);
    assert_eq!(counters::get(&counters), (1, 1, 0));
}

#[test]
fn tests_evaluation_marks_partial_cache_result_incomplete() {
    check_evaluation_marks_partial_cache_result_incomplete();
}

#[test]
fn ils_evaluation_marks_partial_cache_result_incomplete() {
    check_evaluation_marks_partial_cache_result_incomplete();
}

fn check_evaluation_combines_runhash_via_xor() {
    let mut options = focused_options();
    options.pruning = false;
    let mut counters = Counters::default();
    let mut c = collector(&options, 2.0, 2);
    let mut last = CollectVerdict::Waiting;
    for id in 1..3 {
        let mut r = result(1, 0, id, 0.1);
        r.runhash = Some(0xff);
        let s = sums(&c.tally, &options, &r);
        let step = c.on_result(&r, s, &options, &bounds(&options, None, None, 2), &mut counters);
        assert!(step.store);
        last = step.verdict;
    }
    assert_eq!(last, CollectVerdict::Complete);
    let evaluation = c.finish(collect_score(&c, &options), &mut counters);

    assert!(evaluation.complete);
    assert_eq!(evaluation.runhash_n, 2);
    assert_eq!(evaluation.runhash, 0, "XOR of two identical runhashes must cancel to zero");
    assert_eq!(evaluation.runhash_suffix(2), " runhash=0000000000000000 (n=2/2)");
    assert_eq!(counters::get(&counters), (1, 0, 0));
}

#[test]
fn tests_evaluation_combines_runhash_via_xor() {
    check_evaluation_combines_runhash_via_xor();
}

#[test]
fn ils_evaluation_combines_runhash_via_xor() {
    check_evaluation_combines_runhash_via_xor();
}

#[test]
fn an_evaluation_without_results_scores_infinity() {
    let options = focused_options();
    let mut counters = Counters::default();
    let c = collector(&options, 2.0, 2);
    let evaluation = c.finish(m(0.0), &mut counters);
    assert_eq!(f(evaluation.score), f64::INFINITY);
    assert!(!evaluation.complete);
    assert_eq!(evaluation.n_done, 0);
}

#[test]
fn results_of_other_batches_are_stale() {
    let options = focused_options();
    let mut counters = Counters::default();
    let mut c = collector(&options, 2.0, 2);
    let b = bounds(&options, None, None, 2);
    for r in [result(2, 0, 1, 0.1), result(1, 3, 1, 0.1)] {
        let s = sums(&c.tally, &options, &r);
        let step = c.on_result(&r, s, &options, &b, &mut counters);
        assert_eq!(step.verdict, CollectVerdict::Stale);
        assert!(step.store, "a stale result is still worth storing");
    }
    assert_eq!(c.tally.runtimes.len(), 0);
    let mut unknown = result(1, 0, 1, 2.0);
    unknown.status = "UNKNOWN".to_string();
    let s = sums(&c.tally, &options, &unknown);
    let step = c.on_result(&unknown, s, &options, &b, &mut counters);
    assert!(!step.store);
    assert_eq!(step.verdict, CollectVerdict::Waiting);
}

#[test]
fn spending_the_budget_caps_an_evaluation() {
    let mut options = focused_options();
    options.bound_multiplier = m(1.0);
    let mut counters = Counters::default();
    let mut c = collector(&options, 10.0, 3);
    let b = bounds(&options, Some(1.0), None, 3);
    let r = result(1, 0, 1, 3.0);
    let s = sums(&c.tally, &options, &r);
    assert_eq!(c.on_result(&r, s, &options, &b, &mut counters).verdict, CollectVerdict::Waiting);
    let r = result(1, 0, 2, 0.5);
    let s = sums(&c.tally, &options, &r);
    assert_eq!(c.on_result(&r, s, &options, &b, &mut counters).verdict, CollectVerdict::Capped);
    let evaluation = c.finish(collect_score(&c, &options), &mut counters);
    assert!(!evaluation.complete);
    assert_eq!(evaluation.display("1.750000", 3), ">1.750000 (2/3)");
}

/// A worker that runs the instances of one configuration one after the other.
fn run_on_workers(
    options: &IlsOptions,
    cutoff: f64,
    n_instances: usize,
    n_workers: usize,
    runtime: f64,
    status: &str,
    checkpoint: Option<f64>,
) -> (ConfigEvaluation, CollectVerdict) {
    let mut counters = Counters::default();
    let mut c = collector(options, cutoff, n_instances);
    let b = bounds(options, None, checkpoint, n_instances);
    // The time at which each worker is free, and the instance that it runs.
    let mut free: Vec<f64> = vec![0.0; n_workers];
    let mut running: Vec<Option<(usize, f64)>> = vec![None; n_workers];
    let mut next = 0;
    let mut verdict = CollectVerdict::Waiting;
    while !c.is_complete() {
        for w in 0..n_workers {
            if running[w].is_none() && next < n_instances {
                let d = DispatchEvent { batch_id: 1, neighbor_id: 0, instance_id: next as i64, dispatch_time: m(free[w]) };
                let rel = c.tally.origin().map_or(0.0, |t| free[w] - f(t));
                c.record_dispatch(&d, m(rel));
                running[w] = Some((next, free[w] + 0.01 * next as f64));
                next += 1;
            }
        }
        let w = (0..n_workers)
            .filter(|w| running[*w].is_some())
            .min_by(|a, b| running[*a].unwrap().1.total_cmp(&running[*b].unwrap().1))
            .unwrap();
        let (id, end) = running[w].take().unwrap();
        free[w] = end;
        let mut r = result(1, 0, id as i64, runtime);
        r.status = status.to_string();
        let s = sums(&c.tally, options, &r);
        let step = c.on_result(&r, s, options, &b, &mut counters);
        verdict = step.verdict;
        if verdict == CollectVerdict::Rejected || verdict == CollectVerdict::Capped {
            break;
        }
    }
    let evaluation = c.finish(collect_score(&c, options), &mut counters);
    (evaluation, verdict)
}

fn check_future_telling_stops_evaluating_a_bad_config_before_full_completion() {
    let mut options = focused_options();
    options.future_telling = true;
    options.future_telling_checkpoint = m(0.15);
    options.future_telling_cores = 4;
    options.future_telling_tolerance = m(0.0);

    let (evaluation, verdict) = run_on_workers(&options, 1.0, 20, 1, 1.0, "Timeout", Some(5.0));
    assert_eq!(verdict, CollectVerdict::Rejected);
    assert!(!evaluation.complete, "a checkpoint-rejected config must not be reported as a real measurement");
    assert!(evaluation.n_done < 20);
}

#[test]
fn tests_future_telling_stops_evaluating_a_bad_config_before_full_completion() {
    check_future_telling_stops_evaluating_a_bad_config_before_full_completion();
}

#[test]
fn ils_future_telling_stops_evaluating_a_bad_config_before_full_completion() {
    check_future_telling_stops_evaluating_a_bad_config_before_full_completion();
}

fn check_future_telling_never_rejects_a_config_whose_checkpoint_never_matures() {
    let mut options = focused_options();
    options.future_telling = true;
    options.future_telling_checkpoint = m(1.0);
    options.future_telling_cores = 4;
    options.future_telling_tolerance = m(0.0);

    let (evaluation, verdict) = run_on_workers(&options, 1.0, 20, 4, 0.02, "sat", Some(0.0));
    assert_eq!(verdict, CollectVerdict::Complete);
    assert!(evaluation.complete);
    assert_eq!(evaluation.n_done, 20);
    assert!((f(evaluation.score) - 0.02).abs() < 1e-6);
}

#[test]
fn tests_future_telling_never_rejects_a_config_whose_checkpoint_never_matures() {
    check_future_telling_never_rejects_a_config_whose_checkpoint_never_matures();
}

#[test]
fn ils_future_telling_never_rejects_a_config_whose_checkpoint_never_matures() {
    check_future_telling_never_rejects_a_config_whose_checkpoint_never_matures();
}

/// Feeds results to a round until a neighbour wins or all have a verdict.
fn run_round(
    options: &IlsOptions,
    cutoff: f64,
    n_instances: usize,
    runtimes: &[f64],
    incumbent: f64,
    checkpoint: Option<f64>,
    current_score: f64,
) -> (Option<(usize, ConfigEvaluation)>, Vec<usize>, Counters) {
    let horizon = cutoff * f(options.future_telling_checkpoint);
    let mut round = NeighbourRound::new(options, m(horizon), m(cutoff), runtimes.len(), n_instances, 1);
    let b = bounds(options, Some(incumbent), checkpoint, n_instances);
    let mut counters = Counters::default();
    let mut fed = vec![0; runtimes.len()];
    for id in 0..n_instances {
        for (k, &runtime) in runtimes.iter().enumerate() {
            let r = result(1, k, id as i64, runtime);
            if !round.awaits(1, k) {
                continue;
            }
            fed[k] += 1;
            let s = sums(&round.tallies[k], options, &r);
            let step = round.on_result(&r, s, options, &b, &mut counters);
            if step.verdict == RoundVerdict::Complete {
                let score = score_value(round.score_parts(k, options).unwrap());
                if let Some(e) = round.judge(k, m(score), m(current_score), options) {
                    return (Some((k, e)), fed, counters);
                }
            }
        }
    }
    assert!(round.is_over());
    (None, fed, counters)
}

fn check_future_telling_never_lets_a_rejected_neighbour_win_a_round() {
    let mut options = focused_options();
    options.approach = Approach::Basic;
    options.pruning = true;
    options.bound_multiplier = m(10.0);
    options.future_telling = true;
    options.future_telling_checkpoint = m(0.15);
    options.future_telling_cores = 4;
    options.future_telling_tolerance = m(0.0);

    // The first neighbour times out on everything, the second is fast.
    let (winner, fed, counters) = run_round(&options, 1.0, 20, &[1.0, 0.02], 1.0, Some(5.0), 0.5);
    let (k, e) = winner.unwrap();
    assert_eq!(k, 1);
    assert!((f(e.score) - 0.02).abs() < 1e-6);
    assert!(e.complete);
    assert_eq!(e.n_done, 20);
    assert!(fed[0] < 20, "the bad neighbour was rejected at its checkpoint");
    assert_eq!(counters::get(&counters), (2, 1, 1));
}

#[test]
fn tests_future_telling_never_lets_a_rejected_neighbour_win_a_round() {
    check_future_telling_never_lets_a_rejected_neighbour_win_a_round();
}

#[test]
fn ils_future_telling_never_lets_a_rejected_neighbour_win_a_round() {
    check_future_telling_never_lets_a_rejected_neighbour_win_a_round();
}

fn check_few_instances_are_never_rejected_at_a_checkpoint() {
    let mut options = focused_options();
    options.approach = Approach::Basic;
    options.pruning = false;
    options.future_telling = true;
    options.future_telling_checkpoint = m(0.01);
    options.future_telling_cores = 10;
    let (winner, fed, counters) = run_round(&options, 1.0, 5, &[1.0], f64::INFINITY, Some(0.0), 0.5);
    assert!(winner.is_none());
    assert_eq!(fed, vec![5], "the bad neighbour must run to full completion");
    assert_eq!(counters::get(&counters), (1, 0, 0));
}

#[test]
fn tests_future_telling_gate_blocks_rejection_when_n_runs_does_not_exceed_virtual_cores() {
    check_few_instances_are_never_rejected_at_a_checkpoint();
}

#[test]
fn ils_future_telling_gate_blocks_rejection_when_n_runs_does_not_exceed_virtual_cores() {
    check_few_instances_are_never_rejected_at_a_checkpoint();
}

#[test]
fn a_round_caps_neighbours_one_by_one() {
    let mut options = focused_options();
    options.approach = Approach::Basic;
    options.bound_multiplier = m(1.0);
    let (winner, fed, counters) = run_round(&options, 10.0, 4, &[3.0, 1.5], 1.0, None, 1.0);
    assert!(winner.is_none());
    assert_eq!(fed, vec![2, 3]);
    assert_eq!(counters::get(&counters), (2, 2, 0));
}

#[test]
fn a_round_looks_at_the_clock_for_every_neighbour() {
    let mut options = focused_options();
    options.future_telling = true;
    options.future_telling_cores = 1;
    let mut round = NeighbourRound::new(&options, m(1.0), m(5.0), 2, 3, 7);
    let d = DispatchEvent { batch_id: 7, neighbor_id: 1, instance_id: 4, dispatch_time: m(100.0) };
    round.record_dispatch(&d, m(0.0));
    let stale = DispatchEvent { batch_id: 6, neighbor_id: 0, instance_id: 4, dispatch_time: m(100.0) };
    round.record_dispatch(&stale, m(0.0));
    round.poll_trackers(&vec![m(9.0), m(9.0)]);
    assert_eq!(round.tallies[0].checkpoint_score(), None);
    assert_eq!(round.tallies[1].checkpoint_score(), Some(m(3.0)));
}

#[test]
fn descents_move_to_winners() {
    let start = ConfigEvaluation::complete(m(5.0), 2);
    let d = Descent::begin(cfg(&[("x", "1")]), start, false);
    assert!(matches!(d.stage, DescentStage::Arranging));
    let d = d.ordered(vec![cfg(&[("x", "2")]), cfg(&[("x", "3")])]);
    let better = ConfigEvaluation::complete(m(4.0), 2);
    let d = d.round_over(Some((1, better)), false);
    assert_eq!(d.config, cfg(&[("x", "3")]));
    assert_eq!(d.steps, 1);
    let d = d.ordered(vec![cfg(&[("x", "2")])]).round_over(None, false);
    assert!(matches!(d.stage, DescentStage::Over));
    assert_eq!(d.eval, better);
    assert!(matches!(Descent::begin(cfg(&[]), start, true).stage, DescentStage::Over));
    assert!(matches!(Descent::begin(cfg(&[]), start, false).ordered(vec![]).stage, DescentStage::Over));
}

#[test]
fn incomplete_evaluations_replace_nothing() {
    let options = focused_options();
    let a = cfg(&[("x", "1")]);
    let b = cfg(&[("x", "2")]);
    let mut state = RunState::new(a.clone(), ConfigEvaluation::complete(m(5.0), 2), 2);
    let mut partial = ConfigEvaluation::complete(m(0.1), 2);
    partial.complete = false;
    assert!(!state.try_promote_incumbent(&b, &partial, 2, &options));
    state.set_home_base(b.clone(), partial, 2);
    assert!(!state.accept_or_reject_home_base(b.clone(), partial, 2, m(5.0), &options));
    assert_eq!(state.incumbent, a);
    assert_eq!(state.last_lm, a);
    assert_eq!(state.rejections, 1);

    let full = ConfigEvaluation::complete(m(0.1), 2);
    assert!(state.try_promote_incumbent(&b, &full, 2, &options));
    assert!(state.accept_or_reject_home_base(b.clone(), full, 2, m(5.0), &options));
    assert_eq!(state.incumbent, b);
    assert_eq!(state.rejections, 0);
    assert_eq!(state.n_incumbents, 1);
}

#[test]
fn restarts_fire_for_either_reason() {
    let mut options = focused_options();
    let mut state = RunState::new(cfg(&[]), ConfigEvaluation::complete(m(5.0), 2), 2);
    assert_eq!(state.restart_reason(&options, true), None);
    options.restart_probability = m(0.5);
    assert_eq!(state.restart_reason(&options, true), Some(RestartReason::Probability));
    assert_eq!(state.restart_reason(&options, false), None);
    options.restart_failures = 2;
    state.rejections = 2;
    assert_eq!(state.restart_reason(&options, false), Some(RestartReason::Stagnation));
}

#[test]
fn rounds_are_counted_by_what_they_did() {
    let mut state = RunState::new(cfg(&[]), ConfigEvaluation::complete(m(5.0), 2), 2);
    state.record_round(3, true);
    state.record_round(0, true);
    state.record_round(0, false);
    assert_eq!((state.n_rounds, state.n_searched, state.n_gated), (3, 1, 1));
}

/// A world in which a configuration's score on the first `n` instances is known.
fn drive(
    mut search: Search,
    space: &ParamSpace,
    budget: usize,
    score: &dyn Fn(&Config, usize) -> f64,
) -> (Config, f64, Vec<usize>) {
    let mut rng = rand::thread_rng();
    let mut asked = 0;
    let mut sizes = vec![];
    loop {
        let expired = asked >= budget;
        let event = match search.action() {
            Action::Evaluate { config, n_runs, .. } => {
                asked += 1;
                sizes.push(n_runs);
                SearchEvent::Evaluated { eval: ConfigEvaluation::complete(m(score(config, n_runs)), n_runs), expired }
            }
            Action::RunRound { current_eval, neighbours, n_runs, .. } => {
                asked += 1;
                let winner = neighbours
                    .iter()
                    .position(|c| score(c, n_runs) < f(current_eval.score))
                    .map(|k| (k, ConfigEvaluation::complete(m(score(&neighbours[k], n_runs)), n_runs)));
                SearchEvent::RoundOver { winner, expired }
            }
            Action::FormCeiling { incumbent_score } => SearchEvent::Ceiling { ceiling: incumbent_score, expired },
            Action::FlipCoin => SearchEvent::Coin { heads: asked % 2 == 0, expired },
            Action::Done { incumbent, score } => return (incumbent.clone(), f(score), sizes),
            Action::Draw => panic!("draws are made by the search"),
            Action::GiveUp => panic!("there are legal configurations"),
        };
        assert!(search.is_awaited(&event, space));
        search = search.advance(event, space, &mut rng);
        if let Some(state) = search.state() {
            assert_eq!(state.incumbent_runs, search.frame.n_runs);
            assert_eq!(state.last_lm_runs, search.frame.n_runs);
        }
    }
}

fn grid() -> ParamSpace {
    ParamSpace::from_text("a {0, 1, 2, 3, 4} [0]\nb {0, 1, 2, 3, 4} [0]\n{a=4, b=4}\n").unwrap()
}

fn distance(config: &Config, _n: usize) -> f64 {
    let a: f64 = config.get("a").unwrap().parse().unwrap();
    let b: f64 = config.get("b").unwrap().parse().unwrap();
    (a - 3.0).abs() + (b - 2.0).abs()
}

#[test]
fn a_basic_search_finds_the_best_configuration() {
    let space = grid();
    let mut options = focused_options();
    options.approach = Approach::Basic;
    options.random_probes = 2;
    options.restart_probability = m(0.5);
    options.restart_failures = 2;
    let mut rng = rand::thread_rng();
    let search = Search::start(Some(space.default_config()), &options, 3, &space, &mut rng);
    let (incumbent, score, sizes) = drive(search, &space, 200, &distance);
    assert_eq!(score, 0.0);
    assert_eq!(incumbent, cfg(&[("a", "3"), ("b", "2")]));
    assert!(sizes.iter().all(|n| *n == 3), "a basic search always looks at all instances");
}

#[test]
fn a_random_search_keeps_to_legal_configurations() {
    let space = grid();
    let mut options = focused_options();
    options.approach = Approach::Random;
    let mut rng = rand::thread_rng();
    let search = Search::start(None, &options, 2, &space, &mut rng);
    let legal = |config: &Config, n: usize| {
        assert!(space.is_legal(config));
        distance(config, n)
    };
    let (incumbent, score, _) = drive(search, &space, 100, &legal);
    assert!(space.is_legal(&incumbent));
    assert_eq!(score, distance(&incumbent, 2));
}

#[test]
fn a_focused_search_measures_both_retained_configurations_anew() {
    let space = grid();
    let mut options = focused_options();
    options.initial_fidelity = 2;
    options.fidelity_step = 2;
    let mut rng = rand::thread_rng();
    let search = Search::start(Some(space.default_config()), &options, 20, &space, &mut rng);
    // Every configuration has one score, which grows with the number of instances.
    let prefix_mean = |_: &Config, n: usize| (1..=n).map(|i| i as f64 / 100.0).sum::<f64>() / n as f64;
    let (_, score, sizes) = drive(search, &space, 400, &prefix_mean);
    assert_eq!(sizes[0], 2);
    assert!(sizes.windows(2).all(|w| w[0] <= w[1]), "the number of instances never decreases");
    assert_eq!(*sizes.iter().max().unwrap(), 20);
    assert!((score - prefix_mean(&cfg(&[]), 20)).abs() < 1e-9);
}

#[test]
fn a_basic_search_is_no_worse_than_its_start() {
    let space = grid();
    let mut options = focused_options();
    options.approach = Approach::Basic;
    options.random_probes = 3;
    for budget in 0..12 {
        let mut rng = rand::thread_rng();
        let search = Search::start(Some(cfg(&[("a", "3"), ("b", "3")])), &options, 2, &space, &mut rng);
        let (incumbent, score, _) = drive(search, &space, budget, &distance);
        assert!(score <= 1.0);
        assert_eq!(score, distance(&incumbent, 2));
    }
}

#[test]
fn a_search_without_random_draws_needs_no_values() {
    let mut space = ParamSpace::from_text("x {1, 2} [1]\ny {a} [a]\n").unwrap();
    space.params[1].domain.clear();
    let mut options = focused_options();
    options.approach = Approach::Basic;
    let mut rng = rand::thread_rng();
    let search = Search::start(Some(cfg(&[("x", "1"), ("y", "a")])), &options, 1, &space, &mut rng);
    let score = |c: &Config, _: usize| if c.get("x").map(String::as_str) == Some("2") { 1.0 } else { 2.0 };
    let (found, best, _) = drive(search, &space, 20, &score);
    assert_eq!(found, cfg(&[("x", "2"), ("y", "a")]));
    assert_eq!(best, 1.0);
    let search = Search::start(None, &options, 1, &space, &mut rng);
    assert!(matches!(search.action(), Action::GiveUp));
}

#[test]
fn a_search_keeps_the_names_that_it_was_given() {
    let space = ParamSpace::from_text("x {1, 2, 3} [1]\ny {a, b} [a] | x in {2, 3}\n").unwrap();
    let mut options = focused_options();
    options.approach = Approach::Basic;
    let mut rng = rand::thread_rng();
    let given = cfg(&[("x", "1"), ("y", "odd")]);
    let search = Search::start(Some(given), &options, 2, &space, &mut rng);
    let score = |c: &Config, _: usize| match c.get("x").map(String::as_str) {
        Some("3") => 1.0,
        Some("2") => 2.0,
        _ => 3.0,
    };
    let (found, _, _) = drive(search, &space, 60, &score);
    assert_eq!(found.get("x").map(String::as_str), Some("3"));
    assert!(["odd", "a", "b"].contains(&found.get("y").unwrap().as_str()));
    assert_eq!(found, cfg(&[("x", "3"), ("y", found.get("y").unwrap().as_str())]));
}

#[test]
fn an_expired_search_returns_its_starting_point() {
    let space = grid();
    let options = focused_options();
    let mut rng = rand::thread_rng();
    let search = Search::start(Some(space.default_config()), &options, 5, &space, &mut rng);
    let (incumbent, score, sizes) = drive(search, &space, 0, &distance);
    assert_eq!(incumbent, space.default_config());
    assert_eq!(score, 5.0);
    assert_eq!(sizes, vec![1]);
}

#[test]
fn an_incomplete_growth_ends_a_focused_search() {
    let space = grid();
    let options = focused_options();
    let mut rng = rand::thread_rng();
    let mut search = Search::start(Some(space.default_config()), &options, 5, &space, &mut rng);
    let mut evaluations = 0;
    loop {
        let event = match search.action() {
            Action::Evaluate { n_runs, bound, .. } => {
                evaluations += 1;
                let mut eval = ConfigEvaluation::complete(m(1.0), n_runs);
                // Only the starting point and growth are measured without a bound.
                eval.complete = evaluations == 1 || bound.is_some();
                SearchEvent::Evaluated { eval, expired: false }
            }
            Action::RunRound { .. } => SearchEvent::RoundOver { winner: None, expired: false },
            Action::FormCeiling { incumbent_score } => SearchEvent::Ceiling { ceiling: incumbent_score, expired: false },
            Action::Done { incumbent, score } => {
                assert_eq!(*incumbent, space.default_config());
                assert_eq!(f(score), 1.0);
                break;
            }
            _ => panic!("nothing else is asked for"),
        };
        search = search.advance(event, &space, &mut rng);
    }
    assert_eq!(evaluations, 3);
    assert_eq!(search.state().unwrap().incumbent_runs, 1);
}

#[test]
fn an_incomplete_probe_is_not_taken() {
    let space = grid();
    let mut options = focused_options();
    options.random_probes = 1;
    let mut rng = rand::thread_rng();
    let search = Search::start(Some(space.default_config()), &options, 5, &space, &mut rng);
    let eval = ConfigEvaluation::complete(m(5.0), 1);
    let search = search.advance(SearchEvent::Evaluated { eval, expired: false }, &space, &mut rng);
    match search.action() {
        Action::Evaluate { bound, .. } => assert_eq!(bound, Some(m(5.0))),
        _ => panic!("a probe is measured"),
    }
    let mut partial = ConfigEvaluation::complete(m(0.5), 1);
    partial.complete = false;
    let search = search.advance(SearchEvent::Evaluated { eval: partial, expired: false }, &space, &mut rng);
    let state = search.state().unwrap();
    assert_eq!(state.incumbent, space.default_config());
    assert_eq!(f(state.incumbent_score), 5.0);
}

#[test]
fn unexpected_answers_are_recognised() {
    let space = grid();
    let mut rng = rand::thread_rng();
    let search = Search::start(Some(space.default_config()), &focused_options(), 5, &space, &mut rng);
    let eval = ConfigEvaluation::complete(m(5.0), 1);
    assert!(search.is_awaited(&SearchEvent::Evaluated { eval, expired: false }, &space));
    assert!(!search.is_awaited(&SearchEvent::Coin { heads: true, expired: false }, &space));
    let search = search.advance(SearchEvent::Evaluated { eval, expired: false }, &space, &mut rng);
    let worse = ConfigEvaluation::complete(m(6.0), 1);
    assert!(!search.is_awaited(&SearchEvent::RoundOver { winner: Some((0, worse)), expired: false }, &space));
    let better = ConfigEvaluation::complete(m(4.0), 1);
    assert!(search.is_awaited(&SearchEvent::RoundOver { winner: Some((0, better)), expired: false }, &space));
    assert!(!search.is_awaited(&SearchEvent::RoundOver { winner: Some((99, better)), expired: false }, &space));
}

#[test]
fn phases_are_chained() {
    assert_eq!(phase_count(0), 1);
    assert_eq!(phase_count(3), 4);
    assert_eq!(phase_count(usize::MAX), 1);
    assert_eq!(phase_size(0, 8), 1);
    assert_eq!(phase_size(9, 8), 8);
    assert_eq!(phase_exponent(3, 0), 2);
    let schedule = vec![
        Phase { n: 1, cutoff: m(1.0), budget: m(2.0) },
        Phase { n: 2, cutoff: m(2.0), budget: m(4.0) },
    ];
    let mut d = Deepening::new(Some(cfg(&[("x", "1")])), schedule.clone());
    assert_eq!(d.next_budget(), Some(m(2.0)));
    assert_eq!(d.decide(false, m(2.0)), Deepen::Run { index: 0, phase: schedule[0] });
    d.finish_phase(cfg(&[("x", "2")]), m(0.5));
    assert_eq!(d.seed(), Some(cfg(&[("x", "2")])));
    assert_eq!(d.decide(false, m(0.0)), Deepen::Exhausted { index: 1 });
    assert_eq!(d.decide(true, m(1.0)), Deepen::Over);
    d.finish_phase(cfg(&[("x", "3")]), m(0.25));
    assert_eq!(d.decide(false, m(1.0)), Deepen::Over);
    assert_eq!(d.outcome(), Some((cfg(&[("x", "3")]), m(0.25))));
    assert_eq!(Deepening::new(None, vec![]).outcome(), None);
}

#[test]
fn counters_start_over() {
    let mut c = Counters::default();
    counters::eval(&mut c, false);
    counters::eval(&mut c, true);
    counters::future_telling_rejected(&mut c);
    assert_eq!(counters::get(&c), (2, 1, 1));
    counters::reset(&mut c);
    assert_eq!(counters::get(&c), (0, 0, 0));
}

#[test]
fn nothing_to_run_costs_nothing() {
    let e = evaluation_of_nothing();
    assert!(e.complete);
    assert_eq!(f(e.score), 0.0);
    assert_eq!(e.n_done, 0);
    assert_eq!(e.display("0.000000", 0), "0.000000");
    assert_eq!(e.runhash_suffix(0), "");
}
