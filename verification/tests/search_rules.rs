use rand::seq::SliceRandom;
use rand::SeedableRng;
use ramparils::cache::hash_config;
use ramparils::config::Config;
use ramparils::ils::compare::{acceptance_criterion, accepted_within_tolerance, dominates, weakly_dominates};
use ramparils::ils::evaluation::{compute_score, ConfigEvaluation, ScoreParts};
use ramparils::ils::futell::{future_telling_active, future_telling_rejects};
use ramparils::ils::logging::{format_argument_changes, log_home_base, log_incumbent};
use ramparils::ils::neighbourhood::{
    arranged, config_of_choices, neighbourhood, perturbation, random_config, shuffled_neighbourhood,
    some_legal_config,
};
use ramparils::ils::{
    arrange_instances, initial_n_runs, next_n_runs, shuffle_instances, Approach, IlsOptions, RestartReason, RestartTarget,
};
use ramparils::measure::Measure;
use ramparils::params::ParamSpace;
use ramparils::scenario::{OverallObjective, RunObjective};
use ramparils::DebugOptions;

fn m(x: f64) -> Measure {
    Measure { bits: x.to_bits() }
}

fn f(x: Measure) -> f64 {
    f64::from_bits(x.bits)
}

fn space_of(text: &str) -> ParamSpace {
    ParamSpace::from_text(text).unwrap()
}

fn simple_space() -> ParamSpace {
    space_of("alpha {1, 2, 3} [2]\nbeta {a, b} [a]\n")
}

fn forbidden_space() -> ParamSpace {
    space_of("x {1, 2} [1]\ny {a, b} [a]\n{x=2, y=b}\n")
}

fn conditional_space() -> ParamSpace {
    space_of("mode {fast, slow} [fast]\nlimit {1, 2} [1] | mode in {slow}\n")
}

fn conditional_forbidden_space() -> ParamSpace {
    space_of("mode {fast, slow} [fast]\nlimit {1, 2} [1] | mode in {slow}\n{mode=fast, limit=2}\n")
}

fn shared_guard_forbidden_space() -> ParamSpace {
    space_of("mode {fast, slow} [fast]\na {1, 2} [1] | mode in {slow}\nb {1, 2} [1] | mode in {slow}\n{a=2, b=2}\n")
}

fn cfg(pairs: &[(&str, &str)]) -> Config {
    let list: Vec<(String, String)> = pairs.iter().map(|(k, v)| (k.to_string(), v.to_string())).collect();
    Config::from_pairs(&list)
}

fn value<'a>(config: &'a Config, name: &str) -> Option<&'a str> {
    config.get(name).map(String::as_str)
}

fn focused_options() -> IlsOptions {
    IlsOptions {
        approach: Approach::Focused,
        n_workers: 1,
        perturbation_strength: 4,
        restart_probability: m(0.0),
        restart_failures: 0,
        restart_target: RestartTarget::Incumbent,
        restart_strength: 8,
        acceptance_tolerance: m(0.0),
        random_probes: 0,
        initial_fidelity: 1,
        fidelity_step: 1,
        bound_multiplier: m(10.0),
        pruning: true,
        tuner_timeout: m(60.0),
        run_obj: RunObjective::Runtime,
        overall_obj: OverallObjective::Mean,
        instance_shuffle: true,
        instance_shuffle_seed: 0,
        future_telling: false,
        future_telling_checkpoint: m(1.0),
        future_telling_cores: 1,
        future_telling_tolerance: m(0.0),
        cache_disable: false,
        debug: DebugOptions::default(),
    }
}

fn with_approach(approach: Approach) -> IlsOptions {
    let mut options = focused_options();
    options.approach = approach;
    options
}

/// The incumbent's score and the tolerated margin.
fn ceiling(incumbent: f64, tolerance: f64) -> Measure {
    m(incumbent + tolerance * incumbent.abs())
}

fn accept(
    new: &Config,
    new_score: f64,
    old: &Config,
    old_score: f64,
    incumbent: f64,
    options: &IlsOptions,
) -> (Config, f64, bool) {
    let (config, score, took_new) = acceptance_criterion(
        new.clone(),
        m(new_score),
        8,
        old.clone(),
        m(old_score),
        8,
        m(incumbent),
        ceiling(incumbent, f(options.acceptance_tolerance)),
        options,
    );
    (config, f(score), took_new)
}

fn within(new_score: f64, incumbent: f64, options: &IlsOptions) -> bool {
    accepted_within_tolerance(
        m(new_score),
        m(incumbent),
        ceiling(incumbent, f(options.acceptance_tolerance)),
        options,
    )
}

fn score_value(parts: ScoreParts) -> f64 {
    match parts {
        ScoreParts::Mean(v) => v.iter().map(|x| f(*x)).sum::<f64>() / v.len() as f64,
        ScoreParts::Middle(x) => f(x),
        ScoreParts::Between(a, b) => (f(a) + f(b)) / 2.0,
    }
}

fn ms(values: &[f64]) -> Vec<Measure> {
    values.iter().map(|v| m(*v)).collect()
}

fn check_neighbourhood_size() {
    let space = simple_space();
    let config = cfg(&[("alpha", "2"), ("beta", "a")]);
    let n = neighbourhood(&config, &space);
    // alpha has 2 other values, beta has 1 other value
    assert_eq!(n.len(), 3);
    // All neighbours differ in exactly one param
    for nb in &n {
        let diffs: usize = nb.pairs().iter().filter(|(k, v)| config.get(k) != Some(v)).count();
        assert_eq!(diffs, 1);
    }
}

#[test]
fn tests_neighbourhood_size() {
    check_neighbourhood_size();
}

#[test]
fn ils_neighbourhood_size() {
    check_neighbourhood_size();
}

fn check_neighbourhood_skips_forbidden() {
    let space = forbidden_space();
    let config = cfg(&[("x", "2"), ("y", "a")]);
    let n = neighbourhood(&config, &space);
    assert_eq!(n.len(), 1);
    assert_eq!(value(&n[0], "x"), Some("1"));
}

#[test]
fn tests_neighbourhood_skips_forbidden() {
    check_neighbourhood_skips_forbidden();
}

#[test]
fn ils_neighbourhood_skips_forbidden() {
    check_neighbourhood_skips_forbidden();
}

fn check_evaluation_config_omits_inactive_parameters() {
    let space = conditional_space();
    let first = cfg(&[("mode", "fast"), ("limit", "1")]);
    let second = cfg(&[("mode", "fast"), ("limit", "2")]);

    let first_active = space.active_config(&first);
    let second_active = space.active_config(&second);

    assert_eq!(first_active, cfg(&[("mode", "fast")]));
    assert_eq!(first_active, second_active);
    assert_eq!(hash_config(&first_active), hash_config(&second_active));
}

#[test]
fn tests_evaluation_config_omits_inactive_parameters() {
    check_evaluation_config_omits_inactive_parameters();
}

#[test]
fn ils_evaluation_config_omits_inactive_parameters() {
    check_evaluation_config_omits_inactive_parameters();
}

fn check_argument_changes_include_conditional_activation() {
    let space = conditional_space();
    let current = cfg(&[("mode", "fast"), ("limit", "2")]);
    let next = cfg(&[("mode", "slow"), ("limit", "2")]);

    assert_eq!(
        format_argument_changes(&current, &next, &space),
        "limit: <inactive> -> 2; mode: fast -> slow"
    );
    assert_eq!(
        format_argument_changes(&next, &current, &space),
        "limit: 2 -> <inactive>; mode: slow -> fast"
    );
}

#[test]
fn tests_argument_changes_include_conditional_activation() {
    check_argument_changes_include_conditional_activation();
}

#[test]
fn ils_argument_changes_include_conditional_activation() {
    check_argument_changes_include_conditional_activation();
}

fn check_argument_changes_are_sorted() {
    let space = simple_space();
    let current = cfg(&[("alpha", "1"), ("beta", "b")]);
    let next = cfg(&[("alpha", "3"), ("beta", "a")]);

    assert_eq!(
        format_argument_changes(&current, &next, &space),
        "alpha: 1 -> 3; beta: b -> a"
    );
}

#[test]
fn tests_argument_changes_are_sorted() {
    check_argument_changes_are_sorted();
}

#[test]
fn ils_argument_changes_are_sorted() {
    check_argument_changes_are_sorted();
}

fn check_perturbation_changes_config() {
    let space = simple_space();
    let config = cfg(&[("alpha", "2"), ("beta", "a")]);
    let mut rng = rand::thread_rng();
    let perturbed = perturbation(config.clone(), 3, &space, &mut rng);
    assert_eq!(perturbed.len(), config.len());
}

#[test]
fn tests_perturbation_changes_config() {
    check_perturbation_changes_config();
}

#[test]
fn ils_perturbation_changes_config() {
    check_perturbation_changes_config();
}

fn check_dominates_basic() {
    let opts = with_approach(Approach::Basic);
    assert!(dominates(m(1.0), 5, m(2.0), 5, &opts)); // strictly better
    assert!(dominates(m(1.0), 1, m(2.0), 10, &opts)); // run counts are ignored
    assert!(!dominates(m(2.0), 5, m(1.0), 5, &opts)); // worse
    assert!(!dominates(m(1.0), 5, m(1.0), 5, &opts)); // tie
}

#[test]
fn tests_dominates_basic() {
    check_dominates_basic();
}

#[test]
fn ils_dominates_basic() {
    check_dominates_basic();
}

fn check_dominates_focused() {
    let opts = with_approach(Approach::Focused);
    assert!(dominates(m(1.0), 10, m(2.0), 5, &opts)); // better score, more runs
    assert!(!dominates(m(1.0), 3, m(2.0), 5, &opts)); // better score but fewer runs
    assert!(!dominates(m(1.0), 10, m(1.0), 5, &opts)); // tie
}

#[test]
fn tests_dominates_focused() {
    check_dominates_focused();
}

#[test]
fn ils_dominates_focused() {
    check_dominates_focused();
}

fn check_weakly_dominates_resolves_ties_for_the_challenger() {
    let opts = focused_options();
    assert!(weakly_dominates(m(1.0), 10, m(2.0), 5, &opts));
    assert!(weakly_dominates(m(1.0), 10, m(1.0), 5, &opts)); // tie
    assert!(!weakly_dominates(m(2.0), 10, m(1.0), 5, &opts));
    // The run-count guard still applies.
    assert!(!weakly_dominates(m(1.0), 3, m(1.0), 5, &opts));
    assert!(!weakly_dominates(m(1.0), 3, m(2.0), 5, &opts));
}

#[test]
fn tests_weakly_dominates_resolves_ties_for_the_challenger() {
    check_weakly_dominates_resolves_ties_for_the_challenger();
}

#[test]
fn ils_weakly_dominates_resolves_ties_for_the_challenger() {
    check_weakly_dominates_resolves_ties_for_the_challenger();
}

fn check_acceptance_tolerance_band_is_anchored_at_the_incumbent() {
    let mut opts = focused_options();
    opts.acceptance_tolerance = m(0.05);
    let old = cfg(&[("alpha", "1")]);
    let new = cfg(&[("alpha", "2")]);
    let incumbent_score = 2.0;

    // Worse than the home base but within 5% of the incumbent: accepted.
    let (config, score, took_new) = accept(&new, 2.05, &old, 2.0, incumbent_score, &opts);
    assert_eq!(config, new);
    assert!(took_new);
    assert!((score - 2.05).abs() < 1e-9);

    // Outside the band: rejected.
    let (config, score, took_new) = accept(&new, 2.2, &old, 2.0, incumbent_score, &opts);
    assert_eq!(config, old);
    assert!(!took_new);
    assert!((score - 2.0).abs() < 1e-9);

    // The band does not drift with the home base.
    let (config, _, took_new) = accept(&new, 2.15, &old, 2.1, incumbent_score, &opts);
    assert_eq!(config, old);
    assert!(!took_new);
}

#[test]
fn tests_acceptance_tolerance_band_is_anchored_at_the_incumbent() {
    check_acceptance_tolerance_band_is_anchored_at_the_incumbent();
}

#[test]
fn ils_acceptance_tolerance_band_is_anchored_at_the_incumbent() {
    check_acceptance_tolerance_band_is_anchored_at_the_incumbent();
}

fn check_acceptance_tolerance_zero_is_the_paramils_rule() {
    let opts = focused_options();
    assert_eq!(f(opts.acceptance_tolerance), 0.0);
    let old = cfg(&[("alpha", "1")]);
    let new = cfg(&[("alpha", "2")]);

    let (config, _, took_new) = accept(&new, 2.000_001, &old, 2.0, 2.0, &opts);
    assert_eq!(config, old, "any worse score is rejected when tolerance is 0");
    assert!(!took_new);
}

#[test]
fn tests_acceptance_tolerance_zero_is_the_paramils_rule() {
    check_acceptance_tolerance_zero_is_the_paramils_rule();
}

#[test]
fn ils_acceptance_tolerance_zero_is_the_paramils_rule() {
    check_acceptance_tolerance_zero_is_the_paramils_rule();
}

fn check_acceptance_tolerance_ignores_non_finite_scores() {
    let mut opts = focused_options();
    opts.acceptance_tolerance = m(0.05);
    assert!(!within(1.0, f64::INFINITY, &opts));
    assert!(!within(f64::INFINITY, 1.0, &opts));
}

#[test]
fn tests_acceptance_tolerance_ignores_non_finite_scores() {
    check_acceptance_tolerance_ignores_non_finite_scores();
}

#[test]
fn ils_acceptance_tolerance_ignores_non_finite_scores() {
    check_acceptance_tolerance_ignores_non_finite_scores();
}

fn check_acceptance_tolerance_handles_negative_scores() {
    let mut opts = focused_options();
    opts.acceptance_tolerance = m(0.10);
    // Incumbent -2.0; the band reaches up to -1.8.
    assert!(within(-1.9, -2.0, &opts));
    assert!(!within(-1.7, -2.0, &opts));
}

#[test]
fn tests_acceptance_tolerance_handles_negative_scores() {
    check_acceptance_tolerance_handles_negative_scores();
}

#[test]
fn ils_acceptance_tolerance_handles_negative_scores() {
    check_acceptance_tolerance_handles_negative_scores();
}

fn check_restart_from_incumbent_is_a_stronger_perturbation() {
    let space = simple_space();
    let incumbent = cfg(&[("alpha", "2"), ("beta", "a")]);
    let mut rng = rand::thread_rng();

    let mut moved = 0;
    for _ in 0..50 {
        let restarted = perturbation(incumbent.clone(), 8, &space, &mut rng);
        assert_eq!(restarted.len(), incumbent.len());
        for (name, value) in restarted.pairs() {
            let param = space.params.iter().find(|p| &p.name == name).unwrap();
            assert!(param.domain.contains(value), "{name}={value} left its domain");
        }
        if restarted != incumbent {
            moved += 1;
        }
    }
    assert!(moved > 0, "a strength-8 restart never moved in 50 attempts");
}

#[test]
fn tests_restart_from_incumbent_is_a_stronger_perturbation() {
    check_restart_from_incumbent_is_a_stronger_perturbation();
}

#[test]
fn ils_restart_from_incumbent_is_a_stronger_perturbation() {
    check_restart_from_incumbent_is_a_stronger_perturbation();
}

fn check_acceptance_takes_better_and_ties_but_not_worse() {
    let opts = focused_options();
    let old = cfg(&[("alpha", "1")]);
    let new = cfg(&[("alpha", "2")]);

    // Strictly better: accepted.
    let (config, score, took_new) = accept(&new, 1.0, &old, 2.0, 1.0, &opts);
    assert!(took_new);
    assert_eq!(config, new);
    assert!((score - 1.0).abs() < 1e-9);

    // Tie: accepted, so the home base can cross plateaus.
    let (config, score, took_new) = accept(&new, 2.0, &old, 2.0, 1.0, &opts);
    assert!(took_new);
    assert_eq!(config, new);
    assert!((score - 2.0).abs() < 1e-9);

    // Worse: rejected, home base unchanged.
    let (config, score, took_new) = accept(&new, 3.0, &old, 2.0, 1.0, &opts);
    assert!(!took_new);
    assert_eq!(config, old);
    assert!((score - 2.0).abs() < 1e-9);
}

#[test]
fn tests_acceptance_takes_better_and_ties_but_not_worse() {
    check_acceptance_takes_better_and_ties_but_not_worse();
}

#[test]
fn ils_acceptance_takes_better_and_ties_but_not_worse() {
    check_acceptance_takes_better_and_ties_but_not_worse();
}

fn check_stale_lower_fidelity_score_cannot_win_a_comparison() {
    let opts = focused_options();
    assert!(!dominates(m(0.111), 12, m(0.489), 568, &opts));
    assert!(!weakly_dominates(m(0.111), 12, m(0.489), 568, &opts));
    // Measured on the same prefix, the comparison resolves normally.
    assert!(dominates(m(0.474), 568, m(0.489), 568, &opts));
}

#[test]
fn tests_stale_lower_fidelity_score_cannot_win_a_comparison() {
    check_stale_lower_fidelity_score_cannot_win_a_comparison();
}

#[test]
fn ils_stale_lower_fidelity_score_cannot_win_a_comparison() {
    check_stale_lower_fidelity_score_cannot_win_a_comparison();
}

fn check_compute_score_mean_runtime() {
    let opts = with_approach(Approach::Basic);
    let score = score_value(compute_score(&ms(&[1.0, 2.0, 3.0]), &ms(&[0.0; 3]), &opts));
    assert!((score - 2.0).abs() < 1e-9);
}

#[test]
fn tests_compute_score_mean_runtime() {
    check_compute_score_mean_runtime();
}

#[test]
fn ils_compute_score_mean_runtime() {
    check_compute_score_mean_runtime();
}

fn check_compute_score_median_runtime() {
    let mut opts = with_approach(Approach::Basic);
    opts.overall_obj = OverallObjective::Median;
    let score = score_value(compute_score(&ms(&[3.0, 1.0, 2.0]), &ms(&[0.0; 3]), &opts));
    assert!((score - 2.0).abs() < 1e-9);
}

#[test]
fn tests_compute_score_median_runtime() {
    check_compute_score_median_runtime();
}

#[test]
fn ils_compute_score_median_runtime() {
    check_compute_score_median_runtime();
}

#[test]
fn compute_score_takes_the_objective_and_both_middle_values() {
    let mut opts = with_approach(Approach::Basic);
    opts.overall_obj = OverallObjective::Median;
    opts.run_obj = RunObjective::Quality;
    let parts = compute_score(&ms(&[0.0; 4]), &ms(&[4.0, -1.0, 9.0, 2.0]), &opts);
    assert!(matches!(parts, ScoreParts::Between(a, b) if f(a) == 2.0 && f(b) == 4.0));
}

fn check_random_config_not_forbidden() {
    let space = forbidden_space();
    let mut rng = rand::thread_rng();
    for _ in 0..50 {
        let config = random_config(&space, &mut rng).unwrap();
        assert!(!space.is_forbidden(&config));
    }
}

#[test]
fn tests_random_config_not_forbidden() {
    check_random_config_not_forbidden();
}

#[test]
fn ils_random_config_not_forbidden() {
    check_random_config_not_forbidden();
}

#[test]
fn the_last_legal_configuration_is_found() {
    let space = space_of("x {1, 2} [1]\ny {a, b} [a]\n{x=1}\n{x=2, y=a}\n");
    assert_eq!(some_legal_config(&space), Some(cfg(&[("x", "2"), ("y", "b")])));
    assert_eq!(random_config(&space, &mut rand::thread_rng()), Some(cfg(&[("x", "2"), ("y", "b")])));
    let space = space_of("x {1, 2} [1]\ny {a, b} [a]\n{x=1}\n{x=2}\n");
    assert_eq!(some_legal_config(&space), None);
    assert_eq!(some_legal_config(&space_of("")), Some(cfg(&[])));
}

#[test]
fn nothing_is_drawn_without_values() {
    let mut space = simple_space();
    space.params[0].domain.clear();
    assert_eq!(random_config(&space, &mut rand::thread_rng()), None);
    assert_eq!(some_legal_config(&space), None);
}

#[test]
fn only_effective_changes_are_told() {
    let space = conditional_space();
    let a = cfg(&[("mode", "fast"), ("limit", "1")]);
    let b = cfg(&[("mode", "fast"), ("limit", "2")]);
    assert_eq!(format_argument_changes(&a, &b, &space), "");
    assert_eq!(space.active_config(&a), space.active_config(&b));
    let c = cfg(&[("mode", "slow"), ("limit", "1")]);
    assert_ne!(format_argument_changes(&a, &c, &space), "");
}

#[test]
fn moves_can_be_undone() {
    for space in [simple_space(), forbidden_space(), conditional_space(), conditional_forbidden_space()] {
        let start = some_legal_config(&space).unwrap();
        for n in neighbourhood(&start, &space) {
            assert!(neighbourhood(&n, &space).contains(&start));
        }
    }
    // A parameter that depends on itself can switch itself off.
    let space = space_of("x {1, 2} [1] | x in {1}\n");
    let start = cfg(&[("x", "1")]);
    let next = neighbourhood(&start, &space);
    assert_eq!(next, vec![cfg(&[("x", "2")])]);
    assert!(neighbourhood(&next[0], &space).is_empty());
}

fn check_forbidden_clause_on_inactive_parameter_is_not_a_real_constraint() {
    let space = conditional_forbidden_space();
    let raw = cfg(&[("mode", "fast"), ("limit", "2")]);
    assert!(space.is_forbidden(&raw), "raw config still matches the clause literally");
    assert!(
        !space.is_forbidden(&space.active_config(&raw)),
        "active projection drops the inactive `limit` entry, so the clause can't match"
    );
}

#[test]
fn tests_forbidden_clause_on_inactive_parameter_is_not_a_real_constraint() {
    check_forbidden_clause_on_inactive_parameter_is_not_a_real_constraint();
}

#[test]
fn ils_forbidden_clause_on_inactive_parameter_is_not_a_real_constraint() {
    check_forbidden_clause_on_inactive_parameter_is_not_a_real_constraint();
}

fn check_neighbourhood_does_not_reject_move_due_to_inactive_forbidden_match() {
    let space = conditional_forbidden_space();
    let config = cfg(&[("mode", "slow"), ("limit", "2")]);
    let n = neighbourhood(&config, &space);
    assert_eq!(n.len(), 2);
    assert!(n.iter().any(|c| value(c, "mode") == Some("fast")));
    assert!(n.iter().any(|c| value(c, "limit") == Some("1")));
}

#[test]
fn tests_neighbourhood_does_not_reject_move_due_to_inactive_forbidden_match() {
    check_neighbourhood_does_not_reject_move_due_to_inactive_forbidden_match();
}

#[test]
fn ils_neighbourhood_does_not_reject_move_due_to_inactive_forbidden_match() {
    check_neighbourhood_does_not_reject_move_due_to_inactive_forbidden_match();
}

fn check_neighbourhood_catches_forbidden_combo_exposed_by_activating_a_shared_guard() {
    let space = shared_guard_forbidden_space();
    let config = cfg(&[("mode", "fast"), ("a", "2"), ("b", "2")]);
    assert!(!space.is_forbidden(&space.active_config(&config)), "dormant, so not yet forbidden");

    let n = neighbourhood(&config, &space);
    assert!(
        n.iter().all(|c| value(c, "mode") != Some("slow")),
        "activating the shared guard must not silently surface a forbidden combination: {n:?}"
    );
    assert!(n.is_empty());
}

#[test]
fn tests_neighbourhood_catches_forbidden_combo_exposed_by_activating_a_shared_guard() {
    check_neighbourhood_catches_forbidden_combo_exposed_by_activating_a_shared_guard();
}

#[test]
fn ils_neighbourhood_catches_forbidden_combo_exposed_by_activating_a_shared_guard() {
    check_neighbourhood_catches_forbidden_combo_exposed_by_activating_a_shared_guard();
}

fn check_random_config_does_not_reject_due_to_inactive_forbidden_match() {
    let space = conditional_forbidden_space();
    let mut rng = rand::thread_rng();
    for _ in 0..200 {
        let config = random_config(&space, &mut rng).unwrap();
        assert!(!space.is_forbidden(&space.active_config(&config)));
    }
}

#[test]
fn tests_random_config_does_not_reject_due_to_inactive_forbidden_match() {
    check_random_config_does_not_reject_due_to_inactive_forbidden_match();
}

#[test]
fn ils_random_config_does_not_reject_due_to_inactive_forbidden_match() {
    check_random_config_does_not_reject_due_to_inactive_forbidden_match();
}

fn check_fidelity_is_clamped_and_advances_by_step() {
    assert_eq!(initial_n_runs(8, 100), 8);
    assert_eq!(initial_n_runs(100, 8), 8);
    assert_eq!(initial_n_runs(0, 8), 1);

    assert_eq!(next_n_runs(8, 4, 100), 12);
    assert_eq!(next_n_runs(8, 100, 10), 10);
    assert_eq!(next_n_runs(8, 0, 100), 9);
}

#[test]
fn tests_fidelity_is_clamped_and_advances_by_step() {
    check_fidelity_is_clamped_and_advances_by_step();
}

#[test]
fn ils_fidelity_is_clamped_and_advances_by_step() {
    check_fidelity_is_clamped_and_advances_by_step();
}

#[test]
fn fidelity_at_the_limits_of_the_machine_word() {
    assert_eq!(initial_n_runs(5, 0), 0);
    assert_eq!(next_n_runs(usize::MAX - 1, 7, usize::MAX), usize::MAX);
    assert_eq!(next_n_runs(10, 1, 4), 4);
}

fn instances_0_to_9() -> Vec<(i64, String)> {
    (0..10).map(|i| (i, i.to_string())).collect()
}

fn check_shuffle_instances_is_deterministic_given_a_fixed_seed() {
    let instances = instances_0_to_9();
    let a = shuffle_instances(&instances, 42);
    let b = shuffle_instances(&instances, 42);
    assert_eq!(a, b, "the same seed must produce the same order every time");
}

#[test]
fn tests_shuffle_instances_is_deterministic_given_a_fixed_seed() {
    check_shuffle_instances_is_deterministic_given_a_fixed_seed();
}

#[test]
fn ils_shuffle_instances_is_deterministic_given_a_fixed_seed() {
    check_shuffle_instances_is_deterministic_given_a_fixed_seed();
}

fn check_shuffle_instances_differs_across_seeds() {
    let instances = instances_0_to_9();
    let a = shuffle_instances(&instances, 1);
    let b = shuffle_instances(&instances, 2);
    assert_ne!(a, b, "different seeds should (overwhelmingly likely) give different orders");
}

#[test]
fn tests_shuffle_instances_differs_across_seeds() {
    check_shuffle_instances_differs_across_seeds();
}

#[test]
fn ils_shuffle_instances_differs_across_seeds() {
    check_shuffle_instances_differs_across_seeds();
}

fn check_shuffle_instances_is_a_pure_reordering() {
    let instances = instances_0_to_9();
    let mut shuffled = shuffle_instances(&instances, 7);
    assert_ne!(shuffled, instances, "the scramble must actually reorder something");
    shuffled.sort();
    let mut original = instances.clone();
    original.sort();
    assert_eq!(shuffled, original);
}

#[test]
fn tests_shuffle_instances_is_a_pure_reordering() {
    check_shuffle_instances_is_a_pure_reordering();
}

#[test]
fn ils_shuffle_instances_is_a_pure_reordering() {
    check_shuffle_instances_is_a_pure_reordering();
}

#[test]
fn shuffling_instances_is_shuffling_them_with_the_seeded_generator() {
    let instances = instances_0_to_9();
    let mut expected = instances.clone();
    let mut rng = rand::rngs::StdRng::seed_from_u64(99);
    expected.shuffle(&mut rng);
    assert_eq!(shuffle_instances(&instances, 99), expected);
}

#[test]
fn instances_are_arranged_as_told() {
    let instances: Vec<(i64, String)> = vec![(7, "a".to_string()), (8, "b".to_string()), (9, "c".to_string())];
    let arranged = arrange_instances(&instances, &vec![2, 0, 1]);
    assert_eq!(arranged, vec![instances[2].clone(), instances[0].clone(), instances[1].clone()]);
}

fn check_instance_shuffle_never_changes_which_id_a_path_resolves_to() {
    let paths: Vec<String> = (0..20).map(|i| format!("instance{i}.cnf")).collect();
    let instances: Vec<(i64, String)> = paths.iter().enumerate().map(|(i, p)| (i as i64 + 1, p.clone())).collect();

    let shuffled = shuffle_instances(&instances, 99);

    // Same multiset of (id, path) pairs...
    let mut a = instances.clone();
    let mut b = shuffled.clone();
    a.sort();
    b.sort();
    assert_eq!(a, b);

    // ...and every path in the shuffled copy still carries its id.
    for (id, path) in &shuffled {
        let position = paths.iter().position(|p| p == path).unwrap();
        assert_eq!(*id, position as i64 + 1, "shuffle must never change {path}'s instance_id");
    }
}

#[test]
fn tests_instance_shuffle_never_changes_which_id_a_path_resolves_to() {
    check_instance_shuffle_never_changes_which_id_a_path_resolves_to();
}

#[test]
fn ils_instance_shuffle_never_changes_which_id_a_path_resolves_to() {
    check_instance_shuffle_never_changes_which_id_a_path_resolves_to();
}

fn check_future_telling_active_requires_strictly_more_runs_than_virtual_cores() {
    let mut opts = focused_options();
    opts.future_telling = true;
    opts.future_telling_cores = 10;

    assert!(
        !future_telling_active(&opts, 10),
        "equal to future_telling_cores must not enable it"
    );
    assert!(!future_telling_active(&opts, 5));
    assert!(future_telling_active(&opts, 11));

    opts.future_telling = false;
    assert!(
        !future_telling_active(&opts, 1000),
        "the master switch must disable it regardless of n_instances"
    );
}

#[test]
fn tests_future_telling_active_requires_strictly_more_runs_than_virtual_cores() {
    check_future_telling_active_requires_strictly_more_runs_than_virtual_cores();
}

#[test]
fn ils_future_telling_active_requires_strictly_more_runs_than_virtual_cores() {
    check_future_telling_active_requires_strictly_more_runs_than_virtual_cores();
}

#[test]
fn checkpoints_are_rejected_beyond_the_ceiling_only() {
    assert!(future_telling_rejects(m(6.0), m(5.0), m(5.0)));
    assert!(!future_telling_rejects(m(5.0), m(5.0), m(5.0)));
    assert!(!future_telling_rejects(m(6.0), m(5.0), m(6.5)));
    assert!(!future_telling_rejects(m(f64::INFINITY), m(5.0), m(5.0)));
    assert!(!future_telling_rejects(m(6.0), m(f64::NAN), m(5.0)));
}

#[test]
fn measures_compare_as_numbers() {
    let numbers = [
        f64::NEG_INFINITY,
        -3.5,
        -0.0,
        0.0,
        5e-324,
        0.1,
        1.0,
        1.0000000000000002,
        1e300,
        f64::INFINITY,
        f64::NAN,
        -f64::NAN,
    ];
    for a in numbers {
        assert_eq!(m(a).is_finite(), a.is_finite());
        assert_eq!(m(a).is_nan(), a.is_nan());
        for b in numbers {
            assert_eq!(m(a).lt(m(b)), a < b, "{a} < {b}");
            assert_eq!(m(a).le(m(b)), a <= b, "{a} <= {b}");
            assert_eq!(m(a).precedes(m(b)), a.total_cmp(&b).is_lt(), "{a} precedes {b}");
        }
    }
    assert_eq!(f(Measure::infinity()), f64::INFINITY);
    assert_eq!(f(Measure::zero()), 0.0);
}

#[test]
fn counts_are_held_exactly() {
    for n in [0u64, 1, 2, 3, 5, 473, 1999, 10_000_000, (1 << 52) - 1, 1 << 52, (1 << 53) - 1] {
        assert_eq!(f(Measure::from_count(n)), n as f64);
    }
}

#[test]
fn reports_name_hash_score_and_fingerprint() {
    let space = conditional_space();
    let before = cfg(&[("mode", "fast"), ("limit", "1")]);
    let after = cfg(&[("mode", "slow"), ("limit", "1")]);
    let mut eval = ConfigEvaluation::complete(m(2.5), 3);
    eval.runhash = 0xff;
    eval.runhash_n = 2;
    let hash = hash_config(&space.active_config(&after));
    assert_eq!(
        log_incumbent(&after, &eval, "2.500000", 3, &space),
        format!("ils: new incumbent: hash={hash:016x} score=2.500000 instances=3 runhash=00000000000000ff (n=2/3)")
    );
    eval.complete = false;
    eval.n_done = 2;
    eval.runhash_n = 0;
    assert_eq!(
        log_home_base(&before, &after, &eval, "2.500000", 3, &space).unwrap(),
        format!(
            "ils: new home base: hash={hash:016x} score=>2.500000 (2/3) instances=3 changes: limit: <inactive> -> 1; mode: fast -> slow"
        )
    );
    // A change of an inactive value is no change.
    let dormant = cfg(&[("mode", "fast"), ("limit", "2")]);
    assert!(log_home_base(&before, &dormant, &eval, "2.500000", 3, &space).is_none());
}

#[test]
fn choices_make_configurations() {
    let space = simple_space();
    assert_eq!(config_of_choices(&space, &vec![2, 1]), cfg(&[("alpha", "3"), ("beta", "b")]));
}

#[test]
fn neighbours_are_arranged_as_told() {
    let space = simple_space();
    let config = cfg(&[("alpha", "2"), ("beta", "a")]);
    let n = neighbourhood(&config, &space);
    let a = arranged(&n, &vec![2, 0, 1]);
    assert_eq!(a, vec![n[2].clone(), n[0].clone(), n[1].clone()]);
    let mut rng = rand::thread_rng();
    for _ in 0..20 {
        let shuffled = shuffled_neighbourhood(&config, &space, &mut rng);
        assert_eq!(shuffled.len(), 3);
        assert!(n.iter().all(|c| shuffled.contains(c)));
    }
}

#[test]
fn a_walk_of_no_steps_stays() {
    let space = simple_space();
    let config = cfg(&[("alpha", "2"), ("beta", "a")]);
    let mut rng = rand::thread_rng();
    assert_eq!(perturbation(config.clone(), 0, &space, &mut rng), config);
    let walked = perturbation(config.clone(), 1, &space, &mut rng);
    assert!(neighbourhood(&config, &space).contains(&walked));
}

#[test]
fn restart_reasons_are_named() {
    assert_eq!(RestartReason::Stagnation.as_str(), "stagnation");
    assert_eq!(RestartReason::Probability.as_str(), "probability");
}
