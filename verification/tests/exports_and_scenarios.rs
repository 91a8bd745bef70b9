use ramparils::config::Config;
use ramparils::db::{
    conf_body, file_name, group_rows, is_solved, runhash_lines, runhash_summaries, solved_groups, status_line,
    to_unsigned, ConfError,
};
use ramparils::debug::{
    any_debug_active, close_error_log, close_log_file, crash_report, debug_block, debug_line, enable_debug_stderr,
    open_log_file, set_error_log, DebugSinks,
};
use ramparils::formats::{config_from_json, config_to_json, config_to_yaml, parse_config_yaml, ConfigError};
use ramparils::ils::{Approach, RestartTarget};
use ramparils::measure::Measure;
use ramparils::params::ParamSpace;
use ramparils::probe::{check_version_answer, ProbeError};
use ramparils::report::{scenario_lines, ScenarioNumbers};
use ramparils::scenario::{
    nonempty_instances, overall_obj_named, parse_approach, parse_instances, parse_overall_obj, parse_restart_target,
    parse_run_obj, run_obj_named, worker_count,
    InstanceSource, OverallObjective, RunObjective, Scenario, ScenarioError, ScenarioFields,
};
use ramparils::text::{decimal_text, hex_text};
use ramparils::DebugOptions;

fn m(x: f64) -> Measure {
    Measure { bits: x.to_bits() }
}

fn f(x: Measure) -> f64 {
    f64::from_bits(x.bits)
}

fn cfg(pairs: &[(&str, &str)]) -> Config {
    let list: Vec<(String, String)> = pairs.iter().map(|(k, v)| (k.to_string(), v.to_string())).collect();
    Config::from_pairs(&list)
}

fn space() -> ParamSpace {
    ParamSpace::from_text("mode {fast, slow} [fast]\nlimit {1, 2} [1]\n").unwrap()
}

fn fields() -> ScenarioFields {
    ScenarioFields {
        algo: "solver".to_string(),
        paramfile: "params".to_string(),
        cutoff_time: m(1.0),
        tuner_timeout: m(2.0),
        initial_config: None,
        initial_config_file: None,
        instance_file: None,
        instances: Some(vec!["one".to_string()]),
        test_instance_file: None,
        run_obj: None,
        overall_obj: None,
        approach: None,
        perturbation_strength: None,
        restart_probability: None,
        restart_failures: None,
        restart_target: None,
        restart_strength: None,
        random_probes: None,
        acceptance_tolerance: None,
        initial_fidelity: None,
        fidelity_step: None,
        bound_multiplier: None,
        pruning: None,
        iterative_deepening: None,
        lambda_n: None,
        lambda_c: None,
        lambda_t: None,
        cores: None,
        num_run: None,
        cache_db: None,
        cache_disable: None,
        instance_shuffle: None,
        instance_shuffle_seed: None,
        future_telling: None,
        future_telling_checkpoint: None,
        future_telling_cores: None,
        future_telling_tolerance: None,
        debug: None,
        debug_wrapper: None,
        debug_solver: None,
        debug_log: None,
        error_log: None,
    }
}

fn scenario(change: &dyn Fn(&mut ScenarioFields)) -> Scenario {
    let mut given = fields();
    change(&mut given);
    Scenario::complete(given)
}

#[test]
fn resolves_inline_initial_config_with_scalar_values() {
    let s = scenario(&|g| g.initial_config = Some(parse_config_yaml("mode: slow\nlimit: 2\n").ok().unwrap()));
    let config = s.resolve_initial_config(&space(), None).unwrap();
    assert_eq!(config.get("mode").unwrap(), "slow");
    assert_eq!(config.get("limit").unwrap(), "2");
}

#[test]
fn rejects_both_initial_config_forms() {
    let s = scenario(&|g| {
        g.initial_config = Some(cfg(&[("mode", "slow"), ("limit", "2")]));
        g.initial_config_file = Some("initial.yaml".to_string());
    });
    assert!(matches!(
        s.resolve_initial_config(&space(), None),
        Err(ScenarioError::BothInitialConfigs)
    ));
}

#[test]
fn resolves_initial_config_file() {
    let s = scenario(&|g| g.initial_config_file = Some("initial.yaml".to_string()));
    let read = parse_config_yaml("mode: slow\nlimit: 2\n").ok();
    let config = s.resolve_initial_config(&space(), read).unwrap();
    assert_eq!(config.get("mode").unwrap(), "slow");
    assert_eq!(config.get("limit").unwrap(), "2");
}

#[test]
fn falls_back_to_parameter_defaults() {
    let config = scenario(&|_| {}).resolve_initial_config(&space(), None).unwrap();
    assert_eq!(config.get("mode").unwrap(), "fast");
    assert_eq!(config.get("limit").unwrap(), "1");
}

#[test]
fn an_initial_configuration_must_be_complete() {
    let s = scenario(&|g| g.initial_config = Some(cfg(&[("limit", "2")])));
    match s.resolve_initial_config(&space(), None) {
        Err(ScenarioError::MissingParameter(name)) => assert_eq!(name, "mode"),
        other => panic!("unexpected: {other:?}"),
    }
    assert!(space().validate_config(&cfg(&[("limit", "9"), ("mode", "x")])).is_ok());
}

#[test]
fn yaml_scalars_become_texts() {
    let config = parse_config_yaml("a: text\nb: true\nc: 7\nd: -1.5\n'e': '08'\n").ok().unwrap();
    assert_eq!(config, cfg(&[("a", "text"), ("b", "true"), ("c", "7"), ("d", "-1.5"), ("e", "08")]));
    assert!(matches!(parse_config_yaml("- a\n"), Err(ConfigError::NotAMapping)));
    assert!(matches!(parse_config_yaml("1: a\n"), Err(ConfigError::NameNotAString)));
    assert!(matches!(parse_config_yaml("a: [b]\n"), Err(ConfigError::ValueNotAScalar(n)) if n == "a"));
    assert!(matches!(parse_config_yaml("a: [b\n"), Err(ConfigError::Unreadable(_))));
}

#[test]
fn configurations_are_written_by_name() {
    let config = cfg(&[("threads", "8"), ("engine", "quick"), ("factor", "1.2")]);
    assert_eq!(config_to_yaml(&config).unwrap(), "engine: quick\nfactor: '1.2'\nthreads: '8'\n");
    let json = config_to_json(&config).unwrap();
    assert_eq!(json, "{\"engine\":\"quick\",\"factor\":\"1.2\",\"threads\":\"8\"}");
    assert_eq!(config_from_json(&json).unwrap(), config);
    assert!(config_from_json("[]").is_err());
    let odd = cfg(&[("q\"uote\n", "\u{1}\\ \u{2028}é")]);
    assert_eq!(config_from_json(&config_to_json(&odd).unwrap()).unwrap(), odd);
    assert_eq!(parse_config_yaml(&config_to_yaml(&config).unwrap()).ok().unwrap(), config);
}

#[test]
fn recorded_configurations_are_exported() {
    let json = "{\"b\":\"2\",\"a\":\"x\"}";
    assert_eq!(conf_body(json, true).ok().unwrap(), format!("{json}\n"));
    assert_eq!(conf_body(json, false).ok().unwrap(), "a: x\nb: '2'\n");
    assert!(matches!(conf_body("{", false), Err(ConfError::Corrupt(_))));
}

#[test]
fn scenarios_have_defaults() {
    let s = scenario(&|_| {});
    assert_eq!(s.approach, "focused");
    assert_eq!(s.restart_target, "incumbent");
    assert_eq!(s.cache_db, ":memory:");
    assert_eq!(s.perturbation_strength, 4);
    assert_eq!((s.initial_fidelity, s.fidelity_step), (1, 1));
    assert_eq!(f(s.bound_multiplier), 10.0);
    assert_eq!((f(s.lambda_n), f(s.lambda_c), f(s.lambda_t)), (0.5, 0.5, 0.5));
    assert!(s.pruning && !s.iterative_deepening && !s.debug);
    assert_eq!(s.run_obj, RunObjective::Runtime);
    assert_eq!(s.overall_obj, OverallObjective::Mean);
    assert_eq!(f(s.future_telling_checkpoint), 1.0);
    let o = s.ils_options(6, DebugOptions::default()).unwrap();
    assert_eq!(o.restart_strength, 8);
    assert_eq!(o.future_telling_cores, 6);
    assert_eq!(o.approach, Approach::Focused);
    assert_eq!(o.n_workers, 6);
}

#[test]
fn given_fields_are_kept() {
    let s = scenario(&|g| {
        g.approach = Some("BASIC".to_string());
        g.restart_target = Some("Random".to_string());
        g.restart_strength = Some(3);
        g.future_telling_cores = Some(2);
        g.overall_obj = Some(OverallObjective::Median);
    });
    let o = s.ils_options(1, DebugOptions { main: true, wrapper: false, solver: true }).unwrap();
    assert_eq!(o.approach, Approach::Basic);
    assert_eq!(o.restart_target, RestartTarget::Random);
    assert_eq!(o.restart_strength, 3);
    assert_eq!(o.future_telling_cores, 2);
    assert_eq!(o.overall_obj, OverallObjective::Median);
    assert!(o.debug.main && o.debug.solver && !o.debug.wrapper);
}

#[test]
fn wrong_settings_are_refused() {
    let options = |change: &dyn Fn(&mut ScenarioFields)| scenario(change).ils_options(1, DebugOptions::default());
    assert!(matches!(
        options(&|g| g.approach = Some("Greedy".to_string())),
        Err(ScenarioError::UnknownApproach(a)) if a == "greedy"
    ));
    assert!(matches!(
        options(&|g| g.restart_target = Some("HOME".to_string())),
        Err(ScenarioError::UnknownRestartTarget(t)) if t == "home"
    ));
    for p in [-0.1, 1.5, f64::NAN] {
        assert!(matches!(
            options(&|g| g.restart_probability = Some(m(p))),
            Err(ScenarioError::RestartProbability)
        ));
    }
    assert!(options(&|g| g.restart_probability = Some(m(1.0))).is_ok());
    assert!(matches!(
        options(&|g| g.acceptance_tolerance = Some(m(-0.5))),
        Err(ScenarioError::AcceptanceTolerance)
    ));
    assert!(options(&|g| g.acceptance_tolerance = Some(m(-0.0))).is_ok());
}

#[test]
fn names_are_read_in_lower_case() {
    assert_eq!(parse_approach("random"), Some(Approach::Random));
    assert_eq!(parse_approach("Random"), None);
    assert_eq!(parse_restart_target("incumbent"), Some(RestartTarget::Incumbent));
    assert_eq!(parse_restart_target(""), None);
    assert_eq!(parse_run_obj("quality"), RunObjective::Quality);
    assert_eq!(parse_run_obj("Quality"), RunObjective::Runtime);
    assert_eq!(parse_overall_obj("median"), OverallObjective::Median);
    assert_eq!(parse_overall_obj("max"), OverallObjective::Mean);
}

#[test]
fn objectives_are_read_in_any_case() {
    assert_eq!(run_obj_named("QUALITY"), RunObjective::Quality);
    assert_eq!(run_obj_named("Runtime"), RunObjective::Runtime);
    assert_eq!(run_obj_named("other"), RunObjective::Runtime);
    assert_eq!(overall_obj_named("Median"), OverallObjective::Median);
    assert_eq!(overall_obj_named("mean"), OverallObjective::Mean);
    assert_eq!(overall_obj_named(""), OverallObjective::Mean);
}

#[test]
fn instances_come_from_the_list_or_the_file() {
    let s = scenario(&|_| {});
    assert!(matches!(s.instance_source(), InstanceSource::Inline(l) if l.len() == 1));
    assert_eq!(s.instance_paths(None).unwrap(), vec!["one"]);
    assert_eq!(s.instance_source_label(), "<inline list>");
    let s = scenario(&|g| {
        g.instances = None;
        g.instance_file = Some("list.txt".to_string());
    });
    assert!(matches!(s.instance_source(), InstanceSource::File(p) if p == "list.txt"));
    assert_eq!(s.instance_paths(Some("a\n#b\nc\n")).unwrap(), vec!["a", "c"]);
    assert_eq!(s.instance_source_label(), "list.txt");
    let s = scenario(&|g| g.instances = None);
    assert!(matches!(s.instance_source(), InstanceSource::Nowhere));
    assert!(matches!(s.instance_paths(None), Err(ScenarioError::NoInstanceSource)));
    assert_eq!(s.instance_source_label(), "<none>");
}

#[test]
fn instance_lists_skip_blank_lines_and_comments() {
    assert_eq!(
        parse_instances("a.cnf\r\n\n  # note\n#x\n \u{a0}b c.cnf \n\u{3000}\nd"),
        vec!["a.cnf", "b c.cnf", "d"]
    );
    assert!(parse_instances("").is_empty());
    assert!(matches!(nonempty_instances(vec![]), Err(ScenarioError::EmptyInstanceList)));
    assert_eq!(nonempty_instances(vec!["a".to_string()]).unwrap(), vec!["a"]);
}

#[test]
fn workers_default_to_the_cores() {
    assert_eq!(worker_count(3, Some(8)), 3);
    assert_eq!(worker_count(0, Some(8)), 8);
    assert_eq!(worker_count(0, None), 4);
}

#[test]
fn scenarios_are_reported() {
    let s = scenario(&|g| g.restart_failures = Some(5));
    let numbers = ScenarioNumbers {
        cutoff_time: "1".to_string(),
        tuner_timeout: "2".to_string(),
        restart_probability: "0".to_string(),
        acceptance_tolerance: "0".to_string(),
    };
    let lines = scenario_lines(&s, &numbers, 1, 4);
    let rule = "-".repeat(60);
    assert_eq!(
        lines,
        vec![
            rule.as_str(),
            "algo:       solver",
            "paramfile:  params",
            "instances:  <inline list> (1 loaded)",
            "test:       -",
            "cutoff:     1s",
            "timeout:    2s",
            "objective:  runtime / mean",
            "approach:   focused",
            "fidelity:   initial=1 step=1",
            "perturb:    strength=4 restart_strength=8",
            "restart:    p=0 failures=5 target=incumbent tolerance=0 probes=0",
            "workers:    4",
            rule.as_str(),
        ]
    );
}

#[test]
fn probe_wrapper_version_ok() {
    let block = check_version_answer(true, "primo_wrapper.py 0.1.0\nprimo 0.1.0\nsupports: version runhash params").unwrap();
    assert!(block.contains("supports: version runhash params"));
}

#[test]
fn probe_wrapper_version_rejects_nonzero_exit() {
    let err = check_version_answer(false, "supports: version\n").unwrap_err();
    assert!(err.detail("exit status: 1").contains("exited with"));
}

#[test]
fn probe_wrapper_version_rejects_missing_supports_line() {
    let err = check_version_answer(true, "no version info here\n").unwrap_err();
    assert_eq!(err, ProbeError::NoSupportsLine);
    assert!(err.detail("").contains("supports:"));
}

#[test]
fn probe_wrapper_version_rejects_supports_without_version() {
    let err = check_version_answer(true, "supports: runhash params\n").unwrap_err();
    assert!(err.detail("").contains("does not list"));
    assert_eq!(check_version_answer(true, " \n\n").unwrap_err(), ProbeError::NoOutput);
    assert_eq!(check_version_answer(true, "supports:version \n\n").unwrap(), "supports:version");
    assert!(check_version_answer(true, "supports: versions\n").is_err());
}

#[test]
fn reports_go_where_they_are_sent() {
    let mut sinks = DebugSinks::default();
    assert!(!any_debug_active(&sinks));
    enable_debug_stderr(&mut sinks);
    assert_eq!(debug_line(&sinks, true), (true, false));
    assert_eq!(debug_line(&sinks, false), (false, false));
    open_log_file(&mut sinks);
    assert_eq!(debug_line(&sinks, true), (true, true));
    close_log_file(&mut sinks);
    assert!(any_debug_active(&sinks));
    set_error_log(&mut sinks, "crashes.txt");
    assert_eq!(sinks.error_log.as_deref(), Some("crashes.txt"));
    close_error_log(&mut sinks);
    assert!(sinks.error_log.is_none());
    assert_eq!(debug_block(true, "a\r\nb\n"), vec!["a", "b"]);
    assert!(debug_block(false, "a\nb\n").is_empty());
}

#[test]
fn crash_reports_hold_what_was_printed() {
    let rule = "=".repeat(60);
    assert_eq!(
        crash_report("1.50", "cmd", "out", "err\n", Some(-3)),
        format!("{rule}\ncrash  t=1.50s  exit=-3\ncmd: cmd\n--- stdout ---\nout\n--- stderr ---\nerr\n{rule}\n")
    );
    assert_eq!(
        crash_report("0.00", "cmd2", "", "", None),
        format!("{rule}\ncrash  t=0.00s  exit=spawn_failed\ncmd: cmd2\n{rule}\n")
    );
    assert!(crash_report("0", "c", "", "", Some(i32::MIN)).contains("exit=-2147483648"));
}

#[test]
fn numbers_are_written_out() {
    for n in [0u64, 7, 10, 99, 100, 12345, u64::MAX] {
        assert_eq!(decimal_text(n), n.to_string());
        assert_eq!(hex_text(n), format!("{n:016x}"));
    }
    for h in [0i64, 5, -1, i64::MIN, i64::MAX] {
        assert_eq!(to_unsigned(h), h as u64);
        assert_eq!(file_name(h), format!("ram-{:016x}", h as u64));
    }
}

#[test]
fn statuses_of_success_are_recognised() {
    for s in ["Theorem", "Unsatisfiable", "Satisfiable", "CounterSatisfiable", "ContradictoryAxioms", "sat", "unsat"] {
        assert!(is_solved(s));
    }
    for s in ["SAT", "Timeout", "", "unsat "] {
        assert!(!is_solved(s));
    }
}

#[test]
fn solved_instances_are_grouped_sorted_and_distinct() {
    let row = |h: i64, p: &str, s: &str| (h, p.to_string(), s.to_string());
    let groups = solved_groups(&vec![
        row(5, "b", "sat"),
        row(-2, "z", "unsat"),
        row(5, "a", "Theorem"),
        row(5, "b", "unsat"),
        row(7, "c", "Timeout"),
    ]);
    assert_eq!(groups.len(), 2);
    assert_eq!((groups[0].hash, &groups[0].paths), (-2, &vec!["z".to_string()]));
    assert_eq!((groups[1].hash, &groups[1].paths), (5, &vec!["a".to_string(), "b".to_string()]));
}

#[test]
fn rows_are_grouped_in_order() {
    let groups = group_rows(&vec![3, 1, 3, 2, 1]);
    let flat: Vec<(i64, Vec<usize>)> = groups.into_iter().map(|g| (g.hash, g.rows)).collect();
    assert_eq!(flat, vec![(1, vec![1, 4]), (2, vec![3]), (3, vec![0, 2])]);
}

#[test]
fn status_export_includes_runhash_column() {
    assert_eq!(
        status_line("solved.p", "Theorem", "0.500", Some(0x3eff6fcf0e4d910d)),
        "solved.p\tTheorem\t0.500\t3eff6fcf0e4d910d"
    );
    assert_eq!(status_line("timedout.p", "ResourceOut", "10.000", None), "timedout.p\tResourceOut\t10.000\t");
}

#[test]
fn runhashes_export_n_counts_all_attempts_not_just_contributors() {
    let (complete, partial_attempt, partial_timeout, all_timeout) = (11, 22, 33, 44);
    let rows = vec![
        // Both instances attempted and succeed.
        (complete, Some(0xAAAA)),
        (complete, Some(0x5555)),
        // Only one of two instances attempted at all.
        (partial_attempt, Some(0x1234)),
        // Both attempted, one without a fingerprint.
        (partial_timeout, Some(0x1234)),
        (partial_timeout, None),
        // Nothing to combine.
        (all_timeout, None),
        (all_timeout, None),
    ];
    let lines = runhash_lines(&runhash_summaries(&rows));
    assert_eq!(
        lines,
        vec![
            format!("ram-{complete:016x} {:016x} 2", 0xAAAAu64 ^ 0x5555u64),
            format!("ram-{partial_attempt:016x} 0000000000001234 1"),
            format!("ram-{partial_timeout:016x} 0000000000001234 2"),
        ]
    );
}
