use std::collections::HashMap;
use std::hash::{Hash, Hasher};
use std::sync::Arc;

use ramparils::cache::{
    adapt_cached_result, hash_config, is_compatible_schema, is_storable, merge, placeholders, should_write,
    CachedResult, StoredResult,
};
use ramparils::config::Config;
use ramparils::eval::{
    command_line, parse_solver_output, result_lines, unknown_result, EvalResult, EvalTask, Scheduler, SolverOutcome,
};
use ramparils::ils::evaluation::{evaluation_task, submit_neighbours, ScoreParts};
use ramparils::measure::Measure;
use ramparils::params::ParamSpace;

const UNKNOWN_QUALITY: f64 = 10_000_000.0;

fn m(x: f64) -> Measure {
    Measure { bits: x.to_bits() }
}

fn f(x: Measure) -> f64 {
    f64::from_bits(x.bits)
}

fn cfg(pairs: &[(&str, &str)]) -> Config {
    let list: Vec<(String, String)> = pairs.iter().map(|(k, v)| (k.to_string(), v.to_string())).collect();
    Config::from_pairs(&list)
}

fn cached(runtime: f64, quality: f64, status: &str) -> CachedResult {
    CachedResult { runtime: m(runtime), quality: m(quality), status: status.to_string(), runhash: None }
}

fn stored(runtime: f64, quality: f64, status: &str, cutoff: f64) -> StoredResult {
    StoredResult { result: cached(runtime, quality, status), cutoff: m(cutoff) }
}

fn answer(row: StoredResult, requested: f64) -> Option<CachedResult> {
    adapt_cached_result(row.result, row.cutoff, m(requested))
}

fn parse(output: &str, cutoff: f64) -> SolverOutcome {
    let lines = result_lines(output);
    let numbers = lines
        .iter()
        .map(|l| (l.runtime.parse::<f64>().ok().map(m), l.quality.parse::<f64>().ok().map(m)))
        .collect();
    parse_solver_output(&lines, &numbers, m(cutoff), &cutoff.to_string())
}

#[test]
fn hash_config_stable_and_order_independent() {
    let c1 = cfg(&[("a", "1"), ("b", "2")]);
    let c2 = cfg(&[("b", "2"), ("a", "1")]);
    assert_eq!(hash_config(&c1), hash_config(&c2));

    let c3 = cfg(&[("a", "1"), ("b", "9")]);
    assert_ne!(hash_config(&c1), hash_config(&c3));
}

#[test]
fn hash_config_is_the_hash_of_the_sorted_pairs() {
    let config = cfg(&[("b", "2"), ("a", "1")]);
    let pairs: Vec<(&str, &str)> = vec![("a", "1"), ("b", "2")];
    let mut hasher = std::collections::hash_map::DefaultHasher::new();
    pairs.hash(&mut hasher);
    assert_eq!(hash_config(&config), hasher.finish());
}

#[test]
fn get_batch_miss_then_hit() {
    let mut rows: HashMap<(u64, i64), StoredResult> = HashMap::new();
    let (id1, id2) = (1, 2);
    let get = |rows: &mut HashMap<(u64, i64), StoredResult>, id: i64| {
        rows.remove(&(42, id)).and_then(|row| answer(row, 10.0))
    };
    assert!(get(&mut rows, id1).is_none());
    assert!(get(&mut rows, id2).is_none());

    let kept = rows.remove(&(42, id1));
    rows.insert((42, id1), merge(kept, stored(1.23, 0.0, "Theorem", 10.0)));
    let hit = get(&mut rows, id1).unwrap();
    assert!((f(hit.runtime) - 1.23).abs() < 1e-9);
    assert_eq!(hit.status, "Theorem");
    assert!(get(&mut rows, id2).is_none());
}

#[test]
fn stronger_result_replaces_timeout() {
    let row = stored(2.0, 5.0, "Timeout", 2.0);
    let row = merge(Some(row), stored(3.5, 7.0, "Timeout", 5.0));
    let row = merge(Some(row), stored(1.5, 1.0, "Theorem", 5.0));
    let row = merge(Some(row), stored(1.0, 0.0, "Timeout", 10.0));

    let hit = answer(row, 10.0).unwrap();
    assert!((f(hit.runtime) - 1.5).abs() < 1e-9);
    assert!((f(hit.quality) - 1.0).abs() < 1e-9);
    assert_eq!(hit.status, "Theorem");
}

#[test]
fn timeout_reuse_depends_on_cutoff() {
    let shorter = answer(merge(None, stored(5.0, 7.0, "timeout", 5.0)), 2.0).unwrap();
    assert!((f(shorter.runtime) - 2.0).abs() < 1e-9);
    assert_eq!(shorter.status, "timeout");
    assert!(answer(stored(5.0, 7.0, "timeout", 5.0), 10.0).is_none());
}

#[test]
fn success_beyond_cutoff_becomes_synthetic_timeout() {
    let hit = answer(stored(8.0, 0.0, "sat", 10.0), 5.0).unwrap();
    assert!((f(hit.runtime) - 5.0).abs() < 1e-9);
    assert!((f(hit.quality) - UNKNOWN_QUALITY).abs() < 1e-9);
    assert_eq!(hit.status, "TIMEOUT");

    let full = answer(stored(8.0, 0.0, "sat", 10.0), 10.0).unwrap();
    assert!((f(full.runtime) - 8.0).abs() < 1e-9);
    assert_eq!(full.status, "sat");
}

#[test]
fn rejects_cache_without_cutoff_column() {
    let columns = |names: &[&str]| names.iter().map(|n| n.to_string()).collect::<Vec<String>>();
    let old = columns(&["strategy_hash", "instance_id", "runtime", "quality", "status_id"]);
    assert!(!is_compatible_schema(&old));
    let new = columns(&["strategy_hash", "instance_id", "runtime", "quality", "status_id", "cutoff"]);
    assert!(is_compatible_schema(&new));
    assert!(!is_compatible_schema(&columns(&["cutoff"])));
}

#[test]
fn only_timeouts_give_way() {
    assert!(should_write(None, "sat", m(1.0)));
    assert!(should_write(Some(("TimeOut", m(1.0))), "timeout", m(2.0)));
    assert!(!should_write(Some(("TimeOut", m(2.0))), "timeout", m(2.0)));
    assert!(should_write(Some(("timeout", m(9.0))), "unsat", m(2.0)));
    assert!(!should_write(Some(("sat", m(1.0))), "unsat", m(9.0)));
}

#[test]
fn unknown_and_cached_results_are_not_stored() {
    assert!(is_storable(true, "sat"));
    assert!(!is_storable(false, "sat"));
    assert!(!is_storable(true, "UNKNOWN"));
    assert!(is_storable(true, "unknown"));
}

#[test]
fn placeholders_are_numbered() {
    assert_eq!(placeholders(3, 1), "?1,?2,?3");
    assert_eq!(placeholders(2, 9), "?9,?10");
    assert_eq!(placeholders(0, 1), "");
}

#[test]
fn parse_ok_line() {
    let r = parse("some preamble\n#%# RamParIls #%# Theorem, 1.23, 42.0\n", 10.0);
    assert!((f(r.runtime) - 1.23).abs() < 1e-9);
    assert!((f(r.quality) - 42.0).abs() < 1e-9);
    assert_eq!(r.status, "Theorem");
    assert_eq!(r.runhash, None);
    assert!(r.line.contains("Theorem"));
}

#[test]
fn parse_timeout_line() {
    let r = parse("#%# RamParIls #%# Timeout, 5.0, 0.0", 10.0);
    assert!((f(r.runtime) - 5.0).abs() < 1e-9);
    assert_eq!(r.status, "Timeout");
    assert_eq!(r.runhash, None);
}

#[test]
fn parse_ok_line_with_runhash() {
    let r = parse("#%# RamParIls #%# sat, 1.23, 0.0, 3eff6fcf0e4d910d\n", 10.0);
    assert!((f(r.runtime) - 1.23).abs() < 1e-9);
    assert!((f(r.quality) - 0.0).abs() < 1e-9);
    assert_eq!(r.status, "sat");
    assert_eq!(r.runhash, Some(0x3eff6fcf0e4d910d));
    assert!(r.line.contains("3eff6fcf0e4d910d"));
}

#[test]
fn parse_caps_at_cutoff() {
    let r = parse("#%# RamParIls #%# Theorem, 99.9, 0.0", 10.0);
    assert!((f(r.runtime) - 10.0).abs() < 1e-9);
}

#[test]
fn parse_missing_returns_cutoff() {
    let r = parse("no result here", 5.0);
    assert!((f(r.runtime) - 5.0).abs() < 1e-9);
    assert!((f(r.quality) - UNKNOWN_QUALITY).abs() < 1e-9);
    assert_eq!(r.status, "UNKNOWN");
    assert_eq!(r.runhash, None);
    assert!(r.line.contains("UNKNOWN"));
}

#[test]
fn the_first_usable_result_line_counts() {
    let r = parse(
        "#%# RamParIls #%# sat, soon, 0\n#%# RamParIls #%# sat, 1\n#%# RamParIls #%# unsat , 2 , 3 , +FF, x\n#%# RamParIls #%# sat, 4, 5\n",
        10.0,
    );
    assert_eq!(r.status, "unsat");
    assert_eq!(f(r.runtime), 2.0);
    assert_eq!(r.runhash, None, "the fourth field takes the rest of the line");
    assert_eq!(parse("#%# RamParIls #%# a, 1, 1, +FF", 10.0).runhash, Some(255));
    assert_eq!(parse("#%# RamParIls #%# a, 1, 1, 10000000000000000", 10.0).runhash, None);
    assert_eq!(parse("#%# RamParIls #%# a, 1, 1, 00000000000000000f", 10.0).runhash, Some(15));
    assert_eq!(parse("#%# RamParIls #%# a, 1, 1, ", 10.0).runhash, None);
    assert_eq!(f(parse("#%# RamParIls #%# a, NaN, 1", 10.0).runtime), 10.0);
    assert_eq!(unknown_result(m(5.0), "5").line, "#%# RamParIls #%# UNKNOWN, 5, 10000000");
}

#[test]
fn commands_list_arguments_by_name() {
    let config = cfg(&[("b", "2"), ("a", "1")]);
    assert_eq!(command_line("solver -x", "i.cnf", "10", &config), "solver -x i.cnf 10 -a 1 -b 2");
    assert_eq!(command_line("s", "i", "1.5", &cfg(&[])), "s i 1.5 ");
}

fn task(neighbor_id: usize, instances: &[(i64, &str)]) -> EvalTask {
    let config = cfg(&[("alpha", "1.189")]);
    EvalTask {
        neighbor_id,
        hash: hash_config(&config),
        config,
        instances: Arc::new(instances.iter().map(|(id, p)| (*id, p.to_string())).collect()),
    }
}

#[test]
fn scheduler_cache_hit_path() {
    let mut hits = HashMap::new();
    hits.insert(1, cached(0.5, 0.0, "Theorem"));
    hits.insert(2, cached(1.0, 0.0, "Theorem"));
    let mut sched = Scheduler::new(2, m(10.0), false);
    let batch = sched.open_batch();
    let plan = sched.submit(batch, task(7, &[(1, "i1.cnf"), (2, "i2.cnf")]), &hits);

    assert_eq!(plan.completed.len(), 2);
    assert!(plan.completed.iter().all(|r| r.neighbor_id == 7));
    assert!(plan.completed.iter().all(|r| !r.cacheable));
    let runtimes: Vec<f64> = plan.completed.iter().map(|r| f(r.runtime)).collect();
    assert!(runtimes.contains(&0.5));
    assert!(runtimes.contains(&1.0));
    assert!(plan.batch.is_none());
    assert_eq!(plan.worker_slots, 0);
}

#[test]
fn scheduler_cache_disable_forces_miss_and_rewrites() {
    let mut hits = HashMap::new();
    hits.insert(1, cached(0.5, 0.0, "Theorem"));
    let mut sched = Scheduler::new(1, m(10.0), true);
    let batch = sched.open_batch();
    let plan = sched.submit(batch, task(0, &[(1, "i1.cnf")]), &hits);
    assert!(plan.completed.is_empty(), "got stale cached runtime instead of a real run");
    assert_eq!(*plan.batch.unwrap().missing_indices, vec![0]);

    let kept = merge(Some(stored(0.5, 0.0, "Theorem", 10.0)), stored(3.3, 0.0, "sat", 10.0));
    assert!(
        (f(kept.result.runtime) - 0.5).abs() < 1e-9,
        "a genuine solved result must not be clobbered by a later re-run's differing number"
    );
}

#[test]
fn synthetic_timeout_is_not_cacheable() {
    let hit = adapt_cached_result(cached(8.0, 0.0, "sat"), m(10.0), m(5.0)).unwrap();
    let mut hits = HashMap::new();
    hits.insert(1, hit);
    let mut sched = Scheduler::new(1, m(5.0), false);
    let batch = sched.open_batch();
    let plan = sched.submit(batch, task(0, &[(1, "i1.cnf")]), &hits);
    assert_eq!(plan.completed[0].status, "TIMEOUT");
    assert!(!plan.completed[0].cacheable);

    let original = adapt_cached_result(cached(8.0, 0.0, "sat"), m(10.0), m(10.0)).unwrap();
    assert_eq!(original.status, "sat");
    assert!((f(original.runtime) - 8.0).abs() < 1e-9);
}

#[test]
fn scheduler_reset_drains_cleanly() {
    let mut sched = Scheduler::new(2, m(10.0), false);
    let first = sched.open_batch();
    assert!(!sched.is_cancelled(first, 0));
    assert!(sched.reset().is_empty());
    assert!(sched.is_cancelled(first, 0));
    let second = sched.open_batch();
    assert!(!sched.is_cancelled(second, 0));
    assert!(sched.is_cancelled(first, 0));
}

#[test]
fn scheduler_queues_batches_not_individual_instances() {
    let paths: Vec<String> = (0..10_000).map(|i| format!("i{i}.cnf")).collect();
    let config = cfg(&[("alpha", "1")]);
    let instances = Arc::new(paths.iter().enumerate().map(|(i, p)| (i as i64, p.clone())).collect());
    let mut sched = Scheduler::new(4, m(10.0), false);
    let batch = sched.open_batch();
    let plan = sched.submit(
        batch,
        EvalTask { neighbor_id: 0, hash: hash_config(&config), config, instances },
        &HashMap::new(),
    );
    assert_eq!(plan.worker_slots, 4);
    assert_eq!(plan.batch.unwrap().missing_indices.len(), 10_000);
}

#[test]
fn hits_and_misses_make_up_a_task() {
    let mut hits = HashMap::new();
    hits.insert(20, cached(0.5, 0.0, "sat"));
    let mut sched = Scheduler::new(8, m(10.0), false);
    let batch = sched.open_batch();
    let plan = sched.submit(batch, task(3, &[(10, "a"), (20, "b"), (30, "c")]), &hits);
    assert_eq!(plan.completed.len(), 1);
    assert_eq!(plan.completed[0].instance_id, 20);
    let work = plan.batch.unwrap();
    assert_eq!(*work.missing_indices, vec![0, 2]);
    assert_eq!((work.batch_id, work.neighbor_id), (batch, 3));
    assert_eq!(plan.worker_slots, 2);
}

#[test]
fn cancelling_touches_one_neighbour() {
    let mut sched = Scheduler::new(2, m(10.0), false);
    let batch = sched.open_batch();
    sched.register_group(100, batch, 0);
    sched.register_group(101, batch, 1);
    sched.register_group(102, batch, 0);
    sched.unregister_group(102);
    assert_eq!(sched.cancel_neighbor(batch, 0), vec![100]);
    assert!(sched.is_cancelled(batch, 0));
    assert!(!sched.is_cancelled(batch, 1));
    assert_eq!(sched.groups_of_batch(batch), vec![100, 101]);
    assert_eq!(sched.reset(), vec![100, 101]);
    sched.register_group(100, batch, 5);
    assert_eq!(sched.groups_of_neighbor(batch, 5), vec![100]);
    assert!(sched.groups_of_neighbor(batch, 0).is_empty());
}

#[test]
fn tasks_carry_the_active_projection() {
    let space = ParamSpace::from_text("mode {fast, slow} [fast]\nlimit {1, 2} [1] | mode in {slow}\n").unwrap();
    let instances = Arc::new(vec![(1, "a".to_string())]);
    let config = cfg(&[("mode", "fast"), ("limit", "2")]);
    let t = evaluation_task(4, &config, &space, &instances);
    assert_eq!(t.neighbor_id, 4);
    assert_eq!(t.config, cfg(&[("mode", "fast")]));
    assert_eq!(t.hash, hash_config(&t.config));
    let tasks = submit_neighbours(&vec![config.clone(), cfg(&[("mode", "slow"), ("limit", "2")])], &space, &instances);
    assert_eq!(tasks.len(), 2);
    assert_eq!(tasks[1].neighbor_id, 1);
    assert_eq!(tasks[1].config.len(), 2);
}

#[test]
fn results_have_mean_and_median() {
    let r = EvalResult { runtimes: vec![m(3.0), m(1.0), m(2.0)], pruned: false };
    assert!(matches!(r.median(), ScoreParts::Middle(x) if f(x) == 2.0));
    assert!(matches!(r.mean(), ScoreParts::Mean(v) if v.len() == 3));
}
