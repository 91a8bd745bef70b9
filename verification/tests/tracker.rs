use ramparils::ils::futell::CheckpointTracker;
use ramparils::measure::Measure;

fn m(x: f64) -> Measure {
    Measure { bits: x.to_bits() }
}

fn f(x: Measure) -> f64 {
    f64::from_bits(x.bits)
}

fn tracker(n_virtual: usize, checkpoint_time: f64, cutoff_time: f64, n_total: usize) -> CheckpointTracker {
    CheckpointTracker::new(n_virtual, m(checkpoint_time), m(cutoff_time), n_total)
}

fn record(tracker: &mut CheckpointTracker, instance_id: i64, runtime: f64) {
    let finish = f(tracker.start_for(instance_id)) + runtime;
    let time_sum = f(tracker.time_sum) + runtime;
    tracker.record(instance_id, m(runtime), m(finish), m(time_sum));
}

fn dispatch(tracker: &mut CheckpointTracker, instance_id: i64, at: f64) {
    let origin = tracker.t0.map_or(at, f);
    tracker.record_dispatch(instance_id, m(at), m(at - origin));
}

fn par1(tracker: &CheckpointTracker) -> Option<f64> {
    tracker
        .par1_parts()
        .map(|(sum, uncounted)| (f(sum) + uncounted as f64 * f(tracker.cutoff_time)) / tracker.n_total as f64)
}

/// Feeds `runtimes` into a tracker in the given order and returns
/// `(solved_count, ready)`.
fn run_tracker(
    n_virtual: usize,
    checkpoint_time: f64,
    cutoff_time: f64,
    n_total: usize,
    runtimes: &[f64],
) -> (usize, bool) {
    let mut t = tracker(n_virtual, checkpoint_time, cutoff_time, n_total);
    for (i, &runtime) in runtimes.iter().enumerate() {
        record(&mut t, i as i64, runtime);
    }
    (t.solved_count, t.ready)
}

#[test]
fn checkpoint_tracker_now_depends_on_arrival_order_by_design() {
    let values = [0.9, 0.9, 0.9, 0.1, 0.1, 0.1];
    let mut reversed = values;
    reversed.reverse();
    assert_ne!(values, reversed, "the reorder must actually change something");

    let mut a = tracker(2, 1.0, 1.5, 10);
    for (i, &runtime) in values.iter().enumerate() {
        record(&mut a, i as i64, runtime);
        if a.ready {
            break;
        }
    }
    let mut b = tracker(2, 1.0, 1.5, 10);
    for (i, &runtime) in reversed.iter().enumerate() {
        record(&mut b, i as i64, runtime);
        if b.ready {
            break;
        }
    }

    assert!(a.ready && b.ready, "both orders should mature well before all 10 (n_total) arrive");
    assert_ne!(
        (a.n_seen, a.solved_count),
        (b.n_seen, b.solved_count),
        "the same multiset in a different arrival order matured differently"
    );
}

fn check_runtime_equal_to_cutoff_is_not_solved() {
    let mut t = tracker(2, 5.0, 5.0, 2);
    // Done by the horizon, but not solved: the comparison with the cutoff is strict.
    record(&mut t, 0, 5.0);
    assert_eq!(t.solved_count, 0);
    record(&mut t, 1, 1.0);
    assert_eq!(t.solved_count, 1);
}

#[test]
fn tests_checkpoint_tracker_runtime_equal_to_cutoff_is_not_solved() {
    check_runtime_equal_to_cutoff_is_not_solved();
}

#[test]
fn ils_checkpoint_tracker_runtime_equal_to_cutoff_is_not_solved() {
    check_runtime_equal_to_cutoff_is_not_solved();
}

#[test]
fn checkpoint_tracker_par1_matches_score_on_the_same_horizon() {
    let mut t = tracker(1, 5.0, 5.0, 3);
    record(&mut t, 0, 2.0); // finish 2.0: solved, counted
    assert!(!t.ready);
    record(&mut t, 1, 4.0); // finish 6.0: matures the checkpoint, itself uncounted
    assert!(t.ready, "single bucket must mature once its cumulative finish exceeds the horizon");
    assert_eq!(t.n_seen, 2);

    assert_eq!(t.score(), Some(m(2.0)), "n_total(3) - solved_count(1)");
    assert!((par1(&t).unwrap() - 4.0).abs() < 1e-9);
}

fn check_finishing_before_maturing_never_reports_ready() {
    let mut t = tracker(8, 1.0, 10.0, 3);
    record(&mut t, 0, 0.1);
    record(&mut t, 1, 0.2);
    record(&mut t, 2, 0.3);
    assert!(!t.ready);
    assert_eq!(t.score(), None);
}

#[test]
fn tests_checkpoint_tracker_finishing_before_maturing_never_reports_ready() {
    check_finishing_before_maturing_never_reports_ready();
}

#[test]
fn ils_checkpoint_tracker_finishing_before_maturing_never_reports_ready() {
    check_finishing_before_maturing_never_reports_ready();
}

fn check_rejected_design_would_have_inverted_the_comparison() {
    let few_great = [0.01, 0.01, 0.01];
    let many_decent = [0.4; 60];

    // The mean of the completed runs says nothing of their number.
    let mean = |xs: &[f64]| xs.iter().sum::<f64>() / xs.len() as f64;
    assert!(mean(&few_great) < mean(&many_decent));

    let n_total = 100;
    let (few_solved, _) = run_tracker(64, 1.0, 1.0, n_total, &few_great);
    let (many_solved, _) = run_tracker(64, 1.0, 1.0, n_total, &many_decent);
    assert!(
        (n_total - many_solved) < (n_total - few_solved),
        "the 60-good-completion config must score better (lower) than the 3-completion one"
    );
}

#[test]
fn tests_checkpoint_tracker_rejected_design_would_have_inverted_the_comparison() {
    check_rejected_design_would_have_inverted_the_comparison();
}

#[test]
fn ils_checkpoint_tracker_rejected_design_would_have_inverted_the_comparison() {
    check_rejected_design_would_have_inverted_the_comparison();
}

#[test]
fn a_started_instance_is_busy_before_its_result_arrives() {
    let mut t = tracker(2, 1.0, 5.0, 4);
    t.poll(m(100.0)); // no start yet: nothing to reassess
    assert!(!t.ready);
    dispatch(&mut t, 10, 50.0);
    dispatch(&mut t, 11, 50.25);
    assert_eq!(t.t0, Some(m(50.0)));
    assert!(!t.ready);
    // A third start finds no free worker and is not tracked.
    dispatch(&mut t, 12, 50.5);
    assert_eq!(t.pending.len(), 2);
    t.poll(m(1.0));
    assert!(!t.ready, "the horizon itself is not past it");
    t.poll(m(1.25));
    assert!(t.ready);
    assert_eq!(t.score(), Some(m(4.0)));
}

#[test]
fn a_result_settles_the_worker_of_its_start() {
    let mut t = tracker(2, 10.0, 5.0, 4);
    dispatch(&mut t, 10, 1.0);
    dispatch(&mut t, 11, 3.0);
    assert_eq!(f(t.start_for(11)), 2.0);
    record(&mut t, 11, 0.5);
    assert_eq!(f(t.virtual_busy[1]), 2.5);
    assert_eq!(t.solved_count, 1);
    assert!(!t.assigned.contains_key(&11));
    // Without a start the least busy worker takes the result.
    assert_eq!(f(t.start_for(99)), 0.0);
    record(&mut t, 99, 4.0);
    assert_eq!(f(t.virtual_busy[0]), 4.0);
}

#[test]
fn nothing_changes_once_ready() {
    let mut t = tracker(1, 1.0, 5.0, 5);
    record(&mut t, 0, 2.0);
    assert!(t.ready);
    record(&mut t, 1, 0.1);
    dispatch(&mut t, 2, 7.0);
    t.poll(m(100.0));
    assert_eq!(t.n_seen, 1);
    assert_eq!(t.solved_count, 0);
    assert_eq!(t.t0, None);
    assert_eq!(t.score(), Some(m(5.0)));
}

#[test]
fn the_last_result_never_matures_the_checkpoint() {
    let mut t = tracker(1, 1.0, 5.0, 1);
    record(&mut t, 0, 2.0);
    assert!(!t.ready);
    assert_eq!(t.n_seen, 1);
    assert_eq!(par1(&t), None);
}

#[test]
fn there_is_always_a_virtual_worker() {
    let t = tracker(0, 1.0, 1.0, 1);
    assert_eq!(t.virtual_busy.len(), 1);
}
