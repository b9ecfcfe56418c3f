use r6r6::runner::{BoundedRunner, Timeout};
use r6r6::timing::{staggered_delay_ms, stepped_delay_ms};

/// Drives a runner on a virtual clock: each started task completes `durations[id]`
/// after it starts, earliest first. Stops at `deadline` if one is given.
/// Returns the runner and the largest number of tasks seen running at once.
fn drive(durations: &[u64], limit: usize, deadline: Option<u64>) -> (BoundedRunner<u64>, usize) {
    let mut runner: BoundedRunner<u64> = BoundedRunner::new(limit, durations.len());
    let mut finish_at: Vec<u64> = vec![0; durations.len()];
    let mut now: u64 = 0;
    let mut peak = 0;
    loop {
        for id in runner.fill_window() {
            finish_at[id] = now + durations[id];
        }
        peak = peak.max(runner.active().len());
        assert!(runner.active().len() <= limit);
        if runner.is_finished() {
            break;
        }
        let id = *runner.active().iter().min_by_key(|&&id| (finish_at[id], id)).unwrap();
        if let Some(d) = deadline {
            if finish_at[id] > d {
                break;
            }
        }
        now = finish_at[id];
        runner.complete(id, now);
    }
    (runner, peak)
}

#[test]
fn window_never_exceeds_limit_and_collects_all() {
    for limit in 1..=6 {
        for m in 0..=12u32 {
            let durations: Vec<u64> = (1..=m).map(staggered_delay_ms).collect();
            let (runner, peak) = drive(&durations, limit, None);
            assert!(peak <= limit);
            assert_eq!(peak, limit.min(m as usize));
            let done = runner.into_completed();
            assert_eq!(done.len(), m as usize);
        }
    }
}

#[test]
fn empty_task_set_finishes_immediately() {
    let mut runner: BoundedRunner<i32> = BoundedRunner::new(3, 0);
    assert!(runner.is_finished());
    assert!(runner.fill_window().is_empty());
    assert_eq!(runner.close_at_deadline(), Ok(vec![]));
}

#[test]
fn completion_order_is_permutation_of_submission() {
    let durations: Vec<u64> = (1..=10).map(staggered_delay_ms).collect();
    let (runner, _) = drive(&durations, 3, None);
    let done = runner.into_completed();
    let mut ids: Vec<usize> = done.iter().map(|p| p.0).collect();
    assert_ne!(ids, (0..10).collect::<Vec<usize>>());
    ids.sort();
    assert_eq!(ids, (0..10).collect::<Vec<usize>>());
    let times: Vec<u64> = done.iter().map(|p| p.1).collect();
    assert!(times.windows(2).all(|w| w[0] <= w[1]));
}

#[test]
fn fill_window_admits_in_submission_order() {
    let mut runner: BoundedRunner<&str> = BoundedRunner::new(2, 5);
    assert_eq!(runner.fill_window(), vec![0, 1]);
    assert_eq!(runner.fill_window(), Vec::<usize>::new());
    runner.complete(1, "b");
    assert_eq!(runner.active(), &vec![0]);
    assert_eq!(runner.fill_window(), vec![2]);
    runner.complete(0, "a");
    runner.complete(2, "c");
    assert_eq!(runner.fill_window(), vec![3, 4]);
    runner.complete(4, "e");
    runner.complete(3, "d");
    assert!(runner.fill_window().is_empty());
    assert!(runner.is_finished());
    assert_eq!(
        runner.into_completed(),
        vec![(1, "b"), (0, "a"), (2, "c"), (4, "e"), (3, "d")]
    );
}

#[test]
fn timeout_between_fastest_and_slowest_fails() {
    let durations: Vec<u64> = (1..=5).map(stepped_delay_ms).collect();
    assert_eq!(durations, vec![100, 200, 300, 400, 500]);
    let (runner, _) = drive(&durations, 3, Some(300));
    assert!(!runner.is_finished());
    assert_eq!(runner.close_at_deadline(), Err(Timeout));
}

#[test]
fn deadline_after_all_complete_returns_outcomes() {
    let durations: Vec<u64> = (1..=5).map(stepped_delay_ms).collect();
    let (runner, _) = drive(&durations, 3, Some(10_000));
    let done = runner.close_at_deadline().unwrap();
    assert_eq!(done, vec![(0, 100), (1, 200), (2, 300), (3, 500), (4, 700)]);
}

#[test]
fn fold_over_bounded_map_output_is_55() {
    let inputs: Vec<i32> = (1..=10).collect();
    let mut runner: BoundedRunner<i32> = BoundedRunner::new(3, inputs.len());
    let mut started = runner.fill_window();
    while !runner.is_finished() {
        // complete the most recently started task first, so the order differs
        let id = *runner.active().last().unwrap();
        runner.complete(id, inputs[id]);
        started.extend(runner.fill_window());
    }
    assert_eq!(started, (0..10).collect::<Vec<usize>>());
    let arrived: Vec<i32> = runner.into_completed().into_iter().map(|p| p.1).collect();
    assert_ne!(arrived, inputs);
    assert_eq!(r6r6::stages::fold_sum(&arrived, 0), 55);
}
