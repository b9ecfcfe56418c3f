use r6r6::join::{try_join_all, FailFastJoin};

fn maybe_fail(id: i32, should_fail: bool) -> Result<String, String> {
    if should_fail {
        Err(format!("Task {} failed", id))
    } else {
        Ok(format!("Task {} succeeded", id))
    }
}

#[test]
fn join_all_succeed() {
    let arrivals = vec![
        (2, maybe_fail(3, false)),
        (0, maybe_fail(1, false)),
        (1, maybe_fail(2, false)),
    ];
    let r = try_join_all(arrivals).unwrap();
    assert_eq!(
        r,
        vec![
            (2, "Task 3 succeeded".to_string()),
            (0, "Task 1 succeeded".to_string()),
            (1, "Task 2 succeeded".to_string()),
        ]
    );
}

#[test]
fn join_with_one_failure_returns_it() {
    for failing in 0..3usize {
        let arrivals: Vec<(usize, Result<String, String>)> =
            (0..3).map(|s| (s, maybe_fail(s as i32 + 1, s == failing))).collect();
        assert_eq!(try_join_all(arrivals), Err(format!("Task {} failed", failing + 1)));
    }
}

#[test]
fn join_with_several_failures_returns_first_to_arrive() {
    let arrivals = vec![(1, maybe_fail(2, false)), (2, maybe_fail(3, true)), (0, maybe_fail(1, true))];
    assert_eq!(try_join_all(arrivals), Err("Task 3 failed".to_string()));
}

#[test]
fn empty_join_succeeds() {
    let arrivals: Vec<(usize, Result<i32, i32>)> = vec![];
    assert_eq!(try_join_all(arrivals), Ok(vec![]));
}

#[test]
fn fail_fast_join_settles_on_first_error() {
    let mut join: FailFastJoin<i32, &str> = FailFastJoin::new(3);
    assert!(!join.is_settled());
    join.record(1, Ok(20));
    assert!(!join.is_settled());
    join.record(0, Err("boom"));
    assert!(join.is_settled());
    assert_eq!(join.into_result(), Err("boom"));
}

#[test]
fn fail_fast_join_settles_when_all_succeed() {
    let mut join: FailFastJoin<i32, &str> = FailFastJoin::new(2);
    join.record(1, Ok(20));
    join.record(0, Ok(10));
    assert!(join.is_settled());
    assert_eq!(join.into_result(), Ok(vec![(1, 20), (0, 10)]));
}
