use ccx::depth::{set_max_recursion_depth, DepthGuard, RecursionDepth, DEFAULT_MAX_RECURSION_DEPTH};
use ccx::report::CCXStopReason;
use ccx::runner::{ccx_stop, step_outcome, RunnerLimits};

fn token(r: CCXStopReason<String>) -> String {
    r.to_token()
}

#[test]
fn depth_guard_enter_and_exit() {
    let mut d = RecursionDepth::new();
    assert_eq!(d.max, DEFAULT_MAX_RECURSION_DEPTH);
    set_max_recursion_depth(&mut d, 2);
    let g1 = DepthGuard::enter(&mut d).unwrap();
    let g2 = DepthGuard::enter(&mut d).unwrap();
    assert!(DepthGuard::enter(&mut d).is_none());
    assert_eq!(d.cur, 2);
    g2.exit(&mut d);
    assert_eq!(d.cur, 1);
    g1.exit(&mut d);
    assert_eq!(d.cur, 0);
}

#[test]
fn check_limits_order() {
    let l = RunnerLimits::new();
    assert_eq!(l.iter_limit, 30);
    assert_eq!(l.node_limit, 10_000);
    assert_eq!(l.time_limit, 60_000_000_000);
    let l = l.with_iter_limit(3).with_node_limit(10).with_time_limit(100);
    assert!(matches!(l.check_limits_at::<String>(4, 20, 200), Err(CCXStopReason::IterationLimit)));
    assert!(matches!(l.check_limits_at::<String>(3, 20, 200), Err(CCXStopReason::NodeLimit)));
    assert!(matches!(l.check_limits_at::<String>(3, 10, 200), Err(CCXStopReason::TimeLimit)));
    assert!(matches!(l.check_limits_at::<String>(3, 10, 100), Ok(())));
    assert!(matches!(l.check_limits_at::<String>(3, 10, 101), Err(CCXStopReason::TimeLimit)));
}

#[test]
fn check_limits_clock() {
    let mut l = RunnerLimits::new();
    l.start_time = Some(std::time::Instant::now());
    assert!(matches!(l.check_limits::<String>(0, 0), Ok(())));
    let earlier = std::time::Instant::now().checked_sub(std::time::Duration::from_millis(5));
    l.start_time = Some(earlier.expect("a clock that has run for a while"));
    let l = l.with_time_limit(1_000_000);
    assert!(matches!(l.check_limits::<String>(0, 0), Err(CCXStopReason::TimeLimit)));
    assert!(matches!(l.check_limits::<String>(31, 0), Err(CCXStopReason::IterationLimit)));
}

#[test]
fn step_outcome_order() {
    let hook_err: Result<(), String> = Err("stop".to_string());
    match step_outcome(hook_err, Err(CCXStopReason::NodeLimit), true) {
        Some(CCXStopReason::Other(m)) => assert_eq!(m, "stop"),
        _ => panic!("hook error first"),
    }
    assert!(matches!(
        step_outcome::<String>(Ok(()), Err(CCXStopReason::TimeLimit), true),
        Some(CCXStopReason::TimeLimit)
    ));
    assert!(matches!(step_outcome::<String>(Ok(()), Ok(()), true), Some(CCXStopReason::EmptyUs)));
    assert!(step_outcome::<String>(Ok(()), Ok(()), false).is_none());
}

#[test]
fn ccx_stop_order() {
    assert!(matches!(ccx_stop(Err("h".to_string()), true, 9, 1, 9, 1), Some(CCXStopReason::Other(_))));
    assert!(matches!(ccx_stop(Ok(()), true, 9, 1, 9, 1), Some(CCXStopReason::EmptyUs)));
    assert!(matches!(ccx_stop(Ok(()), false, 5, 5, 9, 1), Some(CCXStopReason::IterationLimit)));
    assert!(matches!(ccx_stop(Ok(()), false, 4, 5, 9, 9), Some(CCXStopReason::TimeLimit)));
    assert!(ccx_stop(Ok(()), false, 4, 5, 8, 9).is_none());
}

#[test]
fn stop_tokens() {
    assert_eq!(token(CCXStopReason::EmptyUs), "EmptyUs");
    assert_eq!(token(CCXStopReason::IterationLimit), "IterationLimit");
    assert_eq!(token(CCXStopReason::TimeLimit), "TimeLimit");
    assert_eq!(token(CCXStopReason::NodeLimit), "NodeLimit");
    assert_eq!(token(CCXStopReason::Other("  bad;line\nend\r ".to_string())), "Other(bad line end)");
    assert_eq!(token(CCXStopReason::Other(";;".to_string())), "Other()");
}

#[test]
fn stop_tokens_are_csv_safe() {
    let t = token(CCXStopReason::Other("a;b\nc\rd".to_string()));
    assert!(!t.contains(';') && !t.contains('\n') && !t.contains('\r'));
}
