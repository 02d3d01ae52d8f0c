use delay::{
    BackoffState,
    CountTimeoutWaiter, Delay, DelayComposer, Interval, StepOutcome, ThrottleWaiter, TimeoutWaiter,
    WaitStep, Waiter, WaiterError,
};

#[test]
fn interval_formulas() {
    assert_eq!(Interval::from_secs(2).as_nanos(), 2_000_000_000);
    assert_eq!(Interval::from_millis(50).as_nanos(), 50_000_000);
    assert_eq!(Interval::from_micros(7).as_nanos(), 7_000);
    assert_eq!(Interval::from_nanos(3).as_nanos(), 3);
    assert_eq!(
        Interval::from_secs(u64::MAX).as_nanos(),
        u64::MAX as u128 * 1_000_000_000
    );
    assert!(Interval::from_millis(2).longer_than(&Interval::from_micros(1_999)));
    assert!(!Interval::from_millis(2).longer_than(&Interval::from_micros(2_000)));
}

#[test]
fn timeout_decides_on_elapsed_time() {
    let mut waiter = TimeoutWaiter::new(Interval::from_millis(50));
    assert_eq!(
        waiter.decide(Interval::from_millis(10)),
        StepOutcome::Fail(WaiterError::NotStarted)
    );
    waiter.start();
    assert_eq!(waiter.decide(Interval::from_millis(10)), StepOutcome::Proceed);
    assert_eq!(waiter.decide(Interval::from_millis(50)), StepOutcome::Proceed);
    assert_eq!(
        waiter.decide(Interval::from_millis(51)),
        StepOutcome::Fail(WaiterError::Timeout)
    );
    assert_eq!(waiter.wait(), Ok(WaitStep::Done));
}

#[test]
fn errors_come_with_their_cause() {
    let mut never_started = Delay::count_timeout(1);
    assert_eq!(never_started.wait(), Err(WaiterError::NotStarted));
    assert_eq!(never_started.restart(), Err(WaiterError::NotStarted));

    let mut used_up = Delay::count_timeout(1);
    used_up.start();
    assert_eq!(used_up.wait(), Ok(WaitStep::Done));
    assert_eq!(used_up.wait(), Err(WaiterError::Timeout));
}

#[test]
fn count_timeout_of_zero_never_lets_a_wait_through() {
    let mut waiter = Delay::count_timeout(0);
    waiter.start();
    assert_eq!(waiter.wait(), Err(WaiterError::Timeout));
    assert_eq!(waiter.wait(), Err(WaiterError::Timeout));
}

#[test]
fn restart_of_a_started_waiter_starts_it_over() {
    let mut waiter = Delay::count_timeout(2);
    waiter.start();
    assert_eq!(waiter.wait(), Ok(WaitStep::Done));
    assert_eq!(waiter.wait(), Ok(WaitStep::Done));
    assert_eq!(waiter.wait(), Err(WaiterError::Timeout));
    assert_eq!(waiter.restart(), Ok(()));
    assert_eq!(waiter.wait(), Ok(WaitStep::Done));
    assert_eq!(waiter.wait(), Ok(WaitStep::Done));
    assert_eq!(waiter.wait(), Err(WaiterError::Timeout));
}

#[test]
fn instant_never_fails() {
    let mut waiter = Delay::instant();
    assert_eq!(waiter.wait(), Ok(WaitStep::Done));
    assert_eq!(waiter.restart(), Ok(()));
    waiter.start();
    for _ in 0..10 {
        assert_eq!(waiter.wait(), Ok(WaitStep::Done));
    }
}

#[test]
fn empty_builder_builds_an_instant_delay() {
    let mut waiter = Delay::builder().build();
    assert_eq!(waiter.wait(), Ok(WaitStep::Done));
    assert_eq!(waiter.plan_async_wait(), Ok(vec![]));
}

#[test]
fn throttles_sleep_one_after_the_other() {
    let mut waiter = Delay::builder()
        .throttle(Interval::from_millis(10))
        .throttle(Interval::from_millis(20))
        .build();
    waiter.start();
    assert_eq!(
        waiter.wait(),
        Ok(WaitStep::Sleep { span: Interval::from_millis(10), resume: 1 })
    );
    assert_eq!(
        waiter.resume(1),
        Ok(WaitStep::Sleep { span: Interval::from_millis(20), resume: 2 })
    );
    assert_eq!(waiter.resume(2), Ok(WaitStep::Done));
}

#[test]
fn builder_stops_at_the_first_failure() {
    let mut waiter = Delay::builder()
        .throttle(Interval::from_millis(10))
        .with(Delay::count_timeout(1))
        .throttle(Interval::from_millis(20))
        .build();
    waiter.start();
    assert_eq!(
        waiter.wait(),
        Ok(WaitStep::Sleep { span: Interval::from_millis(10), resume: 1 })
    );
    assert_eq!(
        waiter.resume(1),
        Ok(WaitStep::Sleep { span: Interval::from_millis(20), resume: 3 })
    );
    assert_eq!(waiter.resume(3), Ok(WaitStep::Done));
    assert_eq!(
        waiter.wait(),
        Ok(WaitStep::Sleep { span: Interval::from_millis(10), resume: 1 })
    );
    assert_eq!(waiter.resume(1), Err(WaiterError::Timeout));
}

#[test]
fn builder_with_a_timeout_fails_on_an_unstarted_timeout() {
    let mut waiter = Delay::builder()
        .with(Delay::instant())
        .timeout(Interval::from_millis(50))
        .build();
    assert_eq!(waiter.wait(), Err(WaiterError::NotStarted));
    waiter.start();
    assert_eq!(waiter.wait(), Ok(WaitStep::Done));
}

#[test]
fn composer_runs_its_parts_in_order() {
    let mut waiter = DelayComposer::new(Delay::count_timeout(1), Delay::count_timeout(2));
    waiter.start();
    assert_eq!(waiter.wait(), Ok(WaitStep::Done));
    assert_eq!(waiter.wait(), Err(WaiterError::Timeout));
    assert_eq!(waiter.restart(), Ok(()));
    assert_eq!(waiter.wait(), Ok(WaitStep::Done));
}

#[test]
fn composer_restart_stops_at_a_waiter_never_started() {
    let mut first = Delay::count_timeout(1);
    first.start();
    let mut waiter = DelayComposer::new(first, Delay::timeout(Interval::from_millis(5)));
    assert_eq!(waiter.restart(), Err(WaiterError::NotStarted));
    assert_eq!(waiter.wait(), Err(WaiterError::NotStarted));
}

#[test]
fn elementary_waiters_wait_alone() {
    let mut throttle = ThrottleWaiter::new(Interval::from_millis(3));
    throttle.start();
    assert_eq!(
        throttle.wait(),
        Ok(WaitStep::Sleep { span: Interval::from_millis(3), resume: 1 })
    );
    assert_eq!(throttle.resume(1), Ok(WaitStep::Done));
    assert_eq!(throttle.restart(), Ok(()));

    let mut count = CountTimeoutWaiter::new(1);
    assert_eq!(count.wait(), Err(WaiterError::NotStarted));
    count.start();
    assert_eq!(count.wait(), Ok(WaitStep::Done));
    assert_eq!(count.wait(), Err(WaiterError::Timeout));
    assert_eq!(count.restart(), Ok(()));
    assert_eq!(count.wait(), Ok(WaitStep::Done));
}

#[test]
fn async_wait_decides_for_every_waiter() {
    let mut waiter = Delay::builder()
        .throttle(Interval::from_millis(10))
        .with(Delay::count_timeout(1))
        .throttle(Interval::from_millis(20))
        .build();
    assert_eq!(waiter.plan_async_wait(), Err(WaiterError::NotStarted));
    waiter.start();
    assert_eq!(
        waiter.plan_async_wait(),
        Ok(vec![Interval::from_millis(10), Interval::from_millis(20)])
    );
    assert_eq!(waiter.plan_async_wait(), Err(WaiterError::Timeout));
}

#[test]
fn async_wait_reports_the_first_error() {
    let mut used_up = Delay::count_timeout(0);
    used_up.start();
    let mut waiter = Delay::builder()
        .with(used_up)
        .with(Delay::timeout(Interval::from_millis(5)))
        .build();
    assert_eq!(waiter.plan_async_wait(), Err(WaiterError::Timeout));

    let mut reversed = Delay::builder()
        .with(Delay::timeout(Interval::from_millis(5)))
        .with(Delay::count_timeout(0))
        .build();
    assert_eq!(reversed.plan_async_wait(), Err(WaiterError::NotStarted));

    let mut counts = Delay::builder()
        .with(Delay::count_timeout(0))
        .with(Delay::count_timeout(1))
        .build();
    counts.start();
    assert_eq!(counts.plan_async_wait(), Err(WaiterError::Timeout));
    // The second count decided too: its one wait is used up.
    assert_eq!(counts.resume(1), Err(WaiterError::Timeout));
}

#[test]
fn clone_keeps_the_state() {
    let mut waiter = Delay::count_timeout(2);
    waiter.start();
    assert_eq!(waiter.wait(), Ok(WaitStep::Done));
    let mut copy = waiter.clone();
    assert_eq!(copy.wait(), Ok(WaitStep::Done));
    assert_eq!(copy.wait(), Err(WaiterError::Timeout));
    assert_eq!(waiter.wait(), Ok(WaitStep::Done));
}

#[test]
fn timeout_restart_and_start_through_the_waiter() {
    let mut waiter = TimeoutWaiter::new(Interval::from_secs(60));
    assert_eq!(waiter.wait(), Err(WaiterError::NotStarted));
    assert_eq!(waiter.restart(), Err(WaiterError::NotStarted));
    assert_eq!(waiter.plan_async_wait(), Err(WaiterError::NotStarted));
    waiter.start();
    assert_eq!(waiter.wait(), Ok(WaitStep::Done));
    assert_eq!(waiter.restart(), Ok(()));
    assert_eq!(waiter.plan_async_wait(), Ok(vec![]));

    let mut short = TimeoutWaiter::new(Interval::from_nanos(0));
    short.start();
    let end = std::time::Instant::now() + std::time::Duration::from_millis(2);
    while std::time::Instant::now() < end {
        std::hint::spin_loop();
    }
    assert_eq!(short.wait(), Err(WaiterError::Timeout));
    assert_eq!(short.restart(), Ok(()));
}

#[test]
fn backoff_state_steps() {
    let mut state = BackoffState::new(100, 1_000);
    assert_eq!(state.current(), None);
    assert_eq!(state.advance(200), Err(WaiterError::NotStarted));
    assert_eq!(state.restart(), Err(WaiterError::NotStarted));
    state.start();
    assert_eq!(state.current(), Some(100));
    assert_eq!(state.advance(200), Ok(100));
    assert_eq!(state.current(), Some(200));
    assert_eq!(state.advance(5_000), Ok(200));
    assert_eq!(state.current(), Some(1_000));
    assert_eq!(state.advance(2_000), Ok(1_000));
    assert_eq!(state.current(), Some(1_000));
    assert_eq!(state.restart(), Ok(()));
    assert_eq!(state.current(), Some(100));
}

#[test]
fn backoff_state_cap_is_an_upper_bound() {
    // Initial 100 us, cap 300 us, factor 2: 100, 200, 300, 300.
    let mut state = BackoffState::new(100, 300);
    state.start();
    assert_eq!(state.advance(200), Ok(100));
    assert_eq!(state.advance(400), Ok(200));
    assert_eq!(state.advance(600), Ok(300));
    assert_eq!(state.current(), Some(300));

    // Initial 100 ms, cap 50 ms: the first wait is not cut, the next ones are.
    let mut short = BackoffState::new(100_000, 50_000);
    short.start();
    assert_eq!(short.advance(200_000), Ok(100_000));
    assert_eq!(short.advance(100_000), Ok(50_000));
    assert_eq!(short.current(), Some(50_000));
}
