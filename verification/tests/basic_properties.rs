use delay::basic::{Delay, Waiter, WaiterError};
use delay::{Interval, WaitStep};

#[test]
fn basic_waiters_need_no_start() {
    let mut count = Delay::count_timeout(2);
    assert_eq!(count.wait(), Ok(WaitStep::Done));
    assert_eq!(count.wait(), Err(WaiterError::Timeout));
    count.start();
    assert_eq!(count.wait(), Ok(WaitStep::Done));

    let mut timeout = Delay::timeout(Interval::from_secs(60));
    assert_eq!(timeout.wait(), Ok(WaitStep::Done));
}

#[test]
fn basic_count_timeout_of_zero_or_one_fails_at_once() {
    let mut zero = Delay::count_timeout(0);
    assert_eq!(zero.wait(), Err(WaiterError::Timeout));
    let mut one = Delay::count_timeout(1);
    assert_eq!(one.wait(), Err(WaiterError::Timeout));
}

#[test]
fn basic_builder_runs_in_order() {
    let mut waiter = Delay::builder()
        .throttle(Interval::from_millis(10))
        .with(Delay::count_timeout(2))
        .timeout(Interval::from_secs(60))
        .build();
    assert_eq!(
        waiter.wait(),
        Ok(WaitStep::Sleep { span: Interval::from_millis(10), resume: 1 })
    );
    assert_eq!(waiter.resume(1), Ok(WaitStep::Done));
    assert_eq!(
        waiter.wait(),
        Ok(WaitStep::Sleep { span: Interval::from_millis(10), resume: 1 })
    );
    assert_eq!(waiter.resume(1), Err(WaiterError::Timeout));

    let mut empty = Delay::builder().build();
    assert_eq!(empty.wait(), Ok(WaitStep::Done));
    let mut instant = Delay::instant();
    assert_eq!(instant.wait(), Ok(WaitStep::Done));
}

#[test]
fn basic_clone_keeps_the_state() {
    let mut waiter = Delay::count_timeout(3);
    assert_eq!(waiter.wait(), Ok(WaitStep::Done));
    let mut copy = waiter.clone();
    assert_eq!(copy.wait(), Ok(WaitStep::Done));
    assert_eq!(copy.wait(), Err(WaiterError::Timeout));
    assert_eq!(waiter.wait(), Ok(WaitStep::Done));
    waiter.stop();
}
