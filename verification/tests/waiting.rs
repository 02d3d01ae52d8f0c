use delay::{Delay, Interval, WaitStep, Waiter, WaiterError};
use std::time::{Duration, Instant};

fn to_duration(span: Interval) -> Duration {
    let nanos = span.as_nanos();
    Duration::new((nanos / 1_000_000_000) as u64, (nanos % 1_000_000_000) as u32)
}

/// Lets `span` pass before returning.
fn pause(span: Duration) {
    let end = Instant::now() + span;
    while Instant::now() < end {
        std::hint::spin_loop();
    }
}

/// Runs one waiting cycle to its end, sleeping where the delay says so.
fn wait_through<W: Waiter>(waiter: &mut W) -> Result<(), WaiterError> {
    let mut step = waiter.wait()?;
    while let WaitStep::Sleep { span, resume } = step {
        pause(to_duration(span));
        step = waiter.resume(resume)?;
    }
    Ok(())
}

#[test]
fn throttle_works() {
    let start = Instant::now();

    let mut waiter = Delay::throttle(Interval::from_millis(50));
    waiter.start();
    wait_through(&mut waiter).unwrap();

    assert!(Instant::now().duration_since(start).as_millis() >= 50);
}

#[test]
fn timeout_works() {
    let mut waiter = Delay::timeout(Interval::from_millis(50));
    waiter.start();

    assert!(waiter.wait().is_ok());
    assert!(waiter.wait().is_ok());
    pause(Duration::from_millis(10));
    assert!(waiter.wait().is_ok());
    pause(Duration::from_millis(50));
    assert!(waiter.wait().is_err());
}

#[test]
fn counter_works() {
    let mut waiter = Delay::count_timeout(3);
    waiter.start();

    assert!(waiter.wait().is_ok());
    assert!(waiter.wait().is_ok());
    assert!(waiter.wait().is_ok());
    assert!(waiter.wait().is_err());
    assert!(waiter.wait().is_err());
}

#[test]
fn clone_works() {
    let mut waiter1 = Delay::count_timeout(3);
    let mut waiter2 = waiter1.clone();

    waiter1.start();
    assert!(waiter1.wait().is_ok());
    assert!(waiter1.wait().is_ok());
    assert!(waiter1.wait().is_ok());
    assert!(waiter1.wait().is_err());

    waiter2.start();
    assert!(waiter2.wait().is_ok());
    assert!(waiter2.wait().is_ok());
    assert!(waiter2.wait().is_ok());
    assert!(waiter2.wait().is_err());
}

#[test]
fn cannot_restart_or_wait_without_start() {
    let mut waiter = Delay::timeout(Interval::from_millis(50));
    assert!(waiter.wait().is_err());
    assert!(waiter.restart().is_err());
    waiter.start();
    assert!(waiter.wait().is_ok());
    assert!(waiter.restart().is_ok());

    let mut waiter1 = Delay::count_timeout(3);
    assert!(waiter1.wait().is_err());
    assert!(waiter1.restart().is_err());
    waiter1.start();
    assert!(waiter1.wait().is_ok());
    assert!(waiter1.restart().is_ok());
}

#[test]
fn restart_works() {
    let mut waiter = Delay::timeout(Interval::from_millis(50));
    waiter.start();

    assert!(waiter.wait().is_ok());
    pause(Duration::from_millis(10));
    assert!(waiter.wait().is_ok());
    pause(Duration::from_millis(50));
    assert!(waiter.wait().is_err());

    assert!(waiter.restart().is_ok());

    assert!(waiter.wait().is_ok());
    pause(Duration::from_millis(10));
    assert!(waiter.wait().is_ok());
    pause(Duration::from_millis(50));
    assert!(waiter.wait().is_err());
}

#[test]
fn throttle_and_timeout_fail_after_throttling_too_long() {
    let mut waiter = Delay::builder()
        .throttle(Interval::from_millis(20))
        .timeout(Interval::from_millis(30))
        .build();
    waiter.start();
    assert!(wait_through(&mut waiter).is_ok());
    assert_eq!(wait_through(&mut waiter), Err(WaiterError::Timeout));
}
