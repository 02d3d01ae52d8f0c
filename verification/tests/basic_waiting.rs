use delay::basic::{Delay, WaiterError, Waiter};
use delay::{Interval, WaitStep};
use std::time::{Duration, Instant};

fn to_duration(span: Interval) -> Duration {
    let nanos = span.as_nanos();
    Duration::new((nanos / 1_000_000_000) as u64, (nanos % 1_000_000_000) as u32)
}

/// Lets `span` pass before returning.
fn pause(span: Duration) {
    let end = Instant::now() + span;
    while Instant::now() < end {
        std::hint::spin_loop();
    }
}

/// Runs one waiting cycle to its end, sleeping where the delay says so.
fn wait_through(waiter: &mut Delay) -> Result<(), WaiterError> {
    let mut step = waiter.wait()?;
    while let WaitStep::Sleep { span, resume } = step {
        pause(to_duration(span));
        step = waiter.resume(resume)?;
    }
    Ok(())
}

#[test]
fn tests_throttle_works() {
    let start = Instant::now();

    let mut waiter = Delay::throttle(Interval::from_millis(50));
    waiter.start();
    wait_through(&mut waiter).unwrap();
    waiter.stop();

    assert!(Instant::now().duration_since(start).as_millis() >= 50);
}

#[test]
fn tests_timeout_works() {
    let mut waiter = Delay::timeout(Interval::from_millis(50));
    waiter.start();

    assert!(waiter.wait().is_ok());
    assert!(waiter.wait().is_ok());
    pause(Duration::from_millis(10));
    assert!(waiter.wait().is_ok());
    pause(Duration::from_millis(50));
    assert!(waiter.wait().is_err());

    waiter.stop();
}

#[test]
fn tests_counter_works() {
    let mut waiter = Delay::count_timeout(3);
    waiter.start();

    assert!(waiter.wait().is_ok());
    assert!(waiter.wait().is_ok());
    assert!(waiter.wait().is_err());
    assert!(waiter.wait().is_err());

    waiter.stop();
}
