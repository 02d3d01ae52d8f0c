//! Delays for polling loops: waiters that throttle, count or time out a
//! waiting cycle, and a builder that runs several of them in sequence.
//!
//! The deciding part of every waiter is verified here. A waiter never sleeps
//! by itself: when a throttle is due, `wait` hands back the span to sleep and
//! the position to resume from, and the caller sleeps and calls `resume`.

mod backoff;
mod clock;
mod compose;
mod count_timeout;
mod delay;
mod interval;
mod throttle;
mod timeout;
mod waiter;

pub mod basic;
pub mod laws;

pub use backoff::BackoffState;
pub use clock::span_between;
pub use compose::DelayComposer;
pub use count_timeout::CountTimeoutWaiter;
pub use delay::{Delay, DelayBuilder};
pub use interval::Interval;
pub use throttle::ThrottleWaiter;
pub use timeout::TimeoutWaiter;
pub use waiter::{
    all_read_after_starts, alone, combine, leaf_restart, leaf_start, leaf_started, leaf_step, not_before, plan, plan_alone, reads_after_start, restart_reads_fresh,
    restart_from, run, run_reads_fresh, same_plan, shifted, start_all, timeout_from, timeout_outcome, LeafView, StepOutcome, WaitStep, Waiter,
    WaiterError,
};
