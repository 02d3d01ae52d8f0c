use std::time::Instant;
use vstd::prelude::*;

use crate::clock::{clock_now, span_since};
use crate::interval::Interval;
use crate::waiter::{
    lemma_fresh_alone, run_reads_fresh,
    alone, lemma_plan_alone, lemma_run_alone, lemma_run_past_end, leaf_restart, leaf_start,
    leaf_step, plan, plan_result_alone, restart_from, result_alone, run, start_all,
    reads_after_start, timeout_from, timeout_outcome, LeafView, StepOutcome, WaitStep, Waiter, WaiterError,
};

verus! {

/// A waiter that does not sleep, but fails once more than its timeout has
/// elapsed since it was started.
#[derive(Clone, Copy)]
pub struct TimeoutWaiter {
    timeout: Interval,
    start: Option<Instant>,
}

impl View for TimeoutWaiter {
    type V = LeafView;

    closed spec fn view(&self) -> LeafView {
        LeafView::Timeout { limit: self.timeout, start: self.start }
    }
}

impl TimeoutWaiter {
    /// A timeout waiter that has not been started yet.
    pub fn new(timeout: Interval) -> (r: Self)
        ensures
            r@ == (LeafView::Timeout { limit: timeout, start: None }),
    {
        Self { timeout, start: None }
    }

    /// The decision of a wait, given the time elapsed since the start.
    pub fn decide(&self, elapsed: Interval) -> (r: StepOutcome)
        ensures
            self@ is Timeout,
            r == (if self@->start is Some {
                timeout_outcome(self@->limit, elapsed@)
            } else {
                StepOutcome::Fail(WaiterError::NotStarted)
            }),
    {
        match self.start {
            None => StepOutcome::Fail(WaiterError::NotStarted),
            Some(_) => {
                if elapsed.longer_than(&self.timeout) {
                    StepOutcome::Fail(WaiterError::Timeout)
                } else {
                    StepOutcome::Proceed
                }
            },
        }
    }

    pub(crate) fn arm(&mut self)
        ensures
            exists|now: Instant|
                final(self)@ == #[trigger] leaf_start(old(self)@, now) && reads_after_start(
                    old(self)@,
                    now,
                ),
    {
        let now = match self.start {
            Some(s) => clock_now(Some(&s)),
            None => clock_now(None),
        };
        self.start = Some(now);
        assert(self@ == leaf_start(old(self)@, now) && reads_after_start(old(self)@, now));
    }

    pub(crate) fn rearm(&mut self) -> (r: Result<(), WaiterError>)
        ensures
            exists|now: Instant|
                (final(self)@, r) == #[trigger] leaf_restart(old(self)@, now) && reads_after_start(
                    old(self)@,
                    now,
                ),
    {
        match self.start {
            None => {
                let r = Err(WaiterError::NotStarted);
                assert((self@, r) == leaf_restart(old(self)@, arbitrary::<Instant>())
                    && reads_after_start(old(self)@, arbitrary::<Instant>()));
                r
            },
            Some(s) => {
                let now = clock_now(Some(&s));
                self.start = Some(now);
                let r = Ok(());
                assert((self@, r) == leaf_restart(old(self)@, now) && reads_after_start(
                    old(self)@,
                    now,
                ));
                r
            },
        }
    }

    /// One wait: fails if never started, else reads the clock and compares
    /// the time since the stored start instant with the timeout.
    pub(crate) fn advance(&mut self) -> (r: StepOutcome)
        ensures
            exists|now: Instant|
                #[trigger] leaf_step(old(self)@, now) == (final(self)@, r) && reads_after_start(
                    old(self)@,
                    now,
                ),
    {
        match self.start {
            None => {
                let r = StepOutcome::Fail(WaiterError::NotStarted);
                assert(leaf_step(self@, arbitrary::<Instant>()) == (self@, r) && reads_after_start(
                    self@,
                    arbitrary::<Instant>(),
                ));
                r
            },
            Some(start) => {
                let now = clock_now(Some(&start));
                let elapsed = span_since(&now, &start);
                let r = self.decide(elapsed);
                assert(leaf_step(self@, now) == (self@, r) && reads_after_start(self@, now));
                r
            },
        }
    }
}

impl Waiter for TimeoutWaiter {
    open spec fn waiters(&self) -> Seq<LeafView> {
        seq![self@]
    }

    fn start(&mut self)
        ensures
            exists|now: Instant| final(self)@ == #[trigger] timeout_from(old(self)@->limit, now),
    {
        self.arm();
        proof {
            let now = choose|now: Instant|
                self@ == #[trigger] leaf_start(old(self)@, now) && reads_after_start(old(self)@, now);
            lemma_fresh_alone(old(self)@, now);
            assert(start_all(seq![old(self)@], seq![now]) =~= seq![self@]);
            assert(self.waiters() == start_all(old(self).waiters(), seq![now]));
            assert(self@ == timeout_from(old(self)@->limit, now));
        }
    }

    fn restart(&mut self) -> (r: Result<(), WaiterError>) {
        let r = self.rearm();
        proof {
            let now = choose|now: Instant|
                (self@, r) == #[trigger] leaf_restart(old(self)@, now) && reads_after_start(
                    old(self)@,
                    now,
                );
            lemma_fresh_alone(old(self)@, now);
            reveal_with_fuel(restart_from, 2);
            assert(seq![old(self)@].update(0, self@) =~= seq![self@]);
            assert((self.waiters(), r) == restart_from(old(self).waiters(), 0, seq![now]));
        }
        r
    }

    fn wait(&mut self) -> (r: Result<WaitStep, WaiterError>) {
        self.resume(0)
    }

    fn resume(&mut self, at: usize) -> (r: Result<WaitStep, WaiterError>) {
        if at == 0 {
            let o = self.advance();
            proof {
                let e = choose|e: Instant|
                    #[trigger] leaf_step(old(self)@, e) == (self@, o) && reads_after_start(
                        old(self)@,
                        e,
                    );
                lemma_fresh_alone(old(self)@, e);
                lemma_run_alone(old(self)@, e);
                assert(run(old(self).waiters(), at as nat, seq![e]) == (self.waiters(), alone(o)));
            }
            result_alone(o)
        } else {
            proof {
                let e = arbitrary::<Instant>();
                lemma_fresh_alone(self@, e);
                assert(run_reads_fresh(seq![self@], at as nat, seq![e]));
                lemma_run_past_end(seq![self@], at as nat, seq![e]);
                assert(run(old(self).waiters(), at as nat, seq![e]) == (
                    self.waiters(),
                    Ok::<WaitStep, WaiterError>(WaitStep::Done),
                ));
            }
            Ok(WaitStep::Done)
        }
    }

    fn plan_async_wait(&mut self) -> (r: Result<Vec<Interval>, WaiterError>) {
        let o = self.advance();
        proof {
            let e = choose|e: Instant|
                #[trigger] leaf_step(old(self)@, e) == (self@, o) && reads_after_start(old(self)@, e);
            lemma_fresh_alone(old(self)@, e);
            lemma_plan_alone(old(self)@, e);
            assert(plan(old(self).waiters(), 0, seq![e]).0 == self.waiters());
        }
        plan_result_alone(o)
    }
}

} // verus!
