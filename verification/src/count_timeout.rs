use vstd::prelude::*;

use std::time::Instant;

use crate::interval::Interval;
use crate::waiter::{
    lemma_fresh_alone, run_reads_fresh,
    lemma_plan_alone, plan, plan_result_alone,
    alone, lemma_run_alone, lemma_run_past_end, leaf_restart, leaf_start, leaf_step, restart_from,
    result_alone, run, start_all, LeafView, StepOutcome, WaitStep, Waiter, WaiterError,
};

verus! {

/// A waiter that does not sleep, but fails after a number of waits.
#[derive(Clone, Copy)]
pub struct CountTimeoutWaiter {
    max_count: u64,
    /// The successful waits since the start; `None` until started.
    count: Option<u64>,
}

impl View for CountTimeoutWaiter {
    type V = LeafView;

    closed spec fn view(&self) -> LeafView {
        LeafView::Count {
            max: self.max_count,
            passed: match self.count {
                Some(c) => c,
                None => 0,
            },
            started: self.count is Some,
        }
    }
}

impl CountTimeoutWaiter {
    /// A waiter that allows `max_count` waits after each start; it has not
    /// been started yet.
    pub fn new(max_count: u64) -> (r: Self)
        ensures
            r@ == (LeafView::Count { max: max_count, passed: 0, started: false }),
    {
        CountTimeoutWaiter { max_count, count: None }
    }

    pub(crate) fn arm(&mut self)
        ensures
            old(self)@ is Count,
            forall|now: Instant| final(self)@ == #[trigger] leaf_start(old(self)@, now),
    {
        self.count = Some(0);
    }

    pub(crate) fn rearm(&mut self) -> (r: Result<(), WaiterError>)
        ensures
            old(self)@ is Count,
            forall|now: Instant| (final(self)@, r) == #[trigger] leaf_restart(old(self)@, now),
    {
        match self.count {
            None => Err(WaiterError::NotStarted),
            Some(_) => {
                self.count = Some(0);
                Ok(())
            },
        }
    }

    pub(crate) fn advance(&mut self) -> (r: StepOutcome)
        ensures
            old(self)@ is Count,
            forall|e: Instant| #[trigger] leaf_step(old(self)@, e) == (final(self)@, r),
    {
        match self.count {
            None => StepOutcome::Fail(WaiterError::NotStarted),
            Some(c) => {
                if c < self.max_count {
                    self.count = Some(c + 1);
                    StepOutcome::Proceed
                } else {
                    StepOutcome::Fail(WaiterError::Timeout)
                }
            },
        }
    }
}

impl Waiter for CountTimeoutWaiter {
    open spec fn waiters(&self) -> Seq<LeafView> {
        seq![self@]
    }

    fn start(&mut self)
        ensures
            final(self)@ == (LeafView::Count { max: old(self)@->max, passed: 0, started: true }),
    {
        self.arm();
        proof {
            let e = arbitrary::<Instant>();
            lemma_fresh_alone(old(self)@, e);
            assert(self@ == leaf_start(old(self)@, e));
            assert(start_all(seq![old(self)@], seq![e]) =~= seq![self@]);
            assert(self.waiters() == start_all(old(self).waiters(), seq![e]));
        }
    }

    fn restart(&mut self) -> (r: Result<(), WaiterError>) {
        let r = self.rearm();
        proof {
            let e = arbitrary::<Instant>();
            lemma_fresh_alone(old(self)@, e);
            assert((self@, r) == leaf_restart(old(self)@, e));
            reveal_with_fuel(restart_from, 2);
            assert(seq![old(self)@].update(0, self@) =~= seq![self@]);
            assert((self.waiters(), r) == restart_from(old(self).waiters(), 0, seq![e]));
        }
        r
    }

    fn wait(&mut self) -> (r: Result<WaitStep, WaiterError>) {
        self.resume(0)
    }

    fn resume(&mut self, at: usize) -> (r: Result<WaitStep, WaiterError>) {
        let ghost e = arbitrary::<Instant>();
        if at == 0 {
            let o = self.advance();
            proof {
                assert(leaf_step(old(self)@, e) == (self@, o));
                lemma_fresh_alone(old(self)@, e);
                lemma_run_alone(old(self)@, e);
                assert(run(old(self).waiters(), at as nat, seq![e]) == (self.waiters(), alone(o)));
            }
            result_alone(o)
        } else {
            proof {
                lemma_fresh_alone(self@, e);
                assert(run_reads_fresh(seq![self@], at as nat, seq![e]));
                lemma_run_past_end(seq![self@], at as nat, seq![e]);
                assert(run(old(self).waiters(), at as nat, seq![e]) == (
                    self.waiters(),
                    Ok::<WaitStep, WaiterError>(WaitStep::Done),
                ));
            }
            Ok(WaitStep::Done)
        }
    }

    fn plan_async_wait(&mut self) -> (r: Result<Vec<Interval>, WaiterError>) {
        let o = self.advance();
        proof {
            let e = arbitrary::<Instant>();
            lemma_fresh_alone(old(self)@, e);
            assert(leaf_step(old(self)@, e) == (self@, o));
            lemma_fresh_alone(old(self)@, e);
            lemma_plan_alone(old(self)@, e);
            assert(plan(old(self).waiters(), 0, seq![e]).0 == self.waiters());
        }
        plan_result_alone(o)
    }
}

} // verus!
