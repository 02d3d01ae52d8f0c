use vstd::prelude::*;

use std::time::Instant;

use crate::interval::Interval;
use crate::waiter::{
    lemma_fresh_alone, run_reads_fresh,
    lemma_plan_alone, plan, plan_result_alone,
    alone, lemma_run_alone, lemma_run_past_end, leaf_restart, leaf_start, leaf_step, restart_from, result_alone, run,
    start_all, LeafView, StepOutcome, WaitStep, Waiter, WaiterError,
};

verus! {

/// A waiter that sleeps for the same span at every wait.
#[derive(Clone, Copy)]
pub struct ThrottleWaiter {
    throttle: Interval,
}

impl View for ThrottleWaiter {
    type V = LeafView;

    closed spec fn view(&self) -> LeafView {
        LeafView::Throttle { span: self.throttle }
    }
}

impl ThrottleWaiter {
    pub fn new(throttle: Interval) -> (r: Self)
        ensures
            r@ == (LeafView::Throttle { span: throttle }),
    {
        Self { throttle }
    }

    pub(crate) fn arm(&mut self)
        ensures
            old(self)@ is Throttle,
            forall|now: Instant| final(self)@ == #[trigger] leaf_start(old(self)@, now),
    {
    }

    pub(crate) fn rearm(&mut self) -> (r: Result<(), WaiterError>)
        ensures
            old(self)@ is Throttle,
            forall|now: Instant| (final(self)@, r) == #[trigger] leaf_restart(old(self)@, now),
    {
        Ok(())
    }

    pub(crate) fn advance(&self) -> (r: StepOutcome)
        ensures
            self@ is Throttle,
            forall|e: Instant| #[trigger] leaf_step(self@, e) == (self@, r),
    {
        StepOutcome::Pause(self.throttle)
    }
}

impl Waiter for ThrottleWaiter {
    open spec fn waiters(&self) -> Seq<LeafView> {
        seq![self@]
    }

    fn start(&mut self)
        ensures
            final(self)@ == old(self)@,
    {
        proof {
            let e = arbitrary::<Instant>();
            lemma_fresh_alone(old(self)@, e);
            assert(start_all(seq![self@], seq![e]) =~= seq![self@]);
            assert(self.waiters() == start_all(self.waiters(), seq![e]));
        }
    }

    fn restart(&mut self) -> (r: Result<(), WaiterError>)
        ensures
            final(self)@ == old(self)@,
            r == Ok::<(), WaiterError>(()),
    {
        proof {
            let e = arbitrary::<Instant>();
            lemma_fresh_alone(old(self)@, e);
            reveal_with_fuel(restart_from, 2);
            assert(seq![self@].update(0, self@) =~= seq![self@]);
            assert((self.waiters(), Ok::<(), WaiterError>(())) == restart_from(
                self.waiters(),
                0,
                seq![e],
            ));
        }
        Ok(())
    }

    fn wait(&mut self) -> (r: Result<WaitStep, WaiterError>)
        ensures
            final(self)@ == old(self)@,
            r == Ok::<WaitStep, WaiterError>(WaitStep::Sleep { span: old(self)@->span, resume: 1 }),
    {
        self.resume(0)
    }

    fn resume(&mut self, at: usize) -> (r: Result<WaitStep, WaiterError>)
        ensures
            final(self)@ == old(self)@,
            r == if at == 0 {
                Ok::<WaitStep, WaiterError>(WaitStep::Sleep { span: old(self)@->span, resume: 1 })
            } else {
                Ok(WaitStep::Done)
            },
    {
        let ghost e = arbitrary::<Instant>();
        if at == 0 {
            let o = self.advance();
            proof {
                assert(leaf_step(self@, e) == (self@, o));
                lemma_fresh_alone(self@, e);
                lemma_run_alone(self@, e);
                assert(run(old(self).waiters(), at as nat, seq![e]) == (self.waiters(), alone(o)));
            }
            result_alone(o)
        } else {
            proof {
                lemma_fresh_alone(self@, e);
                assert(run_reads_fresh(seq![self@], at as nat, seq![e]));
                lemma_run_past_end(seq![self@], at as nat, seq![e]);
                assert(run(old(self).waiters(), at as nat, seq![e]) == (
                    self.waiters(),
                    Ok::<WaitStep, WaiterError>(WaitStep::Done),
                ));
            }
            Ok(WaitStep::Done)
        }
    }

    fn plan_async_wait(&mut self) -> (r: Result<Vec<Interval>, WaiterError>) {
        let o = self.advance();
        proof {
            let e = arbitrary::<Instant>();
            lemma_fresh_alone(old(self)@, e);
            assert(leaf_step(old(self)@, e) == (self@, o));
            lemma_fresh_alone(old(self)@, e);
            lemma_plan_alone(old(self)@, e);
            assert(plan(old(self).waiters(), 0, seq![e]).0 == self.waiters());
        }
        plan_result_alone(o)
    }
}

} // verus!
