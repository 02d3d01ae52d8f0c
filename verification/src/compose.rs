use std::time::Instant;
use vstd::prelude::*;

use crate::delay::Delay;
use crate::interval::Interval;
use crate::waiter::{plan, restart_from, run, same_plan, start_all, LeafView, WaitStep, Waiter, WaiterError};

verus! {

/// Two delays that wait one after the other: the second waits only when the
/// first has finished its cycle.
pub struct DelayComposer {
    inner: Delay,
}

impl DelayComposer {
    pub fn new(a: Delay, b: Delay) -> (r: Self)
        ensures
            r.waiters() == a@ + b@,
    {
        DelayComposer { inner: a.followed_by(b) }
    }

    pub(crate) fn into_delay(self) -> (r: Delay)
        ensures
            r@ == self.waiters(),
    {
        self.inner
    }
}

impl Waiter for DelayComposer {
    closed spec fn waiters(&self) -> Seq<LeafView> {
        self.inner@
    }

    fn start(&mut self) {
        self.inner.start();
        proof {
            let nows = choose|nows: Seq<Instant>|
                nows.len() == old(self).inner@.len() && self.inner@ == #[trigger] start_all(
                    old(self).inner@,
                    nows,
                );
            assert(self.waiters() == start_all(old(self).waiters(), nows));
        }
    }

    fn restart(&mut self) -> (r: Result<(), WaiterError>) {
        let r = self.inner.restart();
        proof {
            let nows = choose|nows: Seq<Instant>|
                nows.len() == old(self).inner@.len() && (self.inner@, r) == #[trigger] restart_from(
                    old(self).inner@,
                    0,
                    nows,
                );
            assert((self.waiters(), r) == restart_from(old(self).waiters(), 0, nows));
        }
        r
    }

    fn wait(&mut self) -> (r: Result<WaitStep, WaiterError>) {
        self.resume(0)
    }

    fn resume(&mut self, at: usize) -> (r: Result<WaitStep, WaiterError>) {
        let r = self.inner.resume(at);
        proof {
            let els = choose|els: Seq<Instant>|
                els.len() == old(self).inner@.len() && #[trigger] run(
                    old(self).inner@,
                    at as nat,
                    els,
                ) == (self.inner@, r);
            assert(run(old(self).waiters(), at as nat, els) == (self.waiters(), r));
        }
        r
    }

    fn plan_async_wait(&mut self) -> (r: Result<Vec<Interval>, WaiterError>) {
        let r = self.inner.plan_async_wait();
        proof {
            let els = choose|els: Seq<Instant>|
                els.len() == old(self).inner@.len() && #[trigger] plan(old(self).inner@, 0, els).0
                    == self.inner@ && same_plan(r, plan(old(self).inner@, 0, els).1);
            assert(plan(old(self).waiters(), 0, els).0 == self.waiters());
        }
        r
    }
}

} // verus!
