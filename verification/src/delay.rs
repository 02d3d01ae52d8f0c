use std::time::Instant;
use vstd::prelude::*;

use crate::compose::DelayComposer;
use crate::count_timeout::CountTimeoutWaiter;
use crate::interval::Interval;
use crate::throttle::ThrottleWaiter;
use crate::timeout::TimeoutWaiter;
use crate::waiter::{
    all_read_after_starts, reads_after_start, restart_reads_fresh, run_reads_fresh,
    combine, plan, leaf_restart, leaf_start, leaf_step, restart_from, run, start_all, LeafView, StepOutcome,
    WaitStep, Waiter, WaiterError,
};

verus! {

/// One elementary waiter of a delay.
#[derive(Clone, Copy)]
pub(crate) enum Leaf {
    Immediate,
    Timeout(TimeoutWaiter),
    Count(CountTimeoutWaiter),
    Throttle(ThrottleWaiter),
}

impl View for Leaf {
    type V = LeafView;

    closed spec fn view(&self) -> LeafView {
        match self {
            Leaf::Immediate => LeafView::Immediate,
            Leaf::Timeout(t) => t@,
            Leaf::Count(c) => c@,
            Leaf::Throttle(t) => t@,
        }
    }
}

impl Leaf {
    fn advance(self) -> (r: (Leaf, StepOutcome))
        ensures
            exists|e: Instant|
                #[trigger] leaf_step(self@, e) == (r.0@, r.1) && reads_after_start(self@, e),
    {
        match self {
            Leaf::Immediate => {
                let r = (Leaf::Immediate, StepOutcome::Proceed);
                assert(leaf_step(self@, arbitrary::<Instant>()) == (r.0@, r.1) && reads_after_start(self@, arbitrary::<Instant>()));
                r
            },
            Leaf::Timeout(t) => {
                let mut t = t;
                let o = t.advance();
                (Leaf::Timeout(t), o)
            },
            Leaf::Count(c) => {
                let mut c = c;
                let o = c.advance();
                assert(leaf_step(self@, arbitrary::<Instant>()) == (c@, o) && reads_after_start(self@, arbitrary::<Instant>()));
                (Leaf::Count(c), o)
            },
            Leaf::Throttle(t) => {
                let o = t.advance();
                assert(leaf_step(self@, arbitrary::<Instant>()) == (t@, o) && reads_after_start(self@, arbitrary::<Instant>()));
                (Leaf::Throttle(t), o)
            },
        }
    }

    fn arm(self) -> (r: Leaf)
        ensures
            exists|now: Instant|
                r@ == #[trigger] leaf_start(self@, now) && reads_after_start(self@, now),
    {
        match self {
            Leaf::Timeout(t) => {
                let mut t = t;
                t.arm();
                Leaf::Timeout(t)
            },
            Leaf::Count(c) => {
                let mut c = c;
                c.arm();
                assert(c@ == leaf_start(self@, arbitrary::<Instant>()) && reads_after_start(self@, arbitrary::<Instant>()));
                Leaf::Count(c)
            },
            Leaf::Throttle(t) => {
                let mut t = t;
                t.arm();
                assert(t@ == leaf_start(self@, arbitrary::<Instant>()) && reads_after_start(self@, arbitrary::<Instant>()));
                Leaf::Throttle(t)
            },
            Leaf::Immediate => {
                assert(self@ == leaf_start(self@, arbitrary::<Instant>()) && reads_after_start(self@, arbitrary::<Instant>()));
                Leaf::Immediate
            },
        }
    }

    fn rearm(self) -> (r: (Leaf, Result<(), WaiterError>))
        ensures
            exists|now: Instant|
                (r.0@, r.1) == #[trigger] leaf_restart(self@, now) && reads_after_start(self@, now),
    {
        match self {
            Leaf::Timeout(t) => {
                let mut t = t;
                let r = t.rearm();
                (Leaf::Timeout(t), r)
            },
            Leaf::Count(c) => {
                let mut c = c;
                let r = c.rearm();
                assert((c@, r) == leaf_restart(self@, arbitrary::<Instant>()) && reads_after_start(self@, arbitrary::<Instant>()));
                (Leaf::Count(c), r)
            },
            Leaf::Throttle(t) => {
                let mut t = t;
                let r = t.rearm();
                assert((t@, r) == leaf_restart(self@, arbitrary::<Instant>()) && reads_after_start(self@, arbitrary::<Instant>()));
                (Leaf::Throttle(t), r)
            },
            Leaf::Immediate => {
                let r = (Leaf::Immediate, Ok(()));
                assert((r.0@, r.1) == leaf_restart(self@, arbitrary::<Instant>()) && reads_after_start(self@, arbitrary::<Instant>()));
                r
            },
        }
    }
}

/// A delay: elementary waiters that wait one after the other.
///
/// Make one with a constructor (like [`Delay::timeout`]) or with a builder
/// that adds several waiters. When a waiting process begins, call `start`;
/// at every wait period, call `wait`, and sleep and `resume` as it says.
pub struct Delay {
    pub(crate) waiters: Vec<Leaf>,
}

impl View for Delay {
    type V = Seq<LeafView>;

    closed spec fn view(&self) -> Seq<LeafView> {
        self.waiters@.map_values(|l: Leaf| l@)
    }
}

impl Clone for Delay {
    fn clone(&self) -> (r: Self)
        ensures
            r@ == self@,
    {
        let n = self.waiters.len();
        let mut waiters: Vec<Leaf> = Vec::new();
        let mut i: usize = 0;
        while i < n
            invariant
                n == self.waiters.len(),
                i <= n,
                waiters.len() == i,
                forall|j: int| 0 <= j < i ==> #[trigger] waiters[j]@ == self.waiters[j]@,
            decreases n - i,
        {
            waiters.push(self.waiters[i]);
            i += 1;
        }
        let r = Delay { waiters };
        assert(r@ =~= self@);
        r
    }
}

impl Delay {
    fn from(inner: DelayComposer) -> (r: Self)
        ensures
            r@ == inner.waiters(),
    {
        inner.into_delay()
    }

    fn single(leaf: Leaf) -> (r: Self)
        ensures
            r@ == seq![leaf@],
    {
        let r = Delay { waiters: vec![leaf] };
        assert(r@ =~= seq![leaf@]);
        r
    }

    /// A delay that never waits. This can hog resources, so careful.
    pub fn instant() -> (r: Self)
        ensures
            r@ == seq![LeafView::Immediate],
    {
        Self::single(Leaf::Immediate)
    }

    /// A delay that does not sleep, but times out once `timeout` has elapsed
    /// since it was started.
    pub fn timeout(timeout: Interval) -> (r: Self)
        ensures
            r@ == seq![LeafView::Timeout { limit: timeout, start: None }],
    {
        Self::single(Leaf::Timeout(TimeoutWaiter::new(timeout)))
    }

    /// A delay that times out after `count` waits.
    pub fn count_timeout(count: u64) -> (r: Self)
        ensures
            r@ == seq![LeafView::Count { max: count, passed: 0, started: false }],
    {
        Self::single(Leaf::Count(CountTimeoutWaiter::new(count)))
    }

    /// A delay that sleeps for `throttle` at every wait.
    pub fn throttle(throttle: Interval) -> (r: Self)
        ensures
            r@ == seq![LeafView::Throttle { span: throttle }],
    {
        Self::single(Leaf::Throttle(ThrottleWaiter::new(throttle)))
    }

    /// A builder with no delay added yet.
    pub fn builder() -> (r: DelayBuilder)
        ensures
            r@ == None::<Seq<LeafView>>,
    {
        DelayBuilder { inner: None }
    }

    /// This delay, followed by `other`.
    pub(crate) fn followed_by(self, other: Delay) -> (r: Delay)
        ensures
            r@ == self@ + other@,
    {
        let mut a = self.waiters;
        let mut b = other.waiters;
        a.append(&mut b);
        let r = Delay { waiters: a };
        assert(r@ =~= self@ + other@);
        r
    }
}

impl Waiter for Delay {
    open spec fn waiters(&self) -> Seq<LeafView> {
        self@
    }

    fn start(&mut self) {
        let n = self.waiters.len();
        let ghost ws0 = self@;
        let ghost mut nows: Seq<Instant> = Seq::new(n as nat, |j: int| arbitrary::<Instant>());
        let mut i: usize = 0;
        while i < n
            invariant
                n == self.waiters.len(),
                ws0.len() == n,
                i <= n,
                ws0 == old(self)@,
                nows.len() == n,
                forall|j: int| 0 <= j < i ==> #[trigger] self@[j] == leaf_start(ws0[j], nows[j]),
                forall|j: int| 0 <= j < i ==> #[trigger] reads_after_start(ws0[j], nows[j]),
                forall|j: int| i <= j < n ==> #[trigger] self@[j] == ws0[j],
            decreases n - i,
        {
            let leaf = self.waiters[i];
            let ghost cur = self@;
            let next = leaf.arm();
            let ghost now = choose|now: Instant|
                next@ == #[trigger] leaf_start(leaf@, now) && reads_after_start(leaf@, now);
            assert(cur[i as int] == leaf@);
            self.waiters.set(i, next);
            assert(self@ =~= cur.update(i as int, next@));
            proof {
                nows = nows.update(i as int, now);
            }
            i += 1;
        }
        assert(self@ =~= start_all(ws0, nows));
        assert(self.waiters() == start_all(old(self).waiters(), nows));
        assert(all_read_after_starts(old(self).waiters(), nows));
    }

    fn restart(&mut self) -> (r: Result<(), WaiterError>) {
        let n = self.waiters.len();
        let ghost ws0 = self@;
        let ghost mut nows: Seq<Instant> = Seq::new(n as nat, |j: int| arbitrary::<Instant>());
        let mut i: usize = 0;
        while i < n
            invariant
                n == self.waiters.len(),
                self@.len() == n,
                i <= n,
                ws0 == old(self)@,
                ws0.len() == n,
                nows.len() == n,
                forall|n2: Seq<Instant>|
                    n2.len() == n && (forall|j: int| 0 <= j < i ==> n2[j] == nows[j])
                        ==> #[trigger] restart_from(ws0, 0, n2) == restart_from(self@, i as nat, n2)
                        && restart_reads_fresh(ws0, 0, n2) == restart_reads_fresh(
                        self@,
                        i as nat,
                        n2,
                    ),
            decreases n - i,
        {
            let leaf = self.waiters[i];
            let (next, r) = leaf.rearm();
            let ghost now = choose|now: Instant|
                (next@, r) == #[trigger] leaf_restart(leaf@, now) && reads_after_start(leaf@, now);
            let ghost cur = self@;
            let ghost nows0 = nows;
            proof {
                assert(cur[i as int] == leaf@);
                nows = nows.update(i as int, now);
                assert forall|n2: Seq<Instant>|
                    n2.len() == n && (forall|j: int| 0 <= j < i + 1 ==> n2[j] == nows[j])
                        implies #[trigger] restart_from(ws0, 0, n2) == restart_from(cur, i as nat, n2)
                        && restart_reads_fresh(ws0, 0, n2) == restart_reads_fresh(cur, i as nat, n2)
                        && n2[i as int] == now by {
                    assert(forall|j: int| 0 <= j < i ==> n2[j] == nows0[j]);
                    assert(n2[i as int] == nows[i as int]);
                }
            }
            match r {
                Ok(()) => {
                    self.waiters.set(i, next);
                    assert(self@ =~= cur.update(i as int, next@));
                    i += 1;
                },
                Err(e) => {
                    let r = Err(e);
                    assert(restart_from(ws0, 0, nows) == restart_from(cur, i as nat, nows));
                    assert(restart_from(cur, i as nat, nows) == (self@, r));
                    assert((self.waiters(), r) == restart_from(old(self).waiters(), 0, nows));
                    assert(restart_reads_fresh(ws0, 0, nows) == restart_reads_fresh(cur, i as nat, nows));
                    assert(restart_reads_fresh(cur, i as nat, nows));
                    return r;
                },
            }
        }
        assert(restart_from(ws0, 0, nows) == restart_from(self@, i as nat, nows));
        assert((self.waiters(), Ok::<(), WaiterError>(())) == restart_from(old(self).waiters(), 0, nows));
        assert(restart_reads_fresh(ws0, 0, nows) == restart_reads_fresh(self@, i as nat, nows));
        Ok(())
    }

    fn wait(&mut self) -> (r: Result<WaitStep, WaiterError>) {
        self.resume(0)
    }

    fn resume(&mut self, at: usize) -> (r: Result<WaitStep, WaiterError>) {
        let n = self.waiters.len();
        let ghost ws0 = self@;
        let ghost mut els: Seq<Instant> = Seq::new(n as nat, |j: int| arbitrary::<Instant>());
        let mut i = at;
        while i < n
            invariant
                n == self.waiters.len(),
                self@.len() == n,
                ws0.len() == n,
                ws0 == old(self)@,
                at <= i,
                els.len() == n,
                forall|e2: Seq<Instant>|
                    e2.len() == n && (forall|j: int| at <= j < i ==> e2[j] == els[j]) ==> #[trigger] run(
                        ws0,
                        at as nat,
                        e2,
                    ) == run(self@, i as nat, e2) && run_reads_fresh(ws0, at as nat, e2)
                        == run_reads_fresh(self@, i as nat, e2),
            decreases n - i,
        {
            let leaf = self.waiters[i];
            let (next, outcome) = leaf.advance();
            let ghost e = choose|e: Instant|
                #[trigger] leaf_step(leaf@, e) == (next@, outcome) && reads_after_start(leaf@, e);
            let ghost cur = self@;
            let ghost els0 = els;
            self.waiters.set(i, next);
            proof {
                assert(self@ =~= cur.update(i as int, next@));
                assert(cur[i as int] == leaf@);
                els = els.update(i as int, e);
                assert forall|e2: Seq<Instant>|
                    e2.len() == n && (forall|j: int| at <= j < i + 1 ==> e2[j] == els[j]) implies #[trigger] run(
                        ws0,
                        at as nat,
                        e2,
                    ) == run(cur, i as nat, e2) && run_reads_fresh(ws0, at as nat, e2)
                        == run_reads_fresh(cur, i as nat, e2) && e2[i as int] == e by {
                    assert(forall|j: int| at <= j < i ==> e2[j] == els0[j]);
                    assert(e2[i as int] == els[i as int]);
                }
                if outcome == StepOutcome::Proceed {
                    assert forall|e2: Seq<Instant>| e2.len() == n && e2[i as int] == e implies #[trigger] run(
                        cur,
                        i as nat,
                        e2,
                    ) == run(self@, (i + 1) as nat, e2) && run_reads_fresh(cur, i as nat, e2)
                        == run_reads_fresh(self@, (i + 1) as nat, e2) by {
                        assert(leaf_step(cur[i as int], e2[i as int]) == (next@, outcome));
                        assert(reads_after_start(cur[i as int], e2[i as int]));
                    }
                }
            }
            match outcome {
                StepOutcome::Proceed => {
                    i = i + 1;
                },
                StepOutcome::Pause(span) => {
                    assert(run(ws0, at as nat, els) == run(cur, i as nat, els));
                    assert(run(cur, i as nat, els) == (
                        self@,
                        Ok::<WaitStep, WaiterError>(WaitStep::Sleep { span, resume: (i + 1) as usize }),
                    ));
                    let r = Ok(WaitStep::Sleep { span, resume: i + 1 });
                    assert(run(old(self).waiters(), at as nat, els) == (self.waiters(), r));
                    assert(run_reads_fresh(ws0, at as nat, els) == run_reads_fresh(cur, i as nat, els));
                    assert(run_reads_fresh(cur, i as nat, els));
                    return r;
                },
                StepOutcome::Fail(err) => {
                    assert(run(ws0, at as nat, els) == run(cur, i as nat, els));
                    assert(run(cur, i as nat, els) == (self@, Err::<WaitStep, WaiterError>(err)));
                    let r = Err(err);
                    assert(run(old(self).waiters(), at as nat, els) == (self.waiters(), r));
                    assert(run_reads_fresh(ws0, at as nat, els) == run_reads_fresh(cur, i as nat, els));
                    assert(run_reads_fresh(cur, i as nat, els));
                    return r;
                },
            }
        }
        assert(run(ws0, at as nat, els) == run(self@, i as nat, els));
        let r = Ok(WaitStep::Done);
        assert(run(self@, i as nat, els) == (self@, r));
        assert(run(old(self).waiters(), at as nat, els) == (self.waiters(), r));
        assert(run_reads_fresh(ws0, at as nat, els) == run_reads_fresh(self@, i as nat, els));
        r
    }

    fn plan_async_wait(&mut self) -> (r: Result<Vec<Interval>, WaiterError>) {
        let n = self.waiters.len();
        let ghost ws0 = self@;
        let ghost mut els: Seq<Instant> = Seq::new(n as nat, |j: int| arbitrary::<Instant>());
        let mut spans: Vec<Interval> = Vec::new();
        let mut first: Option<WaiterError> = None;
        let mut i: usize = 0;
        while i < n
            invariant
                n == self.waiters.len(),
                self@.len() == n,
                ws0.len() == n,
                ws0 == old(self)@,
                i <= n,
                els.len() == n,
                forall|j: int| 0 <= j < i ==> #[trigger] reads_after_start(ws0[j], els[j]),
                forall|j: int| i <= j < n ==> #[trigger] self@[j] == ws0[j],
                forall|e2: Seq<Instant>|
                    e2.len() == n && (forall|j: int| 0 <= j < i ==> e2[j] == els[j]) ==> #[trigger] plan(
                        ws0,
                        0,
                        e2,
                    ) == (
                        plan(self@, i as nat, e2).0,
                        combine(
                            match first {
                                Some(e) => Err(e),
                                None => Ok(spans@),
                            },
                            plan(self@, i as nat, e2).1,
                        ),
                    ),
            decreases n - i,
        {
            let leaf = self.waiters[i];
            let (next, outcome) = leaf.advance();
            let ghost e = choose|e: Instant|
                #[trigger] leaf_step(leaf@, e) == (next@, outcome) && reads_after_start(leaf@, e);
            let ghost cur = self@;
            let ghost els0 = els;
            let ghost so_far: Result<Seq<Interval>, WaiterError> = match first {
                Some(e) => Err(e),
                None => Ok(spans@),
            };
            let ghost spans0 = spans@;
            self.waiters.set(i, next);
            match outcome {
                StepOutcome::Proceed => {},
                StepOutcome::Pause(span) => {
                    if first.is_none() {
                        spans.push(span);
                    }
                },
                StepOutcome::Fail(err) => {
                    if first.is_none() {
                        first = Some(err);
                    }
                },
            }
            proof {
                assert(self@ =~= cur.update(i as int, next@));
                assert(cur[i as int] == leaf@);
                assert(ws0[i as int] == leaf@);
                els = els.update(i as int, e);
                assert(reads_after_start(ws0[i as int], els[i as int]));
                let now: Result<Seq<Interval>, WaiterError> = match first {
                    Some(e) => Err(e),
                    None => Ok(spans@),
                };
                assert forall|e2: Seq<Instant>|
                    e2.len() == n && (forall|j: int| 0 <= j < i + 1 ==> e2[j] == els[j]) implies #[trigger] plan(
                        ws0,
                        0,
                        e2,
                    ) == (plan(self@, (i + 1) as nat, e2).0, combine(now, plan(self@, (i + 1) as nat, e2).1)) by {
                    assert(forall|j: int| 0 <= j < i ==> e2[j] == els0[j]);
                    assert(e2[i as int] == e);
                    assert(plan(ws0, 0, e2) == (plan(cur, i as nat, e2).0, combine(so_far, plan(cur, i as nat, e2).1)));
                    let rest = plan(self@, (i + 1) as nat, e2).1;
                    match outcome {
                        StepOutcome::Pause(span) => {
                            match rest {
                                Ok(t) => {
                                    assert(spans0 + (seq![span] + t) =~= spans0.push(span) + t);
                                },
                                _ => {},
                            }
                        },
                        _ => {},
                    }
                }
            }
            i += 1;
        }
        let r = match first {
            Some(e) => Err(e),
            None => Ok(spans),
        };
        proof {
            assert(plan(ws0, 0, els) == (self@, combine(
                match first {
                    Some(e) => Err(e),
                    None => Ok(spans@),
                },
                Ok(seq![]),
            )));
            assert(spans@ + seq![] =~= spans@);
            assert(plan(old(self).waiters(), 0, els).0 == self.waiters());
            assert(all_read_after_starts(old(self).waiters(), els));
        }
        r
    }
}

/// Gathers delays that will wait one after the other.
pub struct DelayBuilder {
    inner: Option<Delay>,
}

impl View for DelayBuilder {
    type V = Option<Seq<LeafView>>;

    closed spec fn view(&self) -> Option<Seq<LeafView>> {
        match self.inner {
            Some(d) => Some(d@),
            None => None,
        }
    }
}

impl DelayBuilder {
    /// Adds a delay to the builder. The delays of a builder run in the order
    /// in which they were added: with two throttles, the second sleeps after
    /// the first. A throttle and a timeout throttle a thread, and fail once it
    /// has throttled too long.
    pub fn with(self, other: Delay) -> (r: Self)
        ensures
            r@ == Some(
                match self@ {
                    None => other@,
                    Some(s) => s + other@,
                },
            ),
    {
        let mut this = self;
        this.inner = Some(
            match this.inner.take() {
                None => other,
                Some(w) => Delay::from(DelayComposer::new(w, other)),
            },
        );
        this
    }

    /// Adds a timeout.
    pub fn timeout(self, timeout: Interval) -> (r: Self)
        ensures
            r@ == Some(
                match self@ {
                    None => seq![LeafView::Timeout { limit: timeout, start: None }],
                    Some(s) => s.push(LeafView::Timeout { limit: timeout, start: None }),
                },
            ),
    {
        self.with(Delay::timeout(timeout))
    }

    /// Adds a throttle.
    pub fn throttle(self, throttle: Interval) -> (r: Self)
        ensures
            r@ == Some(
                match self@ {
                    None => seq![LeafView::Throttle { span: throttle }],
                    Some(s) => s.push(LeafView::Throttle { span: throttle }),
                },
            ),
    {
        self.with(Delay::throttle(throttle))
    }

    /// The delays added, in order; a delay that never waits if none was.
    pub fn build(self) -> (r: Delay)
        ensures
            r@ == match self@ {
                None => seq![LeafView::Immediate],
                Some(s) => s,
            },
    {
        let mut this = self;
        match this.inner.take() {
            Some(d) => d,
            None => Delay::instant(),
        }
    }
}

} // verus!
