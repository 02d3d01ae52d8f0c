//! The basic delay API: every waiter is armed when it is made, so waiting
//! needs no `start` and there is no restart. A count timeout made with `n`
//! lets `n - 1` waits through.
use std::time::Instant;
use vstd::prelude::*;

use crate::interval::Interval;
use crate::waiter::{
    all_read_after_starts, leaf_start, leaf_started, leaf_step, run, run_reads_fresh, start_all,
    timeout_from, LeafView, WaitStep,
    Waiter as ArmedWaiter, WaiterError as ArmedError,
};

verus! {

/// An error happened while waiting.
#[derive(Copy, Clone, Debug, PartialEq, Eq, PartialOrd, Ord, Structural)]
pub enum WaiterError {
    Timeout,
}

/// Whether every elementary waiter of a sequence is armed.
pub open spec fn all_started(ws: Seq<LeafView>) -> bool {
    forall|i: int| 0 <= i < ws.len() ==> #[trigger] leaf_started(ws[i])
}

/// The waits that a basic count timeout made with `count` lets through.
pub open spec fn allowed_waits(count: u64) -> u64 {
    if count == 0 {
        0
    } else {
        (count - 1) as u64
    }
}

/// What a basic waiter returns for what the elementary waiters decided.
pub open spec fn basic_result(r: Result<WaitStep, ArmedError>) -> Result<WaitStep, WaiterError> {
    match r {
        Ok(s) => Ok(s),
        Err(_) => Err(WaiterError::Timeout),
    }
}

/// A waiter whose elementary waiters are armed from the moment it is made.
///
/// A call of `wait` (or `resume`) that returns `Ok(WaitStep::Sleep { span,
/// resume })` is half done: the caller sleeps for `span` and calls
/// `resume(resume)`.
pub trait Waiter {
    /// The elementary waiters, in the order in which they wait.
    spec fn waiters(&self) -> Seq<LeafView>;

    /// Called when a waiting cycle starts: every waiter starts over.
    fn start(&mut self)
        requires
            all_started(old(self).waiters()),
        ensures
            exists|nows: Seq<Instant>|
                nows.len() == old(self).waiters().len() && final(self).waiters()
                    == #[trigger] start_all(old(self).waiters(), nows)
                    && all_read_after_starts(old(self).waiters(), nows),
            all_started(final(self).waiters()),
    ;

    /// Called at each cycle of the waiting loop.
    fn wait(&mut self) -> (r: Result<WaitStep, WaiterError>)
        requires
            all_started(old(self).waiters()),
        ensures
            all_started(final(self).waiters()),
            exists|els: Seq<Instant>|
                els.len() == old(self).waiters().len() && #[trigger] run(
                    old(self).waiters(),
                    0,
                    els,
                ).0 == final(self).waiters() && r == basic_result(
                    run(old(self).waiters(), 0, els).1,
                ) && run_reads_fresh(old(self).waiters(), 0, els),
    ;

    /// Goes on with a cycle after a sleep, from the position that `wait`
    /// handed back.
    fn resume(&mut self, at: usize) -> (r: Result<WaitStep, WaiterError>)
        requires
            all_started(old(self).waiters()),
        ensures
            all_started(final(self).waiters()),
            exists|els: Seq<Instant>|
                els.len() == old(self).waiters().len() && #[trigger] run(
                    old(self).waiters(),
                    at as nat,
                    els,
                ).0 == final(self).waiters() && r == basic_result(
                    run(old(self).waiters(), at as nat, els).1,
                ) && run_reads_fresh(old(self).waiters(), at as nat, els),
    ;

    /// Called when the waiting cycle is over. The basic waiters hold nothing
    /// that needs releasing.
    fn stop(&mut self)
        ensures
            final(self).waiters() == old(self).waiters(),
    ;
}

/// A run over armed waiters keeps them armed and never reports a waiter
/// that was not started.
pub proof fn lemma_run_keeps_started(ws: Seq<LeafView>, at: nat, els: Seq<Instant>)
    requires
        all_started(ws),
    ensures
        all_started(run(ws, at, els).0),
        run(ws, at, els).1 != Err::<WaitStep, ArmedError>(ArmedError::NotStarted),
    decreases ws.len() - at,
{
    if at < ws.len() {
        let (w, outcome) = leaf_step(ws[at as int], els[at as int]);
        let next = ws.update(at as int, w);
        assert(leaf_started(ws[at as int]));
        assert(all_started(next)) by {
            assert forall|i: int| 0 <= i < next.len() implies #[trigger] leaf_started(next[i]) by {
                if i != at {
                    assert(leaf_started(ws[i]));
                }
            }
        }
        lemma_run_keeps_started(next, at + 1, els);
    }
}

proof fn lemma_start_keeps_started(ws: Seq<LeafView>, nows: Seq<Instant>)
    ensures
        all_started(start_all(ws, nows)),
{
    assert forall|i: int| 0 <= i < start_all(ws, nows).len() implies #[trigger] leaf_started(
        start_all(ws, nows)[i],
    ) by {
        assert(start_all(ws, nows)[i] == leaf_start(ws[i], nows[i]));
    }
}

/// A delay whose waiters wait one after the other.
pub struct Delay {
    inner: crate::delay::Delay,
}

impl View for Delay {
    type V = Seq<LeafView>;

    closed spec fn view(&self) -> Seq<LeafView> {
        self.inner@
    }
}

impl Clone for Delay {
    fn clone(&self) -> (r: Self)
        ensures
            r@ == self@,
    {
        Delay { inner: self.inner.clone() }
    }
}

impl Delay {
    fn from(inner: crate::delay::Delay) -> (r: Self)
        requires
            all_started(inner@),
        ensures
            r@ == inner@,
    {
        Delay { inner }
    }

    fn armed(d: crate::delay::Delay) -> (r: Self)
        ensures
            exists|nows: Seq<Instant>|
                nows.len() == d@.len() && r@ == #[trigger] start_all(d@, nows),
            all_started(r@),
    {
        let ghost d0 = d@;
        let mut d = d;
        d.start();
        proof {
            let nows = choose|nows: Seq<Instant>|
                nows.len() == d0.len() && d@ == #[trigger] start_all(d0, nows);
            lemma_start_keeps_started(d0, nows);
        }
        Self::from(d)
    }

    /// A delay that never waits. This can hog resources, so careful.
    pub fn instant() -> (r: Self)
        ensures
            r@ == seq![LeafView::Immediate],
            all_started(r@),
    {
        let r = Self::armed(crate::delay::Delay::instant());
        proof {
            let nows = choose|nows: Seq<Instant>|
                nows.len() == 1 && r@ == #[trigger] start_all(seq![LeafView::Immediate], nows);
            assert(start_all(seq![LeafView::Immediate], nows) =~= seq![LeafView::Immediate]);
        }
        r
    }

    /// A delay that does not sleep, but times out once `timeout` has elapsed
    /// since it was made or last started; it is started at the instant it is
    /// made.
    pub fn timeout(timeout: Interval) -> (r: Self)
        ensures
            exists|now: Instant| r@ == seq![#[trigger] timeout_from(timeout, now)],
            all_started(r@),
    {
        let r = Self::armed(crate::delay::Delay::timeout(timeout));
        proof {
            let w = LeafView::Timeout { limit: timeout, start: None };
            let nows = choose|nows: Seq<Instant>|
                nows.len() == 1 && r@ == #[trigger] start_all(seq![w], nows);
            assert(start_all(seq![w], nows) =~= seq![timeout_from(timeout, nows[0])]);
        }
        r
    }

    /// A delay that times out at the `count`-th wait: the waits before it
    /// succeed.
    pub fn count_timeout(count: u64) -> (r: Self)
        ensures
            r@ == seq![
                LeafView::Count {
                    max: allowed_waits(count),
                    passed: 0,
                    started: true,
                },
            ],
            all_started(r@),
    {
        let allowed = if count == 0 { 0 } else { count - 1 };
        let r = Self::armed(crate::delay::Delay::count_timeout(allowed));
        proof {
            let w = LeafView::Count { max: allowed, passed: 0, started: false };
            let nows = choose|nows: Seq<Instant>|
                nows.len() == 1 && r@ == #[trigger] start_all(seq![w], nows);
            assert(start_all(seq![w], nows)
                =~= seq![LeafView::Count { max: allowed, passed: 0, started: true }]);
        }
        r
    }

    /// A delay that sleeps for `throttle` at every wait.
    pub fn throttle(throttle: Interval) -> (r: Self)
        ensures
            r@ == seq![LeafView::Throttle { span: throttle }],
            all_started(r@),
    {
        let r = Self::armed(crate::delay::Delay::throttle(throttle));
        proof {
            let w = LeafView::Throttle { span: throttle };
            let nows = choose|nows: Seq<Instant>|
                nows.len() == 1 && r@ == #[trigger] start_all(seq![w], nows);
            assert(start_all(seq![w], nows) =~= seq![w]);
        }
        r
    }

    /// A builder with no delay added yet.
    pub fn builder() -> (r: DelayBuilder)
        ensures
            r.wf(),
            r@ == None::<Seq<LeafView>>,
    {
        DelayBuilder { inner: None }
    }
}

impl Waiter for Delay {
    open spec fn waiters(&self) -> Seq<LeafView> {
        self@
    }

    fn start(&mut self) {
        self.inner.start();
        proof {
            let nows = choose|nows: Seq<Instant>|
                nows.len() == old(self)@.len() && self@ == #[trigger] start_all(old(self)@, nows);
            lemma_start_keeps_started(old(self)@, nows);
        }
    }

    fn wait(&mut self) -> (r: Result<WaitStep, WaiterError>) {
        self.resume(0)
    }

    fn resume(&mut self, at: usize) -> (r: Result<WaitStep, WaiterError>) {
        let r0 = self.inner.resume(at);
        let ghost els = choose|els: Seq<Instant>|
            els.len() == old(self).inner@.len() && #[trigger] run(
                old(self).inner@,
                at as nat,
                els,
            ) == (self.inner@, r0);
        proof {
            lemma_run_keeps_started(old(self)@, at as nat, els);
        }
        let r = match r0 {
            Ok(s) => Ok(s),
            Err(_) => Err(WaiterError::Timeout),
        };
        assert(run(old(self).waiters(), at as nat, els).0 == self.waiters() && r == basic_result(
            run(old(self).waiters(), at as nat, els).1,
        ));
        r
    }

    fn stop(&mut self) {
    }
}

/// Gathers delays that will wait one after the other.
pub struct DelayBuilder {
    inner: Option<crate::delay::Delay>,
}

impl View for DelayBuilder {
    type V = Option<Seq<LeafView>>;

    closed spec fn view(&self) -> Option<Seq<LeafView>> {
        match self.inner {
            Some(d) => Some(d@),
            None => None,
        }
    }
}

impl DelayBuilder {
    /// Whether every waiter added is armed; always true of a builder made by
    /// this module.
    pub closed spec fn wf(&self) -> bool {
        match self.inner {
            Some(d) => all_started(d@),
            None => true,
        }
    }

    /// Adds a delay. The delays of a builder run in the order in which they
    /// were added: with two throttles, the second sleeps after the first.
    pub fn with(self, other: Delay) -> (r: Self)
        requires
            self.wf(),
            all_started(other@),
        ensures
            r.wf(),
            r@ == Some(
                match self@ {
                    None => other@,
                    Some(s) => s + other@,
                },
            ),
    {
        let mut this = self;
        this.inner = Some(
            match this.inner.take() {
                None => other.inner,
                Some(w) => {
                    let c = w.followed_by(other.inner);
                    assert(all_started(c@)) by {
                        assert forall|i: int| 0 <= i < c@.len() implies #[trigger] leaf_started(
                            c@[i],
                        ) by {
                            if i < w@.len() {
                                assert(leaf_started(w@[i]));
                            } else {
                                assert(leaf_started(other@[i - w@.len()]));
                            }
                        }
                    }
                    c
                },
            },
        );
        this
    }

    /// Adds a timeout, armed now.
    pub fn timeout(self, timeout: Interval) -> (r: Self)
        requires
            self.wf(),
        ensures
            r.wf(),
            exists|now: Instant|
                r@ == Some(
                    match self@ {
                        None => seq![#[trigger] timeout_from(timeout, now)],
                        Some(s) => s.push(timeout_from(timeout, now)),
                    },
                ),
    {
        let t = Delay::timeout(timeout);
        let ghost now = choose|now: Instant|
            t@ == seq![#[trigger] timeout_from(timeout, now)];
        self.with(t)
    }

    /// Adds a throttle.
    pub fn throttle(self, throttle: Interval) -> (r: Self)
        requires
            self.wf(),
        ensures
            r.wf(),
            r@ == Some(
                match self@ {
                    None => seq![LeafView::Throttle { span: throttle }],
                    Some(s) => s.push(LeafView::Throttle { span: throttle }),
                },
            ),
    {
        self.with(Delay::throttle(throttle))
    }

    /// The delays added, in order; a delay that never waits if none was.
    pub fn build(self) -> (r: Delay)
        requires
            self.wf(),
        ensures
            all_started(r@),
            r@ == match self@ {
                None => seq![LeafView::Immediate],
                Some(s) => s,
            },
    {
        let mut this = self;
        match this.inner.take() {
            Some(d) => Delay::from(d),
            None => Delay::instant(),
        }
    }
}

} // verus!
