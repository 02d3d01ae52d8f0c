use vstd::prelude::*;

use std::time::Instant;

use crate::clock::span_between;
use crate::interval::Interval;

verus! {

/// An error happened while waiting.
#[derive(Copy, Clone, Debug, PartialEq, Eq, PartialOrd, Ord, Structural)]
pub enum WaiterError {
    /// The waiter ran out of time or of allowed waits.
    Timeout,
    /// The waiter was asked to wait or to restart before it was started.
    NotStarted,
}

/// What a caller does after a successful call of `wait` or `resume`.
#[derive(Copy, Clone, Debug, PartialEq, Eq, Structural)]
pub enum WaitStep {
    /// The waiting cycle is over.
    Done,
    /// Sleep for `span`, then call `resume(resume)` to go on with the cycle.
    Sleep { span: Interval, resume: usize },
}

/// What one elementary waiter decides when it is asked to wait.
#[derive(Copy, Clone, Debug, PartialEq, Eq, Structural)]
pub enum StepOutcome {
    /// Go on with the next waiter.
    Proceed,
    /// Sleep for the span, then go on with the next waiter.
    Pause(Interval),
    /// Stop the cycle with this error.
    Fail(WaiterError),
}

/// The state of one elementary waiter, as its decisions depend on it.
pub enum LeafView {
    /// Never waits and never fails.
    Immediate,
    /// Fails once more than `limit` has elapsed since `start`, the instant
    /// at which it was last started (`None` until then).
    Timeout { limit: Interval, start: Option<Instant> },
    /// Allows `max` waits after it was started; `passed` of them are used.
    Count { max: u64, passed: u64, started: bool },
    /// Sleeps for `span` at every wait.
    Throttle { span: Interval },
}

/// What a started timeout with this limit decides once `elapsed`
/// nanoseconds have passed since its start.
pub open spec fn timeout_outcome(limit: Interval, elapsed: nat) -> StepOutcome {
    if elapsed > limit@ {
        StepOutcome::Fail(WaiterError::Timeout)
    } else {
        StepOutcome::Proceed
    }
}

/// A timeout with this limit, started at instant `now`.
pub open spec fn timeout_from(limit: Interval, now: Instant) -> LeafView {
    LeafView::Timeout { limit, start: Some(now) }
}

/// One wait of one elementary waiter, given the instant `now` at which a
/// timeout reads the clock (other waiters do not read it).
pub open spec fn leaf_step(w: LeafView, now: Instant) -> (LeafView, StepOutcome) {
    match w {
        LeafView::Immediate => (w, StepOutcome::Proceed),
        LeafView::Timeout { limit, start } => match start {
            None => (w, StepOutcome::Fail(WaiterError::NotStarted)),
            Some(s) => (w, timeout_outcome(limit, span_between(now, s))),
        },
        LeafView::Count { max, passed, started } => {
            if !started {
                (w, StepOutcome::Fail(WaiterError::NotStarted))
            } else if passed < max {
                (LeafView::Count { max, passed: (passed + 1) as u64, started }, StepOutcome::Proceed)
            } else {
                (w, StepOutcome::Fail(WaiterError::Timeout))
            }
        },
        LeafView::Throttle { span } => (w, StepOutcome::Pause(span)),
    }
}

/// An elementary waiter after `start`, which a timeout reads the clock for
/// at instant `now`.
pub open spec fn leaf_start(w: LeafView, now: Instant) -> LeafView {
    match w {
        LeafView::Timeout { limit, start } => LeafView::Timeout { limit, start: Some(now) },
        LeafView::Count { max, passed, started } => LeafView::Count { max, passed: 0, started: true },
        _ => w,
    }
}

/// An elementary waiter after `restart` (for which a timeout reads the clock
/// at instant `now`), and what `restart` returns.
pub open spec fn leaf_restart(w: LeafView, now: Instant) -> (LeafView, Result<(), WaiterError>) {
    if leaf_started(w) {
        (leaf_start(w, now), Ok(()))
    } else {
        (w, Err(WaiterError::NotStarted))
    }
}

/// Whether an elementary waiter has been started (waiters that hold no
/// state count as started).
pub open spec fn leaf_started(w: LeafView) -> bool {
    match w {
        LeafView::Timeout { start, .. } => start is Some,
        LeafView::Count { started, .. } => started,
        _ => true,
    }
}

/// Whether `later` is no earlier than `earlier`: nothing elapses from
/// `later` to `earlier`.
pub open spec fn not_before(later: Instant, earlier: Instant) -> bool {
    span_between(earlier, later) == 0
}

/// Whether the clock reading `now` of an elementary waiter is no earlier
/// than the instant at which it was started (only a started timeout reads
/// the clock against a start).
pub open spec fn reads_after_start(w: LeafView, now: Instant) -> bool {
    match w {
        LeafView::Timeout { start: Some(s), .. } => not_before(now, s),
        _ => true,
    }
}

/// Whether every clock reading `nows[i]` is no earlier than the start of
/// waiter `i`.
pub open spec fn all_read_after_starts(ws: Seq<LeafView>, nows: Seq<Instant>) -> bool {
    forall|i: int| 0 <= i < ws.len() ==> #[trigger] reads_after_start(ws[i], nows[i])
}

/// Whether the clock readings that a cycle from `at` uses (up to and
/// including the waiter it stops at) are no earlier than the starts of the
/// waiters that read them.
pub open spec fn run_reads_fresh(ws: Seq<LeafView>, at: nat, els: Seq<Instant>) -> bool
    decreases ws.len() - at,
{
    if at >= ws.len() {
        true
    } else {
        let (w, outcome) = leaf_step(ws[at as int], els[at as int]);
        reads_after_start(ws[at as int], els[at as int]) && (outcome == StepOutcome::Proceed
            ==> run_reads_fresh(ws.update(at as int, w), at + 1, els))
    }
}

/// Whether the clock readings that a restart from `at` uses are no earlier
/// than the starts of the waiters that read them.
pub open spec fn restart_reads_fresh(ws: Seq<LeafView>, at: nat, nows: Seq<Instant>) -> bool
    decreases ws.len() - at,
{
    if at >= ws.len() {
        true
    } else {
        let (w, r) = leaf_restart(ws[at as int], nows[at as int]);
        reads_after_start(ws[at as int], nows[at as int]) && (r is Ok ==> restart_reads_fresh(
            ws.update(at as int, w),
            at + 1,
            nows,
        ))
    }
}

/// A waiting cycle run from position `at` over waiters that run in sequence:
/// each waiter waits in turn; the cycle stops at the first one that asks for
/// a sleep (to be resumed after it) or fails. `els[i]` is the instant at
/// which waiter `i` reads the clock if it is a timeout.
pub open spec fn run(ws: Seq<LeafView>, at: nat, els: Seq<Instant>) -> (
    Seq<LeafView>,
    Result<WaitStep, WaiterError>,
)
    decreases ws.len() - at,
{
    if at >= ws.len() {
        (ws, Ok(WaitStep::Done))
    } else {
        let (w, outcome) = leaf_step(ws[at as int], els[at as int]);
        let next = ws.update(at as int, w);
        match outcome {
            StepOutcome::Proceed => run(next, at + 1, els),
            StepOutcome::Pause(span) => (
                next,
                Ok(WaitStep::Sleep { span, resume: (at + 1) as usize }),
            ),
            StepOutcome::Fail(e) => (next, Err(e)),
        }
    }
}

/// Waiters that run in sequence, after `start`: each of them is started;
/// waiter `i`, if it is a timeout, reads the clock at `nows[i]`.
pub open spec fn start_all(ws: Seq<LeafView>, nows: Seq<Instant>) -> Seq<LeafView> {
    Seq::new(ws.len(), |i: int| leaf_start(ws[i], nows[i]))
}

/// Waiters that run in sequence, restarted in order from position `at`; the
/// first one that cannot restart stops the others from restarting. Waiter
/// `i`, if it is a timeout, reads the clock at `nows[i]`.
pub open spec fn restart_from(ws: Seq<LeafView>, at: nat, nows: Seq<Instant>) -> (
    Seq<LeafView>,
    Result<(), WaiterError>,
)
    decreases ws.len() - at,
{
    if at >= ws.len() {
        (ws, Ok(()))
    } else {
        let (w, r) = leaf_restart(ws[at as int], nows[at as int]);
        match r {
            Ok(()) => restart_from(ws.update(at as int, w), at + 1, nows),
            Err(e) => (ws, Err(e)),
        }
    }
}

/// A successful step result moved `n` positions further along, as it reads
/// from a sequence that `n` waiters precede.
pub open spec fn shifted(r: Result<WaitStep, WaiterError>, n: nat) -> Result<WaitStep, WaiterError> {
    match r {
        Ok(WaitStep::Sleep { span, resume }) => Ok(
            WaitStep::Sleep { span, resume: (resume + n) as usize },
        ),
        _ => r,
    }
}

/// The decisions of an asynchronous wait from position `at`: every waiter
/// decides at once, in order, and the sleeps run side by side. The result is
/// the error of the first waiter that fails, if one does, and otherwise the
/// spans of the sleeps in order.
pub open spec fn plan(ws: Seq<LeafView>, at: nat, els: Seq<Instant>) -> (
    Seq<LeafView>,
    Result<Seq<Interval>, WaiterError>,
)
    decreases ws.len() - at,
{
    if at >= ws.len() {
        (ws, Ok(seq![]))
    } else {
        let (w, outcome) = leaf_step(ws[at as int], els[at as int]);
        let (rest, r) = plan(ws.update(at as int, w), at + 1, els);
        (
            rest,
            match outcome {
                StepOutcome::Proceed => r,
                StepOutcome::Pause(span) => match r {
                    Ok(spans) => Ok(seq![span] + spans),
                    Err(e) => Err(e),
                },
                StepOutcome::Fail(e) => Err(e),
            },
        )
    }
}

/// Whether the sleeps or the error that a call returned are those of a plan.
pub open spec fn same_plan(
    r: Result<Vec<Interval>, WaiterError>,
    p: Result<Seq<Interval>, WaiterError>,
) -> bool {
    match r {
        Ok(v) => p == Ok::<Seq<Interval>, WaiterError>(v@),
        Err(e) => p == Err::<Seq<Interval>, WaiterError>(e),
    }
}

/// A waiter: something that can be started, restarted, and asked to wait at
/// every cycle of a polling loop.
///
/// A call of `wait` (or `resume`) that returns `Ok(WaitStep::Sleep { span,
/// resume })` is half done: the caller sleeps for `span` and calls
/// `resume(resume)`, until `Ok(WaitStep::Done)` or an error comes back.
pub trait Waiter {
    /// The elementary waiters this waiter is made of, in the order in which
    /// they wait.
    spec fn waiters(&self) -> Seq<LeafView>;

    /// Called when a waiting cycle starts.
    fn start(&mut self)
        ensures
            exists|nows: Seq<Instant>|
                nows.len() == old(self).waiters().len() && final(self).waiters()
                    == #[trigger] start_all(old(self).waiters(), nows)
                    && all_read_after_starts(old(self).waiters(), nows),
    ;

    /// Starts the waiting cycle over; fails if the waiter was never started.
    fn restart(&mut self) -> (r: Result<(), WaiterError>)
        ensures
            exists|nows: Seq<Instant>|
                nows.len() == old(self).waiters().len() && (final(self).waiters(), r)
                    == #[trigger] restart_from(old(self).waiters(), 0, nows)
                    && restart_reads_fresh(old(self).waiters(), 0, nows),
    ;

    /// Called at each cycle of the waiting loop.
    fn wait(&mut self) -> (r: Result<WaitStep, WaiterError>)
        ensures
            exists|els: Seq<Instant>|
                els.len() == old(self).waiters().len() && #[trigger] run(
                    old(self).waiters(),
                    0,
                    els,
                ) == (final(self).waiters(), r) && run_reads_fresh(old(self).waiters(), 0, els),
    ;

    /// Goes on with a cycle after a sleep, from the position that `wait`
    /// handed back.
    fn resume(&mut self, at: usize) -> (r: Result<WaitStep, WaiterError>)
        ensures
            exists|els: Seq<Instant>|
                els.len() == old(self).waiters().len() && #[trigger] run(
                    old(self).waiters(),
                    at as nat,
                    els,
                ) == (final(self).waiters(), r) && run_reads_fresh(
                    old(self).waiters(),
                    at as nat,
                    els,
                ),
    ;

    /// Makes the decisions of an asynchronous wait: every waiter decides at
    /// once; the caller then sleeps for all the spans side by side, or stops
    /// with the error.
    fn plan_async_wait(&mut self) -> (r: Result<Vec<Interval>, WaiterError>)
        ensures
            exists|els: Seq<Instant>|
                els.len() == old(self).waiters().len() && #[trigger] plan(
                    old(self).waiters(),
                    0,
                    els,
                ).0 == final(self).waiters() && same_plan(
                    r,
                    plan(old(self).waiters(), 0, els).1,
                ) && all_read_after_starts(old(self).waiters(), els),
    ;
}

/// Decisions gathered so far, followed by the decisions still to come.
pub open spec fn combine(
    so_far: Result<Seq<Interval>, WaiterError>,
    rest: Result<Seq<Interval>, WaiterError>,
) -> Result<Seq<Interval>, WaiterError> {
    match so_far {
        Err(e) => Err(e),
        Ok(s) => match rest {
            Ok(t) => Ok(s + t),
            Err(e) => Err(e),
        },
    }
}

/// What an asynchronous wait decides for one elementary waiter.
pub open spec fn plan_alone(o: StepOutcome) -> Result<Seq<Interval>, WaiterError> {
    match o {
        StepOutcome::Proceed => Ok(seq![]),
        StepOutcome::Pause(span) => Ok(seq![span]),
        StepOutcome::Fail(e) => Err(e),
    }
}

pub(crate) fn plan_result_alone(o: StepOutcome) -> (r: Result<Vec<Interval>, WaiterError>)
    ensures
        same_plan(r, plan_alone(o)),
{
    match o {
        StepOutcome::Proceed => {
            let v: Vec<Interval> = Vec::new();
            assert(v@ =~= seq![]);
            Ok(v)
        },
        StepOutcome::Pause(span) => {
            let v = vec![span];
            assert(v@ =~= seq![span]);
            Ok(v)
        },
        StepOutcome::Fail(e) => Err(e),
    }
}

pub(crate) proof fn lemma_plan_alone(w: LeafView, e: Instant)
    ensures
        plan(seq![w], 0, seq![e]) == (seq![leaf_step(w, e).0], plan_alone(leaf_step(w, e).1)),
{
    reveal_with_fuel(plan, 2);
    let next = seq![w].update(0, leaf_step(w, e).0);
    assert(next =~= seq![leaf_step(w, e).0]);
    match leaf_step(w, e).1 {
        StepOutcome::Pause(span) => {
            assert(seq![span] + seq![] =~= seq![span]);
        },
        _ => {},
    }
}

/// What `wait` returns for a waiter made of one elementary waiter.
pub open spec fn alone(o: StepOutcome) -> Result<WaitStep, WaiterError> {
    match o {
        StepOutcome::Proceed => Ok(WaitStep::Done),
        StepOutcome::Pause(span) => Ok(WaitStep::Sleep { span, resume: 1 }),
        StepOutcome::Fail(e) => Err(e),
    }
}

pub(crate) fn result_alone(o: StepOutcome) -> (r: Result<WaitStep, WaiterError>)
    ensures
        r == alone(o),
{
    match o {
        StepOutcome::Proceed => Ok(WaitStep::Done),
        StepOutcome::Pause(span) => Ok(WaitStep::Sleep { span, resume: 1 }),
        StepOutcome::Fail(e) => Err(e),
    }
}

pub(crate) proof fn lemma_run_alone(w: LeafView, e: Instant)
    ensures
        run(seq![w], 0, seq![e]) == (seq![leaf_step(w, e).0], alone(leaf_step(w, e).1)),
{
    reveal_with_fuel(run, 2);
    let next = seq![w].update(0, leaf_step(w, e).0);
    assert(next =~= seq![leaf_step(w, e).0]);
}

pub(crate) proof fn lemma_fresh_alone(w: LeafView, e: Instant)
    ensures
        run_reads_fresh(seq![w], 0, seq![e]) == reads_after_start(w, e),
        restart_reads_fresh(seq![w], 0, seq![e]) == reads_after_start(w, e),
        all_read_after_starts(seq![w], seq![e]) == reads_after_start(w, e),
        forall|at: nat| at >= 1 ==> #[trigger] run_reads_fresh(seq![w], at, seq![e]),
{
    reveal_with_fuel(run_reads_fresh, 2);
    reveal_with_fuel(restart_reads_fresh, 2);
    assert(seq![w][0] == w);
    if all_read_after_starts(seq![w], seq![e]) {
        assert(reads_after_start(seq![w][0], seq![e][0]));
    }
}

pub(crate) proof fn lemma_run_past_end(ws: Seq<LeafView>, at: nat, els: Seq<Instant>)
    requires
        at >= ws.len(),
    ensures
        run(ws, at, els) == (ws, Ok::<WaitStep, WaiterError>(WaitStep::Done)),
{
}

/// Runs over two sequences in a row: the first runs, and the second only
/// if the first finished its cycle.
pub(crate) proof fn lemma_run_concat(
    a: Seq<LeafView>,
    b: Seq<LeafView>,
    at: nat,
    ea: Seq<Instant>,
    eb: Seq<Instant>,
)
    requires
        ea.len() == a.len(),
        eb.len() == b.len(),
        a.len() + b.len() <= usize::MAX,
    ensures
        run(a + b, at, ea + eb) == (if at < a.len() {
            let (a2, r) = run(a, at, ea);
            if r == Ok::<WaitStep, WaiterError>(WaitStep::Done) {
                let (b2, rb) = run(b, 0, eb);
                (a2 + b2, shifted(rb, a.len()))
            } else {
                (a2 + b, r)
            }
        } else {
            let (b2, rb) = run(b, (at - a.len()) as nat, eb);
            (a + b2, shifted(rb, a.len()))
        }),
    decreases a.len() + b.len() - at,
{
    let ab = a + b;
    let els = ea + eb;
    if at >= ab.len() {
    } else if at < a.len() {
        assert(ab[at as int] == a[at as int]);
        assert(els[at as int] == ea[at as int]);
        let (w, outcome) = leaf_step(a[at as int], ea[at as int]);
        assert(ab.update(at as int, w) =~= a.update(at as int, w) + b);
        match outcome {
            StepOutcome::Proceed => {
                lemma_run_concat(a.update(at as int, w), b, at + 1, ea, eb);
                if at + 1 >= a.len() {
                    lemma_run_past_end(a.update(at as int, w), at + 1, ea);
                }
            },
            _ => {},
        }
    } else {
        let j = (at - a.len()) as nat;
        assert(ab[at as int] == b[j as int]);
        assert(els[at as int] == eb[j as int]);
        let (w, outcome) = leaf_step(b[j as int], eb[j as int]);
        assert(ab.update(at as int, w) =~= a + b.update(j as int, w));
        match outcome {
            StepOutcome::Proceed => {
                lemma_run_concat(a, b.update(j as int, w), at + 1, ea, eb);
            },
            _ => {},
        }
    }
}

/// Restarting two sequences in a row: the second restarts only if the first
/// restarted.
pub(crate) proof fn lemma_restart_concat(
    a: Seq<LeafView>,
    b: Seq<LeafView>,
    at: nat,
    na: Seq<Instant>,
    nb: Seq<Instant>,
)
    requires
        na.len() == a.len(),
        nb.len() == b.len(),
    ensures
        restart_from(a + b, at, na + nb) == (if at < a.len() {
            let (a2, r) = restart_from(a, at, na);
            if r is Ok {
                let (b2, rb) = restart_from(b, 0, nb);
                (a2 + b2, rb)
            } else {
                (a2 + b, r)
            }
        } else {
            let (b2, rb) = restart_from(b, (at - a.len()) as nat, nb);
            (a + b2, rb)
        }),
    decreases a.len() + b.len() - at,
{
    let ab = a + b;
    let nows = na + nb;
    if at >= ab.len() {
    } else if at < a.len() {
        assert(ab[at as int] == a[at as int]);
        assert(nows[at as int] == na[at as int]);
        let (w, r) = leaf_restart(a[at as int], na[at as int]);
        assert(ab.update(at as int, w) =~= a.update(at as int, w) + b);
        if r is Ok {
            lemma_restart_concat(a.update(at as int, w), b, at + 1, na, nb);
        }
    } else {
        let j = (at - a.len()) as nat;
        assert(ab[at as int] == b[j as int]);
        assert(nows[at as int] == nb[j as int]);
        let (w, r) = leaf_restart(b[j as int], nb[j as int]);
        assert(ab.update(at as int, w) =~= a + b.update(j as int, w));
        if r is Ok {
            lemma_restart_concat(a, b.update(j as int, w), at + 1, na, nb);
        }
    }
}

/// The decisions of an asynchronous wait over two sequences in a row: all
/// waiters of both decide; the first error wins, else the sleeps of both.
pub(crate) proof fn lemma_plan_concat(
    a: Seq<LeafView>,
    b: Seq<LeafView>,
    at: nat,
    ea: Seq<Instant>,
    eb: Seq<Instant>,
)
    requires
        ea.len() == a.len(),
        eb.len() == b.len(),
    ensures
        plan(a + b, at, ea + eb) == (if at < a.len() {
            (
                plan(a, at, ea).0 + plan(b, 0, eb).0,
                combine(plan(a, at, ea).1, plan(b, 0, eb).1),
            )
        } else {
            (
                a + plan(b, (at - a.len()) as nat, eb).0,
                plan(b, (at - a.len()) as nat, eb).1,
            )
        }),
    decreases a.len() + b.len() - at,
{
    let ab = a + b;
    let els = ea + eb;
    if at >= ab.len() {
    } else if at < a.len() {
        assert(ab[at as int] == a[at as int]);
        assert(els[at as int] == ea[at as int]);
        let (w, outcome) = leaf_step(a[at as int], ea[at as int]);
        assert(ab.update(at as int, w) =~= a.update(at as int, w) + b);
        lemma_plan_concat(a.update(at as int, w), b, at + 1, ea, eb);
        let x = plan(a.update(at as int, w), at + 1, ea).1;
        let y = plan(b, 0, eb).1;
        if at + 1 >= a.len() {
            assert(plan(a.update(at as int, w), at + 1, ea) == (
                a.update(at as int, w),
                Ok::<Seq<Interval>, WaiterError>(seq![]),
            ));
            match y {
                Ok(t) => {
                    assert(seq![] + t =~= t);
                },
                _ => {},
            }
        }
        match outcome {
            StepOutcome::Pause(span) => {
                match (x, y) {
                    (Ok(s1), Ok(t)) => {
                        assert(seq![span] + (s1 + t) =~= (seq![span] + s1) + t);
                    },
                    _ => {},
                }
            },
            _ => {},
        }
    } else {
        let j = (at - a.len()) as nat;
        assert(ab[at as int] == b[j as int]);
        assert(els[at as int] == eb[j as int]);
        let (w, outcome) = leaf_step(b[j as int], eb[j as int]);
        assert(ab.update(at as int, w) =~= a + b.update(j as int, w));
        lemma_plan_concat(a, b.update(j as int, w), at + 1, ea, eb);
    }
}

pub(crate) proof fn lemma_start_concat(
    a: Seq<LeafView>,
    b: Seq<LeafView>,
    na: Seq<Instant>,
    nb: Seq<Instant>,
)
    requires
        na.len() == a.len(),
        nb.len() == b.len(),
    ensures
        start_all(a + b, na + nb) == start_all(a, na) + start_all(b, nb),
{
    assert(start_all(a + b, na + nb) =~= start_all(a, na) + start_all(b, nb));
}

} // verus!
