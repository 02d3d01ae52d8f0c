//! What holds of every delay, over the models that the contracts use.
use std::time::Instant;
use vstd::prelude::*;

use crate::basic::{all_started, allowed_waits, basic_result};
use crate::clock::span_between;
use crate::interval::Interval;
use crate::waiter::{
    combine, lemma_plan_concat, lemma_restart_concat, lemma_run_concat, lemma_start_concat,
    all_read_after_starts, leaf_restart, leaf_start, leaf_started, leaf_step, not_before, plan,
    reads_after_start, restart_from, restart_reads_fresh, run, run_reads_fresh, shifted, start_all,
    timeout_from, LeafView, StepOutcome, WaitStep, WaiterError,
};

verus! {

/// `n` waiting cycles in a row, each run from the first waiter to its end
/// (with no sleep in between); `els[k][i]` is the instant at which waiter `i`
/// reads the clock in cycle `k`. Gives the waiters afterwards and what each
/// cycle returned.
pub open spec fn waits(ws: Seq<LeafView>, n: nat, els: Seq<Seq<Instant>>) -> (
    Seq<LeafView>,
    Seq<Result<WaitStep, WaiterError>>,
)
    decreases n,
{
    if n == 0 {
        (ws, seq![])
    } else {
        let (before, rs) = waits(ws, (n - 1) as nat, els);
        let (after, r) = run(before, 0, els[n - 1]);
        (after, rs.push(r))
    }
}

/// The result of the `k`-th wait (counting from 0) of a started count
/// timeout that allows `max` waits and of which `passed` are used.
pub open spec fn count_result(max: u64, passed: u64, k: nat) -> Result<WaitStep, WaiterError> {
    if passed + k < max {
        Ok(WaitStep::Done)
    } else {
        Err(WaiterError::Timeout)
    }
}

/// The waits used of a started count timeout after `n` more waits.
pub open spec fn count_after(max: u64, passed: u64, n: nat) -> u64 {
    if passed + n < max {
        (passed + n) as u64
    } else if passed < max {
        max
    } else {
        passed
    }
}

proof fn lemma_count_waits(max: u64, passed: u64, n: nat, els: Seq<Seq<Instant>>)
    ensures
        waits(seq![LeafView::Count { max, passed, started: true }], n, els).0 == seq![
            LeafView::Count { max, passed: count_after(max, passed, n), started: true },
        ],
        waits(seq![LeafView::Count { max, passed, started: true }], n, els).1.len() == n,
        forall|k: int|
            0 <= k < n ==> #[trigger] waits(
                seq![LeafView::Count { max, passed, started: true }],
                n,
                els,
            ).1[k] == count_result(max, passed, k as nat),
    decreases n,
{
    let w0 = seq![LeafView::Count { max, passed, started: true }];
    if n > 0 {
        let m = (n - 1) as nat;
        lemma_count_waits(max, passed, m, els);
        let (before, rs) = waits(w0, m, els);
        let w = LeafView::Count { max, passed: count_after(max, passed, m), started: true };
        reveal_with_fuel(run, 2);
        let (w2, o) = leaf_step(w, els[m as int][0]);
        assert(seq![w].update(0, w2) =~= seq![w2]);
        let (after, r) = run(before, 0, els[m as int]);
        assert(r == count_result(max, passed, m));
        assert forall|k: int| 0 <= k < n implies #[trigger] rs.push(r)[k] == count_result(
            max,
            passed,
            k as nat,
        ) by {
            if k < m {
                assert(rs.push(r)[k] == rs[k]);
            }
        }
    }
}

/// A started count timeout that allows `max` waits and has used `passed`:
/// its `k`-th next wait succeeds exactly when `passed + k < max`. So once
/// it has timed out, it times out at every wait until it is started again.
pub proof fn law_count_timeout_waits(max: u64, passed: u64, n: nat, els: Seq<Seq<Instant>>)
    ensures
        waits(seq![LeafView::Count { max, passed, started: true }], n, els).1.len() == n,
        forall|k: int|
            0 <= k < n ==> #[trigger] waits(
                seq![LeafView::Count { max, passed, started: true }],
                n,
                els,
            ).1[k] == count_result(max, passed, k as nat),
{
    lemma_count_waits(max, passed, n, els);
}

/// A count timeout that allows `max` waits: after a start, each of the first
/// `max` waits succeeds and every later one times out, whatever the count
/// was before the start.
pub proof fn law_count_timeout(
    max: u64,
    passed: u64,
    started: bool,
    nows: Seq<Instant>,
    n: nat,
    els: Seq<Seq<Instant>>,
)
    ensures
        waits(start_all(seq![LeafView::Count { max, passed, started }], nows), n, els).1.len()
            == n,
        forall|k: int|
            0 <= k < n ==> #[trigger] waits(
                start_all(seq![LeafView::Count { max, passed, started }], nows),
                n,
                els,
            ).1[k] == count_result(max, 0, k as nat),
{
    assert(start_all(seq![LeafView::Count { max, passed, started }], nows) =~= seq![
        LeafView::Count { max, passed: 0, started: true },
    ]);
    lemma_count_waits(max, 0, n, els);
}

/// A waiter that was never started fails with `NotStarted` and is left as it
/// was, both at a wait and at a restart, when the cycle reaches it.
pub proof fn law_not_started(ws: Seq<LeafView>, at: nat, els: Seq<Instant>, nows: Seq<Instant>)
    requires
        at < ws.len(),
        !leaf_started(ws[at as int]),
    ensures
        run(ws, at, els) == (ws, Err::<WaitStep, WaiterError>(WaiterError::NotStarted)),
        restart_from(ws, at, nows) == (ws, Err::<(), WaiterError>(WaiterError::NotStarted)),
{
    let (w, o) = leaf_step(ws[at as int], els[at as int]);
    assert(ws.update(at as int, w) =~= ws);
}

/// Restarting waiters that were all started succeeds and leaves them as a
/// start does.
pub proof fn law_restart_of_started_is_start(ws: Seq<LeafView>, at: nat, nows: Seq<Instant>)
    requires
        at <= ws.len(),
        nows.len() == ws.len(),
        forall|i: int| 0 <= i < ws.len() ==> #[trigger] leaf_started(ws[i]),
    ensures
        restart_from(ws, at, nows) == (
            ws.take(at as int) + start_all(ws.skip(at as int), nows.skip(at as int)),
            Ok::<(), WaiterError>(()),
        ),
    decreases ws.len() - at,
{
    if at == ws.len() {
        assert(ws.take(at as int) + start_all(ws.skip(at as int), nows.skip(at as int)) =~= ws);
    } else {
        let w = leaf_start(ws[at as int], nows[at as int]);
        assert(leaf_started(ws[at as int]));
        assert(leaf_restart(ws[at as int], nows[at as int]) == (w, Ok::<(), WaiterError>(())));
        let next = ws.update(at as int, w);
        assert forall|i: int| 0 <= i < next.len() implies #[trigger] leaf_started(next[i]) by {
            if i != at {
                assert(leaf_started(ws[i]));
            }
        }
        law_restart_of_started_is_start(next, at + 1, nows);
        assert(next.take((at + 1) as int) + start_all(
            next.skip((at + 1) as int),
            nows.skip((at + 1) as int),
        ) =~= ws.take(at as int) + start_all(ws.skip(at as int), nows.skip(at as int)));
    }
}

/// A restart from the first waiter of started waiters is a start that reads
/// the clock at the same instants.
pub proof fn law_restart_is_start(ws: Seq<LeafView>, nows: Seq<Instant>)
    requires
        nows.len() == ws.len(),
        forall|i: int| 0 <= i < ws.len() ==> #[trigger] leaf_started(ws[i]),
    ensures
        restart_from(ws, 0, nows) == (start_all(ws, nows), Ok::<(), WaiterError>(())),
{
    law_restart_of_started_is_start(ws, 0, nows);
    assert(ws.take(0) + start_all(ws.skip(0), nows.skip(0)) =~= start_all(ws, nows));
}

/// Starting twice is the same as starting once, at the second start's
/// instants: a start forgets all that came before it.
pub proof fn law_start_twice(ws: Seq<LeafView>, first: Seq<Instant>, second: Seq<Instant>)
    ensures
        start_all(start_all(ws, first), second) == start_all(ws, second),
{
    assert(start_all(start_all(ws, first), second) =~= start_all(ws, second));
}

/// A cycle runs the waiters from `at` one after the other up to the first,
/// `stop`, that does not simply go on: every waiter before it has waited,
/// `stop` has waited and decides the result (a sleep resumed after it, or
/// its error), and the waiters after it are left untouched. When every
/// waiter goes on, the cycle is done.
pub proof fn law_run_stops_at_first(ws: Seq<LeafView>, at: nat, els: Seq<Instant>, stop: nat)
    requires
        at <= stop <= ws.len(),
        forall|i: int|
            at <= i < stop ==> (#[trigger] leaf_step(ws[i], els[i])).1 == StepOutcome::Proceed,
        stop < ws.len() ==> leaf_step(ws[stop as int], els[stop as int]).1
            != StepOutcome::Proceed,
    ensures
        run(ws, at, els).0.len() == ws.len(),
        forall|i: int|
            0 <= i < ws.len() ==> #[trigger] run(ws, at, els).0[i] == if at <= i <= stop {
                leaf_step(ws[i], els[i]).0
            } else {
                ws[i]
            },
        run(ws, at, els).1 == if stop == ws.len() {
            Ok(WaitStep::Done)
        } else {
            match leaf_step(ws[stop as int], els[stop as int]).1 {
                StepOutcome::Pause(span) => Ok(
                    WaitStep::Sleep { span, resume: (stop + 1) as usize },
                ),
                StepOutcome::Fail(e) => Err(e),
                StepOutcome::Proceed => Ok(WaitStep::Done),
            }
        },
    decreases ws.len() - at,
{
    if at < ws.len() {
        let (w, o) = leaf_step(ws[at as int], els[at as int]);
        let next = ws.update(at as int, w);
        if at < stop {
            assert(leaf_step(ws[at as int], els[at as int]).1 == StepOutcome::Proceed);
            assert forall|i: int| at + 1 <= i < stop implies (#[trigger] leaf_step(
                next[i],
                els[i],
            )).1 == StepOutcome::Proceed by {
                assert(next[i] == ws[i]);
                assert(leaf_step(ws[i], els[i]).1 == StepOutcome::Proceed);
            }
            assert(stop < ws.len() ==> next[stop as int] == ws[stop as int]);
            law_run_stops_at_first(next, at + 1, els, stop);
            assert forall|i: int| 0 <= i < ws.len() implies #[trigger] run(ws, at, els).0[i]
                == if at <= i <= stop {
                leaf_step(ws[i], els[i]).0
            } else {
                ws[i]
            } by {
                assert(run(ws, at, els).0[i] == run(next, at + 1, els).0[i]);
                if i != at {
                    assert(next[i] == ws[i]);
                }
            }
        }
    }
}

/// Delays that wait one after the other: a cycle over `a` followed by `b`
/// runs `a`, and goes on into `b` only when `a` has finished; a sleep in `b`
/// resumes at its position in the whole.
pub proof fn law_run_in_sequence(
    a: Seq<LeafView>,
    b: Seq<LeafView>,
    ea: Seq<Instant>,
    eb: Seq<Instant>,
)
    requires
        ea.len() == a.len(),
        eb.len() == b.len(),
        a.len() + b.len() <= usize::MAX,
    ensures
        run(a + b, 0, ea + eb) == (if 0 < a.len() {
            let (a2, r) = run(a, 0, ea);
            if r == Ok::<WaitStep, WaiterError>(WaitStep::Done) {
                let (b2, rb) = run(b, 0, eb);
                (a2 + b2, shifted(rb, a.len()))
            } else {
                (a2 + b, r)
            }
        } else {
            run(b, 0, eb)
        }),
{
    lemma_run_concat(a, b, 0, ea, eb);
    if a.len() == 0 {
        assert(a + b =~= b);
        let (b2, rb) = run(b, 0, eb);
        assert(a + b2 =~= b2);
        match rb {
            Ok(WaitStep::Sleep { span, resume }) => {},
            _ => {},
        }
    }
}

/// An asynchronous wait over delays that wait one after the other makes the
/// decisions of both: it fails with the first error of the first delay, else
/// with the first error of the second, and otherwise sleeps for the spans of
/// both side by side.
pub proof fn law_async_wait_in_sequence(
    a: Seq<LeafView>,
    b: Seq<LeafView>,
    ea: Seq<Instant>,
    eb: Seq<Instant>,
)
    requires
        ea.len() == a.len(),
        eb.len() == b.len(),
    ensures
        plan(a + b, 0, ea + eb) == (
            plan(a, 0, ea).0 + plan(b, 0, eb).0,
            combine(plan(a, 0, ea).1, plan(b, 0, eb).1),
        ),
{
    lemma_plan_concat(a, b, 0, ea, eb);
    if a.len() == 0 {
        match plan(b, 0, eb).1 {
            Ok(t) => {
                assert(seq![] + t =~= t);
            },
            _ => {},
        }
    }
}

/// Starting delays that wait one after the other starts each of them.
pub proof fn law_start_in_sequence(
    a: Seq<LeafView>,
    b: Seq<LeafView>,
    na: Seq<Instant>,
    nb: Seq<Instant>,
)
    requires
        na.len() == a.len(),
        nb.len() == b.len(),
    ensures
        start_all(a + b, na + nb) == start_all(a, na) + start_all(b, nb),
{
    lemma_start_concat(a, b, na, nb);
}

/// Restarting delays that wait one after the other restarts the first, and
/// the second only if the first could restart.
pub proof fn law_restart_in_sequence(
    a: Seq<LeafView>,
    b: Seq<LeafView>,
    na: Seq<Instant>,
    nb: Seq<Instant>,
)
    requires
        na.len() == a.len(),
        nb.len() == b.len(),
    ensures
        restart_from(a + b, 0, na + nb) == (if 0 < a.len() {
            let (a2, r) = restart_from(a, 0, na);
            if r is Ok {
                let (b2, rb) = restart_from(b, 0, nb);
                (a2 + b2, rb)
            } else {
                (a2 + b, r)
            }
        } else {
            restart_from(b, 0, nb)
        }),
{
    lemma_restart_concat(a, b, 0, na, nb);
    if a.len() == 0 {
        assert(a + b =~= b);
        assert(na + nb =~= nb);
        assert(a + restart_from(b, 0, nb).0 =~= restart_from(b, 0, nb).0);
    }
}

/// A delay that never waits: every wait succeeds at once, with or without a
/// start, and starts and restarts leave it as it is and succeed.
pub proof fn law_instant_never_waits(at: nat, els: Seq<Instant>, nows: Seq<Instant>)
    ensures
        run(seq![LeafView::Immediate], at, els) == (
            seq![LeafView::Immediate],
            Ok::<WaitStep, WaiterError>(WaitStep::Done),
        ),
        start_all(seq![LeafView::Immediate], nows) == seq![LeafView::Immediate],
        restart_from(seq![LeafView::Immediate], 0, nows) == (
            seq![LeafView::Immediate],
            Ok::<(), WaiterError>(()),
        ),
{
    assert(start_all(seq![LeafView::Immediate], nows) =~= seq![LeafView::Immediate]);
    reveal_with_fuel(restart_from, 2);
    reveal_with_fuel(run, 2);
    assert(seq![LeafView::Immediate].update(0, LeafView::Immediate) =~= seq![LeafView::Immediate]);
}

/// Throttles sleep one after the other: a cycle over throttles asks for the
/// sleep of the waiter it reaches and resumes after it, and a resume past
/// the last one ends the cycle.
pub proof fn law_throttles_sleep_in_turn(ws: Seq<LeafView>, at: nat, els: Seq<Instant>)
    requires
        forall|i: int| 0 <= i < ws.len() ==> #[trigger] ws[i] is Throttle,
        ws.len() <= usize::MAX,
    ensures
        run(ws, at, els) == (if at < ws.len() {
            (
                ws,
                Ok::<WaitStep, WaiterError>(
                    WaitStep::Sleep { span: ws[at as int]->span, resume: (at + 1) as usize },
                ),
            )
        } else {
            (ws, Ok(WaitStep::Done))
        }),
{
    if at < ws.len() {
        assert(ws[at as int] is Throttle);
        assert(ws.update(at as int, ws[at as int]) =~= ws);
    }
}

/// A timeout started at instant `start` that reads the clock at `now` fails
/// exactly when more than its limit lies between the two; waiting never
/// changes it.
pub proof fn law_timeout(limit: Interval, start: Instant, now: Instant)
    ensures
        run(seq![LeafView::Timeout { limit, start: Some(start) }], 0, seq![now]) == (
            seq![LeafView::Timeout { limit, start: Some(start) }],
            if span_between(now, start) > limit@ {
                Err::<WaitStep, WaiterError>(WaiterError::Timeout)
            } else {
                Ok(WaitStep::Done)
            },
        ),
{
    reveal_with_fuel(run, 2);
    let w = LeafView::Timeout { limit, start: Some(start) };
    assert(seq![w].update(0, w) =~= seq![w]);
}

/// A started timeout, waited on with a clock reading that is no earlier
/// than its start (as every cycle's contract promises), fails with
/// `Timeout` exactly when more than its limit lies between the start and the
/// reading, and never fails with anything else.
pub proof fn law_timeout_wait(limit: Interval, start: Instant, els: Seq<Instant>)
    requires
        els.len() == 1,
        run_reads_fresh(seq![LeafView::Timeout { limit, start: Some(start) }], 0, els),
    ensures
        not_before(els[0], start),
        run(seq![LeafView::Timeout { limit, start: Some(start) }], 0, els).1 == if span_between(
            els[0],
            start,
        ) > limit@ {
            Err::<WaitStep, WaiterError>(WaiterError::Timeout)
        } else {
            Ok(WaitStep::Done)
        },
{
    reveal_with_fuel(run, 2);
    let w = LeafView::Timeout { limit, start: Some(start) };
    assert(seq![w][0] == w);
    assert(seq![w].update(0, w) =~= seq![w]);
}

/// A start moves every timeout's start instant to a clock reading no
/// earlier than its previous start, and leaves it started: a cycle after a
/// start counts from that reading, whatever the timeout's previous start was.
pub proof fn law_start_reads_the_clock(ws: Seq<LeafView>, nows: Seq<Instant>, i: int)
    requires
        nows.len() == ws.len(),
        all_read_after_starts(ws, nows),
        0 <= i < ws.len(),
        ws[i] is Timeout,
    ensures
        start_all(ws, nows)[i] == timeout_from(ws[i]->limit, nows[i]),
        ws[i]->start matches Some(s) ==> not_before(nows[i], s),
{
    assert(reads_after_start(ws[i], nows[i]));
}

/// A restart of started waiters moves every timeout's start instant to a
/// clock reading no earlier than its previous start, and succeeds.
pub proof fn law_restart_reads_the_clock(ws: Seq<LeafView>, nows: Seq<Instant>, i: int)
    requires
        nows.len() == ws.len(),
        forall|j: int| 0 <= j < ws.len() ==> #[trigger] leaf_started(ws[j]),
        restart_reads_fresh(ws, 0, nows),
        0 <= i < ws.len(),
        ws[i] is Timeout,
    ensures
        restart_from(ws, 0, nows) == (start_all(ws, nows), Ok::<(), WaiterError>(())),
        start_all(ws, nows)[i] == timeout_from(ws[i]->limit, nows[i]),
        not_before(nows[i], ws[i]->start->0),
{
    law_restart_is_start(ws, nows);
    lemma_restart_fresh_all(ws, 0, nows);
    assert(leaf_started(ws[i]));
    assert(reads_after_start(ws[i], nows[i]));
}

proof fn lemma_restart_fresh_all(ws: Seq<LeafView>, at: nat, nows: Seq<Instant>)
    requires
        nows.len() == ws.len(),
        forall|j: int| 0 <= j < ws.len() ==> #[trigger] leaf_started(ws[j]),
        restart_reads_fresh(ws, at, nows),
    ensures
        forall|j: int| at <= j < ws.len() ==> #[trigger] reads_after_start(ws[j], nows[j]),
    decreases ws.len() - at,
{
    if at < ws.len() {
        let (w, r) = leaf_restart(ws[at as int], nows[at as int]);
        assert(leaf_started(ws[at as int]));
        let next = ws.update(at as int, w);
        assert forall|j: int| 0 <= j < next.len() implies #[trigger] leaf_started(next[j]) by {
            if j != at {
                assert(leaf_started(ws[j]));
            }
        }
        lemma_restart_fresh_all(next, at + 1, nows);
        assert forall|j: int| at <= j < ws.len() implies #[trigger] reads_after_start(
            ws[j],
            nows[j],
        ) by {
            if j != at {
                assert(next[j] == ws[j]);
                assert(reads_after_start(next[j], nows[j]));
            }
        }
    }
}

/// A basic waiter hands back the model cycle's step unchanged (a sleep with
/// the same span and the same resume position, or the end of the cycle),
/// and turns every error into `Timeout`.
pub proof fn law_basic_steps(r: Result<WaitStep, WaiterError>)
    ensures
        r is Ok ==> basic_result(r) == Ok::<WaitStep, crate::basic::WaiterError>(r->Ok_0),
        r is Err ==> basic_result(r) == Err::<WaitStep, crate::basic::WaiterError>(
            crate::basic::WaiterError::Timeout,
        ),
{
}

/// Basic throttles sleep one after the other: from position `at`, a basic
/// cycle over throttles asks for the sleep of the throttle there and resumes
/// right after it; past the last one the cycle is done. So `k` throttles end
/// in `Done` after `k` resumes.
pub proof fn law_basic_throttles_sleep_in_turn(ws: Seq<LeafView>, at: nat, els: Seq<Instant>)
    requires
        forall|i: int| 0 <= i < ws.len() ==> #[trigger] ws[i] is Throttle,
        ws.len() <= usize::MAX,
    ensures
        basic_result(run(ws, at, els).1) == if at < ws.len() {
            Ok::<WaitStep, crate::basic::WaiterError>(
                WaitStep::Sleep { span: ws[at as int]->span, resume: (at + 1) as usize },
            )
        } else {
            Ok(WaitStep::Done)
        },
{
    law_throttles_sleep_in_turn(ws, at, els);
}

/// The basic count timeout made with `count`: after it is made or started,
/// the waits before the `count`-th succeed, and that one and all later ones
/// time out.
pub proof fn law_basic_count_timeout(count: u64, n: nat, els: Seq<Seq<Instant>>)
    ensures
        forall|k: int|
            0 <= k < n ==> #[trigger] basic_result(
                waits(
                    seq![LeafView::Count { max: allowed_waits(count), passed: 0, started: true }],
                    n,
                    els,
                ).1[k],
            ) == if k + 1 < count {
                Ok::<WaitStep, crate::basic::WaiterError>(WaitStep::Done)
            } else {
                Err(crate::basic::WaiterError::Timeout)
            },
{
    lemma_count_waits(allowed_waits(count), 0, n, els);
}

/// Armed waiters stay armed through a cycle, and a cycle over them never
/// reports a waiter that was not started.
pub proof fn law_basic_waiters_stay_armed(ws: Seq<LeafView>, at: nat, els: Seq<Instant>)
    requires
        all_started(ws),
    ensures
        all_started(run(ws, at, els).0),
        run(ws, at, els).1 != Err::<WaitStep, WaiterError>(WaiterError::NotStarted),
{
    crate::basic::lemma_run_keeps_started(ws, at, els);
}

} // verus!
