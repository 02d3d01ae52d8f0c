use std::time::Instant;
use vstd::prelude::*;

use crate::interval::Interval;

verus! {

/// The monotonic clock's instants, carried through as they are.
#[verifier::external_type_specification]
#[verifier::external_body]
pub struct ExInstant(Instant);

/// The time from `earlier` to `later` in nanoseconds, as
/// `Instant::saturating_duration_since` measures it.
pub uninterp spec fn span_between(later: Instant, earlier: Instant) -> nat;

/// Reads the monotonic clock with `std::time::Instant::now`. std documents
/// that an instant is never less than one measured before it; so when an
/// earlier reading `a` is handed in, the contract claims that
/// `a.saturating_duration_since(r)` is zero. Nothing else is stated of the
/// reading: it is the time of the call.
#[verifier::external_body]
pub(crate) fn clock_now(after: Option<&Instant>) -> (r: Instant)
    ensures
        after matches Some(a) ==> span_between(*a, r) == 0,
{
    Instant::now()
}

/// The time from `earlier` to `later`, measured with
/// `std::time::Instant::saturating_duration_since` and taken in nanoseconds
/// with `Duration::as_nanos`. The contract claims only that the result is
/// that function of the two instants.
#[verifier::external_body]
pub(crate) fn span_since(later: &Instant, earlier: &Instant) -> (r: Interval)
    ensures
        r@ == span_between(*later, *earlier),
{
    Interval { nanos: later.saturating_duration_since(*earlier).as_nanos() }
}

} // verus!
