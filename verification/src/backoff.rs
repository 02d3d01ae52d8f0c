use vstd::prelude::*;

use crate::waiter::WaiterError;

verus! {

/// The integer state of an exponential backoff: the next span to sleep, in
/// microseconds (`None` until started), the span to start from, and the cap.
/// Growing the span by a factor is left to the caller, who hands the grown
/// span to `advance`.
#[derive(Clone, Copy, Debug)]
pub struct BackoffState {
    next_micros: Option<u64>,
    initial_micros: u64,
    cap_micros: u64,
}

impl BackoffState {
    /// The next span to sleep, in microseconds; `None` until started.
    pub closed spec fn next_micros(&self) -> Option<u64> {
        self.next_micros
    }

    /// The span that a start or restart sets as the next one.
    pub closed spec fn initial_micros(&self) -> u64 {
        self.initial_micros
    }

    /// The upper bound of every grown span.
    pub closed spec fn cap_micros(&self) -> u64 {
        self.cap_micros
    }

    /// A backoff that has not been started yet.
    pub fn new(initial_micros: u64, cap_micros: u64) -> (r: Self)
        ensures
            r.next_micros() == None::<u64>,
            r.initial_micros() == initial_micros,
            r.cap_micros() == cap_micros,
    {
        BackoffState { next_micros: None, initial_micros, cap_micros }
    }

    /// The next span to sleep, in microseconds; `None` until started.
    pub fn current(&self) -> (r: Option<u64>)
        ensures
            r == self.next_micros(),
    {
        self.next_micros
    }

    /// Starts the backoff over from its initial span.
    pub fn start(&mut self)
        ensures
            final(self).next_micros() == Some(old(self).initial_micros()),
            final(self).initial_micros() == old(self).initial_micros(),
            final(self).cap_micros() == old(self).cap_micros(),
    {
        self.next_micros = Some(self.initial_micros);
    }

    /// Starts the backoff over; fails, and changes nothing, if it was never
    /// started.
    pub fn restart(&mut self) -> (r: Result<(), WaiterError>)
        ensures
            old(self).next_micros() is None ==> r == Err::<(), WaiterError>(
                WaiterError::NotStarted,
            ) && *final(self) == *old(self),
            old(self).next_micros() is Some ==> r == Ok::<(), WaiterError>(())
                && final(self).next_micros() == Some(old(self).initial_micros())
                && final(self).initial_micros() == old(self).initial_micros()
                && final(self).cap_micros() == old(self).cap_micros(),
    {
        if self.next_micros.is_none() {
            Err(WaiterError::NotStarted)
        } else {
            self.next_micros = Some(self.initial_micros);
            Ok(())
        }
    }

    /// One wait: hands back the span to sleep now, and makes the next one
    /// `grown_micros` (the current span grown by the caller's factor), cut
    /// down to the cap. Fails, and changes nothing, if never started.
    pub fn advance(&mut self, grown_micros: u64) -> (r: Result<u64, WaiterError>)
        ensures
            old(self).next_micros() is None ==> r == Err::<u64, WaiterError>(
                WaiterError::NotStarted,
            ) && *final(self) == *old(self),
            old(self).next_micros() is Some ==> r == Ok::<u64, WaiterError>(
                old(self).next_micros()->0,
            ) && final(self).next_micros() == Some(
                if grown_micros < old(self).cap_micros() {
                    grown_micros
                } else {
                    old(self).cap_micros()
                },
            ) && final(self).initial_micros() == old(self).initial_micros()
                && final(self).cap_micros() == old(self).cap_micros(),
    {
        match self.next_micros {
            None => Err(WaiterError::NotStarted),
            Some(current) => {
                let next = if grown_micros < self.cap_micros {
                    grown_micros
                } else {
                    self.cap_micros
                };
                self.next_micros = Some(next);
                Ok(current)
            },
        }
    }
}

} // verus!
