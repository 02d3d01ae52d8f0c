# delay

Waiters for polling loops: throttles, timeouts, count timeouts, and a
builder that runs several of them one after the other.

- `src/` is the verified library (Verus). `waiter.rs` holds the model that
  the contracts speak of (`run`, `plan`, `restart_from`, `start_all`) and the
  `Waiter` trait; `delay.rs`, `compose.rs` and the elementary waiters
  implement it; `basic.rs` is the API whose waiters are armed when made;
  `laws.rs` holds the properties proved of every delay.
- A waiter never sleeps itself: `wait` hands back the span to sleep and the
  position to `resume` from. `app/` does the sleeping, the asynchronous wait
  and the growth of the exponential backoff, which multiplies in floating
  point; the rest of the backoff is the verified `BackoffState` (`backoff.rs`).
