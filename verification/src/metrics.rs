//! The counters of the forwarder and the window of recent latencies.

use vstd::prelude::*;
use std::collections::VecDeque;

verus! {

/// How many latencies the window holds.
pub const LATENCY_WINDOW: usize = 100;

/// The window after one more latency: the new one at the back, and the
/// oldest one gone where the window was full.
pub open spec fn window_push(window: Seq<u64>, latency_ms: u64) -> Seq<u64> {
    if window.len() >= LATENCY_WINDOW {
        window.drop_first().push(latency_ms)
    } else {
        window.push(latency_ms)
    }
}

/// Records a latency, in milliseconds, in the window of recent ones.
pub fn record_latency(latencies: &mut VecDeque<u64>, latency_ms: u64)
    ensures
        final(latencies)@ == window_push(old(latencies)@, latency_ms),
{
    if latencies.len() >= LATENCY_WINDOW {
        latencies.pop_front();
    }
    latencies.push_back(latency_ms);
}

/// A window within its bound stays within it, ends in the latest latency
/// and keeps the ones before it in their order.
pub proof fn lemma_window_is_bounded(window: Seq<u64>, latency_ms: u64)
    requires
        window.len() <= LATENCY_WINDOW,
    ensures
        window_push(window, latency_ms).len() <= LATENCY_WINDOW,
        window_push(window, latency_ms).len() == if window.len() < LATENCY_WINDOW {
            window.len() + 1
        } else {
            LATENCY_WINDOW as nat
        },
        window_push(window, latency_ms).last() == latency_ms,
        window_push(window, latency_ms).drop_last() == if window.len() < LATENCY_WINDOW {
            window
        } else {
            window.drop_first()
        },
{
    let after = window_push(window, latency_ms);
    if window.len() < LATENCY_WINDOW {
        assert(after.drop_last() =~= window);
    } else {
        assert(after.drop_last() =~= window.drop_first());
    }
}

/// The counters: each only ever grows.
#[derive(Debug, Clone, Copy, PartialEq, Eq, Structural)]
pub struct Metrics {
    pub cache_hits: u64,
    pub cache_misses: u64,
    pub blocked_requests: u64,
}

/// A counter after one more event; it stays at the largest value once there.
pub open spec fn bumped(n: u64) -> u64 {
    if n < u64::MAX {
        (n + 1) as u64
    } else {
        n
    }
}

/// Counts one more event.
pub fn bump(n: u64) -> (m: u64)
    ensures
        m == bumped(n),
{
    if n < u64::MAX {
        n + 1
    } else {
        n
    }
}

impl Metrics {
    /// Counters at zero.
    pub fn new() -> (m: Self)
        ensures
            m == (Metrics { cache_hits: 0, cache_misses: 0, blocked_requests: 0 }),
    {
        Metrics { cache_hits: 0, cache_misses: 0, blocked_requests: 0 }
    }
}

} // verus!
