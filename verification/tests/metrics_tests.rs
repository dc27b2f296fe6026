use dns_forwarder::metrics::{bump, record_latency, Metrics};
use std::collections::VecDeque;

#[test]
fn latencies_are_kept_in_order() {
    let mut window = VecDeque::new();
    record_latency(&mut window, 5);
    record_latency(&mut window, 0);
    record_latency(&mut window, 9);
    assert_eq!(window, VecDeque::from(vec![5, 0, 9]));
}

#[test]
fn window_holds_the_last_hundred() {
    let mut window = VecDeque::new();
    for ms in 0..100u64 {
        record_latency(&mut window, ms);
    }
    assert_eq!(window.len(), 100);
    assert_eq!(window.front(), Some(&0));
    record_latency(&mut window, 100);
    assert_eq!(window.len(), 100);
    assert_eq!(window.front(), Some(&1));
    assert_eq!(window.back(), Some(&100));
    for ms in 101..350u64 {
        record_latency(&mut window, ms);
    }
    assert_eq!(window.len(), 100);
    let expected: Vec<u64> = (250..350).collect();
    assert_eq!(window.iter().copied().collect::<Vec<u64>>(), expected);
}

#[test]
fn overfull_window_loses_one_per_record() {
    let mut window: VecDeque<u64> = (0..103).collect();
    record_latency(&mut window, 7);
    assert_eq!(window.len(), 103);
    assert_eq!(window.front(), Some(&1));
    assert_eq!(window.back(), Some(&7));
}

#[test]
fn counters_start_at_zero_and_stop_at_the_top() {
    let m = Metrics::new();
    assert_eq!(m, Metrics { cache_hits: 0, cache_misses: 0, blocked_requests: 0 });
    assert_eq!(bump(0), 1);
    assert_eq!(bump(41), 42);
    assert_eq!(bump(u64::MAX - 1), u64::MAX);
    assert_eq!(bump(u64::MAX), u64::MAX);
}
