use dns_forwarder::blocklist::DNSBlocklist;
use dns_forwarder::cache::DNSCache;
use dns_forwarder::engine::{
    handle_dns_request, process_resolver_response, Pending, RequestAction, ResponseAction,
};
use dns_forwarder::metrics::Metrics;
use dns_forwarder::packet::DNSPacket;
use std::collections::{HashMap, VecDeque};

struct Forwarder {
    cache: DNSCache,
    pending: HashMap<u16, Pending<&'static str>>,
    next: u16,
    blocklist: DNSBlocklist,
    metrics: Metrics,
    latencies: VecDeque<u64>,
}

fn forwarder(hosts: &str, next: u16) -> Forwarder {
    Forwarder {
        cache: DNSCache::new(),
        pending: HashMap::new(),
        next,
        blocklist: DNSBlocklist::from_hosts(hosts),
        metrics: Metrics::new(),
        latencies: VecDeque::new(),
    }
}

fn ask(f: &mut Forwarder, data: &[u8], client: &'static str, now: u64) -> RequestAction {
    handle_dns_request(
        data,
        client,
        false,
        now,
        &f.cache,
        &mut f.pending,
        &mut f.next,
        &f.blocklist,
        &mut f.metrics,
    )
}

fn answer(f: &mut Forwarder, data: &[u8], now: u64) -> ResponseAction<&'static str> {
    process_resolver_response(data, true, now, &mut f.pending, &mut f.cache, &mut f.latencies)
}

fn name(labels: &[&str]) -> Vec<u8> {
    let mut out = Vec::new();
    for label in labels {
        out.push(label.len() as u8);
        out.extend_from_slice(label.as_bytes());
    }
    out.push(0);
    out
}

fn query(id: u16, labels: &[&str]) -> Vec<u8> {
    let mut out = Vec::new();
    out.extend_from_slice(&id.to_be_bytes());
    out.extend_from_slice(&[0x01, 0x00, 0, 1, 0, 0, 0, 0, 0, 0]);
    out.extend_from_slice(&name(labels));
    out.extend_from_slice(&[0, 1, 0, 1]);
    out
}

fn response(id: u16, labels: &[&str], ttl: u32, address: [u8; 4]) -> Vec<u8> {
    let mut out = Vec::new();
    out.extend_from_slice(&id.to_be_bytes());
    out.extend_from_slice(&[0x81, 0x80, 0, 1, 0, 1, 0, 0, 0, 0]);
    out.extend_from_slice(&name(labels));
    out.extend_from_slice(&[0, 1, 0, 1]);
    out.extend_from_slice(&[0xC0, 12, 0, 1, 0, 1]);
    out.extend_from_slice(&ttl.to_be_bytes());
    out.extend_from_slice(&[0, 4]);
    out.extend_from_slice(&address);
    out
}

fn forwarded(action: RequestAction) -> Vec<u8> {
    match action {
        RequestAction::Forward { payload } => payload,
        other => panic!("not forwarded: {:?}", other),
    }
}

fn delivered(action: ResponseAction<&'static str>) -> (&'static str, Vec<u8>, u64) {
    match action {
        ResponseAction::Deliver { client, payload, latency_ms } => (client, payload, latency_ms),
        other => panic!("not delivered: {:?}", other),
    }
}

#[test]
fn cache_miss_then_hit() {
    let mut f = forwarder("", 0x0700);
    let sent = forwarded(ask(&mut f, &query(0x1234, &["example", "com"]), "client", 1_000));
    assert_eq!(sent, query(0x0700, &["example", "com"]));
    assert_eq!(f.next, 0x0701);
    assert_eq!(f.metrics, Metrics { cache_hits: 0, cache_misses: 1, blocked_requests: 0 });
    assert_eq!(
        f.pending.get(&0x0700),
        Some(&Pending { client: "client", original_id: 0x1234, sent_at: 1_000 })
    );

    let upstream = response(0x0700, &["example", "com"], 3600, [93, 184, 216, 34]);
    let (client, payload, latency) = delivered(answer(&mut f, &upstream, 1_025));
    assert_eq!(client, "client");
    assert_eq!(latency, 25);
    assert_eq!(f.latencies, VecDeque::from(vec![25]));
    assert!(f.pending.is_empty());
    let reply = DNSPacket::from_bytes(&payload).unwrap();
    assert_eq!(reply.header.packet_id, 0x1234);
    assert_eq!(reply.header.ancount, 1);
    assert_eq!(reply.answers[0].data, vec![93, 184, 216, 34]);
    assert_eq!(reply.answers[0].name, name(&["example", "com"]));

    let again = ask(&mut f, &query(0x5678, &["example", "com"]), "client", 1_030);
    let payload = match again {
        RequestAction::SendCached { payload } => payload,
        other => panic!("not from the cache: {:?}", other),
    };
    let cached = DNSPacket::from_bytes(&payload).unwrap();
    assert_eq!(cached.header.packet_id, 0x5678);
    assert_eq!(cached.header.qr, 1);
    assert_eq!(cached.header.ra, 1);
    assert_eq!(cached.header.rd, 1);
    assert_eq!(cached.header.ancount, 1);
    assert_eq!(cached.header.nscount, 0);
    assert_eq!(cached.header.arcount, 0);
    assert_eq!(cached.answers, reply.answers);
    assert_eq!(f.metrics, Metrics { cache_hits: 1, cache_misses: 1, blocked_requests: 0 });
    assert!(f.pending.is_empty());
    assert_eq!(f.next, 0x0701);
}

#[test]
fn blocked_query_gets_the_sink_answer() {
    let mut f = forwarder("0.0.0.0 ads.example\n", 9);
    let action = ask(&mut f, &query(0x0001, &["ads", "example"]), "client", 0);
    let payload = match action {
        RequestAction::SendBlocked { payload } => payload,
        other => panic!("not blocked: {:?}", other),
    };
    let mut expected = vec![0x00, 0x01, 0x81, 0x80, 0, 1, 0, 1, 0, 0, 0, 0];
    expected.extend_from_slice(&name(&["ads", "example"]));
    expected.extend_from_slice(&[0, 1, 0, 1]);
    expected.extend_from_slice(&name(&["ads", "example"]));
    expected.extend_from_slice(&[0, 1, 0, 1, 0, 0, 0, 60, 0, 4, 0, 0, 0, 0]);
    assert_eq!(payload, expected);
    let reply = DNSPacket::from_bytes(&payload).unwrap();
    assert_eq!(reply.header.packet_id, 0x0001);
    assert_eq!(reply.header.qr, 1);
    assert_eq!(reply.header.ra, 1);
    assert_eq!(reply.header.ancount, 1);
    assert_eq!(reply.answers[0].data, vec![0, 0, 0, 0]);
    assert_eq!(reply.answers[0].ttl, 60);
    assert_eq!(f.metrics, Metrics { cache_hits: 0, cache_misses: 0, blocked_requests: 1 });
    assert!(f.pending.is_empty());
    assert_eq!(f.next, 9);
}

#[test]
fn blocking_comes_before_the_cache() {
    let mut f = forwarder("", 0);
    forwarded(ask(&mut f, &query(1, &["ads", "example"]), "a", 0));
    delivered(answer(&mut f, &response(0, &["ads", "example"], 900, [1, 2, 3, 4]), 1));
    f.blocklist.update("0.0.0.0 ads.example\n");
    let action = ask(&mut f, &query(2, &["ads", "example"]), "a", 2);
    assert!(matches!(action, RequestAction::SendBlocked { .. }));
}

#[test]
fn unmatched_answer_is_not_delivered() {
    let mut f = forwarder("", 0);
    forwarded(ask(&mut f, &query(1, &["a"]), "client", 0));
    let stray = response(0xDEAD, &["a"], 60, [1, 1, 1, 1]);
    assert_eq!(answer(&mut f, &stray, 5), ResponseAction::Unmatched);
    assert_eq!(f.pending.len(), 1);
    assert!(f.cache.get(&DNSPacket::from_bytes(&stray).unwrap().questions[0], 5).is_none());
    assert!(f.latencies.is_empty());
    delivered(answer(&mut f, &response(0, &["a"], 60, [1, 1, 1, 1]), 5));
    assert_eq!(answer(&mut f, &response(0, &["a"], 60, [1, 1, 1, 1]), 6), ResponseAction::Unmatched);
}

#[test]
fn two_clients_with_one_identifier_get_their_own_answers() {
    let mut f = forwarder("", 0xFFFF);
    let to_a = forwarded(ask(&mut f, &query(0x0100, &["foo", "example"]), "A", 10));
    let to_b = forwarded(ask(&mut f, &query(0x0100, &["bar", "example"]), "B", 11));
    let r_a = u16::from_be_bytes([to_a[0], to_a[1]]);
    let r_b = u16::from_be_bytes([to_b[0], to_b[1]]);
    assert_eq!(r_a, 0xFFFF);
    assert_eq!(r_b, 0x0000);
    assert_ne!(r_a, r_b);
    assert_eq!(f.next, 1);
    assert_eq!(f.pending.len(), 2);

    let (client, payload, latency) =
        delivered(answer(&mut f, &response(r_b, &["bar", "example"], 60, [2, 2, 2, 2]), 31));
    assert_eq!(client, "B");
    assert_eq!(latency, 20);
    let reply = DNSPacket::from_bytes(&payload).unwrap();
    assert_eq!(reply.header.packet_id, 0x0100);
    assert_eq!(reply.questions[0].name, name(&["bar", "example"]));
    assert_eq!(reply.answers[0].data, vec![2, 2, 2, 2]);

    let (client, payload, latency) =
        delivered(answer(&mut f, &response(r_a, &["foo", "example"], 60, [1, 1, 1, 1]), 40));
    assert_eq!(client, "A");
    assert_eq!(latency, 30);
    let reply = DNSPacket::from_bytes(&payload).unwrap();
    assert_eq!(reply.header.packet_id, 0x0100);
    assert_eq!(reply.questions[0].name, name(&["foo", "example"]));
    assert_eq!(reply.answers[0].data, vec![1, 1, 1, 1]);
    assert!(f.pending.is_empty());
    assert_eq!(f.latencies, VecDeque::from(vec![20, 30]));
}

#[test]
fn short_ttl_from_the_resolver_is_cached_for_the_floor() {
    let mut f = forwarder("", 0);
    forwarded(ask(&mut f, &query(1, &["a"]), "client", 0));
    delivered(answer(&mut f, &response(0, &["a"], 5, [9, 9, 9, 9]), 2_000));
    assert!(matches!(
        ask(&mut f, &query(2, &["a"]), "client", 301_999),
        RequestAction::SendCached { .. }
    ));
    assert!(matches!(ask(&mut f, &query(3, &["a"]), "client", 302_000), RequestAction::Forward { .. }));
    assert_eq!(f.metrics, Metrics { cache_hits: 1, cache_misses: 2, blocked_requests: 0 });
}

#[test]
fn datagrams_that_are_no_queries_are_dropped() {
    let mut f = forwarder("0.0.0.0 a\n", 3);
    assert_eq!(ask(&mut f, &[1, 2, 3], "client", 0), RequestAction::Drop);
    assert_eq!(ask(&mut f, &[0u8; 12], "client", 0), RequestAction::Drop);
    let mut looped = vec![0, 1, 1, 0, 0, 1, 0, 0, 0, 0, 0, 0];
    looped.extend_from_slice(&[0xC0, 12, 0, 1, 0, 1]);
    assert_eq!(ask(&mut f, &looped, "client", 0), RequestAction::Drop);
    let from_resolver = handle_dns_request(
        &query(1, &["a"]),
        "resolver",
        true,
        0,
        &f.cache,
        &mut f.pending,
        &mut f.next,
        &f.blocklist,
        &mut f.metrics,
    );
    assert_eq!(from_resolver, RequestAction::Drop);
    assert_eq!(f.metrics, Metrics::new());
    assert!(f.pending.is_empty());
    assert_eq!(f.next, 3);
}

#[test]
fn answers_from_elsewhere_and_broken_ones_are_dropped() {
    let mut f = forwarder("", 0);
    forwarded(ask(&mut f, &query(1, &["a"]), "client", 0));
    let good = response(0, &["a"], 60, [1, 1, 1, 1]);
    let elsewhere = process_resolver_response(
        &good,
        false,
        1,
        &mut f.pending,
        &mut f.cache,
        &mut f.latencies,
    );
    assert_eq!(elsewhere, ResponseAction::Drop);
    assert_eq!(answer(&mut f, &good[..good.len() - 1], 1), ResponseAction::Drop);
    assert_eq!(f.pending.len(), 1);
    assert!(!f.cache.holds(&DNSPacket::from_bytes(&good).unwrap().questions[0]));
    assert!(f.latencies.is_empty());
}

#[test]
fn only_the_first_question_decides() {
    let mut f = forwarder("0.0.0.0 second.example\n", 0);
    let mut two = vec![0, 7, 1, 0, 0, 2, 0, 0, 0, 0, 0, 0];
    two.extend_from_slice(&name(&["first", "example"]));
    two.extend_from_slice(&[0, 1, 0, 1]);
    two.extend_from_slice(&name(&["second", "example"]));
    two.extend_from_slice(&[0, 1, 0, 1]);
    let sent = forwarded(ask(&mut f, &two, "client", 0));
    let mut expected = two.clone();
    expected[0] = 0;
    expected[1] = 0;
    assert_eq!(sent, expected);
}

#[test]
fn answer_without_a_question_is_delivered_and_not_cached() {
    let mut f = forwarder("", 5);
    forwarded(ask(&mut f, &query(0x0A0B, &["a"]), "client", 100));
    let bare = vec![0, 5, 0x81, 0x80, 0, 0, 0, 0, 0, 0, 0, 0];
    let (client, payload, latency) = delivered(answer(&mut f, &bare, 90));
    assert_eq!(client, "client");
    assert_eq!(latency, 0);
    assert_eq!(payload, vec![0x0A, 0x0B, 0x81, 0x80, 0, 0, 0, 0, 0, 0, 0, 0]);
    assert!(!f.cache.holds(&DNSPacket::from_bytes(&query(1, &["a"])).unwrap().questions[0]));
}

#[test]
fn a_later_forward_under_the_same_identifier_takes_the_place_of_a_lost_one() {
    let mut f = forwarder("", 7);
    forwarded(ask(&mut f, &query(1, &["lost"]), "first", 0));
    f.next = 7;
    forwarded(ask(&mut f, &query(2, &["late"]), "second", 50));
    assert_eq!(f.pending.len(), 1);
    let (client, payload, _) = delivered(answer(&mut f, &response(7, &["late"], 60, [1, 1, 1, 1]), 60));
    assert_eq!(client, "second");
    assert_eq!(&payload[0..2], &[0, 2]);
}

#[test]
fn fresh_identifiers_do_not_repeat_within_one_round() {
    let mut f = forwarder("", 0xFFF0);
    let mut seen = std::collections::HashSet::new();
    for i in 0..0x1_0000u32 {
        let sent = forwarded(ask(&mut f, &query(1, &["a"]), "client", 0));
        let id = u16::from_be_bytes([sent[0], sent[1]]);
        assert_eq!(id, 0xFFF0u16.wrapping_add(i as u16));
        assert!(seen.insert(id));
    }
    assert_eq!(f.pending.len(), 0x1_0000);
    assert_eq!(f.next, 0xFFF0);
    assert_eq!(f.metrics.cache_misses, 0x1_0000);
}
