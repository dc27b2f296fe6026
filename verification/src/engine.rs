//! The decisions of the forwarder: what to do with a datagram from a client
//! and with one from the resolver. What is sent, and to whom, is handed back
//! for the caller to carry out.

use vstd::prelude::*;
use std::collections::HashMap;
use std::collections::VecDeque;
use crate::blocklist::DNSBlocklist;
use crate::cache::{cache_lookup, cache_store, CacheMap, DNSCache};
use crate::metrics::{bump, bumped, record_latency, window_push, Metrics};
use crate::packet::{
    answer_views, blocked_answer, Answer, AnswerView, DNSPacket, Header, PacketView, QuestionView,
};
use crate::text::domain_text;

verus! {

broadcast use vstd::std_specs::hash::group_hash_axioms;

/// What is remembered of a forwarded query until its answer comes.
#[derive(Debug, PartialEq, Eq)]
pub struct Pending<A> {
    pub client: A,
    pub original_id: u16,
    pub sent_at: u64,
}

/// The message with another identifier.
pub open spec fn with_id(p: PacketView, id: u16) -> PacketView {
    PacketView { header: Header { packet_id: id, ..p.header }, questions: p.questions, answers: p.answers }
}

/// The reply to `p` that carries `answers`: a response with recursion
/// available, the answers counted, and no further sections.
pub open spec fn reply_to(p: PacketView, answers: Seq<AnswerView>) -> PacketView {
    PacketView {
        header: Header {
            qr: 1,
            ra: 1,
            ancount: (answers.len() % 0x1_0000) as u16,
            nscount: 0,
            arcount: 0,
            ..p.header
        },
        questions: p.questions,
        answers,
    }
}

/// The identifier after `id`: one more, and zero after the largest.
pub open spec fn next_id(id: u16) -> u16 {
    if id == u16::MAX {
        0
    } else {
        (id + 1) as u16
    }
}

/// What to do with a datagram from a client.
#[derive(Debug, PartialEq, Eq)]
pub enum RequestAction {
    /// Send nothing.
    Drop,
    /// Send the sink answer to the client.
    SendBlocked { payload: Vec<u8> },
    /// Send the cached answers to the client.
    SendCached { payload: Vec<u8> },
    /// Send the query, under its new identifier, to the resolver.
    Forward { payload: Vec<u8> },
}

/// A `RequestAction` as mathematical values.
pub enum RequestActionView {
    Drop,
    SendBlocked { payload: Seq<u8> },
    SendCached { payload: Seq<u8> },
    Forward { payload: Seq<u8> },
}

impl View for RequestAction {
    type V = RequestActionView;

    open spec fn view(&self) -> RequestActionView {
        match self {
            RequestAction::Drop => RequestActionView::Drop,
            RequestAction::SendBlocked { payload } => RequestActionView::SendBlocked {
                payload: payload@,
            },
            RequestAction::SendCached { payload } => RequestActionView::SendCached {
                payload: payload@,
            },
            RequestAction::Forward { payload } => RequestActionView::Forward { payload: payload@ },
        }
    }
}

/// The action that a datagram from a client calls for.
///
/// A datagram from the resolver's own address, one that is no message and a
/// message without a question are dropped. Else the first question decides:
/// a blocked name gets the sink answer; a question with live answers in the
/// cache gets those; any other is forwarded under the identifier `fresh`.
pub open spec fn request_action(
    data: Seq<u8>,
    from_resolver: bool,
    blocked: Set<Seq<char>>,
    cache: CacheMap,
    now: u64,
    fresh: u16,
) -> RequestActionView {
    if from_resolver {
        RequestActionView::Drop
    } else {
        match PacketView::parse(data) {
            Err(_) => RequestActionView::Drop,
            Ok(p) => if p.questions.len() == 0 {
                RequestActionView::Drop
            } else if blocked.contains(domain_text(p.questions[0].name)) {
                RequestActionView::SendBlocked {
                    payload: reply_to(p, seq![blocked_answer(p.questions[0])]).wire(),
                }
            } else {
                match cache_lookup(cache, p.questions[0], now) {
                    Some(answers) => RequestActionView::SendCached {
                        payload: reply_to(p, answers).wire(),
                    },
                    None => RequestActionView::Forward { payload: with_id(p, fresh).wire() },
                }
            },
        }
    }
}

/// The counters after the action was decided on.
pub open spec fn counted(m: Metrics, action: RequestActionView) -> Metrics {
    match action {
        RequestActionView::Drop => m,
        RequestActionView::SendBlocked { .. } => Metrics {
            blocked_requests: bumped(m.blocked_requests),
            ..m
        },
        RequestActionView::SendCached { .. } => Metrics { cache_hits: bumped(m.cache_hits), ..m },
        RequestActionView::Forward { .. } => Metrics { cache_misses: bumped(m.cache_misses), ..m },
    }
}

/// The pending forwards after the action was decided on: a forward is
/// remembered under its new identifier, with the client, the identifier the
/// client chose and the time; nothing else touches them.
pub open spec fn pending_after_request<A>(
    pending: Map<u16, Pending<A>>,
    action: RequestActionView,
    data: Seq<u8>,
    source: A,
    now: u64,
    fresh: u16,
) -> Map<u16, Pending<A>> {
    if action is Forward {
        pending.insert(
            fresh,
            Pending {
                client: source,
                original_id: PacketView::parse(data)->Ok_0.header.packet_id,
                sent_at: now,
            },
        )
    } else {
        pending
    }
}

/// The next fresh identifier after the action was decided on: a forward uses
/// one up.
pub open spec fn fresh_after_request(action: RequestActionView, fresh: u16) -> u16 {
    if action is Forward {
        next_id(fresh)
    } else {
        fresh
    }
}

fn make_reply(packet: DNSPacket, answers: Vec<Answer>) -> (reply: DNSPacket)
    ensures
        reply@ == reply_to(packet@, answer_views(answers@)),
{
    let mut reply = packet;
    reply.header.qr = 1;
    reply.header.ra = 1;
    reply.header.ancount = (answers.len() % 0x1_0000) as u16;
    reply.header.nscount = 0;
    reply.header.arcount = 0;
    reply.answers = answers;
    reply
}

/// Decides what to do with a datagram from a client, counts the decision and
/// remembers a forward.
pub fn handle_dns_request<A>(
    data: &[u8],
    source: A,
    from_resolver: bool,
    now: u64,
    cache: &DNSCache,
    pending: &mut HashMap<u16, Pending<A>>,
    transaction_id: &mut u16,
    blocklist: &DNSBlocklist,
    metrics: &mut Metrics,
) -> (action: RequestAction)
    requires
        cache.wf(),
    ensures
        action@ == request_action(
            data@,
            from_resolver,
            blocklist@,
            cache@,
            now,
            *old(transaction_id),
        ),
        final(pending)@ == pending_after_request(
            old(pending)@,
            action@,
            data@,
            source,
            now,
            *old(transaction_id),
        ),
        *final(transaction_id) == fresh_after_request(action@, *old(transaction_id)),
        *final(metrics) == counted(*old(metrics), action@),
{
    if from_resolver {
        return RequestAction::Drop;
    }
    let mut packet = match DNSPacket::from_bytes(data) {
        Ok(packet) => packet,
        Err(_) => {
            return RequestAction::Drop;
        },
    };
    if packet.questions.len() == 0 {
        return RequestAction::Drop;
    }
    if blocklist.contains(&packet.questions[0]) {
        metrics.blocked_requests = bump(metrics.blocked_requests);
        let mut answers: Vec<Answer> = Vec::new();
        answers.push(packet.questions[0].to_blocked_answer());
        proof {
            assert(answer_views(answers@) =~= seq![blocked_answer(packet@.questions[0])]);
        }
        let reply = make_reply(packet, answers);
        return RequestAction::SendBlocked { payload: reply.to_bytes() };
    }
    match cache.get(&packet.questions[0], now) {
        Some(answers) => {
            metrics.cache_hits = bump(metrics.cache_hits);
            let reply = make_reply(packet, answers);
            RequestAction::SendCached { payload: reply.to_bytes() }
        },
        None => {
            metrics.cache_misses = bump(metrics.cache_misses);
            let original_id = packet.header.packet_id;
            let new_id = *transaction_id;
            *transaction_id = if new_id == u16::MAX {
                0
            } else {
                new_id + 1
            };
            pending.insert(new_id, Pending { client: source, original_id, sent_at: now });
            packet.header.packet_id = new_id;
            RequestAction::Forward { payload: packet.to_bytes() }
        },
    }
}

/// What to do with a datagram that came on the resolver's socket.
#[derive(Debug, PartialEq, Eq)]
pub enum ResponseAction<A> {
    /// Send nothing: the datagram is not from the resolver, or is no message.
    Drop,
    /// Send nothing: no forward is pending under the identifier.
    Unmatched,
    /// Send the answer, under the client's own identifier, to the client.
    Deliver { client: A, payload: Vec<u8>, latency_ms: u64 },
}

/// A `ResponseAction` as mathematical values.
pub enum ResponseActionView<A> {
    Drop,
    Unmatched,
    Deliver { client: A, payload: Seq<u8>, latency_ms: u64 },
}

impl<A> View for ResponseAction<A> {
    type V = ResponseActionView<A>;

    open spec fn view(&self) -> ResponseActionView<A> {
        match self {
            ResponseAction::Drop => ResponseActionView::Drop,
            ResponseAction::Unmatched => ResponseActionView::Unmatched,
            ResponseAction::Deliver { client, payload, latency_ms } => ResponseActionView::Deliver {
                client: *client,
                payload: payload@,
                latency_ms: *latency_ms,
            },
        }
    }
}

/// The time from `sent_at` to `now`; zero where the clock went back.
pub open spec fn elapsed(sent_at: u64, now: u64) -> u64 {
    if now >= sent_at {
        (now - sent_at) as u64
    } else {
        0
    }
}

/// The action that a datagram on the resolver's socket calls for: an answer
/// to a pending forward goes to the client that asked, under the identifier
/// that the client chose.
pub open spec fn response_action<A>(
    data: Seq<u8>,
    from_resolver: bool,
    pending: Map<u16, Pending<A>>,
    now: u64,
) -> ResponseActionView<A> {
    if !from_resolver {
        ResponseActionView::Drop
    } else {
        match PacketView::parse(data) {
            Err(_) => ResponseActionView::Drop,
            Ok(p) => if !pending.contains_key(p.header.packet_id) {
                ResponseActionView::Unmatched
            } else {
                let entry = pending[p.header.packet_id];
                ResponseActionView::Deliver {
                    client: entry.client,
                    payload: with_id(p, entry.original_id).wire(),
                    latency_ms: elapsed(entry.sent_at, now),
                }
            },
        }
    }
}

/// The pending forwards after the datagram: the one that was answered is
/// gone.
pub open spec fn pending_after_response<A>(
    pending: Map<u16, Pending<A>>,
    action: ResponseActionView<A>,
    data: Seq<u8>,
) -> Map<u16, Pending<A>> {
    if action is Deliver {
        pending.remove(PacketView::parse(data)->Ok_0.header.packet_id)
    } else {
        pending
    }
}

/// The cache after the datagram: the answers that were delivered are stored
/// for the first question of the message, if it has one.
pub open spec fn cache_after_response<A>(
    cache: CacheMap,
    action: ResponseActionView<A>,
    data: Seq<u8>,
    now: u64,
) -> CacheMap {
    if action is Deliver && PacketView::parse(data)->Ok_0.questions.len() > 0 {
        let p = PacketView::parse(data)->Ok_0;
        cache_store(cache, p.questions[0], p.answers, now)
    } else {
        cache
    }
}

/// The window of latencies after the datagram: the latency of a delivered
/// answer is recorded.
pub open spec fn latencies_after_response<A>(window: Seq<u64>, action: ResponseActionView<A>) -> Seq<
    u64,
> {
    match action {
        ResponseActionView::Deliver { latency_ms, .. } => window_push(window, latency_ms),
        _ => window,
    }
}

/// Decides what to do with a datagram that came on the resolver's socket,
/// forgets the forward that it answers, records the latency and stores the
/// answers.
pub fn process_resolver_response<A>(
    data: &[u8],
    from_resolver: bool,
    now: u64,
    pending: &mut HashMap<u16, Pending<A>>,
    cache: &mut DNSCache,
    latencies: &mut VecDeque<u64>,
) -> (action: ResponseAction<A>)
    requires
        old(cache).wf(),
    ensures
        final(cache).wf(),
        action@ == response_action(data@, from_resolver, old(pending)@, now),
        final(pending)@ == pending_after_response(old(pending)@, action@, data@),
        final(cache)@ == cache_after_response(old(cache)@, action@, data@, now),
        final(latencies)@ == latencies_after_response(old(latencies)@, action@),
{
    if !from_resolver {
        return ResponseAction::Drop;
    }
    let mut packet = match DNSPacket::from_bytes(data) {
        Ok(packet) => packet,
        Err(_) => {
            return ResponseAction::Drop;
        },
    };
    let rewritten_id = packet.header.packet_id;
    let entry = match pending.remove(&rewritten_id) {
        Some(entry) => entry,
        None => {
            return ResponseAction::Unmatched;
        },
    };
    let latency_ms: u64 = if now >= entry.sent_at {
        now - entry.sent_at
    } else {
        0
    };
    record_latency(latencies, latency_ms);
    packet.header.packet_id = entry.original_id;
    let payload = packet.to_bytes();
    if packet.questions.len() > 0 {
        let question = packet.questions[0].clone();
        cache.insert(question, packet.answers, now);
    }
    ResponseAction::Deliver { client: entry.client, payload, latency_ms }
}

} // verus!
