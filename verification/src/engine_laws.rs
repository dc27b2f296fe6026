//! What holds of the forwarder's decisions: a blocked query goes nowhere
//! near the resolver, an answer comes back under the identifier that the
//! client chose, and fresh identifiers do not repeat within one round.

use vstd::prelude::*;
use crate::cache::CacheMap;
use crate::engine::{
    fresh_after_request, next_id, pending_after_request, pending_after_response, reply_to,
    request_action, response_action, with_id, Pending, RequestActionView, ResponseActionView,
};
use crate::packet::{blocked_answer, counts_fit, PacketView, ParseError};
use crate::packet_laws::{is_well_formed, lemma_parsed_is_well_formed, lemma_write_then_read};
use crate::text::domain_text;

verus! {

/// A query for a blocked name is answered at once: nothing is to be sent to
/// the resolver, no forward is remembered and no identifier is used up. The
/// answer is the query turned into a response that carries the sink answer.
pub proof fn lemma_blocked_is_not_forwarded<A>(
    data: Seq<u8>,
    blocked: Set<Seq<char>>,
    cache: CacheMap,
    now: u64,
    fresh: u16,
    source: A,
    pending: Map<u16, Pending<A>>,
)
    requires
        PacketView::parse(data) is Ok,
        PacketView::parse(data)->Ok_0.questions.len() > 0,
        blocked.contains(domain_text(PacketView::parse(data)->Ok_0.questions[0].name)),
    ensures
        ({
            let asked = PacketView::parse(data)->Ok_0;
            let action = request_action(data, false, blocked, cache, now, fresh);
            &&& action == RequestActionView::SendBlocked {
                payload: reply_to(asked, seq![blocked_answer(asked.questions[0])]).wire(),
            }
            &&& pending_after_request(pending, action, data, source, now, fresh) == pending
            &&& fresh_after_request(action, fresh) == fresh
        }),
{
}

/// A reply that the forwarder makes up is read by the client as it was
/// meant, as long as its counts fit a message: the client's identifier, a
/// response with recursion available, the questions and the answers.
pub proof fn lemma_reply_is_read_back(data: Seq<u8>, answers: Seq<crate::packet::AnswerView>)
    requires
        PacketView::parse(data) is Ok,
        answers.len() < 0x1_0000,
        counts_fit(reply_to(PacketView::parse(data)->Ok_0, answers).header),
        forall|j: int|
            0 <= j < answers.len() ==> crate::packet_laws::is_expanded_name(
                (#[trigger] answers[j]).name,
            ) && answers[j].length == answers[j].data.len(),
    ensures
        ({
            let asked = PacketView::parse(data)->Ok_0;
            let reply = reply_to(asked, answers);
            &&& PacketView::parse(reply.wire()) == Ok::<PacketView, ParseError>(reply)
            &&& reply.header.packet_id == asked.header.packet_id
            &&& reply.header.qr == 1
            &&& reply.header.ra == 1
            &&& reply.header.ancount == answers.len()
            &&& reply.header.nscount == 0
            &&& reply.header.arcount == 0
        }),
{
    let asked = PacketView::parse(data)->Ok_0;
    lemma_parsed_is_well_formed(data);
    let reply = reply_to(asked, answers);
    assert(is_well_formed(reply));
    lemma_write_then_read(reply);
}

/// A forwarded query reaches the resolver under the fresh identifier and is
/// otherwise the client's query.
pub proof fn lemma_forward_carries_fresh_id(
    data: Seq<u8>,
    blocked: Set<Seq<char>>,
    cache: CacheMap,
    now: u64,
    fresh: u16,
)
    requires
        request_action(data, false, blocked, cache, now, fresh) is Forward,
    ensures
        ({
            let asked = PacketView::parse(data)->Ok_0;
            let action = request_action(data, false, blocked, cache, now, fresh);
            &&& action->Forward_payload == with_id(asked, fresh).wire()
            &&& PacketView::parse(action->Forward_payload) == Ok::<PacketView, ParseError>(
                with_id(asked, fresh),
            )
            &&& fresh_after_request(action, fresh) == next_id(fresh)
        }),
{
    let asked = PacketView::parse(data)->Ok_0;
    lemma_parsed_is_well_formed(data);
    assert(is_well_formed(with_id(asked, fresh)));
    lemma_write_then_read(with_id(asked, fresh));
}

/// The answer to a forwarded query goes to the client that asked, and the
/// client reads it under the identifier that it chose itself; the forward is
/// then no longer pending.
pub proof fn lemma_answer_returns_under_original_id<A>(
    request: Seq<u8>,
    source: A,
    sent: u64,
    blocked: Set<Seq<char>>,
    cache: CacheMap,
    fresh: u16,
    pending: Map<u16, Pending<A>>,
    response: Seq<u8>,
    now: u64,
)
    requires
        request_action(request, false, blocked, cache, sent, fresh) is Forward,
        PacketView::parse(response) is Ok,
        PacketView::parse(response)->Ok_0.header.packet_id == fresh,
    ensures
        ({
            let asked = PacketView::parse(request)->Ok_0;
            let answered = PacketView::parse(response)->Ok_0;
            let forward = request_action(request, false, blocked, cache, sent, fresh);
            let waiting = pending_after_request(pending, forward, request, source, sent, fresh);
            let action = response_action(response, true, waiting, now);
            &&& action is Deliver
            &&& action->Deliver_client == source
            &&& action->Deliver_payload == with_id(answered, asked.header.packet_id).wire()
            &&& PacketView::parse(action->Deliver_payload) == Ok::<PacketView, ParseError>(
                with_id(answered, asked.header.packet_id),
            )
            &&& !pending_after_response(waiting, action, response).contains_key(fresh)
        }),
{
    let asked = PacketView::parse(request)->Ok_0;
    let answered = PacketView::parse(response)->Ok_0;
    lemma_parsed_is_well_formed(response);
    let back = with_id(answered, asked.header.packet_id);
    assert(is_well_formed(back));
    lemma_write_then_read(back);
}

/// A datagram on the resolver's socket under an identifier that no forward
/// is pending for is not delivered to anyone and changes nothing.
pub proof fn lemma_unmatched_is_dropped<A>(
    response: Seq<u8>,
    pending: Map<u16, Pending<A>>,
    now: u64,
)
    requires
        PacketView::parse(response) is Ok,
        !pending.contains_key(PacketView::parse(response)->Ok_0.header.packet_id),
    ensures
        response_action(response, true, pending, now) == ResponseActionView::<A>::Unmatched,
        pending_after_response(
            pending,
            response_action(response, true, pending, now),
            response,
        ) == pending,
{
}

/// The fresh identifier after `n` forwards, counted from `start`.
pub open spec fn id_after(start: u16, n: nat) -> u16
    decreases n,
{
    if n == 0 {
        start
    } else {
        next_id(id_after(start, (n - 1) as nat))
    }
}

/// The identifiers go round: after `n` forwards the fresh one is `start`
/// plus `n`, modulo 65536.
pub proof fn lemma_id_after_is_sum(start: u16, n: nat)
    ensures
        id_after(start, n) == (start + n) % 0x1_0000,
    decreases n,
{
    if n > 0 {
        lemma_id_after_is_sum(start, (n - 1) as nat);
    }
}

/// Two forwards with fewer than 65536 forwards from the one to the other get
/// different identifiers.
pub proof fn lemma_fresh_ids_differ(start: u16, i: nat, j: nat)
    requires
        i < j < i + 0x1_0000,
    ensures
        id_after(start, i) != id_after(start, j),
{
    lemma_id_after_is_sum(start, i);
    lemma_id_after_is_sum(start, j);
}

/// A forward under an identifier that nothing is pending for leaves every
/// pending forward as it was.
pub proof fn lemma_forward_keeps_outstanding<A>(
    data: Seq<u8>,
    blocked: Set<Seq<char>>,
    cache: CacheMap,
    now: u64,
    fresh: u16,
    source: A,
    pending: Map<u16, Pending<A>>,
    id: u16,
)
    requires
        !pending.contains_key(fresh),
        pending.contains_key(id),
    ensures
        ({
            let action = request_action(data, false, blocked, cache, now, fresh);
            let after = pending_after_request(pending, action, data, source, now, fresh);
            after.contains_key(id) && after[id] == pending[id]
        }),
{
}

} // verus!
