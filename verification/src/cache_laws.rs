//! What holds of the cache: the floor under the time to live, how long an
//! entry is found, and what a sweep removes.

use vstd::prelude::*;
use crate::cache::{
    cache_lookup, cache_store, cache_sweep, effective_ttl, expiry, least_ttl, CacheMap,
    TICKS_PER_SECOND, TTL_FLOOR,
};
use crate::packet::{AnswerView, QuestionView};

verus! {

/// The least time to live of some answers is the time to live of one of
/// them, and none has a lesser one.
pub proof fn lemma_least_ttl_is_least(answers: Seq<AnswerView>)
    requires
        answers.len() > 0,
    ensures
        forall|i: int| 0 <= i < answers.len() ==> least_ttl(answers) <= (#[trigger] answers[i]).ttl,
        exists|i: int| 0 <= i < answers.len() && (#[trigger] answers[i]).ttl == least_ttl(answers),
    decreases answers.len(),
{
    let head = answers.drop_last();
    let last = answers.len() - 1;
    if head.len() == 0 {
        assert(answers[last].ttl == least_ttl(answers));
    } else {
        lemma_least_ttl_is_least(head);
        assert forall|i: int| 0 <= i < answers.len() implies least_ttl(answers) <= (
        #[trigger] answers[i]).ttl by {
            if i < last {
                assert(head[i] == answers[i]);
            }
        }
        if answers[last].ttl < least_ttl(head) {
            assert(answers[last].ttl == least_ttl(answers));
        } else {
            let k = choose|k: int| 0 <= k < head.len() && (#[trigger] head[k]).ttl == least_ttl(head);
            assert(answers[k].ttl == least_ttl(answers));
        }
    }
}

/// The floor: answers whose least time to live is under 300 seconds, and no
/// answers at all, are kept for 300 seconds; others for their least time to
/// live.
pub proof fn lemma_ttl_floor(answers: Seq<AnswerView>)
    ensures
        effective_ttl(answers) >= TTL_FLOOR,
        answers.len() == 0 ==> effective_ttl(answers) == 300,
        answers.len() > 0 && least_ttl(answers) < 300 ==> effective_ttl(answers) == 300,
        answers.len() > 0 && least_ttl(answers) >= 300 ==> effective_ttl(answers) == least_ttl(
            answers,
        ),
{
}

/// Answers stored at `now` are found at every tick before `now` plus their
/// effective time to live, and at none from then on, until they are stored
/// again.
pub proof fn lemma_found_until_expiry(
    m: CacheMap,
    q: QuestionView,
    answers: Seq<AnswerView>,
    now: u64,
    at: u64,
)
    requires
        now + effective_ttl(answers) * TICKS_PER_SECOND <= u64::MAX,
    ensures
        cache_lookup(cache_store(m, q, answers, now), q, at) == if at < now + effective_ttl(
            answers,
        ) * TICKS_PER_SECOND {
            Some(answers)
        } else {
            None
        },
{
}

/// Whatever the clock, answers stored at `now` are found before their expiry
/// and not from then on.
pub proof fn lemma_found_before_expiry(
    m: CacheMap,
    q: QuestionView,
    answers: Seq<AnswerView>,
    now: u64,
    at: u64,
)
    ensures
        cache_lookup(cache_store(m, q, answers, now), q, at) == if at < expiry(now, answers) {
            Some(answers)
        } else {
            None
        },
        expiry(now, answers) >= now,
{
}

/// Storing answers for one question changes nothing for another.
pub proof fn lemma_store_leaves_others(
    m: CacheMap,
    q: QuestionView,
    answers: Seq<AnswerView>,
    now: u64,
    other: QuestionView,
    at: u64,
)
    requires
        other != q,
    ensures
        cache_lookup(cache_store(m, q, answers, now), other, at) == cache_lookup(m, other, at),
{
}

/// A sweep removes the entries that expire at the threshold or before, and
/// no others.
pub proof fn lemma_sweep_is_exact(m: CacheMap, threshold: u64, q: QuestionView)
    ensures
        cache_sweep(m, threshold).contains_key(q) <==> m.contains_key(q) && m[q].expires_at
            > threshold,
        cache_sweep(m, threshold).contains_key(q) ==> cache_sweep(m, threshold)[q] == m[q],
{
}

/// A sweep changes no lookup at its threshold or later: what it removes was
/// not found any more.
pub proof fn lemma_sweep_is_unseen(m: CacheMap, threshold: u64, q: QuestionView, at: u64)
    requires
        at >= threshold,
    ensures
        cache_lookup(cache_sweep(m, threshold), q, at) == cache_lookup(m, q, at),
{
}

} // verus!
