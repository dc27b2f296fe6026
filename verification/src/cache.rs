//! The answer cache: answers kept per question until their time to live,
//! with a floor, has passed.

use vstd::prelude::*;
use crate::hashing::{hash_bytes, hash_more, hash_of, hash_step, slot_index, slot_of};
use crate::packet::{answer_views, Answer, AnswerView, Question, QuestionView};

verus! {

/// The shortest time that an entry stays, in seconds.
pub const TTL_FLOOR: u32 = 300;

/// Clock ticks per second: the cache counts time in milliseconds.
pub const TICKS_PER_SECOND: u64 = 1000;

/// What the cache holds for one question.
pub struct CachedAnswers {
    pub answers: Seq<AnswerView>,
    pub expires_at: u64,
}

/// The cache as a mathematical map from questions to what is held for them.
pub type CacheMap = Map<QuestionView, CachedAnswers>;

/// The least time to live among the answers; for no answers, the largest
/// value there is.
pub open spec fn least_ttl(answers: Seq<AnswerView>) -> u32
    decreases answers.len(),
{
    if answers.len() == 0 {
        u32::MAX
    } else {
        let rest = least_ttl(answers.drop_last());
        if answers.last().ttl < rest {
            answers.last().ttl
        } else {
            rest
        }
    }
}

/// How long the answers are kept, in seconds: their least time to live, but
/// no less than the floor; the floor when there are no answers.
pub open spec fn effective_ttl(answers: Seq<AnswerView>) -> u32 {
    if answers.len() == 0 || least_ttl(answers) < TTL_FLOOR {
        TTL_FLOOR
    } else {
        least_ttl(answers)
    }
}

/// The tick at which answers stored at `now` expire; the last tick of the
/// clock where the sum is beyond it.
pub open spec fn expiry(now: u64, answers: Seq<AnswerView>) -> u64 {
    let at = now + effective_ttl(answers) * TICKS_PER_SECOND;
    if at > u64::MAX {
        u64::MAX
    } else {
        at as u64
    }
}

/// What a lookup at `now` finds: the answers held for the question, as long
/// as they have not expired.
pub open spec fn cache_lookup(m: CacheMap, q: QuestionView, now: u64) -> Option<Seq<AnswerView>> {
    if m.dom().contains(q) && now < m[q].expires_at {
        Some(m[q].answers)
    } else {
        None
    }
}

/// The cache after the answers were stored for the question at `now`.
pub open spec fn cache_store(m: CacheMap, q: QuestionView, answers: Seq<AnswerView>, now: u64)
    -> CacheMap {
    m.insert(q, CachedAnswers { answers, expires_at: expiry(now, answers) })
}

/// The cache without the entries that expire at `threshold` or before.
pub open spec fn cache_sweep(m: CacheMap, threshold: u64) -> CacheMap {
    Map::new(|q: QuestionView| m.dom().contains(q) && m[q].expires_at > threshold, |q: QuestionView| m[q])
}

struct CacheEntry {
    question: Question,
    answers: Vec<Answer>,
    expires_at: u64,
}

impl CacheEntry {
    spec fn held(self) -> CachedAnswers {
        CachedAnswers { answers: answer_views(self.answers@), expires_at: self.expires_at }
    }
}

/// The map that a list of entries stands for; a later entry for a question
/// takes the place of an earlier one.
spec fn map_of(entries: Seq<CacheEntry>) -> CacheMap
    decreases entries.len(),
{
    if entries.len() == 0 {
        Map::empty()
    } else {
        map_of(entries.drop_last()).insert(entries.last().question@, entries.last().held())
    }
}

/// No question has two entries.
spec fn distinct_questions(entries: Seq<CacheEntry>) -> bool {
    forall|i: int, j: int|
        0 <= i < j < entries.len() ==> (#[trigger] entries[i]).question@ != (
        #[trigger] entries[j]).question@
}

/// The questions of the map are the questions of the entries.
proof fn lemma_map_of_domain(entries: Seq<CacheEntry>, q: QuestionView)
    ensures
        map_of(entries).dom().contains(q) <==> exists|i: int|
            0 <= i < entries.len() && (#[trigger] entries[i]).question@ == q,
        map_of(entries).dom().finite(),
    decreases entries.len(),
{
    if entries.len() > 0 {
        let head = entries.drop_last();
        lemma_map_of_domain(head, q);
        if map_of(entries).dom().contains(q) {
            if entries.last().question@ == q {
                assert(entries[entries.len() - 1].question@ == q);
            } else {
                let i = choose|i: int| 0 <= i < head.len() && (#[trigger] head[i]).question@ == q;
                assert(entries[i].question@ == q);
            }
        }
        if exists|i: int| 0 <= i < entries.len() && (#[trigger] entries[i]).question@ == q {
            let i = choose|i: int| 0 <= i < entries.len() && (#[trigger] entries[i]).question@ == q;
            if i < head.len() {
                assert(head[i].question@ == q);
            }
        }
    }
}

/// Where no question has two entries, the map holds for each entry's
/// question what the entry holds.
proof fn lemma_map_of_value(entries: Seq<CacheEntry>, i: int)
    requires
        distinct_questions(entries),
        0 <= i < entries.len(),
    ensures
        map_of(entries).dom().contains(entries[i].question@),
        map_of(entries)[entries[i].question@] == entries[i].held(),
    decreases entries.len(),
{
    let head = entries.drop_last();
    if i < entries.len() - 1 {
        assert(distinct_questions(head)) by {
            assert forall|a: int, b: int| 0 <= a < b < head.len() implies (#[trigger] head[a]).question@
                != (#[trigger] head[b]).question@ by {
                assert(head[a] == entries[a] && head[b] == entries[b]);
            }
        }
        lemma_map_of_value(head, i);
        assert(entries[i].question@ != entries[entries.len() - 1].question@);
    }
}

/// Putting another entry in the place of one for the same question changes
/// the map as an insertion does.
proof fn lemma_map_of_update(entries: Seq<CacheEntry>, i: int, e: CacheEntry)
    requires
        distinct_questions(entries),
        0 <= i < entries.len(),
        e.question@ == entries[i].question@,
    ensures
        distinct_questions(entries.update(i, e)),
        map_of(entries.update(i, e)) == map_of(entries).insert(e.question@, e.held()),
    decreases entries.len(),
{
    let head = entries.drop_last();
    let after = entries.update(i, e);
    assert(distinct_questions(after)) by {
        assert forall|a: int, b: int| 0 <= a < b < after.len() implies (#[trigger] after[a]).question@
            != (#[trigger] after[b]).question@ by {
            assert(after[a].question@ == entries[a].question@);
            assert(after[b].question@ == entries[b].question@);
        }
    }
    if i == entries.len() - 1 {
        assert(after.drop_last() =~= head);
        assert(map_of(after) =~= map_of(entries).insert(e.question@, e.held()));
    } else {
        assert(distinct_questions(head)) by {
            assert forall|a: int, b: int| 0 <= a < b < head.len() implies (#[trigger] head[a]).question@
                != (#[trigger] head[b]).question@ by {
                assert(head[a] == entries[a] && head[b] == entries[b]);
            }
        }
        lemma_map_of_update(head, i, e);
        assert(after.drop_last() =~= head.update(i, e));
        assert(after.last() == entries.last());
        assert(entries[i].question@ != entries[entries.len() - 1].question@);
        assert(map_of(after) =~= map_of(entries).insert(e.question@, e.held()));
    }
}

/// How many slots the cache spreads its entries over.
pub const CACHE_SLOTS: usize = 1024;

/// The hash of a question: the hash of its wire bytes.
pub open spec fn question_hash(q: QuestionView) -> u64 {
    hash_of(q.wire())
}

/// The answer cache: a table of slots, each a short list of entries, with a
/// question's entry in the slot that its hash falls in.
pub struct DNSCache {
    slots: Vec<Vec<CacheEntry>>,
}

/// The map that the slot of `q` stands for.
spec fn slot_map(slots: Seq<Vec<CacheEntry>>, q: QuestionView) -> CacheMap {
    map_of(slots[slot_of(question_hash(q), slots.len())]@)
}

/// The map that a table stands for: for each question, what its slot holds
/// for it.
spec fn table_map(slots: Seq<Vec<CacheEntry>>) -> CacheMap {
    Map::new(
        |q: QuestionView| slots.len() > 0 && slot_map(slots, q).contains_key(q),
        |q: QuestionView| slot_map(slots, q)[q],
    )
}

impl View for DNSCache {
    type V = CacheMap;

    closed spec fn view(&self) -> CacheMap {
        table_map(self.slots@)
    }
}

/// Computes the hash of a question.
pub fn hash_question(q: &Question) -> (h: u64)
    ensures
        h == question_hash(q@),
{
    let mut h = hash_bytes(q.name.as_slice());
    let ghost name = q.name@;
    let t0: u8 = (q.tp / 256) as u8;
    let t1: u8 = (q.tp % 256) as u8;
    let c0: u8 = (q.class / 256) as u8;
    let c1: u8 = (q.class % 256) as u8;
    proof {
        let n1 = name.push(t0);
        let n2 = n1.push(t1);
        let n3 = n2.push(c0);
        let n4 = n3.push(c1);
        assert(q@.wire() =~= n4);
        assert(n1.drop_last() =~= name);
        assert(n2.drop_last() =~= n1);
        assert(n3.drop_last() =~= n2);
        assert(n4.drop_last() =~= n3);
        assert(hash_of(n1) == hash_step(hash_of(name), t0));
        assert(hash_of(n2) == hash_step(hash_of(n1), t1));
        assert(hash_of(n3) == hash_step(hash_of(n2), c0));
        assert(hash_of(n4) == hash_step(hash_of(n3), c1));
    }
    h = hash_more(h, t0);
    h = hash_more(h, t1);
    h = hash_more(h, c0);
    h = hash_more(h, c1);
    h
}

/// Whether two questions hold the same name, type and class.
pub fn same_question(a: &Question, b: &Question) -> (same: bool)
    ensures
        same == (a@ == b@),
{
    if a.tp != b.tp || a.class != b.class || a.name.len() != b.name.len() {
        return false;
    }
    let mut i: usize = 0;
    while i < a.name.len()
        invariant
            i <= a.name@.len(),
            a.name@.len() == b.name@.len(),
            forall|k: int| 0 <= k < i ==> a.name@[k] == b.name@[k],
        decreases a.name@.len() - i,
    {
        if a.name[i] != b.name[i] {
            return false;
        }
        i = i + 1;
    }
    assert(a.name@ =~= b.name@);
    true
}

/// Copies a list of answers.
pub fn clone_answers(answers: &Vec<Answer>) -> (out: Vec<Answer>)
    ensures
        answer_views(out@) == answer_views(answers@),
{
    let mut out: Vec<Answer> = Vec::new();
    let mut i: usize = 0;
    while i < answers.len()
        invariant
            i <= answers@.len(),
            out@.len() == i,
            forall|k: int| 0 <= k < i ==> (#[trigger] out@[k])@ == answers@[k]@,
        decreases answers@.len() - i,
    {
        out.push(answers[i].clone());
        i = i + 1;
    }
    assert(answer_views(out@) =~= answer_views(answers@));
    out
}

/// Computes how long answers are kept, in seconds.
pub fn effective_ttl_of(answers: &Vec<Answer>) -> (ttl: u32)
    ensures
        ttl == effective_ttl(answer_views(answers@)),
{
    let mut least: u32 = u32::MAX;
    let mut i: usize = 0;
    let ghost views = answer_views(answers@);
    while i < answers.len()
        invariant
            i <= answers@.len(),
            views == answer_views(answers@),
            least == least_ttl(views.take(i as int)),
        decreases answers@.len() - i,
    {
        proof {
            assert(views.take(i + 1).drop_last() =~= views.take(i as int));
            assert(views.take(i + 1).last().ttl == answers@[i as int].ttl);
        }
        if answers[i].ttl < least {
            least = answers[i].ttl;
        }
        i = i + 1;
    }
    assert(views.take(i as int) =~= views);
    if answers.len() == 0 || least < TTL_FLOOR {
        TTL_FLOOR
    } else {
        least
    }
}

/// Finds the entry of a slot that holds the question.
fn position(bucket: &Vec<CacheEntry>, q: &Question) -> (at: Option<usize>)
    requires
        distinct_questions(bucket@),
    ensures
        match at {
            Some(i) => i < bucket@.len() && bucket@[i as int].question@ == q@ && map_of(
                bucket@,
            ).contains_key(q@) && map_of(bucket@)[q@] == bucket@[i as int].held(),
            None => !map_of(bucket@).contains_key(q@),
        },
{
    let mut i: usize = 0;
    while i < bucket.len()
        invariant
            distinct_questions(bucket@),
            i <= bucket@.len(),
            forall|k: int| 0 <= k < i ==> (#[trigger] bucket@[k]).question@ != q@,
        decreases bucket@.len() - i,
    {
        if same_question(&bucket[i].question, q) {
            proof {
                lemma_map_of_value(bucket@, i as int);
            }
            return Some(i);
        }
        i = i + 1;
    }
    proof {
        lemma_map_of_domain(bucket@, q@);
    }
    None
}

/// Puts the entry into the slot, in place of the one for its question.
fn store(bucket: &mut Vec<CacheEntry>, entry: CacheEntry)
    requires
        distinct_questions(old(bucket)@),
    ensures
        distinct_questions(final(bucket)@),
        map_of(final(bucket)@) == map_of(old(bucket)@).insert(entry.question@, entry.held()),
{
    let at = position(bucket, &entry.question);
    match at {
        Some(i) => {
            proof {
                lemma_map_of_update(bucket@, i as int, entry);
            }
            bucket.set(i, entry);
        },
        None => {
            proof {
                let before = bucket@;
                let after = before.push(entry);
                assert(after.drop_last() =~= before);
                assert forall|a: int, b: int| 0 <= a < b < after.len() implies (
                #[trigger] after[a]).question@ != (#[trigger] after[b]).question@ by {
                    if b == before.len() {
                        lemma_map_of_value(before, a);
                    }
                }
            }
            bucket.push(entry);
        },
    }
}

/// Drops the entries of a slot that expire at `threshold` or before.
fn sweep(bucket: &mut Vec<CacheEntry>, threshold: u64)
    requires
        distinct_questions(old(bucket)@),
    ensures
        distinct_questions(final(bucket)@),
        map_of(final(bucket)@) == cache_sweep(map_of(old(bucket)@), threshold),
{
    let ghost orig = bucket@;
    let ghost whole = map_of(orig);
    let mut kept: Vec<CacheEntry> = Vec::new();
    assert(bucket@.take(bucket@.len() as int) =~= bucket@);
    while bucket.len() > 0
        invariant
            distinct_questions(orig),
            whole == map_of(orig),
            bucket@.len() <= orig.len(),
            bucket@ == orig.take(bucket@.len() as int),
            distinct_questions(kept@),
            map_of(kept@) == Map::new(
                |q: QuestionView|
                    whole.dom().contains(q) && whole[q].expires_at > threshold && !map_of(
                        bucket@,
                    ).dom().contains(q),
                |q: QuestionView| whole[q],
            ),
        decreases bucket@.len(),
    {
        let ghost before = bucket@;
        let ghost kept_before = kept@;
        let popped = bucket.pop();
        let entry = popped.unwrap();
        proof {
            let r = before.len() - 1;
            assert(bucket@ =~= orig.take(r));
            assert(entry == orig[r]);
            assert(bucket@ == before.drop_last());
            lemma_map_of_value(orig, r);
            lemma_map_of_domain(bucket@, entry.question@);
            if map_of(bucket@).dom().contains(entry.question@) {
                let i = choose|i: int|
                    0 <= i < bucket@.len() && (#[trigger] bucket@[i]).question@ == entry.question@;
                assert(orig[i].question@ != orig[r].question@);
            }
        }
        if entry.expires_at > threshold {
            proof {
                let after = kept_before.push(entry);
                assert(after.drop_last() =~= kept_before);
                assert forall|a: int, b: int| 0 <= a < b < after.len() implies (
                #[trigger] after[a]).question@ != (#[trigger] after[b]).question@ by {
                    if b == kept_before.len() {
                        lemma_map_of_value(kept_before, a);
                    }
                }
                assert(map_of(after) =~= Map::new(
                    |q: QuestionView|
                        whole.dom().contains(q) && whole[q].expires_at > threshold && !map_of(
                            bucket@,
                        ).dom().contains(q),
                    |q: QuestionView| whole[q],
                ));
            }
            kept.push(entry);
        } else {
            assert(map_of(kept@) =~= Map::new(
                |q: QuestionView|
                    whole.dom().contains(q) && whole[q].expires_at > threshold && !map_of(
                        bucket@,
                    ).dom().contains(q),
                |q: QuestionView| whole[q],
            ));
        }
    }
    assert(map_of(kept@) =~= cache_sweep(whole, threshold));
    *bucket = kept;
}

impl DNSCache {
    /// Whether the table is in order: it has slots, and no slot holds a
    /// question twice.
    pub closed spec fn wf(&self) -> bool {
        &&& self.slots@.len() > 0
        &&& forall|s: int|
            0 <= s < self.slots@.len() ==> distinct_questions((#[trigger] self.slots@[s])@)
    }

    /// An empty cache.
    pub fn new() -> (cache: Self)
        ensures
            cache.wf(),
            cache@ == Map::<QuestionView, CachedAnswers>::empty(),
    {
        let mut slots: Vec<Vec<CacheEntry>> = Vec::new();
        let mut i: usize = 0;
        while i < CACHE_SLOTS
            invariant
                i <= CACHE_SLOTS,
                slots@.len() == i,
                forall|s: int| 0 <= s < i ==> (#[trigger] slots@[s])@.len() == 0,
            decreases CACHE_SLOTS - i,
        {
            slots.push(Vec::new());
            i = i + 1;
        }
        let cache = DNSCache { slots };
        assert(cache@ =~= Map::<QuestionView, CachedAnswers>::empty());
        cache
    }

    /// Whether anything is held for the question, expired or not.
    pub fn holds(&self, q: &Question) -> (b: bool)
        requires
            self.wf(),
        ensures
            b == self@.contains_key(q@),
    {
        let s = slot_index(hash_question(q), self.slots.len());
        position(&self.slots[s], q).is_some()
    }

    /// The answers held for the question, unless they have expired by `now`.
    pub fn get(&self, q: &Question, now: u64) -> (found: Option<Vec<Answer>>)
        requires
            self.wf(),
        ensures
            match cache_lookup(self@, q@, now) {
                Some(answers) => found matches Some(v) && answer_views(v@) == answers,
                None => found is None,
            },
    {
        let s = slot_index(hash_question(q), self.slots.len());
        let bucket = &self.slots[s];
        match position(bucket, q) {
            Some(i) => {
                if bucket[i].expires_at > now {
                    Some(clone_answers(&bucket[i].answers))
                } else {
                    None
                }
            },
            None => None,
        }
    }

    /// Stores the answers for the question, in place of what was held for it.
    /// They expire `effective_ttl` seconds after `now`.
    pub fn insert(&mut self, q: Question, answers: Vec<Answer>, now: u64)
        requires
            old(self).wf(),
        ensures
            final(self).wf(),
            final(self)@ == cache_store(old(self)@, q@, answer_views(answers@), now),
    {
        let ttl = effective_ttl_of(&answers);
        let span: u64 = (ttl as u64) * TICKS_PER_SECOND;
        let expires_at: u64 = if now > u64::MAX - span {
            u64::MAX
        } else {
            now + span
        };
        let s = slot_index(hash_question(&q), self.slots.len());
        let entry = CacheEntry { question: q, answers, expires_at };
        let bucket = &mut self.slots[s];
        store(bucket, entry);
        proof {
            let before = old(self).slots@;
            let after = self.slots@;
            assert forall|k: int| 0 <= k < after.len() implies distinct_questions(
                (#[trigger] after[k])@,
            ) by {
                if k != s {
                    assert(after[k] == before[k]);
                }
            }
            assert(table_map(after) =~= cache_store(
                table_map(before),
                entry.question@,
                entry.held().answers,
                now,
            )) by {
                assert forall|p: QuestionView|
                    slot_of(question_hash(p), after.len()) != s implies #[trigger] slot_map(
                    after,
                    p,
                ) == slot_map(before, p) by {
                    assert(after[slot_of(question_hash(p), after.len())] == before[slot_of(
                        question_hash(p),
                        before.len(),
                    )]);
                }
            }
        }
    }

    /// Drops the entries that expire at `threshold` or before.
    pub fn cleanup(&mut self, threshold: u64)
        requires
            old(self).wf(),
        ensures
            final(self).wf(),
            final(self)@ == cache_sweep(old(self)@, threshold),
    {
        let ghost before = self.slots@;
        let mut s: usize = 0;
        while s < self.slots.len()
            invariant
                s <= self.slots@.len(),
                self.slots@.len() == before.len(),
                before.len() > 0,
                forall|k: int| 0 <= k < before.len() ==> distinct_questions((#[trigger] before[k])@),
                forall|k: int|
                    0 <= k < before.len() ==> distinct_questions((#[trigger] self.slots@[k])@),
                forall|k: int|
                    0 <= k < s ==> map_of((#[trigger] self.slots@[k])@) == cache_sweep(
                        map_of(before[k]@),
                        threshold,
                    ),
                forall|k: int| s <= k < before.len() ==> (#[trigger] self.slots@[k]) == before[k],
            decreases self.slots@.len() - s,
        {
            let ghost earlier = self.slots@;
            let bucket = &mut self.slots[s];
            sweep(bucket, threshold);
            proof {
                let now = self.slots@;
                assert forall|k: int| 0 <= k < before.len() implies distinct_questions(
                    (#[trigger] now[k])@,
                ) by {
                    if k != s {
                        assert(now[k] == earlier[k]);
                    }
                }
                assert forall|k: int| 0 <= k < s + 1 implies map_of((#[trigger] now[k])@)
                    == cache_sweep(map_of(before[k]@), threshold) by {
                    if k != s {
                        assert(now[k] == earlier[k]);
                    }
                }
                assert forall|k: int| s + 1 <= k < before.len() implies (#[trigger] now[k])
                    == before[k] by {
                    assert(now[k] == earlier[k]);
                }
            }
            s = s + 1;
        }
        assert(table_map(self.slots@) =~= cache_sweep(table_map(before), threshold));
    }
}

} // verus!
