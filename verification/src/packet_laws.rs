//! What holds of the codec as a whole: decoded names are plain label
//! sequences, and a message that was read is read back from its own bytes.

use vstd::prelude::*;
use crate::packet::{
    answer_at, answers_at, answers_wire, counts_fit, name_at, question_at, questions_at,
    questions_wire, with_prefix, AnswerView, Header, PacketView, ParseError, QuestionView,
    HEADER_LEN, MAX_POINTER_HOPS, lemma_header_round_trip, lemma_header_wire_round_trip,
};
use crate::wire::{be16_bytes, be32_bytes, lemma_be16_round_trip, lemma_be32_round_trip};

verus! {

/// A name in expanded form: labels, each behind a length byte below `0xC0`,
/// then the zero byte, and nothing behind it.
pub open spec fn is_expanded_name(s: Seq<u8>) -> bool
    decreases s.len(),
{
    s.len() >= 1 && if s[0] == 0 {
        s.len() == 1
    } else {
        s[0] < 0xC0 && 1 + s[0] < s.len() && is_expanded_name(s.skip(1 + s[0]))
    }
}

/// A message as the decoder hands it out: flags in range, counts that fit and
/// agree with the sections, names in expanded form, data as long as announced.
pub open spec fn is_well_formed(p: PacketView) -> bool {
    &&& p.header.in_range()
    &&& counts_fit(p.header)
    &&& p.header.qdcount == p.questions.len()
    &&& p.header.ancount == p.answers.len()
    &&& forall|i: int| 0 <= i < p.questions.len() ==> is_expanded_name(#[trigger] p.questions[i].name)
    &&& forall|j: int|
        0 <= j < p.answers.len() ==> is_expanded_name((#[trigger] p.answers[j]).name)
            && p.answers[j].length == p.answers[j].data.len()
}

/// Every decoded name is in expanded form: in particular no length byte of
/// it is `0xC0` or more.
pub proof fn lemma_decoded_name_is_expanded(buf: Seq<u8>, pos: int, hops: nat)
    requires
        name_at(buf, pos, hops) is Ok,
    ensures
        is_expanded_name(name_at(buf, pos, hops)->Ok_0.0),
        pos < name_at(buf, pos, hops)->Ok_0.1 <= buf.len(),
    decreases hops, buf.len() - pos,
{
    let b = buf[pos];
    if b >= 0xC0 {
        lemma_decoded_name_is_expanded(
            buf,
            (b - 0xC0) * 256 + buf[pos + 1],
            (hops - 1) as nat,
        );
    } else if b == 0 {
    } else {
        let next = pos + 1 + b;
        lemma_decoded_name_is_expanded(buf, next, hops);
        let label = buf.subrange(pos, next);
        let rest = name_at(buf, next, hops)->Ok_0.0;
        let s = label + rest;
        assert(s[0] == b);
        assert(s.skip(1 + b) =~= rest);
    }
}

/// A name in expanded form that stands in a buffer is decoded as itself,
/// whatever surrounds it and however many pointers may be followed.
pub proof fn lemma_expanded_name_reads_back(buf: Seq<u8>, pos: int, name: Seq<u8>, hops: nat)
    requires
        is_expanded_name(name),
        0 <= pos,
        pos + name.len() <= buf.len(),
        buf.subrange(pos, pos + name.len()) == name,
    ensures
        name_at(buf, pos, hops) == Ok::<(Seq<u8>, int), ParseError>((name, pos + name.len())),
    decreases name.len(),
{
    assert(buf[pos] == buf.subrange(pos, pos + name.len())[0]);
    if name[0] == 0 {
        assert(name =~= seq![0u8]);
    } else {
        let next = pos + 1 + name[0];
        let rest = name.skip(1 + name[0]);
        assert(buf.subrange(next, next + rest.len()) =~= rest);
        lemma_expanded_name_reads_back(buf, next, rest, hops);
        assert(buf.subrange(pos, next) + rest =~= name);
    }
}

/// Decoding a name, compressed or not, gives what decoding its expanded form
/// gives: the expanded form itself.
pub proof fn lemma_name_expansion(buf: Seq<u8>, pos: int)
    requires
        name_at(buf, pos, MAX_POINTER_HOPS as nat) is Ok,
    ensures
        ({
            let name = name_at(buf, pos, MAX_POINTER_HOPS as nat)->Ok_0.0;
            &&& is_expanded_name(name)
            &&& name_at(name, 0, MAX_POINTER_HOPS as nat) == Ok::<(Seq<u8>, int), ParseError>(
                (name, name.len() as int),
            )
            &&& name_at(name, 0, 0) == name_at(name, 0, MAX_POINTER_HOPS as nat)
        }),
{
    let name = name_at(buf, pos, MAX_POINTER_HOPS as nat)->Ok_0.0;
    lemma_decoded_name_is_expanded(buf, pos, MAX_POINTER_HOPS as nat);
    assert(name.subrange(0, name.len() as int) =~= name);
    lemma_expanded_name_reads_back(name, 0, name, MAX_POINTER_HOPS as nat);
    lemma_expanded_name_reads_back(name, 0, name, 0);
}

/// A question with an expanded name that stands in a buffer is read as itself.
pub proof fn lemma_question_reads_back(buf: Seq<u8>, pos: int, q: QuestionView)
    requires
        is_expanded_name(q.name),
        0 <= pos,
        pos + q.wire().len() <= buf.len(),
        buf.subrange(pos, pos + q.wire().len()) == q.wire(),
    ensures
        question_at(buf, pos) == Ok::<(QuestionView, int), ParseError>(
            (q, pos + q.wire().len()),
        ),
{
    let w = q.wire();
    let at = buf.subrange(pos, pos + w.len());
    let n = q.name.len() as int;
    let end = pos + n;
    assert(buf.subrange(pos, end) =~= q.name) by {
        assert forall|i: int| 0 <= i < q.name.len() implies buf[pos + i] == q.name[i] by {
            assert(at[i] == w[i]);
        }
    }
    lemma_expanded_name_reads_back(buf, pos, q.name, MAX_POINTER_HOPS as nat);
    lemma_be16_round_trip(q.tp);
    lemma_be16_round_trip(q.class);
    assert(buf[end] == at[n]);
    assert(buf[end + 1] == at[n + 1]);
    assert(buf[end + 2] == at[n + 2]);
    assert(buf[end + 3] == at[n + 3]);
}

/// A record with an expanded name and data as long as announced, standing in
/// a buffer, is read as itself.
pub proof fn lemma_answer_reads_back(buf: Seq<u8>, pos: int, r: AnswerView)
    requires
        is_expanded_name(r.name),
        r.length == r.data.len(),
        0 <= pos,
        pos + r.wire().len() <= buf.len(),
        buf.subrange(pos, pos + r.wire().len()) == r.wire(),
    ensures
        answer_at(buf, pos) == Ok::<(AnswerView, int), ParseError>((r, pos + r.wire().len())),
{
    let w = r.wire();
    let at = buf.subrange(pos, pos + w.len());
    let n = r.name.len() as int;
    let end = pos + n;
    assert(buf.subrange(pos, end) =~= r.name) by {
        assert forall|i: int| 0 <= i < n implies buf[pos + i] == r.name[i] by {
            assert(at[i] == w[i]);
        }
    }
    lemma_expanded_name_reads_back(buf, pos, r.name, MAX_POINTER_HOPS as nat);
    lemma_be16_round_trip(r.tp);
    lemma_be16_round_trip(r.class);
    lemma_be32_round_trip(r.ttl);
    lemma_be16_round_trip(r.length);
    assert(buf[end] == at[n]);
    assert(buf[end + 1] == at[n + 1]);
    assert(buf[end + 2] == at[n + 2]);
    assert(buf[end + 3] == at[n + 3]);
    assert(buf[end + 4] == at[n + 4]);
    assert(buf[end + 5] == at[n + 5]);
    assert(buf[end + 6] == at[n + 6]);
    assert(buf[end + 7] == at[n + 7]);
    assert(buf[end + 8] == at[n + 8]);
    assert(buf[end + 9] == at[n + 9]);
    assert(buf.subrange(end + 10, end + 10 + r.length) =~= r.data) by {
        assert forall|i: int| 0 <= i < r.data.len() implies buf[end + 10 + i] == r.data[i] by {
            assert(at[n + 10 + i] == w[n + 10 + i]);
        }
    }
}

/// Questions written one behind the other are read back as they were.
pub proof fn lemma_questions_read_back(buf: Seq<u8>, pos: int, qs: Seq<QuestionView>)
    requires
        forall|i: int| 0 <= i < qs.len() ==> is_expanded_name(#[trigger] qs[i].name),
        0 <= pos,
        pos + questions_wire(qs).len() <= buf.len(),
        buf.subrange(pos, pos + questions_wire(qs).len()) == questions_wire(qs),
    ensures
        questions_at(buf, pos, qs.len()) == Ok::<(Seq<QuestionView>, int), ParseError>(
            (qs, pos + questions_wire(qs).len()),
        ),
    decreases qs.len(),
{
    if qs.len() == 0 {
        assert(qs =~= Seq::<QuestionView>::empty());
    } else {
        let head = qs.drop_last();
        let last = qs.last();
        let hw = questions_wire(head);
        let all = questions_wire(qs);
        let at = buf.subrange(pos, pos + all.len());
        assert(all == hw + last.wire());
        assert(buf.subrange(pos, pos + hw.len()) =~= hw) by {
            assert forall|i: int| 0 <= i < hw.len() implies buf[pos + i] == hw[i] by {
                assert(at[i] == all[i]);
            }
        }
        assert forall|i: int| 0 <= i < head.len() implies is_expanded_name(
            #[trigger] head[i].name,
        ) by {
            assert(head[i] == qs[i]);
        }
        lemma_questions_read_back(buf, pos, head);
        let mid = pos + hw.len();
        assert(buf.subrange(mid, mid + last.wire().len()) =~= last.wire()) by {
            assert forall|i: int| 0 <= i < last.wire().len() implies buf[mid + i]
                == last.wire()[i] by {
                assert(at[hw.len() + i] == all[hw.len() + i]);
            }
        }
        assert(is_expanded_name(qs[qs.len() - 1].name));
        lemma_question_reads_back(buf, mid, last);
        assert(head.push(last) =~= qs);
    }
}

/// Records written one behind the other are read back as they were.
pub proof fn lemma_answers_read_back(buf: Seq<u8>, pos: int, rs: Seq<AnswerView>)
    requires
        forall|j: int|
            0 <= j < rs.len() ==> is_expanded_name((#[trigger] rs[j]).name) && rs[j].length
                == rs[j].data.len(),
        0 <= pos,
        pos + answers_wire(rs).len() <= buf.len(),
        buf.subrange(pos, pos + answers_wire(rs).len()) == answers_wire(rs),
    ensures
        answers_at(buf, pos, rs.len()) == Ok::<(Seq<AnswerView>, int), ParseError>(
            (rs, pos + answers_wire(rs).len()),
        ),
    decreases rs.len(),
{
    if rs.len() == 0 {
        assert(rs =~= Seq::<AnswerView>::empty());
    } else {
        let head = rs.drop_last();
        let last = rs.last();
        let hw = answers_wire(head);
        let all = answers_wire(rs);
        let at = buf.subrange(pos, pos + all.len());
        assert(all == hw + last.wire());
        assert(buf.subrange(pos, pos + hw.len()) =~= hw) by {
            assert forall|i: int| 0 <= i < hw.len() implies buf[pos + i] == hw[i] by {
                assert(at[i] == all[i]);
            }
        }
        assert forall|j: int| 0 <= j < head.len() implies is_expanded_name(
            (#[trigger] head[j]).name,
        ) && head[j].length == head[j].data.len() by {
            assert(head[j] == rs[j]);
        }
        lemma_answers_read_back(buf, pos, head);
        let mid = pos + hw.len();
        assert(buf.subrange(mid, mid + last.wire().len()) =~= last.wire()) by {
            assert forall|i: int| 0 <= i < last.wire().len() implies buf[mid + i]
                == last.wire()[i] by {
                assert(at[hw.len() + i] == all[hw.len() + i]);
            }
        }
        let lastj = rs[rs.len() - 1];
        assert(is_expanded_name(lastj.name) && lastj.length == lastj.data.len());
        lemma_answer_reads_back(buf, mid, last);
        assert(head.push(last) =~= rs);
    }
}

/// Questions that were read are as many as asked for, and their names are in
/// expanded form.
pub proof fn lemma_read_questions_are_expanded(buf: Seq<u8>, pos: int, count: nat)
    requires
        questions_at(buf, pos, count) is Ok,
    ensures
        questions_at(buf, pos, count)->Ok_0.0.len() == count,
        forall|i: int|
            0 <= i < count ==> is_expanded_name(
                #[trigger] questions_at(buf, pos, count)->Ok_0.0[i].name,
            ),
    decreases count,
{
    if count > 0 {
        lemma_read_questions_are_expanded(buf, pos, (count - 1) as nat);
        let mid = questions_at(buf, pos, (count - 1) as nat)->Ok_0.1;
        lemma_decoded_name_is_expanded(buf, mid, MAX_POINTER_HOPS as nat);
    }
}

/// Records that were read are as many as asked for, their names are in
/// expanded form and their data is as long as announced.
pub proof fn lemma_read_answers_are_expanded(buf: Seq<u8>, pos: int, count: nat)
    requires
        answers_at(buf, pos, count) is Ok,
    ensures
        answers_at(buf, pos, count)->Ok_0.0.len() == count,
        forall|j: int|
            0 <= j < count ==> {
                let r = #[trigger] answers_at(buf, pos, count)->Ok_0.0[j];
                is_expanded_name(r.name) && r.length == r.data.len()
            },
    decreases count,
{
    if count > 0 {
        lemma_read_answers_are_expanded(buf, pos, (count - 1) as nat);
        let mid = answers_at(buf, pos, (count - 1) as nat)->Ok_0.1;
        lemma_decoded_name_is_expanded(buf, mid, MAX_POINTER_HOPS as nat);
    }
}

/// Every message that the decoder hands out is well formed.
pub proof fn lemma_parsed_is_well_formed(buf: Seq<u8>)
    requires
        PacketView::parse(buf) is Ok,
    ensures
        is_well_formed(PacketView::parse(buf)->Ok_0),
{
    let header = Header::from_wire(buf);
    lemma_header_wire_round_trip(buf);
    lemma_read_questions_are_expanded(buf, HEADER_LEN as int, header.qdcount as nat);
    let mid = questions_at(buf, HEADER_LEN as int, header.qdcount as nat)->Ok_0.1;
    lemma_read_answers_are_expanded(buf, mid, header.ancount as nat);
}

/// A well-formed message is read back unchanged from the bytes written for it.
pub proof fn lemma_write_then_read(p: PacketView)
    requires
        is_well_formed(p),
    ensures
        PacketView::parse(p.wire()) == Ok::<PacketView, ParseError>(p),
{
    let buf = p.wire();
    let hw = p.header.wire();
    let qw = questions_wire(p.questions);
    let aw = answers_wire(p.answers);
    lemma_header_round_trip(p.header);
    assert(Header::from_wire(buf) == p.header) by {
        assert(forall|i: int| 0 <= i < 12 ==> buf[i] == hw[i]);
    }
    let mid = 12 + qw.len() as int;
    assert(buf.subrange(12, mid) =~= qw);
    lemma_questions_read_back(buf, 12, p.questions);
    assert(buf.subrange(mid, mid + aw.len()) =~= aw);
    lemma_answers_read_back(buf, mid, p.answers);
}

/// The codec round trip: for every datagram that is a message, writing the
/// message and reading the result gives the message again. The bytes may
/// differ, since names are written in full.
pub proof fn lemma_codec_round_trip(buf: Seq<u8>)
    requires
        PacketView::parse(buf) is Ok,
    ensures
        PacketView::parse(PacketView::parse(buf)->Ok_0.wire()) == PacketView::parse(buf),
{
    lemma_parsed_is_well_formed(buf);
    lemma_write_then_read(PacketView::parse(buf)->Ok_0);
}

} // verus!
