//! The DNS wire format: header, questions, resource records and names.

use vstd::prelude::*;
use crate::wire::{be16, be16_bytes, be32, be32_bytes, read_u16, read_u32, write_u16, write_u32};
use crate::wire::{lemma_be16_round_trip, lemma_be16_bytes_round_trip};

verus! {

/// Length of the message header on the wire.
pub const HEADER_LEN: usize = 12;

/// The message header.
#[derive(Debug, Clone, Copy, PartialEq, Eq, Structural)]
pub struct Header {
    pub packet_id: u16,
    pub qr: u8,
    pub opcode: u8,
    pub aa: u8,
    pub tc: u8,
    pub rd: u8,
    pub ra: u8,
    pub z: u8,
    pub rcode: u8,
    pub qdcount: u16,
    pub ancount: u16,
    pub nscount: u16,
    pub arcount: u16,
}

impl Header {
    /// Every flag field fits the bits that the wire gives it.
    pub open spec fn in_range(self) -> bool {
        &&& self.qr <= 1
        &&& self.opcode <= 15
        &&& self.aa <= 1
        &&& self.tc <= 1
        &&& self.rd <= 1
        &&& self.ra <= 1
        &&& self.z <= 7
        &&& self.rcode <= 15
    }

    /// Third byte of the header: `qr`, `opcode`, `aa`, `tc`, `rd`.
    pub open spec fn flags_hi(self) -> u8 {
        (self.qr << 7) | (self.opcode << 3) | (self.aa << 2) | (self.tc << 1) | self.rd
    }

    /// Fourth byte of the header: `ra`, `z`, `rcode`.
    pub open spec fn flags_lo(self) -> u8 {
        (self.ra << 7) | (self.z << 4) | self.rcode
    }

    /// The twelve bytes that stand for the header on the wire.
    pub open spec fn wire(self) -> Seq<u8> {
        be16_bytes(self.packet_id) + seq![self.flags_hi(), self.flags_lo()] + be16_bytes(
            self.qdcount,
        ) + be16_bytes(self.ancount) + be16_bytes(self.nscount) + be16_bytes(self.arcount)
    }

    /// The header that the first twelve bytes of `buf` stand for.
    pub open spec fn from_wire(buf: Seq<u8>) -> Header
        recommends
            buf.len() >= HEADER_LEN,
    {
        Header {
            packet_id: be16(buf[0], buf[1]),
            qr: (buf[2] >> 7) & 0x01,
            opcode: (buf[2] >> 3) & 0x0f,
            aa: (buf[2] >> 2) & 0x01,
            tc: (buf[2] >> 1) & 0x01,
            rd: buf[2] & 0x01,
            ra: (buf[3] >> 7) & 0x01,
            z: (buf[3] >> 4) & 0x07,
            rcode: buf[3] & 0x0f,
            qdcount: be16(buf[4], buf[5]),
            ancount: be16(buf[6], buf[7]),
            nscount: be16(buf[8], buf[9]),
            arcount: be16(buf[10], buf[11]),
        }
    }

    /// Reads the header from the first twelve bytes of `buf`.
    pub fn new(buf: &[u8]) -> (h: Self)
        requires
            buf@.len() >= HEADER_LEN,
        ensures
            h == Header::from_wire(buf@),
            h.in_range(),
    {
        let b2: u8 = buf[2];
        let b3: u8 = buf[3];
        proof {
            lemma_flag_fields_in_range(b2);
            lemma_flag_fields_in_range(b3);
        }
        Header {
            packet_id: read_u16(buf, 0),
            qr: (b2 >> 7) & 0x01,
            opcode: (b2 >> 3) & 0x0f,
            aa: (b2 >> 2) & 0x01,
            tc: (b2 >> 1) & 0x01,
            rd: b2 & 0x01,
            ra: (b3 >> 7) & 0x01,
            z: (b3 >> 4) & 0x07,
            rcode: b3 & 0x0f,
            qdcount: read_u16(buf, 4),
            ancount: read_u16(buf, 6),
            nscount: read_u16(buf, 8),
            arcount: read_u16(buf, 10),
        }
    }

    /// Writes the header as its twelve wire bytes.
    pub fn to_bytes(&self) -> (out: Vec<u8>)
        ensures
            out@ == self.wire(),
            out@.len() == HEADER_LEN,
    {
        let mut out: Vec<u8> = Vec::new();
        write_u16(&mut out, self.packet_id);
        out.push(self.qr << 7 | self.opcode << 3 | self.aa << 2 | self.tc << 1 | self.rd);
        out.push(self.ra << 7 | self.z << 4 | self.rcode);
        write_u16(&mut out, self.qdcount);
        write_u16(&mut out, self.ancount);
        write_u16(&mut out, self.nscount);
        write_u16(&mut out, self.arcount);
        assert(out@ =~= self.wire());
        out
    }
}

/// The fields cut out of a flag byte fit their widths.
proof fn lemma_flag_fields_in_range(b: u8)
    ensures
        (b >> 7) & 0x01 <= 1,
        (b >> 3) & 0x0f <= 15,
        (b >> 2) & 0x01 <= 1,
        (b >> 1) & 0x01 <= 1,
        b & 0x01 <= 1,
        (b >> 4) & 0x07 <= 7,
        b & 0x0f <= 15,
{
    assert((b >> 7) & 0x01 <= 1) by (bit_vector);
    assert((b >> 3) & 0x0f <= 15) by (bit_vector);
    assert((b >> 2) & 0x01 <= 1) by (bit_vector);
    assert((b >> 1) & 0x01 <= 1) by (bit_vector);
    assert(b & 0x01 <= 1) by (bit_vector);
    assert((b >> 4) & 0x07 <= 7) by (bit_vector);
    assert(b & 0x0f <= 15) by (bit_vector);
}

/// A header whose flags are in range is read back unchanged from its wire bytes.
pub proof fn lemma_header_round_trip(h: Header)
    requires
        h.in_range(),
    ensures
        h.wire().len() == HEADER_LEN,
        Header::from_wire(h.wire()) == h,
{
    let w = h.wire();
    lemma_be16_round_trip(h.packet_id);
    lemma_be16_round_trip(h.qdcount);
    lemma_be16_round_trip(h.ancount);
    lemma_be16_round_trip(h.nscount);
    lemma_be16_round_trip(h.arcount);
    let (qr, opcode, aa, tc, rd) = (h.qr, h.opcode, h.aa, h.tc, h.rd);
    let hi: u8 = (qr << 7) | (opcode << 3) | (aa << 2) | (tc << 1) | rd;
    assert((hi >> 7) & 0x01 == qr && (hi >> 3) & 0x0f == opcode && (hi >> 2) & 0x01 == aa && (hi
        >> 1) & 0x01 == tc && hi & 0x01 == rd) by (bit_vector)
        requires
            hi == (qr << 7) | (opcode << 3) | (aa << 2) | (tc << 1) | rd,
            qr <= 1,
            opcode <= 15,
            aa <= 1,
            tc <= 1,
            rd <= 1,
    ;
    let (ra, z, rcode) = (h.ra, h.z, h.rcode);
    let lo: u8 = (ra << 7) | (z << 4) | rcode;
    assert((lo >> 7) & 0x01 == ra && (lo >> 4) & 0x07 == z && lo & 0x0f == rcode)
        by (bit_vector)
        requires
            lo == (ra << 7) | (z << 4) | rcode,
            ra <= 1,
            z <= 7,
            rcode <= 15,
    ;
    assert(w[2] == hi);
    assert(w[3] == lo);
}

/// The header read from twelve bytes is written back as the same twelve bytes.
pub proof fn lemma_header_wire_round_trip(buf: Seq<u8>)
    requires
        buf.len() >= HEADER_LEN,
    ensures
        Header::from_wire(buf).in_range(),
        Header::from_wire(buf).wire() == buf.subrange(0, HEADER_LEN as int),
{
    let h = Header::from_wire(buf);
    let b2 = buf[2];
    let b3 = buf[3];
    lemma_flag_fields_in_range(b2);
    lemma_flag_fields_in_range(b3);
    lemma_be16_bytes_round_trip(buf[0], buf[1]);
    lemma_be16_bytes_round_trip(buf[4], buf[5]);
    lemma_be16_bytes_round_trip(buf[6], buf[7]);
    lemma_be16_bytes_round_trip(buf[8], buf[9]);
    lemma_be16_bytes_round_trip(buf[10], buf[11]);
    assert((((b2 >> 7) & 0x01) << 7) | (((b2 >> 3) & 0x0f) << 3) | (((b2 >> 2) & 0x01) << 2) | (((b2
        >> 1) & 0x01) << 1) | (b2 & 0x01) == b2) by (bit_vector);
    assert((((b3 >> 7) & 0x01) << 7) | (((b3 >> 4) & 0x07) << 4) | (b3 & 0x0f) == b3)
        by (bit_vector);
    assert(h.wire() =~= buf.subrange(0, HEADER_LEN as int));
}

/// A question: an expanded name, a type and a class.
#[derive(Debug, PartialEq, Eq, Hash)]
pub struct Question {
    pub name: Vec<u8>,
    pub tp: u16,
    pub class: u16,
}

/// What a question holds, as mathematical values.
pub struct QuestionView {
    pub name: Seq<u8>,
    pub tp: u16,
    pub class: u16,
}

impl QuestionView {
    /// The bytes that stand for the question on the wire.
    pub open spec fn wire(self) -> Seq<u8> {
        self.name + be16_bytes(self.tp) + be16_bytes(self.class)
    }
}

impl View for Question {
    type V = QuestionView;

    open spec fn view(&self) -> QuestionView {
        QuestionView { name: self.name@, tp: self.tp, class: self.class }
    }
}

impl Clone for Question {
    fn clone(&self) -> (out: Self)
        ensures
            out@ == self@,
    {
        Question { name: copy_bytes(&self.name), tp: self.tp, class: self.class }
    }
}

impl Question {
    /// Writes the name as it stands, then type and class.
    pub fn to_bytes(&self) -> (out: Vec<u8>)
        ensures
            out@ == self@.wire(),
    {
        let mut out = copy_bytes(&self.name);
        write_u16(&mut out, self.tp);
        write_u16(&mut out, self.class);
        out
    }
}

/// A resource record of the answer section.
#[derive(Debug, PartialEq, Eq)]
pub struct Answer {
    pub name: Vec<u8>,
    pub tp: u16,
    pub class: u16,
    pub ttl: u32,
    pub length: u16,
    pub data: Vec<u8>,
}

/// What a resource record holds, as mathematical values.
pub struct AnswerView {
    pub name: Seq<u8>,
    pub tp: u16,
    pub class: u16,
    pub ttl: u32,
    pub length: u16,
    pub data: Seq<u8>,
}

impl AnswerView {
    /// The bytes that stand for the record on the wire.
    pub open spec fn wire(self) -> Seq<u8> {
        self.name + be16_bytes(self.tp) + be16_bytes(self.class) + be32_bytes(self.ttl)
            + be16_bytes(self.length) + self.data
    }
}

impl View for Answer {
    type V = AnswerView;

    open spec fn view(&self) -> AnswerView {
        AnswerView {
            name: self.name@,
            tp: self.tp,
            class: self.class,
            ttl: self.ttl,
            length: self.length,
            data: self.data@,
        }
    }
}

impl Clone for Answer {
    fn clone(&self) -> (out: Self)
        ensures
            out@ == self@,
    {
        Answer {
            name: copy_bytes(&self.name),
            tp: self.tp,
            class: self.class,
            ttl: self.ttl,
            length: self.length,
            data: copy_bytes(&self.data),
        }
    }
}

impl Answer {
    /// Writes the name as it stands, the fixed fields, then the data.
    pub fn to_bytes(&self) -> (out: Vec<u8>)
        ensures
            out@ == self@.wire(),
    {
        let mut out = copy_bytes(&self.name);
        write_u16(&mut out, self.tp);
        write_u16(&mut out, self.class);
        write_u32(&mut out, self.ttl);
        write_u16(&mut out, self.length);
        append_bytes(&mut out, &self.data);
        out
    }
}

/// The views of a sequence of questions, in order.
pub open spec fn question_views(qs: Seq<Question>) -> Seq<QuestionView> {
    Seq::new(qs.len(), |i: int| qs[i]@)
}

/// The views of a sequence of records, in order.
pub open spec fn answer_views(rs: Seq<Answer>) -> Seq<AnswerView> {
    Seq::new(rs.len(), |i: int| rs[i]@)
}

/// The wire bytes of the questions, one behind the other.
pub open spec fn questions_wire(qs: Seq<QuestionView>) -> Seq<u8>
    decreases qs.len(),
{
    if qs.len() == 0 {
        Seq::empty()
    } else {
        questions_wire(qs.drop_last()) + qs.last().wire()
    }
}

/// The wire bytes of the records, one behind the other.
pub open spec fn answers_wire(rs: Seq<AnswerView>) -> Seq<u8>
    decreases rs.len(),
{
    if rs.len() == 0 {
        Seq::empty()
    } else {
        answers_wire(rs.drop_last()) + rs.last().wire()
    }
}

/// A message: header, questions and answers.
#[derive(Debug, PartialEq, Eq)]
pub struct DNSPacket {
    pub header: Header,
    pub questions: Vec<Question>,
    pub answers: Vec<Answer>,
}

/// What a message holds, as mathematical values.
pub struct PacketView {
    pub header: Header,
    pub questions: Seq<QuestionView>,
    pub answers: Seq<AnswerView>,
}

impl PacketView {
    /// The bytes that stand for the message on the wire: the header, each
    /// question, each answer, with every name written in full.
    pub open spec fn wire(self) -> Seq<u8> {
        self.header.wire() + questions_wire(self.questions) + answers_wire(self.answers)
    }
}

impl View for DNSPacket {
    type V = PacketView;

    open spec fn view(&self) -> PacketView {
        PacketView {
            header: self.header,
            questions: question_views(self.questions@),
            answers: answer_views(self.answers@),
        }
    }
}

/// Copies a byte vector.
pub(crate) fn copy_bytes(v: &Vec<u8>) -> (out: Vec<u8>)
    ensures
        out@ == v@,
{
    let mut out: Vec<u8> = Vec::new();
    append_bytes(&mut out, v);
    out
}

/// Appends `src` to `out`.
pub(crate) fn append_bytes(out: &mut Vec<u8>, src: &Vec<u8>)
    ensures
        final(out)@ == old(out)@ + src@,
{
    out.extend_from_slice(src.as_slice());
    assert(out@ =~= old(out)@ + src@);
}

impl DNSPacket {
    /// Writes the header, then each question, then each answer.
    pub fn to_bytes(&self) -> (out: Vec<u8>)
        ensures
            out@ == self@.wire(),
    {
        let mut out = self.header.to_bytes();
        let mut i: usize = 0;
        while i < self.questions.len()
            invariant
                i <= self.questions.len(),
                out@ == self.header.wire() + questions_wire(
                    question_views(self.questions@).take(i as int),
                ),
            decreases self.questions.len() - i,
        {
            let q = self.questions[i].to_bytes();
            proof {
                let qs = question_views(self.questions@);
                assert(qs.take(i + 1).drop_last() =~= qs.take(i as int));
                assert(qs.take(i + 1).last() == self.questions[i as int]@);
            }
            append_bytes(&mut out, &q);
            i = i + 1;
        }
        assert(question_views(self.questions@).take(i as int) =~= question_views(
            self.questions@,
        ));
        let mut j: usize = 0;
        while j < self.answers.len()
            invariant
                j <= self.answers.len(),
                out@ == self.header.wire() + questions_wire(question_views(self.questions@))
                    + answers_wire(answer_views(self.answers@).take(j as int)),
            decreases self.answers.len() - j,
        {
            let a = self.answers[j].to_bytes();
            proof {
                let rs = answer_views(self.answers@);
                assert(rs.take(j + 1).drop_last() =~= rs.take(j as int));
                assert(rs.take(j + 1).last() == self.answers[j as int]@);
            }
            append_bytes(&mut out, &a);
            j = j + 1;
        }
        assert(answer_views(self.answers@).take(j as int) =~= answer_views(self.answers@));
        out
    }
}

/// Why a datagram is not a message.
#[derive(Debug, Clone, Copy, PartialEq, Eq, Structural)]
pub enum ParseError {
    /// The buffer ends before the header, a name, the fixed fields of a
    /// record or its data are complete.
    Truncated,
    /// A compression pointer leads outside the buffer, to a name that does
    /// not end, or through more than `MAX_POINTER_HOPS` further pointers.
    MalformedName,
    /// The header announces more questions and answers than the largest
    /// message could hold.
    InvalidCounts,
}

/// How many compression pointers the decoder follows for one name.
pub const MAX_POINTER_HOPS: usize = 10;

/// The largest message carried in one datagram.
pub const MAX_MESSAGE_LEN: usize = 512;

/// The fewest bytes a question takes: the root name, type and class.
pub const MIN_QUESTION_LEN: usize = 5;

/// The fewest bytes a record takes: the root name and the fixed fields.
pub const MIN_ANSWER_LEN: usize = 11;

/// First byte of a compression pointer: the top two bits are set.
pub open spec fn is_pointer(b: u8) -> bool {
    b >= 0xC0
}

/// The offset that the two bytes of a compression pointer name: the low
/// fourteen bits.
pub open spec fn pointer_target(b0: u8, b1: u8) -> int {
    (b0 - 0xC0) * 256 + b1
}

/// A decoded name, or the error, with `prefix` put in front of the name.
pub open spec fn with_prefix(prefix: Seq<u8>, r: Result<(Seq<u8>, int), ParseError>) -> Result<
    (Seq<u8>, int),
    ParseError,
> {
    match r {
        Ok((rest, end)) => Ok((prefix + rest, end)),
        Err(e) => Err(e),
    }
}

/// The name encoded at `pos` in `buf`, expanded, with the offset just behind
/// its encoding at `pos`; `hops` is the number of pointers that may still be
/// followed.
///
/// A label is copied with its length byte; the zero byte ends the name and is
/// part of it; a pointer is replaced by the name at its target and ends the
/// encoding two bytes further on.
pub open spec fn name_at(buf: Seq<u8>, pos: int, hops: nat) -> Result<(Seq<u8>, int), ParseError>
    decreases hops, buf.len() - pos,
{
    if pos < 0 || pos >= buf.len() {
        Err(ParseError::Truncated)
    } else if is_pointer(buf[pos]) {
        if pos + 1 >= buf.len() {
            Err(ParseError::Truncated)
        } else if hops == 0 {
            Err(ParseError::MalformedName)
        } else {
            match name_at(buf, pointer_target(buf[pos], buf[pos + 1]), (hops - 1) as nat) {
                Ok((suffix, _)) => Ok((suffix, pos + 2)),
                Err(_) => Err(ParseError::MalformedName),
            }
        }
    } else if buf[pos] == 0 {
        Ok((seq![0u8], pos + 1))
    } else {
        let next = pos + 1 + buf[pos];
        if next > buf.len() {
            Err(ParseError::Truncated)
        } else {
            with_prefix(buf.subrange(pos, next), name_at(buf, next, hops))
        }
    }
}

/// The question encoded at `pos`, with the offset just behind it.
pub open spec fn question_at(buf: Seq<u8>, pos: int) -> Result<(QuestionView, int), ParseError> {
    match name_at(buf, pos, MAX_POINTER_HOPS as nat) {
        Err(e) => Err(e),
        Ok((name, end)) => if end + 4 > buf.len() {
            Err(ParseError::Truncated)
        } else {
            Ok(
                (
                    QuestionView {
                        name,
                        tp: be16(buf[end], buf[end + 1]),
                        class: be16(buf[end + 2], buf[end + 3]),
                    },
                    end + 4,
                ),
            )
        },
    }
}

/// The first `count` questions encoded from `pos` on, with the offset just
/// behind the last; the first error met, if one of them cannot be read.
pub open spec fn questions_at(buf: Seq<u8>, pos: int, count: nat) -> Result<
    (Seq<QuestionView>, int),
    ParseError,
>
    decreases count,
{
    if count == 0 {
        Ok((Seq::empty(), pos))
    } else {
        match questions_at(buf, pos, (count - 1) as nat) {
            Err(e) => Err(e),
            Ok((qs, mid)) => match question_at(buf, mid) {
                Err(e) => Err(e),
                Ok((q, end)) => Ok((qs.push(q), end)),
            },
        }
    }
}

/// The record encoded at `pos`, with the offset just behind its data.
pub open spec fn answer_at(buf: Seq<u8>, pos: int) -> Result<(AnswerView, int), ParseError> {
    match name_at(buf, pos, MAX_POINTER_HOPS as nat) {
        Err(e) => Err(e),
        Ok((name, end)) => if end + 10 > buf.len() {
            Err(ParseError::Truncated)
        } else {
            let length = be16(buf[end + 8], buf[end + 9]);
            if end + 10 + length > buf.len() {
                Err(ParseError::Truncated)
            } else {
                Ok(
                    (
                        AnswerView {
                            name,
                            tp: be16(buf[end], buf[end + 1]),
                            class: be16(buf[end + 2], buf[end + 3]),
                            ttl: be32(buf[end + 4], buf[end + 5], buf[end + 6], buf[end + 7]),
                            length,
                            data: buf.subrange(end + 10, end + 10 + length),
                        },
                        end + 10 + length,
                    ),
                )
            }
        },
    }
}

/// The first `count` records encoded from `pos` on, with the offset just
/// behind the last; the first error met, if one of them cannot be read.
pub open spec fn answers_at(buf: Seq<u8>, pos: int, count: nat) -> Result<
    (Seq<AnswerView>, int),
    ParseError,
>
    decreases count,
{
    if count == 0 {
        Ok((Seq::empty(), pos))
    } else {
        match answers_at(buf, pos, (count - 1) as nat) {
            Err(e) => Err(e),
            Ok((rs, mid)) => match answer_at(buf, mid) {
                Err(e) => Err(e),
                Ok((r, end)) => Ok((rs.push(r), end)),
            },
        }
    }
}

/// The counts of a header ask for no more than the largest message holds.
pub open spec fn counts_fit(h: Header) -> bool {
    HEADER_LEN + MIN_QUESTION_LEN * h.qdcount + MIN_ANSWER_LEN * h.ancount <= MAX_MESSAGE_LEN
}

impl PacketView {
    /// The message that `buf` holds: the header, then as many questions and
    /// answers as the header announces. What follows the answers is not read.
    pub open spec fn parse(buf: Seq<u8>) -> Result<PacketView, ParseError> {
        if buf.len() < HEADER_LEN {
            Err(ParseError::Truncated)
        } else {
            let header = Header::from_wire(buf);
            if !counts_fit(header) {
                Err(ParseError::InvalidCounts)
            } else {
                match questions_at(buf, HEADER_LEN as int, header.qdcount as nat) {
                    Err(e) => Err(e),
                    Ok((questions, mid)) => match answers_at(buf, mid, header.ancount as nat) {
                        Err(e) => Err(e),
                        Ok((answers, _)) => Ok(PacketView { header, questions, answers }),
                    },
                }
            }
        }
    }
}

/// Putting two prefixes in front, one after the other, is putting their
/// concatenation in front.
proof fn lemma_with_prefix_twice(
    front: Seq<u8>,
    middle: Seq<u8>,
    r: Result<(Seq<u8>, int), ParseError>,
)
    ensures
        with_prefix(front, with_prefix(middle, r)) == with_prefix(front + middle, r),
{
    match r {
        Ok((rest, end)) => {
            assert(front + (middle + rest) =~= (front + middle) + rest);
        },
        Err(_) => {},
    }
}

/// An empty prefix changes nothing.
proof fn lemma_with_empty_prefix(r: Result<(Seq<u8>, int), ParseError>)
    ensures
        with_prefix(Seq::empty(), r) == r,
{
    match r {
        Ok((rest, end)) => {
            assert(Seq::<u8>::empty() + rest =~= rest);
        },
        Err(_) => {},
    }
}

/// Appends the name encoded at `start` to `name` and returns the offset just
/// behind its encoding.
fn read_name(buf: &[u8], start: usize, hops: usize, name: &mut Vec<u8>) -> (r: Result<
    usize,
    ParseError,
>)
    ensures
        match name_at(buf@, start as int, hops as nat) {
            Ok((n, end)) => r == Ok::<usize, ParseError>(end as usize) && start < end
                <= buf@.len() <= usize::MAX && final(name)@ == old(name)@ + n,
            Err(e) => r == Err::<usize, ParseError>(e),
        },
    decreases hops,
{
    let ghost base = name@;
    let mut n: usize = start;
    proof {
        lemma_with_empty_prefix(name_at(buf@, start as int, hops as nat));
        assert(name@.skip(base.len() as int) =~= Seq::<u8>::empty());
    }
    loop
        invariant
            start <= n,
            base == old(name)@,
            base.len() <= name@.len(),
            name@.subrange(0, base.len() as int) == base,
            name_at(buf@, start as int, hops as nat) == with_prefix(
                name@.skip(base.len() as int),
                name_at(buf@, n as int, hops as nat),
            ),
        decreases buf@.len() - n,
    {
        if n >= buf.len() {
            return Err(ParseError::Truncated);
        }
        let b: u8 = buf[n];
        if b >= 0xC0 {
            if n + 1 >= buf.len() {
                return Err(ParseError::Truncated);
            }
            if hops == 0 {
                return Err(ParseError::MalformedName);
            }
            let target: usize = ((b - 0xC0) as usize) * 256 + (buf[n + 1] as usize);
            let ghost before = name@;
            let followed = read_name(buf, target, hops - 1, name);
            match followed {
                Ok(_) => {
                    proof {
                        let inner = name_at(buf@, target as int, (hops - 1) as nat);
                        let suffix = inner->Ok_0.0;
                        assert(name@ == before + suffix);
                        assert(name@.skip(base.len() as int) =~= before.skip(base.len() as int)
                            + suffix);
                        assert((before + suffix).subrange(0, base.len() as int) =~= before.subrange(
                            0,
                            base.len() as int,
                        ));
                    }
                    return Ok(n + 2);
                },
                Err(_) => {
                    return Err(ParseError::MalformedName);
                },
            }
        }
        if b == 0 {
            let ghost before = name@;
            name.push(0);
            proof {
                assert(name@.skip(base.len() as int) =~= before.skip(base.len() as int) + seq![
                    0u8,
                ]);
                assert(name@ =~= base + name@.skip(base.len() as int));
                assert(before =~= base + before.skip(base.len() as int));
            }
            return Ok(n + 1);
        }
        let room: usize = buf.len() - n - 1;
        if (b as usize) > room {
            return Err(ParseError::Truncated);
        }
        let next: usize = n + 1 + (b as usize);
        let ghost before = name@;
        name.extend_from_slice(&buf[n..next]);
        proof {
            let label = buf@.subrange(n as int, next as int);
            assert(name@ =~= before + label);
            assert(name@.skip(base.len() as int) =~= before.skip(base.len() as int) + label);
            assert(name@.subrange(0, base.len() as int) =~= before.subrange(0, base.len() as int));
            lemma_with_prefix_twice(
                before.skip(base.len() as int),
                label,
                name_at(buf@, next as int, hops as nat),
            );
        }
        n = next;
    }
}

impl DNSPacket {
    /// Decodes the name at `start` into its expanded form and says how many
    /// bytes its encoding takes at `start`.
    pub fn qname(buf: &[u8], start: usize) -> (r: Result<(Vec<u8>, usize), ParseError>)
        ensures
            match name_at(buf@, start as int, MAX_POINTER_HOPS as nat) {
                Ok((n, end)) => r matches Ok((name, advance)) && name@ == n && advance == end
                    - start && end <= buf@.len(),
                Err(e) => r matches Err(err) && err == e,
            },
    {
        let mut name: Vec<u8> = Vec::new();
        let read = read_name(buf, start, MAX_POINTER_HOPS, &mut name);
        match read {
            Ok(end) => {
                proof {
                    let n = name_at(buf@, start as int, MAX_POINTER_HOPS as nat)->Ok_0.0;
                    assert(Seq::<u8>::empty() + n =~= n);
                }
                Ok((name, end - start))
            },
            Err(e) => Err(e),
        }
    }
}

/// Once reading a number of questions fails, reading more fails alike.
proof fn lemma_questions_error_stays(buf: Seq<u8>, pos: int, k: nat, count: nat)
    requires
        k <= count,
        questions_at(buf, pos, k) is Err,
    ensures
        questions_at(buf, pos, count) == questions_at(buf, pos, k),
    decreases count,
{
    if k < count {
        lemma_questions_error_stays(buf, pos, k, (count - 1) as nat);
    }
}

/// Once reading a number of records fails, reading more fails alike.
proof fn lemma_answers_error_stays(buf: Seq<u8>, pos: int, k: nat, count: nat)
    requires
        k <= count,
        answers_at(buf, pos, k) is Err,
    ensures
        answers_at(buf, pos, count) == answers_at(buf, pos, k),
    decreases count,
{
    if k < count {
        lemma_answers_error_stays(buf, pos, k, (count - 1) as nat);
    }
}

impl DNSPacket {
    /// Reads `count` questions from `offset` on and returns them with the
    /// offset just behind the last.
    pub fn parse_questions(buf: &[u8], offset: usize, count: u16) -> (r: Result<
        (Vec<Question>, usize),
        ParseError,
    >)
        ensures
            match questions_at(buf@, offset as int, count as nat) {
                Ok((qs, end)) => r matches Ok((questions, stop)) && question_views(questions@)
                    == qs && stop == end && (count > 0 ==> end <= buf@.len()),
                Err(e) => r matches Err(err) && err == e,
            },
    {
        let mut questions: Vec<Question> = Vec::new();
        let mut at: usize = offset;
        let mut i: u16 = 0;
        assert(question_views(questions@) =~= Seq::<QuestionView>::empty());
        if count > 0 && offset > buf.len() {
            proof {
                assert(questions_at(buf@, offset as int, 1) is Err);
                lemma_questions_error_stays(buf@, offset as int, 1, count as nat);
            }
            return Err(ParseError::Truncated);
        }
        while i < count
            invariant
                i <= count,
                count > 0 ==> at <= buf@.len(),
                questions_at(buf@, offset as int, i as nat) == Ok::<
                    (Seq<QuestionView>, int),
                    ParseError,
                >((question_views(questions@), at as int)),
            decreases count - i,
        {
            let ghost done = question_views(questions@);
            let total: usize = buf.len();
            let decoded = Self::qname(buf, at);
            match decoded {
                Err(e) => {
                    proof {
                        assert(question_at(buf@, at as int) == Err::<
                            (QuestionView, int),
                            ParseError,
                        >(e));
                        assert(questions_at(buf@, offset as int, (i + 1) as nat) is Err);
                        lemma_questions_error_stays(
                            buf@,
                            offset as int,
                            (i + 1) as nat,
                            count as nat,
                        );
                    }
                    return Err(e);
                },
                Ok((name, advance)) => {
                    let end: usize = at + advance;
                    if total - end < 4 {
                        proof {
                            assert(question_at(buf@, at as int) is Err);
                            assert(questions_at(buf@, offset as int, (i + 1) as nat) is Err);
                            lemma_questions_error_stays(
                                buf@,
                                offset as int,
                                (i + 1) as nat,
                                count as nat,
                            );
                        }
                        return Err(ParseError::Truncated);
                    }
                    let q = Question {
                        name,
                        tp: read_u16(buf, end),
                        class: read_u16(buf, end + 2),
                    };
                    questions.push(q);
                    at = end + 4;
                    proof {
                        assert(question_views(questions@) =~= done.push(questions@.last()@));
                    }
                },
            }
            i = i + 1;
        }
        Ok((questions, at))
    }

    /// Reads `count` records from `offset` on and returns them with the
    /// offset just behind the last.
    pub fn parse_answers(buf: &[u8], offset: usize, count: u16) -> (r: Result<
        (Vec<Answer>, usize),
        ParseError,
    >)
        ensures
            match answers_at(buf@, offset as int, count as nat) {
                Ok((rs, end)) => r matches Ok((answers, stop)) && answer_views(answers@) == rs
                    && stop == end && (count > 0 ==> end <= buf@.len()),
                Err(e) => r matches Err(err) && err == e,
            },
    {
        let mut answers: Vec<Answer> = Vec::new();
        let mut at: usize = offset;
        let mut i: u16 = 0;
        assert(answer_views(answers@) =~= Seq::<AnswerView>::empty());
        if count > 0 && offset > buf.len() {
            proof {
                assert(answers_at(buf@, offset as int, 1) is Err);
                lemma_answers_error_stays(buf@, offset as int, 1, count as nat);
            }
            return Err(ParseError::Truncated);
        }
        while i < count
            invariant
                i <= count,
                count > 0 ==> at <= buf@.len(),
                answers_at(buf@, offset as int, i as nat) == Ok::<
                    (Seq<AnswerView>, int),
                    ParseError,
                >((answer_views(answers@), at as int)),
            decreases count - i,
        {
            let ghost done = answer_views(answers@);
            let total: usize = buf.len();
            let decoded = Self::qname(buf, at);
            match decoded {
                Err(e) => {
                    proof {
                        assert(answer_at(buf@, at as int) == Err::<(AnswerView, int), ParseError>(
                            e,
                        ));
                        assert(answers_at(buf@, offset as int, (i + 1) as nat) is Err);
                        lemma_answers_error_stays(
                            buf@,
                            offset as int,
                            (i + 1) as nat,
                            count as nat,
                        );
                    }
                    return Err(e);
                },
                Ok((name, advance)) => {
                    let end: usize = at + advance;
                    if total - end < 10 {
                        proof {
                            assert(answer_at(buf@, at as int) is Err);
                            assert(answers_at(buf@, offset as int, (i + 1) as nat) is Err);
                            lemma_answers_error_stays(
                                buf@,
                                offset as int,
                                (i + 1) as nat,
                                count as nat,
                            );
                        }
                        return Err(ParseError::Truncated);
                    }
                    let tp = read_u16(buf, end);
                    let class = read_u16(buf, end + 2);
                    let ttl = read_u32(buf, end + 4);
                    let length = read_u16(buf, end + 8);
                    let from: usize = end + 10;
                    if total - from < length as usize {
                        proof {
                            assert(answer_at(buf@, at as int) is Err);
                            assert(answers_at(buf@, offset as int, (i + 1) as nat) is Err);
                            lemma_answers_error_stays(
                                buf@,
                                offset as int,
                                (i + 1) as nat,
                                count as nat,
                            );
                        }
                        return Err(ParseError::Truncated);
                    }
                    let to: usize = from + length as usize;
                    let mut data: Vec<u8> = Vec::new();
                    data.extend_from_slice(&buf[from..to]);
                    assert(data@ =~= buf@.subrange(from as int, to as int));
                    answers.push(Answer { name, tp, class, ttl, length, data });
                    at = to;
                    proof {
                        assert(answer_views(answers@) =~= done.push(answers@.last()@));
                    }
                },
            }
            i = i + 1;
        }
        Ok((answers, at))
    }

    /// Reads a message from a datagram.
    pub fn from_bytes(buf: &[u8]) -> (r: Result<DNSPacket, ParseError>)
        ensures
            match PacketView::parse(buf@) {
                Ok(p) => r matches Ok(packet) && packet@ == p,
                Err(e) => r matches Err(err) && err == e,
            },
    {
        if buf.len() < HEADER_LEN {
            return Err(ParseError::Truncated);
        }
        let header = Header::new(buf);
        let need: usize = HEADER_LEN + MIN_QUESTION_LEN * (header.qdcount as usize) + MIN_ANSWER_LEN
            * (header.ancount as usize);
        if need > MAX_MESSAGE_LEN {
            return Err(ParseError::InvalidCounts);
        }
        let (questions, mid) = match Self::parse_questions(buf, HEADER_LEN, header.qdcount) {
            Ok(read) => read,
            Err(e) => {
                return Err(e);
            },
        };
        let (answers, _) = match Self::parse_answers(buf, mid, header.ancount) {
            Ok(read) => read,
            Err(e) => {
                return Err(e);
            },
        };
        Ok(DNSPacket { header, questions, answers })
    }
}

/// Time to live of the answer made up for a blocked name, in seconds.
pub const BLOCKED_TTL: u32 = 60;

/// The answer made up for a blocked question: the question's name, type and
/// class, a short time to live and the address 0.0.0.0, whatever the type.
pub open spec fn blocked_answer(q: QuestionView) -> AnswerView {
    AnswerView {
        name: q.name,
        tp: q.tp,
        class: q.class,
        ttl: BLOCKED_TTL,
        length: 4,
        data: seq![0u8, 0u8, 0u8, 0u8],
    }
}

impl Question {
    /// Makes the answer that a blocked question gets.
    pub fn to_blocked_answer(&self) -> (a: Answer)
        ensures
            a@ == blocked_answer(self@),
    {
        let mut data: Vec<u8> = Vec::new();
        data.push(0);
        data.push(0);
        data.push(0);
        data.push(0);
        assert(data@ =~= seq![0u8, 0u8, 0u8, 0u8]);
        Answer {
            name: copy_bytes(&self.name),
            tp: self.tp,
            class: self.class,
            ttl: BLOCKED_TTL,
            length: 4,
            data,
        }
    }
}

/// The message that forwards one question of `p` on its own: the header of
/// `p` with a question count of one, the question, and no answers.
pub open spec fn single_forward(p: PacketView, q: QuestionView) -> PacketView {
    PacketView {
        header: Header { qdcount: 1, ..p.header },
        questions: seq![q],
        answers: Seq::empty(),
    }
}

impl DNSPacket {
    /// One message per question, in the order of the questions, each with the
    /// same identifier and flags as this one.
    pub fn as_forwards(&self) -> (out: Vec<DNSPacket>)
        ensures
            out@.len() == self.questions@.len(),
            forall|i: int|
                0 <= i < out@.len() ==> (#[trigger] out@[i])@ == single_forward(
                    self@,
                    self.questions@[i]@,
                ),
    {
        let mut out: Vec<DNSPacket> = Vec::new();
        let mut i: usize = 0;
        while i < self.questions.len()
            invariant
                i <= self.questions@.len(),
                out@.len() == i,
                forall|k: int|
                    0 <= k < i ==> (#[trigger] out@[k])@ == single_forward(
                        self@,
                        self.questions@[k]@,
                    ),
            decreases self.questions@.len() - i,
        {
            let mut header = self.header;
            header.qdcount = 1;
            let mut questions: Vec<Question> = Vec::new();
            questions.push(self.questions[i].clone());
            let packet = DNSPacket { header, questions, answers: Vec::new() };
            proof {
                assert(packet@.questions =~= seq![self.questions@[i as int]@]);
                assert(packet@.answers =~= Seq::<AnswerView>::empty());
            }
            out.push(packet);
            i = i + 1;
        }
        out
    }
}

} // verus!
