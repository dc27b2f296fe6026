//! The readable form of names, questions and records.

use vstd::prelude::*;
use vstd::string::StringExecFns;
use crate::packet::{Answer, Question};

verus! {

/// The text that `String::from_utf8_lossy` makes of a byte sequence: the
/// decoded characters, with U+FFFD in place of what is not UTF-8.
pub uninterp spec fn utf8_lossy(bytes: Seq<u8>) -> Seq<char>;

/// Calls `String::from_utf8_lossy` and takes the text as an owned string.
/// The text depends on the bytes alone; its characters are not stated here.
#[verifier::external_body]
fn lossy_text(bytes: &[u8]) -> (text: String)
    ensures
        text@ == utf8_lossy(bytes@),
{
    String::from_utf8_lossy(bytes).into_owned()
}

/// Calls `String::push`: the character is appended to the string.
#[verifier::external_body]
pub(crate) fn push_char(text: &mut String, c: char)
    ensures
        final(text)@ == old(text)@.push(c),
{
    text.push(c)
}

/// The labels of a name without their length bytes, up to the zero byte; a
/// label that the name is too short for ends the list as the zero byte does.
pub open spec fn labels_of(name: Seq<u8>) -> Seq<Seq<u8>>
    decreases name.len(),
{
    if name.len() == 0 || name[0] == 0 || 1 + name[0] > name.len() {
        Seq::empty()
    } else {
        seq![name.subrange(1, 1 + name[0])] + labels_of(name.skip(1 + name[0]))
    }
}

/// The parts with a dot between each two of them.
pub open spec fn join_dots(parts: Seq<Seq<char>>) -> Seq<char>
    decreases parts.len(),
{
    if parts.len() == 0 {
        Seq::empty()
    } else if parts.len() == 1 {
        parts[0]
    } else {
        join_dots(parts.drop_last()) + seq!['.'] + parts.last()
    }
}

/// The text of each label, in order.
pub open spec fn label_texts(labels: Seq<Seq<u8>>) -> Seq<Seq<char>> {
    Seq::new(labels.len(), |i: int| utf8_lossy(labels[i]))
}

/// The readable form of a name: its labels as text, joined by dots, without
/// the zero byte at the end.
pub open spec fn domain_text(name: Seq<u8>) -> Seq<char> {
    join_dots(label_texts(labels_of(name)))
}

/// The views of the strings, in order.
pub open spec fn string_views(parts: Seq<String>) -> Seq<Seq<char>> {
    Seq::new(parts.len(), |i: int| parts[i]@)
}

/// The views of the byte vectors, in order.
pub open spec fn byte_views(parts: Seq<Vec<u8>>) -> Seq<Seq<u8>> {
    Seq::new(parts.len(), |i: int| parts[i]@)
}

/// Cuts a name into its labels.
pub fn name_labels(name: &[u8]) -> (labels: Vec<Vec<u8>>)
    ensures
        byte_views(labels@) == labels_of(name@),
{
    let mut labels: Vec<Vec<u8>> = Vec::new();
    let mut n: usize = 0;
    assert(byte_views(labels@) =~= Seq::<Seq<u8>>::empty());
    assert(name@.skip(0) =~= name@);
    assert(Seq::<Seq<u8>>::empty() + labels_of(name@) =~= labels_of(name@));
    loop
        invariant
            n <= name@.len(),
            labels_of(name@) == byte_views(labels@) + labels_of(name@.skip(n as int)),
        decreases name@.len() - n,
    {
        let ghost rest = name@.skip(n as int);
        if n >= name.len() {
            assert(byte_views(labels@) + Seq::<Seq<u8>>::empty() =~= byte_views(labels@));
            return labels;
        }
        let length: usize = name[n] as usize;
        assert(rest[0] == name@[n as int]);
        if length == 0 || length > name.len() - n - 1 {
            assert(byte_views(labels@) + Seq::<Seq<u8>>::empty() =~= byte_views(labels@));
            return labels;
        }
        let next: usize = n + 1 + length;
        let mut label: Vec<u8> = Vec::new();
        label.extend_from_slice(&name[n + 1..next]);
        proof {
            assert(label@ =~= rest.subrange(1, 1 + length));
            assert(rest.skip(1 + length) =~= name@.skip(next as int));
            let done = byte_views(labels@);
            assert(byte_views(labels@.push(label)) =~= done + seq![label@]);
            assert(done + (seq![label@] + labels_of(name@.skip(next as int))) =~= (done + seq![
                label@,
            ]) + labels_of(name@.skip(next as int)));
        }
        labels.push(label);
        n = next;
    }
}

/// Joins the parts with dots.
pub fn join_with_dots(parts: &Vec<String>) -> (text: String)
    ensures
        text@ == join_dots(string_views(parts@)),
{
    let mut text = String::new();
    let mut i: usize = 0;
    while i < parts.len()
        invariant
            i <= parts@.len(),
            text@ == join_dots(string_views(parts@).take(i as int)),
        decreases parts@.len() - i,
    {
        let ghost all = string_views(parts@);
        proof {
            assert(all.take(i + 1).drop_last() =~= all.take(i as int));
            assert(all.take(i + 1).last() == parts@[i as int]@);
        }
        if i > 0 {
            push_char(&mut text, '.');
            assert(text@ =~= join_dots(all.take(i as int)) + seq!['.']);
        } else {
            assert(Seq::<char>::empty() + parts@[i as int]@ =~= parts@[i as int]@);
        }
        text.append(parts[i].as_str());
        i = i + 1;
    }
    assert(string_views(parts@).take(i as int) =~= string_views(parts@));
    text
}

/// Turns each label into text.
fn labels_to_text(labels: &Vec<Vec<u8>>) -> (texts: Vec<String>)
    ensures
        string_views(texts@) == label_texts(byte_views(labels@)),
{
    let mut texts: Vec<String> = Vec::new();
    let mut i: usize = 0;
    while i < labels.len()
        invariant
            i <= labels@.len(),
            texts@.len() == i,
            forall|k: int| 0 <= k < i ==> (#[trigger] texts@[k])@ == utf8_lossy(labels@[k]@),
        decreases labels@.len() - i,
    {
        texts.push(lossy_text(labels[i].as_slice()));
        i = i + 1;
    }
    assert(string_views(texts@) =~= label_texts(byte_views(labels@)));
    texts
}

/// The readable form of a name.
pub fn domain_name(name: &[u8]) -> (text: String)
    ensures
        text@ == domain_text(name@),
{
    let labels = name_labels(name);
    let texts = labels_to_text(&labels);
    join_with_dots(&texts)
}

/// The decimal digits of a byte.
pub open spec fn decimal(b: u8) -> Seq<char> {
    if b >= 100 {
        seq![digit(b / 100), digit((b / 10) % 10), digit(b % 10)]
    } else if b >= 10 {
        seq![digit(b / 10), digit(b % 10)]
    } else {
        seq![digit(b)]
    }
}

/// The character of a digit below ten.
pub open spec fn digit(d: u8) -> char {
    (('0' as u8) + d) as char
}

/// The bytes in decimal, joined by dots.
pub open spec fn dotted_decimal(data: Seq<u8>) -> Seq<char> {
    join_dots(Seq::new(data.len(), |i: int| decimal(data[i])))
}

/// The text of a question: `question=` and the readable name.
pub open spec fn question_text(name: Seq<u8>) -> Seq<char> {
    "question="@ + domain_text(name)
}

/// The text of a record: the text of its question, a line break, `answer=`
/// and the data in dotted decimal.
pub open spec fn answer_text(name: Seq<u8>, data: Seq<u8>) -> Seq<char> {
    question_text(name) + "\nanswer="@ + dotted_decimal(data)
}

fn digit_char(d: u8) -> (c: char)
    requires
        d < 10,
    ensures
        c == digit(d),
{
    (48u8 + d) as char
}

/// Writes a byte in decimal.
fn decimal_string(b: u8) -> (text: String)
    ensures
        text@ == decimal(b),
{
    let mut text = String::new();
    if b >= 100 {
        push_char(&mut text, digit_char(b / 100));
    }
    if b >= 10 {
        push_char(&mut text, digit_char((b / 10) % 10));
    }
    push_char(&mut text, digit_char(b % 10));
    assert(text@ =~= decimal(b));
    text
}

impl Question {
    /// The readable name: labels joined by dots.
    pub fn domain(&self) -> (text: String)
        ensures
            text@ == domain_text(self.name@),
    {
        domain_name(self.name.as_slice())
    }

    /// `question=` and the readable name.
    pub fn to_string(&self) -> (text: String)
        ensures
            text@ == question_text(self.name@),
    {
        let mut text = String::from_str("question=");
        let name = self.domain();
        text.append(name.as_str());
        text
    }
}

impl Answer {
    /// The text of the record's question, then `answer=` and the data in
    /// dotted decimal on a line of its own.
    pub fn to_string(&self) -> (text: String)
        ensures
            text@ == answer_text(self.name@, self.data@),
    {
        let mut text = String::from_str("question=");
        let name = domain_name(self.name.as_slice());
        text.append(name.as_str());
        text.append("\nanswer=");
        let mut parts: Vec<String> = Vec::new();
        let mut i: usize = 0;
        while i < self.data.len()
            invariant
                i <= self.data@.len(),
                parts@.len() == i,
                forall|k: int| 0 <= k < i ==> (#[trigger] parts@[k])@ == decimal(self.data@[k]),
            decreases self.data@.len() - i,
        {
            parts.push(decimal_string(self.data[i]));
            i = i + 1;
        }
        assert(string_views(parts@) =~= Seq::new(
            self.data@.len(),
            |i: int| decimal(self.data@[i]),
        ));
        let joined = join_with_dots(&parts);
        text.append(joined.as_str());
        text
    }
}

} // verus!
