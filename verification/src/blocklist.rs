//! The blocklist: the set of names that get the sink answer, and the reader
//! of the hosts file that it is filled from.

use vstd::prelude::*;
use vstd::std_specs::iter::IteratorSpec;
use crate::hashing::{hash_bytes, hash_of, slot_index, slot_of};
use crate::packet::Question;
use crate::text::{domain_text, push_char, string_views};

verus! {

broadcast use vstd::string::group_string_axioms;

/// Whether `char::is_whitespace` holds of a character: whether Unicode gives
/// it the property White_Space.
pub uninterp spec fn is_space(c: char) -> bool;

/// Calls `char::is_whitespace`. The answer depends on the character alone.
#[verifier::external_body]
fn char_is_space(c: char) -> (b: bool)
    ensures
        b == is_space(c),
{
    c.is_whitespace()
}

/// The first index from `i` on that holds no whitespace; the length where
/// there is none.
pub open spec fn skip_spaces(s: Seq<char>, i: int) -> int
    decreases s.len() - i,
{
    if 0 <= i < s.len() && is_space(s[i]) {
        skip_spaces(s, i + 1)
    } else {
        i
    }
}

/// The first index from `i` on that holds whitespace; the length where there
/// is none.
pub open spec fn token_end(s: Seq<char>, i: int) -> int
    decreases s.len() - i,
{
    if 0 <= i < s.len() && !is_space(s[i]) {
        token_end(s, i + 1)
    } else {
        i
    }
}

/// The first index from `i` on that holds a line feed; the length where
/// there is none.
pub open spec fn line_end(s: Seq<char>, i: int) -> int
    decreases s.len() - i,
{
    if 0 <= i < s.len() && s[i] != '\n' {
        line_end(s, i + 1)
    } else {
        i
    }
}

/// The first run of characters of the line that holds no whitespace; empty
/// where the line holds nothing else.
pub open spec fn first_token(line: Seq<char>) -> Seq<char> {
    let from = skip_spaces(line, 0);
    line.subrange(from, token_end(line, from))
}

/// The second such run; empty where there is none.
pub open spec fn second_token(line: Seq<char>) -> Seq<char> {
    let from = skip_spaces(line, token_end(line, skip_spaces(line, 0)));
    line.subrange(from, token_end(line, from))
}

/// The address that marks a blocked name in a hosts file: `0.0.0.0`.
pub open spec fn sink_token() -> Seq<char> {
    seq!['0', '.', '0', '.', '0', '.', '0']
}

/// The name that a line of a hosts file contributes: its second token, where
/// its first token is the sink address. A line that is empty, holds only
/// whitespace or begins with `#` behind its leading whitespace has another
/// first token, or none, and contributes nothing.
pub open spec fn line_name(line: Seq<char>) -> Option<Seq<char>> {
    if first_token(line) == sink_token() && second_token(line).len() > 0 {
        Some(second_token(line))
    } else {
        None
    }
}

/// The names that the lines from index `i` on contribute, in order. Lines
/// end at a line feed.
pub open spec fn names_from(text: Seq<char>, i: int) -> Seq<Seq<char>>
    decreases text.len() - i,
    via names_from_decreases
{
    if i < 0 || i >= text.len() {
        Seq::empty()
    } else {
        let end = line_end(text, i);
        let rest = if end < text.len() {
            names_from(text, end + 1)
        } else {
            Seq::empty()
        };
        match line_name(text.subrange(i, end)) {
            Some(name) => seq![name] + rest,
            None => rest,
        }
    }
}

#[via_fn]
proof fn names_from_decreases(text: Seq<char>, i: int) {
    if 0 <= i < text.len() {
        lemma_line_end_bounds(text, i);
    }
}

/// The names that a hosts file contributes, in order, with repetitions.
pub open spec fn hosts_names(text: Seq<char>) -> Seq<Seq<char>> {
    names_from(text, 0)
}

/// A line ends at or behind its start, within the text.
pub proof fn lemma_line_end_bounds(s: Seq<char>, i: int)
    requires
        0 <= i <= s.len(),
    ensures
        i <= line_end(s, i) <= s.len(),
        line_end(s, i) < s.len() ==> s[line_end(s, i)] == '\n',
        forall|k: int| i <= k < line_end(s, i) ==> s[k] != '\n',
    decreases s.len() - i,
{
    if i < s.len() && s[i] != '\n' {
        lemma_line_end_bounds(s, i + 1);
    }
}

/// The characters of a string, in a vector.
fn chars_of(text: &str) -> (out: Vec<char>)
    ensures
        out@ == text@,
{
    let mut out: Vec<char> = Vec::new();
    let mut chars = text.chars();
    for c in iter: chars
        invariant
            out@ == iter.seq().take(iter.index() as int),
    {
        out.push(c);
        assert(out@ =~= iter.seq().take(iter.index() + 1));
    }
    out
}

fn find_non_space(line: &[char], from: usize) -> (at: usize)
    requires
        from <= line@.len(),
    ensures
        at == skip_spaces(line@, from as int),
        from <= at <= line@.len(),
{
    let mut i: usize = from;
    while i < line.len() && char_is_space(line[i])
        invariant
            from <= i <= line@.len(),
            skip_spaces(line@, from as int) == skip_spaces(line@, i as int),
        decreases line@.len() - i,
    {
        i = i + 1;
    }
    i
}

fn find_space(line: &[char], from: usize) -> (at: usize)
    requires
        from <= line@.len(),
    ensures
        at == token_end(line@, from as int),
        from <= at <= line@.len(),
{
    let mut i: usize = from;
    while i < line.len() && !char_is_space(line[i])
        invariant
            from <= i <= line@.len(),
            token_end(line@, from as int) == token_end(line@, i as int),
        decreases line@.len() - i,
    {
        i = i + 1;
    }
    i
}

fn find_line_end(text: &[char], from: usize) -> (at: usize)
    requires
        from <= text@.len(),
    ensures
        at == line_end(text@, from as int),
        from <= at <= text@.len(),
{
    let mut i: usize = from;
    while i < text.len() && text[i] != '\n'
        invariant
            from <= i <= text@.len(),
            line_end(text@, from as int) == line_end(text@, i as int),
        decreases text@.len() - i,
    {
        i = i + 1;
    }
    i
}

fn is_sink(token: &[char]) -> (b: bool)
    ensures
        b == (token@ == sink_token()),
{
    let b = token.len() == 7 && token[0] == '0' && token[1] == '.' && token[2] == '0' && token[3]
        == '.' && token[4] == '0' && token[5] == '.' && token[6] == '0';
    proof {
        if b {
            assert(token@ =~= sink_token());
        }
    }
    b
}

fn string_of(chars: &[char]) -> (text: String)
    ensures
        text@ == chars@,
{
    let mut text = String::new();
    let mut i: usize = 0;
    while i < chars.len()
        invariant
            i <= chars@.len(),
            text@ == chars@.take(i as int),
        decreases chars@.len() - i,
    {
        push_char(&mut text, chars[i]);
        i = i + 1;
        assert(text@ =~= chars@.take(i as int));
    }
    assert(chars@.take(i as int) =~= chars@);
    text
}

/// The name that one line of a hosts file contributes, if any.
pub fn name_of_line(line: &[char]) -> (name: Option<String>)
    ensures
        match line_name(line@) {
            Some(n) => name matches Some(s) && s@ == n,
            None => name is None,
        },
{
    let a = find_non_space(line, 0);
    let b = find_space(line, a);
    if !is_sink(&line[a..b]) {
        return None;
    }
    let c = find_non_space(line, b);
    let d = find_space(line, c);
    if d == c {
        return None;
    }
    Some(string_of(&line[c..d]))
}

/// Reads a hosts file: the names of its lines that begin with the sink
/// address, in order, with repetitions.
pub fn parse_hosts(body: &str) -> (names: Vec<String>)
    ensures
        string_views(names@) == hosts_names(body@),
{
    let text = chars_of(body);
    let mut names: Vec<String> = Vec::new();
    let mut pos: usize = 0;
    proof {
        assert(string_views(names@) =~= Seq::<Seq<char>>::empty());
        assert(Seq::<Seq<char>>::empty() + names_from(text@, 0) =~= names_from(text@, 0));
    }
    while pos < text.len()
        invariant
            text@ == body@,
            pos <= text@.len(),
            hosts_names(text@) == string_views(names@) + names_from(text@, pos as int),
        decreases text@.len() - pos,
    {
        let end = find_line_end(text.as_slice(), pos);
        let found = name_of_line(&text.as_slice()[pos..end]);
        let ghost done = string_views(names@);
        let ghost rest = if end < text@.len() {
            names_from(text@, end + 1)
        } else {
            Seq::<Seq<char>>::empty()
        };
        match found {
            Some(name) => {
                proof {
                    assert(string_views(names@.push(name)) =~= done + seq![name@]);
                    assert(done + (seq![name@] + rest) =~= (done + seq![name@]) + rest);
                }
                names.push(name);
            },
            None => {},
        }
        if end < text.len() {
            pos = end + 1;
        } else {
            pos = end;
        }
    }
    proof {
        assert(string_views(names@) + Seq::<Seq<char>>::empty() =~= string_views(names@));
    }
    names
}

/// The hash of a name: the hash of its bytes as text.
pub open spec fn name_hash(name: Seq<char>) -> u64 {
    hash_of(vstd::utf8::encode_utf8(name))
}

/// Computes the hash of a name.
pub fn hash_name(name: &String) -> (h: u64)
    ensures
        h == name_hash(name@),
{
    hash_bytes(name.as_str().as_bytes())
}

/// The set of blocked names: a table of slots, each a short list of names,
/// with a name in the slot that its hash falls in.
pub struct DNSBlocklist {
    slots: Vec<Vec<String>>,
    count: usize,
}

/// The names in the slot of `name`.
spec fn slot_names(slots: Seq<Vec<String>>, name: Seq<char>) -> Seq<Seq<char>> {
    string_views(slots[slot_of(name_hash(name), slots.len())]@)
}

/// The set that a table stands for: the names found in their own slot.
spec fn table_set(slots: Seq<Vec<String>>) -> Set<Seq<char>> {
    Set::new(|name: Seq<char>| slots.len() > 0 && slot_names(slots, name).contains(name))
}

impl View for DNSBlocklist {
    type V = Set<Seq<char>>;

    closed spec fn view(&self) -> Set<Seq<char>> {
        table_set(self.slots@)
    }
}

/// Whether the list of names holds the name.
fn holds_name(bucket: &Vec<String>, name: &String) -> (b: bool)
    ensures
        b == string_views(bucket@).contains(name@),
{
    let mut i: usize = 0;
    while i < bucket.len()
        invariant
            i <= bucket@.len(),
            forall|k: int| 0 <= k < i ==> (#[trigger] bucket@[k])@ != name@,
        decreases bucket@.len() - i,
    {
        if bucket[i] == *name {
            assert(string_views(bucket@)[i as int] == name@);
            return true;
        }
        i = i + 1;
    }
    proof {
        let views = string_views(bucket@);
        if views.contains(name@) {
            let k = choose|k: int| 0 <= k < views.len() && views[k] == name@;
            assert(bucket@[k]@ == name@);
        }
    }
    false
}

impl DNSBlocklist {
    /// Whether the table is in order: it has slots, and it knows how many
    /// names it holds.
    pub closed spec fn wf(&self) -> bool {
        &&& self.slots@.len() > 0
        &&& self@.finite()
        &&& self.count == self@.len()
    }

    /// A table of empty slots.
    fn with_slots(slots: usize) -> (list: Self)
        requires
            slots > 0,
        ensures
            list.wf(),
            list.slots@.len() == slots,
            list@ == Set::<Seq<char>>::empty(),
    {
        let mut table: Vec<Vec<String>> = Vec::new();
        let mut i: usize = 0;
        while i < slots
            invariant
                i <= slots,
                table@.len() == i,
                forall|s: int| 0 <= s < i ==> (#[trigger] table@[s])@.len() == 0,
            decreases slots - i,
        {
            table.push(Vec::new());
            i = i + 1;
        }
        let list = DNSBlocklist { slots: table, count: 0 };
        assert(list@ =~= Set::<Seq<char>>::empty());
        list
    }

    /// An empty blocklist.
    pub fn new() -> (list: Self)
        ensures
            list.wf(),
            list@ == Set::<Seq<char>>::empty(),
    {
        DNSBlocklist::with_slots(1)
    }

    /// Adds a name that the list does not hold.
    fn add(&mut self, name: String)
        requires
            old(self).wf(),
            !old(self)@.contains(name@),
            old(self).count < usize::MAX,
        ensures
            final(self).wf(),
            final(self).slots@.len() == old(self).slots@.len(),
            final(self).count == old(self).count + 1,
            final(self)@ == old(self)@.insert(name@),
    {
        let s = slot_index(hash_name(&name), self.slots.len());
        let ghost text = name@;
        let bucket = &mut self.slots[s];
        bucket.push(name);
        self.count = self.count + 1;
        proof {
            let before = old(self).slots@;
            let after = self.slots@;
            assert(string_views(after[s as int]@) =~= string_views(before[s as int]@).push(text));
            assert(table_set(after) =~= table_set(before).insert(text)) by {
                assert forall|other: Seq<char>| #[trigger]
                    table_set(after).contains(other) == table_set(before).insert(text).contains(
                        other,
                    ) by {
                    let k = slot_of(name_hash(other), after.len());
                    if k != s {
                        assert(after[k] == before[k]);
                    } else {
                        let was = string_views(before[s as int]@);
                        let is = string_views(after[s as int]@);
                        if was.contains(other) {
                            let j = choose|j: int| 0 <= j < was.len() && was[j] == other;
                            assert(is[j] == other);
                        }
                        if other == text {
                            assert(is[was.len() as int] == text);
                        }
                        if is.contains(other) && other != text {
                            let j = choose|j: int| 0 <= j < is.len() && is[j] == other;
                            assert(was[j] == other);
                        }
                    }
                }
            }
        }
    }

    /// The blocklist that a hosts file gives.
    pub fn from_hosts(body: &str) -> (list: Self)
        ensures
            list.wf(),
            list@ == hosts_names(body@).to_set(),
    {
        let parsed = parse_hosts(body);
        let slots: usize = if parsed.len() == 0 {
            1
        } else {
            parsed.len()
        };
        let mut list = DNSBlocklist::with_slots(slots);
        let ghost all = string_views(parsed@);
        let mut i: usize = 0;
        assert(all.take(0) =~= Seq::<Seq<char>>::empty());
        assert(all.take(0).to_set() =~= Set::<Seq<char>>::empty());
        while i < parsed.len()
            invariant
                i <= parsed@.len(),
                all == string_views(parsed@),
                list.wf(),
                list.count <= i,
                list@ == all.take(i as int).to_set(),
            decreases parsed@.len() - i,
        {
            proof {
                assert(all.take(i + 1) =~= all.take(i as int).push(parsed@[i as int]@));
                all.take(i as int).lemma_push_to_set_commute(parsed@[i as int]@);
            }
            if !list.contains_name(&parsed[i]) {
                list.add(parsed[i].clone());
            } else {
                assert(list@.insert(parsed@[i as int]@) =~= list@);
            }
            i = i + 1;
        }
        assert(all.take(i as int) =~= all);
        list
    }

    /// Puts the names of a hosts file in the place of the names held: the new
    /// set is built in full before it takes the place of the old one.
    pub fn update(&mut self, body: &str)
        ensures
            final(self).wf(),
            final(self)@ == hosts_names(body@).to_set(),
    {
        let fresh = DNSBlocklist::from_hosts(body);
        *self = fresh;
    }

    /// Whether the name, in its readable form, is blocked.
    pub fn contains_name(&self, name: &String) -> (b: bool)
        ensures
            b == self@.contains(name@),
    {
        if self.slots.len() == 0 {
            return false;
        }
        let s = slot_index(hash_name(name), self.slots.len());
        holds_name(&self.slots[s], name)
    }

    /// Whether the question's name, in its readable form, is blocked.
    pub fn contains(&self, q: &Question) -> (b: bool)
        ensures
            b == self@.contains(domain_text(q.name@)),
    {
        let name = q.domain();
        self.contains_name(&name)
    }

    /// How many names are blocked.
    pub fn len(&self) -> (n: usize)
        requires
            self.wf(),
        ensures
            self@.finite(),
            n == self@.len(),
    {
        self.count
    }
}

} // verus!
