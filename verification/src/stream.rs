//! The byte stream of a connection, cut into messages.
//!
//! Chunks arrive cut at any byte. The bytes of a character that is not complete yet
//! wait for the next chunk, and so does the text behind the last blank line.

use vstd::prelude::*;
use vstd::string::StringExecFns;
use vstd::utf8::{decode_utf8, valid_utf8};
use crate::keywords::string_views;
use crate::text::{chars_of, cut, string_of, views};

verus! {

/// Whether `k` is the largest index up to which `bytes` is valid UTF-8.
pub open spec fn is_valid_up_to(bytes: Seq<u8>, k: int) -> bool {
    &&& 0 <= k <= bytes.len()
    &&& valid_utf8(bytes.take(k))
    &&& forall|j: int| k < j <= bytes.len() ==> !valid_utf8(#[trigger] bytes.take(j))
}

/// The largest index up to which `bytes` is valid UTF-8.
pub open spec fn valid_up_to(bytes: Seq<u8>) -> int {
    choose|k: int| is_valid_up_to(bytes, k)
}

/// Decodes `bytes`, or says up to where they are valid.
///
/// `String::from_utf8` gives the text that the bytes encode if they are valid UTF-8,
/// and else an error. `Utf8Error::valid_up_to` of that error is the largest index up
/// to which the bytes are valid.
#[verifier::external_body]
fn from_utf8(bytes: Vec<u8>) -> (result: Result<String, usize>)
    ensures
        match result {
            Ok(text) => valid_utf8(bytes@) && text@ == decode_utf8(bytes@),
            Err(k) => !valid_utf8(bytes@) && is_valid_up_to(bytes@, k as int),
        },
{
    match String::from_utf8(bytes) {
        Ok(text) => Ok(text),
        Err(error) => Err(error.utf8_error().valid_up_to()),
    }
}

/// Whether a blank line ends at the index `i` of `s`: two line feeds in a row.
pub open spec fn break_at(s: Seq<char>, i: int) -> bool {
    0 <= i && i + 1 < s.len() && s[i] == '\n' && s[i + 1] == '\n'
}

/// The first index from `i` on at which a blank line ends, or the length of `s`.
pub open spec fn first_break_from(s: Seq<char>, i: int) -> int
    decreases s.len() - i,
{
    if i + 1 >= s.len() {
        s.len() as int
    } else if break_at(s, i) {
        i
    } else {
        first_break_from(s, i + 1)
    }
}

/// The first index at which a blank line ends, or the length of `s`.
pub open spec fn first_break(s: Seq<char>) -> int {
    first_break_from(s, 0)
}

/// The blocks of `s`: cut at the first blank line, then in the same way behind it.
pub open spec fn blocks(s: Seq<char>) -> Seq<Seq<char>>
    decreases s.len(),
{
    let b = first_break(s);
    if 0 <= b < s.len() - 1 {
        seq![s.take(b)] + blocks(s.skip(b + 2))
    } else {
        seq![s]
    }
}

/// What `first_break_from` finds.
pub proof fn lemma_first_break_from(s: Seq<char>, i: int)
    requires
        0 <= i <= s.len(),
    ensures
        i <= first_break_from(s, i) <= s.len(),
        first_break_from(s, i) < s.len() ==> break_at(s, first_break_from(s, i)),
        forall|j: int| i <= j < first_break_from(s, i) ==> !#[trigger] break_at(s, j),
    decreases s.len() - i,
{
    if i + 1 < s.len() && !break_at(s, i) {
        lemma_first_break_from(s, i + 1);
    }
}

/// A break with none before it is the first.
pub proof fn lemma_first_break_is(s: Seq<char>, b: int)
    requires
        break_at(s, b),
        forall|j: int| 0 <= j < b ==> !#[trigger] break_at(s, j),
    ensures
        first_break(s) == b,
{
    lemma_first_break_from(s, 0);
    let f = first_break(s);
    if f < b {
        assert(!break_at(s, f));
    }
    if b < f {
        assert(!break_at(s, b));
    }
}

/// A text without a blank line is one block.
pub proof fn lemma_one_block(s: Seq<char>)
    requires
        forall|j: int| 0 <= j < s.len() ==> !#[trigger] break_at(s, j),
    ensures
        blocks(s) == seq![s],
{
    lemma_first_break_from(s, 0);
}

/// Cuts `chars` at its blank lines.
fn split_blocks(chars: &Vec<char>) -> (parts: Vec<Vec<char>>)
    ensures
        views(parts@) == blocks(chars@),
{
    let n = chars.len();
    let mut parts: Vec<Vec<char>> = Vec::new();
    let mut start: usize = 0;
    let mut i: usize = 0;
    assert(chars@.skip(0) =~= chars@);
    assert(views(parts@) + blocks(chars@) =~= blocks(chars@));
    while i < n
        invariant
            start <= i <= n == chars.len(),
            blocks(chars@) == views(parts@) + blocks(chars@.skip(start as int)),
            forall|j: int| start <= j < i ==> !#[trigger] break_at(chars@, j),
        decreases n - i,
    {
        let ghost rest = chars@.skip(start as int);
        if n - i > 1 && chars[i] == '\n' && chars[i + 1] == '\n' {
            let part = cut(chars, start, i);
            proof {
                let b = i - start;
                assert forall|j: int| 0 <= j < b implies !#[trigger] break_at(rest, j) by {
                    assert(!break_at(chars@, start + j));
                }
                assert(break_at(rest, b));
                lemma_first_break_is(rest, b);
                assert(rest.take(b) =~= part@);
                assert(rest.skip(b + 2) =~= chars@.skip(i + 2));
                assert(views(parts@.push(part)) =~= views(parts@).push(part@));
                assert(views(parts@.push(part)) + blocks(chars@.skip(i + 2)) =~= views(parts@)
                    + blocks(rest));
            }
            parts.push(part);
            i = i + 2;
            start = i;
        } else {
            i = i + 1;
        }
    }
    let last = cut(chars, start, n);
    proof {
        let rest = chars@.skip(start as int);
        assert(last@ =~= rest);
        assert forall|j: int| 0 <= j < rest.len() implies !#[trigger] break_at(rest, j) by {
            assert(!break_at(chars@, start + j));
        }
        lemma_one_block(rest);
        assert(views(parts@.push(last)) =~= views(parts@) + seq![last@]);
    }
    parts.push(last);
    parts
}

/// What waits for the next chunk.
pub struct StreamBuffer {
    buffer: String,
    incomplete_utf8: Vec<u8>,
}

/// What waits for the next chunk: the text behind the last blank line, and the bytes
/// behind it that do not make up a character yet.
#[verifier::ext_equal]
pub struct Waiting {
    pub text: Seq<char>,
    pub bytes: Seq<u8>,
}

impl View for StreamBuffer {
    type V = Waiting;

    closed spec fn view(&self) -> Waiting {
        Waiting { text: self.buffer@, bytes: self.incomplete_utf8@ }
    }
}

/// Nothing waits.
pub open spec fn nothing() -> Waiting {
    Waiting { text: Seq::empty(), bytes: Seq::empty() }
}

/// The blocks that are complete and not empty.
pub open spec fn complete_blocks(parts: Seq<Seq<char>>) -> Seq<Seq<char>> {
    parts.drop_last().filter(|part: Seq<char>| part.len() > 0)
}

/// The arrival of `chunk`: what waits afterwards, and the messages that it completes.
pub open spec fn fed(waiting: Waiting, chunk: Seq<u8>) -> (Waiting, Seq<Seq<char>>) {
    let bytes = waiting.bytes + chunk;
    let k = valid_up_to(bytes);
    let parts = blocks(waiting.text + decode_utf8(bytes.take(k)));
    (Waiting { text: parts.last(), bytes: bytes.skip(k) }, complete_blocks(parts))
}

/// There is exactly one index up to which bytes are valid.
pub proof fn lemma_valid_up_to(bytes: Seq<u8>, k: int)
    requires
        is_valid_up_to(bytes, k),
    ensures
        valid_up_to(bytes) == k,
{
    let v = valid_up_to(bytes);
    assert(is_valid_up_to(bytes, v));
    if v < k {
        assert(!valid_utf8(bytes.take(k)));
    }
    if k < v {
        assert(!valid_utf8(bytes.take(v)));
    }
}

/// Valid bytes are valid up to their end.
proof fn lemma_all_valid(bytes: Seq<u8>)
    requires
        valid_utf8(bytes),
    ensures
        valid_up_to(bytes) == bytes.len(),
{
    assert(bytes.take(bytes.len() as int) =~= bytes);
    lemma_valid_up_to(bytes, bytes.len() as int);
}

/// A text has at least one block.
pub proof fn lemma_blocks_nonempty(s: Seq<char>)
    ensures
        blocks(s).len() > 0,
{
}

impl StreamBuffer {
    /// The buffer of a new connection: nothing waits.
    pub fn new() -> (buffer: StreamBuffer)
        ensures
            buffer@ == nothing(),
    {
        StreamBuffer { buffer: String::new(), incomplete_utf8: Vec::new() }
    }

    /// Decodes the bytes that wait and `chunk`, as far as they are valid, and appends
    /// the text to what waits.
    fn decode(&mut self, chunk: &[u8])
        ensures
            ({
                let bytes = old(self)@.bytes + chunk@;
                let k = valid_up_to(bytes);
                &&& final(self)@.text == old(self)@.text + decode_utf8(bytes.take(k))
                &&& final(self)@.bytes == bytes.skip(k)
            }),
    {
        let mut bytes: Vec<u8> = Vec::new();
        bytes.extend_from_slice(self.incomplete_utf8.as_slice());
        bytes.extend_from_slice(chunk);
        let ghost all = self@.bytes + chunk@;
        assert(bytes@ =~= all);
        match from_utf8(bytes.clone()) {
            Ok(text) => {
                proof {
                    lemma_all_valid(all);
                    assert(all.take(all.len() as int) =~= all);
                }
                self.buffer.append(text.as_str());
                self.incomplete_utf8 = Vec::new();
                assert(self.incomplete_utf8@ =~= all.skip(all.len() as int));
            },
            Err(k) => {
                proof {
                    lemma_valid_up_to(all, k as int);
                }
                let rest = bytes.split_off(k);
                assert(bytes@ =~= all.take(k as int));
                assert(rest@ =~= all.skip(k as int));
                if let Ok(text) = from_utf8(bytes) {
                    self.buffer.append(text.as_str());
                }
                self.incomplete_utf8 = rest;
            },
        }
    }

    /// How many bytes wait for the rest of their character.
    pub fn incomplete_bytes(&self) -> (count: usize)
        ensures
            count == self@.bytes.len(),
    {
        self.incomplete_utf8.len()
    }

    /// Takes in a chunk of the stream and hands out the messages that it completes, in
    /// order. A message ends at a blank line; empty messages are left out.
    pub fn feed(&mut self, chunk: &[u8]) -> (messages: Vec<String>)
        ensures
            (final(self)@, string_views(messages@)) == fed(old(self)@, chunk@),
    {
        self.decode(chunk);
        let parts = split_blocks(&chars_of(self.buffer.as_str()));
        let ghost every = views(parts@);
        let ghost filled = |part: Seq<char>| part.len() > 0;
        proof {
            lemma_blocks_nonempty(self.buffer@);
            assert(every.len() == parts@.len());
        }
        let n = parts.len() - 1;
        let mut messages: Vec<String> = Vec::new();
        assert(string_views(messages@) =~= every.take(0).filter(filled)) by {
            reveal(Seq::filter);
        }
        for i in 0..n
            invariant
                n == parts.len() - 1,
                every == views(parts@),
                filled == (|part: Seq<char>| part.len() > 0),
                string_views(messages@) == every.take(i as int).filter(filled),
        {
            let part = &parts[i];
            assert(every[i as int] == part@);
            assert(every.take(i + 1).drop_last() =~= every.take(i as int));
            reveal(Seq::filter);
            if part.len() > 0 {
                let message = string_of(part);
                assert(string_views(messages@.push(message)) =~= string_views(messages@).push(
                    message@,
                ));
                messages.push(message);
            }
        }
        assert(every.take(n as int) =~= every.drop_last());
        assert(every.last() == parts@[n as int]@);
        self.buffer = string_of(&parts[n]);
        messages
    }
}

} // verus!
