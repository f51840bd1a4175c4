//! What the stream buffer promises for every stream and every way to cut it.

use vstd::prelude::*;
use vstd::utf8::{
    decode_utf8, decode_utf8_encode_utf8, encode_utf8, encode_utf8_decode_utf8,
    encode_utf8_valid_utf8, partial_valid_partial_invalid_utf8, pop_first_scalar, valid_utf8,
    valid_utf8_concat,
};
use crate::sse::{
    data_of, event_of, is_event_with, is_parse_of, law_written_message_is_read_back,
    written_message, ServerSentEvent, SseError,
};
use crate::stream::{
    blocks, break_at, complete_blocks, fed, first_break, is_valid_up_to, lemma_blocks_nonempty,
    lemma_first_break_from, lemma_first_break_is, lemma_one_block, lemma_valid_up_to, nothing,
    valid_up_to, Waiting,
};
use crate::text::{lines_of, trimmed};

verus! {

/// Some index up to `k` is the largest up to which `bytes` is valid, if none beyond is.
proof fn lemma_search_valid(bytes: Seq<u8>, k: int)
    requires
        0 <= k <= bytes.len(),
        forall|j: int| k < j <= bytes.len() ==> !valid_utf8(#[trigger] bytes.take(j)),
    ensures
        exists|v: int| is_valid_up_to(bytes, v),
    decreases k,
{
    if valid_utf8(bytes.take(k)) {
        assert(is_valid_up_to(bytes, k));
    } else {
        if k == 0 {
            assert(bytes.take(0).len() == 0);
        } else {
            lemma_search_valid(bytes, k - 1);
        }
    }
}

/// Bytes are valid up to the index that is named so.
proof fn lemma_valid_up_to_holds(bytes: Seq<u8>)
    ensures
        is_valid_up_to(bytes, valid_up_to(bytes)),
{
    lemma_search_valid(bytes, bytes.len() as int);
}

/// Decoding two valid stretches one after the other decodes them together.
proof fn lemma_decode_concat(a: Seq<u8>, b: Seq<u8>)
    requires
        valid_utf8(a),
        valid_utf8(b),
    ensures
        valid_utf8(a + b),
        decode_utf8(a + b) == decode_utf8(a) + decode_utf8(b),
    decreases a.len(),
{
    valid_utf8_concat(a, b);
    if a.len() == 0 {
        assert(a + b =~= b);
        assert(decode_utf8(a) + decode_utf8(b) =~= decode_utf8(b));
    } else {
        let rest = pop_first_scalar(a);
        assert(pop_first_scalar(a + b) =~= rest + b);
        lemma_decode_concat(rest, b);
        assert(decode_utf8(a + b) =~= decode_utf8(a) + decode_utf8(b));
    }
}

/// What is decoded of `x` now and of the rest with `c` later is what is decoded of
/// both together.
proof fn lemma_decode_in_two_steps(x: Seq<u8>, c: Seq<u8>)
    ensures
        ({
            let k = valid_up_to(x);
            let y = x.skip(k) + c;
            let m = valid_up_to(y);
            &&& decode_utf8((x + c).take(valid_up_to(x + c))) == decode_utf8(x.take(k))
                + decode_utf8(y.take(m))
            &&& (x + c).skip(valid_up_to(x + c)) == y.skip(m)
        }),
{
    let k = valid_up_to(x);
    let y = x.skip(k) + c;
    let m = valid_up_to(y);
    let whole = x + c;
    lemma_valid_up_to_holds(x);
    lemma_valid_up_to_holds(y);
    lemma_decode_concat(x.take(k), y.take(m));
    assert(whole.take(k + m) =~= x.take(k) + y.take(m));
    assert forall|j: int| k + m < j <= whole.len() implies !valid_utf8(
        #[trigger] whole.take(j),
    ) by {
        let front = whole.take(j);
        assert(front.subrange(0, k) =~= x.take(k));
        assert(front.subrange(k, j) =~= y.take(j - k));
        assert(!valid_utf8(y.take(j - k)));
        partial_valid_partial_invalid_utf8(front, k);
    }
    lemma_valid_up_to(whole, k + m);
    assert(whole.skip(k + m) =~= y.skip(m));
}

/// Cutting a longer text into blocks: the complete blocks stay, and the last one is
/// cut together with what follows.
proof fn lemma_blocks_of_longer(a: Seq<char>, b: Seq<char>)
    ensures
        blocks(a + b) == blocks(a).drop_last() + blocks(blocks(a).last() + b),
    decreases a.len(),
{
    let f = first_break(a);
    lemma_first_break_from(a, 0);
    if f < a.len() {
        assert(break_at(a, f));
        let whole = a + b;
        assert forall|j: int| 0 <= j < f implies !#[trigger] break_at(whole, j) by {
            assert(!break_at(a, j));
        }
        assert(break_at(whole, f));
        lemma_first_break_is(whole, f);
        let rest = a.skip(f + 2);
        assert(whole.skip(f + 2) =~= rest + b);
        assert(whole.take(f) =~= a.take(f));
        lemma_blocks_of_longer(rest, b);
        lemma_blocks_nonempty(rest);
        assert(blocks(a).last() == blocks(rest).last());
        assert(blocks(a).drop_last() =~= seq![a.take(f)] + blocks(rest).drop_last());
        assert(blocks(whole) =~= blocks(a).drop_last() + blocks(blocks(a).last() + b));
    } else {
        assert(blocks(a) =~= seq![a]);
        assert(blocks(a).drop_last() + blocks(a + b) =~= blocks(a + b));
    }
}

/// Complete blocks of one part of a text and then of the other.
proof fn lemma_complete_blocks_concat(a: Seq<Seq<char>>, b: Seq<Seq<char>>)
    requires
        b.len() > 0,
    ensures
        complete_blocks(a + b) == a.filter(|part: Seq<char>| part.len() > 0) + complete_blocks(b),
{
    let filled = |part: Seq<char>| part.len() > 0;
    assert((a + b).drop_last() =~= a + b.drop_last());
    Seq::filter_distributes_over_add(a, b.drop_last(), filled);
}

/// Two chunks one after the other complete the same messages, and leave the same
/// waiting, as one chunk with the bytes of both.
pub proof fn law_two_chunks_are_as_one(waiting: Waiting, a: Seq<u8>, b: Seq<u8>)
    ensures
        fed(waiting, a + b).0 == fed(fed(waiting, a).0, b).0,
        fed(waiting, a + b).1 == fed(waiting, a).1 + fed(fed(waiting, a).0, b).1,
{
    let x = waiting.bytes + a;
    assert(waiting.bytes + (a + b) =~= x + b);
    lemma_decode_in_two_steps(x, b);
    let k = valid_up_to(x);
    let first = decode_utf8(x.take(k));
    let y = x.skip(k) + b;
    let second = decode_utf8(y.take(valid_up_to(y)));
    assert(waiting.text + (first + second) =~= (waiting.text + first) + second);
    lemma_blocks_of_longer(waiting.text + first, second);
    let parts = blocks(waiting.text + first);
    let later = blocks(parts.last() + second);
    lemma_blocks_nonempty(parts.last() + second);
    lemma_complete_blocks_concat(parts.drop_last(), later);
    assert((parts.drop_last() + later).last() == later.last());
}

/// The bytes of all chunks.
pub open spec fn joined(chunks: Seq<Seq<u8>>) -> Seq<u8>
    decreases chunks.len(),
{
    if chunks.len() == 0 {
        Seq::empty()
    } else {
        joined(chunks.drop_last()) + chunks.last()
    }
}

/// The arrival of all chunks on a new connection: what waits afterwards, and all
/// messages.
pub open spec fn fed_all(chunks: Seq<Seq<u8>>) -> (Waiting, Seq<Seq<char>>)
    decreases chunks.len(),
{
    if chunks.len() == 0 {
        (nothing(), Seq::empty())
    } else {
        let before = fed_all(chunks.drop_last());
        let last = fed(before.0, chunks.last());
        (last.0, before.1 + last.1)
    }
}

/// The messages of a connection do not depend on how its bytes are cut into chunks.
pub proof fn law_chunking_does_not_matter(chunks: Seq<Seq<u8>>)
    ensures
        fed_all(chunks) == fed(nothing(), joined(chunks)),
    decreases chunks.len(),
{
    let none = Seq::<u8>::empty();
    if chunks.len() == 0 {
        assert(nothing().bytes + none =~= none);
        assert(none.take(0) =~= none);
        assert(none.skip(0) =~= none);
        assert(valid_utf8(none));
        lemma_valid_up_to(none, 0);
        assert(decode_utf8(none) =~= Seq::<char>::empty());
        let text = nothing().text + decode_utf8(none);
        assert(text =~= Seq::<char>::empty());
        lemma_one_block(text);
        assert(blocks(text).drop_last() =~= Seq::<Seq<char>>::empty());
        reveal(Seq::filter);
        assert(complete_blocks(blocks(text)) =~= Seq::<Seq<char>>::empty());
    } else {
        law_chunking_does_not_matter(chunks.drop_last());
        law_two_chunks_are_as_one(nothing(), joined(chunks.drop_last()), chunks.last());
    }
}

/// A text that is sent as UTF-8 is cut into its blocks as it was written, even if a
/// chunk ends inside a character: no byte waits at the end.
pub proof fn law_sent_text_is_read(text: Seq<char>, chunks: Seq<Seq<u8>>)
    requires
        joined(chunks) == encode_utf8(text),
    ensures
        fed_all(chunks).0 == (Waiting { text: blocks(text).last(), bytes: Seq::empty() }),
        fed_all(chunks).1 == complete_blocks(blocks(text)),
{
    let bytes = encode_utf8(text);
    law_chunking_does_not_matter(chunks);
    encode_utf8_valid_utf8(text);
    encode_utf8_decode_utf8(text);
    assert(nothing().bytes + bytes =~= bytes);
    assert(bytes.take(bytes.len() as int) =~= bytes);
    lemma_valid_up_to(bytes, bytes.len() as int);
    assert(nothing().text + text =~= text);
    assert(bytes.skip(bytes.len() as int) =~= Seq::<u8>::empty());
}

/// The text of messages that are sent one after the other, each with a blank line
/// behind it.
pub open spec fn written(messages: Seq<Seq<char>>) -> Seq<char>
    decreases messages.len(),
{
    if messages.len() == 0 {
        Seq::empty()
    } else {
        messages.first() + seq!['\n', '\n'] + written(messages.drop_first())
    }
}

/// Whether a message can be sent: it is not empty, holds no blank line and does not
/// end in a line feed.
pub open spec fn is_sendable(message: Seq<char>) -> bool {
    &&& message.len() > 0
    &&& message.last() != '\n'
    &&& forall|j: int| 0 <= j < message.len() ==> !#[trigger] break_at(message, j)
}

/// The blocks of written messages are the messages, and an empty rest.
proof fn lemma_blocks_of_written(messages: Seq<Seq<char>>)
    requires
        forall|i: int| 0 <= i < messages.len() ==> is_sendable(#[trigger] messages[i]),
    ensures
        blocks(written(messages)) == messages.push(Seq::empty()),
    decreases messages.len(),
{
    let text = written(messages);
    if messages.len() == 0 {
        lemma_one_block(text);
        assert(blocks(text) =~= messages.push(Seq::empty()));
    } else {
        let message = messages[0];
        let others = messages.drop_first();
        let b = message.len() as int;
        assert(is_sendable(message));
        assert(break_at(text, b));
        assert forall|j: int| 0 <= j < b implies !#[trigger] break_at(text, j) by {
            assert(!break_at(message, j));
            assert(text[j] == message[j]);
            if j + 1 < b {
                assert(text[j + 1] == message[j + 1]);
            }
        }
        lemma_first_break_is(text, b);
        assert(text.take(b) =~= message);
        assert(text.skip(b + 2) =~= written(others));
        assert forall|i: int| 0 <= i < others.len() implies is_sendable(#[trigger] others[i]) by {
            assert(is_sendable(messages[i + 1]));
        }
        lemma_blocks_of_written(others);
        assert(blocks(text) =~= messages.push(Seq::empty()));
    }
}

/// Filled parts are all kept.
proof fn lemma_all_filled(parts: Seq<Seq<char>>)
    requires
        forall|i: int| 0 <= i < parts.len() ==> (#[trigger] parts[i]).len() > 0,
    ensures
        parts.filter(|part: Seq<char>| part.len() > 0) == parts,
    decreases parts.len(),
{
    reveal(Seq::filter);
    if parts.len() > 0 {
        assert(parts[parts.len() - 1].len() > 0);
        assert forall|i: int| 0 <= i < parts.drop_last().len() implies (
        #[trigger] parts.drop_last()[i]).len() > 0 by {
            assert(parts[i].len() > 0);
        }
        lemma_all_filled(parts.drop_last());
        assert(parts.drop_last().push(parts.last()) =~= parts);
    }
}

/// Messages that are sent are received: the same ones, in the same order, however
/// the stream is cut into chunks, and nothing waits behind them.
pub proof fn law_sent_messages_are_received(messages: Seq<Seq<char>>, chunks: Seq<Seq<u8>>)
    requires
        forall|i: int| 0 <= i < messages.len() ==> is_sendable(#[trigger] messages[i]),
        joined(chunks) == encode_utf8(written(messages)),
    ensures
        fed_all(chunks) == (nothing(), messages),
{
    law_sent_text_is_read(written(messages), chunks);
    lemma_blocks_of_written(messages);
    assert(messages.push(Seq::empty()).drop_last() =~= messages);
    assert forall|i: int| 0 <= i < messages.len() implies (#[trigger] messages[i]).len() > 0 by {
        assert(is_sendable(messages[i]));
    }
    lemma_all_filled(messages);
}

/// Whether an event of this type and with this data can be sent: the type is not
/// empty, and neither holds a line feed nor has whitespace around it.
pub open spec fn is_event(event: Seq<char>, data: Seq<char>) -> bool {
    &&& event.len() > 0
    &&& trimmed(event) == event
    &&& trimmed(data) == data
    &&& !event.contains('\n')
    &&& !data.contains('\n')
}

/// A written event holds one line feed, and not at its end.
proof fn lemma_event_is_sendable(event: Seq<char>, data: Seq<char>)
    requires
        is_event(event, data),
    ensures
        is_sendable(written_message(event, data)),
{
    reveal_strlit("event: ");
    reveal_strlit("data: ");
    let message = written_message(event, data);
    let n = event.len() as int;
    assert forall|j: int| 0 <= j < message.len() && message[j] == '\n' implies j == n + 7 by {
        if 7 <= j < n + 7 {
            assert(message[j] == event[j - 7]);
            assert(event.contains(event[j - 7]));
        }
        if n + 14 <= j {
            assert(message[j] == data[j - n - 14]);
            assert(data.contains(data[j - n - 14]));
        }
    }
}

/// Events that are sent, each as an event line and a data line, are received and
/// parsed as they were sent, in order, however the stream is cut into chunks.
pub proof fn law_sent_events_are_parsed(
    events: Seq<(Seq<char>, Seq<char>)>,
    chunks: Seq<Seq<u8>>,
    i: int,
)
    requires
        forall|k: int|
            0 <= k < events.len() ==> is_event((#[trigger] events[k]).0, events[k].1),
        joined(chunks) == encode_utf8(
            written(events.map_values(|e: (Seq<char>, Seq<char>)| written_message(e.0, e.1))),
        ),
        0 <= i < events.len(),
    ensures
        fed_all(chunks).1.len() == events.len(),
        event_of(lines_of(fed_all(chunks).1[i])) == events[i].0,
        data_of(lines_of(fed_all(chunks).1[i])) == (if events[i].1.len() == 0 {
            "{}"@
        } else {
            events[i].1
        }),
        forall|result: Result<ServerSentEvent, SseError>| #[trigger]
            is_parse_of(lines_of(fed_all(chunks).1[i]), result) <==> is_event_with(
                result,
                events[i].0,
                events[i].1,
            ),
{
    let messages = events.map_values(|e: (Seq<char>, Seq<char>)| written_message(e.0, e.1));
    assert forall|k: int| 0 <= k < messages.len() implies is_sendable(#[trigger] messages[k]) by {
        lemma_event_is_sendable(events[k].0, events[k].1);
    }
    law_sent_messages_are_received(messages, chunks);
    assert(is_event(events[i].0, events[i].1));
    law_written_message_is_read_back(events[i].0, events[i].1);
}

/// The text that the blocks were cut from.
pub open spec fn rejoined(parts: Seq<Seq<char>>) -> Seq<char>
    decreases parts.len(),
{
    if parts.len() <= 1 {
        parts.first()
    } else {
        parts.first() + seq!['\n', '\n'] + rejoined(parts.drop_first())
    }
}

/// Cutting into blocks loses nothing but the blank lines between them, no block holds a
/// blank line, and no block but the last ends in a line feed.
pub proof fn law_blocks_lose_nothing(text: Seq<char>)
    ensures
        blocks(text).len() > 0,
        forall|i: int|
            0 <= i < blocks(text).len() - 1 && (#[trigger] blocks(text)[i]).len() > 0
                ==> blocks(text)[i].last() != '\n',
        rejoined(blocks(text)) == text,
        forall|i: int, j: int|
            0 <= i < blocks(text).len() ==> !#[trigger] break_at(blocks(text)[i], j),
    decreases text.len(),
{
    let f = first_break(text);
    let parts = blocks(text);
    lemma_first_break_from(text, 0);
    if f < text.len() {
        assert(break_at(text, f));
        let rest = text.skip(f + 2);
        law_blocks_lose_nothing(rest);
        lemma_blocks_nonempty(rest);
        assert(parts.drop_first() =~= blocks(rest));
        assert(rejoined(parts) =~= text);
        assert forall|i: int| 0 <= i < parts.len() - 1 && (#[trigger] parts[i]).len()
            > 0 implies parts[i].last() != '\n' by {
            if i == 0 {
                assert(!break_at(text, f - 1));
            } else {
                assert(parts[i] == blocks(rest)[i - 1]);
            }
        }
        assert forall|i: int, j: int| 0 <= i < parts.len() implies !#[trigger] break_at(
            parts[i],
            j,
        ) by {
            if i == 0 {
                if 0 <= j < f {
                    assert(!break_at(text, j));
                }
            } else {
                assert(parts[i] == blocks(rest)[i - 1]);
                assert(!break_at(blocks(rest)[i - 1], j));
            }
        }
    } else {
        assert(parts =~= seq![text]);
        assert forall|i: int, j: int| 0 <= i < parts.len() implies !#[trigger] break_at(
            parts[i],
            j,
        ) by {
            if 0 <= j < text.len() {
                assert(!break_at(text, j));
            }
        }
    }
}

/// No byte is lost: what is decoded of a chunk and the bytes that wait, and what
/// waits after it, are the bytes that waited and the chunk. What waits does not begin
/// with a complete character.
pub proof fn law_no_byte_is_lost(waiting: Waiting, chunk: Seq<u8>)
    ensures
        ({
            let bytes = waiting.bytes + chunk;
            let left = fed(waiting, chunk).0.bytes;
            &&& encode_utf8(decode_utf8(bytes.take(valid_up_to(bytes)))) + left == bytes
            &&& valid_up_to(left) == 0
        }),
{
    let bytes = waiting.bytes + chunk;
    let k = valid_up_to(bytes);
    lemma_valid_up_to_holds(bytes);
    decode_utf8_encode_utf8(bytes.take(k));
    assert(bytes.take(k) + bytes.skip(k) =~= bytes);
    let left = bytes.skip(k);
    assert(left.take(0).len() == 0);
    assert forall|j: int| 0 < j <= left.len() implies !valid_utf8(#[trigger] left.take(j)) by {
        if valid_utf8(left.take(j)) {
            valid_utf8_concat(bytes.take(k), left.take(j));
            assert(bytes.take(k) + left.take(j) =~= bytes.take(k + j));
            assert(!valid_utf8(bytes.take(k + j)));
        }
    }
    lemma_valid_up_to(left, 0);
}

/// After each chunk, no blank line waits, and each message handed out is filled and
/// holds no blank line.
pub proof fn law_messages_are_whole(waiting: Waiting, chunk: Seq<u8>)
    ensures
        forall|j: int| !#[trigger] break_at(fed(waiting, chunk).0.text, j),
        forall|i: int|
            0 <= i < fed(waiting, chunk).1.len() ==> (#[trigger] fed(waiting, chunk).1[i]).len()
                > 0,
        forall|i: int, j: int|
            0 <= i < fed(waiting, chunk).1.len() ==> !#[trigger] break_at(
                fed(waiting, chunk).1[i],
                j,
            ),
{
    let bytes = waiting.bytes + chunk;
    let text = waiting.text + decode_utf8(bytes.take(valid_up_to(bytes)));
    let parts = blocks(text);
    let filled = |part: Seq<char>| part.len() > 0;
    law_blocks_lose_nothing(text);
    lemma_blocks_nonempty(text);
    let messages = complete_blocks(parts);
    assert forall|j: int| !#[trigger] break_at(parts.last(), j) by {
        assert(!break_at(parts[parts.len() - 1], j));
    }
    assert forall|i: int| 0 <= i < messages.len() implies (#[trigger] messages[i]).len() > 0 by {
        parts.drop_last().lemma_filter_pred(filled, i);
    }
    assert forall|i: int, j: int| 0 <= i < messages.len() implies !#[trigger] break_at(
        messages[i],
        j,
    ) by {
        assert(messages.contains(messages[i]));
        parts.drop_last().lemma_filter_contains_rev(filled, messages[i]);
        let k = choose|k: int|
            0 <= k < parts.drop_last().len() && parts.drop_last()[k] == messages[i];
        assert(!break_at(parts[k], j));
    }
}

/// Whether `parts` are a text cut at its blank lines: none of them holds two line feeds in
/// a row, and none but the last ends in one.
pub open spec fn are_cut_at_blank_lines(parts: Seq<Seq<char>>) -> bool {
    &&& parts.len() > 0
    &&& forall|i: int, j: int|
        0 <= i < parts.len() && 0 <= j && j + 1 < parts[i].len() ==> !(#[trigger] parts[i][j]
            == '\n' && parts[i][j + 1] == '\n')
    &&& forall|i: int|
        0 <= i < parts.len() - 1 && (#[trigger] parts[i]).len() > 0 ==> parts[i].last() != '\n'
}

/// A text has one way to be cut at its blank lines.
proof fn lemma_blocks_are(parts: Seq<Seq<char>>)
    requires
        are_cut_at_blank_lines(parts),
    ensures
        blocks(rejoined(parts)) == parts,
    decreases parts.len(),
{
    let text = rejoined(parts);
    let first = parts[0];
    assert forall|j: int| !#[trigger] break_at(first, j) by {
        if 0 <= j && j + 1 < first.len() {
            assert(!(parts[0][j] == '\n' && parts[0][j + 1] == '\n'));
        }
    }
    if parts.len() == 1 {
        lemma_one_block(text);
        assert(blocks(text) =~= parts);
    } else {
        let others = parts.drop_first();
        let b = first.len() as int;
        assert(break_at(text, b));
        assert forall|j: int| 0 <= j < b implies !#[trigger] break_at(text, j) by {
            assert(!break_at(first, j));
            assert(text[j] == first[j]);
            if j + 1 < b {
                assert(text[j + 1] == first[j + 1]);
            } else {
                assert(parts[0].last() != '\n');
            }
        }
        lemma_first_break_is(text, b);
        assert(text.take(b) =~= first);
        assert(text.skip(b + 2) =~= rejoined(others));
        assert forall|i: int, j: int|
            0 <= i < others.len() && 0 <= j && j + 1 < others[i].len() implies !(
        #[trigger] others[i][j] == '\n' && others[i][j + 1] == '\n') by {
            assert(!(parts[i + 1][j] == '\n' && parts[i + 1][j + 1] == '\n'));
        }
        assert forall|i: int| 0 <= i < others.len() - 1 && (#[trigger] others[i]).len()
            > 0 implies others[i].last() != '\n' by {
            assert(parts[i + 1].last() != '\n');
        }
        lemma_blocks_are(others);
        assert(blocks(text) =~= parts);
    }
}

/// A chunk is read as far as the bytes that waited and its own are valid UTF-8, and the
/// others wait. The text is cut at its blank lines: the last part waits, and of the others
/// those that are not empty are handed out, in order and as they are.
pub proof fn law_a_chunk_is_cut_at_blank_lines(
    waiting: Waiting,
    chunk: Seq<u8>,
    k: int,
    parts: Seq<Seq<char>>,
)
    requires
        0 <= k <= (waiting.bytes + chunk).len(),
        valid_utf8((waiting.bytes + chunk).take(k)),
        forall|j: int|
            k < j <= (waiting.bytes + chunk).len() ==> !valid_utf8(
                #[trigger] (waiting.bytes + chunk).take(j),
            ),
        are_cut_at_blank_lines(parts),
        rejoined(parts) == waiting.text + decode_utf8((waiting.bytes + chunk).take(k)),
    ensures
        fed(waiting, chunk).0.text == parts.last(),
        fed(waiting, chunk).0.bytes == (waiting.bytes + chunk).skip(k),
        fed(waiting, chunk).1 == parts.drop_last().filter(|part: Seq<char>| part.len() > 0),
{
    lemma_valid_up_to(waiting.bytes + chunk, k);
    lemma_blocks_are(parts);
}

} // verus!
