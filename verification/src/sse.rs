//! Server-sent events: one message of the stream, parsed into its event type and data.

use vstd::prelude::*;
use crate::text::{
    chars_of, lemma_pieces_nonempty, lines, lines_of, pieces, stands_at, string_of, strip,
    stripped, trim, trimmed, trimmed_end, trimmed_start, views, without_carriage_return, Separator,
};

verus! {

/// A parsed message.
#[derive(Debug)]
pub struct ServerSentEvent {
    pub event: String,
    pub data: String,
    /// Whether the message carries no data, so that `data` is an empty object.
    pub lacks_data: bool,
}

/// Why a message is no event.
#[derive(Clone, Copy, Debug, PartialEq, Eq, Structural)]
pub enum SseError {
    /// No line names the type of the event.
    MissingEvent,
}

impl SseError {
    /// The error in words.
    pub open spec fn text(self) -> Seq<char> {
        match self {
            SseError::MissingEvent => "Missing event type in SSE"@,
        }
    }

    /// The error in words.
    pub fn message(self) -> (words: String)
        ensures
            words@ == self.text(),
    {
        match self {
            SseError::MissingEvent => "Missing event type in SSE".to_string(),
        }
    }
}

/// What the line says of the field that `prefix` announces: the text behind the
/// prefix, repeated copies of the prefix left out, without whitespace around it.
pub open spec fn field_value(line: Seq<char>, prefix: Seq<char>) -> Seq<char> {
    trimmed(stripped(line, prefix))
}

/// What the last line that starts with `prefix` says; empty if there is no such line.
pub open spec fn last_field(lines: Seq<Seq<char>>, prefix: Seq<char>) -> Seq<char>
    decreases lines.len(),
{
    if lines.len() == 0 {
        Seq::empty()
    } else if prefix.is_prefix_of(lines.last()) {
        field_value(lines.last(), prefix)
    } else {
        last_field(lines.drop_last(), prefix)
    }
}

/// The event type that the lines of a message name.
pub open spec fn event_of(lines: Seq<Seq<char>>) -> Seq<char> {
    last_field(lines, "event:"@)
}

/// The data that the lines of a message carry: an empty object if they carry none.
pub open spec fn data_of(lines: Seq<Seq<char>>) -> Seq<char> {
    let data = last_field(lines, "data:"@);
    if data.len() == 0 {
        "{}"@
    } else {
        data
    }
}

/// Whether `result` is what a message with these lines is parsed into.
pub open spec fn is_parse_of(
    lines: Seq<Seq<char>>,
    result: Result<ServerSentEvent, SseError>,
) -> bool {
    if event_of(lines).len() == 0 {
        result == Err::<ServerSentEvent, SseError>(SseError::MissingEvent)
    } else {
        &&& result is Ok
        &&& result->Ok_0.event@ == event_of(lines)
        &&& result->Ok_0.data@ == data_of(lines)
        &&& result->Ok_0.lacks_data == (last_field(lines, "data:"@).len() == 0)
    }
}

/// No line starts with both field prefixes.
proof fn lemma_prefixes_exclude_each_other(line: Seq<char>)
    ensures
        !("event:"@.is_prefix_of(line) && "data:"@.is_prefix_of(line)),
{
    reveal_strlit("event:");
    reveal_strlit("data:");
    if "event:"@.is_prefix_of(line) && "data:"@.is_prefix_of(line) {
        assert("event:"@[0] == line[0]);
        assert("data:"@[0] == line[0]);
    }
}

/// Parses one message of the stream.
///
/// The last line that starts with `event:` names the type, and the last line that
/// starts with `data:` carries the data; other lines are passed over. A message
/// without data carries an empty object.
pub fn parse_server_sent_event(message: &str) -> (result: Result<ServerSentEvent, SseError>)
    ensures
        is_parse_of(lines_of(message@), result),
{
    let event_prefix = chars_of("event:");
    let data_prefix = chars_of("data:");
    let all = lines(&chars_of(message));
    let ghost every = views(all@);
    let mut event: Vec<char> = Vec::new();
    let mut data: Vec<char> = Vec::new();
    for i in 0..all.len()
        invariant
            every == views(all@),
            event_prefix@ == "event:"@,
            data_prefix@ == "data:"@,
            event@ == last_field(every.take(i as int), "event:"@),
            data@ == last_field(every.take(i as int), "data:"@),
    {
        let line = &all[i];
        assert(every[i as int] == line@);
        assert(line@.skip(0) =~= line@);
        assert(every.take(i + 1).drop_last() =~= every.take(i as int));
        proof {
            lemma_prefixes_exclude_each_other(line@);
        }
        if stands_at(line, 0, &event_prefix) {
            event = trim(&strip(line, &event_prefix));
        } else if stands_at(line, 0, &data_prefix) {
            data = trim(&strip(line, &data_prefix));
        }
    }
    assert(every.take(all.len() as int) =~= every);
    if event.len() == 0 {
        return Err(SseError::MissingEvent);
    }
    let lacks_data = data.len() == 0;
    let data = if lacks_data {
        "{}".to_string()
    } else {
        string_of(&data)
    };
    Ok(ServerSentEvent { event: string_of(&event), data, lacks_data })
}

/// The last line of its kind decides, whatever stands before it and whichever lines
/// of another kind follow.
pub proof fn law_last_line_decides(
    before: Seq<Seq<char>>,
    line: Seq<char>,
    after: Seq<Seq<char>>,
    prefix: Seq<char>,
)
    requires
        prefix.is_prefix_of(line),
        forall|i: int| 0 <= i < after.len() ==> !prefix.is_prefix_of(#[trigger] after[i]),
    ensures
        last_field(before.push(line) + after, prefix) == field_value(line, prefix),
    decreases after.len(),
{
    let whole = before.push(line) + after;
    if after.len() == 0 {
        assert(whole =~= before.push(line));
    } else {
        assert(whole.drop_last() =~= before.push(line) + after.drop_last());
        assert(!prefix.is_prefix_of(after[after.len() - 1]));
        assert forall|i: int| 0 <= i < after.drop_last().len() implies !prefix.is_prefix_of(
            #[trigger] after.drop_last()[i],
        ) by {
            assert(!prefix.is_prefix_of(after[i]));
        }
        law_last_line_decides(before, line, after.drop_last(), prefix);
    }
}

/// Lines that announce neither field are passed over, such as comments and
/// identifiers.
pub proof fn law_other_lines_are_passed_over(
    before: Seq<Seq<char>>,
    line: Seq<char>,
    after: Seq<Seq<char>>,
)
    requires
        !"event:"@.is_prefix_of(line),
        !"data:"@.is_prefix_of(line),
    ensures
        event_of(before.push(line) + after) == event_of(before + after),
        data_of(before.push(line) + after) == data_of(before + after),
{
    lemma_line_passed_over(before, line, after, "event:"@);
    lemma_line_passed_over(before, line, after, "data:"@);
}

/// A line that does not start with `prefix` says nothing of that field.
proof fn lemma_line_passed_over(
    before: Seq<Seq<char>>,
    line: Seq<char>,
    after: Seq<Seq<char>>,
    prefix: Seq<char>,
)
    requires
        !prefix.is_prefix_of(line),
    ensures
        last_field(before.push(line) + after, prefix) == last_field(before + after, prefix),
    decreases after.len(),
{
    let with_line = before.push(line) + after;
    let without = before + after;
    if after.len() == 0 {
        assert(with_line.drop_last() =~= before);
        assert(without =~= before);
    } else {
        assert(with_line.drop_last() =~= before.push(line) + after.drop_last());
        assert(without.drop_last() =~= before + after.drop_last());
        lemma_line_passed_over(before, line, after.drop_last(), prefix);
    }
}

/// The pieces of a text without separators: the text itself.
pub proof fn lemma_one_piece(s: Seq<char>, sep: Separator)
    requires
        forall|i: int| 0 <= i < s.len() ==> !sep.spec_cuts(#[trigger] s[i]),
    ensures
        pieces(s, sep) == seq![s],
    decreases s.len(),
{
    if s.len() == 0 {
        assert(s =~= Seq::empty());
    } else {
        let t = s.drop_last();
        assert forall|i: int| 0 <= i < t.len() implies !sep.spec_cuts(#[trigger] t[i]) by {
            assert(t[i] == s[i]);
        }
        lemma_one_piece(t, sep);
        assert(!sep.spec_cuts(s[s.len() - 1]));
        assert(t.push(s.last()) =~= s);
        assert(pieces(s, sep) =~= seq![s]);
    }
}

/// A separator parts the pieces before it from those behind it.
proof fn lemma_pieces_around(a: Seq<char>, c: char, b: Seq<char>, sep: Separator)
    requires
        sep.spec_cuts(c),
    ensures
        pieces(a.push(c) + b, sep) == pieces(a, sep) + pieces(b, sep),
    decreases b.len(),
{
    let whole = a.push(c) + b;
    let first = pieces(a, sep);
    if b.len() == 0 {
        assert(whole =~= a.push(c));
        assert(whole.drop_last() =~= a);
        assert(pieces(whole, sep) =~= first + pieces(b, sep));
    } else {
        let t = b.drop_last();
        lemma_pieces_around(a, c, t, sep);
        lemma_pieces_nonempty(t, sep);
        assert(whole.drop_last() =~= a.push(c) + t);
        assert(whole.last() == b.last());
        assert((first + pieces(t, sep)).drop_last() =~= first + pieces(t, sep).drop_last());
        assert(pieces(whole, sep) =~= first + pieces(b, sep));
    }
}

/// The lines of a text that a line feed parts: those before it, and those behind it.
proof fn lemma_lines_around(a: Seq<char>, b: Seq<char>)
    ensures
        lines_of(a.push('\n') + b) == pieces(a, Separator::LineFeed).map_values(
            |line: Seq<char>| without_carriage_return(line),
        ) + lines_of(b),
{
    let sep = Separator::LineFeed;
    let ended = |line: Seq<char>| without_carriage_return(line);
    let first = pieces(a, sep);
    let second = pieces(b, sep);
    lemma_pieces_around(a, '\n', b, sep);
    lemma_pieces_nonempty(b, sep);
    assert((first + second).drop_last() =~= first + second.drop_last());
    assert((first + second.drop_last()).map_values(ended) =~= first.map_values(ended)
        + second.drop_last().map_values(ended));
    assert(lines_of(a.push('\n') + b) =~= first.map_values(ended) + lines_of(b));
}

/// The lines of a text that begins with the line `line`.
pub proof fn lemma_lines_behind(line: Seq<char>, b: Seq<char>)
    requires
        !line.contains('\n'),
    ensures
        lines_of(line.push('\n') + b) == seq![without_carriage_return(line)] + lines_of(b),
{
    assert forall|i: int| 0 <= i < line.len() implies !Separator::LineFeed.spec_cuts(
        #[trigger] line[i],
    ) by {
        assert(line.contains(line[i]));
    }
    lemma_one_piece(line, Separator::LineFeed);
    lemma_lines_around(line, b);
    assert(seq![line].map_values(|line: Seq<char>| without_carriage_return(line))
        =~= seq![without_carriage_return(line)]);
}

/// Whether a line can start behind the text `s`: it is empty or ends in a line feed.
pub open spec fn at_line_start(s: Seq<char>) -> bool {
    s.len() == 0 || s.last() == '\n'
}

/// A line that announces neither field is passed over wherever in a message it stands:
/// with the line and without it, the message is parsed into the same result.
pub proof fn law_inserted_line_is_passed_over(before: Seq<char>, line: Seq<char>, after: Seq<char>)
    requires
        at_line_start(before),
        !line.contains('\n'),
        !"event:"@.is_prefix_of(line),
        !"data:"@.is_prefix_of(line),
    ensures
        forall|result: Result<ServerSentEvent, SseError>| #[trigger]
            is_parse_of(lines_of(before + line.push('\n') + after), result) == is_parse_of(
                lines_of(before + after),
                result,
            ),
{
    let kept = without_carriage_return(line);
    assert(!"event:"@.is_prefix_of(kept) && !"data:"@.is_prefix_of(kept)) by {
        if "event:"@.is_prefix_of(kept) {
            assert("event:"@ =~= line.subrange(0, "event:"@.len() as int));
        }
        if "data:"@.is_prefix_of(kept) {
            assert("data:"@ =~= line.subrange(0, "data:"@.len() as int));
        }
    }
    let inserted = line.push('\n') + after;
    lemma_lines_behind(line, after);
    let ended = if before.len() == 0 {
        assert(before + line.push('\n') + after =~= inserted);
        assert(before + after =~= after);
        Seq::<Seq<char>>::empty()
    } else {
        let front = before.drop_last();
        lemma_lines_around(front, inserted);
        lemma_lines_around(front, after);
        assert(before =~= front.push('\n'));
        assert(before + line.push('\n') + after =~= front.push('\n') + inserted);
        pieces(front, Separator::LineFeed).map_values(
            |line: Seq<char>| without_carriage_return(line),
        )
    };
    let rest = lines_of(after);
    assert(lines_of(before + line.push('\n') + after) =~= ended.push(kept) + rest);
    assert(lines_of(before + after) =~= ended + rest);
    lemma_line_passed_over(ended, kept, rest, "event:"@);
    lemma_line_passed_over(ended, kept, rest, "data:"@);
}

/// A trimmed text behind a field prefix and a space is the value of the field.
proof fn lemma_field_value_of_written(prefix: Seq<char>, value: Seq<char>)
    requires
        prefix.len() > 0,
        prefix[0] != ' ',
        trimmed(value) == value,
    ensures
        field_value(prefix + seq![' '] + value, prefix) == value,
        prefix.is_prefix_of(prefix + seq![' '] + value),
{
    let line = prefix + seq![' '] + value;
    let rest = seq![' '] + value;
    assert(prefix =~= line.subrange(0, prefix.len() as int));
    assert(line.skip(prefix.len() as int) =~= rest);
    assert(!prefix.is_prefix_of(rest)) by {
        if prefix.is_prefix_of(rest) {
            assert(prefix[0] == rest[0]);
        }
    }
    reveal_with_fuel(stripped, 2);
    assert(stripped(line, prefix) == rest);
    assert(rest.drop_first() =~= value);
    assert(trimmed_start(rest) == trimmed_start(value));
}

/// The trimmed text does not end in a carriage return.
proof fn lemma_trimmed_ends_well(value: Seq<char>)
    requires
        trimmed(value) == value,
        value.len() > 0,
    ensures
        value.last() != '\r',
{
    lemma_trimmed_lengths(value);
    if value.last() == '\r' {
        assert(trimmed_start(value) =~= value);
        assert(trimmed_end(value) == trimmed_end(value.drop_last()));
        lemma_trimmed_lengths(value.drop_last());
    }
}

/// Trimming makes no text longer, and at the start keeps the text if it keeps its length.
proof fn lemma_trimmed_lengths(s: Seq<char>)
    ensures
        trimmed_start(s).len() <= s.len(),
        trimmed_start(s).len() == s.len() ==> trimmed_start(s) == s,
        trimmed_end(s).len() <= s.len(),
        trimmed(s).len() <= trimmed_start(s).len(),
    decreases s.len(),
{
    lemma_trimmed_start_length(s);
    lemma_trimmed_end_length(s);
    lemma_trimmed_end_length(trimmed_start(s));
}

/// Trimming the start makes no text longer.
proof fn lemma_trimmed_start_length(s: Seq<char>)
    ensures
        trimmed_start(s).len() <= s.len(),
        trimmed_start(s).len() == s.len() ==> trimmed_start(s) == s,
    decreases s.len(),
{
    if s.len() > 0 {
        lemma_trimmed_start_length(s.drop_first());
    }
}

/// Trimming the end makes no text longer.
proof fn lemma_trimmed_end_length(s: Seq<char>)
    ensures
        trimmed_end(s).len() <= s.len(),
    decreases s.len(),
{
    if s.len() > 0 {
        lemma_trimmed_end_length(s.drop_last());
    }
}

/// A message written as an event line and a data line.
pub open spec fn written_message(event: Seq<char>, data: Seq<char>) -> Seq<char> {
    "event: "@ + event + seq!['\n'] + "data: "@ + data
}

/// A message written as a data line and an event line.
pub open spec fn written_data_first(event: Seq<char>, data: Seq<char>) -> Seq<char> {
    "data: "@ + data + seq!['\n'] + "event: "@ + event
}

/// A line that is written as a field and a trimmed value: it is one line, stays as it is
/// where a line feed ends it, and says what was written.
proof fn lemma_written_line(prefix: Seq<char>, value: Seq<char>)
    requires
        prefix.len() > 0,
        prefix[0] != ' ',
        !prefix.contains('\n'),
        !value.contains('\n'),
        trimmed(value) == value,
    ensures
        ({
            let line = prefix + seq![' '] + value;
            &&& !line.contains('\n')
            &&& without_carriage_return(line) == line
            &&& lines_of(line) == seq![line]
            &&& prefix.is_prefix_of(line)
            &&& field_value(line, prefix) == value
        }),
{
    let line = prefix + seq![' '] + value;
    lemma_field_value_of_written(prefix, value);
    if value.len() > 0 {
        lemma_trimmed_ends_well(value);
        assert(line.last() == value.last());
    } else {
        assert(line.last() == ' ');
    }
    assert forall|i: int| 0 <= i < line.len() implies !Separator::LineFeed.spec_cuts(
        #[trigger] line[i],
    ) by {
        if i < prefix.len() {
            assert(prefix.contains(line[i]));
        } else if i > prefix.len() {
            assert(value.contains(line[i]));
        }
    }
    lemma_one_piece(line, Separator::LineFeed);
    assert(lines_of(line) =~= seq![line]);
}

/// A message of two written lines is read as these two lines.
proof fn lemma_two_written_lines(p: Seq<char>, v: Seq<char>, q: Seq<char>, w: Seq<char>)
    requires
        p.len() > 0 && p[0] != ' ' && !p.contains('\n'),
        q.len() > 0 && q[0] != ' ' && !q.contains('\n'),
        !v.contains('\n') && trimmed(v) == v,
        !w.contains('\n') && trimmed(w) == w,
        !p.is_prefix_of(q + seq![' '] + w),
    ensures
        ({
            let all = lines_of((p + seq![' '] + v).push('\n') + (q + seq![' '] + w));
            &&& last_field(all, p) == v
            &&& last_field(all, q) == w
        }),
{
    let first = p + seq![' '] + v;
    let second = q + seq![' '] + w;
    lemma_written_line(p, v);
    lemma_written_line(q, w);
    lemma_lines_behind(first, second);
    let all = lines_of(first.push('\n') + second);
    assert(all =~= seq![first, second]);
    assert(all.drop_last() =~= seq![first]);
    assert(all.drop_last().last() == first);
    reveal_with_fuel(last_field, 3);
}

/// Whether `result` is the event `event` with the data `data`, an empty object standing
/// for empty data.
pub open spec fn is_event_with(
    result: Result<ServerSentEvent, SseError>,
    event: Seq<char>,
    data: Seq<char>,
) -> bool {
    &&& result is Ok
    &&& result->Ok_0.event@ == event
    &&& data.len() > 0 ==> result->Ok_0.data@ == data && !result->Ok_0.lacks_data
    &&& data.len() == 0 ==> result->Ok_0.data@ == "{}"@ && result->Ok_0.lacks_data
}

/// A message written as an event line and a data line, in either order, is read back as
/// that event and that data, for every event type and data that hold no line feed and
/// have no whitespace around them. Empty data is read as an empty object.
pub proof fn law_written_message_is_read_back(event: Seq<char>, data: Seq<char>)
    requires
        event.len() > 0,
        trimmed(event) == event,
        trimmed(data) == data,
        !event.contains('\n'),
        !data.contains('\n'),
    ensures
        event_of(lines_of(written_message(event, data))) == event,
        data_of(lines_of(written_message(event, data))) == (if data.len() == 0 {
            "{}"@
        } else {
            data
        }),
        event_of(lines_of(written_data_first(event, data))) == event,
        data_of(lines_of(written_data_first(event, data))) == data_of(
            lines_of(written_message(event, data)),
        ),
        forall|result: Result<ServerSentEvent, SseError>| #[trigger]
            is_parse_of(lines_of(written_message(event, data)), result) <==> is_event_with(
                result,
                event,
                data,
            ),
        forall|result: Result<ServerSentEvent, SseError>| #[trigger]
            is_parse_of(lines_of(written_data_first(event, data)), result) <==> is_event_with(
                result,
                event,
                data,
            ),
{
    reveal_strlit("event:");
    reveal_strlit("event: ");
    reveal_strlit("data:");
    reveal_strlit("data: ");
    let event_line = "event:"@ + seq![' '] + event;
    let data_line = "data:"@ + seq![' '] + data;
    assert("event: "@ =~= "event:"@ + seq![' ']);
    assert("data: "@ =~= "data:"@ + seq![' ']);
    assert(!"event:"@.is_prefix_of(data_line)) by {
        assert("event:"@[0] != data_line[0]);
    }
    assert(!"data:"@.is_prefix_of(event_line)) by {
        assert("data:"@[0] != event_line[0]);
    }
    lemma_two_written_lines("event:"@, event, "data:"@, data);
    lemma_two_written_lines("data:"@, data, "event:"@, event);
    assert(written_message(event, data) =~= event_line.push('\n') + data_line);
    assert(written_data_first(event, data) =~= data_line.push('\n') + event_line);
}

/// Whether the line `i` is the last that starts with `prefix`; -1 stands for no such line.
pub open spec fn is_last_line_with(lines: Seq<Seq<char>>, prefix: Seq<char>, i: int) -> bool {
    &&& -1 <= i < lines.len()
    &&& i >= 0 ==> prefix.is_prefix_of(lines[i])
    &&& forall|j: int| i < j < lines.len() ==> !prefix.is_prefix_of(#[trigger] lines[j])
}

/// What the last line of its kind says, by its index.
proof fn lemma_last_field_at(lines: Seq<Seq<char>>, prefix: Seq<char>, i: int)
    requires
        is_last_line_with(lines, prefix, i),
    ensures
        i >= 0 ==> last_field(lines, prefix) == trimmed(stripped(lines[i], prefix)),
        i == -1 ==> last_field(lines, prefix) == Seq::<char>::empty(),
    decreases lines.len(),
{
    if lines.len() > 0 && i < lines.len() - 1 {
        assert(!prefix.is_prefix_of(lines[lines.len() - 1]));
        let front = lines.drop_last();
        assert forall|j: int| i < j < front.len() implies !prefix.is_prefix_of(
            #[trigger] front[j],
        ) by {
            assert(!prefix.is_prefix_of(lines[j]));
        }
        lemma_last_field_at(front, prefix, i);
    }
}

/// The result of parsing is what the last event line and the last data line say, neither
/// changed but for the prefixes at the start and the whitespace around. Without an event
/// line, or with an empty one, there is no event; without a data line, or with an empty
/// one, the data is an empty object.
pub proof fn law_parsed_as_the_last_lines_say(
    lines: Seq<Seq<char>>,
    event_line: int,
    data_line: int,
    result: Result<ServerSentEvent, SseError>,
)
    requires
        is_last_line_with(lines, "event:"@, event_line),
        is_last_line_with(lines, "data:"@, data_line),
        is_parse_of(lines, result),
    ensures
        ({
            let event = if event_line >= 0 {
                trimmed(stripped(lines[event_line], "event:"@))
            } else {
                Seq::empty()
            };
            let data = if data_line >= 0 {
                trimmed(stripped(lines[data_line], "data:"@))
            } else {
                Seq::empty()
            };
            if event.len() == 0 {
                result == Err::<ServerSentEvent, SseError>(SseError::MissingEvent)
            } else {
                is_event_with(result, event, data)
            }
        }),
{
    lemma_last_field_at(lines, "event:"@, event_line);
    lemma_last_field_at(lines, "data:"@, data_line);
}

} // verus!
