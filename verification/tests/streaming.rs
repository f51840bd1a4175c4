use super_antenna::connection::{
    antennas_answered, give_up_message, is_idle, is_success, Attempt, Next, Reconnect,
};
use super_antenna::stream::StreamBuffer;

fn feed_all(chunks: &[&[u8]]) -> Vec<String> {
    let mut buffer = StreamBuffer::new();
    let mut messages = Vec::new();
    for chunk in chunks {
        messages.extend(buffer.feed(chunk));
    }
    messages
}

#[test]
fn messages_do_not_depend_on_the_chunks() {
    let text = "event: a\ndata: ä€😀\n\n\n\nb\n\n\nc\n\n\n\n\nd\r\n\r\ne";
    let bytes = text.as_bytes();
    let whole = feed_all(&[bytes]);
    assert_eq!(whole, vec!["event: a\ndata: ä€😀", "b", "\nc"]);
    for i in 0..=bytes.len() {
        for j in i..=bytes.len() {
            assert_eq!(feed_all(&[&bytes[..i], &bytes[i..j], &bytes[j..]]), whole, "{i} {j}");
        }
    }
    let single: Vec<&[u8]> = bytes.chunks(1).collect();
    assert_eq!(feed_all(&single), whole);
}

#[test]
fn sent_messages_are_received() {
    let messages = ["event: update\ndata: {}", "x", "zwölf", "\u{1f980} \u{1f980}"];
    let mut sent = String::new();
    for message in messages {
        sent.push_str(message);
        sent.push_str("\n\n");
    }
    let chunks: Vec<&[u8]> = sent.as_bytes().chunks(3).collect();
    assert_eq!(feed_all(&chunks), messages);
}

#[test]
fn text_without_a_blank_line_waits() {
    let mut buffer = StreamBuffer::new();
    assert!(buffer.feed(b"event: a\n").is_empty());
    assert!(buffer.feed(b"").is_empty());
    assert_eq!(buffer.feed(b"\nrest"), vec!["event: a"]);
    assert_eq!(buffer.feed(b"\n\n"), vec!["rest"]);
}

#[test]
fn empty_messages_are_left_out() {
    assert_eq!(feed_all(&[b"\n\n\n\na\n\n\n\n"]), vec!["a"]);
}

#[test]
fn bytes_of_an_incomplete_character_wait() {
    let crab = "\u{1f980}".as_bytes();
    let mut buffer = StreamBuffer::new();
    for byte in &crab[..3] {
        assert!(buffer.feed(&[*byte]).is_empty());
    }
    assert_eq!(buffer.feed(&[crab[3], b'\n', b'\n']), vec!["\u{1f980}"]);
}

#[test]
fn invalid_bytes_hold_back_what_follows_them() {
    let mut buffer = StreamBuffer::new();
    assert_eq!(buffer.feed(b"a\n\nb\n\n\xffc\n\n"), vec!["a", "b"]);
    assert!(buffer.feed(b"d\n\n").is_empty());
}

#[test]
fn five_failures_in_a_row_end_it() {
    let mut reconnect = Reconnect::new();
    assert_eq!(reconnect.next(Attempt::Failed), Next::Wait(2));
    assert_eq!(reconnect.next(Attempt::Answered(500)), Next::Wait(4));
    assert_eq!(reconnect.next(Attempt::Answered(404)), Next::Wait(8));
    assert_eq!(reconnect.next(Attempt::Failed), Next::Wait(16));
    assert_eq!(reconnect.next(Attempt::Answered(302)), Next::GiveUp);
    assert_eq!(reconnect.next(Attempt::Failed), Next::GiveUp);
    assert_eq!(give_up_message(), "Maximum retry attempts reached");
}

#[test]
fn an_open_stream_starts_the_count_again() {
    let mut reconnect = Reconnect::new();
    for _ in 0..3 {
        for _ in 0..4 {
            assert!(matches!(reconnect.next(Attempt::Failed), Next::Wait(_)));
        }
        assert_eq!(reconnect.next(Attempt::Answered(200)), Next::Wait(1));
        assert_eq!(reconnect.next(Attempt::Answered(204)), Next::Wait(1));
    }
}

#[test]
fn statuses_that_mean_success() {
    for status in 0..=u16::MAX {
        assert_eq!(is_success(status), (200..300).contains(&status));
        assert_eq!(antennas_answered(status), status == 200);
    }
    for status in 100..1000 {
        let outside = reqwest::StatusCode::from_u16(status).unwrap();
        assert_eq!(is_success(status), outside.is_success());
        assert_eq!(antennas_answered(status), outside == reqwest::StatusCode::OK);
    }
}

#[test]
fn two_minutes_without_data_are_too_long() {
    assert!(!is_idle(0));
    assert!(!is_idle(120_000_000_000));
    assert!(is_idle(120_000_000_001));
}

#[test]
fn the_bytes_that_wait_are_counted() {
    let mut buffer = StreamBuffer::new();
    assert_eq!(buffer.incomplete_bytes(), 0);
    buffer.feed(b"a\xf0\x9f");
    assert_eq!(buffer.incomplete_bytes(), 2);
    buffer.feed(b"\xa6");
    assert_eq!(buffer.incomplete_bytes(), 3);
    buffer.feed(b"\x80");
    assert_eq!(buffer.incomplete_bytes(), 0);
}
