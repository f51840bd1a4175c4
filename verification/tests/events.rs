use super_antenna::posts::{classify, Incoming};
use super_antenna::sse::{parse_server_sent_event, SseError};

#[test]
fn test_parse_server_sent_event() {
    // Test valid event
    let message = "event: update\ndata: {\"content\":\"test\"}";
    let result = parse_server_sent_event(message).unwrap();
    assert_eq!(result.event, "update");
    assert_eq!(result.data, "{\"content\":\"test\"}");

    // Test missing data (should default to {})
    let message = "event: delete\n";
    let result = parse_server_sent_event(message).unwrap();
    assert_eq!(result.event, "delete");
    assert_eq!(result.data, "{}");

    // Test missing event (should error)
    let message = "data: {\"content\":\"test\"}";
    assert!(parse_server_sent_event(message).is_err());
}

fn parsed(message: &str) -> (String, String) {
    let sse = parse_server_sent_event(message).unwrap();
    (sse.event, sse.data)
}

fn pair(event: &str, data: &str) -> (String, String) {
    (event.to_string(), data.to_string())
}

#[test]
fn a_written_message_is_read_back() {
    for event in ["update", "a b", "status.update", "ü"] {
        for data in ["{}", "{\"a\": [1, 2]}", "data: x", "é\tü"] {
            let message = format!("event: {event}\ndata: {data}");
            assert_eq!(parsed(&message), pair(event, data));
            let message = format!("data: {data}\nevent: {event}");
            assert_eq!(parsed(&message), pair(event, data));
        }
        assert_eq!(parsed(&format!("event: {event}\ndata: ")), pair(event, "{}"));
        assert_eq!(parsed(&format!("data: \nevent: {event}")), pair(event, "{}"));
    }
}

#[test]
fn the_last_line_of_its_kind_decides() {
    assert_eq!(parsed("event: a\ndata: 1\nevent: b\ndata: 2"), pair("b", "2"));
    assert_eq!(parsed("data: 1\ndata:\nevent: b"), pair("b", "{}"));
    assert!(parse_server_sent_event("event: a\nevent:").is_err());
}

#[test]
fn other_lines_are_passed_over() {
    assert_eq!(parsed(":comment\nevent: a\nid: 7\n event: b\ndata: 1\nretry: 5"), pair("a", "1"));
}

#[test]
fn an_inserted_line_is_passed_over() {
    let lines = ["event: a\n", "data: 1\r\n", "\n", "data: 2"];
    for inserted in ["", "\r", ":comment", "id: 7\r", " event: b", "dat", "event", "Data: 3"] {
        for place in 0..lines.len() {
            let mut message = lines[..place].concat();
            message.push_str(inserted);
            message.push('\n');
            message.push_str(&lines[place..].concat());
            assert_eq!(parsed(&message), pair("a", "2"), "{message:?}");
        }
    }
}

#[test]
fn repeated_prefixes_and_whitespace_are_left_out() {
    assert_eq!(parsed("event:event:  a \r\ndata:data:\t1\r\n"), pair("a", "1"));
    assert_eq!(parsed("event: event: a\ndata:\u{3000}1"), pair("event: a", "1"));
}

#[test]
fn a_message_without_a_type_is_an_error() {
    for message in ["", "\n", "event:", "event: \t", "data: 1", "update"] {
        match parse_server_sent_event(message) {
            Err(error) => {
                assert_eq!(error, SseError::MissingEvent);
                assert_eq!(error.message(), "Missing event type in SSE");
            }
            Ok(sse) => panic!("{message:?} was read as {sse:?}"),
        }
    }
}

#[test]
fn only_updates_bring_a_post() {
    assert!(matches!(classify("data: 1"), Incoming::Malformed(SseError::MissingEvent)));
    match classify("event: delete\ndata: 7") {
        Incoming::OtherEvent(sse) => assert_eq!((sse.event, sse.data), pair("delete", "7")),
        other => panic!("{other:?}"),
    }
    match classify("event: Update\ndata: 7") {
        Incoming::OtherEvent(sse) => assert_eq!((sse.event, sse.data), pair("Update", "7")),
        other => panic!("{other:?}"),
    }
    match classify("event: update\ndata: {\"uri\":\"u\"}") {
        Incoming::Update(sse) => assert_eq!(sse.data, "{\"uri\":\"u\"}"),
        other => panic!("{other:?}"),
    }
    match classify("event: update") {
        Incoming::Update(sse) => assert_eq!(sse.data, "{}"),
        other => panic!("{other:?}"),
    }
}

#[test]
fn missing_data_is_told_from_an_empty_object() {
    for (message, lacks_data) in [
        ("event: update", true),
        ("event: delete\ndata: ", true),
        ("event: update\ndata: 1\ndata:", true),
        ("event: update\ndata: {}", false),
        ("event: delete\ndata: 7", false),
    ] {
        assert_eq!(parse_server_sent_event(message).unwrap().lacks_data, lacks_data);
        match classify(message) {
            Incoming::OtherEvent(sse) | Incoming::Update(sse) => {
                assert_eq!(sse.lacks_data, lacks_data)
            }
            other => panic!("{other:?}"),
        }
    }
}
