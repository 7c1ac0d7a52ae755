use chunk_translate::stream::{
    extract_data, find_event_data_position, process_event_data, DecodeError, Decoded,
    EventStreamDecoder,
};

const STARTED: &str = "data: {\"event\":\"workflow_started\"}\n\n";
const FINISHED: &str =
    "data: {\"event\":\"workflow_finished\",\"data\":{\"outputs\":{\"output\":\"X\"}}}\n\n";

fn expected_outputs() -> serde_json::Value {
    serde_json::from_str("{\"output\":\"X\"}").unwrap()
}

fn parsed(text: &str) -> serde_json::Value {
    serde_json::from_str(text).unwrap()
}

#[test]
fn two_reads_yield_the_outputs() {
    let mut d = EventStreamDecoder::new();
    assert!(matches!(d.feed(STARTED.as_bytes()), Decoded::Nothing));
    match d.feed(FINISHED.as_bytes()) {
        Decoded::Finished(v) => assert_eq!(parsed(&v), expected_outputs()),
        other => panic!("unexpected {:?}", other),
    }
}

#[test]
fn every_split_point_yields_the_same_outputs() {
    let all = format!("{}{}", STARTED, FINISHED);
    let bytes = all.as_bytes();
    for cut in 0..=bytes.len() {
        let mut d = EventStreamDecoder::new();
        let mut result = d.feed(&bytes[..cut]);
        if matches!(result, Decoded::Nothing) {
            result = d.feed(&bytes[cut..]);
        }
        match result {
            Decoded::Finished(v) => assert_eq!(parsed(&v), expected_outputs()),
            other => panic!("cut {}: unexpected {:?}", cut, other),
        }
    }
}

#[test]
fn byte_by_byte_yields_the_outputs() {
    let all = format!("{}{}", STARTED, FINISHED);
    let mut d = EventStreamDecoder::new();
    let mut found = None;
    for b in all.as_bytes() {
        if let Decoded::Finished(v) = d.feed(&[*b]) {
            found = Some(parsed(&v));
            break;
        }
    }
    assert_eq!(found, Some(expected_outputs()));
}

#[test]
fn non_data_frames_are_ignored() {
    let all = format!(": keep-alive\n\nevent: ping\n\n{}", FINISHED);
    let mut d = EventStreamDecoder::new();
    match d.feed(all.as_bytes()) {
        Decoded::Finished(v) => assert_eq!(parsed(&v), expected_outputs()),
        other => panic!("unexpected {:?}", other),
    }
}

#[test]
fn malformed_json_is_a_failure() {
    let mut d = EventStreamDecoder::new();
    assert!(matches!(
        d.feed(b"data: {not json\n\n"),
        Decoded::Malformed(DecodeError::InvalidJson)
    ));
}

#[test]
fn invalid_text_is_a_failure() {
    let mut d = EventStreamDecoder::new();
    assert!(matches!(
        d.feed(b"data: \xff\xfe\n\n"),
        Decoded::Malformed(DecodeError::InvalidText)
    ));
}

#[test]
fn stream_without_terminal_event_yields_nothing() {
    let mut d = EventStreamDecoder::new();
    assert!(matches!(d.feed(STARTED.as_bytes()), Decoded::Nothing));
    assert!(matches!(d.feed(b"data: {\"event\":\"node_fin"), Decoded::Nothing));
}

#[test]
fn finished_without_outputs_is_ignored() {
    assert!(matches!(
        process_event_data(b"data: {\"event\":\"workflow_finished\",\"data\":{}}"),
        Decoded::Nothing
    ));
}

#[test]
fn finds_first_delimiter() {
    assert_eq!(find_event_data_position(b"ab\n\ncd\n\n"), Some(2));
    assert_eq!(find_event_data_position(b"ab\ncd\n"), None);
    assert_eq!(find_event_data_position(b"\n\n\n"), Some(0));
    assert_eq!(find_event_data_position(b""), None);
}

#[test]
fn extracts_text_before_position() {
    assert_eq!(extract_data(b"hello\n\nrest", 5), Ok("hello"));
    assert_eq!(extract_data(b"\xffab", 3), Err(DecodeError::InvalidText));
}

#[test]
fn other_events_are_ignored() {
    assert!(matches!(
        process_event_data(b"data: {\"event\":\"workflow_started\",\"data\":{\"outputs\":{}}}"),
        Decoded::Nothing
    ));
    assert!(matches!(
        process_event_data(b"data:  {\"event\":\"workflow_finished\",\"data\":{\"outputs\":{\"a\":1}}}  "),
        Decoded::Finished(_)
    ));
}

#[test]
fn malformed_after_well_formed_frame_fails() {
    let mut d = EventStreamDecoder::new();
    let all = format!("{}data: {{oops\n\n{}", STARTED, FINISHED);
    assert!(matches!(d.feed(all.as_bytes()), Decoded::Malformed(DecodeError::InvalidJson)));
}
