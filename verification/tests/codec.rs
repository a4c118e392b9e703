use kvs::command::{decode_command, Command};
use kvs::quoting::{push_quoted, read_quoted};
use kvs::segment::decode_stream;
use kvs::KvsError;

fn put(key: &str, value: &str) -> Command {
    Command::Put { key: key.to_string(), value: value.to_string() }
}

fn remove(key: &str) -> Command {
    Command::Remove { key: key.to_string() }
}

#[test]
fn encodes_put_as_tagged_object() {
    assert_eq!(put("a", "1").encode(), b"{\"Set\":{\"key\":\"a\",\"value\":\"1\"}}".to_vec());
    assert_eq!(put("a", "1").encode().len(), 31);
}

#[test]
fn encodes_remove_as_tagged_object() {
    assert_eq!(remove("a").encode(), b"{\"Remove\":{\"key\":\"a\"}}".to_vec());
    assert_eq!(remove("a").encode().len(), 22);
}

#[test]
fn encodes_empty_strings() {
    assert_eq!(put("", "").encode(), b"{\"Set\":{\"key\":\"\",\"value\":\"\"}}".to_vec());
}

#[test]
fn encode_into_appends() {
    let mut out = b"xy".to_vec();
    remove("k").encode_into(&mut out);
    assert_eq!(out, b"xy{\"Remove\":{\"key\":\"k\"}}".to_vec());
}

#[test]
fn escapes_quote_backslash_and_control_bytes() {
    let mut out = Vec::new();
    push_quoted(&mut out, b"a\"b\\c\x08\x09\x0a\x0c\x0d\x00\x01\x1f\x7f z");
    assert_eq!(
        out,
        b"\"a\\\"b\\\\c\\b\\t\\n\\f\\r\\u0000\\u0001\\u001f\x7f z\"".to_vec()
    );
}

#[test]
fn quoting_agrees_with_serde_json() {
    let samples = [
        "",
        "plain",
        "with \"quotes\" and \\ backslashes",
        "line\nbreak\ttab\r\x08\x0c",
        "\x00\x01\x02\x0b\x0e\x1f\x7f",
        "caf\u{e9} \u{4e2d}\u{6587} \u{1f600}",
        "/solidus/",
    ];
    for s in samples {
        let mut out = Vec::new();
        push_quoted(&mut out, s.as_bytes());
        assert_eq!(out, serde_json::to_vec(s).unwrap());
    }
}

#[test]
fn encoding_is_read_by_serde_json() {
    let bytes = put("k\"1", "v\n\u{e9}").encode();
    let value: serde_json::Value = serde_json::from_slice(&bytes).unwrap();
    assert_eq!(value["Set"]["key"].as_str(), Some("k\"1"));
    assert_eq!(value["Set"]["value"].as_str(), Some("v\n\u{e9}"));
}

#[test]
fn reads_back_what_was_quoted() {
    let text = b"a\"b\\c\x00\x1f\n\xc3\xa9";
    let mut out = b"..".to_vec();
    push_quoted(&mut out, text);
    out.extend_from_slice(b"tail");
    let (read, end) = read_quoted(&out, 2).unwrap();
    assert_eq!(read, text.to_vec());
    assert_eq!(end, out.len() - 4);
}

#[test]
fn read_quoted_rejects_what_is_not_written() {
    assert_eq!(read_quoted(b"abc", 0), None);
    assert_eq!(read_quoted(b"\"abc", 0), None);
    assert_eq!(read_quoted(b"\"a\\", 0), None);
    assert_eq!(read_quoted(b"\"a\\/b\"", 0), None);
    assert_eq!(read_quoted(b"\"\\u0041\"", 0), None);
    assert_eq!(read_quoted(b"\"\\u000a\"", 0), None);
    assert_eq!(read_quoted(b"\"\\u001F\"", 0), None);
    assert_eq!(read_quoted(b"\"\\u00\"", 0), None);
    assert_eq!(read_quoted(b"\"a\nb\"", 0), None);
    assert_eq!(read_quoted(b"\"\"", 5), None);
    assert_eq!(read_quoted(b"\"\\u001f\"", 0), Some((vec![0x1f], 8)));
    assert_eq!(read_quoted(b"\"\"", 0), Some((Vec::new(), 2)));
}

#[test]
fn decode_round_trip() {
    for command in [put("a", "1"), remove("a"), put("", ""), put("k\"\\\n", "\u{1f600}\x00")] {
        let bytes = command.encode();
        let decoded = decode_command(&bytes, 0).unwrap();
        assert_eq!(decoded, Some((command, bytes.len())));
    }
}

#[test]
fn decode_reports_next_offset_in_concatenation() {
    let mut bytes = put("a", "1").encode();
    remove("a").encode_into(&mut bytes);
    put("b", "22").encode_into(&mut bytes);
    assert_eq!(decode_command(&bytes, 0).unwrap(), Some((put("a", "1"), 31)));
    assert_eq!(decode_command(&bytes, 31).unwrap(), Some((remove("a"), 53)));
    assert_eq!(decode_command(&bytes, 53).unwrap(), Some((put("b", "22"), 85)));
    assert_eq!(decode_command(&bytes, 85).unwrap(), None);
}

#[test]
fn decode_at_end_is_clean() {
    assert_eq!(decode_command(b"", 0).unwrap(), None);
}

#[test]
fn decode_rejects_corrupt_bytes() {
    let inputs: [&[u8]; 10] = [
        b"x",
        b"{",
        b"{\"Set\":{\"key\":\"a\",\"value\":\"1\"}",
        b"{\"Set\":{\"key\":\"a\"}}",
        b"{\"Remove\":{\"key\":\"a\",\"value\":\"1\"}}",
        b" {\"Remove\":{\"key\":\"a\"}}",
        b"{\"Remove\": {\"key\":\"a\"}}",
        b"{\"Get\":{\"key\":\"a\"}}",
        b"{\"Set\":{\"value\":\"1\",\"key\":\"a\"}}",
        b"{\"Remove\":{\"key\":\"\xff\"}}",
    ];
    for input in inputs {
        assert!(matches!(decode_command(input, 0), Err(KvsError::UnexpectedCommand)));
    }
}

#[test]
fn decode_keeps_text_beyond_ascii() {
    let bytes = b"{\"Remove\":{\"key\":\"\xc3\xa9\xe4\xb8\xad\"}}";
    let decoded = decode_command(bytes, 0).unwrap();
    assert_eq!(decoded, Some((remove("\u{e9}\u{4e2d}"), bytes.len())));
}

#[test]
fn decode_stream_lists_records_and_offsets() {
    let mut bytes = put("a", "1").encode();
    remove("a").encode_into(&mut bytes);
    let items = decode_stream(&bytes).unwrap();
    assert_eq!(items, vec![(put("a", "1"), 31), (remove("a"), 53)]);
    assert_eq!(decode_stream(b"").unwrap(), Vec::new());
}

#[test]
fn decode_stream_rejects_trailing_garbage() {
    let mut bytes = put("a", "1").encode();
    bytes.extend_from_slice(b"{\"Set\":");
    assert!(matches!(decode_stream(&bytes), Err(KvsError::UnexpectedCommand)));
}
