use serde_json::Value;
use wait_for_lsp::parser::{encode_frame, line_length, MessageParser};

fn framed_msg(body: &[u8]) -> Vec<u8> {
    let header = format!("Content-Length: {}\r\n\r\n", body.len());
    let mut frame = header.into_bytes();
    frame.extend_from_slice(body);
    frame
}

fn value(body: &[u8]) -> Value {
    serde_json::from_slice(body).unwrap()
}

#[test]
fn test_single_message() {
    let mut parser = MessageParser::new();
    let body = r#"{"jsonrpc":"2.0","id":1,"method":"initialize"}"#;
    let data = framed_msg(body.as_bytes());

    let msgs = parser.feed(&data);
    assert_eq!(msgs.len(), 1);
    assert_eq!(value(&msgs[0])["id"], 1);
}

#[test]
fn test_partial_header_then_complete() {
    let mut parser = MessageParser::new();
    let body = r#"{"jsonrpc":"2.0","id":1}"#;
    let frame = framed_msg(body.as_bytes());

    let partial = &frame[..5];
    let msgs = parser.feed(partial);
    assert!(msgs.is_empty());

    let msgs = parser.feed(&frame[5..]);
    assert_eq!(msgs.len(), 1);
    assert_eq!(value(&msgs[0])["id"], 1);
}

#[test]
fn test_partial_body_then_complete() {
    let mut parser = MessageParser::new();
    let body = r#"{"jsonrpc":"2.0","id":42}"#;
    let frame = framed_msg(body.as_bytes());

    let header_end = frame.windows(4).position(|w| w == b"\r\n\r\n").unwrap() + 4;
    let partial_end = header_end + 5;
    let msgs = parser.feed(&frame[..partial_end]);
    assert!(msgs.is_empty());

    let msgs = parser.feed(&frame[partial_end..]);
    assert_eq!(msgs.len(), 1);
    assert_eq!(value(&msgs[0])["id"], 42);
}

#[test]
fn test_multiple_messages_in_one_chunk() {
    let mut parser = MessageParser::new();
    let body1 = r#"{"jsonrpc":"2.0","id":1}"#;
    let body2 = r#"{"jsonrpc":"2.0","id":2}"#;
    let mut data = framed_msg(body1.as_bytes());
    data.extend_from_slice(&framed_msg(body2.as_bytes()));

    let msgs = parser.feed(&data);
    assert_eq!(msgs.len(), 2);
    assert_eq!(value(&msgs[0])["id"], 1);
    assert_eq!(value(&msgs[1])["id"], 2);
}

#[test]
fn test_case_insensitive_header() {
    let mut parser = MessageParser::new();
    let body = r#"{"jsonrpc":"2.0","id":1}"#;
    let header = format!("content-length: {}\r\n\r\n", body.len());
    let mut data = header.into_bytes();
    data.extend_from_slice(body.as_bytes());

    let msgs = parser.feed(&data);
    assert_eq!(msgs.len(), 1);
}

#[test]
fn test_content_length_uppercase() {
    let mut parser = MessageParser::new();
    let body = r#"{"jsonrpc":"2.0","id":1}"#;
    let header = format!("CONTENT-LENGTH: {}\r\n\r\n", body.len());
    let mut data = header.into_bytes();
    data.extend_from_slice(body.as_bytes());

    let msgs = parser.feed(&data);
    assert_eq!(msgs.len(), 1);
}

#[test]
fn test_whitespace_tolerant() {
    let mut parser = MessageParser::new();
    let body = r#"{"jsonrpc":"2.0","id":1}"#;
    let header = format!("Content-Length:  {}\r\n\r\n", body.len());
    let mut data = header.into_bytes();
    data.extend_from_slice(body.as_bytes());

    let msgs = parser.feed(&data);
    assert_eq!(msgs.len(), 1);
}

#[test]
fn test_malformed_header_skipped() {
    let mut parser = MessageParser::new();
    let garbage = b"GET / HTTP/1.1\r\nHost: localhost\r\n\r\n";
    let body = r#"{"jsonrpc":"2.0","id":1}"#;
    let mut data = garbage.to_vec();
    data.extend_from_slice(&framed_msg(body.as_bytes()));

    let msgs = parser.feed(&data);
    assert_eq!(msgs.len(), 1);
    assert_eq!(value(&msgs[0])["id"], 1);
}

#[test]
fn test_invalid_json_skipped() {
    let mut parser = MessageParser::new();
    let invalid_body = b"this is not json";
    let valid_body = r#"{"jsonrpc":"2.0","id":2}"#;
    let mut data = framed_msg(invalid_body);
    data.extend_from_slice(&framed_msg(valid_body.as_bytes()));

    let msgs = parser.feed(&data);
    assert_eq!(msgs.len(), 1);
    assert_eq!(value(&msgs[0])["id"], 2);
}

#[test]
fn test_partial_json_edge_cases() {
    let mut parser = MessageParser::new();
    let msgs = parser.feed(b"");
    assert!(msgs.is_empty());

    let msgs = parser.feed(b"\r\n");
    assert!(msgs.is_empty());

    let msgs = parser.feed(b"Content-Length: 42");
    assert!(msgs.is_empty());
}

#[test]
fn test_content_length_no_colon_space() {
    let mut parser = MessageParser::new();
    let body = r#"{"jsonrpc":"2.0","id":1}"#;
    let header = format!("Content-Length:{}\r\n\r\n", body.len());
    let mut data = header.into_bytes();
    data.extend_from_slice(body.as_bytes());

    let msgs = parser.feed(&data);
    assert_eq!(msgs.len(), 1);
}

#[test]
fn test_content_type_header_accepted() {
    let mut parser = MessageParser::new();
    let body = r#"{"jsonrpc":"2.0","id":7}"#;
    let header = format!(
        "Content-Type: application/vscode-jsonrpc; charset=utf-8\r\nContent-Length: {}\r\n\r\n",
        body.len()
    );
    let mut data = header.into_bytes();
    data.extend_from_slice(body.as_bytes());

    let msgs = parser.feed(&data);
    assert_eq!(msgs.len(), 1);
    assert_eq!(value(&msgs[0])["id"], 7);
}

#[test]
fn test_encode_frame_exact_bytes() {
    let body = br#"{"id":1}"#;
    let frame = encode_frame(body);
    assert_eq!(frame, b"Content-Length: 8\r\n\r\n{\"id\":1}".to_vec());
    assert_eq!(encode_frame(b""), b"Content-Length: 0\r\n\r\n".to_vec());
    let long = vec![b' '; 1234];
    let framed = encode_frame(&long);
    assert!(framed.starts_with(b"Content-Length: 1234\r\n\r\n"));
    assert_eq!(framed.len(), 1234 + "Content-Length: 1234\r\n\r\n".len());
}

#[test]
fn test_frame_roundtrip() {
    let bodies: [&[u8]; 3] = [br#"{"a":[1,2,3]}"#, br#"null"#, b"not json"];
    let mut data = Vec::new();
    for b in &bodies {
        data.extend_from_slice(&encode_frame(b));
    }
    let mut parser = MessageParser::new();
    let msgs = parser.feed(&data);
    assert_eq!(msgs.len(), 2);
    assert_eq!(msgs[0], bodies[0].to_vec());
    assert_eq!(msgs[1], bodies[1].to_vec());
    // nothing pending: one more complete frame is read on its own
    let msgs = parser.feed(&encode_frame(b"[]"));
    assert_eq!(msgs, vec![b"[]".to_vec()]);
}

#[test]
fn test_chunking_does_not_matter() {
    let mut data = Vec::new();
    for id in 0..5 {
        let body = format!(r#"{{"jsonrpc":"2.0","id":{}}}"#, id);
        data.extend_from_slice(&encode_frame(body.as_bytes()));
    }
    data.extend_from_slice(b"Content-Length: 10\r\n\r\n{\"x\"");
    let mut whole = MessageParser::new();
    let all = whole.feed(&data);
    assert_eq!(all.len(), 5);
    for split in 0..data.len() {
        let mut p = MessageParser::new();
        let mut got = p.feed(&data[..split]);
        got.extend(p.feed(&data[split..]));
        assert_eq!(got, all);
    }
}

#[test]
fn test_bad_lengths() {
    // unreadable length: header skipped, body bytes are then scanned as a new header
    let mut parser = MessageParser::new();
    let msgs = parser.feed(b"Content-Length: abc\r\n\r\n");
    assert!(msgs.is_empty());
    let msgs = parser.feed(&encode_frame(b"1"));
    assert_eq!(msgs, vec![b"1".to_vec()]);

    // a length larger than usize can hold is unreadable
    let mut parser = MessageParser::new();
    let msgs = parser.feed(b"Content-Length: 99999999999999999999999\r\n\r\n");
    assert!(msgs.is_empty());
    let msgs = parser.feed(&encode_frame(b"2"));
    assert_eq!(msgs, vec![b"2".to_vec()]);

    // a header that is not UTF-8 is skipped
    let mut parser = MessageParser::new();
    let mut data = b"Content-Length: 1\xff\r\n\r\n".to_vec();
    data.extend_from_slice(&encode_frame(b"3"));
    let msgs = parser.feed(&data);
    assert_eq!(msgs, vec![b"3".to_vec()]);
}

#[test]
fn test_first_length_line_counts() {
    let mut parser = MessageParser::new();
    let msgs = parser.feed(b"Content-Length: 1\r\nContent-Length: 2\r\n\r\n42");
    assert_eq!(msgs, vec![b"4".to_vec()]);
    // the trailing "2" waits for a header
    let msgs = parser.feed(b"\r\n\r\n");
    assert!(msgs.is_empty());
}

#[test]
fn test_default_parser_is_empty() {
    let mut parser = MessageParser::default();
    let msgs = parser.feed(&encode_frame(b"true"));
    assert_eq!(msgs, vec![b"true".to_vec()]);
}

#[test]
fn test_take_frame_follows_json_flag() {
    let mut parser = MessageParser::new();
    let head = b"Content-Length: 10\r\n\r\n";
    let mut data = head.to_vec();
    data.extend_from_slice(b"abc");
    assert!(parser.feed(&data).is_empty());

    let mut kept: Vec<Vec<u8>> = Vec::new();
    parser.take_frame(head.len(), head.len() + 3, true, &mut kept);
    assert_eq!(kept, vec![b"abc".to_vec()]);
    // nothing is pending any more: a fresh frame reads on its own
    assert_eq!(parser.feed(&encode_frame(b"1")), vec![b"1".to_vec()]);

    let mut parser = MessageParser::new();
    assert!(parser.feed(&data).is_empty());
    let mut skipped: Vec<Vec<u8>> = Vec::new();
    parser.take_frame(head.len(), head.len() + 3, false, &mut skipped);
    assert!(skipped.is_empty());
    assert_eq!(parser.feed(&encode_frame(b"2")), vec![b"2".to_vec()]);
}

#[test]
fn test_line_length_given_lowercased_text() {
    let line: Vec<char> = "Content-Length: 12".chars().collect();
    let lower: Vec<char> = "content-length: 12".chars().collect();
    assert_eq!(line_length(&line, &lower), Some(Some(12)));
    // the decision follows the lower-cased text handed in
    assert_eq!(line_length(&line, &line), None);
    let bad: Vec<char> = "Content-Length: x".chars().collect();
    let bad_lower: Vec<char> = "content-length: x".chars().collect();
    assert_eq!(line_length(&bad, &bad_lower), Some(None));
    let short: Vec<char> = "x".chars().collect();
    assert_eq!(line_length(&short, &lower), Some(None));
}

#[test]
fn test_chunking_into_many_pieces() {
    let mut data = Vec::new();
    for id in 0..4 {
        let body = format!(r#"{{"id":{}}}"#, id);
        data.extend_from_slice(&encode_frame(body.as_bytes()));
    }
    data.extend_from_slice(b"GET / HTTP/1.1\r\n\r\n");
    data.extend_from_slice(&encode_frame(b"not json"));
    data.extend_from_slice(&encode_frame(b"[4]"));
    data.extend_from_slice(b"Content-Length: 3\r\n\r\n[");
    let mut whole = MessageParser::new();
    let all = whole.feed(&data);
    assert_eq!(all.len(), 5);
    for size in 1..9 {
        let mut p = MessageParser::new();
        let mut got = Vec::new();
        for piece in data.chunks(size) {
            got.extend(p.feed(piece));
        }
        assert_eq!(got, all);
        // both end with the same pending frame: completing it gives the same body
        assert_eq!(p.feed(b"5]"), vec![b"[5]".to_vec()]);
    }
}
