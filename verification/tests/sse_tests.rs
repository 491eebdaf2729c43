use mini_codex::llm::{extract_delta, ResponseStream, StreamEndError};
use mini_codex::sse::{SseError, SseEvent, SseParser};

#[test]
fn any_split_point_yields_same_events() {
    // ASCII, Chinese (three-byte UTF-8) and [DONE]
    let stream: Vec<u8> =
        b"data: {\"x\":1}\n\ndata: \xe4\xbd\xa0\xe5\xa5\xbd\n\ndata: [DONE]\n\n".to_vec();

    let expected =
        vec![SseEvent::Data("{\"x\":1}".into()), SseEvent::Data("你好".into()), SseEvent::Done];

    for split_at in 0..=stream.len() {
        let mut p = SseParser::new();
        let mut got = p.feed(&stream[..split_at]).unwrap();
        got.extend(p.feed(&stream[split_at..]).unwrap());
        assert_eq!(got, expected, "split at byte {split_at}");
    }
}

#[test]
fn one_byte_at_a_time() {
    let stream = b"data: hi\n\ndata: [DONE]\n\n";
    let mut p = SseParser::new();
    let mut got = Vec::new();
    for b in stream {
        got.extend(p.feed(&[*b]).unwrap());
    }
    assert_eq!(got, vec![SseEvent::Data("hi".into()), SseEvent::Done]);
}

#[test]
fn handles_crlf_and_multiline_data() {
    let mut p = SseParser::new();
    let got = p.feed(b"data: {\"a\":1}\r\ndata:   \"b\":2\r\n\r\n").unwrap();
    assert_eq!(got, vec![SseEvent::Data("{\"a\":1}\n  \"b\":2".into())]);
}

#[test]
fn crlf_frame_boundary_split_across_chunks() {
    let stream = b"data: hi\r\n\r\ndata: [DONE]\r\n\r\n";
    for split in 1..stream.len() {
        let mut p = SseParser::new();
        let mut got = p.feed(&stream[..split]).unwrap();
        got.extend(p.feed(&stream[split..]).unwrap());
        assert_eq!(
            got,
            vec![SseEvent::Data("hi".into()), SseEvent::Done],
            "CRLF boundary broken when split at byte {split}"
        );
    }
}

#[test]
fn detects_done_sentinel() {
    let mut p = SseParser::new();
    let got = p.feed(b"data: [DONE]\n\n").unwrap();
    assert_eq!(got, vec![SseEvent::Done]);
}

#[test]
fn oversized_buffer_is_rejected() {
    let mut p = SseParser::with_max_buffer(16);
    assert!(matches!(p.feed(&[b'x'; 1024]), Err(SseError::BufferOverflow(_))));
}

#[test]
fn extracts_only_text_delta() {
    assert_eq!(
        extract_delta(r#"{"type":"response.output_text.delta","delta":"你"}"#),
        Some("你".into())
    );
    assert_eq!(extract_delta(r#"{"type":"response.reasoning.delta","delta":"想"}"#), None);
    assert_eq!(extract_delta("{not json"), None);
}

#[test]
fn overflow_reports_the_limit() {
    let mut p = SseParser::with_max_buffer(16);
    match p.feed(&[b'x'; 17]) {
        Err(SseError::BufferOverflow(n)) => assert_eq!(n, 16),
        other => panic!("unexpected {other:?}"),
    }
    let mut q = SseParser::with_max_buffer(16);
    assert_eq!(q.feed(&[b'x'; 16]).unwrap(), vec![]);
}

#[test]
fn invalid_utf8_frame_is_an_error() {
    let mut p = SseParser::new();
    assert!(matches!(p.feed(b"data: \xff\xfe\n\n"), Err(SseError::InvalidUtf8(_))));
    // the bad frame is gone; the decoder goes on with what follows
    assert_eq!(p.feed(b"data: ok\n\n").unwrap(), vec![SseEvent::Data("ok".into())]);
}

#[test]
fn comments_and_other_fields_are_ignored() {
    let mut p = SseParser::new();
    let got = p.feed(b": heartbeat\n\nevent: x\nid: 3\n\ndata:x\ndata:\ndata: y\n\n").unwrap();
    assert_eq!(got, vec![SseEvent::Data("x\n\ny".into())]);
}

#[test]
fn empty_first_data_line_is_joined() {
    let mut p = SseParser::new();
    let got = p.feed(b"data:\ndata: z\n\n").unwrap();
    assert_eq!(got, vec![SseEvent::Data("\nz".into())]);
    // a lone empty data line carries no event
    assert_eq!(p.feed(b"data:\n\n").unwrap(), vec![]);
    // two empty data lines carry one newline
    assert_eq!(p.feed(b"data:\ndata:\n\n").unwrap(), vec![SseEvent::Data("\n".into())]);
    // the same frame left unterminated at the end of the stream
    assert_eq!(p.feed(b"data:\ndata: x").unwrap(), vec![]);
    assert_eq!(p.finish().unwrap(), Some(SseEvent::Data("\nx".into())));
}

#[test]
fn done_marker_may_be_padded_with_white_space() {
    let mut p = SseParser::new();
    let got = p.feed("data:  [DONE] \u{3000}\n\ndata: [DONE]x\n\n".as_bytes()).unwrap();
    assert_eq!(got, vec![SseEvent::Done, SseEvent::Data("[DONE]x".into())]);
}

#[test]
fn finish_decodes_the_last_open_frame() {
    let mut p = SseParser::new();
    assert_eq!(p.feed(b"data: tail").unwrap(), vec![]);
    assert_eq!(p.finish().unwrap(), Some(SseEvent::Data("tail".into())));
    assert_eq!(p.finish().unwrap(), None);
}

#[test]
fn earliest_separator_wins() {
    let mut p = SseParser::new();
    let got = p.feed(b"data: a\r\n\r\ndata: b\n\n").unwrap();
    assert_eq!(got, vec![SseEvent::Data("a".into()), SseEvent::Data("b".into())]);
}

#[test]
fn response_stream_gathers_deltas_until_done() {
    let mut s = ResponseStream::new();
    let body = [
        "data: {\"type\":\"response.output_text.delta\",\"delta\":\"Hel\"}\n\n",
        "data: {\"type\":\"response.created\"}\n\n",
        "data: {\"type\":\"response.output_text.delta\",\"delta\":\"lo\"}\n\n",
        "data: [DONE]\n\n",
        "data: {\"type\":\"response.output_text.delta\",\"delta\":\"late\"}\n\n",
    ]
    .join("");
    let (deltas, done) = s.on_chunk(body.as_bytes()).unwrap();
    assert_eq!(deltas, vec!["Hel".to_string(), "lo".to_string()]);
    assert!(done);
    assert_eq!(s.full_text(), "Hello");
}

#[test]
fn response_stream_end_without_text_is_an_error() {
    let mut s = ResponseStream::new();
    let (deltas, done) = s.on_chunk(b"data: {\"type\":\"x\"}\n\n").unwrap();
    assert!(deltas.is_empty());
    assert!(!done);
    let (last, full) = s.on_end();
    assert_eq!(last, None);
    assert!(matches!(full, Err(StreamEndError::Empty)));
}

#[test]
fn response_stream_end_takes_the_open_frame() {
    let mut s = ResponseStream::new();
    let (deltas, _) =
        s.on_chunk(b"data: {\"type\":\"response.output_text.delta\",\"delta\":\"a\"}\n\ndata: {\"type\":\"response.output_text.delta\",\"delta\":\"b\"}").unwrap();
    assert_eq!(deltas, vec!["a".to_string()]);
    let (last, full) = s.on_end();
    assert_eq!(last, Some("b".to_string()));
    assert_eq!(full.unwrap(), "ab");
}
