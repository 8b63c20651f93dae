use myproto::envelope::{BodyError, DecodeError};
use myproto::frame::{decode_line, LineStep};
use myproto::json::{parse_object, JsonScalar};
use myproto::message::{
    Add, AddResponse, AnyRequest, AnyResponse, Echo, EchoResponse, ErrorResponse, Ping,
};
use myproto::session::{CloseReason, Session, SessionState, Wire};
use myproto::text::{decode_text_request, encode_text_request, encode_text_response};

fn one_reply(s: &mut Session, line: &str) -> String {
    let out = s.feed(line.as_bytes());
    assert_eq!(out.len(), 1, "one reply for {:?}", line);
    String::from_utf8(out[0].clone()).expect("replies are UTF-8")
}

#[test]
fn bogus_type_then_ping() {
    let mut s = Session::new_text(4096);
    assert_eq!(s.wire(), Wire::Text);
    assert_eq!(
        one_reply(&mut s, "{\"type\":\"Bogus\"}\n"),
        "{\"type\":\"Error\",\"message\":\"Failed to parse request: unknown tag\"}\n"
    );
    assert_eq!(s.state(), SessionState::Open);
    assert_eq!(
        one_reply(&mut s, "{\"type\":\"Ping\"}\n"),
        "{\"type\":\"Success\",\"value\":\"Thou shalt not to use HTTP;\\nThou shalt write thoust own protocol\"}\n"
    );
}

#[test]
fn text_echo_and_add() {
    let mut s = Session::new_text(4096);
    assert_eq!(
        one_reply(&mut s, "{\"type\":\"Echo\",\"message\":\"hello\"}\n"),
        "{\"type\":\"Success\",\"value\":\"hello\"}\n"
    );
    assert_eq!(
        one_reply(&mut s, "{\"type\":\"Add\",\"a\":2,\"b\":3}\n"),
        "{\"type\":\"Success\",\"value\":5}\n"
    );
    assert_eq!(
        one_reply(&mut s, "{\"b\":-10,\"a\":3,\"type\":\"Add\"}\n"),
        "{\"type\":\"Success\",\"value\":-7}\n"
    );
}

#[test]
fn text_echo_escapes_round() {
    let mut s = Session::new_text(4096);
    assert_eq!(
        one_reply(&mut s, "{\"type\":\"Echo\",\"message\":\"a\\\"b\\\\c\\u0041\\t\u{e9}\\u001f\"}\n"),
        "{\"type\":\"Success\",\"value\":\"a\\\"b\\\\cA\\t\u{e9}\\u001f\"}\n"
    );
}

#[test]
fn text_field_errors() {
    let line = b"{\"type\":\"Add\",\"a\":1}";
    assert_eq!(
        decode_text_request(line).unwrap_err(),
        DecodeError::Malformed(2, BodyError::MissingField)
    );
    let line = b"{\"type\":\"Add\",\"a\":\"1\",\"b\":2}";
    assert_eq!(
        decode_text_request(line).unwrap_err(),
        DecodeError::Malformed(2, BodyError::WrongType)
    );
    let line = b"{\"type\":\"Add\",\"a\":2147483648,\"b\":2}";
    assert_eq!(
        decode_text_request(line).unwrap_err(),
        DecodeError::Malformed(2, BodyError::OutOfRange)
    );
    let line = b"{\"type\":\"Add\",\"a\":-2147483648,\"b\":2147483647}";
    assert!(matches!(decode_text_request(line), Ok(AnyRequest::Add(_))));
    let line = b"{\"type\":\"Echo\",\"message\":7}";
    assert_eq!(
        decode_text_request(line).unwrap_err(),
        DecodeError::Malformed(1, BodyError::WrongType)
    );
    let line = b"{\"type\":\"Echo\",\"message\":\"\xff\"}";
    assert_eq!(
        decode_text_request(line).unwrap_err(),
        DecodeError::Malformed(1, BodyError::InvalidUtf8)
    );
    assert_eq!(decode_text_request(b"not json").unwrap_err(), DecodeError::UnknownTag);
    assert_eq!(decode_text_request(b"{}").unwrap_err(), DecodeError::UnknownTag);
    assert_eq!(decode_text_request(b"{\"type\":1}").unwrap_err(), DecodeError::UnknownTag);
}

#[test]
fn text_bad_line_keeps_session_open() {
    let mut s = Session::new_text(4096);
    let out = s.feed(b"{\"type\":\"Add\",\"a\":1}\n{\"type\":\"Add\",\"a\":1,\"b\":1}\n");
    assert_eq!(out.len(), 2);
    assert_eq!(
        String::from_utf8(out[0].clone()).unwrap(),
        "{\"type\":\"Error\",\"message\":\"Failed to parse request: malformed body: a field is missing\"}\n"
    );
    assert_eq!(String::from_utf8(out[1].clone()).unwrap(), "{\"type\":\"Success\",\"value\":2}\n");
}

#[test]
fn text_overflow_reply() {
    let mut s = Session::new_text(4096);
    assert_eq!(
        one_reply(&mut s, "{\"type\":\"Add\",\"a\":2147483647,\"b\":1}\n"),
        "{\"type\":\"Error\",\"message\":\"Add failed: the sum does not fit in an i32\"}\n"
    );
}

#[test]
fn text_lines_in_order_across_chunks() {
    let stream = "{\"type\":\"Add\",\"a\":1,\"b\":1}\n{\"type\":\"Echo\",\"message\":\"x\"}\n{\"type\":\"Add\",\"a\":5,\"b\":5}\n";
    let mut s = Session::new_text(4096);
    let mut out = Vec::new();
    for chunk in stream.as_bytes().chunks(5) {
        out.extend(s.feed(chunk));
    }
    let got: Vec<String> = out.into_iter().map(|v| String::from_utf8(v).unwrap()).collect();
    assert_eq!(
        got,
        vec![
            "{\"type\":\"Success\",\"value\":2}\n".to_string(),
            "{\"type\":\"Success\",\"value\":\"x\"}\n".to_string(),
            "{\"type\":\"Success\",\"value\":10}\n".to_string(),
        ]
    );
}

#[test]
fn text_line_too_long_closes() {
    let mut s = Session::new_text(8);
    assert!(s.feed(b"{\"type\":\"Ping\"}").is_empty());
    assert_eq!(s.state(), SessionState::Closed(CloseReason::FrameTooLarge));
}

#[test]
fn text_eof_mid_line() {
    let mut s = Session::new_text(64);
    assert!(s.feed(b"{\"type\"").is_empty());
    assert_eq!(s.finish(), CloseReason::EofMidFrame);
}

#[test]
fn line_steps() {
    assert_eq!(decode_line(b"abc\ndef", 10), LineStep::Complete(3));
    assert_eq!(decode_line(b"abc\n", 3), LineStep::Complete(3));
    assert_eq!(decode_line(b"abcd\n", 3), LineStep::TooLong);
    assert_eq!(decode_line(b"abc", 3), LineStep::Incomplete);
    assert_eq!(decode_line(b"abcd", 3), LineStep::TooLong);
    assert_eq!(decode_line(b"", 0), LineStep::Incomplete);
}

#[test]
fn object_members() {
    let ms = parse_object(b"{\"k\":\"v\\n\",\"n\":-12}").expect("an object");
    assert_eq!(ms.len(), 2);
    assert_eq!(ms[0].0, b"k".to_vec());
    assert!(matches!(&ms[0].1, JsonScalar::Str(v) if v == b"v\n"));
    assert!(matches!(ms[1].1, JsonScalar::Int(Some(-12))));
    assert!(parse_object(b"{\"k\":}").is_none());
    assert!(parse_object(b"{\"k\":1,}").is_none());
    assert!(parse_object(b"{\"k\":1}x").is_none());
    assert!(parse_object(b"{\"k\":-}").is_none());
    assert!(parse_object(b"{\"k\":\"\\u0080\"}").is_none());
    assert!(matches!(parse_object(b"{\"k\":99999999999999999999}").unwrap()[0].1, JsonScalar::Int(None)));
    assert_eq!(parse_object(b"{}").unwrap().len(), 0);
}

#[test]
fn text_reply_shapes() {
    assert_eq!(
        encode_text_response(&AnyResponse::Add(AddResponse { sum: i32::MIN })),
        b"{\"type\":\"Success\",\"value\":-2147483648}".to_vec()
    );
    assert_eq!(
        encode_text_response(&AnyResponse::Echo(EchoResponse("\r\u{1}".to_string()))),
        b"{\"type\":\"Success\",\"value\":\"\\r\\u0001\"}".to_vec()
    );
    assert_eq!(
        encode_text_response(&AnyResponse::Error(ErrorResponse("x".to_string()))),
        b"{\"type\":\"Error\",\"message\":\"x\"}".to_vec()
    );
}

#[test]
fn text_request_round_trip() {
    let reqs = vec![
        AnyRequest::Ping(Ping),
        AnyRequest::Echo(Echo { message: "q\"u\\o\nte\u{7}é✓".to_string() }),
        AnyRequest::Add(Add { a: i32::MIN, b: 0 }),
        AnyRequest::Add(Add { a: 123, b: -45 }),
    ];
    for r in reqs {
        let line = encode_text_request(&r);
        let back = decode_text_request(&line).expect("round trip");
        assert_eq!(format!("{:?}", back), format!("{:?}", r));
    }
    assert_eq!(
        encode_text_request(&AnyRequest::Add(Add { a: 2, b: -3 })),
        b"{\"type\":\"Add\",\"a\":2,\"b\":-3}".to_vec()
    );
    assert_eq!(encode_text_request(&AnyRequest::Ping(Ping)), b"{\"type\":\"Ping\"}".to_vec());
}

#[test]
fn text_whitespace_between_tokens() {
    let mut s = Session::new_text(4096);
    assert_eq!(
        one_reply(&mut s, " { \"type\" : \"Add\" ,\t\"a\" : 4 , \"b\":-1 } \r\n"),
        "{\"type\":\"Success\",\"value\":3}\n"
    );
    assert!(matches!(decode_text_request(b" {\"type\":\"Ping\"} "), Ok(AnyRequest::Ping(_))));
    assert!(parse_object(b"{ }").unwrap().is_empty());
    assert!(parse_object(b"{\"k\" 1}").is_none());
    assert_eq!(decode_text_request(b"{\"type\":\"Ping\"} x").unwrap_err(), DecodeError::UnknownTag);
}
