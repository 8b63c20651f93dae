use myproto::dispatch::{
    handle_msg, INVALID_UTF8_TEXT, TRAILING_BYTES_TEXT, TRUNCATED_TEXT, UNKNOWN_TAG_TEXT,
};
use myproto::envelope::{
    decode_request, decode_response, encode_request, encode_response, BodyError, DecodeError,
};
use myproto::frame::{decode_frame, encode_frame, FrameStep, DEFAULT_MAX_FRAME};
use myproto::message::{
    Add, AddResponse, Echo, EchoResponse, ErrorResponse, Ping, PingResponse, AnyRequest, AnyResponse,
    Request, Response, ADD_OVERFLOW_TEXT, PING_TEXT,
};
use myproto::session::{CloseReason, Session, SessionState};

fn framed(req: &AnyRequest) -> Vec<u8> {
    encode_frame(&encode_request(req))
}

fn reply_of(frame: &[u8]) -> AnyResponse {
    match decode_frame(frame, DEFAULT_MAX_FRAME) {
        FrameStep::Complete(n) => {
            assert_eq!(frame.len(), n + 4);
            decode_response(&frame[4..]).expect("a reply reads back")
        }
        other => panic!("not a whole frame: {:?}", other),
    }
}

fn error_text(r: &AnyResponse) -> String {
    match r {
        AnyResponse::Error(ErrorResponse(s)) => s.clone(),
        other => panic!("expected an error reply, got {:?}", other),
    }
}

fn is_ping_reply(r: &AnyResponse) -> bool {
    matches!(r, AnyResponse::Ping(PingResponse(s)) if s == PING_TEXT)
}

#[test]
fn ping_envelope_bytes() {
    assert_eq!(encode_request(&AnyRequest::Ping(Ping)), vec![0, 0, 0, 0]);
}

#[test]
fn echo_envelope_bytes() {
    let req = AnyRequest::Echo(Echo { message: "hi".to_string() });
    assert_eq!(encode_request(&req), vec![1, 0, 0, 0, 2, 0, 0, 0, 0, 0, 0, 0, b'h', b'i']);
}

#[test]
fn add_envelope_bytes() {
    let req = AnyRequest::Add(Add { a: 2, b: -1 });
    assert_eq!(encode_request(&req), vec![2, 0, 0, 0, 2, 0, 0, 0, 0xff, 0xff, 0xff, 0xff]);
}

#[test]
fn frame_prefix_is_big_endian() {
    let payload = vec![7u8; 258];
    let f = encode_frame(&payload);
    assert_eq!(&f[..4], &[0, 0, 1, 2]);
    assert_eq!(&f[4..], &payload[..]);
    assert_eq!(decode_frame(&f, 1024), FrameStep::Complete(258));
    assert_eq!(decode_frame(&f[..100], 1024), FrameStep::Incomplete);
    assert_eq!(decode_frame(&f[..3], 1024), FrameStep::Incomplete);
    assert_eq!(decode_frame(&f, 257), FrameStep::TooLarge);
}

#[test]
fn request_round_trip_each_kind() {
    let reqs = vec![
        AnyRequest::Ping(Ping),
        AnyRequest::Echo(Echo { message: String::new() }),
        AnyRequest::Echo(Echo { message: "héllo, wörld ✓".to_string() }),
        AnyRequest::Add(Add { a: i32::MIN, b: i32::MAX }),
    ];
    for r in reqs {
        let back = decode_request(&encode_request(&r)).expect("round trip");
        assert_eq!(format!("{:?}", back), format!("{:?}", r));
    }
}

#[test]
fn response_round_trip_each_kind() {
    let resps = vec![
        AnyResponse::Ping(PingResponse("pong".to_string())),
        AnyResponse::Echo(EchoResponse("ü".to_string())),
        AnyResponse::Add(AddResponse { sum: -7 }),
        AnyResponse::Error(ErrorResponse("bad".to_string())),
    ];
    for r in resps {
        let back = decode_response(&encode_response(&r)).expect("round trip");
        assert_eq!(format!("{:?}", back), format!("{:?}", r));
    }
}

#[test]
fn echo_decodes_its_text() {
    let bytes = vec![1, 0, 0, 0, 5, 0, 0, 0, 0, 0, 0, 0, b'h', b'e', b'l', b'l', b'o'];
    match decode_request(&bytes) {
        Ok(AnyRequest::Echo(e)) => assert_eq!(e.message, "hello"),
        other => panic!("unexpected {:?}", other),
    }
}

#[test]
fn unknown_tags() {
    assert_eq!(decode_request(&[]).unwrap_err(), DecodeError::UnknownTag);
    assert_eq!(decode_request(&[0, 0]).unwrap_err(), DecodeError::UnknownTag);
    assert_eq!(decode_request(&[3, 0, 0, 0]).unwrap_err(), DecodeError::UnknownTag);
    assert_eq!(decode_request(&[0, 0, 0, 1]).unwrap_err(), DecodeError::UnknownTag);
}

#[test]
fn malformed_bodies() {
    assert_eq!(
        decode_request(&[0, 0, 0, 0, 9]).unwrap_err(),
        DecodeError::Malformed(0, BodyError::TrailingBytes)
    );
    assert_eq!(
        decode_request(&[1, 0, 0, 0, 5, 0, 0, 0, 0, 0, 0, 0, b'h']).unwrap_err(),
        DecodeError::Malformed(1, BodyError::Truncated)
    );
    assert_eq!(
        decode_request(&[1, 0, 0, 0, 1, 0, 0, 0, 0, 0, 0, 0, 0xff]).unwrap_err(),
        DecodeError::Malformed(1, BodyError::InvalidUtf8)
    );
    assert_eq!(
        decode_request(&[1, 0, 0, 0, 0, 0, 0, 0, 0, 0, 0, 0, b'x']).unwrap_err(),
        DecodeError::Malformed(1, BodyError::TrailingBytes)
    );
    assert_eq!(
        decode_request(&[2, 0, 0, 0, 1, 0, 0, 0]).unwrap_err(),
        DecodeError::Malformed(2, BodyError::Truncated)
    );
    assert_eq!(
        decode_request(&[2, 0, 0, 0, 1, 0, 0, 0, 1, 0, 0, 0, 1]).unwrap_err(),
        DecodeError::Malformed(2, BodyError::TrailingBytes)
    );
}

#[test]
fn replies_to_bad_envelopes() {
    assert_eq!(error_text(&handle_msg(&[9, 0, 0, 0])), UNKNOWN_TAG_TEXT);
    assert_eq!(error_text(&handle_msg(&[2, 0, 0, 0])), TRUNCATED_TEXT);
    assert_eq!(
        error_text(&handle_msg(&[1, 0, 0, 0, 1, 0, 0, 0, 0, 0, 0, 0, 0xc3])),
        INVALID_UTF8_TEXT
    );
    assert_eq!(error_text(&handle_msg(&[0, 0, 0, 0, 0])), TRAILING_BYTES_TEXT);
    assert!(TRUNCATED_TEXT.contains("malformed"));
}

#[test]
fn add_overflow_is_an_error_reply() {
    let r = AnyRequest::Add(Add { a: i32::MAX, b: 1 }).handle();
    assert_eq!(error_text(&r), ADD_OVERFLOW_TEXT);
    assert_eq!(error_text(&Add { a: i32::MIN, b: -1 }.handle()), ADD_OVERFLOW_TEXT);
    assert!(matches!(Add { a: -4, b: 1 }.handle(), AnyResponse::Add(AddResponse { sum: -3 })));
}

#[test]
fn ping_scenario() {
    let mut s = Session::new(DEFAULT_MAX_FRAME);
    let out = s.feed(&framed(&AnyRequest::Ping(Ping)));
    assert_eq!(out.len(), 1);
    let r = reply_of(&out[0]);
    assert!(is_ping_reply(&r));
    assert_eq!(PING_TEXT, "Thou shalt not to use HTTP;\nThou shalt write thoust own protocol");
    assert_eq!(s.state(), SessionState::Open);
}

#[test]
fn echo_scenario() {
    let mut s = Session::new(DEFAULT_MAX_FRAME);
    let out = s.feed(&framed(&AnyRequest::Echo(Echo { message: "hello".to_string() })));
    assert_eq!(out.len(), 1);
    match reply_of(&out[0]) {
        AnyResponse::Echo(EchoResponse(m)) => assert_eq!(m, "hello"),
        other => panic!("unexpected {:?}", other),
    }
}

#[test]
fn add_scenario() {
    let mut s = Session::new(DEFAULT_MAX_FRAME);
    let out = s.feed(&framed(&AnyRequest::Add(Add { a: 2, b: 3 })));
    assert_eq!(out.len(), 1);
    match reply_of(&out[0]) {
        AnyResponse::Add(AddResponse { sum }) => assert_eq!(sum, 5),
        other => panic!("unexpected {:?}", other),
    }
}

#[test]
fn undersized_buffer_then_ping() {
    let mut s = Session::new(DEFAULT_MAX_FRAME);
    let out = s.feed(&encode_frame(&[0, 0]));
    assert_eq!(out.len(), 1);
    assert_eq!(error_text(&reply_of(&out[0])), UNKNOWN_TAG_TEXT);
    assert_eq!(s.state(), SessionState::Open);
    let out = s.feed(&framed(&AnyRequest::Ping(Ping)));
    assert_eq!(out.len(), 1);
    assert!(is_ping_reply(&reply_of(&out[0])));
}

#[test]
fn malformed_body_keeps_session_open() {
    let mut s = Session::new(DEFAULT_MAX_FRAME);
    let mut bytes = encode_frame(&[1, 0, 0, 0, 3, 0, 0, 0, 0, 0, 0, 0, b'a']);
    bytes.extend(framed(&AnyRequest::Add(Add { a: 1, b: 1 })));
    let out = s.feed(&bytes);
    assert_eq!(out.len(), 2);
    assert!(error_text(&reply_of(&out[0])).contains("malformed body"));
    assert!(matches!(reply_of(&out[1]), AnyResponse::Add(AddResponse { sum: 2 })));
    assert_eq!(s.state(), SessionState::Open);
}

#[test]
fn replies_keep_request_order() {
    let reqs = vec![
        AnyRequest::Add(Add { a: 1, b: 2 }),
        AnyRequest::Echo(Echo { message: "one".to_string() }),
        AnyRequest::Ping(Ping),
        AnyRequest::Add(Add { a: 10, b: 20 }),
    ];
    let mut stream = Vec::new();
    for r in &reqs {
        stream.extend(framed(r));
    }
    // Fed one byte at a time, the replies still come one per request, in order.
    let mut s = Session::new(DEFAULT_MAX_FRAME);
    let mut out = Vec::new();
    for b in &stream {
        out.extend(s.feed(&[*b]));
    }
    assert_eq!(out.len(), 4);
    let whole = Session::new(DEFAULT_MAX_FRAME).feed(&stream);
    assert_eq!(whole, out);
    assert!(matches!(reply_of(&out[0]), AnyResponse::Add(AddResponse { sum: 3 })));
    assert!(matches!(reply_of(&out[1]), AnyResponse::Echo(EchoResponse(ref m)) if m == "one"));
    assert!(is_ping_reply(&reply_of(&out[2])));
    assert!(matches!(reply_of(&out[3]), AnyResponse::Add(AddResponse { sum: 30 })));
}

#[test]
fn eof_mid_frame_closes_without_reply() {
    let mut s = Session::new(DEFAULT_MAX_FRAME);
    let out = s.feed(&[0, 0]);
    assert!(out.is_empty());
    assert_eq!(s.finish(), CloseReason::EofMidFrame);
    assert_eq!(s.state(), SessionState::Closed(CloseReason::EofMidFrame));
    assert!(s.feed(&framed(&AnyRequest::Ping(Ping))).is_empty());
}

#[test]
fn eof_between_frames_is_clean() {
    let mut s = Session::new(DEFAULT_MAX_FRAME);
    assert_eq!(s.feed(&framed(&AnyRequest::Ping(Ping))).len(), 1);
    assert_eq!(s.finish(), CloseReason::Eof);
}

#[test]
fn oversized_frame_closes_session() {
    let mut s = Session::new(16);
    let out = s.feed(&[0, 0, 0, 17, 1, 2, 3]);
    assert!(out.is_empty());
    assert_eq!(s.state(), SessionState::Closed(CloseReason::FrameTooLarge));
    assert!(s.feed(&framed(&AnyRequest::Ping(Ping))).is_empty());
}

#[test]
fn write_failure_closes_session() {
    let mut s = Session::new(DEFAULT_MAX_FRAME);
    s.write_failed();
    assert_eq!(s.state(), SessionState::Closed(CloseReason::WriteFailed));
    assert_eq!(s.finish(), CloseReason::WriteFailed);
}

#[test]
fn each_kind_answers_through_its_trait() {
    assert!(is_ping_reply(&Ping.handle()));
    let e = Echo { message: "abc".to_string() };
    assert!(matches!(e.handle(), AnyResponse::Echo(EchoResponse(ref m)) if m == "abc"));
    assert_eq!(AddResponse { sum: 5 }.encode(), vec![2, 0, 0, 0, 5, 0, 0, 0]);
    assert_eq!(
        ErrorResponse("no".to_string()).encode(),
        vec![3, 0, 0, 0, 2, 0, 0, 0, 0, 0, 0, 0, b'n', b'o']
    );
    let p = PingResponse("x".to_string());
    assert_eq!(p.encode(), encode_response(&AnyResponse::Ping(p.clone())));
}
