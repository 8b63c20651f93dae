use vstd::prelude::*;
use vstd::bytes::{
    lemma_auto_spec_u32_to_from_le_bytes, lemma_auto_spec_u64_to_from_le_bytes,
    spec_u32_to_le_bytes, spec_u64_to_le_bytes,
};
use vstd::utf8::encode_utf8;
use crate::text::{decode_text_request, parse_text_request};
use crate::envelope::{
    BodyError, DecodeError, decode_request, parse_request, response_bytes, string_bytes,
};
use crate::message::{
    ADD_OVERFLOW_TEXT, ErrorResponse, PING_TEXT, Request, RequestModel, AnyResponse, ResponseModel, respond,
};

verus! {

/// Error text for an envelope whose tag names no kind.
pub const UNKNOWN_TAG_TEXT: &'static str = "Failed to parse request: unknown tag";

/// Error text for a body that ends before its last field.
pub const TRUNCATED_TEXT: &'static str = "Failed to parse request: malformed body: it ends too early";

/// Error text for a string field that is not UTF-8.
pub const INVALID_UTF8_TEXT: &'static str =
    "Failed to parse request: malformed body: a string is not UTF-8";

/// Error text for a body with bytes after its last field.
pub const TRAILING_BYTES_TEXT: &'static str =
    "Failed to parse request: malformed body: bytes follow its last field";

/// Error text for a body that lacks a field of its kind.
pub const MISSING_FIELD_TEXT: &'static str =
    "Failed to parse request: malformed body: a field is missing";

/// Error text for a field that holds a value of the wrong type.
pub const WRONG_TYPE_TEXT: &'static str =
    "Failed to parse request: malformed body: a field has the wrong type";

/// Error text for an integer field whose value does not fit its type.
pub const OUT_OF_RANGE_TEXT: &'static str =
    "Failed to parse request: malformed body: a number is out of range";

/// The text of the error reply to an envelope that could not be read.
pub open spec fn decode_error_text(e: DecodeError) -> Seq<char> {
    match e {
        DecodeError::UnknownTag => UNKNOWN_TAG_TEXT@,
        DecodeError::Malformed(_, BodyError::Truncated) => TRUNCATED_TEXT@,
        DecodeError::Malformed(_, BodyError::InvalidUtf8) => INVALID_UTF8_TEXT@,
        DecodeError::Malformed(_, BodyError::TrailingBytes) => TRAILING_BYTES_TEXT@,
        DecodeError::Malformed(_, BodyError::MissingField) => MISSING_FIELD_TEXT@,
        DecodeError::Malformed(_, BodyError::WrongType) => WRONG_TYPE_TEXT@,
        DecodeError::Malformed(_, BodyError::OutOfRange) => OUT_OF_RANGE_TEXT@,
    }
}

/// The reply to one request envelope: the handler's answer where it reads as
/// a request, an error reply where it does not.
pub open spec fn reply(b: Seq<u8>) -> ResponseModel {
    match parse_request(b) {
        Ok(m) => respond(m),
        Err(e) => ResponseModel::Error(decode_error_text(e)),
    }
}

/// The text of the error reply to an envelope that could not be read.
pub fn decode_error_message(e: DecodeError) -> (r: String)
    ensures
        r@ == decode_error_text(e),
{
    match e {
        DecodeError::UnknownTag => UNKNOWN_TAG_TEXT.to_owned(),
        DecodeError::Malformed(_, BodyError::Truncated) => TRUNCATED_TEXT.to_owned(),
        DecodeError::Malformed(_, BodyError::InvalidUtf8) => INVALID_UTF8_TEXT.to_owned(),
        DecodeError::Malformed(_, BodyError::TrailingBytes) => TRAILING_BYTES_TEXT.to_owned(),
        DecodeError::Malformed(_, BodyError::MissingField) => MISSING_FIELD_TEXT.to_owned(),
        DecodeError::Malformed(_, BodyError::WrongType) => WRONG_TYPE_TEXT.to_owned(),
        DecodeError::Malformed(_, BodyError::OutOfRange) => OUT_OF_RANGE_TEXT.to_owned(),
    }
}

/// Reads one request envelope and runs it. Nothing that goes wrong here
/// escapes: a bad envelope or a failing handler gives an error reply.
pub fn handle_msg(input: &[u8]) -> (r: AnyResponse)
    ensures
        r@ == reply(input@),
{
    match decode_request(input) {
        Ok(req) => req.handle(),
        Err(e) => AnyResponse::Error(ErrorResponse(decode_error_message(e))),
    }
}

/// The reply to one request line: the handler's answer where it reads as a
/// request, an error reply where it does not.
pub open spec fn text_reply(line: Seq<u8>) -> ResponseModel {
    match parse_text_request(line) {
        Ok(m) => respond(m),
        Err(e) => ResponseModel::Error(decode_error_text(e)),
    }
}

/// Reads one request line and runs it. As with `handle_msg`, nothing that
/// goes wrong escapes: it becomes an error reply.
pub fn handle_text_msg(line: &[u8]) -> (r: AnyResponse)
    ensures
        r@ == text_reply(line@),
{
    match decode_text_request(line) {
        Ok(req) => req.handle(),
        Err(e) => AnyResponse::Error(ErrorResponse(decode_error_message(e))),
    }
}

proof fn lemma_text_len(s: Seq<char>)
    ensures
        encode_utf8(s).len() <= 4 * s.len(),
    decreases s.len(),
{
    if s.len() > 0 {
        lemma_text_len(s.drop_first());
    }
}

proof fn lemma_string_bytes_len(s: Seq<char>)
    ensures
        string_bytes(s).len() == 8 + encode_utf8(s).len(),
{
    lemma_auto_spec_u64_to_from_le_bytes();
    assert(spec_u64_to_le_bytes(encode_utf8(s).len() as u64).len() == 8);
}

/// A reply's envelope is never more than 400 bytes longer than the request's.
pub proof fn lemma_reply_len(b: Seq<u8>)
    ensures
        response_bytes(reply(b)).len() <= b.len() + 400,
{
    lemma_auto_spec_u32_to_from_le_bytes();
    let text = match parse_request(b) {
        Ok(RequestModel::Ping) => PING_TEXT@,
        Ok(RequestModel::Add(x, y)) => ADD_OVERFLOW_TEXT@,
        Ok(RequestModel::Echo(s)) => s,
        Err(e) => decode_error_text(e),
    };
    reveal_strlit("Thou shalt not to use HTTP;\nThou shalt write thoust own protocol");
    reveal_strlit("Add failed: the sum does not fit in an i32");
    reveal_strlit("Failed to parse request: unknown tag");
    reveal_strlit("Failed to parse request: malformed body: it ends too early");
    reveal_strlit("Failed to parse request: malformed body: a string is not UTF-8");
    reveal_strlit("Failed to parse request: malformed body: bytes follow its last field");
    reveal_strlit("Failed to parse request: malformed body: a field is missing");
    reveal_strlit("Failed to parse request: malformed body: a field has the wrong type");
    reveal_strlit("Failed to parse request: malformed body: a number is out of range");
    lemma_text_len(text);
    lemma_string_bytes_len(text);
    assert(spec_u32_to_le_bytes(0).len() == 4);
    if let Ok(RequestModel::Echo(s)) = parse_request(b) {
        let body = b.subrange(4, b.len() as int);
        let sub = body.subrange(8, body.len() as int);
        vstd::utf8::decode_utf8_encode_utf8(sub);
        assert(encode_utf8(s).len() == b.len() - 12);
    }
}

} // verus!
