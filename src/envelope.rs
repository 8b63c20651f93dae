use vstd::prelude::*;
use vstd::bytes::{
    spec_u32_from_le_bytes, spec_u32_to_le_bytes, spec_u64_from_le_bytes, spec_u64_to_le_bytes,
    u32_from_le_bytes, u32_to_le_bytes, u64_from_le_bytes, u64_to_le_bytes,
    lemma_auto_spec_u32_to_from_le_bytes, lemma_auto_spec_u64_to_from_le_bytes,
};
use vstd::slice::{slice_subrange, slice_to_vec};
use vstd::utf8::{decode_utf8, encode_utf8, valid_utf8};
use crate::message::{
    Add, Echo, EchoResponse, ErrorResponse, Ping, PingResponse, AddResponse, AnyRequest,
    RequestModel, AnyResponse, Response, ResponseModel,
};

verus! {

/// Wire tag of `Ping`, in requests and replies.
pub const TAG_PING: u32 = 0;

/// Wire tag of `Echo`, in requests and replies.
pub const TAG_ECHO: u32 = 1;

/// Wire tag of `Add`, in requests and replies.
pub const TAG_ADD: u32 = 2;

/// Wire tag of the error reply.
pub const TAG_ERROR: u32 = 3;

/// Why the body under a known tag could not be read.
#[derive(Clone, Copy, Debug, PartialEq, Eq, Structural)]
pub enum BodyError {
    /// The body ends before its last field does.
    Truncated,
    /// A string field does not hold UTF-8.
    InvalidUtf8,
    /// Bytes follow the last field.
    TrailingBytes,
    /// A field of the kind is absent.
    MissingField,
    /// A field holds a value of the wrong type.
    WrongType,
    /// An integer field's value does not fit its type.
    OutOfRange,
}

/// Why an envelope could not be read.
#[derive(Clone, Copy, Debug, PartialEq, Eq, Structural)]
pub enum DecodeError {
    /// The envelope is too short to hold a tag, or its tag names no kind.
    UnknownTag,
    /// The tag is known but the body under it is not one of its kind.
    Malformed(u32, BodyError),
}

/// A string on the wire: its UTF-8 length as a little-endian `u64`, then its UTF-8 bytes.
pub open spec fn string_bytes(s: Seq<char>) -> Seq<u8> {
    spec_u64_to_le_bytes(encode_utf8(s).len() as u64) + encode_utf8(s)
}

/// An `i32` on the wire: four little-endian bytes of two's complement.
pub open spec fn i32_bytes(x: i32) -> Seq<u8> {
    spec_u32_to_le_bytes(x as u32)
}

/// The `i32` that four bytes hold.
pub open spec fn i32_value(b: Seq<u8>) -> i32 {
    spec_u32_from_le_bytes(b) as i32
}

/// The tag at the front of an envelope.
pub open spec fn tag_value(b: Seq<u8>) -> u32 {
    spec_u32_from_le_bytes(b.subrange(0, 4))
}

/// The envelope of a request.
pub open spec fn request_bytes(m: RequestModel) -> Seq<u8> {
    match m {
        RequestModel::Ping => spec_u32_to_le_bytes(TAG_PING),
        RequestModel::Echo(s) => spec_u32_to_le_bytes(TAG_ECHO) + string_bytes(s),
        RequestModel::Add(a, b) => spec_u32_to_le_bytes(TAG_ADD) + i32_bytes(a) + i32_bytes(b),
    }
}

/// The envelope of a reply.
pub open spec fn response_bytes(m: ResponseModel) -> Seq<u8> {
    match m {
        ResponseModel::Ping(s) => spec_u32_to_le_bytes(TAG_PING) + string_bytes(s),
        ResponseModel::Echo(s) => spec_u32_to_le_bytes(TAG_ECHO) + string_bytes(s),
        ResponseModel::Add(x) => spec_u32_to_le_bytes(TAG_ADD) + i32_bytes(x),
        ResponseModel::Error(s) => spec_u32_to_le_bytes(TAG_ERROR) + string_bytes(s),
    }
}

/// A body that is exactly one string.
pub open spec fn parse_string_body(b: Seq<u8>) -> Result<Seq<char>, BodyError> {
    if b.len() < 8 {
        Err(BodyError::Truncated)
    } else if b.len() - 8 < spec_u64_from_le_bytes(b.subrange(0, 8)) {
        Err(BodyError::Truncated)
    } else if b.len() - 8 > spec_u64_from_le_bytes(b.subrange(0, 8)) {
        Err(BodyError::TrailingBytes)
    } else if !valid_utf8(b.subrange(8, b.len() as int)) {
        Err(BodyError::InvalidUtf8)
    } else {
        Ok(decode_utf8(b.subrange(8, b.len() as int)))
    }
}

/// A body that is exactly one `i32`.
pub open spec fn parse_i32_body(b: Seq<u8>) -> Result<i32, BodyError> {
    if b.len() < 4 {
        Err(BodyError::Truncated)
    } else if b.len() > 4 {
        Err(BodyError::TrailingBytes)
    } else {
        Ok(i32_value(b))
    }
}

/// What a request envelope reads as.
pub open spec fn parse_request(b: Seq<u8>) -> Result<RequestModel, DecodeError> {
    if b.len() < 4 {
        Err(DecodeError::UnknownTag)
    } else {
        let body = b.subrange(4, b.len() as int);
        let tag = tag_value(b);
        if tag == TAG_PING {
            if body.len() == 0 {
                Ok(RequestModel::Ping)
            } else {
                Err(DecodeError::Malformed(tag, BodyError::TrailingBytes))
            }
        } else if tag == TAG_ECHO {
            match parse_string_body(body) {
                Ok(s) => Ok(RequestModel::Echo(s)),
                Err(e) => Err(DecodeError::Malformed(tag, e)),
            }
        } else if tag == TAG_ADD {
            if body.len() < 8 {
                Err(DecodeError::Malformed(tag, BodyError::Truncated))
            } else if body.len() > 8 {
                Err(DecodeError::Malformed(tag, BodyError::TrailingBytes))
            } else {
                Ok(RequestModel::Add(i32_value(body.subrange(0, 4)), i32_value(body.subrange(4, 8))))
            }
        } else {
            Err(DecodeError::UnknownTag)
        }
    }
}

/// What a reply envelope reads as.
pub open spec fn parse_response(b: Seq<u8>) -> Result<ResponseModel, DecodeError> {
    if b.len() < 4 {
        Err(DecodeError::UnknownTag)
    } else {
        let body = b.subrange(4, b.len() as int);
        let tag = tag_value(b);
        if tag == TAG_PING || tag == TAG_ECHO || tag == TAG_ERROR {
            match parse_string_body(body) {
                Ok(s) => Ok(
                    if tag == TAG_PING {
                        ResponseModel::Ping(s)
                    } else if tag == TAG_ECHO {
                        ResponseModel::Echo(s)
                    } else {
                        ResponseModel::Error(s)
                    },
                ),
                Err(e) => Err(DecodeError::Malformed(tag, e)),
            }
        } else if tag == TAG_ADD {
            match parse_i32_body(body) {
                Ok(x) => Ok(ResponseModel::Add(x)),
                Err(e) => Err(DecodeError::Malformed(tag, e)),
            }
        } else {
            Err(DecodeError::UnknownTag)
        }
    }
}

/// A decoded request, or why there is none, as mathematical values.
pub open spec fn request_result_view(r: Result<AnyRequest, DecodeError>) -> Result<RequestModel, DecodeError> {
    match r {
        Ok(q) => Ok(q@),
        Err(e) => Err(e),
    }
}

/// A decoded reply, or why there is none, as mathematical values.
pub open spec fn response_result_view(r: Result<AnyResponse, DecodeError>) -> Result<ResponseModel, DecodeError> {
    match r {
        Ok(q) => Ok(q@),
        Err(e) => Err(e),
    }
}

/// Whether every string field of a request has a UTF-8 length that a `u64` holds.
pub open spec fn request_fits(m: RequestModel) -> bool {
    match m {
        RequestModel::Echo(s) => encode_utf8(s).len() <= u64::MAX,
        _ => true,
    }
}

/// Whether every string field of a reply has a UTF-8 length that a `u64` holds.
pub open spec fn response_fits(m: ResponseModel) -> bool {
    match m {
        ResponseModel::Ping(s) => encode_utf8(s).len() <= u64::MAX,
        ResponseModel::Echo(s) => encode_utf8(s).len() <= u64::MAX,
        ResponseModel::Error(s) => encode_utf8(s).len() <= u64::MAX,
        ResponseModel::Add(_) => true,
    }
}

proof fn lemma_string_body(s: Seq<char>)
    requires
        encode_utf8(s).len() <= u64::MAX,
    ensures
        parse_string_body(string_bytes(s)) == Ok::<Seq<char>, BodyError>(s),
{
    lemma_auto_spec_u64_to_from_le_bytes();
    vstd::utf8::encode_utf8_valid_utf8(s);
    vstd::utf8::encode_utf8_decode_utf8(s);
    let b = string_bytes(s);
    let n = encode_utf8(s).len() as u64;
    assert(b.subrange(0, 8) =~= spec_u64_to_le_bytes(n));
    assert(b.subrange(8, b.len() as int) =~= encode_utf8(s));
}

proof fn lemma_i32_value(x: i32)
    ensures
        i32_value(i32_bytes(x)) == x,
{
    lemma_auto_spec_u32_to_from_le_bytes();
    assert(spec_u32_to_le_bytes(x as u32).len() == 4);
    assert((x as u32) as i32 == x) by (bit_vector);
}

proof fn lemma_tagged(tag: u32, body: Seq<u8>)
    ensures
        (spec_u32_to_le_bytes(tag) + body).len() == 4 + body.len(),
        tag_value(spec_u32_to_le_bytes(tag) + body) == tag,
        (spec_u32_to_le_bytes(tag) + body).subrange(4, 4 + body.len() as int) == body,
{
    lemma_auto_spec_u32_to_from_le_bytes();
    let b = spec_u32_to_le_bytes(tag) + body;
    assert(b.subrange(0, 4) =~= spec_u32_to_le_bytes(tag));
    assert(b.subrange(4, 4 + body.len() as int) =~= body);
}

/// A request's envelope reads back as that same request.
pub proof fn lemma_request_round_trip(m: RequestModel)
    requires
        request_fits(m),
    ensures
        parse_request(request_bytes(m)) == Ok::<RequestModel, DecodeError>(m),
{
    lemma_auto_spec_u32_to_from_le_bytes();
    match m {
        RequestModel::Ping => {
            let b = spec_u32_to_le_bytes(TAG_PING);
            assert(b.subrange(0, 4) =~= b);
            assert(b.subrange(4, 4) =~= Seq::<u8>::empty());
        },
        RequestModel::Echo(s) => {
            lemma_tagged(TAG_ECHO, string_bytes(s));
            lemma_string_body(s);
        },
        RequestModel::Add(a, b) => {
            let body = i32_bytes(a) + i32_bytes(b);
            lemma_tagged(TAG_ADD, body);
            assert(body.subrange(0, 4) =~= i32_bytes(a));
            assert(body.subrange(4, 8) =~= i32_bytes(b));
            assert(request_bytes(m) == spec_u32_to_le_bytes(TAG_ADD) + body);
            lemma_i32_value(a);
            lemma_i32_value(b);
        },
    }
}

/// A reply's envelope reads back as that same reply.
pub proof fn lemma_response_round_trip(m: ResponseModel)
    requires
        response_fits(m),
    ensures
        parse_response(response_bytes(m)) == Ok::<ResponseModel, DecodeError>(m),
{
    lemma_auto_spec_u32_to_from_le_bytes();
    match m {
        ResponseModel::Ping(s) => {
            lemma_tagged(TAG_PING, string_bytes(s));
            lemma_string_body(s);
        },
        ResponseModel::Echo(s) => {
            lemma_tagged(TAG_ECHO, string_bytes(s));
            lemma_string_body(s);
        },
        ResponseModel::Add(x) => {
            lemma_tagged(TAG_ADD, i32_bytes(x));
            lemma_i32_value(x);
        },
        ResponseModel::Error(s) => {
            lemma_tagged(TAG_ERROR, string_bytes(s));
            lemma_string_body(s);
        },
    }
}

/// Relies on `String::from_utf8`: it succeeds exactly on valid UTF-8, and the
/// string it gives holds those very bytes.
#[verifier::external_body]
pub(crate) fn string_from_utf8(b: Vec<u8>) -> (r: Option<String>)
    ensures
        r is Some <==> valid_utf8(b@),
        r matches Some(s) ==> encode_utf8(s@) == b@,
{
    String::from_utf8(b).ok()
}

fn push_bytes(out: &mut Vec<u8>, b: &[u8])
    ensures
        final(out)@ == old(out)@ + b@,
{
    let mut tmp = slice_to_vec(b);
    out.append(&mut tmp);
}

fn push_string(out: &mut Vec<u8>, s: &String)
    ensures
        final(out)@ == old(out)@ + string_bytes(s@),
{
    let bytes = s.as_str().as_bytes();
    let len = u64_to_le_bytes(bytes.len() as u64);
    push_bytes(out, len.as_slice());
    push_bytes(out, bytes);
}

fn push_i32(out: &mut Vec<u8>, x: i32)
    ensures
        final(out)@ == old(out)@ + i32_bytes(x),
{
    let b = u32_to_le_bytes(x as u32);
    push_bytes(out, b.as_slice());
}

/// Reads a body that is exactly one string.
fn read_string_body(b: &[u8]) -> (r: Result<String, BodyError>)
    ensures
        match (r, parse_string_body(b@)) {
            (Ok(s), Ok(m)) => s@ == m,
            (Err(e), Err(f)) => e == f,
            _ => false,
        },
{
    if b.len() < 8 {
        return Err(BodyError::Truncated);
    }
    let n = u64_from_le_bytes(slice_subrange(b, 0, 8));
    if ((b.len() - 8) as u64) < n {
        return Err(BodyError::Truncated);
    }
    if ((b.len() - 8) as u64) > n {
        return Err(BodyError::TrailingBytes);
    }
    let text = slice_to_vec(slice_subrange(b, 8, b.len()));
    match string_from_utf8(text) {
        Some(s) => {
            proof {
                vstd::utf8::encode_utf8_decode_utf8(s@);
            }
            Ok(s)
        },
        None => Err(BodyError::InvalidUtf8),
    }
}

fn read_i32(b: &[u8]) -> (r: i32)
    requires
        b@.len() == 4,
    ensures
        r == i32_value(b@),
{
    u32_from_le_bytes(b) as i32
}

fn read_tag(b: &[u8]) -> (r: u32)
    requires
        b@.len() >= 4,
    ensures
        r == tag_value(b@),
{
    u32_from_le_bytes(slice_subrange(b, 0, 4))
}

/// Writes a request as a tagged envelope.
pub fn encode_request(req: &AnyRequest) -> (r: Vec<u8>)
    ensures
        r@ == request_bytes(req@),
{
    let mut out = u32_to_le_bytes(TAG_PING);
    match req {
        AnyRequest::Ping(_) => {},
        AnyRequest::Echo(e) => {
            out = u32_to_le_bytes(TAG_ECHO);
            push_string(&mut out, &e.message);
        },
        AnyRequest::Add(x) => {
            out = u32_to_le_bytes(TAG_ADD);
            push_i32(&mut out, x.a);
            push_i32(&mut out, x.b);
        },
    }
    out
}

/// Writes a reply as a tagged envelope.
pub fn encode_response(resp: &AnyResponse) -> (r: Vec<u8>)
    ensures
        r@ == response_bytes(resp@),
{
    match resp {
        AnyResponse::Ping(p) => p.encode(),
        AnyResponse::Echo(e) => e.encode(),
        AnyResponse::Add(x) => x.encode(),
        AnyResponse::Error(e) => e.encode(),
    }
}

/// Reads a request envelope: the tag picks the kind, then the body is read as
/// that kind's fields.
pub fn decode_request(b: &[u8]) -> (r: Result<AnyRequest, DecodeError>)
    ensures
        request_result_view(r) == parse_request(b@),
{
    if b.len() < 4 {
        return Err(DecodeError::UnknownTag);
    }
    let tag = read_tag(b);
    let body = slice_subrange(b, 4, b.len());
    if tag == TAG_PING {
        if body.len() == 0 {
            Ok(AnyRequest::Ping(Ping))
        } else {
            Err(DecodeError::Malformed(tag, BodyError::TrailingBytes))
        }
    } else if tag == TAG_ECHO {
        match read_string_body(body) {
            Ok(message) => Ok(AnyRequest::Echo(Echo { message })),
            Err(e) => Err(DecodeError::Malformed(tag, e)),
        }
    } else if tag == TAG_ADD {
        if body.len() < 8 {
            Err(DecodeError::Malformed(tag, BodyError::Truncated))
        } else if body.len() > 8 {
            Err(DecodeError::Malformed(tag, BodyError::TrailingBytes))
        } else {
            let a = read_i32(slice_subrange(body, 0, 4));
            let c = read_i32(slice_subrange(body, 4, 8));
            Ok(AnyRequest::Add(Add { a, b: c }))
        }
    } else {
        Err(DecodeError::UnknownTag)
    }
}

/// Reads a reply envelope.
pub fn decode_response(b: &[u8]) -> (r: Result<AnyResponse, DecodeError>)
    ensures
        response_result_view(r) == parse_response(b@),
{
    if b.len() < 4 {
        return Err(DecodeError::UnknownTag);
    }
    let tag = read_tag(b);
    let body = slice_subrange(b, 4, b.len());
    if tag == TAG_PING || tag == TAG_ECHO || tag == TAG_ERROR {
        match read_string_body(body) {
            Ok(s) => Ok(
                if tag == TAG_PING {
                    AnyResponse::Ping(PingResponse(s))
                } else if tag == TAG_ECHO {
                    AnyResponse::Echo(EchoResponse(s))
                } else {
                    AnyResponse::Error(ErrorResponse(s))
                },
            ),
            Err(e) => Err(DecodeError::Malformed(tag, e)),
        }
    } else if tag == TAG_ADD {
        if body.len() < 4 {
            Err(DecodeError::Malformed(tag, BodyError::Truncated))
        } else if body.len() > 4 {
            Err(DecodeError::Malformed(tag, BodyError::TrailingBytes))
        } else {
            Ok(AnyResponse::Add(AddResponse { sum: read_i32(body) }))
        }
    } else {
        Err(DecodeError::UnknownTag)
    }
}

impl Response for PingResponse {
    open spec fn response_model(&self) -> ResponseModel {
        ResponseModel::Ping(self.0@)
    }

    fn encode(&self) -> (r: Vec<u8>) {
        let mut out = u32_to_le_bytes(TAG_PING);
        push_string(&mut out, &self.0);
        out
    }
}

impl Response for EchoResponse {
    open spec fn response_model(&self) -> ResponseModel {
        ResponseModel::Echo(self.0@)
    }

    fn encode(&self) -> (r: Vec<u8>) {
        let mut out = u32_to_le_bytes(TAG_ECHO);
        push_string(&mut out, &self.0);
        out
    }
}

impl Response for AddResponse {
    open spec fn response_model(&self) -> ResponseModel {
        ResponseModel::Add(self.sum)
    }

    fn encode(&self) -> (r: Vec<u8>) {
        let mut out = u32_to_le_bytes(TAG_ADD);
        push_i32(&mut out, self.sum);
        out
    }
}

/// The error reply has a tag of its own, so it reads back whatever request
/// it answers.
impl Response for ErrorResponse {
    open spec fn response_model(&self) -> ResponseModel {
        ResponseModel::Error(self.0@)
    }

    fn encode(&self) -> (r: Vec<u8>) {
        let mut out = u32_to_le_bytes(TAG_ERROR);
        push_string(&mut out, &self.0);
        out
    }
}

impl Response for AnyResponse {
    open spec fn response_model(&self) -> ResponseModel {
        self@
    }

    fn encode(&self) -> (r: Vec<u8>) {
        encode_response(self)
    }
}

} // verus!
