use vstd::prelude::*;
use vstd::utf8::encode_utf8;
use vstd::utf8::{decode_utf8, valid_utf8};
use crate::envelope::{
    BodyError, DecodeError, TAG_ADD, TAG_ECHO, request_result_view, string_from_utf8,
};
use crate::json::{
    JsonMember, JsonScalar, JsonValue, digits_end, digits_value, hex_value, is_digit, members_view,
    parse_members, parse_number, parse_object, parse_object_spec, parse_string, parse_value, prepend, unescape,
};
use crate::message::{Add, AnyRequest, AnyResponse, Echo, Ping, RequestModel, ResponseModel};

verus! {

/// The bytes of a JSON string literal's body that stand for byte `c` of the text.
pub open spec fn escape_byte(c: u8) -> Seq<u8> {
    if c == 0x22 {
        seq![0x5c, 0x22]
    } else if c == 0x5c {
        seq![0x5c, 0x5c]
    } else if c == 0x0a {
        seq![0x5c, 0x6e]
    } else if c == 0x0d {
        seq![0x5c, 0x72]
    } else if c == 0x09 {
        seq![0x5c, 0x74]
    } else if c < 0x20 {
        seq![0x5c, 0x75, 0x30, 0x30, hex_digit(c / 16), hex_digit(c % 16)]
    } else {
        seq![c]
    }
}

/// The lower-case hexadecimal digit of `d`, for `d < 16`.
pub open spec fn hex_digit(d: u8) -> u8 {
    if d < 10 {
        (0x30 + d) as u8
    } else {
        (0x61 + d - 10) as u8
    }
}

/// Escapes the bytes of a UTF-8 text for a JSON string literal.
pub open spec fn escape_bytes(b: Seq<u8>) -> Seq<u8>
    decreases b.len(),
{
    if b.len() == 0 {
        Seq::empty()
    } else {
        escape_bytes(b.drop_last()) + escape_byte(b.last())
    }
}

/// A JSON string literal holding `s`.
pub open spec fn json_string(s: Seq<char>) -> Seq<u8> {
    seq![0x22u8] + escape_bytes(encode_utf8(s)) + seq![0x22u8]
}

/// The decimal digits of `n`.
pub open spec fn decimal(n: nat) -> Seq<u8>
    decreases n,
{
    if n < 10 {
        seq![(0x30 + n) as u8]
    } else {
        decimal(n / 10) + seq![(0x30 + n % 10) as u8]
    }
}

/// A JSON number holding `x`.
pub open spec fn json_int(x: int) -> Seq<u8> {
    if x < 0 {
        seq![0x2du8] + decimal((-x) as nat)
    } else {
        decimal(x as nat)
    }
}

/// `{"type":"Success","value":`
pub open spec fn success_head() -> Seq<u8> {
    seq![
        0x7bu8, 0x22, 0x74, 0x79, 0x70, 0x65, 0x22, 0x3a, 0x22, 0x53, 0x75, 0x63, 0x63, 0x65,
        0x73, 0x73, 0x22, 0x2c, 0x22, 0x76, 0x61, 0x6c, 0x75, 0x65, 0x22, 0x3a,
    ]
}

/// `{"type":"Error","message":`
pub open spec fn error_head() -> Seq<u8> {
    seq![
        0x7bu8, 0x22, 0x74, 0x79, 0x70, 0x65, 0x22, 0x3a, 0x22, 0x45, 0x72, 0x72, 0x6f, 0x72,
        0x22, 0x2c, 0x22, 0x6d, 0x65, 0x73, 0x73, 0x61, 0x67, 0x65, 0x22, 0x3a,
    ]
}

/// A reply as one JSON object, without the line's newline.
pub open spec fn response_text(m: ResponseModel) -> Seq<u8> {
    match m {
        ResponseModel::Ping(s) => success_head() + json_string(s) + seq![0x7du8],
        ResponseModel::Echo(s) => success_head() + json_string(s) + seq![0x7du8],
        ResponseModel::Add(x) => success_head() + json_int(x as int) + seq![0x7du8],
        ResponseModel::Error(s) => error_head() + json_string(s) + seq![0x7du8],
    }
}

fn push_escaped(out: &mut Vec<u8>, b: &[u8])
    ensures
        final(out)@ == old(out)@ + escape_bytes(b@),
{
    let ghost start = out@;
    let mut i: usize = 0;
    while i < b.len()
        invariant
            i <= b@.len(),
            out@ == start + escape_bytes(b@.subrange(0, i as int)),
        decreases b.len() - i,
    {
        let c = b[i];
        proof {
            let pre = b@.subrange(0, i as int + 1);
            assert(pre.drop_last() =~= b@.subrange(0, i as int));
            assert(pre.last() == c);
        }
        let ghost before = out@;
        if c == 0x22 {
            out.push(0x5c);
            out.push(0x22);
        } else if c == 0x5c {
            out.push(0x5c);
            out.push(0x5c);
        } else if c == 0x0a {
            out.push(0x5c);
            out.push(0x6e);
        } else if c == 0x0d {
            out.push(0x5c);
            out.push(0x72);
        } else if c == 0x09 {
            out.push(0x5c);
            out.push(0x74);
        } else if c < 0x20 {
            out.push(0x5c);
            out.push(0x75);
            out.push(0x30);
            out.push(0x30);
            out.push(hex(c / 16));
            out.push(hex(c % 16));
        } else {
            out.push(c);
        }
        assert(out@ =~= before + escape_byte(c));
        i = i + 1;
    }
    assert(b@.subrange(0, b@.len() as int) =~= b@);
}

fn hex(d: u8) -> (r: u8)
    requires
        d < 16,
    ensures
        r == hex_digit(d),
{
    if d < 10 {
        0x30 + d
    } else {
        0x61 + d - 10
    }
}

fn push_seq(out: &mut Vec<u8>, b: &[u8])
    ensures
        final(out)@ == old(out)@ + b@,
{
    let mut tmp = vstd::slice::slice_to_vec(b);
    out.append(&mut tmp);
}

fn push_json_string(out: &mut Vec<u8>, s: &String)
    ensures
        final(out)@ == old(out)@ + json_string(s@),
{
    let ghost start = out@;
    out.push(0x22);
    push_escaped(out, s.as_str().as_bytes());
    out.push(0x22);
    assert(out@ =~= start + json_string(s@));
}

fn push_decimal(out: &mut Vec<u8>, n: u64)
    ensures
        final(out)@ == old(out)@ + decimal(n as nat),
    decreases n,
{
    if n >= 10 {
        push_decimal(out, n / 10);
    }
    let ghost before = out@;
    out.push((0x30 + n % 10) as u8);
    assert(out@ =~= before + seq![(0x30 + n % 10) as u8]);
    proof {
        if n >= 10 {
            assert(out@ =~= old(out)@ + decimal(n as nat));
        }
    }
}

fn push_json_int(out: &mut Vec<u8>, x: i32)
    ensures
        final(out)@ == old(out)@ + json_int(x as int),
{
    if x < 0 {
        let ghost start = out@;
        out.push(0x2d);
        let m: u64 = (0 - (x as i64)) as u64;
        push_decimal(out, m);
        assert(out@ =~= start + json_int(x as int));
    } else {
        push_decimal(out, x as u64);
    }
}

/// Writes a reply as one JSON object: `{"type":"Success","value":...}`, or
/// `{"type":"Error","message":...}` for the error reply.
pub fn encode_text_response(resp: &AnyResponse) -> (r: Vec<u8>)
    ensures
        r@ == response_text(resp@),
{
    let mut out: Vec<u8> = Vec::new();
    let head: [u8; 26] = match resp {
        AnyResponse::Error(_) => [
            0x7b, 0x22, 0x74, 0x79, 0x70, 0x65, 0x22, 0x3a, 0x22, 0x45, 0x72, 0x72, 0x6f, 0x72,
            0x22, 0x2c, 0x22, 0x6d, 0x65, 0x73, 0x73, 0x61, 0x67, 0x65, 0x22, 0x3a,
        ],
        _ => [
            0x7b, 0x22, 0x74, 0x79, 0x70, 0x65, 0x22, 0x3a, 0x22, 0x53, 0x75, 0x63, 0x63, 0x65,
            0x73, 0x73, 0x22, 0x2c, 0x22, 0x76, 0x61, 0x6c, 0x75, 0x65, 0x22, 0x3a,
        ],
    };
    push_seq(&mut out, head.as_slice());
    match resp {
        AnyResponse::Ping(p) => push_json_string(&mut out, &p.0),
        AnyResponse::Echo(e) => push_json_string(&mut out, &e.0),
        AnyResponse::Add(x) => push_json_int(&mut out, x.sum),
        AnyResponse::Error(e) => push_json_string(&mut out, &e.0),
    }
    out.push(0x7d);
    proof {
        match resp {
            AnyResponse::Error(_) => assert(head@ =~= error_head()),
            _ => assert(head@ =~= success_head()),
        }
    }
    assert(out@ =~= response_text(resp@));
    out
}

/// The first value under `key`, if any member has that key.
pub open spec fn lookup(ms: Seq<(Seq<u8>, JsonValue)>, key: Seq<u8>) -> Option<JsonValue>
    decreases ms.len(),
{
    if ms.len() == 0 {
        None
    } else if ms[0].0 == key {
        Some(ms[0].1)
    } else {
        lookup(ms.drop_first(), key)
    }
}

/// `type`
pub open spec fn key_type() -> Seq<u8> {
    seq![0x74u8, 0x79, 0x70, 0x65]
}

/// `message`
pub open spec fn key_message() -> Seq<u8> {
    seq![0x6du8, 0x65, 0x73, 0x73, 0x61, 0x67, 0x65]
}

/// `a`
pub open spec fn key_a() -> Seq<u8> {
    seq![0x61u8]
}

/// `b`
pub open spec fn key_b() -> Seq<u8> {
    seq![0x62u8]
}

/// `Ping`
pub open spec fn name_ping() -> Seq<u8> {
    seq![0x50u8, 0x69, 0x6e, 0x67]
}

/// `Echo`
pub open spec fn name_echo() -> Seq<u8> {
    seq![0x45u8, 0x63, 0x68, 0x6f]
}

/// `Add`
pub open spec fn name_add() -> Seq<u8> {
    seq![0x41u8, 0x64, 0x64]
}

/// A string field of a request object.
pub open spec fn string_field(ms: Seq<(Seq<u8>, JsonValue)>, key: Seq<u8>) -> Result<
    Seq<char>,
    BodyError,
> {
    match lookup(ms, key) {
        None => Err(BodyError::MissingField),
        Some(JsonValue::Int(_)) => Err(BodyError::WrongType),
        Some(JsonValue::Str(v)) => if valid_utf8(v) {
            Ok(decode_utf8(v))
        } else {
            Err(BodyError::InvalidUtf8)
        },
    }
}

/// An `i32` field of a request object.
pub open spec fn i32_field(ms: Seq<(Seq<u8>, JsonValue)>, key: Seq<u8>) -> Result<i32, BodyError> {
    match lookup(ms, key) {
        None => Err(BodyError::MissingField),
        Some(JsonValue::Str(_)) => Err(BodyError::WrongType),
        Some(JsonValue::Int(None)) => Err(BodyError::OutOfRange),
        Some(JsonValue::Int(Some(x))) => Ok(x),
    }
}

/// What a request line reads as: a flat JSON object whose `type` member names
/// the kind, beside that kind's own fields. Other members are ignored.
pub open spec fn parse_text_request(line: Seq<u8>) -> Result<RequestModel, DecodeError> {
    match parse_object_spec(line) {
        None => Err(DecodeError::UnknownTag),
        Some(ms) => match lookup(ms, key_type()) {
            Some(JsonValue::Str(t)) => if t == name_ping() {
                Ok(RequestModel::Ping)
            } else if t == name_echo() {
                match string_field(ms, key_message()) {
                    Ok(s) => Ok(RequestModel::Echo(s)),
                    Err(e) => Err(DecodeError::Malformed(TAG_ECHO, e)),
                }
            } else if t == name_add() {
                match (i32_field(ms, key_a()), i32_field(ms, key_b())) {
                    (Ok(a), Ok(b)) => Ok(RequestModel::Add(a, b)),
                    (Err(e), _) => Err(DecodeError::Malformed(TAG_ADD, e)),
                    (_, Err(e)) => Err(DecodeError::Malformed(TAG_ADD, e)),
                }
            } else {
                Err(DecodeError::UnknownTag)
            },
            _ => Err(DecodeError::UnknownTag),
        },
    }
}

fn bytes_eq(a: &[u8], b: &[u8]) -> (r: bool)
    ensures
        r == (a@ == b@),
{
    if a.len() != b.len() {
        return false;
    }
    let mut i: usize = 0;
    while i < a.len()
        invariant
            a@.len() == b@.len(),
            i <= a@.len(),
            forall|k: int| 0 <= k < i ==> a@[k] == b@[k],
        decreases a.len() - i,
    {
        if a[i] != b[i] {
            return false;
        }
        i = i + 1;
    }
    assert(a@ =~= b@);
    true
}

/// The first value under `key` among `ms`.
pub fn find_member<'a>(ms: &'a Vec<JsonMember>, key: &[u8]) -> (r: Option<&'a JsonScalar>)
    ensures
        match (r, lookup(members_view(ms@), key@)) {
            (Some(x), Some(y)) => x@ == y,
            (None, None) => true,
            _ => false,
        },
{
    let ghost all = members_view(ms@);
    let mut i: usize = 0;
    assert(all.subrange(0, all.len() as int) =~= all);
    while i < ms.len()
        invariant
            i <= ms@.len(),
            all == members_view(ms@),
            lookup(all, key@) == lookup(all.subrange(i as int, all.len() as int), key@),
        decreases ms.len() - i,
    {
        let ghost rest = all.subrange(i as int, all.len() as int);
        assert(rest[0] == all[i as int]);
        if bytes_eq(ms[i].0.as_slice(), key) {
            return Some(&ms[i].1);
        }
        assert(rest.drop_first() =~= all.subrange(i + 1, all.len() as int));
        i = i + 1;
    }
    None
}

fn string_field_of(ms: &Vec<JsonMember>, key: &[u8]) -> (r: Result<String, BodyError>)
    ensures
        match (r, string_field(members_view(ms@), key@)) {
            (Ok(s), Ok(t)) => s@ == t,
            (Err(e), Err(f)) => e == f,
            _ => false,
        },
{
    match find_member(ms, key) {
        None => Err(BodyError::MissingField),
        Some(JsonScalar::Int(_)) => Err(BodyError::WrongType),
        Some(JsonScalar::Str(v)) => match string_from_utf8(v.clone()) {
            Some(s) => {
                proof {
                    vstd::utf8::encode_utf8_decode_utf8(s@);
                }
                Ok(s)
            },
            None => Err(BodyError::InvalidUtf8),
        },
    }
}

fn i32_field_of(ms: &Vec<JsonMember>, key: &[u8]) -> (r: Result<i32, BodyError>)
    ensures
        match (r, i32_field(members_view(ms@), key@)) {
            (Ok(x), Ok(y)) => x == y,
            (Err(e), Err(f)) => e == f,
            _ => false,
        },
{
    match find_member(ms, key) {
        None => Err(BodyError::MissingField),
        Some(JsonScalar::Str(_)) => Err(BodyError::WrongType),
        Some(JsonScalar::Int(None)) => Err(BodyError::OutOfRange),
        Some(JsonScalar::Int(Some(x))) => Ok(*x),
    }
}

/// Reads a request line: the `type` member picks the kind, then that kind's
/// fields are read from the same object.
pub fn decode_text_request(line: &[u8]) -> (r: Result<AnyRequest, DecodeError>)
    ensures
        request_result_view(r) == parse_text_request(line@),
{
    let ms = match parse_object(line) {
        Some(ms) => ms,
        None => {
            return Err(DecodeError::UnknownTag);
        },
    };
    let k_type: [u8; 4] = [0x74, 0x79, 0x70, 0x65];
    let k_message: [u8; 7] = [0x6d, 0x65, 0x73, 0x73, 0x61, 0x67, 0x65];
    let k_a: [u8; 1] = [0x61];
    let k_b: [u8; 1] = [0x62];
    let n_ping: [u8; 4] = [0x50, 0x69, 0x6e, 0x67];
    let n_echo: [u8; 4] = [0x45, 0x63, 0x68, 0x6f];
    let n_add: [u8; 3] = [0x41, 0x64, 0x64];
    assert(k_type@ =~= key_type());
    assert(k_message@ =~= key_message());
    assert(k_a@ =~= key_a());
    assert(k_b@ =~= key_b());
    assert(n_ping@ =~= name_ping());
    assert(n_echo@ =~= name_echo());
    assert(n_add@ =~= name_add());
    let t = match find_member(&ms, k_type.as_slice()) {
        Some(JsonScalar::Str(t)) => t,
        _ => {
            return Err(DecodeError::UnknownTag);
        },
    };
    if bytes_eq(t.as_slice(), n_ping.as_slice()) {
        Ok(AnyRequest::Ping(Ping))
    } else if bytes_eq(t.as_slice(), n_echo.as_slice()) {
        match string_field_of(&ms, k_message.as_slice()) {
            Ok(message) => Ok(AnyRequest::Echo(Echo { message })),
            Err(e) => Err(DecodeError::Malformed(TAG_ECHO, e)),
        }
    } else if bytes_eq(t.as_slice(), n_add.as_slice()) {
        let a = i32_field_of(&ms, k_a.as_slice());
        let b = i32_field_of(&ms, k_b.as_slice());
        match (a, b) {
            (Ok(a), Ok(b)) => Ok(AnyRequest::Add(Add { a, b })),
            (Err(e), _) => Err(DecodeError::Malformed(TAG_ADD, e)),
            (_, Err(e)) => Err(DecodeError::Malformed(TAG_ADD, e)),
        }
    } else {
        Err(DecodeError::UnknownTag)
    }
}

/// A JSON string literal holding the text whose UTF-8 bytes are `x`.
pub open spec fn quoted(x: Seq<u8>) -> Seq<u8> {
    seq![0x22u8] + escape_bytes(x) + seq![0x22u8]
}

/// A member whose value is a string.
pub open spec fn str_member(k: Seq<u8>, x: Seq<u8>) -> Seq<u8> {
    quoted(k) + seq![0x3au8] + quoted(x)
}

/// A member whose value is an integer.
pub open spec fn int_member(k: Seq<u8>, n: int) -> Seq<u8> {
    quoted(k) + seq![0x3au8] + json_int(n)
}

/// A request as one JSON line's object, without the newline.
pub open spec fn request_text(m: RequestModel) -> Seq<u8> {
    match m {
        RequestModel::Ping => seq![0x7bu8] + str_member(key_type(), name_ping()) + seq![0x7du8],
        RequestModel::Echo(s) => seq![0x7bu8] + str_member(key_type(), name_echo()) + seq![0x2cu8]
            + str_member(key_message(), encode_utf8(s)) + seq![0x7du8],
        RequestModel::Add(a, b) => seq![0x7bu8] + str_member(key_type(), name_add()) + seq![0x2cu8]
            + int_member(key_a(), a as int) + seq![0x2cu8] + int_member(key_b(), b as int)
            + seq![0x7du8],
    }
}

/// Whether byte `c` stands for itself inside a JSON string literal.
pub open spec fn is_plain(c: u8) -> bool {
    c >= 0x20 && c != 0x22 && c != 0x5c
}

proof fn lemma_escape_concat(a: Seq<u8>, b: Seq<u8>)
    ensures
        escape_bytes(a + b) == escape_bytes(a) + escape_bytes(b),
    decreases b.len(),
{
    if b.len() == 0 {
        assert(a + b =~= a);
        assert(escape_bytes(a) + escape_bytes(b) =~= escape_bytes(a));
    } else {
        assert((a + b).drop_last() =~= a + b.drop_last());
        assert((a + b).last() == b.last());
        lemma_escape_concat(a, b.drop_last());
        assert(escape_bytes(a) + escape_bytes(b.drop_last()) + escape_byte(b.last()) =~= escape_bytes(
            a,
        ) + escape_bytes(b));
    }
}

proof fn lemma_escape_plain(x: Seq<u8>)
    requires
        forall|k: int| 0 <= k < x.len() ==> is_plain(#[trigger] x[k]),
    ensures
        escape_bytes(x) == x,
    decreases x.len(),
{
    if x.len() > 0 {
        assert(is_plain(x[x.len() - 1]));
        lemma_escape_plain(x.drop_last());
        assert(x.drop_last() + seq![x.last()] =~= x);
    }
}

proof fn lemma_unescape_one(b: Seq<u8>, i: int, c: u8)
    requires
        0 <= i,
        i + escape_byte(c).len() <= b.len(),
        b.subrange(i, i + escape_byte(c).len()) == escape_byte(c),
    ensures
        unescape(b, i) == prepend(seq![c], unescape(b, i + escape_byte(c).len())),
{
    let e = escape_byte(c);
    assert forall|k: int| 0 <= k < e.len() implies b[i + k] == #[trigger] e[k] by {
        assert(b.subrange(i, i + e.len())[k] == b[i + k]);
    }
    assert(b[i] == e[0]);
    if c < 0x20 && c != 0x0a && c != 0x0d && c != 0x09 {
        let hi = c / 16;
        let lo = c % 16;
        assert(b[i + 4] == hex_digit(hi));
        assert(b[i + 5] == hex_digit(lo));
        assert(hex_value(hex_digit(lo)) == Some(lo));
        assert(((hex_digit(hi) - 0x30) * 16 + lo) as u8 == c) by (nonlinear_arith)
            requires
                hi == c / 16,
                lo == c % 16,
                c < 0x20,
                hex_digit(hi) == (0x30 + hi) as u8,
        ;
    }
}

proof fn lemma_unescape_escaped(b: Seq<u8>, i: int, x: Seq<u8>)
    requires
        0 <= i,
        i + escape_bytes(x).len() < b.len(),
        b.subrange(i, i + escape_bytes(x).len()) == escape_bytes(x),
        b[i + escape_bytes(x).len()] == 0x22,
    ensures
        unescape(b, i) == Some((x, i + escape_bytes(x).len() + 1)),
    decreases x.len(),
{
    if x.len() == 0 {
    } else {
        let c = x[0];
        let rest = x.drop_first();
        assert(seq![c] + rest =~= x);
        lemma_escape_concat(seq![c], rest);
        assert(seq![c].drop_last() =~= Seq::<u8>::empty());
        assert(escape_bytes(Seq::<u8>::empty()) =~= Seq::<u8>::empty());
        assert(escape_bytes(seq![c]) =~= escape_byte(c));
        let w = escape_byte(c).len() as int;
        let n = escape_bytes(x).len() as int;
        assert(b.subrange(i, i + w) =~= b.subrange(i, i + n).subrange(0, w));
        assert(b.subrange(i + w, i + n) =~= b.subrange(i, i + n).subrange(w, n));
        assert(escape_bytes(x).subrange(0, w) =~= escape_byte(c));
        assert(escape_bytes(x).subrange(w, n) =~= escape_bytes(rest));
        lemma_unescape_one(b, i, c);
        lemma_unescape_escaped(b, i + w, rest);
    }
}

proof fn lemma_parse_quoted(b: Seq<u8>, i: int, x: Seq<u8>)
    requires
        0 <= i,
        i + quoted(x).len() <= b.len(),
        b.subrange(i, i + quoted(x).len()) == quoted(x),
    ensures
        parse_string(b, i) == Some((x, i + quoted(x).len())),
{
    let q = quoted(x);
    let n = escape_bytes(x).len() as int;
    assert(b[i] == q[0]);
    assert(b[i + n + 1] == q[n + 1]);
    assert(b.subrange(i + 1, i + 1 + n) =~= q.subrange(1, 1 + n));
    assert(q.subrange(1, 1 + n) =~= escape_bytes(x));
    lemma_unescape_escaped(b, i + 1, x);
}

proof fn lemma_decimal_digits(b: Seq<u8>, i: int, n: nat)
    requires
        0 <= i,
        i + decimal(n).len() <= b.len(),
        b.subrange(i, i + decimal(n).len()) == decimal(n),
    ensures
        decimal(n).len() >= 1,
        forall|k: int| i <= k < i + decimal(n).len() ==> is_digit(#[trigger] b[k]),
        digits_value(b, i, i + decimal(n).len()) == n,
    decreases n,
{
    let d = decimal(n);
    assert forall|k: int| 0 <= k < d.len() implies b[i + k] == #[trigger] d[k] by {
        assert(b.subrange(i, i + d.len())[k] == b[i + k]);
    }
    if n >= 10 {
        let p = decimal(n / 10);
        assert(d =~= p + seq![(0x30 + n % 10) as u8]);
        assert(b.subrange(i, i + p.len()) =~= b.subrange(i, i + d.len()).subrange(0, p.len() as int));
        assert(d.subrange(0, p.len() as int) =~= p);
        lemma_decimal_digits(b, i, n / 10);
        assert(d[p.len() as int] == (0x30 + n % 10) as u8);
        assert(b[i + p.len()] == d[p.len() as int]);
        assert((n / 10) * 10 + n % 10 == n) by (nonlinear_arith);
        assert forall|k: int| i <= k < i + d.len() implies is_digit(#[trigger] b[k]) by {
            if k < i + p.len() {
            } else {
                assert(b[k] == d[k - i]);
            }
        }
    } else {
        assert forall|k: int| i <= k < i + d.len() implies is_digit(#[trigger] b[k]) by {
            assert(b[k] == d[k - i]);
        }
        assert(digits_value(b, i, i) == 0);
        assert(b[i] == d[0]);
    }
}

proof fn lemma_digits_end(b: Seq<u8>, i: int, k: int)
    requires
        0 <= i <= k <= b.len(),
        forall|m: int| i <= m < k ==> is_digit(#[trigger] b[m]),
    ensures
        digits_end(b, i) == digits_end(b, k),
    decreases k - i,
{
    if i < k {
        lemma_digits_end(b, i + 1, k);
    }
}

proof fn lemma_parse_int(b: Seq<u8>, i: int, x: i32)
    requires
        0 <= i,
        i + json_int(x as int).len() < b.len(),
        b.subrange(i, i + json_int(x as int).len()) == json_int(x as int),
        !is_digit(b[i + json_int(x as int).len()]),
    ensures
        parse_number(b, i) == Some((Some(x), i + json_int(x as int).len())),
{
    let t = json_int(x as int);
    let e = i + t.len();
    if x < 0 {
        let d = decimal((-x) as nat);
        assert(b[i] == t[0]);
        assert(b.subrange(i + 1, e) =~= b.subrange(i, e).subrange(1, t.len() as int));
        assert(t.subrange(1, t.len() as int) =~= d);
        lemma_decimal_digits(b, i + 1, (-x) as nat);
        lemma_digits_end(b, i + 1, e);
    } else {
        let d = decimal(x as nat);
        lemma_decimal_digits(b, i, x as nat);
        assert(d[0] == b[i]);
        lemma_digits_end(b, i, e);
    }
}

proof fn lemma_str_member(b: Seq<u8>, i: int, k: Seq<u8>, x: Seq<u8>)
    requires
        0 <= i,
        i + str_member(k, x).len() <= b.len(),
        b.subrange(i, i + str_member(k, x).len()) == str_member(k, x),
    ensures
        parse_string(b, i) == Some((k, i + quoted(k).len())),
        b[i + quoted(k).len()] == 0x3a,
        parse_value(b, i + quoted(k).len() + 1) == Some(
            (JsonValue::Str(x), i + str_member(k, x).len()),
        ),
{
    let m = str_member(k, x);
    let qk = quoted(k);
    let j = i + qk.len();
    assert(b.subrange(i, j) =~= m.subrange(0, qk.len() as int));
    assert(m.subrange(0, qk.len() as int) =~= qk);
    lemma_parse_quoted(b, i, k);
    assert(b[j] == m[qk.len() as int]);
    assert(b.subrange(j + 1, i + m.len()) =~= m.subrange(qk.len() as int + 1, m.len() as int));
    assert(m.subrange(qk.len() as int + 1, m.len() as int) =~= quoted(x));
    assert(b[j + 1] == m[qk.len() as int + 1]);
    lemma_parse_quoted(b, j + 1, x);
}

proof fn lemma_int_member(b: Seq<u8>, i: int, k: Seq<u8>, x: i32)
    requires
        0 <= i,
        i + int_member(k, x as int).len() < b.len(),
        b.subrange(i, i + int_member(k, x as int).len()) == int_member(k, x as int),
        !is_digit(b[i + int_member(k, x as int).len()]),
    ensures
        parse_string(b, i) == Some((k, i + quoted(k).len())),
        b[i + quoted(k).len()] == 0x3a,
        parse_value(b, i + quoted(k).len() + 1) == Some(
            (JsonValue::Int(Some(x)), i + int_member(k, x as int).len()),
        ),
{
    let m = int_member(k, x as int);
    let qk = quoted(k);
    let j = i + qk.len();
    assert(b.subrange(i, j) =~= m.subrange(0, qk.len() as int));
    assert(m.subrange(0, qk.len() as int) =~= qk);
    lemma_parse_quoted(b, i, k);
    assert(b[j] == m[qk.len() as int]);
    assert(b.subrange(j + 1, i + m.len()) =~= m.subrange(qk.len() as int + 1, m.len() as int));
    assert(m.subrange(qk.len() as int + 1, m.len() as int) =~= json_int(x as int));
    assert(b[j + 1] == m[qk.len() as int + 1]);
    lemma_parse_int(b, j + 1, x);
}

proof fn lemma_names_plain()
    ensures
        escape_bytes(key_type()) == key_type(),
        escape_bytes(key_message()) == key_message(),
        escape_bytes(key_a()) == key_a(),
        escape_bytes(key_b()) == key_b(),
        escape_bytes(name_ping()) == name_ping(),
        escape_bytes(name_echo()) == name_echo(),
        escape_bytes(name_add()) == name_add(),
        key_type() != key_message(),
        key_type() != key_a(),
        key_type() != key_b(),
        key_a() != key_b(),
        name_ping() != name_echo(),
        name_ping() != name_add(),
        name_echo() != name_add(),
{
    lemma_escape_plain(key_type());
    lemma_escape_plain(key_message());
    lemma_escape_plain(key_a());
    lemma_escape_plain(key_b());
    lemma_escape_plain(name_ping());
    lemma_escape_plain(name_echo());
    lemma_escape_plain(name_add());
    assert(key_a()[0] != key_b()[0]);
    assert(name_ping()[0] != name_echo()[0]);
}

proof fn lemma_text_ping()
    ensures
        parse_text_request(request_text(RequestModel::Ping)) == Ok::<RequestModel, DecodeError>(
            RequestModel::Ping,
        ),
{
    lemma_names_plain();
    let b = request_text(RequestModel::Ping);
    let m1: Seq<u8> = str_member(key_type(), name_ping());
    assert(b.subrange(1, 1 + m1.len() as int) =~= m1);
    lemma_str_member(b, 1, key_type(), name_ping());
    assert(b[1 + m1.len() as int] == 0x7d);
    let ms = seq![(key_type(), JsonValue::Str(name_ping()))];
    assert(parse_members(b, 1) == Some((ms, b.len() as int)));
    assert(parse_object_spec(b) == Some(ms));
    assert(lookup(ms, key_type()) == Some(JsonValue::Str(name_ping())));
}

#[verifier::rlimit(100)]
proof fn lemma_echo_object(x: Seq<u8>)
    ensures
        parse_object_spec(
            seq![0x7bu8] + str_member(key_type(), name_echo()) + seq![0x2cu8] + str_member(
                key_message(),
                x,
            ) + seq![0x7du8],
        ) == Some(
            seq![(key_type(), JsonValue::Str(name_echo())), (key_message(), JsonValue::Str(x))],
        ),
{
    lemma_names_plain();
    let m1: Seq<u8> = str_member(key_type(), name_echo());
    let m2: Seq<u8> = str_member(key_message(), x);
    let b = seq![0x7bu8] + m1 + seq![0x2cu8] + m2 + seq![0x7du8];
    let i2: int = 2 + m1.len() as int;
    assert(b.subrange(1, 1 + m1.len() as int) =~= m1);
    lemma_str_member(b, 1, key_type(), name_echo());
    assert(b[1 + m1.len() as int] == 0x2c);
    assert(b.subrange(i2, i2 + m2.len() as int) =~= m2);
    lemma_str_member(b, i2, key_message(), x);
    assert(b[i2 + m2.len() as int] == 0x7d);
    let e1 = (key_type(), JsonValue::Str(name_echo()));
    let e2 = (key_message(), JsonValue::Str(x));
    assert(parse_members(b, i2) == Some((seq![e2], b.len() as int)));
    assert(seq![e1] + seq![e2] =~= seq![e1, e2]);
    assert(parse_members(b, 1) == Some((seq![e1, e2], b.len() as int)));
}

proof fn lemma_text_echo(s: Seq<char>)
    ensures
        parse_text_request(request_text(RequestModel::Echo(s))) == Ok::<RequestModel, DecodeError>(
            RequestModel::Echo(s),
        ),
{
    lemma_names_plain();
    lemma_echo_object(encode_utf8(s));
    let e1 = (key_type(), JsonValue::Str(name_echo()));
    let e2 = (key_message(), JsonValue::Str(encode_utf8(s)));
    let ms = seq![e1, e2];
    assert(lookup(ms, key_type()) == Some(e1.1));
    assert(ms.drop_first() =~= seq![e2]);
    assert(lookup(seq![e2], key_message()) == Some(e2.1));
    assert(lookup(ms, key_message()) == Some(e2.1));
    vstd::utf8::encode_utf8_valid_utf8(s);
    vstd::utf8::encode_utf8_decode_utf8(s);
    assert(string_field(ms, key_message()) == Ok::<Seq<char>, BodyError>(s));
}

#[verifier::rlimit(100)]
proof fn lemma_add_object(x: i32, y: i32)
    ensures
        parse_object_spec(request_text(RequestModel::Add(x, y))) == Some(
            seq![
                (key_type(), JsonValue::Str(name_add())),
                (key_a(), JsonValue::Int(Some(x))),
                (key_b(), JsonValue::Int(Some(y))),
            ],
        ),
{
    lemma_names_plain();
    let b = request_text(RequestModel::Add(x, y));
    let m1: Seq<u8> = str_member(key_type(), name_add());
    let m2: Seq<u8> = int_member(key_a(), x as int);
    let m3: Seq<u8> = int_member(key_b(), y as int);
    let i2: int = 2 + m1.len() as int;
    let i3: int = i2 + m2.len() + 1;
    assert(b.subrange(1, 1 + m1.len() as int) =~= m1);
    lemma_str_member(b, 1, key_type(), name_add());
    assert(b[1 + m1.len() as int] == 0x2c);
    assert(b.subrange(i2, i2 + m2.len() as int) =~= m2);
    assert(b[i2 + m2.len() as int] == 0x2c);
    lemma_int_member(b, i2, key_a(), x);
    assert(b.subrange(i3, i3 + m3.len() as int) =~= m3);
    assert(b[i3 + m3.len() as int] == 0x7d);
    lemma_int_member(b, i3, key_b(), y);
    let e1 = (key_type(), JsonValue::Str(name_add()));
    let e2 = (key_a(), JsonValue::Int(Some(x)));
    let e3 = (key_b(), JsonValue::Int(Some(y)));
    assert(parse_members(b, i3) == Some((seq![e3], b.len() as int)));
    assert(seq![e2] + seq![e3] =~= seq![e2, e3]);
    assert(parse_members(b, i2) == Some((seq![e2, e3], b.len() as int)));
    assert(seq![e1] + seq![e2, e3] =~= seq![e1, e2, e3]);
    assert(parse_members(b, 1) == Some((seq![e1, e2, e3], b.len() as int)));
}

proof fn lemma_text_add(x: i32, y: i32)
    ensures
        parse_text_request(request_text(RequestModel::Add(x, y))) == Ok::<
            RequestModel,
            DecodeError,
        >(RequestModel::Add(x, y)),
{
    lemma_names_plain();
    lemma_add_object(x, y);
    let e1 = (key_type(), JsonValue::Str(name_add()));
    let e2 = (key_a(), JsonValue::Int(Some(x)));
    let e3 = (key_b(), JsonValue::Int(Some(y)));
    let ms = seq![e1, e2, e3];
    assert(lookup(ms, key_type()) == Some(e1.1));
    assert(ms.drop_first() =~= seq![e2, e3]);
    assert(seq![e2, e3].drop_first() =~= seq![e3]);
    assert(lookup(seq![e3], key_b()) == Some(e3.1));
    assert(lookup(seq![e2, e3], key_b()) == Some(e3.1));
    assert(lookup(ms, key_b()) == Some(e3.1));
    assert(lookup(seq![e2, e3], key_a()) == Some(e2.1));
    assert(lookup(ms, key_a()) == Some(e2.1));
}

/// A request's line reads back as that same request.
pub proof fn lemma_text_request_round_trip(m: RequestModel)
    ensures
        parse_text_request(request_text(m)) == Ok::<RequestModel, DecodeError>(m),
{
    match m {
        RequestModel::Ping => lemma_text_ping(),
        RequestModel::Echo(s) => lemma_text_echo(s),
        RequestModel::Add(x, y) => lemma_text_add(x, y),
    }
}

/// Writes a request as one JSON object, without the line's newline.
pub fn encode_text_request(req: &AnyRequest) -> (r: Vec<u8>)
    ensures
        r@ == request_text(req@),
{
    proof {
        lemma_names_plain();
    }
    let mut out: Vec<u8> = Vec::new();
    match req {
        AnyRequest::Ping(_) => {
            let all: [u8; 15] = [
                0x7b, 0x22, 0x74, 0x79, 0x70, 0x65, 0x22, 0x3a, 0x22, 0x50, 0x69, 0x6e, 0x67, 0x22,
                0x7d,
            ];
            push_seq(&mut out, all.as_slice());
            assert(out@ =~= request_text(req@));
        },
        AnyRequest::Echo(e) => {
            let head: [u8; 25] = [
                0x7b, 0x22, 0x74, 0x79, 0x70, 0x65, 0x22, 0x3a, 0x22, 0x45, 0x63, 0x68, 0x6f, 0x22,
                0x2c, 0x22, 0x6d, 0x65, 0x73, 0x73, 0x61, 0x67, 0x65, 0x22, 0x3a,
            ];
            push_seq(&mut out, head.as_slice());
            push_json_string(&mut out, &e.message);
            out.push(0x7d);
            assert(out@ =~= request_text(req@));
        },
        AnyRequest::Add(x) => {
            let head: [u8; 18] = [
                0x7b, 0x22, 0x74, 0x79, 0x70, 0x65, 0x22, 0x3a, 0x22, 0x41, 0x64, 0x64, 0x22, 0x2c,
                0x22, 0x61, 0x22, 0x3a,
            ];
            let mid: [u8; 5] = [0x2c, 0x22, 0x62, 0x22, 0x3a];
            push_seq(&mut out, head.as_slice());
            push_json_int(&mut out, x.a);
            push_seq(&mut out, mid.as_slice());
            push_json_int(&mut out, x.b);
            out.push(0x7d);
            assert(out@ =~= request_text(req@));
        },
    }
    out
}

} // verus!
