use vstd::prelude::*;

verus! {

/// Largest payload that a length prefix can describe.
pub const MAX_PREFIXED_LEN: usize = 0xffff_ffff;

/// Frame size used by a session unless another bound is given.
pub const DEFAULT_MAX_FRAME: usize = 8 * 1024 * 1024;

/// The four big-endian bytes of `n`, for `n < 2^32`.
pub open spec fn be32_bytes(n: nat) -> Seq<u8> {
    seq![
        (n / 0x100_0000 % 0x100) as u8,
        (n / 0x1_0000 % 0x100) as u8,
        (n / 0x100 % 0x100) as u8,
        (n % 0x100) as u8,
    ]
}

/// The number that the first four bytes of `b` hold, read big-endian.
pub open spec fn be32_value(b: Seq<u8>) -> nat
    recommends
        b.len() >= 4,
{
    (b[0] as nat) * 0x100_0000 + (b[1] as nat) * 0x1_0000 + (b[2] as nat) * 0x100 + (b[3] as nat)
}

/// A length-prefixed frame: the payload's length as a big-endian `u32`, then the payload.
pub open spec fn prefixed_frame(payload: Seq<u8>) -> Seq<u8> {
    be32_bytes(payload.len()) + payload
}

/// What the front of a receive buffer holds.
#[derive(Clone, Copy, Debug, PartialEq, Eq, Structural)]
pub enum FrameStep {
    /// A whole frame whose payload has this many bytes; the frame takes four more.
    Complete(usize),
    /// Not enough bytes yet to finish the first frame.
    Incomplete,
    /// The first frame announces a payload above the allowed maximum.
    TooLarge,
}

/// How a length-prefixed frame is cut from the front of `buf` when payloads may
/// hold at most `max` bytes.
pub open spec fn prefixed_step(buf: Seq<u8>, max: nat) -> FrameStep {
    if buf.len() < 4 {
        FrameStep::Incomplete
    } else if be32_value(buf) > max {
        FrameStep::TooLarge
    } else if buf.len() < 4 + be32_value(buf) {
        FrameStep::Incomplete
    } else {
        FrameStep::Complete(be32_value(buf) as usize)
    }
}

pub proof fn lemma_be32_round_trip(n: nat)
    requires
        n <= 0xffff_ffff,
    ensures
        be32_bytes(n).len() == 4,
        be32_value(be32_bytes(n)) == n,
{
    let b = be32_bytes(n);
    assert(b[0] as nat == n / 0x100_0000 % 0x100);
    assert(b[1] as nat == n / 0x1_0000 % 0x100);
    assert(b[2] as nat == n / 0x100 % 0x100);
    assert(b[3] as nat == n % 0x100);
    assert((n / 0x100_0000 % 0x100) * 0x100_0000 + (n / 0x1_0000 % 0x100) * 0x1_0000 + (n / 0x100
        % 0x100) * 0x100 + n % 0x100 == n) by (nonlinear_arith)
        requires
            n <= 0xffff_ffff,
    ;
}

/// Frames `payload` with its length as a four-byte big-endian prefix.
pub fn encode_frame(payload: &[u8]) -> (r: Vec<u8>)
    requires
        payload@.len() <= MAX_PREFIXED_LEN,
    ensures
        r@ == prefixed_frame(payload@),
{
    let n = payload.len();
    let mut r: Vec<u8> = Vec::new();
    r.push((n / 0x100_0000 % 0x100) as u8);
    r.push((n / 0x1_0000 % 0x100) as u8);
    r.push((n / 0x100 % 0x100) as u8);
    r.push((n % 0x100) as u8);
    let mut i: usize = 0;
    while i < n
        invariant
            n == payload@.len(),
            i <= n,
            r@ == be32_bytes(n as nat) + payload@.subrange(0, i as int),
        decreases n - i,
    {
        r.push(payload[i]);
        i = i + 1;
        assert(payload@.subrange(0, i as int) == payload@.subrange(0, i - 1) + seq![payload@[i - 1]]);
    }
    assert(payload@.subrange(0, n as int) == payload@);
    r
}

/// Looks at the front of `buf` for a length-prefixed frame whose payload may
/// hold at most `max` bytes.
pub fn decode_frame(buf: &[u8], max: usize) -> (r: FrameStep)
    ensures
        r == prefixed_step(buf@, max as nat),
{
    if buf.len() < 4 {
        return FrameStep::Incomplete;
    }
    let n: u64 = (buf[0] as u64) * 0x100_0000 + (buf[1] as u64) * 0x1_0000 + (buf[2] as u64)
        * 0x100 + (buf[3] as u64);
    if n > max as u64 {
        FrameStep::TooLarge
    } else if ((buf.len() - 4) as u64) < n {
        FrameStep::Incomplete
    } else {
        FrameStep::Complete(n as usize)
    }
}

/// What the front of a receive buffer holds, for newline-delimited frames.
#[derive(Clone, Copy, Debug, PartialEq, Eq, Structural)]
pub enum LineStep {
    /// A whole line whose newline stands at this index.
    Complete(usize),
    /// No newline yet, and the line may still end within the bound.
    Incomplete,
    /// The line runs past the allowed maximum.
    TooLong,
}

/// The index of the first newline at or after `i`, or the length where there is none.
pub open spec fn first_newline(b: Seq<u8>, i: int) -> int
    decreases b.len() - i,
{
    if i < 0 || i >= b.len() {
        b.len() as int
    } else if b[i] == 0x0a {
        i
    } else {
        first_newline(b, i + 1)
    }
}

pub proof fn lemma_first_newline(b: Seq<u8>, i: int)
    requires
        0 <= i <= b.len(),
    ensures
        i <= first_newline(b, i) <= b.len(),
        first_newline(b, i) < b.len() ==> b[first_newline(b, i)] == 0x0a,
        forall|k: int| i <= k < first_newline(b, i) ==> b[k] != 0x0a,
    decreases b.len() - i,
{
    if i < b.len() && b[i] != 0x0a {
        lemma_first_newline(b, i + 1);
    }
}

/// How a line is cut from the front of `buf` when lines may hold at most `max`
/// bytes before their newline.
pub open spec fn line_step(buf: Seq<u8>, max: nat) -> LineStep {
    let n = first_newline(buf, 0);
    if n < buf.len() && n <= max {
        LineStep::Complete(n as usize)
    } else if n < buf.len() || buf.len() > max {
        LineStep::TooLong
    } else {
        LineStep::Incomplete
    }
}

/// Looks at the front of `buf` for a newline-terminated line of at most `max`
/// bytes before its newline.
pub fn decode_line(buf: &[u8], max: usize) -> (r: LineStep)
    ensures
        r == line_step(buf@, max as nat),
{
    let mut i: usize = 0;
    while i < buf.len() && buf[i] != 0x0a
        invariant
            i <= buf@.len(),
            first_newline(buf@, 0) == first_newline(buf@, i as int),
        decreases buf.len() - i,
    {
        i = i + 1;
    }
    if i < buf.len() && i <= max {
        LineStep::Complete(i)
    } else if i < buf.len() || buf.len() > max {
        LineStep::TooLong
    } else {
        LineStep::Incomplete
    }
}

} // verus!
