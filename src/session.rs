use vstd::prelude::*;
use vstd::slice::{slice_subrange, slice_to_vec};
use crate::dispatch::{
    UNKNOWN_TAG_TEXT, decode_error_text, handle_msg, handle_text_msg, lemma_reply_len, reply,
    text_reply,
};
use crate::text::{encode_text_response, parse_text_request, response_text};
use crate::envelope::{
    DecodeError, TAG_ADD, encode_response, parse_request, response_bytes, tag_value,
};
use crate::message::{RequestModel, ResponseModel};
use crate::frame::{
    FrameStep, LineStep, decode_frame, decode_line, first_newline, lemma_first_newline, line_step, encode_frame, lemma_be32_round_trip, prefixed_frame, prefixed_step,
    be32_value,
};

verus! {

/// Largest frame bound a session takes: a reply then always fits a length prefix.
pub const MAX_FRAME_LIMIT: usize = 0x7fff_ffff;

/// Why a session ended.
#[derive(Clone, Copy, Debug, PartialEq, Eq, Structural)]
pub enum CloseReason {
    /// The peer closed the stream between frames.
    Eof,
    /// The peer closed the stream inside a frame; that frame is dropped unanswered.
    EofMidFrame,
    /// A frame announced a payload, or a line ran, above the session's bound.
    FrameTooLarge,
    /// A reply could not be written.
    WriteFailed,
}

/// Where a session stands.
#[derive(Clone, Copy, Debug, PartialEq, Eq, Structural)]
pub enum SessionState {
    Open,
    Closed(CloseReason),
}

/// The per-connection loop's decisions: bytes come in, reply frames go out, in
/// the order of the requests, one per request.
pub struct Session {
    buf: Vec<u8>,
    max_frame: usize,
    wire: Wire,
    state: SessionState,
}

/// How a session's stream is framed and its envelopes written.
#[derive(Clone, Copy, Debug, PartialEq, Eq, Structural)]
pub enum Wire {
    /// Length-prefixed frames holding binary envelopes.
    Binary,
    /// Newline-delimited lines holding JSON objects.
    Text,
}

/// The frame that answers one request payload.
pub open spec fn reply_frame(p: Seq<u8>) -> Seq<u8> {
    prefixed_frame(response_bytes(reply(p)))
}

/// What a stream of bytes gives when frames of payloads up to `max` bytes are
/// cut from it and answered one after another: the reply frames, the bytes
/// left over, and whether a frame above the bound stopped it.
pub open spec fn drain(buf: Seq<u8>, max: nat) -> (Seq<Seq<u8>>, Seq<u8>, bool)
    decreases buf.len(),
{
    match prefixed_step(buf, max) {
        FrameStep::Complete(n) => if 4 + n <= buf.len() {
            let rest = drain(buf.subrange(4 + n, buf.len() as int), max);
            (seq![reply_frame(buf.subrange(4, 4 + n))] + rest.0, rest.1, rest.2)
        } else {
            (seq![], buf, false)
        },
        FrameStep::Incomplete => (seq![], buf, false),
        FrameStep::TooLarge => (seq![], buf, true),
    }
}

/// The line that answers one request line.
pub open spec fn reply_line(line: Seq<u8>) -> Seq<u8> {
    response_text(text_reply(line)) + seq![0x0au8]
}

/// As `drain`, for newline-delimited lines of up to `max` bytes.
pub open spec fn drain_lines(buf: Seq<u8>, max: nat) -> (Seq<Seq<u8>>, Seq<u8>, bool)
    decreases buf.len(),
{
    match line_step(buf, max) {
        LineStep::Complete(n) => if n < buf.len() {
            let rest = drain_lines(buf.subrange(n + 1, buf.len() as int), max);
            (seq![reply_line(buf.subrange(0, n as int))] + rest.0, rest.1, rest.2)
        } else {
            (seq![], buf, false)
        },
        LineStep::Incomplete => (seq![], buf, false),
        LineStep::TooLong => (seq![], buf, true),
    }
}

/// What a stream gives under the framing of `wire`.
pub open spec fn drain_wire(wire: Wire, buf: Seq<u8>, max: nat) -> (Seq<Seq<u8>>, Seq<u8>, bool) {
    match wire {
        Wire::Binary => drain(buf, max),
        Wire::Text => drain_lines(buf, max),
    }
}

/// Whether `buf` holds no whole frame under the framing of `wire`.
pub open spec fn awaits_more(wire: Wire, buf: Seq<u8>, max: nat) -> bool {
    match wire {
        Wire::Binary => prefixed_step(buf, max) == FrameStep::Incomplete,
        Wire::Text => line_step(buf, max) == LineStep::Incomplete,
    }
}

/// The length-prefixed frames of `ps`, one after another.
pub open spec fn frames_of(ps: Seq<Seq<u8>>) -> Seq<u8>
    decreases ps.len(),
{
    if ps.len() == 0 {
        Seq::empty()
    } else {
        prefixed_frame(ps[0]) + frames_of(ps.drop_first())
    }
}

/// The contents of each buffer in `v`.
pub open spec fn contents(v: Seq<Vec<u8>>) -> Seq<Seq<u8>> {
    Seq::new(v.len(), |i: int| v[i]@)
}

/// The reply frames of `ps`, in order.
pub open spec fn reply_frames(ps: Seq<Seq<u8>>) -> Seq<Seq<u8>> {
    Seq::new(ps.len(), |i: int| reply_frame(ps[i]))
}

/// A whole frame at the front of the stream is answered by its reply frame,
/// and the bytes after it are then read as if nothing had come before them:
/// whatever the payload held, the session goes on.
pub proof fn lemma_one_frame(p: Seq<u8>, rest: Seq<u8>, max: nat)
    requires
        p.len() <= max,
        max <= MAX_FRAME_LIMIT,
    ensures
        drain(prefixed_frame(p) + rest, max) == ({
            let d = drain(rest, max);
            (seq![reply_frame(p)] + d.0, d.1, d.2)
        }),
{
    let buf = prefixed_frame(p) + rest;
    lemma_be32_round_trip(p.len());
    assert(be32_value(buf) == be32_value(prefixed_frame(p)));
    assert(prefixed_frame(p).subrange(0, 4) == crate::frame::be32_bytes(p.len()));
    assert(be32_value(buf) == p.len());
    assert(buf.subrange(4, 4 + p.len() as int) =~= p);
    assert(buf.subrange(4 + p.len() as int, buf.len() as int) =~= rest);
}

/// A payload too short to hold a tag, or whose tag names no kind, reads as an
/// unknown tag; its frame is answered with the unknown-tag error reply, and
/// the session reads on.
pub proof fn lemma_unknown_tag_answered(p: Seq<u8>, rest: Seq<u8>, max: nat)
    requires
        p.len() < 4 || tag_value(p) > TAG_ADD,
        p.len() <= max,
        max <= MAX_FRAME_LIMIT,
    ensures
        parse_request(p) == Err::<RequestModel, DecodeError>(DecodeError::UnknownTag),
        drain(prefixed_frame(p) + rest, max) == ({
            let d = drain(rest, max);
            (
                seq![prefixed_frame(response_bytes(ResponseModel::Error(UNKNOWN_TAG_TEXT@)))]
                    + d.0,
                d.1,
                d.2,
            )
        }),
{
    lemma_one_frame(p, rest, max);
}

/// A payload whose tag is known but whose body is not of that kind is
/// answered with the error reply that names the body's fault, and the session
/// reads on.
pub proof fn lemma_malformed_answered(p: Seq<u8>, rest: Seq<u8>, max: nat)
    requires
        parse_request(p) is Err,
        parse_request(p)->Err_0 is Malformed,
        p.len() <= max,
        max <= MAX_FRAME_LIMIT,
    ensures
        p.len() >= 4 && tag_value(p) <= TAG_ADD,
        drain(prefixed_frame(p) + rest, max) == ({
            let d = drain(rest, max);
            (
                seq![
                    prefixed_frame(
                        response_bytes(
                            ResponseModel::Error(decode_error_text(parse_request(p)->Err_0)),
                        ),
                    ),
                ] + d.0,
                d.1,
                d.2,
            )
        }),
{
    lemma_one_frame(p, rest, max);
}

/// Requests sent one after another are answered one for one, in the order
/// they were sent, and the session stays open with nothing left over.
pub proof fn lemma_responses_in_order(ps: Seq<Seq<u8>>, max: nat)
    requires
        max <= MAX_FRAME_LIMIT,
        forall|i: int| 0 <= i < ps.len() ==> #[trigger] ps[i].len() <= max,
    ensures
        drain(frames_of(ps), max) == (reply_frames(ps), Seq::<u8>::empty(), false),
    decreases ps.len(),
{
    if ps.len() == 0 {
        assert(reply_frames(ps) =~= Seq::<Seq<u8>>::empty());
        assert(prefixed_step(Seq::<u8>::empty(), max) == FrameStep::Incomplete);
    } else {
        let tl = ps.drop_first();
        assert forall|i: int| 0 <= i < tl.len() implies #[trigger] tl[i].len() <= max by {
            assert(tl[i] == ps[i + 1]);
        }
        lemma_responses_in_order(tl, max);
        assert(ps[0].len() <= max);
        lemma_one_frame(ps[0], frames_of(tl), max);
        assert(seq![reply_frame(ps[0])] + reply_frames(tl) =~= reply_frames(ps));
    }
}

proof fn lemma_newline_at(b: Seq<u8>, i: int, n: int)
    requires
        0 <= i <= n < b.len(),
        b[n] == 0x0a,
        forall|k: int| i <= k < n ==> b[k] != 0x0a,
    ensures
        first_newline(b, i) == n,
    decreases n - i,
{
    if i < n {
        lemma_newline_at(b, i + 1, n);
    }
}

/// A whole line at the front of the stream is answered by its reply line, and
/// the bytes after it are then read as if nothing had come before them:
/// whatever the line held, the session goes on.
pub proof fn lemma_one_line(line: Seq<u8>, rest: Seq<u8>, max: nat)
    requires
        line.len() <= max,
        max <= MAX_FRAME_LIMIT,
        forall|k: int| 0 <= k < line.len() ==> line[k] != 0x0a,
    ensures
        drain_lines(line + seq![0x0au8] + rest, max) == ({
            let d = drain_lines(rest, max);
            (seq![reply_line(line)] + d.0, d.1, d.2)
        }),
{
    let buf = line + seq![0x0au8] + rest;
    lemma_newline_at(buf, 0, line.len() as int);
    assert(buf.subrange(0, line.len() as int) =~= line);
    assert(buf.subrange(line.len() as int + 1, buf.len() as int) =~= rest);
}

/// A request line that does not read as a request, for want of a known
/// `type` or for a bad field, is answered with the error reply that says why,
/// and the session reads on.
pub proof fn lemma_bad_line_answered(line: Seq<u8>, rest: Seq<u8>, max: nat)
    requires
        parse_text_request(line) is Err,
        line.len() <= max,
        max <= MAX_FRAME_LIMIT,
        forall|k: int| 0 <= k < line.len() ==> line[k] != 0x0a,
    ensures
        drain_lines(line + seq![0x0au8] + rest, max) == ({
            let d = drain_lines(rest, max);
            (
                seq![
                    response_text(
                        ResponseModel::Error(decode_error_text(parse_text_request(line)->Err_0)),
                    ) + seq![0x0au8],
                ] + d.0,
                d.1,
                d.2,
            )
        }),
{
    lemma_one_line(line, rest, max);
}

/// The lines of `ls`, each ended by a newline, one after another.
pub open spec fn lines_of(ls: Seq<Seq<u8>>) -> Seq<u8>
    decreases ls.len(),
{
    if ls.len() == 0 {
        Seq::empty()
    } else {
        ls[0] + seq![0x0au8] + lines_of(ls.drop_first())
    }
}

/// Request lines sent one after another are answered one for one, in the
/// order they were sent, and the session stays open with nothing left over.
pub proof fn lemma_lines_in_order(ls: Seq<Seq<u8>>, max: nat)
    requires
        max <= MAX_FRAME_LIMIT,
        forall|i: int| 0 <= i < ls.len() ==> #[trigger] ls[i].len() <= max,
        forall|i: int, k: int| 0 <= i < ls.len() && 0 <= k < ls[i].len() ==> #[trigger] ls[i][k]
            != 0x0a,
    ensures
        drain_lines(lines_of(ls), max) == (
            Seq::new(ls.len(), |i: int| reply_line(ls[i])),
            Seq::<u8>::empty(),
            false,
        ),
    decreases ls.len(),
{
    if ls.len() == 0 {
        assert(Seq::new(ls.len(), |i: int| reply_line(ls[i])) =~= Seq::<Seq<u8>>::empty());
        assert(first_newline(Seq::<u8>::empty(), 0) == 0);
    } else {
        let tl = ls.drop_first();
        assert forall|i: int| 0 <= i < tl.len() implies #[trigger] tl[i].len() <= max by {
            assert(tl[i] == ls[i + 1]);
        }
        assert forall|i: int, k: int| 0 <= i < tl.len() && 0 <= k < tl[i].len() implies #[trigger] tl[i][k]
            != 0x0a by {
            assert(tl[i] == ls[i + 1]);
        }
        lemma_lines_in_order(tl, max);
        assert(ls[0].len() <= max);
        assert forall|k: int| 0 <= k < ls[0].len() implies ls[0][k] != 0x0a by {
            assert(ls[0][k] == ls[0][k]);
        }
        lemma_one_line(ls[0], lines_of(tl), max);
        assert(seq![reply_line(ls[0])] + Seq::new(tl.len(), |i: int| reply_line(tl[i])) =~= Seq::new(
            ls.len(),
            |i: int| reply_line(ls[i]),
        ));
    }
}

proof fn lemma_drain_append(buf: Seq<u8>, more: Seq<u8>, max: nat)
    requires
        max <= MAX_FRAME_LIMIT,
        !drain(buf, max).2,
    ensures
        drain(buf + more, max) == ({
            let d = drain(buf, max);
            let e = drain(d.1 + more, max);
            (d.0 + e.0, e.1, e.2)
        }),
    decreases buf.len(),
{
    let all = buf + more;
    match prefixed_step(buf, max) {
        FrameStep::Complete(n) => {
            if 4 + n <= buf.len() {
                assert(all[0] == buf[0] && all[1] == buf[1] && all[2] == buf[2] && all[3] == buf[3]);
                assert(prefixed_step(all, max) == FrameStep::Complete(n));
                let rest = buf.subrange(4 + n, buf.len() as int);
                lemma_drain_append(rest, more, max);
                assert(all.subrange(4 + n, all.len() as int) =~= rest + more);
                assert(all.subrange(4, 4 + n) =~= buf.subrange(4, 4 + n));
                let d = drain(rest, max);
                let e = drain(d.1 + more, max);
                assert(seq![reply_frame(buf.subrange(4, 4 + n))] + (d.0 + e.0) =~= (seq![
                    reply_frame(buf.subrange(4, 4 + n)),
                ] + d.0) + e.0);
            } else {
                assert(Seq::<Seq<u8>>::empty() + drain(all, max).0 =~= drain(all, max).0);
            }
        },
        FrameStep::Incomplete => {
            assert(Seq::<Seq<u8>>::empty() + drain(all, max).0 =~= drain(all, max).0);
        },
        FrameStep::TooLarge => {},
    }
}

proof fn lemma_first_newline_append(buf: Seq<u8>, more: Seq<u8>, i: int)
    requires
        0 <= i <= buf.len(),
        first_newline(buf, i) < buf.len(),
    ensures
        first_newline(buf + more, i) == first_newline(buf, i),
    decreases buf.len() - i,
{
    if buf[i] != 0x0a {
        lemma_first_newline_append(buf, more, i + 1);
    }
}

proof fn lemma_drain_lines_append(buf: Seq<u8>, more: Seq<u8>, max: nat)
    requires
        max <= MAX_FRAME_LIMIT,
        !drain_lines(buf, max).2,
    ensures
        drain_lines(buf + more, max) == ({
            let d = drain_lines(buf, max);
            let e = drain_lines(d.1 + more, max);
            (d.0 + e.0, e.1, e.2)
        }),
    decreases buf.len(),
{
    let all = buf + more;
    lemma_first_newline(buf, 0);
    match line_step(buf, max) {
        LineStep::Complete(n) => {
            lemma_first_newline_append(buf, more, 0);
            assert(line_step(all, max) == LineStep::Complete(n));
            let rest = buf.subrange(n + 1, buf.len() as int);
            lemma_drain_lines_append(rest, more, max);
            assert(all.subrange(n + 1, all.len() as int) =~= rest + more);
            assert(all.subrange(0, n as int) =~= buf.subrange(0, n as int));
            let d = drain_lines(rest, max);
            let e = drain_lines(d.1 + more, max);
            assert(seq![reply_line(buf.subrange(0, n as int))] + (d.0 + e.0) =~= (seq![
                reply_line(buf.subrange(0, n as int)),
            ] + d.0) + e.0);
        },
        LineStep::Incomplete => {
            assert(Seq::<Seq<u8>>::empty() + drain_lines(all, max).0 =~= drain_lines(all, max).0);
        },
        LineStep::TooLong => {},
    }
}

/// How the stream is cut into chunks does not matter: where the bytes read so
/// far stopped at no oversized frame, reading more answers the frames of the
/// first bytes, then goes on from what they left over, as if all had come at
/// once.
pub proof fn lemma_chunks_do_not_matter(wire: Wire, buf: Seq<u8>, more: Seq<u8>, max: nat)
    requires
        max <= MAX_FRAME_LIMIT,
        !drain_wire(wire, buf, max).2,
    ensures
        drain_wire(wire, buf + more, max) == ({
            let d = drain_wire(wire, buf, max);
            let e = drain_wire(wire, d.1 + more, max);
            (d.0 + e.0, e.1, e.2)
        }),
{
    match wire {
        Wire::Binary => lemma_drain_append(buf, more, max),
        Wire::Text => lemma_drain_lines_append(buf, more, max),
    }
}

/// Answers the whole frames at the front of `data`, in order: the reply
/// frames, where the first unfinished frame starts, and whether a frame above
/// the bound stopped it.
fn answer_frames(data: &[u8], max: usize) -> (r: (Vec<Vec<u8>>, usize, bool))
    requires
        max <= MAX_FRAME_LIMIT,
    ensures
        r.1 <= data@.len(),
        drain(data@, max as nat) == (
            contents(r.0@),
            data@.subrange(r.1 as int, data@.len() as int),
            r.2,
        ),
        !r.2 ==> prefixed_step(data@.subrange(r.1 as int, data@.len() as int), max as nat)
            == FrameStep::Incomplete,
{
        let ghost all = data@;
        let len = data.len();
        let mut out: Vec<Vec<u8>> = Vec::new();
        let mut pos: usize = 0;
        let mut too_large = false;
        assert(all.subrange(0, len as int) =~= all);
        assert(contents(out@) + drain(all, max as nat).0 =~= drain(all, max as nat).0);
        loop
            invariant_except_break
                !too_large,
            invariant
                data@ == all,
                len == all.len(),
                pos <= len,
                max <= MAX_FRAME_LIMIT,
                drain(all, max as nat) == ({
                    let d = drain(all.subrange(pos as int, len as int), max as nat);
                    (contents(out@) + d.0, d.1, d.2)
                }),
            ensures
                pos <= len,
                ({
                    let suf = all.subrange(pos as int, len as int);
                    &&& drain(suf, max as nat) == (Seq::<Seq<u8>>::empty(), suf, too_large)
                    &&& !too_large ==> prefixed_step(suf, max as nat) == FrameStep::Incomplete
                }),
            decreases len - pos,
        {
            let rest = slice_subrange(data, pos, len);
            let step = decode_frame(rest, max);
            match step {
                FrameStep::Complete(n) => {
                    let ghost suf = rest@;
                    let payload = slice_subrange(data, pos + 4, pos + 4 + n);
                    assert(payload@ == suf.subrange(4, 4 + n as int));
                    let resp = handle_msg(payload);
                    let bytes = encode_response(&resp);
                    proof {
                        lemma_reply_len(payload@);
                    }
                    let frame = encode_frame(bytes.as_slice());
                    let ghost before = contents(out@);
                    out.push(frame);
                    assert(contents(out@) =~= before.push(reply_frame(payload@)));
                    assert(suf.subrange(4 + n as int, suf.len() as int) == all.subrange(
                        pos + 4 + n,
                        len as int,
                    ));
                    let ghost d = drain(suf.subrange(4 + n as int, suf.len() as int), max as nat);
                    assert(before + (seq![reply_frame(payload@)] + d.0) =~= contents(out@) + d.0);
                    pos = pos + 4 + n;
                },
                FrameStep::Incomplete => {
                    break ;
                },
                FrameStep::TooLarge => {
                    too_large = true;
                    break ;
                },
            }
        }
        let ghost suf = all.subrange(pos as int, len as int);
        assert(contents(out@) + Seq::<Seq<u8>>::empty() =~= contents(out@));
        (out, pos, too_large)
}

/// Answers the whole lines at the front of `data`, in order: the reply
/// lines, where the first unfinished line starts, and whether a line above
/// the bound stopped it.
#[verifier::rlimit(100)]
fn answer_lines(data: &[u8], max: usize) -> (r: (Vec<Vec<u8>>, usize, bool))
    requires
        max <= MAX_FRAME_LIMIT,
    ensures
        r.1 <= data@.len(),
        drain_lines(data@, max as nat) == (
            contents(r.0@),
            data@.subrange(r.1 as int, data@.len() as int),
            r.2,
        ),
        !r.2 ==> line_step(data@.subrange(r.1 as int, data@.len() as int), max as nat)
            == LineStep::Incomplete,
{
        let ghost all = data@;
        let len = data.len();
        let mut out: Vec<Vec<u8>> = Vec::new();
        let mut pos: usize = 0;
        let mut too_large = false;
        assert(all.subrange(0, len as int) =~= all);
        assert(contents(out@) + drain_lines(all, max as nat).0 =~= drain_lines(all, max as nat).0);
        loop
            invariant_except_break
                !too_large,
            invariant
                data@ == all,
                len == all.len(),
                pos <= len,
                max <= MAX_FRAME_LIMIT,
                drain_lines(all, max as nat) == ({
                    let d = drain_lines(all.subrange(pos as int, len as int), max as nat);
                    (contents(out@) + d.0, d.1, d.2)
                }),
            ensures
                pos <= len,
                ({
                    let suf = all.subrange(pos as int, len as int);
                    &&& drain_lines(suf, max as nat) == (Seq::<Seq<u8>>::empty(), suf, too_large)
                    &&& !too_large ==> line_step(suf, max as nat) == LineStep::Incomplete
                }),
            decreases len - pos,
        {
            let rest = slice_subrange(data, pos, len);
            let step = decode_line(rest, max);
            match step {
                LineStep::Complete(n) => {
                    let ghost suf = rest@;
                    proof {
                        lemma_first_newline(suf, 0);
                    }
                    let line = slice_subrange(data, pos, pos + n);
                    assert(line@ == suf.subrange(0, n as int));
                    let resp = handle_text_msg(line);
                    let mut reply = encode_text_response(&resp);
                    let ghost text = reply@;
                    reply.push(0x0a);
                    assert(reply@ =~= text + seq![0x0au8]);
                    let ghost before = contents(out@);
                    out.push(reply);
                    assert(contents(out@) =~= before.push(reply_line(line@)));
                    assert(suf.subrange(n + 1, suf.len() as int) == all.subrange(
                        pos + n + 1,
                        len as int,
                    ));
                    let ghost d = drain_lines(suf.subrange(n + 1, suf.len() as int), max as nat);
                    assert(before + (seq![reply_line(line@)] + d.0) =~= contents(out@) + d.0);
                    pos = pos + n + 1;
                },
                LineStep::Incomplete => {
                    break ;
                },
                LineStep::TooLong => {
                    too_large = true;
                    break ;
                },
            }
        }
        let ghost suf = all.subrange(pos as int, len as int);
        assert(contents(out@) + Seq::<Seq<u8>>::empty() =~= contents(out@));
        (out, pos, too_large)
}

impl Session {
    /// The bytes received and not yet part of an answered frame.
    pub closed spec fn buffered(&self) -> Seq<u8> {
        self.buf@
    }

    /// The largest payload, or line, that the session takes.
    pub closed spec fn spec_max_frame(&self) -> nat {
        self.max_frame as nat
    }

    /// Whether the session is open, or why it closed.
    pub closed spec fn spec_state(&self) -> SessionState {
        self.state
    }

    /// How the session's stream is framed.
    pub closed spec fn spec_wire(&self) -> Wire {
        self.wire
    }

    /// The bound is one a session takes, and an open session holds no whole frame.
    pub open spec fn wf(&self) -> bool {
        &&& self.spec_max_frame() <= MAX_FRAME_LIMIT
        &&& self.spec_state() == SessionState::Open ==> awaits_more(
            self.spec_wire(),
            self.buffered(),
            self.spec_max_frame(),
        )
    }

    /// An open session on length-prefixed frames with nothing read yet,
    /// taking payloads of up to `max_frame` bytes.
    pub fn new(max_frame: usize) -> (r: Session)
        requires
            max_frame <= MAX_FRAME_LIMIT,
        ensures
            r.wf(),
            r.buffered() == Seq::<u8>::empty(),
            r.spec_max_frame() == max_frame,
            r.spec_wire() == Wire::Binary,
            r.spec_state() == SessionState::Open,
    {
        Session { buf: Vec::new(), max_frame, wire: Wire::Binary, state: SessionState::Open }
    }

    /// An open session on newline-delimited JSON lines with nothing read yet,
    /// taking lines of up to `max_line` bytes.
    pub fn new_text(max_line: usize) -> (r: Session)
        requires
            max_line <= MAX_FRAME_LIMIT,
        ensures
            r.wf(),
            r.buffered() == Seq::<u8>::empty(),
            r.spec_max_frame() == max_line,
            r.spec_wire() == Wire::Text,
            r.spec_state() == SessionState::Open,
    {
        Session { buf: Vec::new(), max_frame: max_line, wire: Wire::Text, state: SessionState::Open }
    }

    /// How the session's stream is framed.
    pub fn wire(&self) -> (r: Wire)
        ensures
            r == self.spec_wire(),
    {
        self.wire
    }

    /// Whether the session is open, or why it closed.
    pub fn state(&self) -> (r: SessionState)
        ensures
            r == self.spec_state(),
    {
        self.state
    }

    /// The largest payload, or line, that the session takes.
    pub fn max_frame(&self) -> (r: usize)
        ensures
            r == self.spec_max_frame(),
    {
        self.max_frame
    }

    /// Takes the next bytes of the stream and answers every frame they
    /// complete, in order. A frame above the bound closes the session; a bad
    /// request does not.
    pub fn feed(&mut self, chunk: &[u8]) -> (out: Vec<Vec<u8>>)
        requires
            old(self).wf(),
        ensures
            final(self).wf(),
            final(self).spec_max_frame() == old(self).spec_max_frame(),
            final(self).spec_wire() == old(self).spec_wire(),
            old(self).spec_state() != SessionState::Open ==> {
                &&& out@.len() == 0
                &&& final(self).spec_state() == old(self).spec_state()
                &&& final(self).buffered() == old(self).buffered()
            },
            old(self).spec_state() == SessionState::Open ==> {
                let d = drain_wire(
                    old(self).spec_wire(),
                    old(self).buffered() + chunk@,
                    old(self).spec_max_frame(),
                );
                &&& contents(out@) == d.0
                &&& final(self).buffered() == d.1
                &&& final(self).spec_state() == if d.2 {
                    SessionState::Closed(CloseReason::FrameTooLarge)
                } else {
                    SessionState::Open
                }
            },
    {
        if self.state != SessionState::Open {
            return Vec::new();
        }
        let mut data: Vec<u8> = Vec::new();
        std::mem::swap(&mut data, &mut self.buf);
        let mut tail = slice_to_vec(chunk);
        data.append(&mut tail);
        let (out, pos, too_large) = match self.wire {
            Wire::Binary => answer_frames(data.as_slice(), self.max_frame),
            Wire::Text => answer_lines(data.as_slice(), self.max_frame),
        };
        self.buf = slice_to_vec(slice_subrange(data.as_slice(), pos, data.len()));
        if too_large {
            self.state = SessionState::Closed(CloseReason::FrameTooLarge);
        }
        out
    }

    /// The peer closed the stream: the session ends, and a frame it was
    /// still reading is dropped unanswered.
    pub fn finish(&mut self) -> (r: CloseReason)
        requires
            old(self).wf(),
        ensures
            final(self).wf(),
            final(self).spec_max_frame() == old(self).spec_max_frame(),
            final(self).buffered() == old(self).buffered(),
            final(self).spec_wire() == old(self).spec_wire(),
            final(self).spec_state() == SessionState::Closed(r),
            old(self).spec_state() == SessionState::Open ==> r == if old(self).buffered().len() == 0 {
                CloseReason::Eof
            } else {
                CloseReason::EofMidFrame
            },
            old(self).spec_state() != SessionState::Open ==> old(self).spec_state()
                == SessionState::Closed(r),
    {
        match self.state {
            SessionState::Closed(reason) => reason,
            SessionState::Open => {
                let reason = if self.buf.len() == 0 {
                    CloseReason::Eof
                } else {
                    CloseReason::EofMidFrame
                };
                self.state = SessionState::Closed(reason);
                reason
            },
        }
    }

    /// A reply could not be written: the session ends.
    pub fn write_failed(&mut self)
        requires
            old(self).wf(),
        ensures
            final(self).wf(),
            final(self).spec_max_frame() == old(self).spec_max_frame(),
            final(self).buffered() == old(self).buffered(),
            final(self).spec_wire() == old(self).spec_wire(),
            final(self).spec_state() == SessionState::Closed(CloseReason::WriteFailed),
    {
        self.state = SessionState::Closed(CloseReason::WriteFailed);
    }
}

} // verus!
