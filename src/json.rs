use vstd::prelude::*;

verus! {

/// The value of a member of a flat JSON object: a string's unescaped bytes, or
/// a number, kept where an `i32` holds it.
pub enum JsonValue {
    Str(Seq<u8>),
    Int(Option<i32>),
}

/// A member value as read by `parse_object`.
#[derive(Clone, Debug)]
pub enum JsonScalar {
    Str(Vec<u8>),
    Int(Option<i32>),
}

impl View for JsonScalar {
    type V = JsonValue;

    open spec fn view(&self) -> JsonValue {
        match self {
            JsonScalar::Str(v) => JsonValue::Str(v@),
            JsonScalar::Int(x) => JsonValue::Int(*x),
        }
    }
}

/// A member as read by `parse_object`: its key's unescaped bytes and its value.
pub type JsonMember = (Vec<u8>, JsonScalar);

/// The members of an object, as mathematical values.
pub open spec fn members_view(v: Seq<JsonMember>) -> Seq<(Seq<u8>, JsonValue)> {
    Seq::new(v.len(), |i: int| (v[i].0@, v[i].1@))
}

/// What a hexadecimal digit stands for.
pub open spec fn hex_value(c: u8) -> Option<u8> {
    if 0x30 <= c <= 0x39 {
        Some((c - 0x30) as u8)
    } else if 0x61 <= c <= 0x66 {
        Some((c - 0x57) as u8)
    } else if 0x41 <= c <= 0x46 {
        Some((c - 0x37) as u8)
    } else {
        None
    }
}

/// The byte that the escape sequence whose backslash stands at `i` stands
/// for, and its width. `\u` escapes are read for ASCII code points only.
pub open spec fn escape_at(b: Seq<u8>, i: int) -> Option<(u8, int)> {
    if i < 0 || i + 1 >= b.len() || b[i] != 0x5c {
        None
    } else {
        let e = b[i + 1];
        if e == 0x22 || e == 0x5c || e == 0x2f {
            Some((e, 2))
        } else if e == 0x62 {
            Some((0x08u8, 2))
        } else if e == 0x66 {
            Some((0x0cu8, 2))
        } else if e == 0x6e {
            Some((0x0au8, 2))
        } else if e == 0x72 {
            Some((0x0du8, 2))
        } else if e == 0x74 {
            Some((0x09u8, 2))
        } else if e == 0x75 && i + 6 <= b.len() && b[i + 2] == 0x30 && b[i + 3] == 0x30 && 0x30
            <= b[i + 4] <= 0x37 && hex_value(b[i + 5]) is Some {
            Some((((b[i + 4] - 0x30) * 16 + hex_value(b[i + 5])->0) as u8, 6))
        } else {
            None
        }
    }
}

/// Puts `p` in front of what a parse gave, if it gave anything.
pub open spec fn prepend(p: Seq<u8>, r: Option<(Seq<u8>, int)>) -> Option<(Seq<u8>, int)> {
    match r {
        Some((c, e)) => Some((p + c, e)),
        None => None,
    }
}

/// The unescaped bytes of a string literal's body from `i` on, and the index
/// just past its closing quote.
pub open spec fn unescape(b: Seq<u8>, i: int) -> Option<(Seq<u8>, int)>
    decreases b.len() - i,
{
    if i < 0 || i >= b.len() {
        None
    } else if b[i] == 0x22 {
        Some((Seq::empty(), i + 1))
    } else if b[i] == 0x5c {
        match escape_at(b, i) {
            Some((c, w)) => if w >= 1 {
                prepend(seq![c], unescape(b, i + w))
            } else {
                None
            },
            None => None,
        }
    } else if b[i] < 0x20 {
        None
    } else {
        prepend(seq![b[i]], unescape(b, i + 1))
    }
}

/// A string literal at `i`: its unescaped bytes and the index past it.
pub open spec fn parse_string(b: Seq<u8>, i: int) -> Option<(Seq<u8>, int)> {
    if 0 <= i < b.len() && b[i] == 0x22 {
        unescape(b, i + 1)
    } else {
        None
    }
}

/// Whether `c` is a decimal digit.
pub open spec fn is_digit(c: u8) -> bool {
    0x30 <= c <= 0x39
}

/// The index of the first byte at or after `i` that is not a decimal digit.
pub open spec fn digits_end(b: Seq<u8>, i: int) -> int
    decreases b.len() - i,
{
    if 0 <= i < b.len() && is_digit(b[i]) {
        digits_end(b, i + 1)
    } else {
        i
    }
}

/// The number that the decimal digits `b[i..k]` write.
pub open spec fn digits_value(b: Seq<u8>, i: int, k: int) -> nat
    decreases k - i,
{
    if k <= i {
        0
    } else {
        digits_value(b, i, k - 1) * 10 + (b[k - 1] - 0x30) as nat
    }
}

/// An integer literal at `i` (an optional minus, then at least one digit):
/// its value where an `i32` holds it, and the index past it.
pub open spec fn parse_number(b: Seq<u8>, i: int) -> Option<(Option<i32>, int)> {
    let j = if 0 <= i < b.len() && b[i] == 0x2d {
        i + 1
    } else {
        i
    };
    let k = digits_end(b, j);
    if i < 0 || k <= j {
        None
    } else {
        let v: int = if j > i {
            -digits_value(b, j, k)
        } else {
            digits_value(b, j, k) as int
        };
        Some((if i32::MIN <= v <= i32::MAX {
            Some(v as i32)
        } else {
            None
        }, k))
    }
}

/// A member value at `i`: a string or an integer, and the index past it.
pub open spec fn parse_value(b: Seq<u8>, i: int) -> Option<(JsonValue, int)> {
    if 0 <= i < b.len() && b[i] == 0x22 {
        match parse_string(b, i) {
            Some((s, e)) => Some((JsonValue::Str(s), e)),
            None => None,
        }
    } else {
        match parse_number(b, i) {
            Some((x, e)) => Some((JsonValue::Int(x), e)),
            None => None,
        }
    }
}

/// Whether `c` is whitespace that JSON allows between tokens.
pub open spec fn is_space(c: u8) -> bool {
    c == 0x20 || c == 0x09 || c == 0x0d || c == 0x0a
}

/// The index of the first byte at or after `i` that is not whitespace.
pub open spec fn skip_space(b: Seq<u8>, i: int) -> int
    decreases b.len() - i,
{
    if 0 <= i < b.len() && is_space(b[i]) {
        skip_space(b, i + 1)
    } else {
        i
    }
}

/// The members from `i` on up to the object's closing brace, and the index
/// past that brace. Whitespace may stand between any two tokens.
pub open spec fn parse_members(b: Seq<u8>, i: int) -> Option<(Seq<(Seq<u8>, JsonValue)>, int)>
    decreases b.len() - i,
{
    match parse_string(b, skip_space(b, i)) {
        None => None,
        Some((k, j0)) => {
            let j = skip_space(b, j0);
            if 0 <= j < b.len() && b[j] == 0x3a {
                match parse_value(b, skip_space(b, j + 1)) {
                    None => None,
                    Some((v, l0)) => {
                        let l = skip_space(b, l0);
                        if 0 <= l < b.len() && b[l] == 0x7d {
                            Some((seq![(k, v)], l + 1))
                        } else if 0 <= l < b.len() && b[l] == 0x2c && l + 1 > i {
                            match parse_members(b, l + 1) {
                                Some((rest, e)) => Some((seq![(k, v)] + rest, e)),
                                None => None,
                            }
                        } else {
                            None
                        }
                    },
                }
            } else {
                None
            }
        },
    }
}

/// A whole line that is one flat JSON object: its members, in order.
/// Whitespace may stand before, inside and after the object.
pub open spec fn parse_object_spec(b: Seq<u8>) -> Option<Seq<(Seq<u8>, JsonValue)>> {
    let s0 = skip_space(b, 0);
    if s0 >= b.len() || b[s0] != 0x7b {
        None
    } else {
        let s1 = skip_space(b, s0 + 1);
        if s1 < b.len() && b[s1] == 0x7d {
            if skip_space(b, s1 + 1) == b.len() {
                Some(Seq::empty())
            } else {
                None
            }
        } else {
            match parse_members(b, s0 + 1) {
                Some((ms, e)) => if skip_space(b, e) == b.len() {
                    Some(ms)
                } else {
                    None
                },
                None => None,
            }
        }
    }
}

/// The index of the first byte at or after `i` that is not whitespace.
pub fn skip_spaces(b: &[u8], i: usize) -> (r: usize)
    ensures
        r == skip_space(b@, i as int),
{
    let mut k: usize = i;
    while k < b.len() && (b[k] == 0x20 || b[k] == 0x09 || b[k] == 0x0d || b[k] == 0x0a)
        invariant
            i <= k,
            skip_space(b@, i as int) == skip_space(b@, k as int),
        decreases b.len() - k,
    {
        k = k + 1;
    }
    k
}

fn hex_value_of(c: u8) -> (r: Option<u8>)
    ensures
        r == hex_value(c),
{
    if 0x30 <= c && c <= 0x39 {
        Some(c - 0x30)
    } else if 0x61 <= c && c <= 0x66 {
        Some(c - 0x57)
    } else if 0x41 <= c && c <= 0x46 {
        Some(c - 0x37)
    } else {
        None
    }
}

fn escape_of(b: &[u8], i: usize) -> (r: Option<(u8, usize)>)
    ensures
        match (r, escape_at(b@, i as int)) {
            (Some((c, w)), Some((d, v))) => c == d && w == v,
            (None, None) => true,
            _ => false,
        },
{
    if i >= b.len() || b.len() - i < 2 || b[i] != 0x5c {
        return None;
    }
    let e = b[i + 1];
    if e == 0x22 || e == 0x5c || e == 0x2f {
        Some((e, 2))
    } else if e == 0x62 {
        Some((0x08, 2))
    } else if e == 0x66 {
        Some((0x0c, 2))
    } else if e == 0x6e {
        Some((0x0a, 2))
    } else if e == 0x72 {
        Some((0x0d, 2))
    } else if e == 0x74 {
        Some((0x09, 2))
    } else if e == 0x75 && b.len() - i >= 6 && b[i + 2] == 0x30 && b[i + 3] == 0x30 && 0x30
        <= b[i + 4] && b[i + 4] <= 0x37 {
        match hex_value_of(b[i + 5]) {
            Some(h) => Some(((b[i + 4] - 0x30) * 16 + h, 6)),
            None => None,
        }
    } else {
        None
    }
}

/// Reads a string literal at `i`.
pub fn parse_string_at(b: &[u8], i: usize) -> (r: Option<(Vec<u8>, usize)>)
    ensures
        match (r, parse_string(b@, i as int)) {
            (Some((s, e)), Some((t, f))) => s@ == t && e == f,
            (None, None) => true,
            _ => false,
        },
{
    if i >= b.len() || b[i] != 0x22 {
        return None;
    }
    let mut out: Vec<u8> = Vec::new();
    let mut k: usize = i + 1;
    loop
        invariant
            i + 1 <= k,
            i < b@.len(),
            b@[i as int] == 0x22,
            unescape(b@, i + 1) == prepend(out@, unescape(b@, k as int)),
        decreases b.len() - k,
    {
        if k >= b.len() {
            return None;
        }
        let c = b[k];
        let ghost before = out@;
        if c == 0x22 {
            assert(before + Seq::<u8>::empty() =~= before);
            return Some((out, k + 1));
        } else if c == 0x5c {
            match escape_of(b, k) {
                Some((e, w)) => {
                    out.push(e);
                    assert(before + (seq![e] + Seq::<u8>::empty()) =~= out@);
                    proof {
                        match unescape(b@, k + w) {
                            Some((s, f)) => assert(before + (seq![e] + s) =~= out@ + s),
                            None => {},
                        }
                    }
                    k = k + w;
                },
                None => {
                    return None;
                },
            }
        } else if c < 0x20 {
            return None;
        } else {
            out.push(c);
            proof {
                match unescape(b@, k + 1) {
                    Some((s, f)) => assert(before + (seq![c] + s) =~= out@ + s),
                    None => {},
                }
            }
            k = k + 1;
        }
    }
}

proof fn lemma_digits_grow(b: Seq<u8>, i: int, k: int)
    requires
        i <= k < b.len(),
        is_digit(b[k]),
    ensures
        digits_value(b, i, k + 1) == digits_value(b, i, k) * 10 + (b[k] - 0x30) as nat,
        digits_value(b, i, k + 1) >= digits_value(b, i, k),
{
}

/// Reads an integer literal at `i`.
pub fn parse_number_at(b: &[u8], i: usize) -> (r: Option<(Option<i32>, usize)>)
    ensures
        match (r, parse_number(b@, i as int)) {
            (Some((x, e)), Some((y, f))) => x == y && e == f,
            (None, None) => true,
            _ => false,
        },
{
    let j: usize = if i < b.len() && b[i] == 0x2d {
        i + 1
    } else {
        i
    };
    if j > b.len() {
        return None;
    }
    let mut k: usize = j;
    let mut acc: u64 = 0;
    let mut big = false;
    while k < b.len() && 0x30 <= b[k] && b[k] <= 0x39
        invariant
            j <= k <= b.len(),
            j >= i,
            digits_end(b@, j as int) == digits_end(b@, k as int),
            !big ==> acc == digits_value(b@, j as int, k as int) && acc <= 0x1_0000_0000,
            big ==> digits_value(b@, j as int, k as int) > 0x1_0000_0000,
        decreases b.len() - k,
    {
        proof {
            lemma_digits_grow(b@, j as int, k as int);
        }
        if !big {
            let next = acc * 10 + (b[k] - 0x30) as u64;
            if next > 0x1_0000_0000 {
                big = true;
            } else {
                acc = next;
            }
        }
        k = k + 1;
    }
    if k <= j {
        return None;
    }
    if big {
        return Some((None, k));
    }
    let v: i64 = if j > i {
        0 - (acc as i64)
    } else {
        acc as i64
    };
    if -0x8000_0000 <= v && v <= 0x7fff_ffff {
        Some((Some(v as i32), k))
    } else {
        Some((None, k))
    }
}

/// Reads a member value at `i`.
pub fn parse_value_at(b: &[u8], i: usize) -> (r: Option<(JsonScalar, usize)>)
    ensures
        match (r, parse_value(b@, i as int)) {
            (Some((x, e)), Some((y, f))) => x@ == y && e == f,
            (None, None) => true,
            _ => false,
        },
{
    if i < b.len() && b[i] == 0x22 {
        match parse_string_at(b, i) {
            Some((s, e)) => Some((JsonScalar::Str(s), e)),
            None => None,
        }
    } else {
        match parse_number_at(b, i) {
            Some((x, e)) => Some((JsonScalar::Int(x), e)),
            None => None,
        }
    }
}

/// Puts `p` in front of what a member parse gave, if it gave anything.
pub open spec fn prepend_members(
    p: Seq<(Seq<u8>, JsonValue)>,
    r: Option<(Seq<(Seq<u8>, JsonValue)>, int)>,
) -> Option<(Seq<(Seq<u8>, JsonValue)>, int)> {
    match r {
        Some((ms, e)) => Some((p + ms, e)),
        None => None,
    }
}

/// Reads a line that is one flat JSON object whose member values are strings
/// and integers.
pub fn parse_object(b: &[u8]) -> (r: Option<Vec<JsonMember>>)
    ensures
        match (r, parse_object_spec(b@)) {
            (Some(v), Some(ms)) => members_view(v@) == ms,
            (None, None) => true,
            _ => false,
        },
{
    let s0 = skip_spaces(b, 0);
    if s0 >= b.len() || b[s0] != 0x7b {
        return None;
    }
    let mut out: Vec<JsonMember> = Vec::new();
    let s1 = skip_spaces(b, s0 + 1);
    if s1 < b.len() && b[s1] == 0x7d {
        if skip_spaces(b, s1 + 1) == b.len() {
            assert(members_view(out@) =~= Seq::<(Seq<u8>, JsonValue)>::empty());
            return Some(out);
        } else {
            return None;
        }
    }
    let ghost first = s0 + 1;
    let mut i: usize = s0 + 1;
    proof {
        match parse_members(b@, first) {
            Some((ms, e)) => assert(members_view(out@) + ms =~= ms),
            None => {},
        }
    }
    loop
        invariant
            first <= i,
            parse_object_spec(b@) == match parse_members(b@, first) {
                Some((ms, e)) => if skip_space(b@, e) == b@.len() {
                    Some(ms)
                } else {
                    None
                },
                None => None,
            },
            parse_members(b@, first) == prepend_members(
                members_view(out@),
                parse_members(b@, i as int),
            ),
        decreases b.len() - i,
    {
        let ghost before = members_view(out@);
        let k0 = skip_spaces(b, i);
        let (key, j0) = match parse_string_at(b, k0) {
            Some(x) => x,
            None => {
                return None;
            },
        };
        let j = skip_spaces(b, j0);
        if j >= b.len() || b[j] != 0x3a {
            return None;
        }
        let v0 = skip_spaces(b, j + 1);
        let (value, l0) = match parse_value_at(b, v0) {
            Some(x) => x,
            None => {
                return None;
            },
        };
        let l = skip_spaces(b, l0);
        if l >= b.len() {
            return None;
        }
        let ghost m = (key@, value@);
        out.push((key, value));
        assert(members_view(out@) =~= before.push(m));
        if b[l] == 0x7d {
            assert(before + seq![m] =~= members_view(out@));
            if skip_spaces(b, l + 1) == b.len() {
                return Some(out);
            } else {
                return None;
            }
        } else if b[l] == 0x2c && l + 1 > i {
            proof {
                match parse_members(b@, l + 1) {
                    Some((rest, e)) => assert(before + (seq![m] + rest) =~= members_view(out@)
                        + rest),
                    None => {},
                }
            }
            i = l + 1;
        } else {
            return None;
        }
    }
}

} // verus!
