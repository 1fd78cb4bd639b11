//! The building blocks of the wire format: variable-length integers, raw
//! little-endian words, and length-prefixed text.
//!
//! Every parser reads a buffer from a given place and tells three outcomes
//! apart: a value together with the place after it, the end of the buffer
//! before the value was complete, and bytes that no value is written as.

use vstd::prelude::*;
use vstd::utf8::*;

verus! {

/// The outcome of reading one value from a buffer.
pub enum Parsed<T> {
    /// The value, and the place of the first byte after it.
    Done { value: T, next: int },
    /// The buffer ends before the value does.
    Incomplete,
    /// The bytes are not the writing of any value.
    Invalid,
}

/// Why a value could not be read.
#[derive(Clone, Copy, Debug, PartialEq, Eq, Structural)]
pub enum DecodeError {
    /// More bytes are needed; none of those present are wrong.
    Incomplete,
    /// The bytes violate the format.
    Invalid,
}

/// Whether the result `r` of an executable decoder, stated through the view
/// `model` of its value, is the outcome `parsed`.
pub open spec fn decoded<T, M>(
    r: Result<(T, usize), DecodeError>,
    model: spec_fn(T) -> M,
    parsed: Parsed<M>,
) -> bool {
    match parsed {
        Parsed::Done { value, next } => r matches Ok((v, n)) && model(v) == value && n == next,
        Parsed::Incomplete => r matches Err(DecodeError::Incomplete),
        Parsed::Invalid => r matches Err(DecodeError::Invalid),
    }
}

/// The buffer `s` holds the whole of `w` from place `at` on.
pub open spec fn holds(s: Seq<u8>, at: int, w: Seq<u8>) -> bool {
    &&& 0 <= at
    &&& at + w.len() <= s.len()
    &&& forall|i: int| 0 <= i < w.len() ==> s[at + i] == #[trigger] w[i]
}

/// The buffer `s` holds, from place `at` to its end, a beginning of `w` but
/// not the whole of it.
pub open spec fn holds_prefix(s: Seq<u8>, at: int, w: Seq<u8>) -> bool {
    &&& 0 <= at <= s.len()
    &&& s.len() < at + w.len()
    &&& forall|i: int| 0 <= i < s.len() - at ==> s[at + i] == #[trigger] w[i]
}

/// A buffer that holds two writings in a row holds each of them; one that
/// breaks off within them breaks off within the first, or holds the first
/// and breaks off within the second.
pub proof fn lemma_holds_concat(s: Seq<u8>, at: int, w1: Seq<u8>, w2: Seq<u8>)
    ensures
        holds(s, at, w1 + w2) ==> holds(s, at, w1) && holds(s, at + w1.len(), w2),
        holds_prefix(s, at, w1 + w2) ==> holds_prefix(s, at, w1) || (holds(s, at, w1)
            && holds_prefix(s, at + w1.len(), w2)),
{
    let w = w1 + w2;
    if holds(s, at, w) {
        assert forall|i: int| 0 <= i < w1.len() implies s[at + i] == #[trigger] w1[i] by {
            assert(w[i] == w1[i]);
        }
        assert forall|i: int| 0 <= i < w2.len() implies s[at + w1.len() + i] == #[trigger] w2[i] by {
            assert(w[w1.len() + i] == w2[i]);
        }
    }
    if holds_prefix(s, at, w) {
        if s.len() < at + w1.len() {
            assert forall|i: int| 0 <= i < s.len() - at implies s[at + i] == #[trigger] w1[i] by {
                assert(w[i] == w1[i]);
            }
        } else {
            assert forall|i: int| 0 <= i < w1.len() implies s[at + i] == #[trigger] w1[i] by {
                assert(w[i] == w1[i]);
            }
            assert forall|i: int| 0 <= i < s.len() - (at + w1.len()) implies s[at + w1.len() + i]
                == #[trigger] w2[i] by {
                assert(w[w1.len() + i] == w2[i]);
            }
        }
    }
}

/// The whole of `w` alone is held from the start; a proper beginning of `w`
/// alone breaks off within it.
pub proof fn lemma_holds_itself(w: Seq<u8>, k: int)
    requires
        0 <= k <= w.len(),
    ensures
        k == w.len() ==> holds(w.subrange(0, k), 0, w),
        k < w.len() ==> holds_prefix(w.subrange(0, k), 0, w),
{
}

// ---------------------------------------------------------------------
// Variable-length integers
// ---------------------------------------------------------------------
/// The writing of `v`: seven bits to a byte, the low bits first, the top bit
/// of a byte set where another byte follows.
pub open spec fn wire_varint(v: int) -> Seq<u8>
    decreases v,
{
    if v < 128 {
        seq![v as u8]
    } else {
        seq![(128 + v % 128) as u8] + wire_varint(v / 128)
    }
}

/// How many values can be written in `bytes` bytes, where the last byte
/// that the integer type allows may be `last_max` at most.
pub open spec fn varint_room(bytes: int, last_max: int) -> int
    decreases bytes,
{
    if bytes <= 0 {
        0
    } else if bytes == 1 {
        last_max + 1
    } else {
        128 * varint_room(bytes - 1, last_max)
    }
}

/// Reads the rest of a variable-length integer of at most `limit` bytes,
/// from its byte `i` at place `at` on. The bytes before are worth `acc`;
/// the next byte counts `scale` to the unit.
pub open spec fn varint_from(
    s: Seq<u8>,
    at: int,
    i: int,
    limit: int,
    last_max: int,
    acc: int,
    scale: int,
) -> Parsed<int>
    decreases limit - i,
{
    if i >= limit {
        Parsed::Invalid
    } else if at < 0 || at >= s.len() {
        Parsed::Incomplete
    } else {
        let b = s[at];
        if b < 128 {
            if i + 1 == limit && b > last_max {
                Parsed::Invalid
            } else {
                Parsed::Done { value: acc + b * scale, next: at + 1 }
            }
        } else {
            varint_from(
                s,
                at + 1,
                i + 1,
                limit,
                last_max,
                acc + (b - 128) * scale,
                scale * 128,
            )
        }
    }
}

/// Reads a variable-length integer of at most `limit` bytes whose last
/// allowed byte is `last_max` at most. Writings longer than need be are
/// read too; one that runs past `limit` bytes, or whose last allowed byte
/// is too large for the integer type, is invalid.
pub open spec fn parse_varint(s: Seq<u8>, at: int, limit: int, last_max: int) -> Parsed<int> {
    varint_from(s, at, 0, limit, last_max, 0, 1)
}

/// A 16-bit integer: three bytes at most.
pub open spec fn parse_u16(s: Seq<u8>, at: int) -> Parsed<u16> {
    match parse_varint(s, at, 3, 3) {
        Parsed::Done { value, next } => Parsed::Done { value: value as u16, next },
        Parsed::Incomplete => Parsed::Incomplete,
        Parsed::Invalid => Parsed::Invalid,
    }
}

/// A 32-bit integer: five bytes at most.
pub open spec fn parse_u32(s: Seq<u8>, at: int) -> Parsed<u32> {
    match parse_varint(s, at, 5, 15) {
        Parsed::Done { value, next } => Parsed::Done { value: value as u32, next },
        Parsed::Incomplete => Parsed::Incomplete,
        Parsed::Invalid => Parsed::Invalid,
    }
}

/// A 64-bit integer: ten bytes at most.
pub open spec fn parse_u64(s: Seq<u8>, at: int) -> Parsed<u64> {
    match parse_varint(s, at, 10, 1) {
        Parsed::Done { value, next } => Parsed::Done { value: value as u64, next },
        Parsed::Incomplete => Parsed::Incomplete,
        Parsed::Invalid => Parsed::Invalid,
    }
}

/// The three integer widths of the format, by their byte limit and the
/// largest last byte.
pub open spec fn varint_kind(limit: int, last_max: int) -> bool {
    ||| limit == 3 && last_max == 3
    ||| limit == 5 && last_max == 15
    ||| limit == 10 && last_max == 1
}

/// The room of each integer width is the range of its type.
pub proof fn lemma_varint_rooms()
    ensures
        varint_room(3, 3) == 0x1_0000,
        varint_room(5, 15) == 0x1_0000_0000,
        varint_room(10, 1) == 0x1_0000_0000_0000_0000,
{
    reveal_with_fuel(varint_room, 11);
}

/// The room grows with the number of bytes, and is never less than one value
/// per byte left.
proof fn lemma_room_step(bytes: int, last_max: int)
    requires
        0 <= last_max,
        bytes >= 1,
    ensures
        varint_room(bytes, last_max) >= 1,
        varint_room(bytes + 1, last_max) == 128 * varint_room(bytes, last_max),
    decreases bytes,
{
    if bytes > 1 {
        lemma_room_step(bytes - 1, last_max);
    }
}

/// What a variable-length integer was read as lies within the room that
/// the bytes left allow, and the place after it lies further on.
pub proof fn lemma_varint_bound(
    s: Seq<u8>,
    at: int,
    i: int,
    limit: int,
    last_max: int,
    acc: int,
    scale: int,
)
    requires
        0 <= last_max < 128,
        0 <= acc < scale,
        0 <= i,
    ensures
        varint_from(s, at, i, limit, last_max, acc, scale) matches Parsed::Done { value, next }
            ==> value < scale * varint_room(limit - i, last_max) && at < next <= s.len(),
    decreases limit - i,
{
    if i < limit && 0 <= at < s.len() {
        let b = s[at];
        let left = limit - i;
        if b < 128 {
            if !(i + 1 == limit && b > last_max) {
                if left == 1 {
                    assert(acc + b * scale < scale * (last_max + 1)) by (nonlinear_arith)
                        requires
                            0 <= acc < scale,
                            0 <= b <= last_max,
                    ;
                } else {
                    lemma_room_step(left - 1, last_max);
                    let r = varint_room(left - 1, last_max);
                    assert(acc + b * scale < scale * (128 * r)) by (nonlinear_arith)
                        requires
                            0 <= acc < scale,
                            0 <= b < 128,
                            r >= 1,
                    ;
                }
            }
        } else {
            let acc2 = acc + (b - 128) * scale;
            assert(acc2 < scale * 128) by (nonlinear_arith)
                requires
                    0 <= acc < scale,
                    128 <= b < 256,
                    acc2 == acc + (b - 128) * scale,
            ;
            lemma_varint_bound(s, at + 1, i + 1, limit, last_max, acc2, scale * 128);
            if left >= 2 {
                lemma_room_step(left - 1, last_max);
                let r = varint_room(left - 1, last_max);
                assert((scale * 128) * r == scale * (128 * r)) by (nonlinear_arith);
            }
        }
    }
}

/// Reading back a written integer: a buffer that holds the writing of `v`
/// yields `v` and the place after the writing, and a buffer that breaks off
/// within the writing is incomplete.
pub proof fn lemma_varint_from(
    v: int,
    s: Seq<u8>,
    at: int,
    i: int,
    limit: int,
    last_max: int,
    acc: int,
    scale: int,
)
    requires
        0 <= last_max < 128,
        0 <= i <= limit,
        0 <= scale,
        0 <= v < varint_room(limit - i, last_max),
    ensures
        holds(s, at, wire_varint(v)) ==> varint_from(s, at, i, limit, last_max, acc, scale)
            == (Parsed::Done { value: acc + v * scale, next: at + wire_varint(v).len() }),
        holds_prefix(s, at, wire_varint(v)) ==> varint_from(s, at, i, limit, last_max, acc, scale)
            is Incomplete,
    decreases v,
{
    let w = wire_varint(v);
    let left = limit - i;
    if v < 128 {
        assert(w[0] == v);
    } else {
        let head = seq![(128 + v % 128) as u8];
        let tail = wire_varint(v / 128);
        assert(w == head + tail);
        assert(w[0] == 128 + v % 128);
        assert(left >= 2);
        lemma_room_step(left - 1, last_max);
        lemma_holds_concat(s, at, head, tail);
        let acc2 = acc + (v % 128) * scale;
        lemma_varint_from(v / 128, s, at + 1, i + 1, limit, last_max, acc2, scale * 128);
        assert(acc2 + (v / 128) * (scale * 128) == acc + v * scale) by (nonlinear_arith)
            requires
                acc2 == acc + (v % 128) * scale,
        ;
        if holds(s, at, w) {
            assert(s[at + 0] == w[0]);
        }
        if holds_prefix(s, at, w) && s.len() > at {
            assert(s[at + 0] == w[0]);
            assert(holds(s, at, head));
        }
    }
}

/// Reads a variable-length integer from `buf` at `at`.
pub fn decode_varint(buf: &[u8], at: usize, limit: usize, last_max: u8) -> (r: Result<
    (u64, usize),
    DecodeError,
>)
    requires
        varint_kind(limit as int, last_max as int),
    ensures
        decoded(r, |v: u64| v as int, parse_varint(buf@, at as int, limit as int, last_max as int)),
        r matches Ok((v, n)) ==> v < varint_room(limit as int, last_max as int) && at < n
            <= buf@.len(),
{
    let mut acc: u64 = 0;
    let mut scale: u64 = 1;
    let mut i: usize = 0;
    let mut place: usize = at;
    proof {
        lemma_varint_rooms();
        lemma_varint_bound(buf@, at as int, 0, limit as int, last_max as int, 0, 1);
    }
    while i < limit
        invariant
            varint_kind(limit as int, last_max as int),
            i <= limit,
            place == at + i,
            acc < scale,
            scale * varint_room(limit - i, last_max as int) == varint_room(
                limit as int,
                last_max as int,
            ) || i == limit,
            varint_room(limit as int, last_max as int) <= 0x1_0000_0000_0000_0000,
            parse_varint(buf@, at as int, limit as int, last_max as int) == varint_from(
                buf@,
                place as int,
                i as int,
                limit as int,
                last_max as int,
                acc as int,
                scale as int,
            ),
            parse_varint(buf@, at as int, limit as int, last_max as int) matches Parsed::Done {
                value,
                next,
            } ==> value < varint_room(limit as int, last_max as int) && at < next <= buf@.len(),
        decreases limit - i,
    {
        if place >= buf.len() {
            return Err(DecodeError::Incomplete);
        }
        let b: u8 = buf[place];
        let ghost left = limit - i;
        if b < 128 {
            if i + 1 == limit && b > last_max {
                return Err(DecodeError::Invalid);
            }
            proof {
                let r = varint_room(limit as int, last_max as int);
                assert(acc + b * scale < 0x1_0000_0000_0000_0000);
            }
            return Ok((acc + b as u64 * scale, place + 1));
        }
        if i + 1 == limit {
            assert(varint_from(
                buf@,
                place + 1,
                i + 1,
                limit as int,
                last_max as int,
                acc + (b - 128) * scale,
                scale * 128,
            ) is Invalid);
            return Err(DecodeError::Invalid);
        }
        proof {
            lemma_room_step(left - 1, last_max as int);
            let r = varint_room(left - 1, last_max as int);
            assert(r >= 2) by {
                if left - 1 >= 2 {
                    lemma_room_step(left - 2, last_max as int);
                }
            }
            assert(scale * 128 * r == scale * (128 * r)) by (nonlinear_arith);
            assert(scale * 128 < 0x1_0000_0000_0000_0000 && acc + (b - 128) * scale < scale * 128)
                by (nonlinear_arith)
                requires
                    scale * 128 * r <= 0x1_0000_0000_0000_0000,
                    r >= 2,
                    acc < scale,
                    128 <= b < 256,
            ;
        }
        acc = acc + (b - 128) as u64 * scale;
        scale = scale * 128;
        i = i + 1;
        place = place + 1;
    }
    Err(DecodeError::Invalid)
}

/// Appends the writing of `v` to `out`.
pub fn encode_varint(v: u64, out: &mut Vec<u8>)
    ensures
        final(out)@ == old(out)@ + wire_varint(v as int),
{
    let mut rest: u64 = v;
    while rest >= 128
        invariant
            old(out)@ + wire_varint(v as int) == out@ + wire_varint(rest as int),
        decreases rest,
    {
        let ghost before = out@;
        out.push((128 + rest % 128) as u8);
        proof {
            let head = seq![(128 + rest % 128) as u8];
            assert(out@ =~= before + head);
            assert(wire_varint(rest as int) == head + wire_varint((rest / 128) as int));
            assert(before + (head + wire_varint((rest / 128) as int)) =~= (before + head)
                + wire_varint((rest / 128) as int));
        }
        rest = rest / 128;
    }
    let ghost before = out@;
    out.push(rest as u8);
    proof {
        assert(out@ =~= before + wire_varint(rest as int));
    }
}

// ---------------------------------------------------------------------
// Raw 32-bit words
// ---------------------------------------------------------------------
/// The writing of a 32-bit pattern: four bytes, the lowest first. This is
/// how a single-precision number travels.
pub open spec fn wire_bits(v: u32) -> Seq<u8> {
    seq![
        (v % 256) as u8,
        ((v / 256) % 256) as u8,
        ((v / 65536) % 256) as u8,
        (v / 16777216) as u8,
    ]
}

/// Reads a 32-bit pattern of four bytes.
pub open spec fn parse_bits(s: Seq<u8>, at: int) -> Parsed<u32> {
    if 0 <= at && at + 4 <= s.len() {
        Parsed::Done {
            value: (s[at] + 256 * s[at + 1] + 65536 * s[at + 2] + 16777216 * s[at + 3]) as u32,
            next: at + 4,
        }
    } else {
        Parsed::Incomplete
    }
}

/// Reading back a written pattern.
pub proof fn lemma_bits(v: u32, s: Seq<u8>, at: int)
    requires
        0 <= at,
    ensures
        wire_bits(v).len() == 4,
        holds(s, at, wire_bits(v)) ==> parse_bits(s, at) == (Parsed::Done {
            value: v,
            next: at + 4,
        }),
        holds_prefix(s, at, wire_bits(v)) ==> parse_bits(s, at) is Incomplete,
{
    let w = wire_bits(v);
    if holds(s, at, w) {
        assert(s[at + 0] == w[0]);
        assert(s[at + 1] == w[1]);
        assert(s[at + 2] == w[2]);
        assert(s[at + 3] == w[3]);
    }
}

/// Reads a 32-bit pattern from `buf` at `at`.
pub fn decode_bits(buf: &[u8], at: usize) -> (r: Result<(u32, usize), DecodeError>)
    ensures
        decoded(r, |v: u32| v, parse_bits(buf@, at as int)),
{
    if buf.len() < 4 || at > buf.len() - 4 {
        return Err(DecodeError::Incomplete);
    }
    let v: u32 = buf[at] as u32 + 256 * (buf[at + 1] as u32) + 65536 * (buf[at + 2] as u32)
        + 16777216 * (buf[at + 3] as u32);
    Ok((v, at + 4))
}

/// Appends the writing of the pattern `v` to `out`.
pub fn encode_bits(v: u32, out: &mut Vec<u8>)
    ensures
        final(out)@ == old(out)@ + wire_bits(v),
{
    out.push((v % 256) as u8);
    out.push(((v / 256) % 256) as u8);
    out.push(((v / 65536) % 256) as u8);
    out.push((v / 16777216) as u8);
    assert(out@ =~= old(out)@ + wire_bits(v));
}

// ---------------------------------------------------------------------
// Text
// ---------------------------------------------------------------------
/// The writing of a text: the number of bytes of its UTF-8 form, then
/// those bytes.
pub open spec fn wire_text(chars: Seq<char>) -> Seq<u8> {
    wire_varint(encode_utf8(chars).len() as int) + encode_utf8(chars)
}

/// Reads a text. Bytes that are not UTF-8 are invalid.
pub open spec fn parse_text(s: Seq<u8>, at: int) -> Parsed<Seq<char>> {
    match parse_u64(s, at) {
        Parsed::Done { value: n, next } => {
            if next + n > s.len() {
                Parsed::Incomplete
            } else {
                let bytes = s.subrange(next, next + n);
                if valid_utf8(bytes) {
                    Parsed::Done { value: decode_utf8(bytes), next: next + n }
                } else {
                    Parsed::Invalid
                }
            }
        },
        Parsed::Incomplete => Parsed::Incomplete,
        Parsed::Invalid => Parsed::Invalid,
    }
}

/// A text can be written where the length of its UTF-8 form fits 64 bits.
pub open spec fn text_fits(chars: Seq<char>) -> bool {
    encode_utf8(chars).len() <= u64::MAX
}

/// Reading back a written text.
pub proof fn lemma_text(chars: Seq<char>, s: Seq<u8>, at: int)
    requires
        0 <= at,
        text_fits(chars),
    ensures
        holds(s, at, wire_text(chars)) ==> parse_text(s, at) == (Parsed::Done {
            value: chars,
            next: at + wire_text(chars).len(),
        }),
        holds_prefix(s, at, wire_text(chars)) ==> parse_text(s, at) is Incomplete,
{
    let bytes = encode_utf8(chars);
    let head = wire_varint(bytes.len() as int);
    lemma_varint_rooms();
    lemma_holds_concat(s, at, head, bytes);
    lemma_varint_from(bytes.len() as int, s, at, 0, 10, 1, 0, 1);
    if holds(s, at, wire_text(chars)) {
        let next = at + head.len();
        assert(s.subrange(next, next + bytes.len()) =~= bytes);
        encode_utf8_valid_utf8(chars);
        encode_utf8_decode_utf8(chars);
    }
}

/// `String::from_utf8`: the text that `bytes` spell in UTF-8, or nothing
/// where they are not UTF-8.
#[verifier::external_body]
fn text_from_utf8(bytes: Vec<u8>) -> (text: Option<String>)
    ensures
        text is Some <==> valid_utf8(bytes@),
        text matches Some(t) ==> t@ == decode_utf8(bytes@),
{
    String::from_utf8(bytes).ok()
}

/// Reads a text from `buf` at `at`.
pub fn decode_text(buf: &[u8], at: usize) -> (r: Result<(String, usize), DecodeError>)
    ensures
        decoded(r, |t: String| t@, parse_text(buf@, at as int)),
        r matches Ok((t, n)) ==> at < n <= buf@.len() && text_fits(t@),
{
    proof {
        lemma_varint_rooms();
    }
    let (len, start) = match decode_varint(buf, at, 10, 1) {
        Ok(found) => found,
        Err(e) => {
            return Err(e);
        },
    };
    if len > (buf.len() - start) as u64 {
        return Err(DecodeError::Incomplete);
    }
    let end: usize = start + len as usize;
    let mut bytes: Vec<u8> = Vec::new();
    let mut i: usize = start;
    while i < end
        invariant
            start <= i <= end <= buf@.len(),
            bytes@ == buf@.subrange(start as int, i as int),
        decreases end - i,
    {
        bytes.push(buf[i]);
        assert(bytes@ =~= buf@.subrange(start as int, i + 1));
        i = i + 1;
    }
    match text_from_utf8(bytes) {
        Some(text) => {
            proof {
                decode_utf8_encode_utf8(buf@.subrange(start as int, end as int));
            }
            Ok((text, end))
        },
        None => Err(DecodeError::Invalid),
    }
}

/// Appends the writing of `text` to `out`.
pub fn encode_text(text: &String, out: &mut Vec<u8>)
    ensures
        final(out)@ == old(out)@ + wire_text(text@),
        text_fits(text@),
{
    let bytes = text.as_str().as_bytes();
    encode_varint(bytes.len() as u64, out);
    let ghost headed = out@;
    let mut i: usize = 0;
    while i < bytes.len()
        invariant
            i <= bytes@.len(),
            out@ == headed + bytes@.subrange(0, i as int),
        decreases bytes.len() - i,
    {
        out.push(bytes[i]);
        assert(out@ =~= headed + bytes@.subrange(0, i + 1));
        i = i + 1;
    }
    assert(bytes@.subrange(0, bytes@.len() as int) =~= bytes@);
    assert(out@ =~= old(out)@ + wire_text(text@));
}

} // verus!
