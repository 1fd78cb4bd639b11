//! The pieces that messages are made of: typed integers, chunk numbers,
//! directions, pairs of numbers, chunks and characters, each with its
//! writing, its parser, and the proof that the parser reads the writing
//! back.

use crate::chunk::{Chunk, ChunkId, ChunkView};
use crate::direction::Direction;
use crate::model::{CharacterView, JoinedCharacter, roster_view};
use crate::wire::{
    decode_bits,
    decode_text,
    decode_varint,
    decoded,
    encode_bits,
    encode_text,
    encode_varint,
    holds,
    holds_prefix,
    lemma_bits,
    lemma_holds_concat,
    lemma_text,
    lemma_varint_from,
    lemma_varint_rooms,
    parse_bits,
    parse_text,
    parse_u16,
    parse_u32,
    parse_u64,
    text_fits,
    wire_bits,
    wire_text,
    wire_varint,
    DecodeError,
    Parsed,
};
use vstd::prelude::*;

verus! {

/// The parser's outcome `parsed` on the buffer `s` at `at` reads the
/// writing `w` of `v` back: where the buffer holds all of `w` the outcome
/// is `v` and the place after `w`; where the buffer breaks off within `w`
/// the outcome is "incomplete".
pub open spec fn reads_back<T>(parsed: Parsed<T>, v: T, s: Seq<u8>, at: int, w: Seq<u8>) -> bool {
    &&& holds(s, at, w) ==> parsed == (Parsed::Done { value: v, next: at + w.len() })
    &&& holds_prefix(s, at, w) ==> parsed is Incomplete
}

/// The failure of a piece is the failure of the whole.
pub open spec fn fail<A, B>(p: Parsed<A>) -> Parsed<B> {
    match p {
        Parsed::Invalid => Parsed::Invalid,
        _ => Parsed::Incomplete,
    }
}

// ---------------------------------------------------------------------
// Typed integers
// ---------------------------------------------------------------------
/// Reading back a 16-bit integer as written: the whole writing yields the value, a beginning of it is incomplete.
pub proof fn lemma_u16(v: u16, s: Seq<u8>, at: int)
    requires
        0 <= at,
    ensures
        reads_back(parse_u16(s, at), v, s, at, wire_varint(v as int)),
        wire_varint(v as int).len() > 0,
{
    lemma_varint_rooms();
    lemma_varint_from(v as int, s, at, 0, 3, 3, 0, 1);
}

/// Reading back a 32-bit integer as written: the whole writing yields the value, a beginning of it is incomplete.
pub proof fn lemma_u32(v: u32, s: Seq<u8>, at: int)
    requires
        0 <= at,
    ensures
        reads_back(parse_u32(s, at), v, s, at, wire_varint(v as int)),
        wire_varint(v as int).len() > 0,
{
    lemma_varint_rooms();
    lemma_varint_from(v as int, s, at, 0, 5, 15, 0, 1);
}

/// Reading back a 64-bit integer as written: the whole writing yields the value, a beginning of it is incomplete.
pub proof fn lemma_u64(v: u64, s: Seq<u8>, at: int)
    requires
        0 <= at,
    ensures
        reads_back(parse_u64(s, at), v, s, at, wire_varint(v as int)),
        wire_varint(v as int).len() > 0,
{
    lemma_varint_rooms();
    lemma_varint_from(v as int, s, at, 0, 10, 1, 0, 1);
}

/// Reads a 16-bit integer from `buf` at `at`, and tells the place after it.
pub fn decode_u16(buf: &[u8], at: usize) -> (r: Result<(u16, usize), DecodeError>)
    ensures
        decoded(r, |v: u16| v, parse_u16(buf@, at as int)),
        r matches Ok((_, n)) ==> at < n <= buf@.len(),
{
    proof {
        lemma_varint_rooms();
    }
    match decode_varint(buf, at, 3, 3) {
        Ok((v, n)) => Ok((v as u16, n)),
        Err(e) => Err(e),
    }
}

/// Reads a 32-bit integer from `buf` at `at`, and tells the place after it.
pub fn decode_u32(buf: &[u8], at: usize) -> (r: Result<(u32, usize), DecodeError>)
    ensures
        decoded(r, |v: u32| v, parse_u32(buf@, at as int)),
        r matches Ok((_, n)) ==> at < n <= buf@.len(),
{
    proof {
        lemma_varint_rooms();
    }
    match decode_varint(buf, at, 5, 15) {
        Ok((v, n)) => Ok((v as u32, n)),
        Err(e) => Err(e),
    }
}

/// Reads a 64-bit integer from `buf` at `at`, and tells the place after it.
pub fn decode_u64(buf: &[u8], at: usize) -> (r: Result<(u64, usize), DecodeError>)
    ensures
        decoded(r, |v: u64| v, parse_u64(buf@, at as int)),
        r matches Ok((_, n)) ==> at < n <= buf@.len(),
{
    proof {
        lemma_varint_rooms();
    }
    decode_varint(buf, at, 10, 1)
}

// ---------------------------------------------------------------------
// Chunk numbers and directions
// ---------------------------------------------------------------------
/// Reads the number of a chunk: a 32-bit integer that is not zero.
pub open spec fn parse_chunk_id(s: Seq<u8>, at: int) -> Parsed<u32> {
    match parse_u32(s, at) {
        Parsed::Done { value, next } => if value == 0 {
            Parsed::Invalid
        } else {
            Parsed::Done { value, next }
        },
        other => fail(other),
    }
}

/// Reading back the number of a chunk as written: the whole writing yields the value, a beginning of it is incomplete.
pub proof fn lemma_chunk_id(v: u32, s: Seq<u8>, at: int)
    requires
        0 <= at,
        v != 0,
    ensures
        reads_back(parse_chunk_id(s, at), v, s, at, wire_varint(v as int)),
{
    lemma_u32(v, s, at);
}

/// Reads the number of a chunk from `buf` at `at`, and tells the place after it.
pub fn decode_chunk_id(buf: &[u8], at: usize) -> (r: Result<(ChunkId, usize), DecodeError>)
    ensures
        decoded(r, |id: ChunkId| id@, parse_chunk_id(buf@, at as int)),
        r matches Ok((id, n)) ==> at < n <= buf@.len() && id@ != 0,
{
    match decode_u32(buf, at) {
        Ok((v, n)) => match ChunkId::new(v) {
            Some(id) => Ok((id, n)),
            None => Err(DecodeError::Invalid),
        },
        Err(e) => Err(e),
    }
}

/// Appends the writing of the number of a chunk to `out`.
pub fn encode_chunk_id(id: ChunkId, out: &mut Vec<u8>)
    ensures
        final(out)@ == old(out)@ + wire_varint(id@ as int),
        id@ != 0,
{
    encode_varint(id.get() as u64, out);
}

/// The writing of a direction: its slot number.
pub open spec fn wire_direction(d: Direction) -> Seq<u8> {
    wire_varint(d.index())
}

/// Reads a direction: one of the four slot numbers.
pub open spec fn parse_direction(s: Seq<u8>, at: int) -> Parsed<Direction> {
    match parse_u32(s, at) {
        Parsed::Done { value, next } => if value < 4 {
            Parsed::Done { value: Direction::of_index(value as int), next }
        } else {
            Parsed::Invalid
        },
        other => fail(other),
    }
}

/// Reading back a direction as written: the whole writing yields the value, a beginning of it is incomplete.
pub proof fn lemma_direction(d: Direction, s: Seq<u8>, at: int)
    requires
        0 <= at,
    ensures
        reads_back(parse_direction(s, at), d, s, at, wire_direction(d)),
{
    lemma_u32(d.index() as u32, s, at);
}

/// Reads a direction from `buf` at `at`, and tells the place after it.
pub fn decode_direction(buf: &[u8], at: usize) -> (r: Result<(Direction, usize), DecodeError>)
    ensures
        decoded(r, |d: Direction| d, parse_direction(buf@, at as int)),
        r matches Ok((_, n)) ==> at < n <= buf@.len(),
{
    match decode_u32(buf, at) {
        Ok((v, n)) => if v < 4 {
            Ok((Direction::from_number(v as usize), n))
        } else {
            Err(DecodeError::Invalid)
        },
        Err(e) => Err(e),
    }
}

/// Appends the writing of a direction to `out`.
pub fn encode_direction(d: Direction, out: &mut Vec<u8>)
    ensures
        final(out)@ == old(out)@ + wire_direction(d),
{
    encode_varint(d.to_number() as u64, out);
}

// ---------------------------------------------------------------------
// Pairs of numbers
// ---------------------------------------------------------------------
/// The writing of a position or a velocity: its two numbers.
pub open spec fn wire_pair(p: (u32, u32)) -> Seq<u8> {
    wire_bits(p.0) + wire_bits(p.1)
}

/// Reads a pair of numbers from the buffer `s` at place `at`.
pub open spec fn parse_pair(s: Seq<u8>, at: int) -> Parsed<(u32, u32)> {
    match parse_bits(s, at) {
        Parsed::Done { value: x, next } => match parse_bits(s, next) {
            Parsed::Done { value: y, next } => Parsed::Done { value: (x, y), next },
            other => fail(other),
        },
        other => fail(other),
    }
}

/// Reading back a pair of numbers as written: the whole writing yields the value, a beginning of it is incomplete.
pub proof fn lemma_pair(p: (u32, u32), s: Seq<u8>, at: int)
    requires
        0 <= at,
    ensures
        reads_back(parse_pair(s, at), p, s, at, wire_pair(p)),
        wire_pair(p).len() == 8,
{
    lemma_holds_concat(s, at, wire_bits(p.0), wire_bits(p.1));
    lemma_bits(p.0, s, at);
    lemma_bits(p.1, s, at + 4);
}

/// Reads a pair of numbers from `buf` at `at`, and tells the place after it.
pub fn decode_pair(buf: &[u8], at: usize) -> (r: Result<([u32; 2], usize), DecodeError>)
    ensures
        decoded(r, |p: [u32; 2]| (p[0], p[1]), parse_pair(buf@, at as int)),
        r matches Ok((_, n)) ==> at < n <= buf@.len(),
{
    let (x, a1) = match decode_bits(buf, at) {
        Ok(found) => found,
        Err(e) => {
            return Err(e);
        },
    };
    let (y, a2) = match decode_bits(buf, a1) {
        Ok(found) => found,
        Err(e) => {
            return Err(e);
        },
    };
    Ok(([x, y], a2))
}

/// Appends the writing of a pair of numbers to `out`.
pub fn encode_pair(p: &[u32; 2], out: &mut Vec<u8>)
    ensures
        final(out)@ == old(out)@ + wire_pair((p[0], p[1])),
{
    encode_bits(p[0], out);
    encode_bits(p[1], out);
    assert(out@ =~= old(out)@ + wire_pair((p[0], p[1])));
}

// ---------------------------------------------------------------------
// Chunks
// ---------------------------------------------------------------------
/// A chunk that can be written: numbered, with four links and 256 cells.
pub open spec fn valid_chunk(c: ChunkView) -> bool {
    &&& c.id != 0
    &&& c.related.len() == 4
    &&& c.data.len() == 256
}

/// The writing of a chunk: its number, its four links, its cells.
pub open spec fn wire_chunk(c: ChunkView) -> Seq<u8> {
    wire_varint(c.id as int) + wire_varint(c.related[0] as int) + wire_varint(c.related[1] as int)
        + wire_varint(c.related[2] as int) + wire_varint(c.related[3] as int) + c.data
}

/// Reads a chunk from the buffer `s` at place `at`.
pub open spec fn parse_chunk(s: Seq<u8>, at: int) -> Parsed<ChunkView> {
    match parse_chunk_id(s, at) {
        Parsed::Done { value: id, next } => match parse_u32(s, next) {
            Parsed::Done { value: r0, next } => match parse_u32(s, next) {
                Parsed::Done { value: r1, next } => match parse_u32(s, next) {
                    Parsed::Done { value: r2, next } => match parse_u32(s, next) {
                        Parsed::Done { value: r3, next } => if 0 <= next && next + 256 <= s.len() {
                            Parsed::Done {
                                value: ChunkView {
                                    id,
                                    related: seq![r0, r1, r2, r3],
                                    data: s.subrange(next, next + 256),
                                },
                                next: next + 256,
                            }
                        } else {
                            Parsed::Incomplete
                        },
                        other => fail(other),
                    },
                    other => fail(other),
                },
                other => fail(other),
            },
            other => fail(other),
        },
        other => fail(other),
    }
}

/// Reading back a chunk as written: the whole writing yields the value, a beginning of it is incomplete.
pub proof fn lemma_chunk(c: ChunkView, s: Seq<u8>, at: int)
    requires
        0 <= at,
        valid_chunk(c),
    ensures
        reads_back(parse_chunk(s, at), c, s, at, wire_chunk(c)),
{
    let w0 = wire_varint(c.id as int);
    let w1 = wire_varint(c.related[0] as int);
    let w2 = wire_varint(c.related[1] as int);
    let w3 = wire_varint(c.related[2] as int);
    let w4 = wire_varint(c.related[3] as int);
    let a1 = at + w0.len();
    let a2 = a1 + w1.len();
    let a3 = a2 + w2.len();
    let a4 = a3 + w3.len();
    let a5 = a4 + w4.len();
    lemma_holds_concat(s, at, w0 + w1 + w2 + w3 + w4, c.data);
    lemma_holds_concat(s, at, w0 + w1 + w2 + w3, w4);
    lemma_holds_concat(s, at, w0 + w1 + w2, w3);
    lemma_holds_concat(s, at, w0 + w1, w2);
    lemma_holds_concat(s, at, w0, w1);
    lemma_chunk_id(c.id, s, at);
    lemma_u32(c.related[0], s, a1);
    lemma_u32(c.related[1], s, a2);
    lemma_u32(c.related[2], s, a3);
    lemma_u32(c.related[3], s, a4);
    if holds(s, at, wire_chunk(c)) {
        assert(s.subrange(a5, a5 + 256) =~= c.data);
        assert(seq![c.related[0], c.related[1], c.related[2], c.related[3]] =~= c.related);
    }
}

/// Reads a chunk from `buf` at `at`, and tells the place after it.
pub fn decode_chunk(buf: &[u8], at: usize) -> (r: Result<(Chunk, usize), DecodeError>)
    ensures
        decoded(r, |c: Chunk| c@, parse_chunk(buf@, at as int)),
        r matches Ok((c, n)) ==> at < n <= buf@.len() && valid_chunk(c@),
{
    let (id, a1) = match decode_chunk_id(buf, at) {
        Ok(found) => found,
        Err(e) => {
            return Err(e);
        },
    };
    let (r0, a2) = match decode_u32(buf, a1) {
        Ok(found) => found,
        Err(e) => {
            return Err(e);
        },
    };
    let (r1, a3) = match decode_u32(buf, a2) {
        Ok(found) => found,
        Err(e) => {
            return Err(e);
        },
    };
    let (r2, a4) = match decode_u32(buf, a3) {
        Ok(found) => found,
        Err(e) => {
            return Err(e);
        },
    };
    let (r3, a5) = match decode_u32(buf, a4) {
        Ok(found) => found,
        Err(e) => {
            return Err(e);
        },
    };
    if buf.len() - a5 < 256 {
        return Err(DecodeError::Incomplete);
    }
    let mut data: [u8; 256] = [0; 256];
    let mut i: usize = 0;
    while i < 256
        invariant
            i <= 256,
            a5 + 256 <= buf.len(),
            forall|k: int| 0 <= k < i ==> data[k] == buf@[a5 + k],
        decreases 256 - i,
    {
        data[i] = buf[a5 + i];
        i = i + 1;
    }
    let chunk = Chunk { id, related: [r0, r1, r2, r3], data };
    proof {
        assert(chunk.data@ =~= buf@.subrange(a5 as int, a5 + 256));
        assert(chunk.related@ =~= seq![r0, r1, r2, r3]);
    }
    Ok((chunk, a5 + 256))
}

/// Appends the writing of a chunk to `out`.
pub fn encode_chunk(chunk: &Chunk, out: &mut Vec<u8>)
    ensures
        final(out)@ == old(out)@ + wire_chunk(chunk@),
        valid_chunk(chunk@),
{
    encode_chunk_id(chunk.id, out);
    encode_varint(chunk.related[0] as u64, out);
    encode_varint(chunk.related[1] as u64, out);
    encode_varint(chunk.related[2] as u64, out);
    encode_varint(chunk.related[3] as u64, out);
    let ghost headed = out@;
    let mut i: usize = 0;
    while i < 256
        invariant
            i <= 256,
            out@ == headed + chunk.data@.subrange(0, i as int),
        decreases 256 - i,
    {
        out.push(chunk.data[i]);
        assert(out@ =~= headed + chunk.data@.subrange(0, i + 1));
        i = i + 1;
    }
    proof {
        assert(chunk.data@.subrange(0, 256) =~= chunk.data@);
        assert(out@ =~= old(out)@ + wire_chunk(chunk@));
    }
}

// ---------------------------------------------------------------------
// Characters
// ---------------------------------------------------------------------
/// A character that can be written: it stands in a numbered chunk.
pub open spec fn valid_character(c: CharacterView) -> bool {
    c.chunk_id != 0 && text_fits(c.name)
}

/// The writing of a character: identity, name, chunk and position.
pub open spec fn wire_character(c: CharacterView) -> Seq<u8> {
    wire_varint(c.id as int) + wire_text(c.name) + wire_varint(c.chunk_id as int) + wire_pair(
        c.position,
    )
}

/// Reads a character from the buffer `s` at place `at`.
pub open spec fn parse_character(s: Seq<u8>, at: int) -> Parsed<CharacterView> {
    match parse_u64(s, at) {
        Parsed::Done { value: id, next } => match parse_text(s, next) {
            Parsed::Done { value: name, next } => match parse_chunk_id(s, next) {
                Parsed::Done { value: chunk_id, next } => match parse_pair(s, next) {
                    Parsed::Done { value: position, next } => Parsed::Done {
                        value: CharacterView { id, name, chunk_id, position },
                        next,
                    },
                    other => fail(other),
                },
                other => fail(other),
            },
            other => fail(other),
        },
        other => fail(other),
    }
}

/// Reading back a character as written: the whole writing yields the value, a beginning of it is incomplete.
pub proof fn lemma_character(c: CharacterView, s: Seq<u8>, at: int)
    requires
        0 <= at,
        valid_character(c),
    ensures
        reads_back(parse_character(s, at), c, s, at, wire_character(c)),
        wire_character(c).len() > 0,
{
    let w0 = wire_varint(c.id as int);
    let w1 = wire_text(c.name);
    let w2 = wire_varint(c.chunk_id as int);
    let w3 = wire_pair(c.position);
    let a1 = at + w0.len();
    let a2 = a1 + w1.len();
    let a3 = a2 + w2.len();
    lemma_holds_concat(s, at, w0 + w1 + w2, w3);
    lemma_holds_concat(s, at, w0 + w1, w2);
    lemma_holds_concat(s, at, w0, w1);
    lemma_u64(c.id, s, at);
    lemma_text(c.name, s, a1);
    lemma_chunk_id(c.chunk_id, s, a2);
    lemma_pair(c.position, s, a3);
}

/// Reads a character from `buf` at `at`, and tells the place after it.
pub fn decode_character(buf: &[u8], at: usize) -> (r: Result<(JoinedCharacter, usize), DecodeError>)
    ensures
        decoded(r, |c: JoinedCharacter| c@, parse_character(buf@, at as int)),
        r matches Ok((c, n)) ==> at < n <= buf@.len() && valid_character(c@),
{
    let (id, a1) = match decode_u64(buf, at) {
        Ok(found) => found,
        Err(e) => {
            return Err(e);
        },
    };
    let (name, a2) = match decode_text(buf, a1) {
        Ok(found) => found,
        Err(e) => {
            return Err(e);
        },
    };
    let (chunk_id, a3) = match decode_chunk_id(buf, a2) {
        Ok(found) => found,
        Err(e) => {
            return Err(e);
        },
    };
    let (position, a4) = match decode_pair(buf, a3) {
        Ok(found) => found,
        Err(e) => {
            return Err(e);
        },
    };
    Ok((JoinedCharacter { id, name, chunk_id, position }, a4))
}

/// Appends the writing of a character to `out`.
pub fn encode_character(
    id: u64,
    name: &String,
    chunk_id: ChunkId,
    position: &[u32; 2],
    out: &mut Vec<u8>,
)
    ensures
        final(out)@ == old(out)@ + wire_character(
            CharacterView { id, name: name@, chunk_id: chunk_id@, position: (position[0], position[1]) },
        ),
        valid_character(
            CharacterView { id, name: name@, chunk_id: chunk_id@, position: (position[0], position[1]) },
        ),
{
    encode_varint(id, out);
    encode_text(name, out);
    encode_chunk_id(chunk_id, out);
    encode_pair(position, out);
    assert(out@ =~= old(out)@ + wire_character(
        CharacterView { id, name: name@, chunk_id: chunk_id@, position: (position[0], position[1]) },
    ));
}

/// Every character of the roster can be written.
pub open spec fn valid_roster(cs: Seq<CharacterView>) -> bool {
    forall|i: int| 0 <= i < cs.len() ==> valid_character(#[trigger] cs[i])
}

/// The writing of the characters of a roster, one after the other.
pub open spec fn wire_characters(cs: Seq<CharacterView>) -> Seq<u8>
    decreases cs.len(),
{
    if cs.len() == 0 {
        Seq::empty()
    } else {
        wire_character(cs[0]) + wire_characters(cs.drop_first())
    }
}

/// Reads `count` characters and appends them to `acc`.
pub open spec fn parse_characters(s: Seq<u8>, at: int, count: int, acc: Seq<CharacterView>) -> Parsed<
    Seq<CharacterView>,
>
    decreases count,
{
    if count <= 0 {
        Parsed::Done { value: acc, next: at }
    } else {
        match parse_character(s, at) {
            Parsed::Done { value, next } => parse_characters(s, next, count - 1, acc.push(value)),
            other => fail(other),
        }
    }
}

/// Reading back the characters of a roster as written: the whole writing yields the value, a beginning of it is incomplete.
pub proof fn lemma_characters(cs: Seq<CharacterView>, s: Seq<u8>, at: int, acc: Seq<CharacterView>)
    requires
        0 <= at,
        valid_roster(cs),
    ensures
        reads_back(
            parse_characters(s, at, cs.len() as int, acc),
            acc + cs,
            s,
            at,
            wire_characters(cs),
        ),
    decreases cs.len(),
{
    if cs.len() == 0 {
        assert(acc + cs =~= acc);
    } else {
        let first = cs[0];
        let rest = cs.drop_first();
        let w0 = wire_character(first);
        lemma_holds_concat(s, at, w0, wire_characters(rest));
        lemma_character(first, s, at);
        assert forall|i: int| 0 <= i < rest.len() implies valid_character(#[trigger] rest[i]) by {
            assert(rest[i] == cs[i + 1]);
        }
        lemma_characters(rest, s, at + w0.len(), acc.push(first));
        assert(acc.push(first) + rest =~= acc + cs);
    }
}

/// Writing a roster character by character.
pub proof fn lemma_wire_characters_push(cs: Seq<CharacterView>, c: CharacterView)
    ensures
        wire_characters(cs.push(c)) == wire_characters(cs) + wire_character(c),
    decreases cs.len(),
{
    if cs.len() == 0 {
        assert(cs.push(c).drop_first() =~= cs);
        assert(wire_characters(cs.push(c)) =~= wire_characters(cs) + wire_character(c));
    } else {
        assert(cs.push(c).drop_first() =~= cs.drop_first().push(c));
        lemma_wire_characters_push(cs.drop_first(), c);
        assert(wire_characters(cs.push(c)) =~= wire_characters(cs) + wire_character(c));
    }
}

/// Reads the characters of a roster from `buf` at `at`, and tells the place after it.
pub fn decode_characters(buf: &[u8], at: usize, count: u64) -> (r: Result<
    (Vec<JoinedCharacter>, usize),
    DecodeError,
>)
    requires
        at <= buf@.len(),
    ensures
        decoded(
            r,
            |cs: Vec<JoinedCharacter>| roster_view(cs@),
            parse_characters(buf@, at as int, count as int, Seq::empty()),
        ),
        r matches Ok((cs, n)) ==> at <= n <= buf@.len() && valid_roster(roster_view(cs@))
            && cs@.len() == count,
{
    let mut characters: Vec<JoinedCharacter> = Vec::new();
    let mut place: usize = at;
    let mut i: u64 = 0;
    proof {
        assert(roster_view(characters@) =~= Seq::empty());
    }
    while i < count
        invariant
            i <= count,
            at <= place <= buf@.len(),
            characters@.len() == i,
            valid_roster(roster_view(characters@)),
            parse_characters(buf@, at as int, count as int, Seq::empty()) == parse_characters(
                buf@,
                place as int,
                count - i,
                roster_view(characters@),
            ),
        decreases count - i,
    {
        let (character, next) = match decode_character(buf, place) {
            Ok(found) => found,
            Err(e) => {
                return Err(e);
            },
        };
        let ghost before = characters@;
        characters.push(character);
        proof {
            assert(roster_view(characters@) =~= roster_view(before).push(character@));
        }
        place = next;
        i = i + 1;
    }
    Ok((characters, place))
}

/// Appends the writing of the characters of a roster to `out`.
pub fn encode_characters(characters: &Vec<JoinedCharacter>, out: &mut Vec<u8>)
    ensures
        final(out)@ == old(out)@ + wire_characters(roster_view(characters@)),
        valid_roster(roster_view(characters@)),
{
    let mut i: usize = 0;
    proof {
        assert(roster_view(characters@.subrange(0, 0)) =~= Seq::empty());
    }
    while i < characters.len()
        invariant
            i <= characters@.len(),
            out@ == old(out)@ + wire_characters(roster_view(characters@.subrange(0, i as int))),
            valid_roster(roster_view(characters@.subrange(0, i as int))),
        decreases characters.len() - i,
    {
        let c = &characters[i];
        let ghost before = out@;
        let ghost done = roster_view(characters@.subrange(0, i as int));
        encode_character(c.id, &c.name, c.chunk_id, &c.position, out);
        proof {
            lemma_wire_characters_push(done, c@);
            assert(roster_view(characters@.subrange(0, i + 1)) =~= done.push(c@));
            assert(out@ =~= old(out)@ + wire_characters(done.push(c@)));
        }
        i = i + 1;
    }
    proof {
        assert(characters@.subrange(0, characters@.len() as int) =~= characters@);
    }
}

} // verus!
