//! The wire codec of the four message catalogues, the same on both
//! transports: every message is the number of its variant followed by its
//! fields in order.
//!
//! Reading from a growing buffer tolerates partial input: as long as the
//! buffer holds only a beginning of a message, the outcome is "incomplete"
//! and nothing is consumed.

use crate::codec::{
    decode_character,
    decode_characters,
    decode_chunk,
    decode_chunk_id,
    decode_direction,
    decode_pair,
    decode_u16,
    decode_u32,
    decode_u64,
    encode_character,
    encode_characters,
    encode_chunk,
    encode_chunk_id,
    encode_direction,
    encode_pair,
    fail,
    lemma_character,
    lemma_characters,
    lemma_chunk,
    lemma_chunk_id,
    lemma_direction,
    lemma_pair,
    lemma_u16,
    lemma_u32,
    lemma_u64,
    parse_character,
    parse_characters,
    parse_chunk,
    parse_chunk_id,
    parse_direction,
    parse_pair,
    reads_back,
    valid_character,
    valid_chunk,
    valid_roster,
    wire_character,
    wire_characters,
    wire_chunk,
    wire_direction,
    wire_pair,
};
use crate::chunk::ChunkView;
use crate::model::{
    CharacterView,
    ClientMessage,
    ClientMessageView,
    ClientUdpMessage,
    ClientUdpMessageView,
    Join,
    Joined,
    PublicChatMessage,
    ServerMessage,
    ServerMessageView,
    ServerUdpMessage,
    ServerUdpMessageView,
};
use crate::wire::{
    decode_text,
    decoded,
    encode_text,
    encode_varint,
    holds,
    lemma_holds_concat,
    lemma_holds_itself,
    lemma_text,
    parse_text,
    parse_u16,
    parse_u32,
    parse_u64,
    text_fits,
    wire_text,
    wire_varint,
    DecodeError,
    Parsed,
};
use vstd::prelude::*;

verus! {

/// The largest datagram either side sends or takes.
pub const MAX_DATAGRAM: usize = 1024;

// ---------------------------------------------------------------------
// Client messages
// ---------------------------------------------------------------------
/// Whether this is a client message that can be written.
pub open spec fn valid_client_message(m: ClientMessageView) -> bool {
    match m {
        ClientMessageView::Join { name } => text_fits(name),
        ClientMessageView::PublicChatMessage { text } => text_fits(text),
        ClientMessageView::Position { chunk_id, .. } => chunk_id != 0,
        ClientMessageView::Leave => true,
        ClientMessageView::RequestChunk { id, .. } => id != 0,
    }
}

/// The writing of a client message.
pub open spec fn wire_client_message(m: ClientMessageView) -> Seq<u8> {
    match m {
        ClientMessageView::Join { name } => wire_varint(0) + wire_text(name),
        ClientMessageView::PublicChatMessage { text } => wire_varint(1) + wire_text(text),
        ClientMessageView::Position { chunk_id, position, velocity } => wire_varint(2)
            + wire_varint(chunk_id as int) + wire_pair(position) + wire_pair(velocity),
        ClientMessageView::Leave => wire_varint(3),
        ClientMessageView::RequestChunk { id, direction } => wire_varint(4) + wire_varint(
            id as int,
        ) + wire_direction(direction),
    }
}

/// Reads a client message from the buffer `s` at place `at`.
pub open spec fn parse_client_message(s: Seq<u8>, at: int) -> Parsed<ClientMessageView> {
    match parse_u32(s, at) {
        Parsed::Done { value: tag, next } => {
            if tag == 0 {
                match parse_text(s, next) {
                    Parsed::Done { value: name, next } => Parsed::Done {
                        value: ClientMessageView::Join { name },
                        next,
                    },
                    other => fail(other),
                }
            } else if tag == 1 {
                match parse_text(s, next) {
                    Parsed::Done { value: text, next } => Parsed::Done {
                        value: ClientMessageView::PublicChatMessage { text },
                        next,
                    },
                    other => fail(other),
                }
            } else if tag == 2 {
                match parse_chunk_id(s, next) {
                    Parsed::Done { value: chunk_id, next } => match parse_pair(s, next) {
                        Parsed::Done { value: position, next } => match parse_pair(s, next) {
                            Parsed::Done { value: velocity, next } => Parsed::Done {
                                value: ClientMessageView::Position { chunk_id, position, velocity },
                                next,
                            },
                            other => fail(other),
                        },
                        other => fail(other),
                    },
                    other => fail(other),
                }
            } else if tag == 3 {
                Parsed::Done { value: ClientMessageView::Leave, next }
            } else if tag == 4 {
                match parse_chunk_id(s, next) {
                    Parsed::Done { value: id, next } => match parse_direction(s, next) {
                        Parsed::Done { value: direction, next } => Parsed::Done {
                            value: ClientMessageView::RequestChunk { id, direction },
                            next,
                        },
                        other => fail(other),
                    },
                    other => fail(other),
                }
            } else {
                Parsed::Invalid
            }
        },
        other => fail(other),
    }
}

/// Reading back a client message as written: the whole writing yields the value, a beginning of it is incomplete.
pub proof fn lemma_client_message(m: ClientMessageView, s: Seq<u8>, at: int)
    requires
        0 <= at,
        valid_client_message(m),
    ensures
        reads_back(parse_client_message(s, at), m, s, at, wire_client_message(m)),
{
    match m {
        ClientMessageView::Join { name } => {
            let t = wire_varint(0);
            lemma_holds_concat(s, at, t, wire_text(name));
            lemma_u32(0, s, at);
            lemma_text(name, s, at + t.len());
        },
        ClientMessageView::PublicChatMessage { text } => {
            let t = wire_varint(1);
            lemma_holds_concat(s, at, t, wire_text(text));
            lemma_u32(1, s, at);
            lemma_text(text, s, at + t.len());
        },
        ClientMessageView::Position { chunk_id, position, velocity } => {
            let t = wire_varint(2);
            let w1 = wire_varint(chunk_id as int);
            let w2 = wire_pair(position);
            lemma_holds_concat(s, at, t + w1 + w2, wire_pair(velocity));
            lemma_holds_concat(s, at, t + w1, w2);
            lemma_holds_concat(s, at, t, w1);
            lemma_u32(2, s, at);
            lemma_chunk_id(chunk_id, s, at + t.len());
            lemma_pair(position, s, at + t.len() + w1.len());
            lemma_pair(velocity, s, at + t.len() + w1.len() + w2.len());
        },
        ClientMessageView::Leave => {
            lemma_u32(3, s, at);
        },
        ClientMessageView::RequestChunk { id, direction } => {
            let t = wire_varint(4);
            let w1 = wire_varint(id as int);
            lemma_holds_concat(s, at, t + w1, wire_direction(direction));
            lemma_holds_concat(s, at, t, w1);
            lemma_u32(4, s, at);
            lemma_chunk_id(id, s, at + t.len());
            lemma_direction(direction, s, at + t.len() + w1.len());
        },
    }
}

/// Reads a client message from `buf` at `at`, and tells the place after it.
pub fn decode_client_message(buf: &[u8], at: usize) -> (r: Result<
    (ClientMessage, usize),
    DecodeError,
>)
    ensures
        decoded(r, |m: ClientMessage| m@, parse_client_message(buf@, at as int)),
        r matches Ok((m, n)) ==> at < n <= buf@.len() && valid_client_message(m@),
{
    let (tag, a1) = match decode_u32(buf, at) {
        Ok(found) => found,
        Err(e) => {
            return Err(e);
        },
    };
    if tag == 0 {
        match decode_text(buf, a1) {
            Ok((name, n)) => Ok((ClientMessage::Join(Join { name }), n)),
            Err(e) => Err(e),
        }
    } else if tag == 1 {
        match decode_text(buf, a1) {
            Ok((text, n)) => Ok((ClientMessage::PublicChatMessage(PublicChatMessage { text }), n)),
            Err(e) => Err(e),
        }
    } else if tag == 2 {
        let (chunk_id, a2) = match decode_chunk_id(buf, a1) {
            Ok(found) => found,
            Err(e) => {
                return Err(e);
            },
        };
        let (position, a3) = match decode_pair(buf, a2) {
            Ok(found) => found,
            Err(e) => {
                return Err(e);
            },
        };
        let (velocity, a4) = match decode_pair(buf, a3) {
            Ok(found) => found,
            Err(e) => {
                return Err(e);
            },
        };
        Ok((ClientMessage::Position { chunk_id, position, velocity }, a4))
    } else if tag == 3 {
        Ok((ClientMessage::Leave, a1))
    } else if tag == 4 {
        let (id, a2) = match decode_chunk_id(buf, a1) {
            Ok(found) => found,
            Err(e) => {
                return Err(e);
            },
        };
        let (direction, a3) = match decode_direction(buf, a2) {
            Ok(found) => found,
            Err(e) => {
                return Err(e);
            },
        };
        Ok((ClientMessage::RequestChunk { id, direction }, a3))
    } else {
        Err(DecodeError::Invalid)
    }
}

/// Appends the writing of a client message to `out`.
pub fn encode_client_message(m: &ClientMessage, out: &mut Vec<u8>)
    ensures
        final(out)@ == old(out)@ + wire_client_message(m@),
        valid_client_message(m@),
{
    match m {
        ClientMessage::Join(join) => {
            encode_varint(0, out);
            encode_text(&join.name, out);
        },
        ClientMessage::PublicChatMessage(chat) => {
            encode_varint(1, out);
            encode_text(&chat.text, out);
        },
        ClientMessage::Position { chunk_id, position, velocity } => {
            encode_varint(2, out);
            encode_chunk_id(*chunk_id, out);
            encode_pair(position, out);
            encode_pair(velocity, out);
        },
        ClientMessage::Leave => {
            encode_varint(3, out);
        },
        ClientMessage::RequestChunk { id, direction } => {
            encode_varint(4, out);
            encode_chunk_id(*id, out);
            encode_direction(*direction, out);
        },
    }
    assert(out@ =~= old(out)@ + wire_client_message(m@));
}

// ---------------------------------------------------------------------
// Server messages
// ---------------------------------------------------------------------
/// Whether this is a server message that can be written.
pub open spec fn valid_server_message(m: ServerMessageView) -> bool {
    match m {
        ServerMessageView::Joined { chunk, characters, .. } => valid_chunk(chunk) && valid_roster(
            characters,
        ) && characters.len() <= u64::MAX,
        ServerMessageView::PlayerJoined { character } => valid_character(character),
        ServerMessageView::PlayerLeft { .. } => true,
        ServerMessageView::Position { chunk_id, .. } => chunk_id != 0,
        ServerMessageView::Chunk { chunk } => valid_chunk(chunk),
    }
}

/// The writing of the fields of a `Joined` reply: the identity, the chunk,
/// the number of characters and the characters.
pub open spec fn wire_joined(user_id: u64, chunk: ChunkView, characters: Seq<CharacterView>) -> Seq<
    u8,
> {
    wire_varint(user_id as int) + wire_chunk(chunk) + wire_varint(characters.len() as int)
        + wire_characters(characters)
}

/// The writing of the fields of a relayed position.
pub open spec fn wire_position(
    user_id: u64,
    chunk_id: u32,
    position: (u32, u32),
    velocity: (u32, u32),
) -> Seq<u8> {
    wire_varint(user_id as int) + wire_varint(chunk_id as int) + wire_pair(position) + wire_pair(
        velocity,
    )
}

/// The writing of a server message.
pub open spec fn wire_server_message(m: ServerMessageView) -> Seq<u8> {
    match m {
        ServerMessageView::Joined { user_id, chunk, characters } => wire_varint(0) + wire_joined(
            user_id,
            chunk,
            characters,
        ),
        ServerMessageView::PlayerJoined { character } => wire_varint(1) + wire_character(character),
        ServerMessageView::PlayerLeft { user_id } => wire_varint(2) + wire_varint(user_id as int),
        ServerMessageView::Position { user_id, chunk_id, position, velocity } => wire_varint(3)
            + wire_position(user_id, chunk_id, position, velocity),
        ServerMessageView::Chunk { chunk } => wire_varint(4) + wire_chunk(chunk),
    }
}

/// Reads the fields of a `Joined` reply.
pub open spec fn parse_joined(s: Seq<u8>, at: int) -> Parsed<ServerMessageView> {
    match parse_u64(s, at) {
        Parsed::Done { value: user_id, next } => match parse_chunk(s, next) {
            Parsed::Done { value: chunk, next } => match parse_u64(s, next) {
                Parsed::Done { value: count, next } => match parse_characters(
                    s,
                    next,
                    count as int,
                    Seq::empty(),
                ) {
                    Parsed::Done { value: characters, next } => Parsed::Done {
                        value: ServerMessageView::Joined { user_id, chunk, characters },
                        next,
                    },
                    other => fail(other),
                },
                other => fail(other),
            },
            other => fail(other),
        },
        other => fail(other),
    }
}

/// Reads the fields of a relayed position.
pub open spec fn parse_position(s: Seq<u8>, at: int) -> Parsed<ServerMessageView> {
    match parse_u64(s, at) {
        Parsed::Done { value: user_id, next } => match parse_chunk_id(s, next) {
            Parsed::Done { value: chunk_id, next } => match parse_pair(s, next) {
                Parsed::Done { value: position, next } => match parse_pair(s, next) {
                    Parsed::Done { value: velocity, next } => Parsed::Done {
                        value: ServerMessageView::Position { user_id, chunk_id, position, velocity },
                        next,
                    },
                    other => fail(other),
                },
                other => fail(other),
            },
            other => fail(other),
        },
        other => fail(other),
    }
}

/// Reads a server message from the buffer `s` at place `at`.
pub open spec fn parse_server_message(s: Seq<u8>, at: int) -> Parsed<ServerMessageView> {
    match parse_u32(s, at) {
        Parsed::Done { value: tag, next } => {
            if tag == 0 {
                parse_joined(s, next)
            } else if tag == 1 {
                match parse_character(s, next) {
                    Parsed::Done { value: character, next } => Parsed::Done {
                        value: ServerMessageView::PlayerJoined { character },
                        next,
                    },
                    other => fail(other),
                }
            } else if tag == 2 {
                match parse_u64(s, next) {
                    Parsed::Done { value: user_id, next } => Parsed::Done {
                        value: ServerMessageView::PlayerLeft { user_id },
                        next,
                    },
                    other => fail(other),
                }
            } else if tag == 3 {
                parse_position(s, next)
            } else if tag == 4 {
                match parse_chunk(s, next) {
                    Parsed::Done { value: chunk, next } => Parsed::Done {
                        value: ServerMessageView::Chunk { chunk },
                        next,
                    },
                    other => fail(other),
                }
            } else {
                Parsed::Invalid
            }
        },
        other => fail(other),
    }
}

/// Reading back the fields of a `Joined` reply as written: the whole writing yields the value, a beginning of it is incomplete.
pub proof fn lemma_joined(
    user_id: u64,
    chunk: ChunkView,
    characters: Seq<CharacterView>,
    s: Seq<u8>,
    at: int,
)
    requires
        0 <= at,
        valid_chunk(chunk),
        valid_roster(characters),
        characters.len() <= u64::MAX,
    ensures
        reads_back(
            parse_joined(s, at),
            ServerMessageView::Joined { user_id, chunk, characters },
            s,
            at,
            wire_joined(user_id, chunk, characters),
        ),
{
    let w1 = wire_varint(user_id as int);
    let w2 = wire_chunk(chunk);
    let w3 = wire_varint(characters.len() as int);
    let w4 = wire_characters(characters);
    let a2 = at + w1.len();
    let a3 = a2 + w2.len();
    let a4 = a3 + w3.len();
    lemma_holds_concat(s, at, w1 + w2 + w3, w4);
    lemma_holds_concat(s, at, w1 + w2, w3);
    lemma_holds_concat(s, at, w1, w2);
    lemma_u64(user_id, s, at);
    lemma_chunk(chunk, s, a2);
    lemma_u64(characters.len() as u64, s, a3);
    lemma_characters(characters, s, a4, Seq::empty());
    assert(Seq::<CharacterView>::empty() + characters =~= characters);
}

/// Reading back the fields of a relayed position as written: the whole writing yields the value, a beginning of it is incomplete.
pub proof fn lemma_position(
    user_id: u64,
    chunk_id: u32,
    position: (u32, u32),
    velocity: (u32, u32),
    s: Seq<u8>,
    at: int,
)
    requires
        0 <= at,
        chunk_id != 0,
    ensures
        reads_back(
            parse_position(s, at),
            ServerMessageView::Position { user_id, chunk_id, position, velocity },
            s,
            at,
            wire_position(user_id, chunk_id, position, velocity),
        ),
{
    let w1 = wire_varint(user_id as int);
    let w2 = wire_varint(chunk_id as int);
    let w3 = wire_pair(position);
    let a2 = at + w1.len();
    let a3 = a2 + w2.len();
    lemma_holds_concat(s, at, w1 + w2 + w3, wire_pair(velocity));
    lemma_holds_concat(s, at, w1 + w2, w3);
    lemma_holds_concat(s, at, w1, w2);
    lemma_u64(user_id, s, at);
    lemma_chunk_id(chunk_id, s, a2);
    lemma_pair(position, s, a3);
    lemma_pair(velocity, s, a3 + w3.len());
}

proof fn lemma_server_joined(
    user_id: u64,
    chunk: ChunkView,
    characters: Seq<CharacterView>,
    s: Seq<u8>,
    at: int,
)
    requires
        0 <= at,
        valid_chunk(chunk),
        valid_roster(characters),
        characters.len() <= u64::MAX,
    ensures
        reads_back(
            parse_server_message(s, at),
            ServerMessageView::Joined { user_id, chunk, characters },
            s,
            at,
            wire_varint(0) + wire_joined(user_id, chunk, characters),
        ),
{
    let t = wire_varint(0);
    lemma_holds_concat(s, at, t, wire_joined(user_id, chunk, characters));
    lemma_u32(0, s, at);
    lemma_joined(user_id, chunk, characters, s, at + t.len());
}

proof fn lemma_server_player_joined(character: CharacterView, s: Seq<u8>, at: int)
    requires
        0 <= at,
        valid_character(character),
    ensures
        reads_back(
            parse_server_message(s, at),
            ServerMessageView::PlayerJoined { character },
            s,
            at,
            wire_varint(1) + wire_character(character),
        ),
{
    let t = wire_varint(1);
    lemma_holds_concat(s, at, t, wire_character(character));
    lemma_u32(1, s, at);
    lemma_character(character, s, at + t.len());
}

proof fn lemma_server_player_left(user_id: u64, s: Seq<u8>, at: int)
    requires
        0 <= at,
    ensures
        reads_back(
            parse_server_message(s, at),
            ServerMessageView::PlayerLeft { user_id },
            s,
            at,
            wire_varint(2) + wire_varint(user_id as int),
        ),
{
    let t = wire_varint(2);
    lemma_holds_concat(s, at, t, wire_varint(user_id as int));
    lemma_u32(2, s, at);
    lemma_u64(user_id, s, at + t.len());
}

proof fn lemma_server_position(
    user_id: u64,
    chunk_id: u32,
    position: (u32, u32),
    velocity: (u32, u32),
    s: Seq<u8>,
    at: int,
)
    requires
        0 <= at,
        chunk_id != 0,
    ensures
        reads_back(
            parse_server_message(s, at),
            ServerMessageView::Position { user_id, chunk_id, position, velocity },
            s,
            at,
            wire_varint(3) + wire_position(user_id, chunk_id, position, velocity),
        ),
{
    let t = wire_varint(3);
    lemma_holds_concat(s, at, t, wire_position(user_id, chunk_id, position, velocity));
    lemma_u32(3, s, at);
    lemma_position(user_id, chunk_id, position, velocity, s, at + t.len());
}

proof fn lemma_server_chunk(chunk: ChunkView, s: Seq<u8>, at: int)
    requires
        0 <= at,
        valid_chunk(chunk),
    ensures
        reads_back(
            parse_server_message(s, at),
            ServerMessageView::Chunk { chunk },
            s,
            at,
            wire_varint(4) + wire_chunk(chunk),
        ),
{
    let t = wire_varint(4);
    lemma_holds_concat(s, at, t, wire_chunk(chunk));
    lemma_u32(4, s, at);
    lemma_chunk(chunk, s, at + t.len());
}

/// Reading back a server message as written: the whole writing yields the value, a beginning of it is incomplete.
pub proof fn lemma_server_message(m: ServerMessageView, s: Seq<u8>, at: int)
    requires
        0 <= at,
        valid_server_message(m),
    ensures
        reads_back(parse_server_message(s, at), m, s, at, wire_server_message(m)),
{
    match m {
        ServerMessageView::Joined { user_id, chunk, characters } => {
            lemma_server_joined(user_id, chunk, characters, s, at);
        },
        ServerMessageView::PlayerJoined { character } => {
            lemma_server_player_joined(character, s, at);
        },
        ServerMessageView::PlayerLeft { user_id } => {
            lemma_server_player_left(user_id, s, at);
        },
        ServerMessageView::Position { user_id, chunk_id, position, velocity } => {
            lemma_server_position(user_id, chunk_id, position, velocity, s, at);
        },
        ServerMessageView::Chunk { chunk } => {
            lemma_server_chunk(chunk, s, at);
        },
    }
}

fn decode_joined(buf: &[u8], at: usize) -> (r: Result<(ServerMessage, usize), DecodeError>)
    ensures
        decoded(r, |m: ServerMessage| m@, parse_joined(buf@, at as int)),
        r matches Ok((m, n)) ==> at < n <= buf@.len() && valid_server_message(m@),
{
    let (user_id, a1) = match decode_u64(buf, at) {
        Ok(found) => found,
        Err(e) => {
            return Err(e);
        },
    };
    let (chunk, a2) = match decode_chunk(buf, a1) {
        Ok(found) => found,
        Err(e) => {
            return Err(e);
        },
    };
    let (count, a3) = match decode_u64(buf, a2) {
        Ok(found) => found,
        Err(e) => {
            return Err(e);
        },
    };
    let (characters, a4) = match decode_characters(buf, a3, count) {
        Ok(found) => found,
        Err(e) => {
            return Err(e);
        },
    };
    Ok((ServerMessage::Joined(Joined { user_id, chunk, characters }), a4))
}

fn decode_position(buf: &[u8], at: usize) -> (r: Result<(ServerMessage, usize), DecodeError>)
    ensures
        decoded(r, |m: ServerMessage| m@, parse_position(buf@, at as int)),
        r matches Ok((m, n)) ==> at < n <= buf@.len() && valid_server_message(m@),
{
    let (user_id, a1) = match decode_u64(buf, at) {
        Ok(found) => found,
        Err(e) => {
            return Err(e);
        },
    };
    let (chunk_id, a2) = match decode_chunk_id(buf, a1) {
        Ok(found) => found,
        Err(e) => {
            return Err(e);
        },
    };
    let (position, a3) = match decode_pair(buf, a2) {
        Ok(found) => found,
        Err(e) => {
            return Err(e);
        },
    };
    let (velocity, a4) = match decode_pair(buf, a3) {
        Ok(found) => found,
        Err(e) => {
            return Err(e);
        },
    };
    Ok((ServerMessage::Position { user_id, chunk_id, position, velocity }, a4))
}

/// Reads a server message from `buf` at `at`, and tells the place after it.
pub fn decode_server_message(buf: &[u8], at: usize) -> (r: Result<
    (ServerMessage, usize),
    DecodeError,
>)
    ensures
        decoded(r, |m: ServerMessage| m@, parse_server_message(buf@, at as int)),
        r matches Ok((m, n)) ==> at < n <= buf@.len() && valid_server_message(m@),
{
    let (tag, a1) = match decode_u32(buf, at) {
        Ok(found) => found,
        Err(e) => {
            return Err(e);
        },
    };
    if tag == 0 {
        decode_joined(buf, a1)
    } else if tag == 1 {
        match decode_character(buf, a1) {
            Ok((c, n)) => Ok(
                (
                    ServerMessage::PlayerJoined {
                        id: c.id,
                        name: c.name,
                        chunk_id: c.chunk_id,
                        position: c.position,
                    },
                    n,
                ),
            ),
            Err(e) => Err(e),
        }
    } else if tag == 2 {
        match decode_u64(buf, a1) {
            Ok((user_id, n)) => Ok((ServerMessage::PlayerLeft { user_id }, n)),
            Err(e) => Err(e),
        }
    } else if tag == 3 {
        decode_position(buf, a1)
    } else if tag == 4 {
        match decode_chunk(buf, a1) {
            Ok((chunk, n)) => Ok((ServerMessage::Chunk { chunk }, n)),
            Err(e) => Err(e),
        }
    } else {
        Err(DecodeError::Invalid)
    }
}

/// Appends the writing of a server message to `out`.
pub fn encode_server_message(m: &ServerMessage, out: &mut Vec<u8>)
    ensures
        final(out)@ == old(out)@ + wire_server_message(m@),
        valid_server_message(m@),
{
    match m {
        ServerMessage::Joined(joined) => {
            encode_varint(0, out);
            encode_varint(joined.user_id, out);
            encode_chunk(&joined.chunk, out);
            encode_varint(joined.characters.len() as u64, out);
            encode_characters(&joined.characters, out);
        },
        ServerMessage::PlayerJoined { id, name, chunk_id, position } => {
            encode_varint(1, out);
            encode_character(*id, name, *chunk_id, position, out);
        },
        ServerMessage::PlayerLeft { user_id } => {
            encode_varint(2, out);
            encode_varint(*user_id, out);
        },
        ServerMessage::Position { user_id, chunk_id, position, velocity } => {
            encode_varint(3, out);
            encode_varint(*user_id, out);
            encode_chunk_id(*chunk_id, out);
            encode_pair(position, out);
            encode_pair(velocity, out);
        },
        ServerMessage::Chunk { chunk } => {
            encode_varint(4, out);
            encode_chunk(chunk, out);
        },
    }
    assert(out@ =~= old(out)@ + wire_server_message(m@));
}

// ---------------------------------------------------------------------
// Datagrams
// ---------------------------------------------------------------------
/// Whether this is a datagram of a client that can be written.
pub open spec fn valid_client_datagram(m: ClientUdpMessageView) -> bool {
    match m {
        ClientUdpMessageView::Init { .. } => true,
        ClientUdpMessageView::Message { message, .. } => valid_client_message(message),
    }
}

/// The writing of a datagram of a client.
pub open spec fn wire_client_datagram(m: ClientUdpMessageView) -> Seq<u8> {
    match m {
        ClientUdpMessageView::Init { id } => wire_varint(0) + wire_varint(id as int),
        ClientUdpMessageView::Message { sequence, message } => wire_varint(1) + wire_varint(
            sequence as int,
        ) + wire_client_message(message),
    }
}

/// Reads a datagram of a client from the buffer `s` at place `at`.
pub open spec fn parse_client_datagram(s: Seq<u8>, at: int) -> Parsed<ClientUdpMessageView> {
    match parse_u32(s, at) {
        Parsed::Done { value: tag, next } => {
            if tag == 0 {
                match parse_u64(s, next) {
                    Parsed::Done { value: id, next } => Parsed::Done {
                        value: ClientUdpMessageView::Init { id },
                        next,
                    },
                    other => fail(other),
                }
            } else if tag == 1 {
                match parse_u16(s, next) {
                    Parsed::Done { value: sequence, next } => match parse_client_message(s, next) {
                        Parsed::Done { value: message, next } => Parsed::Done {
                            value: ClientUdpMessageView::Message { sequence, message },
                            next,
                        },
                        other => fail(other),
                    },
                    other => fail(other),
                }
            } else {
                Parsed::Invalid
            }
        },
        other => fail(other),
    }
}

/// Reading back a datagram of a client as written: the whole writing yields the value, a beginning of it is incomplete.
pub proof fn lemma_client_datagram(m: ClientUdpMessageView, s: Seq<u8>, at: int)
    requires
        0 <= at,
        valid_client_datagram(m),
    ensures
        reads_back(parse_client_datagram(s, at), m, s, at, wire_client_datagram(m)),
{
    match m {
        ClientUdpMessageView::Init { id } => {
            let t = wire_varint(0);
            lemma_holds_concat(s, at, t, wire_varint(id as int));
            lemma_u32(0, s, at);
            lemma_u64(id, s, at + t.len());
        },
        ClientUdpMessageView::Message { sequence, message } => {
            let t = wire_varint(1);
            let w1 = wire_varint(sequence as int);
            lemma_holds_concat(s, at, t + w1, wire_client_message(message));
            lemma_holds_concat(s, at, t, w1);
            lemma_u32(1, s, at);
            lemma_u16(sequence, s, at + t.len());
            lemma_client_message(message, s, at + t.len() + w1.len());
        },
    }
}

/// Reads a datagram of a client from `buf` at `at`, and tells the place after it.
pub fn decode_client_datagram(buf: &[u8], at: usize) -> (r: Result<
    (ClientUdpMessage, usize),
    DecodeError,
>)
    ensures
        decoded(r, |m: ClientUdpMessage| m@, parse_client_datagram(buf@, at as int)),
        r matches Ok((m, n)) ==> at < n <= buf@.len() && valid_client_datagram(m@),
{
    let (tag, a1) = match decode_u32(buf, at) {
        Ok(found) => found,
        Err(e) => {
            return Err(e);
        },
    };
    if tag == 0 {
        match decode_u64(buf, a1) {
            Ok((id, n)) => Ok((ClientUdpMessage::Init { id }, n)),
            Err(e) => Err(e),
        }
    } else if tag == 1 {
        let (sequence, a2) = match decode_u16(buf, a1) {
            Ok(found) => found,
            Err(e) => {
                return Err(e);
            },
        };
        match decode_client_message(buf, a2) {
            Ok((message, n)) => Ok((ClientUdpMessage::Message { sequence, message }, n)),
            Err(e) => Err(e),
        }
    } else {
        Err(DecodeError::Invalid)
    }
}

/// Appends the writing of a datagram of a client to `out`.
pub fn encode_client_datagram(m: &ClientUdpMessage, out: &mut Vec<u8>)
    ensures
        final(out)@ == old(out)@ + wire_client_datagram(m@),
        valid_client_datagram(m@),
{
    match m {
        ClientUdpMessage::Init { id } => {
            encode_varint(0, out);
            encode_varint(*id, out);
        },
        ClientUdpMessage::Message { sequence, message } => {
            encode_varint(1, out);
            encode_varint(*sequence as u64, out);
            encode_client_message(message, out);
        },
    }
    assert(out@ =~= old(out)@ + wire_client_datagram(m@));
}

/// Whether this is a datagram of the server that can be written.
pub open spec fn valid_server_datagram(m: ServerUdpMessageView) -> bool {
    match m {
        ServerUdpMessageView::Init => true,
        ServerUdpMessageView::Message { message, .. } => valid_server_message(message),
    }
}

/// The writing of a datagram of the server.
pub open spec fn wire_server_datagram(m: ServerUdpMessageView) -> Seq<u8> {
    match m {
        ServerUdpMessageView::Init => wire_varint(0),
        ServerUdpMessageView::Message { sequence, message } => wire_varint(1) + wire_varint(
            sequence as int,
        ) + wire_server_message(message),
    }
}

/// Reads a datagram of the server from the buffer `s` at place `at`.
pub open spec fn parse_server_datagram(s: Seq<u8>, at: int) -> Parsed<ServerUdpMessageView> {
    match parse_u32(s, at) {
        Parsed::Done { value: tag, next } => {
            if tag == 0 {
                Parsed::Done { value: ServerUdpMessageView::Init, next }
            } else if tag == 1 {
                match parse_u16(s, next) {
                    Parsed::Done { value: sequence, next } => match parse_server_message(s, next) {
                        Parsed::Done { value: message, next } => Parsed::Done {
                            value: ServerUdpMessageView::Message { sequence, message },
                            next,
                        },
                        other => fail(other),
                    },
                    other => fail(other),
                }
            } else {
                Parsed::Invalid
            }
        },
        other => fail(other),
    }
}

/// Reading back a datagram of the server as written: the whole writing yields the value, a beginning of it is incomplete.
pub proof fn lemma_server_datagram(m: ServerUdpMessageView, s: Seq<u8>, at: int)
    requires
        0 <= at,
        valid_server_datagram(m),
    ensures
        reads_back(parse_server_datagram(s, at), m, s, at, wire_server_datagram(m)),
{
    match m {
        ServerUdpMessageView::Init => {
            lemma_u32(0, s, at);
        },
        ServerUdpMessageView::Message { sequence, message } => {
            let t = wire_varint(1);
            let w1 = wire_varint(sequence as int);
            lemma_holds_concat(s, at, t + w1, wire_server_message(message));
            lemma_holds_concat(s, at, t, w1);
            lemma_u32(1, s, at);
            lemma_u16(sequence, s, at + t.len());
            lemma_server_message(message, s, at + t.len() + w1.len());
        },
    }
}

/// Reads a datagram of the server from `buf` at `at`, and tells the place after it.
pub fn decode_server_datagram(buf: &[u8], at: usize) -> (r: Result<
    (ServerUdpMessage, usize),
    DecodeError,
>)
    ensures
        decoded(r, |m: ServerUdpMessage| m@, parse_server_datagram(buf@, at as int)),
        r matches Ok((m, n)) ==> at < n <= buf@.len() && valid_server_datagram(m@),
{
    let (tag, a1) = match decode_u32(buf, at) {
        Ok(found) => found,
        Err(e) => {
            return Err(e);
        },
    };
    if tag == 0 {
        Ok((ServerUdpMessage::Init, a1))
    } else if tag == 1 {
        let (sequence, a2) = match decode_u16(buf, a1) {
            Ok(found) => found,
            Err(e) => {
                return Err(e);
            },
        };
        match decode_server_message(buf, a2) {
            Ok((message, n)) => Ok((ServerUdpMessage::Message { sequence, message }, n)),
            Err(e) => Err(e),
        }
    } else {
        Err(DecodeError::Invalid)
    }
}

/// Appends the writing of a datagram of the server to `out`.
pub fn encode_server_datagram(m: &ServerUdpMessage, out: &mut Vec<u8>)
    ensures
        final(out)@ == old(out)@ + wire_server_datagram(m@),
        valid_server_datagram(m@),
{
    match m {
        ServerUdpMessage::Init => {
            encode_varint(0, out);
        },
        ServerUdpMessage::Message { sequence, message } => {
            encode_varint(1, out);
            encode_varint(*sequence as u64, out);
            encode_server_message(message, out);
        },
    }
    assert(out@ =~= old(out)@ + wire_server_datagram(m@));
}

// ---------------------------------------------------------------------
// The codec of a type
// ---------------------------------------------------------------------
/// A type with a writing and a parser that reads the writing back.
pub trait Wire: View + Sized {
    /// The values that can be written.
    spec fn valid(m: Self::V) -> bool;

    /// The writing of a value.
    spec fn wire(m: Self::V) -> Seq<u8>;

    /// What is read from the buffer `s` at place `at`.
    spec fn parse(s: Seq<u8>, at: int) -> Parsed<Self::V>;

    /// A buffer that holds the writing of a value is read as that value, up
    /// to the end of the writing; one that breaks off within the writing is
    /// read as incomplete.
    proof fn lemma_reads_back(m: Self::V, s: Seq<u8>, at: int)
        requires
            0 <= at,
            Self::valid(m),
        ensures
            reads_back(Self::parse(s, at), m, s, at, Self::wire(m)),
    ;

    /// Appends the writing of this value to `out`.
    fn encode(&self, out: &mut Vec<u8>)
        ensures
            final(out)@ == old(out)@ + Self::wire(self@),
            Self::valid(self@),
    ;

    /// Reads a value from `buf` at `at`, and tells the place after it.
    fn decode(buf: &[u8], at: usize) -> (r: Result<(Self, usize), DecodeError>)
        ensures
            decoded(r, |m: Self| m@, Self::parse(buf@, at as int)),
            r matches Ok((m, n)) ==> at <= n <= buf@.len() && Self::valid(m@),
    ;
}

impl Wire for ClientMessage {
    open spec fn valid(m: ClientMessageView) -> bool {
        valid_client_message(m)
    }

    open spec fn wire(m: ClientMessageView) -> Seq<u8> {
        wire_client_message(m)
    }

    open spec fn parse(s: Seq<u8>, at: int) -> Parsed<ClientMessageView> {
        parse_client_message(s, at)
    }

    proof fn lemma_reads_back(m: ClientMessageView, s: Seq<u8>, at: int) {
        lemma_client_message(m, s, at);
    }

    fn encode(&self, out: &mut Vec<u8>) {
        encode_client_message(self, out)
    }

    fn decode(buf: &[u8], at: usize) -> (r: Result<(Self, usize), DecodeError>) {
        decode_client_message(buf, at)
    }
}

impl Wire for ServerMessage {
    open spec fn valid(m: ServerMessageView) -> bool {
        valid_server_message(m)
    }

    open spec fn wire(m: ServerMessageView) -> Seq<u8> {
        wire_server_message(m)
    }

    open spec fn parse(s: Seq<u8>, at: int) -> Parsed<ServerMessageView> {
        parse_server_message(s, at)
    }

    proof fn lemma_reads_back(m: ServerMessageView, s: Seq<u8>, at: int) {
        lemma_server_message(m, s, at);
    }

    fn encode(&self, out: &mut Vec<u8>) {
        encode_server_message(self, out)
    }

    fn decode(buf: &[u8], at: usize) -> (r: Result<(Self, usize), DecodeError>) {
        decode_server_message(buf, at)
    }
}

impl Wire for ClientUdpMessage {
    open spec fn valid(m: ClientUdpMessageView) -> bool {
        valid_client_datagram(m)
    }

    open spec fn wire(m: ClientUdpMessageView) -> Seq<u8> {
        wire_client_datagram(m)
    }

    open spec fn parse(s: Seq<u8>, at: int) -> Parsed<ClientUdpMessageView> {
        parse_client_datagram(s, at)
    }

    proof fn lemma_reads_back(m: ClientUdpMessageView, s: Seq<u8>, at: int) {
        lemma_client_datagram(m, s, at);
    }

    fn encode(&self, out: &mut Vec<u8>) {
        encode_client_datagram(self, out)
    }

    fn decode(buf: &[u8], at: usize) -> (r: Result<(Self, usize), DecodeError>) {
        decode_client_datagram(buf, at)
    }
}

impl Wire for ServerUdpMessage {
    open spec fn valid(m: ServerUdpMessageView) -> bool {
        valid_server_datagram(m)
    }

    open spec fn wire(m: ServerUdpMessageView) -> Seq<u8> {
        wire_server_datagram(m)
    }

    open spec fn parse(s: Seq<u8>, at: int) -> Parsed<ServerUdpMessageView> {
        parse_server_datagram(s, at)
    }

    proof fn lemma_reads_back(m: ServerUdpMessageView, s: Seq<u8>, at: int) {
        lemma_server_datagram(m, s, at);
    }

    fn encode(&self, out: &mut Vec<u8>) {
        encode_server_datagram(self, out)
    }

    fn decode(buf: &[u8], at: usize) -> (r: Result<(Self, usize), DecodeError>) {
        decode_server_datagram(buf, at)
    }
}

impl Wire for String {
    open spec fn valid(m: Seq<char>) -> bool {
        text_fits(m)
    }

    open spec fn wire(m: Seq<char>) -> Seq<u8> {
        wire_text(m)
    }

    open spec fn parse(s: Seq<u8>, at: int) -> Parsed<Seq<char>> {
        parse_text(s, at)
    }

    proof fn lemma_reads_back(m: Seq<char>, s: Seq<u8>, at: int) {
        lemma_text(m, s, at);
    }

    fn encode(&self, out: &mut Vec<u8>) {
        encode_text(self, out)
    }

    fn decode(buf: &[u8], at: usize) -> (r: Result<(Self, usize), DecodeError>) {
        decode_text(buf, at)
    }
}

/// Partial-read tolerance: of the writing of any value, every proper
/// beginning is read as incomplete, and the whole is read as the value
/// itself with nothing left over.
pub proof fn lemma_partial_reads<T: Wire>(m: T::V, k: int)
    requires
        T::valid(m),
        0 <= k <= T::wire(m).len(),
    ensures
        k < T::wire(m).len() ==> T::parse(T::wire(m).subrange(0, k), 0) is Incomplete,
        T::parse(T::wire(m), 0) == (Parsed::Done { value: m, next: T::wire(m).len() as int }),
{
    let w = T::wire(m);
    lemma_holds_itself(w, k);
    lemma_holds_itself(w, w.len() as int);
    assert(w.subrange(0, w.len() as int) =~= w);
    T::lemma_reads_back(m, w.subrange(0, k), 0);
    T::lemma_reads_back(m, w, 0);
}

/// What follows the writing of a value in a buffer does not change what is
/// read: the value, and the place where the rest begins.
pub proof fn lemma_reads_first<T: Wire>(m: T::V, rest: Seq<u8>)
    requires
        T::valid(m),
    ensures
        T::parse(T::wire(m) + rest, 0) == (Parsed::Done {
            value: m,
            next: T::wire(m).len() as int,
        }),
{
    let w = T::wire(m);
    assert(holds(w + rest, 0, w)) by {
        assert forall|i: int| 0 <= i < w.len() implies (w + rest)[0 + i] == #[trigger] w[i] by {}
    }
    T::lemma_reads_back(m, w + rest, 0);
}

/// Takes one value off the front of the growing buffer `buf`. Where the
/// buffer does not hold a whole value yet, or holds bytes that violate the
/// format, it is left as it is.
pub fn read<T: Wire>(buf: &mut Vec<u8>) -> (r: Result<T, DecodeError>)
    ensures
        match T::parse(old(buf)@, 0) {
            Parsed::Done { value, next } => r matches Ok(m) && m@ == value && T::valid(m@)
                && 0 <= next <= old(buf)@.len() && final(buf)@ == old(buf)@.subrange(
                next,
                old(buf)@.len() as int,
            ),
            Parsed::Incomplete => r matches Err(DecodeError::Incomplete) && final(buf)@ == old(buf)@,
            Parsed::Invalid => r matches Err(DecodeError::Invalid) && final(buf)@ == old(buf)@,
        },
{
    let found = T::decode(buf.as_slice(), 0);
    match found {
        Ok((m, n)) => {
            let rest = buf.split_off(n);
            *buf = rest;
            Ok(m)
        },
        Err(e) => Err(e),
    }
}

/// Reads one value from a datagram. All or nothing: bytes after the value
/// are ignored, and a datagram that breaks off within the value is an
/// error like any other.
pub fn read_from_slice<T: Wire>(buf: &[u8]) -> (r: Result<T, DecodeError>)
    ensures
        match T::parse(buf@, 0) {
            Parsed::Done { value, next } => r matches Ok(m) && m@ == value && T::valid(m@),
            Parsed::Incomplete => r matches Err(DecodeError::Incomplete),
            Parsed::Invalid => r matches Err(DecodeError::Invalid),
        },
{
    match T::decode(buf, 0) {
        Ok((m, _)) => Ok(m),
        Err(e) => Err(e),
    }
}

/// Appends the writing of `message` to the outgoing bytes `out`.
pub fn write<T: Wire>(message: &T, out: &mut Vec<u8>)
    ensures
        final(out)@ == old(out)@ + T::wire(message@),
        T::valid(message@),
{
    message.encode(out)
}

/// The writing of `message` as one datagram, unless it is longer than
/// `capacity` bytes.
pub fn write_to_slice<T: Wire>(message: &T, capacity: usize) -> (datagram: Option<Vec<u8>>)
    ensures
        T::valid(message@),
        datagram is Some <==> T::wire(message@).len() <= capacity,
        datagram matches Some(bytes) ==> bytes@ == T::wire(message@),
{
    let mut out: Vec<u8> = Vec::new();
    message.encode(&mut out);
    assert(out@ =~= T::wire(message@));
    if out.len() <= capacity {
        Some(out)
    } else {
        None
    }
}

} // verus!
