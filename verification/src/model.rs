//! The messages that the peers exchange, and the characters they speak of.
//!
//! Positions and velocities are single-precision numbers that this library
//! carries but never reads: each stands here as its 32-bit pattern.

use crate::chunk::{Chunk, ChunkId, ChunkView};
use crate::direction::Direction;
use crate::udp_stat::Sequence;
use vstd::prelude::*;

verus! {

/// The bit pattern of a single-precision number.
pub type FloatBits = u32;

/// A line of chat and who said it.
#[derive(Clone, Debug)]
pub struct Message {
    pub id: u64,
    pub text: String,
}

/// A character as plain values.
pub struct CharacterView {
    pub id: u64,
    pub name: Seq<char>,
    pub chunk_id: u32,
    pub position: (u32, u32),
}

/// A character of the world: who it is, and where, in the frame of its
/// chunk.
#[derive(Clone, Debug)]
pub struct Character {
    pub id: u64,
    pub name: String,
    pub chunk_id: ChunkId,
    pub position: [FloatBits; 2],
}

impl View for Character {
    type V = CharacterView;

    open spec fn view(&self) -> CharacterView {
        CharacterView {
            id: self.id,
            name: self.name@,
            chunk_id: self.chunk_id@,
            position: (self.position[0], self.position[1]),
        }
    }
}

/// The request to enter the world under a name.
#[derive(Clone, Debug)]
pub struct Join {
    pub name: String,
}

/// A character as the roster of a `Joined` reply lists it.
#[derive(Clone, Debug)]
pub struct JoinedCharacter {
    pub id: u64,
    pub name: String,
    pub chunk_id: ChunkId,
    pub position: [FloatBits; 2],
}

impl View for JoinedCharacter {
    type V = CharacterView;

    open spec fn view(&self) -> CharacterView {
        CharacterView {
            id: self.id,
            name: self.name@,
            chunk_id: self.chunk_id@,
            position: (self.position[0], self.position[1]),
        }
    }
}

/// The views of a roster, in order.
pub open spec fn roster_view(characters: Seq<JoinedCharacter>) -> Seq<CharacterView> {
    characters.map_values(|c: JoinedCharacter| c@)
}

/// The reply to `Join`: the identity given to the client, the chunk it
/// starts in, and everyone present.
#[derive(Clone, Debug)]
pub struct Joined {
    pub user_id: u64,
    pub chunk: Chunk,
    pub characters: Vec<JoinedCharacter>,
}

/// A line of chat for everyone.
#[derive(Clone, Debug)]
pub struct PublicChatMessage {
    pub text: String,
}

/// What a client tells the server.
#[derive(Clone, Debug)]
pub enum ClientMessage {
    Join(Join),
    PublicChatMessage(PublicChatMessage),
    Position { chunk_id: ChunkId, position: [FloatBits; 2], velocity: [FloatBits; 2] },
    Leave,
    RequestChunk { id: ChunkId, direction: Direction },
}

/// A client message as plain values.
pub enum ClientMessageView {
    Join { name: Seq<char> },
    PublicChatMessage { text: Seq<char> },
    Position { chunk_id: u32, position: (u32, u32), velocity: (u32, u32) },
    Leave,
    RequestChunk { id: u32, direction: Direction },
}

impl View for ClientMessage {
    type V = ClientMessageView;

    open spec fn view(&self) -> ClientMessageView {
        match self {
            ClientMessage::Join(join) => ClientMessageView::Join { name: join.name@ },
            ClientMessage::PublicChatMessage(chat) => ClientMessageView::PublicChatMessage {
                text: chat.text@,
            },
            ClientMessage::Position { chunk_id, position, velocity } => ClientMessageView::Position {
                chunk_id: chunk_id@,
                position: (position[0], position[1]),
                velocity: (velocity[0], velocity[1]),
            },
            ClientMessage::Leave => ClientMessageView::Leave,
            ClientMessage::RequestChunk { id, direction } => ClientMessageView::RequestChunk {
                id: id@,
                direction: *direction,
            },
        }
    }
}

/// What the server tells a client.
#[derive(Clone, Debug)]
pub enum ServerMessage {
    Joined(Joined),
    PlayerJoined { id: u64, name: String, chunk_id: ChunkId, position: [FloatBits; 2] },
    PlayerLeft { user_id: u64 },
    Position { user_id: u64, chunk_id: ChunkId, position: [FloatBits; 2], velocity: [FloatBits; 2] },
    Chunk { chunk: Chunk },
}

/// A server message as plain values.
pub enum ServerMessageView {
    Joined { user_id: u64, chunk: ChunkView, characters: Seq<CharacterView> },
    PlayerJoined { character: CharacterView },
    PlayerLeft { user_id: u64 },
    Position { user_id: u64, chunk_id: u32, position: (u32, u32), velocity: (u32, u32) },
    Chunk { chunk: ChunkView },
}

impl View for ServerMessage {
    type V = ServerMessageView;

    open spec fn view(&self) -> ServerMessageView {
        match self {
            ServerMessage::Joined(joined) => ServerMessageView::Joined {
                user_id: joined.user_id,
                chunk: joined.chunk@,
                characters: roster_view(joined.characters@),
            },
            ServerMessage::PlayerJoined { id, name, chunk_id, position } => {
                ServerMessageView::PlayerJoined {
                    character: CharacterView {
                        id: *id,
                        name: name@,
                        chunk_id: chunk_id@,
                        position: (position[0], position[1]),
                    },
                }
            },
            ServerMessage::PlayerLeft { user_id } => ServerMessageView::PlayerLeft {
                user_id: *user_id,
            },
            ServerMessage::Position { user_id, chunk_id, position, velocity } => {
                ServerMessageView::Position {
                    user_id: *user_id,
                    chunk_id: chunk_id@,
                    position: (position[0], position[1]),
                    velocity: (velocity[0], velocity[1]),
                }
            },
            ServerMessage::Chunk { chunk } => ServerMessageView::Chunk { chunk: chunk@ },
        }
    }
}

/// A datagram from a client: the handshake that binds its address to its
/// identity, or a numbered message.
#[derive(Clone, Debug)]
pub enum ClientUdpMessage {
    Init { id: u64 },
    Message { sequence: Sequence, message: ClientMessage },
}

/// A client datagram as plain values.
pub enum ClientUdpMessageView {
    Init { id: u64 },
    Message { sequence: u16, message: ClientMessageView },
}

impl View for ClientUdpMessage {
    type V = ClientUdpMessageView;

    open spec fn view(&self) -> ClientUdpMessageView {
        match self {
            ClientUdpMessage::Init { id } => ClientUdpMessageView::Init { id: *id },
            ClientUdpMessage::Message { sequence, message } => ClientUdpMessageView::Message {
                sequence: *sequence,
                message: message@,
            },
        }
    }
}

/// A datagram from the server.
#[derive(Clone, Debug)]
pub enum ServerUdpMessage {
    Init,
    Message { sequence: Sequence, message: ServerMessage },
}

/// A server datagram as plain values.
pub enum ServerUdpMessageView {
    Init,
    Message { sequence: u16, message: ServerMessageView },
}

impl View for ServerUdpMessage {
    type V = ServerUdpMessageView;

    open spec fn view(&self) -> ServerUdpMessageView {
        match self {
            ServerUdpMessage::Init => ServerUdpMessageView::Init,
            ServerUdpMessage::Message { sequence, message } => ServerUdpMessageView::Message {
                sequence: *sequence,
                message: message@,
            },
        }
    }
}

} // verus!
