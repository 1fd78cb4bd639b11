//! The world mirror: what a client knows of the world, and what each
//! message of the server changes in it.

use crate::chunk::{Chunk, ChunkId};
use crate::field::Field;
use crate::generate::filed;
use crate::model::{
    CharacterView,
    ClientUdpMessage,
    ClientUdpMessageView,
    FloatBits,
    JoinedCharacter,
    ServerMessage,
    roster_view,
};
use vstd::prelude::*;

verus! {

/// A character of the mirror as plain values.
pub struct PlayerView {
    pub id: u64,
    pub name: Seq<char>,
    pub chunk_id: u32,
    pub position: (u32, u32),
    pub velocity: (u32, u32),
}

/// A character as a client sees it: who it is, where it is and how it
/// moves, in the frame of its chunk.
pub struct Character {
    pub id: u64,
    pub name: String,
    pub chunk_id: ChunkId,
    pub position: [FloatBits; 2],
    pub velocity: [FloatBits; 2],
}

impl View for Character {
    type V = PlayerView;

    open spec fn view(&self) -> PlayerView {
        PlayerView {
            id: self.id,
            name: self.name@,
            chunk_id: self.chunk_id@,
            position: (self.position[0], self.position[1]),
            velocity: (self.velocity[0], self.velocity[1]),
        }
    }
}

/// A character at rest, as the server announced it.
pub open spec fn arrived(c: CharacterView) -> PlayerView {
    PlayerView {
        id: c.id,
        name: c.name,
        chunk_id: c.chunk_id,
        position: c.position,
        velocity: (0, 0),
    }
}

impl Character {
    /// A character at rest at `position` in chunk `chunk_id`.
    pub fn new(id: u64, name: String, chunk_id: ChunkId, position: [FloatBits; 2]) -> (c: Character)
        ensures
            c@ == arrived(
                CharacterView { id, name: name@, chunk_id: chunk_id@, position: (
                    position[0],
                    position[1],
                ) },
            ),
    {
        Character { id, name, chunk_id, position, velocity: [0, 0] }
    }

    /// The identity that the server gave the character's client.
    pub fn id(&self) -> (id: u64)
        ensures
            id == self@.id,
    {
        self.id
    }

    /// The name the character entered under.
    pub fn name(&self) -> (name: &str)
        ensures
            name@ == self@.name,
    {
        self.name.as_str()
    }

    /// The same character, placed and moving as a relayed position tells.
    fn moved(&self, chunk_id: ChunkId, position: [FloatBits; 2], velocity: [FloatBits; 2]) -> (c:
        Character)
        ensures
            c@ == (PlayerView {
                chunk_id: chunk_id@,
                position: (position[0], position[1]),
                velocity: (velocity[0], velocity[1]),
                ..self@
            }),
    {
        Character { id: self.id, name: self.name.clone(), chunk_id, position, velocity }
    }

    /// A copy of this character.
    fn copy(&self) -> (c: Character)
        ensures
            c@ == self@,
    {
        Character {
            id: self.id,
            name: self.name.clone(),
            chunk_id: self.chunk_id,
            position: self.position,
            velocity: self.velocity,
        }
    }
}

/// The views of the characters of a mirror, in order.
pub open spec fn players_view(characters: Seq<Character>) -> Seq<PlayerView> {
    characters.map_values(|c: Character| c@)
}

/// The place of the first character with identity `id`, or the number of
/// characters where there is none.
pub open spec fn place_of(players: Seq<PlayerView>, id: u64) -> int
    decreases players.len(),
{
    if players.len() == 0 {
        0
    } else if players[0].id == id {
        0
    } else {
        1 + place_of(players.drop_first(), id)
    }
}

/// The characters of `players` but those with identity `id`, in order.
pub open spec fn players_without(players: Seq<PlayerView>, id: u64) -> Seq<PlayerView>
    decreases players.len(),
{
    if players.len() == 0 {
        Seq::empty()
    } else if players.last().id == id {
        players_without(players.drop_last(), id)
    } else {
        players_without(players.drop_last(), id).push(players.last())
    }
}

/// What a client knows: its copy of the world, the characters it has heard
/// of, and its own identity (0 until the server has given one).
pub struct Game {
    pub field: Field,
    pub characters: Vec<Character>,
    pub player_id: u64,
}

/// What one message of the server changes in the mirror, and the datagram
/// that the client owes in answer.
///
/// - `Joined` files the chunk received, replaces the characters by the
///   roster, all at rest, and takes the identity given; the client owes the
///   handshake that binds its datagram address to that identity.
/// - A relayed position places the first character of that identity; one
///   about the client itself, or about nobody known, changes nothing.
/// - `PlayerJoined` adds the character, at rest, unless one of that identity
///   is known.
/// - `PlayerLeft` removes the characters of that identity.
/// - `Chunk` files the chunk received.
///
/// The definition is hidden from the prover until it is revealed.
#[verifier::opaque]
pub open spec fn mirrored(
    pre: Game,
    event: ServerMessage,
    post: Game,
    owed: Option<ClientUdpMessageView>,
) -> bool {
    match event {
        ServerMessage::Joined(joined) => {
            &&& filed(pre.world(), joined.chunk, true, post.world())
            &&& players_view(post.characters@) == roster_view(joined.characters@).map_values(
                |c: CharacterView| arrived(c),
            )
            &&& post.player_id == joined.user_id
            &&& owed == Some(ClientUdpMessageView::Init { id: joined.user_id })
        },
        ServerMessage::Position { user_id, chunk_id, position, velocity } => {
            let before = players_view(pre.characters@);
            let k = place_of(before, user_id);
            &&& post.world() == pre.world()
            &&& post.player_id == pre.player_id
            &&& owed is None
            &&& players_view(post.characters@) == (if user_id != pre.player_id && k < before.len() {
                before.update(
                    k,
                    PlayerView {
                        chunk_id: chunk_id@,
                        position: (position[0], position[1]),
                        velocity: (velocity[0], velocity[1]),
                        ..before[k]
                    },
                )
            } else {
                before
            })
        },
        ServerMessage::PlayerJoined { id, name, chunk_id, position } => {
            let before = players_view(pre.characters@);
            &&& post.world() == pre.world()
            &&& post.player_id == pre.player_id
            &&& owed is None
            &&& players_view(post.characters@) == (if place_of(before, id) < before.len() {
                before
            } else {
                before.push(
                    arrived(
                        CharacterView { id, name: name@, chunk_id: chunk_id@, position: (
                            position[0],
                            position[1],
                        ) },
                    ),
                )
            })
        },
        ServerMessage::PlayerLeft { user_id } => {
            &&& post.world() == pre.world()
            &&& post.player_id == pre.player_id
            &&& owed is None
            &&& players_view(post.characters@) == players_without(
                players_view(pre.characters@),
                user_id,
            )
        },
        ServerMessage::Chunk { chunk } => {
            &&& filed(pre.world(), chunk, true, post.world())
            &&& players_view(post.characters@) == players_view(pre.characters@)
            &&& post.player_id == pre.player_id
            &&& owed is None
        },
    }
}

impl Game {
    /// The client's copy of the world.
    pub open spec fn world(&self) -> Field {
        self.field
    }

    /// The copy of the world is well formed.
    pub open spec fn wf(&self) -> bool {
        self.world().wf()
    }

    /// A mirror that knows the origin chunk alone and nobody: its world is
    /// the world at its start, with the origin chunk, numbered 1, filled
    /// with the terrain of that number and without neighbours, and 2 the
    /// next number to be given out. No identity is given yet.
    pub fn new() -> (game: Game)
        ensures
            game.wf(),
            game.world().new_id@ == 2,
            game.world().chunks@.dom() == set![1u32],
            game.world().chunks@[1].id@ == 1,
            game.world().chunks@[1].unlinked(),
            game.world().chunks@[1].has_terrain_of(1),
            game.world().coherent(),
            game.world().reciprocal(),
            game.characters@.len() == 0,
            game.player_id == 0,
    {
        let field = Field::new();
        Game { field, characters: Vec::new(), player_id: 0 }
    }

    /// The client's copy of the world.
    pub fn field(&self) -> (field: &Field)
        ensures
            *field == self.world(),
    {
        &self.field
    }

    /// Replaces the client's copy of the world.
    pub fn set_field(&mut self, field: Field)
        ensures
            final(self).world() == field,
            final(self).characters == old(self).characters,
            final(self).player_id == old(self).player_id,
    {
        self.field = field;
    }

    /// Files a chunk that the server sent, and links it with the neighbours
    /// that the known chunks lead to.
    pub fn update_chunk(&mut self, chunk: Chunk)
        requires
            old(self).wf(),
        ensures
            final(self).wf(),
            filed(old(self).world(), chunk, true, final(self).world()),
            final(self).characters == old(self).characters,
            final(self).player_id == old(self).player_id,
    {
        self.field.set_existed_chunk(chunk, true);
    }

    /// The place of the first character with identity `id`, if any.
    fn find(&self, id: u64) -> (k: usize)
        ensures
            k == place_of(players_view(self.characters@), id),
            k <= self.characters@.len(),
    {
        let ghost all = players_view(self.characters@);
        let mut i: usize = 0;
        proof {
            assert(all.subrange(0, all.len() as int) =~= all);
        }
        while i < self.characters.len()
            invariant
                i <= self.characters@.len(),
                all == players_view(self.characters@),
                place_of(all, id) == i + place_of(all.subrange(i as int, all.len() as int), id),
            decreases self.characters.len() - i,
        {
            let ghost rest = all.subrange(i as int, all.len() as int);
            proof {
                assert(rest[0] == self.characters@[i as int]@);
                assert(rest.drop_first() =~= all.subrange(i + 1, all.len() as int));
            }
            if self.characters[i].id() == id {
                return i;
            }
            i = i + 1;
        }
        proof {
            assert(all.subrange(i as int, all.len() as int) =~= Seq::empty());
        }
        i
    }

    /// `Joined`: the characters are those of the roster, at rest.
    fn take_roster(&mut self, roster: &Vec<JoinedCharacter>)
        ensures
            final(self).world() == old(self).world(),
            final(self).player_id == old(self).player_id,
            players_view(final(self).characters@) == roster_view(roster@).map_values(
                |c: CharacterView| arrived(c),
            ),
    {
        let mut characters: Vec<Character> = Vec::new();
        let mut i: usize = 0;
        let ghost target = roster_view(roster@).map_values(|c: CharacterView| arrived(c));
        while i < roster.len()
            invariant
                i <= roster@.len(),
                target == roster_view(roster@).map_values(|c: CharacterView| arrived(c)),
                players_view(characters@) == target.subrange(0, i as int),
            decreases roster.len() - i,
        {
            let c = &roster[i];
            let ghost before = characters@;
            characters.push(Character::new(c.id, c.name.clone(), c.chunk_id, c.position));
            proof {
                assert(players_view(characters@) =~= players_view(before).push(arrived(c@)));
                assert(target.subrange(0, i + 1) =~= target.subrange(0, i as int).push(
                    arrived(c@),
                ));
            }
            i = i + 1;
        }
        proof {
            assert(target.subrange(0, target.len() as int) =~= target);
        }
        self.characters = characters;
    }

    /// A relayed position places the first character with identity `user_id`.
    fn place(
        &mut self,
        user_id: u64,
        chunk_id: ChunkId,
        position: [FloatBits; 2],
        velocity: [FloatBits; 2],
    )
        ensures
            final(self).world() == old(self).world(),
            final(self).player_id == old(self).player_id,
            ({
                let before = players_view(old(self).characters@);
                let k = place_of(before, user_id);
                players_view(final(self).characters@) == (if user_id != old(self).player_id && k
                    < before.len() {
                    before.update(
                        k,
                        PlayerView {
                            chunk_id: chunk_id@,
                            position: (position[0], position[1]),
                            velocity: (velocity[0], velocity[1]),
                            ..before[k]
                        },
                    )
                } else {
                    before
                })
            }),
    {
        if user_id == self.player_id {
            return ;
        }
        let k = self.find(user_id);
        if k < self.characters.len() {
            let ghost before = players_view(self.characters@);
            let placed = self.characters[k].moved(chunk_id, position, velocity);
            self.characters.set(k, placed);
            proof {
                assert(players_view(self.characters@) =~= before.update(k as int, placed@));
            }
        }
    }

    /// `PlayerJoined`: the character is added unless its identity is known.
    fn admit_player(
        &mut self,
        id: u64,
        name: &String,
        chunk_id: ChunkId,
        position: [FloatBits; 2],
    )
        ensures
            final(self).world() == old(self).world(),
            final(self).player_id == old(self).player_id,
            ({
                let before = players_view(old(self).characters@);
                players_view(final(self).characters@) == (if place_of(before, id) < before.len() {
                    before
                } else {
                    before.push(
                        arrived(
                            CharacterView { id, name: name@, chunk_id: chunk_id@, position: (
                                position[0],
                                position[1],
                            ) },
                        ),
                    )
                })
            }),
    {
        let k = self.find(id);
        if k >= self.characters.len() {
            let ghost before = self.characters@;
            let c = Character::new(id, name.clone(), chunk_id, position);
            self.characters.push(c);
            proof {
                assert(players_view(self.characters@) =~= players_view(before).push(
                    self.characters@.last()@,
                ));
            }
        }
    }

    /// `PlayerLeft`: the characters with identity `id` go.
    fn dismiss(&mut self, id: u64)
        ensures
            final(self).world() == old(self).world(),
            final(self).player_id == old(self).player_id,
            players_view(final(self).characters@) == players_without(
                players_view(old(self).characters@),
                id,
            ),
    {
        let mut kept: Vec<Character> = Vec::new();
        let mut i: usize = 0;
        proof {
            assert(players_view(self.characters@.subrange(0, 0)) =~= Seq::empty());
            assert(players_view(kept@) =~= Seq::empty());
        }
        while i < self.characters.len()
            invariant
                i <= self.characters@.len(),
                self.characters == old(self).characters,
                self.world() == old(self).world(),
                self.player_id == old(self).player_id,
                players_view(kept@) == players_without(
                    players_view(self.characters@.subrange(0, i as int)),
                    id,
                ),
            decreases self.characters.len() - i,
        {
            let c = &self.characters[i];
            proof {
                let upto = players_view(self.characters@.subrange(0, i + 1));
                assert(upto.drop_last() =~= players_view(self.characters@.subrange(0, i as int)));
                assert(upto.last() == c@);
            }
            if c.id() != id {
                let ghost before = kept@;
                kept.push(c.copy());
                proof {
                    assert(players_view(kept@) =~= players_view(before).push(c@));
                }
            }
            i = i + 1;
        }
        proof {
            assert(self.characters@.subrange(0, self.characters@.len() as int)
                =~= self.characters@);
        }
        self.characters = kept;
    }
}

/// Applies one message of the server to the mirror. The result is the
/// datagram that the client is to send in answer, if any.
pub fn handle_event(event: &ServerMessage, game: &mut Game) -> (owed: Option<ClientUdpMessage>)
    requires
        old(game).wf(),
    ensures
        final(game).wf(),
        mirrored(*old(game), *event, *final(game), match owed {
            Some(m) => Some(m@),
            None => None,
        }),
{
    proof {
        reveal(mirrored);
    }
    match event {
        ServerMessage::Joined(joined) => {
            game.update_chunk(joined.chunk);
            game.take_roster(&joined.characters);
            game.player_id = joined.user_id;
            Some(ClientUdpMessage::Init { id: joined.user_id })
        },
        ServerMessage::Position { user_id, chunk_id, position, velocity } => {
            game.place(*user_id, *chunk_id, *position, *velocity);
            None
        },
        ServerMessage::PlayerJoined { id, name, chunk_id, position } => {
            game.admit_player(*id, name, *chunk_id, *position);
            None
        },
        ServerMessage::PlayerLeft { user_id } => {
            game.dismiss(*user_id);
            None
        },
        ServerMessage::Chunk { chunk } => {
            game.update_chunk(*chunk);
            None
        },
    }
}

} // verus!
