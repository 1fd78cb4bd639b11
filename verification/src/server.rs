//! The world authority: the server's single copy of the world, and what it
//! does with each message of a client.

use crate::chunk::{Chunk, ChunkId};
use crate::direction::Direction;
use crate::field::Field;
use crate::generate::generated;
use crate::model::{
    Character,
    CharacterView,
    ClientMessage,
    ClientMessageView,
    FloatBits,
    Joined,
    JoinedCharacter,
    ServerMessage,
    ServerMessageView,
    roster_view,
};
use crate::udp_stat::Sequence;
use vstd::prelude::*;

verus! {

/// Both coordinates of the place where a character enters the world: the
/// pattern of the number 2.0.
pub const SPAWN_COORDINATE: FloatBits = 0x4000_0000;

/// A message of a client, with the connection it came on. Messages from the
/// reliable channel carry the sequence number 0.
#[derive(Debug)]
pub struct IncomingEvent {
    pub connection_id: u64,
    pub sequence: Sequence,
    pub message: ClientMessage,
}

impl IncomingEvent {
    /// An event of the reliable channel: it carries no sequence number.
    pub fn reliable(connection_id: u64, message: ClientMessage) -> (event: IncomingEvent)
        ensures
            event.connection_id == connection_id,
            event.sequence == 0,
            event.message == message,
    {
        IncomingEvent { connection_id, sequence: 0, message }
    }

    /// The event that stands for the end of a connection: its client leaves.
    pub fn leave(connection_id: u64) -> (event: IncomingEvent)
        ensures
            event.connection_id == connection_id,
            event.sequence == 0,
            event.message@ == ClientMessageView::Leave,
    {
        IncomingEvent { connection_id, sequence: 0, message: ClientMessage::Leave }
    }
}

/// A message for one client, or for every client where `connection_id` is
/// `None`.
pub struct OutgoingEvent {
    pub connection_id: Option<u64>,
    pub message: ServerMessage,
}

/// An outgoing event as plain values.
pub struct OutgoingEventView {
    pub connection_id: Option<u64>,
    pub message: ServerMessageView,
}

impl View for OutgoingEvent {
    type V = OutgoingEventView;

    open spec fn view(&self) -> OutgoingEventView {
        OutgoingEventView { connection_id: self.connection_id, message: self.message@ }
    }
}

/// The views of a list of outgoing events, in order.
pub open spec fn events_view(events: Seq<OutgoingEvent>) -> Seq<OutgoingEventView> {
    events.map_values(|e: OutgoingEvent| e@)
}

/// The list `after` is the list `before` with events appended.
pub open spec fn extends(before: Seq<OutgoingEvent>, after: Seq<OutgoingEvent>) -> bool {
    before.len() <= after.len() && after.subrange(0, before.len() as int) == before
}

/// The views of the events that `after` holds beyond those of `before`.
pub open spec fn added(before: Seq<OutgoingEvent>, after: Seq<OutgoingEvent>) -> Seq<
    OutgoingEventView,
> {
    events_view(after.subrange(before.len() as int, after.len() as int))
}

/// Nothing is added to a list that stays as it is.
pub proof fn lemma_added_none(events: Seq<OutgoingEvent>)
    ensures
        extends(events, events),
        added(events, events) == Seq::<OutgoingEventView>::empty(),
{
    assert(events.subrange(0, events.len() as int) =~= events);
    assert(added(events, events) =~= Seq::<OutgoingEventView>::empty());
}

/// What is added in two steps is what the first step added followed by
/// what the second step added.
pub proof fn lemma_added_more(
    first: Seq<OutgoingEvent>,
    second: Seq<OutgoingEvent>,
    third: Seq<OutgoingEvent>,
)
    requires
        extends(first, second),
        extends(second, third),
    ensures
        extends(first, third),
        added(first, second).len() <= added(first, third).len(),
        added(first, third).subrange(0, added(first, second).len() as int) == added(first, second),
        added(first, third).subrange(
            added(first, second).len() as int,
            added(first, third).len() as int,
        ) == added(second, third),
{
    assert forall|k: int| 0 <= k < second.len() implies third[k] == second[k] by {
        assert(third.subrange(0, second.len() as int)[k] == second[k]);
    }
    assert forall|k: int| 0 <= k < first.len() implies second[k] == first[k] by {
        assert(second.subrange(0, first.len() as int)[k] == first[k]);
    }
    assert(third.subrange(0, first.len() as int) =~= first);
    assert(added(first, third).subrange(0, added(first, second).len() as int) =~= added(
        first,
        second,
    ));
    assert(added(first, third).subrange(
        added(first, second).len() as int,
        added(first, third).len() as int,
    ) =~= added(second, third));
}

/// The views of the characters of a world, in order.
pub open spec fn cast_view(characters: Seq<Character>) -> Seq<CharacterView> {
    characters.map_values(|c: Character| c@)
}

/// The lines of chat as plain values.
pub open spec fn lines_view(lines: Seq<String>) -> Seq<Seq<char>> {
    lines.map_values(|l: String| l@)
}

/// The characters of `cast` but those with identity `id`, in order.
pub open spec fn without(cast: Seq<CharacterView>, id: u64) -> Seq<CharacterView>
    decreases cast.len(),
{
    if cast.len() == 0 {
        Seq::empty()
    } else if cast.last().id == id {
        without(cast.drop_last(), id)
    } else {
        without(cast.drop_last(), id).push(cast.last())
    }
}

/// The state of the server: the chat so far, the world, and the characters
/// in it.
pub struct Global {
    pub messages: Vec<String>,
    pub field: Field,
    pub characters: Vec<Character>,
}

/// Whether two worlds hold the same chunks and give out the same number next.
pub open spec fn same_field(a: Field, b: Field) -> bool {
    a.chunks@ == b.chunks@ && a.new_id == b.new_id
}

/// What the server replies to a request for the neighbour of chunk `id` in
/// direction `d`, once the world is `field`: that neighbour, where it is
/// known, to the client that asked.
pub open spec fn chunk_reply(field: Field, who: u64, id: u32, d: Direction) -> Seq<
    OutgoingEventView,
> {
    let to = field.step(id, d);
    if to != 0 {
        seq![
            OutgoingEventView {
                connection_id: Some(who),
                message: ServerMessageView::Chunk { chunk: field.chunks@[to]@ },
            },
        ]
    } else {
        Seq::empty()
    }
}

/// What handling one event does: from the state `pre` to the state `post`,
/// with the events `tcp` for the reliable channel and `udp` for the
/// unreliable one.
///
/// - `Join` adds a character named as asked, with the connection's identity,
///   at the spawn place of the origin chunk; the client gets `Joined` with
///   the origin chunk and everyone present, itself included, and everyone
///   gets `PlayerJoined`.
/// - `Leave` removes the characters of that connection and tells everyone.
/// - A chat line is kept.
/// - A position is passed on to everyone as it came, under the sender's
///   identity, over the unreliable channel.
/// - `RequestChunk` generates the neighbour asked for unless there is one,
///   the chunk asked from is unknown or the numbers have run out; the client
///   gets the neighbour that is then there, if any.
///
/// The definition is hidden from the prover until it is revealed.
#[verifier::opaque]
pub open spec fn handled(
    pre: Global,
    event: IncomingEvent,
    post: Global,
    tcp: Seq<OutgoingEventView>,
    udp: Seq<OutgoingEventView>,
) -> bool {
    let who = event.connection_id;
    match event.message@ {
        ClientMessageView::Join { name } => {
            let spawned = CharacterView {
                id: who,
                name,
                chunk_id: 1,
                position: (SPAWN_COORDINATE, SPAWN_COORDINATE),
            };
            &&& same_field(post.field, pre.field)
            &&& lines_view(post.messages@) == lines_view(pre.messages@)
            &&& cast_view(post.characters@) == cast_view(pre.characters@).push(spawned)
            &&& udp == Seq::<OutgoingEventView>::empty()
            &&& tcp == seq![
                OutgoingEventView {
                    connection_id: Some(who),
                    message: ServerMessageView::Joined {
                        user_id: who,
                        chunk: pre.field.chunks@[1]@,
                        characters: cast_view(post.characters@),
                    },
                },
                OutgoingEventView {
                    connection_id: None,
                    message: ServerMessageView::PlayerJoined { character: spawned },
                },
            ]
        },
        ClientMessageView::Leave => {
            &&& same_field(post.field, pre.field)
            &&& lines_view(post.messages@) == lines_view(pre.messages@)
            &&& cast_view(post.characters@) == without(cast_view(pre.characters@), who)
            &&& udp == Seq::<OutgoingEventView>::empty()
            &&& tcp == seq![
                OutgoingEventView {
                    connection_id: None,
                    message: ServerMessageView::PlayerLeft { user_id: who },
                },
            ]
        },
        ClientMessageView::PublicChatMessage { text } => {
            &&& same_field(post.field, pre.field)
            &&& lines_view(post.messages@) == lines_view(pre.messages@).push(text)
            &&& cast_view(post.characters@) == cast_view(pre.characters@)
            &&& udp == Seq::<OutgoingEventView>::empty()
            &&& tcp == Seq::<OutgoingEventView>::empty()
        },
        ClientMessageView::Position { chunk_id, position, velocity } => {
            &&& same_field(post.field, pre.field)
            &&& lines_view(post.messages@) == lines_view(pre.messages@)
            &&& cast_view(post.characters@) == cast_view(pre.characters@)
            &&& tcp == Seq::<OutgoingEventView>::empty()
            &&& udp == seq![
                OutgoingEventView {
                    connection_id: None,
                    message: ServerMessageView::Position {
                        user_id: who,
                        chunk_id,
                        position,
                        velocity,
                    },
                },
            ]
        },
        ClientMessageView::RequestChunk { id, direction } => {
            &&& lines_view(post.messages@) == lines_view(pre.messages@)
            &&& cast_view(post.characters@) == cast_view(pre.characters@)
            &&& if pre.field.known(id) && pre.field.new_id@ < u32::MAX {
                generated(
                    pre.field,
                    id,
                    direction,
                    post.field,
                    if pre.field.link(id, direction) != 0 {
                        None
                    } else {
                        Some(pre.field.new_id)
                    },
                )
            } else {
                same_field(post.field, pre.field)
            }
            &&& udp == Seq::<OutgoingEventView>::empty()
            &&& tcp == chunk_reply(post.field, who, id, direction)
        },
    }
}

/// Names the state and the outgoing events between two events of a batch.
pub open spec fn between(
    mid: Global,
    t: Seq<OutgoingEventView>,
    u: Seq<OutgoingEventView>,
) -> bool {
    true
}

/// What handling the events `events` in order does: the state `post` and
/// the outgoing events `tcp` and `udp`, from the state `pre`. Each event is
/// handled in the state that the events before it left, and its outgoing
/// events follow theirs.
pub open spec fn processed(
    pre: Global,
    events: Seq<IncomingEvent>,
    post: Global,
    tcp: Seq<OutgoingEventView>,
    udp: Seq<OutgoingEventView>,
) -> bool
    decreases events.len(),
{
    if events.len() == 0 {
        &&& same_field(post.field, pre.field)
        &&& lines_view(post.messages@) == lines_view(pre.messages@)
        &&& cast_view(post.characters@) == cast_view(pre.characters@)
        &&& tcp == Seq::<OutgoingEventView>::empty()
        &&& udp == Seq::<OutgoingEventView>::empty()
    } else {
        exists|mid: Global, t: Seq<OutgoingEventView>, u: Seq<OutgoingEventView>|
            {
                &&& #[trigger] between(mid, t, u)
                &&& processed(pre, events.drop_last(), mid, t, u)
                &&& t.len() <= tcp.len()
                &&& u.len() <= udp.len()
                &&& tcp.subrange(0, t.len() as int) == t
                &&& udp.subrange(0, u.len() as int) == u
                &&& handled(
                    mid,
                    events.last(),
                    post,
                    tcp.subrange(t.len() as int, tcp.len() as int),
                    udp.subrange(u.len() as int, udp.len() as int),
                )
            }
    }
}

impl Global {
    /// The world is coherent.
    pub open spec fn wf(&self) -> bool {
        self.field.coherent()
    }

    /// A server with the origin chunk alone, nobody present, nothing said.
    pub fn new() -> (global: Global)
        ensures
            global.wf(),
            global.messages@.len() == 0,
            global.characters@.len() == 0,
            global.field.new_id@ == 2,
            global.field.chunks@.dom() == set![1u32],
    {
        Global { messages: Vec::new(), field: Field::new(), characters: Vec::new() }
    }

    /// The roster of everyone present, as a `Joined` reply lists it.
    fn roster(&self) -> (roster: Vec<JoinedCharacter>)
        ensures
            roster_view(roster@) == cast_view(self.characters@),
    {
        let mut roster: Vec<JoinedCharacter> = Vec::new();
        let mut i: usize = 0;
        while i < self.characters.len()
            invariant
                i <= self.characters@.len(),
                roster_view(roster@) == cast_view(self.characters@.subrange(0, i as int)),
            decreases self.characters.len() - i,
        {
            let c = &self.characters[i];
            let ghost before = roster@;
            roster.push(
                JoinedCharacter {
                    id: c.id,
                    name: c.name.clone(),
                    chunk_id: c.chunk_id,
                    position: c.position,
                },
            );
            proof {
                assert(roster_view(roster@) =~= roster_view(before).push(c@));
                assert(cast_view(self.characters@.subrange(0, i + 1)) =~= cast_view(
                    self.characters@.subrange(0, i as int),
                ).push(c@));
            }
            i = i + 1;
        }
        proof {
            assert(self.characters@.subrange(0, self.characters@.len() as int)
                =~= self.characters@);
        }
        roster
    }

    /// Removes the characters with identity `id`.
    fn remove_character(&mut self, id: u64)
        ensures
            final(self).field == old(self).field,
            final(self).messages == old(self).messages,
            cast_view(final(self).characters@) == without(cast_view(old(self).characters@), id),
    {
        let mut kept: Vec<Character> = Vec::new();
        let mut i: usize = 0;
        proof {
            assert(cast_view(self.characters@.subrange(0, 0)) =~= Seq::empty());
            assert(cast_view(kept@) =~= Seq::empty());
        }
        while i < self.characters.len()
            invariant
                i <= self.characters@.len(),
                self.characters == old(self).characters,
                self.field == old(self).field,
                self.messages == old(self).messages,
                cast_view(kept@) == without(cast_view(self.characters@.subrange(0, i as int)), id),
            decreases self.characters.len() - i,
        {
            let c = &self.characters[i];
            proof {
                let upto = cast_view(self.characters@.subrange(0, i + 1));
                assert(upto.drop_last() =~= cast_view(self.characters@.subrange(0, i as int)));
                assert(upto.last() == c@);
            }
            if c.id != id {
                let ghost before = kept@;
                kept.push(
                    Character {
                        id: c.id,
                        name: c.name.clone(),
                        chunk_id: c.chunk_id,
                        position: c.position,
                    },
                );
                proof {
                    assert(cast_view(kept@) =~= cast_view(before).push(c@));
                }
            }
            i = i + 1;
        }
        proof {
            assert(self.characters@.subrange(0, self.characters@.len() as int)
                =~= self.characters@);
        }
        self.characters = kept;
    }

    /// `Join`: a character enters the world.
    fn handle_join(
        &mut self,
        who: u64,
        name: &String,
        tcp_events: &mut Vec<OutgoingEvent>,
    )
        requires
            old(self).wf(),
        ensures
            final(self).field == old(self).field,
            final(self).messages == old(self).messages,
            cast_view(final(self).characters@) == cast_view(old(self).characters@).push(
                CharacterView {
                    id: who,
                    name: name@,
                    chunk_id: 1,
                    position: (SPAWN_COORDINATE, SPAWN_COORDINATE),
                },
            ),
            extends(old(tcp_events)@, final(tcp_events)@),
            added(old(tcp_events)@, final(tcp_events)@) == seq![
                OutgoingEventView {
                    connection_id: Some(who),
                    message: ServerMessageView::Joined {
                        user_id: who,
                        chunk: old(self).field.chunks@[1]@,
                        characters: cast_view(final(self).characters@),
                    },
                },
                OutgoingEventView {
                    connection_id: None,
                    message: ServerMessageView::PlayerJoined {
                        character: CharacterView {
                            id: who,
                            name: name@,
                            chunk_id: 1,
                            position: (SPAWN_COORDINATE, SPAWN_COORDINATE),
                        },
                    },
                },
            ],
    {
        let ghost tcp0 = tcp_events@;
        let chunk_id = ChunkId::min();
        let position: [FloatBits; 2] = [SPAWN_COORDINATE, SPAWN_COORDINATE];
        let ghost cast0 = self.characters@;
        self.characters.push(Character { id: who, name: name.clone(), chunk_id, position });
        let origin: Chunk = match self.field.chunk(chunk_id) {
            Some(c) => *c,
            None => Chunk::new(chunk_id),
        };
        let roster = self.roster();
        let first = OutgoingEvent {
            connection_id: Some(who),
            message: ServerMessage::Joined(
                Joined { user_id: who, chunk: origin, characters: roster },
            ),
        };
        let second = OutgoingEvent {
            connection_id: None,
            message: ServerMessage::PlayerJoined { id: who, name: name.clone(), chunk_id, position },
        };
        let ghost v1 = first@;
        let ghost v2 = second@;
        tcp_events.push(first);
        tcp_events.push(second);
        proof {
            assert(cast_view(self.characters@) =~= cast_view(cast0).push(self.characters@.last()@));
            assert(tcp_events@.subrange(0, tcp0.len() as int) =~= tcp0);
            assert(added(tcp0, tcp_events@) =~= seq![v1, v2]);
        }
    }

    /// `Leave`: the characters of a connection go.
    fn handle_leave(&mut self, who: u64, tcp_events: &mut Vec<OutgoingEvent>)
        ensures
            final(self).field == old(self).field,
            final(self).messages == old(self).messages,
            cast_view(final(self).characters@) == without(cast_view(old(self).characters@), who),
            extends(old(tcp_events)@, final(tcp_events)@),
            added(old(tcp_events)@, final(tcp_events)@) == seq![
                OutgoingEventView {
                    connection_id: None,
                    message: ServerMessageView::PlayerLeft { user_id: who },
                },
            ],
    {
        let ghost tcp0 = tcp_events@;
        self.remove_character(who);
        let gone = OutgoingEvent {
            connection_id: None,
            message: ServerMessage::PlayerLeft { user_id: who },
        };
        let ghost v = gone@;
        tcp_events.push(gone);
        proof {
            assert(tcp_events@.subrange(0, tcp0.len() as int) =~= tcp0);
            assert(added(tcp0, tcp_events@) =~= seq![v]);
        }
    }

    /// A chat line is kept.
    fn handle_chat(&mut self, text: &String)
        ensures
            final(self).field == old(self).field,
            final(self).characters == old(self).characters,
            lines_view(final(self).messages@) == lines_view(old(self).messages@).push(text@),
    {
        let ghost lines0 = self.messages@;
        self.messages.push(text.clone());
        proof {
            assert(lines_view(self.messages@) =~= lines_view(lines0).push(text@));
        }
    }

    /// A position is passed on as it came.
    fn handle_position(
        who: u64,
        chunk_id: ChunkId,
        position: [FloatBits; 2],
        velocity: [FloatBits; 2],
        udp_events: &mut Vec<OutgoingEvent>,
    )
        ensures
            extends(old(udp_events)@, final(udp_events)@),
            added(old(udp_events)@, final(udp_events)@) == seq![
                OutgoingEventView {
                    connection_id: None,
                    message: ServerMessageView::Position {
                        user_id: who,
                        chunk_id: chunk_id@,
                        position: (position[0], position[1]),
                        velocity: (velocity[0], velocity[1]),
                    },
                },
            ],
    {
        let ghost udp0 = udp_events@;
        let relayed = OutgoingEvent {
            connection_id: None,
            message: ServerMessage::Position { user_id: who, chunk_id, position, velocity },
        };
        let ghost v = relayed@;
        udp_events.push(relayed);
        proof {
            assert(udp_events@.subrange(0, udp0.len() as int) =~= udp0);
            assert(added(udp0, udp_events@) =~= seq![v]);
        }
    }

    /// `RequestChunk`: the neighbour asked for is generated where it can be,
    /// and sent where it is there.
    fn handle_request(
        &mut self,
        who: u64,
        id: ChunkId,
        direction: Direction,
        tcp_events: &mut Vec<OutgoingEvent>,
    )
        requires
            old(self).wf(),
        ensures
            final(self).wf(),
            final(self).messages == old(self).messages,
            final(self).characters == old(self).characters,
            if old(self).field.known(id@) && old(self).field.new_id@ < u32::MAX {
                generated(
                    old(self).field,
                    id@,
                    direction,
                    final(self).field,
                    if old(self).field.link(id@, direction) != 0 {
                        None
                    } else {
                        Some(old(self).field.new_id)
                    },
                )
            } else {
                same_field(final(self).field, old(self).field)
            },
            extends(old(tcp_events)@, final(tcp_events)@),
            added(old(tcp_events)@, final(tcp_events)@) == chunk_reply(
                final(self).field,
                who,
                id@,
                direction,
            ),
    {
        let ghost tcp0 = tcp_events@;
        let known = self.field.chunk(id).is_some();
        if known && self.field.new_id.get() < u32::MAX {
            self.field.generate_chunk(id, direction);
        }
        let reply: Option<Chunk> = match self.field.related(id, direction) {
            Some(to) => match self.field.chunk(to) {
                Some(c) => Some(*c),
                None => None,
            },
            None => None,
        };
        proof {
            assert(!self.field.known(0));
        }
        match reply {
            Some(chunk) => {
                let sent = OutgoingEvent {
                    connection_id: Some(who),
                    message: ServerMessage::Chunk { chunk },
                };
                let ghost v = sent@;
                tcp_events.push(sent);
                proof {
                    assert(added(tcp0, tcp_events@) =~= seq![v]);
                }
            },
            None => {
                proof {
                    assert(added(tcp0, tcp_events@) =~= Seq::empty());
                }
            },
        }
        proof {
            assert(tcp_events@.subrange(0, tcp0.len() as int) =~= tcp0);
        }
    }

    /// Handles one event of a client: changes the state and appends what is
    /// to be sent to `tcp_events` and `udp_events`.
    pub fn handle(
        &mut self,
        event: &IncomingEvent,
        tcp_events: &mut Vec<OutgoingEvent>,
        udp_events: &mut Vec<OutgoingEvent>,
    )
        requires
            old(self).wf(),
        ensures
            final(self).wf(),
            extends(old(tcp_events)@, final(tcp_events)@),
            extends(old(udp_events)@, final(udp_events)@),
            handled(
                *old(self),
                *event,
                *final(self),
                added(old(tcp_events)@, final(tcp_events)@),
                added(old(udp_events)@, final(udp_events)@),
            ),
    {
        let who: u64 = event.connection_id;
        let ghost tcp0 = tcp_events@;
        let ghost udp0 = udp_events@;
        proof {
            reveal(handled);
            lemma_added_none(tcp0);
            lemma_added_none(udp0);
        }
        match &event.message {
            ClientMessage::Join(join) => {
                self.handle_join(who, &join.name, tcp_events);
            },
            ClientMessage::Leave => {
                self.handle_leave(who, tcp_events);
            },
            ClientMessage::PublicChatMessage(chat) => {
                self.handle_chat(&chat.text);
            },
            ClientMessage::Position { chunk_id, position, velocity } => {
                Self::handle_position(who, *chunk_id, *position, *velocity, udp_events);
            },
            ClientMessage::RequestChunk { id, direction } => {
                self.handle_request(who, *id, *direction, tcp_events);
            },
        }
    }

    /// Handles the events waiting in `incoming_events`, in order, and empties
    /// the list.
    pub fn process(
        &mut self,
        incoming_events: &mut Vec<IncomingEvent>,
        tcp_events: &mut Vec<OutgoingEvent>,
        udp_events: &mut Vec<OutgoingEvent>,
    )
        requires
            old(self).wf(),
        ensures
            final(self).wf(),
            final(incoming_events)@.len() == 0,
            extends(old(tcp_events)@, final(tcp_events)@),
            extends(old(udp_events)@, final(udp_events)@),
            processed(
                *old(self),
                old(incoming_events)@,
                *final(self),
                added(old(tcp_events)@, final(tcp_events)@),
                added(old(udp_events)@, final(udp_events)@),
            ),
    {
        let ghost tcp0 = tcp_events@;
        let ghost udp0 = udp_events@;
        let ghost events = incoming_events@;
        let mut i: usize = 0;
        proof {
            assert(events.subrange(0, 0) =~= Seq::empty());
            lemma_added_none(tcp0);
            lemma_added_none(udp0);
        }
        while i < incoming_events.len()
            invariant
                i <= events.len(),
                incoming_events@ == events,
                self.wf(),
                extends(tcp0, tcp_events@),
                extends(udp0, udp_events@),
                processed(
                    *old(self),
                    events.subrange(0, i as int),
                    *self,
                    added(tcp0, tcp_events@),
                    added(udp0, udp_events@),
                ),
            decreases events.len() - i,
        {
            let ghost mid = *self;
            let ghost tcp1 = tcp_events@;
            let ghost udp1 = udp_events@;
            self.handle(&incoming_events[i], tcp_events, udp_events);
            proof {
                let upto = events.subrange(0, i + 1);
                assert(upto.drop_last() =~= events.subrange(0, i as int));
                assert(upto.last() == events[i as int]);
                lemma_added_more(tcp0, tcp1, tcp_events@);
                lemma_added_more(udp0, udp1, udp_events@);
                assert(between(mid, added(tcp0, tcp1), added(udp0, udp1)));
            }
            i = i + 1;
        }
        proof {
            assert(events.subrange(0, events.len() as int) =~= events);
        }
        incoming_events.clear();
    }
}

} // verus!
