use cark::chunk::{Chunk, ChunkId};
use cark::direction::Direction;
use cark::game::{handle_event, Game};
use cark::model::{ClientMessage, ClientUdpMessage, Join, PublicChatMessage, ServerMessage};
use cark::protocol::read;
use cark::server::{Global, IncomingEvent, OutgoingEvent, SPAWN_COORDINATE};
use cark::session::{Link, PeerAddr, Registry};

fn id(n: u32) -> ChunkId {
    ChunkId::new(n).unwrap()
}

fn handle(global: &mut Global, who: u64, message: ClientMessage) -> (Vec<OutgoingEvent>, Vec<OutgoingEvent>) {
    let mut tcp = vec![];
    let mut udp = vec![];
    global.handle(&IncomingEvent::reliable(who, message), &mut tcp, &mut udp);
    (tcp, udp)
}

fn join(name: &str) -> ClientMessage {
    ClientMessage::Join(Join { name: name.to_string() })
}

#[test]
fn spawn_coordinate_is_two() {
    assert_eq!(f32::from_bits(SPAWN_COORDINATE), 2.0);
}

#[test]
fn join_is_answered_and_announced() {
    let mut global = Global::new();
    let (tcp, udp) = handle(&mut global, 11, join("alice"));
    assert!(udp.is_empty());
    assert_eq!(tcp.len(), 2);
    assert_eq!(tcp[0].connection_id, Some(11));
    match &tcp[0].message {
        ServerMessage::Joined(joined) => {
            assert_eq!(joined.user_id, 11);
            assert_eq!(joined.chunk.id.get(), 1);
            assert_eq!(joined.chunk.related, [0, 0, 0, 0]);
            assert_eq!(joined.chunk.data, Chunk::new(id(1)).data);
            assert_eq!(joined.characters.len(), 1);
            assert_eq!(joined.characters[0].id, 11);
            assert_eq!(joined.characters[0].name, "alice");
            assert_eq!(joined.characters[0].chunk_id.get(), 1);
            assert_eq!(joined.characters[0].position, [2.0f32.to_bits(), 2.0f32.to_bits()]);
        }
        other => panic!("{:?}", other),
    }
    assert_eq!(tcp[1].connection_id, None);
    match &tcp[1].message {
        ServerMessage::PlayerJoined { id, name, chunk_id, position } => {
            assert_eq!(*id, 11);
            assert_eq!(name, "alice");
            assert_eq!(chunk_id.get(), 1);
            assert_eq!(*position, [2.0f32.to_bits(), 2.0f32.to_bits()]);
        }
        other => panic!("{:?}", other),
    }
    assert_eq!(global.characters.len(), 1);
}

#[test]
fn second_join_sees_the_whole_roster() {
    let mut global = Global::new();
    handle(&mut global, 1, join("alice"));
    let (tcp, _) = handle(&mut global, 2, join("bob"));
    match &tcp[0].message {
        ServerMessage::Joined(joined) => {
            let names: Vec<&str> = joined.characters.iter().map(|c| c.name.as_str()).collect();
            assert_eq!(names, vec!["alice", "bob"]);
        }
        other => panic!("{:?}", other),
    }
}

#[test]
fn leave_removes_the_character_and_tells_everyone() {
    let mut global = Global::new();
    handle(&mut global, 1, join("alice"));
    handle(&mut global, 2, join("bob"));
    handle(&mut global, 3, join("carol"));
    let (tcp, udp) = handle(&mut global, 2, ClientMessage::Leave);
    assert!(udp.is_empty());
    assert_eq!(tcp.len(), 1);
    assert_eq!(tcp[0].connection_id, None);
    assert!(matches!(tcp[0].message, ServerMessage::PlayerLeft { user_id: 2 }));
    let ids: Vec<u64> = global.characters.iter().map(|c| c.id).collect();
    assert_eq!(ids, vec![1, 3]);
    // Leaving twice removes nobody else.
    handle(&mut global, 2, ClientMessage::Leave);
    assert_eq!(global.characters.len(), 2);
}

#[test]
fn chat_is_kept() {
    let mut global = Global::new();
    let chat = ClientMessage::PublicChatMessage(PublicChatMessage { text: "hi".to_string() });
    let (tcp, udp) = handle(&mut global, 1, chat);
    assert!(tcp.is_empty() && udp.is_empty());
    assert_eq!(global.messages, vec!["hi".to_string()]);
}

#[test]
fn position_is_relayed_as_it_came() {
    let mut global = Global::new();
    let position = [1.25f32.to_bits(), f32::NAN.to_bits()];
    let velocity = [(-0.0f32).to_bits(), 1.0e30f32.to_bits()];
    let (tcp, udp) = handle(
        &mut global,
        8,
        ClientMessage::Position { chunk_id: id(900), position, velocity },
    );
    assert!(tcp.is_empty());
    assert_eq!(udp.len(), 1);
    assert_eq!(udp[0].connection_id, None);
    match &udp[0].message {
        ServerMessage::Position { user_id, chunk_id, position: p, velocity: v } => {
            assert_eq!(*user_id, 8);
            assert_eq!(chunk_id.get(), 900);
            assert_eq!(*p, position);
            assert_eq!(*v, velocity);
        }
        other => panic!("{:?}", other),
    }
    assert!(global.characters.is_empty());
}

#[test]
fn request_chunk_generates_once_and_always_replies() {
    let mut global = Global::new();
    let request = || ClientMessage::RequestChunk { id: id(1), direction: Direction::Right };
    let (tcp, udp) = handle(&mut global, 4, request());
    assert!(udp.is_empty());
    assert_eq!(tcp.len(), 1);
    assert_eq!(tcp[0].connection_id, Some(4));
    match &tcp[0].message {
        ServerMessage::Chunk { chunk } => {
            assert_eq!(chunk.id.get(), 2);
            assert_eq!(chunk.related, [1, 0, 0, 0]);
        }
        other => panic!("{:?}", other),
    }
    let (tcp, _) = handle(&mut global, 5, request());
    assert_eq!(tcp.len(), 1);
    assert_eq!(tcp[0].connection_id, Some(5));
    assert!(matches!(&tcp[0].message, ServerMessage::Chunk { chunk } if chunk.id.get() == 2));
    assert_eq!(global.field.chunks.len(), 2);
}

#[test]
fn request_from_an_unknown_chunk_is_not_answered() {
    let mut global = Global::new();
    let (tcp, udp) = handle(
        &mut global,
        4,
        ClientMessage::RequestChunk { id: id(50), direction: Direction::Top },
    );
    assert!(tcp.is_empty() && udp.is_empty());
    assert_eq!(global.field.chunks.len(), 1);
}

#[test]
fn process_handles_the_events_in_order() {
    let mut global = Global::new();
    let mut incoming = vec![
        IncomingEvent::reliable(1, join("alice")),
        IncomingEvent {
            connection_id: 1,
            sequence: 9,
            message: ClientMessage::Position {
                chunk_id: id(1),
                position: [0, 0],
                velocity: [0, 0],
            },
        },
        IncomingEvent::reliable(1, ClientMessage::RequestChunk {
            id: id(1),
            direction: Direction::Bottom,
        }),
        IncomingEvent::leave(1),
    ];
    let mut tcp = vec![OutgoingEvent {
        connection_id: Some(99),
        message: ServerMessage::PlayerLeft { user_id: 99 },
    }];
    let mut udp = vec![];
    global.process(&mut incoming, &mut tcp, &mut udp);
    assert!(incoming.is_empty());
    assert_eq!(tcp.len(), 5);
    assert_eq!(tcp[0].connection_id, Some(99));
    assert!(matches!(tcp[1].message, ServerMessage::Joined(_)));
    assert!(matches!(tcp[2].message, ServerMessage::PlayerJoined { .. }));
    assert!(matches!(tcp[3].message, ServerMessage::Chunk { .. }));
    assert!(matches!(tcp[4].message, ServerMessage::PlayerLeft { user_id: 1 }));
    assert_eq!(udp.len(), 1);
    assert!(global.characters.is_empty());
}

#[test]
fn join_then_request_chunk_end_to_end() {
    // The client sends Join over the reliable channel.
    let mut wire = vec![];
    cark::protocol::write(&join("alice"), &mut wire);
    let mut server = Global::new();
    let connection = 17;
    let message = read::<ClientMessage>(&mut wire).unwrap();
    let (tcp, _) = handle(&mut server, connection, message);

    // The server replies Joined and broadcasts PlayerJoined; both reach the client.
    let mut client = Game::new();
    let mut owed = vec![];
    for event in &tcp {
        let mut wire = vec![];
        cark::protocol::write(&event.message, &mut wire);
        let message = read::<ServerMessage>(&mut wire).unwrap();
        assert!(wire.is_empty());
        if let Some(datagram) = handle_event(&message, &mut client) {
            owed.push(datagram);
        }
    }
    assert_eq!(client.player_id, connection);
    assert_eq!(client.characters.len(), 1);
    assert_eq!(client.characters[0].name(), "alice");
    assert_eq!(client.characters[0].id(), connection);
    assert_eq!(client.characters[0].velocity, [0, 0]);
    assert_eq!(owed.len(), 1);
    assert!(matches!(owed[0], ClientUdpMessage::Init { id: 17 }));

    // The client asks for the chunk to the right of the origin.
    let mut wire = vec![];
    cark::protocol::write(&ClientMessage::RequestChunk { id: id(1), direction: Direction::Right }, &mut wire);
    let message = read::<ClientMessage>(&mut wire).unwrap();
    let (tcp, _) = handle(&mut server, connection, message);
    assert_eq!(tcp.len(), 1);
    assert_eq!(tcp[0].connection_id, Some(connection));
    let mut wire = vec![];
    cark::protocol::write(&tcp[0].message, &mut wire);
    let message = read::<ServerMessage>(&mut wire).unwrap();
    match &message {
        ServerMessage::Chunk { chunk } => {
            assert_eq!(chunk.id.get(), 2);
            assert_eq!(chunk.related, [1, 0, 0, 0]);
        }
        other => panic!("{:?}", other),
    }
    assert!(handle_event(&message, &mut client).is_none());

    // The client's world has two chunks with links both ways.
    assert_eq!(client.field().chunks.len(), 2);
    assert_eq!(client.field().chunk(id(1)).unwrap().related, [0, 2, 0, 0]);
    assert_eq!(client.field().chunk(id(2)).unwrap().related, [1, 0, 0, 0]);
    assert_eq!(client.field().chunk(id(2)).unwrap().data, server.field.chunk(id(2)).unwrap().data);
}

#[test]
fn registry_binds_and_rebinds() {
    let a = PeerAddr { host: 1, port: 1000 };
    let b = PeerAddr { host: 1, port: 1001 };
    let c = PeerAddr { host: 2, port: 1000 };
    let mut registry = Registry::new();
    registry.bind(7, a);
    registry.bind(8, b);
    assert_eq!(registry.connections.len(), 2);
    // The client restarts its socket: its old address is forgotten.
    registry.bind(7, c);
    let peers: Vec<(u64, PeerAddr)> = registry.connections.iter().map(|s| (s.id, s.addr)).collect();
    assert_eq!(peers, vec![(8, b), (7, c)]);
    assert_eq!(registry.receive(a, 0), None);
    assert_eq!(registry.receive(c, 0), Some(7));
    // Another client takes over an address: the session that was there is dropped.
    registry.bind(9, b);
    let peers: Vec<(u64, PeerAddr)> = registry.connections.iter().map(|s| (s.id, s.addr)).collect();
    assert_eq!(peers, vec![(7, c), (9, b)]);
    // Binding anew starts the statistics afresh.
    registry.bind(7, c);
    assert_eq!(registry.connections[1].stat.received, 0);
}

#[test]
fn registry_accounts_for_what_each_peer_sent() {
    let a = PeerAddr { host: 1, port: 1000 };
    let b = PeerAddr { host: 1, port: 1001 };
    let mut registry = Registry::new();
    registry.bind(7, a);
    registry.bind(8, b);
    assert_eq!(registry.receive(a, 0), Some(7));
    assert_eq!(registry.receive(a, 3), Some(7));
    assert_eq!(registry.receive(b, 0), Some(8));
    assert_eq!(registry.connections[0].stat.dropped(), 2);
    assert_eq!(registry.connections[0].stat.last_sequence, 3);
    assert_eq!(registry.connections[1].stat.dropped(), 0);
    // A datagram from nowhere is dropped.
    assert_eq!(registry.receive(PeerAddr { host: 3, port: 1 }, 5), None);
    assert_eq!(registry.connections[0].stat.sent, 4);
}

#[test]
fn registry_numbers_each_peer_on_its_own() {
    let a = PeerAddr { host: 1, port: 1000 };
    let b = PeerAddr { host: 1, port: 1001 };
    let mut registry = Registry::new();
    registry.bind(7, a);
    assert_eq!(registry.route(None), vec![(a, 0)]);
    assert_eq!(registry.route(Some(7)), vec![(a, 1)]);
    registry.bind(8, b);
    assert_eq!(registry.route(None), vec![(a, 2), (b, 0)]);
    assert_eq!(registry.route(Some(8)), vec![(b, 1)]);
    assert_eq!(registry.route(Some(7)), vec![(a, 3)]);
    assert_eq!(registry.route(Some(99)), vec![]);
    assert_eq!(registry.route(None), vec![(a, 4), (b, 2)]);
}

#[test]
fn link_numbers_and_accounts() {
    let mut link = Link::new();
    match link.wrap(ClientMessage::Leave) {
        ClientUdpMessage::Message { sequence, message } => {
            assert_eq!(sequence, 0);
            assert!(matches!(message, ClientMessage::Leave));
        }
        other => panic!("{:?}", other),
    }
    assert!(matches!(
        link.wrap(ClientMessage::Leave),
        ClientUdpMessage::Message { sequence: 1, .. }
    ));
    assert!(link.accept(cark::model::ServerUdpMessage::Init).is_none());
    let got = link.accept(cark::model::ServerUdpMessage::Message {
        sequence: 2,
        message: ServerMessage::PlayerLeft { user_id: 4 },
    });
    assert!(matches!(got, Some(ServerMessage::PlayerLeft { user_id: 4 })));
    assert_eq!(link.stat.dropped(), 2);
}

#[test]
fn registry_forgets_a_client_that_left() {
    let a = PeerAddr { host: 1, port: 1000 };
    let b = PeerAddr { host: 1, port: 1001 };
    let mut registry = Registry::new();
    registry.bind(7, a);
    registry.bind(8, b);
    registry.forget(7);
    assert_eq!(registry.connections.len(), 1);
    assert_eq!(registry.connections[0].id, 8);
    assert_eq!(registry.receive(a, 0), None);
    assert_eq!(registry.route(None), vec![(b, 0)]);
    registry.forget(7);
    assert_eq!(registry.connections.len(), 1);
}
