use cark::channel::Channel;
use cark::chunk::{Chunk, ChunkId};
use cark::direction::Direction;
use cark::model::{
    ClientMessage, ClientUdpMessage, Join, Joined, JoinedCharacter, PublicChatMessage,
    ServerMessage, ServerUdpMessage,
};
use cark::protocol::{read, read_from_slice, write_to_slice, MAX_DATAGRAM};
use cark::wire::{decode_varint, encode_varint, DecodeError};

fn id(n: u32) -> ChunkId {
    ChunkId::new(n).unwrap()
}

fn bits(x: f32, y: f32) -> [u32; 2] {
    [x.to_bits(), y.to_bits()]
}

fn bytes_of_client(m: &ClientMessage) -> Vec<u8> {
    let mut out = Vec::new();
    cark::protocol::write(m, &mut out);
    out
}

fn bytes_of_server(m: &ServerMessage) -> Vec<u8> {
    let mut out = Vec::new();
    cark::protocol::write(m, &mut out);
    out
}

fn sample_chunk() -> Chunk {
    let mut chunk = Chunk::new(id(300));
    chunk.related = [1, 0, 70000, u32::MAX];
    chunk
}

fn sample_joined() -> ServerMessage {
    ServerMessage::Joined(Joined {
        user_id: 9_000_000_000,
        chunk: sample_chunk(),
        characters: vec![
            JoinedCharacter {
                id: 4,
                name: "alice".to_string(),
                chunk_id: id(1),
                position: bits(2.0, 2.0),
            },
            JoinedCharacter {
                id: u64::MAX,
                name: "bøb ✓".to_string(),
                chunk_id: id(300),
                position: bits(-0.5, 15.75),
            },
        ],
    })
}

#[test]
fn lib_test() {
    let mut buf = postcard::to_allocvec("hello").unwrap();
    buf.extend(&[0, 1, 2, 3]);
    let s: (String, &[u8]) = postcard::take_from_bytes(&buf).unwrap();
    assert_eq!(s.0, "hello");
    assert_eq!(s.1, &[0, 1, 2, 3]);

    let x = read::<String>(&mut buf).unwrap();
    assert_eq!(x, "hello");
    assert_eq!(buf, vec![0, 1, 2, 3]);
}

#[test]
fn varint_of_zero_and_of_the_largest_values() {
    for (v, expected) in [
        (0u64, vec![0u8]),
        (127, vec![0x7f]),
        (128, vec![0x80, 0x01]),
        (300, vec![0xac, 0x02]),
        (65535, vec![0xff, 0xff, 0x03]),
        (u32::MAX as u64, vec![0xff, 0xff, 0xff, 0xff, 0x0f]),
        (u64::MAX, vec![0xff, 0xff, 0xff, 0xff, 0xff, 0xff, 0xff, 0xff, 0xff, 0x01]),
    ] {
        let mut out = vec![];
        encode_varint(v, &mut out);
        assert_eq!(out, expected);
        assert_eq!(out, postcard::to_allocvec(&v).unwrap());
        assert_eq!(decode_varint(&out, 0, 10, 1), Ok((v, out.len())));
    }
}

#[test]
fn varint_limits_of_each_width() {
    // A 16-bit integer takes three bytes at most, the last at most 3.
    assert_eq!(decode_varint(&[0xff, 0xff, 0x03], 0, 3, 3), Ok((65535, 3)));
    assert_eq!(decode_varint(&[0xff, 0xff, 0x04], 0, 3, 3), Err(DecodeError::Invalid));
    assert_eq!(decode_varint(&[0xff, 0xff, 0x83], 0, 3, 3), Err(DecodeError::Invalid));
    assert_eq!(decode_varint(&[0xff, 0xff], 0, 3, 3), Err(DecodeError::Incomplete));
    assert_eq!(decode_varint(&[], 0, 3, 3), Err(DecodeError::Incomplete));
    // A longer writing than need be is read too.
    assert_eq!(decode_varint(&[0x80, 0x00], 0, 5, 15), Ok((0, 2)));
    assert_eq!(decode_varint(&[0x81, 0x80, 0x00], 0, 5, 15), Ok((1, 3)));
    assert_eq!(
        decode_varint(&[0xff, 0xff, 0xff, 0xff, 0x10], 0, 5, 15),
        Err(DecodeError::Invalid)
    );
    // Reading starts at the place given.
    assert_eq!(decode_varint(&[9, 9, 0xac, 0x02, 9], 2, 10, 1), Ok((300, 4)));
    assert_eq!(decode_varint(&[9, 9], 5, 10, 1), Err(DecodeError::Incomplete));
}

#[test]
fn client_messages_are_written_as_the_format_says() {
    let join = ClientMessage::Join(Join { name: "alice".to_string() });
    assert_eq!(bytes_of_client(&join), postcard::to_allocvec(&(0u32, "alice")).unwrap());
    assert_eq!(bytes_of_client(&join), vec![0, 5, b'a', b'l', b'i', b'c', b'e']);

    let chat = ClientMessage::PublicChatMessage(PublicChatMessage { text: "héllo".to_string() });
    assert_eq!(bytes_of_client(&chat), postcard::to_allocvec(&(1u32, "héllo")).unwrap());

    let position = ClientMessage::Position {
        chunk_id: id(70000),
        position: bits(1.5, -2.0),
        velocity: bits(0.25, 1.0e9),
    };
    assert_eq!(
        bytes_of_client(&position),
        postcard::to_allocvec(&(2u32, 70000u32, [1.5f32, -2.0], [0.25f32, 1.0e9])).unwrap()
    );

    assert_eq!(bytes_of_client(&ClientMessage::Leave), vec![3]);

    let request = ClientMessage::RequestChunk { id: id(1), direction: Direction::Bottom };
    assert_eq!(bytes_of_client(&request), vec![4, 1, 3]);
    assert_eq!(bytes_of_client(&request), postcard::to_allocvec(&(4u32, 1u32, 3u32)).unwrap());
}

#[test]
fn server_messages_are_written_as_the_format_says() {
    let chunk = sample_chunk();
    let mut chunk_bytes = postcard::to_allocvec(&(300u32, [1u32, 0, 70000, u32::MAX])).unwrap();
    chunk_bytes.extend(chunk.data);

    let mut expected = vec![4u8];
    expected.extend(&chunk_bytes);
    assert_eq!(bytes_of_server(&ServerMessage::Chunk { chunk }), expected);

    let mut expected = postcard::to_allocvec(&(0u32, 9_000_000_000u64)).unwrap();
    expected.extend(&chunk_bytes);
    expected.extend(
        postcard::to_allocvec(&vec![
            (4u64, "alice", 1u32, [2.0f32, 2.0]),
            (u64::MAX, "bøb ✓", 300u32, [-0.5f32, 15.75]),
        ])
        .unwrap(),
    );
    assert_eq!(bytes_of_server(&sample_joined()), expected);

    let player = ServerMessage::PlayerJoined {
        id: 12,
        name: "carol".to_string(),
        chunk_id: id(1),
        position: bits(2.0, 2.0),
    };
    assert_eq!(
        bytes_of_server(&player),
        postcard::to_allocvec(&(1u32, 12u64, "carol", 1u32, [2.0f32, 2.0])).unwrap()
    );

    assert_eq!(
        bytes_of_server(&ServerMessage::PlayerLeft { user_id: 300 }),
        postcard::to_allocvec(&(2u32, 300u64)).unwrap()
    );

    let position = ServerMessage::Position {
        user_id: 5,
        chunk_id: id(2),
        position: bits(0.0, 15.9),
        velocity: bits(-3.0, 0.5),
    };
    assert_eq!(
        bytes_of_server(&position),
        postcard::to_allocvec(&(3u32, 5u64, 2u32, [0.0f32, 15.9], [-3.0f32, 0.5])).unwrap()
    );
}

#[test]
fn datagrams_are_written_as_the_format_says() {
    let mut out = vec![];
    cark::protocol::write(&ClientUdpMessage::Init { id: 77 }, &mut out);
    assert_eq!(out, postcard::to_allocvec(&(0u32, 77u64)).unwrap());

    let mut out = vec![];
    cark::protocol::write(
        &ClientUdpMessage::Message { sequence: 65535, message: ClientMessage::Leave },
        &mut out,
    );
    assert_eq!(out, postcard::to_allocvec(&(1u32, 65535u16, 3u32)).unwrap());

    let mut out = vec![];
    cark::protocol::write(&ServerUdpMessage::Init, &mut out);
    assert_eq!(out, vec![0]);

    let mut out = vec![];
    cark::protocol::write(
        &ServerUdpMessage::Message {
            sequence: 200,
            message: ServerMessage::PlayerLeft { user_id: 1 },
        },
        &mut out,
    );
    assert_eq!(out, postcard::to_allocvec(&(1u32, 200u16, 2u32, 1u64)).unwrap());
}

#[test]
fn what_the_format_writes_is_read() {
    let bytes = postcard::to_allocvec(&(2u32, 9u32, [1.0f32, 2.0], [3.0f32, 4.0])).unwrap();
    match read_from_slice::<ClientMessage>(&bytes) {
        Ok(ClientMessage::Position { chunk_id, position, velocity }) => {
            assert_eq!(chunk_id.get(), 9);
            assert_eq!(position, bits(1.0, 2.0));
            assert_eq!(velocity, bits(3.0, 4.0));
        }
        other => panic!("{:?}", other),
    }
    let bytes = postcard::to_allocvec(&(1u32, 5u16, 0u32, "dave")).unwrap();
    match read_from_slice::<ClientUdpMessage>(&bytes) {
        Ok(ClientUdpMessage::Message { sequence: 5, message: ClientMessage::Join(join) }) => {
            assert_eq!(join.name, "dave");
        }
        other => panic!("{:?}", other),
    }
}

#[test]
fn every_proper_prefix_is_incomplete() {
    let messages = vec![
        sample_joined(),
        ServerMessage::Chunk { chunk: sample_chunk() },
        ServerMessage::PlayerLeft { user_id: u64::MAX },
        ServerMessage::PlayerJoined {
            id: 1,
            name: "ÿ".to_string(),
            chunk_id: id(u32::MAX),
            position: bits(0.0, 0.0),
        },
        ServerMessage::Position {
            user_id: 3,
            chunk_id: id(2),
            position: bits(1.0, 2.0),
            velocity: bits(3.0, 4.0),
        },
    ];
    for message in &messages {
        let bytes = bytes_of_server(message);
        let mut buf = vec![];
        for (i, b) in bytes.iter().enumerate() {
            buf.push(*b);
            let result = read::<ServerMessage>(&mut buf);
            if i + 1 < bytes.len() {
                assert!(matches!(result, Err(DecodeError::Incomplete)));
                assert_eq!(buf.len(), i + 1);
            } else {
                let decoded = result.unwrap();
                assert!(buf.is_empty());
                assert_eq!(bytes_of_server(&decoded), bytes);
            }
        }
    }
}

#[test]
fn one_byte_at_a_time_from_a_client() {
    let messages = vec![
        ClientMessage::Join(Join { name: "alice".to_string() }),
        ClientMessage::Join(Join { name: String::new() }),
        ClientMessage::PublicChatMessage(PublicChatMessage { text: "x".repeat(200) }),
        ClientMessage::Position {
            chunk_id: id(1),
            position: bits(1.0, 2.0),
            velocity: bits(0.0, -0.0),
        },
        ClientMessage::Leave,
        ClientMessage::RequestChunk { id: id(129), direction: Direction::Left },
    ];
    for message in &messages {
        let bytes = bytes_of_client(message);
        let mut buf = vec![];
        for (i, b) in bytes.iter().enumerate() {
            buf.push(*b);
            let result = read::<ClientMessage>(&mut buf);
            if i + 1 < bytes.len() {
                assert!(matches!(result, Err(DecodeError::Incomplete)));
            } else {
                assert_eq!(bytes_of_client(&result.unwrap()), bytes);
                assert!(buf.is_empty());
            }
        }
    }
}

#[test]
fn the_value_read_is_the_value_written() {
    match read_from_slice::<ServerMessage>(&bytes_of_server(&sample_joined())) {
        Ok(ServerMessage::Joined(joined)) => {
            assert_eq!(joined.user_id, 9_000_000_000);
            assert_eq!(joined.chunk.id.get(), 300);
            assert_eq!(joined.chunk.related, [1, 0, 70000, u32::MAX]);
            assert_eq!(joined.chunk.data, sample_chunk().data);
            assert_eq!(joined.characters.len(), 2);
            assert_eq!(joined.characters[0].name, "alice");
            assert_eq!(joined.characters[1].id, u64::MAX);
            assert_eq!(joined.characters[1].name, "bøb ✓");
            assert_eq!(joined.characters[1].chunk_id.get(), 300);
            assert_eq!(joined.characters[1].position, bits(-0.5, 15.75));
        }
        other => panic!("{:?}", other),
    }
}

#[test]
fn read_leaves_what_follows_the_message() {
    let mut buf = bytes_of_client(&ClientMessage::Leave);
    buf.extend(bytes_of_client(&ClientMessage::Join(Join { name: "bob".to_string() })));
    buf.extend([4, 1]);
    assert!(matches!(read::<ClientMessage>(&mut buf), Ok(ClientMessage::Leave)));
    assert_eq!(buf, vec![0, 3, b'b', b'o', b'b', 4, 1]);
    assert!(matches!(read::<ClientMessage>(&mut buf), Ok(ClientMessage::Join(_))));
    assert_eq!(buf, vec![4, 1]);
    assert!(matches!(read::<ClientMessage>(&mut buf), Err(DecodeError::Incomplete)));
    assert_eq!(buf, vec![4, 1]);
}

#[test]
fn bytes_that_violate_the_format_are_invalid() {
    // No such variant.
    assert!(matches!(read_from_slice::<ClientMessage>(&[5]), Err(DecodeError::Invalid)));
    assert!(matches!(read_from_slice::<ServerMessage>(&[9, 0]), Err(DecodeError::Invalid)));
    assert!(matches!(read_from_slice::<ClientUdpMessage>(&[2]), Err(DecodeError::Invalid)));
    assert!(matches!(read_from_slice::<ServerUdpMessage>(&[2]), Err(DecodeError::Invalid)));
    // A chunk numbered zero.
    assert!(matches!(read_from_slice::<ClientMessage>(&[4, 0, 1]), Err(DecodeError::Invalid)));
    // No such direction.
    assert!(matches!(read_from_slice::<ClientMessage>(&[4, 1, 4]), Err(DecodeError::Invalid)));
    // A name that is not UTF-8.
    assert!(matches!(
        read_from_slice::<ClientMessage>(&[0, 2, 0xc3, 0x28]),
        Err(DecodeError::Invalid)
    ));
    // A variant number that does not fit 32 bits.
    assert!(matches!(
        read_from_slice::<ClientMessage>(&[0xff, 0xff, 0xff, 0xff, 0x7f]),
        Err(DecodeError::Invalid)
    ));
    // An invalid buffer is left as it is.
    let mut buf = vec![5, 1, 2];
    assert!(matches!(read::<ClientMessage>(&mut buf), Err(DecodeError::Invalid)));
    assert_eq!(buf, vec![5, 1, 2]);
}

#[test]
fn a_datagram_is_all_or_nothing() {
    let mut bytes = vec![];
    cark::protocol::write(&ClientUdpMessage::Init { id: 300 }, &mut bytes);
    assert!(matches!(
        read_from_slice::<ClientUdpMessage>(&bytes),
        Ok(ClientUdpMessage::Init { id: 300 })
    ));
    assert!(matches!(
        read_from_slice::<ClientUdpMessage>(&bytes[..2]),
        Err(DecodeError::Incomplete)
    ));
    bytes.push(99);
    assert!(matches!(
        read_from_slice::<ClientUdpMessage>(&bytes),
        Ok(ClientUdpMessage::Init { id: 300 })
    ));
}

#[test]
fn a_datagram_must_fit_its_buffer() {
    let small = ServerUdpMessage::Message {
        sequence: 1,
        message: ServerMessage::PlayerLeft { user_id: 1 },
    };
    assert_eq!(write_to_slice(&small, MAX_DATAGRAM), Some(vec![1, 1, 2, 1]));
    assert_eq!(write_to_slice(&small, 4), Some(vec![1, 1, 2, 1]));
    assert_eq!(write_to_slice(&small, 3), None);
    let large = ClientUdpMessage::Message {
        sequence: 1,
        message: ClientMessage::PublicChatMessage(PublicChatMessage { text: "x".repeat(2000) }),
    };
    assert_eq!(write_to_slice(&large, MAX_DATAGRAM), None);
    assert_eq!(MAX_DATAGRAM, 1024);
}

#[test]
fn channel_cuts_the_stream_into_messages() {
    let mut stream = bytes_of_client(&ClientMessage::Join(Join { name: "alice".to_string() }));
    stream.extend(bytes_of_client(&ClientMessage::RequestChunk {
        id: id(1),
        direction: Direction::Right,
    }));
    stream.extend(bytes_of_client(&ClientMessage::Leave));

    let mut channel = Channel::new();
    channel.on_read(&stream[..3], false);
    let (messages, violated) = channel.drain::<ClientMessage>();
    assert!(messages.is_empty());
    assert!(!violated);
    assert_eq!(channel.buf, stream[..3].to_vec());

    channel.on_read(&stream[3..9], false);
    let (messages, violated) = channel.drain::<ClientMessage>();
    assert!(!violated);
    assert_eq!(messages.len(), 1);
    assert!(matches!(&messages[0], ClientMessage::Join(j) if j.name == "alice"));
    assert_eq!(channel.buf, vec![4, 1]);

    channel.on_read(&stream[9..], false);
    let (messages, violated) = channel.drain::<ClientMessage>();
    assert!(!violated);
    assert_eq!(messages.len(), 2);
    assert!(matches!(messages[0], ClientMessage::RequestChunk { direction: Direction::Right, .. }));
    assert!(matches!(messages[1], ClientMessage::Leave));
    assert!(channel.buf.is_empty());
    assert!(!channel.is_closed());
}

#[test]
fn channel_closes_at_the_end_of_the_stream() {
    let mut channel = Channel::new();
    channel.on_read(&[0, 5, b'a'], false);
    channel.on_read(&[], true);
    assert!(channel.is_closed());
    assert_eq!(channel.buf, vec![0, 5, b'a']);
    // A closed channel is inert.
    channel.on_read(&[b'l', b'i', b'c', b'e'], false);
    assert_eq!(channel.buf, vec![0, 5, b'a']);
    let (messages, violated) = channel.drain::<ClientMessage>();
    assert!(messages.is_empty());
    assert!(!violated);
    assert!(!channel.takes(3, None));
}

#[test]
fn channel_closes_on_a_violation() {
    let mut channel = Channel::new();
    channel.on_read(&[3, 3, 9, 3], false);
    let (messages, violated) = channel.drain::<ClientMessage>();
    assert_eq!(messages.len(), 2);
    assert!(violated);
    assert!(channel.is_closed());
    assert_eq!(channel.buf, vec![9, 3]);
}

#[test]
fn an_empty_read_that_is_no_end_changes_nothing() {
    let mut channel = Channel::new();
    channel.on_read(&[], false);
    assert!(!channel.is_closed());
    assert!(channel.buf.is_empty());
    channel.close();
    assert!(channel.is_closed());
}

#[test]
fn channel_takes_what_is_addressed_to_it_or_to_all() {
    let channel = Channel::new();
    assert!(channel.takes(5, None));
    assert!(channel.takes(5, Some(5)));
    assert!(!channel.takes(5, Some(6)));
}
