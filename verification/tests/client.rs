use cark::chunk::{Chunk, ChunkId};
use cark::config::Config;
use cark::direction::Direction;
use cark::field::Field;
use cark::game::{handle_event, Character, Game};
use cark::model::{Joined, JoinedCharacter, ServerMessage};
use cark::movement::{offset_around, solid_cells, Intent, Throttle};
use cark::retriever::ChunkRetriever;

fn id(n: u32) -> ChunkId {
    ChunkId::new(n).unwrap()
}

fn joined(user_id: u64, names: &[(u64, &str)]) -> ServerMessage {
    ServerMessage::Joined(Joined {
        user_id,
        chunk: Chunk::new(id(1)),
        characters: names
            .iter()
            .map(|(n, name)| JoinedCharacter {
                id: *n,
                name: name.to_string(),
                chunk_id: id(1),
                position: [2.0f32.to_bits(), 2.0f32.to_bits()],
            })
            .collect(),
    })
}

fn requests(list: Vec<(ChunkId, Direction)>) -> Vec<(u32, Direction)> {
    list.into_iter().map(|(c, d)| (c.get(), d)).collect()
}

#[test]
fn default_config_points_at_this_machine() {
    let config = Config::default();
    assert_eq!(config.server_tcp_addr, "127.0.0.1:8080");
    assert_eq!(config.server_udp_addr, "127.0.0.1:8081");
}

#[test]
fn new_character_is_at_rest() {
    let c = Character::new(3, "x".to_string(), id(2), [7, 8]);
    assert_eq!(c.id(), 3);
    assert_eq!(c.name(), "x");
    assert_eq!(c.chunk_id.get(), 2);
    assert_eq!(c.position, [7, 8]);
    assert_eq!(c.velocity, [0.0f32.to_bits(), 0.0f32.to_bits()]);
}

#[test]
fn joined_sets_identity_and_roster() {
    let mut game = Game::new();
    assert_eq!(game.player_id, 0);
    let owed = handle_event(&joined(5, &[(4, "alice"), (5, "bob")]), &mut game);
    assert!(matches!(owed, Some(cark::model::ClientUdpMessage::Init { id: 5 })));
    assert_eq!(game.player_id, 5);
    let names: Vec<&str> = game.characters.iter().map(|c| c.name()).collect();
    assert_eq!(names, vec!["alice", "bob"]);
    // A second Joined replaces the roster.
    handle_event(&joined(5, &[(9, "zed")]), &mut game);
    assert_eq!(game.characters.len(), 1);
    assert_eq!(game.characters[0].id(), 9);
}

#[test]
fn position_moves_others_but_not_oneself() {
    let mut game = Game::new();
    handle_event(&joined(5, &[(4, "alice"), (5, "bob"), (4, "twin")]), &mut game);
    let moved = |user_id| ServerMessage::Position {
        user_id,
        chunk_id: id(3),
        position: [10, 11],
        velocity: [12, 13],
    };
    assert!(handle_event(&moved(5), &mut game).is_none());
    assert_eq!(game.characters[1].chunk_id.get(), 1);
    handle_event(&moved(4), &mut game);
    assert_eq!(game.characters[0].chunk_id.get(), 3);
    assert_eq!(game.characters[0].position, [10, 11]);
    assert_eq!(game.characters[0].velocity, [12, 13]);
    assert_eq!(game.characters[0].name(), "alice");
    // Only the first character of that identity is placed.
    assert_eq!(game.characters[2].chunk_id.get(), 1);
    handle_event(&moved(77), &mut game);
    assert_eq!(game.characters.len(), 3);
}

#[test]
fn player_joined_is_added_once() {
    let mut game = Game::new();
    let arrives = |name: &str| ServerMessage::PlayerJoined {
        id: 6,
        name: name.to_string(),
        chunk_id: id(1),
        position: [1, 2],
    };
    handle_event(&arrives("carol"), &mut game);
    handle_event(&arrives("other"), &mut game);
    assert_eq!(game.characters.len(), 1);
    assert_eq!(game.characters[0].name(), "carol");
    assert_eq!(game.characters[0].velocity, [0, 0]);
}

#[test]
fn player_left_removes_every_character_of_that_identity() {
    let mut game = Game::new();
    handle_event(&joined(1, &[(1, "a"), (2, "b"), (3, "c"), (2, "d")]), &mut game);
    handle_event(&ServerMessage::PlayerLeft { user_id: 2 }, &mut game);
    let names: Vec<&str> = game.characters.iter().map(|c| c.name()).collect();
    assert_eq!(names, vec!["a", "c"]);
    handle_event(&ServerMessage::PlayerLeft { user_id: 2 }, &mut game);
    assert_eq!(game.characters.len(), 2);
}

#[test]
fn chunk_message_files_the_chunk() {
    let mut server = Field::new();
    server.generate_chunk(id(1), Direction::Bottom);
    let mut game = Game::new();
    handle_event(&ServerMessage::Chunk { chunk: *server.chunk(id(2)).unwrap() }, &mut game);
    assert_eq!(game.field().chunk(id(1)).unwrap().related, [0, 0, 0, 2]);
    assert_eq!(game.field().chunk(id(2)).unwrap().related, [0, 0, 1, 0]);
    let mut other = Game::new();
    other.set_field(server);
    assert_eq!(other.field().chunks.len(), 2);
    other.update_chunk(Chunk::new(id(9)));
    assert_eq!(other.field().chunks.len(), 3);
}

#[test]
fn retriever_asks_for_the_four_missing_neighbours_once() {
    let field = Field::new();
    let mut retriever = ChunkRetriever::new();
    assert_eq!(
        requests(retriever.plan(&field, id(1))),
        vec![
            (1, Direction::Left),
            (1, Direction::Right),
            (1, Direction::Top),
            (1, Direction::Bottom)
        ]
    );
    assert!(retriever.plan(&field, id(1)).is_empty());
    retriever.reset();
    assert_eq!(retriever.plan(&field, id(1)).len(), 4);
    assert!(retriever.plan(&field, id(44)).is_empty());
}

#[test]
fn retriever_asks_for_the_diagonal_gaps() {
    let mut field = Field::new();
    field.generate_chunk(id(1), Direction::Left);
    field.generate_chunk(id(1), Direction::Right);
    let mut retriever = ChunkRetriever::new();
    // Left is known: its neighbour a quarter turn further (below it) is asked for.
    // Right is known: the one above it is asked for.
    assert_eq!(
        requests(retriever.plan(&field, id(1))),
        vec![
            (2, Direction::Bottom),
            (3, Direction::Top),
            (1, Direction::Top),
            (1, Direction::Bottom)
        ]
    );
    field.generate_chunk(id(2), Direction::Bottom);
    field.generate_chunk(id(1), Direction::Top);
    retriever.reset();
    // Below-left and above are known now; above-right and above-left are filled in turn.
    let second = requests(retriever.plan(&field, id(1)));
    assert_eq!(second, vec![(3, Direction::Top), (5, Direction::Left), (1, Direction::Bottom)]);
}

#[test]
fn intent_adds_up_the_key_edges() {
    let mut intent = Intent::new();
    let none = [false; 6];
    let mut down = none;
    down[0] = true;
    down[3] = true;
    intent.apply(&down, &none);
    assert_eq!((intent.x, intent.y), (1, -1));
    let mut up = none;
    up[0] = true;
    let mut down = none;
    down[1] = true;
    down[2] = true;
    down[4] = true;
    intent.apply(&down, &up);
    assert_eq!((intent.x, intent.y), (0, 1));
    let mut up = none;
    up[1] = true;
    up[2] = true;
    up[3] = true;
    intent.apply(&none, &up);
    assert_eq!((intent.x, intent.y), (0, 0));
}

#[test]
fn throttle_skips_every_third_tick() {
    let mut throttle = Throttle::new();
    let reports: Vec<bool> = (0..7).map(|_| throttle.tick()).collect();
    assert_eq!(reports, vec![true, true, false, true, true, false, true]);
}

#[test]
fn solid_cells_are_the_walls_round_the_cell() {
    let mut field = Field::new();
    let mut chunk = *field.chunk(id(1)).unwrap();
    chunk.data = [2; 256];
    chunk.data[5 * 16 + 4] = 1;
    chunk.data[6 * 16 + 6] = 1;
    chunk.data[4 * 16 + 5] = 1;
    chunk.data[9 * 16 + 9] = 1;
    chunk.data[0] = 1;
    field.set_existed_chunk(chunk, false);
    assert_eq!(solid_cells(&field, id(1), 5, 5), vec![[5, 4], [4, 5], [6, 6]]);
    assert_eq!(solid_cells(&field, id(1), 12, 3), Vec::<[i32; 2]>::new());
    // Beyond the known world nothing is solid.
    assert_eq!(solid_cells(&field, id(1), 0, 0), vec![[0, 0]]);
    assert_eq!(solid_cells(&field, id(1), -5, -5), Vec::<[i32; 2]>::new());
}

#[test]
fn offset_around_finds_chunks_within_one_hop() {
    let mut field = Field::new();
    field.generate_chunk(id(1), Direction::Right);
    field.generate_chunk(id(1), Direction::Top);
    field.generate_chunk(id(2), Direction::Top);
    field.generate_chunk(id(2), Direction::Right);
    assert_eq!(offset_around(&field, id(1), id(1)), Some([0, 0]));
    assert_eq!(offset_around(&field, id(1), id(2)), Some([1, 0]));
    assert_eq!(offset_around(&field, id(1), id(3)), Some([0, -1]));
    assert_eq!(offset_around(&field, id(1), id(4)), Some([1, -1]));
    assert_eq!(offset_around(&field, id(1), id(5)), None);
    assert_eq!(offset_around(&field, id(2), id(1)), Some([-1, 0]));
    assert_eq!(offset_around(&field, id(9), id(1)), None);
}
