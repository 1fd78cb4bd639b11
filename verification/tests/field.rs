use cark::chunk::{terrain_code, Chunk, ChunkId, CHUNK_SIZE, WALL};
use cark::direction::Direction;
use cark::field::Field;
use rand::{Rng, SeedableRng};

fn id(n: u32) -> ChunkId {
    ChunkId::new(n).unwrap()
}

fn related(field: &Field, n: u32) -> [u32; 4] {
    field.chunk(id(n)).unwrap().related
}

#[test]
fn chunk_id_is_never_zero() {
    assert!(ChunkId::new(0).is_none());
    assert_eq!(ChunkId::new(7).unwrap().get(), 7);
    assert_eq!(ChunkId::min().get(), 1);
    assert_eq!(id(5).checked_add(2).unwrap().get(), 7);
    assert!(id(u32::MAX).checked_add(1).is_none());
}

#[test]
fn directions_turn_and_step() {
    assert_eq!(Direction::Left.opposite(), Direction::Right);
    assert_eq!(Direction::Top.opposite(), Direction::Bottom);
    assert_eq!(Direction::Left.turn_left(), Direction::Bottom);
    assert_eq!(Direction::Bottom.turn_left(), Direction::Right);
    assert_eq!(Direction::Right.turn_left(), Direction::Top);
    assert_eq!(Direction::Top.turn_left(), Direction::Left);
    for n in 0..4 {
        assert_eq!(Direction::from_number(n).to_number(), n);
        assert_eq!(Direction::ALL[n], Direction::from_number(n));
    }
    assert_eq!(Direction::Left.move_pos([0, 0]), [-1, 0]);
    assert_eq!(Direction::Right.move_pos([0, 0]), [1, 0]);
    assert_eq!(Direction::Top.move_pos([3, 3]), [3, 2]);
    assert_eq!(Direction::Bottom.move_pos([3, 3]), [3, 4]);
}

#[test]
fn terrain_has_its_fingerprint() {
    let chunk = Chunk::new(id(0b1010_0101));
    assert_eq!(chunk.id.get(), 0b1010_0101);
    assert_eq!(chunk.related, [0, 0, 0, 0]);
    assert_eq!(chunk.data[0], 3);
    assert_eq!(&chunk.data[1..9], &[4, 2, 4, 2, 2, 4, 2, 4]);
    for i in 9..chunk.data.len() {
        assert!(chunk.data[i] == 1 || chunk.data[i] == 2 || chunk.data[i] == 3);
    }
}

#[test]
fn terrain_is_fixed_by_the_number() {
    let a = Chunk::new(id(42));
    let b = Chunk::new(id(42));
    let c = Chunk::new(id(43));
    assert_eq!(a.data, b.data);
    assert_ne!(a.data, c.data);
}

#[test]
fn terrain_follows_the_seeded_draws() {
    for n in [1u32, 2, 3, 1000, u32::MAX] {
        let mut rng = rand::rngs::StdRng::seed_from_u64(n as u64);
        let mut expected = [1u8; CHUNK_SIZE * CHUNK_SIZE];
        expected[0] = 3;
        for i in 0..8 {
            expected[i + 1] = if n >> i & 1 == 1 { 4 } else { 2 };
        }
        for i in 9..expected.len() {
            expected[i] = if rng.gen_bool(0.025) {
                1
            } else if rng.gen_bool(0.2) {
                3
            } else {
                2
            };
        }
        assert_eq!(Chunk::new(id(n)).data, expected);
    }
}

#[test]
fn terrain_code_of_each_draw() {
    assert_eq!(terrain_code(true, false), WALL);
    assert_eq!(terrain_code(true, true), WALL);
    assert_eq!(terrain_code(false, true), 3);
    assert_eq!(terrain_code(false, false), 2);
}

#[test]
fn world_starts_with_the_origin_alone() {
    let field = Field::new();
    assert_eq!(field.new_id.get(), 2);
    assert_eq!(field.chunks.len(), 1);
    assert_eq!(related(&field, 1), [0, 0, 0, 0]);
    assert!(field.chunk(id(2)).is_none());
    assert!(field.related(id(1), Direction::Left).is_none());
}

#[test]
fn generating_twice_makes_one_chunk() {
    let mut field = Field::new();
    let before = field.chunks.len();
    let first = field.generate_chunk(id(1), Direction::Right);
    assert_eq!(first.map(|c| c.get()), Some(2));
    assert_eq!(field.chunks.len(), before + 1);
    let second = field.generate_chunk(id(1), Direction::Right);
    assert!(second.is_none());
    assert_eq!(field.chunks.len(), before + 1);
    assert_eq!(field.new_id.get(), 3);
    assert_eq!(related(&field, 1), [0, 2, 0, 0]);
    assert_eq!(related(&field, 2), [1, 0, 0, 0]);
}

#[test]
fn generated_chunk_has_the_terrain_of_its_number() {
    let mut field = Field::new();
    field.generate_chunk(id(1), Direction::Top);
    assert_eq!(field.chunk(id(2)).unwrap().data, Chunk::new(id(2)).data);
    assert_eq!(field.chunk(id(1)).unwrap().data, Chunk::new(id(1)).data);
}

#[test]
fn a_loop_of_chunks_is_closed() {
    let mut field = Field::new();
    // 1 at (0,0), 2 at (1,0), 3 at (0,-1); then 4 at (1,-1) from 2.
    field.generate_chunk(id(1), Direction::Right);
    field.generate_chunk(id(1), Direction::Top);
    field.generate_chunk(id(2), Direction::Top);
    assert_eq!(related(&field, 4), [3, 0, 0, 2]);
    assert_eq!(related(&field, 3), [0, 4, 0, 1]);
    assert_eq!(related(&field, 2), [1, 0, 4, 0]);
    assert_eq!(related(&field, 1), [0, 2, 3, 0]);
    // The place right of 3 is taken now.
    assert!(field.generate_chunk(id(3), Direction::Right).is_none());
}

#[test]
fn links_are_reciprocal_after_many_generations() {
    let mut field = Field::new();
    let mut rng = rand::rngs::StdRng::seed_from_u64(7);
    for _ in 0..200 {
        let from = rng.gen_range(1..field.new_id.get());
        let d = Direction::from_number(rng.gen_range(0..4));
        field.generate_chunk(id(from), d);
        for (n, chunk) in field.chunks.iter() {
            assert_eq!(chunk.id.get(), *n);
            for d in Direction::ALL {
                let to = chunk.related[d.to_number()];
                if to != 0 {
                    let back = field.chunks.get(&to).unwrap().related[d.opposite().to_number()];
                    assert_eq!(back, *n);
                }
            }
        }
    }
    assert!(field.chunks.len() > 20);
}

#[test]
fn a_ring_round_a_hole_is_linked_when_the_hole_is_filled() {
    let mut field = Field::new();
    // Walk round the place right of the origin: up, right, right, down, down, left, left.
    let a = field.generate_chunk(id(1), Direction::Top).unwrap();
    let b = field.generate_chunk(a, Direction::Right).unwrap();
    let c = field.generate_chunk(b, Direction::Right).unwrap();
    let d = field.generate_chunk(c, Direction::Bottom).unwrap();
    let e = field.generate_chunk(d, Direction::Bottom).unwrap();
    let f = field.generate_chunk(e, Direction::Left).unwrap();
    let g = field.generate_chunk(f, Direction::Left).unwrap();
    // g lies below the origin and is linked with it by the search.
    assert_eq!(related(&field, 1)[Direction::Bottom.to_number()], g.get());
    assert_eq!(related(&field, g.get())[Direction::Top.to_number()], 1);
    // Filling the hole links all four sides.
    let hole = field.generate_chunk(id(1), Direction::Right).unwrap();
    assert_eq!(related(&field, hole.get()), [1, d.get(), b.get(), f.get()]);
    assert_eq!(related(&field, b.get())[Direction::Bottom.to_number()], hole.get());
    assert_eq!(related(&field, d.get())[Direction::Left.to_number()], hole.get());
    assert_eq!(related(&field, f.get())[Direction::Top.to_number()], hole.get());
}

#[test]
fn view_inside_one_chunk_is_its_sub_grid() {
    let field = Field::new();
    let origin = field.chunk(id(1)).unwrap();
    let view = field.view(id(1), [2, 3, 7, 6]);
    assert_eq!(view.len(), 15);
    for y in 3..6 {
        for x in 2..7 {
            assert_eq!(view[(y - 3) * 5 + (x - 2)], origin.data[y * CHUNK_SIZE + x]);
        }
    }
    let whole = field.view(id(1), [0, 0, 16, 16]);
    assert_eq!(whole, origin.data.to_vec());
}

#[test]
fn view_shows_unknown_chunks_as_zero() {
    let mut field = Field::new();
    field.generate_chunk(id(1), Direction::Right);
    let view = field.view(id(1), [-16, 0, 32, 16]);
    assert_eq!(view.len(), 48 * 16);
    let origin = field.chunk(id(1)).unwrap();
    let right = field.chunk(id(2)).unwrap();
    for y in 0..16usize {
        for x in 0..16usize {
            assert_eq!(view[y * 48 + x], 0);
            assert_eq!(view[y * 48 + 16 + x], origin.data[y * 16 + x]);
            assert_eq!(view[y * 48 + 32 + x], right.data[y * 16 + x]);
        }
    }
}

#[test]
fn view_walks_the_row_then_the_column() {
    let mut field = Field::new();
    field.generate_chunk(id(1), Direction::Right);
    field.generate_chunk(id(2), Direction::Bottom);
    // The chunk below-right is reached by way of the right neighbour.
    let view = field.view(id(1), [16, 16, 18, 18]);
    let corner = field.chunk(id(3)).unwrap();
    assert_eq!(view, vec![corner.data[0], corner.data[1], corner.data[16], corner.data[17]]);
    // Nothing is known below the origin.
    assert_eq!(field.view(id(1), [0, 16, 2, 18]), vec![0, 0, 0, 0]);
}

#[test]
fn view_of_an_empty_window_is_empty() {
    let field = Field::new();
    assert!(field.view(id(1), [5, 5, 5, 9]).is_empty());
    assert!(field.view(id(1), [-3, 2, 4, 2]).is_empty());
}

#[test]
fn view_from_an_unknown_chunk_is_all_zero() {
    let field = Field::new();
    assert_eq!(field.view(id(9), [0, 0, 3, 3]), vec![0; 9]);
}

#[test]
fn view_reaches_across_negative_coordinates() {
    let mut field = Field::new();
    field.generate_chunk(id(1), Direction::Left);
    field.generate_chunk(id(1), Direction::Top);
    let left = field.chunk(id(2)).unwrap();
    let top = field.chunk(id(3)).unwrap();
    let view = field.view(id(1), [-1, -1, 1, 1]);
    let origin = field.chunk(id(1)).unwrap();
    // Above-left is reached along the row first: left of the origin, then up, which is unknown.
    assert_eq!(view, vec![0, top.data[15 * 16], left.data[15], origin.data[0]]);
}

#[test]
fn chunks_around_lists_the_block_row_by_row() {
    let mut field = Field::new();
    field.generate_chunk(id(1), Direction::Right);
    field.generate_chunk(id(1), Direction::Top);
    field.generate_chunk(id(2), Direction::Top);
    field.generate_chunk(id(1), Direction::Bottom);
    let block = field.chunks_around(id(1));
    let offsets: Vec<[i32; 2]> = block.iter().map(|p| p.0).collect();
    assert_eq!(
        offsets,
        vec![[-1, -1], [0, -1], [1, -1], [-1, 0], [0, 0], [1, 0], [-1, 1], [0, 1], [1, 1]]
    );
    let ids: Vec<u32> = block.iter().map(|p| p.1.map(|c| c.id.get()).unwrap_or(0)).collect();
    assert_eq!(ids, vec![0, 3, 4, 0, 1, 2, 0, 5, 0]);
    let nowhere = field.chunks_around(id(77));
    assert!(nowhere.iter().all(|p| p.1.is_none()));
}

#[test]
fn filing_a_chunk_links_it_with_its_neighbours() {
    let mut server = Field::new();
    server.generate_chunk(id(1), Direction::Right);
    let sent = *server.chunk(id(2)).unwrap();
    let mut mirror = Field::new();
    mirror.set_existed_chunk(sent, true);
    assert_eq!(mirror.chunks.len(), 2);
    assert_eq!(mirror.new_id.get(), 2);
    assert_eq!(related(&mirror, 1), [0, 2, 0, 0]);
    assert_eq!(related(&mirror, 2), [1, 0, 0, 0]);
    assert_eq!(mirror.chunk(id(2)).unwrap().data, sent.data);
}

#[test]
fn filing_a_chunk_without_links_changes_nothing_else() {
    let mut server = Field::new();
    server.generate_chunk(id(1), Direction::Right);
    let sent = *server.chunk(id(2)).unwrap();
    let mut mirror = Field::new();
    mirror.set_existed_chunk(sent, false);
    assert_eq!(related(&mirror, 1), [0, 0, 0, 0]);
    assert_eq!(related(&mirror, 2), [1, 0, 0, 0]);
}

#[test]
fn filing_a_chunk_with_a_link_to_an_unknown_chunk() {
    let mut server = Field::new();
    server.generate_chunk(id(1), Direction::Right);
    server.generate_chunk(id(2), Direction::Right);
    let far = *server.chunk(id(3)).unwrap();
    let mut mirror = Field::new();
    mirror.set_existed_chunk(far, true);
    assert_eq!(related(&mirror, 3), [2, 0, 0, 0]);
    assert_eq!(related(&mirror, 1), [0, 0, 0, 0]);
    assert!(mirror.chunk(id(2)).is_none());
    assert_eq!(mirror.related(id(3), Direction::Left).map(|c| c.get()), Some(2));
}

#[test]
fn filing_never_changes_a_link_that_is_set() {
    let mut server = Field::new();
    server.generate_chunk(id(1), Direction::Right);
    let mut mirror = Field::new();
    mirror.set_existed_chunk(*server.chunk(id(2)).unwrap(), true);
    // A chunk that claims the place right of the origin, which is taken.
    let mut rival = Chunk::new(id(3));
    rival.related[Direction::Left.to_number()] = 1;
    mirror.set_existed_chunk(rival, true);
    assert_eq!(related(&mirror, 1), [0, 2, 0, 0]);
    assert_eq!(related(&mirror, 2), [1, 0, 0, 0]);
    assert_eq!(related(&mirror, 3), [1, 0, 0, 0]);
}

#[test]
fn filing_again_replaces_the_chunk() {
    let mut server = Field::new();
    server.generate_chunk(id(1), Direction::Right);
    let mut mirror = Field::new();
    let mut early = Chunk::new(id(2));
    early.data = [7; 256];
    mirror.set_existed_chunk(early, false);
    mirror.set_existed_chunk(*server.chunk(id(2)).unwrap(), true);
    assert_eq!(mirror.chunks.len(), 2);
    assert_eq!(mirror.chunk(id(2)).unwrap().data, Chunk::new(id(2)).data);
    assert_eq!(related(&mirror, 1), [0, 2, 0, 0]);
}
