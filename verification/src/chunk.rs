//! Chunks: fixed-size square tiles of terrain, and their identifiers.

use crate::direction::Direction;
use rand::rngs::StdRng;
use vstd::prelude::*;

verus! {

/// Side length of a chunk, in cells.
pub const CHUNK_SIZE: usize = 16;

/// Number of cells in a chunk.
pub const CHUNK_CELLS: usize = 256;

/// Cell code of an impassable wall. Every other code is passable.
pub const WALL: u8 = 1;

/// An identifier of a neighbouring chunk, or 0 where there is none yet.
pub type OptChunkId = u32;

/// Identifies a chunk: a positive integer. Zero is reserved for "no chunk".
#[derive(Clone, Copy, Debug, PartialEq, Eq, Hash)]
pub struct ChunkId {
    raw: u32,
}

impl View for ChunkId {
    type V = u32;

    closed spec fn view(&self) -> u32 {
        self.raw
    }
}

impl ChunkId {
    #[verifier::type_invariant]
    spec fn is_positive(self) -> bool {
        self.raw != 0
    }

    /// The smallest identifier, that of the origin chunk.
    pub fn min() -> (id: ChunkId)
        ensures
            id@ == 1,
    {
        ChunkId { raw: 1 }
    }

    /// The identifier with number `n`, unless `n` is zero.
    pub fn new(n: u32) -> (id: Option<ChunkId>)
        ensures
            n == 0 <==> id is None,
            id matches Some(id) ==> id@ == n,
    {
        if n == 0 {
            None
        } else {
            Some(ChunkId { raw: n })
        }
    }

    /// The number of this identifier, never zero.
    pub fn get(self) -> (n: u32)
        ensures
            n == self@,
            n != 0,
    {
        proof {
            use_type_invariant(&self);
        }
        self.raw
    }

    /// The identifier `n` further on, unless that exceeds the number range.
    pub fn checked_add(self, n: u32) -> (id: Option<ChunkId>)
        ensures
            self@ + n > u32::MAX <==> id is None,
            id matches Some(id) ==> id@ == self@ + n,
    {
        proof {
            use_type_invariant(&self);
        }
        if n > u32::MAX - self.raw {
            None
        } else {
            Some(ChunkId { raw: self.raw + n })
        }
    }
}

/// `rand::rngs::StdRng`, the generator that terrain is drawn from. Its state
/// is opaque here: a value of it is only made and handed on.
#[verifier::external_type_specification]
#[verifier::external_body]
pub struct ExStdRng(StdRng);

/// `rand::SeedableRng::seed_from_u64` for `StdRng`: a generator whose
/// stream is fixed by `seed`. Nothing is claimed of the stream.
#[verifier::external_body]
fn seeded_rng(seed: u64) -> StdRng {
    rand::SeedableRng::seed_from_u64(seed)
}

/// `rand::Rng::gen_ratio`: a draw that is true with probability
/// `numerator / denominator`. It panics on a zero denominator and on a
/// ratio above one, which the precondition excludes; nothing is claimed
/// of the outcome.
#[verifier::external_body]
fn draw_ratio(rng: &mut StdRng, numerator: u32, denominator: u32) -> bool
    requires
        0 < denominator,
        numerator <= denominator,
{
    rand::Rng::gen_ratio(rng, numerator, denominator)
}

/// The code of fingerprint cell `bit` of the chunk numbered `id`: 4 where
/// that bit of the number is set, 2 where it is clear.
pub open spec fn fingerprint_code(id: u32, bit: u32) -> u8 {
    if (id >> bit) & 1 == 1 {
        4
    } else {
        2
    }
}

/// The code of an ordinary terrain cell: a wall where the first draw
/// succeeded, otherwise decorated ground (3) or plain ground (2).
pub open spec fn spec_terrain_code(wall: bool, decorated: bool) -> u8 {
    if wall {
        1
    } else if decorated {
        3
    } else {
        2
    }
}

/// The code of an ordinary terrain cell, from the outcomes of its draws.
pub fn terrain_code(wall: bool, decorated: bool) -> (code: u8)
    ensures
        code == spec_terrain_code(wall, decorated),
{
    if wall {
        WALL
    } else if decorated {
        3
    } else {
        2
    }
}

/// One tile of the world: its identifier, the identifiers of its four
/// neighbours (0 where none is linked yet) and its grid of cell codes, row
/// by row.
#[derive(Clone, Copy, Debug)]
pub struct Chunk {
    pub id: ChunkId,
    /// Neighbours in slot order: left, right, top, bottom.
    pub related: [OptChunkId; 4],
    pub data: [u8; 256],
}

impl Chunk {
    /// The neighbour in direction `d`, or 0.
    pub open spec fn link(&self, d: Direction) -> u32 {
        self.related[d.index()]
    }

    /// No neighbour is linked.
    pub open spec fn unlinked(&self) -> bool {
        forall|i: int| 0 <= i < 4 ==> self.related[i] == 0
    }

    /// The shape of generated terrain: cell 0 is the marker 3, cells 1 to 8
    /// spell the low eight bits of the chunk's number, every further cell
    /// is a wall (1) or ground (2 or 3).
    pub open spec fn has_terrain_of(&self, id: u32) -> bool {
        &&& self.data[0] == 3
        &&& forall|i: int| 0 <= i < 8 ==> #[trigger] self.data[1 + i] == fingerprint_code(id, i as u32)
        &&& forall|i: int|
            9 <= i < 256 ==> {
                let c = #[trigger] self.data[i];
                c == 1 || c == 2 || c == 3
            }
    }

    /// Generates the chunk numbered `id`, with no neighbours. The terrain is
    /// drawn from a generator seeded with the number.
    pub fn new(id: ChunkId) -> (chunk: Chunk)
        ensures
            chunk.id == id,
            chunk.unlinked(),
            chunk.has_terrain_of(id@),
    {
        let n = id.get();
        let mut data: [u8; 256] = [WALL; 256];
        let mut rng = seeded_rng(n as u64);
        data[0] = 3;
        let mut bit: u32 = 0;
        while bit < 8
            invariant
                bit <= 8,
                data[0] == 3,
                forall|i: int| 0 <= i < bit ==> #[trigger] data[1 + i] == fingerprint_code(n, i as u32),
            decreases 8 - bit,
        {
            data[1 + bit as usize] = if (n >> bit) & 1 == 1 {
                4
            } else {
                2
            };
            bit = bit + 1;
        }
        let mut i: usize = 9;
        while i < 256
            invariant
                9 <= i <= 256,
                data[0] == 3,
                forall|i: int| 0 <= i < 8 ==> #[trigger] data[1 + i] == fingerprint_code(n, i as u32),
                forall|k: int|
                    9 <= k < i ==> {
                        let c = #[trigger] data[k];
                        c == 1 || c == 2 || c == 3
                    },
            decreases 256 - i,
        {
            let wall = draw_ratio(&mut rng, 1, 40);
            let decorated = if wall {
                false
            } else {
                draw_ratio(&mut rng, 1, 5)
            };
            data[i] = terrain_code(wall, decorated);
            i = i + 1;
        }
        Chunk { id, related: [0, 0, 0, 0], data }
    }
}

/// A chunk as plain values: its number, its four links and its cells.
pub struct ChunkView {
    pub id: u32,
    pub related: Seq<u32>,
    pub data: Seq<u8>,
}

impl View for Chunk {
    type V = ChunkView;

    open spec fn view(&self) -> ChunkView {
        ChunkView { id: self.id@, related: self.related@, data: self.data@ }
    }
}

} // verus!
