//! The parts of the movement engine that count rather than measure: the
//! intent that the held keys add up to, the throttle of position reports,
//! the walls round a cell, and where a chunk lies relative to another.

use crate::chunk::{ChunkId, WALL};
use crate::field::{cell_index, Field};
use vstd::prelude::*;

verus! {

/// Number of keys that the input layer reports.
pub const KEY_COUNT: usize = 6;

/// The acceleration that the held keys ask for, in steps per axis: each
/// key pressed adds a step in its direction until it is released. Keys 0
/// and 1 pull up and down, keys 2 and 3 left and right.
#[derive(Clone, Copy, Debug, PartialEq, Eq, Structural)]
pub struct Intent {
    pub x: i32,
    pub y: i32,
}

/// 1 for a key that is set, 0 for one that is not.
pub open spec fn count(key: bool) -> int {
    if key {
        1
    } else {
        0
    }
}

impl Intent {
    /// No key is held.
    pub fn new() -> (intent: Intent)
        ensures
            intent.x == 0,
            intent.y == 0,
    {
        Intent { x: 0, y: 0 }
    }

    /// The intent after the key edges of one tick.
    pub open spec fn after(self, key_down: [bool; 6], key_up: [bool; 6]) -> (int, int) {
        (
            self.x - count(key_down[2]) + count(key_down[3]) + count(key_up[2]) - count(key_up[3]),
            self.y - count(key_down[0]) + count(key_down[1]) + count(key_up[0]) - count(key_up[1]),
        )
    }

    /// Takes in the key edges of one tick.
    pub fn apply(&mut self, key_down: &[bool; 6], key_up: &[bool; 6])
        requires
            i32::MIN + 2 <= old(self).x <= i32::MAX - 2,
            i32::MIN + 2 <= old(self).y <= i32::MAX - 2,
        ensures
            (final(self).x as int, final(self).y as int) == old(self).after(*key_down, *key_up),
    {
        let mut x: i32 = self.x;
        let mut y: i32 = self.y;
        let mut dx: i32 = 0;
        let mut dy: i32 = 0;
        if key_down[0] {
            dy = dy - 1;
        }
        if key_down[1] {
            dy = dy + 1;
        }
        if key_down[2] {
            dx = dx - 1;
        }
        if key_down[3] {
            dx = dx + 1;
        }
        if key_up[0] {
            dy = dy + 1;
        }
        if key_up[1] {
            dy = dy - 1;
        }
        if key_up[2] {
            dx = dx + 1;
        }
        if key_up[3] {
            dx = dx - 1;
        }
        x = x + dx;
        y = y + dy;
        self.x = x;
        self.y = y;
    }
}

/// Lets two position reports out of three through.
#[derive(Clone, Copy, Debug)]
pub struct Throttle {
    pub ticks: u8,
}

impl Throttle {
    /// A throttle that has counted no tick.
    pub fn new() -> (throttle: Throttle)
        ensures
            throttle.ticks == 0,
    {
        Throttle { ticks: 0 }
    }

    /// Counts a tick and tells whether the position is to be reported on
    /// it: not on every third.
    pub fn tick(&mut self) -> (report: bool)
        ensures
            final(self).ticks as int == (old(self).ticks % 3 + 1) % 3,
            report == (final(self).ticks != 0),
    {
        self.ticks = (self.ticks % 3 + 1) % 3;
        self.ticks != 0
    }
}

/// The walls among the first `n` cells, row by row, of the three by three
/// block round the cell `(cx, cy)` in the frame of chunk `origin`.
pub open spec fn walls(field: Field, origin: u32, cx: int, cy: int, n: int) -> Seq<(int, int)>
    decreases n,
{
    if n <= 0 {
        Seq::empty()
    } else {
        let before = walls(field, origin, cx, cy, n - 1);
        let x = cx - 1 + (n - 1) % 3;
        let y = cy - 1 + (n - 1) / 3;
        if field.cell(origin, x, y) == WALL {
            before.push((x, y))
        } else {
            before
        }
    }
}

/// The cells as plain pairs.
pub open spec fn cells_view(cells: Seq<[i32; 2]>) -> Seq<(int, int)> {
    cells.map_values(|c: [i32; 2]| (c[0] as int, c[1] as int))
}

/// The walls in the three by three block of cells round the cell
/// `(cx, cy)`, in the frame of chunk `chunk_id`: the obstacles that a
/// character in that cell can run into.
pub fn solid_cells(field: &Field, chunk_id: ChunkId, cx: i32, cy: i32) -> (cells: Vec<[i32; 2]>)
    requires
        field.wf(),
        i32::MIN < cx < i32::MAX - 1,
        i32::MIN < cy < i32::MAX - 1,
    ensures
        cells_view(cells@) == walls(*field, chunk_id@, cx as int, cy as int, 9),
{
    let rect: [i32; 4] = [cx - 1, cy - 1, cx + 2, cy + 2];
    assert(rect[2] - rect[0] == 3 && rect[3] - rect[1] == 3);
    assert((rect[2] - rect[0]) * (rect[3] - rect[1]) == 9) by (nonlinear_arith)
        requires
            rect[2] - rect[0] == 3,
            rect[3] - rect[1] == 3,
    ;
    let view = field.view(chunk_id, rect);
    let mut cells: Vec<[i32; 2]> = Vec::new();
    let mut i: usize = 0;
    proof {
        assert(cells_view(cells@) =~= Seq::empty());
    }
    while i < 9
        invariant
            i <= 9,
            rect[0] == cx - 1,
            rect[1] == cy - 1,
            rect[2] == cx + 2,
            rect[3] == cy + 2,
            i32::MIN < cx < i32::MAX - 1,
            i32::MIN < cy < i32::MAX - 1,
            view@.len() == 9,
            forall|x: int, y: int|
                rect[0] <= x < rect[2] && rect[1] <= y < rect[3] ==> view@[#[trigger] cell_index(
                    rect,
                    x,
                    y,
                )] == field.cell(chunk_id@, x, y),
            cells_view(cells@) == walls(*field, chunk_id@, cx as int, cy as int, i as int),
        decreases 9 - i,
    {
        let x: i32 = cx - 1 + (i % 3) as i32;
        let y: i32 = cy - 1 + (i / 3) as i32;
        proof {
            assert(rect[2] - rect[0] == 3);
            assert((y - rect[1]) * 3 + (x - rect[0]) == i);
            assert(cell_index(rect, x as int, y as int) == i);
        }
        if view[i] == WALL {
            let ghost before = cells@;
            cells.push([x, y]);
            proof {
                assert(cells_view(cells@) =~= cells_view(before).push((x as int, y as int)));
            }
        }
        i = i + 1;
    }
    cells
}

/// The first place of the three by three block of chunks round chunk
/// `from`, among the first `n`, that holds chunk `to`; `n` where none does.
pub open spec fn place_around(field: Field, from: u32, to: u32, n: int) -> int
    decreases n,
{
    if n <= 0 {
        0
    } else {
        let before = place_around(field, from, to, n - 1);
        if before < n - 1 {
            before
        } else if field.around(from, n - 1) == to {
            n - 1
        } else {
            n
        }
    }
}

/// Where chunk `to` lies relative to chunk `from`, in whole chunks, if it
/// is within one hop: characters further away than that are of no concern
/// to each other.
pub fn offset_around(field: &Field, from: ChunkId, to: ChunkId) -> (offset: Option<[i32; 2]>)
    requires
        field.wf(),
    ensures
        ({
            let k = place_around(*field, from@, to@, 9);
            &&& 0 <= k <= 9
            &&& k == 9 ==> offset is None
            &&& k < 9 ==> (offset matches Some(o) && o[0] == k % 3 - 1 && o[1] == k / 3 - 1)
        }),
{
    let block = field.chunks_around(from);
    let wanted: u32 = to.get();
    let mut i: usize = 0;
    while i < 9
        invariant
            i <= 9,
            field.wf(),
            wanted == to@,
            wanted != 0,
            place_around(*field, from@, to@, i as int) == i,
            forall|k: int|
                0 <= k < 9 ==> {
                    let place = #[trigger] block[k];
                    &&& place.0[0] == k % 3 - 1
                    &&& place.0[1] == k / 3 - 1
                    &&& match place.1 {
                        Some(c) => field.around(from@, k) != 0 && *c == field.chunks@[field.around(
                            from@,
                            k,
                        )],
                        None => field.around(from@, k) == 0,
                    }
                },
        decreases 9 - i,
    {
        let place = &block[i];
        let here: u32 = match place.1 {
            Some(c) => c.id.get(),
            None => 0,
        };
        proof {
            assert(block[i as int] == *place);
            if place.1 is Some {
                reveal_around(*field, from@, i as int);
            }
            assert(here == field.around(from@, i as int));
        }
        if here == wanted {
            proof {
                lemma_place_found(*field, from@, to@, i as int, 9);
            }
            return Some(place.0);
        }
        i = i + 1;
    }
    None
}

/// A place of the block holds 0 or a known chunk.
proof fn reveal_around(field: Field, from: u32, k: int)
    requires
        field.wf(),
        field.around(from, k) != 0,
    ensures
        field.known(field.around(from, k)),
{
}

/// Once a place is found, looking further does not change it.
proof fn lemma_place_found(field: Field, from: u32, to: u32, k: int, n: int)
    requires
        0 <= k < n,
        place_around(field, from, to, k) == k,
        field.around(from, k) == to,
    ensures
        place_around(field, from, to, n) == k,
    decreases n - k,
{
    if n > k + 1 {
        lemma_place_found(field, from, to, k, n - 1);
    }
}

} // verus!
