//! The chunk graph: an unbounded world of chunks, generated on demand and
//! linked to their neighbours by identifier.

use crate::chunk::{Chunk, ChunkId};
use crate::direction::Direction;
use std::collections::HashMap;
use vstd::prelude::*;

verus! {

broadcast use vstd::std_specs::hash::group_hash_axioms;

/// The world: every known chunk by its number, and the number that the next
/// generated chunk will get.
pub struct Field {
    pub new_id: ChunkId,
    pub chunks: HashMap<u32, Chunk>,
}

impl Field {
    /// Whether a chunk numbered `id` is known.
    pub open spec fn known(&self, id: u32) -> bool {
        self.chunks@.contains_key(id)
    }

    /// The number linked from chunk `id` in direction `d`: 0 where the chunk
    /// is unknown or has no neighbour there. The linked chunk itself need
    /// not be known.
    pub open spec fn link(&self, id: u32, d: Direction) -> u32 {
        if self.known(id) {
            self.chunks@[id].link(d)
        } else {
            0
        }
    }

    /// The known chunk one hop from `id` in direction `d`, or 0.
    pub open spec fn step(&self, id: u32, d: Direction) -> u32 {
        let to = self.link(id, d);
        if self.known(to) {
            to
        } else {
            0
        }
    }

    /// The number reached from `from` by following `n` links in direction
    /// `d`; 0 as soon as a link is missing.
    pub open spec fn walk(&self, from: u32, d: Direction, n: nat) -> u32
        decreases n,
    {
        if n == 0 {
            from
        } else {
            self.link(self.walk(from, d, (n - 1) as nat), d)
        }
    }

    /// Every chunk is filed under its own number, and none under zero.
    pub open spec fn wf(&self) -> bool {
        forall|id: u32| #[trigger]
            self.known(id) ==> id != 0 && self.chunks@[id].id@ == id
    }

    /// The chunk numbered `id`, if it is known.
    pub fn chunk(&self, id: ChunkId) -> (chunk: Option<&Chunk>)
        ensures
            chunk is Some <==> self.known(id@),
            chunk matches Some(c) ==> *c == self.chunks@[id@],
    {
        let n = id.get();
        self.chunks.get(&n)
    }

    /// The number linked from chunk `id` in direction `d`, or 0.
    pub(crate) fn link_of(&self, id: u32, d: Direction) -> (to: u32)
        ensures
            to == self.link(id, d),
    {
        match self.chunks.get(&id) {
            Some(c) => c.related[d.to_number()],
            None => 0,
        }
    }

    /// The chunk linked from chunk `id` in direction `d`, whether or not
    /// that chunk is known itself.
    pub fn related(&self, id: ChunkId, d: Direction) -> (to: Option<ChunkId>)
        ensures
            to is None <==> self.link(id@, d) == 0,
            to matches Some(t) ==> t@ == self.link(id@, d),
    {
        ChunkId::new(self.link_of(id.get(), d))
    }

    /// The known chunk at place `k` of the three by three block round chunk
    /// `id`, or 0. Places are counted row by row, the centre is place 4.
    /// Edge places are one hop from the centre; a corner is one hop left
    /// or right of the place above or below the centre.
    pub open spec fn around(&self, id: u32, k: int) -> u32 {
        let center = if self.known(id) {
            id
        } else {
            0
        };
        let top = self.step(center, Direction::Top);
        let bottom = self.step(center, Direction::Bottom);
        if k == 4 {
            center
        } else if k == 1 {
            top
        } else if k == 3 {
            self.step(center, Direction::Left)
        } else if k == 5 {
            self.step(center, Direction::Right)
        } else if k == 7 {
            bottom
        } else if k == 0 {
            self.step(top, Direction::Left)
        } else if k == 2 {
            self.step(top, Direction::Right)
        } else if k == 6 {
            self.step(bottom, Direction::Left)
        } else if k == 8 {
            self.step(bottom, Direction::Right)
        } else {
            0
        }
    }

    /// The known chunk one hop from `from` in direction `d`.
    fn step_from<'a>(&'a self, from: Option<&'a Chunk>, d: Direction) -> (to: Option<&'a Chunk>)
        requires
            self.wf(),
            from matches Some(c) ==> self.known(c.id@) && *c == self.chunks@[c.id@],
        ensures
            to matches Some(c) ==> self.known(c.id@) && *c == self.chunks@[c.id@],
            from matches Some(f) ==> (match to {
                Some(c) => c.id@ == self.step(f.id@, d) && c.id@ != 0,
                None => self.step(f.id@, d) == 0,
            }),
            from is None ==> to is None,
    {
        match from {
            Some(c) => {
                let n = c.related[d.to_number()];
                let to = self.chunks.get(&n);
                assert(to is Some ==> self.known(n));
                assert(self.known(c.id@));
                to
            },
            None => None,
        }
    }

    /// The three by three block of chunks round chunk `id`: for each place,
    /// row by row, its offset from the centre and the chunk there, if it is
    /// known and linked.
    pub fn chunks_around(&self, id: ChunkId) -> (block: [([i32; 2], Option<&Chunk>); 9])
        requires
            self.wf(),
        ensures
            forall|k: int|
                0 <= k < 9 ==> {
                    let place = #[trigger] block[k];
                    &&& place.0[0] == k % 3 - 1
                    &&& place.0[1] == k / 3 - 1
                    &&& match place.1 {
                        Some(c) => self.around(id@, k) != 0 && *c == self.chunks@[self.around(
                            id@,
                            k,
                        )],
                        None => self.around(id@, k) == 0,
                    }
                },
    {
        let center = self.chunk(id);
        let top = self.step_from(center, Direction::Top);
        let left = self.step_from(center, Direction::Left);
        let right = self.step_from(center, Direction::Right);
        let bottom = self.step_from(center, Direction::Bottom);
        let top_left = self.step_from(top, Direction::Left);
        let top_right = self.step_from(top, Direction::Right);
        let bottom_left = self.step_from(bottom, Direction::Left);
        let bottom_right = self.step_from(bottom, Direction::Right);
        [
            ([-1, -1], top_left),
            ([0, -1], top),
            ([1, -1], top_right),
            ([-1, 0], left),
            ([0, 0], center),
            ([1, 0], right),
            ([-1, 1], bottom_left),
            ([0, 1], bottom),
            ([1, 1], bottom_right),
        ]
    }

    /// The number reached from `from` by `cx` hops to the right, or by
    /// `-cx` hops to the left where `cx` is negative.
    pub open spec fn walk_x(&self, from: u32, cx: int) -> u32 {
        if cx < 0 {
            self.walk(from, Direction::Left, (-cx) as nat)
        } else {
            self.walk(from, Direction::Right, cx as nat)
        }
    }

    /// The number reached from `from` by `cy` hops down, or by `-cy` hops
    /// up where `cy` is negative.
    pub open spec fn walk_y(&self, from: u32, cy: int) -> u32 {
        if cy < 0 {
            self.walk(from, Direction::Top, (-cy) as nat)
        } else {
            self.walk(from, Direction::Bottom, cy as nat)
        }
    }

    /// The number of the chunk `cx` chunks to the right of and `cy` chunks
    /// below chunk `origin`, as far as the links tell: first along the row
    /// of `origin`, then along the column reached.
    pub open spec fn chunk_at(&self, origin: u32, cx: int, cy: int) -> u32 {
        self.walk_y(self.walk_x(origin, cx), cy)
    }

    /// The code of the cell at `(x, y)` in the frame of chunk `origin`, whose
    /// own cells are `0 <= x, y < 16`. A cell of a chunk that cannot be
    /// reached or is not known has code 0.
    pub open spec fn cell(&self, origin: u32, x: int, y: int) -> u8 {
        let id = self.chunk_at(origin, x / 16, y / 16);
        if self.known(id) {
            self.chunks@[id].data[(y % 16) * 16 + x % 16]
        } else {
            0
        }
    }

    /// A window within one known chunk shows that chunk's own cells.
    pub proof fn lemma_cell_inside(&self, origin: u32, x: int, y: int)
        requires
            self.known(origin),
            0 <= x < 16,
            0 <= y < 16,
        ensures
            self.cell(origin, x, y) == self.chunks@[origin].data[y * 16 + x],
    {
        assert(self.walk(origin, Direction::Right, 0) == origin);
        assert(self.walk(origin, Direction::Bottom, 0) == origin);
    }

    /// Where a chunk has no known neighbour on a side, the cells of the
    /// region next to it on that side show as 0.
    pub proof fn lemma_cell_beside(&self, origin: u32, d: Direction, x: int, y: int)
        requires
            self.wf(),
            self.step(origin, d) == 0,
            x / 16 == d.dx(),
            y / 16 == d.dy(),
        ensures
            self.cell(origin, x, y) == 0,
    {
        reveal_with_fuel(Field::walk, 2);
        assert(!self.known(0));
        assert(self.walk(origin, Direction::Right, 0) == origin);
        assert(self.walk(origin, Direction::Bottom, 0) == origin);
        assert(self.walk(origin, d, 1) == self.link(origin, d));
        let at = self.chunk_at(origin, x / 16, y / 16);
        assert(at == self.link(origin, d)) by {
            let side = self.link(origin, d);
            assert(self.walk(side, Direction::Bottom, 0) == side);
        }
    }

    /// Once a walk has lost its way it stays lost.
    proof fn lemma_walk_stuck(&self, from: u32, d: Direction, i: nat, n: nat)
        requires
            self.wf(),
            i <= n,
            self.walk(from, d, i) == 0,
        ensures
            self.walk(from, d, n) == 0,
        decreases n - i,
    {
        if i < n {
            self.lemma_walk_stuck(from, d, i, (n - 1) as nat);
            assert(!self.known(0));
        }
    }

    /// Follows `n` links in direction `d`, starting at `from`.
    fn hops(&self, from: u32, d: Direction, n: u32) -> (to: u32)
        requires
            self.wf(),
        ensures
            to == self.walk(from, d, n as nat),
    {
        let mut cur: u32 = from;
        let mut i: u32 = 0;
        while i < n && cur != 0
            invariant
                i <= n,
                cur == self.walk(from, d, i as nat),
            decreases n - i,
        {
            cur = self.link_of(cur, d);
            i = i + 1;
        }
        proof {
            if i < n {
                self.lemma_walk_stuck(from, d, i as nat, n as nat);
            }
        }
        cur
    }

    /// Follows the links from `from` for `c` chunks along the axis that
    /// `forward` and `backward` span.
    fn hops_signed(&self, from: u32, backward: Direction, forward: Direction, c: i32) -> (to: u32)
        requires
            self.wf(),
        ensures
            c < 0 ==> to == self.walk(from, backward, (-c) as nat),
            c >= 0 ==> to == self.walk(from, forward, c as nat),
    {
        if c < 0 {
            self.hops(from, backward, (-(c as i64)) as u32)
        } else {
            self.hops(from, forward, c as u32)
        }
    }

    /// Renders the window `rect` (left, top, right, bottom; the last two
    /// exclusive) of cell codes, row by row, in the frame of chunk
    /// `chunk_id`. Cells of chunks that are not known come out as 0.
    pub fn view(&self, chunk_id: ChunkId, rect: [i32; 4]) -> (out: Vec<u8>)
        requires
            self.wf(),
            rect[0] <= rect[2],
            rect[1] <= rect[3],
            (rect[2] - rect[0]) * (rect[3] - rect[1]) <= usize::MAX,
        ensures
            out@.len() == (rect[2] - rect[0]) * (rect[3] - rect[1]),
            forall|x: int, y: int|
                rect[0] <= x < rect[2] && rect[1] <= y < rect[3] ==> out@[#[trigger] cell_index(
                    rect,
                    x,
                    y,
                )] == self.cell(chunk_id@, x, y),
    {
        let origin: u32 = chunk_id.get();
        let w: usize = (rect[2] as i64 - rect[0] as i64) as usize;
        let h: usize = (rect[3] as i64 - rect[1] as i64) as usize;
        let mut out = zeros(w * h);
        assert forall|x: int, y: int| rect[0] <= x < rect[2] && rect[1] <= y < rect[3] implies 0
            <= #[trigger] cell_index(rect, x, y) < out@.len() by {
            lemma_cell_index(rect, x, y, x, y);
        }
        let cx_last: i32 = chunk_coord(rect[2]);
        let cy_first: i32 = chunk_coord(rect[1]);
        let cy_last: i32 = chunk_coord(rect[3]);
        let mut cx: i32 = chunk_coord(rect[0]);
        while cx <= cx_last
            invariant
                self.wf(),
                rect[0] <= rect[2],
                rect[1] <= rect[3],
                origin == chunk_id@,
                cx_last == rect[2] as int / 16,
                cy_first == rect[1] as int / 16,
                cy_last == rect[3] as int / 16,
                rect[0] as int / 16 <= cx <= cx_last + 1,
                out@.len() == (rect[2] - rect[0]) * (rect[3] - rect[1]),
                (rect[2] - rect[0]) * (rect[3] - rect[1]) <= usize::MAX,
                forall|x: int, y: int|
                    rect[0] <= x < rect[2] && rect[1] <= y < rect[3] ==> 0 <= #[trigger] cell_index(
                        rect,
                        x,
                        y,
                    ) < out@.len(),
                forall|x: int, y: int|
                    rect[0] <= x < rect[2] && rect[1] <= y < rect[3] ==> out@[#[trigger] cell_index(
                        rect,
                        x,
                        y,
                    )] == (if x / 16 < cx {
                        self.cell(origin, x, y)
                    } else {
                        0
                    }),
            decreases cx_last + 1 - cx,
        {
            let column: u32 = self.hops_signed(origin, Direction::Left, Direction::Right, cx);
            let mut cy: i32 = cy_first;
            while cy <= cy_last
                invariant
                    self.wf(),
                    rect[0] <= rect[2],
                    rect[1] <= rect[3],
                    cx_last == rect[2] as int / 16,
                    cy_first == rect[1] as int / 16,
                    cy_last == rect[3] as int / 16,
                    rect[0] as int / 16 <= cx <= cx_last,
                    cy_first <= cy <= cy_last + 1,
                    column == self.walk_x(origin, cx as int),
                    out@.len() == (rect[2] - rect[0]) * (rect[3] - rect[1]),
                    (rect[2] - rect[0]) * (rect[3] - rect[1]) <= usize::MAX,
                    forall|x: int, y: int|
                        rect[0] <= x < rect[2] && rect[1] <= y < rect[3] ==> 0
                            <= #[trigger] cell_index(rect, x, y) < out@.len(),
                    forall|x: int, y: int|
                        rect[0] <= x < rect[2] && rect[1] <= y < rect[3] ==> out@[#[trigger] cell_index(
                            rect,
                            x,
                            y,
                        )] == (if x / 16 < cx || (x / 16 == cx && y / 16 < cy) {
                            self.cell(origin, x, y)
                        } else {
                            0
                        }),
                decreases cy_last + 1 - cy,
            {
                let id: u32 = self.hops_signed(column, Direction::Top, Direction::Bottom, cy);
                assert(id == self.chunk_at(origin, cx as int, cy as int));
                match self.chunks.get(&id) {
                    Some(chunk) => {
                        blit(&mut out, chunk, cx, cy, rect);
                    },
                    None => {},
                }
                cy = cy + 1;
            }
            cx = cx + 1;
        }
        out
    }
}

/// Where the cell `(x, y)` stands in a window `rect` rendered row by row.
pub open spec fn cell_index(rect: [i32; 4], x: int, y: int) -> int {
    (y - rect[1]) * (rect[2] - rect[0]) + (x - rect[0])
}

/// Cells of a window have places of their own within the rendering.
proof fn lemma_cell_index(rect: [i32; 4], x: int, y: int, x2: int, y2: int)
    requires
        rect[0] <= x < rect[2],
        rect[1] <= y < rect[3],
        rect[0] <= x2 < rect[2],
        rect[1] <= y2 < rect[3],
    ensures
        0 <= cell_index(rect, x, y) < (rect[2] - rect[0]) * (rect[3] - rect[1]),
        0 <= (y - rect[1]) * (rect[2] - rect[0]) <= cell_index(rect, x, y),
        cell_index(rect, x, y) == cell_index(rect, x2, y2) ==> x == x2 && y == y2,
{
    let w = rect[2] - rect[0];
    let h = rect[3] - rect[1];
    let r = y - rect[1];
    let r2 = y2 - rect[1];
    assert(0 <= r * w && r * w + w <= w * h) by (nonlinear_arith)
        requires
            0 <= r < h,
            0 < w,
    ;
    if r < r2 {
        assert(r * w + w <= r2 * w) by (nonlinear_arith)
            requires
                r < r2,
                0 < w,
        ;
    }
    if r2 < r {
        assert(r2 * w + w <= r * w) by (nonlinear_arith)
            requires
                r2 < r,
                0 < w,
        ;
    }
}

/// The chunk column or row that holds the cell coordinate `x`.
fn chunk_coord(x: i32) -> (c: i32)
    ensures
        c == x as int / 16,
{
    match x.checked_div_euclid(16) {
        Some(c) => c,
        None => 0,
    }
}

/// A buffer of `n` cells of code 0.
fn zeros(n: usize) -> (out: Vec<u8>)
    ensures
        out@.len() == n,
        forall|i: int| 0 <= i < n ==> out@[i] == 0,
{
    let mut out: Vec<u8> = Vec::new();
    let mut i: usize = 0;
    while i < n
        invariant
            i <= n,
            out@.len() == i,
            forall|k: int| 0 <= k < i ==> out@[k] == 0,
        decreases n - i,
    {
        out.push(0);
        i = i + 1;
    }
    out
}

/// Copies into the rendering `out` of window `rect` the cells of `chunk`,
/// taken as the chunk in column `cx` and row `cy` of the frame, that lie
/// in the window.
fn blit(out: &mut Vec<u8>, chunk: &Chunk, cx: i32, cy: i32, rect: [i32; 4])
    requires
        rect[0] <= rect[2],
        rect[1] <= rect[3],
        old(out)@.len() == (rect[2] - rect[0]) * (rect[3] - rect[1]),
        (rect[2] - rect[0]) * (rect[3] - rect[1]) <= usize::MAX,
        -0x0800_0000 <= cx < 0x0800_0000,
        -0x0800_0000 <= cy < 0x0800_0000,
    ensures
        final(out)@.len() == old(out)@.len(),
        forall|x: int, y: int|
            rect[0] <= x < rect[2] && rect[1] <= y < rect[3] ==> final(out)@[#[trigger] cell_index(
                rect,
                x,
                y,
            )] == (if x / 16 == cx && y / 16 == cy {
                chunk.data[(y % 16) * 16 + x % 16]
            } else {
                old(out)@[cell_index(rect, x, y)]
            }),
{
    let w: usize = (rect[2] as i64 - rect[0] as i64) as usize;
    let mut dy: i32 = 0;
    while dy < 16
        invariant
            0 <= dy <= 16,
            rect[0] <= rect[2],
            rect[1] <= rect[3],
            w == rect[2] - rect[0],
            out@.len() == (rect[2] - rect[0]) * (rect[3] - rect[1]),
            out@.len() == old(out)@.len(),
            (rect[2] - rect[0]) * (rect[3] - rect[1]) <= usize::MAX,
            -0x0800_0000 <= cx < 0x0800_0000,
            -0x0800_0000 <= cy < 0x0800_0000,
            forall|x: int, y: int|
                rect[0] <= x < rect[2] && rect[1] <= y < rect[3] ==> out@[#[trigger] cell_index(
                    rect,
                    x,
                    y,
                )] == (if x / 16 == cx && y / 16 == cy && y % 16 < dy {
                    chunk.data[(y % 16) * 16 + x % 16]
                } else {
                    old(out)@[cell_index(rect, x, y)]
                }),
        decreases 16 - dy,
    {
        let mut dx: i32 = 0;
        while dx < 16
            invariant
                0 <= dy < 16,
                0 <= dx <= 16,
                rect[0] <= rect[2],
                rect[1] <= rect[3],
                w == rect[2] - rect[0],
                out@.len() == (rect[2] - rect[0]) * (rect[3] - rect[1]),
                out@.len() == old(out)@.len(),
                (rect[2] - rect[0]) * (rect[3] - rect[1]) <= usize::MAX,
                -0x0800_0000 <= cx < 0x0800_0000,
                -0x0800_0000 <= cy < 0x0800_0000,
                forall|x: int, y: int|
                    rect[0] <= x < rect[2] && rect[1] <= y < rect[3] ==> out@[#[trigger] cell_index(
                        rect,
                        x,
                        y,
                    )] == (if x / 16 == cx && y / 16 == cy && (y % 16 < dy || (y % 16 == dy && x
                        % 16 < dx)) {
                        chunk.data[(y % 16) * 16 + x % 16]
                    } else {
                        old(out)@[cell_index(rect, x, y)]
                    }),
            decreases 16 - dx,
        {
            let x: i32 = cx * 16 + dx;
            let y: i32 = cy * 16 + dy;
            if rect[0] <= x && x < rect[2] && rect[1] <= y && y < rect[3] {
                proof {
                    lemma_cell_index(rect, x as int, y as int, x as int, y as int);
                }
                let row: usize = (y as i64 - rect[1] as i64) as usize;
                let i: usize = row * w + (x as i64 - rect[0] as i64) as usize;
                let ghost before = out@;
                out.set(i, chunk.data[(dy * 16 + dx) as usize]);
                assert forall|x2: int, y2: int|
                    rect[0] <= x2 < rect[2] && rect[1] <= y2 < rect[3] implies out@[#[trigger] cell_index(
                        rect,
                        x2,
                        y2,
                    )] == (if x2 / 16 == cx && y2 / 16 == cy && (y2 % 16 < dy || (y2 % 16 == dy
                        && x2 % 16 < dx + 1)) {
                        chunk.data[(y2 % 16) * 16 + x2 % 16]
                    } else {
                        old(out)@[cell_index(rect, x2, y2)]
                    }) by {
                    lemma_cell_index(rect, x as int, y as int, x2, y2);
                    lemma_cell_index(rect, x2, y2, x2, y2);
                }
            }
            dx = dx + 1;
        }
        dy = dy + 1;
    }
}

} // verus!
