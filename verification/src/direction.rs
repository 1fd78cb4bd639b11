//! The four directions in which chunks are linked.

use vstd::prelude::*;

verus! {

/// A side of a chunk. Screen coordinates: `Top` is towards smaller `y`.
#[derive(Clone, Copy, Debug, PartialEq, Eq, Structural)]
pub enum Direction {
    Left,
    Right,
    Top,
    Bottom,
}

impl Direction {
    /// The direction pointing the other way.
    pub open spec fn spec_opposite(self) -> Direction {
        match self {
            Direction::Left => Direction::Right,
            Direction::Right => Direction::Left,
            Direction::Top => Direction::Bottom,
            Direction::Bottom => Direction::Top,
        }
    }

    /// The direction a quarter turn further: left, bottom, right, top, left.
    pub open spec fn spec_turn_left(self) -> Direction {
        match self {
            Direction::Left => Direction::Bottom,
            Direction::Right => Direction::Top,
            Direction::Top => Direction::Left,
            Direction::Bottom => Direction::Right,
        }
    }

    /// The slot of this direction in a chunk's table of neighbours.
    pub open spec fn index(self) -> int {
        match self {
            Direction::Left => 0,
            Direction::Right => 1,
            Direction::Top => 2,
            Direction::Bottom => 3,
        }
    }

    /// The direction of slot `n`; meaningful for `0 <= n < 4`.
    pub open spec fn of_index(n: int) -> Direction {
        if n == 0 {
            Direction::Left
        } else if n == 1 {
            Direction::Right
        } else if n == 2 {
            Direction::Top
        } else {
            Direction::Bottom
        }
    }

    /// Horizontal component of one step in this direction.
    pub open spec fn dx(self) -> int {
        match self {
            Direction::Left => -1,
            Direction::Right => 1,
            _ => 0,
        }
    }

    /// Vertical component of one step in this direction.
    pub open spec fn dy(self) -> int {
        match self {
            Direction::Top => -1,
            Direction::Bottom => 1,
            _ => 0,
        }
    }

    /// All four directions, in slot order.
    pub const ALL: [Direction; 4] = [
        Direction::Left,
        Direction::Right,
        Direction::Top,
        Direction::Bottom,
    ];

    /// The direction pointing the other way.
    pub fn opposite(&self) -> (d: Direction)
        ensures
            d == self.spec_opposite(),
    {
        match self {
            Direction::Left => Direction::Right,
            Direction::Right => Direction::Left,
            Direction::Top => Direction::Bottom,
            Direction::Bottom => Direction::Top,
        }
    }

    /// The direction a quarter turn further: left, bottom, right, top, left.
    pub fn turn_left(&self) -> (d: Direction)
        ensures
            d == self.spec_turn_left(),
    {
        match self {
            Direction::Left => Direction::Bottom,
            Direction::Right => Direction::Top,
            Direction::Top => Direction::Left,
            Direction::Bottom => Direction::Right,
        }
    }

    /// The slot of this direction in a chunk's table of neighbours.
    pub fn to_number(&self) -> (n: usize)
        ensures
            n as int == self.index(),
            n < 4,
    {
        match self {
            Direction::Left => 0,
            Direction::Right => 1,
            Direction::Top => 2,
            Direction::Bottom => 3,
        }
    }

    /// The direction with slot number `n`. There are four slots.
    pub fn from_number(n: usize) -> (d: Direction)
        requires
            n < 4,
        ensures
            d == Direction::of_index(n as int),
            d.index() == n,
    {
        if n == 0 {
            Direction::Left
        } else if n == 1 {
            Direction::Right
        } else if n == 2 {
            Direction::Top
        } else {
            Direction::Bottom
        }
    }

    /// The grid position one step from `pos` in this direction.
    pub fn move_pos(&self, pos: [i32; 2]) -> (moved: [i32; 2])
        requires
            i32::MIN <= pos[0] + self.dx() <= i32::MAX,
            i32::MIN <= pos[1] + self.dy() <= i32::MAX,
        ensures
            moved[0] == pos[0] + self.dx(),
            moved[1] == pos[1] + self.dy(),
    {
        match self {
            Direction::Left => [pos[0] - 1, pos[1]],
            Direction::Right => [pos[0] + 1, pos[1]],
            Direction::Top => [pos[0], pos[1] - 1],
            Direction::Bottom => [pos[0], pos[1] + 1],
        }
    }
}

/// Turning round twice, or a quarter turn four times, leads back; the
/// opposite direction undoes a step; slot numbers and directions correspond
/// one to one.
pub proof fn lemma_direction_laws(d: Direction)
    ensures
        d.spec_opposite().spec_opposite() == d,
        d.spec_opposite() != d,
        d.spec_turn_left().spec_turn_left() == d.spec_opposite(),
        d.spec_turn_left().spec_turn_left().spec_turn_left().spec_turn_left() == d,
        d.spec_opposite().dx() == -d.dx(),
        d.spec_opposite().dy() == -d.dy(),
        0 <= d.index() < 4,
        Direction::of_index(d.index()) == d,
        forall|n: int| 0 <= n < 4 ==> #[trigger] Direction::of_index(n).index() == n,
{
}

} // verus!
