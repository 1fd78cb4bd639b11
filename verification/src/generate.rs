//! Growing the chunk graph: the generation of new chunks, and the flood
//! fill that links a new chunk to the neighbours that the known chunks lead
//! to.

use crate::chunk::{Chunk, ChunkId};
use crate::direction::Direction;
use crate::field::Field;
use std::collections::HashMap;
use vstd::prelude::*;
use vstd::set_lib::*;

verus! {

broadcast use vstd::std_specs::hash::group_hash_axioms;

/// The place one step from `p` in direction `d` on the grid of chunks.
pub open spec fn moved(p: (int, int), d: Direction) -> (int, int) {
    (p.0 + d.dx(), p.1 + d.dy())
}

/// Whether `pos` puts chunk `b` right next to chunk `a` in direction `d`.
pub open spec fn adjacent(pos: Map<u32, (int, int)>, a: u32, b: u32, d: Direction) -> bool {
    pos[b] == moved(pos[a], d)
}

/// The number of steps from the grid's origin to `p`.
pub open spec fn reach(p: (int, int)) -> int {
    (if p.0 < 0 {
        -p.0
    } else {
        p.0
    }) + (if p.1 < 0 {
        -p.1
    } else {
        p.1
    })
}

impl Field {
    /// The table of all links: for each known chunk and each direction, the
    /// number linked there, or 0.
    pub open spec fn links(&self) -> Map<(u32, Direction), u32> {
        Map::new(
            |k: (u32, Direction)| self.known(k.0),
            |k: (u32, Direction)| self.link(k.0, k.1),
        )
    }

    /// Every known chunk has a number below the next one to be given out.
    pub open spec fn fresh(&self) -> bool {
        forall|id: u32| #[trigger] self.known(id) ==> id < self.new_id@
    }

    /// Links go both ways: where a chunk names a neighbour, that neighbour is
    /// known and names the chunk back in the opposite direction.
    pub open spec fn reciprocal(&self) -> bool {
        forall|a: u32, d: Direction| #[trigger]
            self.link(a, d) != 0 ==> self.known(self.link(a, d)) && self.link(
                self.link(a, d),
                d.spec_opposite(),
            ) == a
    }

    /// `pos` lays the known chunks out on a grid that the links agree with:
    /// every link leads to a known chunk one step further in its direction,
    /// no two chunks share a place, and no chunk lies further from the
    /// origin than its number allows.
    pub open spec fn laid_out(&self, pos: Map<u32, (int, int)>) -> bool {
        &&& forall|a: u32, d: Direction| #[trigger]
            self.link(a, d) != 0 ==> self.known(self.link(a, d)) && adjacent(
                pos,
                a,
                self.link(a, d),
                d,
            )
        &&& forall|a: u32, b: u32|
            #![trigger self.known(a), self.known(b)]
            self.known(a) && self.known(b) && pos[a] == pos[b] ==> a == b
        &&& forall|a: u32| #[trigger] self.known(a) ==> reach(pos[a]) < a
    }

    /// Under the layout `pos` every two known chunks that lie next to each
    /// other are linked.
    pub open spec fn complete(&self, pos: Map<u32, (int, int)>) -> bool {
        forall|a: u32, b: u32, d: Direction|
            self.known(a) && self.known(b) && #[trigger] adjacent(pos, a, b, d) ==> self.link(a, d)
                == b
    }

    /// Chunk `a` names a neighbour with a smaller number than its own.
    pub open spec fn descends(&self, a: u32) -> bool {
        ||| 0 < self.link(a, Direction::Left) < a
        ||| 0 < self.link(a, Direction::Right) < a
        ||| 0 < self.link(a, Direction::Top) < a
        ||| 0 < self.link(a, Direction::Bottom) < a
    }

    /// Every chunk but the origin names a neighbour older than itself, so
    /// that the links lead from any chunk back to the origin.
    pub open spec fn rooted(&self) -> bool {
        forall|a: u32| #[trigger] self.known(a) && a != 1 ==> self.descends(a)
    }

    /// The invariant of a world grown by generation alone: the chunks lie on
    /// a grid, one to a place, all connected to the origin chunk 1, and two
    /// chunks are linked exactly where they are neighbours on the grid.
    pub open spec fn coherent(&self) -> bool {
        &&& self.wf()
        &&& self.known(1)
        &&& self.fresh()
        &&& self.rooted()
        &&& exists|pos: Map<u32, (int, int)>| #[trigger] self.laid_out(pos) && self.complete(pos)
    }

    /// The state between adding chunk `n` to a coherent world and linking
    /// it: all holds as in a coherent world, but that `n` is linked to its
    /// parent alone, and nothing is linked to `n`.
    spec fn grown(&self, n: u32, pos: Map<u32, (int, int)>) -> bool {
        &&& self.wf()
        &&& self.known(1)
        &&& self.known(n)
        &&& forall|a: u32| #[trigger] self.known(a) ==> a <= n
        &&& n < self.new_id@
        &&& self.rooted()
        &&& self.laid_out(pos)
        &&& forall|a: u32, b: u32, d: Direction|
            self.known(a) && self.known(b) && a != n && b != n && #[trigger] adjacent(pos, a, b, d)
                ==> self.link(a, d) == b
        &&& forall|a: u32, d: Direction| a != n ==> #[trigger] self.link(a, d) != n
    }

    /// In a coherent world links go both ways.
    pub proof fn lemma_coherent_reciprocal(&self)
        requires
            self.coherent(),
        ensures
            self.reciprocal(),
    {
        let pos = choose|pos: Map<u32, (int, int)>| #[trigger]
            self.laid_out(pos) && self.complete(pos);
        assert forall|a: u32, d: Direction| #[trigger] self.link(a, d) != 0 implies self.known(
            self.link(a, d),
        ) && self.link(self.link(a, d), d.spec_opposite()) == a by {
            let b = self.link(a, d);
            assert(adjacent(pos, a, b, d));
            assert(adjacent(pos, b, a, d.spec_opposite()));
        }
    }

    /// Sets the link of chunk `a` in direction `d` to `b`, if `a` is known
    /// and has no link there yet.
    fn set_link(&mut self, a: u32, d: Direction, b: u32)
        ensures
            final(self).new_id == old(self).new_id,
            final(self).chunks@.dom() == old(self).chunks@.dom(),
            forall|x: u32| #[trigger]
                old(self).known(x) ==> final(self).chunks@[x].id == old(self).chunks@[x].id
                    && final(self).chunks@[x].data == old(self).chunks@[x].data,
            forall|x: u32, e: Direction| #[trigger]
                final(self).link(x, e) == (if x == a && e == d && old(self).known(a) && old(
                    self,
                ).link(a, d) == 0 {
                    b
                } else {
                    old(self).link(x, e)
                }),
    {
        let updated: Option<Chunk> = match self.chunks.get(&a) {
            Some(c) => {
                if c.related[d.to_number()] == 0 {
                    let mut related: [u32; 4] = c.related;
                    related[d.to_number()] = b;
                    Some(Chunk { id: c.id, related, data: c.data })
                } else {
                    None
                }
            },
            None => None,
        };
        match updated {
            Some(c) => {
                self.chunks.insert(a, c);
                assert(final(self).chunks@.dom() =~= old(self).chunks@.dom());
            },
            None => {},
        }
    }
}

/// The numbers that are not on the list `closed`.
pub open spec fn unvisited(closed: Seq<u32>) -> Set<int> {
    Set::new(|y: int| 0 <= y < 0x1_0000_0000 && !closed.contains(y as u32))
}

/// The link from chunk `a` in direction `d` in the table of links `l`, or 0.
pub open spec fn link_in(l: Map<(u32, Direction), u32>, a: u32, d: Direction) -> u32 {
    if l.contains_key((a, d)) {
        l[(a, d)]
    } else {
        0
    }
}

/// The table `l` with the link from chunk `a` in direction `d` set to `b`,
/// if `a` is in the table and has no link there yet.
pub open spec fn with_link(l: Map<(u32, Direction), u32>, a: u32, d: Direction, b: u32) -> Map<
    (u32, Direction),
    u32,
> {
    if l.contains_key((a, d)) && l[(a, d)] == 0 {
        l.insert((a, d), b)
    } else {
        l
    }
}

/// The direction in which the offset `(x, y)` is a single step, if any.
pub open spec fn side(x: int, y: int) -> Option<Direction> {
    if x == -1 && y == 0 {
        Some(Direction::Left)
    } else if x == 1 && y == 0 {
        Some(Direction::Right)
    } else if x == 0 && y == -1 {
        Some(Direction::Top)
    } else if x == 0 && y == 1 {
        Some(Direction::Bottom)
    } else {
        None
    }
}

/// The table `l` after the search round chunk `n` has found chunk `id` at
/// offset `(x, y)`: the two are linked, each way where no link is set
/// yet, if the offset is a single step.
pub open spec fn with_found(l: Map<(u32, Direction), u32>, n: u32, id: u32, x: int, y: int) -> Map<
    (u32, Direction),
    u32,
> {
    match side(x, y) {
        Some(e) => with_link(with_link(l, n, e, id), id, e.spec_opposite(), n),
        None => l,
    }
}

/// The stack and the list of the search after it has looked at the chunk
/// `to` at offset `(x, y)`: the chunk joins both unless there is none or
/// it is on the list already.
pub open spec fn visited(search: (Seq<(u32, i64, i64)>, Seq<u32>), to: u32, x: int, y: int) -> (
    Seq<(u32, i64, i64)>,
    Seq<u32>,
) {
    if to != 0 && !search.1.contains(to) {
        (search.0.push((to, x as i64, y as i64)), search.1.push(to))
    } else {
        search
    }
}

/// The stack and the list of the search after it has looked at the four
/// links of chunk `id`, found at offset `(x, y)`: left, right, top, bottom.
pub open spec fn explored(
    l: Map<(u32, Direction), u32>,
    search: (Seq<(u32, i64, i64)>, Seq<u32>),
    id: u32,
    x: int,
    y: int,
) -> (Seq<(u32, i64, i64)>, Seq<u32>) {
    if l.contains_key((id, Direction::Left)) {
        visited(
            visited(
                visited(
                    visited(search, link_in(l, id, Direction::Left), x - 1, y),
                    link_in(l, id, Direction::Right),
                    x + 1,
                    y,
                ),
                link_in(l, id, Direction::Top),
                x,
                y - 1,
            ),
            link_in(l, id, Direction::Bottom),
            x,
            y + 1,
        )
    } else {
        search
    }
}

/// The table of links that the search round chunk `n` ends with, from the
/// table `l`, the stack `open` of chunks found and not yet looked at, each
/// with its offset from `n`, and the list `closed` of all chunks found. The
/// search takes the chunk on top of the stack, links it with `n` where it
/// lies one step from it, and looks at its links in turn; it ends when the
/// stack is empty.
///
/// The definition is hidden from the prover until it is revealed.
#[verifier::opaque]
pub open spec fn flooded(
    l: Map<(u32, Direction), u32>,
    n: u32,
    open: Seq<(u32, i64, i64)>,
    closed: Seq<u32>,
) -> Map<(u32, Direction), u32>
    decreases 2 * unvisited(closed).len() + open.len(),
    via flooded_decreases
{
    if open.len() == 0 {
        l
    } else {
        let top = open.last();
        let found = with_found(l, n, top.0, top.1 as int, top.2 as int);
        let search = explored(found, (open.drop_last(), closed), top.0, top.1 as int, top.2 as int);
        flooded(found, n, search.0, search.1)
    }
}

/// One round of the search: with an empty stack the search is over; else
/// it goes on from what the chunk on top of the stack leads to.
pub proof fn lemma_flooded_unfold(
    l: Map<(u32, Direction), u32>,
    n: u32,
    open: Seq<(u32, i64, i64)>,
    closed: Seq<u32>,
)
    ensures
        open.len() == 0 ==> flooded(l, n, open, closed) == l,
        open.len() != 0 ==> {
            let top = open.last();
            let found = with_found(l, n, top.0, top.1 as int, top.2 as int);
            let search = explored(
                found,
                (open.drop_last(), closed),
                top.0,
                top.1 as int,
                top.2 as int,
            );
            flooded(l, n, open, closed) == flooded(found, n, search.0, search.1)
        },
{
    reveal_with_fuel(flooded, 2);
}

/// Looking at a chunk does not lengthen the search.
proof fn lemma_visited_shortens(search: (Seq<(u32, i64, i64)>, Seq<u32>), to: u32, x: int, y: int)
    ensures
        2 * unvisited(visited(search, to, x, y).1).len() + visited(search, to, x, y).0.len() <= 2
            * unvisited(search.1).len() + search.0.len(),
{
    if to != 0 && !search.1.contains(to) {
        lemma_unvisited_shrinks(search.1, to);
    }
}

/// Looking at the links of a chunk does not lengthen the search.
proof fn lemma_explored_shortens(
    l: Map<(u32, Direction), u32>,
    search: (Seq<(u32, i64, i64)>, Seq<u32>),
    id: u32,
    x: int,
    y: int,
)
    ensures
        2 * unvisited(explored(l, search, id, x, y).1).len() + explored(l, search, id, x, y).0.len()
            <= 2 * unvisited(search.1).len() + search.0.len(),
{
    let s1 = visited(search, link_in(l, id, Direction::Left), x - 1, y);
    let s2 = visited(s1, link_in(l, id, Direction::Right), x + 1, y);
    let s3 = visited(s2, link_in(l, id, Direction::Top), x, y - 1);
    lemma_visited_shortens(search, link_in(l, id, Direction::Left), x - 1, y);
    lemma_visited_shortens(s1, link_in(l, id, Direction::Right), x + 1, y);
    lemma_visited_shortens(s2, link_in(l, id, Direction::Top), x, y - 1);
    lemma_visited_shortens(s3, link_in(l, id, Direction::Bottom), x, y + 1);
}

#[via_fn]
proof fn flooded_decreases(
    l: Map<(u32, Direction), u32>,
    n: u32,
    open: Seq<(u32, i64, i64)>,
    closed: Seq<u32>,
) {
    if open.len() != 0 {
        let top = open.last();
        let found = with_found(l, n, top.0, top.1 as int, top.2 as int);
        lemma_explored_shortens(
            found,
            (open.drop_last(), closed),
            top.0,
            top.1 as int,
            top.2 as int,
        );
    }
}

/// Whether chunk `c` waits on the stack `open`.
spec fn queued(open: Seq<(u32, i64, i64)>, c: u32) -> bool {
    exists|j: int| 0 <= j < open.len() && (#[trigger] open[j]).0 == c
}

/// What holds of each entry of the stack while a new chunk is linked: its
/// chunk is on the list `closed`, and its offset is no longer than that list.
spec fn entry_ok(e: (u32, i64, i64), closed: Seq<u32>) -> bool {
    &&& e.0 != 0
    &&& closed.contains(e.0)
    &&& reach((e.1 as int, e.2 as int)) < closed.len()
}

/// The entry holds a known chunk and its true offset from chunk `n` under
/// the layout `pos`.
spec fn entry_fits(f: Field, pos: Map<u32, (int, int)>, n: u32, e: (u32, i64, i64)) -> bool {
    &&& f.known(e.0)
    &&& pos[e.0] == (pos[n].0 + e.1, pos[n].1 + e.2)
}

proof fn lemma_unvisited_finite(closed: Seq<u32>)
    ensures
        unvisited(closed).finite(),
        unvisited(closed).len() <= 0x1_0000_0000,
{
    lemma_int_range(0, 0x1_0000_0000);
    assert(unvisited(closed).subset_of(set_int_range(0, 0x1_0000_0000)));
    lemma_len_subset(unvisited(closed), set_int_range(0, 0x1_0000_0000));
}

/// A number that joins the list leaves the unvisited ones.
proof fn lemma_unvisited_shrinks(closed: Seq<u32>, b: u32)
    requires
        !closed.contains(b),
    ensures
        unvisited(closed).finite(),
        unvisited(closed.push(b)).finite(),
        unvisited(closed.push(b)).len() + 1 == unvisited(closed).len(),
{
    lemma_unvisited_finite(closed);
    lemma_unvisited_finite(closed.push(b));
    let bigger = closed.push(b);
    assert forall|y: int| unvisited(bigger).contains(y) <==> unvisited(closed).remove(
        b as int,
    ).contains(y) by {
        if 0 <= y < 0x1_0000_0000 {
            let x = y as u32;
            if closed.contains(x) {
                let k = choose|k: int| 0 <= k < closed.len() && closed[k] == x;
                assert(bigger[k] == x);
            }
            if x == b {
                assert(bigger[closed.len() as int] == b);
            }
            if bigger.contains(x) {
                let k = choose|k: int| 0 <= k < bigger.len() && bigger[k] == x;
                if k < closed.len() {
                    assert(closed[k] == x);
                }
            }
        }
    }
    assert(unvisited(bigger) =~= unvisited(closed).remove(b as int));
    assert(unvisited(closed).contains(b as int));
}

proof fn lemma_unvisited_first(n: u32)
    ensures
        unvisited(seq![n]).len() + 1 == 0x1_0000_0000,
{
    let none = Seq::<u32>::empty();
    lemma_int_range(0, 0x1_0000_0000);
    assert(unvisited(none) =~= set_int_range(0, 0x1_0000_0000));
    lemma_unvisited_shrinks(none, n);
    assert(none.push(n) =~= seq![n]);
}

/// Whether `x` is on the list `closed`.
fn listed(closed: &Vec<u32>, x: u32) -> (found: bool)
    ensures
        found == closed@.contains(x),
{
    let mut i: usize = 0;
    while i < closed.len()
        invariant
            i <= closed.len(),
            forall|k: int| 0 <= k < i ==> closed@[k] != x,
        decreases closed.len() - i,
    {
        if closed[i] == x {
            return true;
        }
        i = i + 1;
    }
    false
}

/// The direction in which the offset `(x, y)` is a single step, if any.
fn side_of(x: i64, y: i64) -> (side: Option<Direction>)
    ensures
        side == self::side(x as int, y as int),
        side matches Some(d) ==> x == d.dx() && y == d.dy(),
        side is None ==> forall|d: Direction| !(x == d.dx() && y == d.dy()),
{
    if x == -1 && y == 0 {
        Some(Direction::Left)
    } else if x == 1 && y == 0 {
        Some(Direction::Right)
    } else if x == 0 && y == -1 {
        Some(Direction::Top)
    } else if x == 0 && y == 1 {
        Some(Direction::Bottom)
    } else {
        None
    }
}

/// Puts the chunk `to`, found at offset `(x, y)`, on the stack and on the
/// list, unless there is no such chunk or it is on the list already.
fn visit(
    open: &mut Vec<(u32, i64, i64)>,
    closed: &mut Vec<u32>,
    to: u32,
    x: i64,
    y: i64,
    Ghost(f): Ghost<Field>,
    Ghost(pos): Ghost<Map<u32, (int, int)>>,
    Ghost(n): Ghost<u32>,
    Ghost(g): Ghost<bool>,
) -> (pushed: bool)
    requires
        forall|k: int| 0 <= k < old(open)@.len() ==> entry_ok(#[trigger] old(open)@[k], old(closed)@),
        reach((x as int, y as int)) <= old(closed)@.len(),
        old(closed)@.len() + unvisited(old(closed)@).len() == 0x1_0000_0000,
        g ==> forall|k: int|
            0 <= k < old(open)@.len() ==> entry_fits(f, pos, n, #[trigger] old(open)@[k]),
        g && to != 0 ==> entry_fits(f, pos, n, (to, x, y)),
    ensures
        (final(open)@, final(closed)@) == visited(
            (old(open)@, old(closed)@),
            to,
            x as int,
            y as int,
        ),
        pushed == (to != 0 && !old(closed)@.contains(to)),
        pushed ==> final(open)@ == old(open)@.push((to, x, y)) && final(closed)@ == old(closed)@.push(to),
        !pushed ==> final(open)@ == old(open)@ && final(closed)@ == old(closed)@,
        forall|k: int| 0 <= k < final(open)@.len() ==> entry_ok(#[trigger] final(open)@[k], final(closed)@),
        final(closed)@.len() + unvisited(final(closed)@).len() == 0x1_0000_0000,
        2 * unvisited(final(closed)@).len() + final(open)@.len() <= 2 * unvisited(
            old(closed)@,
        ).len() + old(open)@.len(),
        g ==> forall|k: int|
            0 <= k < final(open)@.len() ==> entry_fits(f, pos, n, #[trigger] final(open)@[k]),
        to != 0 ==> final(closed)@.contains(to),
        forall|c: u32| old(closed)@.contains(c) ==> final(closed)@.contains(c),
        forall|c: u32|
            final(closed)@.contains(c) ==> old(closed)@.contains(c) || queued(final(open)@, c),
        forall|c: u32| queued(old(open)@, c) ==> queued(final(open)@, c),
{
    if to != 0 && !listed(closed, to) {
        proof {
            lemma_unvisited_shrinks(closed@, to);
        }
        open.push((to, x, y));
        closed.push(to);
        proof {
            let last = old(open)@.len() as int;
            assert(final(closed)@[old(closed)@.len() as int] == to);
            assert forall|c: u32| old(closed)@.contains(c) implies closed@.contains(c) by {
                let k = choose|k: int| 0 <= k < old(closed)@.len() && old(closed)@[k] == c;
                assert(closed@[k] == c);
            }
            assert forall|k: int| 0 <= k < open@.len() implies entry_ok(
                #[trigger] open@[k],
                closed@,
            ) by {
                if k < last {
                    assert(entry_ok(old(open)@[k], old(closed)@));
                }
            }
            assert(open@[last].0 == to);
            assert forall|c: u32| closed@.contains(c) implies old(closed)@.contains(c) || queued(
                open@,
                c,
            ) by {
                let k = choose|k: int| 0 <= k < closed@.len() && closed@[k] == c;
                if k < old(closed)@.len() {
                    assert(old(closed)@[k] == c);
                } else {
                    assert(open@[last].0 == c);
                }
            }
            assert forall|c: u32| queued(old(open)@, c) implies queued(open@, c) by {
                let j = choose|j: int| 0 <= j < old(open)@.len() && (#[trigger] old(open)@[j]).0 == c;
                assert(open@[j].0 == c);
            }
            if g {
                assert forall|k: int| 0 <= k < open@.len() implies entry_fits(
                    f,
                    pos,
                    n,
                    #[trigger] open@[k],
                ) by {
                    if k < last {
                        assert(entry_fits(f, pos, n, old(open)@[k]));
                    }
                }
            }
        }
        true
    } else {
        false
    }
}

impl Field {
    /// Every chunk that the flood fill has dealt with leads, by its links,
    /// only to chunks that it has dealt with too.
    spec fn closed_under_links(&self, done: Set<u32>) -> bool {
        forall|a: u32, d: Direction|
            done.contains(a) && #[trigger] self.link(a, d) != 0 ==> done.contains(self.link(a, d))
    }

    /// Every neighbour of chunk `n` on the grid that the flood fill has
    /// dealt with is linked with `n`, both ways.
    spec fn linked_round(&self, done: Set<u32>, n: u32, pos: Map<u32, (int, int)>) -> bool {
        forall|a: u32, e: Direction|
            done.contains(a) && #[trigger] adjacent(pos, n, a, e) ==> self.link(n, e) == a
                && self.link(a, e.spec_opposite()) == n
    }

    /// The links that `before` had are still there.
    pub open spec fn keeps_links_of(&self, before: Field) -> bool {
        forall|x: u32, e: Direction|
            before.link(x, e) != 0 ==> #[trigger] self.link(x, e) == before.link(x, e)
    }

    /// From a chunk that the flood fill has dealt with, the links lead down
    /// to the origin, which it has therefore dealt with too.
    proof fn lemma_origin_done(
        &self,
        before: Field,
        n: u32,
        pos: Map<u32, (int, int)>,
        done: Set<u32>,
        a: u32,
    )
        requires
            before.grown(n, pos),
            self.chunks@.dom() == before.chunks@.dom(),
            self.keeps_links_of(before),
            self.closed_under_links(done),
            done.contains(a),
            self.known(a),
        ensures
            done.contains(1),
        decreases a,
    {
        if a != 1 {
            assert(before.known(a));
            assert(before.descends(a));
            let d = if 0 < before.link(a, Direction::Left) < a {
                Direction::Left
            } else if 0 < before.link(a, Direction::Right) < a {
                Direction::Right
            } else if 0 < before.link(a, Direction::Top) < a {
                Direction::Top
            } else {
                Direction::Bottom
            };
            let b = before.link(a, d);
            assert(self.link(a, d) == b);
            assert(before.known(b));
            self.lemma_origin_done(before, n, pos, done, b);
        }
    }

    /// The flood fill has dealt with every known chunk once nothing waits.
    proof fn lemma_all_done(
        &self,
        before: Field,
        n: u32,
        pos: Map<u32, (int, int)>,
        done: Set<u32>,
        a: u32,
    )
        requires
            before.grown(n, pos),
            self.chunks@.dom() == before.chunks@.dom(),
            self.keeps_links_of(before),
            self.closed_under_links(done),
            done.contains(n),
            self.known(a),
        ensures
            done.contains(a),
        decreases a,
    {
        if a == n {
        } else if a == 1 {
            self.lemma_origin_done(before, n, pos, done, n);
        } else {
            assert(before.known(a));
            assert(before.descends(a));
            let d = if 0 < before.link(a, Direction::Left) < a {
                Direction::Left
            } else if 0 < before.link(a, Direction::Right) < a {
                Direction::Right
            } else if 0 < before.link(a, Direction::Top) < a {
                Direction::Top
            } else {
                Direction::Bottom
            };
            let b = before.link(a, d);
            assert(before.known(b));
            assert(b != n);
            self.lemma_all_done(before, n, pos, done, b);
            assert(adjacent(pos, a, b, d));
            assert(adjacent(pos, b, a, d.spec_opposite()));
            assert(before.link(b, d.spec_opposite()) == a);
            assert(self.link(b, d.spec_opposite()) == a);
        }
    }

    /// Once the flood fill round the new chunk `n` has run dry, the world
    /// is coherent again.
    proof fn lemma_flood_complete(
        &self,
        before: Field,
        n: u32,
        pos: Map<u32, (int, int)>,
        done: Set<u32>,
    )
        requires
            before.grown(n, pos),
            self.wf(),
            self.new_id == before.new_id,
            self.chunks@.dom() == before.chunks@.dom(),
            self.laid_out(pos),
            self.keeps_links_of(before),
            self.closed_under_links(done),
            self.linked_round(done, n, pos),
            done.contains(n),
            forall|x: u32, e: Direction|
                x != n ==> #[trigger] self.link(x, e) == before.link(x, e) || self.link(x, e) == n,
        ensures
            self.coherent(),
    {
        assert forall|a: u32| #[trigger] self.known(a) implies done.contains(a) by {
            self.lemma_all_done(before, n, pos, done, a);
        }
        assert forall|a: u32, b: u32, d: Direction|
            self.known(a) && self.known(b) && #[trigger] adjacent(pos, a, b, d) implies self.link(
            a,
            d,
        ) == b by {
            if a == n {
                assert(done.contains(b));
            } else if b == n {
                assert(done.contains(a));
                assert(adjacent(pos, n, a, d.spec_opposite()));
                assert(d.spec_opposite().spec_opposite() == d);
            } else {
                assert(before.known(a) && before.known(b));
                assert(before.link(a, d) == b);
                assert(b != 0);
            }
        }
        assert forall|a: u32| #[trigger] self.known(a) && a != 1 implies self.descends(a) by {
            assert(before.known(a));
            assert(before.descends(a));
        }
        assert(self.fresh()) by {
            assert forall|id: u32| #[trigger] self.known(id) implies id < self.new_id@ by {
                assert(before.known(id));
            }
        }
        assert(self.laid_out(pos) && self.complete(pos));
    }
}

impl Field {
    /// The same chunks as `before`, with the same terrain; only links may
    /// differ.
    pub open spec fn relinked(&self, before: Field) -> bool {
        &&& self.new_id == before.new_id
        &&& self.chunks@.dom() == before.chunks@.dom()
        &&& forall|x: u32| #[trigger]
            before.known(x) ==> self.chunks@[x].id == before.chunks@[x].id && self.chunks@[x].data
                == before.chunks@[x].data
    }

    /// Links chunk `n` with the chunk `id` that the search found at offset
    /// `(x, y)` from it, where that offset is a single step: each way where
    /// no link is set yet.
    fn link_found(
        &mut self,
        n: u32,
        id: u32,
        x: i64,
        y: i64,
        Ghost(pos): Ghost<Map<u32, (int, int)>>,
        Ghost(g): Ghost<bool>,
    )
        requires
            old(self).wf(),
            g ==> old(self).laid_out(pos) && old(self).known(n) && old(self).known(id) && pos[id]
                == (pos[n].0 + x, pos[n].1 + y),
        ensures
            final(self).wf(),
            final(self).relinked(*old(self)),
            forall|a: u32, d: Direction| #[trigger]
                final(self).link(a, d) == old(self).link(a, d) || (a == n && final(self).link(a, d)
                    == id) || (a == id && final(self).link(a, d) == n),
            final(self).keeps_links_of(*old(self)),
            final(self).links() == with_found(old(self).links(), n, id, x as int, y as int),
            g ==> final(self).laid_out(pos),
            g ==> forall|e: Direction| #[trigger]
                adjacent(pos, n, id, e) ==> final(self).link(n, e) == id && final(self).link(
                    id,
                    e.spec_opposite(),
                ) == n,
    {
        match side_of(x, y) {
            Some(e) => {
                proof {
                    if g {
                        assert(adjacent(pos, n, id, e));
                        assert(adjacent(pos, id, n, e.spec_opposite()));
                        let b = self.link(n, e);
                        if b != 0 {
                            assert(adjacent(pos, n, b, e));
                            assert(self.known(b));
                            assert(b == id);
                        }
                        let b2 = self.link(id, e.spec_opposite());
                        if b2 != 0 {
                            assert(adjacent(pos, id, b2, e.spec_opposite()));
                            assert(self.known(b2));
                            assert(b2 == n);
                        }
                    }
                }
                self.set_link(n, e, id);
                let ghost half = *self;
                self.set_link(id, e.opposite(), n);
                proof {
                    assert(half.links() =~= with_link(old(self).links(), n, e, id));
                    assert(self.links() =~= with_link(half.links(), id, e.spec_opposite(), n));
                    assert forall|c: u32| #[trigger] self.known(c) implies c != 0
                        && self.chunks@[c].id@ == c by {
                        assert(half.known(c));
                        assert(old(self).known(c));
                    }
                    assert forall|c: u32| #[trigger] old(self).known(c) implies self.chunks@[c].id
                        == old(self).chunks@[c].id && self.chunks@[c].data == old(self).chunks@[c].data by {
                        assert(half.known(c));
                    }
                    assert forall|a: u32, d: Direction| #[trigger]
                        self.link(a, d) == old(self).link(a, d) || (a == n && self.link(a, d) == id)
                            || (a == id && self.link(a, d) == n) by {
                        assert(self.link(a, d) == half.link(a, d) || (a == id && self.link(a, d)
                            == n));
                        assert(half.link(a, d) == old(self).link(a, d) || (a == n && half.link(a, d)
                            == id));
                    }
                    assert forall|a: u32, d: Direction| old(self).link(a, d)
                        != 0 implies #[trigger] self.link(a, d) == old(self).link(a, d) by {
                        assert(half.link(a, d) == old(self).link(a, d));
                    }
                    if g {
                        assert(half.known(id));
                        assert(half.link(n, e) == id);
                        assert(self.link(n, e) == id) by {
                            if n == id {
                                assert(pos[id] == pos[n]);
                            }
                        }
                        assert(self.link(id, e.spec_opposite()) == n);
                        assert forall|a: u32, d: Direction| #[trigger]
                            self.link(a, d) != 0 implies self.known(self.link(a, d)) && adjacent(
                            pos,
                            a,
                            self.link(a, d),
                            d,
                        ) by {
                            if self.link(a, d) == old(self).link(a, d) {
                                assert(old(self).known(old(self).link(a, d)));
                            }
                        }
                        assert forall|a: u32, b: u32|
                            #![trigger self.known(a), self.known(b)]
                            self.known(a) && self.known(b) && pos[a] == pos[b] implies a == b by {
                            assert(old(self).known(a) && old(self).known(b));
                        }
                        assert forall|a: u32| #[trigger] self.known(a) implies reach(pos[a])
                            < a by {
                            assert(old(self).known(a));
                        }
                        assert forall|e2: Direction| #[trigger]
                            adjacent(pos, n, id, e2) implies self.link(n, e2) == id && self.link(
                            id,
                            e2.spec_opposite(),
                        ) == n by {
                            assert(e2 == e);
                        }
                    }
                }
            },
            None => {
                proof {
                    if g {
                        assert forall|e2: Direction| #[trigger]
                            adjacent(pos, n, id, e2) implies self.link(n, e2) == id && self.link(
                            id,
                            e2.spec_opposite(),
                        ) == n by {
                            assert(x == e2.dx() && y == e2.dy());
                        }
                    }
                }
            },
        }
    }

    /// Puts on the stack each chunk that chunk `id`, found at offset
    /// `(x, y)`, is linked to and that the search has not met before.
    fn explore(
        &self,
        open: &mut Vec<(u32, i64, i64)>,
        closed: &mut Vec<u32>,
        id: u32,
        x: i64,
        y: i64,
        Ghost(before): Ghost<Field>,
        Ghost(pos): Ghost<Map<u32, (int, int)>>,
        Ghost(n): Ghost<u32>,
        Ghost(g): Ghost<bool>,
    )
        requires
            forall|k: int|
                0 <= k < old(open)@.len() ==> entry_ok(#[trigger] old(open)@[k], old(closed)@),
            reach((x as int, y as int)) < old(closed)@.len(),
            old(closed)@.len() + unvisited(old(closed)@).len() == 0x1_0000_0000,
            g ==> forall|k: int|
                0 <= k < old(open)@.len() ==> entry_fits(before, pos, n, #[trigger] old(open)@[k]),
            g ==> self.laid_out(pos) && self.chunks@.dom() == before.chunks@.dom() && self.known(id)
                && pos[id] == (pos[n].0 + x, pos[n].1 + y),
        ensures
            forall|k: int|
                0 <= k < final(open)@.len() ==> entry_ok(#[trigger] final(open)@[k], final(closed)@),
            final(closed)@.len() + unvisited(final(closed)@).len() == 0x1_0000_0000,
            2 * unvisited(final(closed)@).len() + final(open)@.len() <= 2 * unvisited(
                old(closed)@,
            ).len() + old(open)@.len(),
            g ==> forall|k: int|
                0 <= k < final(open)@.len() ==> entry_fits(before, pos, n, #[trigger] final(open)@[k]),
            (final(open)@, final(closed)@) == explored(
                self.links(),
                (old(open)@, old(closed)@),
                id,
                x as int,
                y as int,
            ),
            forall|d: Direction| #[trigger]
                self.link(id, d) != 0 ==> final(closed)@.contains(self.link(id, d)),
            forall|c: u32| old(closed)@.contains(c) ==> final(closed)@.contains(c),
            forall|c: u32|
                final(closed)@.contains(c) ==> old(closed)@.contains(c) || queued(final(open)@, c),
            forall|c: u32| queued(old(open)@, c) ==> queued(final(open)@, c),
    {
        let related: Option<[u32; 4]> = match self.chunks.get(&id) {
            Some(c) => Some(c.related),
            None => None,
        };
        match related {
            Some(r) => {
                proof {
                    lemma_unvisited_finite(closed@);
                    assert(r[0] == self.link(id, Direction::Left));
                    assert(r[1] == self.link(id, Direction::Right));
                    assert(r[2] == self.link(id, Direction::Top));
                    assert(r[3] == self.link(id, Direction::Bottom));
                    assert(self.known(id));
                    assert(self.links().contains_key((id, Direction::Left)));
                    assert(r[0] == link_in(self.links(), id, Direction::Left));
                    assert(r[1] == link_in(self.links(), id, Direction::Right));
                    assert(r[2] == link_in(self.links(), id, Direction::Top));
                    assert(r[3] == link_in(self.links(), id, Direction::Bottom));
                    if g {
                        assert(r[0] != 0 ==> before.known(r[0]) && adjacent(
                            pos,
                            id,
                            r[0],
                            Direction::Left,
                        ));
                        assert(r[1] != 0 ==> before.known(r[1]) && adjacent(
                            pos,
                            id,
                            r[1],
                            Direction::Right,
                        ));
                        assert(r[2] != 0 ==> before.known(r[2]) && adjacent(
                            pos,
                            id,
                            r[2],
                            Direction::Top,
                        ));
                        assert(r[3] != 0 ==> before.known(r[3]) && adjacent(
                            pos,
                            id,
                            r[3],
                            Direction::Bottom,
                        ));
                    }
                }
                visit(open, closed, r[0], x - 1, y, Ghost(before), Ghost(pos), Ghost(n), Ghost(g));
                proof {
                    lemma_unvisited_finite(closed@);
                }
                visit(open, closed, r[1], x + 1, y, Ghost(before), Ghost(pos), Ghost(n), Ghost(g));
                proof {
                    lemma_unvisited_finite(closed@);
                }
                visit(open, closed, r[2], x, y - 1, Ghost(before), Ghost(pos), Ghost(n), Ghost(g));
                proof {
                    lemma_unvisited_finite(closed@);
                }
                visit(open, closed, r[3], x, y + 1, Ghost(before), Ghost(pos), Ghost(n), Ghost(g));
                proof {
                    assert forall|d: Direction| #[trigger] self.link(id, d) != 0 implies closed@.contains(
                        self.link(id, d),
                    ) by {
                        assert(d == Direction::Left || d == Direction::Right || d == Direction::Top
                            || d == Direction::Bottom);
                    }
                }
            },
            None => {
                proof {
                    assert(!self.links().contains_key((id, Direction::Left)));
                }
            },
        }
    }

    /// Links the chunk `new_id` with its neighbours. Starting at the chunk,
    /// the search follows the links of the known chunks and keeps count of
    /// the steps taken in each direction; every chunk that it finds one
    /// step from the start is linked with the chunk, each way where no link
    /// is set yet. Each chunk is looked at once.
    fn compute_related_chunks(&mut self, new_id: ChunkId)
        requires
            old(self).wf(),
        ensures
            final(self).wf(),
            final(self).relinked(*old(self)),
            forall|x: u32, e: Direction|
                x != new_id@ ==> #[trigger] final(self).link(x, e) == old(self).link(x, e) || final(self).link(x, e) == new_id@,
            final(self).keeps_links_of(*old(self)),
            final(self).links() == flooded(
                old(self).links(),
                new_id@,
                seq![(new_id@, 0i64, 0i64)],
                seq![new_id@],
            ),
            (exists|pos: Map<u32, (int, int)>| old(self).grown(new_id@, pos)) ==> final(self).coherent(),
    {
        let n: u32 = new_id.get();
        let ghost before = *self;
        let ghost g = exists|pos: Map<u32, (int, int)>| before.grown(n, pos);
        let ghost pos = choose|pos: Map<u32, (int, int)>| before.grown(n, pos);
        let ghost mut done: Set<u32> = Set::empty();
        let mut open: Vec<(u32, i64, i64)> = Vec::new();
        open.push((n, 0, 0));
        let mut closed: Vec<u32> = Vec::new();
        closed.push(n);
        proof {
            lemma_unvisited_first(n);
            assert(closed@ =~= seq![n]);
            assert(open@ =~= seq![(n, 0i64, 0i64)]);
            assert(closed@[0] == n);
            assert(open@[0].0 == n);
            assert(queued(open@, n));
            assert forall|c: u32| closed@.contains(c) implies queued(open@, c) by {
                let k = choose|k: int| 0 <= k < closed@.len() && closed@[k] == c;
            }
        }
        while open.len() > 0
            invariant
                n != 0,
                self.wf(),
                self.relinked(before),
                forall|x: u32, e: Direction|
                    x != n ==> #[trigger] self.link(x, e) == before.link(x, e) || self.link(x, e)
                        == n,
                forall|k: int| 0 <= k < open@.len() ==> entry_ok(#[trigger] open@[k], closed@),
                closed@.len() + unvisited(closed@).len() == 0x1_0000_0000,
                closed@.contains(n),
                flooded(self.links(), n, open@, closed@) == flooded(
                    before.links(),
                    n,
                    seq![(n, 0i64, 0i64)],
                    seq![n],
                ),
                g ==> before.grown(n, pos),
                g ==> self.laid_out(pos),
                self.keeps_links_of(before),
                g ==> forall|k: int|
                    0 <= k < open@.len() ==> entry_fits(before, pos, n, #[trigger] open@[k]),
                g ==> forall|c: u32|
                    closed@.contains(c) ==> done.contains(c) || queued(open@, c),
                g ==> forall|a: u32| done.contains(a) ==> self.known(a),
                g ==> forall|a: u32, d: Direction|
                    done.contains(a) && #[trigger] self.link(a, d) != 0 ==> closed@.contains(
                        self.link(a, d),
                    ),
                g ==> self.linked_round(done, n, pos),
            decreases 2 * unvisited(closed@).len() + open@.len(),
        {
            let ghost open_before = open@;
            let ghost links_before = self.links();
            let ghost listed_before = closed@;
            let top: (u32, i64, i64) = match open.pop() {
                Some(top) => top,
                None => (n, 0, 0),
            };
            let id: u32 = top.0;
            let x: i64 = top.1;
            let y: i64 = top.2;
            proof {
                lemma_unvisited_finite(closed@);
                assert(open@ =~= open_before.drop_last());
                assert(top == open_before[open_before.len() - 1]);
                assert(entry_ok(top, closed@));
                assert forall|k: int| 0 <= k < open@.len() implies entry_ok(
                    #[trigger] open@[k],
                    closed@,
                ) by {
                    assert(open@[k] == open_before[k]);
                }
                if g {
                    assert(entry_fits(before, pos, n, top));
                    assert forall|k: int| 0 <= k < open@.len() implies entry_fits(
                        before,
                        pos,
                        n,
                        #[trigger] open@[k],
                    ) by {
                        assert(open@[k] == open_before[k]);
                    }
                    assert forall|c: u32| closed@.contains(c) implies done.contains(c) || c == id
                        || queued(open@, c) by {
                        if !done.contains(c) {
                            let j = choose|j: int|
                                0 <= j < open_before.len() && (#[trigger] open_before[j]).0 == c;
                            if j < open@.len() {
                                assert(open@[j].0 == c);
                            }
                        }
                    }
                }
            }
            let ghost unlinked = *self;
            let ghost closed_before = closed@;
            self.link_found(n, id, x, y, Ghost(pos), Ghost(g));
            proof {
                assert(self.relinked(before)) by {
                    assert forall|c: u32| #[trigger] before.known(c) implies self.chunks@[c].id
                        == before.chunks@[c].id && self.chunks@[c].data
                        == before.chunks@[c].data by {
                        assert(unlinked.known(c));
                    }
                }
                assert forall|a: u32, e: Direction| a != n implies #[trigger] self.link(a, e)
                    == before.link(a, e) || self.link(a, e) == n by {
                    assert(self.link(a, e) == unlinked.link(a, e) || self.link(a, e) == n);
                    assert(unlinked.link(a, e) == before.link(a, e) || unlinked.link(a, e) == n);
                }
                assert(self.keeps_links_of(before)) by {
                    assert forall|a: u32, d: Direction| before.link(a, d)
                        != 0 implies #[trigger] self.link(a, d) == before.link(a, d) by {
                        assert(unlinked.link(a, d) == before.link(a, d));
                    }
                }
            }
            self.explore(
                &mut open,
                &mut closed,
                id,
                x,
                y,
                Ghost(before),
                Ghost(pos),
                Ghost(n),
                Ghost(g),
            );
            proof {
                let found = with_found(links_before, n, id, x as int, y as int);
                let search = explored(
                    found,
                    (open_before.drop_last(), listed_before),
                    id,
                    x as int,
                    y as int,
                );
                assert(self.links() == found);
                assert((open@, closed@) == search);
                lemma_flooded_unfold(links_before, n, open_before, listed_before);
            }
            proof {
                let ghost done_before = done;
                done = done.insert(id);
                if g {
                    assert forall|a: u32, d: Direction|
                        done.contains(a) && #[trigger] self.link(a, d) != 0 implies closed@.contains(
                        self.link(a, d),
                    ) by {
                        if a != id {
                            assert(done_before.contains(a));
                            if self.link(a, d) == unlinked.link(a, d) {
                                assert(closed_before.contains(unlinked.link(a, d)));
                            } else {
                                assert(self.link(a, d) == id || self.link(a, d) == n);
                                assert(closed_before.contains(id));
                            }
                        }
                    }
                    assert(self.linked_round(done, n, pos)) by {
                        assert forall|a: u32, e: Direction|
                            done.contains(a) && #[trigger] adjacent(pos, n, a, e) implies self.link(
                            n,
                            e,
                        ) == a && self.link(a, e.spec_opposite()) == n by {
                            if a != id {
                                assert(done_before.contains(a));
                                assert(unlinked.known(a));
                                assert(unlinked.link(n, e) == a);
                                assert(unlinked.link(a, e.spec_opposite()) == n);
                            }
                        }
                    }
                }
            }
        }
        proof {
            lemma_flooded_unfold(self.links(), n, open@, closed@);
        }
        proof {
            if g {
                assert(done.contains(n)) by {
                    if !done.contains(n) {
                        let j = choose|j: int| 0 <= j < open@.len() && (#[trigger] open@[j]).0 == n;
                    }
                }
                assert(self.closed_under_links(done)) by {
                    assert forall|a: u32, d: Direction|
                        done.contains(a) && #[trigger] self.link(a, d) != 0 implies done.contains(
                        self.link(a, d),
                    ) by {
                        let c = self.link(a, d);
                        assert(closed@.contains(c));
                        if !done.contains(c) {
                            let j = choose|j: int|
                                0 <= j < open@.len() && (#[trigger] open@[j]).0 == c;
                        }
                    }
                }
                self.lemma_flood_complete(before, n, pos, done);
            }
        }
    }
}

/// The table of links of the world `before` with `chunk` put in place of
/// whatever chunk had its number.
pub open spec fn filed_links(before: Field, chunk: Chunk) -> Map<(u32, Direction), u32> {
    Map::new(
        |k: (u32, Direction)| k.0 == chunk.id@ || before.known(k.0),
        |k: (u32, Direction)|
            if k.0 == chunk.id@ {
                chunk.link(k.1)
            } else {
                before.link(k.0, k.1)
            },
    )
}

/// What filing a chunk from elsewhere does: `chunk` is in the world `after`
/// under its number, every other chunk keeps its terrain, and `after` gives
/// out the same number next as `before`. Unless links were asked for
/// (`linked`), nothing else differs; where they were, the links are those
/// that the search round the chunk ends with. In particular no link that
/// was set is changed, and a link of another chunk that was not set is
/// either still not set or leads to the chunk filed.
pub open spec fn filed(before: Field, chunk: Chunk, linked: bool, after: Field) -> bool {
    &&& after.wf()
    &&& after.new_id == before.new_id
    &&& after.chunks@.dom() == before.chunks@.dom().insert(chunk.id@)
    &&& after.chunks@[chunk.id@].id == chunk.id
    &&& after.chunks@[chunk.id@].data == chunk.data
    &&& forall|x: u32| #[trigger]
        before.known(x) && x != chunk.id@ ==> after.chunks@[x].id == before.chunks@[x].id
            && after.chunks@[x].data == before.chunks@[x].data
    &&& !linked ==> after.chunks@ == before.chunks@.insert(chunk.id@, chunk)
    &&& linked ==> after.links() == flooded(
        filed_links(before, chunk),
        chunk.id@,
        seq![(chunk.id@, 0i64, 0i64)],
        seq![chunk.id@],
    )
    &&& forall|x: u32, e: Direction|
        x != chunk.id@ ==> #[trigger] after.link(x, e) == before.link(x, e) || (before.link(x, e)
            == 0 && after.link(x, e) == chunk.id@)
    &&& forall|e: Direction|
        chunk.link(e) != 0 ==> #[trigger] after.link(chunk.id@, e) == chunk.link(e)
}

/// What one call of `generate_chunk` does: `made` and the world `after`,
/// from the world `before`, the parent chunk `id` and the direction `d`.
/// Where the parent has a neighbour there already, nothing is made and
/// nothing changes. Otherwise the new chunk gets the next number, is
/// filled with terrain and linked with the parent both ways; no link that
/// was there is lost, and whatever other link changed now leads to the
/// new chunk.
pub open spec fn generated(
    before: Field,
    id: u32,
    d: Direction,
    after: Field,
    made: Option<ChunkId>,
) -> bool {
    match made {
        None => before.link(id, d) != 0 && after.chunks@ == before.chunks@ && after.new_id
            == before.new_id,
        Some(n) => {
            &&& before.link(id, d) == 0
            &&& n == before.new_id
            &&& after.new_id@ == n@ + 1
            &&& after.chunks@.dom() == before.chunks@.dom().insert(n@)
            &&& after.chunks@[n@].id == n
            &&& after.chunks@[n@].has_terrain_of(n@)
            &&& forall|x: u32| #[trigger]
                before.known(x) ==> after.chunks@[x].id == before.chunks@[x].id
                    && after.chunks@[x].data == before.chunks@[x].data
            &&& after.link(n@, d.spec_opposite()) == id
            &&& after.link(id, d) == n@
            &&& after.keeps_links_of(before)
            &&& forall|x: u32, e: Direction|
                x != n@ ==> #[trigger] after.link(x, e) == before.link(x, e) || after.link(x, e)
                    == n@
        },
    }
}

impl Field {
    /// The world at its start: the origin chunk, numbered 1, alone and
    /// without neighbours.
    pub fn new() -> (field: Field)
        ensures
            field.new_id@ == 2,
            field.chunks@.dom() == set![1u32],
            field.chunks@[1].id@ == 1,
            field.chunks@[1].unlinked(),
            field.chunks@[1].has_terrain_of(1),
            field.coherent(),
            field.reciprocal(),
    {
        let id = ChunkId::min();
        let mut chunks: HashMap<u32, Chunk> = HashMap::new();
        chunks.insert(1, Chunk::new(id));
        let next = match id.checked_add(1) {
            Some(next) => next,
            None => id,
        };
        let field = Field { new_id: next, chunks };
        proof {
            assert(field.chunks@.dom() =~= set![1u32]);
            let pos = Map::<u32, (int, int)>::empty().insert(1u32, (0int, 0int));
            assert(field.laid_out(pos));
            assert(field.complete(pos));
            field.lemma_coherent_reciprocal();
        }
        field
    }

    /// Generates the neighbour of chunk `id` in direction `direction`,
    /// unless there is one already, and links it with every known chunk
    /// that lies next to it. Returns the number of the new chunk.
    pub fn generate_chunk(&mut self, id: ChunkId, direction: Direction) -> (made: Option<ChunkId>)
        requires
            old(self).coherent(),
            old(self).known(id@),
            old(self).new_id@ < u32::MAX,
        ensures
            generated(*old(self), id@, direction, *final(self), made),
            final(self).coherent(),
            final(self).reciprocal(),
    {
        let parent: u32 = id.get();
        if self.link_of(parent, direction) != 0 {
            proof {
                self.lemma_coherent_reciprocal();
            }
            return None;
        }
        let new_id = self.new_id;
        let n: u32 = new_id.get();
        self.new_id = match new_id.checked_add(1) {
            Some(next) => next,
            None => new_id,
        };
        let terrain = Chunk::new(new_id);
        let mut related: [u32; 4] = terrain.related;
        related[direction.opposite().to_number()] = parent;
        let new_chunk = Chunk { id: terrain.id, related, data: terrain.data };
        self.chunks.insert(n, new_chunk);
        let ghost added = *self;
        proof {
            let first = *old(self);
            let pos0 = choose|pos: Map<u32, (int, int)>| #[trigger]
                first.laid_out(pos) && first.complete(pos);
            let pos = pos0.insert(n, moved(pos0[parent], direction));
            assert(!first.known(n));
            assert(first.known(parent));
            assert(parent != n);
            assert forall|a: u32, e: Direction| #[trigger] added.link(a, e) == (if a == n {
                if e == direction.spec_opposite() {
                    parent
                } else {
                    0
                }
            } else {
                first.link(a, e)
            }) by {}
            assert forall|a: u32| #[trigger] added.known(a) implies a != 0 && added.chunks@[a].id@
                == a by {
                if a != n {
                    assert(first.known(a));
                }
            }
            assert forall|a: u32| #[trigger] added.known(a) implies a <= n by {
                if a != n {
                    assert(first.known(a));
                }
            }
            assert forall|a: u32| #[trigger] added.known(a) && a != 1 implies added.descends(
                a,
            ) by {
                if a != n {
                    assert(first.known(a));
                    assert(first.descends(a));
                } else {
                    assert(added.link(n, direction.spec_opposite()) == parent);
                }
            }
            assert forall|a: u32, e: Direction| #[trigger] added.link(a, e) != 0 implies added.known(
                added.link(a, e),
            ) && adjacent(pos, a, added.link(a, e), e) by {
                if a != n {
                    let b = first.link(a, e);
                    assert(first.known(b));
                    assert(adjacent(pos0, a, b, e));
                    assert(first.known(a));
                }
            }
            assert forall|a: u32, b: u32|
                #![trigger added.known(a), added.known(b)]
                added.known(a) && added.known(b) && pos[a] == pos[b] implies a == b by {
                if a == n && b != n {
                    assert(first.known(b));
                    assert(adjacent(pos0, parent, b, direction));
                } else if b == n && a != n {
                    assert(first.known(a));
                    assert(adjacent(pos0, parent, a, direction));
                } else if a != n && b != n {
                    assert(first.known(a) && first.known(b));
                }
            }
            assert forall|a: u32| #[trigger] added.known(a) implies reach(pos[a]) < a by {
                if a != n {
                    assert(first.known(a));
                } else {
                    assert(reach(pos0[parent]) < parent);
                }
            }
            assert forall|a: u32, b: u32, e: Direction|
                added.known(a) && added.known(b) && a != n && b != n && #[trigger] adjacent(
                    pos,
                    a,
                    b,
                    e,
                ) implies added.link(a, e) == b by {
                assert(first.known(a) && first.known(b));
                assert(adjacent(pos0, a, b, e));
            }
            assert forall|a: u32, e: Direction| a != n implies #[trigger] added.link(a, e)
                != n by {
                if first.link(a, e) != 0 {
                    assert(first.known(first.link(a, e)));
                }
            }
            assert(added.grown(n, pos));
        }
        self.compute_related_chunks(new_id);
        proof {
            let first = *old(self);
            self.lemma_coherent_reciprocal();
            assert(self.chunks@.dom() =~= first.chunks@.dom().insert(n));
            assert(added.link(n, direction.spec_opposite()) == parent);
            assert(self.link(n, direction.spec_opposite()) == parent);
            assert(direction.spec_opposite().spec_opposite() == direction);
            assert forall|x: u32| #[trigger] first.known(x) implies self.chunks@[x].id
                == first.chunks@[x].id && self.chunks@[x].data == first.chunks@[x].data by {
                assert(added.known(x));
            }
            assert forall|x: u32, e: Direction| first.link(x, e) != 0 implies #[trigger] self.link(
                x,
                e,
            ) == first.link(x, e) by {
                assert(added.link(x, e) == first.link(x, e));
            }
            assert forall|x: u32, e: Direction| x != n implies #[trigger] self.link(x, e)
                == first.link(x, e) || self.link(x, e) == n by {
                assert(added.link(x, e) == first.link(x, e));
            }
            assert(added.known(n));
        }
        Some(new_id)
    }

    /// Files a chunk that was generated elsewhere, in place of any chunk
    /// with the same number, and on request links it with the neighbours
    /// that the known chunks lead to.
    pub fn set_existed_chunk(&mut self, chunk: Chunk, compute_related: bool)
        requires
            old(self).wf(),
        ensures
            filed(*old(self), chunk, compute_related, *final(self)),
    {
        let id = chunk.id;
        let n: u32 = id.get();
        self.chunks.insert(n, chunk);
        let ghost inserted = *self;
        proof {
            assert forall|a: u32| #[trigger] inserted.known(a) implies a != 0 && inserted.chunks@[a].id@
                == a by {
                if a != id@ {
                    assert(old(self).known(a));
                }
            }
        }
        if compute_related {
            self.compute_related_chunks(id);
            proof {
                assert(inserted.known(id@));
                assert(inserted.links() =~= filed_links(*old(self), chunk));
                assert forall|x: u32| #[trigger] old(self).known(x) && x != chunk.id@ implies self.chunks@[x].id
                    == old(self).chunks@[x].id && self.chunks@[x].data == old(self).chunks@[x].data by {
                    assert(inserted.known(x));
                }
                assert forall|x: u32, e: Direction| x != chunk.id@ implies #[trigger] self.link(
                    x,
                    e,
                ) == old(self).link(x, e) || (old(self).link(x, e) == 0 && self.link(x, e)
                    == chunk.id@) by {
                    assert(inserted.link(x, e) == old(self).link(x, e));
                }
                assert forall|e: Direction| chunk.link(e) != 0 implies #[trigger] self.link(
                    chunk.id@,
                    e,
                ) == chunk.link(e) by {
                    assert(inserted.link(chunk.id@, e) == chunk.link(e));
                }
            }
        }
    }
}

/// Generating twice from the same chunk in the same direction makes a chunk
/// at most the first time: the first call makes one exactly where the place
/// was free, the second call makes none and changes nothing, and the number
/// of chunks grows by one where a chunk was made.
pub proof fn lemma_generate_twice(
    first: Field,
    id: u32,
    d: Direction,
    second: Field,
    made: Option<ChunkId>,
    third: Field,
    made_again: Option<ChunkId>,
)
    requires
        first.coherent(),
        first.known(id),
        generated(first, id, d, second, made),
        generated(second, id, d, third, made_again),
    ensures
        made is Some <==> first.link(id, d) == 0,
        made_again is None,
        third.chunks@ == second.chunks@,
        third.new_id == second.new_id,
        made is Some ==> second.chunks@.dom().len() == first.chunks@.dom().len() + 1,
        made is None ==> second.chunks@ == first.chunks@,
{
    if let Some(n) = made {
        assert(!first.known(n@));
        assert(first.chunks@.dom().finite());
    }
}

} // verus!
