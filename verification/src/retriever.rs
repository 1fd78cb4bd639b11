//! The chunk retrieval policy of a client: which neighbours of the player's
//! chunk to ask the server for.
//!
//! Each request is made once per throttle window; whoever keeps the time
//! resets the policy when the window has elapsed, so that a request whose
//! reply was lost is made again.

use crate::chunk::ChunkId;
use crate::direction::Direction;
use crate::field::Field;
use vstd::prelude::*;

verus! {

/// The request that direction `d` calls for, seen from chunk `chunk`: the
/// neighbour on that side where it is missing; else, where that neighbour
/// lacks its own neighbour a quarter turn further round, that one; else
/// none. A request names the chunk to generate from and the direction.
pub open spec fn wanted(field: Field, chunk: u32, d: Direction) -> Option<(u32, Direction)> {
    let beside = field.step(chunk, d);
    if beside == 0 {
        Some((chunk, d))
    } else if field.step(beside, d.spec_turn_left()) == 0 {
        Some((beside, d.spec_turn_left()))
    } else {
        None
    }
}

/// The requests made for the first `n` directions, in order, and the
/// requests on record after them, where `requested` were on record before:
/// each direction's request is made unless it is on record.
pub open spec fn planned(field: Field, chunk: u32, requested: Seq<(u32, Direction)>, n: int) -> (
    Seq<(u32, Direction)>,
    Seq<(u32, Direction)>,
)
    decreases n,
{
    if n <= 0 {
        (Seq::empty(), requested)
    } else {
        let (made, record) = planned(field, chunk, requested, n - 1);
        match wanted(field, chunk, Direction::of_index(n - 1)) {
            Some(request) => if record.contains(request) {
                (made, record)
            } else {
                (made.push(request), record.push(request))
            },
            None => (made, record),
        }
    }
}

/// The requests as plain values.
pub open spec fn requests_view(requests: Seq<(ChunkId, Direction)>) -> Seq<(u32, Direction)> {
    requests.map_values(|r: (ChunkId, Direction)| (r.0@, r.1))
}

/// The requests made in the current throttle window.
pub struct ChunkRetriever {
    pub requested: Vec<(u32, Direction)>,
}

impl ChunkRetriever {
    /// A policy with nothing on record.
    pub fn new() -> (retriever: ChunkRetriever)
        ensures
            retriever.requested@.len() == 0,
    {
        ChunkRetriever { requested: Vec::new() }
    }

    /// Forgets the requests on record: a new throttle window begins.
    pub fn reset(&mut self)
        ensures
            final(self).requested@.len() == 0,
    {
        self.requested.clear();
    }

    /// Whether `request` is on record.
    fn on_record(&self, chunk: u32, d: Direction) -> (found: bool)
        ensures
            found == self.requested@.contains((chunk, d)),
    {
        let mut i: usize = 0;
        while i < self.requested.len()
            invariant
                i <= self.requested@.len(),
                forall|k: int| 0 <= k < i ==> self.requested@[k] != (chunk, d),
            decreases self.requested.len() - i,
        {
            let r = self.requested[i];
            if r.0 == chunk && r.1 == d {
                return true;
            }
            i = i + 1;
        }
        false
    }

    /// The request that direction `d` calls for, seen from chunk `chunk_id`.
    fn want(field: &Field, chunk_id: ChunkId, d: Direction) -> (request: Option<
        (ChunkId, Direction),
    >)
        requires
            field.wf(),
            field.known(chunk_id@),
        ensures
            match wanted(*field, chunk_id@, d) {
                Some(w) => request matches Some(r) && r.0@ == w.0 && r.1 == w.1,
                None => request is None,
            },
    {
        proof {
            assert(!field.known(0));
        }
        let beside = match field.related(chunk_id, d) {
            Some(to) => match field.chunk(to) {
                Some(_) => Some(to),
                None => None,
            },
            None => None,
        };
        match beside {
            None => Some((chunk_id, d)),
            Some(to) => {
                let turned = d.turn_left();
                let further = match field.related(to, turned) {
                    Some(beyond) => field.chunk(beyond).is_some(),
                    None => false,
                };
                if further {
                    None
                } else {
                    Some((to, turned))
                }
            },
        }
    }

    /// Decides what to ask the server for while the player stands in chunk
    /// `chunk_id`, and puts it on record. Nothing is asked where that chunk
    /// is itself unknown.
    pub fn plan(&mut self, field: &Field, chunk_id: ChunkId) -> (requests: Vec<
        (ChunkId, Direction),
    >)
        requires
            field.wf(),
        ensures
            field.known(chunk_id@) ==> requests_view(requests@) == planned(
                *field,
                chunk_id@,
                old(self).requested@,
                4,
            ).0 && final(self).requested@ == planned(*field, chunk_id@, old(self).requested@, 4).1,
            !field.known(chunk_id@) ==> requests@.len() == 0 && final(self).requested == old(self).requested,
    {
        let mut requests: Vec<(ChunkId, Direction)> = Vec::new();
        if field.chunk(chunk_id).is_none() {
            return requests;
        }
        let mut i: usize = 0;
        proof {
            assert(requests_view(requests@) =~= Seq::empty());
        }
        while i < 4
            invariant
                i <= 4,
                field.wf(),
                field.known(chunk_id@),
                requests_view(requests@) == planned(
                    *field,
                    chunk_id@,
                    old(self).requested@,
                    i as int,
                ).0,
                self.requested@ == planned(*field, chunk_id@, old(self).requested@, i as int).1,
            decreases 4 - i,
        {
            let d = Direction::from_number(i);
            match Self::want(field, chunk_id, d) {
                Some(request) => {
                    if !self.on_record(request.0.get(), request.1) {
                        let ghost made = requests@;
                        requests.push(request);
                        self.requested.push((request.0.get(), request.1));
                        proof {
                            assert(requests_view(requests@) =~= requests_view(made).push(
                                (request.0@, request.1),
                            ));
                        }
                    }
                },
                None => {},
            }
            i = i + 1;
        }
        requests
    }
}

} // verus!
