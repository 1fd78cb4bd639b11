//! The session registry of the unreliable channel: which peer address
//! speaks for which client, with the loss statistics of what each peer sent
//! and the numbering of what is sent to it.

use crate::model::{ClientMessage, ClientUdpMessage, ServerMessage, ServerUdpMessage};
use crate::udp_stat::{Sequence, SequenceGen, UdpStat};
use vstd::prelude::*;

verus! {

/// The address of a peer, as plain numbers: the host (an IPv4 address as
/// its IPv4-mapped IPv6 form) and the port.
#[derive(Clone, Copy, Debug, PartialEq, Eq, Structural, Hash)]
pub struct PeerAddr {
    pub host: u128,
    pub port: u16,
}

/// One client on the unreliable channel.
#[derive(Clone, Copy, Debug)]
pub struct Connection {
    pub id: u64,
    pub addr: PeerAddr,
    pub stat: UdpStat,
    pub sequence: SequenceGen,
}

impl Connection {
    /// The session of client `id` at address `addr`: nothing received yet,
    /// and the first datagram to it will be numbered 0.
    pub fn new(id: u64, addr: PeerAddr) -> (c: Connection)
        ensures
            c.id == id,
            c.addr == addr,
            c.stat.sent == 0,
            c.stat.received == 0,
            c.stat.last_sequence == 0xffff,
            c.sequence.last() == 0xffff,
    {
        Connection { id, addr, stat: UdpStat::new(), sequence: SequenceGen::default() }
    }

    /// Accounts for a datagram numbered `sequence` from this client. The
    /// statistics stand still once their counters have reached the end of
    /// their range.
    pub fn update(&mut self, sequence: Sequence)
        ensures
            final(self).id == old(self).id,
            final(self).addr == old(self).addr,
            final(self).sequence == old(self).sequence,
            old(self).stat.sent_after(sequence) <= u64::MAX ==> final(self).stat.sent as int == old(self).stat.sent_after(sequence) && final(self).stat.received as int == old(self).stat.received_after(sequence) && final(self).stat.last_sequence == sequence,
            old(self).stat.sent_after(sequence) > u64::MAX ==> final(self).stat == old(self).stat,
    {
        let mut stat = self.stat;
        stat.checked_update(sequence);
        self.stat = stat;
    }
}

/// The sessions other than those of client `id` and of address `addr`.
pub open spec fn unbound(sessions: Seq<Connection>, id: u64, addr: PeerAddr) -> Seq<Connection>
    decreases sessions.len(),
{
    if sessions.len() == 0 {
        Seq::empty()
    } else if sessions.last().id == id || sessions.last().addr == addr {
        unbound(sessions.drop_last(), id, addr)
    } else {
        unbound(sessions.drop_last(), id, addr).push(sessions.last())
    }
}

/// The sessions other than those of client `id`.
pub open spec fn forgotten(sessions: Seq<Connection>, id: u64) -> Seq<Connection>
    decreases sessions.len(),
{
    if sessions.len() == 0 {
        Seq::empty()
    } else if sessions.last().id == id {
        forgotten(sessions.drop_last(), id)
    } else {
        forgotten(sessions.drop_last(), id).push(sessions.last())
    }
}

/// The place of the first session at address `addr`, or the number of
/// sessions where there is none.
pub open spec fn place_of_addr(sessions: Seq<Connection>, addr: PeerAddr) -> int
    decreases sessions.len(),
{
    if sessions.len() == 0 {
        0
    } else if sessions[0].addr == addr {
        0
    } else {
        1 + place_of_addr(sessions.drop_first(), addr)
    }
}

/// The place of the first session of client `id`, or the number of sessions
/// where there is none.
pub open spec fn place_of_id(sessions: Seq<Connection>, id: u64) -> int
    decreases sessions.len(),
{
    if sessions.len() == 0 {
        0
    } else if sessions[0].id == id {
        0
    } else {
        1 + place_of_id(sessions.drop_first(), id)
    }
}

/// The number that follows `s`, wrapping at the end of the space.
pub open spec fn successor(s: Sequence) -> Sequence {
    ((s + 1) % 65536) as Sequence
}

/// All clients known on the unreliable channel.
pub struct Registry {
    pub connections: Vec<Connection>,
}

impl Registry {
    /// No client has two sessions and no address stands for two clients.
    pub open spec fn wf(&self) -> bool {
        forall|i: int, j: int|
            0 <= i < j < self.connections@.len() ==> (#[trigger] self.connections@[i]).id != (
            #[trigger] self.connections@[j]).id && self.connections@[i].addr
                != self.connections@[j].addr
    }

    /// A registry that knows no client.
    pub fn new() -> (registry: Registry)
        ensures
            registry.connections@.len() == 0,
            registry.wf(),
    {
        Registry { connections: Vec::new() }
    }

    /// Binds client `id` to the address `addr`, as its handshake asks. A
    /// session that the client had at another address, and a session of
    /// another client at this address, are dropped; the new session starts
    /// afresh.
    pub fn bind(&mut self, id: u64, addr: PeerAddr)
        ensures
            final(self).connections@.len() == unbound(old(self).connections@, id, addr).len() + 1,
            final(self).connections@.drop_last() == unbound(old(self).connections@, id, addr),
            final(self).connections@.last().id == id,
            final(self).connections@.last().addr == addr,
            final(self).connections@.last().stat.sent == 0,
            final(self).connections@.last().stat.received == 0,
            final(self).connections@.last().stat.last_sequence == 0xffff,
            final(self).connections@.last().sequence.last() == 0xffff,
            old(self).wf() ==> final(self).wf(),
    {
        let mut kept: Vec<Connection> = Vec::new();
        let ghost mut from: Seq<int> = Seq::empty();
        let mut i: usize = 0;
        proof {
            assert(self.connections@.subrange(0, 0) =~= Seq::empty());
        }
        while i < self.connections.len()
            invariant
                i <= self.connections@.len(),
                self.connections == old(self).connections,
                kept@ == unbound(self.connections@.subrange(0, i as int), id, addr),
                from.len() == kept@.len(),
                forall|k: int|
                    0 <= k < kept@.len() ==> 0 <= #[trigger] from[k] < i && kept@[k]
                        == self.connections@[from[k]] && kept@[k].id != id && kept@[k].addr
                        != addr,
                forall|a: int, b: int| 0 <= a < b < from.len() ==> from[a] < from[b],
            decreases self.connections.len() - i,
        {
            let c: Connection = self.connections[i];
            proof {
                let upto = self.connections@.subrange(0, i + 1);
                assert(upto.drop_last() =~= self.connections@.subrange(0, i as int));
                assert(upto.last() == c);
            }
            if !(c.id == id || (c.addr.host == addr.host && c.addr.port == addr.port)) {
                kept.push(c);
                proof {
                    from = from.push(i as int);
                }
            }
            i = i + 1;
        }
        proof {
            assert(self.connections@.subrange(0, self.connections@.len() as int)
                =~= self.connections@);
        }
        let ghost filtered = kept@;
        kept.push(Connection::new(id, addr));
        self.connections = kept;
        proof {
            assert(self.connections@.drop_last() =~= filtered);
            if old(self).wf() {
                assert forall|a: int, b: int|
                    0 <= a < b < self.connections@.len() implies (
                #[trigger] self.connections@[a]).id != (#[trigger] self.connections@[b]).id
                    && self.connections@[a].addr != self.connections@[b].addr by {
                    if b == filtered.len() {
                        assert(0 <= from[a]);
                        assert(filtered[a].id != id);
                    } else {
                        assert(filtered[a] == old(self).connections@[from[a]]);
                        assert(filtered[b] == old(self).connections@[from[b]]);
                        assert(from[a] < from[b]);
                    }
                }
            }
        }
    }

    /// Drops the session of client `id`: its connection has ended.
    pub fn forget(&mut self, id: u64)
        ensures
            final(self).connections@ == forgotten(old(self).connections@, id),
            old(self).wf() ==> final(self).wf(),
    {
        let mut kept: Vec<Connection> = Vec::new();
        let ghost mut from: Seq<int> = Seq::empty();
        let mut i: usize = 0;
        proof {
            assert(self.connections@.subrange(0, 0) =~= Seq::empty());
        }
        while i < self.connections.len()
            invariant
                i <= self.connections@.len(),
                self.connections == old(self).connections,
                kept@ == forgotten(self.connections@.subrange(0, i as int), id),
                from.len() == kept@.len(),
                forall|k: int|
                    0 <= k < kept@.len() ==> 0 <= #[trigger] from[k] < i && kept@[k]
                        == self.connections@[from[k]],
                forall|a: int, b: int| 0 <= a < b < from.len() ==> from[a] < from[b],
            decreases self.connections.len() - i,
        {
            let c: Connection = self.connections[i];
            proof {
                let upto = self.connections@.subrange(0, i + 1);
                assert(upto.drop_last() =~= self.connections@.subrange(0, i as int));
                assert(upto.last() == c);
            }
            if c.id != id {
                kept.push(c);
                proof {
                    from = from.push(i as int);
                }
            }
            i = i + 1;
        }
        proof {
            assert(self.connections@.subrange(0, self.connections@.len() as int)
                =~= self.connections@);
        }
        self.connections = kept;
        proof {
            if old(self).wf() {
                assert forall|a: int, b: int|
                    0 <= a < b < self.connections@.len() implies (
                #[trigger] self.connections@[a]).id != (#[trigger] self.connections@[b]).id
                    && self.connections@[a].addr != self.connections@[b].addr by {
                    assert(self.connections@[a] == old(self).connections@[from[a]]);
                    assert(self.connections@[b] == old(self).connections@[from[b]]);
                    assert(from[a] < from[b]);
                }
            }
        }
    }

    /// Accounts for a numbered datagram from the address `addr` and tells
    /// which client it came from. A datagram from an address that no
    /// handshake has bound is dropped: nothing changes and nobody is named.
    pub fn receive(&mut self, addr: PeerAddr, sequence: Sequence) -> (from: Option<u64>)
        ensures
            old(self).wf() ==> final(self).wf(),
            final(self).connections@.len() == old(self).connections@.len(),
            ({
                let k = place_of_addr(old(self).connections@, addr);
                &&& 0 <= k <= old(self).connections@.len()
                &&& forall|j: int|
                    0 <= j < old(self).connections@.len() && j != k ==> final(self).connections@[j]
                        == old(self).connections@[j]
                &&& k == old(self).connections@.len() ==> from is None
                &&& k < old(self).connections@.len() ==> {
                    let before = old(self).connections@[k];
                    let after = final(self).connections@[k];
                    &&& from == Some(before.id)
                    &&& before.addr == addr
                    &&& after.id == before.id
                    &&& after.addr == before.addr
                    &&& after.sequence == before.sequence
                    &&& before.stat.sent_after(sequence) <= u64::MAX ==> after.stat.sent as int
                        == before.stat.sent_after(sequence) && after.stat.received as int
                        == before.stat.received_after(sequence) && after.stat.last_sequence
                        == sequence
                    &&& before.stat.sent_after(sequence) > u64::MAX ==> after.stat == before.stat
                }
            }),
    {
        let mut i: usize = 0;
        proof {
            assert(self.connections@.subrange(0, self.connections@.len() as int)
                =~= self.connections@);
        }
        while i < self.connections.len()
            invariant
                i <= self.connections@.len(),
                self.connections == old(self).connections,
                place_of_addr(self.connections@, addr) == i + place_of_addr(
                    self.connections@.subrange(i as int, self.connections@.len() as int),
                    addr,
                ),
            decreases self.connections.len() - i,
        {
            let mut c: Connection = self.connections[i];
            let ghost rest = self.connections@.subrange(i as int, self.connections@.len() as int);
            proof {
                assert(rest[0] == c);
                assert(rest.drop_first() =~= self.connections@.subrange(
                    i + 1,
                    self.connections@.len() as int,
                ));
            }
            if c.addr.host == addr.host && c.addr.port == addr.port {
                c.update(sequence);
                self.connections.set(i, c);
                proof {
                    if old(self).wf() {
                        Self::lemma_same_peers(*old(self), *self);
                    }
                }
                return Some(c.id);
            }
            i = i + 1;
        }
        proof {
            assert(self.connections@.subrange(i as int, self.connections@.len() as int)
                =~= Seq::empty());
        }
        None
    }

    /// Numbers a datagram for the client `id` and tells where to send it.
    /// Nothing is sent to a client that is not known.
    fn route_one(&mut self, id: u64) -> (to: Option<(PeerAddr, Sequence)>)
        ensures
            final(self).connections@.len() == old(self).connections@.len(),
            ({
                let k = place_of_id(old(self).connections@, id);
                &&& 0 <= k <= old(self).connections@.len()
                &&& forall|j: int|
                    0 <= j < old(self).connections@.len() && j != k ==> final(self).connections@[j]
                        == old(self).connections@[j]
                &&& k == old(self).connections@.len() ==> to is None
                &&& k < old(self).connections@.len() ==> {
                    let before = old(self).connections@[k];
                    let after = final(self).connections@[k];
                    &&& to == Some((before.addr, successor(before.sequence.last())))
                    &&& before.id == id
                    &&& after.id == before.id
                    &&& after.addr == before.addr
                    &&& after.stat == before.stat
                    &&& after.sequence.last() == successor(before.sequence.last())
                }
            }),
    {
        let mut i: usize = 0;
        proof {
            assert(self.connections@.subrange(0, self.connections@.len() as int)
                =~= self.connections@);
        }
        while i < self.connections.len()
            invariant
                i <= self.connections@.len(),
                self.connections == old(self).connections,
                place_of_id(self.connections@, id) == i + place_of_id(
                    self.connections@.subrange(i as int, self.connections@.len() as int),
                    id,
                ),
            decreases self.connections.len() - i,
        {
            let mut c: Connection = self.connections[i];
            let ghost rest = self.connections@.subrange(i as int, self.connections@.len() as int);
            proof {
                assert(rest[0] == c);
                assert(rest.drop_first() =~= self.connections@.subrange(
                    i + 1,
                    self.connections@.len() as int,
                ));
            }
            if c.id == id {
                let mut sequence = c.sequence;
                let number = sequence.next();
                c.sequence = sequence;
                self.connections.set(i, c);
                return Some((c.addr, number));
            }
            i = i + 1;
        }
        proof {
            assert(self.connections@.subrange(i as int, self.connections@.len() as int)
                =~= Seq::empty());
        }
        None
    }

    /// Numbers a datagram for every client and tells where to send each.
    fn route_all(&mut self) -> (to: Vec<(PeerAddr, Sequence)>)
        ensures
            final(self).connections@.len() == old(self).connections@.len(),
            to@.len() == old(self).connections@.len(),
            forall|k: int|
                0 <= k < to@.len() ==> #[trigger] to@[k] == (
                    old(self).connections@[k].addr,
                    successor(old(self).connections@[k].sequence.last()),
                ),
            forall|k: int|
                0 <= k < old(self).connections@.len() ==> (#[trigger] final(self).connections@[k]).id == old(self).connections@[k].id,
            forall|k: int|
                0 <= k < old(self).connections@.len() ==> (#[trigger] final(self).connections@[k]).addr == old(self).connections@[k].addr,
            forall|k: int|
                0 <= k < old(self).connections@.len() ==> (#[trigger] final(self).connections@[k]).stat == old(self).connections@[k].stat,
            forall|k: int|
                0 <= k < old(self).connections@.len() ==> (#[trigger] final(self).connections@[k]).sequence.last() == successor(
                    old(self).connections@[k].sequence.last(),
                ),
    {
        let mut to: Vec<(PeerAddr, Sequence)> = Vec::new();
        let mut i: usize = 0;
        while i < self.connections.len()
            invariant
                i <= self.connections@.len(),
                self.connections@.len() == old(self).connections@.len(),
                to@.len() == i,
                forall|k: int|
                    i <= k < self.connections@.len() ==> #[trigger] self.connections@[k] == old(self).connections@[k],
                forall|k: int|
                    0 <= k < i ==> #[trigger] to@[k] == (
                        old(self).connections@[k].addr,
                        successor(old(self).connections@[k].sequence.last()),
                    ),
                forall|k: int|
                    0 <= k < i ==> (#[trigger] self.connections@[k]).id == old(self).connections@[k].id && self.connections@[k].addr == old(self).connections@[k].addr && self.connections@[k].stat == old(self).connections@[k].stat && self.connections@[k].sequence.last() == successor(
                        old(self).connections@[k].sequence.last(),
                    ),
            decreases self.connections.len() - i,
        {
            let ghost before = self.connections@;
            let ghost sent = to@;
            let mut c: Connection = self.connections[i];
            assert(c == old(self).connections@[i as int]);
            let mut sequence = c.sequence;
            let number = sequence.next();
            c.sequence = sequence;
            assert(number == successor(old(self).connections@[i as int].sequence.last()));
            self.connections.set(i, c);
            to.push((c.addr, number));
            proof {
                assert forall|k: int| 0 <= k < i + 1 implies #[trigger] to@[k] == (
                    old(self).connections@[k].addr,
                    successor(old(self).connections@[k].sequence.last()),
                ) by {
                    if k < i {
                        assert(to@[k] == sent[k]);
                    }
                }
                assert forall|k: int| 0 <= k < i + 1 implies (#[trigger] self.connections@[k]).id
                    == old(self).connections@[k].id && self.connections@[k].addr == old(self).connections@[k].addr && self.connections@[k].stat == old(self).connections@[k].stat && self.connections@[k].sequence.last() == successor(
                    old(self).connections@[k].sequence.last(),
                ) by {
                    if k < i {
                        assert(self.connections@[k] == before[k]);
                    }
                }
                assert forall|k: int|
                    i + 1 <= k < self.connections@.len() implies #[trigger] self.connections@[k]
                    == old(self).connections@[k] by {
                    assert(self.connections@[k] == before[k]);
                }
            }
            i = i + 1;
        }
        to
    }

    /// Numbers an outgoing message for each peer it goes to, and tells
    /// where to send it: to the one client `target`, or to every client
    /// where `target` is `None`. Each peer has a numbering of its own.
    pub fn route(&mut self, target: Option<u64>) -> (to: Vec<(PeerAddr, Sequence)>)
        ensures
            old(self).wf() ==> final(self).wf(),
            final(self).connections@.len() == old(self).connections@.len(),
            forall|k: int|
                0 <= k < old(self).connections@.len() ==> {
                    let before = old(self).connections@[k];
                    let after = #[trigger] final(self).connections@[k];
                    let chosen = target is None || (target == Some(before.id) && k == place_of_id(
                        old(self).connections@,
                        before.id,
                    ));
                    &&& after.id == before.id
                    &&& after.addr == before.addr
                    &&& after.stat == before.stat
                    &&& after.sequence.last() == (if chosen {
                        successor(before.sequence.last())
                    } else {
                        before.sequence.last()
                    })
                },
            target is None ==> to@.len() == old(self).connections@.len() && forall|k: int|
                0 <= k < to@.len() ==> #[trigger] to@[k] == (
                    old(self).connections@[k].addr,
                    successor(old(self).connections@[k].sequence.last()),
                ),
            target matches Some(id) ==> {
                let k = place_of_id(old(self).connections@, id);
                if k < old(self).connections@.len() {
                    to@ == seq![
                        (
                            old(self).connections@[k].addr,
                            successor(old(self).connections@[k].sequence.last()),
                        ),
                    ]
                } else {
                    to@.len() == 0
                }
            },
    {
        let to = match target {
            Some(id) => {
                let mut to: Vec<(PeerAddr, Sequence)> = Vec::new();
                match self.route_one(id) {
                    Some(one) => {
                        to.push(one);
                        assert(to@ =~= seq![one]);
                    },
                    None => {},
                }
                to
            },
            None => self.route_all(),
        };
        proof {
            if old(self).wf() {
                Self::lemma_same_peers(*old(self), *self);
            }
        }
        to
    }

    /// Routing keeps the registry well formed: identities and addresses stay
    /// as they are.
    pub proof fn lemma_same_peers(before: Registry, after: Registry)
        requires
            before.wf(),
            after.connections@.len() == before.connections@.len(),
            forall|k: int|
                0 <= k < before.connections@.len() ==> (#[trigger] after.connections@[k]).id
                    == before.connections@[k].id && after.connections@[k].addr
                    == before.connections@[k].addr,
        ensures
            after.wf(),
    {
        assert forall|i: int, j: int| 0 <= i < j < after.connections@.len() implies (
        #[trigger] after.connections@[i]).id != (#[trigger] after.connections@[j]).id
            && after.connections@[i].addr != after.connections@[j].addr by {
            assert(before.connections@[i].id != before.connections@[j].id);
        }
    }
}

/// A client's end of the unreliable channel: the loss statistics of what
/// the server sent, and the numbering of what the client sends.
#[derive(Clone, Copy, Debug)]
pub struct Link {
    pub stat: UdpStat,
    pub sequence: SequenceGen,
}

impl Link {
    /// Nothing received yet; the first datagram sent will be numbered 0.
    pub fn new() -> (link: Link)
        ensures
            link.stat.sent == 0,
            link.stat.received == 0,
            link.stat.last_sequence == 0xffff,
            link.sequence.last() == 0xffff,
    {
        Link { stat: UdpStat::new(), sequence: SequenceGen::default() }
    }

    /// Takes a datagram of the server: a numbered message is accounted for
    /// and handed on, anything else is ignored.
    pub fn accept(&mut self, datagram: ServerUdpMessage) -> (message: Option<ServerMessage>)
        ensures
            final(self).sequence == old(self).sequence,
            match datagram {
                ServerUdpMessage::Init => message is None && final(self).stat == old(self).stat,
                ServerUdpMessage::Message { sequence, message: carried } => {
                    &&& message == Some(carried)
                    &&& old(self).stat.sent_after(sequence) <= u64::MAX ==> final(self).stat.sent as int
                        == old(self).stat.sent_after(sequence) && final(self).stat.received as int
                        == old(self).stat.received_after(sequence) && final(self).stat.last_sequence
                        == sequence
                    &&& old(self).stat.sent_after(sequence) > u64::MAX ==> final(self).stat == old(self).stat
                },
            },
    {
        match datagram {
            ServerUdpMessage::Init => None,
            ServerUdpMessage::Message { sequence, message } => {
                let mut stat = self.stat;
                stat.checked_update(sequence);
                self.stat = stat;
                Some(message)
            },
        }
    }

    /// Numbers a message for the server.
    pub fn wrap(&mut self, message: ClientMessage) -> (datagram: ClientUdpMessage)
        ensures
            final(self).stat == old(self).stat,
            final(self).sequence.last() == successor(old(self).sequence.last()),
            datagram == (ClientUdpMessage::Message {
                sequence: successor(old(self).sequence.last()),
                message,
            }),
    {
        let mut sequence = self.sequence;
        let number = sequence.next();
        self.sequence = sequence;
        ClientUdpMessage::Message { sequence: number, message }
    }
}

} // verus!
