//! Sequence numbers of the unreliable transport and the loss statistics
//! derived from them.

use vstd::prelude::*;

verus! {

/// Identifies the order of datagrams. The counter wraps silently.
pub type Sequence = u16;

/// Number of distinct sequence values.
pub const SEQUENCE_SPACE: u32 = 65536;

/// Half of the sequence space: a forward distance below it is progress.
pub const HALF_SEQUENCE_SPACE: u16 = 32768;

/// How far `to` lies ahead of `from`, walking forward through the wrapping
/// sequence space. Always in `0..65536`.
pub open spec fn forward_distance(from: Sequence, to: Sequence) -> int {
    (to as int - from as int) % 65536
}

/// Whether `to` counts as newer than (or the same as) `from`: its forward
/// distance is less than half the sequence space.
pub open spec fn is_newer(from: Sequence, to: Sequence) -> bool {
    forward_distance(from, to) < 32768
}

/// Computes the wrap-aware forward distance from `from` to `to`.
pub fn distance(from: Sequence, to: Sequence) -> (d: Sequence)
    ensures
        d as int == forward_distance(from, to),
{
    to.wrapping_sub(from)
}

/// Decides whether `to` is newer than `from` in the wrapping order.
pub fn newer(from: Sequence, to: Sequence) -> (b: bool)
    ensures
        b == is_newer(from, to),
{
    distance(from, to) < HALF_SEQUENCE_SPACE
}

/// The wrapping order agrees with modular arithmetic: `to` is newer than
/// `from` exactly when it is reached from `from` by fewer than half the
/// sequence space of forward steps, each taken modulo the space. In
/// particular the successor of the largest value, zero, is newer than it,
/// and of two values that are neither equal nor half the space apart exactly
/// one is newer than the other.
pub proof fn lemma_newer_is_modular(from: Sequence, to: Sequence)
    ensures
        is_newer(from, to) <==> exists|k: int|
            0 <= k < 32768 && to as int == #[trigger] ((from as int + k) % 65536),
        to as int == (from as int + forward_distance(from, to)) % 65536,
        is_newer(0xffff, 0),
        is_newer(from, from),
        from != to ==> forward_distance(from, to) + forward_distance(to, from) == 65536,
        from != to && forward_distance(from, to) != 32768 ==> (is_newer(from, to) <==> !is_newer(
            to,
            from,
        )),
{
    let d = forward_distance(from, to);
    assert(to as int == (from as int + d) % 65536);
    if is_newer(from, to) {
        assert(0 <= d < 32768 && to as int == (from as int + d) % 65536);
    }
    assert forall|k: int| 0 <= k < 32768 && to as int == #[trigger] ((from as int + k) % 65536)
        implies is_newer(from, to) by {
        assert(forward_distance(from, to) == k);
    }
}

/// Hands out the sequence numbers of one outbound stream.
#[derive(Clone, Copy, Debug)]
pub struct SequenceGen {
    sequence: Sequence,
}

impl SequenceGen {
    /// The number handed out last (the largest value before the first call
    /// of `next`).
    pub closed spec fn last(&self) -> Sequence {
        self.sequence
    }

    /// Advances the counter by one, wrapping at the end of the space,
    /// and returns the new value.
    pub fn next(&mut self) -> (s: Sequence)
        ensures
            s as int == (old(self).last() + 1) % 65536,
            final(self).last() == s,
    {
        self.sequence = self.sequence.wrapping_add(1);
        self.sequence
    }
}

impl Default for SequenceGen {
    /// Starts at the largest value, so that the first number handed out is 0.
    fn default() -> (g: Self)
        ensures
            g.last() == 0xffff,
    {
        Self { sequence: 0xffff }
    }
}

/// Loss accounting for one inbound stream of sequenced datagrams.
#[derive(Clone, Copy, Debug)]
pub struct UdpStat {
    /// Datagrams the peer is known to have sent.
    pub sent: u64,
    /// Datagrams that arrived, never more than `sent` after an update.
    pub received: u64,
    /// Sequence number of the datagram accepted last.
    pub last_sequence: Sequence,
}

impl UdpStat {
    /// Nothing received exceeds what was sent.
    pub open spec fn wf(&self) -> bool {
        self.received <= self.sent
    }

    /// The sent count after a datagram with number `sequence` arrives: it
    /// grows by the forward distance when that is progress, and stays
    /// otherwise.
    pub open spec fn sent_after(&self, sequence: Sequence) -> int {
        if is_newer(self.last_sequence, sequence) {
            self.sent + forward_distance(self.last_sequence, sequence)
        } else {
            self.sent as int
        }
    }

    /// The received count after a datagram with number `sequence` arrives:
    /// one more, clamped to the new sent count.
    pub open spec fn received_after(&self, sequence: Sequence) -> int {
        if self.received < self.sent_after(sequence) {
            self.received + 1
        } else {
            self.sent_after(sequence)
        }
    }

    /// Datagrams sent and not received.
    pub open spec fn spec_dropped(&self) -> int {
        self.sent - self.received
    }

    /// A tracker that has seen nothing. The last sequence is the largest
    /// value, so that a first datagram numbered 0 is a forward step of one.
    pub fn new() -> (stat: Self)
        ensures
            stat.sent == 0,
            stat.received == 0,
            stat.last_sequence == 0xffff,
            stat.wf(),
    {
        Self { sent: 0, received: 0, last_sequence: 0xffff }
    }

    /// Accounts for the arrival of the datagram numbered `sequence`.
    pub fn update(&mut self, sequence: Sequence)
        requires
            old(self).sent_after(sequence) <= u64::MAX,
        ensures
            final(self).sent as int == old(self).sent_after(sequence),
            final(self).received as int == old(self).received_after(sequence),
            final(self).last_sequence == sequence,
            final(self).wf(),
    {
        let diff = distance(self.last_sequence, sequence);
        if diff < HALF_SEQUENCE_SPACE {
            self.sent = self.sent + diff as u64;
        }
        // A duplicated datagram would push `received` past `sent`.
        if self.received < self.sent {
            self.received = self.received + 1;
        } else {
            self.received = self.sent;
        }
        self.last_sequence = sequence;
    }

    /// Accounts for the arrival of the datagram numbered `sequence`, unless
    /// the sent count has reached the end of its range: then nothing changes
    /// and the result is `false`.
    pub fn checked_update(&mut self, sequence: Sequence) -> (counted: bool)
        ensures
            counted == (old(self).sent_after(sequence) <= u64::MAX),
            counted ==> final(self).sent as int == old(self).sent_after(sequence) && final(self).received as int == old(self).received_after(sequence) && final(self).last_sequence
                == sequence && final(self).wf(),
            !counted ==> *final(self) == *old(self),
    {
        let diff = distance(self.last_sequence, sequence);
        if diff < HALF_SEQUENCE_SPACE && self.sent > u64::MAX - diff as u64 {
            false
        } else {
            self.update(sequence);
            true
        }
    }

    /// Datagrams sent and not received.
    pub fn dropped(&self) -> (n: u64)
        requires
            self.wf(),
        ensures
            n as int == self.spec_dropped(),
    {
        self.sent - self.received
    }
}

} // verus!
