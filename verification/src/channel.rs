//! The reliable channel of one connection: the bytes received and not yet
//! read as messages, and whether the connection is open.
//!
//! Whoever owns the stream polls it and reports here what a read brought;
//! the channel keeps the bytes, cuts them into messages, and turns inert
//! once the connection has ended.

use crate::protocol::{read, Wire};
use crate::wire::{DecodeError, Parsed};
use vstd::prelude::*;

verus! {

/// The receiving side of a reliable connection. A closed channel takes and
/// yields nothing.
pub struct Channel {
    pub buf: Vec<u8>,
    pub closed: bool,
}

/// The views of a list of messages, in order.
pub open spec fn views<T: Wire>(messages: Seq<T>) -> Seq<T::V> {
    messages.map_values(|m: T| m@)
}

/// What cutting the bytes `s` into messages yields, after the messages
/// `acc`: the messages, the bytes that remain, and whether all was well.
/// The cutting stops where the bytes hold only a beginning of a message,
/// which remains for later, or where they violate the format.
pub open spec fn drained<T: Wire>(s: Seq<u8>, acc: Seq<T::V>) -> (Seq<T::V>, Seq<u8>, bool)
    decreases s.len(),
{
    match T::parse(s, 0) {
        Parsed::Done { value, next } => if 0 < next <= s.len() {
            drained::<T>(s.subrange(next, s.len() as int), acc.push(value))
        } else {
            (acc, s, true)
        },
        Parsed::Incomplete => (acc, s, true),
        Parsed::Invalid => (acc, s, false),
    }
}

impl Channel {
    /// An open channel that has received nothing.
    pub fn new() -> (channel: Channel)
        ensures
            channel.buf@.len() == 0,
            !channel.closed,
    {
        Channel { buf: Vec::new(), closed: false }
    }

    /// Whether the connection has ended.
    pub fn is_closed(&self) -> (closed: bool)
        ensures
            closed == self.closed,
    {
        self.closed
    }

    /// Closes the channel: the peer is gone.
    pub fn close(&mut self)
        ensures
            final(self).closed,
            final(self).buf == old(self).buf,
    {
        self.closed = true;
    }

    /// Whether a message addressed to `target` (everyone, where it is
    /// `None`) is to be written to the connection with identity `id`.
    pub fn takes(&self, id: u64, target: Option<u64>) -> (wanted: bool)
        ensures
            wanted == (!self.closed && (target is None || target == Some(id))),
    {
        if self.closed {
            false
        } else {
            match target {
                None => true,
                Some(to) => to == id,
            }
        }
    }

    /// Accounts for a read of the stream that succeeded or would have
    /// blocked: `bytes` are the bytes it brought, and `ended` tells that it
    /// brought none because the peer has closed the stream. The end of the
    /// stream closes the channel; bytes are kept for `drain`.
    pub fn on_read(&mut self, bytes: &[u8], ended: bool)
        ensures
            old(self).closed ==> *final(self) == *old(self),
            !old(self).closed && ended ==> final(self).closed && final(self).buf == old(self).buf,
            !old(self).closed && !ended ==> !final(self).closed && final(self).buf@ == old(self).buf@ + bytes@,
    {
        if self.closed {
        } else if ended {
            self.closed = true;
        } else {
            let mut i: usize = 0;
            while i < bytes.len()
                invariant
                    i <= bytes@.len(),
                    self.closed == old(self).closed,
                    self.buf@ == old(self).buf@ + bytes@.subrange(0, i as int),
                decreases bytes.len() - i,
            {
                self.buf.push(bytes[i]);
                assert(self.buf@ =~= old(self).buf@ + bytes@.subrange(0, i + 1));
                i = i + 1;
            }
            assert(bytes@.subrange(0, bytes@.len() as int) =~= bytes@);
        }
    }

    /// Cuts the bytes received so far into messages. A beginning of a
    /// message stays in the channel until the rest arrives. Bytes that
    /// violate the format close the channel, and the second result tells
    /// so: the connection cannot go on.
    pub fn drain<T: Wire>(&mut self) -> (r: (Vec<T>, bool))
        ensures
            old(self).closed ==> r.0@.len() == 0 && !r.1 && *final(self) == *old(self),
            !old(self).closed ==> {
                let (messages, rest, well) = drained::<T>(old(self).buf@, Seq::empty());
                &&& views(r.0@) == messages
                &&& final(self).buf@ == rest
                &&& r.1 == !well
                &&& final(self).closed == !well
            },
    {
        let mut messages: Vec<T> = Vec::new();
        if self.closed {
            return (messages, false);
        }
        proof {
            assert(views(messages@) =~= Seq::<T::V>::empty());
        }
        loop
            invariant
                !self.closed,
                !old(self).closed,
                drained::<T>(old(self).buf@, Seq::empty()) == drained::<T>(
                    self.buf@,
                    views(messages@),
                ),
            decreases self.buf@.len(),
        {
            let ghost before = self.buf@;
            let ghost found = messages@;
            let remaining: usize = self.buf.len();
            match read::<T>(&mut self.buf) {
                Ok(message) => {
                    if self.buf.len() == remaining {
                        return (messages, false);
                    }
                    messages.push(message);
                    proof {
                        assert(views(messages@) =~= views(found).push(message@));
                    }
                },
                Err(DecodeError::Incomplete) => {
                    return (messages, false);
                },
                Err(DecodeError::Invalid) => {
                    self.closed = true;
                    return (messages, true);
                },
            }
        }
    }
}

} // verus!
