//! The receiving side of a connection to one peer.
//!
//! Bytes arrive from a stream in pieces of any size. A [`Receiver`] gathers
//! them and hands out the packets they hold, one frame after the other. The
//! first frame that cannot be decoded ends the connection: the receiver
//! reports that failure from then on.
use crate::frame::{decode_frame, parse_frame};
use crate::proto::{Packet, PacketView};
use crate::wire::{decode_packet, parse_packet, wire_view, DecodeError};
use vstd::prelude::*;

verus! {

/// Gathers the bytes of one inbound stream.
pub struct Receiver {
    pending: Vec<u8>,
    failure: Option<DecodeError>,
}

/// The model of a [`Receiver`].
pub struct ReceiverView {
    /// The bytes that have arrived and belong to no packet handed out.
    pub pending: Seq<u8>,
    /// Why the receiver has given up, if it has.
    pub failure: Option<DecodeError>,
}

impl View for Receiver {
    type V = ReceiverView;

    closed spec fn view(&self) -> ReceiverView {
        ReceiverView { pending: self.pending@, failure: self.failure }
    }
}

/// What a receiver finds at the front of its bytes.
pub enum Found {
    /// The first frame is not complete yet.
    Nothing,
    /// The first frame holds this packet, and these bytes follow it.
    Packet(PacketView<Seq<u8>>, Seq<u8>),
    /// The first frame cannot be decoded.
    Failure(DecodeError),
}

/// What stands at the front of `pending`.
///
/// Bytes that end before the first frame does hold nothing yet: more may
/// arrive. A complete frame whose packet ends early is a failure.
pub open spec fn front(pending: Seq<u8>) -> Found {
    match parse_frame(pending) {
        Err(DecodeError::Truncated) => Found::Nothing,
        Err(e) => Found::Failure(e),
        Ok((body, rest)) => match parse_packet(body) {
            Err(e) => Found::Failure(e),
            Ok(packet) => Found::Packet(packet, rest),
        },
    }
}

/// The receiver after `chunk` arrived: it is kept unless the receiver has
/// given up.
pub open spec fn fed(receiver: ReceiverView, chunk: Seq<u8>) -> ReceiverView {
    if receiver.failure is Some {
        receiver
    } else {
        ReceiverView { pending: receiver.pending + chunk, ..receiver }
    }
}

/// The receiver after it was asked for a packet.
pub open spec fn advanced(receiver: ReceiverView) -> ReceiverView {
    if receiver.failure is Some {
        receiver
    } else {
        match front(receiver.pending) {
            Found::Nothing => receiver,
            Found::Packet(_, rest) => ReceiverView { pending: rest, ..receiver },
            Found::Failure(e) => ReceiverView { failure: Some(e), ..receiver },
        }
    }
}

impl Receiver {
    /// A receiver to which nothing has arrived.
    pub fn new() -> (receiver: Receiver)
        ensures
            receiver@ == (ReceiverView { pending: Seq::empty(), failure: None }),
    {
        Receiver { pending: Vec::new(), failure: None }
    }

    /// Why the receiver has given up, if it has.
    pub fn failure(&self) -> (failure: Option<DecodeError>)
        ensures
            failure == self@.failure,
    {
        self.failure
    }

    /// The number of bytes that have arrived and belong to no packet handed
    /// out.
    pub fn buffered(&self) -> (n: usize)
        ensures
            n == self@.pending.len(),
    {
        self.pending.len()
    }

    /// Takes the bytes that arrived.
    pub fn feed(&mut self, chunk: &[u8])
        ensures
            final(self)@ == fed(old(self)@, chunk@),
    {
        if self.failure.is_some() {
            return ;
        }
        let mut i: usize = 0;
        while i < chunk.len()
            invariant
                i <= chunk@.len(),
                self.failure == old(self).failure,
                self.pending@ == old(self).pending@ + chunk@.subrange(0, i as int),
            decreases chunk@.len() - i,
        {
            self.pending.push(chunk[i]);
            i += 1;
            assert(self.pending@ =~= old(self).pending@ + chunk@.subrange(0, i as int));
        }
        assert(chunk@.subrange(0, i as int) =~= chunk@);
    }

    /// Hands out the next packet.
    ///
    /// The answer is nothing while the first frame is incomplete, the
    /// packet of the first frame once it is there, and the failure where
    /// that frame cannot be decoded, or where an earlier one could not.
    pub fn recv_packet(&mut self) -> (r: Option<Result<Packet<Vec<u8>>, DecodeError>>)
        ensures
            final(self)@ == advanced(old(self)@),
            match old(self)@.failure {
                Some(e) => r == Some(Err::<Packet<Vec<u8>>, _>(e)),
                None => match front(old(self)@.pending) {
                    Found::Nothing => r is None,
                    Found::Packet(model, _) => r matches Some(Ok(packet)) && wire_view(packet)
                        == model,
                    Found::Failure(e) => r == Some(Err::<Packet<Vec<u8>>, _>(e)),
                },
            },
    {
        if let Some(e) = self.failure {
            return Some(Err(e));
        }
        let decoded = match decode_frame(self.pending.as_slice()) {
            Err(DecodeError::Truncated) => { return None; },
            Err(e) => Err(e),
            Ok((body, next)) => match decode_packet(body) {
                Err(e) => Err(e),
                Ok(packet) => Ok((packet, next)),
            },
        };
        match decoded {
            Err(e) => {
                self.failure = Some(e);
                Some(Err(e))
            },
            Ok((packet, next)) => {
                let rest = self.pending.split_off(next);
                assert(rest@ =~= old(self).pending@.skip(next as int));
                self.pending = rest;
                Some(Ok(packet))
            },
        }
    }
}

} // verus!
