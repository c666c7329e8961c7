//! Frames: a packet on a stream is preceded by its length.
//!
//! The length is an unsigned integer of eight bytes in network order. It
//! counts the bytes of the packet that follows, not its own. The format
//! sets no limit to it; a machine can hold a packet only where its length is
//! a `usize`.
use crate::ints::{
    lemma_read_u64_be, lemma_written_u64_be, put_u64_be, read_u64_be, take_u64_be, u64_be,
};
use crate::proto::{Packet, PacketView};
use crate::wire::{
    decode_packet, encode_packet, lemma_packet_round_trip, lemma_packet_written, packet_bytes,
    parse_packet, wire_view, writable, DecodeError,
};
use vstd::prelude::*;
use vstd::slice::slice_subrange;

verus! {

/// The number of bytes of the length that precedes a packet.
pub const HEADER_LENGTH: usize = 8;

/// The bytes of a frame: the length of `body`, then `body`.
pub open spec fn frame_bytes(body: Seq<u8>) -> Seq<u8> {
    u64_be(body.len() as u64) + body
}

/// The length that a header announces.
///
/// A header of fewer than eight bytes is incomplete. A length that is no
/// `usize` is one that this machine cannot hold.
pub open spec fn parse_length(header: Seq<u8>) -> Result<usize, DecodeError> {
    match read_u64_be(header) {
        None => Err(DecodeError::Truncated),
        Some((length, _)) => if length > usize::MAX {
            Err(DecodeError::BadLength)
        } else {
            Ok(length as usize)
        },
    }
}

/// Splits a frame off the front of `s`: its body and what follows it.
pub open spec fn parse_frame(s: Seq<u8>) -> Result<(Seq<u8>, Seq<u8>), DecodeError> {
    match parse_length(s) {
        Err(e) => Err(e),
        Ok(length) => if s.len() - HEADER_LENGTH < length {
            Err(DecodeError::Truncated)
        } else {
            Ok(
                (
                    s.subrange(HEADER_LENGTH as int, HEADER_LENGTH + length),
                    s.skip(HEADER_LENGTH + length),
                ),
            )
        },
    }
}

/// Round trip: a frame parses as its body, and what followed it.
pub proof fn lemma_frame_round_trip(body: Seq<u8>, tail: Seq<u8>)
    requires
        body.len() <= usize::MAX,
    ensures
        parse_frame(frame_bytes(body) + tail) == Ok::<_, DecodeError>((body, tail)),
{
    let s = frame_bytes(body) + tail;
    lemma_read_u64_be(body.len() as u64, body + tail);
    assert(s =~= u64_be(body.len() as u64) + (body + tail));
    assert(s.subrange(HEADER_LENGTH as int, HEADER_LENGTH + body.len()) =~= body);
    assert(s.skip(HEADER_LENGTH + body.len()) =~= tail);
}

/// Bytes that parse as a frame begin with the bytes of that frame.
pub proof fn lemma_frame_written(s: Seq<u8>)
    ensures
        parse_frame(s) matches Ok((body, rest)) ==> body.len() <= usize::MAX && s == frame_bytes(
            body,
        ) + rest,
{
    lemma_written_u64_be(s);
    if let Ok((body, rest)) = parse_frame(s) {
        assert(s =~= u64_be(body.len() as u64) + body + rest);
    }
}

/// The length that `header` announces.
pub fn frame_length(header: &[u8]) -> (r: Result<usize, DecodeError>)
    ensures
        r == parse_length(header@),
{
    assert(header@.skip(0) =~= header@);
    match take_u64_be(header, 0) {
        None => Err(DecodeError::Truncated),
        Some((length, _)) => {
            if length > usize::MAX as u64 {
                Err(DecodeError::BadLength)
            } else {
                Ok(length as usize)
            }
        },
    }
}

/// The frame that holds `body`: its length in eight bytes, then `body`.
pub fn encode_frame(body: &[u8]) -> (bytes: Vec<u8>)
    ensures
        bytes@ == frame_bytes(body@),
        bytes@.len() == HEADER_LENGTH + body@.len(),
{
    proof {
        lemma_read_u64_be(body@.len() as u64, Seq::empty());
    }
    let mut bytes: Vec<u8> = Vec::new();
    put_u64_be(&mut bytes, body.len() as u64);
    let ghost head = bytes@;
    let mut i: usize = 0;
    while i < body.len()
        invariant
            i <= body@.len(),
            bytes@ == head + body@.subrange(0, i as int),
        decreases body@.len() - i,
    {
        bytes.push(body[i]);
        i += 1;
        assert(bytes@ =~= head + body@.subrange(0, i as int));
    }
    assert(body@.subrange(0, i as int) =~= body@);
    bytes
}

/// Splits the first frame off `bytes`: its body, and the offset at which
/// the next frame begins.
pub fn decode_frame(bytes: &[u8]) -> (r: Result<(&[u8], usize), DecodeError>)
    ensures
        match parse_frame(bytes@) {
            Ok((body, rest)) => r matches Ok((found, next)) && found@ == body && next
                <= bytes@.len() && bytes@.skip(next as int) == rest,
            Err(e) => r matches Err(got) && got == e,
        },
{
    let length = match frame_length(bytes) {
        Err(e) => { return Err(e); },
        Ok(length) => length,
    };
    if bytes.len() - HEADER_LENGTH < length {
        return Err(DecodeError::Truncated);
    }
    let next = HEADER_LENGTH + length;
    Ok((slice_subrange(bytes, HEADER_LENGTH, next), next))
}

/// What a node writes to a peer for one packet: the frame of its bytes.
pub open spec fn sent_bytes(packet: PacketView<Seq<u8>>) -> Seq<u8> {
    frame_bytes(packet_bytes(packet))
}

/// What a node reads from a peer: the packet in the first frame of `s`,
/// and what follows that frame.
pub open spec fn received(s: Seq<u8>) -> Result<(PacketView<Seq<u8>>, Seq<u8>), DecodeError> {
    match parse_frame(s) {
        Err(e) => Err(e),
        Ok((body, rest)) => match parse_packet(body) {
            Err(e) => Err(e),
            Ok(packet) => Ok((packet, rest)),
        },
    }
}

/// Round trip: what was written for a packet is read as that packet.
pub proof fn lemma_round_trip(packet: PacketView<Seq<u8>>, tail: Seq<u8>)
    requires
        writable(packet.op),
        packet_bytes(packet).len() <= usize::MAX,
    ensures
        received(sent_bytes(packet) + tail) == Ok::<_, DecodeError>((packet, tail)),
{
    lemma_frame_round_trip(packet_bytes(packet), tail);
    lemma_packet_round_trip(packet);
}

/// What is read as a packet is what is written for that packet, and no
/// other bytes are read as it.
pub proof fn lemma_canonical(s: Seq<u8>)
    ensures
        received(s) matches Ok((packet, rest)) ==> {
            &&& writable(packet.op)
            &&& packet_bytes(packet).len() <= usize::MAX
            &&& s == sent_bytes(packet) + rest
        },
{
    lemma_frame_written(s);
    if let Ok((body, rest)) = parse_frame(s) {
        lemma_packet_written(body);
    }
}

/// The bytes to write to a peer for `packet`: the length of the packet in
/// eight bytes, then the packet.
pub fn encode(packet: &Packet<Vec<u8>>) -> (bytes: Vec<u8>)
    ensures
        bytes@ == sent_bytes(wire_view(*packet)),
        bytes@.len() == HEADER_LENGTH + packet_bytes(wire_view(*packet)).len(),
{
    let body = encode_packet(packet);
    encode_frame(body.as_slice())
}

/// The packet in the first frame of `bytes`, and the offset at which the
/// next frame begins.
pub fn decode(bytes: &[u8]) -> (r: Result<(Packet<Vec<u8>>, usize), DecodeError>)
    ensures
        match received(bytes@) {
            Ok((model, rest)) => r matches Ok((packet, next)) && wire_view(packet) == model
                && next <= bytes@.len() && bytes@.skip(next as int) == rest,
            Err(e) => r matches Err(got) && got == e,
        },
{
    let (body, next) = match decode_frame(bytes) {
        Err(e) => { return Err(e); },
        Ok(found) => found,
    };
    match decode_packet(body) {
        Err(e) => Err(e),
        Ok(packet) => Ok((packet, next)),
    }
}

} // verus!
