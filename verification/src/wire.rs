//! The wire format of packets.
//!
//! A packet travels as its identifier, its originator, its operation and its
//! payload, one after the other. Tags and counts are little-endian integers
//! of fixed width; the identifier and the octets of an IP address stand in
//! network order. The payload comes last and runs to the end of the packet,
//! so that this module need not know what an application message looks like.
use crate::address::{Address, AddressSet};
use crate::ints::{
    lemma_read_u128_be, lemma_read_u16_le, lemma_read_u32_be, lemma_read_u32_le,
    lemma_read_u64_le, lemma_written_u128_be, lemma_written_u16_le, lemma_written_u32_be,
    lemma_written_u32_le, lemma_written_u64_le, put_u128_be, put_u16_le, put_u32_be, put_u32_le,
    put_u64_le, read_u128_be, read_u16_le, read_u32_be, read_u32_le, read_u64_le, take_u128_be,
    take_u16_le, take_u32_be, take_u32_le, take_u64_le, u128_be, u16_le, u32_be, u32_le, u64_le,
};
use crate::proto::{Operation, OperationView, Packet, PacketView, Payload};
use vstd::prelude::*;

verus! {

/// Why bytes were not accepted.
#[derive(Clone, Copy, Debug, PartialEq, Eq, Structural)]
pub enum DecodeError {
    /// The bytes end before what they announce is complete.
    Truncated,
    /// A tag or a count has a value that the format does not know, or a set
    /// names a member twice.
    Malformed,
    /// A frame announces a length that this machine cannot hold.
    BadLength,
}

/// The tag of an IPv4 address.
pub const TAG_V4: u32 = 0;

/// The tag of an IPv6 address.
pub const TAG_V6: u32 = 1;

/// The tag of a broadcast.
pub const TAG_BROADCAST: u32 = 0;

/// The tag of a directed packet.
pub const TAG_DIRECTED: u32 = 1;

/// The tag of a message payload.
pub const TAG_MESSAGE: u32 = 0;

/// The number of bytes of an identifier, which precedes it on the wire.
pub const ID_LENGTH: u64 = 16;

/// The bytes of an address: its tag, its octets in network order, its port.
pub open spec fn address_bytes(addr: Address) -> Seq<u8> {
    match addr {
        Address::V4 { ip, port } => u32_le(TAG_V4) + u32_be(ip) + u16_le(port),
        Address::V6 { ip, port } => u32_le(TAG_V6) + u128_be(ip) + u16_le(port),
    }
}

/// Splits an address off the front of `s`.
pub open spec fn parse_address(s: Seq<u8>) -> Result<(Address, Seq<u8>), DecodeError> {
    match read_u32_le(s) {
        None => Err(DecodeError::Truncated),
        Some((tag, after_tag)) => if tag == TAG_V4 {
            match read_u32_be(after_tag) {
                None => Err(DecodeError::Truncated),
                Some((ip, after_ip)) => match read_u16_le(after_ip) {
                    None => Err(DecodeError::Truncated),
                    Some((port, rest)) => Ok((Address::V4 { ip, port }, rest)),
                },
            }
        } else if tag == TAG_V6 {
            match read_u128_be(after_tag) {
                None => Err(DecodeError::Truncated),
                Some((ip, after_ip)) => match read_u16_le(after_ip) {
                    None => Err(DecodeError::Truncated),
                    Some((port, rest)) => Ok((Address::V6 { ip, port }, rest)),
                },
            }
        } else {
            Err(DecodeError::Malformed)
        },
    }
}

/// Parsing the bytes of an address gives the address back, and what
/// followed it.
pub proof fn lemma_parse_address(addr: Address, tail: Seq<u8>)
    ensures
        parse_address(address_bytes(addr) + tail) == Ok::<_, DecodeError>((addr, tail)),
{
    match addr {
        Address::V4 { ip, port } => {
            lemma_read_u32_le(TAG_V4, u32_be(ip) + u16_le(port) + tail);
            lemma_read_u32_be(ip, u16_le(port) + tail);
            lemma_read_u16_le(port, tail);
            assert(address_bytes(addr) + tail =~= u32_le(TAG_V4) + (u32_be(ip) + u16_le(port)
                + tail));
            assert(u32_be(ip) + u16_le(port) + tail =~= u32_be(ip) + (u16_le(port) + tail));
        },
        Address::V6 { ip, port } => {
            lemma_read_u32_le(TAG_V6, u128_be(ip) + u16_le(port) + tail);
            lemma_read_u128_be(ip, u16_le(port) + tail);
            lemma_read_u16_le(port, tail);
            assert(address_bytes(addr) + tail =~= u32_le(TAG_V6) + (u128_be(ip) + u16_le(port)
                + tail));
            assert(u128_be(ip) + u16_le(port) + tail =~= u128_be(ip) + (u16_le(port) + tail));
        },
    }
}

/// Bytes that parse as an address begin with the bytes of that address.
pub proof fn lemma_address_written(s: Seq<u8>)
    ensures
        parse_address(s) matches Ok((addr, rest)) ==> s == address_bytes(addr) + rest,
{
    lemma_written_u32_le(s);
    if let Some((tag, after_tag)) = read_u32_le(s) {
        if tag == TAG_V4 {
            lemma_written_u32_be(after_tag);
            if let Some((ip, after_ip)) = read_u32_be(after_tag) {
                lemma_written_u16_le(after_ip);
                if let Some((port, rest)) = read_u16_le(after_ip) {
                    assert(s =~= u32_le(TAG_V4) + u32_be(ip) + u16_le(port) + rest);
                }
            }
        } else if tag == TAG_V6 {
            lemma_written_u128_be(after_tag);
            if let Some((ip, after_ip)) = read_u128_be(after_tag) {
                lemma_written_u16_le(after_ip);
                if let Some((port, rest)) = read_u16_le(after_ip) {
                    assert(s =~= u32_le(TAG_V6) + u128_be(ip) + u16_le(port) + rest);
                }
            }
        }
    }
}

/// Appends the bytes of `addr` to `out`.
pub fn put_address(out: &mut Vec<u8>, addr: Address)
    ensures
        final(out)@ == old(out)@ + address_bytes(addr),
{
    match addr {
        Address::V4 { ip, port } => {
            put_u32_le(out, TAG_V4);
            put_u32_be(out, ip);
            put_u16_le(out, port);
            assert(out@ =~= old(out)@ + address_bytes(addr));
        },
        Address::V6 { ip, port } => {
            put_u32_le(out, TAG_V6);
            put_u128_be(out, ip);
            put_u16_le(out, port);
            assert(out@ =~= old(out)@ + address_bytes(addr));
        },
    }
}

/// Whether the outcome `r` of reading at an offset of `bytes` is the
/// outcome `parsed` of parsing what stands there: the same error, or the
/// same value and the offset at which the rest begins.
pub open spec fn agrees<T>(
    r: Result<(T, usize), DecodeError>,
    parsed: Result<(T, Seq<u8>), DecodeError>,
    bytes: Seq<u8>,
) -> bool {
    match parsed {
        Ok((value, rest)) => r matches Ok((got, next)) && got == value && next <= bytes.len()
            && bytes.skip(next as int) == rest,
        Err(e) => r == Err::<(T, usize), _>(e),
    }
}

/// Reads an address at offset `at` of `bytes`: the address and the offset
/// behind it. An offset behind the end of `bytes` finds them truncated.
pub fn take_address(bytes: &[u8], at: usize) -> (r: Result<(Address, usize), DecodeError>)
    ensures
        at > bytes@.len() ==> r == Err::<(Address, usize), _>(DecodeError::Truncated),
        at <= bytes@.len() ==> agrees(r, parse_address(bytes@.skip(at as int)), bytes@),
{
    let (tag, after_tag) = match take_u32_le(bytes, at) {
        None => { return Err(DecodeError::Truncated); },
        Some(found) => found,
    };
    if tag == TAG_V4 {
        let (ip, after_ip) = match take_u32_be(bytes, after_tag) {
            None => { return Err(DecodeError::Truncated); },
            Some(found) => found,
        };
        let (port, next) = match take_u16_le(bytes, after_ip) {
            None => { return Err(DecodeError::Truncated); },
            Some(found) => found,
        };
        Ok((Address::V4 { ip, port }, next))
    } else if tag == TAG_V6 {
        let (ip, after_ip) = match take_u128_be(bytes, after_tag) {
            None => { return Err(DecodeError::Truncated); },
            Some(found) => found,
        };
        let (port, next) = match take_u16_le(bytes, after_ip) {
            None => { return Err(DecodeError::Truncated); },
            Some(found) => found,
        };
        Ok((Address::V6 { ip, port }, next))
    } else {
        Err(DecodeError::Malformed)
    }
}

/// The bytes of the members of a set, one address after the other.
pub open spec fn members_bytes(list: Seq<Address>) -> Seq<u8>
    decreases list.len(),
{
    if list.len() == 0 {
        Seq::empty()
    } else {
        address_bytes(list[0]) + members_bytes(list.skip(1))
    }
}

/// Splits `count` addresses off the front of `s` and adds them to `have`.
/// An address that was there already is an error.
pub open spec fn parse_members(s: Seq<u8>, count: nat, have: Seq<Address>) -> Result<
    (Seq<Address>, Seq<u8>),
    DecodeError,
>
    decreases count,
{
    if count == 0 {
        Ok((have, s))
    } else {
        match parse_address(s) {
            Err(e) => Err(e),
            Ok((addr, rest)) => if have.contains(addr) {
                Err(DecodeError::Malformed)
            } else {
                parse_members(rest, (count - 1) as nat, have.push(addr))
            },
        }
    }
}

/// Parsing the bytes of distinct addresses gives the addresses back, in
/// order, and what followed them.
pub proof fn lemma_parse_members(list: Seq<Address>, have: Seq<Address>, tail: Seq<u8>)
    requires
        (have + list).no_duplicates(),
    ensures
        parse_members(members_bytes(list) + tail, list.len(), have) == Ok::<_, DecodeError>(
            (have + list, tail),
        ),
    decreases list.len(),
{
    if list.len() == 0 {
        assert(members_bytes(list) + tail =~= tail);
        assert(have + list =~= have);
    } else {
        let first = list[0];
        let others = list.skip(1);
        lemma_parse_address(first, members_bytes(others) + tail);
        assert(members_bytes(list) + tail =~= address_bytes(first) + (members_bytes(others)
            + tail));
        assert(!have.contains(first)) by {
            if have.contains(first) {
                let i = have.index_of(first);
                assert((have + list)[i] == first);
                assert((have + list)[have.len() as int] == first);
            }
        }
        assert(have.push(first) + others =~= have + list);
        lemma_parse_members(others, have.push(first), tail);
    }
}

/// Bytes that parse as `count` more members begin with the bytes of those
/// members, and the members found are distinct.
pub proof fn lemma_members_written(s: Seq<u8>, count: nat, have: Seq<Address>)
    requires
        have.no_duplicates(),
    ensures
        parse_members(s, count, have) matches Ok((all, rest)) ==> {
            &&& all.no_duplicates()
            &&& all.len() == have.len() + count
            &&& all.take(have.len() as int) == have
            &&& s == members_bytes(all.skip(have.len() as int)) + rest
        },
    decreases count,
{
    if count == 0 {
        assert(have.take(have.len() as int) =~= have);
        assert(have.skip(have.len() as int) =~= Seq::<Address>::empty());
        assert(s =~= members_bytes(Seq::<Address>::empty()) + s);
    } else {
        lemma_address_written(s);
        if let Ok((addr, after)) = parse_address(s) {
            if !have.contains(addr) {
                let more = have.push(addr);
                assert(more.no_duplicates()) by {
                    assert forall|i: int, j: int|
                        0 <= i < more.len() && 0 <= j < more.len() && i != j implies more[i]
                        != more[j] by {
                        if i < have.len() {
                            assert(have.contains(more[i]));
                        }
                        if j < have.len() {
                            assert(have.contains(more[j]));
                        }
                    }
                }
                lemma_members_written(after, (count - 1) as nat, more);
                if let Ok((all, rest)) = parse_members(after, (count - 1) as nat, more) {
                    let n = have.len() as int;
                    assert(all.take(n) =~= have) by {
                        assert(all.take(n + 1) == more);
                        assert forall|i: int| 0 <= i < n implies all.take(n)[i] == have[i] by {
                            assert(all.take(n + 1)[i] == more[i]);
                        }
                    }
                    let found = all.skip(n);
                    assert(found[0] == addr) by {
                        assert(all.take(n + 1)[n] == more[n]);
                    }
                    assert(found.skip(1) =~= all.skip(n + 1));
                    assert(s =~= members_bytes(found) + rest) by {
                        assert(s == address_bytes(addr) + after);
                        assert(after == members_bytes(all.skip(n + 1)) + rest);
                        assert(members_bytes(found) == address_bytes(addr) + members_bytes(
                            found.skip(1),
                        ));
                    }
                }
            }
        }
    }
}

/// Appends the bytes of the members of `set` to `out`.
pub fn put_members(out: &mut Vec<u8>, set: &AddressSet)
    ensures
        final(out)@ == old(out)@ + members_bytes(set@),
{
    let n: usize = set.len();
    let mut i: usize = 0;
    assert(set@.skip(0) =~= set@);
    while i < n
        invariant
            n == set@.len(),
            i <= n,
            out@ + members_bytes(set@.skip(i as int)) == old(out)@ + members_bytes(set@),
        decreases n - i,
    {
        let ghost before = out@;
        let ghost left = set@.skip(i as int);
        if let Some(addr) = set.get(i) {
            put_address(out, addr);
        }
        i += 1;
        proof {
            assert(left.skip(1) =~= set@.skip(i as int));
            assert(members_bytes(left) == address_bytes(left[0]) + members_bytes(left.skip(1)));
            assert(out@ + members_bytes(set@.skip(i as int)) =~= before + members_bytes(left));
        }
    }
    assert(set@.skip(n as int) =~= Seq::<Address>::empty());
    assert(out@ + members_bytes(Seq::<Address>::empty()) =~= out@);
}

/// Reads `count` distinct addresses at offset `at` of `bytes`: the set of
/// them and the offset behind them. An offset behind the end of `bytes`
/// finds them truncated.
pub fn take_members(bytes: &[u8], at: usize, count: u64) -> (r: Result<
    (AddressSet, usize),
    DecodeError,
>)
    ensures
        at > bytes@.len() ==> (r matches Err(got) && got == DecodeError::Truncated),
        at <= bytes@.len() ==> match parse_members(
            bytes@.skip(at as int),
            count as nat,
            Seq::empty(),
        ) {
            Ok((all, rest)) => r matches Ok((set, next)) && set@ == all && next <= bytes@.len()
                && bytes@.skip(next as int) == rest,
            Err(e) => r matches Err(got) && got == e,
        },
{
    if at > bytes.len() {
        return Err(DecodeError::Truncated);
    }
    let mut set = AddressSet::new();
    let mut next = at;
    let mut left = count;
    while left > 0
        invariant
            at <= bytes@.len(),
            next <= bytes@.len(),
            parse_members(bytes@.skip(at as int), count as nat, Seq::empty()) == parse_members(
                bytes@.skip(next as int),
                left as nat,
                set@,
            ),
        decreases left,
    {
        let (addr, after) = match take_address(bytes, next) {
            Err(e) => { return Err(e); },
            Ok(found) => found,
        };
        if !set.insert(addr) {
            return Err(DecodeError::Malformed);
        }
        next = after;
        left -= 1;
    }
    Ok((set, next))
}

/// Whether an operation can be written: its visited nodes are distinct and
/// their number fits the count field. Every [`Operation`] has such a model.
pub open spec fn writable(op: OperationView) -> bool {
    op matches OperationView::Broadcast { seen, .. } ==> seen.no_duplicates() && seen.len()
        <= u64::MAX
}

/// The bytes of an operation: its tag and its fields. The visited nodes of
/// a broadcast are preceded by their number.
pub open spec fn operation_bytes(op: OperationView) -> Seq<u8> {
    match op {
        OperationView::Broadcast { seen, hops } => u32_le(TAG_BROADCAST) + u64_le(
            seen.len() as u64,
        ) + members_bytes(seen) + u16_le(hops),
        OperationView::Directed { target } => u32_le(TAG_DIRECTED) + address_bytes(target),
    }
}

/// Splits an operation off the front of `s`.
pub open spec fn parse_operation(s: Seq<u8>) -> Result<(OperationView, Seq<u8>), DecodeError> {
    match read_u32_le(s) {
        None => Err(DecodeError::Truncated),
        Some((tag, after_tag)) => if tag == TAG_BROADCAST {
            match read_u64_le(after_tag) {
                None => Err(DecodeError::Truncated),
                Some((count, after_count)) => match parse_members(
                    after_count,
                    count as nat,
                    Seq::empty(),
                ) {
                    Err(e) => Err(e),
                    Ok((seen, after_seen)) => match read_u16_le(after_seen) {
                        None => Err(DecodeError::Truncated),
                        Some((hops, rest)) => Ok((OperationView::Broadcast { seen, hops }, rest)),
                    },
                },
            }
        } else if tag == TAG_DIRECTED {
            match parse_address(after_tag) {
                Err(e) => Err(e),
                Ok((target, rest)) => Ok((OperationView::Directed { target }, rest)),
            }
        } else {
            Err(DecodeError::Malformed)
        },
    }
}

/// Parsing the bytes of an operation gives the operation back, and what
/// followed it.
pub proof fn lemma_parse_operation(op: OperationView, tail: Seq<u8>)
    requires
        writable(op),
    ensures
        parse_operation(operation_bytes(op) + tail) == Ok::<_, DecodeError>((op, tail)),
{
    match op {
        OperationView::Broadcast { seen, hops } => {
            let count = seen.len() as u64;
            let after_tag = u64_le(count) + members_bytes(seen) + u16_le(hops) + tail;
            let after_count = members_bytes(seen) + (u16_le(hops) + tail);
            lemma_read_u32_le(TAG_BROADCAST, after_tag);
            lemma_read_u64_le(count, after_count);
            assert(Seq::<Address>::empty() + seen =~= seen);
            lemma_parse_members(seen, Seq::empty(), u16_le(hops) + tail);
            lemma_read_u16_le(hops, tail);
            assert(operation_bytes(op) + tail =~= u32_le(TAG_BROADCAST) + after_tag);
            assert(after_tag =~= u64_le(count) + after_count);
        },
        OperationView::Directed { target } => {
            lemma_read_u32_le(TAG_DIRECTED, address_bytes(target) + tail);
            lemma_parse_address(target, tail);
            assert(operation_bytes(op) + tail =~= u32_le(TAG_DIRECTED) + (address_bytes(target)
                + tail));
        },
    }
}

/// Bytes that parse as an operation begin with the bytes of that operation,
/// which can be written.
pub proof fn lemma_operation_written(s: Seq<u8>)
    ensures
        parse_operation(s) matches Ok((op, rest)) ==> writable(op) && s == operation_bytes(op)
            + rest,
{
    lemma_written_u32_le(s);
    if let Some((tag, after_tag)) = read_u32_le(s) {
        if tag == TAG_BROADCAST {
            lemma_written_u64_le(after_tag);
            if let Some((count, after_count)) = read_u64_le(after_tag) {
                lemma_members_written(after_count, count as nat, Seq::empty());
                if let Ok((seen, after_seen)) = parse_members(
                    after_count,
                    count as nat,
                    Seq::empty(),
                ) {
                    lemma_written_u16_le(after_seen);
                    if let Some((hops, rest)) = read_u16_le(after_seen) {
                        assert(seen.skip(0) =~= seen);
                        assert(seen.len() as u64 == count);
                        assert(s =~= u32_le(TAG_BROADCAST) + u64_le(count) + members_bytes(seen)
                            + u16_le(hops) + rest);
                    }
                }
            }
        } else if tag == TAG_DIRECTED {
            lemma_address_written(after_tag);
            if let Ok((target, rest)) = parse_address(after_tag) {
                assert(s =~= u32_le(TAG_DIRECTED) + address_bytes(target) + rest);
            }
        }
    }
}

/// Appends the bytes of `op` to `out`.
pub fn put_operation(out: &mut Vec<u8>, op: &Operation)
    ensures
        final(out)@ == old(out)@ + operation_bytes(op@),
        writable(op@),
{
    match op {
        Operation::Broadcast { seen, hops } => {
            let count = seen.len();
            put_u32_le(out, TAG_BROADCAST);
            put_u64_le(out, count as u64);
            put_members(out, seen);
            put_u16_le(out, *hops);
            assert(out@ =~= old(out)@ + operation_bytes(op@));
        },
        Operation::Directed { target } => {
            put_u32_le(out, TAG_DIRECTED);
            put_address(out, *target);
            assert(out@ =~= old(out)@ + operation_bytes(op@));
        },
    }
}

/// Reads an operation at offset `at` of `bytes`: the operation and the
/// offset behind it. An offset behind the end of `bytes` finds them
/// truncated.
pub fn take_operation(bytes: &[u8], at: usize) -> (r: Result<(Operation, usize), DecodeError>)
    ensures
        at > bytes@.len() ==> (r matches Err(got) && got == DecodeError::Truncated),
        at <= bytes@.len() ==> match parse_operation(bytes@.skip(at as int)) {
            Ok((model, rest)) => r matches Ok((op, next)) && op@ == model && next <= bytes@.len()
                && bytes@.skip(next as int) == rest,
            Err(e) => r matches Err(got) && got == e,
        },
{
    let (tag, after_tag) = match take_u32_le(bytes, at) {
        None => { return Err(DecodeError::Truncated); },
        Some(found) => found,
    };
    if tag == TAG_BROADCAST {
        let (count, after_count) = match take_u64_le(bytes, after_tag) {
            None => { return Err(DecodeError::Truncated); },
            Some(found) => found,
        };
        let (seen, after_seen) = match take_members(bytes, after_count, count) {
            Err(e) => { return Err(e); },
            Ok(found) => found,
        };
        let (hops, next) = match take_u16_le(bytes, after_seen) {
            None => { return Err(DecodeError::Truncated); },
            Some(found) => found,
        };
        Ok((Operation::Broadcast { seen, hops }, next))
    } else if tag == TAG_DIRECTED {
        let (target, next) = match take_address(bytes, after_tag) {
            Err(e) => { return Err(e); },
            Ok(found) => found,
        };
        Ok((Operation::Directed { target }, next))
    } else {
        Err(DecodeError::Malformed)
    }
}

/// The model of a packet whose payload is a string of bytes.
pub open spec fn wire_view(packet: Packet<Vec<u8>>) -> PacketView<Seq<u8>> {
    PacketView {
        id: packet.id,
        sender: packet.sender,
        op: packet.op@,
        payload: match packet.payload {
            Payload::Message(body) => Payload::Message(body@),
        },
    }
}

/// The bytes of the payload of a packet.
pub open spec fn body_of(packet: PacketView<Seq<u8>>) -> Seq<u8> {
    match packet.payload {
        Payload::Message(body) => body,
    }
}

/// The bytes of a packet: the identifier, preceded by its length; the
/// originator; the operation; the tag of the payload; the payload.
pub open spec fn packet_bytes(packet: PacketView<Seq<u8>>) -> Seq<u8> {
    u64_le(ID_LENGTH) + u128_be(packet.id) + address_bytes(packet.sender) + operation_bytes(
        packet.op,
    ) + u32_le(TAG_MESSAGE) + body_of(packet)
}

/// The packet that `s` holds. Whatever follows the tag of the payload is
/// the payload.
pub open spec fn parse_packet(s: Seq<u8>) -> Result<PacketView<Seq<u8>>, DecodeError> {
    match read_u64_le(s) {
        None => Err(DecodeError::Truncated),
        Some((length, after_length)) => if length != ID_LENGTH {
            Err(DecodeError::Malformed)
        } else {
            match read_u128_be(after_length) {
                None => Err(DecodeError::Truncated),
                Some((id, after_id)) => match parse_address(after_id) {
                    Err(e) => Err(e),
                    Ok((sender, after_sender)) => match parse_operation(after_sender) {
                        Err(e) => Err(e),
                        Ok((op, after_op)) => match read_u32_le(after_op) {
                            None => Err(DecodeError::Truncated),
                            Some((tag, body)) => if tag != TAG_MESSAGE {
                                Err(DecodeError::Malformed)
                            } else {
                                Ok(PacketView { id, sender, op, payload: Payload::Message(body) })
                            },
                        },
                    },
                },
            }
        },
    }
}

/// Round trip: the bytes of a packet parse as that packet.
pub proof fn lemma_packet_round_trip(packet: PacketView<Seq<u8>>)
    requires
        writable(packet.op),
    ensures
        parse_packet(packet_bytes(packet)) == Ok::<_, DecodeError>(packet),
{
    let body = body_of(packet);
    let after_op = u32_le(TAG_MESSAGE) + body;
    let after_sender = operation_bytes(packet.op) + after_op;
    let after_id = address_bytes(packet.sender) + after_sender;
    let after_length = u128_be(packet.id) + after_id;
    lemma_read_u64_le(ID_LENGTH, after_length);
    lemma_read_u128_be(packet.id, after_id);
    lemma_parse_address(packet.sender, after_sender);
    lemma_parse_operation(packet.op, after_op);
    lemma_read_u32_le(TAG_MESSAGE, body);
    assert(packet_bytes(packet) =~= u64_le(ID_LENGTH) + after_length);
    assert(packet.payload == Payload::Message(body));
}

/// Bytes that parse as a packet are the bytes of that packet: no other
/// bytes stand for it.
pub proof fn lemma_packet_written(s: Seq<u8>)
    ensures
        parse_packet(s) matches Ok(packet) ==> writable(packet.op) && packet_bytes(packet) == s,
{
    lemma_written_u64_le(s);
    if let Some((length, after_length)) = read_u64_le(s) {
        lemma_written_u128_be(after_length);
        if let Some((id, after_id)) = read_u128_be(after_length) {
            lemma_address_written(after_id);
            if let Ok((sender, after_sender)) = parse_address(after_id) {
                lemma_operation_written(after_sender);
                if let Ok((op, after_op)) = parse_operation(after_sender) {
                    lemma_written_u32_le(after_op);
                    if let Some((tag, body)) = read_u32_le(after_op) {
                        if length == ID_LENGTH && tag == TAG_MESSAGE {
                            assert(s =~= u64_le(ID_LENGTH) + u128_be(id) + address_bytes(sender)
                                + operation_bytes(op) + u32_le(TAG_MESSAGE) + body);
                        }
                    }
                }
            }
        }
    }
}

/// The bytes of `packet`.
pub fn encode_packet(packet: &Packet<Vec<u8>>) -> (bytes: Vec<u8>)
    ensures
        bytes@ == packet_bytes(wire_view(*packet)),
        writable(packet.op@),
{
    let mut bytes: Vec<u8> = Vec::new();
    put_u64_le(&mut bytes, ID_LENGTH);
    put_u128_be(&mut bytes, packet.id);
    put_address(&mut bytes, packet.sender);
    put_operation(&mut bytes, &packet.op);
    put_u32_le(&mut bytes, TAG_MESSAGE);
    match &packet.payload {
        Payload::Message(body) => {
            let mut i: usize = 0;
            let ghost head = bytes@;
            while i < body.len()
                invariant
                    i <= body@.len(),
                    bytes@ == head + body@.subrange(0, i as int),
                decreases body@.len() - i,
            {
                bytes.push(body[i]);
                i += 1;
                assert(bytes@ =~= head + body@.subrange(0, i as int));
            }
            assert(body@.subrange(0, i as int) =~= body@);
        },
    }
    assert(bytes@ =~= packet_bytes(wire_view(*packet)));
    bytes
}

/// The packet that `bytes` holds, or why they hold none.
pub fn decode_packet(bytes: &[u8]) -> (r: Result<Packet<Vec<u8>>, DecodeError>)
    ensures
        match parse_packet(bytes@) {
            Ok(model) => r matches Ok(packet) && wire_view(packet) == model,
            Err(e) => r matches Err(got) && got == e,
        },
{
    assert(bytes@.skip(0) =~= bytes@);
    let (length, after_length) = match take_u64_le(bytes, 0) {
        None => { return Err(DecodeError::Truncated); },
        Some(found) => found,
    };
    if length != ID_LENGTH {
        return Err(DecodeError::Malformed);
    }
    let (id, after_id) = match take_u128_be(bytes, after_length) {
        None => { return Err(DecodeError::Truncated); },
        Some(found) => found,
    };
    let (sender, after_sender) = match take_address(bytes, after_id) {
        Err(e) => { return Err(e); },
        Ok(found) => found,
    };
    let (op, after_op) = match take_operation(bytes, after_sender) {
        Err(e) => { return Err(e); },
        Ok(found) => found,
    };
    let (tag, start) = match take_u32_le(bytes, after_op) {
        None => { return Err(DecodeError::Truncated); },
        Some(found) => found,
    };
    if tag != TAG_MESSAGE {
        return Err(DecodeError::Malformed);
    }
    let body = vstd::slice::slice_to_vec(vstd::slice::slice_subrange(bytes, start, bytes.len()));
    assert(body@ =~= bytes@.skip(start as int));
    Ok(Packet { id, sender, op, payload: Payload::Message(body) })
}

} // verus!
