use floodnet::address::{Address, AddressSet};
use floodnet::proto::{Operation, Packet, Payload};
use floodnet::wire::{decode_packet, encode_packet, put_address, take_address, DecodeError};

fn visited(addrs: &[Address]) -> AddressSet {
    let mut set = AddressSet::new();
    for a in addrs {
        set.insert(*a);
    }
    set
}

fn sample() -> Packet<Vec<u8>> {
    let origin = Address::localhost(7000);
    Packet::with_id(
        0x0102_0304_0506_0708_090a_0b0c_0d0e_0f10,
        Operation::Broadcast { seen: visited(&[origin]), hops: 0 },
        origin,
        Payload::Message(vec![0x68, 0x69]),
    )
}

fn sample_bytes() -> Vec<u8> {
    vec![
        // the identifier: its length, then its sixteen bytes
        16, 0, 0, 0, 0, 0, 0, 0,
        1, 2, 3, 4, 5, 6, 7, 8, 9, 10, 11, 12, 13, 14, 15, 16,
        // the originator: IPv4, 127.0.0.1, port 7000
        0, 0, 0, 0, 127, 0, 0, 1, 0x58, 0x1b,
        // a broadcast that has visited one node and made no hop
        0, 0, 0, 0,
        1, 0, 0, 0, 0, 0, 0, 0,
        0, 0, 0, 0, 127, 0, 0, 1, 0x58, 0x1b,
        0, 0,
        // a message
        0, 0, 0, 0,
        0x68, 0x69,
    ]
}

#[test]
fn a_packet_is_written_field_by_field() {
    assert_eq!(encode_packet(&sample()), sample_bytes());
}

#[test]
fn the_written_bytes_are_read_as_the_packet() {
    assert_eq!(decode_packet(&sample_bytes()), Ok(sample()));
}

#[test]
fn an_ipv4_address_is_tag_octets_port() {
    let mut out = vec![0xff];
    put_address(&mut out, Address::V4 { ip: 0xc0a8_0102, port: 0x1234 });
    assert_eq!(out, vec![0xff, 0, 0, 0, 0, 192, 168, 1, 2, 0x34, 0x12]);
}

#[test]
fn an_ipv6_address_is_tag_octets_port() {
    let mut out = Vec::new();
    put_address(&mut out, Address::V6 { ip: 1, port: 80 });
    assert_eq!(
        out,
        vec![1, 0, 0, 0, 0, 0, 0, 0, 0, 0, 0, 0, 0, 0, 0, 0, 0, 0, 0, 1, 80, 0]
    );
    assert_eq!(take_address(&out, 0), Ok((Address::V6 { ip: 1, port: 80 }, 22)));
}

#[test]
fn an_address_is_read_at_an_offset() {
    let bytes = vec![9, 9, 0, 0, 0, 0, 10, 0, 0, 7, 1, 0, 9];
    assert_eq!(take_address(&bytes, 2), Ok((Address::V4 { ip: 0x0a00_0007, port: 1 }, 12)));
    assert_eq!(take_address(&bytes, 4), Err(DecodeError::Malformed));
    assert_eq!(take_address(&bytes, 13), Err(DecodeError::Truncated));
}

#[test]
fn round_trip_of_a_directed_packet() {
    let packet = Packet::with_id(
        u128::MAX,
        Operation::Directed { target: Address::V6 { ip: u128::MAX - 1, port: 65535 } },
        Address::V4 { ip: 0, port: 0 },
        Payload::Message(Vec::new()),
    );
    let bytes = encode_packet(&packet);
    assert_eq!(bytes.len(), 8 + 16 + 10 + 4 + 22 + 4);
    assert_eq!(decode_packet(&bytes), Ok(packet));
}

#[test]
fn round_trip_of_a_broadcast_that_has_travelled() {
    let a = Address::localhost(7000);
    let b = Address::V6 { ip: 0x2001_0db8 << 96, port: 7001 };
    let c = Address::V4 { ip: 0x0a01_0203, port: 7002 };
    let packet = Packet::with_id(
        7,
        Operation::Broadcast { seen: visited(&[a, b, c]), hops: 2 },
        a,
        Payload::Message(vec![1, 2, 3, 4, 5]),
    );
    let bytes = encode_packet(&packet);
    let back = decode_packet(&bytes).unwrap();
    assert_eq!(back, packet);
    match back.op {
        Operation::Broadcast { seen, hops } => {
            assert_eq!(hops, 2);
            assert_eq!(seen.len(), 3);
            assert_eq!(seen.get(0), Some(a));
            assert_eq!(seen.get(1), Some(b));
            assert_eq!(seen.get(2), Some(c));
        }
        Operation::Directed { .. } => panic!("a broadcast was written"),
    }
}

#[test]
fn round_trip_of_a_broadcast_that_has_visited_nobody() {
    let packet = Packet::with_id(
        0,
        Operation::Broadcast { seen: AddressSet::new(), hops: 65535 },
        Address::localhost(1),
        Payload::Message(vec![0; 300]),
    );
    assert_eq!(decode_packet(&encode_packet(&packet)), Ok(packet));
}

#[test]
fn every_proper_prefix_of_the_fields_is_truncated() {
    let bytes = sample_bytes();
    let fields = bytes.len() - 2;
    for cut in 0..fields {
        assert_eq!(decode_packet(&bytes[..cut]), Err(DecodeError::Truncated), "cut at {}", cut);
    }
    let without_payload = decode_packet(&bytes[..fields]).unwrap();
    assert_eq!(without_payload.payload, Payload::Message(Vec::new()));
    let half_payload = decode_packet(&bytes[..fields + 1]).unwrap();
    assert_eq!(half_payload.payload, Payload::Message(vec![0x68]));
}

#[test]
fn an_identifier_of_another_length_is_malformed() {
    let mut bytes = sample_bytes();
    bytes[0] = 15;
    assert_eq!(decode_packet(&bytes), Err(DecodeError::Malformed));
    bytes[0] = 16;
    bytes[7] = 1;
    assert_eq!(decode_packet(&bytes), Err(DecodeError::Malformed));
}

#[test]
fn an_unknown_address_tag_is_malformed() {
    let mut bytes = sample_bytes();
    bytes[24] = 2;
    assert_eq!(decode_packet(&bytes), Err(DecodeError::Malformed));
}

#[test]
fn an_unknown_operation_tag_is_malformed() {
    let mut bytes = sample_bytes();
    bytes[34] = 2;
    assert_eq!(decode_packet(&bytes), Err(DecodeError::Malformed));
}

#[test]
fn an_unknown_payload_tag_is_malformed() {
    let mut bytes = sample_bytes();
    bytes[58] = 1;
    assert_eq!(decode_packet(&bytes), Err(DecodeError::Malformed));
}

#[test]
fn a_visited_node_named_twice_is_malformed() {
    let mut bytes = sample_bytes();
    bytes[38] = 2;
    let member: Vec<u8> = bytes[46..56].to_vec();
    for (i, b) in member.iter().enumerate() {
        bytes.insert(56 + i, *b);
    }
    assert_eq!(decode_packet(&bytes), Err(DecodeError::Malformed));
    bytes[65] = 0x1c;
    let packet = decode_packet(&bytes).unwrap();
    assert_eq!(
        packet.op,
        Operation::Broadcast {
            seen: visited(&[Address::localhost(7000), Address::localhost(0x1c58)]),
            hops: 0
        }
    );
}

#[test]
fn a_count_beyond_the_members_present_is_truncated() {
    let mut bytes = sample_bytes();
    bytes[38] = 3;
    assert_eq!(decode_packet(&bytes), Err(DecodeError::Truncated));
    for i in 38..46 {
        bytes[i] = 0xff;
    }
    assert_eq!(decode_packet(&bytes), Err(DecodeError::Truncated));
}

#[test]
fn the_layout_is_that_of_bincode_for_the_same_fields() {
    let message = String::from("hello");
    let body: Vec<u8> = bincode::serialize(&message).unwrap();
    let origin = Address::localhost(7000);
    let relay = Address::V6 { ip: 1, port: 7001 };
    let packet = Packet::with_id(
        0x0102_0304_0506_0708_090a_0b0c_0d0e_0f10,
        Operation::Broadcast { seen: visited(&[origin, relay]), hops: 1 },
        origin,
        Payload::Message(body),
    );
    let id: Vec<u8> = (1u8..=16).collect();
    let v4 = (0u32, [127u8, 0, 0, 1], 7000u16);
    let v6 = (1u32, [0u8, 0, 0, 0, 0, 0, 0, 0, 0, 0, 0, 0, 0, 0, 0, 1], 7001u16);
    let header: Vec<u8> = bincode::serialize(&(id, v4, 0u32, 2u64, v4, v6, 1u16)).unwrap();
    let payload: Vec<u8> = bincode::serialize(&(0u32, message)).unwrap();
    let mut expected = header;
    expected.extend_from_slice(&payload);
    assert_eq!(encode_packet(&packet), expected);
    let back = decode_packet(&expected).unwrap();
    let text: String = match back.payload {
        Payload::Message(bytes) => bincode::deserialize(&bytes).unwrap(),
    };
    assert_eq!(text, "hello");
}
