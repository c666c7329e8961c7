use floodnet::address::{Address, AddressSet};
use floodnet::proto::{Operation, Packet, Payload, ID_KIND_MASK, ID_KIND_RANDOM};

fn visited(addrs: &[Address]) -> AddressSet {
    let mut set = AddressSet::new();
    for a in addrs {
        set.insert(*a);
    }
    set
}

#[test]
fn with_id_keeps_every_part() {
    let a = Address::localhost(7000);
    let packet = Packet::with_id(
        42,
        Operation::Broadcast { seen: visited(&[a]), hops: 3 },
        a,
        Payload::Message(String::from("hello")),
    );
    assert_eq!(packet.id, 42);
    assert_eq!(packet.sender, a);
    assert_eq!(packet.op, Operation::Broadcast { seen: visited(&[a]), hops: 3 });
    assert_eq!(packet.payload, Payload::Message(String::from("hello")));
}

#[test]
fn new_keeps_the_parts_and_draws_a_version_4_identifier() {
    let a = Address::localhost(7000);
    let b = Address::localhost(7001);
    let packet = Packet::new(Operation::Directed { target: b }, a, Payload::Message(5u8));
    assert_eq!(packet.sender, a);
    assert_eq!(packet.op, Operation::Directed { target: b });
    assert_eq!(packet.payload, Payload::Message(5u8));
    assert_eq!(packet.id & ID_KIND_MASK, ID_KIND_RANDOM);
    assert_eq!((packet.id >> 76) & 0xf, 4);
    assert_eq!((packet.id >> 62) & 0x3, 2);
}

#[test]
fn new_draws_a_different_identifier_each_time() {
    let a = Address::localhost(7000);
    let first = Packet::new(Operation::Directed { target: a }, a, Payload::Message(0u8));
    let second = Packet::new(Operation::Directed { target: a }, a, Payload::Message(0u8));
    let third = Packet::new(Operation::Directed { target: a }, a, Payload::Message(0u8));
    assert_ne!(first.id, second.id);
    assert_ne!(second.id, third.id);
    assert_ne!(first.id, third.id);
}

#[test]
fn packets_are_equal_when_all_parts_are() {
    let a = Address::localhost(7000);
    let b = Address::localhost(7001);
    let one = Packet::with_id(
        1,
        Operation::Broadcast { seen: visited(&[a, b]), hops: 1 },
        a,
        Payload::Message(String::from("x")),
    );
    let same = Packet::with_id(
        1,
        Operation::Broadcast { seen: visited(&[b, a]), hops: 1 },
        a,
        Payload::Message(String::from("x")),
    );
    assert_eq!(one, same);
    let mut other = one.clone();
    other.id = 2;
    assert_ne!(one, other);
    let mut other = one.clone();
    other.op = Operation::Broadcast { seen: visited(&[a, b]), hops: 2 };
    assert_ne!(one, other);
}
