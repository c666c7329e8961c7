use floodnet::address::{Address, AddressSet};
use floodnet::frame::{encode, encode_frame};
use floodnet::peer::Receiver;
use floodnet::proto::{Operation, Packet, Payload};
use floodnet::wire::DecodeError;

fn sample(id: u128, body: Vec<u8>) -> Packet<Vec<u8>> {
    let origin = Address::localhost(7000);
    let mut seen = AddressSet::new();
    seen.insert(origin);
    Packet::with_id(id, Operation::Broadcast { seen, hops: 0 }, origin, Payload::Message(body))
}

#[test]
fn a_new_receiver_has_nothing() {
    let mut receiver = Receiver::new();
    assert_eq!(receiver.buffered(), 0);
    assert_eq!(receiver.failure(), None);
    assert_eq!(receiver.recv_packet(), None);
}

#[test]
fn a_packet_comes_out_once_its_frame_is_complete() {
    let packet = sample(1, vec![1, 2, 3]);
    let bytes = encode(&packet);
    let mut receiver = Receiver::new();
    for (i, b) in bytes.iter().enumerate() {
        assert_eq!(receiver.recv_packet(), None, "after {} bytes", i);
        receiver.feed(&[*b]);
    }
    assert_eq!(receiver.buffered(), bytes.len());
    assert_eq!(receiver.recv_packet(), Some(Ok(packet)));
    assert_eq!(receiver.buffered(), 0);
    assert_eq!(receiver.recv_packet(), None);
}

#[test]
fn packets_come_out_in_the_order_in_which_they_were_written() {
    let first = sample(1, vec![1]);
    let second = sample(2, vec![2, 2]);
    let third = sample(3, vec![]);
    let mut bytes = encode(&first);
    bytes.extend_from_slice(&encode(&second));
    bytes.extend_from_slice(&encode(&third));
    let mut receiver = Receiver::new();
    receiver.feed(&bytes[..bytes.len() - 1]);
    assert_eq!(receiver.recv_packet(), Some(Ok(first)));
    assert_eq!(receiver.recv_packet(), Some(Ok(second)));
    assert_eq!(receiver.recv_packet(), None);
    receiver.feed(&bytes[bytes.len() - 1..]);
    assert_eq!(receiver.recv_packet(), Some(Ok(third)));
    assert_eq!(receiver.recv_packet(), None);
}

#[test]
fn a_frame_that_cannot_be_decoded_ends_the_connection() {
    let good = sample(1, vec![1]);
    let mut receiver = Receiver::new();
    receiver.feed(&encode_frame(&[9u8; 40]));
    receiver.feed(&encode(&good));
    assert_eq!(receiver.recv_packet(), Some(Err(DecodeError::Malformed)));
    assert_eq!(receiver.failure(), Some(DecodeError::Malformed));
    assert_eq!(receiver.recv_packet(), Some(Err(DecodeError::Malformed)));
    let held = receiver.buffered();
    receiver.feed(&encode(&good));
    assert_eq!(receiver.buffered(), held);
    assert_eq!(receiver.recv_packet(), Some(Err(DecodeError::Malformed)));
}

#[test]
fn a_length_that_the_machine_cannot_hold_ends_the_connection() {
    let mut receiver = Receiver::new();
    receiver.feed(&[0xff; 8]);
    if usize::MAX as u128 >= u64::MAX as u128 {
        assert_eq!(receiver.recv_packet(), None);
        assert_eq!(receiver.failure(), None);
        assert_eq!(receiver.buffered(), 8);
    } else {
        assert_eq!(receiver.recv_packet(), Some(Err(DecodeError::BadLength)));
        assert_eq!(receiver.failure(), Some(DecodeError::BadLength));
    }
}

#[test]
fn a_large_announced_length_keeps_only_what_was_fed() {
    let mut receiver = Receiver::new();
    receiver.feed(&[0, 0, 0, 0, 0x40, 0, 0, 0]);
    receiver.feed(&[1, 2, 3]);
    assert_eq!(receiver.recv_packet(), None);
    assert_eq!(receiver.failure(), None);
    assert_eq!(receiver.buffered(), 11);
}

#[test]
fn a_complete_frame_with_half_a_packet_is_truncated() {
    let mut receiver = Receiver::new();
    receiver.feed(&encode_frame(&[16, 0, 0, 0, 0, 0, 0, 0, 1, 2, 3]));
    assert_eq!(receiver.recv_packet(), Some(Err(DecodeError::Truncated)));
    assert_eq!(receiver.failure(), Some(DecodeError::Truncated));
}

#[test]
fn packets_before_a_failure_still_come_out() {
    let good = sample(1, vec![1]);
    let mut receiver = Receiver::new();
    receiver.feed(&encode(&good));
    receiver.feed(&encode_frame(&[9u8; 40]));
    assert_eq!(receiver.recv_packet(), Some(Ok(good)));
    assert_eq!(receiver.failure(), None);
    assert_eq!(receiver.recv_packet(), Some(Err(DecodeError::Malformed)));
}
