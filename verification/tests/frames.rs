use floodnet::address::{Address, AddressSet};
use floodnet::frame::{decode, decode_frame, encode, encode_frame, frame_length, HEADER_LENGTH};
use floodnet::proto::{Operation, Packet, Payload};
use floodnet::wire::{encode_packet, DecodeError};

fn sample(body: Vec<u8>) -> Packet<Vec<u8>> {
    let origin = Address::localhost(7000);
    let mut seen = AddressSet::new();
    seen.insert(origin);
    Packet::with_id(9, Operation::Broadcast { seen, hops: 0 }, origin, Payload::Message(body))
}

#[test]
fn a_frame_is_the_length_in_network_order_and_the_body() {
    assert_eq!(encode_frame(&[7, 8, 9]), vec![0, 0, 0, 0, 0, 0, 0, 3, 7, 8, 9]);
    assert_eq!(encode_frame(&[]), vec![0, 0, 0, 0, 0, 0, 0, 0]);
    let long = vec![1u8; 0x0102];
    let frame = encode_frame(&long);
    assert_eq!(&frame[..8], &[0, 0, 0, 0, 0, 0, 1, 2]);
    assert_eq!(&frame[8..], &long[..]);
}

#[test]
fn the_header_has_eight_bytes() {
    assert_eq!(HEADER_LENGTH, 8);
    assert_eq!(encode_frame(&[1, 2, 3, 4, 5]).len(), 8 + 5);
}

#[test]
fn the_length_is_read_from_a_header() {
    assert_eq!(frame_length(&[0, 0, 0, 0, 0, 0, 0, 3]), Ok(3));
    assert_eq!(frame_length(&[0, 0, 0, 0, 0, 0, 1, 2, 99]), Ok(0x0102));
    assert_eq!(frame_length(&[0, 0, 0, 0, 1, 0, 0, 0]), Ok(0x0100_0000));
    assert_eq!(frame_length(&[0, 0, 0, 0, 0xff, 0xff, 0xff, 0xff]), Ok(0xffff_ffff));
}

#[test]
fn a_short_header_is_truncated() {
    assert_eq!(frame_length(&[]), Err(DecodeError::Truncated));
    assert_eq!(frame_length(&[0, 0, 0, 0, 0, 0, 0]), Err(DecodeError::Truncated));
}

#[test]
fn a_length_is_bad_only_where_the_machine_cannot_hold_it() {
    let largest = frame_length(&[0xff; 8]);
    let above_32_bits = frame_length(&[0, 0, 0, 1, 0, 0, 0, 0]);
    if usize::MAX as u128 >= u64::MAX as u128 {
        assert_eq!(largest, Ok(usize::MAX));
        assert_eq!(above_32_bits, Ok(1 << 32));
        assert_eq!(decode_frame(&[0xff; 20]), Err(DecodeError::Truncated));
    } else {
        assert_eq!(largest, Err(DecodeError::BadLength));
        assert_eq!(above_32_bits, Err(DecodeError::BadLength));
        assert_eq!(decode_frame(&[0xff; 20]), Err(DecodeError::BadLength));
    }
}

#[test]
fn a_body_of_seventeen_mebibytes_is_framed_and_read_back() {
    let body = vec![7u8; 17 * 1024 * 1024];
    let frame = encode_frame(&body);
    assert_eq!(frame.len(), 8 + body.len());
    assert_eq!(&frame[..8], &[0, 0, 0, 0, 1, 0x10, 0, 0]);
    let (found, next) = decode_frame(&frame).unwrap();
    assert_eq!(found.len(), body.len());
    assert!(found == &body[..]);
    assert_eq!(next, frame.len());
}

#[test]
fn a_frame_is_split_off_the_front() {
    let bytes = [0, 0, 0, 0, 0, 0, 0, 2, 5, 6, 0, 0, 0];
    let (body, next) = decode_frame(&bytes).unwrap();
    assert_eq!(body, &[5, 6]);
    assert_eq!(next, 10);
}

#[test]
fn a_frame_that_ends_early_is_truncated() {
    assert_eq!(decode_frame(&[0, 0, 0, 0, 0, 0, 0, 2, 5]), Err(DecodeError::Truncated));
    assert_eq!(decode_frame(&[0, 0, 0, 0, 0, 0, 0, 2]), Err(DecodeError::Truncated));
    assert_eq!(decode_frame(&[0, 0, 0]), Err(DecodeError::Truncated));
}

#[test]
fn what_is_written_for_a_packet_is_read_as_that_packet() {
    let packet = sample(vec![1, 2, 3]);
    let bytes = encode(&packet);
    assert_eq!(bytes.len(), 8 + encode_packet(&packet).len());
    assert_eq!(decode(&bytes), Ok((packet, bytes.len())));
}

#[test]
fn two_packets_written_one_after_the_other_are_read_in_order() {
    let first = sample(vec![1]);
    let second = sample(vec![2, 2]);
    let mut bytes = encode(&first);
    let boundary = bytes.len();
    bytes.extend_from_slice(&encode(&second));
    let (got, next) = decode(&bytes).unwrap();
    assert_eq!(got, first);
    assert_eq!(next, boundary);
    let (got, next) = decode(&bytes[next..]).unwrap();
    assert_eq!(got, second);
    assert_eq!(boundary + next, bytes.len());
}

#[test]
fn a_frame_shorter_than_its_packet_is_truncated() {
    let packet = sample(vec![1, 2, 3]);
    let body = encode_packet(&packet);
    let cut = encode_frame(&body[..20]);
    assert_eq!(decode(&cut), Err(DecodeError::Truncated));
}

#[test]
fn a_frame_with_a_foreign_body_is_malformed() {
    let frame = encode_frame(&[3u8; 64]);
    assert_eq!(decode(&frame), Err(DecodeError::Malformed));
}

#[test]
fn a_packet_of_seventeen_mebibytes_is_written_and_read_back() {
    let packet = sample(vec![5u8; 17 * 1024 * 1024]);
    let bytes = encode(&packet);
    assert_eq!(bytes.len(), 8 + encode_packet(&packet).len());
    let (back, next) = decode(&bytes).unwrap();
    assert!(back == packet);
    assert_eq!(next, bytes.len());
}
