use floodnet::address::{Address, AddressSet, LOOPBACK_V4};

fn v4(last: u8, port: u16) -> Address {
    Address::V4 { ip: 0x0a00_0000 + last as u32, port }
}

#[test]
fn localhost_is_the_loopback_address_with_the_port() {
    assert_eq!(Address::localhost(7000), Address::V4 { ip: 0x7f00_0001, port: 7000 });
    assert_eq!(LOOPBACK_V4, 0x7f00_0001);
    assert_eq!(Address::localhost(7000).port(), 7000);
    assert_eq!(Address::V6 { ip: 1, port: 9 }.port(), 9);
}

#[test]
fn addresses_differ_by_family_ip_or_port() {
    assert_ne!(Address::localhost(7000), Address::localhost(7001));
    assert_ne!(Address::V4 { ip: 1, port: 7 }, Address::V6 { ip: 1, port: 7 });
    assert_ne!(Address::V4 { ip: 1, port: 7 }, Address::V4 { ip: 2, port: 7 });
}

#[test]
fn a_new_set_is_empty() {
    let set = AddressSet::new();
    assert_eq!(set.len(), 0);
    assert!(!set.contains(v4(1, 1)));
}

#[test]
fn insert_adds_a_member_once() {
    let mut set = AddressSet::new();
    assert!(set.insert(v4(1, 1)));
    assert!(set.insert(v4(2, 1)));
    assert!(!set.insert(v4(1, 1)));
    assert_eq!(set.len(), 2);
    assert!(set.contains(v4(1, 1)));
    assert!(set.contains(v4(2, 1)));
    assert!(!set.contains(v4(3, 1)));
}

#[test]
fn members_keep_the_order_in_which_they_came() {
    let mut set = AddressSet::new();
    set.insert(v4(3, 1));
    set.insert(v4(1, 1));
    set.insert(v4(3, 1));
    set.insert(v4(2, 1));
    assert_eq!(set.get(0), Some(v4(3, 1)));
    assert_eq!(set.get(1), Some(v4(1, 1)));
    assert_eq!(set.get(2), Some(v4(2, 1)));
    assert_eq!(set.get(3), None);
}

#[test]
fn sets_with_the_same_members_are_equal_in_any_order() {
    let mut a = AddressSet::new();
    a.insert(v4(1, 1));
    a.insert(v4(2, 1));
    let mut b = AddressSet::new();
    b.insert(v4(2, 1));
    b.insert(v4(1, 1));
    assert_eq!(a, b);
    b.insert(v4(3, 1));
    assert_ne!(a, b);
    assert!(a.within(&b));
    assert!(!b.within(&a));
}

#[test]
fn a_clone_has_the_same_members() {
    let mut a = AddressSet::new();
    a.insert(v4(1, 1));
    a.insert(v4(2, 1));
    let b = a.clone();
    assert_eq!(b.len(), 2);
    assert_eq!(b.get(0), Some(v4(1, 1)));
    assert_eq!(b.get(1), Some(v4(2, 1)));
    a.insert(v4(3, 1));
    assert_eq!(b.len(), 2);
}
