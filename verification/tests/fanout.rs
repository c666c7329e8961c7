use floodnet::address::{Address, AddressSet};
use floodnet::fanout::Fanout;
use floodnet::node::Node;

fn peers(ports: &[u16]) -> AddressSet {
    let mut set = AddressSet::new();
    for p in ports {
        set.insert(Address::localhost(*p));
    }
    set
}

#[test]
fn every_peer_gets_its_turn_in_order() {
    let mut fan: Fanout<String> = Fanout::new(&peers(&[7001, 7002, 7003]));
    assert!(!fan.is_done());
    assert_eq!(fan.target(), Some(Address::localhost(7001)));
    assert_eq!(fan.target(), Some(Address::localhost(7001)));
    fan.record(Ok(()));
    assert_eq!(fan.target(), Some(Address::localhost(7002)));
    fan.record(Ok(()));
    assert_eq!(fan.target(), Some(Address::localhost(7003)));
    fan.record(Ok(()));
    assert_eq!(fan.target(), None);
    assert!(fan.is_done());
    assert_eq!(fan.finish(), Vec::new());
}

#[test]
fn a_failure_is_recorded_and_the_round_goes_on() {
    let mut fan: Fanout<String> = Fanout::new(&peers(&[7001, 7002, 7003, 7004]));
    fan.record(Err(String::from("refused")));
    assert_eq!(fan.target(), Some(Address::localhost(7002)));
    fan.record(Ok(()));
    fan.record(Err(String::from("reset")));
    assert_eq!(fan.target(), Some(Address::localhost(7004)));
    fan.record(Ok(()));
    assert!(fan.is_done());
    assert_eq!(
        fan.finish(),
        vec![
            (Address::localhost(7001), String::from("refused")),
            (Address::localhost(7003), String::from("reset")),
        ]
    );
}

#[test]
fn a_report_with_no_peer_in_turn_changes_nothing() {
    let mut fan: Fanout<u8> = Fanout::new(&peers(&[7001]));
    fan.record(Err(1));
    fan.record(Err(2));
    fan.record(Ok(()));
    assert_eq!(fan.target(), None);
    assert_eq!(fan.finish(), vec![(Address::localhost(7001), 1)]);
}

#[test]
fn a_round_over_no_peers_is_done_at_once() {
    let mut fan: Fanout<u8> = Fanout::new(&AddressSet::new());
    assert!(fan.is_done());
    assert_eq!(fan.target(), None);
    fan.record(Err(1));
    assert_eq!(fan.finish(), Vec::new());
}

#[test]
fn a_round_that_is_cut_short_reports_what_failed_so_far() {
    let mut fan: Fanout<u8> = Fanout::new(&peers(&[7001, 7002]));
    fan.record(Err(9));
    assert!(!fan.is_done());
    assert_eq!(fan.finish(), vec![(Address::localhost(7001), 9)]);
}

#[test]
fn a_node_sends_to_all_of_its_peers() {
    let mut node: Node<String> = Node::new(7000);
    node.add_peer(Address::localhost(7001));
    node.add_peer(Address::localhost(7003));
    node.add_peer(Address::localhost(7001));
    let mut fan: Fanout<u8> = node.broadcast();
    assert_eq!(fan.target(), Some(Address::localhost(7001)));
    fan.record(Ok(()));
    assert_eq!(fan.target(), Some(Address::localhost(7003)));
    fan.record(Err(3));
    assert_eq!(fan.target(), None);
    assert_eq!(fan.finish(), vec![(Address::localhost(7003), 3)]);
}
