use floodnet::address::Address;
use floodnet::node::{Action, Event, MetaCommand, Node};
use floodnet::proto::Packet;
use std::collections::VecDeque;

struct Mesh {
    nodes: Vec<Node<String>>,
    inboxes: Vec<Vec<(String, Address)>>,
    forwards: Vec<usize>,
    wire: VecDeque<(usize, Packet<String>)>,
    sent: usize,
}

fn mesh(links: &[(u16, &[u16])]) -> Mesh {
    let mut nodes = Vec::new();
    for (port, peers) in links {
        let mut node: Node<String> = Node::new(*port);
        for peer in peers.iter() {
            node.step(Event::Command(MetaCommand::AddPeer(Address::localhost(*peer))));
        }
        nodes.push(node);
    }
    let n = nodes.len();
    Mesh { nodes, inboxes: vec![Vec::new(); n], forwards: vec![0; n], wire: VecDeque::new(), sent: 0 }
}

fn index_of(mesh: &Mesh, addr: Address) -> usize {
    mesh.nodes.iter().position(|n| n.addr() == addr).unwrap()
}

fn send_to_peers(mesh: &mut Mesh, from: usize, packet: &Packet<String>) {
    let count = mesh.nodes[from].peers().len();
    for i in 0..count {
        let to = index_of(mesh, mesh.nodes[from].peers().get(i).unwrap());
        mesh.wire.push_back((to, packet.clone()));
        mesh.sent += 1;
    }
}

fn originate(mesh: &mut Mesh, from: usize, text: &str) -> u128 {
    match mesh.nodes[from].step(Event::Command(MetaCommand::Broadcast(String::from(text)))) {
        Action::Flood { packet } => {
            send_to_peers(mesh, from, &packet);
            packet.id
        }
        other => panic!("unexpected {:?}", other),
    }
}

fn settle(mesh: &mut Mesh) {
    let mut steps = 0;
    while let Some((to, packet)) = mesh.wire.pop_front() {
        steps += 1;
        assert!(steps < 10_000, "the packets circulate without end");
        match mesh.nodes[to].step(Event::Inbound(packet)) {
            Action::Nothing => {}
            Action::Deliver { message, origin, packet } => {
                mesh.inboxes[to].push((message, origin));
                mesh.forwards[to] += 1;
                send_to_peers(mesh, to, &packet);
            }
            other => panic!("unexpected {:?}", other),
        }
    }
}

#[test]
fn two_connected_nodes_deliver_a_broadcast_once() {
    let mut m = mesh(&[(7000, &[7001]), (7001, &[7000])]);
    let id = originate(&mut m, 0, "hello");
    settle(&mut m);
    assert_eq!(m.inboxes[1], vec![(String::from("hello"), Address::localhost(7000))]);
    assert_eq!(m.inboxes[0], Vec::new());
    assert!(m.nodes[0].has_seen(id));
    assert!(m.nodes[1].has_seen(id));
    assert_eq!(m.sent, 2);
}

#[test]
fn a_ring_of_three_delivers_once_at_each_other_node() {
    let mut m = mesh(&[(7000, &[7001, 7002]), (7001, &[7000, 7002]), (7002, &[7001, 7000])]);
    let id = originate(&mut m, 0, "x");
    settle(&mut m);
    let a = Address::localhost(7000);
    assert_eq!(m.inboxes[0], Vec::new());
    assert_eq!(m.inboxes[1], vec![(String::from("x"), a)]);
    assert_eq!(m.inboxes[2], vec![(String::from("x"), a)]);
    assert!(m.nodes[0].has_seen(id));
    assert!(m.nodes[1].has_seen(id));
    assert!(m.nodes[2].has_seen(id));
    assert_eq!(m.forwards, vec![0, 1, 1]);
    assert_eq!(m.sent, 6);
    assert!(m.wire.is_empty());
}

#[test]
fn a_one_way_ring_carries_the_broadcast_round_and_stops() {
    let mut m = mesh(&[(7000, &[7001]), (7001, &[7002]), (7002, &[7000])]);
    let id = originate(&mut m, 0, "x");
    settle(&mut m);
    let a = Address::localhost(7000);
    assert_eq!(m.inboxes[1], vec![(String::from("x"), a)]);
    assert_eq!(m.inboxes[2], vec![(String::from("x"), a)]);
    assert_eq!(m.inboxes[0], Vec::new());
    assert!(m.nodes[0].has_seen(id));
    assert_eq!(m.sent, 3);
}

#[test]
fn the_six_node_mesh_delivers_once_everywhere() {
    let mut m = mesh(&[
        (7000, &[7001, 7003]),
        (7001, &[7000, 7002, 7004]),
        (7002, &[7001, 7005]),
        (7003, &[7004, 7000]),
        (7004, &[7003, 7005, 7001]),
        (7005, &[7004, 7002]),
    ]);
    originate(&mut m, 2, "c(1,0,0,1)");
    settle(&mut m);
    let origin = Address::localhost(7002);
    for i in 0..6 {
        if i == 2 {
            assert_eq!(m.inboxes[i], Vec::new());
            assert_eq!(m.forwards[i], 0);
        } else {
            assert_eq!(m.inboxes[i], vec![(String::from("c(1,0,0,1)"), origin)]);
            assert_eq!(m.forwards[i], 1);
        }
    }
    assert_eq!(m.sent, 14);
}

#[test]
fn two_broadcasts_are_each_delivered_once() {
    let mut m = mesh(&[(7000, &[7001, 7002]), (7001, &[7000, 7002]), (7002, &[7001, 7000])]);
    originate(&mut m, 0, "first");
    originate(&mut m, 1, "second");
    settle(&mut m);
    let a = Address::localhost(7000);
    let b = Address::localhost(7001);
    assert_eq!(m.inboxes[0], vec![(String::from("second"), b)]);
    assert_eq!(m.inboxes[1], vec![(String::from("first"), a)]);
    assert_eq!(m.inboxes[2].len(), 2);
    assert!(m.inboxes[2].contains(&(String::from("first"), a)));
    assert!(m.inboxes[2].contains(&(String::from("second"), b)));
}

#[test]
fn a_node_that_cannot_be_reached_gets_nothing() {
    let mut m = mesh(&[(7000, &[7001]), (7001, &[7000]), (7002, &[7000])]);
    originate(&mut m, 0, "hello");
    settle(&mut m);
    assert_eq!(m.inboxes[1].len(), 1);
    assert_eq!(m.inboxes[2], Vec::new());
}

#[test]
fn a_stopped_node_neither_delivers_nor_forwards() {
    let mut m = mesh(&[(7000, &[7001]), (7001, &[7002]), (7002, &[])]);
    assert_eq!(m.nodes[1].step(Event::Command(MetaCommand::Die)), Action::Stop);
    originate(&mut m, 0, "hello");
    settle(&mut m);
    assert_eq!(m.inboxes[1], Vec::new());
    assert_eq!(m.inboxes[2], Vec::new());
    assert_eq!(m.sent, 1);
}

#[test]
fn a_hundred_broadcasts_under_way_together_are_each_delivered_once() {
    let mut m = mesh(&[
        (7000, &[7001, 7003]),
        (7001, &[7000, 7002, 7004]),
        (7002, &[7001, 7005]),
        (7003, &[7004, 7000]),
        (7004, &[7003, 7005, 7001]),
        (7005, &[7004, 7002]),
    ]);
    for n in 0..100 {
        originate(&mut m, n % 6, &format!("m{}", n));
    }
    settle(&mut m);
    for i in 0..6 {
        assert_eq!(m.inboxes[i].len(), 100 - (0..100).filter(|n| n % 6 == i).count());
        for n in 0..100 {
            let entry = (format!("m{}", n), Address::localhost(7000 + (n % 6) as u16));
            let times = m.inboxes[i].iter().filter(|e| **e == entry).count();
            assert_eq!(times, if n % 6 == i { 0 } else { 1 }, "message {} at node {}", n, i);
        }
    }
    assert_eq!(m.sent, 100 * 14);
}

#[test]
fn a_second_copy_is_dropped_after_127_other_broadcasts_that_recur() {
    let a = Address::localhost(7000);
    let mut node: Node<String> = Node::new(7001);
    let copy = |id: u128| {
        let mut seen = floodnet::address::AddressSet::new();
        seen.insert(a);
        Packet::with_id(
            id,
            floodnet::proto::Operation::Broadcast { seen, hops: 0 },
            a,
            floodnet::proto::Payload::Message(String::from("m")),
        )
    };
    assert!(matches!(node.step(Event::Inbound(copy(1000))), Action::Deliver { .. }));
    for round in 0..3 {
        for id in 0..127u128 {
            let action = node.step(Event::Inbound(copy(id)));
            assert_eq!(matches!(action, Action::Deliver { .. }), round == 0);
        }
    }
    assert_eq!(node.step(Event::Inbound(copy(1000))), Action::Nothing);
    assert!(matches!(node.step(Event::Inbound(copy(127))), Action::Deliver { .. }));
    assert!(matches!(node.step(Event::Inbound(copy(1000))), Action::Deliver { .. }));
}
