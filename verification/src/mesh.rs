//! The mesh as a whole: what one broadcast does to all nodes together.
//!
//! The model holds the nodes, the packets that were sent and have not
//! arrived yet, and what each node has handed to its application. Packets
//! arrive one at a time, in any order. Each arrival changes the receiving
//! node as [`Node::handle_packet`](crate::node::Node::handle_packet) does,
//! and puts what that node forwards on its way to every peer of the node.
//! Meanwhile packets of other broadcasts may be sent by anyone and travel
//! through the same nodes.
use crate::address::Address;
use crate::dedup::{lemma_distinct_fit, lemma_sheltered, lemma_touch, sheltered};
use crate::node::{
    accepts, floodable, hops_of, noted, originated, reacts, relayed, visited, Action, Event,
    NodeView,
};
use crate::proto::{Packet, PacketView, Payload};
use vstd::prelude::*;

verus! {

/// A packet on its way to a node.
pub struct Parcel<M> {
    pub to: Address,
    pub packet: PacketView<M>,
}

/// The state of a mesh.
pub struct Mesh<M> {
    /// The nodes.
    pub nodes: Seq<NodeView>,
    /// What each node has handed to its application, in the order of
    /// delivery: the message and its originator, and before them the
    /// identifier of the packet that brought them.
    pub inboxes: Seq<Seq<(u128, M, Address)>>,
    /// The packets that were sent and have not arrived.
    pub flying: Seq<Parcel<M>>,
}

/// The message that a packet carries.
pub open spec fn carried<M>(packet: PacketView<M>) -> M {
    match packet.payload {
        Payload::Message(message) => message,
    }
}

/// Whether one of `nodes` has the address `addr`.
pub open spec fn stands(nodes: Seq<NodeView>, addr: Address) -> bool {
    exists|i: int| 0 <= i < nodes.len() && (#[trigger] nodes[i]).addr == addr
}

/// The index of the node with the address `addr`.
pub open spec fn holder(nodes: Seq<NodeView>, addr: Address) -> int {
    choose|i: int| 0 <= i < nodes.len() && (#[trigger] nodes[i]).addr == addr
}

/// One copy of `packet` on its way to each of `peers`.
pub open spec fn parcels<M>(peers: Seq<Address>, packet: PacketView<M>) -> Seq<Parcel<M>> {
    Seq::new(peers.len(), |i: int| Parcel { to: peers[i], packet })
}

/// The mesh after the `k`-th of the packets on their way has arrived.
///
/// A packet for an address at which no node stands, or for a node that was
/// told to stop, is lost. Any other is handled by its node: the node
/// remembers its identifier, and where the node accepts the packet, the
/// message is delivered and the forwarded packet sent to every peer.
pub open spec fn arrive<M>(mesh: Mesh<M>, k: int) -> Mesh<M> {
    if !(0 <= k < mesh.flying.len()) {
        mesh
    } else {
        let parcel = mesh.flying[k];
        let rest = mesh.flying.remove(k);
        let at = holder(mesh.nodes, parcel.to);
        if !stands(mesh.nodes, parcel.to) || !mesh.nodes[at].running {
            Mesh { flying: rest, ..mesh }
        } else {
            let node = mesh.nodes[at];
            let nodes = mesh.nodes.update(at, noted(node, parcel.packet.id));
            if accepts(node, parcel.packet) {
                Mesh {
                    nodes,
                    inboxes: mesh.inboxes.update(
                        at,
                        mesh.inboxes[at].push(
                            (parcel.packet.id, carried(parcel.packet), parcel.packet.sender),
                        ),
                    ),
                    flying: rest + parcels(
                        node.peers,
                        relayed(node.addr, parcel.packet, parcel.packet.payload),
                    ),
                }
            } else {
                Mesh { nodes, flying: rest, ..mesh }
            }
        }
    }
}

/// An arrival in the model is an inbound packet at a node: a running node
/// that reacts to the packet ends as the model says, delivers exactly when
/// the model does, and delivers the message and the originator that the
/// model puts into its inbox. What it forwards is what the model sends on,
/// but for the payload, which is a copy of the message made by the message
/// type; where that copy equals the message, the two packets are the same.
pub proof fn lemma_arrival_is_reaction<M: Clone>(
    before: NodeView,
    pkt: Packet<M>,
    after: NodeView,
    action: Action<M>,
)
    requires
        before.running,
        reacts(before, Event::Inbound(pkt), after, action),
    ensures
        after == noted(before, pkt@.id),
        accepts(before, pkt@) <==> action is Deliver,
        !accepts(before, pkt@) <==> action is Nothing,
        action matches Action::Deliver { message, origin, packet } ==> {
            &&& message == carried(pkt@)
            &&& origin == pkt@.sender
            &&& cloned(message, carried(packet@))
            &&& packet@ == relayed(before.addr, pkt@, packet.payload)
            &&& carried(packet@) == message ==> packet@ == relayed(
                before.addr,
                pkt@,
                pkt@.payload,
            )
        },
{
}

/// One thing that happens to a mesh.
pub enum Happening<M> {
    /// The packet at this place among those on their way arrives.
    Arrival(int),
    /// Someone sends this packet.
    Sending(Parcel<M>),
}

/// The mesh after `what` has happened.
pub open spec fn after<M>(mesh: Mesh<M>, what: Happening<M>) -> Mesh<M> {
    match what {
        Happening::Arrival(k) => arrive(mesh, k),
        Happening::Sending(parcel) => Mesh { flying: mesh.flying.push(parcel), ..mesh },
    }
}

/// The mesh after all of `schedule` has happened, in order.
pub open spec fn run<M>(mesh: Mesh<M>, schedule: Seq<Happening<M>>) -> Mesh<M>
    decreases schedule.len(),
{
    if schedule.len() == 0 {
        mesh
    } else {
        after(run(mesh, schedule.drop_last()), schedule.last())
    }
}

/// The mesh right after the node `origin` has originated a broadcast of
/// `message` under the identifier `id`: nothing is delivered, and one copy
/// of the packet is on its way to each peer of that node.
pub open spec fn launched<M>(nodes: Seq<NodeView>, origin: int, id: u128, message: M) -> Mesh<M> {
    Mesh {
        nodes,
        inboxes: Seq::new(nodes.len(), |i: int| Seq::empty()),
        flying: parcels(nodes[origin].peers, originated(nodes[origin].addr, id, message)),
    }
}

/// What the law asks of a mesh before a broadcast under `id`: every node
/// is well formed and running, no two nodes share an address, and no node
/// remembers `id`. The nodes are no more than a hop count can count, so
/// that no packet is dropped for having travelled too far. The identifiers
/// `others` of the packets that travel meanwhile are fewer than any node
/// can remember.
pub open spec fn ready(nodes: Seq<NodeView>, id: u128, others: Seq<u128>) -> bool {
    &&& nodes.len() <= u16::MAX
    &&& others.no_duplicates()
    &&& forall|i: int| 0 <= i < nodes.len() ==> others.len() < (#[trigger] nodes[i]).capacity
    &&& forall|i: int|
        0 <= i < nodes.len() ==> {
            &&& (#[trigger] nodes[i]).wf()
            &&& nodes[i].running
            &&& !nodes[i].seen.contains(id)
        }
    &&& forall|i: int, j: int|
        0 <= i < nodes.len() && 0 <= j < nodes.len() && i != j ==> (#[trigger] nodes[i]).addr != (
        #[trigger] nodes[j]).addr
}

/// Whether the node `from` has the node `to` in its peer table.
pub open spec fn linked(nodes: Seq<NodeView>, from: int, to: int) -> bool {
    &&& 0 <= from < nodes.len()
    &&& 0 <= to < nodes.len()
    &&& nodes[from].peers.contains(nodes[to].addr)
}

/// Whether `path` leads from node to node along the peer tables.
pub open spec fn connects(nodes: Seq<NodeView>, path: Seq<int>) -> bool {
    &&& path.len() > 0
    &&& 0 <= path[0] < nodes.len()
    &&& forall|j: int| 0 <= j < path.len() - 1 ==> linked(nodes, #[trigger] path[j], path[j + 1])
}

/// Whether the node `i` remembers `id`.
pub open spec fn knows(nodes: Seq<NodeView>, i: int, id: u128) -> bool {
    nodes[i].seen.contains(id)
}

/// Whether a node that remembers `id` stands at `addr`.
pub open spec fn aware(nodes: Seq<NodeView>, addr: Address, id: u128) -> bool {
    exists|i: int| 0 <= i < nodes.len() && #[trigger] knows(nodes, i, id) && nodes[i].addr == addr
}

/// Whether a packet with the identifier `id` is on its way to `addr`.
pub open spec fn bound_for<M>(flying: Seq<Parcel<M>>, addr: Address, id: u128) -> bool {
    exists|k: int|
        0 <= k < flying.len() && (#[trigger] flying[k]).to == addr && flying[k].packet.id == id
}

/// Whether no packet with the identifier `id` is on its way.
pub open spec fn at_rest<M>(flying: Seq<Parcel<M>>, id: u128) -> bool {
    forall|k: int| 0 <= k < flying.len() ==> (#[trigger] flying[k]).packet.id != id
}

/// Whether `packet` belongs to another broadcast, one of `others`.
pub open spec fn bystander<M>(packet: PacketView<M>, id: u128, others: Seq<u128>) -> bool {
    packet.id != id && others.contains(packet.id)
}

/// Whether every packet that is sent while `schedule` happens belongs to
/// one of the broadcasts `others`.
pub open spec fn polite<M>(schedule: Seq<Happening<M>>, id: u128, others: Seq<u128>) -> bool {
    forall|k: int|
        0 <= k < schedule.len() ==> (#[trigger] schedule[k] matches Happening::Sending(parcel)
            ==> bystander(parcel.packet, id, others))
}

/// The entries of `inbox` that a packet with the identifier `id` brought.
pub open spec fn brought<M>(inbox: Seq<(u128, M, Address)>, id: u128) -> Seq<(u128, M, Address)>
    decreases inbox.len(),
{
    if inbox.len() == 0 {
        Seq::empty()
    } else if inbox.last().0 == id {
        brought(inbox.drop_last(), id).push(inbox.last())
    } else {
        brought(inbox.drop_last(), id)
    }
}

/// Whether `packet` is a copy of the broadcast: it bears its identifier,
/// its originator and its message, and has visited the originator and,
/// besides, only nodes that remember the identifier, each of them once and
/// one more than it has made hops.
pub open spec fn on_course<M>(
    nodes: Seq<NodeView>,
    home: Address,
    id: u128,
    message: M,
    packet: PacketView<M>,
) -> bool {
    &&& packet.id == id
    &&& packet.sender == home
    &&& packet.payload == Payload::Message(message)
    &&& packet.op is Broadcast
    &&& hops_of(packet) + 1 == visited(packet).len()
    &&& visited(packet).no_duplicates()
    &&& visited(packet).contains(home)
    &&& forall|a: Address| #[trigger]
        visited(packet).contains(a) ==> a == home || aware(nodes, a, id)
}

/// What holds of a mesh at every moment of a broadcast that the node
/// `origin` of `start` has originated.
pub open spec fn steady<M>(
    start: Seq<NodeView>,
    origin: int,
    id: u128,
    message: M,
    others: Seq<u128>,
    mesh: Mesh<M>,
) -> bool {
    let home = start[origin].addr;
    &&& mesh.nodes.len() == start.len()
    &&& mesh.inboxes.len() == start.len()
    &&& forall|i: int|
        0 <= i < start.len() ==> {
            &&& (#[trigger] mesh.nodes[i]).addr == start[i].addr
            &&& mesh.nodes[i].peers == start[i].peers
            &&& mesh.nodes[i].capacity == start[i].capacity
            &&& mesh.nodes[i].running
            &&& mesh.nodes[i].wf()
            &&& knows(mesh.nodes, i, id) ==> sheltered(mesh.nodes[i].seen, id, others)
        }
    &&& forall|k: int|
        0 <= k < mesh.flying.len() ==> on_course(
            mesh.nodes,
            home,
            id,
            message,
            (#[trigger] mesh.flying[k]).packet,
        ) || bystander(mesh.flying[k].packet, id, others)
    &&& forall|i: int|
        0 <= i < start.len() ==> brought(#[trigger] mesh.inboxes[i], id) == if i != origin
            && knows(mesh.nodes, i, id) {
            seq![(id, message, home)]
        } else {
            Seq::empty()
        }
    &&& forall|i: int, j: int|
        (i == origin || knows(mesh.nodes, i, id)) && #[trigger] linked(start, i, j) ==> knows(
            mesh.nodes,
            j,
            id,
        ) || bound_for(mesh.flying, start[j].addr, id)
}

/// A node that is handed a packet remembers its identifier and is
/// otherwise as before.
proof fn lemma_noted(node: NodeView, id: u128)
    requires
        node.wf(),
    ensures
        noted(node, id).wf(),
        noted(node, id).seen.contains(id),
        noted(node, id).addr == node.addr,
        noted(node, id).peers == node.peers,
        noted(node, id).capacity == node.capacity,
        noted(node, id).running == node.running,
        forall|other: u128|
            other != id ==> (#[trigger] noted(node, id).seen.contains(other) ==> node.seen.contains(
                other,
            )),
        !node.seen.contains(id) ==> noted(node, id).seen[0] == id,
{
    lemma_touch(node.seen, node.capacity, id);
}

/// Distinct addresses at each of which a node stands are no more than the
/// nodes.
proof fn lemma_visited_fit(nodes: Seq<NodeView>, list: Seq<Address>)
    requires
        list.no_duplicates(),
        forall|a: Address| #[trigger] list.contains(a) ==> stands(nodes, a),
    ensures
        list.len() <= nodes.len(),
{
    let addrs = Seq::new(nodes.len(), |i: int| nodes[i].addr);
    assert forall|k: int| 0 <= k < list.len() implies addrs.contains(#[trigger] list[k]) by {
        assert(list.contains(list[k]));
        let i = choose|i: int| 0 <= i < nodes.len() && (#[trigger] nodes[i]).addr == list[k];
        assert(addrs[i] == list[k]);
    }
    lemma_distinct_fit(list, addrs);
}

/// The entries that an identifier brought, after one more delivery.
proof fn lemma_brought_after_push<M>(
    inbox: Seq<(u128, M, Address)>,
    entry: (u128, M, Address),
    id: u128,
)
    ensures
        brought(inbox.push(entry), id) == if entry.0 == id {
            brought(inbox, id).push(entry)
        } else {
            brought(inbox, id)
        },
{
    assert(inbox.push(entry).drop_last() =~= inbox);
}

/// The invariant holds when the broadcast is launched.
proof fn lemma_launched_is_steady<M>(
    start: Seq<NodeView>,
    origin: int,
    id: u128,
    message: M,
    others: Seq<u128>,
)
    requires
        ready(start, id, others),
        0 <= origin < start.len(),
    ensures
        steady(start, origin, id, message, others, launched(start, origin, id, message)),
{
    let mesh = launched(start, origin, id, message);
    let home = start[origin].addr;
    let first = originated(home, id, message);
    assert(visited(first) == seq![home]);
    assert(seq![home][0] == home);
    assert forall|k: int| 0 <= k < mesh.flying.len() implies on_course(
        mesh.nodes,
        home,
        id,
        message,
        (#[trigger] mesh.flying[k]).packet,
    ) by {
        assert(mesh.flying[k].packet == first);
        assert forall|a: Address| #[trigger] visited(first).contains(a) implies a == home by {
            let i = visited(first).index_of(a);
            assert(seq![home][i] == a);
        }
    }
    assert forall|i: int, j: int|
        (i == origin || knows(mesh.nodes, i, id)) && #[trigger] linked(start, i, j) implies knows(
        mesh.nodes,
        j,
        id,
    ) || bound_for(mesh.flying, start[j].addr, id) by {
        assert(!knows(mesh.nodes, i, id));
        let at = start[origin].peers.index_of(start[j].addr);
        assert(mesh.flying[at].to == start[j].addr && mesh.flying[at].packet.id == id);
    }
}

/// The invariant survives the sending of a packet of another broadcast.
proof fn lemma_sending_keeps_steady<M>(
    start: Seq<NodeView>,
    origin: int,
    id: u128,
    message: M,
    others: Seq<u128>,
    mesh: Mesh<M>,
    parcel: Parcel<M>,
)
    requires
        ready(start, id, others),
        0 <= origin < start.len(),
        steady(start, origin, id, message, others, mesh),
        bystander(parcel.packet, id, others),
    ensures
        steady(start, origin, id, message, others, after(mesh, Happening::Sending(parcel))),
{
    let next = after(mesh, Happening::Sending(parcel));
    assert forall|i: int, j: int|
        (i == origin || knows(next.nodes, i, id)) && #[trigger] linked(start, i, j) implies knows(
        next.nodes,
        j,
        id,
    ) || bound_for(next.flying, start[j].addr, id) by {
        if !knows(mesh.nodes, j, id) {
            let w = choose|w: int|
                0 <= w < mesh.flying.len() && (#[trigger] mesh.flying[w]).to == start[j].addr
                    && mesh.flying[w].packet.id == id;
            assert(next.flying[w] == mesh.flying[w]);
        }
    }
}

/// The invariant survives the arrival of any packet.
proof fn lemma_arrival_keeps_steady<M>(
    start: Seq<NodeView>,
    origin: int,
    id: u128,
    message: M,
    others: Seq<u128>,
    mesh: Mesh<M>,
    k: int,
)
    requires
        ready(start, id, others),
        0 <= origin < start.len(),
        steady(start, origin, id, message, others, mesh),
    ensures
        steady(start, origin, id, message, others, arrive(mesh, k)),
{
    let after = arrive(mesh, k);
    let home = start[origin].addr;
    if 0 <= k < mesh.flying.len() {
        let parcel = mesh.flying[k];
        let packet = parcel.packet;
        let rest = mesh.flying.remove(k);
        let mine = packet.id == id;
        assert(on_course(mesh.nodes, home, id, message, packet) || bystander(packet, id, others));
        assert forall|x: int| 0 <= x < rest.len() implies #[trigger] rest[x] == mesh.flying[if x
            < k {
            x
        } else {
            x + 1
        }] by {}
        assert forall|a: int, b: int|
            0 <= a < mesh.nodes.len() && 0 <= b < mesh.nodes.len() && a != b implies (
        #[trigger] mesh.nodes[a]).addr != (#[trigger] mesh.nodes[b]).addr by {
            assert(start[a].addr != start[b].addr);
        }
        let at = holder(mesh.nodes, parcel.to);
        if !stands(mesh.nodes, parcel.to) || !mesh.nodes[at].running {
            assert(after.nodes == mesh.nodes);
            assert forall|i: int, j: int|
                (i == origin || knows(after.nodes, i, id)) && #[trigger] linked(
                    start,
                    i,
                    j,
                ) implies knows(after.nodes, j, id) || bound_for(after.flying, start[j].addr, id) by {
                if !knows(mesh.nodes, j, id) {
                    let w = choose|w: int|
                        0 <= w < mesh.flying.len() && (#[trigger] mesh.flying[w]).to
                            == start[j].addr && mesh.flying[w].packet.id == id;
                    assert(mesh.nodes[j].addr == start[j].addr);
                    assert(w != k);
                    let x = if w < k {
                        w
                    } else {
                        w - 1
                    };
                    assert(rest[x].to == start[j].addr && rest[x].packet.id == id);
                }
            }
        } else {
            let node = mesh.nodes[at];
            assert(0 <= at < mesh.nodes.len() && node.addr == parcel.to);
            lemma_noted(node, packet.id);
            let nodes = mesh.nodes.update(at, noted(node, packet.id));
            assert(after.nodes == nodes);
            // what a node remembers of the broadcast, it keeps
            if knows(mesh.nodes, at, id) {
                if !node.seen.contains(packet.id) {
                    lemma_sheltered(node.seen, node.capacity, id, others, packet.id);
                }
                assert(sheltered(nodes[at].seen, id, others));
            } else if mine {
                assert(nodes[at].seen[0] == id);
                assert(nodes[at].seen.index_of(id) == 0);
                assert(sheltered(nodes[at].seen, id, others));
            } else {
                assert(!knows(nodes, at, id));
            }
            assert forall|i: int| 0 <= i < start.len() && knows(mesh.nodes, i, id) implies knows(
                nodes,
                i,
                id,
            ) by {}
            assert forall|i: int| 0 <= i < start.len() && i != at implies knows(nodes, i, id)
                == knows(mesh.nodes, i, id) by {}
            assert(mine ==> knows(nodes, at, id));
            assert forall|a: Address| aware(mesh.nodes, a, id) implies aware(nodes, a, id) by {
                let i = choose|i: int|
                    0 <= i < mesh.nodes.len() && #[trigger] knows(mesh.nodes, i, id)
                        && mesh.nodes[i].addr == a;
                assert(knows(nodes, i, id) && nodes[i].addr == a);
            }
            if mine {
                assert(aware(nodes, node.addr, id)) by {
                    assert(knows(nodes, at, id) && nodes[at].addr == node.addr);
                }
            }
            // a node that does not remember the identifier has not been
            // visited, and the packet can make one hop more
            if mine && !knows(mesh.nodes, at, id) && at != origin {
                if visited(packet).contains(node.addr) {
                    assert(node.addr != home) by {
                        assert(mesh.nodes[origin].addr == home);
                    }
                    let i = choose|i: int|
                        0 <= i < mesh.nodes.len() && #[trigger] knows(mesh.nodes, i, id)
                            && mesh.nodes[i].addr == node.addr;
                    assert(i == at);
                }
                let list = visited(packet).push(node.addr);
                assert(list.no_duplicates()) by {
                    assert forall|i: int, j: int|
                        0 <= i < list.len() && 0 <= j < list.len() && i != j implies list[i]
                        != list[j] by {
                        if i < visited(packet).len() {
                            assert(visited(packet).contains(list[i]));
                        }
                        if j < visited(packet).len() {
                            assert(visited(packet).contains(list[j]));
                        }
                    }
                }
                assert forall|a: Address| #[trigger] list.contains(a) implies stands(
                    mesh.nodes,
                    a,
                ) by {
                    let x = list.index_of(a);
                    if x < visited(packet).len() {
                        assert(visited(packet)[x] == a);
                        assert(visited(packet).contains(a));
                        if a == home {
                            assert(mesh.nodes[origin].addr == home);
                        } else {
                            let i = choose|i: int|
                                0 <= i < mesh.nodes.len() && #[trigger] knows(mesh.nodes, i, id)
                                    && mesh.nodes[i].addr == a;
                            assert(mesh.nodes[i].addr == a);
                        }
                    } else {
                        assert(mesh.nodes[at].addr == a);
                    }
                }
                lemma_visited_fit(mesh.nodes, list);
                assert(floodable(packet));
                assert(accepts(node, packet));
            }
            if mine && at == origin {
                assert(node.addr == home);
                assert(!accepts(node, packet));
            }
            let forward = relayed(node.addr, packet, packet.payload);
            let fresh = parcels(node.peers, forward);
            if accepts(node, packet) {
                assert(after.flying == rest + fresh);
                if mine {
                    assert(on_course(nodes, home, id, message, forward)) by {
                        let seen = visited(packet).push(node.addr);
                        assert(visited(forward) == seen);
                        let h = visited(packet).index_of(home);
                        assert(seen[h] == home);
                        assert forall|a: Address| #[trigger] seen.contains(a) implies a == home
                            || aware(nodes, a, id) by {
                            let x = seen.index_of(a);
                            if x < visited(packet).len() {
                                assert(visited(packet)[x] == a);
                                assert(visited(packet).contains(a));
                            }
                        }
                    }
                } else {
                    assert(bystander(forward, id, others));
                }
            }
            assert forall|x: int| 0 <= x < after.flying.len() implies on_course(
                nodes,
                home,
                id,
                message,
                (#[trigger] after.flying[x]).packet,
            ) || bystander(after.flying[x].packet, id, others) by {
                if x < rest.len() {
                    let y = if x < k {
                        x
                    } else {
                        x + 1
                    };
                    assert(after.flying[x] == mesh.flying[y]);
                    let p = mesh.flying[y].packet;
                    if !bystander(p, id, others) {
                        assert(on_course(mesh.nodes, home, id, message, p));
                        assert forall|a: Address| #[trigger] visited(p).contains(a) implies a
                            == home || aware(nodes, a, id) by {}
                    }
                } else {
                    assert(after.flying[x] == fresh[x - rest.len()]);
                }
            }
            assert forall|i: int| 0 <= i < start.len() implies brought(
                #[trigger] after.inboxes[i],
                id,
            ) == if i != origin && knows(nodes, i, id) {
                seq![(id, message, home)]
            } else {
                Seq::empty()
            } by {
                if i == at {
                    if accepts(node, packet) {
                        lemma_brought_after_push(
                            mesh.inboxes[at],
                            (packet.id, carried(packet), packet.sender),
                            id,
                        );
                        if mine {
                            assert(brought(mesh.inboxes[at], id) == Seq::<
                                (u128, M, Address),
                            >::empty());
                            assert(brought(after.inboxes[at], id) =~= seq![(id, message, home)]);
                        }
                    }
                } else {
                    assert(after.inboxes[i] == mesh.inboxes[i]);
                }
            }
            assert forall|i: int, j: int|
                (i == origin || knows(nodes, i, id)) && #[trigger] linked(start, i, j) implies knows(
                nodes,
                j,
                id,
            ) || bound_for(after.flying, start[j].addr, id) by {
                if i == origin || knows(mesh.nodes, i, id) {
                    if !knows(mesh.nodes, j, id) {
                        let w = choose|w: int|
                            0 <= w < mesh.flying.len() && (#[trigger] mesh.flying[w]).to
                                == start[j].addr && mesh.flying[w].packet.id == id;
                        if w == k {
                            assert(mesh.nodes[j].addr == node.addr);
                            assert(j == at);
                        } else {
                            let x = if w < k {
                                w
                            } else {
                                w - 1
                            };
                            assert(rest[x].to == start[j].addr && rest[x].packet.id == id);
                            assert(after.flying[x] == rest[x]);
                        }
                    }
                } else {
                    assert(i == at);
                    assert(mine);
                    assert(accepts(node, packet));
                    let x = node.peers.index_of(start[j].addr);
                    assert(fresh[x].to == start[j].addr && fresh[x].packet.id == id);
                    assert(after.flying[rest.len() + x] == fresh[x]);
                }
            }
        }
    }
}

/// The invariant holds after anything that happens.
proof fn lemma_run_is_steady<M>(
    start: Seq<NodeView>,
    origin: int,
    id: u128,
    message: M,
    others: Seq<u128>,
    schedule: Seq<Happening<M>>,
)
    requires
        ready(start, id, others),
        0 <= origin < start.len(),
        polite(schedule, id, others),
    ensures
        steady(
            start,
            origin,
            id,
            message,
            others,
            run(launched(start, origin, id, message), schedule),
        ),
    decreases schedule.len(),
{
    if schedule.len() == 0 {
        lemma_launched_is_steady(start, origin, id, message, others);
    } else {
        let earlier = schedule.drop_last();
        assert forall|k: int| 0 <= k < earlier.len() implies (#[trigger] earlier[k] matches Happening::Sending(
            parcel,
        ) ==> bystander(parcel.packet, id, others)) by {
            assert(earlier[k] == schedule[k]);
        }
        lemma_run_is_steady(start, origin, id, message, others, earlier);
        let before = run(launched(start, origin, id, message), earlier);
        match schedule.last() {
            Happening::Arrival(k) => {
                lemma_arrival_keeps_steady(start, origin, id, message, others, before, k);
            },
            Happening::Sending(parcel) => {
                assert(schedule[schedule.len() - 1] == schedule.last());
                lemma_sending_keeps_steady(start, origin, id, message, others, before, parcel);
            },
        }
    }
}

/// At most once: whatever has happened so far, and in whatever order, no
/// node has delivered the broadcast twice, the originator has delivered
/// nothing, and what a node has delivered is the message with the address
/// of the originator. A node forwards when it delivers, so no node has
/// forwarded the broadcast twice. Packets of other broadcasts may travel
/// meanwhile, as long as their identifiers, counted once each, are fewer
/// than a node remembers.
pub proof fn lemma_delivered_at_most_once<M>(
    start: Seq<NodeView>,
    origin: int,
    id: u128,
    message: M,
    others: Seq<u128>,
    schedule: Seq<Happening<M>>,
    i: int,
)
    requires
        ready(start, id, others),
        polite(schedule, id, others),
        0 <= origin < start.len(),
        0 <= i < start.len(),
    ensures
        ({
            let inbox = run(launched(start, origin, id, message), schedule).inboxes[i];
            &&& brought(inbox, id).len() <= 1
            &&& i == origin ==> brought(inbox, id).len() == 0
            &&& brought(inbox, id).len() == 1 ==> brought(inbox, id)[0] == (
                id,
                message,
                start[origin].addr,
            )
        }),
{
    lemma_run_is_steady(start, origin, id, message, others, schedule);
}

/// Every node is reached: once no packet of the broadcast is on its way,
/// every node to which a path leads from the originator along the peer
/// tables has delivered the message exactly once, with the address of the
/// originator. Packets of other broadcasts may travel meanwhile, as long as
/// their identifiers, counted once each, are fewer than a node remembers.
pub proof fn lemma_flood_reaches<M>(
    start: Seq<NodeView>,
    origin: int,
    id: u128,
    message: M,
    others: Seq<u128>,
    schedule: Seq<Happening<M>>,
    path: Seq<int>,
)
    requires
        ready(start, id, others),
        polite(schedule, id, others),
        connects(start, path),
        path[0] == origin,
        path.last() != origin,
        at_rest(run(launched(start, origin, id, message), schedule).flying, id),
    ensures
        brought(run(launched(start, origin, id, message), schedule).inboxes[path.last()], id)
            == seq![(id, message, start[origin].addr)],
        0 <= path.last() < start.len(),
{
    let end = run(launched(start, origin, id, message), schedule);
    lemma_run_is_steady(start, origin, id, message, others, schedule);
    lemma_path_is_informed(start, origin, id, message, others, end, path, path.len() - 1);
}

/// Once no packet of the broadcast is on its way, every node on a path
/// from the originator is the originator or remembers the identifier.
proof fn lemma_path_is_informed<M>(
    start: Seq<NodeView>,
    origin: int,
    id: u128,
    message: M,
    others: Seq<u128>,
    end: Mesh<M>,
    path: Seq<int>,
    upto: int,
)
    requires
        0 <= origin < start.len(),
        steady(start, origin, id, message, others, end),
        at_rest(end.flying, id),
        connects(start, path),
        path[0] == origin,
        0 <= upto < path.len(),
    ensures
        0 <= path[upto] < start.len(),
        path[upto] == origin || knows(end.nodes, path[upto], id),
    decreases upto,
{
    if upto > 0 {
        lemma_path_is_informed(start, origin, id, message, others, end, path, upto - 1);
        let i = path[upto - 1];
        let j = path[upto];
        assert(linked(start, i, j));
        assert(!bound_for(end.flying, start[j].addr, id));
    }
}

/// The number of entries of all peer tables: the connections of the mesh,
/// each counted in the direction in which packets are sent over it.
pub open spec fn links(nodes: Seq<NodeView>) -> nat
    decreases nodes.len(),
{
    if nodes.len() == 0 {
        0
    } else {
        links(nodes.drop_last()) + nodes.last().peers.len()
    }
}

/// The number of packets that a node will send if the broadcast reaches
/// it: one for each peer, unless it stands at `home`, where the broadcast
/// began, or remembers the identifier already.
pub open spec fn owed(node: NodeView, id: u128, home: Address) -> nat {
    if node.addr == home || node.seen.contains(id) {
        0
    } else {
        node.peers.len()
    }
}

/// The number of packets that `nodes` may yet send.
pub open spec fn owed_by_all(nodes: Seq<NodeView>, id: u128, home: Address) -> nat
    decreases nodes.len(),
{
    if nodes.len() == 0 {
        0
    } else {
        owed_by_all(nodes.drop_last(), id, home) + owed(nodes.last(), id, home)
    }
}

/// The number of arrivals that a mesh can see at most before it comes to
/// rest: the packets on their way and those that may yet be sent.
pub open spec fn budget<M>(mesh: Mesh<M>, id: u128, home: Address) -> nat {
    mesh.flying.len() + owed_by_all(mesh.nodes, id, home)
}

/// Whether `schedule` holds arrivals only, each of a packet that is on its
/// way when its turn comes.
pub open spec fn follows<M>(mesh: Mesh<M>, schedule: Seq<Happening<M>>) -> bool
    decreases schedule.len(),
{
    schedule.len() == 0 || {
        &&& follows(mesh, schedule.drop_last())
        &&& schedule.last() matches Happening::Arrival(k)
        &&& 0 <= k < run(mesh, schedule.drop_last()).flying.len()
    }
}

/// A schedule of arrivals sends nothing.
proof fn lemma_follows_is_polite<M>(mesh: Mesh<M>, schedule: Seq<Happening<M>>, id: u128)
    requires
        follows(mesh, schedule),
    ensures
        polite(schedule, id, Seq::empty()),
    decreases schedule.len(),
{
    if schedule.len() > 0 {
        lemma_follows_is_polite(mesh, schedule.drop_last(), id);
        assert forall|k: int| 0 <= k < schedule.len() implies (#[trigger] schedule[k] matches Happening::Sending(
            parcel,
        ) ==> bystander(parcel.packet, id, Seq::empty())) by {
            if k < schedule.len() - 1 {
                assert(schedule.drop_last()[k] == schedule[k]);
            }
        }
    }
}

/// Replacing one node changes what all nodes owe by what that node owes
/// less or more.
proof fn lemma_owed_after_update(
    nodes: Seq<NodeView>,
    at: int,
    node: NodeView,
    id: u128,
    home: Address,
)
    requires
        0 <= at < nodes.len(),
    ensures
        owed_by_all(nodes.update(at, node), id, home) + owed(nodes[at], id, home) == owed_by_all(
            nodes,
            id,
            home,
        ) + owed(node, id, home),
    decreases nodes.len(),
{
    let changed = nodes.update(at, node);
    if at == nodes.len() - 1 {
        assert(changed.drop_last() =~= nodes.drop_last());
    } else {
        assert(changed.drop_last() =~= nodes.drop_last().update(at, node));
        lemma_owed_after_update(nodes.drop_last(), at, node, id, home);
    }
}

/// Each arrival uses up some of the budget.
proof fn lemma_arrival_costs<M>(mesh: Mesh<M>, k: int, id: u128, home: Address)
    requires
        0 <= k < mesh.flying.len(),
        mesh.flying[k].packet.id == id,
        visited(mesh.flying[k].packet).contains(home),
        forall|i: int| 0 <= i < mesh.nodes.len() ==> (#[trigger] mesh.nodes[i]).wf(),
    ensures
        budget(arrive(mesh, k), id, home) < budget(mesh, id, home),
{
    let parcel = mesh.flying[k];
    let at = holder(mesh.nodes, parcel.to);
    if stands(mesh.nodes, parcel.to) && mesh.nodes[at].running {
        let node = mesh.nodes[at];
        assert(node.wf());
        lemma_noted(node, id);
        lemma_owed_after_update(mesh.nodes, at, noted(node, id), id, home);
    }
}

/// Before the broadcast, the nodes other than the originator owe one
/// packet for each entry of their peer tables.
proof fn lemma_owed_at_start(nodes: Seq<NodeView>, origin: int, id: u128, upto: int)
    requires
        ready(nodes, id, Seq::empty()),
        0 <= origin < nodes.len(),
        0 <= upto <= nodes.len(),
    ensures
        owed_by_all(nodes.take(upto), id, nodes[origin].addr) + (if origin < upto {
            nodes[origin].peers.len()
        } else {
            0
        }) == links(nodes.take(upto)),
    decreases upto,
{
    if upto > 0 {
        let part = nodes.take(upto);
        lemma_owed_at_start(nodes, origin, id, upto - 1);
        assert(part.drop_last() =~= nodes.take(upto - 1));
        assert(part.last() == nodes[upto - 1]);
        if upto - 1 != origin {
            assert(nodes[upto - 1].addr != nodes[origin].addr);
        }
    }
}

/// No infinite circulation: where no other packets are under way, however
/// the packets of a broadcast arrive, the packets that have arrived and
/// those that are on their way are together no more than the entries of
/// all peer tables, one packet for each connection and direction. So the
/// arrivals are no more than that, and after as many arrivals no packet is
/// on its way.
pub proof fn lemma_flood_ends<M>(
    start: Seq<NodeView>,
    origin: int,
    id: u128,
    message: M,
    schedule: Seq<Happening<M>>,
)
    requires
        ready(start, id, Seq::empty()),
        0 <= origin < start.len(),
        follows(launched(start, origin, id, message), schedule),
    ensures
        schedule.len() + run(launched(start, origin, id, message), schedule).flying.len()
            <= links(start),
        schedule.len() + budget(
            run(launched(start, origin, id, message), schedule),
            id,
            start[origin].addr,
        ) <= links(start),
    decreases schedule.len(),
{
    let first = launched(start, origin, id, message);
    let home = start[origin].addr;
    if schedule.len() == 0 {
        lemma_owed_at_start(start, origin, id, start.len() as int);
        assert(start.take(start.len() as int) =~= start);
    } else {
        let earlier = schedule.drop_last();
        let before = run(first, earlier);
        lemma_flood_ends(start, origin, id, message, earlier);
        lemma_follows_is_polite(first, earlier, id);
        lemma_run_is_steady(start, origin, id, message, Seq::empty(), earlier);
        if let Happening::Arrival(k) = schedule.last() {
            let packet = before.flying[k].packet;
            assert(on_course(before.nodes, home, id, message, packet) || bystander(
                packet,
                id,
                Seq::empty(),
            ));
            lemma_arrival_costs(before, k, id, home);
        }
    }
}

} // verus!
