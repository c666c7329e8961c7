//! The node: its peer table, its cache of processed identifiers, and what
//! it decides on each event.
//!
//! A node here performs no input or output. The runtime that owns the
//! sockets hands it one event at a time and carries out the action that the
//! node answers with.
//!
//! Two policies are fixed here. A connection that was accepted is admitted
//! if the node has no list of known peers, or if its address is on that
//! list; a peer that the owner of the node announces is always admitted. A
//! peer stays in the table for as long as the node lives: a send that fails
//! is reported to the caller of the round of sends and changes nothing in
//! the table.
use crate::address::{Address, AddressSet};
use crate::dedup::{
    bounded, lemma_sheltered, lemma_touch, sheltered, touch, DedupCache, SEEN_CACHE_CAPACITY,
};
use crate::fanout::{Fanout, FanoutView};
use crate::proto::{
    is_random_id, random_id, Operation, OperationView, Packet, PacketView, Payload, SanePayload,
};
use std::marker::PhantomData;
use vstd::prelude::*;

verus! {

/// What the owner of a node asks of it.
#[derive(Clone, Debug, PartialEq)]
pub enum MetaCommand<M> {
    /// Stop: the node processes nothing after this.
    Die,
    /// Originate a broadcast of this message.
    Broadcast(M),
    /// Admit the peer at this address, to which a connection was made.
    AddPeer(Address),
}

/// What can happen to a running node.
#[derive(Clone, Debug, PartialEq)]
pub enum Event<M> {
    /// A connection from this address was accepted.
    Accepted(Address),
    /// The owner sent a command.
    Command(MetaCommand<M>),
    /// A peer sent a packet.
    Inbound(Packet<M>),
}

/// What the runtime must do after an event.
#[derive(Clone, Debug, PartialEq)]
pub enum Action<M> {
    /// Nothing but to wait for the next event.
    Nothing,
    /// Leave the event loop.
    Stop,
    /// Send `packet` to every peer.
    Flood { packet: Packet<M> },
    /// Hand `message`, which `origin` broadcast, to the application, and
    /// send `packet` to every peer.
    Deliver { message: M, origin: Address, packet: Packet<M> },
    /// Close the connection that was accepted from `peer`: the node does
    /// not know that address.
    Refuse { peer: Address },
}

/// The model of a [`Node`].
pub struct NodeView {
    /// The address under which the node is known to its peers.
    pub addr: Address,
    /// The peer table, in the order of admission.
    pub peers: Seq<Address>,
    /// The identifiers processed, the most recently used first.
    pub seen: Seq<u128>,
    /// The number of identifiers that the node remembers at most.
    pub capacity: nat,
    /// Whether the node has not been told to stop.
    pub running: bool,
    /// The addresses from which the node admits a connection that it
    /// accepted, if it keeps such a list.
    pub known: Option<Seq<Address>>,
}

impl NodeView {
    /// What holds of every node: its table holds no peer twice, and its
    /// cache is within its capacity and holds no identifier twice.
    pub open spec fn wf(self) -> bool {
        self.peers.no_duplicates() && bounded(self.seen, self.capacity)
    }
}

/// Whether a node can flood `packet`: it is a broadcast, and its hop count
/// can still grow.
pub open spec fn floodable<M>(packet: PacketView<M>) -> bool {
    packet.op matches OperationView::Broadcast { hops, .. } && hops < u16::MAX
}

/// The nodes that a broadcast has visited.
pub open spec fn visited<M>(packet: PacketView<M>) -> Seq<Address> {
    match packet.op {
        OperationView::Broadcast { seen, .. } => seen,
        OperationView::Directed { .. } => Seq::empty(),
    }
}

/// The number of times that a broadcast was forwarded.
pub open spec fn hops_of<M>(packet: PacketView<M>) -> u16 {
    match packet.op {
        OperationView::Broadcast { hops, .. } => hops,
        OperationView::Directed { .. } => 0,
    }
}

/// Whether `node` delivers and forwards `packet`: it is a broadcast whose
/// hop count can still grow, its identifier is new to the node, and the
/// node is not among those that the packet has visited.
pub open spec fn accepts<M>(node: NodeView, packet: PacketView<M>) -> bool {
    &&& floodable(packet)
    &&& !node.seen.contains(packet.id)
    &&& !visited(packet).contains(node.addr)
}

/// Whether `node` can be handed `packet`: a directed packet only if the
/// node remembers its identifier, for the node does not know what to do
/// with a new one.
pub open spec fn takes<M>(node: NodeView, packet: PacketView<M>) -> bool {
    packet.op is Directed ==> node.seen.contains(packet.id)
}

/// The node after it was handed a packet with identifier `id`: it
/// remembers a new identifier; a known one changes nothing.
pub open spec fn noted(node: NodeView, id: u128) -> NodeView {
    if node.seen.contains(id) {
        node
    } else {
        NodeView { seen: touch(node.seen, node.capacity, id), ..node }
    }
}

/// The packet that the node at `me` forwards for `packet`: the same
/// identifier and originator, the node added to the visited ones, one hop
/// more, and `payload`.
pub open spec fn relayed<M>(me: Address, packet: PacketView<M>, payload: Payload<M>) -> PacketView<
    M,
> {
    PacketView {
        id: packet.id,
        sender: packet.sender,
        op: OperationView::Broadcast {
            seen: visited(packet).push(me),
            hops: (hops_of(packet) + 1) as u16,
        },
        payload,
    }
}

/// The packet with which the node at `me` originates a broadcast of
/// `message` under the identifier `id`.
pub open spec fn originated<M>(me: Address, id: u128, message: M) -> PacketView<M> {
    PacketView {
        id,
        sender: me,
        op: OperationView::Broadcast { seen: seq![me], hops: 0 },
        payload: Payload::Message(message),
    }
}

/// Whether `node` admits a connection that it accepted from `addr`: it
/// keeps no list of known peers, or the address is on its list.
pub open spec fn admits(node: NodeView, addr: Address) -> bool {
    match node.known {
        None => true,
        Some(list) => list.contains(addr),
    }
}

/// The node after the peer at `addr` was admitted: the table holds each
/// address once.
pub open spec fn admitted(node: NodeView, addr: Address) -> NodeView {
    if node.peers.contains(addr) {
        node
    } else {
        NodeView { peers: node.peers.push(addr), ..node }
    }
}

/// Whether `action` is what `node` answers to `packet`.
///
/// A packet that the node accepts is delivered and forwarded: the message
/// goes to the application as it came, with the originator of the
/// broadcast, and a copy of it travels on. Any other packet is dropped.
pub open spec fn answers<M: Clone>(node: NodeView, packet: PacketView<M>, action: Action<M>) -> bool {
    if accepts(node, packet) {
        &&& action matches Action::Deliver { message, origin, packet: forward }
        &&& packet.payload == Payload::Message(message)
        &&& origin == packet.sender
        &&& forward.payload matches Payload::Message(copy)
        &&& cloned(message, copy)
        &&& forward@ == relayed(node.addr, packet, forward.payload)
    } else {
        action is Nothing
    }
}

/// One node of the mesh.
pub struct Node<M> {
    addr: Address,
    peers: AddressSet,
    known_peers: Option<AddressSet>,
    seen_msgs: DedupCache,
    running: bool,
    phantom: PhantomData<M>,
}

impl<M> View for Node<M> {
    type V = NodeView;

    closed spec fn view(&self) -> NodeView {
        NodeView {
            addr: self.addr,
            peers: self.peers@,
            seen: self.seen_msgs@,
            capacity: self.seen_msgs.capacity(),
            running: self.running,
            known: match self.known_peers {
                None => None,
                Some(list) => Some(list@),
            },
        }
    }
}

impl<M: SanePayload> Node<M> {
    /// A running node that is known as `port` of the local host, with no
    /// peers and nothing remembered. It admits every connection.
    pub fn new(port: u16) -> (node: Self)
        ensures
            node@ == (NodeView {
                addr: Address::localhost(port),
                peers: Seq::empty(),
                seen: Seq::empty(),
                capacity: SEEN_CACHE_CAPACITY as nat,
                running: true,
                known: None,
            }),
            node@.wf(),
    {
        Node {
            addr: Address::localhost(port),
            peers: AddressSet::new(),
            known_peers: None,
            seen_msgs: DedupCache::new(),
            running: true,
            phantom: PhantomData,
        }
    }

    /// A node like a new one that admits an accepted connection only from
    /// the addresses in `known`.
    pub fn with_known_peers(port: u16, known: AddressSet) -> (node: Self)
        ensures
            node@ == (NodeView {
                addr: Address::localhost(port),
                peers: Seq::empty(),
                seen: Seq::empty(),
                capacity: SEEN_CACHE_CAPACITY as nat,
                running: true,
                known: Some(known@),
            }),
            node@.wf(),
    {
        Node {
            addr: Address::localhost(port),
            peers: AddressSet::new(),
            known_peers: Some(known),
            seen_msgs: DedupCache::new(),
            running: true,
            phantom: PhantomData,
        }
    }

    /// Whether the node admits a connection that it accepted from `addr`.
    pub fn admits(&self, addr: Address) -> (ok: bool)
        ensures
            ok == admits(self@, addr),
    {
        match &self.known_peers {
            None => true,
            Some(list) => list.contains(addr),
        }
    }

    /// The address under which the node is known.
    pub fn addr(&self) -> (addr: Address)
        ensures
            addr == self@.addr,
    {
        self.addr
    }

    /// Whether the node has not been told to stop.
    pub fn is_running(&self) -> (running: bool)
        ensures
            running == self@.running,
    {
        self.running
    }

    /// The peer table.
    pub fn peers(&self) -> (peers: &AddressSet)
        ensures
            peers@ == self@.peers,
    {
        &self.peers
    }

    /// Whether the node remembers `id`.
    pub fn has_seen(&self, id: u128) -> (seen: bool)
        ensures
            seen == self@.seen.contains(id),
            bounded(self@.seen, self@.capacity),
    {
        self.seen_msgs.contains(id)
    }

    /// The number of peers in the table.
    pub fn peer_count(&self) -> (n: usize)
        ensures
            n == self@.peers.len(),
            self@.peers.no_duplicates(),
    {
        self.peers.len()
    }

    /// Begins a round of sends of one packet: every peer in the table gets
    /// its turn, in the order of admission.
    pub fn broadcast<E>(&self) -> (fan: Fanout<E>)
        ensures
            fan@ == (FanoutView::<E> { targets: self@.peers, attempted: 0, errors: Seq::empty() }),
    {
        Fanout::new(&self.peers)
    }

    /// Admits the peer at `addr`. A peer that is in the table already stays
    /// there once.
    pub fn add_peer(&mut self, addr: Address)
        ensures
            final(self)@ == admitted(old(self)@, addr),
            final(self)@.peers.no_duplicates(),
    {
        self.peers.insert(addr);
    }

    /// The packet with which this node originates a broadcast of `message`
    /// under the identifier `id`: it has visited this node alone, and has
    /// made no hop.
    pub fn originate(&self, id: u128, message: M) -> (packet: Packet<M>)
        ensures
            packet@ == originated(self@.addr, id, message),
    {
        let mut seen = AddressSet::new();
        seen.insert(self.addr);
        assert(seen@ =~= seq![self.addr]);
        Packet::with_id(
            id,
            Operation::Broadcast { seen, hops: 0 },
            self.addr,
            Payload::Message(message),
        )
    }

    /// Whether this node can be handed `packet`.
    pub fn can_handle(&self, packet: &Packet<M>) -> (ok: bool)
        ensures
            ok == takes(self@, packet@),
    {
        match &packet.op {
            Operation::Broadcast { .. } => true,
            Operation::Directed { .. } => self.seen_msgs.contains(packet.id),
        }
    }

    /// Floods one packet that a peer sent.
    ///
    /// A packet whose identifier the node remembers is dropped, whatever
    /// it asks for. Any other has its identifier remembered. It is then
    /// dropped if it has visited this node or if its hop count cannot
    /// grow; else its message is delivered and the packet forwarded with
    /// this node added to the visited ones and one hop more.
    pub fn handle_packet(&mut self, pkt: Packet<M>) -> (action: Action<M>)
        requires
            takes(old(self)@, pkt@),
        ensures
            final(self)@ == noted(old(self)@, pkt.id),
            answers(old(self)@, pkt@, action),
            !floodable(pkt@) ==> action is Nothing,
            final(self)@.seen.contains(pkt.id),
    {
        if self.seen_msgs.contains(pkt.id) {
            return Action::Nothing;
        }
        self.seen_msgs.insert(pkt.id);
        let Packet { id, sender, op, payload } = pkt;
        match op {
            Operation::Broadcast { seen, hops } => {
                if seen.contains(self.addr) || hops == u16::MAX {
                    return Action::Nothing;
                }
                let mut seen = seen;
                seen.insert(self.addr);
                let Payload::Message(message) = payload;
                let copy = message.clone();
                let packet = Packet {
                    id,
                    sender,
                    op: Operation::Broadcast { seen, hops: hops + 1 },
                    payload: Payload::Message(copy),
                };
                Action::Deliver { message, origin: sender, packet }
            },
            Operation::Directed { .. } => Action::Nothing,
        }
    }

    /// Answers one event.
    ///
    /// A node that was told to stop ignores every event. A running node
    /// admits the peer of an announced connection, and that of an accepted
    /// one unless its list of known peers lacks the address; it stops on
    /// `Die`, originates a broadcast under a new identifier, and floods an
    /// inbound packet.
    pub fn step(&mut self, event: Event<M>) -> (action: Action<M>)
        requires
            old(self)@.running ==> (event matches Event::Inbound(pkt) ==> takes(old(self)@, pkt@)),
        ensures
            reacts(old(self)@, event, final(self)@, action),
    {
        if !self.running {
            return Action::Nothing;
        }
        match event {
            Event::Accepted(addr) => {
                if self.admits(addr) {
                    self.add_peer(addr);
                    Action::Nothing
                } else {
                    Action::Refuse { peer: addr }
                }
            },
            Event::Command(MetaCommand::AddPeer(addr)) => {
                self.add_peer(addr);
                Action::Nothing
            },
            Event::Command(MetaCommand::Die) => {
                self.running = false;
                Action::Stop
            },
            Event::Command(MetaCommand::Broadcast(message)) => {
                let packet = self.originate(random_id(), message);
                Action::Flood { packet }
            },
            Event::Inbound(pkt) => self.handle_packet(pkt),
        }
    }
}

/// A packet whose identifier the node remembers is dropped, whatever it
/// asks for: nothing is delivered, nothing is forwarded, and the node stays
/// as it was.
pub proof fn lemma_known_is_dropped<M: Clone>(
    node: NodeView,
    packet: PacketView<M>,
    action: Action<M>,
)
    requires
        node.seen.contains(packet.id),
        answers(node, packet, action),
    ensures
        action is Nothing,
        noted(node, packet.id) == node,
{
}

/// A node remembers the identifier of every packet it was handed, so that
/// a second packet with that identifier, handed to it right after, is
/// dropped and changes nothing.
pub proof fn lemma_second_copy_is_dropped<M: Clone>(
    node: NodeView,
    first: PacketView<M>,
    second: PacketView<M>,
    action: Action<M>,
)
    requires
        node.wf(),
        first.id == second.id,
        answers(noted(node, first.id), second, action),
    ensures
        noted(node, first.id).wf(),
        noted(node, first.id).seen.contains(first.id),
        action is Nothing,
        noted(noted(node, first.id), second.id) == noted(node, first.id),
{
    lemma_touch(node.seen, node.capacity, first.id);
}

/// The node after it was handed packets with the identifiers `ids`, one
/// after the other.
pub open spec fn noted_all(node: NodeView, ids: Seq<u128>) -> NodeView
    decreases ids.len(),
{
    if ids.len() == 0 {
        node
    } else {
        noted(noted_all(node, ids.drop_last()), ids.last())
    }
}

/// A node that has remembered a new identifier still remembers it after
/// any packets whose other identifiers, counted once each, are fewer than
/// its capacity, however often they recur.
proof fn lemma_window(node: NodeView, id: u128, between: Seq<u128>, others: Seq<u128>)
    requires
        node.wf(),
        !node.seen.contains(id),
        others.no_duplicates(),
        others.len() < node.capacity,
        forall|i: int|
            0 <= i < between.len() ==> #[trigger] between[i] == id || others.contains(between[i]),
    ensures
        noted_all(noted(node, id), between).wf(),
        noted_all(noted(node, id), between).capacity == node.capacity,
        sheltered(noted_all(noted(node, id), between).seen, id, others),
    decreases between.len(),
{
    if between.len() == 0 {
        lemma_touch(node.seen, node.capacity, id);
        let seen = noted(node, id).seen;
        assert(seen[0] == id);
        assert(seen.index_of(id) == 0);
    } else {
        let earlier = between.drop_last();
        let next = between.last();
        assert forall|i: int| 0 <= i < earlier.len() implies #[trigger] earlier[i] == id
            || others.contains(earlier[i]) by {
            assert(earlier[i] == between[i]);
        }
        lemma_window(node, id, earlier, others);
        let before = noted_all(noted(node, id), earlier);
        if !before.seen.contains(next) {
            lemma_sheltered(before.seen, before.capacity, id, others, next);
        }
    }
}

/// At most once in the window of the cache: a node that has delivered a
/// packet drops every later packet with the same identifier, as long as
/// the packets handled in between bear fewer other identifiers, counted
/// once each, than the cache holds. `others` names those identifiers.
pub proof fn lemma_dropped_within_window<M: Clone>(
    node: NodeView,
    first: PacketView<M>,
    between: Seq<u128>,
    others: Seq<u128>,
    later: PacketView<M>,
    action: Action<M>,
)
    requires
        node.wf(),
        accepts(node, first),
        later.id == first.id,
        others.no_duplicates(),
        others.len() < node.capacity,
        forall|i: int|
            0 <= i < between.len() ==> #[trigger] between[i] == first.id || others.contains(
                between[i],
            ),
        answers(noted_all(noted(node, first.id), between), later, action),
    ensures
        noted_all(noted(node, first.id), between).seen.contains(first.id),
        action is Nothing,
        noted(noted_all(noted(node, first.id), between), later.id) == noted_all(
            noted(node, first.id),
            between,
        ),
{
    lemma_window(node, first.id, between, others);
}

/// Each hop adds one to the hop count and the forwarding node to the
/// visited ones, and keeps the identifier, the originator and every node
/// visited before. Only a packet whose hop count can grow is forwarded.
pub proof fn lemma_hop_grows<M>(me: Address, packet: PacketView<M>, payload: Payload<M>)
    requires
        floodable(packet),
    ensures
        relayed(me, packet, payload).op is Broadcast,
        hops_of(relayed(me, packet, payload)) == hops_of(packet) + 1,
        visited(relayed(me, packet, payload)).contains(me),
        forall|a: Address|
            visited(packet).contains(a) ==> #[trigger] visited(relayed(me, packet, payload)).contains(
                a,
            ),
        visited(relayed(me, packet, payload)).len() == visited(packet).len() + 1,
        relayed(me, packet, payload).id == packet.id,
        relayed(me, packet, payload).sender == packet.sender,
{
    let after = visited(relayed(me, packet, payload));
    assert(after[visited(packet).len() as int] == me);
    assert forall|a: Address| visited(packet).contains(a) implies #[trigger] after.contains(a) by {
        let i = visited(packet).index_of(a);
        assert(after[i] == a);
    }
}

/// What a node forwards has made exactly one hop more than what it was
/// handed, and has visited the nodes that this had visited, in their order,
/// and then the node itself: one more, and none lost.
pub proof fn lemma_forward_grows<M: Clone>(node: NodeView, packet: PacketView<M>, action: Action<M>)
    requires
        answers(node, packet, action),
        action is Deliver,
    ensures
        action matches Action::Deliver { packet: forward, .. } ==> {
            &&& forward@.op is Broadcast
            &&& forward.id == packet.id
            &&& forward.sender == packet.sender
            &&& hops_of(forward@) == hops_of(packet) + 1
            &&& visited(forward@) == visited(packet).push(node.addr)
            &&& visited(forward@).len() == visited(packet).len() + 1
            &&& visited(forward@).contains(node.addr)
            &&& !visited(packet).contains(node.addr)
            &&& forall|a: Address|
                visited(packet).contains(a) ==> #[trigger] visited(forward@).contains(a)
        },
{
    if let Action::Deliver { packet: forward, .. } = action {
        lemma_hop_grows(node.addr, packet, forward.payload);
    }
}

/// A node that was told to stop stays stopped, delivers nothing and sends
/// nothing, whatever happens.
pub proof fn lemma_stopped_is_final<M: Clone>(
    before: NodeView,
    event: Event<M>,
    after: NodeView,
    action: Action<M>,
)
    requires
        !before.running,
        reacts(before, event, after, action),
    ensures
        !after.running,
        after == before,
        action is Nothing,
{
}

/// Whether a node in state `before` that is handed `event` ends in state
/// `after` and answers with `action`.
pub open spec fn reacts<M: Clone>(
    before: NodeView,
    event: Event<M>,
    after: NodeView,
    action: Action<M>,
) -> bool {
    if !before.running {
        after == before && action is Nothing
    } else {
        match event {
            Event::Accepted(addr) => if admits(before, addr) {
                after == admitted(before, addr) && action is Nothing
            } else {
                after == before && action == (Action::<M>::Refuse { peer: addr })
            },
            Event::Command(MetaCommand::AddPeer(addr)) => after == admitted(before, addr)
                && action is Nothing,
            Event::Command(MetaCommand::Die) => after == (NodeView { running: false, ..before })
                && action is Stop,
            Event::Command(MetaCommand::Broadcast(message)) => {
                &&& after == before
                &&& action matches Action::Flood { packet }
                &&& is_random_id(packet.id)
                &&& packet@ == originated(before.addr, packet.id, message)
            },
            Event::Inbound(pkt) => after == noted(before, pkt.id) && answers(before, pkt@, action),
        }
    }
}

} // verus!
