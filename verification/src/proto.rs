//! The packets that nodes exchange.
use crate::address::{Address, AddressSet};
use std::fmt::Debug;
use vstd::prelude::*;

verus! {

/// What a packet asks of the node that receives it.
#[derive(Clone, Debug, PartialEq)]
pub enum Operation {
    /// Hand the payload to every node of the mesh. `seen` holds the nodes
    /// that have sent this packet on, `hops` the number of times it was
    /// forwarded.
    Broadcast { seen: AddressSet, hops: u16 },
    /// Hand the payload to one node. Reserved: no node acts on it.
    Directed { target: Address },
}

/// The model of an [`Operation`]: the visited nodes as a sequence, oldest
/// first.
pub enum OperationView {
    Broadcast { seen: Seq<Address>, hops: u16 },
    Directed { target: Address },
}

impl View for Operation {
    type V = OperationView;

    open spec fn view(&self) -> OperationView {
        match *self {
            Operation::Broadcast { seen, hops } => OperationView::Broadcast { seen: seen@, hops },
            Operation::Directed { target } => OperationView::Directed { target },
        }
    }
}

/// What a packet carries for the application.
#[derive(Clone, Debug, PartialEq)]
pub enum Payload<T> {
    Message(T),
}

/// One unit of transmission between two nodes.
#[derive(Clone, Debug, PartialEq)]
pub struct Packet<T> {
    /// The identifier of the broadcast, the same at every hop.
    pub id: u128,
    /// The node that originated the broadcast.
    pub sender: Address,
    pub op: Operation,
    pub payload: Payload<T>,
}

/// The model of a [`Packet`].
pub struct PacketView<T> {
    pub id: u128,
    pub sender: Address,
    pub op: OperationView,
    pub payload: Payload<T>,
}

impl<T> View for Packet<T> {
    type V = PacketView<T>;

    open spec fn view(&self) -> PacketView<T> {
        PacketView { id: self.id, sender: self.sender, op: self.op@, payload: self.payload }
    }
}

/// What an application message must offer to travel through the mesh: it
/// can be copied, shared between tasks and shown in a log.
pub trait SanePayload: Clone + Send + Sync + Debug + 'static {}

impl<T: Clone + Send + Sync + Debug + 'static> SanePayload for T {}

/// The bits of an identifier that say in which way it was made.
pub const ID_KIND_MASK: u128 = 0x0000_0000_0000_f000_c000_0000_0000_0000;

/// The value of those bits in an identifier that was drawn at random.
pub const ID_KIND_RANDOM: u128 = 0x0000_0000_0000_4000_8000_0000_0000_0000;

/// Whether `id` has the form of a version 4 UUID: all of its bits are free
/// but six, which hold the version and the variant.
pub open spec fn is_random_id(id: u128) -> bool {
    id & ID_KIND_MASK == ID_KIND_RANDOM
}

/// `uuid::Uuid::new_v4`, read as a number by `Uuid::as_u128`: a version 4
/// UUID, whose other bits come from the random source of the operating
/// system. Nothing is known of those. The call panics where that source
/// fails.
#[verifier::external_body]
pub(crate) fn random_id() -> (id: u128)
    ensures
        is_random_id(id),
{
    uuid::Uuid::new_v4().as_u128()
}

impl<T> Packet<T> {
    /// The packet with the given parts.
    pub fn with_id(id: u128, op: Operation, sender: Address, payload: Payload<T>) -> (packet: Self)
        ensures
            packet == (Packet { id, sender, op, payload }),
    {
        Packet { id, sender, op, payload }
    }

    /// A packet with the given parts and an identifier of its own, drawn at
    /// random.
    pub fn new(op: Operation, sender: Address, payload: Payload<T>) -> (packet: Self)
        ensures
            is_random_id(packet.id),
            packet == (Packet { id: packet.id, sender, op, payload }),
    {
        Packet::with_id(random_id(), op, sender, payload)
    }
}

} // verus!
