//! A peer-to-peer flood-broadcast overlay, without the sockets.
//!
//! Every node of the mesh keeps a table of neighbours and a bounded cache of
//! the message identifiers it has already processed. A broadcast travels as a
//! packet that carries the set of nodes it has visited; each node delivers a
//! packet at most once and forwards it to all of its neighbours.
//!
//! This crate holds the decisions of such a node and the wire format of its
//! packets. It performs no input or output: a runtime feeds it events and
//! carries out the actions it answers with.
pub mod address;
pub mod dedup;
pub mod fanout;
pub mod frame;
pub mod ints;
pub mod mesh;
pub mod node;
pub mod peer;
pub mod proto;
pub mod wire;
