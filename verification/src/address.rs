//! Addresses of mesh nodes, and duplicate-free collections of them.
use vstd::prelude::*;

verus! {

/// The transport address of a node: an IP address and a port.
///
/// An IPv4 address is held as the 32-bit number whose big-endian bytes are
/// its four octets, an IPv6 address as the 128-bit number whose big-endian
/// bytes are its sixteen octets.
#[derive(Clone, Copy, Debug, PartialEq, Eq, Hash, Structural)]
#[allow(inconsistent_fields)]
pub enum Address {
    V4 { ip: u32, port: u16 },
    V6 { ip: u128, port: u16 },
}

/// The number whose big-endian bytes are 127.0.0.1.
pub const LOOPBACK_V4: u32 = 0x7f00_0001;

impl Address {
    /// The address of the node that listens on `port` of the local host.
    pub open spec fn spec_localhost(port: u16) -> Address {
        Address::V4 { ip: LOOPBACK_V4, port }
    }

    /// The address of the node that listens on `port` of the local host,
    /// 127.0.0.1.
    #[verifier::when_used_as_spec(spec_localhost)]
    pub fn localhost(port: u16) -> (a: Address)
        ensures
            a == Address::spec_localhost(port),
    {
        Address::V4 { ip: LOOPBACK_V4, port }
    }

    /// The port of this address.
    pub open spec fn spec_port(&self) -> u16 {
        match *self {
            Address::V4 { port, .. } => port,
            Address::V6 { port, .. } => port,
        }
    }

    /// The port of this address.
    #[verifier::when_used_as_spec(spec_port)]
    pub fn port(&self) -> (p: u16)
        ensures
            p == self.spec_port(),
    {
        match *self {
            Address::V4 { port, .. } => port,
            Address::V6 { port, .. } => port,
        }
    }
}

/// A set of addresses that remembers the order in which they were added.
///
/// No address occurs twice. The view is the sequence of members, oldest
/// first. Two sets are equal when they have the same members, in whatever
/// order.
#[derive(Debug)]
pub struct AddressSet {
    items: Vec<Address>,
}

impl View for AddressSet {
    type V = Seq<Address>;

    closed spec fn view(&self) -> Seq<Address> {
        self.items@
    }
}

impl Clone for AddressSet {
    fn clone(&self) -> (copy: AddressSet)
        ensures
            copy@ == self@,
    {
        proof {
            use_type_invariant(self);
        }
        let mut items: Vec<Address> = Vec::new();
        let mut i: usize = 0;
        while i < self.items.len()
            invariant
                i <= self.items@.len(),
                items@ == self.items@.subrange(0, i as int),
            decreases self.items@.len() - i,
        {
            items.push(self.items[i]);
            i += 1;
            assert(items@ == self.items@.subrange(0, i as int));
        }
        assert(items@ == self.items@);
        AddressSet { items }
    }
}

impl PartialEq for AddressSet {
    fn eq(&self, other: &AddressSet) -> (same: bool) {
        let below = self.within(other);
        let above = other.within(self);
        proof {
            if below && above {
                assert(self@.to_set() =~= other@.to_set());
            }
        }
        below && above
    }
}

impl vstd::std_specs::cmp::PartialEqSpecImpl for AddressSet {
    open spec fn obeys_eq_spec() -> bool {
        true
    }

    open spec fn eq_spec(&self, other: &AddressSet) -> bool {
        self@.to_set() == other@.to_set()
    }
}

impl AddressSet {
    #[verifier::type_invariant]
    spec fn distinct(self) -> bool {
        self.items@.no_duplicates()
    }

    /// The set without members.
    pub fn new() -> (s: AddressSet)
        ensures
            s@ == Seq::<Address>::empty(),
    {
        AddressSet { items: Vec::new() }
    }

    /// The number of members.
    pub fn len(&self) -> (n: usize)
        ensures
            n == self@.len(),
            self@.no_duplicates(),
    {
        proof {
            use_type_invariant(self);
        }
        self.items.len()
    }

    /// Whether `addr` is a member.
    pub fn contains(&self, addr: Address) -> (found: bool)
        ensures
            found == self@.contains(addr),
    {
        let mut i: usize = 0;
        while i < self.items.len()
            invariant
                i <= self.items@.len(),
                forall|j: int| 0 <= j < i ==> self.items@[j] != addr,
            decreases self.items@.len() - i,
        {
            if self.items[i] == addr {
                return true;
            }
            i += 1;
        }
        false
    }

    /// Whether every member of this set is a member of `other`.
    pub fn within(&self, other: &AddressSet) -> (all: bool)
        ensures
            all == self@.to_set().subset_of(other@.to_set()),
    {
        let mut i: usize = 0;
        while i < self.items.len()
            invariant
                i <= self.items@.len(),
                forall|j: int| 0 <= j < i ==> other@.contains(self.items@[j]),
            decreases self.items@.len() - i,
        {
            if !other.contains(self.items[i]) {
                assert(self@.to_set().contains(self.items@[i as int]));
                return false;
            }
            i += 1;
        }
        true
    }

    /// The member that was added as the `index`-th, counted from zero, or
    /// nothing where the set has no more than `index` members.
    pub fn get(&self, index: usize) -> (addr: Option<Address>)
        ensures
            addr == if index < self@.len() {
                Some(self@[index as int])
            } else {
                None
            },
    {
        if index < self.items.len() {
            Some(self.items[index])
        } else {
            None
        }
    }

    /// Adds `addr` unless it is a member already; says whether it was added.
    pub fn insert(&mut self, addr: Address) -> (added: bool)
        ensures
            added == !old(self)@.contains(addr),
            final(self)@ == if added {
                old(self)@.push(addr)
            } else {
                old(self)@
            },
            final(self)@.no_duplicates(),
    {
        proof {
            use_type_invariant(&*self);
        }
        if self.contains(addr) {
            false
        } else {
            let mut taken = AddressSet::new();
            std::mem::swap(self, &mut taken);
            let mut items = taken.items;
            items.push(addr);
            *self = AddressSet { items };
            true
        }
    }
}

} // verus!
