//! Sending one packet to every peer, and keeping track of the sends that
//! failed.
//!
//! The runtime asks a [`Fanout`] for the next peer, sends, and reports how
//! the send went. A failure is recorded under the address of the peer and
//! changes nothing for the peers that follow.
use crate::address::{Address, AddressSet};
use vstd::prelude::*;

verus! {

/// One round of sends to the peers of a node.
pub struct Fanout<E> {
    targets: Vec<Address>,
    next: usize,
    errors: Vec<(Address, E)>,
}

/// The model of a [`Fanout`].
pub struct FanoutView<E> {
    /// The peers to send to, in order.
    pub targets: Seq<Address>,
    /// The number of peers for which a send was reported.
    pub attempted: nat,
    /// The sends that failed: the peer and the error, in order.
    pub errors: Seq<(Address, E)>,
}

impl<E> View for Fanout<E> {
    type V = FanoutView<E>;

    closed spec fn view(&self) -> FanoutView<E> {
        FanoutView { targets: self.targets@, attempted: self.next as nat, errors: self.errors@ }
    }
}

/// The peer that is next in turn, if any is left.
pub open spec fn pending<E>(fan: FanoutView<E>) -> Option<Address> {
    if fan.attempted < fan.targets.len() {
        Some(fan.targets[fan.attempted as int])
    } else {
        None
    }
}

/// The round after the send to the peer in turn ended with `outcome`: the
/// next peer is in turn, and an error stands recorded under the peer it
/// came from. With no peer in turn nothing changes.
pub open spec fn recorded<E>(fan: FanoutView<E>, outcome: Result<(), E>) -> FanoutView<E> {
    match pending(fan) {
        None => fan,
        Some(peer) => FanoutView {
            attempted: fan.attempted + 1,
            errors: match outcome {
                Ok(_) => fan.errors,
                Err(e) => fan.errors.push((peer, e)),
            },
            ..fan
        },
    }
}

/// Whether every error stands under a peer whose turn has passed, and no
/// peer has two.
pub open spec fn one_per_peer<E>(fan: FanoutView<E>) -> bool {
    &&& fan.targets.no_duplicates()
    &&& fan.attempted <= fan.targets.len()
    &&& forall|k: int|
        0 <= k < fan.errors.len() ==> fan.targets.take(fan.attempted as int).contains(
            #[trigger] fan.errors[k].0,
        )
    &&& forall|i: int, j: int|
        0 <= i < fan.errors.len() && 0 <= j < fan.errors.len() && i != j ==> (
        #[trigger] fan.errors[i]).0 != (#[trigger] fan.errors[j]).0
}

/// Reporting a send keeps the errors one per peer.
pub proof fn lemma_recorded<E>(fan: FanoutView<E>, outcome: Result<(), E>)
    requires
        one_per_peer(fan),
    ensures
        one_per_peer(recorded(fan, outcome)),
{
    let after = recorded(fan, outcome);
    if let Some(peer) = pending(fan) {
        let n = fan.attempted as int;
        let before = fan.targets.take(n);
        let now = fan.targets.take(n + 1);
        assert forall|a: Address| before.contains(a) implies now.contains(a) && a != peer by {
            let i = before.index_of(a);
            assert(now[i] == a);
            assert(fan.targets[i] == a);
        }
        assert(now[n] == peer);
        assert forall|k: int| 0 <= k < after.errors.len() implies now.contains(
            #[trigger] after.errors[k].0,
        ) by {
            if k < fan.errors.len() {
                assert(before.contains(fan.errors[k].0));
            }
        }
        assert forall|i: int, j: int|
            0 <= i < after.errors.len() && 0 <= j < after.errors.len() && i != j implies (
        #[trigger] after.errors[i]).0 != (#[trigger] after.errors[j]).0 by {
            if i < fan.errors.len() {
                assert(before.contains(fan.errors[i].0));
            }
            if j < fan.errors.len() {
                assert(before.contains(fan.errors[j].0));
            }
        }
    }
}

impl<E> Fanout<E> {
    #[verifier::type_invariant]
    spec fn consistent(self) -> bool {
        one_per_peer(self@)
    }

    /// A round of sends to the members of `peers`, in their order, of which
    /// none was made yet.
    pub fn new(peers: &AddressSet) -> (fan: Fanout<E>)
        ensures
            fan@ == (FanoutView::<E> { targets: peers@, attempted: 0, errors: Seq::empty() }),
            one_per_peer(fan@),
    {
        let n: usize = peers.len();
        let mut targets: Vec<Address> = Vec::new();
        let mut i: usize = 0;
        while i < n
            invariant
                n == peers@.len(),
                i <= n,
                targets@ == peers@.take(i as int),
            decreases n - i,
        {
            if let Some(peer) = peers.get(i) {
                targets.push(peer);
            }
            i += 1;
            assert(targets@ =~= peers@.take(i as int));
        }
        assert(peers@.take(n as int) =~= peers@);
        Fanout { targets, next: 0, errors: Vec::new() }
    }

    /// The peer to send to next, or nothing when every peer had its turn.
    pub fn target(&self) -> (peer: Option<Address>)
        ensures
            peer == pending(self@),
    {
        if self.next < self.targets.len() {
            Some(self.targets[self.next])
        } else {
            None
        }
    }

    /// Takes note of how the send to the peer in turn went.
    pub fn record(&mut self, outcome: Result<(), E>)
        ensures
            final(self)@ == recorded(old(self)@, outcome),
            one_per_peer(final(self)@),
    {
        proof {
            use_type_invariant(&*self);
            lemma_recorded(self@, outcome);
        }
        if self.next >= self.targets.len() {
            return ;
        }
        let peer = self.targets[self.next];
        let mut taken = Fanout { targets: Vec::new(), next: 0, errors: Vec::new() };
        std::mem::swap(self, &mut taken);
        let Fanout { targets, next, errors } = taken;
        let mut errors = errors;
        if let Err(e) = outcome {
            errors.push((peer, e));
        }
        *self = Fanout { targets, next: next + 1, errors };
    }

    /// Whether every peer had its turn.
    pub fn is_done(&self) -> (done: bool)
        ensures
            done == (pending(self@) is None),
    {
        self.next >= self.targets.len()
    }

    /// The sends that failed, one entry for each peer that could not be
    /// sent to.
    pub fn finish(self) -> (errors: Vec<(Address, E)>)
        ensures
            errors@ == self@.errors,
            one_per_peer(self@),
    {
        proof {
            use_type_invariant(&self);
        }
        self.errors
    }
}

} // verus!
