//! The observers that a broadcast goes to.
//!
//! The registry is the membership table only: who is connected, and under
//! which identifier. Sending is left to the caller, who reports back which
//! sends failed; the registry then removes those observers and says whether
//! anyone is left to serve.

use vstd::prelude::*;

verus! {

/// The mathematical content of a [`Registry`]: the identifiers of the
/// connected observers in the order in which they registered, and the number
/// of identifiers handed out so far.
pub struct Membership {
    pub peers: Seq<u64>,
    pub issued: nat,
}

/// Whether the identifiers rise strictly and each is below `bound`.
pub open spec fn rising_below(peers: Seq<u64>, bound: nat) -> bool {
    &&& forall|i: int, j: int| 0 <= i < j < peers.len() ==> #[trigger] peers[i] < #[trigger] peers[j]
    &&& forall|i: int| 0 <= i < peers.len() ==> #[trigger] peers[i] < bound
}

/// The test that an observer passes unless it is among `gone`.
pub open spec fn stays(gone: Seq<u64>) -> spec_fn(u64) -> bool {
    |peer: u64| !gone.contains(peer)
}

impl Membership {
    /// A membership is well formed if its identifiers rise strictly and each
    /// was handed out before: no identifier is live twice, and none is reused.
    pub open spec fn wf(self) -> bool {
        rising_below(self.peers, self.issued) && self.issued <= u64::MAX
    }

    /// The membership of a new registry whose first identifier will be `first`.
    pub open spec fn starting_at(first: u64) -> Membership {
        Membership { peers: Seq::empty(), issued: first as nat }
    }

    /// The membership of a new registry.
    pub open spec fn empty() -> Membership {
        Membership::starting_at(0)
    }

    /// Whether any observer is connected.
    pub open spec fn occupied(self) -> bool {
        self.peers.len() > 0
    }

    /// Whether an identifier is left to hand out.
    pub open spec fn can_register(self) -> bool {
        self.issued < u64::MAX
    }

    /// The membership after one more observer registered.
    pub open spec fn register(self) -> Membership {
        Membership { peers: self.peers.push(self.issued as u64), issued: self.issued + 1 }
    }

    /// The membership after the observers among `gone` were removed.
    pub open spec fn prune(self, gone: Seq<u64>) -> Membership {
        Membership { peers: self.peers.filter(stays(gone)), issued: self.issued }
    }

    /// The membership after one observer disconnected.
    pub open spec fn disconnect(self, peer: u64) -> Membership {
        self.prune(seq![peer])
    }
}

/// The identifier that the next registration hands out is not in use.
pub proof fn lemma_issued_is_fresh(members: Membership)
    requires
        members.wf(),
    ensures
        !members.peers.contains(members.issued as u64),
        members.can_register() ==> members.register().wf(),
{
}

/// Removing observers keeps a well-formed membership well formed, and takes
/// away exactly the observers named.
pub proof fn lemma_prune_wf(members: Membership, gone: Seq<u64>)
    requires
        members.wf(),
    ensures
        members.prune(gone).wf(),
        forall|peer: u64|
            members.prune(gone).peers.contains(peer) <==> members.peers.contains(peer)
                && !gone.contains(peer),
    decreases members.peers.len(),
{
    reveal(Seq::filter);
    if members.peers.len() > 0 {
        let init = Membership { peers: members.peers.drop_last(), issued: members.issued };
        lemma_prune_wf(init, gone);
        let last = members.peers.last();
        let kept = init.prune(gone).peers;
        // What is kept of the earlier observers was among them, so it is
        // below the last.
        assert forall|k: int| 0 <= k < kept.len() implies kept[k] < last by {
            assert(kept.contains(kept[k]));
            assert(init.peers.contains(kept[k]));
        }
        assert forall|peer: u64|
            members.prune(gone).peers.contains(peer) <==> members.peers.contains(peer)
                && !gone.contains(peer) by {
            let pruned = members.prune(gone).peers;
            if pruned.contains(peer) {
                let k = choose|k: int| 0 <= k < pruned.len() && pruned[k] == peer;
                if k < kept.len() {
                    assert(kept.contains(peer));
                    let j = choose|j: int| 0 <= j < init.peers.len() && init.peers[j] == peer;
                    assert(members.peers[j] == peer);
                } else {
                    assert(members.peers[members.peers.len() - 1] == peer);
                }
            }
            if members.peers.contains(peer) && !gone.contains(peer) {
                let j = choose|j: int| 0 <= j < members.peers.len() && members.peers[j] == peer;
                if j < init.peers.len() {
                    assert(init.peers[j] == peer);
                    assert(init.peers.contains(peer));
                    let k = choose|k: int| 0 <= k < kept.len() && kept[k] == peer;
                    assert(pruned[k] == peer);
                } else {
                    assert(pruned[pruned.len() - 1] == peer);
                }
            }
        }
    }
}

/// What an observer is told when it registers.
#[derive(Debug, Clone, Copy, PartialEq, Eq)]
pub struct Registration {
    /// The identifier under which the observer is known from now on.
    pub peer_id: u64,
    /// Whether the broadcast loop has to be started: the observer is the only
    /// one registered.
    pub start_loop: bool,
}

/// The table of connected observers.
pub struct Registry {
    peers: Vec<u64>,
    issued: u64,
}

impl View for Registry {
    type V = Membership;

    closed spec fn view(&self) -> Membership {
        Membership { peers: self.peers@, issued: self.issued as nat }
    }
}

/// Whether `needle` occurs in `haystack`.
fn occurs(haystack: &Vec<u64>, needle: u64) -> (found: bool)
    ensures
        found == haystack@.contains(needle),
{
    let mut k: usize = 0;
    while k < haystack.len()
        invariant
            k <= haystack.len(),
            forall|j: int| 0 <= j < k ==> haystack@[j] != needle,
        decreases haystack.len() - k,
    {
        if haystack[k] == needle {
            return true;
        }
        k += 1;
    }
    false
}

/// The identifiers of `peers` that are not among `gone`, in their order.
fn remaining(peers: &Vec<u64>, gone: &Vec<u64>, Ghost(bound): Ghost<nat>) -> (kept: Vec<u64>)
    requires
        rising_below(peers@, bound),
    ensures
        kept@ == peers@.filter(stays(gone@)),
        rising_below(kept@, bound),
{
    let mut kept: Vec<u64> = Vec::new();
    let mut i: usize = 0;
    while i < peers.len()
        invariant
            i <= peers.len(),
            rising_below(peers@, bound),
            kept@ == peers@.take(i as int).filter(stays(gone@)),
            rising_below(kept@, bound),
            forall|k: int| 0 <= k < kept.len() && i < peers.len() ==> kept@[k] < peers@[i as int],
        decreases peers.len() - i,
    {
        let peer = peers[i];
        proof {
            reveal(Seq::filter);
            assert(peers@.take(i + 1).drop_last() =~= peers@.take(i as int));
        }
        if !occurs(gone, peer) {
            kept.push(peer);
        }
        i += 1;
    }
    assert(peers@.take(peers.len() as int) =~= peers@);
    kept
}

impl Registry {
    #[verifier::type_invariant]
    spec fn inv(self) -> bool {
        self@.wf()
    }

    /// A registry without observers, whose identifiers start at zero.
    pub fn new() -> (registry: Registry)
        ensures
            registry@ == Membership::empty(),
            registry@.wf(),
    {
        Registry { peers: Vec::new(), issued: 0 }
    }

    /// A registry without observers, whose identifiers start at `first`.
    pub fn starting_at(first: u64) -> (registry: Registry)
        ensures
            registry@ == Membership::starting_at(first),
            registry@.wf(),
    {
        Registry { peers: Vec::new(), issued: first }
    }

    /// The number of connected observers.
    pub fn len(&self) -> (n: usize)
        ensures
            n == self@.peers.len(),
            self@.wf(),
    {
        proof {
            use_type_invariant(self);
        }
        self.peers.len()
    }

    /// Whether no observer is connected.
    pub fn is_empty(&self) -> (empty: bool)
        ensures
            empty == !self@.occupied(),
            self@.wf(),
    {
        proof {
            use_type_invariant(self);
        }
        self.peers.len() == 0
    }

    /// Whether an observer is connected under this identifier.
    pub fn contains(&self, peer_id: u64) -> (found: bool)
        ensures
            found == self@.peers.contains(peer_id),
            self@.wf(),
    {
        proof {
            use_type_invariant(self);
        }
        occurs(&self.peers, peer_id)
    }

    /// The identifiers of the connected observers, in the order in which they
    /// registered: those a broadcast has to reach.
    pub fn peers(&self) -> (peers: Vec<u64>)
        ensures
            peers@ == self@.peers,
            self@.wf(),
    {
        proof {
            use_type_invariant(self);
        }
        self.peers.clone()
    }

    /// Registers one more observer under a fresh identifier. The observer is
    /// told to start the broadcast loop exactly if it is now the only one
    /// registered. Once every identifier has been handed out nobody can
    /// register any more: the result is `None` and the registry is unchanged.
    pub fn register(&mut self) -> (registration: Option<Registration>)
        ensures
            final(self)@.wf(),
            old(self)@.can_register() ==> final(self)@ == old(self)@.register()
                && registration == Some(
                Registration {
                    peer_id: old(self)@.issued as u64,
                    start_loop: final(self)@.peers.len() == 1,
                },
            ),
            old(self)@.can_register() ==> !old(self)@.peers.contains(old(self)@.issued as u64),
            !old(self)@.can_register() ==> final(self)@ == old(self)@ && registration is None,
    {
        proof {
            use_type_invariant(&*self);
            lemma_issued_is_fresh(self@);
        }
        if self.issued == u64::MAX {
            return None;
        }
        let peer_id = self.issued;
        let mut peers = self.peers.clone();
        peers.push(peer_id);
        let start_loop = peers.len() == 1;
        *self = Registry { peers, issued: peer_id + 1 };
        Some(Registration { peer_id, start_loop })
    }

    /// Removes the observers whose send failed and says whether any observer
    /// is left. Identifiers that are not registered are passed over.
    pub fn complete_broadcast(&mut self, failed: &Vec<u64>) -> (still_occupied: bool)
        ensures
            final(self)@.wf(),
            final(self)@ == old(self)@.prune(failed@),
            forall|peer: u64|
                final(self)@.peers.contains(peer) <==> old(self)@.peers.contains(peer)
                    && !failed@.contains(peer),
            still_occupied == final(self)@.occupied(),
    {
        proof {
            use_type_invariant(&*self);
            lemma_prune_wf(self@, failed@);
        }
        let kept = remaining(&self.peers, failed, Ghost(self.issued as nat));
        let still_occupied = kept.len() > 0;
        *self = Registry { peers: kept, issued: self.issued };
        still_occupied
    }

    /// Removes an observer that disconnected, and says whether it was
    /// registered. A loop that is alive learns of an emptied registry only
    /// from its next broadcast; an observer that registers before that
    /// broadcast is the only one registered and is told to start a loop.
    pub fn disconnect(&mut self, peer_id: u64) -> (was_registered: bool)
        ensures
            final(self)@.wf(),
            final(self)@ == old(self)@.disconnect(peer_id),
            forall|peer: u64|
                final(self)@.peers.contains(peer) <==> old(self)@.peers.contains(peer) && peer
                    != peer_id,
            was_registered == old(self)@.peers.contains(peer_id),
    {
        proof {
            use_type_invariant(&*self);
            lemma_prune_wf(self@, seq![peer_id]);
            assert forall|peer: u64| seq![peer_id].contains(peer) <==> peer == peer_id by {
                assert(seq![peer_id][0] == peer_id);
            }
        }
        let was_registered = occurs(&self.peers, peer_id);
        let gone: Vec<u64> = vec![peer_id];
        assert(gone@ =~= seq![peer_id]);
        let kept = remaining(&self.peers, &gone, Ghost(self.issued as nat));
        *self = Registry { peers: kept, issued: self.issued };
        was_registered
    }
}

} // verus!
