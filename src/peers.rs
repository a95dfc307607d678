//! The media-peer registry of one stream: the UDP endpoints that outbound
//! packets go to, unique, and never this node's own media endpoint.

use vstd::prelude::*;
use crate::endpoint::Endpoint;

verus! {

/// `peers` after an attempt to add `a`: unchanged when `a` is known or is the
/// local endpoint, else `a` is appended.
pub open spec fn added(peers: Seq<Endpoint>, local: Endpoint, a: Endpoint) -> Seq<Endpoint> {
    if peers.contains(a) || a == local {
        peers
    } else {
        peers.push(a)
    }
}

/// `peers` after attempts to add each of `addrs`, in order.
pub open spec fn added_all(peers: Seq<Endpoint>, local: Endpoint, addrs: Seq<Endpoint>) -> Seq<
    Endpoint,
>
    decreases addrs.len(),
{
    if addrs.len() == 0 {
        peers
    } else {
        added(added_all(peers, local, addrs.drop_last()), local, addrs.last())
    }
}

/// Entries are unique and the local endpoint is not among them.
pub open spec fn registry_ok(peers: Seq<Endpoint>, local: Endpoint) -> bool {
    peers.no_duplicates() && !peers.contains(local)
}

/// Adding is idempotent, keeps the registry's invariant, never adds the
/// local endpoint, and adds nothing but `a`.
pub proof fn lemma_add_idempotent(peers: Seq<Endpoint>, local: Endpoint, a: Endpoint)
    requires
        registry_ok(peers, local),
    ensures
        added(added(peers, local, a), local, a) == added(peers, local, a),
        registry_ok(added(peers, local, a), local),
        !added(peers, local, local).contains(local),
        forall|e: Endpoint|
            #[trigger] added(peers, local, a).contains(e) <==> peers.contains(e) || (e == a && a
                != local),
{
    let p1 = added(peers, local, a);
    if !(peers.contains(a) || a == local) {
        assert(p1.last() == a);
        assert(p1.contains(a));
        assert forall|i: int, j: int| 0 <= i < j < p1.len() implies p1[i] != p1[j] by {
            if j == p1.len() - 1 {
                assert(p1[i] == peers[i]);
            }
        }
        assert forall|e: Endpoint| #[trigger] p1.contains(e) implies peers.contains(e) || e == a by {
            let i = choose|i: int| 0 <= i < p1.len() && p1[i] == e;
            if i < peers.len() {
                assert(peers[i] == e);
            }
        }
        assert forall|e: Endpoint| peers.contains(e) implies #[trigger] p1.contains(e) by {
            let i = choose|i: int| 0 <= i < peers.len() && peers[i] == e;
            assert(p1[i] == e);
        }
    }
}

/// Joining through a series of answers leaves every answering peer's media
/// endpoint (but the local one) in the registry, with all that was there
/// before.
pub proof fn lemma_added_all_covers(peers: Seq<Endpoint>, local: Endpoint, addrs: Seq<Endpoint>)
    requires
        registry_ok(peers, local),
    ensures
        registry_ok(added_all(peers, local, addrs), local),
        forall|e: Endpoint| peers.contains(e) ==> #[trigger] added_all(peers, local, addrs).contains(e),
        forall|i: int|
            0 <= i < addrs.len() && addrs[i] != local ==> #[trigger] added_all(
                peers,
                local,
                addrs,
            ).contains(addrs[i]),
    decreases addrs.len(),
{
    if addrs.len() > 0 {
        let prev = added_all(peers, local, addrs.drop_last());
        lemma_added_all_covers(peers, local, addrs.drop_last());
        lemma_add_idempotent(prev, local, addrs.last());
        let all = added_all(peers, local, addrs);
        assert forall|i: int| 0 <= i < addrs.len() && addrs[i] != local implies #[trigger] all.contains(
            addrs[i],
        ) by {
            if i < addrs.len() - 1 {
                assert(addrs.drop_last()[i] == addrs[i]);
                assert(prev.contains(addrs[i]));
            }
        }
    }
}

/// The media peers of one stream and this node's own media endpoint.
pub struct PeerManager {
    addresses: Vec<Endpoint>,
    local_addr: Endpoint,
}

impl PeerManager {
    /// The known media peers, in the order they were added.
    pub closed spec fn peers(&self) -> Seq<Endpoint> {
        self.addresses@
    }

    /// This node's media endpoint.
    pub closed spec fn local(&self) -> Endpoint {
        self.local_addr
    }

    /// An empty registry for a node whose media endpoint is `local_addr`.
    pub fn new(local_addr: Endpoint) -> (r: PeerManager)
        ensures
            r.peers() == Seq::<Endpoint>::empty(),
            r.local() == local_addr,
            registry_ok(r.peers(), r.local()),
    {
        PeerManager { addresses: Vec::new(), local_addr }
    }

    /// Whether `addr` is a known peer.
    pub fn contains(&self, addr: &Endpoint) -> (r: bool)
        ensures
            r == self.peers().contains(*addr),
    {
        let mut i: usize = 0;
        while i < self.addresses.len()
            invariant
                i <= self.addresses@.len(),
                forall|j: int| 0 <= j < i ==> self.addresses@[j] != *addr,
            decreases self.addresses@.len() - i,
        {
            if self.addresses[i] == *addr {
                assert(self.addresses@[i as int] == *addr);
                return true;
            }
            i = i + 1;
        }
        false
    }

    /// Adds `addr` unless it is known or is the local endpoint; says whether
    /// it was added.
    pub fn add_peer(&mut self, addr: Endpoint) -> (r: bool)
        ensures
            r == (!old(self).peers().contains(addr) && addr != old(self).local()),
            final(self).peers() == added(old(self).peers(), old(self).local(), addr),
            final(self).local() == old(self).local(),
            registry_ok(old(self).peers(), old(self).local()) ==> registry_ok(
                final(self).peers(),
                final(self).local(),
            ),
    {
        proof {
            if registry_ok(self.peers(), self.local()) {
                lemma_add_idempotent(self.peers(), self.local(), addr);
            }
        }
        if !self.contains(&addr) && addr != self.local_addr {
            self.addresses.push(addr);
            true
        } else {
            false
        }
    }

    /// A snapshot of the known media peers.
    pub fn get_peers(&self) -> (r: Vec<Endpoint>)
        ensures
            r@ == self.peers(),
    {
        let mut out: Vec<Endpoint> = Vec::new();
        let mut i: usize = 0;
        while i < self.addresses.len()
            invariant
                i <= self.addresses@.len(),
                out@ == self.addresses@.take(i as int),
            decreases self.addresses@.len() - i,
        {
            out.push(self.addresses[i]);
            i = i + 1;
            assert(out@ =~= self.addresses@.take(i as int));
        }
        assert(self.addresses@.take(i as int) =~= self.addresses@);
        out
    }

    /// This node's media endpoint.
    pub fn local_addr(&self) -> (r: Endpoint)
        ensures
            r == self.local(),
    {
        self.local_addr
    }

    /// Number of known media peers.
    pub fn len(&self) -> (r: usize)
        ensures
            r == self.peers().len(),
    {
        self.addresses.len()
    }
}

} // verus!
