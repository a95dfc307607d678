//! The signaling-peer registry and the local codec configuration: the TCP
//! endpoints of the other peers' signaling listeners, kept in a concurrent
//! set of the `dashmap` crate, and this node's SPS and PPS.

use vstd::prelude::*;
use bytes::Bytes;
use dashmap::DashSet;
use crate::buffers::{bytes_slice, frozen_bytes};
use crate::endpoint::{endpoint_from_key, endpoint_key, endpoint_to_key, lemma_endpoint_key, Endpoint};
use crate::kinds::ErrorKind;
use crate::wire::{codec_line_ok, is_codec_line};

verus! {

#[verifier::external_type_specification]
#[verifier::external_body]
#[verifier::reject_recursive_types(K)]
#[verifier::reject_recursive_types(S)]
pub struct ExDashSet<K, S>(DashSet<K, S>);

/// The keys that a set holds.
pub uninterp spec fn key_set(s: DashSet<u64>) -> Set<u64>;

/// Relies on `DashSet::new`: the new set is empty.
#[verifier::external_body]
fn new_key_set() -> (r: DashSet<u64>)
    ensures
        key_set(r) == Set::<u64>::empty(),
{
    DashSet::new()
}

/// Relies on `DashSet::insert`: adds the key, and returns true exactly when
/// it was absent.
#[verifier::external_body]
fn insert_key(s: &mut DashSet<u64>, k: u64) -> (r: bool)
    ensures
        key_set(*final(s)) == key_set(*old(s)).insert(k),
        r == !key_set(*old(s)).contains(k),
{
    s.insert(k)
}

/// Relies on `DashSet::iter`: visits every key of the set once.
#[verifier::external_body]
fn list_keys(s: &DashSet<u64>) -> (r: Vec<u64>)
    ensures
        r@.to_set() == key_set(*s),
        r@.no_duplicates(),
{
    s.iter().map(|k| *k).collect()
}

/// SPS and PPS of the local H.264 encoder.
pub struct H264Args {
    pub sps: Bytes,
    pub pps: Bytes,
}

/// Signaling peers and the local codec configuration.
pub struct PeerSpecifications {
    peer_signaling_address: DashSet<u64>,
    self_h264_args: H264Args,
}

impl PeerSpecifications {
    /// The known signaling peers.
    pub closed spec fn signaling_peers(&self) -> Set<Endpoint> {
        Set::new(|e: Endpoint| key_set(self.peer_signaling_address).contains(endpoint_key(e)))
    }

    /// The local SPS.
    pub closed spec fn sps(&self) -> Seq<u8> {
        frozen_bytes(self.self_h264_args.sps)
    }

    /// The local PPS.
    pub closed spec fn pps(&self) -> Seq<u8> {
        frozen_bytes(self.self_h264_args.pps)
    }

    /// Every key stands for an endpoint.
    pub closed spec fn wf(&self) -> bool {
        forall|k: u64| key_set(self.peer_signaling_address).contains(k) ==> k < 0x1_0000_0000_0000
    }

    /// A configuration with no signaling peers yet.
    pub fn new(pps: Bytes, sps: Bytes) -> (r: PeerSpecifications)
        ensures
            r.wf(),
            r.signaling_peers() == Set::<Endpoint>::empty(),
            r.sps() == frozen_bytes(sps),
            r.pps() == frozen_bytes(pps),
    {
        let r = PeerSpecifications {
            peer_signaling_address: new_key_set(),
            self_h264_args: H264Args { sps, pps },
        };
        assert(r.signaling_peers() =~= Set::<Endpoint>::empty());
        r
    }

    /// A snapshot of the signaling peers, each once, in no given order.
    pub fn get_peers(&self) -> (r: Vec<Endpoint>)
        requires
            self.wf(),
        ensures
            r@.to_set() == self.signaling_peers(),
            r@.no_duplicates(),
    {
        let keys = list_keys(&self.peer_signaling_address);
        let ghost ks = key_set(self.peer_signaling_address);
        let mut out: Vec<Endpoint> = Vec::new();
        let mut i: usize = 0;
        while i < keys.len()
            invariant
                i <= keys@.len(),
                keys@.to_set() == ks,
                ks == key_set(self.peer_signaling_address),
                self.wf(),
                out@.len() == i,
                forall|j: int| 0 <= j < i ==> endpoint_key(#[trigger] out@[j]) == keys@[j],
            decreases keys@.len() - i,
        {
            let k = keys[i];
            assert(keys@.to_set().contains(k));
            let e = endpoint_from_key(k);
            out.push(e);
            i = i + 1;
        }
        proof {
            assert forall|e: Endpoint| #[trigger] out@.to_set().contains(e) <==> self.signaling_peers().contains(e) by {
                if out@.to_set().contains(e) {
                    let j = choose|j: int| 0 <= j < out@.len() && out@[j] == e;
                    assert(keys@.to_set().contains(keys@[j]));
                }
                if self.signaling_peers().contains(e) {
                    assert(ks.contains(endpoint_key(e)));
                    let j = choose|j: int| 0 <= j < keys@.len() && keys@[j] == endpoint_key(e);
                    lemma_endpoint_key(out@[j], e);
                    assert(out@.to_set().contains(out@[j]));
                }
            }
            assert(out@.to_set() =~= self.signaling_peers());
            assert forall|a: int, b: int| 0 <= a < b < out@.len() implies out@[a] != out@[b] by {
                assert(keys@[a] != keys@[b]);
            }
        }
        out
    }

    /// Adds a signaling peer; says whether it was new.
    pub fn add_peer(&mut self, addr: Endpoint) -> (r: bool)
        requires
            old(self).wf(),
        ensures
            final(self).wf(),
            final(self).signaling_peers() == old(self).signaling_peers().insert(addr),
            r == !old(self).signaling_peers().contains(addr),
            final(self).sps() == old(self).sps(),
            final(self).pps() == old(self).pps(),
    {
        let k = endpoint_to_key(&addr);
        proof {
            lemma_endpoint_key(addr, addr);
        }
        let r = insert_key(&mut self.peer_signaling_address, k);
        proof {
            assert forall|e: Endpoint| #[trigger] self.signaling_peers().contains(e) <==> old(self).signaling_peers().insert(addr).contains(e) by {
                lemma_endpoint_key(e, addr);
            }
            assert(self.signaling_peers() =~= old(self).signaling_peers().insert(addr));
        }
        r
    }

    /// Whether `addr` is a known signaling peer.
    pub fn contains(&self, addr: &Endpoint) -> (r: bool)
        ensures
            r == self.signaling_peers().contains(*addr),
    {
        let keys = list_keys(&self.peer_signaling_address);
        let k = endpoint_to_key(addr);
        let mut i: usize = 0;
        while i < keys.len()
            invariant
                i <= keys@.len(),
                keys@.to_set() == key_set(self.peer_signaling_address),
                k == endpoint_key(*addr),
                forall|j: int| 0 <= j < i ==> keys@[j] != k,
            decreases keys@.len() - i,
        {
            if keys[i] == k {
                assert(keys@[i as int] == k);
                assert(keys@.contains(k));
                assert(keys@.to_set().contains(k));
                assert(k == endpoint_key(*addr));
                assert(key_set(self.peer_signaling_address).contains(endpoint_key(*addr)));
                assert(self.signaling_peers().contains(*addr));
                return true;
            }
            i = i + 1;
        }
        assert(!keys@.to_set().contains(k));
        false
    }

    /// The local SPS.
    pub fn sps_bytes(&self) -> (r: &[u8])
        ensures
            r@ == self.sps(),
    {
        bytes_slice(&self.self_h264_args.sps)
    }

    /// The local PPS.
    pub fn pps_bytes(&self) -> (r: &[u8])
        ensures
            r@ == self.pps(),
    {
        bytes_slice(&self.self_h264_args.pps)
    }
}

/// The local codec configuration of a node, set once.
pub struct SessionConfig {
    specs: Option<PeerSpecifications>,
}

impl SessionConfig {
    /// The configuration, once set.
    pub closed spec fn current(&self) -> Option<PeerSpecifications> {
        self.specs
    }

    /// Well formed: once set, its SPS and PPS are valid codec lines and its
    /// signaling set is well formed.
    pub closed spec fn wf(&self) -> bool {
        match self.specs {
            Some(p) => p.wf() && codec_line_ok(p.sps()) && codec_line_ok(p.pps()),
            None => true,
        }
    }

    /// Not set yet.
    pub fn new() -> (r: SessionConfig)
        ensures
            r.wf(),
            r.current() is None,
    {
        SessionConfig { specs: None }
    }

    /// Sets the local SPS and PPS. Fails with `AlreadyInitialized` when they
    /// are set already, and with `InvalidData` when either is empty or holds
    /// CR or LF.
    pub fn set_local_h264(&mut self, sps: Bytes, pps: Bytes) -> (r: Result<(), ErrorKind>)
        requires
            old(self).wf(),
        ensures
            final(self).wf(),
            old(self).current() is Some ==> r == Err::<(), ErrorKind>(ErrorKind::AlreadyInitialized)
                && final(self).current() == old(self).current(),
            old(self).current() is None && !(codec_line_ok(frozen_bytes(sps)) && codec_line_ok(
                frozen_bytes(pps),
            )) ==> r == Err::<(), ErrorKind>(ErrorKind::InvalidData) && final(self).current() is None,
            old(self).current() is None && codec_line_ok(frozen_bytes(sps)) && codec_line_ok(
                frozen_bytes(pps),
            ) ==> {
                &&& r is Ok
                &&& final(self).current() is Some
                &&& final(self).current().unwrap().sps() == frozen_bytes(sps)
                &&& final(self).current().unwrap().pps() == frozen_bytes(pps)
                &&& final(self).current().unwrap().signaling_peers() == Set::<Endpoint>::empty()
            },
    {
        if self.specs.is_some() {
            return Err(ErrorKind::AlreadyInitialized);
        }
        if !(is_codec_line(bytes_slice(&sps)) && is_codec_line(bytes_slice(&pps))) {
            return Err(ErrorKind::InvalidData);
        }
        self.specs = Some(PeerSpecifications::new(pps, sps));
        Ok(())
    }

    /// Adds a signaling peer to a configuration that is set; says whether it
    /// was new.
    pub fn add_signaling_peer(&mut self, addr: Endpoint) -> (r: bool)
        requires
            old(self).wf(),
            old(self).current() is Some,
        ensures
            final(self).wf(),
            final(self).current() is Some,
            final(self).current().unwrap().signaling_peers() == old(
                self,
            ).current().unwrap().signaling_peers().insert(addr),
            final(self).current().unwrap().sps() == old(self).current().unwrap().sps(),
            final(self).current().unwrap().pps() == old(self).current().unwrap().pps(),
            r == !old(self).current().unwrap().signaling_peers().contains(addr),
    {
        match &mut self.specs {
            Some(p) => p.add_peer(addr),
            None => false,
        }
    }

    /// The configuration; `NotReady` before it is set.
    pub fn get_local_h264(&self) -> (r: Result<&PeerSpecifications, ErrorKind>)
        ensures
            self.wf() && self.current() is Some ==> {
                &&& self.current().unwrap().wf()
                &&& codec_line_ok(self.current().unwrap().sps())
                &&& codec_line_ok(self.current().unwrap().pps())
            },
            match self.current() {
                Some(p) => r == Ok::<&PeerSpecifications, ErrorKind>(&p),
                None => r == Err::<&PeerSpecifications, ErrorKind>(ErrorKind::NotReady),
            },
    {
        match &self.specs {
            Some(p) => Ok(p),
            None => Err(ErrorKind::NotReady),
        }
    }
}

} // verus!
