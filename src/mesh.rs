//! The session core of a node: its codec configuration, its signaling peers
//! and one media-peer registry per stream kind; how it answers join requests
//! and takes in join responses; and the join itself, as a state machine that
//! the network side drives.

use vstd::prelude::*;
use crate::endpoint::Endpoint;
use crate::kinds::{ErrorKind, StreamType};
use crate::peers::{added, registry_ok, PeerManager};
use crate::signaling::{PeerSpecifications, SessionConfig};
use crate::wire::{
    SignalingRequest, SignalingResponse,
    build_request, build_response, is_request, is_response, parse_request, parse_response,
};

verus! {

/// The SPS that a block of `kind` carries for configuration `p`.
pub open spec fn sent_sps(kind: StreamType, p: PeerSpecifications) -> Seq<u8> {
    if kind == StreamType::Video {
        p.sps()
    } else {
        Seq::empty()
    }
}

/// The PPS that a block of `kind` carries for configuration `p`.
pub open spec fn sent_pps(kind: StreamType, p: PeerSpecifications) -> Seq<u8> {
    if kind == StreamType::Video {
        p.pps()
    } else {
        Seq::empty()
    }
}

/// `v` without `a`.
pub fn without(v: &Vec<Endpoint>, a: &Endpoint) -> (r: Vec<Endpoint>)
    ensures
        r@.to_set() == v@.to_set().remove(*a),
        v@.no_duplicates() ==> r@.no_duplicates(),
{
    let mut out: Vec<Endpoint> = Vec::new();
    let mut i: usize = 0;
    while i < v.len()
        invariant
            i <= v@.len(),
            forall|x: Endpoint| #[trigger] out@.contains(x) <==> (v@.take(i as int).contains(x) && x != *a),
            v@.no_duplicates() ==> out@.no_duplicates(),
        decreases v@.len() - i,
    {
        let e = v[i];
        let ghost before = out@;
        let ghost t0 = v@.take(i as int);
        let ghost t1 = v@.take(i as int + 1);
        assert(t1 =~= t0.push(e));
        if e != *a {
            proof {
                if v@.no_duplicates() {
                    assert(!t0.contains(e)) by {
                        if t0.contains(e) {
                            let k = choose|k: int| 0 <= k < t0.len() && t0[k] == e;
                            assert(v@[k] == v@[i as int]);
                        }
                    }
                    assert(!before.contains(e));
                    assert forall|j: int, k: int| 0 <= j < k < before.len() + 1 implies before.push(e)[j] != before.push(e)[k] by {
                        if k == before.len() {
                            assert(before.contains(before[j]));
                        }
                    }
                }
            }
            out.push(e);
            proof {
                assert forall|x: Endpoint| #[trigger] out@.contains(x) <==> (t1.contains(x) && x != *a) by {
                    if out@.contains(x) {
                        let j = choose|j: int| 0 <= j < out@.len() && out@[j] == x;
                        if j < before.len() {
                            assert(before.contains(x));
                            let k = choose|k: int| 0 <= k < t0.len() && t0[k] == x;
                            assert(t1[k] == x);
                        } else {
                            assert(t1[i as int] == x);
                        }
                    }
                    if t1.contains(x) && x != *a {
                        let k = choose|k: int| 0 <= k < t1.len() && t1[k] == x;
                        if k < i {
                            assert(t0[k] == x);
                            assert(t0.contains(x));
                            assert(before.contains(x));
                            let j = choose|j: int| 0 <= j < before.len() && before[j] == x;
                            assert(out@[j] == x);
                        } else {
                            assert(out@[before.len() as int] == x);
                        }
                    }
                }
            }
        } else {
            proof {
                assert forall|x: Endpoint| #[trigger] out@.contains(x) <==> (t1.contains(x) && x != *a) by {
                    if out@.contains(x) {
                        let k = choose|k: int| 0 <= k < t0.len() && t0[k] == x;
                        assert(t1[k] == x);
                    }
                    if t1.contains(x) && x != *a {
                        let k = choose|k: int| 0 <= k < t1.len() && t1[k] == x;
                        assert(t0[k] == x);
                        assert(t0.contains(x));
                    }
                }
            }
        }
        i = i + 1;
    }
    assert(v@.take(i as int) =~= v@);
    assert(out@.to_set() =~= v@.to_set().remove(*a));
    out
}

/// What answering a join request of `kind` from signaling endpoint `sig`
/// and media endpoint `media` does: see `Mesh::answer_request`.
pub open spec fn answered(
    before: Mesh,
    after: Mesh,
    r: Result<Vec<u8>, ErrorKind>,
    kind: StreamType,
    sig: Endpoint,
    media: Endpoint,
) -> bool {
    if before.config().current() is None || before.stream(kind) is None {
        r == Err::<Vec<u8>, ErrorKind>(ErrorKind::NotReady) && after == before
    } else {
        let p = before.config().current().unwrap();
        let pm = before.stream(kind).unwrap();
        &&& r is Ok
        &&& exists|ps: Seq<Endpoint>|
            {
                &&& is_response(
                    #[trigger] r.unwrap()@,
                    kind,
                    pm.local(),
                    sent_sps(kind, p),
                    sent_pps(kind, p),
                    ps,
                )
                &&& ps.to_set() == p.signaling_peers().remove(sig)
                &&& ps.no_duplicates()
            }
        &&& after.config().current() is Some
        &&& after.config().current().unwrap().signaling_peers() == p.signaling_peers().insert(sig)
        &&& after.config().current().unwrap().sps() == p.sps()
        &&& after.config().current().unwrap().pps() == p.pps()
        &&& after.stream(kind) is Some
        &&& after.stream(kind).unwrap().peers() == added(pm.peers(), pm.local(), media)
        &&& after.stream(kind).unwrap().local() == pm.local()
        &&& forall|o: StreamType| o != kind ==> after.stream(o) == before.stream(o)
    }
}

/// What taking in a join response of `kind` from the peer whose signaling
/// endpoint is `responder`, read as media endpoint `m` and peer list `ps`,
/// does: see `Mesh::absorb_response`.
pub open spec fn absorbed(
    before: Mesh,
    after: Mesh,
    r: Result<Vec<Endpoint>, ErrorKind>,
    kind: StreamType,
    responder: Endpoint,
    local_signaling: Endpoint,
    k: StreamType,
    m: Endpoint,
    ps: Seq<Endpoint>,
) -> bool {
    if before.config().current() is None || before.stream(kind) is None {
        r == Err::<Vec<Endpoint>, ErrorKind>(ErrorKind::NotReady) && after == before
    } else if k != kind {
        r == Err::<Vec<Endpoint>, ErrorKind>(ErrorKind::InvalidData) && after == before
    } else {
        let p = before.config().current().unwrap();
        let pm = before.stream(kind).unwrap();
        &&& r is Ok
        &&& r.unwrap()@.to_set() == ps.to_set().remove(local_signaling)
        &&& ps.no_duplicates() ==> r.unwrap()@.no_duplicates()
        &&& after.config().current() is Some
        &&& after.config().current().unwrap().signaling_peers() == (if responder == local_signaling {
            p.signaling_peers()
        } else {
            p.signaling_peers().insert(responder)
        })
        &&& after.config().current().unwrap().sps() == p.sps()
        &&& after.config().current().unwrap().pps() == p.pps()
        &&& after.stream(kind) is Some
        &&& after.stream(kind).unwrap().peers() == added(pm.peers(), pm.local(), m)
        &&& after.stream(kind).unwrap().local() == pm.local()
        &&& forall|o: StreamType| o != kind ==> after.stream(o) == before.stream(o)
    }
}

/// State of one node of the mesh.
pub struct Mesh {
    config: SessionConfig,
    video: Option<PeerManager>,
    audio: Option<PeerManager>,
}

impl Mesh {
    /// The local codec configuration and signaling peers.
    pub closed spec fn config(&self) -> SessionConfig {
        self.config
    }

    /// The media-peer registry of a stream, once the stream is initialised.
    pub closed spec fn stream(&self, kind: StreamType) -> Option<PeerManager> {
        match kind {
            StreamType::Video => self.video,
            StreamType::Audio => self.audio,
        }
    }

    /// The configuration is well formed, and each media-peer registry holds
    /// unique entries without the local endpoint.
    pub closed spec fn wf(&self) -> bool {
        &&& self.config.wf()
        &&& self.video matches Some(p) ==> registry_ok(p.peers(), p.local())
        &&& self.audio matches Some(p) ==> registry_ok(p.peers(), p.local())
    }

    /// No configuration and no stream yet.
    pub fn new() -> (r: Mesh)
        ensures
            r.wf(),
            r.config().current() is None,
            r.stream(StreamType::Video) is None,
            r.stream(StreamType::Audio) is None,
    {
        Mesh { config: SessionConfig::new(), video: None, audio: None }
    }

    /// Sets the local SPS and PPS (see `SessionConfig::set_local_h264`).
    pub fn set_local_h264(&mut self, sps: bytes::Bytes, pps: bytes::Bytes) -> (r: Result<
        (),
        ErrorKind,
    >)
        requires
            old(self).wf(),
        ensures
            final(self).wf(),
            final(self).stream(StreamType::Video) == old(self).stream(StreamType::Video),
            final(self).stream(StreamType::Audio) == old(self).stream(StreamType::Audio),
            old(self).config().current() is Some ==> r == Err::<(), ErrorKind>(
                ErrorKind::AlreadyInitialized,
            ),
            old(self).config().current() is None && !(crate::wire::codec_line_ok(
                crate::buffers::frozen_bytes(sps),
            ) && crate::wire::codec_line_ok(crate::buffers::frozen_bytes(pps))) ==> r == Err::<
                (),
                ErrorKind,
            >(ErrorKind::InvalidData),
            r is Ok ==> {
                &&& final(self).config().current() is Some
                &&& final(self).config().current().unwrap().sps() == crate::buffers::frozen_bytes(sps)
                &&& final(self).config().current().unwrap().pps() == crate::buffers::frozen_bytes(pps)
            },
            old(self).config().current() is None && crate::wire::codec_line_ok(
                crate::buffers::frozen_bytes(sps),
            ) && crate::wire::codec_line_ok(crate::buffers::frozen_bytes(pps)) ==> r is Ok,
    {
        self.config.set_local_h264(sps, pps)
    }

    /// Initialises a stream whose media socket is bound to `local_media`;
    /// `AlreadyInitialized` when the stream exists.
    pub fn init_stream(&mut self, kind: StreamType, local_media: Endpoint) -> (r: Result<
        (),
        ErrorKind,
    >)
        requires
            old(self).wf(),
        ensures
            final(self).wf(),
            final(self).config() == old(self).config(),
            old(self).stream(kind) is Some ==> r == Err::<(), ErrorKind>(
                ErrorKind::AlreadyInitialized,
            ) && final(self).stream(kind) == old(self).stream(kind),
            old(self).stream(kind) is None ==> r is Ok && final(self).stream(kind) is Some
                && final(self).stream(kind).unwrap().peers() == Seq::<Endpoint>::empty()
                && final(self).stream(kind).unwrap().local() == local_media,
            forall|o: StreamType| o != kind ==> final(self).stream(o) == old(self).stream(o),
    {
        match kind {
            StreamType::Video => {
                if self.video.is_some() {
                    return Err(ErrorKind::AlreadyInitialized);
                }
                self.video = Some(PeerManager::new(local_media));
            },
            StreamType::Audio => {
                if self.audio.is_some() {
                    return Err(ErrorKind::AlreadyInitialized);
                }
                self.audio = Some(PeerManager::new(local_media));
            },
        }
        Ok(())
    }

    /// Adds a media peer of a stream, as when a datagram comes from an
    /// endpoint not seen before; false when nothing was added, or the stream
    /// does not exist.
    pub fn add_media_peer(&mut self, kind: StreamType, addr: Endpoint) -> (r: bool)
        requires
            old(self).wf(),
        ensures
            final(self).wf(),
            final(self).config() == old(self).config(),
            forall|o: StreamType| o != kind ==> final(self).stream(o) == old(self).stream(o),
            match old(self).stream(kind) {
                Some(p) => {
                    &&& final(self).stream(kind) is Some
                    &&& final(self).stream(kind).unwrap().peers() == added(p.peers(), p.local(), addr)
                    &&& final(self).stream(kind).unwrap().local() == p.local()
                    &&& r == (!p.peers().contains(addr) && addr != p.local())
                },
                None => !r && final(self).stream(kind) is None,
            },
    {
        match kind {
            StreamType::Video => match &mut self.video {
                Some(p) => p.add_peer(addr),
                None => false,
            },
            StreamType::Audio => match &mut self.audio {
                Some(p) => p.add_peer(addr),
                None => false,
            },
        }
    }

    /// A snapshot of the signaling peers, each once, in no given order;
    /// `None` before the configuration is set.
    pub fn signaling_peers(&self) -> (r: Option<Vec<Endpoint>>)
        requires
            self.wf(),
        ensures
            match self.config().current() {
                Some(p) => r is Some && r.unwrap()@.to_set() == p.signaling_peers()
                    && r.unwrap()@.no_duplicates(),
                None => r is None,
            },
    {
        match self.config.get_local_h264() {
            Ok(p) => Some(p.get_peers()),
            Err(_) => None,
        }
    }

    /// A snapshot of the media peers of a stream; `None` when the stream does
    /// not exist.
    pub fn media_peers(&self, kind: StreamType) -> (r: Option<Vec<Endpoint>>)
        ensures
            match self.stream(kind) {
                Some(p) => r is Some && r.unwrap()@ == p.peers(),
                None => r is None,
            },
            self.wf() && self.stream(kind) is Some ==> registry_ok(
                self.stream(kind).unwrap().peers(),
                self.stream(kind).unwrap().local(),
            ),
    {
        let s = match kind {
            StreamType::Video => &self.video,
            StreamType::Audio => &self.audio,
        };
        match s {
            Some(p) => Some(p.get_peers()),
            None => None,
        }
    }

    /// Answers a join request: the response carries this node's media
    /// endpoint of the request's stream, its codec configuration for video,
    /// and every known signaling peer but the requester, each once. The
    /// requester then joins the signaling peers and its media endpoint the
    /// stream's media peers. `NotReady` before the configuration is set or
    /// when the stream does not exist; nothing changes then.
    pub fn answer_request(&mut self, q: &SignalingRequest) -> (r: Result<Vec<u8>, ErrorKind>)
        requires
            old(self).wf(),
        ensures
            final(self).wf(),
            answered(*old(self), *final(self), r, q.kind, q.signaling_addr, q.media_addr),
    {
        let local_media = match q.kind {
            StreamType::Video => match &self.video {
                Some(pm) => pm.local_addr(),
                None => {
                    return Err(ErrorKind::NotReady);
                },
            },
            StreamType::Audio => match &self.audio {
                Some(pm) => pm.local_addr(),
                None => {
                    return Err(ErrorKind::NotReady);
                },
            },
        };
        let specs = match self.config.get_local_h264() {
            Ok(p) => p,
            Err(e) => {
                return Err(e);
            },
        };
        let known = specs.get_peers();
        let others = without(&known, &q.signaling_addr);
        let empty: [u8; 0] = [];
        let built = if q.kind == StreamType::Video {
            build_response(q.kind, &local_media, specs.sps_bytes(), specs.pps_bytes(), others.as_slice())
        } else {
            build_response(q.kind, &local_media, &empty, &empty, others.as_slice())
        };
        let response = match built {
            Ok(b) => b,
            Err(e) => {
                return Err(e);
            },
        };
        proof {
            assert(empty@ =~= Seq::<u8>::empty());
            assert(crate::wire::codec_ok(
                q.kind,
                sent_sps(q.kind, *specs),
                sent_pps(q.kind, *specs),
            ));
        }
        self.config.add_signaling_peer(q.signaling_addr);
        self.add_media_peer(q.kind, q.media_addr);
        Ok(response)
    }

    /// Reads and answers a join request (see `answer_request`). Before the
    /// configuration is set nothing is read and the answer is `NotReady`;
    /// bytes that are no request are `InvalidData`. Nothing changes on
    /// failure.
    pub fn handle_signaling_client(&mut self, request: &[u8]) -> (r: Result<Vec<u8>, ErrorKind>)
        requires
            old(self).wf(),
        ensures
            final(self).wf(),
            old(self).config().current() is None ==> r == Err::<Vec<u8>, ErrorKind>(
                ErrorKind::NotReady,
            ) && *final(self) == *old(self),
            old(self).config().current() is Some && (forall|
                k: StreamType,
                a: Endpoint,
                m: Endpoint,
                x: Seq<u8>,
                y: Seq<u8>,
            | !#[trigger] is_request(request@, k, a, m, x, y)) ==> r == Err::<Vec<u8>, ErrorKind>(
                ErrorKind::InvalidData,
            ) && *final(self) == *old(self),
            forall|k: StreamType, a: Endpoint, m: Endpoint, x: Seq<u8>, y: Seq<u8>|
                old(self).config().current() is Some && #[trigger] is_request(request@, k, a, m, x, y)
                    ==> answered(*old(self), *final(self), r, k, a, m),
    {
        if self.config.get_local_h264().is_err() {
            return Err(ErrorKind::NotReady);
        }
        let q = match parse_request(request) {
            Ok(q) => q,
            Err(e) => {
                return Err(e);
            },
        };
        proof {
            assert forall|k: StreamType, a: Endpoint, m: Endpoint, x: Seq<u8>, y: Seq<u8>|
                #[trigger] is_request(request@, k, a, m, x, y) implies k == q.kind && a
                == q.signaling_addr && m == q.media_addr by {
                crate::wire::lemma_request_unique(
                    request@,
                    k,
                    a,
                    m,
                    x,
                    y,
                    q.kind,
                    q.signaling_addr,
                    q.media_addr,
                    q.sps@,
                    q.pps@,
                );
            }
        }
        self.answer_request(&q)
    }

    /// The join request that this node sends for `kind`, with its signaling
    /// endpoint `local_signaling`. `NotReady` before the configuration is set
    /// or when the stream does not exist.
    pub fn connect_request(&self, kind: StreamType, local_signaling: &Endpoint) -> (r: Result<
        Vec<u8>,
        ErrorKind,
    >)
        requires
            self.wf(),
        ensures
            self.config().current() is None || self.stream(kind) is None ==> r == Err::<
                Vec<u8>,
                ErrorKind,
            >(ErrorKind::NotReady),
            self.config().current() is Some && self.stream(kind) is Some ==> {
                let p = self.config().current().unwrap();
                &&& r is Ok
                &&& is_request(
                    r.unwrap()@,
                    kind,
                    *local_signaling,
                    self.stream(kind).unwrap().local(),
                    sent_sps(kind, p),
                    sent_pps(kind, p),
                )
            },
    {
        let local_media = match kind {
            StreamType::Video => match &self.video {
                Some(pm) => pm.local_addr(),
                None => {
                    return Err(ErrorKind::NotReady);
                },
            },
            StreamType::Audio => match &self.audio {
                Some(pm) => pm.local_addr(),
                None => {
                    return Err(ErrorKind::NotReady);
                },
            },
        };
        let specs = match self.config.get_local_h264() {
            Ok(p) => p,
            Err(e) => {
                return Err(e);
            },
        };
        let empty: [u8; 0] = [];
        assert(empty@ =~= Seq::<u8>::empty());
        let built = if kind == StreamType::Video {
            build_request(kind, local_signaling, &local_media, specs.sps_bytes(), specs.pps_bytes())
        } else {
            build_request(kind, local_signaling, &local_media, &empty, &empty)
        };
        match built {
            Ok(b) => Ok(b),
            Err(e) => Err(e),
        }
    }

    /// Takes in a join response of `kind` from the peer whose signaling
    /// endpoint is `responder`: its media endpoint joins the stream's media
    /// peers and `responder` the signaling peers (unless it is this node).
    /// Returns the signaling endpoints that it lists, but this node's own.
    /// `NotReady` before the configuration is set or when the stream does not
    /// exist; `InvalidData` for a response of another kind. Nothing changes
    /// on failure.
    pub fn absorb_response(
        &mut self,
        kind: StreamType,
        responder: &Endpoint,
        resp: &SignalingResponse,
        local_signaling: &Endpoint,
    ) -> (r: Result<Vec<Endpoint>, ErrorKind>)
        requires
            old(self).wf(),
        ensures
            final(self).wf(),
            absorbed(
                *old(self),
                *final(self),
                r,
                kind,
                *responder,
                *local_signaling,
                resp.kind,
                resp.media_addr,
                resp.peers@,
            ),
    {
        let ready = match kind {
            StreamType::Video => self.video.is_some(),
            StreamType::Audio => self.audio.is_some(),
        };
        if !ready || self.config.get_local_h264().is_err() {
            return Err(ErrorKind::NotReady);
        }
        if resp.kind != kind {
            return Err(ErrorKind::InvalidData);
        }
        self.add_media_peer(kind, resp.media_addr);
        if *responder != *local_signaling {
            self.config.add_signaling_peer(*responder);
        }
        Ok(without(&resp.peers, local_signaling))
    }

    /// Reads and takes in a join response (see `absorb_response`); bytes
    /// that are no response are `InvalidData`.
    pub fn add_peers(
        &mut self,
        kind: StreamType,
        responder: &Endpoint,
        response: &[u8],
        local_signaling: &Endpoint,
    ) -> (r: Result<Vec<Endpoint>, ErrorKind>)
        requires
            old(self).wf(),
        ensures
            final(self).wf(),
            (forall|k: StreamType, m: Endpoint, x: Seq<u8>, y: Seq<u8>, ps: Seq<Endpoint>|
                !#[trigger] is_response(response@, k, m, x, y, ps)) ==> r == Err::<
                Vec<Endpoint>,
                ErrorKind,
            >(ErrorKind::InvalidData) && *final(self) == *old(self),
            forall|k: StreamType, m: Endpoint, x: Seq<u8>, y: Seq<u8>, ps: Seq<Endpoint>|
                #[trigger] is_response(response@, k, m, x, y, ps) ==> absorbed(
                    *old(self),
                    *final(self),
                    r,
                    kind,
                    *responder,
                    *local_signaling,
                    k,
                    m,
                    ps,
                ),
    {
        let resp = match parse_response(response) {
            Ok(q) => q,
            Err(e) => {
                return Err(e);
            },
        };
        proof {
            assert forall|k: StreamType, m: Endpoint, x: Seq<u8>, y: Seq<u8>, ps: Seq<Endpoint>|
                #[trigger] is_response(response@, k, m, x, y, ps) implies k == resp.kind && m
                == resp.media_addr && ps == resp.peers@ by {
                crate::wire::lemma_response_unique(
                    response@,
                    k,
                    m,
                    x,
                    y,
                    ps,
                    resp.kind,
                    resp.media_addr,
                    resp.sps@,
                    resp.pps@,
                    resp.peers@,
                );
            }
        }
        self.absorb_response(kind, responder, &resp, local_signaling)
    }
}

/// A join of the mesh through one known peer, told as the targets still to
/// ask. The bootstrap peer is asked first; its answer lists the other peers,
/// each asked once in turn; their answers list no further targets.
pub struct Join {
    kind: StreamType,
    bootstrap: Endpoint,
    local_signaling: Endpoint,
    targets: Vec<Endpoint>,
    next: usize,
    bootstrapped: bool,
}

impl Join {
    /// The signaling endpoints still to ask, the next one first.
    pub closed spec fn pending(&self) -> Seq<Endpoint> {
        if !self.bootstrapped {
            seq![self.bootstrap]
        } else {
            self.targets@.skip(self.next as int)
        }
    }

    /// Whether the bootstrap peer is still to answer.
    pub closed spec fn at_bootstrap(&self) -> bool {
        !self.bootstrapped
    }

    /// The stream being joined.
    pub closed spec fn spec_kind(&self) -> StreamType {
        self.kind
    }

    /// This node's signaling endpoint.
    pub closed spec fn spec_local_signaling(&self) -> Endpoint {
        self.local_signaling
    }

    #[verifier::type_invariant]
    spec fn wf(&self) -> bool {
        self.next <= self.targets@.len()
    }

    /// A join of stream `kind` through the peer listening at `bootstrap`, by a
    /// node listening at `local_signaling`.
    pub fn new(kind: StreamType, bootstrap: Endpoint, local_signaling: Endpoint) -> (r: Join)
        ensures
            r.pending() == seq![bootstrap],
            r.at_bootstrap(),
            r.spec_kind() == kind,
            r.spec_local_signaling() == local_signaling,
    {
        Join { kind, bootstrap, local_signaling, targets: Vec::new(), next: 0, bootstrapped: false }
    }

    /// The peer to ask next; `None` once the join is over.
    pub fn next_target(&self) -> (r: Option<Endpoint>)
        ensures
            self.pending().len() == 0 ==> r is None,
            self.pending().len() > 0 ==> r == Some(self.pending()[0]),
    {
        proof {
            use_type_invariant(self);
        }
        if !self.bootstrapped {
            Some(self.bootstrap)
        } else if self.next < self.targets.len() {
            Some(self.targets[self.next])
        } else {
            None
        }
    }

    /// The peer being asked could not be reached: it is passed over. When it
    /// is the bootstrap peer, the join is over.
    pub fn on_failure(&mut self)
        requires
            old(self).pending().len() > 0,
        ensures
            final(self).spec_kind() == old(self).spec_kind(),
            final(self).spec_local_signaling() == old(self).spec_local_signaling(),
            !final(self).at_bootstrap(),
            old(self).at_bootstrap() ==> final(self).pending().len() == 0,
            !old(self).at_bootstrap() ==> final(self).pending() == old(self).pending().drop_first(),
    {
        proof {
            use_type_invariant(&*self);
        }
        if !self.bootstrapped {
            self.bootstrapped = true;
            self.next = 0;
            self.targets = Vec::new();
            assert(self.targets@.skip(0).len() == 0);
        } else {
            if self.next < self.targets.len() {
                self.next = self.next + 1;
            }
            assert(self.targets@.skip(self.next as int) =~= old(self).targets@.skip(
                old(self).next as int,
            ).drop_first());
        }
    }

    /// The peer being asked answered `response`: it is taken in (see
    /// `Mesh::add_peers`). The bootstrap peer's answer gives the targets that
    /// follow; an answer that fails ends a join at the bootstrap peer and
    /// passes over any other peer.
    pub fn on_response(&mut self, mesh: &mut Mesh, response: &[u8]) -> (r: Result<(), ErrorKind>)
        requires
            old(self).pending().len() > 0,
            old(mesh).wf(),
        ensures
            final(mesh).wf(),
            final(self).spec_kind() == old(self).spec_kind(),
            final(self).spec_local_signaling() == old(self).spec_local_signaling(),
            !final(self).at_bootstrap(),
            (forall|k: StreamType, m: Endpoint, x: Seq<u8>, y: Seq<u8>, ps: Seq<Endpoint>|
                !#[trigger] is_response(response@, k, m, x, y, ps)) ==> r == Err::<(), ErrorKind>(
                ErrorKind::InvalidData,
            ) && *final(mesh) == *old(mesh),
            forall|k: StreamType, m: Endpoint, x: Seq<u8>, y: Seq<u8>, ps: Seq<Endpoint>|
                #[trigger] is_response(response@, k, m, x, y, ps) ==> exists|
                    v: Result<Vec<Endpoint>, ErrorKind>,
                |
                    {
                        &&& #[trigger] absorbed(
                            *old(mesh),
                            *final(mesh),
                            v,
                            old(self).spec_kind(),
                            old(self).pending()[0],
                            old(self).spec_local_signaling(),
                            k,
                            m,
                            ps,
                        )
                        &&& (v is Ok) == (r is Ok)
                        &&& old(self).at_bootstrap() && v is Ok ==> final(self).pending().to_set()
                            == v.unwrap()@.to_set()
                    },
            old(self).at_bootstrap() && r is Err ==> final(self).pending().len() == 0,
            !old(self).at_bootstrap() ==> final(self).pending() == old(self).pending().drop_first(),
    {
        proof {
            use_type_invariant(&*self);
        }
        let ghost old_pending = self.pending();
        let target = match self.next_target() {
            Some(t) => t,
            None => {
                return Err(ErrorKind::InvalidData);
            },
        };
        let res = mesh.add_peers(self.kind, &target, response, &self.local_signaling);
        let ghost res_g = res;
        let r = match &res {
            Ok(_) => Ok(()),
            Err(e) => Err(*e),
        };
        if !self.bootstrapped {
            self.bootstrapped = true;
            self.next = 0;
            match res {
                Ok(list) => {
                    self.targets = list;
                    assert(self.targets@.skip(0) =~= self.targets@);
                },
                Err(_) => {
                    self.targets = Vec::new();
                    assert(self.targets@.skip(0).len() == 0);
                },
            }
        } else {
            if self.next < self.targets.len() {
                self.next = self.next + 1;
            }
            assert(self.targets@.skip(self.next as int) =~= old(self).targets@.skip(
                old(self).next as int,
            ).drop_first());
        }
        proof {
            assert forall|k: StreamType, m: Endpoint, x: Seq<u8>, y: Seq<u8>, ps: Seq<Endpoint>|
                #[trigger] is_response(response@, k, m, x, y, ps) implies exists|
                    v: Result<Vec<Endpoint>, ErrorKind>,
                |
                    {
                        &&& #[trigger] absorbed(
                            *old(mesh),
                            *final(mesh),
                            v,
                            old(self).spec_kind(),
                            old(self).pending()[0],
                            old(self).spec_local_signaling(),
                            k,
                            m,
                            ps,
                        )
                        &&& (v is Ok) == (r is Ok)
                        &&& old(self).at_bootstrap() && v is Ok ==> self.pending().to_set()
                            == v.unwrap()@.to_set()
                    } by {
                assert(absorbed(
                    *old(mesh),
                    *mesh,
                    res_g,
                    old(self).spec_kind(),
                    old(self).pending()[0],
                    old(self).spec_local_signaling(),
                    k,
                    m,
                    ps,
                ));
            }
        }
        r
    }
}

} // verus!
