//! Receive side of the RTP pipeline: NAL units back out of single NAL unit
//! packets and FU-A fragments. Fragments gather per (SSRC, timestamp) until
//! the one with the end bit; a gap in sequence numbers, or an end or middle
//! fragment with no start, drops the partial unit and is counted.

use vstd::prelude::*;
use std::collections::HashMap;
use crate::rtp::{seq_plus, FU_A_TYPE};

verus! {

broadcast use vstd::std_specs::hash::group_hash_axioms;

/// A NAL unit being gathered: sequence number of its latest fragment and
/// the bytes so far, header byte first.
pub struct Partial {
    pub last_seq: u16,
    pub data: Vec<u8>,
}

/// The value of a partial unit.
pub ghost struct PartialUnit {
    pub last_seq: u16,
    pub data: Seq<u8>,
}

/// Key of the unit of a source at a timestamp.
pub open spec fn unit_key(ssrc: u32, timestamp: u32) -> u64 {
    ((ssrc as u64) << 32u64) | (timestamp as u64)
}

proof fn lemma_unit_key(s1: u32, t1: u32, s2: u32, t2: u32)
    ensures
        unit_key(s1, t1) == unit_key(s2, t2) ==> s1 == s2 && t1 == t2,
{
    assert(((s1 as u64) << 32u64) | (t1 as u64) == ((s2 as u64) << 32u64) | (t2 as u64) ==> s1
        == s2 && t1 == t2) by (bit_vector);
}

/// The header byte of a NAL unit, rebuilt from an FU indicator and FU header.
pub open spec fn rebuilt_header(ind: u8, hdr: u8) -> u8 {
    (ind & 0x60u8) | (hdr & 0x1fu8)
}

/// A counter after one more event, saturating.
pub open spec fn bump(g: u64) -> u64 {
    if g < u64::MAX {
        (g + 1) as u64
    } else {
        g
    }
}

/// What a packet of source `ssrc`, timestamp `ts`, sequence number `seq`
/// and payload `p` does to the unit `u` being gathered under its key:
/// the NAL unit it completes, the unit kept afterwards, and whether a gap
/// is counted.
pub open spec fn fu_step(u: Option<PartialUnit>, seq: u16, p: Seq<u8>) -> (Option<Seq<u8>>, Option<PartialUnit>, bool)
    recommends
        p.len() >= 2,
{
    let start = p[1] & 0x80u8 != 0;
    let end = p[1] & 0x40u8 != 0;
    let chunk = p.skip(2);
    if start {
        let first = seq![rebuilt_header(p[0], p[1])] + chunk;
        if end {
            (Some(first), None, false)
        } else {
            (None, Some(PartialUnit { last_seq: seq, data: first }), false)
        }
    } else {
        match u {
            None => (None, None, true),
            Some(pu) => if seq != seq_plus(pu.last_seq, 1) {
                (None, None, true)
            } else if end {
                (Some(pu.data + chunk), None, false)
            } else {
                (None, Some(PartialUnit { last_seq: seq, data: pu.data + chunk }), false)
            },
        }
    }
}

/// Reassembly state of a receiver.
pub struct Depacketizer {
    partials: HashMap<u64, Partial>,
    gaps: u64,
}

impl Depacketizer {
    /// The unit being gathered for a source at a timestamp.
    pub closed spec fn unit(&self, ssrc: u32, timestamp: u32) -> Option<PartialUnit> {
        let k = unit_key(ssrc, timestamp);
        if self.partials@.contains_key(k) {
            Some(PartialUnit { last_seq: self.partials@[k].last_seq, data: self.partials@[k].data@ })
        } else {
            None
        }
    }

    /// Number of partial units dropped for a gap, saturating.
    pub closed spec fn gap_count(&self) -> u64 {
        self.gaps
    }

    /// Nothing gathered, no gap counted.
    pub fn new() -> (r: Depacketizer)
        ensures
            forall|s: u32, t: u32| #[trigger] r.unit(s, t) is None,
            r.gap_count() == 0,
    {
        Depacketizer { partials: HashMap::new(), gaps: 0 }
    }

    /// Number of partial units dropped for a gap.
    pub fn gaps(&self) -> (r: u64)
        ensures
            r == self.gap_count(),
    {
        self.gaps
    }

    /// Takes in the payload of a packet of source `ssrc`, timestamp
    /// `timestamp` and sequence number `seq`; returns the NAL unit that it
    /// completes. An empty payload is ignored; a NAL unit that is not FU-A
    /// passes through; an FU-A payload shorter than its two FU bytes is
    /// ignored; FU-A fragments go as `fu_step` says. Units of other sources
    /// and timestamps stay as they are.
    pub fn push(&mut self, ssrc: u32, timestamp: u32, seq: u16, payload: &[u8]) -> (r: Option<
        Vec<u8>,
    >)
        ensures
            forall|s: u32, t: u32|
                (s, t) != (ssrc, timestamp) ==> #[trigger] final(self).unit(s, t) == old(self).unit(s, t),
            payload@.len() == 0 || (payload@[0] & 0x1fu8 == FU_A_TYPE && payload@.len() < 2) ==> {
                &&& r is None
                &&& final(self).unit(ssrc, timestamp) == old(self).unit(ssrc, timestamp)
                &&& final(self).gap_count() == old(self).gap_count()
            },
            payload@.len() > 0 && payload@[0] & 0x1fu8 != FU_A_TYPE ==> {
                &&& r is Some
                &&& r.unwrap()@ == payload@
                &&& final(self).unit(ssrc, timestamp) == old(self).unit(ssrc, timestamp)
                &&& final(self).gap_count() == old(self).gap_count()
            },
            payload@.len() >= 2 && payload@[0] & 0x1fu8 == FU_A_TYPE ==> {
                let st = fu_step(old(self).unit(ssrc, timestamp), seq, payload@);
                &&& r is Some == st.0 is Some
                &&& r is Some ==> r.unwrap()@ == st.0.unwrap()
                &&& final(self).unit(ssrc, timestamp) == st.1
                &&& final(self).gap_count() == if st.2 {
                    bump(old(self).gap_count())
                } else {
                    old(self).gap_count()
                }
            },
    {
        proof {
            assert forall|s: u32, t: u32| (s, t) != (ssrc, timestamp) implies unit_key(s, t)
                != unit_key(ssrc, timestamp) by {
                lemma_unit_key(s, t, ssrc, timestamp);
            }
        }
        if payload.len() == 0 {
            return None;
        }
        if payload[0] & 0x1fu8 != FU_A_TYPE {
            return Some(vstd::slice::slice_to_vec(payload));
        }
        if payload.len() < 2 {
            return None;
        }
        let key = ((ssrc as u64) << 32u64) | (timestamp as u64);
        let ind = payload[0];
        let hdr = payload[1];
        let start = hdr & 0x80u8 != 0;
        let end = hdr & 0x40u8 != 0;
        let chunk = &payload[2..payload.len()];
        assert(chunk@ =~= payload@.skip(2));
        if start {
            let mut data: Vec<u8> = Vec::new();
            data.push((ind & 0x60u8) | (hdr & 0x1fu8));
            crate::wire::append_bytes(&mut data, chunk);
            assert(data@ =~= seq![rebuilt_header(ind, hdr)] + chunk@);
            self.partials.remove(&key);
            if end {
                return Some(data);
            }
            self.partials.insert(key, Partial { last_seq: seq, data });
            return None;
        }
        match self.partials.remove(&key) {
            None => {
                if self.gaps < u64::MAX {
                    self.gaps = self.gaps + 1;
                }
                None
            },
            Some(p) => {
                if seq != p.last_seq.wrapping_add(1) {
                    if self.gaps < u64::MAX {
                        self.gaps = self.gaps + 1;
                    }
                    return None;
                }
                let mut data = p.data;
                crate::wire::append_bytes(&mut data, chunk);
                if end {
                    return Some(data);
                }
                self.partials.insert(key, Partial { last_seq: seq, data });
                None
            },
        }
    }
}

} // verus!
