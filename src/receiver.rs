//! What a receiver does with one datagram: read the RTP header, gather the
//! NAL unit, and hand each completed unit to the playout buffer.

use vstd::prelude::*;
use bytes::{Bytes, BytesMut};
use crate::buffers::{buf_bytes, buf_slice, bytes_from_vec, frozen_bytes};
use crate::depacketizer::{fu_step, Depacketizer};
use crate::playout::{admitted, playout_ordered, PlayoutAdmission, PlayoutBuffer, PlayoutBufferNode};
use crate::rtp::{decode_header, header_len, Header, FU_A_TYPE};

verus! {

/// The receive path of one stream.
pub struct MediaReceiver {
    pub depacketizer: Depacketizer,
    pub playout: PlayoutBuffer,
}

/// A packet long enough for the header that it announces.
pub open spec fn holds_header(b: Seq<u8>) -> bool {
    b.len() >= 2 && b.len() >= header_len(b)
}

/// The NAL unit `nal`, of RTP timestamp `ts`, arrived at `arrival`, went
/// to the playout buffer at time `now` as `admitted` says.
pub open spec fn staged(
    before: PlayoutBuffer,
    after: PlayoutBuffer,
    r: PlayoutAdmission,
    arrival: u128,
    ts: u32,
    nal: Seq<u8>,
    now: u128,
) -> bool {
    exists|b: Bytes|
        frozen_bytes(b) == nal && #[trigger] admitted(
            before,
            after,
            r,
            PlayoutBufferNode {
                arrival_time: arrival,
                rtp_timestamp: ts,
                playout_time: (arrival + before.delay()) as u128,
                coded_data: b,
            },
            now,
        )
}

impl MediaReceiver {
    /// A receive path with nothing gathered and an empty playout buffer.
    pub fn new(jitter_delay: u128, deliver_late: bool) -> (r: MediaReceiver)
        ensures
            r.playout.queue().len() == 0,
            playout_ordered(r.playout.queue()),
            r.playout.delay() == jitter_delay,
            r.playout.late_delivery() == deliver_late,
            forall|s: u32, t: u32| #[trigger] r.depacketizer.unit(s, t) is None,
    {
        MediaReceiver {
            depacketizer: Depacketizer::new(),
            playout: PlayoutBuffer::new(jitter_delay, deliver_late),
        }
    }

    /// Takes in a datagram that arrived at `arrival_time`, at time `now`.
    /// One too short for its RTP header is ignored. Else its payload goes to
    /// the depacketizer under the header's source, timestamp and sequence
    /// number, and a NAL unit that this completes goes to the playout buffer
    /// with the header's timestamp; what became of it is returned.
    pub fn on_datagram(&mut self, packet: BytesMut, arrival_time: u128, now: u128) -> (r: Option<
        PlayoutAdmission,
    >)
        requires
            arrival_time + old(self).playout.delay() <= u128::MAX,
            playout_ordered(old(self).playout.queue()),
        ensures
            playout_ordered(final(self).playout.queue()),
            final(self).playout.delay() == old(self).playout.delay(),
            !holds_header(buf_bytes(packet)) ==> r is None && *final(self) == *old(self),
            holds_header(buf_bytes(packet)) ==> {
                let b = buf_bytes(packet);
                let h = decode_header(b);
                let p = b.skip(header_len(b) as int);
                &&& forall|s: u32, t: u32|
                    (s, t) != (h.ssrc, h.timestamp) ==> #[trigger] final(self).depacketizer.unit(s, t)
                        == old(self).depacketizer.unit(s, t)
                &&& p.len() >= 2 && p[0] & 0x1fu8 == FU_A_TYPE ==> final(self).depacketizer.unit(
                    h.ssrc,
                    h.timestamp,
                ) == fu_step(old(self).depacketizer.unit(h.ssrc, h.timestamp), h.sequence_number, p).1
                &&& (p.len() == 0 || (p[0] & 0x1fu8 == FU_A_TYPE && (p.len() < 2 || fu_step(
                    old(self).depacketizer.unit(h.ssrc, h.timestamp),
                    h.sequence_number,
                    p,
                ).0 is None))) ==> r is None && final(self).playout == old(self).playout
                &&& p.len() > 0 && p[0] & 0x1fu8 != FU_A_TYPE ==> r is Some && staged(
                    old(self).playout,
                    final(self).playout,
                    r.unwrap(),
                    arrival_time,
                    h.timestamp,
                    p,
                    now,
                )
                &&& p.len() >= 2 && p[0] & 0x1fu8 == FU_A_TYPE && fu_step(
                    old(self).depacketizer.unit(h.ssrc, h.timestamp),
                    h.sequence_number,
                    p,
                ).0 is Some ==> r is Some && staged(
                    old(self).playout,
                    final(self).playout,
                    r.unwrap(),
                    arrival_time,
                    h.timestamp,
                    fu_step(old(self).depacketizer.unit(h.ssrc, h.timestamp), h.sequence_number, p).0.unwrap(),
                    now,
                )
            },
    {
        let mut packet = packet;
        let s = buf_slice(&packet);
        if s.len() < 2 || s.len() < 12 + 4 * ((s[0] & 0xfu8) as usize) {
            return None;
        }
        let h: Header = Header::deserialize(&mut packet);
        let payload = buf_slice(&packet);
        let unit = self.depacketizer.push(h.ssrc, h.timestamp, h.sequence_number, payload);
        match unit {
            None => None,
            Some(nal) => {
                let data = bytes_from_vec(nal);
                let ghost g = data;
                let a = self.playout.insert(arrival_time, h.timestamp, data, now);
                proof {
                    assert(admitted(
                        old(self).playout,
                        self.playout,
                        a,
                        PlayoutBufferNode {
                            arrival_time,
                            rtp_timestamp: h.timestamp,
                            playout_time: (arrival_time + old(self).playout.delay()) as u128,
                            coded_data: g,
                        },
                        now,
                    ));
                }
                Some(a)
            },
        }
    }
}

} // verus!
