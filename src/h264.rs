//! H.264 access units: NAL units out of AVCC framing, and RTP packets out of
//! NAL units (single NAL unit packets, or FU-A fragments).

use vstd::prelude::*;
use bytes::Bytes;
use crate::buffers::{buf_bytes, freeze, frozen_bytes, from_be32};
use crate::rtp::{
    flag, fu_header, fu_indicator, header_bytes, put_fu_a, seq_plus, session_header, ts_plus,
    HeaderModel, RtpSession,
};

verus! {

/// Bytes of the big-endian length that precedes each NAL unit.
pub const AVCC_HEADER_LENGTH: usize = 4;

/// Most NAL bytes carried by one FU-A fragment.
pub const MAX_FRAGMENT_PAYLOAD: usize = 1200;

/// The AVCC length field that starts at `off`.
pub open spec fn avcc_len(data: Seq<u8>, off: int) -> nat {
    from_be32(data[off], data[off + 1], data[off + 2], data[off + 3]) as nat
}

/// The NAL units of `data` from offset `off` on: each is preceded by its
/// 4-byte length; a zero length, or one that runs past the end, stops the
/// extraction.
pub open spec fn nal_units_from(data: Seq<u8>, off: int) -> Seq<Seq<u8>>
    decreases data.len() - off,
{
    if 0 <= off && off + 4 <= data.len() {
        let l = avcc_len(data, off);
        if l == 0 || off + 4 + l > data.len() {
            Seq::empty()
        } else {
            seq![data.subrange(off + 4, off + 4 + l)] + nal_units_from(data, off + 4 + l)
        }
    } else {
        Seq::empty()
    }
}

/// The NAL units of an AVCC access unit.
pub open spec fn nal_units(data: Seq<u8>) -> Seq<Seq<u8>> {
    nal_units_from(data, 0)
}

/// Every NAL unit that extraction yields is non-empty.
pub proof fn lemma_nal_units_non_empty(data: Seq<u8>, off: int)
    ensures
        forall|i: int|
            0 <= i < nal_units_from(data, off).len() ==> #[trigger] nal_units_from(
                data,
                off,
            )[i].len() > 0,
    decreases data.len() - off,
{
    if 0 <= off && off + 4 <= data.len() {
        let l = avcc_len(data, off);
        if !(l == 0 || off + 4 + l > data.len()) {
            lemma_nal_units_non_empty(data, off + 4 + l);
            let rest = nal_units_from(data, off + 4 + l);
            let all = nal_units_from(data, off);
            assert forall|i: int| 0 <= i < all.len() implies #[trigger] all[i].len() > 0 by {
                if i > 0 {
                    assert(all[i] == rest[i - 1]);
                }
            }
        }
    }
}

/// Reads the AVCC length field at `off`.
fn read_avcc_len(data: &[u8], off: usize) -> (r: u32)
    requires
        off + 4 <= data@.len(),
    ensures
        r as nat == avcc_len(data@, off as int),
{
    let a = data[off] as u32;
    let b = data[off + 1] as u32;
    let c = data[off + 2] as u32;
    let d = data[off + 3] as u32;
    (a << 24u32) | (b << 16u32) | (c << 8u32) | d
}

/// Splits an AVCC access unit into its NAL units, stopping at the first
/// malformed length.
pub fn get_nal_units(data: &[u8]) -> (r: Vec<&[u8]>)
    ensures
        r@.len() == nal_units(data@).len(),
        forall|i: int| 0 <= i < r@.len() ==> #[trigger] r@[i]@ == nal_units(data@)[i],
{
    let mut nal_units_out: Vec<&[u8]> = Vec::new();
    let mut offset: usize = 0;
    while offset <= data.len() && data.len() - offset >= AVCC_HEADER_LENGTH
        invariant
            offset <= data@.len(),
            nal_units(data@) == nal_units_out@.map_values(|s: &[u8]| s@) + nal_units_from(
                data@,
                offset as int,
            ),
        ensures
            nal_units_from(data@, offset as int) =~= Seq::<Seq<u8>>::empty(),
        decreases data@.len() - offset,
    {
        let l = read_avcc_len(data, offset);
        if l == 0 || (l as usize) > data.len() - offset - AVCC_HEADER_LENGTH {
            break;
        }
        let end = offset + AVCC_HEADER_LENGTH + l as usize;
        let unit = &data[offset + AVCC_HEADER_LENGTH..end];
        let ghost before = nal_units_out@.map_values(|s: &[u8]| s@);
        nal_units_out.push(unit);
        assert(nal_units_out@.map_values(|s: &[u8]| s@) =~= before.push(unit@));
        assert(nal_units_from(data@, offset as int) == seq![unit@] + nal_units_from(
            data@,
            end as int,
        ));
        assert(before.push(unit@) + nal_units_from(data@, end as int) =~= before + (seq![unit@]
            + nal_units_from(data@, end as int)));
        offset = end;
    }
    assert(nal_units_out@.map_values(|s: &[u8]| s@) + Seq::<Seq<u8>>::empty()
        =~= nal_units_out@.map_values(|s: &[u8]| s@));
    proof {
        assert forall|i: int| 0 <= i < nal_units_out@.len() implies #[trigger] nal_units_out@[i]@
            == nal_units(data@)[i] by {
            assert(nal_units_out@.map_values(|s: &[u8]| s@)[i] == nal_units_out@[i]@);
        }
    }
    nal_units_out
}

/// An outbound RTP packet: its header and what follows the header.
pub ghost struct Packet {
    pub header: HeaderModel,
    pub payload: Seq<u8>,
}

/// The bytes of a packet on the wire.
pub open spec fn wire(p: Packet) -> Seq<u8> {
    header_bytes(p.header) + p.payload
}

/// Number of packets that carry a NAL unit of `len` bytes.
pub open spec fn fragment_count(len: nat) -> nat {
    if len <= MAX_FRAGMENT_PAYLOAD + 1 {
        1
    } else {
        ((len - 1 + MAX_FRAGMENT_PAYLOAD - 1) / (MAX_FRAGMENT_PAYLOAD as int)) as nat
    }
}

/// The `k`-th run of NAL bytes after the NAL header byte.
pub open spec fn chunk(nal: Seq<u8>, k: int) -> Seq<u8> {
    let start = 1 + MAX_FRAGMENT_PAYLOAD * k;
    let end = if start + MAX_FRAGMENT_PAYLOAD < nal.len() {
        start + MAX_FRAGMENT_PAYLOAD
    } else {
        nal.len() as int
    };
    nal.subrange(start, end)
}

/// What follows the RTP header in the `k`-th packet of a NAL unit: the NAL
/// itself when it fits, else an FU-A fragment.
pub open spec fn fragment_payload(nal: Seq<u8>, k: int) -> Seq<u8> {
    if nal.len() <= MAX_FRAGMENT_PAYLOAD + 1 {
        nal
    } else {
        seq![
            fu_indicator(nal[0]),
            fu_header(nal[0], k == 0, k == fragment_count(nal.len()) - 1),
        ] + chunk(nal, k)
    }
}

/// The packets of one NAL unit, numbered from `seq0`; when `last` holds the
/// final one carries the marker.
pub open spec fn fragments(nal: Seq<u8>, ssrc: u32, ts: u32, seq0: u16, last: bool) -> Seq<Packet> {
    Seq::new(
        fragment_count(nal.len()),
        |k: int|
            Packet {
                header: session_header(
                    ssrc,
                    ts,
                    seq_plus(seq0, k),
                    last && k == fragment_count(nal.len()) - 1,
                ),
                payload: fragment_payload(nal, k),
            },
    )
}

/// The packets of an access unit made of `nals`, in order.
pub open spec fn frame_packets(nals: Seq<Seq<u8>>, ssrc: u32, ts: u32, seq0: u16) -> Seq<Packet>
    decreases nals.len(),
{
    if nals.len() == 0 {
        Seq::empty()
    } else {
        fragments(nals[0], ssrc, ts, seq0, nals.len() == 1) + frame_packets(
            nals.skip(1),
            ssrc,
            ts,
            seq_plus(seq0, fragment_count(nals[0].len()) as int),
        )
    }
}

/// The wire bytes of a sequence of packets.
pub open spec fn wires(ps: Seq<Packet>) -> Seq<Seq<u8>> {
    ps.map_values(|p: Packet| wire(p))
}

/// The bytes that a sequence of frozen buffers holds.
pub open spec fn frozen_all(bs: Seq<Bytes>) -> Seq<Seq<u8>> {
    bs.map_values(|b: Bytes| frozen_bytes(b))
}

proof fn lemma_seq_plus_add(s: u16, a: int, b: int)
    requires
        a >= 0,
        b >= 0,
    ensures
        seq_plus(seq_plus(s, a), b) == seq_plus(s, a + b),
{
    let x = s as int + a;
    vstd::arithmetic::div_mod::lemma_add_mod_noop_right(b, x, 65536);
    assert(seq_plus(s, a) as int == x % 65536);
}

proof fn lemma_fragment_bounds(len: nat, k: int)
    requires
        len > MAX_FRAGMENT_PAYLOAD + 1,
        k >= 0,
    ensures
        fragment_count(len) >= 2,
        (1 + MAX_FRAGMENT_PAYLOAD * k < len) == (k < fragment_count(len)),
        (1 + MAX_FRAGMENT_PAYLOAD * k + MAX_FRAGMENT_PAYLOAD >= len) == (k + 1 >= fragment_count(
            len,
        )),
{
    let m = len - 1;
    let c = fragment_count(len) as int;
    assert(c == (m + 1199) / 1200);
    assert(1200 * c <= m + 1199 && m + 1199 < 1200 * c + 1200) by (nonlinear_arith)
        requires
            c == (m + 1199) / 1200,
            m > 1200,
    ;
}

/// Builds the RTP packets of one NAL unit and moves the sequence number on
/// by their number. With `is_last_unit` the final packet carries the marker.
pub fn get_fragments(payload: &[u8], rtp_session: &mut RtpSession, is_last_unit: bool) -> (r: Vec<
    Bytes,
>)
    requires
        payload@.len() >= 1,
        payload@.len() + 14 <= isize::MAX,
    ensures
        frozen_all(r@) == wires(
            fragments(
                payload@,
                old(rtp_session).ssrc,
                old(rtp_session).timestamp,
                old(rtp_session).current_sequence_num,
                is_last_unit,
            ),
        ),
        r@.len() == fragment_count(payload@.len()),
        final(rtp_session).current_sequence_num == seq_plus(
            old(rtp_session).current_sequence_num,
            r@.len() as int,
        ),
        final(rtp_session).timestamp == old(rtp_session).timestamp,
        final(rtp_session).increment == old(rtp_session).increment,
        final(rtp_session).ssrc == old(rtp_session).ssrc,
{
    let ghost s0 = *rtp_session;
    let ghost frags = fragments(
        payload@,
        s0.ssrc,
        s0.timestamp,
        s0.current_sequence_num,
        is_last_unit,
    );
    let len = payload.len();
    let mut packets: Vec<Bytes> = Vec::new();
    if len <= MAX_FRAGMENT_PAYLOAD + 1 {
        let header = rtp_session.get_packet(is_last_unit);
        let mut out = header.serialize();
        crate::buffers::put_slice(&mut out, payload);
        packets.push(freeze(out));
        assert(seq_plus(s0.current_sequence_num, 0) == s0.current_sequence_num);
        assert(frozen_all(packets@) =~= wires(frags));
        return packets;
    }
    let mut start: usize = 1;
    let mut k: usize = 0;
    while start < len
        invariant
            len == payload@.len(),
            len > MAX_FRAGMENT_PAYLOAD + 1,
            len + 14 <= isize::MAX,
            start <= len,
            start < len ==> start == 1 + MAX_FRAGMENT_PAYLOAD * k,
            k <= fragment_count(len as nat),
            (start < len) == (k < fragment_count(len as nat)),
            packets@.len() == k,
            forall|j: int| 0 <= j < k ==> #[trigger] frozen_bytes(packets@[j]) == wire(frags[j]),
            frags == fragments(
                payload@,
                s0.ssrc,
                s0.timestamp,
                s0.current_sequence_num,
                is_last_unit,
            ),
            rtp_session.current_sequence_num == seq_plus(s0.current_sequence_num, k as int),
            rtp_session.timestamp == s0.timestamp,
            rtp_session.increment == s0.increment,
            rtp_session.ssrc == s0.ssrc,
        decreases len - start,
    {
        proof {
            lemma_fragment_bounds(len as nat, k as int);
            lemma_fragment_bounds(len as nat, k as int + 1);
        }
        let remaining = len - start;
        let size = if remaining < MAX_FRAGMENT_PAYLOAD {
            remaining
        } else {
            MAX_FRAGMENT_PAYLOAD
        };
        let end = start + size;
        let is_end = end == len;
        let header = rtp_session.get_packet(is_last_unit && is_end);
        let mut out = header.serialize();
        put_fu_a(&mut out, payload[0], &payload[start..end], k == 0, is_end);
        proof {
            let p = frags[k as int];
            assert(p.payload =~= seq![
                fu_indicator(payload@[0]),
                fu_header(payload@[0], k == 0, is_end),
            ] + payload@.subrange(start as int, end as int));
            assert(buf_bytes(out) =~= wire(p));
            lemma_seq_plus_add(s0.current_sequence_num, k as int, 1);
        }
        packets.push(freeze(out));
        start = end;
        k = k + 1;
    }
    assert(frozen_all(packets@) =~= wires(frags));
    packets
}

/// Builds every packet of an AVCC access unit, NAL unit by NAL unit, then
/// moves the timestamp on to the next access unit.
pub fn packetize_frame(data: &[u8], rtp_session: &mut RtpSession) -> (r: Vec<Bytes>)
    requires
        data@.len() + 14 <= isize::MAX,
    ensures
        frozen_all(r@) == wires(
            frame_packets(
                nal_units(data@),
                old(rtp_session).ssrc,
                old(rtp_session).timestamp,
                old(rtp_session).current_sequence_num,
            ),
        ),
        final(rtp_session).current_sequence_num == seq_plus(
            old(rtp_session).current_sequence_num,
            r@.len() as int,
        ),
        final(rtp_session).timestamp == ts_plus(
            old(rtp_session).timestamp,
            old(rtp_session).increment as int,
        ),
        final(rtp_session).increment == old(rtp_session).increment,
        final(rtp_session).ssrc == old(rtp_session).ssrc,
{
    let ghost s0 = *rtp_session;
    let units = get_nal_units(data);
    let ghost nals = nal_units(data@);
    proof {
        lemma_nal_units_non_empty(data@, 0);
        lemma_nal_units_within(data@, 0);
    }
    let mut packets: Vec<Bytes> = Vec::new();
    let mut i: usize = 0;
    let n = units.len();
    assert(nals.skip(0) =~= nals);
    assert(frozen_all(packets@) =~= Seq::<Seq<u8>>::empty());
    assert(Seq::<Seq<u8>>::empty() + wires(
        frame_packets(nals, s0.ssrc, s0.timestamp, s0.current_sequence_num),
    ) =~= wires(frame_packets(nals, s0.ssrc, s0.timestamp, s0.current_sequence_num)));
    assert(seq_plus(s0.current_sequence_num, 0) == s0.current_sequence_num);
    while i < n
        invariant
            n == units@.len() == nals.len(),
            i <= n,
            forall|j: int| 0 <= j < n ==> #[trigger] units@[j]@ == nals[j],
            forall|j: int| 0 <= j < n ==> #[trigger] nals[j].len() > 0,
            forall|j: int| 0 <= j < n ==> #[trigger] nals[j].len() <= data@.len(),
            data@.len() + 14 <= isize::MAX,
            wires(frame_packets(nals, s0.ssrc, s0.timestamp, s0.current_sequence_num))
                == frozen_all(packets@) + wires(
                frame_packets(
                    nals.skip(i as int),
                    s0.ssrc,
                    s0.timestamp,
                    rtp_session.current_sequence_num,
                ),
            ),
            rtp_session.current_sequence_num == seq_plus(
                s0.current_sequence_num,
                packets@.len() as int,
            ),
            rtp_session.timestamp == s0.timestamp,
            rtp_session.increment == s0.increment,
            rtp_session.ssrc == s0.ssrc,
        decreases n - i,
    {
        let ghost seq_i = rtp_session.current_sequence_num;
        let ghost before = frozen_all(packets@);
        let unit = units[i];
        let frags = get_fragments(unit, rtp_session, i + 1 == n);
        proof {
            let rest = nals.skip(i as int);
            assert(rest[0] == nals[i as int]);
            assert(rest.skip(1) =~= nals.skip(i as int + 1));
            assert(wires(frame_packets(rest, s0.ssrc, s0.timestamp, seq_i)) =~= frozen_all(frags@)
                + wires(
                frame_packets(
                    nals.skip(i as int + 1),
                    s0.ssrc,
                    s0.timestamp,
                    rtp_session.current_sequence_num,
                ),
            ));
            lemma_seq_plus_add(s0.current_sequence_num, packets@.len() as int, frags@.len() as int);
        }
        let ghost added = frags@;
        let mut frags = frags;
        packets.append(&mut frags);
        proof {
            assert(frozen_all(packets@) =~= before + frozen_all(added));
        }
        i = i + 1;
    }
    assert(nals.skip(n as int) =~= Seq::<Seq<u8>>::empty());
    assert(frozen_all(packets@) + wires(Seq::<Packet>::empty()) =~= frozen_all(packets@));
    rtp_session.next_frame();
    packets
}

/// Every NAL unit lies inside the access unit.
proof fn lemma_nal_units_within(data: Seq<u8>, off: int)
    ensures
        forall|i: int|
            0 <= i < nal_units_from(data, off).len() ==> #[trigger] nal_units_from(
                data,
                off,
            )[i].len() <= data.len(),
    decreases data.len() - off,
{
    if 0 <= off && off + 4 <= data.len() {
        let l = avcc_len(data, off);
        if !(l == 0 || off + 4 + l > data.len()) {
            lemma_nal_units_within(data, off + 4 + l);
            let rest = nal_units_from(data, off + 4 + l);
            let all = nal_units_from(data, off);
            assert forall|i: int| 0 <= i < all.len() implies #[trigger] all[i].len()
                <= data.len() by {
                if i > 0 {
                    assert(all[i] == rest[i - 1]);
                }
            }
        }
    }
}

/// Packets of an access unit are numbered one after another from the
/// session's sequence number, modulo 2^16, and all carry the access unit's
/// timestamp and source.
pub proof fn lemma_frame_numbering(nals: Seq<Seq<u8>>, ssrc: u32, ts: u32, seq0: u16)
    ensures
        forall|i: int|
            0 <= i < frame_packets(nals, ssrc, ts, seq0).len() ==> {
                let h = #[trigger] frame_packets(nals, ssrc, ts, seq0)[i].header;
                &&& h.sequence_number == seq_plus(seq0, i)
                &&& h.timestamp == ts
                &&& h.ssrc == ssrc
            },
    decreases nals.len(),
{
    if nals.len() > 0 {
        let c = fragment_count(nals[0].len()) as int;
        let seq1 = seq_plus(seq0, c);
        lemma_frame_numbering(nals.skip(1), ssrc, ts, seq1);
        let all = frame_packets(nals, ssrc, ts, seq0);
        let rest = frame_packets(nals.skip(1), ssrc, ts, seq1);
        assert forall|i: int| 0 <= i < all.len() implies {
            let h = #[trigger] all[i].header;
            &&& h.sequence_number == seq_plus(seq0, i)
            &&& h.timestamp == ts
            &&& h.ssrc == ssrc
        } by {
            if i >= c {
                assert(all[i] == rest[i - c]);
                lemma_seq_plus_add(seq0, c, i - c);
            }
        }
    }
}

/// In the packets of an access unit with at least one NAL unit, exactly one
/// carries the marker: the last one, which ends the last NAL unit.
pub proof fn lemma_frame_single_marker(nals: Seq<Seq<u8>>, ssrc: u32, ts: u32, seq0: u16)
    requires
        nals.len() > 0,
    ensures
        frame_packets(nals, ssrc, ts, seq0).len() > 0,
        forall|i: int|
            0 <= i < frame_packets(nals, ssrc, ts, seq0).len() ==> (#[trigger] frame_packets(
                nals,
                ssrc,
                ts,
                seq0,
            )[i].header.marker <==> i == frame_packets(nals, ssrc, ts, seq0).len() - 1),
    decreases nals.len(),
{
    let c = fragment_count(nals[0].len()) as int;
    let seq1 = seq_plus(seq0, c);
    let all = frame_packets(nals, ssrc, ts, seq0);
    let rest = frame_packets(nals.skip(1), ssrc, ts, seq1);
    assert(c >= 1);
    if nals.len() == 1 {
        assert(nals.skip(1).len() == 0);
        assert(rest.len() == 0);
        assert(all.len() == c);
        assert forall|i: int| 0 <= i < all.len() implies (#[trigger] all[i].header.marker <==> i
            == all.len() - 1) by {
            assert(all[i] == fragments(nals[0], ssrc, ts, seq0, true)[i]);
        }
    } else {
        lemma_frame_single_marker(nals.skip(1), ssrc, ts, seq1);
        assert forall|i: int| 0 <= i < all.len() implies (#[trigger] all[i].header.marker <==> i
            == all.len() - 1) by {
            if i < c {
                assert(all[i] == fragments(nals[0], ssrc, ts, seq0, false)[i]);
            } else {
                assert(all[i] == rest[i - c]);
            }
        }
    }
}

proof fn lemma_chunks_flatten(nal: Seq<u8>, j: int)
    requires
        nal.len() > MAX_FRAGMENT_PAYLOAD + 1,
        0 <= j <= fragment_count(nal.len()),
    ensures
        Seq::new(
            (fragment_count(nal.len()) - j) as nat,
            |k: int| chunk(nal, j + k),
        ).flatten() == nal.subrange(
            if j < fragment_count(nal.len()) {
                1 + MAX_FRAGMENT_PAYLOAD * j
            } else {
                nal.len() as int
            },
            nal.len() as int,
        ),
    decreases fragment_count(nal.len()) - j,
{
    let c = fragment_count(nal.len()) as int;
    lemma_fragment_bounds(nal.len(), j);
    let cs = Seq::new((c - j) as nat, |k: int| chunk(nal, j + k));
    if j < c {
        lemma_chunks_flatten(nal, j + 1);
        lemma_fragment_bounds(nal.len(), j + 1);
        let rest = Seq::new((c - j - 1) as nat, |k: int| chunk(nal, j + 1 + k));
        assert(cs.drop_first() =~= rest);
        assert(cs.first() == chunk(nal, j));
        let start = 1 + MAX_FRAGMENT_PAYLOAD * j;
        if j + 1 < c {
            assert(nal.subrange(start, nal.len() as int) =~= chunk(nal, j) + nal.subrange(
                start + MAX_FRAGMENT_PAYLOAD,
                nal.len() as int,
            ));
        } else {
            assert(nal.subrange(start, nal.len() as int) =~= chunk(nal, j) + nal.subrange(
                nal.len() as int,
                nal.len() as int,
            ));
        }
    } else {
        assert(cs =~= Seq::<Seq<u8>>::empty());
        assert(nal.subrange(nal.len() as int, nal.len() as int) =~= Seq::<u8>::empty());
    }
}

/// A NAL unit over the fragment limit goes out in ⌈(L-1)/1200⌉ FU-A
/// fragments; the header byte rebuilt from the first fragment's FU indicator
/// and FU header, followed by every fragment's payload after its two FU
/// bytes, gives the NAL unit back (its forbidden bit being zero, as H.264
/// requires).
pub proof fn lemma_fragments_reassemble(nal: Seq<u8>, ssrc: u32, ts: u32, seq0: u16, last: bool)
    requires
        nal.len() > MAX_FRAGMENT_PAYLOAD + 1,
        nal[0] & 0x80u8 == 0,
    ensures
        ({
            let ps = fragments(nal, ssrc, ts, seq0, last);
            let ind = ps[0].payload[0];
            let hdr = ps[0].payload[1];
            &&& ps.len() == (nal.len() - 1 + MAX_FRAGMENT_PAYLOAD - 1) / (
            MAX_FRAGMENT_PAYLOAD as int)
            &&& seq![(ind & 0x60u8) | (hdr & 0x1fu8)] + Seq::new(
                ps.len(),
                |k: int| ps[k].payload.skip(2),
            ).flatten() == nal
        }),
{
    let ps = fragments(nal, ssrc, ts, seq0, last);
    let c = fragment_count(nal.len()) as int;
    lemma_fragment_bounds(nal.len(), 0);
    lemma_chunks_flatten(nal, 0);
    let b = nal[0];
    let ind = fu_indicator(b);
    let hdr = fu_header(b, true, false);
    assert(ps[0].payload[0] == ind);
    assert(ps[0].payload[1] == hdr);
    let ef = flag(false, 64);
    assert((((b & 0x60u8) | 28u8) & 0x60u8) | (((b & 0x1fu8) | 128u8 | ef) & 0x1fu8) == b)
        by (bit_vector)
        requires
            b & 0x80u8 == 0,
            ef == 0,
    ;
    assert forall|k: int| 0 <= k < c implies #[trigger] ps[k].payload.skip(2) == chunk(nal, 0 + k)
        by {
        let p = fragment_payload(nal, k);
        assert(ps[k].payload == p);
        assert(p.skip(2) =~= chunk(nal, k));
    }
    assert(Seq::new(ps.len(), |k: int| ps[k].payload.skip(2)) =~= Seq::new(
        c as nat,
        |k: int| chunk(nal, 0 + k),
    ));
    assert(seq![b] + nal.subrange(1, nal.len() as int) =~= nal);
}

} // verus!
