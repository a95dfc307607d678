//! RTP fixed header: the session state that numbers packets, the byte layout,
//! and the FU-A fragment prefix.

use vstd::prelude::*;
use bytes::BytesMut;
use crate::buffers::{
    be16, be32, buf_bytes, from_be16, from_be32, get_u16, get_u32, get_u8, new_buf, put_slice,
    put_u16, put_u32, put_u8,
};

verus! {

/// RTP protocol version carried in every header.
pub const RTP_VERSION: u8 = 2;

/// Dynamic payload type used for H.264 video.
pub const H264_PAYLOAD_TYPE: u8 = 96;

/// FU-A fragmentation unit type, written in the low bits of the FU indicator.
pub const FU_A_TYPE: u8 = 28;

/// An RTP header. `csrc` lists the contributing sources (at most 15).
pub struct Header {
    pub version: u8,
    pub padding: bool,
    pub extension: bool,
    pub marker: bool,
    pub payload_type: u8,
    pub sequence_number: u16,
    pub timestamp: u32,
    pub ssrc: u32,
    pub csrc: Vec<u32>,
}

/// The value of a header, with its contributing sources as a sequence.
pub ghost struct HeaderModel {
    pub version: u8,
    pub padding: bool,
    pub extension: bool,
    pub marker: bool,
    pub payload_type: u8,
    pub sequence_number: u16,
    pub timestamp: u32,
    pub ssrc: u32,
    pub csrc: Seq<u32>,
}

impl View for Header {
    type V = HeaderModel;

    open spec fn view(&self) -> HeaderModel {
        HeaderModel {
            version: self.version,
            padding: self.padding,
            extension: self.extension,
            marker: self.marker,
            payload_type: self.payload_type,
            sequence_number: self.sequence_number,
            timestamp: self.timestamp,
            ssrc: self.ssrc,
            csrc: self.csrc@,
        }
    }
}

/// A header whose fields fit their bit widths on the wire.
pub open spec fn valid_header(h: HeaderModel) -> bool {
    &&& h.version < 4
    &&& h.payload_type < 128
    &&& h.csrc.len() < 16
}

/// `bit` when `b` holds, else zero.
pub open spec fn flag(b: bool, bit: u8) -> u8 {
    if b {
        bit
    } else {
        0
    }
}

/// First header byte: version, padding, extension, CSRC count.
pub open spec fn first_byte(h: HeaderModel) -> u8 {
    (h.version << 6u8) | flag(h.padding, 32) | flag(h.extension, 16) | (h.csrc.len() as u8)
}

/// Second header byte: marker and payload type.
pub open spec fn second_byte(h: HeaderModel) -> u8 {
    flag(h.marker, 128) | h.payload_type
}

/// The contributing sources, each as four big-endian bytes.
pub open spec fn csrc_bytes(c: Seq<u32>) -> Seq<u8>
    decreases c.len(),
{
    if c.len() == 0 {
        Seq::empty()
    } else {
        csrc_bytes(c.drop_last()) + be32(c.last())
    }
}

/// The wire form of a header.
pub open spec fn header_bytes(h: HeaderModel) -> Seq<u8> {
    seq![first_byte(h), second_byte(h)] + be16(h.sequence_number) + be32(h.timestamp) + be32(h.ssrc)
        + csrc_bytes(h.csrc)
}

/// Length of the header that starts a packet, read from its CSRC count.
pub open spec fn header_len(b: Seq<u8>) -> nat {
    12 + 4 * ((b[0] & 0xfu8) as nat)
}

/// The header read from the front of a packet.
pub open spec fn decode_header(b: Seq<u8>) -> HeaderModel {
    HeaderModel {
        version: (b[0] >> 6u8) & 3u8,
        padding: (b[0] >> 5u8) & 1u8 == 1u8,
        extension: (b[0] >> 4u8) & 1u8 == 1u8,
        marker: (b[1] >> 7u8) & 1u8 == 1u8,
        payload_type: b[1] & 0x7fu8,
        sequence_number: from_be16(b[2], b[3]),
        timestamp: from_be32(b[4], b[5], b[6], b[7]),
        ssrc: from_be32(b[8], b[9], b[10], b[11]),
        csrc: Seq::new(
            (b[0] & 0xfu8) as nat,
            |i: int| from_be32(b[12 + 4 * i], b[13 + 4 * i], b[14 + 4 * i], b[15 + 4 * i]),
        ),
    }
}

proof fn lemma_csrc_bytes_len(c: Seq<u32>)
    ensures
        csrc_bytes(c).len() == 4 * c.len(),
    decreases c.len(),
{
    if c.len() > 0 {
        lemma_csrc_bytes_len(c.drop_last());
    }
}

proof fn lemma_csrc_bytes_index(c: Seq<u32>, i: int)
    requires
        0 <= i < c.len(),
    ensures
        csrc_bytes(c).len() == 4 * c.len(),
        csrc_bytes(c).subrange(4 * i, 4 * i + 4) == be32(c[i]),
    decreases c.len(),
{
    lemma_csrc_bytes_len(c);
    let p = c.drop_last();
    lemma_csrc_bytes_len(p);
    if i < c.len() - 1 {
        lemma_csrc_bytes_index(p, i);
        assert(csrc_bytes(c).subrange(4 * i, 4 * i + 4) =~= csrc_bytes(p).subrange(4 * i, 4 * i + 4));
    } else {
        assert(csrc_bytes(c).subrange(4 * i, 4 * i + 4) =~= be32(c.last()));
    }
}

proof fn lemma_be16_round_trip(v: u16)
    ensures
        from_be16(be16(v)[0], be16(v)[1]) == v,
{
    let a = (v >> 8u16) as u8;
    let b = (v & 0xffu16) as u8;
    assert(((a as u16) << 8u16) | (b as u16) == v) by (bit_vector)
        requires
            a == (v >> 8u16) as u8,
            b == (v & 0xffu16) as u8,
    ;
}

proof fn lemma_be32_round_trip(v: u32)
    ensures
        from_be32(be32(v)[0], be32(v)[1], be32(v)[2], be32(v)[3]) == v,
{
    let a = (v >> 24u32) as u8;
    let b = ((v >> 16u32) & 0xffu32) as u8;
    let c = ((v >> 8u32) & 0xffu32) as u8;
    let d = (v & 0xffu32) as u8;
    assert(((a as u32) << 24u32) | ((b as u32) << 16u32) | ((c as u32) << 8u32) | (d as u32) == v)
        by (bit_vector)
        requires
            a == (v >> 24u32) as u8,
            b == ((v >> 16u32) & 0xffu32) as u8,
            c == ((v >> 8u32) & 0xffu32) as u8,
            d == (v & 0xffu32) as u8,
    ;
}

proof fn lemma_from_be16_round_trip(a: u8, b: u8)
    ensures
        be16(from_be16(a, b)) == seq![a, b],
{
    let v = from_be16(a, b);
    assert((v >> 8u16) as u8 == a && (v & 0xffu16) as u8 == b) by (bit_vector)
        requires
            v == ((a as u16) << 8u16) | (b as u16),
    ;
    assert(be16(v) =~= seq![a, b]);
}

proof fn lemma_from_be32_round_trip(a: u8, b: u8, c: u8, d: u8)
    ensures
        be32(from_be32(a, b, c, d)) == seq![a, b, c, d],
{
    let v = from_be32(a, b, c, d);
    assert((v >> 24u32) as u8 == a && ((v >> 16u32) & 0xffu32) as u8 == b && ((v >> 8u32)
        & 0xffu32) as u8 == c && (v & 0xffu32) as u8 == d) by (bit_vector)
        requires
            v == ((a as u32) << 24u32) | ((b as u32) << 16u32) | ((c as u32) << 8u32) | (d as u32),
    ;
    assert(be32(v) =~= seq![a, b, c, d]);
}

proof fn lemma_first_byte_fields(v: u8, p: bool, e: bool, n: u8)
    requires
        v < 4,
        n < 16,
    ensures
        ({
            let b = (v << 6u8) | flag(p, 32) | flag(e, 16) | n;
            &&& (b >> 6u8) & 3u8 == v
            &&& ((b >> 5u8) & 1u8 == 1u8) == p
            &&& ((b >> 4u8) & 1u8 == 1u8) == e
            &&& b & 0xfu8 == n
        }),
{
    let pf = flag(p, 32);
    let ef = flag(e, 16);
    let b = (v << 6u8) | pf | ef | n;
    assert((b >> 6u8) & 3u8 == v && ((b >> 5u8) & 1u8 == 1u8) == (pf == 32u8) && ((b >> 4u8) & 1u8
        == 1u8) == (ef == 16u8) && b & 0xfu8 == n) by (bit_vector)
        requires
            v < 4,
            n < 16,
            pf == 0 || pf == 32,
            ef == 0 || ef == 16,
            b == (v << 6u8) | pf | ef | n,
    ;
}

proof fn lemma_second_byte_fields(m: bool, pt: u8)
    requires
        pt < 128,
    ensures
        ({
            let b = flag(m, 128) | pt;
            &&& ((b >> 7u8) & 1u8 == 1u8) == m
            &&& b & 0x7fu8 == pt
        }),
{
    let mf = flag(m, 128);
    let b = mf | pt;
    assert(((b >> 7u8) & 1u8 == 1u8) == (mf == 128u8) && b & 0x7fu8 == pt) by (bit_vector)
        requires
            pt < 128,
            mf == 0 || mf == 128,
            b == mf | pt,
    ;
}

/// Reading back the bytes of a valid header gives the header: the header
/// length read from the first byte is the length written, and every field
/// comes back unchanged.
pub proof fn lemma_header_round_trip(h: HeaderModel)
    requires
        valid_header(h),
    ensures
        header_bytes(h).len() == header_len(header_bytes(h)),
        decode_header(header_bytes(h)) == h,
{
    let b = header_bytes(h);
    lemma_csrc_bytes_len(h.csrc);
    lemma_first_byte_fields(h.version, h.padding, h.extension, h.csrc.len() as u8);
    lemma_second_byte_fields(h.marker, h.payload_type);
    lemma_be16_round_trip(h.sequence_number);
    lemma_be32_round_trip(h.timestamp);
    lemma_be32_round_trip(h.ssrc);
    assert(b[0] == first_byte(h));
    assert(b[1] == second_byte(h));
    assert(b[2] == be16(h.sequence_number)[0] && b[3] == be16(h.sequence_number)[1]);
    assert(b[4] == be32(h.timestamp)[0] && b[5] == be32(h.timestamp)[1] && b[6] == be32(
        h.timestamp,
    )[2] && b[7] == be32(h.timestamp)[3]);
    assert(b[8] == be32(h.ssrc)[0] && b[9] == be32(h.ssrc)[1] && b[10] == be32(h.ssrc)[2] && b[11]
        == be32(h.ssrc)[3]);
    let d = decode_header(b);
    assert forall|i: int| 0 <= i < h.csrc.len() implies d.csrc[i] == h.csrc[i] by {
        lemma_csrc_bytes_index(h.csrc, i);
        lemma_be32_round_trip(h.csrc[i]);
        let cb = csrc_bytes(h.csrc);
        assert(cb.subrange(4 * i, 4 * i + 4)[0] == b[12 + 4 * i]);
        assert(cb.subrange(4 * i, 4 * i + 4)[1] == b[13 + 4 * i]);
        assert(cb.subrange(4 * i, 4 * i + 4)[2] == b[14 + 4 * i]);
        assert(cb.subrange(4 * i, 4 * i + 4)[3] == b[15 + 4 * i]);
    }
    assert(d.csrc =~= h.csrc);
}

/// Writing back the header read from the front of a packet gives that front
/// unchanged.
pub proof fn lemma_bytes_round_trip(b: Seq<u8>)
    requires
        b.len() >= 2,
        b.len() >= header_len(b),
    ensures
        valid_header(decode_header(b)),
        header_bytes(decode_header(b)) == b.take(header_len(b) as int),
{
    let h = decode_header(b);
    let n = b[0] & 0xfu8;
    let b0 = b[0];
    let b1 = b[1];
    assert(n < 16 && (b0 >> 6u8) & 3u8 < 4 && b1 & 0x7fu8 < 128) by (bit_vector)
        requires
            n == b0 & 0xfu8,
    ;
    assert(first_byte(h) == b0 && second_byte(h) == b1) by {
        let v = (b0 >> 6u8) & 3u8;
        let pf = flag((b0 >> 5u8) & 1u8 == 1u8, 32);
        let ef = flag((b0 >> 4u8) & 1u8 == 1u8, 16);
        let mf = flag((b1 >> 7u8) & 1u8 == 1u8, 128);
        assert(pf == (if (b0 >> 5u8) & 1u8 == 1u8 { 32u8 } else { 0u8 }));
        assert(ef == (if (b0 >> 4u8) & 1u8 == 1u8 { 16u8 } else { 0u8 }));
        assert(mf == (if (b1 >> 7u8) & 1u8 == 1u8 { 128u8 } else { 0u8 }));
        assert((v << 6u8) | pf | ef | n == b0) by (bit_vector)
            requires
                v == (b0 >> 6u8) & 3u8,
                n == b0 & 0xfu8,
                pf == (if (b0 >> 5u8) & 1u8 == 1u8 { 32u8 } else { 0u8 }),
                ef == (if (b0 >> 4u8) & 1u8 == 1u8 { 16u8 } else { 0u8 }),
        ;
        assert(mf | (b1 & 0x7fu8) == b1) by (bit_vector)
            requires
                mf == (if (b1 >> 7u8) & 1u8 == 1u8 { 128u8 } else { 0u8 }),
        ;
    }
    lemma_from_be16_round_trip(b[2], b[3]);
    lemma_from_be32_round_trip(b[4], b[5], b[6], b[7]);
    lemma_from_be32_round_trip(b[8], b[9], b[10], b[11]);
    lemma_csrc_bytes_len(h.csrc);
    let cb = csrc_bytes(h.csrc);
    assert forall|k: int| 0 <= k < cb.len() implies cb[k] == b[12 + k] by {
        let i = k / 4;
        let r = k % 4;
        lemma_csrc_bytes_index(h.csrc, i);
        lemma_from_be32_round_trip(b[12 + 4 * i], b[13 + 4 * i], b[14 + 4 * i], b[15 + 4 * i]);
        assert(cb[k] == cb.subrange(4 * i, 4 * i + 4)[r]);
    }
    assert(header_bytes(h) =~= b.take(header_len(b) as int));
}

impl Header {
    /// The header as bytes on the wire.
    pub fn serialize(&self) -> (r: BytesMut)
        requires
            valid_header(self@),
        ensures
            buf_bytes(r) == header_bytes(self@),
    {
        let mut buf = new_buf(64);
        let p: u8 = if self.padding {
            32
        } else {
            0
        };
        let e: u8 = if self.extension {
            16
        } else {
            0
        };
        let m: u8 = if self.marker {
            128
        } else {
            0
        };
        let b0: u8 = (self.version << 6u8) | p | e | (self.csrc.len() as u8);
        put_u8(&mut buf, b0);
        put_u8(&mut buf, m | self.payload_type);
        put_u16(&mut buf, self.sequence_number);
        put_u32(&mut buf, self.timestamp);
        put_u32(&mut buf, self.ssrc);
        let ghost fixed = buf_bytes(buf);
        assert(fixed =~= seq![first_byte(self@), second_byte(self@)] + be16(self.sequence_number)
            + be32(self.timestamp) + be32(self.ssrc));
        let mut i: usize = 0;
        while i < self.csrc.len()
            invariant
                i <= self.csrc.len() < 16,
                fixed.len() == 12,
                buf_bytes(buf) == fixed + csrc_bytes(self.csrc@.take(i as int)),
            decreases self.csrc.len() - i,
        {
            proof {
                lemma_csrc_bytes_len(self.csrc@.take(i as int));
            }
            put_u32(&mut buf, self.csrc[i]);
            proof {
                assert(self.csrc@.take(i as int + 1).drop_last() =~= self.csrc@.take(i as int));
            }
            i = i + 1;
        }
        assert(self.csrc@.take(i as int) =~= self.csrc@);
        buf
    }

    /// Takes the header off the front of `packet`, which keeps the payload.
    pub fn deserialize(packet: &mut BytesMut) -> (r: Header)
        requires
            buf_bytes(*old(packet)).len() >= 2,
            buf_bytes(*old(packet)).len() >= header_len(buf_bytes(*old(packet))),
        ensures
            r@ == decode_header(buf_bytes(*old(packet))),
            buf_bytes(*final(packet)) == buf_bytes(*old(packet)).skip(
                header_len(buf_bytes(*old(packet))) as int,
            ),
    {
        let ghost b = buf_bytes(*packet);
        let b0 = get_u8(packet);
        let version = (b0 >> 6u8) & 3u8;
        let padding = (b0 >> 5u8) & 1u8 == 1u8;
        let extension = (b0 >> 4u8) & 1u8 == 1u8;
        let cc = (b0 & 0xfu8) as usize;
        let b1 = get_u8(packet);
        let marker = (b1 >> 7u8) & 1u8 == 1u8;
        let payload_type = b1 & 0x7fu8;
        let sequence_number = get_u16(packet);
        let timestamp = get_u32(packet);
        let ssrc = get_u32(packet);
        assert(cc < 16) by (bit_vector)
            requires
                cc == (b0 & 0xfu8) as usize,
        ;
        let mut csrc: Vec<u32> = Vec::with_capacity(cc);
        let mut k: usize = 0;
        while k < cc
            invariant
                cc == (b[0] & 0xfu8) as nat,
                b.len() >= 12 + 4 * cc,
                k <= cc,
                buf_bytes(*packet) == b.skip(12 + 4 * k),
                csrc@.len() == k,
                forall|i: int|
                    0 <= i < k ==> csrc@[i] == from_be32(
                        b[12 + 4 * i],
                        b[13 + 4 * i],
                        b[14 + 4 * i],
                        b[15 + 4 * i],
                    ),
            decreases cc - k,
        {
            let v = get_u32(packet);
            csrc.push(v);
            k = k + 1;
            assert(b.skip(12 + 4 * (k - 1)).skip(4) =~= b.skip(12 + 4 * k));
        }
        let r = Header {
            version,
            padding,
            extension,
            marker,
            payload_type,
            sequence_number,
            timestamp,
            ssrc,
            csrc,
        };
        assert(r@.csrc =~= decode_header(b).csrc);
        r
    }
}

/// `s` advanced by `n`, modulo 2^16.
pub open spec fn seq_plus(s: u16, n: int) -> u16 {
    ((s as int + n) % 65536) as u16
}

/// `t` advanced by `n`, modulo 2^32.
pub open spec fn ts_plus(t: u32, n: int) -> u32 {
    ((t as int + n) % 0x1_0000_0000) as u32
}

/// The header of an outbound video packet.
pub open spec fn session_header(ssrc: u32, timestamp: u32, seq: u16, marker: bool) -> HeaderModel {
    HeaderModel {
        version: RTP_VERSION,
        padding: false,
        extension: false,
        marker,
        payload_type: H264_PAYLOAD_TYPE,
        sequence_number: seq,
        timestamp,
        ssrc,
        csrc: Seq::empty(),
    }
}

/// Numbering state of one outbound stream: the next sequence number, the
/// timestamp of the current access unit and its per-frame increment.
pub struct RtpSession {
    pub current_sequence_num: u16,
    pub timestamp: u32,
    pub increment: u32,
    pub ssrc: u32,
}

impl RtpSession {
    /// A session for video at 90 kHz and 30 frames per second.
    pub fn new(ssrc: u32, first_sequence_num: u16) -> (r: RtpSession)
        ensures
            r.current_sequence_num == first_sequence_num,
            r.timestamp == 0,
            r.increment == 3000,
            r.ssrc == ssrc,
    {
        RtpSession { current_sequence_num: first_sequence_num, timestamp: 0, increment: 3000, ssrc }
    }

    /// The header of the next packet; the sequence number moves on by one.
    pub fn get_packet(&mut self, marker: bool) -> (r: Header)
        ensures
            r@ == session_header(
                old(self).ssrc,
                old(self).timestamp,
                old(self).current_sequence_num,
                marker,
            ),
            valid_header(r@),
            final(self).current_sequence_num == seq_plus(old(self).current_sequence_num, 1),
            final(self).timestamp == old(self).timestamp,
            final(self).increment == old(self).increment,
            final(self).ssrc == old(self).ssrc,
    {
        let r = Header {
            version: RTP_VERSION,
            padding: false,
            extension: false,
            marker,
            payload_type: H264_PAYLOAD_TYPE,
            sequence_number: self.current_sequence_num,
            timestamp: self.timestamp,
            ssrc: self.ssrc,
            csrc: Vec::new(),
        };
        self.current_sequence_num = self.current_sequence_num.wrapping_add(1);
        assert(r@.csrc =~= Seq::<u32>::empty());
        r
    }

    /// Moves the timestamp on to the next access unit.
    pub fn next_frame(&mut self)
        ensures
            final(self).timestamp == ts_plus(old(self).timestamp, old(self).increment as int),
            final(self).current_sequence_num == old(self).current_sequence_num,
            final(self).increment == old(self).increment,
            final(self).ssrc == old(self).ssrc,
    {
        self.timestamp = self.timestamp.wrapping_add(self.increment);
    }
}

/// FU indicator byte: the NAL's importance bits and the FU-A type.
pub open spec fn fu_indicator(nal_header: u8) -> u8 {
    (nal_header & 0x60u8) | FU_A_TYPE
}

/// FU header byte: the NAL's type, with S on the first fragment and E on the last.
pub open spec fn fu_header(nal_header: u8, start: bool, end: bool) -> u8 {
    (nal_header & 0x1fu8) | flag(start, 128) | flag(end, 64)
}

/// Role of a fragment within its NAL unit.
pub enum FragmentedPacket {
    Start,
    End,
    Other,
}

/// The fragment opens its NAL unit.
pub open spec fn is_start(t: FragmentedPacket) -> bool {
    t is Start
}

/// The fragment closes its NAL unit.
pub open spec fn is_end(t: FragmentedPacket) -> bool {
    t is End
}

/// Appends the FU indicator and FU header taken from `nal_header` and the
/// chunk itself.
pub(crate) fn put_fu_a(
    buf: &mut BytesMut,
    nal_header: u8,
    chunk: &[u8],
    start: bool,
    end: bool,
)
    requires
        buf_bytes(*old(buf)).len() + 2 + chunk@.len() <= isize::MAX,
    ensures
        buf_bytes(*final(buf)) == buf_bytes(*old(buf)) + seq![
            fu_indicator(nal_header),
            fu_header(nal_header, start, end),
        ] + chunk@,
{
    let s: u8 = if start {
        128
    } else {
        0
    };
    let e: u8 = if end {
        64
    } else {
        0
    };
    put_u8(buf, (nal_header & 0x60u8) | FU_A_TYPE);
    put_u8(buf, (nal_header & 0x1fu8) | s | e);
    put_slice(buf, chunk);
    assert(buf_bytes(*buf) =~= buf_bytes(*old(buf)) + seq![
        fu_indicator(nal_header),
        fu_header(nal_header, start, end),
    ] + chunk@);
}

/// Appends to `header` an FU-A fragment of `payload`: the FU indicator and FU
/// header made from `payload[0]`, marked as `packet_type` says, then `payload`.
pub fn add_payload(header: BytesMut, payload: &[u8], packet_type: FragmentedPacket) -> (r: BytesMut)
    requires
        payload@.len() >= 1,
        buf_bytes(header).len() + 2 + payload@.len() <= isize::MAX,
    ensures
        buf_bytes(r) == buf_bytes(header) + seq![
            fu_indicator(payload@[0]),
            fu_header(payload@[0], is_start(packet_type), is_end(packet_type)),
        ] + payload@,
{
    let mut header = header;
    let start = match packet_type {
        FragmentedPacket::Start => true,
        _ => false,
    };
    let end = match packet_type {
        FragmentedPacket::End => true,
        _ => false,
    };
    put_fu_a(&mut header, payload[0], payload, start, end);
    header
}

} // verus!
