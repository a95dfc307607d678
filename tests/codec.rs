use bytes::BytesMut;
use rtp::depacketizer::Depacketizer;
use rtp::h264::{get_fragments, get_nal_units, packetize_frame};
use rtp::kinds::FrameType;
use rtp::rtp::{add_payload, FragmentedPacket, Header, RtpSession};

fn header_of(packet: &[u8]) -> Header {
    let mut b = BytesMut::from(packet);
    Header::deserialize(&mut b)
}

fn avcc(nals: &[&[u8]]) -> Vec<u8> {
    let mut out = Vec::new();
    for n in nals {
        out.extend_from_slice(&(n.len() as u32).to_be_bytes());
        out.extend_from_slice(n);
    }
    out
}

#[test]
fn header_serializes_to_twelve_big_endian_bytes() {
    let h = Header {
        version: 2,
        padding: false,
        extension: false,
        marker: true,
        payload_type: 96,
        sequence_number: 0x1234,
        timestamp: 0xAABBCCDD,
        ssrc: 0x01020304,
        csrc: vec![],
    };
    let b = h.serialize();
    assert_eq!(
        b.to_vec(),
        vec![0x80, 0xE0, 0x12, 0x34, 0xAA, 0xBB, 0xCC, 0xDD, 0x01, 0x02, 0x03, 0x04]
    );
}

#[test]
fn header_round_trip_keeps_every_field() {
    let h = Header {
        version: 2,
        padding: true,
        extension: true,
        marker: false,
        payload_type: 111,
        sequence_number: 65535,
        timestamp: 7,
        ssrc: 0xDEADBEEF,
        csrc: vec![5, 0xFFFFFFFF],
    };
    let mut b = h.serialize();
    assert_eq!(b.len(), 20);
    b.extend_from_slice(&[9, 9]);
    let back = Header::deserialize(&mut b);
    assert_eq!(back.version, 2);
    assert!(back.padding);
    assert!(back.extension);
    assert!(!back.marker);
    assert_eq!(back.payload_type, 111);
    assert_eq!(back.sequence_number, 65535);
    assert_eq!(back.timestamp, 7);
    assert_eq!(back.ssrc, 0xDEADBEEF);
    assert_eq!(back.csrc, vec![5, 0xFFFFFFFF]);
    assert_eq!(b.to_vec(), vec![9, 9]);
}

#[test]
fn deserialize_passes_unknown_payload_type_through() {
    let bytes = [0x80u8, 0x7F, 0, 1, 0, 0, 0, 2, 0, 0, 0, 3];
    let h = header_of(&bytes);
    assert_eq!(h.payload_type, 127);
    assert_eq!(h.sequence_number, 1);
    assert_eq!(h.timestamp, 2);
    assert_eq!(h.ssrc, 3);
}

#[test]
fn single_small_nal_is_one_packet_with_marker() {
    let nal = [0x65u8, 0x88, 0x84, 0x00, 0x12, 0x34];
    let mut s = RtpSession::new(1, 100);
    let packets = get_fragments(&nal, &mut s, true);
    assert_eq!(packets.len(), 1);
    let p = packets[0].to_vec();
    assert_eq!(
        &p[..12],
        &[0x80, 0xE0, 0x00, 100, 0, 0, 0, 0, 0, 0, 0, 1]
    );
    let h = header_of(&p);
    assert_eq!(h.sequence_number, 100);
    assert_eq!(h.timestamp, 0);
    assert!(h.marker);
    assert_eq!(&p[12..], &nal);
    assert_eq!(s.current_sequence_num, 101);
}

#[test]
fn large_nal_is_split_into_two_fu_a_fragments() {
    let mut nal = vec![0x61u8];
    for i in 1..2401usize {
        nal.push((i % 251) as u8);
    }
    assert_eq!(nal.len(), 2401);
    let mut s = RtpSession::new(1, 10);
    let packets = get_fragments(&nal, &mut s, true);
    assert_eq!(packets.len(), 2);
    let p1 = packets[0].to_vec();
    let p2 = packets[1].to_vec();
    assert_eq!(p1[12], 0x7C);
    assert_eq!(p1[13], 0x81);
    assert_eq!(&p1[14..], &nal[1..1201]);
    assert_eq!(p2[12], 0x7C);
    assert_eq!(p2[13], 0x41);
    assert_eq!(&p2[14..], &nal[1201..2401]);
    let h1 = header_of(&p1);
    let h2 = header_of(&p2);
    assert_eq!(h1.sequence_number, 10);
    assert_eq!(h2.sequence_number, 11);
    assert_eq!(h1.timestamp, h2.timestamp);
    assert!(!h1.marker);
    assert!(h2.marker);
}

#[test]
fn fragment_counts_follow_the_ceiling_rule() {
    for (len, expected) in [(1usize, 1usize), (1201, 1), (1202, 2), (2401, 2), (2402, 3), (3601, 3)] {
        let nal = vec![0x41u8; len];
        let mut s = RtpSession::new(1, 0);
        let packets = get_fragments(&nal, &mut s, false);
        assert_eq!(packets.len(), expected, "length {}", len);
        assert_eq!(s.current_sequence_num as usize, expected);
        for p in &packets {
            assert!(!header_of(p).marker);
        }
    }
}

#[test]
fn fragments_reassemble_to_the_nal() {
    let mut nal = vec![0x65u8];
    for i in 0..3000usize {
        nal.push((i * 7 % 256) as u8);
    }
    let mut s = RtpSession::new(42, 500);
    let packets = get_fragments(&nal, &mut s, true);
    assert_eq!(packets.len(), 3);
    let mut d = Depacketizer::new();
    let mut out = None;
    for p in &packets {
        let h = header_of(p);
        out = d.push(h.ssrc, h.timestamp, h.sequence_number, &p[12..]);
    }
    assert_eq!(out, Some(nal));
    assert_eq!(d.gaps(), 0);
}

#[test]
fn missing_middle_fragment_is_a_gap() {
    let nal = vec![0x61u8; 3000];
    let mut s = RtpSession::new(7, 0);
    let packets = get_fragments(&nal, &mut s, true);
    assert_eq!(packets.len(), 3);
    let mut d = Depacketizer::new();
    let h0 = header_of(&packets[0]);
    let h2 = header_of(&packets[2]);
    assert_eq!(d.push(h0.ssrc, h0.timestamp, h0.sequence_number, &packets[0][12..]), None);
    assert_eq!(d.push(h2.ssrc, h2.timestamp, h2.sequence_number, &packets[2][12..]), None);
    assert_eq!(d.gaps(), 1);
}

#[test]
fn end_fragment_without_start_is_a_gap() {
    let mut d = Depacketizer::new();
    assert_eq!(d.push(1, 1, 5, &[0x7C, 0x41, 1, 2, 3]), None);
    assert_eq!(d.gaps(), 1);
}

#[test]
fn single_nal_packet_passes_through() {
    let mut d = Depacketizer::new();
    assert_eq!(d.push(1, 1, 5, &[0x67, 1, 2]), Some(vec![0x67, 1, 2]));
    assert_eq!(d.push(1, 1, 6, &[]), None);
    assert_eq!(d.gaps(), 0);
}

#[test]
fn sequence_numbers_wrap_around() {
    let mut s = RtpSession::new(1, 65534);
    let frame = avcc(&[&[0x41, 1], &[0x41, 2], &[0x41, 3], &[0x41, 4]]);
    let packets = packetize_frame(&frame, &mut s);
    let seqs: Vec<u16> = packets.iter().map(|p| header_of(p).sequence_number).collect();
    assert_eq!(seqs, vec![65534, 65535, 0, 1]);
    assert_eq!(s.current_sequence_num, 2);
}

#[test]
fn access_unit_marks_only_its_last_packet() {
    let big = vec![0x65u8; 2500];
    let frame = avcc(&[&[0x67, 0x42, 0x00, 0x1E], &[0x68, 0xCE, 0x3C, 0x80], &big]);
    let mut s = RtpSession::new(9, 0);
    let packets = packetize_frame(&frame, &mut s);
    assert_eq!(packets.len(), 1 + 1 + 3);
    let markers: Vec<bool> = packets.iter().map(|p| header_of(p).marker).collect();
    assert_eq!(markers, vec![false, false, false, false, true]);
    for p in &packets {
        assert_eq!(header_of(p).timestamp, 0);
    }
    assert_eq!(s.timestamp, 3000);
    assert_eq!(s.current_sequence_num, 5);
}

#[test]
fn avcc_extraction_stops_at_a_length_past_the_end() {
    let mut frame = avcc(&[&[0x41, 1, 2], &[0x41, 3]]);
    frame.extend_from_slice(&[0, 0, 0, 50, 0x41, 9]);
    frame.extend_from_slice(&avcc(&[&[0x41, 7]]));
    let units = get_nal_units(&frame);
    assert_eq!(units.len(), 2);
    assert_eq!(units[0], &[0x41, 1, 2]);
    assert_eq!(units[1], &[0x41, 3]);
}

#[test]
fn avcc_extraction_stops_at_a_zero_length() {
    let mut frame = avcc(&[&[0x41, 1]]);
    frame.extend_from_slice(&[0, 0, 0, 0]);
    frame.extend_from_slice(&avcc(&[&[0x41, 2]]));
    let units = get_nal_units(&frame);
    assert_eq!(units.len(), 1);
    assert_eq!(get_nal_units(&[0, 0, 1]).len(), 0);
}

#[test]
fn add_payload_marks_start_and_end() {
    let header = RtpSession::new(1, 0).get_packet(false).serialize();
    let start = add_payload(header.clone(), &[0x65, 1, 2], FragmentedPacket::Start);
    assert_eq!(&start[12..], &[0x7C, 0x85, 0x65, 1, 2]);
    let end = add_payload(header.clone(), &[0x65, 1, 2], FragmentedPacket::End);
    assert_eq!(&end[12..], &[0x7C, 0x45, 0x65, 1, 2]);
    let mid = add_payload(header, &[0x41, 1], FragmentedPacket::Other);
    assert_eq!(&mid[12..], &[0x5C, 0x01, 0x41, 1]);
}

#[test]
fn nal_kinds_are_read_from_the_header_byte() {
    assert_eq!(FrameType::of_nal_header(0x67), FrameType::Sps);
    assert_eq!(FrameType::of_nal_header(0x68), FrameType::Pps);
    assert_eq!(FrameType::of_nal_header(0x65), FrameType::Keyframe);
    assert_eq!(FrameType::of_nal_header(0x41), FrameType::Other);
}

#[test]
fn next_frame_wraps_the_timestamp() {
    let mut s = RtpSession::new(1, 0);
    s.timestamp = u32::MAX - 1000;
    s.next_frame();
    assert_eq!(s.timestamp, 1999);
}
