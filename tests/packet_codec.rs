use udt::packet::{
    AckAdditionalInfo, AckControlInfo, HandshakeControlInfo, MessageDropRequestControlInfo,
    NakControlInfo, SocketType,
};

fn sample_handshake() -> HandshakeControlInfo {
    HandshakeControlInfo {
        socket_type: SocketType::Datagram,
        isn: 0x0102_0304,
        mss: 1500,
        flight_flag_size: 25600,
        request_type: -1,
        id: 77,
        cookie: 0xDEAD_BEEF,
        ip: [1, 2, 3, 0xFFFF_FFFF],
    }
}

#[test]
fn ack_small_encodes_to_four_bytes() {
    let ack = AckControlInfo { received_last_ack: 1000, info: None };
    let mut buf = [0u8; 64];
    let out = ack.serialize(&mut buf).unwrap().to_vec();
    assert_eq!(out, vec![0xE8, 0x03, 0x00, 0x00]);
    let back = AckControlInfo::deserialize(&out).unwrap();
    assert_eq!(back.received_last_ack, 1000);
    assert!(back.info.is_none());
}

#[test]
fn nak_multiple_encodes_to_eight_bytes() {
    let nak = NakControlInfo::Multiple { loss_data: [5, 10] };
    let mut buf = [0xAAu8; 8];
    let out = nak.serialize(&mut buf).unwrap().to_vec();
    assert_eq!(out, vec![0x05, 0, 0, 0, 0x0A, 0, 0, 0]);
}

#[test]
fn nak_round_trips() {
    for nak in [NakControlInfo::Single { seq_no: 0x8000_0001 }, NakControlInfo::Multiple { loss_data: [7, u32::MAX] }] {
        let mut buf = [0u8; 16];
        let mut out = nak.serialize(&mut buf).unwrap().to_vec();
        assert_eq!(NakControlInfo::deserialize(&mut out), Some(nak));
    }
}

#[test]
fn nak_single_layout_and_lengths() {
    let mut buf = [0u8; 4];
    let out = NakControlInfo::Single { seq_no: 0x0A0B_0C0D }.serialize(&mut buf).unwrap().to_vec();
    assert_eq!(out, vec![0x0D, 0x0C, 0x0B, 0x0A]);
    let mut small = [0u8; 4];
    assert!(NakControlInfo::Multiple { loss_data: [1, 2] }.serialize(&mut small).is_none());
    assert_eq!(small, [0u8; 4]);
    for len in [0usize, 3, 5, 7, 9, 12] {
        let mut b = vec![1u8; len];
        assert!(NakControlInfo::deserialize(&mut b).is_none());
    }
}

#[test]
fn ack_round_trips_in_every_tier() {
    let tiers = [
        AckControlInfo { received_last_ack: 5, info: None },
        AckControlInfo {
            received_last_ack: 6,
            info: Some(AckAdditionalInfo { rtt: 100_000, rtt_var: 50_000, buffer_size: 8192, speed_and_bandwidth: None }),
        },
        AckControlInfo {
            received_last_ack: u32::MAX,
            info: Some(AckAdditionalInfo {
                rtt: 1,
                rtt_var: 2,
                buffer_size: 3,
                speed_and_bandwidth: Some((4, 0xFFFF_0000)),
            }),
        },
    ];
    let lens = [4usize, 16, 24];
    for (ack, len) in tiers.iter().zip(lens) {
        let mut buf = [0u8; 32];
        let out = ack.serialize(&mut buf).unwrap().to_vec();
        assert_eq!(out.len(), len);
        assert_eq!(AckControlInfo::deserialize(&out), Some(*ack));
    }
}

#[test]
fn ack_medium_layout() {
    let ack = AckControlInfo {
        received_last_ack: 1,
        info: Some(AckAdditionalInfo { rtt: 2, rtt_var: 3, buffer_size: 0x0102_0304, speed_and_bandwidth: None }),
    };
    let mut buf = [0u8; 16];
    let out = ack.serialize(&mut buf).unwrap().to_vec();
    assert_eq!(out, vec![1, 0, 0, 0, 2, 0, 0, 0, 3, 0, 0, 0, 4, 3, 2, 1]);
}

#[test]
fn ack_too_small_buffer_fails_without_downgrade() {
    let ack = AckControlInfo {
        received_last_ack: 9,
        info: Some(AckAdditionalInfo { rtt: 1, rtt_var: 1, buffer_size: 1, speed_and_bandwidth: Some((1, 1)) }),
    };
    let mut buf = [0x55u8; 16];
    assert!(ack.serialize(&mut buf).is_none());
    assert_eq!(buf, [0x55u8; 16]);
    let mut tiny = [0u8; 3];
    assert!(AckControlInfo { received_last_ack: 1, info: None }.serialize(&mut tiny).is_none());
}

#[test]
fn ack_rejects_other_lengths() {
    for len in [0usize, 3, 5, 8, 12, 15, 17, 20, 23, 25, 48] {
        let b = vec![0u8; len];
        assert!(AckControlInfo::deserialize(&b).is_none());
    }
}

#[test]
fn ack_serialize_leaves_tail_of_buffer() {
    let mut buf = [0xEEu8; 8];
    let n = AckControlInfo { received_last_ack: 2, info: None }.serialize(&mut buf).unwrap().len();
    assert_eq!(n, 4);
    assert_eq!(buf, [2, 0, 0, 0, 0xEE, 0xEE, 0xEE, 0xEE]);
}

#[test]
fn handshake_round_trips_and_layout() {
    let hs = sample_handshake();
    let mut buf = [0u8; 64];
    let out = hs.serialize(&mut buf).unwrap().to_vec();
    assert_eq!(out.len(), 48);
    assert_eq!(&out[0..4], &[4, 0, 0, 0]);
    assert_eq!(&out[4..8], &[2, 0, 0, 0]);
    assert_eq!(&out[8..12], &[4, 3, 2, 1]);
    assert_eq!(&out[20..24], &[0xFF, 0xFF, 0xFF, 0xFF]);
    assert_eq!(&out[44..48], &[0xFF, 0xFF, 0xFF, 0xFF]);
    assert_eq!(HandshakeControlInfo::deserialize(&out), Some(hs));

    let stream = HandshakeControlInfo { socket_type: SocketType::Stream, request_type: i32::MIN, ..hs };
    let out = stream.serialize(&mut buf).unwrap().to_vec();
    assert_eq!(out[4], 1);
    assert_eq!(HandshakeControlInfo::deserialize(&out), Some(stream));
}

#[test]
fn handshake_rejections() {
    let mut buf = [0u8; 48];
    let out = sample_handshake().serialize(&mut buf).unwrap().to_vec();
    let mut bad_version = out.clone();
    bad_version[0] = 5;
    assert!(HandshakeControlInfo::deserialize(&bad_version).is_none());
    for t in [0u8, 3, 255] {
        let mut bad_type = out.clone();
        bad_type[4] = t;
        assert!(HandshakeControlInfo::deserialize(&bad_type).is_none());
    }
    assert!(HandshakeControlInfo::deserialize(&out[..47]).is_none());
    let mut longer = out.clone();
    longer.push(0);
    assert!(HandshakeControlInfo::deserialize(&longer).is_none());
    let mut short = [0u8; 47];
    assert!(sample_handshake().serialize(&mut short).is_none());
}

#[test]
fn message_drop_round_trip_and_layout() {
    let mdr = MessageDropRequestControlInfo { first_seq_no: 0x11, last_seq_no: 0x0100_0000 };
    let mut buf = [0u8; 10];
    let out = mdr.serialize(&mut buf).unwrap().to_vec();
    assert_eq!(out, vec![0x11, 0, 0, 0, 0, 0, 0, 1]);
    assert_eq!(MessageDropRequestControlInfo::deserialize(&out), Some(mdr));
    assert!(MessageDropRequestControlInfo::deserialize(&out[..7]).is_none());
    assert!(MessageDropRequestControlInfo::deserialize(&buf).is_none());
    let mut short = [0u8; 7];
    assert!(mdr.serialize(&mut short).is_none());
}
