use bytes::BytesMut;
use mqtt_frame::codec::MqttCodec;
use mqtt_frame::packet::{
    ConnAck, Connect, MqttPacket, ProtocolLevel, PubAck, PubComp, PubRec, PubRel, SubAck,
    UnsubAck,
};
use mqtt_frame::MqttError;

fn encoded(level: ProtocolLevel, p: MqttPacket) -> Vec<u8> {
    let mut codec = MqttCodec::new();
    codec.protocol_level = level;
    let mut dst = BytesMut::new();
    codec.encode(p, &mut dst).unwrap();
    assert_eq!(codec.protocol_level, level);
    dst.to_vec()
}

#[test]
fn encode_fixed_packets() {
    let l = ProtocolLevel::V311;
    assert_eq!(
        encoded(l, MqttPacket::ConnAck(ConnAck { session_present: true, return_code: 5 })),
        vec![0x20, 0x02, 0x01, 0x05]
    );
    assert_eq!(encoded(l, MqttPacket::PingResp), vec![0xD0, 0x00]);
    assert_eq!(encoded(l, MqttPacket::PingReq), vec![0xC0, 0x00]);
    assert_eq!(encoded(l, MqttPacket::Disconnect), vec![0xE0, 0x00]);
    assert_eq!(encoded(l, MqttPacket::PubRec(PubRec { packet_id: 0x0102 })), vec![0x50, 2, 1, 2]);
    assert_eq!(encoded(l, MqttPacket::PubRel(PubRel { packet_id: 0x0102 })), vec![0x62, 2, 1, 2]);
    assert_eq!(encoded(l, MqttPacket::PubComp(PubComp { packet_id: 0x0102 })), vec![0x70, 2, 1, 2]);
    assert_eq!(encoded(l, MqttPacket::UnsubAck(UnsubAck { packet_id: 0x0102 })), vec![0xB0, 2, 1, 2]);
}

#[test]
fn encode_puback_by_level() {
    let p = |rc| MqttPacket::PubAck(PubAck { packet_id: 1, reason_code: rc });
    assert_eq!(encoded(ProtocolLevel::V311, p(Some(0x10))), vec![0x40, 2, 0, 1]);
    assert_eq!(encoded(ProtocolLevel::V5, p(None)), vec![0x40, 2, 0, 1]);
    assert_eq!(encoded(ProtocolLevel::V5, p(Some(0))), vec![0x40, 2, 0, 1]);
    assert_eq!(encoded(ProtocolLevel::V5, p(Some(0x80))), vec![0x40, 4, 0, 1, 0x80, 0]);
}

#[test]
fn encode_suback_by_level() {
    let p = || MqttPacket::SubAck(SubAck { packet_id: 9, return_codes: vec![0, 1, 0x80] });
    assert_eq!(encoded(ProtocolLevel::V311, p()), vec![0x90, 5, 0, 9, 0, 1, 0x80]);
    assert_eq!(encoded(ProtocolLevel::V5, p()), vec![0x90, 6, 0, 9, 0, 0, 1, 0x80]);
    // a remaining length above 127 takes two bytes
    let big = MqttPacket::SubAck(SubAck { packet_id: 1, return_codes: vec![1; 200] });
    let e = encoded(ProtocolLevel::V311, big);
    assert_eq!(&e[..5], &[0x90, 0xCA, 0x01, 0x00, 0x01]);
    assert_eq!(e.len(), 205);
}

#[test]
fn encode_refuses_client_packets() {
    let mut codec = MqttCodec::new();
    let mut dst = BytesMut::from(&[7u8][..]);
    let c = MqttPacket::Connect(Connect {
        protocol_level: ProtocolLevel::V311,
        client_id: "c".to_string(),
        clean_session: true,
        keep_alive: 1,
    });
    match codec.encode(c, &mut dst) {
        Err(MqttError::ProtocolError(m)) => {
            assert_eq!(m, "Packet encoding not implemented for this type")
        }
        other => panic!("unexpected {:?}", other),
    }
    assert_eq!(&dst[..], &[7]);
}

#[test]
fn encode_appends_to_what_is_there() {
    let mut codec = MqttCodec::new();
    let mut dst = BytesMut::from(&[1u8, 2][..]);
    codec.encode(MqttPacket::PingResp, &mut dst).unwrap();
    assert_eq!(&dst[..], &[1, 2, 0xD0, 0]);
}

#[test]
fn round_trip_through_the_codec() {
    for level in [ProtocolLevel::V311, ProtocolLevel::V5] {
        let mut codec = MqttCodec::new();
        codec.protocol_level = level;
        let mut buf = BytesMut::new();
        codec.encode(MqttPacket::PubRec(PubRec { packet_id: 77 }), &mut buf).unwrap();
        codec.encode(MqttPacket::PubAck(PubAck { packet_id: 78, reason_code: Some(0x87) }), &mut buf).unwrap();
        codec.encode(MqttPacket::SubAck(SubAck { packet_id: 79, return_codes: vec![1, 2] }), &mut buf).unwrap();
        codec.encode(MqttPacket::Disconnect, &mut buf).unwrap();
        codec.encode(MqttPacket::ConnAck(ConnAck { session_present: false, return_code: 0 }), &mut buf).unwrap();
        codec.encode(MqttPacket::ConnAck(ConnAck { session_present: true, return_code: 2 }), &mut buf).unwrap();
        assert_eq!(
            codec.decode(&mut buf).unwrap(),
            Some(MqttPacket::PubRec(PubRec { packet_id: 77 }))
        );
        let expected_reason = if level == ProtocolLevel::V5 { Some(0x87) } else { None };
        assert_eq!(
            codec.decode(&mut buf).unwrap(),
            Some(MqttPacket::PubAck(PubAck { packet_id: 78, reason_code: expected_reason }))
        );
        let expected_codes = if level == ProtocolLevel::V5 { vec![0, 1, 2] } else { vec![1, 2] };
        assert_eq!(
            codec.decode(&mut buf).unwrap(),
            Some(MqttPacket::SubAck(SubAck { packet_id: 79, return_codes: expected_codes }))
        );
        assert_eq!(codec.decode(&mut buf).unwrap(), Some(MqttPacket::Disconnect));
        assert_eq!(
            codec.decode(&mut buf).unwrap(),
            Some(MqttPacket::ConnAck(ConnAck { session_present: false, return_code: 0 }))
        );
        assert_eq!(
            codec.decode(&mut buf).unwrap(),
            Some(MqttPacket::ConnAck(ConnAck { session_present: true, return_code: 2 }))
        );
        assert!(buf.is_empty());
    }
}

#[test]
fn codec_defaults_to_v311() {
    assert_eq!(MqttCodec::new().protocol_level, ProtocolLevel::V311);
    assert_eq!(MqttCodec::default().protocol_level, ProtocolLevel::V311);
}
