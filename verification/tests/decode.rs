use bytes::BytesMut;
use mqtt_frame::codec::MqttCodec;
use mqtt_frame::packet::{MqttPacket, ProtocolLevel, Property};
use mqtt_frame::MqttError;

#[test]
fn test_decode_connect_v311() {
    let mut codec = MqttCodec::new();
    let mut buf = BytesMut::new();

    // CONNECT Fixed Header
    buf.extend_from_slice(&[0x10, 0x10]); // Type 1, remaining length 16

    // Protocol Name "MQTT"
    buf.extend_from_slice(&[0x00, 0x04, b'M', b'Q', b'T', b'T']);

    // Protocol Level 4 (v3.1.1)
    buf.extend_from_slice(&[0x04]);

    // Connect Flags (Clean Session = 1)
    buf.extend_from_slice(&[0x02]);

    // Keep Alive (60 seconds)
    buf.extend_from_slice(&[0x00, 0x3C]);

    // Client ID "test"
    buf.extend_from_slice(&[0x00, 0x04, b't', b'e', b's', b't']);

    let result = codec.decode(&mut buf).unwrap();

    match result {
        Some(MqttPacket::Connect(connect)) => {
            assert_eq!(connect.protocol_level, ProtocolLevel::V311);
            assert_eq!(connect.client_id, "test");
            assert_eq!(connect.clean_session, true);
            assert_eq!(connect.keep_alive, 60);
        }
        _ => panic!("Failed to decode CONNECT packet"),
    }
}

#[test]
fn test_decode_publish_qos1_zero_copy() {
    let mut codec = MqttCodec::new();
    let mut buf = BytesMut::new();

    // PUBLISH Fixed Header: Type 3, DUP 0, QoS 1 (bit 1 and 2), RETAIN 0 => 0x32
    // Remaining length: 2 (topic len) + 4 ("test") + 2 (packet ID) + 5 ("hello") = 13
    buf.extend_from_slice(&[0x32, 0x0D]);

    // Topic "test"
    buf.extend_from_slice(&[0x00, 0x04, b't', b'e', b's', b't']);

    // Packet ID 10
    buf.extend_from_slice(&[0x00, 0x0A]);

    // Payload "hello"
    buf.extend_from_slice(b"hello");

    let result = codec.decode(&mut buf).unwrap();

    match result {
        Some(MqttPacket::Publish(publish)) => {
            assert_eq!(publish.topic, "test");
            assert_eq!(publish.qos, 1);
            assert_eq!(publish.packet_id, Some(10));
            assert_eq!(publish.payload.as_ref(), b"hello");
        }
        _ => panic!("Failed to decode PUBLISH packet"),
    }
}

fn connect_v5_frame() -> Vec<u8> {
    let mut body = vec![0x00, 0x04, b'M', b'Q', b'T', b'T', 0x05, 0x00, 0x00, 0x0A];
    // property block: length 3, skipped whole
    body.extend_from_slice(&[0x03, 0x21, 0x00, 0x10]);
    body.extend_from_slice(&[0x00, 0x02, b'i', b'd']);
    let mut frame = vec![0x10, body.len() as u8];
    frame.extend_from_slice(&body);
    frame
}

#[test]
fn decode_empty_buffer_needs_more() {
    let mut codec = MqttCodec::new();
    let mut buf = BytesMut::new();
    assert!(matches!(codec.decode(&mut buf), Ok(None)));
    assert!(buf.is_empty());
}

#[test]
fn decode_partial_frame_consumes_nothing() {
    let mut codec = MqttCodec::new();
    let frame = [0x32u8, 0x0D, 0x00, 0x04, b't', b'e', b's'];
    let mut buf = BytesMut::from(&frame[..]);
    assert!(matches!(codec.decode(&mut buf), Ok(None)));
    assert_eq!(&buf[..], &frame[..]);
    assert!(buf.capacity() >= 15);
}

#[test]
fn decode_incomplete_length_consumes_nothing() {
    let mut codec = MqttCodec::new();
    let mut buf = BytesMut::from(&[0x30u8, 0x80, 0x80][..]);
    assert!(matches!(codec.decode(&mut buf), Ok(None)));
    assert_eq!(buf.len(), 3);
}

#[test]
fn decode_malformed_length_is_an_error() {
    let mut codec = MqttCodec::new();
    let mut buf = BytesMut::from(&[0x30u8, 0xFF, 0xFF, 0xFF, 0xFF, 0x01][..]);
    match codec.decode(&mut buf) {
        Err(MqttError::MalformedPacket(m)) => assert_eq!(m, "Malformed Variable Byte Integer"),
        other => panic!("unexpected {:?}", other),
    }
    assert_eq!(buf.len(), 6);
}

#[test]
fn decode_leaves_following_frames() {
    let mut codec = MqttCodec::new();
    let mut buf = BytesMut::from(&[0xC0u8, 0x00, 0xE0, 0x00, 0x40][..]);
    assert!(matches!(codec.decode(&mut buf), Ok(Some(MqttPacket::PingReq))));
    assert_eq!(&buf[..], &[0xE0, 0x00, 0x40]);
    assert!(matches!(codec.decode(&mut buf), Ok(Some(MqttPacket::Disconnect))));
    assert_eq!(&buf[..], &[0x40]);
    assert!(matches!(codec.decode(&mut buf), Ok(None)));
}

#[test]
fn decode_connect_v5_switches_level() {
    let mut codec = MqttCodec::new();
    let mut buf = BytesMut::from(&connect_v5_frame()[..]);
    match codec.decode(&mut buf).unwrap() {
        Some(MqttPacket::Connect(c)) => {
            assert_eq!(c.protocol_level, ProtocolLevel::V5);
            assert_eq!(c.client_id, "id");
            assert!(!c.clean_session);
            assert_eq!(c.keep_alive, 10);
        }
        other => panic!("unexpected {:?}", other),
    }
    assert_eq!(codec.protocol_level, ProtocolLevel::V5);
    assert!(buf.is_empty());
}

#[test]
fn decode_connect_unsupported_version() {
    let mut codec = MqttCodec::new();
    let frame = [0x10u8, 0x0C, 0x00, 0x04, b'M', b'Q', b'T', b'T', 0x03, 0x02, 0x00, 0x3C, 0x00, 0x00];
    let mut buf = BytesMut::from(&frame[..]);
    assert!(matches!(codec.decode(&mut buf), Err(MqttError::UnsupportedVersion)));
    assert!(buf.is_empty());
    assert_eq!(codec.protocol_level, ProtocolLevel::V311);
}

#[test]
fn decode_connect_v5_incomplete_properties() {
    let mut codec = MqttCodec::new();
    let frame = [0x10u8, 0x0B, 0x00, 0x04, b'M', b'Q', b'T', b'T', 0x05, 0x02, 0x00, 0x3C, 0x80];
    let mut buf = BytesMut::from(&frame[..]);
    match codec.decode(&mut buf) {
        Err(MqttError::MalformedPacket(m)) => assert_eq!(m, "Incomplete v5 properties"),
        other => panic!("unexpected {:?}", other),
    }
}

#[test]
fn decode_unsupported_packet_type() {
    let mut codec = MqttCodec::new();
    let mut buf = BytesMut::from(&[0x00u8, 0x02, 0x00, 0x00, 0xC0, 0x00][..]);
    match codec.decode(&mut buf) {
        Err(MqttError::ProtocolError(m)) => assert_eq!(m, "Unsupported packet type: 0"),
        other => panic!("unexpected {:?}", other),
    }
    // the refused frame is consumed, the next one stays
    assert_eq!(&buf[..], &[0xC0, 0x00]);
    let mut buf = BytesMut::from(&[0xF0u8, 0x00][..]);
    match codec.decode(&mut buf) {
        Err(MqttError::ProtocolError(m)) => assert_eq!(m, "Unsupported packet type: 15"),
        other => panic!("unexpected {:?}", other),
    }
}

#[test]
fn decode_connack() {
    let mut codec = MqttCodec::new();
    let mut buf = BytesMut::from(&[0x20u8, 0x02, 0x00, 0x00, 0x20, 0x02, 0x01, 0x05][..]);
    match codec.decode(&mut buf).unwrap() {
        Some(MqttPacket::ConnAck(c)) => {
            assert!(!c.session_present);
            assert_eq!(c.return_code, 0);
        }
        other => panic!("unexpected {:?}", other),
    }
    match codec.decode(&mut buf).unwrap() {
        Some(MqttPacket::ConnAck(c)) => {
            assert!(c.session_present);
            assert_eq!(c.return_code, 5);
        }
        other => panic!("unexpected {:?}", other),
    }
    assert!(buf.is_empty());
    assert_eq!(codec.protocol_level, ProtocolLevel::V311);
}

#[test]
fn decode_publish_v5_with_properties() {
    let mut codec = MqttCodec::new();
    codec.protocol_level = ProtocolLevel::V5;
    let mut body = vec![0x00, 0x01, b'a'];
    let props = [
        0x01, 0x01, // payload format indicator
        0x02, 0x00, 0x00, 0x01, 0x00, // message expiry 256
        0x03, 0x00, 0x02, b't', b'x', // content type
        0x0B, 0x85, 0x01, // subscription identifier 133
        0x23, 0x00, 0x07, // topic alias 7
        0x26, 0x00, 0x01, b'k', 0x00, 0x01, b'v', // user property
        0x09, 0x00, 0x02, 0xAA, 0xBB, // correlation data
        0x08, 0x00, 0x01, b'r', // response topic
    ];
    body.push(props.len() as u8);
    body.extend_from_slice(&props);
    body.extend_from_slice(b"data");
    let mut frame = vec![0x31, body.len() as u8];
    frame.extend_from_slice(&body);
    let mut buf = BytesMut::from(&frame[..]);
    match codec.decode(&mut buf).unwrap() {
        Some(MqttPacket::Publish(p)) => {
            assert_eq!(p.topic, "a");
            assert_eq!(p.qos, 0);
            assert!(p.retain);
            assert!(!p.dup);
            assert_eq!(p.packet_id, None);
            assert_eq!(
                p.properties,
                vec![
                    Property::PayloadFormatIndicator(1),
                    Property::MessageExpiryInterval(256),
                    Property::ContentType("tx".to_string()),
                    Property::SubscriptionIdentifier(133),
                    Property::TopicAlias(7),
                    Property::UserProperty("k".to_string(), "v".to_string()),
                    Property::CorrelationData(vec![0xAA, 0xBB]),
                    Property::ResponseTopic("r".to_string()),
                ]
            );
            assert_eq!(p.payload.as_ref(), b"data");
        }
        other => panic!("unexpected {:?}", other),
    }
}

#[test]
fn decode_publish_v5_property_errors() {
    let mut codec = MqttCodec::new();
    codec.protocol_level = ProtocolLevel::V5;
    // properties claim 9 bytes, the packet has 2 after the length
    let mut buf = BytesMut::from(&[0x30u8, 0x06, 0x00, 0x01, b'a', 0x09, 0x01, 0x01][..]);
    match codec.decode(&mut buf) {
        Err(MqttError::MalformedPacket(m)) => assert_eq!(m, "Properties length exceeds packet"),
        other => panic!("unexpected {:?}", other),
    }
    // unknown identifier 0x7F
    let mut buf = BytesMut::from(&[0x30u8, 0x06, 0x00, 0x01, b'a', 0x02, 0x7F, 0x00][..]);
    match codec.decode(&mut buf) {
        Err(MqttError::MalformedPacket(m)) => assert_eq!(m, "Unknown property identifier"),
        other => panic!("unexpected {:?}", other),
    }
    // property length cut short
    let mut buf = BytesMut::from(&[0x30u8, 0x04, 0x00, 0x01, b'a', 0x80][..]);
    match codec.decode(&mut buf) {
        Err(MqttError::MalformedPacket(m)) => assert_eq!(m, "Incomplete v5 properties in PUBLISH"),
        other => panic!("unexpected {:?}", other),
    }
}

#[test]
fn decode_publish_v311_ignores_property_bytes() {
    let mut codec = MqttCodec::new();
    let mut buf = BytesMut::from(&[0x30u8, 0x05, 0x00, 0x01, b'a', 0x00, b'x'][..]);
    match codec.decode(&mut buf).unwrap() {
        Some(MqttPacket::Publish(p)) => {
            assert!(p.properties.is_empty());
            assert_eq!(p.payload.as_ref(), &[0x00, b'x']);
        }
        other => panic!("unexpected {:?}", other),
    }
}

#[test]
fn decode_subscribe_and_unsubscribe() {
    let mut codec = MqttCodec::new();
    let frame = [
        0x82u8, 0x0B, 0x00, 0x05, 0x00, 0x02, b'a', b'/', 0x01, 0x00, 0x01, b'b', 0x02,
    ];
    let mut buf = BytesMut::from(&frame[..]);
    match codec.decode(&mut buf).unwrap() {
        Some(MqttPacket::Subscribe(s)) => {
            assert_eq!(s.packet_id, 5);
            assert_eq!(s.filters, vec![("a/".to_string(), 1), ("b".to_string(), 2)]);
        }
        other => panic!("unexpected {:?}", other),
    }
    let frame = [0xA2u8, 0x07, 0x01, 0x02, 0x00, 0x03, b'x', b'/', b'y'];
    let mut buf = BytesMut::from(&frame[..]);
    match codec.decode(&mut buf).unwrap() {
        Some(MqttPacket::Unsubscribe(u)) => {
            assert_eq!(u.packet_id, 0x0102);
            assert_eq!(u.filters, vec!["x/y".to_string()]);
        }
        other => panic!("unexpected {:?}", other),
    }
}

#[test]
fn decode_acks() {
    let mut codec = MqttCodec::new();
    let mut buf = BytesMut::from(
        &[
            0x40u8, 0x02, 0x00, 0x07, 0x50, 0x02, 0x00, 0x08, 0x62, 0x02, 0x00, 0x09, 0x70, 0x02,
            0x00, 0x0A, 0x90, 0x04, 0x00, 0x0B, 0x00, 0x80, 0xB0, 0x02, 0x00, 0x0C, 0xD0, 0x00,
        ][..],
    );
    match codec.decode(&mut buf).unwrap() {
        Some(MqttPacket::PubAck(a)) => {
            assert_eq!(a.packet_id, 7);
            assert_eq!(a.reason_code, None);
        }
        other => panic!("unexpected {:?}", other),
    }
    assert!(matches!(codec.decode(&mut buf).unwrap(), Some(MqttPacket::PubRec(r)) if r.packet_id == 8));
    assert!(matches!(codec.decode(&mut buf).unwrap(), Some(MqttPacket::PubRel(r)) if r.packet_id == 9));
    assert!(matches!(codec.decode(&mut buf).unwrap(), Some(MqttPacket::PubComp(r)) if r.packet_id == 10));
    match codec.decode(&mut buf).unwrap() {
        Some(MqttPacket::SubAck(s)) => {
            assert_eq!(s.packet_id, 11);
            assert_eq!(s.return_codes, vec![0x00, 0x80]);
        }
        other => panic!("unexpected {:?}", other),
    }
    assert!(matches!(codec.decode(&mut buf).unwrap(), Some(MqttPacket::UnsubAck(r)) if r.packet_id == 12));
    assert!(matches!(codec.decode(&mut buf).unwrap(), Some(MqttPacket::PingResp)));
    assert!(buf.is_empty());
}

#[test]
fn decode_puback_reason_code_v5() {
    let mut codec = MqttCodec::new();
    codec.protocol_level = ProtocolLevel::V5;
    let mut buf = BytesMut::from(&[0x40u8, 0x03, 0x00, 0x07, 0x10][..]);
    match codec.decode(&mut buf).unwrap() {
        Some(MqttPacket::PubAck(a)) => assert_eq!(a.reason_code, Some(0x10)),
        other => panic!("unexpected {:?}", other),
    }
}

#[test]
fn decode_overruns_on_truncated_fields() {
    let codec = MqttCodec::new();
    // PUBREC whose body is one byte: the packet identifier lies past the frame
    let buf = BytesMut::from(&[0x50u8, 0x01, 0x00][..]);
    assert!(codec.decode_overruns(&buf));
    // CONNACK with one byte of its two
    let buf = BytesMut::from(&[0x20u8, 0x01, 0x00][..]);
    assert!(codec.decode_overruns(&buf));
    // CONNECT whose client identifier is longer than the frame
    let buf = BytesMut::from(&[0x10u8, 0x0C, 0x00, 0x04, b'M', b'Q', b'T', b'T', 0x04, 0x02, 0x00, 0x3C, 0x00, 0x05][..]);
    assert!(codec.decode_overruns(&buf));
    // a well-formed frame, and an incomplete one, do not overrun
    let buf = BytesMut::from(&[0x50u8, 0x02, 0x00, 0x01][..]);
    assert!(!codec.decode_overruns(&buf));
    let buf = BytesMut::from(&[0x50u8, 0x02, 0x00][..]);
    assert!(!codec.decode_overruns(&buf));
    let buf = BytesMut::new();
    assert!(!codec.decode_overruns(&buf));
}

#[test]
fn packet_type_matches_header() {
    let mut codec = MqttCodec::new();
    let mut buf = BytesMut::from(&[0xC0u8, 0x00, 0xD0, 0x00, 0xE0, 0x00][..]);
    for t in [12u8, 13, 14] {
        let p = codec.decode(&mut buf).unwrap().unwrap();
        assert_eq!(p.packet_type(), t);
    }
}

#[test]
fn decode_invalid_utf8_is_replaced() {
    let mut codec = MqttCodec::new();
    let frame = [
        0x10u8, 0x0F, 0x00, 0x04, b'M', b'Q', b'T', b'T', 0x04, 0x00, 0x00, 0x3C, 0x00, 0x03,
        b'a', 0xFF, b'b',
    ];
    let mut buf = BytesMut::from(&frame[..]);
    match codec.decode(&mut buf).unwrap() {
        Some(MqttPacket::Connect(c)) => assert_eq!(c.client_id, "a\u{FFFD}b"),
        other => panic!("unexpected {:?}", other),
    }
}

#[test]
fn decoded_packets_clone_equal() {
    let mut codec = MqttCodec::new();
    let mut buf = BytesMut::from(&[0x30u8, 0x05, 0x00, 0x01, b'a', b'h', b'i'][..]);
    let p = codec.decode(&mut buf).unwrap().unwrap();
    let q = p.clone();
    assert_eq!(p, q);
    match q {
        MqttPacket::Publish(publish) => assert_eq!(publish.payload.as_ref(), b"hi"),
        other => panic!("unexpected {:?}", other),
    }
}

#[test]
fn level_bytes() {
    assert_eq!(ProtocolLevel::V311.level_byte(), 4);
    assert_eq!(ProtocolLevel::V5.level_byte(), 5);
}

#[test]
fn io_error_converts() {
    let e: MqttError = std::io::Error::new(std::io::ErrorKind::Other, "x").into();
    assert!(matches!(e, MqttError::Io(_)));
}
