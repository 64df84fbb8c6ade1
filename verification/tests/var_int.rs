use bytes::BytesMut;
use mqtt_frame::codec::{parse_properties, properties_overrun};
use mqtt_frame::packet::Property;
use mqtt_frame::utils::{read_var_int, write_var_int, ByteCursor};
use mqtt_frame::MqttError;

fn written(v: u32) -> Vec<u8> {
    let mut dst = BytesMut::new();
    write_var_int(v, &mut dst).unwrap();
    dst.to_vec()
}

#[test]
fn write_var_int_examples() {
    assert_eq!(written(0), vec![0x00]);
    assert_eq!(written(127), vec![0x7F]);
    assert_eq!(written(128), vec![0x80, 0x01]);
    assert_eq!(written(16_383), vec![0xFF, 0x7F]);
    assert_eq!(written(16_384), vec![0x80, 0x80, 0x01]);
    assert_eq!(written(268_435_455), vec![0xFF, 0xFF, 0xFF, 0x7F]);
}

#[test]
fn write_var_int_refuses_values_past_four_bytes() {
    for v in [268_435_456u32, u32::MAX] {
        let mut dst = BytesMut::from(&[9u8][..]);
        assert!(matches!(write_var_int(v, &mut dst), Err(MqttError::PayloadTooLarge)));
        assert_eq!(&dst[..], &[9]);
    }
}

#[test]
fn read_var_int_examples() {
    let data = [0xC1u8, 0x02, 0xAA];
    let mut c = ByteCursor::new(&data);
    assert_eq!(read_var_int(&mut c).unwrap(), Some((321, 2)));
    assert_eq!(c.position(), 2);
}

#[test]
fn read_var_int_incomplete_keeps_position() {
    let data = [0x80u8, 0x80];
    let mut c = ByteCursor::new(&data);
    assert_eq!(read_var_int(&mut c).unwrap(), None);
    assert_eq!(c.position(), 0);
    let empty: [u8; 0] = [];
    let mut c = ByteCursor::new(&empty);
    assert_eq!(read_var_int(&mut c).unwrap(), None);
}

#[test]
fn read_var_int_fifth_byte_is_malformed() {
    let data = [0x80u8, 0x80, 0x80, 0x80, 0x00];
    let mut c = ByteCursor::new(&data);
    match read_var_int(&mut c) {
        Err(MqttError::MalformedPacket(m)) => assert_eq!(m, "Malformed Variable Byte Integer"),
        other => panic!("unexpected {:?}", other),
    }
    assert_eq!(c.position(), 0);
}

#[test]
fn var_int_round_trip() {
    for v in [0u32, 1, 127, 128, 300, 16_383, 16_384, 2_097_151, 2_097_152, 268_435_455] {
        let mut bytes = written(v);
        let n = bytes.len();
        bytes.push(0xEE);
        let mut c = ByteCursor::new(&bytes);
        assert_eq!(read_var_int(&mut c).unwrap(), Some((v, n)));
        assert_eq!(c.position(), n);
    }
}

#[test]
fn parse_properties_stops_at_length() {
    // two properties, but the length covers only the first
    let data = [0x23u8, 0x00, 0x05, 0x01, 0x01];
    let mut c = ByteCursor::new(&data);
    let props = parse_properties(&mut c, 3).unwrap();
    assert_eq!(props, vec![Property::TopicAlias(5)]);
    assert_eq!(c.position(), 3);
}

#[test]
fn parse_properties_truncated_identifier_ends_block() {
    let data = [0x01u8, 0x02, 0x80];
    let mut c = ByteCursor::new(&data);
    let props = parse_properties(&mut c, 3).unwrap();
    assert_eq!(props, vec![Property::PayloadFormatIndicator(2)]);
    assert_eq!(c.position(), 2);
}

#[test]
fn parse_properties_unknown_identifier() {
    let data = [0x7Fu8, 0x00];
    let mut c = ByteCursor::new(&data);
    match parse_properties(&mut c, 2) {
        Err(MqttError::MalformedPacket(m)) => assert_eq!(m, "Unknown property identifier"),
        other => panic!("unexpected {:?}", other),
    }
}

#[test]
fn cursor_reads_and_advances() {
    let data = [1u8, 2, 3, 4, 5, 6, 7];
    let mut c = ByteCursor::new(&data);
    assert_eq!(c.get_u8(), Some(1));
    assert_eq!(c.get_u16(), Some(0x0203));
    assert_eq!(c.remaining(), 4);
    assert_eq!(c.chunk(), &[4, 5, 6, 7]);
    assert_eq!(c.get_u32(), Some(0x04050607));
    assert_eq!(c.get_u8(), None);
    assert_eq!(c.position(), 7);
    let data = [0u8, 2, b'h', b'i', 9];
    let mut c = ByteCursor::new(&data);
    assert_eq!(c.get_prefixed(), Some(&b"hi"[..]));
    assert_eq!(c.get_bytes(2), None);
    c.advance(1);
    assert_eq!(c.remaining(), 0);
}

#[test]
fn properties_overrun_detects_cut_values() {
    // a message expiry interval with two of its four bytes
    let data = [0x02u8, 0x00, 0x01];
    let c = ByteCursor::new(&data);
    assert!(properties_overrun(&c, 3));
    // complete properties, and a block cut at an identifier, do not overrun
    let data = [0x23u8, 0x00, 0x05, 0x80];
    let c = ByteCursor::new(&data);
    assert!(!properties_overrun(&c, 4));
    assert!(!properties_overrun(&c, 3));
    assert_eq!(c.position(), 0);
}

#[test]
fn property_blocks_concatenate() {
    let a = [0x01u8, 0x01, 0x23, 0x00, 0x07];
    let b = [0x0Bu8, 0x85, 0x01, 0x03, 0x00, 0x01, b'x'];
    let mut whole = a.to_vec();
    whole.extend_from_slice(&b);
    whole.extend_from_slice(&[0xFF, 0xFF]);
    let mut ca = ByteCursor::new(&a);
    let pa = parse_properties(&mut ca, a.len()).unwrap();
    let mut cb = ByteCursor::new(&b);
    let pb = parse_properties(&mut cb, b.len()).unwrap();
    let mut c = ByteCursor::new(&whole);
    let p = parse_properties(&mut c, a.len() + b.len()).unwrap();
    let mut expected = pa.clone();
    expected.extend(pb.clone());
    assert_eq!(p, expected);
    assert_eq!(c.position(), a.len() + b.len());
    assert_eq!(
        p,
        vec![
            Property::PayloadFormatIndicator(1),
            Property::TopicAlias(7),
            Property::SubscriptionIdentifier(133),
            Property::ContentType("x".to_string()),
        ]
    );
}

#[test]
fn property_blocks_concatenate_mid_buffer() {
    let prefix = [0x00u8, 0x01, b'a', 0x09];
    let a = [0x02u8, 0x00, 0x00, 0x00, 0x3C];
    let b = [0x26u8, 0x00, 0x01, b'k', 0x00, 0x01, b'v'];
    let mut whole = prefix.to_vec();
    whole.extend_from_slice(&a);
    whole.extend_from_slice(&b);
    whole.extend_from_slice(b"payload");
    let mut c = ByteCursor::new(&whole);
    c.advance(prefix.len());
    let p = parse_properties(&mut c, a.len() + b.len()).unwrap();
    assert_eq!(
        p,
        vec![
            Property::MessageExpiryInterval(60),
            Property::UserProperty("k".to_string(), "v".to_string()),
        ]
    );
    assert_eq!(c.position(), prefix.len() + a.len() + b.len());
}
