use bytes::{Bytes, BytesMut};
use netbaiot_mqtt::codec::common::{
    encode, fixed_header, remaining_length, valid_filter, valid_topic, valid_utf8,
};
use netbaiot_mqtt::codec::v311::{ack, connack, decode, publish, Packet};
use netbaiot_mqtt::error::Error;
use netbaiot_mqtt::limits::Limits;

fn text(value: &[u8], output: &mut Vec<u8>) {
    output.extend_from_slice(&(value.len() as u16).to_be_bytes());
    output.extend_from_slice(value);
}

#[test]
fn all_control_packet_flags_and_identifiers_are_strict() {
    let limits = Limits::default();
    for first in [
        0x11, 0x21, 0x41, 0x51, 0x60, 0x71, 0x80, 0x91, 0xa0, 0xb1, 0xc1, 0xd1, 0xe1,
    ] {
        assert!(fixed_header(&[first, 0], 64).is_err(), "{first:02x}");
    }
    for first in [0x40, 0x50, 0x62, 0x70, 0xb0] {
        assert!(decode(&mut BytesMut::from(&[first, 2, 0, 0][..]), &limits).is_err());
    }
}

#[test]
fn connect_will_and_utf8_validation() {
    let limits = Limits::default();
    let mut body = Vec::new();
    text(b"MQTT", &mut body);
    body.extend_from_slice(&[4, 0xee, 0, 30]);
    text(b"client", &mut body);
    text(b"v1/t/t/p/p/d/d/up", &mut body);
    text(b"will", &mut body);
    text(b"user", &mut body);
    text(b"secret", &mut body);
    let wire = encode(0x10, &body, 65_536).unwrap();
    let Some(Packet::Connect(connect)) =
        decode(&mut BytesMut::from(&wire[..]), &limits).unwrap()
    else {
        panic!()
    };
    assert_eq!(connect.will.unwrap().qos, 1);
    assert_eq!(connect.username.as_deref(), Some("user"));
    for invalid in [b"a\0b".as_slice(), &[0xc2, 0x80], &[0xef, 0xb7, 0x90]] {
        assert!(valid_utf8(invalid).is_err());
    }
}

#[test]
fn wildcards_remaining_length_incremental_and_qos2() {
    let limits = Limits::default();
    for filter in ["+", "#", "sport/+/player1", "sport/#", "/+/"] {
        assert!(valid_topic(filter, &limits, true))
    }
    for filter in ["a+", "a/#/b", "##", "a/+b", "a/b#"] {
        assert!(!valid_topic(filter, &limits, true))
    }
    assert_eq!(
        remaining_length(&[0xff, 0xff, 0xff, 0x7f], usize::MAX).unwrap(),
        Some((268_435_455, 4))
    );
    assert!(remaining_length(&[0x80, 0x80, 0x80, 0x80], usize::MAX).is_err());
    let wire = publish("a/b", b"payload", 2, Some(7), true, false, &limits).unwrap();
    let mut partial = BytesMut::new();
    for (index, byte) in wire.iter().enumerate() {
        partial.extend_from_slice(&[*byte]);
        assert_eq!(
            decode(&mut partial, &limits).unwrap().is_some(),
            index + 1 == wire.len()
        );
    }
}

#[test]
fn exact_packet_size_boundary_and_multiple_packets() {
    let limits = Limits {
        max_mqtt_packet_size: 256,
        ..Limits::default()
    };
    let bytes = publish("t", &[0; 248], 1, Some(1), false, false, &limits).unwrap();
    assert_eq!(bytes.len(), 256);
    assert!(publish("t", &[0; 249], 1, Some(1), false, false, &limits).is_err());
    let mut multiple = BytesMut::from(&[0xc0, 0, 0xe0, 0][..]);
    assert!(matches!(
        decode(&mut multiple, &limits).unwrap(),
        Some(Packet::Pingreq)
    ));
    assert!(matches!(
        decode(&mut multiple, &limits).unwrap(),
        Some(Packet::Disconnect)
    ));
}

#[test]
fn arbitrary_bytes_smoke() {
    let limits = Limits::default();
    let mut seed = 19u64;
    for length in 0..512 {
        let mut bytes = Vec::new();
        for _ in 0..length {
            seed = seed.wrapping_mul(6_364_136_223_846_793_005).wrapping_add(1);
            bytes.push((seed >> 32) as u8)
        }
        let _ = decode(&mut BytesMut::from(bytes.as_slice()), &limits);
    }
}

#[test]
fn publish_has_one_encoding() {
    let limits = Limits::default();
    assert_eq!(
        publish("a/b", b"xy", 1, Some(258), true, true, &limits).unwrap(),
        [0x3b, 9, 0, 3, b'a', b'/', b'b', 1, 2, b'x', b'y']
    );
    assert_eq!(
        publish("a", b"", 0, None, false, false, &limits).unwrap(),
        [0x30, 3, 0, 1, b'a']
    );
    for (topic, qos, id, dup) in [
        ("a/+", 0, None, false),
        ("a", 3, Some(1), false),
        ("a", 1, None, false),
        ("a", 1, Some(0), false),
        ("a", 0, Some(1), false),
        ("a", 0, None, true),
    ] {
        assert!(matches!(
            publish(topic, b"", qos, id, false, dup, &limits),
            Err(Error::Invalid)
        ));
    }
}

#[test]
fn publish_is_read_back_with_what_follows() {
    let limits = Limits::default();
    let wire = publish("a/b", b"xy", 2, Some(9), true, true, &limits).unwrap();
    let mut buffer = BytesMut::from(wire.as_slice());
    buffer.extend_from_slice(&[0xc0]);
    let Some(Packet::Publish { topic, payload, qos, packet_id, retain, dup }) =
        decode(&mut buffer, &limits).unwrap()
    else {
        panic!("expected PUBLISH")
    };
    assert_eq!((topic.as_str(), qos, packet_id, retain, dup), ("a/b", 2, Some(9), true, true));
    assert_eq!(payload, Bytes::from_static(b"xy"));
    assert_eq!(&buffer[..], &[0xc0]);
    assert!(decode(&mut buffer, &limits).unwrap().is_none());
    assert_eq!(&buffer[..], &[0xc0]);
}

#[test]
fn answers_have_one_encoding() {
    assert_eq!(connack(true, 0), [0x20, 2, 1, 0]);
    assert_eq!(connack(false, 5), [0x20, 2, 0, 5]);
    assert_eq!(ack(0x62, 0x1234), [0x62, 2, 0x12, 0x34]);
    assert!(matches!(encode(0x30, &[0; 4], 5), Err(Error::Overloaded)));
    assert_eq!(encode(0x30, &[7; 4], 6).unwrap(), [0x30, 4, 7, 7, 7, 7]);
    assert_eq!(encode(0x30, &[0; 200], 256).unwrap()[..3], [0x30, 0xc8, 1]);
}

#[test]
fn headers_wait_for_their_length() {
    assert_eq!(fixed_header(&[], 64), Ok(None));
    assert_eq!(fixed_header(&[0x30], 64), Ok(None));
    assert_eq!(fixed_header(&[0x30, 0x80], 1024), Ok(None));
    assert_eq!(fixed_header(&[0x30, 0x80, 1], 1024), Ok(Some((0x30, 3, 131))));
    assert!(fixed_header(&[0x30, 0x80, 1], 64).is_err());
    assert_eq!(remaining_length(&[0x7f], 200), Ok(Some((127, 1))));
    assert_eq!(remaining_length(&[0x80, 1], 200), Ok(Some((128, 2))));
}

#[test]
fn filters_place_their_wildcards() {
    assert!(valid_filter("a/+/#"));
    assert!(!valid_filter(""));
    assert!(!valid_filter("a#"));
    assert_eq!(valid_utf8("gr\u{fc}n".as_bytes()), Ok("gr\u{fc}n"));
    assert_eq!(valid_utf8(&[0xff]), Err(Error::Invalid));
}

#[test]
fn suback_and_unsupported_versions_are_read() {
    let limits = Limits::default();
    assert_eq!(
        decode(&mut BytesMut::from(&[0x90, 4, 0, 7, 1, 0x80][..]), &limits).unwrap(),
        Some(Packet::Suback { packet_id: 7, returns: vec![1, 0x80] })
    );
    let mut body = Vec::new();
    text(b"MQTT", &mut body);
    body.extend_from_slice(&[3, 2, 0, 0]);
    text(b"c", &mut body);
    let wire = encode(0x10, &body, 64).unwrap();
    assert_eq!(
        decode(&mut BytesMut::from(wire.as_slice()), &limits).unwrap(),
        Some(Packet::UnsupportedVersion(3))
    );
}
