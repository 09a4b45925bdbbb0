use bytes::{Bytes, BytesMut};
use netbaiot_mqtt::codec::common::{encode, put_varint};
use netbaiot_mqtt::codec::v5::{
    ack, connack, connect_reason, decode, decode_properties, disconnect, disconnect_reason, publish,
    suback, subscription_reason, unsuback, AckReason, ConnackReason, DecodeError, DisconnectReason,
    OutboundPublish, Packet, Properties, PropertyContext, PubackReason, PubcompReason, PubrecReason,
    PubrelReason, SubackReason, UnsubackReason, MALFORMED_PACKET, PACKET_TOO_LARGE, PROTOCOL_ERROR,
    SUBSCRIPTION_IDENTIFIERS_NOT_SUPPORTED, TOPIC_ALIAS_INVALID,
};
use netbaiot_mqtt::error::Error;
use netbaiot_mqtt::limits::Limits;

#[test]
fn packet_specific_reason_encoders() {
    assert_eq!(
        disconnect(DisconnectReason::ProtocolError, 16).unwrap(),
        [0xe0, 2, 0x82, 0]
    );
    assert_eq!(
        ack(
            AckReason::Pubrel(PubrelReason::PacketIdentifierNotFound),
            7,
            16
        )
        .unwrap(),
        [0x62, 4, 0, 7, 0x92, 0]
    );
    assert_eq!(
        ack(
            AckReason::Pubrec(PubrecReason::PacketIdentifierInUse),
            7,
            16
        )
        .unwrap(),
        [0x50, 4, 0, 7, 0x91, 0]
    );
    assert_eq!(
        unsuback(
            7,
            &[
                UnsubackReason::Success,
                UnsubackReason::NoSubscriptionExisted
            ],
            16
        )
        .unwrap(),
        [0xb0, 5, 0, 7, 0, 0, 0x11]
    );
    assert_eq!(
        disconnect_reason(&Error::Conflict),
        DisconnectReason::ProtocolError
    );
    assert_eq!(
        disconnect_reason(&Error::Unavailable),
        DisconnectReason::ServerBusy
    );
}

#[test]
fn connack_respects_tiny_client_packet_limit() {
    let limits = Limits::default();
    assert_eq!(
        connack(false, ConnackReason::BadCredentials, &limits, None, 5).unwrap(),
        [0x20, 3, 0, 0x86, 0]
    );
    assert!(matches!(
        connack(false, ConnackReason::Success, &limits, None, 16),
        Err(Error::Overloaded)
    ));
    assert_eq!(
        connack(false, ConnackReason::Success, &limits, None, 17)
            .unwrap()
            .len(),
        17
    );
    assert!(connack(false, ConnackReason::Success, &limits, Some("assigned"), 17).is_err());
}

fn string(output: &mut Vec<u8>, value: &[u8]) {
    output.extend_from_slice(&(value.len() as u16).to_be_bytes());
    output.extend_from_slice(value);
}

fn properties(output: &mut Vec<u8>, values: &[u8]) {
    put_varint(output, values.len());
    output.extend_from_slice(values);
}

fn connect(connect_properties: &[u8], will_properties: Option<&[u8]>) -> Vec<u8> {
    let mut body = Vec::new();
    string(&mut body, b"MQTT");
    body.extend_from_slice(&[
        5,
        if will_properties.is_some() {
            0x06
        } else {
            0x02
        },
        0,
        30,
    ]);
    properties(&mut body, connect_properties);
    string(&mut body, b"client");
    if let Some(will_properties) = will_properties {
        properties(&mut body, will_properties);
        string(&mut body, b"v1/t/t/p/p/d/d/up");
        string(&mut body, b"will");
    }
    encode(0x10, &body, 65_536).unwrap()
}

fn packet(first: u8, body: &[u8]) -> Result<Packet, DecodeError> {
    let wire = encode(first, body, 65_536).unwrap();
    decode(&mut BytesMut::from(wire.as_slice()), &Limits::default())?.ok_or(DecodeError { reason: MALFORMED_PACKET })
}

#[test]
fn v5_connect_password_without_username_is_well_formed() {
    let mut body = Vec::new();
    string(&mut body, b"MQTT");
    body.extend_from_slice(&[5, 0x42, 0, 30, 0]);
    string(&mut body, b"client");
    string(&mut body, b"secret");
    let wire = encode(0x10, &body, 65_536).unwrap();
    let Packet::Connect(connect) =
        decode(&mut BytesMut::from(wire.as_slice()), &Limits::default())
            .unwrap()
            .unwrap()
    else {
        panic!("expected CONNECT")
    };
    assert!(connect.username.is_none());
    assert_eq!(connect.password.as_deref(), Some(b"secret".as_slice()));
}

#[test]
fn connect_properties_and_will_are_bounded_and_parsed() {
    let mut props = vec![
        0x11, 0, 0, 0, 60, 0x21, 0, 7, 0x27, 0, 0, 4, 0, 0x22, 0, 0, 0x17, 0, 0x19, 1,
    ];
    props.push(0x26);
    string(&mut props, b"k");
    string(&mut props, b"v");
    let will = [0x18, 0, 0, 0, 2, 0x02, 0, 0, 0, 10, 0x01, 1];
    let wire = connect(&props, Some(&will));
    let Packet::Connect(value) =
        decode(&mut BytesMut::from(wire.as_slice()), &Limits::default())
            .unwrap()
            .unwrap()
    else {
        panic!("expected CONNECT")
    };
    assert_eq!(value.properties.session_expiry, Some(60));
    assert_eq!(value.properties.receive_maximum, Some(7));
    assert_eq!(value.properties.maximum_packet_size, Some(1024));
    assert_eq!(value.properties.user_properties.len(), 1);
    assert_eq!(value.will.as_ref().unwrap().properties.will_delay, Some(2));
    assert_eq!(
        value.will.as_ref().unwrap().properties.message_expiry,
        Some(10)
    );
}

#[test]
fn duplicate_wrong_context_invalid_utf8_and_length_fail() {
    let cases = [
        connect(&[0x21, 0, 1, 0x21, 0, 2], None),
        connect(&[0x01, 1], None),
        connect(&[0x15, 0, 2, 0xc3, 0x28], None),
        connect(&[0x11, 0, 0], None),
        connect(&[0x16, 0, 1, 1], None),
        connect(&[0xff], None),
    ];
    for wire in cases {
        assert!(decode(&mut BytesMut::from(wire.as_slice()), &Limits::default()).is_err());
    }
    let limits = Limits {
        max_mqtt_property_bytes: 2,
        ..Limits::default()
    };
    assert_eq!(
        decode(
            &mut BytesMut::from(connect(&[0x21, 0, 1], None).as_slice()),
            &limits
        )
        .err()
        .unwrap()
        .reason,
        PACKET_TOO_LARGE
    );
    let mut user = vec![0x26];
    string(&mut user, b"key");
    string(&mut user, b"value");
    let limits = Limits {
        max_mqtt_user_property_bytes: 8,
        ..Limits::default()
    };
    assert_eq!(
        decode(
            &mut BytesMut::from(connect(&user, None).as_slice()),
            &limits
        )
        .err()
        .unwrap()
        .reason,
        PACKET_TOO_LARGE
    );
    assert_eq!(
        decode_properties(
            &[2, 0x0b, 1],
            PropertyContext::Subscribe,
            &Limits::default()
        )
        .err()
        .unwrap()
        .reason,
        SUBSCRIPTION_IDENTIFIERS_NOT_SUPPORTED
    );
}

#[test]
fn publish_subscribe_disconnect_and_ack_reason_validation() {
    let mut body = Vec::new();
    string(&mut body, b"v1/t/t/p/p/d/d/up");
    body.extend_from_slice(&7u16.to_be_bytes());
    properties(
        &mut body,
        &[
            0x01, 1, 0x02, 0, 0, 0, 5, 0x03, 0, 4, b'j', b's', b'o', b'n',
        ],
    );
    body.extend_from_slice(b"data");
    let Packet::Publish {
        properties: publish_properties,
        payload,
        packet_id,
        ..
    } = packet(0x32, &body).unwrap()
    else {
        panic!("expected PUBLISH")
    };
    assert_eq!(publish_properties.message_expiry, Some(5));
    assert_eq!(publish_properties.content_type.as_deref(), Some("json"));
    assert_eq!(payload, Bytes::from_static(b"data"));
    assert_eq!(packet_id, Some(7));

    let mut subscribe = vec![0, 8];
    properties(&mut subscribe, &[]);
    string(&mut subscribe, b"v1/t/t/p/p/d/d/down");
    subscribe.push(0x1d);
    let Packet::Subscribe { filters, .. } = packet(0x82, &subscribe).unwrap() else {
        panic!("expected SUBSCRIBE")
    };
    assert_eq!(filters[0].1.retain_handling, 1);
    assert!(filters[0].1.no_local);
    assert!(filters[0].1.retain_as_published);
    assert_eq!(
        packet(0xe0, &[0, 2]).err().unwrap().reason,
        MALFORMED_PACKET
    );
    assert!(matches!(packet(0xe0, &[0]), Ok(Packet::Disconnect { .. })));
    assert_eq!(
        packet(0x40, &[0, 1, 0x7f]).err().unwrap().reason,
        PROTOCOL_ERROR
    );
}

#[test]
fn arbitrary_bounded_input_never_panics() {
    let limits = Limits::default();
    let mut seed = 11u64;
    for len in 0..512 {
        let mut data = Vec::with_capacity(len);
        for _ in 0..len {
            seed = seed.wrapping_mul(6_364_136_223_846_793_005).wrapping_add(1);
            data.push((seed >> 32) as u8);
        }
        let _ = decode(&mut BytesMut::from(data.as_slice()), &limits);
    }
}

#[test]
fn runtime_errors_map_to_v5_reasons_without_changing_runtime_errors() {
    assert_eq!(
        connect_reason(&Error::Authentication),
        ConnackReason::BadCredentials
    );
    assert_eq!(
        connect_reason(&Error::Overloaded),
        ConnackReason::ServerBusy
    );
    assert_eq!(
        disconnect_reason(&Error::Overloaded),
        DisconnectReason::QuotaExceeded
    );
    assert_eq!(
        disconnect_reason(&Error::Conflict),
        DisconnectReason::ProtocolError
    );
    assert_eq!(
        disconnect_reason(&Error::Draining),
        DisconnectReason::ServerShuttingDown
    );
}

#[test]
fn every_publish_property_survives_encoding() {
    let properties = Properties {
        payload_format: Some(1),
        message_expiry: Some(70_000),
        content_type: Some("text/plain".into()),
        response_topic: Some("v1/t/t/p/p/d/d/up".into()),
        correlation_data: Some(Bytes::from_static(&[0, 255, 7])),
        user_properties: vec![("k".into(), "v".into()), ("k".into(), "w".into())],
        ..Default::default()
    };
    let wire = publish(
        OutboundPublish {
            topic: "v1/t/t/p/p/d/d/down",
            payload: b"data",
            qos: 2,
            packet_id: Some(9),
            retain: true,
            dup: true,
            properties: &properties,
        },
        256,
    )
    .unwrap();
    assert_eq!(wire[0], 0x3d);
    let mut buffer = BytesMut::from(wire.as_slice());
    let Packet::Publish { topic, payload, qos, packet_id, retain, dup, properties: found } =
        decode(&mut buffer, &Limits::default()).unwrap().unwrap()
    else {
        panic!("expected PUBLISH")
    };
    assert!(buffer.is_empty());
    assert_eq!((topic.as_str(), qos, packet_id, retain, dup), ("v1/t/t/p/p/d/d/down", 2, Some(9), true, true));
    assert_eq!(payload, Bytes::from_static(b"data"));
    assert!(found == properties);
}

#[test]
fn publish_needs_an_identifier_and_room() {
    let properties = Properties::default();
    let message = |qos: u8, packet_id: Option<u16>| OutboundPublish {
        topic: "a",
        payload: b"xy",
        qos,
        packet_id,
        retain: false,
        dup: false,
        properties: &properties,
    };
    assert_eq!(
        publish(message(0, None), 16).unwrap(),
        [0x30, 6, 0, 1, b'a', 0, b'x', b'y']
    );
    assert_eq!(
        publish(message(1, Some(258)), 16).unwrap(),
        [0x32, 8, 0, 1, b'a', 1, 2, 0, b'x', b'y']
    );
    assert!(matches!(publish(message(1, None), 16), Err(Error::Invalid)));
    assert!(matches!(publish(message(3, Some(1)), 16), Err(Error::Invalid)));
    assert!(matches!(publish(message(0, None), 7), Err(Error::Overloaded)));
}

#[test]
fn acknowledgements_leave_a_success_out() {
    assert_eq!(
        ack(AckReason::Puback(PubackReason::Success), 7, 16).unwrap(),
        [0x40, 2, 0, 7]
    );
    assert_eq!(
        ack(AckReason::Pubcomp(PubcompReason::PacketIdentifierNotFound), 7, 16).unwrap(),
        [0x70, 4, 0, 7, 0x92, 0]
    );
    assert!(matches!(
        ack(AckReason::Puback(PubackReason::Success), 7, 3),
        Err(Error::Overloaded)
    ));
    assert_eq!(
        suback(3, &[SubackReason::GrantedQos2, SubackReason::NotAuthorized], 16).unwrap(),
        [0x90, 5, 0, 3, 0, 2, 0x87]
    );
    assert_eq!(SubackReason::granted(1).unwrap(), SubackReason::GrantedQos1);
    assert!(matches!(SubackReason::granted(3), Err(Error::Invalid)));
    assert_eq!(subscription_reason(&Error::Overloaded), SubackReason::QuotaExceeded);
}

#[test]
fn topic_aliases_are_refused() {
    let mut body = Vec::new();
    string(&mut body, b"a");
    properties(&mut body, &[0x23, 0, 1]);
    assert_eq!(packet(0x30, &body).err().unwrap().reason, TOPIC_ALIAS_INVALID);
}
