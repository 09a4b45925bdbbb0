use bytes::Bytes;
use netbaiot_mqtt::broker::inbound::{InboundQos2Action, InboundQos2PublishState};
use netbaiot_mqtt::broker::state::{BrokerFrame, MqttBroker};
use netbaiot_mqtt::codec::v5::{DisconnectReason, SubscriptionOptions};
use netbaiot_mqtt::codec::{v311, v5, MqttVersion};
use netbaiot_mqtt::connection::frame::Wire;
use netbaiot_mqtt::connection::step::{CommandFate, Endpoint, Pending, Step};
use netbaiot_mqtt::connection::{
    authorize_inbound_qos2_publish, device_event, protocol, remaining_seconds, silence_limit,
    weigh_publish, ConnectionState, StateMachine,
};
use netbaiot_mqtt::connection::{v311 as plain, v5 as modern};
use netbaiot_mqtt::error::Error;
use netbaiot_mqtt::identity::{
    AuthenticatedDevice, CodecId, DeviceId, DeviceKey, Permissions, ProductId, TenantId,
};
use netbaiot_mqtt::limits::Limits;
use netbaiot_mqtt::message::BrokerMessage;
use netbaiot_mqtt::topics::{publish_acl, topic, TopicKind};

const NOW: i64 = 1_700_000_000_000;
const UP: &str = "v1/t/t/p/p/d/d/up";
const DOWN: &str = "v1/t/t/p/p/d/d/down";

fn device(name: &str, commands: bool) -> AuthenticatedDevice {
    AuthenticatedDevice {
        device_key: DeviceKey {
            tenant_id: TenantId::new("t").unwrap(),
            product_id: ProductId::new("p").unwrap(),
            device_id: DeviceId::new(name).unwrap(),
        },
        credential_version: 1,
        auth_generation: 1,
        codec_id: CodecId::new("json").unwrap(),
        codec_version: 1,
        permissions: Permissions { publish: true, commands },
    }
}

fn connect(client_id: &str, clean_session: bool) -> v311::Connect {
    v311::Connect {
        client_id: client_id.into(),
        username: Some("user".into()),
        password: Some(b"secret".to_vec()),
        keep_alive: 30,
        clean_session,
        will: None,
    }
}

fn connect_v5(client_id: &str, clean_start: bool) -> v5::Connect {
    v5::Connect {
        client_id: client_id.into(),
        username: Some("user".into()),
        password: Some(Bytes::from_static(b"secret")),
        keep_alive: 30,
        clean_start,
        properties: v5::Properties { session_expiry: Some(60), ..Default::default() },
        will: None,
    }
}

fn joined(broker: &mut MqttBroker, client_id: &str) -> Endpoint {
    plain::let_in(broker, device("d", true), connect(client_id, false), NOW).unwrap().endpoint
}

fn joined_v5(broker: &mut MqttBroker, client_id: &str) -> Endpoint {
    modern::let_in(broker, device("d", true), &connect_v5(client_id, false), 1, NOW).unwrap().endpoint
}

fn publish(topic: &str, payload: &'static [u8], qos: u8, packet_id: Option<u16>) -> v311::Packet {
    v311::Packet::Publish {
        topic: topic.into(),
        payload: Bytes::from_static(payload),
        qos,
        packet_id,
        retain: false,
        dup: false,
    }
}

fn publish_v5(topic: &str, payload: &'static [u8], qos: u8, packet_id: Option<u16>) -> v5::Packet {
    v5::Packet::Publish {
        topic: topic.into(),
        payload: Bytes::from_static(payload),
        qos,
        packet_id,
        retain: false,
        dup: false,
        properties: Default::default(),
    }
}

fn sent(bytes: &[u8]) -> Step {
    Step::Send { bytes: bytes.to_vec() }
}

#[test]
fn state_rejects_double_connect() {
    let mut state = StateMachine { state: ConnectionState::Accepted };
    assert!(state.transition(ConnectionState::Connected).is_err());
    state.transition(ConnectionState::AwaitConnect).unwrap();
    state.transition(ConnectionState::Authenticating).unwrap();
    state.transition(ConnectionState::Connected).unwrap();
    assert!(state.transition(ConnectionState::Authenticating).is_err());
}

#[test]
fn a_refused_transition_changes_nothing() {
    let mut state = StateMachine { state: ConnectionState::Connected };
    assert_eq!(state.transition(ConnectionState::AwaitConnect), Err(Error::Invalid));
    assert_eq!(state.state, ConnectionState::Connected);
    state.transition(ConnectionState::Closed).unwrap();
    state.transition(ConnectionState::Closed).unwrap();
    assert!(state.transition(ConnectionState::Draining).is_err());
}

#[test]
fn canonical_publish_acl_is_identity_scoped() {
    let auth = device("a", true);
    assert!(publish_acl(&auth, &topic(&auth.device_key, TopicKind::Up)).is_ok());
    assert!(publish_acl(&auth, "v1/t/t/p/p/d/b/up").is_err());
}

#[test]
fn existing_qos2_only_skips_duplicate_acl_until_identifier_is_released() {
    let auth = device("d", false);
    let mut mqtt = MqttBroker::new(Limits::default());
    let mut attachment = mqtt.attach_v5(&auth, "client".into(), false, 60, 2, NOW).unwrap();
    let key = attachment.key.clone();
    let generation = attachment.generation;
    let forbidden = "v1/t/t/p/p/d/another/up";
    let allowed = "v1/t/t/p/p/d/d/up";
    assert!(matches!(
        authorize_inbound_qos2_publish(&mqtt, &auth, &key, generation, 7, forbidden),
        Err(Error::Forbidden)
    ));
    let original = BrokerMessage {
        topic: allowed.into(),
        payload: b"first".to_vec(),
        qos: 2,
        retain: false,
        properties: Default::default(),
    };
    assert!(mqtt.inbound_qos2(&key, generation, 7, original).unwrap());
    assert_eq!(
        authorize_inbound_qos2_publish(&mqtt, &auth, &key, generation, 7, forbidden).unwrap(),
        InboundQos2PublishState::ExistingTransaction
    );
    assert!(matches!(
        authorize_inbound_qos2_publish(&mqtt, &auth, &key, generation, 8, forbidden),
        Err(Error::Forbidden)
    ));
    let InboundQos2Action::Deliver { session_incarnation, operation_id, .. } =
        mqtt.begin_inbound_qos2_delivery(&key, generation, 7).unwrap()
    else {
        panic!("PUBREL must start original delivery")
    };
    assert!(matches!(
        authorize_inbound_qos2_publish(&mqtt, &auth, &key, generation, 7, forbidden),
        Err(Error::Forbidden)
    ));
    mqtt.finish_inbound_qos2_delivery(&key, session_incarnation, 7, operation_id).unwrap();
    mqtt.complete_inbound_qos2(&key, generation, 7, NOW).unwrap();
    mqtt.finish_inbound_pubcomp(&key, generation, 7).unwrap();
    assert!(matches!(
        authorize_inbound_qos2_publish(&mqtt, &auth, &key, generation, 7, forbidden),
        Err(Error::Forbidden)
    ));
    attachment.detach(&mut mqtt, NOW).unwrap();
}

#[test]
fn the_first_packet_decides_on_the_protocol() {
    let limits = Limits::default();
    let greeting = |version: u8| {
        [0x10, 10, 0, 4, b'M', b'Q', b'T', b'T', version, 2, 0, 0]
    };
    assert_eq!(protocol(&greeting(4), &limits), Ok(Some(MqttVersion::V311)));
    assert_eq!(protocol(&greeting(5), &limits), Ok(Some(MqttVersion::V5)));
    assert_eq!(protocol(&greeting(5)[..9], &limits), Ok(None));
    assert_eq!(protocol(&[], &limits), Ok(None));
    assert_eq!(protocol(&[0xc0, 0], &limits), Err(Error::Invalid));
    assert_eq!(protocol(&[0x10, 2, 0, 4], &limits), Err(Error::Invalid));
}

#[test]
fn small_rules_have_exact_values() {
    assert_eq!(silence_limit(0, 9_000), 9_000);
    assert_eq!(silence_limit(30, 9_000), 45_000);
    assert_eq!(weigh_publish(10, 4_085), 1);
    assert_eq!(weigh_publish(10, 4_086), 2);
    assert_eq!(weigh_publish(usize::MAX, 1), 1 + usize::MAX / 4_096);
    assert_eq!(remaining_seconds(NOW + 1, NOW), 1);
    assert_eq!(remaining_seconds(NOW + 1_000, NOW), 1);
    assert_eq!(remaining_seconds(NOW + 1_001, NOW), 2);
    assert_eq!(remaining_seconds(NOW - 1, NOW), 0);
    assert_eq!(remaining_seconds(i64::MAX, i64::MIN), u32::MAX);
    assert_eq!(plain::packet_units(&publish("a", b"xy", 0, None)), 1);
    assert_eq!(plain::packet_units(&v311::Packet::Pingreq), 1);
    assert!(plain::is_control(&v311::Packet::Pubrel(1)));
    assert!(!plain::is_control(&publish("a", b"xy", 0, None)));
}

#[test]
fn a_bad_greeting_gets_its_return_code() {
    let refused = |packet: v311::Packet| {
        let refusal = plain::check_greeting(packet).err().unwrap();
        (refusal.bytes, refusal.error)
    };
    let code = |code: u8| Some(vec![0x20, 2, 0, code]);
    assert_eq!(refused(v311::Packet::Pingreq), (None, Error::Invalid));
    assert_eq!(refused(v311::Packet::UnsupportedVersion(3)), (code(1), Error::Invalid));
    assert_eq!(refused(v311::Packet::Connect(connect("", false))), (code(2), Error::Invalid));
    let mut anonymous = connect("c", true);
    anonymous.password = None;
    assert_eq!(refused(v311::Packet::Connect(anonymous)), (code(4), Error::Authentication));
    assert!(plain::check_greeting(v311::Packet::Connect(connect("c", false))).is_ok());
    assert_eq!(plain::refuse_credentials(Error::Authentication).bytes, code(4));
    assert_eq!(plain::refuse_credentials(Error::Timeout).bytes, None);
    assert_eq!(plain::refuse_lease(Error::Overloaded).bytes, code(3));
    let mut wilful = connect("c", true);
    wilful.will = Some(v311::Will {
        topic: "v1/t/t/p/p/d/other/up".into(),
        payload: Bytes::from_static(b"x"),
        qos: 0,
        retain: false,
    });
    let refusal = plain::check_will(&device("d", true), &wilful).err().unwrap();
    assert_eq!((refusal.bytes, refusal.error), (code(5), Error::Forbidden));
}

#[test]
fn a_bad_v5_greeting_gets_its_reason() {
    let limits = Limits::default();
    let refused = |connect: v5::Connect| {
        let refusal = modern::check_greeting(v5::Packet::Connect(Box::new(connect)), &limits).err().unwrap();
        (refusal.bytes, refusal.error)
    };
    let reason = |reason: u8| Some(vec![0x20, 3, 0, reason, 0]);
    assert_eq!(refused(connect_v5("", false)), (reason(0x85), Error::Invalid));
    let mut method = connect_v5("c", true);
    method.properties.authentication_method = Some("x".into());
    assert_eq!(refused(method), (reason(0x8c), Error::Authentication));
    let mut anonymous = connect_v5("c", true);
    anonymous.username = None;
    assert_eq!(refused(anonymous), (reason(0x86), Error::Authentication));
    let mut tiny = connect_v5("", false);
    tiny.properties.maximum_packet_size = Some(4);
    assert_eq!(refused(tiny), (None, Error::Invalid));
    assert_eq!(modern::refuse_error(Error::Overloaded, &limits, 64).bytes, reason(0x89));
}

#[test]
fn a_welcome_says_whether_there_was_a_session() {
    let mut broker = MqttBroker::new(Limits::default());
    let first = plain::let_in(&mut broker, device("d", true), connect("c", false), NOW).unwrap();
    assert_eq!(first.bytes, [0x20, 2, 0, 0]);
    assert!(!first.command_ready);
    let step = plain::on_packet(
        &mut broker,
        &first.endpoint,
        v311::Packet::Subscribe {
            packet_id: 3,
            filters: vec![(DOWN.into(), 1), ("v1/t/t/p/p/d/other/up".into(), 1)],
        },
        NOW,
    );
    assert_eq!(
        step,
        Step::Announce { bytes: vec![0x90, 4, 0, 3, 1, 0x80], command_ready: true }
    );
    assert_eq!(first.endpoint.end(&mut broker, false, NOW), Ok(None));
    let again = plain::let_in(&mut broker, device("d", true), connect("c", false), NOW).unwrap();
    assert_eq!(again.bytes, [0x20, 2, 1, 0]);
    assert!(again.command_ready);
    let step = plain::on_packet(
        &mut broker,
        &again.endpoint,
        v311::Packet::Unsubscribe { packet_id: 4, filters: vec![DOWN.into()] },
        NOW,
    );
    assert_eq!(step, Step::Announce { bytes: vec![0xb0, 2, 0, 4], command_ready: false });
}

#[test]
fn packets_out_of_place_end_the_connection() {
    let mut broker = MqttBroker::new(Limits::default());
    let endpoint = joined(&mut broker, "c");
    let failed = Step::Fail { error: Error::Invalid, reason: DisconnectReason::ProtocolError };
    for packet in [
        v311::Packet::Connect(connect("c", false)),
        v311::Packet::Pingresp,
        v311::Packet::Unsuback(1),
        v311::Packet::Puback(9),
    ] {
        let step = plain::on_packet(&mut broker, &endpoint, packet, NOW);
        assert!(matches!(step, Step::Fail { error: Error::Invalid, .. }));
    }
    let mut other = joined_v5(&mut broker, "n");
    let step = modern::on_packet(
        &mut broker,
        &mut other,
        v5::Packet::Puback { packet_id: 9, reason: 0 },
        NOW,
    );
    assert_eq!(step, failed);
    assert_eq!(
        plain::on_packet(&mut broker, &endpoint, v311::Packet::Pingreq, NOW),
        sent(&[0xd0, 0])
    );
    assert_eq!(
        plain::on_packet(&mut broker, &endpoint, v311::Packet::Disconnect, NOW),
        Step::Close { orderly: true }
    );
}

#[test]
fn a_message_is_routed_before_it_is_handed_on() {
    let mut broker = MqttBroker::new(Limits::default());
    let endpoint = joined(&mut broker, "c");
    let listener = joined(&mut broker, "listener");
    let generation = listener.attachment.generation;
    let receiver = listener.attachment.receiver;
    broker.subscribe(&listener.attachment.key, generation, UP, 0, NOW).unwrap();
    let step = plain::on_packet(&mut broker, &endpoint, publish(UP, b"{}", 1, Some(5)), NOW);
    let Step::Ingest { message, command_ack, pending } = step else {
        panic!("expected the message to be handed on")
    };
    assert_eq!(message.payload, b"{}");
    assert!(!command_ack);
    assert_eq!(pending, Pending::Acknowledge { packet_id: 5 });
    assert!(broker.try_recv(receiver).is_some());
    assert_eq!(
        plain::on_ingested(&mut broker, &endpoint, pending, None, NOW),
        sent(&[0x40, 2, 0, 5])
    );
    assert!(matches!(
        plain::on_ingested(&mut broker, &endpoint, pending, Some(Error::Codec), NOW),
        Step::Fail { error: Error::Codec, .. }
    ));
    let foreign = publish("v1/t/t/p/p/d/other/up", b"{}", 0, None);
    assert!(matches!(
        plain::on_packet(&mut broker, &endpoint, foreign, NOW),
        Step::Fail { error: Error::Forbidden, .. }
    ));
    assert!(broker.try_recv(receiver).is_none());
}

#[test]
fn exactly_once_delivery_goes_through_its_four_packets() {
    let mut broker = MqttBroker::new(Limits::default());
    let endpoint = joined(&mut broker, "c");
    let step = plain::on_packet(&mut broker, &endpoint, publish(UP, b"{}", 2, Some(7)), NOW);
    let Step::Validate { message, command_ack, packet_id } = step else {
        panic!("expected the payload to be looked at")
    };
    assert!(!command_ack);
    assert_eq!(packet_id, 7);
    assert_eq!(
        plain::on_validated(&mut broker, &endpoint, message, 7, None),
        sent(&[0x50, 2, 0, 7])
    );
    assert_eq!(
        plain::on_packet(&mut broker, &endpoint, publish(UP, b"other", 2, Some(7)), NOW),
        sent(&[0x50, 2, 0, 7])
    );
    let step = plain::on_packet(&mut broker, &endpoint, v311::Packet::Pubrel(7), NOW);
    let Step::Ingest { message, pending, .. } = step else {
        panic!("expected the held message")
    };
    assert_eq!(message.payload, b"{}");
    assert_eq!(
        plain::on_packet(&mut broker, &endpoint, v311::Packet::Pubrel(7), NOW),
        Step::Idle
    );
    let failed = plain::on_ingested(&mut broker, &endpoint, pending, Some(Error::Overloaded), NOW);
    assert!(matches!(failed, Step::Fail { error: Error::Overloaded, .. }));
    let step = plain::on_packet(&mut broker, &endpoint, v311::Packet::Pubrel(7), NOW);
    let Step::Ingest { pending, .. } = step else { panic!("expected the message again") };
    assert_eq!(
        plain::on_ingested(&mut broker, &endpoint, pending, None, NOW),
        sent(&[0x70, 2, 0, 7])
    );
    assert_eq!(
        plain::on_packet(&mut broker, &endpoint, v311::Packet::Pubrel(7), NOW),
        sent(&[0x70, 2, 0, 7])
    );
}

#[test]
fn v5_answers_leave_the_receive_window() {
    let mut broker = MqttBroker::new(Limits { max_inflight_qos2_per_session: 1, ..Limits::default() });
    let mut endpoint = joined_v5(&mut broker, "c");
    let step = modern::on_packet(&mut broker, &mut endpoint, publish_v5(UP, b"{}", 2, Some(7)), NOW);
    assert_eq!(step, sent(&[0x50, 2, 0, 7]));
    let step = modern::on_packet(&mut broker, &mut endpoint, publish_v5(UP, b"{}", 2, Some(8)), NOW);
    assert_eq!(
        step,
        Step::Fail { error: Error::Overloaded, reason: DisconnectReason::ReceiveMaximumExceeded }
    );
    let pubrel = v5::Packet::Pubrel { packet_id: 7, reason: 0 };
    let Step::Ingest { pending, .. } = modern::on_packet(&mut broker, &mut endpoint, pubrel, NOW) else {
        panic!("expected the held message")
    };
    assert_eq!(
        modern::on_ingested(&mut broker, &endpoint, pending, None, NOW),
        Step::Settle { bytes: vec![0x70, 2, 0, 7], packet_id: 7 }
    );
    let key = endpoint.attachment.key.clone();
    let generation = endpoint.attachment.generation;
    assert!(!broker.inbound_receive_available(&key, generation, 1, 8).unwrap());
    broker.finish_inbound_pubcomp(&key, generation, 7).unwrap();
    assert!(broker.inbound_receive_available(&key, generation, 1, 8).unwrap());
    let unknown = v5::Packet::Pubrel { packet_id: 9, reason: 0 };
    assert_eq!(
        modern::on_packet(&mut broker, &mut endpoint, unknown, NOW),
        Step::Settle { bytes: vec![0x70, 4, 0, 9, 0x92, 0], packet_id: 9 }
    );
}

#[test]
fn frames_become_packets_of_either_protocol() {
    let mut broker = MqttBroker::new(Limits::default());
    let endpoint = joined(&mut broker, "c");
    let recent = joined_v5(&mut broker, "n");
    for listener in [&endpoint, &recent] {
        broker
            .subscribe(&listener.attachment.key, listener.attachment.generation, UP, 1, NOW)
            .unwrap();
    }
    let message = BrokerMessage {
        topic: UP.into(),
        payload: b"xy".to_vec(),
        qos: 1,
        retain: false,
        properties: netbaiot_mqtt::message::PublishProperties {
            expires_at_ms: Some(NOW + 1_500),
            ..Default::default()
        },
    };
    broker.route(&device("d", true).device_key, message.clone(), NOW).unwrap();
    let mut expected = vec![0x32, 23, 0, 17];
    expected.extend_from_slice(UP.as_bytes());
    expected.extend_from_slice(&[0, 1, b'x', b'y']);
    let frame = broker.try_recv(endpoint.attachment.receiver).unwrap();
    let outgoing = broker
        .prepare_frame(
            &endpoint.attachment.key,
            endpoint.attachment.generation,
            endpoint.attachment.receiver,
            endpoint.wire,
            frame,
            NOW,
        )
        .unwrap()
        .unwrap();
    assert_eq!(outgoing.bytes, expected);
    let used = |broker: &MqttBroker, receiver: u64| {
        broker.links.iter().find(|link| link.receiver == receiver).unwrap().used
    };
    assert!(used(&broker, endpoint.attachment.receiver) > 0);
    let command = broker
        .frame_written(endpoint.attachment.receiver, endpoint.wire, &outgoing, NOW)
        .unwrap();
    assert!(!command);
    assert_eq!(used(&broker, endpoint.attachment.receiver), 0);

    let mut expected = vec![0x32, 29, 0, 17];
    expected.extend_from_slice(UP.as_bytes());
    expected.extend_from_slice(&[0, 1, 5, 0x02, 0, 0, 0, 2, b'x', b'y']);
    let frame = broker.try_recv(recent.attachment.receiver).unwrap();
    let outgoing = broker
        .prepare_frame(
            &recent.attachment.key,
            recent.attachment.generation,
            recent.attachment.receiver,
            recent.wire,
            frame,
            NOW,
        )
        .unwrap()
        .unwrap();
    assert_eq!(outgoing.bytes, expected);
    assert_eq!(used(&broker, recent.attachment.receiver), 0);
    let step = plain::on_packet(&mut broker, &endpoint, v311::Packet::Puback(1), NOW);
    assert_eq!(step, Step::Deliver { frame: None, received: false, more: false });
}

#[test]
fn a_message_too_large_for_the_client_gives_way_to_the_next() {
    let mut broker = MqttBroker::new(Limits::default());
    let mut connect = connect_v5("n", false);
    connect.properties.maximum_packet_size = Some(48);
    let endpoint = modern::let_in(&mut broker, device("d", true), &connect, 1, NOW).unwrap().endpoint;
    let key = endpoint.attachment.key.clone();
    let generation = endpoint.attachment.generation;
    let receiver = endpoint.attachment.receiver;
    broker.subscribe(&key, generation, UP, 1, NOW).unwrap();
    for payload in [vec![0; 64], b"small".to_vec()] {
        let message = BrokerMessage {
            topic: UP.into(),
            payload,
            qos: 1,
            retain: false,
            properties: Default::default(),
        };
        broker.route(&device("d", true).device_key, message, NOW).unwrap();
    }
    let frame = broker.try_recv(receiver).unwrap();
    let first =
        broker.prepare_frame(&key, generation, receiver, endpoint.wire, frame, NOW).unwrap();
    assert_eq!(first, None);
    let frame = broker.try_recv(receiver).unwrap();
    let second =
        broker.prepare_frame(&key, generation, receiver, endpoint.wire, frame, NOW).unwrap().unwrap();
    assert!(second.bytes.ends_with(b"small"));
    assert_eq!(broker.sessions[0].outbound.len(), 1);
}

#[test]
fn any_number_of_messages_too_large_for_the_client_give_way() {
    let mut broker = MqttBroker::new(Limits::default());
    let mut connect = connect_v5("n", false);
    connect.properties.maximum_packet_size = Some(48);
    connect.properties.receive_maximum = Some(1);
    let endpoint = modern::let_in(&mut broker, device("d", true), &connect, 1, NOW).unwrap().endpoint;
    let key = endpoint.attachment.key.clone();
    let generation = endpoint.attachment.generation;
    let receiver = endpoint.attachment.receiver;
    broker.subscribe(&key, generation, UP, 1, NOW).unwrap();
    for number in 0..41u8 {
        let payload = if number < 40 { vec![number; 64] } else { b"small".to_vec() };
        let message = BrokerMessage {
            topic: UP.into(),
            payload,
            qos: 1,
            retain: false,
            properties: Default::default(),
        };
        broker.route(&device("d", true).device_key, message, NOW).unwrap();
    }
    assert_eq!(broker.sessions[0].offline.len(), 40);
    let mut written = None;
    while let Some(frame) = broker.try_recv(receiver) {
        written =
            broker.prepare_frame(&key, generation, receiver, endpoint.wire, frame, NOW).unwrap();
        if written.is_some() {
            break;
        }
    }
    assert!(written.unwrap().bytes.ends_with(b"small"));
    assert_eq!(broker.sessions[0].offline.len(), 0);
    assert_eq!(broker.sessions[0].outbound.len(), 1);
}

#[test]
fn the_endpoint_keeps_the_whole_authentication() {
    let mut broker = MqttBroker::new(Limits::default());
    let mut auth = device("d", true);
    auth.credential_version = 7;
    auth.auth_generation = 8;
    auth.codec_version = 9;
    let plain = plain::let_in(&mut broker, auth.clone(), connect("c", false), NOW).unwrap();
    assert_eq!(plain.endpoint.auth, auth);
    let recent = modern::let_in(&mut broker, auth.clone(), &connect_v5("n", false), 1, NOW);
    assert_eq!(recent.unwrap().endpoint.auth, auth);
}

#[test]
fn an_expired_frame_is_not_written() {
    let mut broker = MqttBroker::new(Limits::default());
    let endpoint = joined(&mut broker, "c");
    let key = endpoint.attachment.key.clone();
    let generation = endpoint.attachment.generation;
    let receiver = endpoint.attachment.receiver;
    broker.subscribe(&key, generation, UP, 0, NOW).unwrap();
    let message = BrokerMessage {
        topic: UP.into(),
        payload: b"x".to_vec(),
        qos: 0,
        retain: false,
        properties: netbaiot_mqtt::message::PublishProperties {
            expires_at_ms: Some(NOW + 10),
            ..Default::default()
        },
    };
    broker.route(&device("d", true).device_key, message, NOW).unwrap();
    let frame = broker.try_recv(receiver).unwrap();
    let prepared =
        broker.prepare_frame(&key, generation, receiver, endpoint.wire, frame, NOW + 10).unwrap();
    assert_eq!(prepared, None);
    assert_eq!(broker.links[0].used, 0);
}

#[test]
fn commands_go_where_the_device_listens() {
    let mut broker = MqttBroker::new(Limits::default());
    let endpoint = joined(&mut broker, "c");
    let recent = joined_v5(&mut broker, "n");
    let command = b"go".to_vec();
    assert_eq!(
        endpoint.command(&mut broker, command.clone(), NOW, NOW),
        Ok(CommandFate::Expired)
    );
    assert_eq!(
        endpoint.command(&mut broker, command.clone(), NOW + 1, NOW),
        Ok(CommandFate::Undeliverable)
    );
    assert!(recent.command(&mut broker, command.clone(), NOW + 1, NOW).is_err());
    let key = endpoint.attachment.key.clone();
    let generation = endpoint.attachment.generation;
    let receiver = endpoint.attachment.receiver;
    broker.subscribe(&key, generation, DOWN, 1, NOW).unwrap();
    assert!(endpoint.accepts_commands(&broker));
    assert_eq!(
        endpoint.command(&mut broker, command.clone(), NOW + 1, NOW),
        Ok(CommandFate::Queued)
    );
    let Some(BrokerFrame::Publish(delivery)) = broker.try_recv(receiver) else {
        panic!("expected the command")
    };
    assert_eq!(delivery.message.payload, command);
    assert!(delivery.command);
    let step = plain::on_packet(
        &mut broker,
        &endpoint,
        v311::Packet::Puback(delivery.packet_id.unwrap()),
        NOW,
    );
    assert_eq!(step, Step::Deliver { frame: None, received: true, more: false });
}

#[test]
fn a_will_is_published_unless_the_end_is_orderly() {
    let mut broker = MqttBroker::new(Limits::default());
    let wilful = || {
        let mut connect = connect("c", true);
        connect.will = Some(v311::Will {
            topic: UP.into(),
            payload: Bytes::from_static(b"gone"),
            qos: 1,
            retain: true,
        });
        connect
    };
    let endpoint =
        plain::let_in(&mut broker, device("d", true), wilful(), NOW).unwrap().endpoint;
    assert_eq!(endpoint.end(&mut broker, true, NOW), Ok(None));
    assert!(!broker.has_retained_topic(UP, NOW));
    let endpoint =
        plain::let_in(&mut broker, device("d", true), wilful(), NOW).unwrap().endpoint;
    let published = endpoint.end(&mut broker, false, NOW).unwrap().unwrap();
    assert_eq!(published.payload, b"gone");
    assert!(broker.has_retained_topic(UP, NOW));
    assert!(broker.links.is_empty());
    assert!(broker.guards.is_empty());
    assert!(broker.sessions.is_empty());
}

#[test]
fn a_v5_goodbye_may_keep_the_will_and_change_the_expiry() {
    let mut broker = MqttBroker::new(Limits::default());
    let mut connect = connect_v5("c", false);
    connect.will = Some(v5::Will {
        topic: UP.into(),
        payload: Bytes::from_static(b"gone"),
        qos: 1,
        retain: true,
        properties: v5::Properties {
            will_delay: Some(30),
            message_expiry: Some(5),
            ..Default::default()
        },
    });
    let mut endpoint =
        modern::let_in(&mut broker, device("d", true), &connect, 1, NOW).unwrap().endpoint;
    let goodbye = v5::Packet::Disconnect {
        reason: 4,
        properties: v5::Properties { session_expiry: Some(10), ..Default::default() },
    };
    assert_eq!(
        modern::on_packet(&mut broker, &mut endpoint, goodbye, NOW),
        Step::Close { orderly: false }
    );
    assert_eq!(endpoint.end(&mut broker, false, NOW), Ok(None));
    assert_eq!(broker.future_wills.len(), 1);
    assert_eq!(broker.future_wills[0].due_at_ms, Some(NOW + 10_000));
    broker.tick(NOW + 10_000).unwrap();
    assert!(broker.has_retained_topic(UP, NOW + 10_000));
    assert_eq!(broker.retained[0].message.properties.expires_at_ms, Some(NOW + 15_000));
}

#[test]
fn a_v5_client_without_a_name_is_given_one() {
    let mut broker = MqttBroker::new(Limits::default());
    let mut connect = connect_v5("", true);
    connect.properties.maximum_packet_size = Some(16);
    assert!(matches!(
        modern::let_in(&mut broker, device("d", true), &connect, 41, NOW),
        Err(Error::Overloaded)
    ));
    assert!(broker.sessions.is_empty());
    connect.properties.maximum_packet_size = None;
    let welcome = modern::let_in(&mut broker, device("d", true), &connect, 41, NOW).unwrap();
    assert_eq!(welcome.endpoint.attachment.key.client_id, "generated-41");
    assert!(welcome.bytes.windows(12).any(|part| part == b"generated-41"));
    assert_eq!(
        welcome.endpoint.wire,
        Wire { version: MqttVersion::V5, maximum: u32::MAX as usize }
    );
}

#[test]
fn v5_subscriptions_are_answered_one_by_one() {
    let mut broker = MqttBroker::new(Limits::default());
    let mut endpoint = joined_v5(&mut broker, "c");
    let options = SubscriptionOptions {
        qos: 2,
        no_local: false,
        retain_as_published: false,
        retain_handling: 0,
    };
    let subscribe = v5::Packet::Subscribe {
        packet_id: 3,
        filters: vec![(UP.into(), options), ("v1/t/t/p/p/d/other/#".into(), options)],
        properties: Default::default(),
    };
    assert_eq!(
        modern::on_packet(&mut broker, &mut endpoint, subscribe, NOW),
        sent(&[0x90, 5, 0, 3, 0, 2, 0x87])
    );
    let unsubscribe = v5::Packet::Unsubscribe {
        packet_id: 4,
        filters: vec![UP.into(), UP.into()],
        properties: Default::default(),
    };
    assert_eq!(
        modern::on_packet(&mut broker, &mut endpoint, unsubscribe, NOW),
        sent(&[0xb0, 5, 0, 4, 0, 0, 0x11])
    );
    endpoint.wire.maximum = 3;
    let ping = modern::on_packet(&mut broker, &mut endpoint, v5::Packet::Pingreq, NOW);
    assert_eq!(ping, sent(&[0xd0, 0]));
    endpoint.wire.maximum = 1;
    let ping = modern::on_packet(&mut broker, &mut endpoint, v5::Packet::Pingreq, NOW);
    assert_eq!(
        ping,
        Step::Fail { error: Error::Overloaded, reason: DisconnectReason::PacketTooLarge }
    );
    assert_eq!(modern::farewell(DisconnectReason::SessionTakenOver, 4), Some(vec![0xe0, 2, 0x8e, 0]));
    assert_eq!(modern::farewell(DisconnectReason::SessionTakenOver, 3), None);
}

#[test]
fn clearing_messages_are_not_evaluated() {
    let auth = device("d", true);
    let mut message = BrokerMessage {
        topic: UP.into(),
        payload: b"x".to_vec(),
        qos: 0,
        retain: true,
        properties: Default::default(),
    };
    assert_eq!(device_event(&auth, &message), Ok(Some(false)));
    message.payload.clear();
    assert_eq!(device_event(&auth, &message), Ok(None));
    message.retain = false;
    message.topic = "v1/t/t/p/p/d/d/down_ack".into();
    assert_eq!(device_event(&auth, &message), Ok(Some(true)));
    message.topic = DOWN.into();
    assert_eq!(device_event(&auth, &message), Err(Error::Forbidden));
}
