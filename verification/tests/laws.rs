use bytes::BytesMut;
use netbaiot_mqtt::broker::attach::Attachment;
use netbaiot_mqtt::broker::inbound::InboundQos2Action;
use netbaiot_mqtt::broker::state::{BrokerFrame, MqttBroker};
use netbaiot_mqtt::codec::{v311, v5};
use netbaiot_mqtt::connection::step::Step;
use netbaiot_mqtt::connection::{v311 as plain, v5 as modern};
use netbaiot_mqtt::error::Error;
use netbaiot_mqtt::identity::{
    AuthInvalidation, AuthenticatedDevice, CodecId, DeviceId, DeviceKey, Permissions, ProductId,
    SessionKey, TenantId,
};
use netbaiot_mqtt::limits::Limits;
use netbaiot_mqtt::message::BrokerMessage;
use netbaiot_mqtt::recovery::image::{decode_mqtt_recovery, MqttRecoveryImage};
use netbaiot_mqtt::session::StoredSession;
use netbaiot_mqtt::topics::{publish_acl, subscribe_acl};
use sha2::{Digest, Sha256};

const NOW: i64 = 1_700_000_000_000;

fn device(name: &str) -> AuthenticatedDevice {
    AuthenticatedDevice {
        device_key: DeviceKey {
            tenant_id: TenantId::new("t").unwrap(),
            product_id: ProductId::new("p").unwrap(),
            device_id: DeviceId::new(name).unwrap(),
        },
        credential_version: 1,
        auth_generation: 1,
        codec_id: CodecId::new("json").unwrap(),
        codec_version: 1,
        permissions: Permissions { publish: true, commands: true },
    }
}

fn root(name: &str, rest: &str) -> String {
    format!("v1/t/t/p/p/d/{name}/{rest}")
}

fn message(topic: &str, payload: &[u8], qos: u8) -> BrokerMessage {
    BrokerMessage {
        topic: topic.into(),
        payload: payload.to_vec(),
        qos,
        retain: false,
        properties: Default::default(),
    }
}

fn join(broker: &mut MqttBroker, name: &str, clean: bool) -> Attachment {
    broker.attach(&device(name), name.into(), clean, NOW).unwrap()
}

/// Everything of a broker that a refused request must leave alone.
fn picture(broker: &MqttBroker) -> String {
    format!(
        "{:?} {:?} {:?} {:?} {:?} {:?} {:?} {:?} {} {}",
        broker.sessions,
        broker.links,
        broker.trie,
        broker.retained,
        broker.pending_wills,
        broker.future_wills,
        broker.guards,
        broker.pending,
        broker.generation,
        broker.operation_id,
    )
}

fn session<'a>(broker: &'a MqttBroker, key: &SessionKey) -> Option<&'a StoredSession> {
    broker.sessions.iter().find(|session| session.key == *key)
}

fn topics(broker: &mut MqttBroker, client: &Attachment) -> Vec<(String, u8)> {
    let mut seen = Vec::new();
    while let Some(frame) = broker.try_recv(client.receiver) {
        broker.release_frame(client.receiver, &frame);
        if let BrokerFrame::Publish(delivery) = frame {
            seen.push((delivery.message.topic.clone(), delivery.message.qos));
        }
    }
    seen
}

#[test]
fn a_connection_that_was_replaced_changes_nothing() {
    let mut broker = MqttBroker::new(Limits::default());
    let stale = join(&mut broker, "a", false);
    let newest = join(&mut broker, "a", false);
    assert!(newest.session_present);
    assert!(newest.generation != stale.generation);
    let key = stale.key.clone();
    let before = picture(&broker);
    let other = message(&root("a", "down"), b"x", 1);
    assert_eq!(broker.puback(&key, stale.generation, 1, NOW), Err(Error::Conflict));
    assert_eq!(broker.pubcomp(&key, stale.generation, 1, NOW), Err(Error::Conflict));
    assert!(broker.pubrec(&key, stale.generation, 1).is_err());
    assert!(broker.send_live(&key, stale.generation, other, NOW).is_err());
    assert!(broker.next_offline(&key, stale.generation, NOW).is_err());
    assert!(broker.unsubscribe(&key, stale.generation, &root("a", "down"), NOW).is_err());
    assert!(broker.subscribe(&key, stale.generation, &root("a", "down"), 1, NOW).is_err());
    assert!(broker.inbound_qos2(&key, stale.generation, 1, message("x", b"x", 2)).is_err());
    assert!(broker.detach(&key, stale.generation, true, NOW).is_ok());
    assert_eq!(picture(&broker), before);
}

#[test]
fn an_acknowledgement_that_nobody_waits_for_changes_nothing() {
    let mut broker = MqttBroker::new(Limits::default());
    let a = join(&mut broker, "a", false);
    let filter = root("a", "down");
    broker.subscribe(&a.key, a.generation, &filter, 2, NOW).unwrap();
    broker.route_from_session(&a.key, message(&filter, b"x", 2), NOW).unwrap();
    let before = picture(&broker);
    assert_eq!(broker.puback(&a.key, a.generation, 1, NOW), Err(Error::Invalid));
    assert_eq!(broker.pubcomp(&a.key, a.generation, 1, NOW), Err(Error::Invalid));
    assert_eq!(broker.puback(&a.key, a.generation, 9, NOW), Err(Error::Invalid));
    assert_eq!(picture(&broker), before);
    broker.pubrec(&a.key, a.generation, 1).unwrap();
    assert_eq!(broker.pubcomp(&a.key, a.generation, 1, NOW), Ok(false));
}

#[test]
fn a_refused_publication_reaches_nobody() {
    let limits = Limits { max_offline_messages_per_session: 1, ..Limits::default() };
    let mut broker = MqttBroker::new(limits);
    let topic = root("s", "up");
    let reachable = join(&mut broker, "a", false);
    broker.subscribe(&reachable.key, reachable.generation, &topic, 1, NOW).unwrap();
    let away = join(&mut broker, "b", false);
    broker.subscribe(&away.key, away.generation, &topic, 1, NOW).unwrap();
    broker.detach(&away.key, away.generation, false, NOW).unwrap();
    let sender = join(&mut broker, "s", false);
    let send = |broker: &mut MqttBroker| {
        let mut retained = message(&topic, b"x", 1);
        retained.retain = true;
        broker.route_from_session(&sender.key, retained, NOW)
    };
    assert_eq!(send(&mut broker), Ok(2));
    assert_eq!(topics(&mut broker, &reachable), vec![(topic.clone(), 1)]);
    let before = picture(&broker);
    assert_eq!(send(&mut broker), Err(Error::Overloaded));
    assert_eq!(picture(&broker), before);
    assert!(topics(&mut broker, &reachable).is_empty());
}

#[test]
fn a_topic_finds_those_with_a_matching_filter_at_the_better_quality() {
    let mut broker = MqttBroker::new(Limits::default());
    let a = join(&mut broker, "a", false);
    let b = join(&mut broker, "b", false);
    broker.subscribe(&a.key, a.generation, "x/+", 0, NOW).unwrap();
    broker.subscribe(&a.key, a.generation, "x/#", 1, NOW).unwrap();
    broker.subscribe(&b.key, b.generation, "y/#", 2, NOW).unwrap();
    assert_eq!(broker.matching_subscription_count("x/1"), 1);
    assert_eq!(broker.matching_subscription_count("z"), 0);
    assert_eq!(broker.route_from_session(&b.key, message("x/1", b"m", 2), NOW), Ok(1));
    assert_eq!(topics(&mut broker, &a), vec![("x/1".to_string(), 1)]);
    assert!(topics(&mut broker, &b).is_empty());
    broker.unsubscribe(&a.key, a.generation, "x/#", NOW).unwrap();
    assert_eq!(broker.route_from_session(&b.key, message("x/1", b"m", 2), NOW), Ok(1));
    assert_eq!(topics(&mut broker, &a), vec![("x/1".to_string(), 0)]);
    broker.unsubscribe(&a.key, a.generation, "x/+", NOW).unwrap();
    assert_eq!(broker.matching_subscription_count("x/1"), 0);
}

#[test]
fn the_newest_connection_finds_what_was_subscribed_unless_it_starts_afresh() {
    let mut broker = MqttBroker::new(Limits::default());
    let first = join(&mut broker, "a", false);
    assert!(!first.session_present);
    broker.subscribe(&first.key, first.generation, "x", 1, NOW).unwrap();
    let second = join(&mut broker, "a", false);
    assert!(second.session_present);
    assert!(broker.is_cancelled(first.receiver));
    assert_eq!(broker.subscription_qos(&second.key, "x"), Some(1));
    broker.detach(&second.key, second.generation, false, NOW).unwrap();
    assert_eq!(broker.subscription_qos(&second.key, "x"), Some(1));
    let third = join(&mut broker, "a", true);
    assert!(!third.session_present);
    assert_eq!(broker.subscription_qos(&third.key, "x"), None);
    broker.detach(&third.key, third.generation, true, NOW).unwrap();
    assert!(session(&broker, &third.key).is_none());
    assert!(broker.session_expiry.table.entries.is_empty());
}

#[test]
fn withdrawn_authorizations_end_their_sessions_and_no_others() {
    let mut broker = MqttBroker::new(Limits::default());
    let a = join(&mut broker, "a", false);
    let b = join(&mut broker, "b", false);
    broker.subscribe(&a.key, a.generation, "x", 1, NOW).unwrap();
    broker.subscribe(&b.key, b.generation, "x", 1, NOW).unwrap();
    let gone = AuthInvalidation::Device { device: device("a").device_key };
    assert_eq!(broker.invalidate_sessions(&gone, NOW), Ok(1));
    assert!(session(&broker, &a.key).is_none());
    assert!(broker.is_cancelled(a.receiver));
    assert_eq!(broker.matching_subscription_count("x"), 1);
    assert_eq!(broker.subscription_qos(&b.key, "x"), Some(1));
    assert_eq!(broker.invalidate_sessions(&gone, NOW), Ok(0));
}

#[test]
fn a_suppressed_will_leaves_nothing_and_a_settled_one_is_gone() {
    let mut broker = MqttBroker::new(Limits::default());
    let before = picture(&broker);
    let will = message(&root("a", "up"), b"gone", 1);
    let mut guard = broker.reserve_will(device("a").device_key, will.clone()).unwrap();
    guard.suppress(&mut broker);
    assert_eq!(picture(&broker), before);
    let mut guard = broker.reserve_will(device("a").device_key, will).unwrap();
    guard.arm(&mut broker);
    let token = guard.token;
    assert_eq!(guard.publish(&mut broker, NOW).unwrap().payload, b"gone".to_vec());
    assert!(broker.guards.is_empty());
    assert_eq!(broker.settle_will(token, NOW).err(), Some(Error::Conflict));
    assert_eq!(picture(&broker), before);
}

#[test]
fn a_due_will_waits_until_there_is_room() {
    let limits = Limits { max_offline_messages_per_session: 1, ..Limits::default() };
    let mut broker = MqttBroker::new(limits);
    let topic = root("a", "up");
    let away = join(&mut broker, "b", false);
    broker.subscribe(&away.key, away.generation, &topic, 1, NOW).unwrap();
    broker.detach(&away.key, away.generation, false, NOW).unwrap();
    let sender = join(&mut broker, "a", false);
    broker.route_from_session(&sender.key, message(&topic, b"first", 1), NOW).unwrap();
    let mut guard =
        broker.reserve_will(device("a").device_key, message(&topic, b"will", 1)).unwrap();
    guard.arm(&mut broker);
    guard.publish(&mut broker, NOW).unwrap();
    assert_eq!(broker.pending_will_count(), 1);
    broker.tick(NOW).unwrap();
    assert_eq!(broker.pending_will_count(), 1);
    let back = join(&mut broker, "b", false);
    assert_eq!(topics(&mut broker, &back).len(), 1);
    broker.puback(&back.key, back.generation, 1, NOW).unwrap();
    assert_eq!(broker.pending_will_count(), 0);
    assert_eq!(topics(&mut broker, &back), vec![(topic, 1)]);
}

#[test]
fn a_released_message_is_given_to_one_operation_at_a_time() {
    let mut broker = MqttBroker::new(Limits::default());
    let a = join(&mut broker, "a", false);
    let (key, generation) = (a.key.clone(), a.generation);
    let held = message(&root("a", "up"), b"m", 2);
    assert_eq!(broker.inbound_qos2(&key, generation, 7, held.clone()), Ok(true));
    assert_eq!(broker.inbound_qos2(&key, generation, 7, held.clone()), Ok(false));
    let (incarnation, operation) =
        match broker.begin_inbound_qos2_delivery(&key, generation, 7).unwrap() {
            InboundQos2Action::Deliver { message, session_incarnation, operation_id } => {
                assert_eq!(message, held);
                (session_incarnation, operation_id)
            }
            other => panic!("{other:?}"),
        };
    assert_eq!(
        broker.begin_inbound_qos2_delivery(&key, generation, 7),
        Ok(InboundQos2Action::DeliveryInProgress)
    );
    assert_eq!(
        broker.finish_inbound_qos2_delivery(&key, incarnation, 7, operation + 9),
        Err(Error::Conflict)
    );
    broker.abandon_inbound_qos2_delivery(&key, incarnation, 7, operation).unwrap();
    let operation = match broker.begin_inbound_qos2_delivery(&key, generation, 7).unwrap() {
        InboundQos2Action::Deliver { operation_id, .. } => operation_id,
        other => panic!("{other:?}"),
    };
    broker.finish_inbound_qos2_delivery(&key, incarnation, 7, operation).unwrap();
    broker.finish_inbound_qos2_delivery(&key, incarnation, 7, operation).unwrap();
    assert_eq!(
        broker.abandon_inbound_qos2_delivery(&key, incarnation, 7, operation),
        Err(Error::Conflict)
    );
    assert!(matches!(
        broker.begin_inbound_qos2_delivery(&key, generation, 7),
        Ok(InboundQos2Action::EventAccepted { .. })
    ));
}

#[test]
fn devices_do_not_share_topics() {
    let limits = Limits::default();
    let (a, ab) = (device("a"), device("ab"));
    assert!(publish_acl(&a, &root("a", "up")).is_ok());
    assert!(publish_acl(&ab, &root("a", "up")).is_err());
    assert!(publish_acl(&a, &root("ab", "up")).is_err());
    assert!(subscribe_acl(&a, &root("a", "#"), &limits));
    assert!(!subscribe_acl(&a, &root("ab", "#"), &limits));
    assert!(!subscribe_acl(&ab, &root("a", "#"), &limits));
    assert!(!subscribe_acl(&a, "v1/t/t/p/p/d/+/up", &limits));
    assert!(!subscribe_acl(&a, "v1/t/t/p/p/d/a/", &limits));
}

#[test]
fn a_publication_without_permission_changes_nothing() {
    let mut broker = MqttBroker::new(Limits::default());
    let greeting = v311::Connect {
        client_id: "c".into(),
        username: Some("u".into()),
        password: Some(b"secret".to_vec()),
        keep_alive: 30,
        clean_session: false,
        will: None,
    };
    let endpoint = plain::let_in(&mut broker, device("a"), greeting, NOW).unwrap().endpoint;
    let before = picture(&broker);
    for qos in 0..3u8 {
        let packet = v311::Packet::Publish {
            topic: root("b", "up"),
            payload: bytes::Bytes::from_static(b"x"),
            qos,
            packet_id: if qos > 0 { Some(1) } else { None },
            retain: true,
            dup: false,
        };
        let step = plain::on_packet(&mut broker, &endpoint, packet, NOW);
        assert!(matches!(step, Step::Fail { error: Error::Forbidden, .. }));
        assert_eq!(picture(&broker), before);
    }
    let mut broker = MqttBroker::new(Limits::default());
    let greeting = v5::Connect {
        client_id: "c".into(),
        username: Some("u".into()),
        password: Some(bytes::Bytes::from_static(b"secret")),
        keep_alive: 30,
        clean_start: true,
        properties: Default::default(),
        will: None,
    };
    let mut endpoint =
        modern::let_in(&mut broker, device("a"), &greeting, 1, NOW).unwrap().endpoint;
    let before = picture(&broker);
    for qos in 0..3u8 {
        let packet = v5::Packet::Publish {
            topic: root("b", "up"),
            payload: bytes::Bytes::from_static(b"x"),
            qos,
            packet_id: if qos > 0 { Some(1) } else { None },
            retain: true,
            dup: false,
            properties: Default::default(),
        };
        let step = modern::on_packet(&mut broker, &mut endpoint, packet, NOW);
        assert!(matches!(step, Step::Fail { error: Error::Forbidden, .. }));
        assert_eq!(picture(&broker), before);
    }
}

#[test]
fn an_image_of_the_first_version_gives_its_payload_back() {
    let limits = Limits::default();
    let payload = b"{\"sessions\":[]}".to_vec();
    let mut image = b"NBMQ".to_vec();
    image.extend_from_slice(&1u32.to_be_bytes());
    image.extend_from_slice(&42u64.to_be_bytes());
    image.extend_from_slice(&(payload.len() as u32).to_be_bytes());
    image.extend_from_slice(&payload);
    image.extend_from_slice(&Sha256::digest(&payload));
    match decode_mqtt_recovery(&image, &limits) {
        Ok(MqttRecoveryImage::Legacy { generation, payload: found }) => {
            assert_eq!(generation, 42);
            assert_eq!(found, payload);
        }
        _ => panic!("not read"),
    }
    let last = image.len() - 1;
    image[last] ^= 1;
    assert_eq!(decode_mqtt_recovery(&image, &limits).err(), Some(Error::Invalid));
    image[last] ^= 1;
    image.push(0);
    assert_eq!(decode_mqtt_recovery(&image, &limits).err(), Some(Error::Invalid));
    assert_eq!(decode_mqtt_recovery(&image[..51], &limits).err(), Some(Error::Invalid));
}

#[test]
fn nothing_outgrows_its_bound() {
    let limits = Limits {
        max_persistent_sessions: 2,
        max_subscriptions_per_session: 1,
        max_subscriptions: 1,
        max_outbound_messages_per_connection: 2,
        ..Limits::default()
    };
    let mut broker = MqttBroker::new(limits);
    let a = join(&mut broker, "a", false);
    let b = join(&mut broker, "b", false);
    assert_eq!(
        broker.attach(&device("c"), "c".into(), false, NOW).err(),
        Some(Error::Overloaded)
    );
    assert_eq!(broker.sessions.len(), 2);
    broker.subscribe(&a.key, a.generation, "x", 0, NOW).unwrap();
    assert_eq!(
        broker.subscribe(&a.key, a.generation, "y", 0, NOW),
        Err(Error::Overloaded)
    );
    assert_eq!(
        broker.subscribe(&b.key, b.generation, "x", 0, NOW),
        Err(Error::Overloaded)
    );
    assert_eq!(broker.matching_subscription_count("x"), 1);
    for round in 0..4usize {
        let delivered = broker.route_from_session(&b.key, message("x", b"m", 0), NOW);
        assert_eq!(delivered, Ok(if round < 2 { 1 } else { 0 }));
        assert!(broker.links.iter().all(|link| link.queue.len() <= 2));
    }
    assert_eq!(topics(&mut broker, &a).len(), 2);
    assert!(broker.links.iter().all(|link| link.used == 0));
}

#[test]
fn what_waits_and_what_is_retained_stay_within_their_bounds() {
    let limits = Limits {
        max_inflight_qos1_per_tenant: 1,
        max_offline_messages_per_session: 2,
        max_retained_messages: 1,
        ..Limits::default()
    };
    let mut broker = MqttBroker::new(limits);
    let a = join(&mut broker, "a", false);
    let b = join(&mut broker, "b", false);
    broker.subscribe(&a.key, a.generation, "x", 1, NOW).unwrap();
    for round in 0..5usize {
        let delivered = broker.route_from_session(&b.key, message("x", b"m", 1), NOW);
        assert_eq!(delivered, if round < 3 { Ok(1) } else { Err(Error::Overloaded) });
        let held = session(&broker, &a.key).unwrap();
        assert_eq!(held.outbound.len(), 1);
        assert_eq!(held.offline.len(), if round < 2 { round } else { 2 });
    }
    let kept = BrokerMessage { retain: true, ..message("k/1", b"m", 0) };
    assert_eq!(broker.route_from_session(&b.key, kept.clone(), NOW), Ok(0));
    assert_eq!(broker.route_from_session(&b.key, kept, NOW), Ok(0));
    let more = BrokerMessage { retain: true, ..message("k/2", b"m", 0) };
    assert_eq!(
        broker.route_from_session(&b.key, more, NOW),
        Err(Error::Overloaded)
    );
    assert_eq!(broker.retained.len(), 1);
    let gone = BrokerMessage { retain: true, ..message("k/1", b"", 0) };
    assert_eq!(broker.route_from_session(&b.key, gone, NOW), Ok(0));
    assert_eq!(broker.retained.len(), 0);
}

#[test]
fn acknowledgements_survive_the_wire() {
    let limits = Limits::default();
    for (first, id) in [(0x40u8, 1u16), (0x50, 2), (0x62, 0x1234), (0x70, u16::MAX)] {
        let mut wire = BytesMut::from(v311::ack(first, id).as_slice());
        wire.extend_from_slice(&[0xc0]);
        let packet = v311::decode(&mut wire, &limits).unwrap().unwrap();
        assert!(match packet {
            v311::Packet::Puback(seen) => first == 0x40 && seen == id,
            v311::Packet::Pubrec(seen) => first == 0x50 && seen == id,
            v311::Packet::Pubrel(seen) => first == 0x62 && seen == id,
            v311::Packet::Pubcomp(seen) => first == 0x70 && seen == id,
            _ => false,
        });
        assert_eq!(wire.as_ref(), &[0xc0]);
    }
    let in_use = v5::AckReason::Pubrec(v5::PubrecReason::PacketIdentifierInUse);
    let mut wire = BytesMut::from(v5::ack(in_use, 7, 100).unwrap().as_slice());
    assert_eq!(wire.as_ref(), &[0x50, 4, 0, 7, 0x91, 0]);
    assert!(matches!(
        v5::decode(&mut wire, &limits),
        Ok(Some(v5::Packet::Pubrec { packet_id: 7, reason: 0x91 }))
    ));
    let done = v5::AckReason::Pubcomp(v5::PubcompReason::Success);
    let mut wire = BytesMut::from(v5::ack(done, 9, 100).unwrap().as_slice());
    assert_eq!(wire.as_ref(), &[0x70, 2, 0, 9]);
    assert!(matches!(
        v5::decode(&mut wire, &limits),
        Ok(Some(v5::Packet::Pubcomp { packet_id: 9, reason: 0 }))
    ));
}

#[test]
fn what_waited_follows_what_was_unfinished() {
    let mut broker = MqttBroker::new(Limits::default());
    let a = join(&mut broker, "a", false);
    let b = join(&mut broker, "b", false);
    broker.subscribe(&a.key, a.generation, "x", 2, NOW).unwrap();
    for (number, qos) in [(1u8, 1u8), (2, 2), (3, 1)] {
        broker.route_from_session(&b.key, message("x", &[number], qos), NOW).unwrap();
    }
    broker.detach(&a.key, a.generation, false, NOW).unwrap();
    for (number, qos) in [(4u8, 2u8), (5, 1)] {
        broker.route_from_session(&b.key, message("x", &[number], qos), NOW).unwrap();
    }
    let again = join(&mut broker, "a", false);
    let mut seen = Vec::new();
    while let Some(frame) = broker.try_recv(again.receiver) {
        if let BrokerFrame::Publish(delivery) = frame {
            seen.push((delivery.message.payload[0], delivery.packet_id, delivery.dup));
        }
    }
    assert_eq!(
        seen,
        vec![
            (1, Some(1), true),
            (2, Some(2), true),
            (3, Some(3), true),
            (4, Some(4), false),
            (5, Some(5), false),
        ]
    );
}

#[test]
fn unsubscribing_undoes_what_subscribing_did() {
    let mut broker = MqttBroker::new(Limits::default());
    let a = join(&mut broker, "a", false);
    broker.subscribe(&a.key, a.generation, "x/+", 1, NOW).unwrap();
    let usage = broker.usage();
    let before = picture(&broker);
    assert_eq!(broker.subscribe(&a.key, a.generation, "x/#", 2, NOW), Ok(2));
    assert_eq!(broker.subscription_qos(&a.key, "x/y"), Some(2));
    assert_eq!(broker.matching_subscription_count("x/y/z"), 1);
    assert_ne!(broker.usage(), usage);
    assert_eq!(broker.unsubscribe(&a.key, a.generation, "x/#", NOW), Ok(true));
    assert_eq!(broker.usage(), usage);
    assert_eq!(broker.subscription_qos(&a.key, "x/y"), Some(1));
    assert_eq!(broker.matching_subscription_count("x/y"), 1);
    assert_eq!(broker.matching_subscription_count("x/y/z"), 0);
    assert_eq!(picture(&broker), before);
    assert_eq!(broker.unsubscribe(&a.key, a.generation, "x/#", NOW), Ok(false));
    assert_eq!(picture(&broker), before);
}

#[test]
fn a_taken_message_is_routed_once_and_stays_while_there_is_no_room() {
    let limits = Limits { max_offline_messages_per_session: 1, ..Limits::default() };
    let mut broker = MqttBroker::new(limits);
    let topic = root("a", "up");
    let away = join(&mut broker, "b", false);
    broker.subscribe(&away.key, away.generation, &topic, 1, NOW).unwrap();
    broker.detach(&away.key, away.generation, false, NOW).unwrap();
    let a = join(&mut broker, "a", false);
    let owner = device("a").device_key;
    broker.route_from_session(&a.key, message(&topic, b"first", 1), NOW).unwrap();
    let mut taken = message(&topic, b"m", 2);
    taken.retain = true;
    assert_eq!(broker.inbound_qos2(&a.key, a.generation, 7, taken), Ok(true));
    let (incarnation, operation) =
        match broker.begin_inbound_qos2_delivery(&a.key, a.generation, 7).unwrap() {
            InboundQos2Action::Deliver { session_incarnation, operation_id, .. } => {
                (session_incarnation, operation_id)
            }
            other => panic!("{other:?}"),
        };
    let early = picture(&broker);
    assert_eq!(
        broker.route_inbound_qos2(&a.key, incarnation, 7, operation, &owner, NOW),
        Err(Error::Conflict)
    );
    assert_eq!(picture(&broker), early);
    broker.finish_inbound_qos2_delivery(&a.key, incarnation, 7, operation).unwrap();
    let before = picture(&broker);
    for (life, by) in [(incarnation, operation + 1), (incarnation + 1, operation)] {
        assert_eq!(
            broker.route_inbound_qos2(&a.key, life, 7, by, &owner, NOW),
            Err(Error::Conflict)
        );
    }
    assert_eq!(
        broker.route_inbound_qos2(&a.key, incarnation, 7, operation, &owner, NOW),
        Err(Error::Overloaded)
    );
    assert_eq!(picture(&broker), before);
    let back = join(&mut broker, "b", false);
    assert_eq!(topics(&mut broker, &back).len(), 1);
    assert_eq!(
        broker.route_inbound_qos2(&a.key, incarnation, 7, operation, &owner, NOW),
        Ok(1)
    );
    assert!(session(&broker, &a.key).unwrap().inbound_qos2.is_empty());
    assert_eq!(broker.usage().3, 1);
    let after = picture(&broker);
    assert_eq!(
        broker.route_inbound_qos2(&a.key, incarnation, 7, operation, &owner, NOW),
        Err(Error::Conflict)
    );
    assert_eq!(picture(&broker), after);
}

#[test]
fn a_message_is_given_up_once() {
    let mut broker = MqttBroker::new(Limits::default());
    let a = join(&mut broker, "a", false);
    let filter = root("a", "down");
    broker.subscribe(&a.key, a.generation, &filter, 2, NOW).unwrap();
    let usage = broker.usage();
    for (qos, begun) in [(1, false), (2, false), (1, true), (2, true)] {
        broker.route_from_session(&a.key, message(&filter, b"x", qos), NOW).unwrap();
        let frame = broker.try_recv(a.receiver).unwrap();
        broker.release_frame(a.receiver, &frame);
        let delivery = match frame {
            BrokerFrame::Publish(delivery) => delivery,
            other => panic!("{other:?}"),
        };
        if begun {
            let started = broker.begin_outbound_transfer(&a.key, a.generation, &delivery, NOW);
            assert_eq!(started, Ok(true));
        }
        assert!(broker.usage().1 > usage.1);
        assert_eq!(broker.discard_outbound(&a.key, a.generation, &delivery, NOW), Ok(true));
        assert!(session(&broker, &a.key).unwrap().outbound.is_empty());
        assert_eq!(broker.usage(), usage);
        assert!(broker.try_recv(a.receiver).is_none());
        let after = picture(&broker);
        assert_eq!(broker.discard_outbound(&a.key, a.generation, &delivery, NOW), Ok(false));
        assert_eq!(picture(&broker), after);
    }
}

#[test]
fn a_given_up_message_may_be_followed_by_its_equal() {
    let mut broker = MqttBroker::new(Limits::default());
    let owner = device("a");
    let a = broker.attach_v5(&owner, "a".into(), false, 60, 1, NOW).unwrap();
    let filter = root("a", "down");
    broker.subscribe(&a.key, a.generation, &filter, 1, NOW).unwrap();
    for session in broker.sessions.iter_mut() {
        session.next_packet_id = u16::MAX;
    }
    for _ in 0..2 {
        broker.route_from_session(&a.key, message(&filter, b"same", 1), NOW).unwrap();
    }
    let frame = broker.try_recv(a.receiver).unwrap();
    broker.release_frame(a.receiver, &frame);
    let delivery = match frame {
        BrokerFrame::Publish(delivery) => delivery,
        other => panic!("{other:?}"),
    };
    assert_eq!(delivery.packet_id, Some(u16::MAX));
    for session in broker.sessions.iter_mut() {
        session.next_packet_id = u16::MAX;
    }
    assert_eq!(broker.discard_outbound(&a.key, a.generation, &delivery, NOW), Ok(true));
    assert_eq!(session(&broker, &a.key).unwrap().outbound.len(), 1);
    assert_eq!(broker.discard_outbound(&a.key, a.generation, &delivery, NOW), Ok(true));
    assert_eq!(broker.discard_outbound(&a.key, a.generation, &delivery, NOW), Ok(false));
}

#[test]
fn a_delayed_will_waits_or_is_given_up() {
    for taken_up in [false, true] {
        let mut broker = MqttBroker::new(Limits::default());
        let owner = device("a");
        let topic = root("a", "up");
        let reader = join(&mut broker, "b", false);
        broker.subscribe(&reader.key, reader.generation, &topic, 1, NOW).unwrap();
        let a = broker.attach_v5(&owner, "a".into(), false, 60, 4, NOW).unwrap();
        let mut guard =
            broker.reserve_will(owner.device_key.clone(), message(&topic, b"w", 1)).unwrap();
        guard.arm_v5(
            &mut broker,
            a.key.clone(),
            a.session_incarnation,
            a.generation,
            5,
            60,
            None,
        );
        if taken_up {
            broker.attach_v5(&owner, "a".into(), false, 60, 4, NOW).unwrap();
        } else {
            broker.detach(&a.key, a.generation, false, NOW).unwrap();
        }
        assert_eq!(guard.publish_v5(&mut broker, NOW), Ok(None));
        assert_eq!(broker.pending_will_count(), if taken_up { 0 } else { 1 });
        assert!(broker.try_recv(reader.receiver).is_none());
        assert_eq!(guard.publish_v5(&mut broker, NOW), Err(Error::Conflict));
        broker.tick(NOW + 5_000).unwrap();
        assert_eq!(broker.pending_will_count(), 0);
        let expected = if taken_up { vec![] } else { vec![(topic, 1)] };
        assert_eq!(topics(&mut broker, &reader), expected);
    }
}

#[test]
fn a_will_without_delay_is_published_once() {
    let mut broker = MqttBroker::new(Limits::default());
    let owner = device("a");
    let topic = root("a", "up");
    let reader = join(&mut broker, "b", false);
    broker.subscribe(&reader.key, reader.generation, &topic, 1, NOW).unwrap();
    let a = broker.attach_v5(&owner, "a".into(), false, 60, 4, NOW).unwrap();
    let will = message(&topic, b"w", 1);
    let mut guard = broker.reserve_will(owner.device_key, will.clone()).unwrap();
    guard.arm_v5(&mut broker, a.key.clone(), a.session_incarnation, a.generation, 0, 60, None);
    assert_eq!(guard.publish_v5(&mut broker, NOW), Ok(Some(will)));
    assert_eq!(guard.publish_v5(&mut broker, NOW), Err(Error::Conflict));
    assert_eq!(broker.pending_will_count(), 0);
    assert_eq!(topics(&mut broker, &reader), vec![(topic, 1)]);
}

#[test]
fn a_detachment_changes_nothing_else_of_the_attachment() {
    let mut broker = MqttBroker::new(Limits::default());
    let mut first = join(&mut broker, "a", true);
    let shape = (
        first.key.clone(),
        first.generation,
        first.session_incarnation,
        first.session_present,
        first.clean_session,
    );
    assert_eq!(first.detach(&mut broker, NOW), Ok(()));
    assert!(!first.attached);
    assert_eq!(first.detach(&mut broker, NOW), Ok(()));
    let same = (
        first.key,
        first.generation,
        first.session_incarnation,
        first.session_present,
        first.clean_session,
    );
    assert_eq!(same, shape);
    assert!(broker.sessions.is_empty());
}

#[test]
fn what_a_session_holds_is_counted_when_it_comes_and_goes() {
    let mut broker = MqttBroker::new(Limits::default());
    let empty = broker.usage();
    let a = join(&mut broker, "a", false);
    let bare = broker.usage();
    broker.subscribe(&a.key, a.generation, "x", 1, NOW).unwrap();
    broker.detach(&a.key, a.generation, false, NOW).unwrap();
    let subscribed = broker.usage();
    assert_eq!(subscribed.2, bare.2 + 1);
    let mut late = message("x", b"late", 1);
    late.properties.expires_at_ms = Some(NOW + 10);
    let b = join(&mut broker, "b", true);
    let both = broker.usage();
    broker.route_from_session(&b.key, late, NOW).unwrap();
    assert!(broker.usage().1 > both.1);
    broker.tick(NOW + 10).unwrap();
    assert_eq!(broker.usage(), both);
    broker.tick(NOW + 10).unwrap();
    assert_eq!(broker.usage(), both);
    broker.detach(&b.key, b.generation, true, NOW).unwrap();
    assert_eq!(broker.usage(), subscribed);
    let gone = AuthInvalidation::Device { device: device("a").device_key };
    assert_eq!(broker.invalidate_sessions(&gone, NOW), Ok(1));
    assert_eq!(broker.usage(), empty);
}

#[test]
fn an_altered_image_is_refused() {
    let limits = Limits::default();
    let mut broker = MqttBroker::new(limits.clone());
    let a = join(&mut broker, "a", false);
    broker.subscribe(&a.key, a.generation, "x", 1, NOW).unwrap();
    broker.subscribe(&a.key, a.generation, "y", 1, NOW).unwrap();
    let image = broker.recovery_image().unwrap();
    assert!(decode_mqtt_recovery(&image, &limits).is_ok());
    let end = image.len() - 52;
    for at in end..image.len() {
        for bit in 0..8 {
            let mut altered = image.clone();
            altered[at] ^= 1 << bit;
            assert!(decode_mqtt_recovery(&altered, &limits).is_err());
        }
    }
    assert!(decode_mqtt_recovery(&image[..end], &limits).is_err());
    let mut more = image[..end].to_vec();
    more.push(0xff);
    more.extend_from_slice(&0u32.to_be_bytes());
    more.extend_from_slice(&Sha256::digest([]));
    more.extend_from_slice(&image[end..]);
    assert!(decode_mqtt_recovery(&more, &limits).is_err());
    let mut less = image[..48].to_vec();
    less.extend_from_slice(&image[end..]);
    assert!(decode_mqtt_recovery(&less, &limits).is_err());
}

#[test]
fn a_restored_message_that_is_replaced_at_once_stays_in_the_totals() {
    let topic = root("a", "up");
    let mut source = MqttBroker::new(Limits::default());
    let a = join(&mut source, "a", true);
    let mut first = message(&topic, b"first", 1);
    first.retain = true;
    source.route_from_session(&a.key, first, NOW).unwrap();
    source.detach(&a.key, a.generation, true, NOW).unwrap();
    let mut snapshot = source.snapshot();
    let mut longer = source.snapshot();
    let (name, mut other) = snapshot.retained[0].clone();
    other.message.payload = b"the second".to_vec();
    let (one, two) = (snapshot.retained[0].1.bytes(), other.bytes());
    assert_eq!(two, one + 5);
    longer.retained.push((name.clone(), other.clone()));
    snapshot.retained.push((name, other));
    let mut restored = MqttBroker::new(Limits::default());
    restored.restore(snapshot, NOW).unwrap();
    assert_eq!(restored.retained.len(), 1);
    assert_eq!(restored.retained[0].message.payload, b"the second".to_vec());
    assert_eq!((restored.usage().3, restored.usage().4), (1, one + two));
    let mut clear = message(&topic, b"", 1);
    clear.retain = true;
    restored.route(&device("a").device_key, clear, NOW).unwrap();
    assert_eq!((restored.usage().3, restored.usage().4), (0, one));
    let (_, mut third) = longer.retained[0].clone();
    third.message.topic = root("b", "up");
    third.origin = None;
    longer.retained.push((third.message.topic.clone(), third));
    let limits = Limits { max_retained_messages_per_tenant: 2, ..Limits::default() };
    let mut bounded = MqttBroker::new(limits);
    assert_eq!(bounded.restore(longer, NOW), Err(Error::Overloaded));
    assert!(bounded.retained.is_empty());
}

#[test]
fn a_held_will_outlives_a_restore() {
    let (up, other) = (root("a", "up"), root("b", "up"));
    let mut broker = MqttBroker::new(Limits::default());
    let blank = broker.snapshot();
    let mut held = broker.reserve_will(device("a").device_key, message(&up, b"gone", 1)).unwrap();
    held.arm(&mut broker);
    assert_eq!(broker.recovery_image(), Err(Error::Conflict));
    broker.restore(blank, NOW).unwrap();
    assert_eq!(broker.will_responsibility(None), (0, 0));
    assert!(broker.recovery_image().is_ok());
    let mut later = broker.reserve_will(device("b").device_key, message(&other, b"b", 1)).unwrap();
    assert!(later.token != held.token);
    assert_eq!(broker.will_responsibility(None).0, 1);
    let reader = join(&mut broker, "reader", true);
    broker.subscribe(&reader.key, reader.generation, &up, 1, NOW).unwrap();
    broker.subscribe(&reader.key, reader.generation, &other, 1, NOW).unwrap();
    assert_eq!(held.publish(&mut broker, NOW).unwrap().payload, b"gone".to_vec());
    assert_eq!(topics(&mut broker, &reader), vec![(up, 1)]);
    assert_eq!(held.publish(&mut broker, NOW), Err(Error::Conflict));
    assert_eq!(broker.will_responsibility(None).0, 1);
    assert_eq!(later.publish(&mut broker, NOW).unwrap().payload, b"b".to_vec());
    assert_eq!(topics(&mut broker, &reader), vec![(other, 1)]);
    assert!(broker.guards.is_empty());
}

#[test]
fn a_delayed_will_waits_in_the_restored_state() {
    let up = root("a", "up");
    let mut broker = MqttBroker::new(Limits::default());
    let a = broker.attach_v5(&device("a"), "a".into(), false, 60, 1, NOW).unwrap();
    broker.detach(&a.key, a.generation, false, NOW).unwrap();
    let saved = broker.snapshot();
    let a = broker.attach_v5(&device("a"), "a".into(), false, 60, 1, NOW).unwrap();
    assert!(a.session_present);
    let mut retained = message(&up, b"gone", 1);
    retained.retain = true;
    let mut held = broker.reserve_will_for_session(a.key.clone(), retained).unwrap();
    let (key, incarnation) = (a.key.clone(), a.session_incarnation);
    held.arm_v5(&mut broker, key, incarnation, a.generation, 5, 60, Some(7));
    assert_eq!(broker.guards[0].will.retained_reservation.count, 1);
    broker.restore(saved, NOW).unwrap();
    assert_eq!(broker.guards[0].will.retained_reservation.count, 0);
    assert_eq!(held.publish_v5(&mut broker, NOW), Ok(None));
    assert_eq!(broker.future_wills.len(), 1);
    assert_eq!(broker.will_responsibility(None).0, 0);
    assert_eq!(broker.recovery_image(), Err(Error::Conflict));
    broker.tick(NOW + 5_000).unwrap();
    assert!(broker.has_retained_topic(&up, NOW + 5_000));
    assert!(broker.has_retained_topic(&up, NOW + 11_999));
    assert!(!broker.has_retained_topic(&up, NOW + 12_000));
    assert!(broker.recovery_image().is_ok());
}

#[test]
fn queued_frames_outlive_a_restore() {
    let topic = root("a", "up");
    let charge = message(&topic, b"1", 0).bytes();
    let limits = Limits { max_outbound_bytes_per_tenant: charge, ..Limits::default() };
    let mut broker = MqttBroker::new(limits);
    let blank = broker.snapshot();
    let old = join(&mut broker, "reader", true);
    broker.subscribe(&old.key, old.generation, &topic, 0, NOW).unwrap();
    broker.route(&device("a").device_key, message(&topic, b"1", 0), NOW).unwrap();
    broker.route(&device("a").device_key, message(&topic, b"2", 0), NOW).unwrap();
    broker.restore(blank, NOW).unwrap();
    assert!(!broker.is_cancelled(old.receiver));
    assert!(!broker.is_drained(old.receiver));
    let new = join(&mut broker, "reader", true);
    assert_eq!(new.generation, old.generation);
    assert!(new.receiver != old.receiver);
    broker.subscribe(&new.key, new.generation, &topic, 0, NOW).unwrap();
    broker.route(&device("a").device_key, message(&topic, b"3", 0), NOW).unwrap();
    let payload = |frame: Option<BrokerFrame>| match frame {
        Some(BrokerFrame::Publish(delivery)) => Some(delivery.message.payload.clone()),
        _ => None,
    };
    assert_eq!(payload(broker.try_recv(old.receiver)), Some(b"1".to_vec()));
    assert!(broker.is_drained(old.receiver));
    assert!(!broker.is_drained(new.receiver));
    assert_eq!(payload(broker.try_recv(new.receiver)), Some(b"3".to_vec()));
    assert_eq!(payload(broker.try_recv(old.receiver)), None);
    assert!(!broker.is_drained(new.receiver));
    broker.forget_link(old.receiver);
    assert_eq!(broker.links.len(), 1);
    assert!(broker.is_drained(old.receiver));
    assert!(broker.is_cancelled(old.receiver));
}

#[test]
fn a_broker_comes_back_from_its_image() {
    let (up, down) = (root("a", "up"), root("a", "down"));
    let limits = Limits::default();
    let mut broker = MqttBroker::new(limits.clone());
    let a = join(&mut broker, "a", false);
    broker.subscribe(&a.key, a.generation, &down, 2, NOW).unwrap();
    broker.inbound_qos2(&a.key, a.generation, 9, message(&up, b"in", 2)).unwrap();
    broker.route(&device("a").device_key, message(&down, b"live", 2), NOW).unwrap();
    broker.detach(&a.key, a.generation, false, NOW).unwrap();
    broker.route(&device("a").device_key, message(&down, b"late", 1), NOW).unwrap();
    let mut kept = message(&up, b"kept", 1);
    kept.retain = true;
    broker.route(&device("a").device_key, kept, NOW).unwrap();
    let c = broker.attach_v5(&device("c"), "c".into(), false, 60, 1, NOW).unwrap();
    let will = message(&root("c", "up"), b"will", 0);
    let mut held = broker.reserve_will_for_session(c.key.clone(), will).unwrap();
    let (key, incarnation) = (c.key.clone(), c.session_incarnation);
    held.arm_v5(&mut broker, key, incarnation, c.generation, 5, 60, None);
    broker.detach(&c.key, c.generation, false, NOW).unwrap();
    assert_eq!(held.publish_v5(&mut broker, NOW), Ok(None));
    let image = broker.recovery_image().unwrap();
    let Ok(MqttRecoveryImage::Snapshot(read)) = decode_mqtt_recovery(&image, &limits) else {
        panic!("expected a snapshot")
    };
    let written = broker.snapshot().in_order();
    assert_eq!(read.snapshot_generation, written.snapshot_generation);
    assert_eq!(read.retained, written.retained);
    assert_eq!(read.pending_wills, written.pending_wills);
    assert_eq!(read.pending_wills.len(), 1);
    assert_eq!(read.sessions.len(), 2);
    assert_eq!(read.sessions[0].subscriptions, written.sessions[0].subscriptions);
    assert_eq!(read.sessions[0].offline, written.sessions[0].offline);
    assert_eq!(read.sessions[0].inbound_qos2, written.sessions[0].inbound_qos2);
    assert_eq!(read.sessions[0].outbound.len(), 1);
    assert_eq!(read.sessions[0].offline.len(), 1);
    let mut restored = MqttBroker::new(limits);
    restored.restore(read, NOW).unwrap();
    assert_eq!(restored.recovery_image().unwrap(), image);
}

#[test]
fn wills_and_exchanges_stay_within_their_bounds() {
    let limits = Limits {
        max_connections: 2,
        max_connections_per_tenant: 1,
        max_inflight_qos1_per_session: 1,
        max_inflight_qos2_per_session: 2,
        ..Limits::default()
    };
    let mut broker = MqttBroker::new(limits);
    let will = message(&root("a", "up"), b"w", 0);
    let held = broker.reserve_will(device("a").device_key, will.clone()).unwrap();
    assert_eq!(broker.reserve_will(device("b").device_key, will.clone()), Err(Error::Overloaded));
    held.close(&mut broker, NOW);
    assert!(broker.reserve_will(device("b").device_key, will).is_ok());
    let a = join(&mut broker, "a", false);
    broker.subscribe(&a.key, a.generation, &root("b", "up"), 2, NOW).unwrap();
    for qos in [1, 1, 2, 2, 2] {
        let sent = message(&root("b", "up"), b"m", qos);
        broker.route(&device("b").device_key, sent, NOW).unwrap();
    }
    let found = session(&broker, &a.key).unwrap();
    assert_eq!((found.outbound.len(), found.offline.len()), (3, 2));
    let over = message(&root("a", "up"), b"in", 2);
    assert_eq!(broker.inbound_qos2(&a.key, a.generation, 5, over), Err(Error::Overloaded));
}
