use netbaiot_mqtt::broker::attach::Attachment;
use netbaiot_mqtt::broker::inbound::{InboundQos2Action, InboundQos2PublishState};
use netbaiot_mqtt::broker::model::HOT_MAINTENANCE_BUDGET;
use netbaiot_mqtt::broker::route::PlannedRouteTarget;
use netbaiot_mqtt::broker::service::WillGuard;
use netbaiot_mqtt::broker::state::{
    BrokerDelivery, BrokerFrame, Link, MqttBroker, PendingWill, RetainedMessage,
};
use netbaiot_mqtt::codec::v5::SubscriptionOptions;
use netbaiot_mqtt::codec::MqttVersion;
use netbaiot_mqtt::error::Error;
use netbaiot_mqtt::identity::{
    AuthInvalidation, AuthenticatedDevice, CodecId, DeviceId, DeviceKey, Permissions, ProductId,
    SessionKey, TenantId,
};
use netbaiot_mqtt::limits::Limits;
use netbaiot_mqtt::message::{BrokerMessage, PublishProperties};
use netbaiot_mqtt::recovery::image::{
    decode_mqtt_recovery, MqttRecoveryImage, RECORD_CHECKSUM_BYTES, RECORD_HEADER_BYTES,
    RECOVERY_HEADER_BYTES, RECOVERY_TRAILER_BYTES,
};
use netbaiot_mqtt::recovery::encode::encode_session_meta;
use netbaiot_mqtt::recovery::fields::put_string;
use netbaiot_mqtt::recovery::message::encode_message;
use netbaiot_mqtt::recovery::record::{
    RECORD_INBOUND_QOS2, RECORD_OFFLINE, RECORD_OUTBOUND, RECORD_PENDING_WILL, RECORD_SESSION,
};
use netbaiot_mqtt::recovery::snapshot::{
    MqttRecoverySnapshot, RECOVERY_VERSION, RECOVERY_VERSION_V2, RECOVERY_VERSION_V3,
    RECOVERY_VERSION_V4, RECOVERY_VERSION_V5,
};
use netbaiot_mqtt::session::{
    InboundEntry, InboundQos2State, OutboundEntry, OutboundState, RetainedReservation,
    StoredSession, Subscription,
};
use netbaiot_mqtt::topics::{subscribe_acl, topic_matches};
use netbaiot_mqtt::trie::SubscriptionTrie;
use sha2::{Digest, Sha256};
use std::cell::{RefCell, RefMut};
use std::collections::{BTreeMap, BTreeSet};
use std::rc::Rc;

const NOW: i64 = 1_700_000_000_000;

struct Shared {
    broker: MqttBroker,
    now: i64,
}

/// A broker with a clock, shared by the connections of a test.
#[derive(Clone)]
struct Hub(Rc<RefCell<Shared>>);

/// Frames for one connection. What is taken out counts as written.
struct Receiver {
    hub: Hub,
    number: u64,
}

impl Receiver {
    fn try_recv(&mut self) -> Result<BrokerFrame, Error> {
        let frame = self.take()?;
        self.written(&frame);
        Ok(frame)
    }

    fn recv(&mut self) -> Option<BrokerFrame> {
        self.try_recv().ok()
    }

    fn take(&mut self) -> Result<BrokerFrame, Error> {
        self.hub.state().try_recv(self.number).ok_or(Error::Unavailable)
    }

    fn written(&self, frame: &BrokerFrame) {
        self.hub.state().release_frame(self.number, frame);
    }

    fn is_empty(&self) -> bool {
        let state = self.hub.state();
        match state.links.iter().find(|link| link.receiver == self.number) {
            Some(link) => link.queue.is_empty(),
            None => true,
        }
    }
}

/// A connection that detaches when it is dropped.
struct Client {
    key: SessionKey,
    generation: u64,
    session_incarnation: u64,
    session_present: bool,
    receiver: Receiver,
    attachment: Attachment,
    hub: Hub,
}

impl Client {
    fn detach(&mut self) -> Result<(), Error> {
        let shared = &mut *self.hub.0.borrow_mut();
        self.attachment.detach(&mut shared.broker, shared.now)
    }

    fn cancelled(&self) -> bool {
        self.hub.state().is_cancelled(self.attachment.receiver)
    }
}

impl Drop for Client {
    fn drop(&mut self) {
        let _ = self.detach();
        let mut state = self.hub.state();
        state.close_receiver(self.attachment.receiver);
        state.forget_link(self.attachment.receiver);
    }
}

/// A will that is settled when it is dropped.
struct Will {
    guard: Option<WillGuard>,
    hub: Hub,
}

impl Will {
    fn arm(&mut self) {
        let shared = &mut *self.hub.0.borrow_mut();
        self.guard.as_mut().unwrap().arm(&mut shared.broker);
    }

    fn arm_v5(
        &mut self,
        key: SessionKey,
        incarnation: u64,
        generation: u64,
        delay: u32,
        session_expiry: u32,
        message_expiry: Option<u32>,
    ) {
        let shared = &mut *self.hub.0.borrow_mut();
        self.guard.as_mut().unwrap().arm_v5(
            &mut shared.broker,
            key,
            incarnation,
            generation,
            delay,
            session_expiry,
            message_expiry,
        );
    }

    fn publish(&mut self) -> Result<BrokerMessage, Error> {
        let shared = &mut *self.hub.0.borrow_mut();
        self.guard.take().unwrap().publish(&mut shared.broker, shared.now)
    }

    fn publish_v5(&mut self) -> Result<Option<BrokerMessage>, Error> {
        let shared = &mut *self.hub.0.borrow_mut();
        self.guard.take().unwrap().publish_v5(&mut shared.broker, shared.now)
    }

    fn suppress(&mut self) -> Result<(), Error> {
        let shared = &mut *self.hub.0.borrow_mut();
        self.guard.take().unwrap().suppress(&mut shared.broker);
        Ok(())
    }
}

impl Drop for Will {
    fn drop(&mut self) {
        if let Some(guard) = self.guard.take() {
            let shared = &mut *self.hub.0.borrow_mut();
            guard.close(&mut shared.broker, shared.now);
        }
    }
}

impl Hub {
    fn new(limits: Limits) -> Hub {
        Hub(Rc::new(RefCell::new(Shared {
            broker: MqttBroker::new(limits),
            now: NOW,
        })))
    }

    fn state(&self) -> RefMut<'_, MqttBroker> {
        RefMut::map(self.0.borrow_mut(), |shared| &mut shared.broker)
    }

    fn now(&self) -> i64 {
        self.0.borrow().now
    }

    fn wait(&self, milliseconds: i64) {
        self.0.borrow_mut().now += milliseconds;
    }

    fn client(&self, attached: Result<Attachment, Error>) -> Result<Client, Error> {
        let attachment = attached?;
        Ok(Client {
            key: attachment.key.clone(),
            generation: attachment.generation,
            session_incarnation: attachment.session_incarnation,
            session_present: attachment.session_present,
            receiver: Receiver {
                hub: self.clone(),
                number: attachment.receiver,
            },
            attachment,
            hub: self.clone(),
        })
    }

    fn attach(&self, auth: &AuthenticatedDevice, id: String, clean: bool) -> Result<Client, Error> {
        let now = self.now();
        let attached = self.state().attach(auth, id, clean, now);
        self.client(attached)
    }

    fn attach_v5(
        &self,
        auth: &AuthenticatedDevice,
        id: String,
        clean: bool,
        expiry: u32,
        receive_maximum: u16,
    ) -> Result<Client, Error> {
        let now = self.now();
        let attached = self.state().attach_v5(auth, id, clean, expiry, receive_maximum, now);
        self.client(attached)
    }

    fn attach_generated(&self, auth: &AuthenticatedDevice) -> Result<Client, Error> {
        let now = self.now();
        let attached = self.state().attach_generated(auth, now);
        self.client(attached)
    }

    fn attach_generated_v5<F: Fn(&str) -> Result<(), Error>>(
        &self,
        auth: &AuthenticatedDevice,
        expiry: u32,
        receive_maximum: u16,
        preflight: F,
    ) -> Result<Client, Error> {
        let now = self.now();
        let attached =
            self.state().attach_generated_v5(auth, expiry, receive_maximum, preflight, now);
        self.client(attached)
    }

    fn subscribe(&self, key: &SessionKey, generation: u64, filter: &str, qos: u8) -> Result<u8, Error> {
        let now = self.now();
        self.state().subscribe(key, generation, filter, qos, now)
    }

    fn subscribe_v5(
        &self,
        key: &SessionKey,
        generation: u64,
        filter: &str,
        options: SubscriptionOptions,
    ) -> Result<u8, Error> {
        let now = self.now();
        self.state().subscribe_v5(key, generation, filter, options, now)
    }

    fn unsubscribe(&self, key: &SessionKey, generation: u64, filter: &str) -> Result<bool, Error> {
        let now = self.now();
        self.state().unsubscribe(key, generation, filter, now)
    }

    fn route(&self, owner: &DeviceKey, message: BrokerMessage) -> Result<usize, Error> {
        let now = self.now();
        self.state().route(owner, message, now)
    }

    fn route_from_session(&self, key: &SessionKey, message: BrokerMessage) -> Result<usize, Error> {
        let now = self.now();
        self.state().route_from_session(key, message, now)
    }

    fn reserve_will(&self, owner: DeviceKey, message: BrokerMessage) -> Result<Will, Error> {
        let guard = self.state().reserve_will(owner, message)?;
        Ok(Will { guard: Some(guard), hub: self.clone() })
    }

    fn reserve_will_for_session(&self, key: SessionKey, message: BrokerMessage) -> Result<Will, Error> {
        let guard = self.state().reserve_will_for_session(key, message)?;
        Ok(Will { guard: Some(guard), hub: self.clone() })
    }

    fn pending_will_count(&self) -> usize {
        self.state().pending_will_count()
    }

    fn has_retained_topic(&self, topic: &str) -> bool {
        let now = self.now();
        self.state().has_retained_topic(topic, now)
    }

    fn matching_retained_count(&self, filter: &str) -> usize {
        let now = self.now();
        self.state().matching_retained_count(filter, now)
    }

    fn matching_subscription_count(&self, topic: &str) -> usize {
        self.state().matching_subscription_count(topic)
    }

    fn subscription_qos(&self, key: &SessionKey, topic: &str) -> Option<u8> {
        self.state().subscription_qos(key, topic)
    }

    fn usage(&self) -> (usize, usize, usize, usize, usize) {
        self.state().usage()
    }

    fn outbound_bytes_released(&self) -> Result<(), Error> {
        let now = self.now();
        self.state().outbound_bytes_released(now)
    }

    fn tick(&self) -> Result<(), Error> {
        let now = self.now();
        self.state().tick(now)
    }

    fn invalidate_sessions(&self, invalidation: &AuthInvalidation) -> Result<usize, Error> {
        let now = self.now();
        self.state().invalidate_sessions(invalidation, now)
    }

    fn puback(&self, key: &SessionKey, generation: u64, id: u16) -> Result<bool, Error> {
        let now = self.now();
        self.state().puback(key, generation, id, now)
    }

    fn pubcomp(&self, key: &SessionKey, generation: u64, id: u16) -> Result<bool, Error> {
        let now = self.now();
        self.state().pubcomp(key, generation, id, now)
    }

    fn pubrec(&self, key: &SessionKey, generation: u64, id: u16) -> Result<BrokerFrame, Error> {
        self.state().pubrec(key, generation, id)
    }

    fn pubrec_rejected(&self, key: &SessionKey, generation: u64, id: u16) -> Result<bool, Error> {
        let now = self.now();
        self.state().pubrec_rejected(key, generation, id, now)
    }

    fn begin_outbound_transfer(
        &self,
        key: &SessionKey,
        generation: u64,
        delivery: &BrokerDelivery,
    ) -> Result<bool, Error> {
        let now = self.now();
        self.state().begin_outbound_transfer(key, generation, delivery, now)
    }

    fn discard_outbound(
        &self,
        key: &SessionKey,
        generation: u64,
        delivery: &BrokerDelivery,
    ) -> Result<bool, Error> {
        let now = self.now();
        self.state().discard_outbound(key, generation, delivery, now)
    }

    fn send_live(&self, key: &SessionKey, generation: u64, message: BrokerMessage) -> Result<(), Error> {
        let now = self.now();
        self.state().send_live(key, generation, message, now)
    }

    fn next_offline(&self, key: &SessionKey, generation: u64) -> Result<Option<BrokerFrame>, Error> {
        let now = self.now();
        let frame = self.state().next_offline(key, generation, now)?;
        if let Some(frame) = &frame {
            let mut state = self.state();
            let held = |link: &&Link| link.active && link.key == *key;
            let receiver = state.links.iter().find(held).unwrap().receiver;
            state.release_frame(receiver, frame);
        }
        Ok(frame)
    }

    fn inbound_receive_available(
        &self,
        key: &SessionKey,
        generation: u64,
        qos: u8,
        id: u16,
    ) -> Result<bool, Error> {
        self.state().inbound_receive_available(key, generation, qos, id)
    }

    fn begin_inbound_qos2_retransmission(
        &self,
        key: &SessionKey,
        generation: u64,
        id: u16,
    ) -> Result<bool, Error> {
        self.state().begin_inbound_qos2_retransmission(key, generation, id)
    }

    fn classify_inbound_qos2_publish(
        &self,
        key: &SessionKey,
        generation: u64,
        id: u16,
    ) -> Result<InboundQos2PublishState, Error> {
        self.state().classify_inbound_qos2_publish(key, generation, id)
    }

    fn inbound_qos2(
        &self,
        key: &SessionKey,
        generation: u64,
        id: u16,
        message: BrokerMessage,
    ) -> Result<bool, Error> {
        self.state().inbound_qos2(key, generation, id, message)
    }

    fn finish_inbound_pubcomp(&self, key: &SessionKey, generation: u64, id: u16) -> Result<(), Error> {
        self.state().finish_inbound_pubcomp(key, generation, id)
    }

    fn begin_inbound_qos2_delivery(
        &self,
        key: &SessionKey,
        generation: u64,
        id: u16,
    ) -> Result<InboundQos2Action, Error> {
        self.state().begin_inbound_qos2_delivery(key, generation, id)
    }

    fn finish_inbound_qos2_delivery(
        &self,
        key: &SessionKey,
        incarnation: u64,
        id: u16,
        operation: u64,
    ) -> Result<(), Error> {
        self.state().finish_inbound_qos2_delivery(key, incarnation, id, operation)
    }

    fn abandon_inbound_qos2_delivery(
        &self,
        key: &SessionKey,
        incarnation: u64,
        id: u16,
        operation: u64,
    ) -> Result<(), Error> {
        self.state().abandon_inbound_qos2_delivery(key, incarnation, id, operation)
    }

    fn complete_inbound_qos2(&self, key: &SessionKey, generation: u64, id: u16) -> Result<(), Error> {
        let now = self.now();
        self.state().complete_inbound_qos2(key, generation, id, now)
    }

    fn route_inbound_qos2(
        &self,
        key: &SessionKey,
        incarnation: u64,
        id: u16,
        operation: u64,
        owner: &DeviceKey,
    ) -> Result<usize, Error> {
        let now = self.now();
        self.state().route_inbound_qos2(key, incarnation, id, operation, owner, now)
    }

    fn set_v5_disconnect_expiry(&self, key: &SessionKey, generation: u64, interval: u32) -> Result<(), Error> {
        self.state().set_v5_disconnect_expiry(key, generation, interval)
    }

    fn snapshot(&self) -> MqttRecoverySnapshot {
        self.state().snapshot()
    }

    fn restore(&self, snapshot: MqttRecoverySnapshot) -> Result<(), Error> {
        let now = self.now();
        self.state().restore(snapshot, now)
    }

    fn commit(&self) -> Result<Vec<u8>, Error> {
        self.state().recovery_image()
    }

    fn recover(&self, image: &[u8]) -> Result<(), Error> {
        let limits = self.state().limits.clone();
        match decode_mqtt_recovery(image, &limits)? {
            MqttRecoveryImage::Snapshot(snapshot) => self.restore(snapshot),
            MqttRecoveryImage::Legacy { .. } => Err(Error::IncompatibleSpool),
        }
    }
}

trait Exchanges {
    fn exchange(&self, id: u16) -> Option<OutboundState>;
    fn started(&self, id: u16) -> bool;
}

impl Exchanges for StoredSession {
    fn exchange(&self, id: u16) -> Option<OutboundState> {
        self.find_outbound(id).map(|at| self.outbound[at].state.clone())
    }

    fn started(&self, id: u16) -> bool {
        self.find_outbound(id).map_or(false, |at| self.outbound[at].started)
    }
}

impl Hub {
    fn session(&self, key: &SessionKey) -> StoredSession {
        stored(&self.state(), key).clone()
    }

    /// Changes a session behind the broker's back, and has its books brought up to date.
    fn edit<F: FnOnce(&mut StoredSession)>(&self, key: &SessionKey, change: F) {
        let mut state = self.state();
        let at = state.find_session(key).unwrap();
        let mut session = state.sessions[at].clone();
        change(&mut session);
        state.store_session(at, session);
    }

    fn detach(&self, client: &Client) -> Result<(), Error> {
        let now = self.now();
        self.state().detach(&client.key, client.generation, false, now)
    }

    fn retained(&self, topic: &str) -> Option<RetainedMessage> {
        let state = self.state();
        state.find_retained(topic).map(|at| state.retained[at].clone())
    }

    fn offline_count(&self) -> usize {
        offline_count(&self.state())
    }

    fn retained_reserved_count(&self) -> usize {
        retained_reserved_count(&self.state())
    }

    /// The bytes that are left for a connection, its tenant and everyone.
    fn room(&self, client: &Client) -> (usize, usize, usize) {
        let state = self.state();
        let used = |wanted: &dyn Fn(&netbaiot_mqtt::broker::state::Link) -> bool| {
            state.links.iter().filter(|link| wanted(link)).map(|link| link.used).sum::<usize>()
        };
        (
            state.limits.max_outbound_bytes_per_connection
                - used(&|link| link.generation == client.generation),
            state.limits.max_outbound_bytes_per_tenant
                - used(&|link| link.key.device.tenant_id == client.key.device.tenant_id),
            state.limits.max_outbound_bytes - used(&|_| true),
        )
    }

    fn global_room(&self) -> usize {
        let state = self.state();
        state.limits.max_outbound_bytes - state.links.iter().map(|link| link.used).sum::<usize>()
    }

    /// A message that is held until it is released, and whether it was handed on.
    fn inbound_qos2_message(
        &self,
        key: &SessionKey,
        generation: u64,
        id: u16,
    ) -> Result<Option<(BrokerMessage, bool)>, Error> {
        let state = self.state();
        if !state.check_owner(key, generation) {
            return Err(Error::Conflict);
        }
        let session = stored(&state, key);
        Ok(session.find_inbound(id).map(|at| match &session.inbound_qos2[at].state {
            InboundQos2State::AwaitPubrel(message)
            | InboundQos2State::Delivering { message, .. } => (message.clone(), false),
            InboundQos2State::EventAccepted(message) => (message.clone(), true),
        }))
    }
}

fn decoded(image: &[u8], limits: &Limits) -> Result<MqttRecoverySnapshot, Error> {
    match decode_mqtt_recovery(image, limits)? {
        MqttRecoveryImage::Snapshot(snapshot) => Ok(snapshot),
        MqttRecoveryImage::Legacy { .. } => Err(Error::IncompatibleSpool),
    }
}

fn stored<'a>(state: &'a MqttBroker, key: &SessionKey) -> &'a StoredSession {
    &state.sessions[state.find_session(key).unwrap()]
}

fn offline_count(state: &MqttBroker) -> usize {
    state.totals().offline_count as usize
}

fn offline_bytes(state: &MqttBroker) -> usize {
    state.totals().offline_bytes as usize
}

fn session_bytes(state: &MqttBroker) -> usize {
    state.totals().state_bytes as usize
}

fn retained_reserved_count(state: &MqttBroker) -> usize {
    state.retained_totals(None).2 as usize
}

fn retained_reserved_bytes(state: &MqttBroker) -> usize {
    state.retained_totals(None).3 as usize
}

/// The books agree with the sessions, and every index holds what it should and nothing else.
fn assert_accounting_consistent(state: &MqttBroker) {
    let mut keys = BTreeSet::new();
    let mut tenants = BTreeMap::new();
    let mut devices = BTreeMap::new();
    let mut sums = [0u128; 7];
    let mut session_expiry = BTreeMap::new();
    let mut message_expiry = BTreeMap::new();
    let name = |key: &SessionKey| format!("{key:?}");
    for session in &state.sessions {
        assert!(keys.insert(name(&session.key)), "a session key twice");
        let usage = session.usage();
        let counted = [
            usage.sessions,
            usage.state_bytes,
            usage.subscriptions,
            usage.offline_count,
            usage.offline_bytes,
            usage.qos1_inflight,
            usage.qos2_inflight,
        ];
        assert_eq!(usage.sessions, 1);
        assert_eq!(
            session.offline_bytes,
            session.offline.iter().map(BrokerMessage::bytes).sum::<usize>()
        );
        let tenant = tenants
            .entry(session.key.device.tenant_id.as_str().to_string())
            .or_insert([0u128; 7]);
        for (at, value) in counted.iter().enumerate() {
            sums[at] += value;
            tenant[at] += value;
        }
        *devices.entry(format!("{:?}", session.key.device)).or_insert(0u128) +=
            usage.subscriptions;
        for (filter, _) in &session.subscriptions {
            assert!(
                state.trie.matching(filter).iter().any(|(holder, _)| *holder == session.key)
                    || filter.contains('+')
                    || filter.contains('#'),
                "a subscription that the trie does not know"
            );
        }
        if let Some(deadline) = session.next_message_expiry() {
            message_expiry.insert(name(&session.key), deadline);
        }
        if state.find_active(&session.key).is_none() {
            let deadline = if session.version == MqttVersion::V5 {
                session.expires_at_ms
            } else {
                Some(
                    session
                        .last_seen_ms
                        .saturating_add(state.limits.mqtt_session_idle_ttl_ms as i64)
                        .saturating_add(1),
                )
            };
            if let Some(deadline) = deadline {
                session_expiry.insert(name(&session.key), deadline);
            }
        }
    }
    let totals = state.totals();
    assert_eq!(
        sums,
        [
            totals.sessions,
            totals.state_bytes,
            totals.subscriptions,
            totals.offline_count,
            totals.offline_bytes,
            totals.qos1_inflight,
            totals.qos2_inflight,
        ]
    );
    for (tenant, counted) in &tenants {
        let usage = state.tenant_totals(&TenantId::new(tenant).unwrap());
        assert_eq!(
            *counted,
            [
                usage.sessions,
                usage.state_bytes,
                usage.subscriptions,
                usage.offline_count,
                usage.offline_bytes,
                usage.qos1_inflight,
                usage.qos2_inflight,
            ]
        );
    }
    for (device, subscriptions) in &state.accounts.devices.entries {
        let counted = devices.get(&format!("{device:?}")).copied().unwrap_or(0);
        assert_eq!(counted, *subscriptions);
    }
    let entries = |index: &netbaiot_mqtt::table::DeadlineIndex<SessionKey>| {
        index
            .table
            .entries
            .iter()
            .map(|(key, deadline)| (name(key), *deadline))
            .collect::<BTreeMap<_, _>>()
    };
    assert_eq!(entries(&state.session_expiry), session_expiry);
    assert_eq!(state.session_expiry.table.entries.len(), session_expiry.len());
    assert_eq!(entries(&state.message_expiry), message_expiry);
    assert_eq!(state.message_expiry.table.entries.len(), message_expiry.len());
    let retained_expiry = state
        .retained
        .iter()
        .filter_map(|retained| {
            let deadline = retained.message.properties.expires_at_ms?;
            Some((retained.message.topic.clone(), deadline))
        })
        .collect::<BTreeMap<_, _>>();
    assert_eq!(
        state.retained_expiry.table.entries.iter().cloned().collect::<BTreeMap<_, _>>(),
        retained_expiry
    );
    let mut queued = BTreeSet::new();
    for (key, qos) in &state.pending.entries {
        assert!(queued.insert(name(key)), "duplicate pending session");
        assert!(state.find_active(key).is_some(), "inactive pending session");
        let session = stored(state, key);
        assert_eq!(
            session.next_waiting_qos(),
            Some(*qos),
            "pending session with wrong QoS or no pending work"
        );
    }
}

fn assert_broker_accounting(broker: &Hub) {
    assert_accounting_consistent(&broker.state());
}

#[derive(Debug, PartialEq, Eq)]
struct TransactionAccounting {
    session_bytes: usize,
    broker_session_bytes: usize,
    offline_count: usize,
    offline_bytes: usize,
    retained_reserved_count: usize,
    retained_reserved_bytes: usize,
    inbound_qos2_count: usize,
    inbound_window_count: usize,
    tenant_qos2_inflight: u128,
    outbound: Vec<(u16, OutboundState)>,
}

fn transaction_accounting(broker: &Hub, key: &SessionKey) -> TransactionAccounting {
    let state = broker.state();
    let session = stored(&state, key);
    TransactionAccounting {
        session_bytes: session.state_bytes,
        broker_session_bytes: session_bytes(&state),
        offline_count: offline_count(&state),
        offline_bytes: offline_bytes(&state),
        retained_reserved_count: retained_reserved_count(&state),
        retained_reserved_bytes: retained_reserved_bytes(&state),
        inbound_qos2_count: session.inbound_qos2.len(),
        inbound_window_count: session.inbound_window.len(),
        tenant_qos2_inflight: state.tenant_inflight(&key.device.tenant_id, 2),
        outbound: session
            .outbound
            .iter()
            .map(|entry| (entry.packet_id, entry.state.clone()))
            .collect(),
    }
}

#[test]
fn future_will_owner_index_handles_shared_deadline_and_due_promotion() {
    let limits = Limits::default();
    let broker = Hub::new(limits.clone());
    let deadline = NOW + 3_600_000;
    let mut keys = Vec::new();
    {
        let mut state = broker.state();
        for index in 0..64 {
            let owner = auth(&format!("will-{index}")).device_key;
            let key = SessionKey {
                device: owner.clone(),
                client_id: format!("client-{index}"),
            };
            let pending = PendingWill {
                owner: owner.clone(),
                origin: Some(key.clone()),
                message: BrokerMessage {
                    topic: format!("v1/t/t/p/p/d/will-{index}/up"),
                    payload: vec![7; 32],
                    qos: 1,
                    retain: false,
                    properties: Default::default(),
                },
                due_at_ms: Some(deadline),
                cancel_on_resume: Some((key.clone(), 1)),
                message_expiry_interval: None,
                retained_reservation: RetainedReservation::default(),
                counted: true,
            };
            assert!(state.may_hold_will(&owner.tenant_id, pending.bytes()));
            state.future_wills.push(pending);
            keys.push(key);
        }
    }
    assert_broker_accounting(&broker);
    {
        let mut state = broker.state();
        let unrelated = SessionKey {
            device: auth("unrelated").device_key,
            client_id: "unrelated".into(),
        };
        state.release_clean_start_delays(&unrelated);
        state.cancel_resumed_wills(&unrelated, 1, NOW);
        assert_eq!(state.pending_will_count(), 64);
        state.release_clean_start_delays(&keys[0]);
        assert_eq!(state.pending_wills.len(), 1);
        state.cancel_resumed_wills(&keys[1], 1, NOW);
        assert_eq!(state.pending_will_count(), 63);
        state.promote_due_wills(deadline, 64);
        assert!(state.future_wills.is_empty());
    }
    assert_broker_accounting(&broker);
}

#[test]
fn derived_accounting_matches_authoritative_mutation_sequence() {
    let broker = Hub::new(Limits::default());
    let identity = auth("accounting-sequence");
    let down = "v1/t/t/p/p/d/accounting-sequence/down";
    let up = "v1/t/t/p/p/d/accounting-sequence/up";
    let mut attachment = broker
        .attach_v5(&identity, "accounting".into(), false, 3_600, 32)
        .unwrap();
    broker
        .subscribe(&attachment.key, attachment.generation, down, 2)
        .unwrap();
    assert_broker_accounting(&broker);
    for step in 0..1_000u16 {
        let qos = if step % 2 == 0 { 1 } else { 2 };
        broker
            .route(
                &identity.device_key,
                BrokerMessage {
                    topic: down.into(),
                    payload: step.to_be_bytes().to_vec(),
                    qos,
                    retain: false,
                    properties: Default::default(),
                },
            )
            .unwrap();
        assert_broker_accounting(&broker);
        let BrokerFrame::Publish(delivery) = attachment.receiver.try_recv().unwrap() else {
            panic!("expected routed delivery")
        };
        let packet_id = delivery.packet_id.unwrap();
        if qos == 1 {
            broker
                .puback(&attachment.key, attachment.generation, packet_id)
                .unwrap();
        } else {
            broker
                .pubrec(&attachment.key, attachment.generation, packet_id)
                .unwrap();
            assert_broker_accounting(&broker);
            broker
                .pubcomp(&attachment.key, attachment.generation, packet_id)
                .unwrap();
        }
        assert_broker_accounting(&broker);
        if step % 7 == 0 {
            let inbound_id = step + 1;
            let inbound = BrokerMessage {
                topic: up.into(),
                payload: step.to_be_bytes().to_vec(),
                qos: 2,
                retain: false,
                properties: Default::default(),
            };
            assert!(
                broker
                    .inbound_qos2(
                        &attachment.key,
                        attachment.generation,
                        inbound_id,
                        inbound.clone(),
                    )
                    .unwrap()
            );
            assert_broker_accounting(&broker);
            assert!(
                !broker
                    .inbound_qos2(&attachment.key, attachment.generation, inbound_id, inbound,)
                    .unwrap()
            );
            assert_broker_accounting(&broker);
            broker
                .complete_inbound_qos2(&attachment.key, attachment.generation, inbound_id)
                .unwrap();
            assert_broker_accounting(&broker);
        }
        if step % 11 == 0 {
            broker
                .subscribe(&attachment.key, attachment.generation, down, 1)
                .unwrap();
            assert_broker_accounting(&broker);
            broker
                .unsubscribe(&attachment.key, attachment.generation, down)
                .unwrap();
            assert_broker_accounting(&broker);
            broker
                .subscribe(&attachment.key, attachment.generation, down, 2)
                .unwrap();
            assert_broker_accounting(&broker);
        }
        if step % 19 == 0 {
            broker
                .route(
                    &identity.device_key,
                    BrokerMessage {
                        topic: up.into(),
                        payload: vec![1, 2, 3],
                        qos: 0,
                        retain: true,
                        properties: Default::default(),
                    },
                )
                .unwrap();
            assert_broker_accounting(&broker);
            broker
                .route(
                    &identity.device_key,
                    BrokerMessage {
                        topic: up.into(),
                        payload: Vec::new(),
                        qos: 0,
                        retain: true,
                        properties: Default::default(),
                    },
                )
                .unwrap();
            assert_broker_accounting(&broker);
        }
        if step % 23 == 0 {
            attachment.detach().unwrap();
            assert_broker_accounting(&broker);
            broker
                .route(
                    &identity.device_key,
                    BrokerMessage {
                        topic: down.into(),
                        payload: vec![4, 5, 6],
                        qos: 1,
                        retain: false,
                        properties: Default::default(),
                    },
                )
                .unwrap();
            assert_broker_accounting(&broker);
            attachment = broker
                .attach_v5(&identity, "accounting".into(), false, 3_600, 32)
                .unwrap();
            assert_broker_accounting(&broker);
            let BrokerFrame::Publish(delivery) = attachment.receiver.try_recv().unwrap() else {
                panic!("expected resumed offline delivery")
            };
            broker
                .puback(
                    &attachment.key,
                    attachment.generation,
                    delivery.packet_id.unwrap(),
                )
                .unwrap();
            assert_broker_accounting(&broker);
        }
        if step % 101 == 0 {
            attachment.detach().unwrap();
            assert_broker_accounting(&broker);
            let recovered = Hub::new(Limits::default());
            recovered.restore(broker.snapshot()).unwrap();
            assert_broker_accounting(&recovered);
            attachment = broker
                .attach_v5(&identity, "accounting".into(), false, 3_600, 32)
                .unwrap();
            assert_broker_accounting(&broker);
        }
        if step % 173 == 0 {
            attachment.detach().unwrap();
            attachment = broker
                .attach_v5(&identity, "accounting".into(), true, 3_600, 32)
                .unwrap();
            broker
                .subscribe(&attachment.key, attachment.generation, down, 2)
                .unwrap();
            assert_broker_accounting(&broker);
        }
    }
}

#[test]
fn derived_accounting_tracks_tenant_device_and_restore() {
    let broker = Hub::new(Limits::default());
    let first = auth("shared-device");
    let mut other_tenant = auth("other-device");
    other_tenant.device_key.tenant_id = TenantId::new("other").unwrap();
    let down = "v1/t/t/p/p/d/shared-device/down";
    let mut a = broker.attach(&first, "a".into(), false).unwrap();
    let mut b = broker.attach(&first, "b".into(), false).unwrap();
    let mut c = broker.attach(&other_tenant, "c".into(), false).unwrap();
    assert_broker_accounting(&broker);
    broker.subscribe(&a.key, a.generation, down, 1).unwrap();
    broker.subscribe(&b.key, b.generation, down, 1).unwrap();
    broker
        .subscribe(
            &c.key,
            c.generation,
            "v1/t/other/p/p/d/other-device/down",
            1,
        )
        .unwrap();
    assert_broker_accounting(&broker);
    b.detach().unwrap();
    assert_broker_accounting(&broker);
    broker
        .route(
            &first.device_key,
            BrokerMessage {
                topic: down.into(),
                payload: b"first".to_vec(),
                qos: 1,
                retain: false,
                properties: Default::default(),
            },
        )
        .unwrap();
    assert_broker_accounting(&broker);
    let BrokerFrame::Publish(live) = a.receiver.try_recv().unwrap() else {
        panic!("expected live copy")
    };
    broker
        .puback(&a.key, a.generation, live.packet_id.unwrap())
        .unwrap();
    assert_broker_accounting(&broker);
    b = broker.attach(&first, "b".into(), false).unwrap();
    assert_broker_accounting(&broker);
    let BrokerFrame::Publish(resumed) = b.receiver.try_recv().unwrap() else {
        panic!("expected resumed copy")
    };
    broker
        .puback(&b.key, b.generation, resumed.packet_id.unwrap())
        .unwrap();
    assert_broker_accounting(&broker);
    let inbound = BrokerMessage {
        topic: "v1/t/t/p/p/d/shared-device/up".into(),
        payload: b"inbound".to_vec(),
        qos: 2,
        retain: false,
        properties: Default::default(),
    };
    assert!(
        broker
            .inbound_qos2(&a.key, a.generation, 77, inbound.clone())
            .unwrap()
    );
    assert!(
        !broker
            .inbound_qos2(&a.key, a.generation, 77, inbound)
            .unwrap()
    );
    assert_broker_accounting(&broker);
    broker
        .complete_inbound_qos2(&a.key, a.generation, 77)
        .unwrap();
    assert_broker_accounting(&broker);
    b.detach().unwrap();
    let mut replaced = broker.attach(&first, "b".into(), true).unwrap();
    assert_broker_accounting(&broker);
    a.detach().unwrap();
    c.detach().unwrap();
    replaced.detach().unwrap();
    let restored = Hub::new(Limits::default());
    restored.restore(broker.snapshot()).unwrap();
    assert_broker_accounting(&restored);
}

#[test]
fn derived_accounting_survives_local_discard_expiry_and_limit_rejection() {
    let limits = Limits {
        max_subscriptions_per_connection: 1,
        max_subscriptions_per_session: 1,
        ..Limits::default()
    };
    let broker = Hub::new(limits);
    let identity = auth("accounting-faults");
    let down = "v1/t/t/p/p/d/accounting-faults/down";
    let mut attachment = broker
        .attach_v5(&identity, "faults".into(), false, 3_600, 32)
        .unwrap();
    broker
        .subscribe(&attachment.key, attachment.generation, down, 2)
        .unwrap();
    assert!(matches!(
        broker.subscribe(
            &attachment.key,
            attachment.generation,
            "v1/t/t/p/p/d/accounting-faults/up",
            1,
        ),
        Err(Error::Overloaded)
    ));
    assert_broker_accounting(&broker);
    for qos in [1, 2] {
        broker
            .route(
                &identity.device_key,
                BrokerMessage {
                    topic: down.into(),
                    payload: vec![1; 64],
                    qos,
                    retain: false,
                    properties: Default::default(),
                },
            )
            .unwrap();
        let BrokerFrame::Publish(delivery) = attachment.receiver.try_recv().unwrap() else {
            panic!("expected outbound publish")
        };
        assert_broker_accounting(&broker);
        if qos == 1 {
            assert!(
                broker
                    .discard_outbound(&attachment.key, attachment.generation, &delivery)
                    .unwrap()
            );
        } else {
            broker
                .pubrec_rejected(
                    &attachment.key,
                    attachment.generation,
                    delivery.packet_id.unwrap(),
                )
                .unwrap();
        }
        assert_broker_accounting(&broker);
    }
    broker
        .route(
            &identity.device_key,
            BrokerMessage {
                topic: down.into(),
                payload: vec![2; 64],
                qos: 1,
                retain: false,
                properties: PublishProperties {
                    expires_at_ms: Some(NOW + 10),
                    ..Default::default()
                },
            },
        )
        .unwrap();
    let BrokerFrame::Publish(delivery) = attachment.receiver.try_recv().unwrap() else {
        panic!("expected expiring publish")
    };
    broker.wait(15);
    assert!(
        !broker
            .begin_outbound_transfer(&attachment.key, attachment.generation, &delivery)
            .unwrap()
    );
    assert_broker_accounting(&broker);
    attachment.detach().unwrap();
    broker
        .route(
            &identity.device_key,
            BrokerMessage {
                topic: down.into(),
                payload: vec![3; 64],
                qos: 1,
                retain: false,
                properties: PublishProperties {
                    expires_at_ms: Some(NOW + 10),
                    ..Default::default()
                },
            },
        )
        .unwrap();
    assert_broker_accounting(&broker);
    broker.wait(15);
    broker.tick().unwrap();
    assert_broker_accounting(&broker);
}

#[test]
fn message_deadline_budget_cleans_only_due_sessions_and_reindexes() {
    let broker = Hub::new(Limits::default());
    let mut keys = Vec::new();
    for index in 0..5 {
        let identity = auth(&format!("expiry-index-{index}"));
        let down = format!("v1/t/t/p/p/d/expiry-index-{index}/down");
        let mut attachment = broker
            .attach_v5(&identity, format!("client-{index}"), false, 3_600, 32)
            .unwrap();
        broker
            .subscribe(&attachment.key, attachment.generation, &down, 1)
            .unwrap();
        attachment.detach().unwrap();
        broker
            .route(
                &identity.device_key,
                BrokerMessage {
                    topic: down,
                    payload: vec![index as u8],
                    qos: 1,
                    retain: false,
                    properties: PublishProperties {
                        expires_at_ms: Some(NOW + 10_000),
                        ..Default::default()
                    },
                },
            )
            .unwrap();
        keys.push(attachment.key.clone());
    }
    for key in &keys {
        broker.edit(key, |session| {
            session.offline[0].properties.expires_at_ms = Some(NOW - 1);
        });
    }
    assert_broker_accounting(&broker);
    {
        let mut state = broker.state();
        state.prune_expired_messages(NOW, 3);
        assert_eq!(offline_count(&state), 2);
        assert_accounting_consistent(&state);
        state.prune_expired_messages(NOW, 3);
        assert_eq!(offline_count(&state), 0);
        assert_accounting_consistent(&state);
    }
}

#[test]
fn target_session_expiry_is_checked_after_bounded_global_maintenance() {
    let broker = Hub::new(Limits::default());
    let mut identities = Vec::new();
    for index in 0..=HOT_MAINTENANCE_BUDGET {
        let identity = auth(&format!("session-deadline-{index}"));
        let mut attachment = broker
            .attach_v5(&identity, format!("client-{index}"), false, 3_600, 32)
            .unwrap();
        let key = attachment.key.clone();
        attachment.detach().unwrap();
        identities.push((identity, key));
    }
    let past = NOW - 1;
    for (index, (_, key)) in identities.iter().enumerate() {
        let deadline = if index == HOT_MAINTENANCE_BUDGET {
            past
        } else {
            past - 1
        };
        broker.edit(key, |session| session.expires_at_ms = Some(deadline));
    }
    assert_broker_accounting(&broker);
    let identity = &identities[HOT_MAINTENANCE_BUDGET].0;
    let attachment = broker
        .attach_v5(
            identity,
            format!("client-{HOT_MAINTENANCE_BUDGET}"),
            false,
            3_600,
            32,
        )
        .unwrap();
    assert!(!attachment.session_present);
    assert_broker_accounting(&broker);
}

#[test]
fn expired_retained_is_not_replayed_while_maintenance_is_budgeted() {
    let broker = Hub::new(Limits::default());
    let mut topics = Vec::new();
    for index in 0..=(HOT_MAINTENANCE_BUDGET * 2) {
        let identity = auth(&format!("retained-deadline-{index}"));
        let topic = format!("v1/t/t/p/p/d/retained-deadline-{index}/up");
        broker
            .route(
                &identity.device_key,
                BrokerMessage {
                    topic: topic.clone(),
                    payload: vec![1],
                    qos: 1,
                    retain: true,
                    properties: PublishProperties {
                        expires_at_ms: Some(NOW + 10_000),
                        ..Default::default()
                    },
                },
            )
            .unwrap();
        topics.push((identity, topic));
    }
    let past = NOW - 1;
    {
        let mut state = broker.state();
        for (index, (_, topic)) in topics.iter().enumerate() {
            let deadline = if index == HOT_MAINTENANCE_BUDGET * 2 {
                past
            } else {
                past - 1
            };
            let at = state.find_retained(topic).unwrap();
            state.retained[at].message.properties.expires_at_ms = Some(deadline);
            state.retained_expiry.update(topic, Some(deadline));
        }
    }
    let (identity, topic) = &topics[HOT_MAINTENANCE_BUDGET * 2];
    let attachment = broker
        .attach_v5(identity, "retained-reader".into(), false, 3_600, 32)
        .unwrap();
    broker
        .subscribe(&attachment.key, attachment.generation, topic, 1)
        .unwrap();
    assert!(attachment.receiver.is_empty());
    assert!(!broker.has_retained_topic(topic));
    assert_broker_accounting(&broker);
}

#[test]
fn delayed_will_deadlines_have_bounded_due_work() {
    let limits = Limits::default();
    let broker = Hub::new(limits.clone());
    {
        let mut state = broker.state();
        for index in 0..5 {
            let owner = auth(&format!("will-index-{index}")).device_key;
            let message = BrokerMessage {
                topic: format!("v1/t/t/p/p/d/will-index-{index}/up"),
                payload: vec![index as u8],
                qos: 1,
                retain: false,
                properties: Default::default(),
            };
            assert!(state.may_hold_will(&owner.tenant_id, message.bytes()));
            state.future_wills.push(
                PendingWill {
                    owner,
                    origin: None,
                    message,
                    due_at_ms: Some(NOW - 1),
                    cancel_on_resume: Some((
                        SessionKey {
                            device: auth(&format!("will-index-{index}")).device_key,
                            client_id: format!("client-{index}"),
                        },
                        1,
                    )),
                    message_expiry_interval: None,
                    retained_reservation: RetainedReservation::default(),
                    counted: true,
                },
            );
        }
        assert_accounting_consistent(&state);
        state.promote_due_wills(NOW, 3);
        assert_eq!(state.pending_wills.len(), 3);
        assert_eq!(state.pending_will_count(), 5);
        assert_accounting_consistent(&state);
        assert_eq!(state.retry_pending_wills_bounded(NOW, 3), 3);
        assert_eq!(state.pending_will_count(), 2);
        assert_accounting_consistent(&state);
    }
    broker.tick().unwrap();
    assert_eq!(broker.pending_will_count(), 0);
    assert_broker_accounting(&broker);
}

fn auth(device: &str) -> AuthenticatedDevice {
    AuthenticatedDevice {
        device_key: DeviceKey {
            tenant_id: TenantId::new("t").unwrap(),
            product_id: ProductId::new("p").unwrap(),
            device_id: DeviceId::new(device).unwrap(),
        },
        credential_version: 1,
        auth_generation: 1,
        codec_id: CodecId::new("json").unwrap(),
        codec_version: 1,
        permissions: Permissions {
            publish: true,
            commands: true,
        },
    }
}

#[test]
fn v5_delayed_will_is_bounded_cancelled_on_resume_and_recovers() {
    let limits = Limits::default();
    let broker = Hub::new(limits.clone());
    let device = auth("will-delay");
    let topic = "v1/t/t/p/p/d/will-delay/up";
    let mut attachment = broker
        .attach_v5(&device, "client".into(), false, 60, 4)
        .unwrap();
    let mut will = broker
        .reserve_will(
            device.device_key.clone(),
            BrokerMessage {
                topic: topic.into(),
                payload: b"delayed".to_vec(),
                qos: 1,
                retain: true,
                properties: PublishProperties {
                    expires_at_ms: Some(i64::MAX),
                    ..Default::default()
                },
            },
        )
        .unwrap();
    will.arm_v5(
        attachment.key.clone(),
        attachment.session_incarnation,
        attachment.generation,
        2,
        60,
        Some(5),
    );
    attachment.detach().unwrap();
    assert!(will.publish_v5().unwrap().is_none());
    assert_eq!(broker.pending_will_count(), 1);
    assert!(!broker.has_retained_topic(topic));
    let mut resumed = broker
        .attach_v5(&device, "client".into(), false, 60, 4)
        .unwrap();
    assert!(resumed.session_present);
    assert_eq!(broker.pending_will_count(), 0);
    resumed.detach().unwrap();

    let mut will = broker
        .reserve_will_for_session(
            resumed.key.clone(),
            BrokerMessage {
                topic: topic.into(),
                payload: b"recover".to_vec(),
                qos: 1,
                retain: true,
                properties: PublishProperties {
                    expires_at_ms: Some(i64::MAX),
                    ..Default::default()
                },
            },
        )
        .unwrap();
    will.arm_v5(
        resumed.key.clone(),
        resumed.session_incarnation,
        resumed.generation,
        2,
        60,
        Some(5),
    );
    assert!(will.publish_v5().unwrap().is_none());
    let image = broker.commit().unwrap();
    let recovered = Hub::new(limits);
    recovered.recover(&image).unwrap();
    assert_eq!(recovered.pending_will_count(), 1);
    assert_eq!(
        recovered.state().future_wills[0].origin,
        Some(resumed.key.clone())
    );
    assert!(!recovered.has_retained_topic(topic));
    {
        let mut state = recovered.state();
        state.future_wills[0].due_at_ms = Some(NOW - 1);
    }
    recovered.tick().unwrap();
    assert_eq!(recovered.pending_will_count(), 0);
    assert!(recovered.has_retained_topic(topic));
    let state = recovered.state();
    assert!(
        state.retained[state.find_retained(topic).unwrap()]
            .message
            .properties
            .expires_at_ms
            .unwrap()
            > NOW
    );
    drop(state);
}

#[test]
fn takeover_same_session_positive_delay_suppresses_will() {
    let broker = Hub::new(Limits::default());
    let device = auth("will-takeover");
    let topic = "v1/t/t/p/p/d/will-takeover/up";
    let mut old = broker
        .attach_v5(&device, "client".into(), false, 60, 4)
        .unwrap();
    let mut will = broker
        .reserve_will(
            device.device_key.clone(),
            BrokerMessage {
                topic: topic.into(),
                payload: b"old".to_vec(),
                qos: 1,
                retain: true,
                properties: Default::default(),
            },
        )
        .unwrap();
    will.arm_v5(
        old.key.clone(),
        old.session_incarnation,
        old.generation,
        30,
        60,
        None,
    );
    let mut resumed = broker
        .attach_v5(&device, "client".into(), false, 60, 4)
        .unwrap();
    assert_eq!(resumed.session_incarnation, old.session_incarnation);
    old.detach().unwrap();
    assert!(will.publish_v5().unwrap().is_none());
    assert_eq!(broker.pending_will_count(), 0);
    assert!(!broker.has_retained_topic(topic));
    resumed.detach().unwrap();
}

#[test]
fn takeover_clean_start_publishes_old_will() {
    let broker = Hub::new(Limits::default());
    let device = auth("will-clean-takeover");
    let topic = "v1/t/t/p/p/d/will-clean-takeover/up";
    let mut resumed = broker
        .attach_v5(&device, "client".into(), false, 60, 4)
        .unwrap();
    let mut will = broker
        .reserve_will(
            device.device_key.clone(),
            BrokerMessage {
                topic: topic.into(),
                payload: b"ended".to_vec(),
                qos: 1,
                retain: true,
                properties: Default::default(),
            },
        )
        .unwrap();
    will.arm_v5(
        resumed.key.clone(),
        resumed.session_incarnation,
        resumed.generation,
        30,
        60,
        None,
    );
    let mut fresh = broker
        .attach_v5(&device, "client".into(), true, 60, 4)
        .unwrap();
    assert!(!fresh.session_present);
    resumed.detach().unwrap();
    assert!(will.publish_v5().unwrap().is_some());
    assert!(broker.has_retained_topic(topic));
    fresh.detach().unwrap();
}

#[test]
fn takeover_same_session_zero_delay_publishes_will() {
    let broker = Hub::new(Limits::default());
    let device = auth("immediate-will-takeover");
    let topic = "v1/t/t/p/p/d/immediate-will-takeover/up";
    let mut old = broker
        .attach_v5(&device, "client".into(), false, 60, 4)
        .unwrap();
    let mut will = broker
        .reserve_will(
            device.device_key.clone(),
            BrokerMessage {
                topic: topic.into(),
                payload: b"old".to_vec(),
                qos: 1,
                retain: true,
                properties: Default::default(),
            },
        )
        .unwrap();
    will.arm_v5(
        old.key.clone(),
        old.session_incarnation,
        old.generation,
        0,
        60,
        None,
    );
    let mut resumed = broker
        .attach_v5(&device, "client".into(), false, 60, 4)
        .unwrap();
    old.detach().unwrap();
    assert!(will.publish_v5().unwrap().is_some());
    assert!(broker.has_retained_topic(topic));
    resumed.detach().unwrap();
}

#[test]
fn takeover_clean_start_zero_delay_publishes_old_will() {
    let broker = Hub::new(Limits::default());
    let device = auth("immediate-will-takeover");
    let topic = "v1/t/t/p/p/d/immediate-will-takeover/up";
    let mut resumed = broker
        .attach_v5(&device, "client".into(), false, 60, 4)
        .unwrap();
    let mut will = broker
        .reserve_will(
            device.device_key.clone(),
            BrokerMessage {
                topic: topic.into(),
                payload: b"new".to_vec(),
                qos: 1,
                retain: true,
                properties: Default::default(),
            },
        )
        .unwrap();
    will.arm_v5(
        resumed.key.clone(),
        resumed.session_incarnation,
        resumed.generation,
        0,
        60,
        None,
    );
    let mut fresh = broker
        .attach_v5(&device, "client".into(), true, 60, 4)
        .unwrap();
    resumed.detach().unwrap();
    assert!(will.publish_v5().unwrap().is_some());
    assert!(broker.has_retained_topic(topic));
    fresh.detach().unwrap();
}

#[test]
fn inbound_qos2_completion_wakes_waiting_outbound_qos2() {
    let limits = Limits {
        max_inflight_qos2_per_session: 1,
        ..Limits::default()
    };
    let broker = Hub::new(limits);
    let device = auth("qos2-self-route");
    let topic = "v1/t/t/p/p/d/qos2-self-route/up";
    let mut attachment = broker.attach(&device, "client".into(), false).unwrap();
    broker
        .subscribe(&attachment.key, attachment.generation, topic, 2)
        .unwrap();
    let message = BrokerMessage {
        topic: topic.into(),
        payload: b"payload".to_vec(),
        qos: 2,
        retain: false,
        properties: Default::default(),
    };
    broker
        .inbound_qos2(&attachment.key, attachment.generation, 7, message)
        .unwrap();
    let InboundQos2Action::Deliver {
        session_incarnation,
        operation_id,
        ..
    } = broker
        .begin_inbound_qos2_delivery(&attachment.key, attachment.generation, 7)
        .unwrap()
    else {
        panic!("inbound QoS2 should be ready to deliver");
    };
    broker
        .finish_inbound_qos2_delivery(&attachment.key, session_incarnation, 7, operation_id)
        .unwrap();
    broker
        .route_inbound_qos2(
            &attachment.key,
            session_incarnation,
            7,
            operation_id,
            &device.device_key,
        )
        .unwrap();
    let BrokerFrame::Publish(delivery) = attachment.receiver.try_recv().unwrap() else {
        panic!("waiting subscriber copy should advance without another packet");
    };
    assert_eq!(delivery.message.payload, b"payload");
    assert_eq!(delivery.message.qos, 2);
    assert_eq!(broker.offline_count(), 0);
    attachment.detach().unwrap();
}

#[test]
fn mqtt_qos0_live_delivery_obeys_byte_budget() {
    let device = auth("byte-budget");
    let topic = "v1/t/t/p/p/d/byte-budget/up";
    let message = BrokerMessage {
        topic: topic.into(),
        payload: vec![7; 512],
        qos: 0,
        retain: false,
        properties: Default::default(),
    };
    let charge = message.bytes();
    let limits = Limits {
        max_outbound_bytes_per_connection: charge,
        max_outbound_bytes_per_tenant: charge * 2,
        max_outbound_bytes: charge * 3,
        ..Limits::default()
    };
    let broker = Hub::new(limits);
    let mut attachment = broker.attach(&device, "client".into(), false).unwrap();
    broker
        .subscribe(&attachment.key, attachment.generation, topic, 0)
        .unwrap();
    assert_eq!(
        broker.route(&device.device_key, message.clone()).unwrap(),
        1
    );
    for _ in 0..100 {
        assert_eq!(
            broker.route(&device.device_key, message.clone()).unwrap(),
            0
        );
    }
    assert_eq!(broker.room(&attachment), (0, charge, charge * 2));
    let frame = attachment.receiver.take().unwrap();
    assert_eq!(broker.room(&attachment).0, 0);
    attachment.receiver.written(&frame);
    assert_eq!(broker.room(&attachment), (charge, charge * 2, charge * 3));
    attachment.detach().unwrap();
}

#[test]
fn mqtt_live_delivery_obeys_tenant_and_global_byte_budgets() {
    let message = |tenant: &str, device: &str| BrokerMessage {
        topic: format!("v1/t/{tenant}/p/p/d/{device}/up"),
        payload: vec![3; 256],
        qos: 0,
        retain: false,
        properties: Default::default(),
    };
    let charge = message("t", "aa").bytes();
    let broker = Hub::new(Limits {
        max_outbound_bytes_per_connection: charge,
        max_outbound_bytes_per_tenant: charge * 2,
        max_outbound_bytes: charge * 3,
        ..Limits::default()
    });
    let mut attachments = Vec::new();
    for (tenant, name) in [
        ("t", "aa"),
        ("t", "bb"),
        ("t", "cc"),
        ("u", "dd"),
        ("u", "ee"),
    ] {
        let mut device = auth(name);
        device.device_key.tenant_id = TenantId::new(tenant).unwrap();
        let attachment = broker.attach(&device, name.into(), false).unwrap();
        broker
            .subscribe(
                &attachment.key,
                attachment.generation,
                &message(tenant, name).topic,
                0,
            )
            .unwrap();
        attachments.push((device, attachment));
    }
    for (index, expected) in [(0, 1), (1, 1), (2, 0), (3, 1), (4, 0)] {
        let (device, _) = &attachments[index];
        assert_eq!(
            broker
                .route(
                    &device.device_key,
                    message(
                        device.device_key.tenant_id.as_str(),
                        device.device_key.device_id.as_str()
                    )
                )
                .unwrap(),
            expected,
        );
    }
    assert_eq!(broker.global_room(), 0);
    for index in [0, 1, 3] {
        drop(attachments[index].1.receiver.try_recv().unwrap());
    }
    assert_eq!(broker.global_room(), charge * 3);
    let (device, _) = &attachments[2];
    assert_eq!(
        broker
            .route(&device.device_key, message("t", "cc"))
            .unwrap(),
        1
    );
    drop(attachments[2].1.receiver.try_recv().unwrap());
    for (_, mut attachment) in attachments {
        attachment.detach().unwrap();
    }
}

#[test]
fn released_global_outbound_bytes_wake_another_tenant() {
    let mut first_device = auth("aa");
    first_device.device_key.tenant_id = TenantId::new("t").unwrap();
    let mut second_device = auth("bb");
    second_device.device_key.tenant_id = TenantId::new("u").unwrap();
    let message = |tenant: &str, device: &str| BrokerMessage {
        topic: format!("v1/t/{tenant}/p/p/d/{device}/up"),
        payload: vec![5; 256],
        qos: 1,
        retain: false,
        properties: Default::default(),
    };
    let charge = message("t", "aa").bytes();
    let broker = Hub::new(Limits {
        max_outbound_bytes_per_connection: charge,
        max_outbound_bytes_per_tenant: charge,
        max_outbound_bytes: charge,
        ..Limits::default()
    });
    let mut first = broker.attach(&first_device, "first".into(), false).unwrap();
    let mut second = broker
        .attach(&second_device, "second".into(), false)
        .unwrap();
    broker
        .subscribe(&first.key, first.generation, &message("t", "aa").topic, 1)
        .unwrap();
    broker
        .subscribe(&second.key, second.generation, &message("u", "bb").topic, 1)
        .unwrap();
    broker
        .route(&first_device.device_key, message("t", "aa"))
        .unwrap();
    broker
        .route(&second_device.device_key, message("u", "bb"))
        .unwrap();
    assert_eq!(
        broker.session(&second.key)
            .offline
            .len(),
        1
    );
    assert!(second.receiver.try_recv().is_err());
    drop(first.receiver.try_recv().unwrap());
    broker.outbound_bytes_released().unwrap();
    let BrokerFrame::Publish(delivery) = second.receiver.try_recv().unwrap() else {
        panic!("released global byte budget must wake waiting tenant");
    };
    assert_eq!(delivery.message.payload, vec![5; 256]);
    drop(delivery);
    assert_eq!(broker.global_room(), charge);
    first.detach().unwrap();
    second.detach().unwrap();
}

#[test]
fn released_global_bytes_wake_deferred_reconnect_replay() {
    let mut first_device = auth("aa");
    first_device.device_key.tenant_id = TenantId::new("t").unwrap();
    let mut second_device = auth("bb");
    second_device.device_key.tenant_id = TenantId::new("u").unwrap();
    let message = |tenant: &str, device: &str| BrokerMessage {
        topic: format!("v1/t/{tenant}/p/p/d/{device}/up"),
        payload: vec![3; 256],
        qos: 1,
        retain: false,
        properties: Default::default(),
    };
    let charge = message("t", "aa").bytes();
    let broker = Hub::new(Limits {
        max_outbound_bytes_per_connection: charge,
        max_outbound_bytes_per_tenant: charge,
        max_outbound_bytes: charge,
        ..Limits::default()
    });
    let mut second = broker
        .attach(&second_device, "second".into(), false)
        .unwrap();
    broker
        .subscribe(&second.key, second.generation, &message("u", "bb").topic, 1)
        .unwrap();
    broker
        .route(&second_device.device_key, message("u", "bb"))
        .unwrap();
    let BrokerFrame::Publish(original) = second.receiver.try_recv().unwrap() else {
        panic!("expected first transfer")
    };
    let original_id = original.packet_id;
    drop(original);
    second.detach().unwrap();

    let mut first = broker.attach(&first_device, "first".into(), false).unwrap();
    broker
        .subscribe(&first.key, first.generation, &message("t", "aa").topic, 1)
        .unwrap();
    broker
        .route(&first_device.device_key, message("t", "aa"))
        .unwrap();
    let mut resumed = broker
        .attach(&second_device, "second".into(), false)
        .unwrap();
    assert!(resumed.receiver.try_recv().is_err());
    assert!(
        broker.state().pending.get(&resumed.key).is_some()
    );
    drop(first.receiver.try_recv().unwrap());
    broker.outbound_bytes_released().unwrap();
    let BrokerFrame::Publish(replayed) = resumed.receiver.try_recv().unwrap() else {
        panic!("byte release must wake the deferred QoS replay")
    };
    assert_eq!(replayed.packet_id, original_id);
    assert!(replayed.dup);
    drop(replayed);
    first.detach().unwrap();
    resumed.detach().unwrap();
}

#[test]
fn mqtt_retained_replay_obeys_byte_budget() {
    let device = auth("retained-byte");
    let first_topic = "v1/t/t/p/p/d/retained-byte/up";
    let second_topic = "v1/t/t/p/p/d/retained-byte/down_ack";
    let message = |topic: &str| BrokerMessage {
        topic: topic.into(),
        payload: vec![9; 512],
        qos: 0,
        retain: true,
        properties: Default::default(),
    };
    let charge = message(second_topic).bytes();
    let limits = Limits {
        max_outbound_bytes_per_connection: charge,
        max_outbound_bytes_per_tenant: charge * 2,
        max_outbound_bytes: charge * 3,
        ..Limits::default()
    };
    let broker = Hub::new(limits);
    broker
        .route(&device.device_key, message(first_topic))
        .unwrap();
    broker
        .route(&device.device_key, message(second_topic))
        .unwrap();
    let mut attachment = broker.attach(&device, "client".into(), false).unwrap();
    let wildcard = "v1/t/t/p/p/d/retained-byte/#";
    assert!(
        broker
            .subscribe(&attachment.key, attachment.generation, wildcard, 0)
            .is_err()
    );
    assert_eq!(
        broker
            .subscription_qos(&attachment.key, first_topic),
        None
    );
    assert_eq!(broker.global_room(), charge * 3);
    broker
        .subscribe(&attachment.key, attachment.generation, first_topic, 0)
        .unwrap();
    let frame = attachment.receiver.take().unwrap();
    assert!(matches!(frame, BrokerFrame::Publish(_)));
    assert!(broker.global_room() < charge * 3);
    attachment.receiver.written(&frame);
    assert_eq!(broker.global_room(), charge * 3);
    attachment.detach().unwrap();
}

#[test]
fn v5_client_receive_maximum_defers_second_publish_until_ack() {
    let broker = Hub::new(Limits::default());
    let device = auth("receive-max");
    let topic = "v1/t/t/p/p/d/receive-max/up";
    let mut attachment = broker
        .attach_v5(&device, "client".into(), false, 60, 1)
        .unwrap();
    broker
        .subscribe_v5(
            &attachment.key,
            attachment.generation,
            topic,
            SubscriptionOptions {
                qos: 1,
                no_local: false,
                retain_as_published: false,
                retain_handling: 0,
            },
        )
        .unwrap();
    for payload in [b"first".to_vec(), b"second".to_vec()] {
        broker
            .route_from_session(
                &attachment.key,
                BrokerMessage {
                    topic: topic.into(),
                    payload,
                    qos: 1,
                    retain: false,
                    properties: Default::default(),
                },
            )
            .unwrap();
    }
    let BrokerFrame::Publish(first) = attachment.receiver.try_recv().unwrap() else {
        panic!("expected first PUBLISH")
    };
    assert_eq!(first.message.payload, b"first");
    assert!(attachment.receiver.try_recv().is_err());
    assert_eq!(broker.offline_count(), 1);
    broker
        .puback(
            &attachment.key,
            attachment.generation,
            first.packet_id.unwrap(),
        )
        .unwrap();
    let second = match attachment.receiver.try_recv() {
        Ok(frame) => frame,
        Err(_) => broker
            .next_offline(&attachment.key, attachment.generation)
            .unwrap()
            .unwrap(),
    };
    let BrokerFrame::Publish(second) = second else {
        panic!("expected deferred PUBLISH")
    };
    assert_eq!(second.message.payload, b"second");
    assert_eq!(broker.offline_count(), 0);
    attachment.detach().unwrap();
}

#[test]
fn receive_maximum_1_qos2_waits_for_pubcomp() {
    let broker = Hub::new(Limits::default());
    let device = auth("qos2-window");
    let topic = "v1/t/t/p/p/d/qos2-window/up";
    let mut attachment = broker
        .attach_v5(&device, "client".into(), false, 60, 1)
        .unwrap();
    broker
        .subscribe(&attachment.key, attachment.generation, topic, 2)
        .unwrap();
    for payload in [b"first".to_vec(), b"second".to_vec()] {
        broker
            .route_from_session(
                &attachment.key,
                BrokerMessage {
                    topic: topic.into(),
                    payload,
                    qos: 2,
                    retain: false,
                    properties: Default::default(),
                },
            )
            .unwrap();
    }
    let BrokerFrame::Publish(first) = attachment.receiver.try_recv().unwrap() else {
        panic!("expected first QoS2 PUBLISH")
    };
    let id = first.packet_id.unwrap();
    assert_eq!(first.message.payload, b"first");
    assert!(attachment.receiver.try_recv().is_err());
    assert!(matches!(
        broker.pubrec(&attachment.key, attachment.generation, id).unwrap(),
        BrokerFrame::Pubrel { packet_id, dup: false } if packet_id == id
    ));
    assert!(
        broker
            .next_offline(&attachment.key, attachment.generation)
            .unwrap()
            .is_none()
    );
    assert!(attachment.receiver.try_recv().is_err());
    assert!(matches!(
        broker.pubrec(&attachment.key, attachment.generation, id).unwrap(),
        BrokerFrame::Pubrel { packet_id, dup: true } if packet_id == id
    ));
    assert!(!broker.session(&attachment.key).has_send_quota());
    broker
        .pubcomp(&attachment.key, attachment.generation, id)
        .unwrap();
    assert!(matches!(
        broker.pubcomp(&attachment.key, attachment.generation, id),
        Err(Error::Invalid)
    ));
    let second = match attachment.receiver.try_recv() {
        Ok(frame) => frame,
        Err(_) => broker
            .next_offline(&attachment.key, attachment.generation)
            .unwrap()
            .unwrap(),
    };
    let BrokerFrame::Publish(second) = second else {
        panic!("expected second QoS2 PUBLISH")
    };
    assert_eq!(second.message.payload, b"second");
    attachment.detach().unwrap();
}

#[test]
fn qos2_negative_pubrec_releases_send_quota() {
    let broker = Hub::new(Limits::default());
    let device = auth("qos2-rejected");
    let topic = "v1/t/t/p/p/d/qos2-rejected/up";
    let mut attachment = broker
        .attach_v5(&device, "client".into(), false, 60, 1)
        .unwrap();
    broker
        .subscribe(&attachment.key, attachment.generation, topic, 2)
        .unwrap();
    for payload in [b"first".to_vec(), b"second".to_vec()] {
        broker
            .route_from_session(
                &attachment.key,
                BrokerMessage {
                    topic: topic.into(),
                    payload,
                    qos: 2,
                    retain: false,
                    properties: Default::default(),
                },
            )
            .unwrap();
    }
    let BrokerFrame::Publish(first) = attachment.receiver.try_recv().unwrap() else {
        panic!("expected first PUBLISH")
    };
    broker
        .pubrec_rejected(
            &attachment.key,
            attachment.generation,
            first.packet_id.unwrap(),
        )
        .unwrap();
    let second = broker
        .next_offline(&attachment.key, attachment.generation)
        .unwrap()
        .or_else(|| attachment.receiver.try_recv().ok())
        .unwrap();
    assert!(
        matches!(second, BrokerFrame::Publish(delivery) if delivery.message.payload == b"second")
    );
    attachment.detach().unwrap();
}

#[test]
fn reconnect_await_pubcomp_does_not_consume_new_send_window() {
    let broker = Hub::new(Limits::default());
    let device = auth("qos2-resume-window");
    let topic = "v1/t/t/p/p/d/qos2-resume-window/up";
    let mut old = broker
        .attach_v5(&device, "client".into(), false, 60, 1)
        .unwrap();
    broker
        .subscribe(&old.key, old.generation, topic, 2)
        .unwrap();
    for payload in [b"first".to_vec(), b"second".to_vec()] {
        broker
            .route_from_session(
                &old.key,
                BrokerMessage {
                    topic: topic.into(),
                    payload,
                    qos: 2,
                    retain: false,
                    properties: Default::default(),
                },
            )
            .unwrap();
    }
    let BrokerFrame::Publish(first) = old.receiver.try_recv().unwrap() else {
        panic!("expected first PUBLISH")
    };
    let first_id = first.packet_id.unwrap();
    broker.pubrec(&old.key, old.generation, first_id).unwrap();
    old.detach().unwrap();
    let mut resumed = broker
        .attach_v5(&device, "client".into(), false, 60, 1)
        .unwrap();
    assert!(resumed.session_present);
    assert!(matches!(
        resumed.receiver.try_recv().unwrap(),
        BrokerFrame::Pubrel { packet_id, dup: true } if packet_id == first_id
    ));
    let second = resumed.receiver.try_recv().unwrap();
    assert!(matches!(second, BrokerFrame::Publish(_)));
    resumed.detach().unwrap();
}

#[test]
fn v5_server_receive_maximum_counts_qos1_against_pending_qos2() {
    let limits = Limits {
        max_inflight_qos1_per_session: 2,
        max_inflight_qos2_per_session: 2,
        ..Default::default()
    };
    let broker = Hub::new(limits);
    let device = auth("server-receive-max");
    let mut attachment = broker
        .attach_v5(&device, "client".into(), false, 60, 2)
        .unwrap();
    let message = BrokerMessage {
        topic: "v1/t/t/p/p/d/server-receive-max/up".into(),
        payload: b"data".to_vec(),
        qos: 2,
        retain: false,
        properties: Default::default(),
    };
    for id in [1, 2] {
        assert!(
            broker
                .inbound_receive_available(&attachment.key, attachment.generation, 2, id)
                .unwrap()
        );
        broker
            .inbound_qos2(&attachment.key, attachment.generation, id, message.clone())
            .unwrap();
    }
    assert!(
        broker
            .inbound_receive_available(&attachment.key, attachment.generation, 2, 1)
            .unwrap()
    );
    assert!(
        !broker
            .inbound_receive_available(&attachment.key, attachment.generation, 1, 3)
            .unwrap()
    );
    assert!(
        !broker
            .inbound_receive_available(&attachment.key, attachment.generation, 2, 3)
            .unwrap()
    );
    attachment.detach().unwrap();
}

#[test]
fn persistent_inbound_qos2_does_not_consume_new_connection_receive_window() {
    let limits = Limits {
        max_inflight_qos1_per_session: 1,
        max_inflight_qos2_per_session: 2,
        ..Default::default()
    };
    let broker = Hub::new(limits);
    let device = auth("inbound-window-reconnect");
    let mut first = broker
        .attach_v5(&device, "client".into(), false, 60, 2)
        .unwrap();
    broker
        .inbound_qos2(
            &first.key,
            first.generation,
            7,
            BrokerMessage {
                topic: "v1/t/t/p/p/d/inbound-window-reconnect/up".into(),
                payload: b"old".to_vec(),
                qos: 2,
                retain: false,
                properties: Default::default(),
            },
        )
        .unwrap();
    assert!(
        !broker
            .inbound_receive_available(&first.key, first.generation, 1, 8)
            .unwrap()
    );
    first.detach().unwrap();
    let mut resumed = broker
        .attach_v5(&device, "client".into(), false, 60, 2)
        .unwrap();
    assert!(resumed.session_present);
    assert!(
        broker
            .inbound_receive_available(&resumed.key, resumed.generation, 1, 8)
            .unwrap()
    );
    assert!(
        broker
            .inbound_receive_available(&resumed.key, resumed.generation, 2, 7)
            .unwrap()
    );
    resumed.detach().unwrap();
}

#[test]
fn v5_qos2_retransmission_keeps_first_message_expiry_deadline() {
    let broker = Hub::new(Limits::default());
    let device = auth("qos2-expiry");
    let mut attachment = broker
        .attach_v5(&device, "client".into(), false, 60, 2)
        .unwrap();
    let deadline = NOW + 5_000;
    let message = BrokerMessage {
        topic: "v1/t/t/p/p/d/qos2-expiry/up".into(),
        payload: b"first".to_vec(),
        qos: 2,
        retain: false,
        properties: PublishProperties {
            expires_at_ms: Some(deadline),
            ..Default::default()
        },
    };
    assert!(
        broker
            .inbound_qos2(&attachment.key, attachment.generation, 7, message.clone())
            .unwrap()
    );
    let mut retransmit = message.clone();
    retransmit.properties.expires_at_ms = Some(deadline + 1_000);
    assert!(
        !broker
            .inbound_qos2(
                &attachment.key,
                attachment.generation,
                7,
                retransmit.clone()
            )
            .unwrap()
    );
    let stored = broker
        .inbound_qos2_message(&attachment.key, attachment.generation, 7)
        .unwrap()
        .unwrap();
    assert_eq!(stored.0.properties.expires_at_ms, Some(deadline));
    let accounting = transaction_accounting(&broker, &attachment.key);
    retransmit.payload = b"different".to_vec();
    assert!(
        !broker
            .inbound_qos2(
                &attachment.key,
                attachment.generation,
                7,
                retransmit.clone()
            )
            .unwrap()
    );
    retransmit = message.clone();
    retransmit.topic = "v1/t/t/p/p/d/qos2-expiry/down".into();
    assert!(
        !broker
            .inbound_qos2(&attachment.key, attachment.generation, 7, retransmit)
            .unwrap()
    );
    retransmit = message.clone();
    retransmit.properties.content_type = Some("other".into());
    assert!(
        !broker
            .inbound_qos2(&attachment.key, attachment.generation, 7, retransmit)
            .unwrap()
    );
    assert_eq!(transaction_accounting(&broker, &attachment.key), accounting);
    attachment.detach().unwrap();
}

fn qos2_duplicate_case() -> (Hub, Client, BrokerMessage) {
    let broker = Hub::new(Limits::default());
    let device = auth("qos2-duplicate");
    let attachment = broker
        .attach_v5(&device, "client".into(), false, 60, 2)
        .unwrap();
    let message = BrokerMessage {
        topic: "v1/t/t/p/p/d/qos2-duplicate/up".into(),
        payload: b"original".to_vec(),
        qos: 2,
        retain: true,
        properties: Default::default(),
    };
    assert!(
        broker
            .inbound_qos2(&attachment.key, attachment.generation, 7, message.clone())
            .unwrap()
    );
    (broker, attachment, message)
}

#[test]
fn inbound_qos2_classification_is_read_only_and_generation_fenced() {
    let (broker, mut old, _) = qos2_duplicate_case();
    let before = transaction_accounting(&broker, &old.key);
    assert_eq!(
        broker
            .classify_inbound_qos2_publish(&old.key, old.generation, 7)
            .unwrap(),
        InboundQos2PublishState::ExistingTransaction
    );
    assert_eq!(
        broker
            .classify_inbound_qos2_publish(&old.key, old.generation, 8)
            .unwrap(),
        InboundQos2PublishState::NeedsNewMessageAdmission
    );
    assert_eq!(transaction_accounting(&broker, &old.key), before);

    let device = auth("qos2-duplicate");
    let mut replacement = broker
        .attach_v5(&device, "client".into(), false, 60, 2)
        .unwrap();
    assert!(matches!(
        broker.classify_inbound_qos2_publish(&old.key, old.generation, 7),
        Err(Error::Conflict)
    ));
    let resumed = transaction_accounting(&broker, &replacement.key);
    assert_eq!(
        broker
            .classify_inbound_qos2_publish(&replacement.key, replacement.generation, 7)
            .unwrap(),
        InboundQos2PublishState::ExistingTransaction
    );
    assert_eq!(transaction_accounting(&broker, &replacement.key), resumed);
    old.detach().unwrap();
    replacement.detach().unwrap();
}

#[test]
fn generated_client_id_never_replaces_explicit_or_recovered_session() {
    let broker = Hub::new(Limits::default());
    let identity = auth("generated-id");
    let mut explicit = broker
        .attach_v5(&identity, "generated-2".into(), false, 60, 4)
        .unwrap();
    let filter = "v1/t/t/p/p/d/generated-id/up";
    broker
        .subscribe(&explicit.key, explicit.generation, filter, 1)
        .unwrap();
    explicit.detach().unwrap();
    let recovered = Hub::new(Limits::default());
    recovered.restore(broker.snapshot()).unwrap();
    let mut assigned = recovered
        .attach_generated_v5(&identity, 60, 4, |_: &str| Ok(()))
        .unwrap();
    assert_ne!(assigned.key.client_id, "generated-2");
    assigned.detach().unwrap();
    let mut resumed = recovered
        .attach_v5(&identity, "generated-2".into(), false, 60, 4)
        .unwrap();
    assert!(resumed.session_present);
    assert_eq!(
        recovered.subscription_qos(&resumed.key, filter),
        Some(1)
    );
    resumed.detach().unwrap();
}

#[test]
fn v5_pending_will_record_remains_readable_without_origin_field() {
    let limits = Limits::default();
    let owner = auth("legacy-will").device_key;
    let message = BrokerMessage {
        topic: "v1/t/t/p/p/d/legacy-will/up".into(),
        payload: b"old".to_vec(),
        qos: 1,
        retain: false,
        properties: Default::default(),
    };
    let mut payload = Vec::new();
    put_string(&mut payload, owner.tenant_id.as_str()).unwrap();
    put_string(&mut payload, owner.product_id.as_str()).unwrap();
    put_string(&mut payload, owner.device_id.as_str()).unwrap();
    encode_message(&mut payload, &message).unwrap();
    payload.extend_from_slice(&[0, 0]); // no delayed cancellation or expiry
    let mut header = Vec::new();
    header.extend_from_slice(b"NBMQ");
    header.extend_from_slice(&RECOVERY_VERSION_V5.to_be_bytes());
    header.extend_from_slice(&1_u64.to_be_bytes());
    let mut record = Vec::new();
    record.push(RECORD_PENDING_WILL);
    record.extend_from_slice(&(payload.len() as u32).to_be_bytes());
    record.extend_from_slice(&payload);
    record.extend_from_slice(&Sha256::digest(&payload));
    let mut stream_hash = Sha256::new();
    stream_hash.update(&header);
    stream_hash.update(&record);
    let mut image = header.clone();
    image.extend_from_slice(&Sha256::digest(&header));
    image.extend_from_slice(&record);
    image.extend_from_slice(b"NEND");
    image.extend_from_slice(&1_u64.to_be_bytes());
    image.extend_from_slice(&(record.len() as u64).to_be_bytes());
    image.extend_from_slice(&stream_hash.finalize());
    let snapshot = decoded(&image, &limits).unwrap();
    assert_eq!(snapshot.format_version, RECOVERY_VERSION_V5);
    assert_eq!(snapshot.pending_wills.len(), 1);
    assert_eq!(snapshot.pending_wills[0].origin, None);
    Hub::new(limits).restore(snapshot).unwrap();
}

#[test]
fn concurrent_generated_client_ids_are_unique() {
    let broker = Hub::new(Limits::default());
    let identity = auth("generated-concurrent");
    let mut attachments = (0..16)
        .map(|_| {
            broker
                .attach_generated_v5(&identity, 60, 4, |_: &str| Ok(()))
                .unwrap()
        })
        .collect::<Vec<_>>();
    let ids = attachments
        .iter()
        .map(|attachment| attachment.key.client_id.clone())
        .collect::<BTreeSet<_>>();
    assert_eq!(ids.len(), attachments.len());
    for attachment in &mut attachments {
        attachment.detach().unwrap();
    }
}

#[test]
fn qos2_retransmission_charges_only_the_new_connection_window() {
    let limits = Limits {
        max_inflight_qos1_per_session: 2,
        max_inflight_qos2_per_session: 2,
        ..Default::default()
    };
    let broker = Hub::new(limits);
    let identity = auth("window-retransmit");
    let mut old = broker
        .attach_v5(&identity, "client".into(), false, 60, 4)
        .unwrap();
    let message = BrokerMessage {
        topic: "v1/t/t/p/p/d/window-retransmit/up".into(),
        payload: b"original".to_vec(),
        qos: 2,
        retain: false,
        properties: Default::default(),
    };
    for id in 1..=2 {
        broker
            .inbound_qos2(&old.key, old.generation, id, message.clone())
            .unwrap();
    }
    old.detach().unwrap();
    let mut resumed = broker
        .attach_v5(&identity, "client".into(), false, 60, 4)
        .unwrap();
    assert!(
        broker
            .inbound_receive_available(&resumed.key, resumed.generation, 1, 3)
            .unwrap()
    );
    for id in 1..=2 {
        assert!(
            broker
                .begin_inbound_qos2_retransmission(&resumed.key, resumed.generation, id)
                .unwrap()
        );
        assert!(
            broker
                .begin_inbound_qos2_retransmission(&resumed.key, resumed.generation, id)
                .unwrap()
        );
    }
    assert!(
        !broker
            .inbound_receive_available(&resumed.key, resumed.generation, 1, 3)
            .unwrap()
    );
    broker
        .finish_inbound_pubcomp(&resumed.key, resumed.generation, 1)
        .unwrap();
    assert!(
        broker
            .inbound_receive_available(&resumed.key, resumed.generation, 1, 3)
            .unwrap()
    );
    assert!(matches!(
        broker.classify_inbound_qos2_publish(&resumed.key, resumed.generation, 1),
        Ok(InboundQos2PublishState::ExistingTransaction)
    ));
    resumed.detach().unwrap();
}

#[test]
fn inbound_qos2_repeated_publish_before_pubrel_repeats_pubrec() {
    let (broker, mut attachment, message) = qos2_duplicate_case();
    assert!(
        !broker
            .inbound_qos2(&attachment.key, attachment.generation, 7, message)
            .unwrap()
    );
    assert!(matches!(
        broker.begin_inbound_qos2_delivery(&attachment.key, attachment.generation, 7),
        Ok(InboundQos2Action::Deliver { .. })
    ));
    attachment.detach().unwrap();
}

#[test]
fn inbound_qos2_repeated_publish_does_not_redeliver() {
    let (broker, mut attachment, message) = qos2_duplicate_case();
    let InboundQos2Action::Deliver {
        session_incarnation,
        operation_id,
        ..
    } = broker
        .begin_inbound_qos2_delivery(&attachment.key, attachment.generation, 7)
        .unwrap()
    else {
        panic!("original must be delivered")
    };
    broker
        .finish_inbound_qos2_delivery(&attachment.key, session_incarnation, 7, operation_id)
        .unwrap();
    assert!(
        !broker
            .inbound_qos2(&attachment.key, attachment.generation, 7, message)
            .unwrap()
    );
    assert!(matches!(
        broker.begin_inbound_qos2_delivery(&attachment.key, attachment.generation, 7),
        Ok(InboundQos2Action::EventAccepted { .. })
    ));
    attachment.detach().unwrap();
}

#[test]
fn inbound_qos2_repeated_publish_does_not_change_accounting() {
    let (broker, mut attachment, mut message) = qos2_duplicate_case();
    let before = transaction_accounting(&broker, &attachment.key);
    message.payload = b"different-and-larger".to_vec();
    message.retain = false;
    assert!(
        !broker
            .inbound_qos2(&attachment.key, attachment.generation, 7, message)
            .unwrap()
    );
    assert_eq!(transaction_accounting(&broker, &attachment.key), before);
    attachment.detach().unwrap();
}

#[test]
fn inbound_qos2_dup_flag_does_not_create_second_transaction() {
    let (broker, mut attachment, mut message) = qos2_duplicate_case();
    // The connection supplies identical broker state transitions for both wire DUP values.
    for _dup in [false, true] {
        message.payload.push(b'x');
        assert!(
            !broker
                .inbound_qos2(&attachment.key, attachment.generation, 7, message.clone())
                .unwrap()
        );
    }
    assert_eq!(
        transaction_accounting(&broker, &attachment.key).inbound_qos2_count,
        1
    );
    attachment.detach().unwrap();
}

#[test]
fn inbound_qos2_original_message_remains_authoritative_until_pubrel() {
    let (broker, mut attachment, message) = qos2_duplicate_case();
    let mut changed = message.clone();
    changed.payload = b"replacement".to_vec();
    changed.properties.content_type = Some("changed".into());
    assert!(
        !broker
            .inbound_qos2(&attachment.key, attachment.generation, 7, changed)
            .unwrap()
    );
    let InboundQos2Action::Deliver {
        message: delivered, ..
    } = broker
        .begin_inbound_qos2_delivery(&attachment.key, attachment.generation, 7)
        .unwrap()
    else {
        panic!("original must be delivered")
    };
    assert_eq!(delivered, message);
    attachment.detach().unwrap();
}

#[test]
fn inbound_qos2_pubcomp_releases_identifier_for_new_message() {
    let (broker, mut attachment, message) = qos2_duplicate_case();
    broker
        .complete_inbound_qos2(&attachment.key, attachment.generation, 7)
        .unwrap();
    broker
        .finish_inbound_pubcomp(&attachment.key, attachment.generation, 7)
        .unwrap();
    let mut next = message;
    next.payload = b"next".to_vec();
    assert!(
        broker
            .inbound_qos2(&attachment.key, attachment.generation, 7, next.clone())
            .unwrap()
    );
    assert_eq!(
        broker
            .inbound_qos2_message(&attachment.key, attachment.generation, 7)
            .unwrap()
            .unwrap()
            .0,
        next
    );
    attachment.detach().unwrap();
}

#[test]
fn qos1_started_publish_survives_message_expiry_until_puback() {
    let broker = Hub::new(Limits::default());
    let device = auth("started-qos1");
    let topic = "v1/t/t/p/p/d/started-qos1/up";
    let mut attachment = broker
        .attach_v5(&device, "client".into(), false, 60, 1)
        .unwrap();
    broker
        .subscribe(&attachment.key, attachment.generation, topic, 1)
        .unwrap();
    broker
        .route_from_session(
            &attachment.key,
            BrokerMessage {
                topic: topic.into(),
                payload: b"data".to_vec(),
                qos: 1,
                retain: false,
                properties: PublishProperties {
                    expires_at_ms: Some(NOW + 10_000),
                    ..Default::default()
                },
            },
        )
        .unwrap();
    let BrokerFrame::Publish(delivery) = attachment.receiver.try_recv().unwrap() else {
        panic!("expected PUBLISH")
    };
    let id = delivery.packet_id.unwrap();
    assert!(
        broker
            .begin_outbound_transfer(&attachment.key, attachment.generation, &delivery)
            .unwrap()
    );
    broker.edit(&attachment.key, |session| {
        let at = session.find_outbound(id).unwrap();
        let OutboundState::AwaitPuback(message) = &mut session.outbound[at].state else {
            panic!("expected AwaitPuback")
        };
        message.properties.expires_at_ms = Some(NOW - 1);
    });
    broker.tick().unwrap();
    assert!(
        broker.session(&attachment.key)
            .exchange(id).is_some()
    );
    broker
        .puback(&attachment.key, attachment.generation, id)
        .unwrap();
    assert!(
        broker.session(&attachment.key)
            .outbound
            .is_empty()
    );
    attachment.detach().unwrap();
}

#[test]
fn unsent_expired_message_is_dropped() {
    let broker = Hub::new(Limits::default());
    let device = auth("unsent-expiry");
    let topic = "v1/t/t/p/p/d/unsent-expiry/up";
    let mut attachment = broker
        .attach_v5(&device, "client".into(), false, 60, 1)
        .unwrap();
    broker
        .subscribe(&attachment.key, attachment.generation, topic, 1)
        .unwrap();
    broker
        .route_from_session(
            &attachment.key,
            BrokerMessage {
                topic: topic.into(),
                payload: b"data".to_vec(),
                qos: 1,
                retain: false,
                properties: PublishProperties {
                    expires_at_ms: Some(NOW + 10_000),
                    ..Default::default()
                },
            },
        )
        .unwrap();
    let BrokerFrame::Publish(delivery) = attachment.receiver.try_recv().unwrap() else {
        panic!("expected PUBLISH")
    };
    let id = delivery.packet_id.unwrap();
    broker.edit(&attachment.key, |session| {
        let at = session.find_outbound(id).unwrap();
        let OutboundState::AwaitPuback(message) = &mut session.outbound[at].state else {
            panic!("expected AwaitPuback")
        };
        message.properties.expires_at_ms = Some(NOW - 1);
    });
    broker.tick().unwrap();
    assert!(
        !broker
            .begin_outbound_transfer(&attachment.key, attachment.generation, &delivery)
            .unwrap()
    );
    assert!(
        broker.session(&attachment.key)
            .outbound
            .is_empty()
    );
    attachment.detach().unwrap();
}

fn oversized_delivery_is_settled_locally(qos: u8) {
    let broker = Hub::new(Limits::default());
    let device = auth(if qos == 1 {
        "oversized-qos1"
    } else {
        "oversized-qos2"
    });
    let topic = format!("v1/t/t/p/p/d/{}/up", device.device_key.device_id.as_str());
    let mut attachment = broker
        .attach_v5(&device, "client".into(), false, 60, 1)
        .unwrap();
    broker
        .subscribe(&attachment.key, attachment.generation, &topic, qos)
        .unwrap();
    for payload in [vec![b'x'; 128], b"small".to_vec()] {
        broker
            .route_from_session(
                &attachment.key,
                BrokerMessage {
                    topic: topic.clone(),
                    payload,
                    qos,
                    retain: false,
                    properties: Default::default(),
                },
            )
            .unwrap();
    }
    let BrokerFrame::Publish(first) = attachment.receiver.try_recv().unwrap() else {
        panic!("expected first PUBLISH")
    };
    let first_id = first.packet_id.unwrap();
    assert!(
        broker
            .begin_outbound_transfer(&attachment.key, attachment.generation, &first)
            .unwrap()
    );
    assert!(
        broker
            .discard_outbound(&attachment.key, attachment.generation, &first)
            .unwrap()
    );
    assert!(
        !broker
            .discard_outbound(&attachment.key, attachment.generation, &first)
            .unwrap()
    );
    assert!(
        !broker.session(&attachment.key)
            .exchange(first_id).is_some()
    );
    let next = attachment.receiver.try_recv().ok().or_else(|| {
        broker
            .next_offline(&attachment.key, attachment.generation)
            .unwrap()
    });
    let BrokerFrame::Publish(second) = next.unwrap() else {
        panic!("expected following PUBLISH")
    };
    assert_eq!(second.message.payload, b"small");
    assert_eq!(
        broker.session(&attachment.key).window_used(),
        1
    );
    attachment.detach().unwrap();
    let mut resumed = broker
        .attach_v5(&device, "client".into(), false, 60, 1)
        .unwrap();
    assert!(resumed.session_present);
    let BrokerFrame::Publish(resumed_delivery) = resumed.receiver.try_recv().unwrap() else {
        panic!("expected following PUBLISH on reconnect")
    };
    assert_eq!(resumed_delivery.message.payload, b"small");
    assert!(resumed.receiver.try_recv().is_err());
    resumed.detach().unwrap();
}

#[test]
fn oversized_qos1_delivery_is_settled_locally() {
    oversized_delivery_is_settled_locally(1);
}

#[test]
fn oversized_qos2_delivery_is_settled_locally() {
    oversized_delivery_is_settled_locally(2);
}

#[test]
fn command_is_rejected_when_send_quota_is_full() {
    let broker = Hub::new(Limits::default());
    let device = auth("command-expiry");
    let mut attachment = broker
        .attach_v5(&device, "client".into(), false, 60, 1)
        .unwrap();
    broker
        .subscribe(
            &attachment.key,
            attachment.generation,
            "v1/t/t/p/p/d/command-expiry/down",
            1,
        )
        .unwrap();
    let deadline = NOW + 10_000;
    let command = |payload: &[u8]| BrokerMessage {
        topic: "v1/t/t/p/p/d/command-expiry/down".into(),
        payload: payload.to_vec(),
        qos: 1,
        retain: false,
        properties: PublishProperties {
            expires_at_ms: Some(deadline),
            ..Default::default()
        },
    };
    broker
        .send_live(&attachment.key, attachment.generation, command(b"first"))
        .unwrap();
    assert!(matches!(
        broker.send_live(&attachment.key, attachment.generation, command(b"second")),
        Err(Error::Overloaded)
    ));
    let BrokerFrame::Publish(first) = attachment.receiver.try_recv().unwrap() else {
        panic!("expected first command")
    };
    assert_eq!(
        broker.session(&attachment.key)
            .offline
            .len(),
        0
    );
    broker
        .puback(
            &attachment.key,
            attachment.generation,
            first.packet_id.unwrap(),
        )
        .unwrap();
    assert!(
        broker
            .next_offline(&attachment.key, attachment.generation)
            .unwrap()
            .is_none()
    );
    attachment.detach().unwrap();
}

#[test]
fn command_requires_subscription_and_current_generation() {
    let broker = Hub::new(Limits::default());
    let device = auth("command-fence");
    let mut first = broker.attach(&device, "client".into(), false).unwrap();
    let down = "v1/t/t/p/p/d/command-fence/down";
    let message = || BrokerMessage {
        topic: down.into(),
        payload: b"command".to_vec(),
        qos: 1,
        retain: false,
        properties: Default::default(),
    };
    assert!(matches!(
        broker.send_live(&first.key, first.generation, message()),
        Err(Error::Unavailable)
    ));
    broker
        .subscribe(&first.key, first.generation, down, 1)
        .unwrap();
    let mut second = broker.attach(&device, "client".into(), false).unwrap();
    assert!(matches!(
        broker.send_live(&first.key, first.generation, message()),
        Err(Error::Unavailable)
    ));
    assert!(second.receiver.try_recv().is_err());
    broker
        .send_live(&second.key, second.generation, message())
        .unwrap();
    let BrokerFrame::Publish(delivery) = second.receiver.try_recv().unwrap() else {
        panic!("expected command publish")
    };
    assert!(delivery.command);
    let command_packet_id = delivery.packet_id.unwrap();
    broker
        .route(
            &device.device_key,
            BrokerMessage {
                topic: down.into(),
                payload: b"ordinary".to_vec(),
                qos: 1,
                retain: false,
                properties: Default::default(),
            },
        )
        .unwrap();
    let BrokerFrame::Publish(ordinary) = second.receiver.try_recv().unwrap() else {
        panic!("expected ordinary subscription publish")
    };
    assert!(!ordinary.command);
    assert!(
        !broker
            .puback(&second.key, second.generation, ordinary.packet_id.unwrap())
            .unwrap()
    );
    broker
        .unsubscribe(&second.key, second.generation, down)
        .unwrap();
    assert!(matches!(
        broker.send_live(&second.key, second.generation, message()),
        Err(Error::Unavailable)
    ));
    assert!(
        broker
            .puback(&second.key, second.generation, command_packet_id)
            .unwrap()
    );
    first.detach().unwrap();
    second.detach().unwrap();
}

#[test]
fn stale_generation_cannot_send_command_to_replacement_connection() {
    let broker = Hub::new(Limits::default());
    let device = auth("stale-command");
    let down = "v1/t/t/p/p/d/stale-command/down";
    let mut old = broker.attach(&device, "client".into(), false).unwrap();
    broker.subscribe(&old.key, old.generation, down, 1).unwrap();
    let command = BrokerMessage {
        topic: down.into(),
        payload: b"old-command".to_vec(),
        qos: 1,
        retain: false,
        properties: Default::default(),
    };
    let mut replacement = broker.attach(&device, "client".into(), false).unwrap();
    assert!(matches!(
        broker.send_live(&old.key, old.generation, command),
        Err(Error::Unavailable)
    ));
    assert!(replacement.receiver.try_recv().is_err());
    old.detach().unwrap();
    replacement.detach().unwrap();
}

#[test]
fn command_expiry_survives_snapshot_restore() {
    let limits = Limits::default();
    let broker = Hub::new(limits.clone());
    let device = auth("command-recovery");
    let mut attachment = broker
        .attach_v5(&device, "client".into(), false, 60, 1)
        .unwrap();
    broker
        .subscribe(
            &attachment.key,
            attachment.generation,
            "v1/t/t/p/p/d/command-recovery/down",
            1,
        )
        .unwrap();
    let deadline = NOW + 30_000;
    broker
        .send_live(
            &attachment.key,
            attachment.generation,
            BrokerMessage {
                topic: "v1/t/t/p/p/d/command-recovery/down".into(),
                payload: b"command".to_vec(),
                qos: 1,
                retain: false,
                properties: PublishProperties {
                    expires_at_ms: Some(deadline),
                    ..Default::default()
                },
            },
        )
        .unwrap();
    attachment.detach().unwrap();
    let image = broker.commit().unwrap();
    let recovered = Hub::new(limits);
    recovered.recover(&image).unwrap();
    let state = recovered.state();
    let session = stored(&state, &attachment.key);
    assert_eq!(
        match &session.outbound[0].state {
            OutboundState::AwaitPuback(message) => message.properties.expires_at_ms,
            _ => None,
        },
        Some(deadline)
    );
    drop(state);
}

#[test]
fn qos2_started_publish_survives_message_expiry_until_pubcomp() {
    let broker = Hub::new(Limits::default());
    let device = auth("started-qos2");
    let topic = "v1/t/t/p/p/d/started-qos2/up";
    let mut attachment = broker
        .attach_v5(&device, "client".into(), false, 60, 1)
        .unwrap();
    broker
        .subscribe(&attachment.key, attachment.generation, topic, 2)
        .unwrap();
    broker
        .route_from_session(
            &attachment.key,
            BrokerMessage {
                topic: topic.into(),
                payload: b"data".to_vec(),
                qos: 2,
                retain: false,
                properties: PublishProperties {
                    expires_at_ms: Some(NOW + 10_000),
                    ..Default::default()
                },
            },
        )
        .unwrap();
    let BrokerFrame::Publish(delivery) = attachment.receiver.try_recv().unwrap() else {
        panic!("expected PUBLISH")
    };
    let id = delivery.packet_id.unwrap();
    assert!(
        broker
            .begin_outbound_transfer(&attachment.key, attachment.generation, &delivery)
            .unwrap()
    );
    broker.edit(&attachment.key, |session| {
        let at = session.find_outbound(id).unwrap();
        let OutboundState::AwaitPubrec(message) = &mut session.outbound[at].state else {
            panic!("expected AwaitPubrec")
        };
        message.properties.expires_at_ms = Some(NOW - 1);
    });
    broker.tick().unwrap();
    assert!(matches!(
        broker.session(&attachment.key).exchange(id),
        Some(OutboundState::AwaitPubrec(_))
    ));
    broker
        .pubrec(&attachment.key, attachment.generation, id)
        .unwrap();
    broker.tick().unwrap();
    assert!(matches!(
        broker.session(&attachment.key).exchange(id),
        Some(OutboundState::AwaitPubcomp(message)) if message.payload.is_empty()
    ));
    broker
        .pubcomp(&attachment.key, attachment.generation, id)
        .unwrap();
    assert!(
        broker.session(&attachment.key)
            .outbound
            .is_empty()
    );
    attachment.detach().unwrap();
}

#[test]
fn reconnect_preserves_started_qos_state_after_message_expiry() {
    let limits = Limits::default();
    let broker = Hub::new(limits.clone());
    let device = auth("recovered-started");
    let topic = "v1/t/t/p/p/d/recovered-started/up";
    let mut attachment = broker
        .attach_v5(&device, "client".into(), false, 60, 2)
        .unwrap();
    broker
        .subscribe(&attachment.key, attachment.generation, topic, 1)
        .unwrap();
    broker
        .route_from_session(
            &attachment.key,
            BrokerMessage {
                topic: topic.into(),
                payload: b"first".to_vec(),
                qos: 1,
                retain: false,
                properties: PublishProperties {
                    expires_at_ms: Some(NOW + 10_000),
                    ..Default::default()
                },
            },
        )
        .unwrap();
    let BrokerFrame::Publish(delivery) = attachment.receiver.try_recv().unwrap() else {
        panic!("expected PUBLISH")
    };
    let id = delivery.packet_id.unwrap();
    broker
        .begin_outbound_transfer(&attachment.key, attachment.generation, &delivery)
        .unwrap();
    broker.edit(&attachment.key, |session| {
        let at = session.find_outbound(id).unwrap();
        let OutboundState::AwaitPuback(message) = &mut session.outbound[at].state else {
            panic!("expected AwaitPuback")
        };
        message.properties.expires_at_ms = Some(NOW - 1);
    });
    attachment.detach().unwrap();
    let image = broker.commit().unwrap();
    let recovered = Hub::new(limits);
    recovered.recover(&image).unwrap();
    let mut resumed = recovered
        .attach_v5(&device, "client".into(), false, 60, 2)
        .unwrap();
    let BrokerFrame::Publish(retransmit) = resumed.receiver.try_recv().unwrap() else {
        panic!("expected retransmitted PUBLISH")
    };
    assert_eq!(retransmit.packet_id, Some(id));
    assert!(retransmit.dup);
    assert!(
        recovered
            .begin_outbound_transfer(&resumed.key, resumed.generation, &retransmit)
            .unwrap()
    );
    assert!(
        recovered.session(&resumed.key).started(id)
    );
    recovered
        .puback(&resumed.key, resumed.generation, id)
        .unwrap();
    resumed.detach().unwrap();
}

#[test]
fn packet_identifier_not_reused_before_qos_exchange_finishes() {
    let broker = Hub::new(Limits::default());
    let device = auth("packet-id-expiry");
    let topic = "v1/t/t/p/p/d/packet-id-expiry/up";
    let mut attachment = broker
        .attach_v5(&device, "client".into(), false, 60, 2)
        .unwrap();
    broker
        .subscribe(&attachment.key, attachment.generation, topic, 1)
        .unwrap();
    let message = BrokerMessage {
        topic: topic.into(),
        payload: b"data".to_vec(),
        qos: 1,
        retain: false,
        properties: PublishProperties {
            expires_at_ms: Some(NOW + 10_000),
            ..Default::default()
        },
    };
    broker
        .route_from_session(&attachment.key, message.clone())
        .unwrap();
    let BrokerFrame::Publish(first) = attachment.receiver.try_recv().unwrap() else {
        panic!("expected first PUBLISH")
    };
    let first_id = first.packet_id.unwrap();
    broker
        .begin_outbound_transfer(&attachment.key, attachment.generation, &first)
        .unwrap();
    broker.edit(&attachment.key, |session| {
        session.next_packet_id = first_id;
        let at = session.find_outbound(first_id).unwrap();
        let OutboundState::AwaitPuback(stored) = &mut session.outbound[at].state else {
            panic!("expected AwaitPuback")
        };
        stored.properties.expires_at_ms = Some(NOW - 1);
    });
    broker.tick().unwrap();
    broker.route_from_session(&attachment.key, message).unwrap();
    let BrokerFrame::Publish(second) = attachment.receiver.try_recv().unwrap() else {
        panic!("expected second PUBLISH")
    };
    assert_ne!(second.packet_id, Some(first_id));
    attachment.detach().unwrap();
}

#[test]
fn v5_clean_start_expiry_and_cross_version_sessions() {
    let broker = Hub::new(Limits::default());
    let auth = auth("a");
    let mut first = broker
        .attach_v5(&auth, "client".into(), true, 60, u16::MAX)
        .unwrap();
    assert!(!first.session_present);
    first.detach().unwrap();
    let mut resumed = broker
        .attach_v5(&auth, "client".into(), false, 60, u16::MAX)
        .unwrap();
    assert!(resumed.session_present);
    broker
        .set_v5_disconnect_expiry(&resumed.key, resumed.generation, 0)
        .unwrap();
    resumed.detach().unwrap();
    let mut fresh = broker
        .attach_v5(&auth, "client".into(), false, 60, u16::MAX)
        .unwrap();
    assert!(!fresh.session_present);
    fresh.detach().unwrap();
    let mut v311 = broker.attach(&auth, "client".into(), false).unwrap();
    assert!(!v311.session_present);
    v311.detach().unwrap();
    let mut v5 = broker
        .attach_v5(&auth, "client".into(), false, 60, u16::MAX)
        .unwrap();
    assert!(!v5.session_present);
    v5.detach().unwrap();
}

#[test]
fn v5_expired_session_releases_all_accounting_before_reconnect() {
    let broker = Hub::new(Limits::default());
    let auth = auth("a");
    let mut attachment = broker
        .attach_v5(&auth, "client".into(), false, 1, u16::MAX)
        .unwrap();
    let key = attachment.key.clone();
    let filter = format!("v1/t/t/p/p/d/{}/up", auth.device_key.device_id.as_str());
    broker
        .subscribe(&key, attachment.generation, &filter, 1)
        .unwrap();
    attachment.detach().unwrap();
    broker.edit(&key, |session| session.expires_at_ms = Some(NOW - 1));
    let mut fresh = broker
        .attach_v5(&auth, "client".into(), false, 1, u16::MAX)
        .unwrap();
    assert!(!fresh.session_present);
    assert_eq!(broker.usage().2, 0);
    fresh.detach().unwrap();
}

#[test]
fn v4_recovery_preserves_v5_session_and_v3_remains_readable() {
    let broker = Hub::new(Limits::default());
    let auth = auth("a");
    let mut attachment = broker
        .attach_v5(&auth, "v5".into(), false, 60, u16::MAX)
        .unwrap();
    attachment.detach().unwrap();
    let image = broker.commit().unwrap();
    let restored = Hub::new(Limits::default());
    restored.recover(&image).unwrap();
    let mut resumed = restored
        .attach_v5(&auth, "v5".into(), false, 60, u16::MAX)
        .unwrap();
    assert!(resumed.session_present);
    resumed.detach().unwrap();

    let v311 = Hub::new(Limits::default());
    let mut old = v311.attach(&auth, "old".into(), false).unwrap();
    old.detach().unwrap();
    let state = v311.state();
    let session = &state.sessions[0];
    let mut payload = encode_session_meta(session).unwrap();
    payload.truncate(payload.len() - 13);
    let mut header = Vec::new();
    header.extend_from_slice(b"NBMQ");
    header.extend_from_slice(&RECOVERY_VERSION_V3.to_be_bytes());
    header.extend_from_slice(&state.generation.to_be_bytes());
    let mut record = vec![RECORD_SESSION];
    record.extend_from_slice(&(payload.len() as u32).to_be_bytes());
    record.extend_from_slice(&payload);
    record.extend_from_slice(&Sha256::digest(&payload));
    let mut digest = Sha256::new();
    digest.update(&header);
    digest.update(&record);
    let mut image = header.clone();
    image.extend_from_slice(&Sha256::digest(&header));
    image.extend_from_slice(&record);
    image.extend_from_slice(b"NEND");
    image.extend_from_slice(&1u64.to_be_bytes());
    image.extend_from_slice(&(record.len() as u64).to_be_bytes());
    image.extend_from_slice(&digest.finalize());
    drop(state);
    let snapshot = decoded(&image, &Limits::default()).unwrap();
    assert_eq!(snapshot.format_version, RECOVERY_VERSION_V3);
    let recovered = Hub::new(Limits::default());
    recovered.restore(snapshot).unwrap();
    let mut resumed = recovered.attach(&auth, "old".into(), false).unwrap();
    assert!(resumed.session_present);
    resumed.detach().unwrap();
}

#[test]
fn v4_outbound_record_remains_readable_without_started_flag() {
    let limits = Limits::default();
    let broker = Hub::new(limits.clone());
    let device = auth("v4-outbound");
    let mut attachment = broker
        .attach_v5(&device, "client".into(), false, 60, 4)
        .unwrap();
    attachment.detach().unwrap();
    let mut snapshot = broker.snapshot();
    let message = BrokerMessage {
        topic: "v1/t/t/p/p/d/v4-outbound/down".into(),
        payload: b"legacy".to_vec(),
        qos: 1,
        retain: false,
        properties: Default::default(),
    };
    let mut record = vec![0, 7, 0];
    encode_message(&mut record, &message).unwrap();
    snapshot
        .decode_record(&limits, RECOVERY_VERSION_V4, RECORD_OUTBOUND, &record)
        .unwrap();
    assert!(snapshot.sessions[0].started(7));
    assert!(snapshot.sessions[0].exchange(7).is_some());
}

#[test]
fn v4_recovery_keeps_publish_properties_and_byte_accounting() {
    let limits = Limits::default();
    let broker = Hub::new(limits.clone());
    let auth = auth("a");
    let topic = "v1/t/t/p/p/d/a/up";
    let mut attachment = broker
        .attach_v5(&auth, "metadata".into(), false, 60, u16::MAX)
        .unwrap();
    broker
        .subscribe(&attachment.key, attachment.generation, topic, 1)
        .unwrap();
    attachment.detach().unwrap();
    let message = BrokerMessage {
        topic: topic.into(),
        payload: b"value".to_vec(),
        qos: 1,
        retain: true,
        properties: PublishProperties {
            payload_format: Some(1),
            expires_at_ms: Some(NOW + 30_000),
            content_type: Some("text/plain".into()),
            response_topic: Some(topic.into()),
            correlation_data: Some(vec![0, 1, 2]),
            user_properties: vec![("key".into(), "value".into())],
        },
    };
    broker.route(&auth.device_key, message.clone()).unwrap();
    let original = broker.usage();
    assert!(original.4 >= message.bytes());
    let image = broker.commit().unwrap();
    let restored = Hub::new(limits);
    restored.recover(&image).unwrap();
    assert_eq!(restored.usage(), original);
    {
        let state = restored.state();
        assert_eq!(
            state.retained[state.find_retained(topic).unwrap()].message.properties,
            message.properties
        );
        assert_eq!(
            state.sessions[0].offline[0].properties,
            message.properties
        );
    }
}

#[test]
fn v5_message_expiry_cleans_offline_retained_and_recovery_state() {
    let limits = Limits::default();
    let broker = Hub::new(limits.clone());
    let auth = auth("a");
    let topic = "v1/t/t/p/p/d/a/up";
    let mut attachment = broker
        .attach_v5(&auth, "expiry".into(), false, 60, u16::MAX)
        .unwrap();
    broker
        .subscribe(&attachment.key, attachment.generation, topic, 1)
        .unwrap();
    attachment.detach().unwrap();
    broker
        .route(
            &auth.device_key,
            BrokerMessage {
                topic: topic.into(),
                payload: b"value".to_vec(),
                qos: 1,
                retain: true,
                properties: PublishProperties {
                    expires_at_ms: Some(NOW + 30_000),
                    ..Default::default()
                },
            },
        )
        .unwrap();
    assert_eq!(broker.usage().3, 1);
    {
        let mut state = broker.state();
        let at = state.find_retained(topic).unwrap();
        state.retained[at].message.properties.expires_at_ms = Some(NOW - 1);
        state.retained_expiry.update(&topic.to_string(), Some(NOW - 1));
    }
    broker.edit(&attachment.key, |session| {
        session.offline[0].properties.expires_at_ms = Some(NOW - 1);
    });
    let image = broker.commit().unwrap();
    let restored = Hub::new(limits);
    restored.recover(&image).unwrap();
    assert_eq!(restored.usage().3, 0);
    assert_eq!(restored.usage().4, 0);
    assert_eq!(restored.offline_count(), 0);
    broker.tick().unwrap();
    assert_eq!(broker.usage().3, 0);
    assert_eq!(broker.offline_count(), 0);
}

#[test]
fn v5_no_local_uses_client_id_and_retain_options_control_replay() {
    let broker = Hub::new(Limits::default());
    let auth = auth("a");
    let topic = "v1/t/t/p/p/d/a/up";
    let mut a = broker
        .attach_v5(&auth, "client-a".into(), false, 60, u16::MAX)
        .unwrap();
    let mut b = broker
        .attach_v5(&auth, "client-b".into(), false, 60, u16::MAX)
        .unwrap();
    let options = SubscriptionOptions {
        qos: 1,
        no_local: true,
        retain_as_published: true,
        retain_handling: 0,
    };
    broker
        .subscribe_v5(&a.key, a.generation, topic, options)
        .unwrap();
    broker
        .subscribe_v5(&b.key, b.generation, topic, options)
        .unwrap();
    broker
        .route_from_session(
            &a.key,
            BrokerMessage {
                topic: topic.into(),
                payload: b"value".to_vec(),
                qos: 1,
                retain: true,
                properties: Default::default(),
            },
        )
        .unwrap();
    assert!(a.receiver.try_recv().is_err());
    let BrokerFrame::Publish(delivery) = b.receiver.try_recv().unwrap() else {
        panic!("expected PUBLISH")
    };
    assert!(delivery.message.retain);
    broker
        .puback(&b.key, b.generation, delivery.packet_id.unwrap())
        .unwrap();
    broker
        .subscribe_v5(
            &b.key,
            b.generation,
            topic,
            SubscriptionOptions {
                retain_handling: 1,
                ..options
            },
        )
        .unwrap();
    assert!(b.receiver.try_recv().is_err());
    broker
        .subscribe_v5(
            &b.key,
            b.generation,
            topic,
            SubscriptionOptions {
                retain_handling: 0,
                ..options
            },
        )
        .unwrap();
    assert!(matches!(b.receiver.try_recv(), Ok(BrokerFrame::Publish(_))));
    let mut c = broker
        .attach_v5(&auth, "client-c".into(), false, 60, u16::MAX)
        .unwrap();
    broker
        .subscribe_v5(
            &c.key,
            c.generation,
            topic,
            SubscriptionOptions {
                retain_handling: 2,
                ..options
            },
        )
        .unwrap();
    assert!(c.receiver.try_recv().is_err());
    a.detach().unwrap();
    b.detach().unwrap();
    c.detach().unwrap();
}

#[test]
fn will_origin_filters_no_local_after_takeover_without_suppressing_other_subscribers() {
    let broker = Hub::new(Limits::default());
    let identity = auth("will-origin");
    let topic = "v1/t/t/p/p/d/will-origin/up";
    let mut old = broker
        .attach_v5(&identity, "client".into(), false, 60, 4)
        .unwrap();
    let mut observer = broker
        .attach_v5(&identity, "observer".into(), false, 60, 4)
        .unwrap();
    let options = SubscriptionOptions {
        qos: 1,
        no_local: true,
        retain_as_published: false,
        retain_handling: 0,
    };
    broker
        .subscribe_v5(&old.key, old.generation, topic, options)
        .unwrap();
    broker
        .subscribe_v5(&observer.key, observer.generation, topic, options)
        .unwrap();
    let mut will = broker
        .reserve_will_for_session(
            old.key.clone(),
            BrokerMessage {
                topic: topic.into(),
                payload: b"will".to_vec(),
                qos: 1,
                retain: true,
                properties: Default::default(),
            },
        )
        .unwrap();
    will.arm_v5(
        old.key.clone(),
        old.session_incarnation,
        old.generation,
        0,
        60,
        None,
    );
    let mut resumed = broker
        .attach_v5(&identity, "client".into(), false, 60, 4)
        .unwrap();
    old.detach().unwrap();
    assert!(will.publish_v5().unwrap().is_some());
    assert!(resumed.receiver.try_recv().is_err());
    let BrokerFrame::Publish(delivery) = observer.receiver.try_recv().unwrap() else {
        panic!("other subscriber must receive the Will")
    };
    assert_eq!(delivery.message.payload, b"will");
    assert_eq!(
        broker.retained(topic).unwrap().origin,
        Some(resumed.key.clone())
    );
    broker
        .puback(
            &observer.key,
            observer.generation,
            delivery.packet_id.unwrap(),
        )
        .unwrap();
    resumed.detach().unwrap();
    observer.detach().unwrap();
}

#[test]
fn wildcard_trie_and_dollar_rules() {
    assert!(topic_matches("sport/+/player1", "sport/team/player1"));
    assert!(topic_matches("sport/#", "sport"));
    assert!(topic_matches("sport/#", "sport/a/b"));
    assert!(!topic_matches("#", "$SYS/status"));
    assert!(!topic_matches("+", "$SYS"));
    assert!(!topic_matches("+/status", "$SYS/status"));
    assert!(topic_matches("$SYS/#", "$SYS/status"));
    let mut trie = SubscriptionTrie::new();
    let a = SessionKey {
        device: auth("a").device_key,
        client_id: "a".into(),
    };
    let b = SessionKey {
        device: auth("b").device_key,
        client_id: "b".into(),
    };
    trie.insert("sport/+", &a, Subscription::v311(1));
    trie.insert("sport/#", &b, Subscription::v311(2));
    let found = trie.matching("sport/tennis");
    let granted = |key: &SessionKey| {
        found
            .iter()
            .find(|(holder, _)| holder == key)
            .map(|(_, value)| value.qos)
    };
    assert_eq!(granted(&a), Some(1));
    assert_eq!(granted(&b), Some(2));
    trie.remove("sport/+", &a);
    assert!(trie.matching("sport/tennis").iter().all(|(holder, _)| *holder != a));
    let authorized = auth("a");
    let limits = Limits::default();
    assert!(subscribe_acl(&authorized, "v1/t/t/p/p/d/a/#", &limits));
    assert!(subscribe_acl(&authorized, "v1/t/t/p/p/d/a/up", &limits));
    for escaped in ["#", "v1/t/t/p/p/d/+/up", "v1/t/t/p/p/d/b/#"] {
        assert!(!subscribe_acl(&authorized, escaped, &limits));
    }
}

#[test]
fn ownership_clean_session_qos2_and_snapshot() {
    let limits = Limits::default();
    let broker = Hub::new(limits);
    let a = auth("a");
    let b = auth("b");
    let first = broker.attach(&a, "same".into(), false).unwrap();
    broker
        .subscribe(&first.key, first.generation, "v1/t/t/p/p/d/a/#", 2)
        .unwrap();
    broker.detach(&first).unwrap();
    let resumed = broker.attach(&a, "same".into(), false).unwrap();
    assert!(resumed.session_present);
    let other = broker.attach(&b, "same".into(), false).unwrap();
    assert!(!other.session_present);
    let message = BrokerMessage {
        topic: "v1/t/t/p/p/d/a/up".into(),
        payload: b"x".to_vec(),
        qos: 2,
        retain: false,
        properties: Default::default(),
    };
    assert!(
        broker
            .inbound_qos2(&resumed.key, resumed.generation, 7, message.clone())
            .unwrap()
    );
    assert!(
        !broker
            .inbound_qos2(&resumed.key, resumed.generation, 7, message.clone())
            .unwrap()
    );
    assert_eq!(
        broker
            .inbound_qos2_message(&resumed.key, resumed.generation, 7)
            .unwrap(),
        Some((message, false))
    );
    broker
        .complete_inbound_qos2(&resumed.key, resumed.generation, 7)
        .unwrap();
    assert_eq!(
        broker
            .inbound_qos2_message(&resumed.key, resumed.generation, 7)
            .unwrap(),
        None
    );
    let snapshot = broker.snapshot();
    let restored = Hub::new(Limits::default());
    restored.restore(snapshot).unwrap();
    assert!(
        restored
            .attach(&a, "same".into(), false)
            .unwrap()
            .session_present
    );
    let clean = restored.attach(&a, "same".into(), true).unwrap();
    assert!(!clean.session_present);
    assert_eq!(
        restored
            .subscription_qos(&clean.key, "v1/t/t/p/p/d/a/up"),
        None
    );
}

#[test]
fn tenant_session_bytes_and_qos2_inflight_are_hard_bounded() {
    let limits = Limits {
        max_mqtt_session_state_bytes_per_tenant: 100,
        max_inflight_qos2_per_session: 1,
        max_inflight_qos2_per_tenant: 1,
        ..Limits::default()
    };
    let broker = Hub::new(limits);
    let a = auth("a");
    let first = broker.attach(&a, "a".into(), false).unwrap();
    let message = BrokerMessage {
        topic: "v1/t/t/p/p/d/a/up".into(),
        payload: b"x".to_vec(),
        qos: 2,
        retain: false,
        properties: Default::default(),
    };
    assert!(
        broker
            .inbound_qos2(&first.key, first.generation, 1, message)
            .is_err(),
        "the message charge must not exceed the tenant byte ceiling"
    );
    assert!(
        broker.attach(&auth("b"), "b".into(), false).is_err(),
        "a second session must not exceed the tenant byte ceiling"
    );

    let limits = Limits {
        max_inflight_qos2_per_session: 1,
        max_inflight_qos2_per_tenant: 1,
        ..Limits::default()
    };
    let broker = Hub::new(limits);
    let first = broker.attach(&a, "a".into(), false).unwrap();
    let b = auth("b");
    let second = broker.attach(&b, "b".into(), false).unwrap();
    let message = |device: &str| BrokerMessage {
        topic: format!("v1/t/t/p/p/d/{device}/up"),
        payload: b"x".to_vec(),
        qos: 2,
        retain: false,
        properties: Default::default(),
    };
    broker
        .inbound_qos2(&first.key, first.generation, 1, message("a"))
        .unwrap();
    assert!(
        broker
            .inbound_qos2(&second.key, second.generation, 1, message("b"))
            .is_err()
    );
}

#[test]
fn mqtt_outbound_ack_state_matrix_preserves_transaction_on_wrong_ack() {
    let broker = Hub::new(Limits::default());
    let device = auth("ack-matrix");
    let mut attachment = broker.attach(&device, "ack-matrix".into(), false).unwrap();
    broker
        .subscribe(&attachment.key, attachment.generation, "matrix/#", 2)
        .unwrap();

    broker
        .route(
            &device.device_key,
            BrokerMessage {
                topic: "matrix/qos2".into(),
                payload: vec![2],
                qos: 2,
                retain: false,
                properties: Default::default(),
            },
        )
        .unwrap();
    let BrokerFrame::Publish(qos2) = attachment.receiver.recv().unwrap() else {
        panic!("expected QoS2 publish")
    };
    let qos2_id = qos2.packet_id.unwrap();
    let await_pubrec = transaction_accounting(&broker, &attachment.key);
    assert!(
        broker
            .puback(&attachment.key, attachment.generation, qos2_id)
            .is_err()
    );
    assert_eq!(
        transaction_accounting(&broker, &attachment.key),
        await_pubrec
    );
    assert!(
        broker
            .pubcomp(&attachment.key, attachment.generation, qos2_id)
            .is_err()
    );
    assert_eq!(
        transaction_accounting(&broker, &attachment.key),
        await_pubrec
    );
    assert!(matches!(
        broker
            .pubrec(&attachment.key, attachment.generation, qos2_id)
            .unwrap(),
        BrokerFrame::Pubrel { dup: false, .. }
    ));
    let await_pubcomp = transaction_accounting(&broker, &attachment.key);
    assert!(
        broker
            .puback(&attachment.key, attachment.generation, qos2_id)
            .is_err()
    );
    assert_eq!(
        transaction_accounting(&broker, &attachment.key),
        await_pubcomp
    );
    broker
        .pubcomp(&attachment.key, attachment.generation, qos2_id)
        .unwrap();

    broker
        .route(
            &device.device_key,
            BrokerMessage {
                topic: "matrix/qos1".into(),
                payload: vec![1],
                qos: 1,
                retain: false,
                properties: Default::default(),
            },
        )
        .unwrap();
    let BrokerFrame::Publish(qos1) = attachment.receiver.recv().unwrap() else {
        panic!("expected QoS1 publish")
    };
    let qos1_id = qos1.packet_id.unwrap();
    let await_puback = transaction_accounting(&broker, &attachment.key);
    assert!(
        broker
            .pubrec(&attachment.key, attachment.generation, qos1_id)
            .is_err()
    );
    assert_eq!(
        transaction_accounting(&broker, &attachment.key),
        await_puback
    );
    assert!(
        broker
            .pubcomp(&attachment.key, attachment.generation, qos1_id)
            .is_err()
    );
    assert_eq!(
        transaction_accounting(&broker, &attachment.key),
        await_puback
    );
    broker
        .puback(&attachment.key, attachment.generation, qos1_id)
        .unwrap();
}

#[test]
fn mqtt_inbound_qos2_takeover_can_finish_event_accepted_handoff() {
    let broker = Hub::new(Limits::default());
    let device = auth("takeover");
    let old = broker.attach(&device, "takeover".into(), false).unwrap();
    broker
        .inbound_qos2(
            &old.key,
            old.generation,
            7,
            BrokerMessage {
                topic: "takeover/up".into(),
                payload: vec![7],
                qos: 2,
                retain: false,
                properties: Default::default(),
            },
        )
        .unwrap();
    let InboundQos2Action::Deliver {
        session_incarnation,
        operation_id,
        ..
    } = broker
        .begin_inbound_qos2_delivery(&old.key, old.generation, 7)
        .unwrap()
    else {
        panic!("old connection must own delivery")
    };
    let replacement = broker.attach(&device, "takeover".into(), false).unwrap();
    assert_eq!(old.session_incarnation, replacement.session_incarnation);
    broker
        .finish_inbound_qos2_delivery(&old.key, session_incarnation, 7, operation_id)
        .unwrap();
    let InboundQos2Action::EventAccepted {
        session_incarnation,
        operation_id,
    } = broker
        .begin_inbound_qos2_delivery(&replacement.key, replacement.generation, 7)
        .unwrap()
    else {
        panic!("takeover must observe accepted transaction")
    };
    broker
        .route_inbound_qos2(
            &replacement.key,
            session_incarnation,
            7,
            operation_id,
            &device.device_key,
        )
        .unwrap();
    assert!(
        broker
            .route_inbound_qos2(
                &replacement.key,
                session_incarnation,
                7,
                operation_id,
                &device.device_key,
            )
            .is_err()
    );
    let state = broker.state();
    assert!(stored(&state, &replacement.key).inbound_qos2.is_empty());
}

#[test]
fn qos2_clean_session_incarnation_001() {
    let broker = Hub::new(Limits::default());
    let device = auth("clean-incarnation");
    let old = broker.attach(&device, "same".into(), false).unwrap();
    broker
        .inbound_qos2(
            &old.key,
            old.generation,
            7,
            BrokerMessage {
                topic: "clean/incarnation".into(),
                payload: b"old".to_vec(),
                qos: 2,
                retain: false,
                properties: Default::default(),
            },
        )
        .unwrap();
    let InboundQos2Action::Deliver {
        session_incarnation: old_incarnation,
        operation_id: old_operation,
        ..
    } = broker
        .begin_inbound_qos2_delivery(&old.key, old.generation, 7)
        .unwrap()
    else {
        panic!("old delivery must start")
    };
    let replacement = broker.attach(&device, "same".into(), true).unwrap();
    assert_ne!(old_incarnation, replacement.session_incarnation);
    broker
        .inbound_qos2(
            &replacement.key,
            replacement.generation,
            7,
            BrokerMessage {
                topic: "clean/incarnation".into(),
                payload: b"new".to_vec(),
                qos: 2,
                retain: false,
                properties: Default::default(),
            },
        )
        .unwrap();
    let InboundQos2Action::Deliver {
        session_incarnation: new_incarnation,
        operation_id: new_operation,
        ..
    } = broker
        .begin_inbound_qos2_delivery(&replacement.key, replacement.generation, 7)
        .unwrap()
    else {
        panic!("new delivery must start")
    };
    assert!(
        broker
            .finish_inbound_qos2_delivery(&old.key, old_incarnation, 7, old_operation,)
            .is_err()
    );
    broker
        .finish_inbound_qos2_delivery(&replacement.key, new_incarnation, 7, new_operation)
        .unwrap();
    broker
        .route_inbound_qos2(
            &replacement.key,
            new_incarnation,
            7,
            new_operation,
            &device.device_key,
        )
        .unwrap();
}

#[test]
fn mqtt_persistent_overload_qos1_001_is_atomic() {
    persistent_route_overload_is_atomic(1);
}

#[test]
fn mqtt_persistent_overload_qos2_001_is_atomic() {
    persistent_route_overload_is_atomic(2);
}

fn persistent_route_overload_is_atomic(qos: u8) {
    let limits = Limits {
        max_offline_messages_per_session: 1,
        max_offline_messages_per_tenant: 8,
        max_offline_messages: 8,
        ..Limits::default()
    };
    let broker = Hub::new(limits);
    let device = auth("atomic-route");
    let a = broker.attach(&device, "a".into(), false).unwrap();
    let b = broker.attach(&device, "b".into(), false).unwrap();
    broker
        .subscribe(&a.key, a.generation, "atomic/shared", qos)
        .unwrap();
    broker
        .subscribe(&b.key, b.generation, "atomic/shared", qos)
        .unwrap();
    broker
        .subscribe(&b.key, b.generation, "atomic/b-only", qos)
        .unwrap();
    broker.detach(&a).unwrap();
    broker.detach(&b).unwrap();
    broker
        .route(
            &device.device_key,
            BrokerMessage {
                topic: "atomic/b-only".into(),
                payload: vec![1],
                qos,
                retain: false,
                properties: Default::default(),
            },
        )
        .unwrap();
    assert!(matches!(
        broker.route(
            &device.device_key,
            BrokerMessage {
                topic: "atomic/shared".into(),
                payload: vec![2],
                qos,
                retain: false,
                properties: Default::default(),
            },
        ),
        Err(Error::Overloaded)
    ));
    let state = broker.state();
    assert!(stored(&state, &a.key).offline.is_empty());
    assert_eq!(stored(&state, &b.key).offline.len(), 1);
}

fn route_projection_fixture(targets: usize, stored_payload_bytes: usize) -> Hub {
    let limits = Limits {
        max_persistent_sessions: targets + 1,
        max_persistent_sessions_per_tenant: targets + 1,
        max_subscriptions_per_device: targets + 1,
        max_subscriptions_per_tenant: targets + 1,
        max_subscriptions: targets + 1,
        max_offline_messages_per_tenant: targets.saturating_mul(2).max(1),
        max_offline_messages: targets.saturating_mul(2).max(1),
        max_offline_bytes_per_tenant: 96 * 1024 * 1024,
        max_offline_bytes: 96 * 1024 * 1024,
        max_mqtt_session_state_bytes_per_tenant: 96 * 1024 * 1024,
        global_mqtt_session_bytes: 128 * 1024 * 1024,
        ..Limits::default()
    };
    let broker = Hub::new(limits);
    let device = auth("route-plan");
    for index in 0..targets {
        let attachment = broker
            .attach(&device, format!("client-{index}"), false)
            .unwrap();
        broker
            .subscribe(
                &attachment.key,
                attachment.generation,
                "route/plan/shared",
                1,
            )
            .unwrap();
        broker.detach(&attachment)
            .unwrap();
    }
    if stored_payload_bytes > 0 {
        let keys = broker
            .state()
            .sessions
            .iter()
            .map(|session| session.key.clone())
            .collect::<Vec<_>>();
        for key in &keys {
            broker.edit(key, |session| {
                session.push_offline(BrokerMessage {
                    topic: "route/plan/stored".into(),
                    payload: vec![0x5a; stored_payload_bytes],
                    qos: 1,
                    retain: false,
                    properties: Default::default(),
                });
            });
        }
    }
    broker
}

#[test]
fn mqtt_route_preflight_bounded_memory_001() {
    let broker = route_projection_fixture(1_000, 8 * 1024);
    let state = broker.state();
    let stored_payload_bytes = offline_bytes(&state);
    let plan = state
        .preflight_route(
            &auth("route-plan").device_key.tenant_id,
            None,
            &BrokerMessage {
                topic: "route/plan/shared".into(),
                payload: b"one-message".to_vec(),
                qos: 1,
                retain: false,
                properties: Default::default(),
            },
        )
        .unwrap();
    assert_eq!(plan.len(), 1_000);
    assert!(stored_payload_bytes > 8_000_000);
    let temporary_bytes = plan.capacity() * std::mem::size_of::<PlannedRouteTarget>()
        + plan
            .iter()
            .map(|target| {
                target.key.client_id.len()
                    + target.key.device.tenant_id.as_str().len()
                    + target.key.device.product_id.as_str().len()
                    + target.key.device.device_id.as_str().len()
            })
            .sum::<usize>();
    assert!(temporary_bytes < 512 * 1024);
    assert!(temporary_bytes < stored_payload_bytes / 16);
}

#[test]
fn mqtt_empty_subscription_route_hint_tracks_authoritative_state_001() {
    let broker = Hub::new(Limits::default());
    let device = auth("route-hint");
    let mut attachment = broker
        .attach(&device, "route-hint-client".into(), false)
        .unwrap();
    let topic = "v1/t/t/p/p/d/route-hint/down";
    let message = BrokerMessage {
        topic: topic.into(),
        payload: b"payload".to_vec(),
        qos: 0,
        retain: false,
        properties: Default::default(),
    };

    assert_eq!(broker.usage().2, 0);
    assert_eq!(
        broker.route(&device.device_key, message.clone()).unwrap(),
        0
    );
    broker
        .subscribe(&attachment.key, attachment.generation, topic, 0)
        .unwrap();
    assert_eq!(broker.usage().2, 1);
    assert_eq!(
        broker.route(&device.device_key, message.clone()).unwrap(),
        1
    );
    assert!(attachment.receiver.try_recv().is_ok());

    broker
        .unsubscribe(&attachment.key, attachment.generation, topic)
        .unwrap();
    assert_eq!(broker.usage().2, 0);
    assert_eq!(broker.route(&device.device_key, message).unwrap(), 0);
}

#[test]
fn mqtt_empty_subscription_route_hint_is_restored_and_cleaned_001() {
    let source = Hub::new(Limits::default());
    let device = auth("route-hint-restore");
    let mut attachment = source.attach(&device, "persistent".into(), false).unwrap();
    source
        .subscribe(
            &attachment.key,
            attachment.generation,
            "v1/t/t/p/p/d/route-hint-restore/down",
            1,
        )
        .unwrap();
    attachment.detach().unwrap();

    let recovered = Hub::new(Limits::default());
    recovered.restore(source.snapshot()).unwrap();
    assert_eq!(recovered.usage().2, 1);
    let clean = recovered
        .attach(&device, "persistent".into(), true)
        .unwrap();
    assert_eq!(recovered.usage().2, 0);
    drop(clean);
}

#[test]
fn mqtt_authz_persistent_reset_001() {
    let broker = Hub::new(Limits::default());
    let mut allowed = auth("auth-reset");
    let first = broker.attach(&allowed, "persistent".into(), false).unwrap();
    broker
        .subscribe(
            &first.key,
            first.generation,
            "v1/t/t/p/p/d/auth-reset/down",
            1,
        )
        .unwrap();
    broker.detach(&first).unwrap();
    allowed.permissions.commands = false;
    let replacement = broker.attach(&allowed, "persistent".into(), false).unwrap();
    assert!(!replacement.session_present);
    assert_eq!(
        broker
            .subscription_qos(&replacement.key, "v1/t/t/p/p/d/auth-reset/down"),
        None
    );
    drop(replacement);
    let mut rotated = allowed.clone();
    rotated.credential_version += 1;
    let credential_reset = broker.attach(&rotated, "persistent".into(), false).unwrap();
    assert!(!credential_reset.session_present);
    drop(credential_reset);
    rotated.auth_generation += 1;
    let generation_reset = broker.attach(&rotated, "persistent".into(), false).unwrap();
    assert!(!generation_reset.session_present);
    drop(generation_reset);
    let unrelated_auth = auth("auth-unrelated");
    let unrelated = broker
        .attach(&unrelated_auth, "persistent".into(), false)
        .unwrap();
    drop(unrelated);
    assert_eq!(
        broker
            .invalidate_sessions(&AuthInvalidation::Device {
                device: allowed.device_key.clone(),
            })
            .unwrap(),
        1
    );
    assert!(
        broker
            .attach(&unrelated_auth, "persistent".into(), false)
            .unwrap()
            .session_present
    );
}

#[test]
fn mqtt_persistent_codec_provenance_001() {
    let broker = Hub::new(Limits::default());
    let original = auth("codec-profile");
    let first = broker
        .attach(&original, "persistent".into(), false)
        .unwrap();
    broker
        .inbound_qos2(
            &first.key,
            first.generation,
            9,
            BrokerMessage {
                topic: "v1/t/t/p/p/d/codec-profile/up".into(),
                payload: b"v1".to_vec(),
                qos: 2,
                retain: false,
                properties: Default::default(),
            },
        )
        .unwrap();
    broker.detach(&first).unwrap();

    let exact = broker
        .attach(&original, "persistent".into(), false)
        .unwrap();
    assert!(exact.session_present);
    broker.detach(&exact).unwrap();

    let mut changed_id = original.clone();
    changed_id.codec_id = CodecId::new("other-codec").unwrap();
    let reset = broker
        .attach(&changed_id, "persistent".into(), false)
        .unwrap();
    assert!(!reset.session_present);
    broker.detach(&reset).unwrap();

    let mut changed_version = changed_id.clone();
    changed_version.codec_version += 1;
    let reset = broker
        .attach(&changed_version, "persistent".into(), false)
        .unwrap();
    assert!(!reset.session_present);
}

#[test]
fn auth_invalidation_counting_001() {
    let device = auth("counting");
    let broker = Hub::new(Limits::default());
    let _active = broker.attach(&device, "active".into(), false).unwrap();
    let offline = broker.attach(&device, "offline".into(), false).unwrap();
    broker.detach(&offline).unwrap();
    let invalidation = AuthInvalidation::Device {
        device: device.device_key.clone(),
    };
    let invalidated_mqtt_sessions = broker.invalidate_sessions(&invalidation).unwrap();
    assert_eq!(invalidated_mqtt_sessions, 2);
}

#[test]
fn retain_replacement_reservation_001() {
    let limits = Limits {
        max_retained_messages: 2,
        max_retained_messages_per_tenant: 2,
        ..Limits::default()
    };
    let broker = Hub::new(limits);
    let device = auth("retain-replace");
    let topic = "retained/replacement";
    broker
        .route(
            &device.device_key,
            BrokerMessage {
                topic: topic.into(),
                payload: b"one".to_vec(),
                qos: 1,
                retain: true,
                properties: Default::default(),
            },
        )
        .unwrap();
    broker
        .route(
            &device.device_key,
            BrokerMessage {
                topic: topic.into(),
                payload: b"qos1-replacement".to_vec(),
                qos: 1,
                retain: true,
                properties: Default::default(),
            },
        )
        .unwrap();
    let attachment = broker.attach(&device, "qos2".into(), false).unwrap();
    broker
        .inbound_qos2(
            &attachment.key,
            attachment.generation,
            9,
            BrokerMessage {
                topic: topic.into(),
                payload: b"two".to_vec(),
                qos: 2,
                retain: true,
                properties: Default::default(),
            },
        )
        .unwrap();
    let InboundQos2Action::Deliver {
        session_incarnation,
        operation_id,
        ..
    } = broker
        .begin_inbound_qos2_delivery(&attachment.key, attachment.generation, 9)
        .unwrap()
    else {
        panic!("QoS2 replacement must be deliverable")
    };
    broker
        .finish_inbound_qos2_delivery(&attachment.key, session_incarnation, 9, operation_id)
        .unwrap();
    broker
        .route_inbound_qos2(
            &attachment.key,
            session_incarnation,
            9,
            operation_id,
            &device.device_key,
        )
        .unwrap();
    let mut guard = broker
        .reserve_will(
            device.device_key.clone(),
            BrokerMessage {
                topic: topic.into(),
                payload: b"will".to_vec(),
                qos: 1,
                retain: true,
                properties: Default::default(),
            },
        )
        .unwrap();
    guard.publish().unwrap();
    assert!(broker.has_retained_topic(topic));
    let state = broker.state();
    assert_eq!(retained_reserved_count(&state), 0);
    assert_eq!(retained_reserved_bytes(&state), 0);
}

#[test]
fn retained_replacement_reservation_survives_old_value_deletion() {
    let limits = Limits {
        max_retained_messages: 2,
        max_retained_messages_per_tenant: 2,
        ..Limits::default()
    };
    let broker = Hub::new(limits);
    let device = auth("retain-aba");
    let a = "v1/t/t/p/p/d/retain-aba/up";
    let b = "v1/t/t/p/p/d/retain-aba/down_ack";
    let retained = |topic: &str, payload: &[u8], qos| BrokerMessage {
        topic: topic.into(),
        payload: payload.into(),
        qos,
        retain: true,
        properties: Default::default(),
    };
    broker
        .route(&device.device_key, retained(a, b"old", 1))
        .unwrap();
    let mut attachment = broker.attach(&device, "client".into(), false).unwrap();
    broker
        .inbound_qos2(
            &attachment.key,
            attachment.generation,
            9,
            retained(a, b"replacement", 2),
        )
        .unwrap();
    assert_eq!(broker.retained_reserved_count(), 1);
    broker
        .route(&device.device_key, retained(a, b"", 0))
        .unwrap();
    broker
        .route(&device.device_key, retained(b, b"competitor", 1))
        .unwrap();
    assert!(
        broker
            .route(&device.device_key, retained("extra/topic", b"extra", 1))
            .is_err(),
        "a third retained topic must not steal the accepted replacement's slot"
    );
    let InboundQos2Action::Deliver {
        session_incarnation,
        operation_id,
        ..
    } = broker
        .begin_inbound_qos2_delivery(&attachment.key, attachment.generation, 9)
        .unwrap()
    else {
        panic!("expected accepted QoS2 transaction");
    };
    broker
        .finish_inbound_qos2_delivery(&attachment.key, session_incarnation, 9, operation_id)
        .unwrap();
    broker
        .route_inbound_qos2(
            &attachment.key,
            session_incarnation,
            9,
            operation_id,
            &device.device_key,
        )
        .unwrap();
    assert!(broker.has_retained_topic(a));
    assert!(broker.has_retained_topic(b));
    assert_eq!(broker.retained_reserved_count(), 0);
    attachment.detach().unwrap();
}

#[test]
fn retained_qos2_reserved_state_round_trips_recovery() {
    let limits = Limits {
        max_retained_messages: 2,
        max_retained_messages_per_tenant: 2,
        ..Limits::default()
    };
    let broker = Hub::new(limits.clone());
    let device = auth("retain-recover");
    let a = "v1/t/t/p/p/d/retain-recover/up";
    let b = "v1/t/t/p/p/d/retain-recover/down_ack";
    let message = |topic: &str, payload: &[u8], qos| BrokerMessage {
        topic: topic.into(),
        payload: payload.into(),
        qos,
        retain: true,
        properties: Default::default(),
    };
    broker
        .route(&device.device_key, message(a, b"old", 1))
        .unwrap();
    let mut attachment = broker.attach(&device, "client".into(), false).unwrap();
    broker
        .inbound_qos2(
            &attachment.key,
            attachment.generation,
            11,
            message(a, b"replacement", 2),
        )
        .unwrap();
    broker
        .route(&device.device_key, message(a, b"", 0))
        .unwrap();
    broker
        .route(&device.device_key, message(b, b"competitor", 1))
        .unwrap();
    let snapshot = broker.snapshot();
    attachment.detach().unwrap();
    let recovered = Hub::new(limits);
    recovered.restore(snapshot).unwrap();
    assert_eq!(recovered.retained_reserved_count(), 1);
    let mut resumed = recovered.attach(&device, "client".into(), false).unwrap();
    assert!(resumed.session_present);
    let InboundQos2Action::Deliver {
        session_incarnation,
        operation_id,
        ..
    } = recovered
        .begin_inbound_qos2_delivery(&resumed.key, resumed.generation, 11)
        .unwrap()
    else {
        panic!("restored transaction must complete");
    };
    recovered
        .finish_inbound_qos2_delivery(&resumed.key, session_incarnation, 11, operation_id)
        .unwrap();
    recovered
        .route_inbound_qos2(
            &resumed.key,
            session_incarnation,
            11,
            operation_id,
            &device.device_key,
        )
        .unwrap();
    assert!(recovered.has_retained_topic(a));
    assert!(recovered.has_retained_topic(b));
    resumed.detach().unwrap();
}

#[test]
fn mqtt_attachment_guard_cleans_clean_and_preserves_persistent_session() {
    let broker = Hub::new(Limits::default());
    let device = auth("guard");
    drop(broker.attach(&device, "clean".into(), true).unwrap());
    let clean_probe = broker.attach(&device, "clean".into(), false).unwrap();
    assert!(!clean_probe.session_present);
    drop(clean_probe);

    drop(broker.attach(&device, "persistent".into(), false).unwrap());
    let persistent_probe = broker.attach(&device, "persistent".into(), false).unwrap();
    assert!(persistent_probe.session_present);
}

#[test]
fn persistent_unsubscribe_commits_session_trie_and_offline_removal() {
    let broker = Hub::new(Limits::default());
    let device = auth("persistent-unsub");
    let topic = "v1/t/t/p/p/d/persistent-unsub/up";
    let first = broker.attach(&device, "client".into(), false).unwrap();
    broker
        .subscribe(&first.key, first.generation, topic, 1)
        .unwrap();
    broker.detach(&first).unwrap();

    let resumed = broker.attach(&device, "client".into(), false).unwrap();
    assert!(resumed.session_present);
    broker
        .unsubscribe(&resumed.key, resumed.generation, topic)
        .unwrap();
    {
        let state = broker.state();
        let session = stored(&state, &resumed.key);
        assert!(session.find_subscription(topic).is_none());
        assert!(state.trie.matching(topic).is_empty());
    }
    broker.detach(&resumed)
        .unwrap();

    assert_eq!(
        broker
            .route(
                &device.device_key,
                BrokerMessage {
                    topic: topic.into(),
                    payload: b"stale".to_vec(),
                    qos: 1,
                    retain: false,
                    properties: Default::default(),
                },
            )
            .unwrap(),
        0
    );
    {
        let state = broker.state();
        let session = stored(&state, &resumed.key);
        assert!(session.offline.is_empty());
        assert_eq!(offline_count(&state), 0);
    }

    let verify = broker.attach(&device, "client".into(), false).unwrap();
    assert!(verify.session_present);
    assert!(verify.receiver.is_empty());
    broker
        .subscribe(&verify.key, verify.generation, topic, 1)
        .unwrap();
    broker.detach(&verify)
        .unwrap();
    assert_eq!(
        broker
            .route(
                &device.device_key,
                BrokerMessage {
                    topic: topic.into(),
                    payload: b"fresh".to_vec(),
                    qos: 1,
                    retain: false,
                    properties: Default::default(),
                },
            )
            .unwrap(),
        1
    );
    let state = broker.state();
    assert_eq!(stored(&state, &verify.key).offline.len(), 1);
}

#[test]
fn mqtt_accepted_will_reservation_survives_later_retained_pressure() {
    let limits = Limits {
        max_retained_messages: 1,
        max_retained_messages_per_tenant: 1,
        ..Limits::default()
    };
    let broker = Hub::new(limits);
    let device = auth("will");
    let mut will = broker
        .reserve_will(
            device.device_key.clone(),
            BrokerMessage {
                topic: "will/reserved".into(),
                payload: vec![0xff; 16],
                qos: 1,
                retain: true,
                properties: Default::default(),
            },
        )
        .unwrap();
    {
        let state = broker.state();
        assert_eq!(retained_reserved_count(&state), 1);
        assert!(retained_reserved_bytes(&state) > 0);
    }
    assert!(
        broker
            .route(
                &device.device_key,
                BrokerMessage {
                    topic: "will/competitor".into(),
                    payload: vec![1],
                    qos: 1,
                    retain: true,
                    properties: Default::default(),
                },
            )
            .is_err()
    );
    will.arm();
    will.publish().unwrap();
    assert!(broker.has_retained_topic("will/reserved"));
    let state = broker.state();
    assert_eq!(retained_reserved_count(&state), 0);
    assert_eq!(retained_reserved_bytes(&state), 0);
}

#[test]
fn will_subscriber_pressure_001() {
    let limits = Limits {
        max_offline_messages_per_session: 1,
        max_offline_messages_per_tenant: 8,
        max_offline_messages: 8,
        ..Limits::default()
    };
    let broker = Hub::new(limits);
    let device = auth("will-pressure");
    let will_topic = "v1/t/t/p/p/d/will-pressure/up";
    let fill_topic = "v1/t/t/p/p/d/will-pressure/fill";
    let mut a = broker.attach(&device, "a".into(), false).unwrap();
    let b = broker.attach(&device, "b".into(), false).unwrap();
    broker
        .subscribe(&a.key, a.generation, will_topic, 1)
        .unwrap();
    broker
        .subscribe(&b.key, b.generation, will_topic, 1)
        .unwrap();
    broker
        .subscribe(&b.key, b.generation, fill_topic, 1)
        .unwrap();
    broker.detach(&b).unwrap();
    broker
        .route(
            &device.device_key,
            BrokerMessage {
                topic: fill_topic.into(),
                payload: b"fill".to_vec(),
                qos: 1,
                retain: false,
                properties: Default::default(),
            },
        )
        .unwrap();
    let mut will = broker
        .reserve_will(
            device.device_key.clone(),
            BrokerMessage {
                topic: will_topic.into(),
                payload: b"will".to_vec(),
                qos: 1,
                retain: false,
                properties: Default::default(),
            },
        )
        .unwrap();
    will.arm();
    will.publish().unwrap();
    assert_eq!(broker.pending_will_count(), 1);
    assert!(
        a.receiver.try_recv().is_err(),
        "A must not observe a partial route"
    );

    let mut resumed_b = broker.attach(&device, "b".into(), false).unwrap();
    let BrokerFrame::Publish(fill) = resumed_b.receiver.recv().unwrap() else {
        panic!("expected queued fill")
    };
    broker
        .puback(
            &resumed_b.key,
            resumed_b.generation,
            fill.packet_id.unwrap(),
        )
        .unwrap();
    let BrokerFrame::Publish(a_will) = a.receiver.recv().unwrap() else {
        panic!("expected Will for A")
    };
    let BrokerFrame::Publish(b_will) = resumed_b.receiver.recv().unwrap() else {
        panic!("expected Will for B")
    };
    assert_eq!(a_will.message.payload, b"will");
    assert_eq!(b_will.message.payload, b"will");
    assert_eq!(broker.pending_will_count(), 0);
}

#[test]
fn will_pending_restart_001() {
    let limits = Limits {
        max_offline_messages_per_session: 1,
        max_offline_messages_per_tenant: 8,
        max_offline_messages: 8,
        ..Limits::default()
    };
    let broker = Hub::new(limits.clone());
    let device = auth("will-restart");
    let topic = "v1/t/t/p/p/d/will-restart/up";
    let subscriber = broker.attach(&device, "persistent".into(), false).unwrap();
    broker
        .subscribe(&subscriber.key, subscriber.generation, topic, 1)
        .unwrap();
    broker.detach(&subscriber)
        .unwrap();
    broker
        .route(
            &device.device_key,
            BrokerMessage {
                topic: topic.into(),
                payload: b"fill".to_vec(),
                qos: 1,
                retain: false,
                properties: Default::default(),
            },
        )
        .unwrap();
    let mut will = broker
        .reserve_will(
            device.device_key.clone(),
            BrokerMessage {
                topic: topic.into(),
                payload: b"restart-will".to_vec(),
                qos: 1,
                retain: false,
                properties: Default::default(),
            },
        )
        .unwrap();
    will.arm();
    will.publish().unwrap();
    assert_eq!(broker.pending_will_count(), 1);

    let image = broker.commit().unwrap();
    let recovered = Hub::new(limits);
    recovered.recover(&image).unwrap();
    assert_eq!(recovered.pending_will_count(), 1);
    let mut resumed = recovered
        .attach(&device, "persistent".into(), false)
        .unwrap();
    let BrokerFrame::Publish(fill) = resumed.receiver.recv().unwrap() else {
        panic!("expected recovered fill")
    };
    recovered
        .puback(&resumed.key, resumed.generation, fill.packet_id.unwrap())
        .unwrap();
    let BrokerFrame::Publish(will) = resumed.receiver.recv().unwrap() else {
        panic!("expected recovered pending Will")
    };
    assert_eq!(will.message.payload, b"restart-will");
    assert_eq!(recovered.pending_will_count(), 0);
}

fn tenant_capacity_wakes_other_session(qos: u8) {
    let limits = Limits {
        max_inflight_qos1_per_tenant: 1,
        max_inflight_qos2_per_tenant: 1,
        ..Limits::default()
    };
    let broker = Hub::new(limits);
    let mut a = broker.attach(&auth("wake-a"), "a".into(), false).unwrap();
    let mut b = broker.attach(&auth("wake-b"), "b".into(), false).unwrap();
    for attachment in [&a, &b] {
        broker
            .subscribe(&attachment.key, attachment.generation, "wake/topic", qos)
            .unwrap();
    }
    broker
        .route(
            &a.key.device,
            BrokerMessage {
                topic: "wake/topic".into(),
                payload: vec![qos],
                qos,
                retain: false,
                properties: Default::default(),
            },
        )
        .unwrap();
    let (live_key, live_generation, packet_id, waiting) =
        if let Ok(BrokerFrame::Publish(delivery)) = a.receiver.try_recv() {
            (
                a.key.clone(),
                a.generation,
                delivery.packet_id.unwrap(),
                &mut b.receiver,
            )
        } else if let Ok(BrokerFrame::Publish(delivery)) = b.receiver.try_recv() {
            (
                b.key.clone(),
                b.generation,
                delivery.packet_id.unwrap(),
                &mut a.receiver,
            )
        } else {
            panic!("one tenant session must receive the initial frame")
        };
    assert!(waiting.try_recv().is_err());
    if qos == 1 {
        broker
            .puback(&live_key, live_generation, packet_id)
            .unwrap();
    } else {
        broker
            .pubrec(&live_key, live_generation, packet_id)
            .unwrap();
        assert!(
            waiting.try_recv().is_err(),
            "PUBREC does not release QoS2 capacity"
        );
        broker
            .pubcomp(&live_key, live_generation, packet_id)
            .unwrap();
    }
    assert!(matches!(waiting.recv(), Some(BrokerFrame::Publish(_))));
}

#[test]
fn mqtt_tenant_qos1_capacity_release_wakes_other_session() {
    tenant_capacity_wakes_other_session(1);
}

#[test]
fn mqtt_tenant_qos2_capacity_release_wakes_other_session() {
    tenant_capacity_wakes_other_session(2);
}

#[test]
fn retained_offline_and_outbound_qos_lifecycle_are_bounded() {
    let broker = Hub::new(Limits::default());
    let a = auth("a");
    let mut attachment = broker.attach(&a, "a".into(), false).unwrap();
    broker
        .subscribe(
            &attachment.key,
            attachment.generation,
            "v1/t/t/p/p/d/a/#",
            2,
        )
        .unwrap();
    let message = BrokerMessage {
        topic: "v1/t/t/p/p/d/a/up".into(),
        payload: b"retained".to_vec(),
        qos: 2,
        retain: true,
        properties: Default::default(),
    };
    broker.route(&a.device_key, message).unwrap();
    let BrokerFrame::Publish(delivery) = attachment.receiver.recv().unwrap() else {
        panic!()
    };
    let id = delivery.packet_id.unwrap();
    assert!(matches!(
        broker
            .pubrec(&attachment.key, attachment.generation, id)
            .unwrap(),
        BrokerFrame::Pubrel { dup: false, .. }
    ));
    assert!(matches!(
        broker
            .pubrec(&attachment.key, attachment.generation, id)
            .unwrap(),
        BrokerFrame::Pubrel { dup: true, .. }
    ));
    broker
        .pubcomp(&attachment.key, attachment.generation, id)
        .unwrap();
    broker.detach(&attachment)
        .unwrap();
    broker
        .route(
            &a.device_key,
            BrokerMessage {
                topic: "v1/t/t/p/p/d/a/up".into(),
                payload: b"offline".to_vec(),
                qos: 1,
                retain: false,
                properties: Default::default(),
            },
        )
        .unwrap();
    let mut resumed = broker.attach(&a, "a".into(), false).unwrap();
    assert!(matches!(
        resumed.receiver.recv(),
        Some(BrokerFrame::Publish(_))
    ));
}

#[test]
fn persistent_reconnect_retransmits_outbound_in_original_order() {
    let broker = Hub::new(Limits::default());
    let device = auth("a");
    let topic = "v1/t/t/p/p/d/a/up";
    let mut attachment = broker.attach(&device, "ordered".into(), false).unwrap();
    broker
        .subscribe(&attachment.key, attachment.generation, topic, 1)
        .unwrap();

    let mut expected = Vec::new();
    for sequence in 0u8..16 {
        broker
            .route(
                &device.device_key,
                BrokerMessage {
                    topic: topic.into(),
                    payload: vec![sequence],
                    qos: 1,
                    retain: false,
                    properties: Default::default(),
                },
            )
            .unwrap();
        let BrokerFrame::Publish(delivery) = attachment.receiver.recv().unwrap() else {
            panic!("expected publish")
        };
        expected.push((delivery.packet_id.unwrap(), delivery.message.payload));
    }
    broker.detach(&attachment)
        .unwrap();

    let mut resumed = broker.attach(&device, "ordered".into(), false).unwrap();
    assert!(resumed.session_present);
    for (packet_id, payload) in expected {
        let BrokerFrame::Publish(delivery) = resumed.receiver.recv().unwrap() else {
            panic!("expected retransmitted publish")
        };
        assert_eq!(delivery.packet_id, Some(packet_id));
        assert_eq!(delivery.message.payload, payload);
        assert!(delivery.dup);
    }
}

#[test]
fn reconnect_replay_is_ordered_before_new_live_route() {
    let broker = Hub::new(Limits::default());
    let device = auth("replay-order");
    let topic = "v1/t/t/p/p/d/replay-order/up";
    let mut first = broker.attach(&device, "client".into(), false).unwrap();
    broker
        .subscribe(&first.key, first.generation, topic, 1)
        .unwrap();
    let message = |payload: &[u8]| BrokerMessage {
        topic: topic.into(),
        payload: payload.to_vec(),
        qos: 1,
        retain: false,
        properties: Default::default(),
    };
    broker.route(&device.device_key, message(b"old")).unwrap();
    let BrokerFrame::Publish(old) = first.receiver.try_recv().unwrap() else {
        panic!("expected original publish")
    };
    let packet_id = old.packet_id;
    first.detach().unwrap();

    let mut resumed = broker.attach(&device, "client".into(), false).unwrap();
    broker.route(&device.device_key, message(b"new")).unwrap();
    let BrokerFrame::Publish(replayed) = resumed.receiver.try_recv().unwrap() else {
        panic!("expected replay")
    };
    assert_eq!(replayed.message.payload, b"old");
    assert_eq!(replayed.packet_id, packet_id);
    assert!(replayed.dup);
    let BrokerFrame::Publish(live) = resumed.receiver.try_recv().unwrap() else {
        panic!("expected new live publish")
    };
    assert_eq!(live.message.payload, b"new");
    assert!(!live.dup);
    resumed.detach().unwrap();
}

#[test]
fn retained_replay_capacity_failure_does_not_commit_subscription_or_trie() {
    let broker = Hub::new(Limits {
        max_outbound_messages_per_connection: 1,
        ..Limits::default()
    });
    let owner = auth("publisher");
    for suffix in ["one", "two"] {
        broker
            .route(
                &owner.device_key,
                BrokerMessage {
                    topic: format!("v1/t/t/p/p/d/publisher/{suffix}"),
                    payload: suffix.as_bytes().to_vec(),
                    qos: 0,
                    retain: true,
                    properties: Default::default(),
                },
            )
            .unwrap();
    }
    let subscriber = auth("subscriber");
    let mut attachment = broker
        .attach(&subscriber, "transactional-subscribe".into(), true)
        .unwrap();
    let filter = "v1/t/t/p/p/d/publisher/#";
    assert!(
        broker
            .subscribe(&attachment.key, attachment.generation, filter, 0)
            .is_err()
    );
    assert_eq!(
        broker.subscription_qos(&attachment.key, filter),
        None
    );
    broker
        .route(
            &owner.device_key,
            BrokerMessage {
                topic: "v1/t/t/p/p/d/publisher/future".into(),
                payload: b"future".to_vec(),
                qos: 0,
                retain: false,
                properties: Default::default(),
            },
        )
        .unwrap();
    assert!(attachment.receiver.try_recv().is_err());
}

#[test]
fn routing_uses_minimum_qos_and_retained_replace_delete_semantics() {
    let broker = Hub::new(Limits::default());
    let a = auth("matrix");
    let mut attachment = broker.attach(&a, "matrix".into(), false).unwrap();
    broker
        .subscribe(
            &attachment.key,
            attachment.generation,
            "v1/t/t/p/p/d/matrix/+",
            1,
        )
        .unwrap();
    for publish_qos in 0..=2 {
        broker
            .route(
                &a.device_key,
                BrokerMessage {
                    topic: "v1/t/t/p/p/d/matrix/up".into(),
                    payload: vec![publish_qos],
                    qos: publish_qos,
                    retain: true,
                    properties: Default::default(),
                },
            )
            .unwrap();
        let BrokerFrame::Publish(delivery) = attachment.receiver.recv().unwrap() else {
            panic!("expected routed publish")
        };
        assert_eq!(delivery.message.qos, publish_qos.min(1));
        assert!(!delivery.message.retain);
        if delivery.message.qos == 1 {
            broker
                .puback(&attachment.key, attachment.generation, delivery.packet_id.unwrap())
                .unwrap();
        }
    }
    assert_eq!(broker.usage().3, 1, "retained value is replaced");
    broker
        .route(
            &a.device_key,
            BrokerMessage {
                topic: "v1/t/t/p/p/d/matrix/up".into(),
                payload: Vec::new(),
                qos: 0,
                retain: true,
                properties: Default::default(),
            },
        )
        .unwrap();
    assert_eq!(
        broker.usage().3,
        0,
        "zero payload deletes retained"
    );
}

#[test]
fn recovery_file_round_trip_preserves_session_retained_and_inflight() {

    let broker = Hub::new(Limits::default());
    let a = auth("recovery");
    let mut attachment = broker.attach(&a, "persistent".into(), false).unwrap();
    broker
        .subscribe(
            &attachment.key,
            attachment.generation,
            "v1/t/t/p/p/d/recovery/#",
            1,
        )
        .unwrap();
    broker
        .route(
            &a.device_key,
            BrokerMessage {
                topic: "v1/t/t/p/p/d/recovery/up".into(),
                payload: b"durable".to_vec(),
                qos: 1,
                retain: true,
                properties: Default::default(),
            },
        )
        .unwrap();
    let BrokerFrame::Publish(first) = attachment.receiver.recv().unwrap() else {
        panic!("expected publish")
    };
    let packet_id = first.packet_id.unwrap();
    broker.detach(&attachment)
        .unwrap();
    let image = broker.commit().unwrap();

    let recovered = Hub::new(Limits::default());
    recovered.recover(&image).unwrap();
    let mut resumed = recovered.attach(&a, "persistent".into(), false).unwrap();
    assert!(resumed.session_present);
    let BrokerFrame::Publish(replayed) = resumed.receiver.recv().unwrap() else {
        panic!("expected replayed publish")
    };
    assert_eq!(replayed.packet_id, Some(packet_id));
    assert!(replayed.dup);
    assert!(!replayed.message.retain);
    let mut retained_subscriber = recovered
        .attach(&a, "retained-reader".into(), true)
        .unwrap();
    recovered
        .subscribe(
            &retained_subscriber.key,
            retained_subscriber.generation,
            "v1/t/t/p/p/d/recovery/#",
            1,
        )
        .unwrap();
    let BrokerFrame::Publish(retained) = retained_subscriber.receiver.recv().unwrap()
    else {
        panic!("expected retained publish")
    };
    assert!(retained.message.retain);
}

#[test]
fn mqtt_recovery_v2_compat_001() {
    let device = auth("v2-compatible");
    let mut payload = Vec::new();
    put_string(&mut payload, device.device_key.tenant_id.as_str()).unwrap();
    put_string(&mut payload, device.device_key.product_id.as_str()).unwrap();
    put_string(&mut payload, device.device_key.device_id.as_str()).unwrap();
    put_string(&mut payload, "persistent").unwrap();
    payload.extend_from_slice(&1u64.to_be_bytes());
    payload.push(1);
    payload.extend_from_slice(&device.credential_version.to_be_bytes());
    payload.extend_from_slice(&device.auth_generation.to_be_bytes());
    payload.push(1);
    payload.push(1);
    payload.extend_from_slice(&1u16.to_be_bytes());
    payload.extend_from_slice(&NOW.to_be_bytes());
    let mut header = Vec::new();
    header.extend_from_slice(b"NBMQ");
    header.extend_from_slice(&RECOVERY_VERSION_V2.to_be_bytes());
    header.extend_from_slice(&1u64.to_be_bytes());
    let mut image = header.clone();
    image.extend_from_slice(&Sha256::digest(&header));
    image.push(RECORD_SESSION);
    image.extend_from_slice(&u32::try_from(payload.len()).unwrap().to_be_bytes());
    image.extend_from_slice(&payload);
    image.extend_from_slice(&Sha256::digest(&payload));
    let snapshot = decoded(&image, &Limits::default()).unwrap();
    assert_eq!(snapshot.format_version, RECOVERY_VERSION_V2);
    let restored = Hub::new(Limits::default());
    restored.restore(snapshot).unwrap();
    // v2 did not carry codec provenance, so it is readable but conservatively reset at attach.
    assert!(
        !restored
            .attach(&device, "persistent".into(), false)
            .unwrap()
            .session_present
    );
}

#[test]
fn mqtt_recovery_semantic_invalid_001() {
    let broker = Hub::new(Limits::default());
    let device = auth("semantic-invalid");
    let attachment = broker.attach(&device, "persistent".into(), false).unwrap();
    broker
        .inbound_qos2(
            &attachment.key,
            attachment.generation,
            5,
            BrokerMessage {
                topic: "semantic/invalid".into(),
                payload: vec![1],
                qos: 2,
                retain: false,
                properties: Default::default(),
            },
        )
        .unwrap();
    let mut snapshot = broker.snapshot();
    snapshot.sessions[0].inbound_qos2[0].state = InboundQos2State::AwaitPubrel(BrokerMessage {
        topic: "semantic/invalid".into(),
        payload: vec![1],
        qos: 1,
        retain: false,
        properties: Default::default(),
    });
    assert!(matches!(broker.restore(snapshot), Err(Error::Invalid)));
}

#[test]
fn mqtt_recovery_acl_ownership_001() {
    let limits = Limits::default();
    let source = Hub::new(limits.clone());
    let device = auth("acl-owner");
    let attachment = source.attach(&device, "persistent".into(), false).unwrap();
    source
        .subscribe(
            &attachment.key,
            attachment.generation,
            "v1/t/t/p/p/d/acl-owner/#",
            1,
        )
        .unwrap();
    let base = || source.snapshot();
    let foreign = BrokerMessage {
        topic: "v1/t/t/p/p/d/other/up".into(),
        payload: b"foreign".to_vec(),
        qos: 1,
        retain: false,
        properties: Default::default(),
    };

    let mut invalid = base();
    invalid.sessions[0]
        .set_subscription("v1/t/t/p/p/d/other/#", Subscription::v311(1));
    assert!(Hub::new(limits.clone()).restore(invalid).is_err());

    let mut invalid = base();
    invalid.sessions[0].offline.push(foreign.clone());
    invalid.sessions[0].offline_bytes = foreign.bytes();
    assert!(Hub::new(limits.clone()).restore(invalid).is_err());

    let mut invalid = base();
    invalid.sessions[0].outbound.push(OutboundEntry {
        packet_id: 1,
        state: OutboundState::AwaitPuback(foreign.clone()),
        command: false,
        sent: false,
        windowed: false,
        started: false,
    });
    assert!(Hub::new(limits.clone()).restore(invalid).is_err());

    let mut invalid = base();
    invalid.sessions[0].inbound_qos2.push(InboundEntry {
        packet_id: 2,
        state: InboundQos2State::AwaitPubrel(BrokerMessage { qos: 2, ..foreign }),
        operation_id: None,
        reservation: RetainedReservation::default(),
    });
    assert!(Hub::new(limits.clone()).restore(invalid).is_err());

    let mut invalid = base();
    let retained_message = BrokerMessage {
        topic: "v1/t/t/p/p/d/acl-owner/up".into(),
        payload: b"retained".to_vec(),
        qos: 1,
        retain: true,
        properties: Default::default(),
    };
    invalid.retained.push((
        retained_message.topic.clone(),
        RetainedMessage {
            tenant_id: TenantId::new("other-tenant").unwrap(),
            message: retained_message,
            origin: None,
        },
    ));
    assert!(Hub::new(limits.clone()).restore(invalid).is_err());

    let mut invalid = base();
    invalid.pending_wills.push(PendingWill {
        owner: device.device_key.clone(),
        origin: None,
        message: BrokerMessage {
            topic: "v1/t/t/p/p/d/other/up".into(),
            payload: b"foreign-will".to_vec(),
            qos: 1,
            retain: false,
            properties: Default::default(),
        },
        due_at_ms: None,
        cancel_on_resume: None,
        message_expiry_interval: None,
        retained_reservation: RetainedReservation::default(),
        counted: true,
    });
    assert!(Hub::new(limits.clone()).restore(invalid).is_err());

    let mut legacy = base();
    legacy.sessions[0].authorization = None;
    let restored = Hub::new(limits);
    restored.restore(legacy).unwrap();
    assert_eq!(
        restored
            .matching_subscription_count("v1/t/t/p/p/d/acl-owner/up"),
        0
    );
    assert!(
        !restored
            .attach(&device, "persistent".into(), false)
            .unwrap()
            .session_present
    );
}

#[test]
fn mqtt_recovery_v3_raw_binary_round_trip_bound() {
    let limits = Limits::default();
    let broker = Hub::new(limits.clone());
    for (index, byte) in [0_u8, 0x7f, 0x80, 0xff].into_iter().enumerate() {
        let device = auth(&format!("binary-recovery-{index}"));
        broker
            .route(
                &device.device_key,
                BrokerMessage {
                    topic: format!("v1/t/t/p/p/d/binary-recovery-{index}/up"),
                    payload: vec![byte; 1024],
                    qos: 1,
                    retain: true,
                    properties: Default::default(),
                },
            )
            .unwrap();
    }
    let image = broker.commit().unwrap();
    assert!(image.len() <= limits.mqtt_recovery_max_bytes);
    assert!(
        image
            .windows(1024)
            .any(|window| window.iter().all(|byte| *byte == 0xff))
    );
    let recovered = Hub::new(limits);
    recovered.recover(&image).unwrap();
    assert_eq!(recovered.usage().3, 4);
}

#[test]
fn mqtt_recovery_v6_large_client_id_will_fits_admitted_bounds() {
    let limits = Limits {
        max_client_id_bytes: 40_000,
        ..Limits::default()
    };
    let broker = Hub::new(limits.clone());
    let owner = auth("wide-will").device_key;
    let origin = SessionKey {
        device: owner.clone(),
        client_id: "c".repeat(limits.max_client_id_bytes),
    };
    let pending = PendingWill {
        owner: owner.clone(),
        origin: Some(origin.clone()),
        message: BrokerMessage {
            topic: "v1/t/t/p/p/d/wide-will/up".into(),
            // ClientId and Will payload together fit the configured 65,536-byte packet.
            payload: vec![0x7a; 20_000],
            qos: 1,
            retain: false,
            properties: Default::default(),
        },
        due_at_ms: Some(i64::MAX),
        cancel_on_resume: Some((origin.clone(), 1)),
        message_expiry_interval: None,
        retained_reservation: RetainedReservation::default(),
        counted: true,
    };
    {
        let mut state = broker.state();
        assert!(state.may_hold_will(&owner.tenant_id, pending.bytes()));
        state.future_wills.push(pending);
    }
    let image = broker.commit().unwrap();
    let first_record_bytes = u32::from_be_bytes(image[49..53].try_into().unwrap()) as usize;
    let previous_record_ceiling = limits.max_mqtt_packet_size
        + limits.max_topic_bytes * 2
        + limits.max_mqtt_property_bytes
        + 2_048;
    assert!(first_record_bytes > previous_record_ceiling);
    let recovered = Hub::new(limits);
    recovered.recover(&image).unwrap();
    assert_eq!(recovered.pending_will_count(), 1);
    assert_eq!(
        recovered.state().future_wills[0].origin,
        Some(origin)
    );
}

#[test]
fn mqtt_recovery_whole_image_integrity_001() {
    let limits = Limits::default();
    let broker = Hub::new(limits.clone());
    let device = auth("integrity");
    let topic = "v1/t/t/p/p/d/integrity/up";
    let mut attachment = broker.attach(&device, "persistent".into(), false).unwrap();
    broker
        .subscribe(&attachment.key, attachment.generation, topic, 2)
        .unwrap();
    broker
        .route(
            &device.device_key,
            BrokerMessage {
                topic: topic.into(),
                payload: b"outbound".to_vec(),
                qos: 2,
                retain: true,
                properties: Default::default(),
            },
        )
        .unwrap();
    let _ = attachment.receiver.recv().unwrap();
    broker
        .inbound_qos2(
            &attachment.key,
            attachment.generation,
            77,
            BrokerMessage {
                topic: topic.into(),
                payload: b"inbound".to_vec(),
                qos: 2,
                retain: false,
                properties: Default::default(),
            },
        )
        .unwrap();
    broker.detach(&attachment)
        .unwrap();
    broker
        .route(
            &device.device_key,
            BrokerMessage {
                topic: topic.into(),
                payload: b"offline".to_vec(),
                qos: 1,
                retain: false,
                properties: Default::default(),
            },
        )
        .unwrap();
    let image = broker.commit().unwrap();
    let records_end = image.len() - RECOVERY_TRAILER_BYTES;
    let mut records = Vec::new();
    let mut at = RECOVERY_HEADER_BYTES;
    while at < records_end {
        let kind = image[at];
        let length = usize::try_from(u32::from_be_bytes(
            image[at + 1..at + 5].try_into().unwrap(),
        ))
        .unwrap();
        let end = at + RECORD_HEADER_BYTES + length + RECORD_CHECKSUM_BYTES;
        records.push((kind, at, end));
        at = end;
    }
    assert_eq!(at, records_end);
    for kind in [RECORD_OFFLINE, RECORD_OUTBOUND, RECORD_INBOUND_QOS2] {
        let (_, start, end) = records
            .iter()
            .copied()
            .find(|record| record.0 == kind)
            .unwrap();
        let mut mutated = image.clone();
        mutated.drain(start..end);
        assert!(decode_mqtt_recovery(&mutated, &limits).is_err());
    }
    assert!(decode_mqtt_recovery(&image[..records_end], &limits).is_err());

    let (_, first_start, first_end) = records[1];
    let (_, second_start, second_end) = records[2];
    let mut reordered = Vec::with_capacity(image.len());
    reordered.extend_from_slice(&image[..first_start]);
    reordered.extend_from_slice(&image[second_start..second_end]);
    reordered.extend_from_slice(&image[first_end..second_start]);
    reordered.extend_from_slice(&image[first_start..first_end]);
    reordered.extend_from_slice(&image[second_end..]);
    assert!(decode_mqtt_recovery(&reordered, &limits).is_err());

    let mut unknown = Vec::with_capacity(image.len() + RECORD_HEADER_BYTES + 32);
    unknown.extend_from_slice(&image[..records_end]);
    unknown.push(0xff);
    unknown.extend_from_slice(&0u32.to_be_bytes());
    unknown.extend_from_slice(&Sha256::digest([]));
    unknown.extend_from_slice(&image[records_end..]);
    assert!(decode_mqtt_recovery(&unknown, &limits).is_err());
}

#[test]
fn qos2_recovery_resumes_each_protocol_stage_without_reallocation() {
    let limits = Limits::default();
    let a = auth("qos2-recovery");
    let broker = Hub::new(limits.clone());
    let mut attachment = broker.attach(&a, "qos2".into(), false).unwrap();
    broker
        .subscribe(
            &attachment.key,
            attachment.generation,
            "v1/t/t/p/p/d/qos2-recovery/#",
            2,
        )
        .unwrap();
    broker
        .route(
            &a.device_key,
            BrokerMessage {
                topic: "v1/t/t/p/p/d/qos2-recovery/up".into(),
                payload: b"outbound".to_vec(),
                qos: 2,
                retain: false,
                properties: Default::default(),
            },
        )
        .unwrap();
    let BrokerFrame::Publish(first) = attachment.receiver.recv().unwrap() else {
        panic!("expected qos2 publish")
    };
    let packet_id = first.packet_id.unwrap();
    broker
        .inbound_qos2(
            &attachment.key,
            attachment.generation,
            77,
            BrokerMessage {
                topic: "v1/t/t/p/p/d/qos2-recovery/up".into(),
                payload: b"inbound".to_vec(),
                qos: 2,
                retain: false,
                properties: Default::default(),
            },
        )
        .unwrap();

    let before_pubrec = Hub::new(limits.clone());
    before_pubrec.restore(broker.snapshot()).unwrap();
    let mut resumed = before_pubrec.attach(&a, "qos2".into(), false).unwrap();
    let BrokerFrame::Publish(retry) = resumed.receiver.recv().unwrap() else {
        panic!("expected qos2 publish retry")
    };
    assert_eq!(retry.packet_id, Some(packet_id));
    assert!(retry.dup);
    assert!(
        before_pubrec
            .inbound_qos2_message(&resumed.key, resumed.generation, 77)
            .unwrap()
            .is_some()
    );

    before_pubrec
        .pubrec(&resumed.key, resumed.generation, packet_id)
        .unwrap();
    let before_pubcomp = Hub::new(limits);
    before_pubcomp
        .restore(before_pubrec.snapshot())
        .unwrap();
    let mut resumed = before_pubcomp.attach(&a, "qos2".into(), false).unwrap();
    assert!(matches!(
        resumed.receiver.recv(),
        Some(BrokerFrame::Pubrel {
            packet_id: id,
            dup: true
        }) if id == packet_id
    ));

    let InboundQos2Action::Deliver {
        session_incarnation,
        operation_id,
        ..
    } = before_pubcomp
        .begin_inbound_qos2_delivery(&resumed.key, resumed.generation, 77)
        .unwrap()
    else {
        panic!("expected inbound QoS2 delivery ownership")
    };
    before_pubcomp
        .finish_inbound_qos2_delivery(&resumed.key, session_incarnation, 77, operation_id)
        .unwrap();
    let accepted_stage = Hub::new(Limits::default());
    accepted_stage
        .restore(before_pubcomp.snapshot())
        .unwrap();
    let accepted_owner = accepted_stage.attach(&a, "qos2".into(), false).unwrap();
    assert!(matches!(
        accepted_stage
            .inbound_qos2_message(&accepted_owner.key, accepted_owner.generation, 77)
            .unwrap(),
        Some((_, true))
    ));
}

#[test]
fn recovery_file_supports_legal_state_larger_than_event_spool_record() {
    let limits = Limits {
        max_offline_bytes_per_session: 2_097_152,
        max_mqtt_session_state_bytes: 4_194_304,
        ..Limits::default()
    };
    let broker = Hub::new(limits.clone());
    let a = auth("large-recovery");
    let attachment = broker.attach(&a, "persistent".into(), false).unwrap();
    broker
        .subscribe(
            &attachment.key,
            attachment.generation,
            "v1/t/t/p/p/d/large-recovery/#",
            1,
        )
        .unwrap();
    broker.detach(&attachment)
        .unwrap();
    for sequence in 0..20u8 {
        broker
            .route(
                &a.device_key,
                BrokerMessage {
                    topic: "v1/t/t/p/p/d/large-recovery/up".into(),
                    payload: vec![sequence; 60_000],
                    qos: 1,
                    retain: false,
                    properties: Default::default(),
                },
            )
            .unwrap();
    }
    let image = broker.commit().unwrap();
    assert!(image.len() > 1_048_576);
    let recovered = Hub::new(limits);
    recovered.recover(&image).unwrap();
}


#[test]
fn recovery_file_rejects_corruption_and_unknown_version() {
    let broker = Hub::new(Limits::default());
    let image = broker.commit().unwrap();
    let mut corrupt = image.clone();
    let last = corrupt.len() - 1;
    corrupt[last] ^= 0x80;
    assert!(matches!(broker.recover(&corrupt), Err(Error::Invalid)));
    let mut unknown_version = image;
    unknown_version[4..8].copy_from_slice(&(RECOVERY_VERSION + 1).to_be_bytes());
    assert!(matches!(broker.recover(&unknown_version), Err(Error::Invalid)));
}
