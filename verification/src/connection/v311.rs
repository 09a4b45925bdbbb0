//! Connections of MQTT 3.1.1.
use super::frame::{encoded, Wire};
use super::{publish_units, weigh_publish};
use super::step::{command_ready, Endpoint, EndpointView, Pending, Step, StepView};
use crate::broker::attach::{
    attach_spec, detach_spec, generated_from, maintained, Attachment, AttachmentView, Profile,
};
use crate::broker::inbound::{
    abandon_delivery, accept_inbound, begin_delivery, classify, finish_delivery, route_inbound,
    ActionView, InboundQos2Action, InboundQos2PublishState,
};
use crate::broker::model::BrokerView;
use crate::broker::outbound::{complete_outbound, pull, receive_pubrec, OutboundAck};
use crate::broker::service::{forgotten, publish, shut};
use crate::broker::state::MqttBroker;
use crate::broker::subscribe::{subscribe_spec, unsubscribe_spec};
use crate::broker::wills::{armed_will, hold_will};
use crate::buffer::to_vec;
use crate::codec::common::{encode, packet_bytes};
use crate::codec::v311::{
    ack, connack, filter_views, name_views, Connect, ConnectView, Packet, PacketView, WillView,
};
use crate::codec::v5::{disconnect_reason, disconnect_reason_spec};
use crate::codec::MqttVersion;
use crate::error::Error;
use crate::identity::{AuthenticatedDevice, DeviceView, KeyView};
use crate::limits::Limits;
use crate::message::{no_props, BrokerMessage, MessageView, PublishProperties};
use crate::number::{be16, put_u16};
use crate::session::{auth_of, AuthView, Subscription};
use crate::text::{byte_len, text_bytes};
use crate::topics::{publish_acl, publish_acl_spec, subscribe_acl, subscribe_acl_spec, TopicKind};
use vstd::prelude::*;

verus! {

/// Why a client is not let in: the answer that it gets, if it gets one, and the error.
#[derive(Debug, PartialEq, Eq)]
pub struct Refusal {
    pub bytes: Option<Vec<u8>>,
    pub error: Error,
}

pub open spec fn refusal_bytes(refusal: Refusal) -> Option<Seq<u8>> {
    match refusal.bytes {
        Some(bytes) => Some(bytes@),
        None => None,
    }
}

/// A refused connection gets a return code, or is closed in silence.
pub open spec fn refuses(refusal: Refusal, code: Option<u8>, error: Error) -> bool {
    &&& refusal.error == error
    &&& refusal_bytes(refusal) == match code {
        Some(code) => Some(seq![0x20u8, 2u8, 0u8, code]),
        None => None,
    }
}

fn refuse(code: Option<u8>, error: Error) -> (refusal: Refusal)
    ensures
        refuses(refusal, code, error),
{
    Refusal {
        bytes: match code {
            Some(code) => Some(connack(false, code)),
            None => None,
        },
        error,
    }
}

/// What is wrong with the first packet: the return code and the error.
pub open spec fn greeting_fault(packet: PacketView) -> Option<(Option<u8>, Error)> {
    match packet {
        PacketView::Connect(connect) => if connect.client_id.len() == 0 && !connect.clean_session {
            Some((Some(2), Error::Invalid))
        } else if connect.username is None || connect.password is None {
            Some((Some(4), Error::Authentication))
        } else {
            None
        },
        PacketView::UnsupportedVersion(_) => Some((Some(1), Error::Invalid)),
        _ => Some((None, Error::Invalid)),
    }
}

/// Whether the first packet is one that can be let in once its credentials were accepted.
pub fn check_greeting(packet: Packet) -> (result: Result<Connect, Refusal>)
    ensures
        match greeting_fault(packet@) {
            None => result is Ok && packet@ == PacketView::Connect(result->Ok_0@),
            Some((code, error)) => result is Err && refuses(result->Err_0, code, error),
        },
{
    let ghost model = packet@;
    let connect = match packet {
        Packet::Connect(connect) => connect,
        Packet::UnsupportedVersion(_) => return Err(refuse(Some(1), Error::Invalid)),
        _ => return Err(refuse(None, Error::Invalid)),
    };
    if connect.client_id.as_str().is_empty() && !connect.clean_session {
        return Err(refuse(Some(2), Error::Invalid));
    }
    if connect.username.is_none() || connect.password.is_none() {
        return Err(refuse(Some(4), Error::Authentication));
    }
    Ok(connect)
}

/// What a client is answered whose credentials were not accepted.
pub fn refuse_credentials(error: Error) -> (refusal: Refusal)
    ensures
        refuses(
            refusal,
            if error == Error::Authentication {
                Some(4u8)
            } else {
                None
            },
            error,
        ),
{
    match error {
        Error::Authentication => refuse(Some(4), error),
        _ => refuse(None, error),
    }
}

/// What a client is answered whose device has no room for another connection.
pub fn refuse_lease(error: Error) -> (refusal: Refusal)
    ensures
        refuses(refusal, Some(3), error),
{
    refuse(Some(3), error)
}

/// Whether the device may publish the will that its client brought.
pub fn check_will(auth: &AuthenticatedDevice, connect: &Connect) -> (result: Result<(), Refusal>)
    ensures
        ({
            let barred = match connect@.will {
                Some(will) => publish_acl_spec(
                    auth.device_key@,
                    auth.permissions,
                    will.topic,
                ) is Err,
                None => false,
            };
            &&& result is Err <==> barred
            &&& result is Err ==> refuses(result->Err_0, Some(5), Error::Forbidden)
        }),
{
    match &connect.will {
        Some(will) => match publish_acl(auth, will.topic.as_str()) {
            Ok(_) => Ok(()),
            Err(_) => Err(refuse(Some(5), Error::Forbidden)),
        },
        None => Ok(()),
    }
}

/// The session of a client, or a new one under a name that the broker makes up.
pub open spec fn attached(
    b: BrokerView,
    limits: Limits,
    now: i64,
    device: DeviceView,
    auth: AuthView,
    client_id: Seq<char>,
    clean_session: bool,
) -> (BrokerView, Result<AttachmentView, Error>) {
    let kept = maintained(b, limits, now);
    let name = if client_id.len() == 0 {
        generated_from(kept, limits, 1)
    } else {
        Some(client_id)
    };
    match name {
        None => (kept, Err(Error::Overloaded)),
        Some(name) => attach_spec(
            kept,
            limits,
            now,
            KeyView { device, client_id: name },
            Profile {
                clean_session: client_id.len() == 0 || clean_session,
                version: MqttVersion::V311,
                session_expiry_interval: 0,
                receive_maximum: u16::MAX,
            },
            auth,
        ),
    }
}

pub open spec fn will_message(will: WillView) -> MessageView {
    MessageView {
        topic: will.topic,
        payload: will.payload,
        qos: will.qos,
        retain: will.retain,
        properties: no_props(),
    }
}

/// An attachment given up again.
pub open spec fn dropped(b: BrokerView, limits: Limits, now: i64, a: AttachmentView) -> BrokerView {
    let (next, _) = detach_spec(b, limits, now, a.key, a.generation, a.clean_session);
    forgotten(shut(next, a.receiver), a.receiver)
}

/// A client let in: its session is attached and its will is held. Where the will cannot be held,
/// the session is detached again.
#[verifier::opaque]
pub open spec fn admitted(
    b: BrokerView,
    limits: Limits,
    now: i64,
    device: DeviceView,
    auth: AuthView,
    connect: ConnectView,
) -> (BrokerView, Result<(AttachmentView, Option<u64>), Error>) {
    let (joined, outcome) = attached(
        b,
        limits,
        now,
        device,
        auth,
        connect.client_id,
        connect.clean_session,
    );
    match (outcome, connect.will) {
        (Err(error), _) => (joined, Err(error)),
        (Ok(a), None) => (joined, Ok((a, None))),
        (Ok(a), Some(will)) => {
            let (held, token) = hold_will(
                joined,
                limits,
                a.key.device,
                Some(a.key),
                will_message(will),
            );
            match token {
                Err(error) => (dropped(held, limits, now, a), Err(error)),
                Ok(token) => (armed_will(held, token), Ok((a, Some(token)))),
            }
        },
    }
}

/// What a client that was let in is answered.
#[derive(Debug, PartialEq, Eq)]
pub struct Welcome {
    pub endpoint: Endpoint,
    pub bytes: Vec<u8>,
    pub command_ready: bool,
}

/// Lets a client in.
pub fn let_in(
    broker: &mut MqttBroker,
    auth: AuthenticatedDevice,
    connect: Connect,
    now: i64,
) -> (result: Result<Welcome, Error>)
    requires
        old(broker).wf(),
    ensures
        final(broker).wf(),
        final(broker).limits == old(broker).limits,
        ({
            let (next, outcome) = admitted(
                old(broker)@,
                old(broker).limits,
                now,
                auth.device_key@,
                auth_of(auth),
                connect@,
            );
            final(broker)@ == next && match outcome {
                Err(error) => result is Err && result->Err_0 == error,
                Ok((attachment, will)) => {
                    &&& result is Ok
                    &&& result->Ok_0.endpoint.auth == auth
                    &&& result->Ok_0.endpoint@ == (EndpointView {
                        device: auth.device_key@,
                        permissions: auth.permissions,
                        attachment,
                        will,
                        wire: Wire {
                            version: MqttVersion::V311,
                            maximum: old(broker).limits.max_mqtt_packet_size,
                        },
                    })
                    &&& result->Ok_0.bytes@ == seq![
                        0x20u8,
                        2u8,
                        if attachment.session_present {
                            1u8
                        } else {
                            0u8
                        },
                        0u8,
                    ]
                    &&& result->Ok_0.command_ready == command_ready(next, result->Ok_0.endpoint@)
                },
            }
        }),
{
    reveal(admitted);
    let ghost model = connect@;
    let Connect { client_id, username: _, password: _, keep_alive: _, clean_session, will } =
        connect;
    let joined = if client_id.as_str().is_empty() {
        broker.attach_generated(&auth, now)
    } else {
        broker.attach(&auth, client_id, clean_session, now)
    };
    let mut attachment = match joined {
        Ok(attachment) => attachment,
        Err(error) => return Err(error),
    };
    let ghost a = attachment@;
    let guard = match will {
        None => None,
        Some(will) => {
            let message = BrokerMessage {
                topic: will.topic,
                payload: to_vec(&will.payload),
                qos: will.qos,
                retain: will.retain,
                properties: PublishProperties::default(),
            };
            assert(message@ =~= will_message(model.will->0));
            match broker.reserve_will_for_session(attachment.key.clone(), message) {
                Err(error) => {
                    give_up(broker, attachment, now);
                    return Err(error);
                },
                Ok(guard) => {
                    let mut guard = guard;
                    guard.arm(broker);
                    Some(guard)
                },
            }
        },
    };
    let bytes = connack(attachment.session_present, 0);
    let endpoint = Endpoint {
        auth,
        attachment,
        will: guard,
        wire: Wire { version: MqttVersion::V311, maximum: broker.limits.max_mqtt_packet_size },
    };
    let command_ready = endpoint.accepts_commands(broker);
    Ok(Welcome { endpoint, bytes, command_ready })
}

pub(crate) fn give_up(broker: &mut MqttBroker, attachment: Attachment, now: i64)
    requires
        old(broker).wf(),
    ensures
        final(broker).wf(),
        final(broker).limits == old(broker).limits,
        final(broker)@ == dropped(old(broker)@, old(broker).limits, now, attachment@),
{
    let _ = broker.detach(
        &attachment.key,
        attachment.generation,
        attachment.clean_session,
        now,
    );
    broker.close_receiver(attachment.receiver);
    broker.forget_link(attachment.receiver);
}

/// A packet that cannot be taken in good part.
pub open spec fn failed(error: Error) -> StepView {
    StepView::Fail { error, reason: disconnect_reason_spec(error) }
}

pub(crate) fn fail(error: Error) -> (step: Step)
    ensures
        step@ == failed(error),
{
    let reason = disconnect_reason(&error);
    Step::Fail { error, reason }
}

/// Some of a client's subscriptions made, each answered with what was granted or with a refusal.
pub open spec fn subscribed(
    b: BrokerView,
    limits: Limits,
    now: i64,
    e: EndpointView,
    filters: Seq<(Seq<char>, u8)>,
    n: nat,
) -> (BrokerView, Seq<u8>)
    decreases n,
{
    if n == 0 {
        (b, Seq::empty())
    } else {
        let (before, codes) = subscribed(b, limits, now, e, filters, (n - 1) as nat);
        let (filter, qos) = filters[n - 1];
        if subscribe_acl_spec(e.device, e.permissions, filter, limits) {
            let (next, granted) = subscribe_spec(
                before,
                limits,
                now,
                e.attachment.key,
                e.attachment.generation,
                filter,
                Subscription::v311_spec(qos),
            );
            (
                next,
                codes.push(
                    match granted {
                        Ok(qos) => qos,
                        Err(_) => 0x80,
                    },
                ),
            )
        } else {
            (before, codes.push(0x80))
        }
    }
}

pub open spec fn subscribe_step(
    b: BrokerView,
    limits: Limits,
    now: i64,
    e: EndpointView,
    id: u16,
    filters: Seq<(Seq<char>, u8)>,
) -> (BrokerView, StepView) {
    let (next, codes) = subscribed(b, limits, now, e, filters, filters.len());
    (
        next,
        match encoded(0x90, be16(id) + codes, limits.max_mqtt_packet_size as nat) {
            Ok(bytes) => StepView::Announce { bytes, command_ready: command_ready(next, e) },
            Err(error) => failed(error),
        },
    )
}

/// Some of a client's subscriptions ended, up to the first that cannot be.
pub open spec fn unsubscribed(
    b: BrokerView,
    limits: Limits,
    now: i64,
    e: EndpointView,
    filters: Seq<Seq<char>>,
    n: nat,
) -> (BrokerView, Option<Error>)
    decreases n,
{
    if n == 0 {
        (b, None)
    } else {
        let (before, stopped) = unsubscribed(b, limits, now, e, filters, (n - 1) as nat);
        if stopped is Some {
            (before, stopped)
        } else {
            let (next, outcome) = unsubscribe_spec(
                before,
                limits,
                now,
                e.attachment.key,
                e.attachment.generation,
                filters[n - 1],
            );
            (
                next,
                match outcome {
                    Ok(_) => None,
                    Err(error) => Some(error),
                },
            )
        }
    }
}

/// Once stopped, a series of filters stays where it stopped.
proof fn lemma_unsubscribed_stops(
    b: BrokerView,
    limits: Limits,
    now: i64,
    e: EndpointView,
    filters: Seq<Seq<char>>,
    n: nat,
    m: nat,
)
    requires
        n <= m,
        unsubscribed(b, limits, now, e, filters, n).1 is Some,
    ensures
        unsubscribed(b, limits, now, e, filters, m) == unsubscribed(
            b,
            limits,
            now,
            e,
            filters,
            n,
        ),
    decreases m,
{
    if n < m {
        lemma_unsubscribed_stops(b, limits, now, e, filters, n, (m - 1) as nat);
    }
}

pub open spec fn unsubscribe_step(
    b: BrokerView,
    limits: Limits,
    now: i64,
    e: EndpointView,
    id: u16,
    filters: Seq<Seq<char>>,
) -> (BrokerView, StepView) {
    let (next, stopped) = unsubscribed(b, limits, now, e, filters, filters.len());
    (
        next,
        match stopped {
            Some(error) => failed(error),
            None => StepView::Announce {
                bytes: packet_bytes(0xb0, be16(id)),
                command_ready: command_ready(next, e),
            },
        },
    )
}

/// An acknowledged message makes room for the next that waits.
pub open spec fn acknowledge_step(
    b: BrokerView,
    limits: Limits,
    now: i64,
    e: EndpointView,
    id: u16,
    kind: OutboundAck,
) -> (BrokerView, StepView) {
    let key = e.attachment.key;
    let generation = e.attachment.generation;
    let (done, outcome) = complete_outbound(b, limits, now, key, generation, id, kind);
    match outcome {
        Err(error) => (done, failed(error)),
        Ok(command) => {
            let (next, step) = pull(done, limits, now, key, generation);
            (
                next,
                match step {
                    Err(error) => failed(error),
                    Ok(frame) => StepView::Deliver { frame, received: command, more: false },
                },
            )
        },
    }
}

pub open spec fn pubrec_step(b: BrokerView, limits: Limits, e: EndpointView, id: u16) -> (
    BrokerView,
    StepView,
) {
    let (next, outcome) = receive_pubrec(
        b,
        limits,
        e.attachment.key,
        e.attachment.generation,
        id,
    );
    (
        next,
        match outcome {
            Err(error) => failed(error),
            Ok(frame) => StepView::Deliver { frame: Some(frame), received: false, more: false },
        },
    )
}

/// A message that was handed on, or could not be.
pub open spec fn handed_on(
    b: BrokerView,
    limits: Limits,
    now: i64,
    e: EndpointView,
    pending: Pending,
    refused: Option<Error>,
) -> (BrokerView, StepView) {
    match (pending, refused) {
        (Pending::Nothing, None) => (b, StepView::Idle),
        (Pending::Acknowledge { packet_id }, None) => (
            b,
            StepView::Send { bytes: packet_bytes(0x40, be16(packet_id)) },
        ),
        (Pending::Release { session_incarnation, packet_id, operation_id }, None) => {
            let key = e.attachment.key;
            let (finished, outcome) = finish_delivery(
                b,
                key,
                session_incarnation,
                packet_id,
                operation_id,
            );
            match outcome {
                Err(error) => (finished, failed(error)),
                Ok(_) => released(
                    finished,
                    limits,
                    now,
                    e,
                    session_incarnation,
                    packet_id,
                    operation_id,
                ),
            }
        },
        (Pending::Release { session_incarnation, packet_id, operation_id }, Some(error)) => (
            abandon_delivery(
                b,
                e.attachment.key,
                session_incarnation,
                packet_id,
                operation_id,
            ).0,
            failed(error),
        ),
        (_, Some(error)) => (b, failed(error)),
    }
}

/// A message that is delivered exactly once, routed after it was handed on.
pub open spec fn released(
    b: BrokerView,
    limits: Limits,
    now: i64,
    e: EndpointView,
    incarnation: u64,
    id: u16,
    operation: u64,
) -> (BrokerView, StepView) {
    let (next, outcome) = route_inbound(
        b,
        limits,
        now,
        e.attachment.key,
        incarnation,
        id,
        operation,
        e.device.tenant,
    );
    (
        next,
        match outcome {
            Err(error) => failed(error),
            Ok(_) => StepView::Send { bytes: packet_bytes(0x70, be16(id)) },
        },
    )
}

/// A message on its way to those who evaluate it: refused where the device may not publish it,
/// and passed by where it only clears a retained message.
pub open spec fn hand_on(
    b: BrokerView,
    limits: Limits,
    now: i64,
    e: EndpointView,
    message: MessageView,
    pending: Pending,
) -> (BrokerView, StepView) {
    match publish_acl_spec(e.device, e.permissions, message.topic) {
        Err(error) => handed_on(b, limits, now, e, pending, Some(error)),
        Ok(kind) => if message.payload.len() == 0 && message.retain {
            handed_on(b, limits, now, e, pending, None)
        } else {
            (
                b,
                StepView::Ingest { message, command_ack: kind == TopicKind::DownAck, pending },
            )
        },
    }
}

pub open spec fn pubrel_step(b: BrokerView, limits: Limits, now: i64, e: EndpointView, id: u16) -> (
    BrokerView,
    StepView,
) {
    let (next, outcome) = begin_delivery(b, e.attachment.key, e.attachment.generation, id);
    match outcome {
        Err(error) => (next, failed(error)),
        Ok(ActionView::Deliver { message, session_incarnation, operation_id }) => hand_on(
            next,
            limits,
            now,
            e,
            message,
            Pending::Release { session_incarnation, packet_id: id, operation_id },
        ),
        Ok(ActionView::EventAccepted { session_incarnation, operation_id }) => released(
            next,
            limits,
            now,
            e,
            session_incarnation,
            id,
            operation_id,
        ),
        Ok(ActionView::DeliveryInProgress) => (next, StepView::Idle),
        Ok(ActionView::Unknown) => (
            next,
            StepView::Send { bytes: packet_bytes(0x70, be16(id)) },
        ),
    }
}

/// A message whose payload was found good is taken, and answered.
pub open spec fn taken(
    b: BrokerView,
    limits: Limits,
    e: EndpointView,
    id: u16,
    message: MessageView,
) -> (BrokerView, StepView) {
    let (next, outcome) = accept_inbound(
        b,
        limits,
        e.attachment.key,
        e.attachment.generation,
        id,
        message,
    );
    (
        next,
        match outcome {
            Err(error) => failed(error),
            Ok(_) => StepView::Send { bytes: packet_bytes(0x50, be16(id)) },
        },
    )
}

/// A message that is delivered exactly once. One that is already held is only answered again.
pub open spec fn publish_twice_step(
    b: BrokerView,
    limits: Limits,
    e: EndpointView,
    message: MessageView,
    id: u16,
) -> (BrokerView, StepView) {
    match classify(b, e.attachment.key, e.attachment.generation, id) {
        Err(error) => (b, failed(error)),
        Ok(InboundQos2PublishState::ExistingTransaction) => (
            b,
            StepView::Send { bytes: packet_bytes(0x50, be16(id)) },
        ),
        Ok(InboundQos2PublishState::IdentifierInUse) => (b, failed(Error::Invalid)),
        Ok(InboundQos2PublishState::NeedsNewMessageAdmission) => match publish_acl_spec(
            e.device,
            e.permissions,
            message.topic,
        ) {
            Err(error) => (b, failed(error)),
            Ok(kind) => if message.retain && message.payload.len() == 0 {
                taken(b, limits, e, id, message)
            } else {
                (
                    b,
                    StepView::Validate {
                        message,
                        command_ack: kind == TopicKind::DownAck,
                        packet_id: id,
                    },
                )
            },
        },
    }
}

/// A message that is delivered at most once, or at least once. The device's right to publish it
/// comes before anything that others could see of it, and the broker takes it before it is
/// handed on.
pub open spec fn publish_once_step(
    b: BrokerView,
    limits: Limits,
    now: i64,
    e: EndpointView,
    message: MessageView,
    pending: Pending,
) -> (BrokerView, StepView) {
    let key = e.attachment.key;
    match publish_acl_spec(e.device, e.permissions, message.topic) {
        Err(error) => (b, failed(error)),
        Ok(_) => {
            let (next, outcome) = publish(b, limits, now, key.device.tenant, Some(key), message);
            match outcome {
                Err(error) => (next, failed(error)),
                Ok(_) => hand_on(next, limits, now, e, message, pending),
            }
        },
    }
}

pub open spec fn answer_to(id: Option<u16>) -> Pending {
    match id {
        Some(packet_id) => Pending::Acknowledge { packet_id },
        None => Pending::Nothing,
    }
}

pub open spec fn publish_step(
    b: BrokerView,
    limits: Limits,
    now: i64,
    e: EndpointView,
    message: MessageView,
    id: Option<u16>,
) -> (BrokerView, StepView) {
    if message.qos == 2 {
        match id {
            None => (b, failed(Error::Invalid)),
            Some(id) => publish_twice_step(b, limits, e, message, id),
        }
    } else {
        publish_once_step(b, limits, now, e, message, answer_to(id))
    }
}

/// What a packet of a connected client leads to.
#[verifier::opaque]
pub open spec fn packet_step(
    b: BrokerView,
    limits: Limits,
    now: i64,
    e: EndpointView,
    packet: PacketView,
) -> (BrokerView, StepView) {
    match packet {
        PacketView::Connect(_)
        | PacketView::UnsupportedVersion(_)
        | PacketView::Connack { .. }
        | PacketView::Suback { .. }
        | PacketView::Unsuback(_)
        | PacketView::Pingresp => (b, failed(Error::Invalid)),
        PacketView::Pingreq => (b, StepView::Send { bytes: seq![0xd0u8, 0u8] }),
        PacketView::Disconnect => (b, StepView::Close { orderly: true }),
        PacketView::Subscribe { packet_id, filters } => subscribe_step(
            b,
            limits,
            now,
            e,
            packet_id,
            filters,
        ),
        PacketView::Unsubscribe { packet_id, filters } => unsubscribe_step(
            b,
            limits,
            now,
            e,
            packet_id,
            filters,
        ),
        PacketView::Puback(id) => acknowledge_step(b, limits, now, e, id, OutboundAck::Puback),
        PacketView::Pubcomp(id) => acknowledge_step(b, limits, now, e, id, OutboundAck::Pubcomp),
        PacketView::Pubrec(id) => pubrec_step(b, limits, e, id),
        PacketView::Pubrel(id) => pubrel_step(b, limits, now, e, id),
        PacketView::Publish { topic, payload, qos, packet_id, retain, .. } => publish_step(
            b,
            limits,
            now,
            e,
            MessageView { topic, payload, qos, retain, properties: no_props() },
            packet_id,
        ),
    }
}

/// Packets that keep exchanges going are counted apart from the others.
pub fn is_control(packet: &Packet) -> (control: bool)
    ensures
        control == (packet@ is Puback || packet@ is Pubrec || packet@ is Pubrel || packet@ is Pubcomp
            || packet@ is Pingreq || packet@ is Disconnect),
{
    match packet {
        Packet::Puback(_)
        | Packet::Pubrec(_)
        | Packet::Pubrel(_)
        | Packet::Pubcomp(_)
        | Packet::Pingreq
        | Packet::Disconnect => true,
        _ => false,
    }
}

/// How much of a device's allowance a packet uses up.
pub fn packet_units(packet: &Packet) -> (units: usize)
    ensures
        units == match packet@ {
            PacketView::Publish { topic, payload, .. } => publish_units(
                text_bytes(topic),
                payload.len(),
            ),
            _ => 1,
        },
{
    match packet {
        Packet::Publish { topic, payload, qos: _, packet_id: _, retain: _, dup: _ } => {
            weigh_publish(byte_len(topic.as_str()), payload.len())
        },
        _ => 1,
    }
}

fn on_subscribe(
    broker: &mut MqttBroker,
    endpoint: &Endpoint,
    packet_id: u16,
    filters: &Vec<(String, u8)>,
    now: i64,
) -> (step: Step)
    requires
        old(broker).wf(),
    ensures
        final(broker).wf(),
        final(broker).limits == old(broker).limits,
        subscribe_step(
            old(broker)@,
            old(broker).limits,
            now,
            endpoint@,
            packet_id,
            filter_views(filters@),
        ) == (final(broker)@, step@),
{
    let mut body: Vec<u8> = Vec::new();
    put_u16(&mut body, packet_id);
    let ghost e = endpoint@;
    let ghost views = filter_views(filters@);
    let limits = broker.limits.clone();
    let mut at: usize = 0;
    assert(body@ =~= be16(packet_id) + Seq::<u8>::empty());
    while at < filters.len()
        invariant
            broker.wf(),
            broker.limits == old(broker).limits,
            limits == old(broker).limits,
            at <= filters.len(),
            e == endpoint@,
            views == filter_views(filters@),
            ({
                let (next, codes) = subscribed(
                    old(broker)@,
                    old(broker).limits,
                    now,
                    e,
                    views,
                    at as nat,
                );
                broker@ == next && body@ == be16(packet_id) + codes
            }),
        decreases filters.len() - at,
    {
        let ghost codes = subscribed(old(broker)@, limits, now, e, views, at as nat).1;
        let filter = filters[at].0.as_str();
        assert(views[at as int] == (filters@[at as int].0@, filters@[at as int].1));
        let granted: u8 = if subscribe_acl(&endpoint.auth, filter, &limits) {
            match broker.subscribe(
                &endpoint.attachment.key,
                endpoint.attachment.generation,
                filter,
                filters[at].1,
                now,
            ) {
                Ok(qos) => qos,
                Err(_) => 0x80,
            }
        } else {
            0x80
        };
        body.push(granted);
        assert((be16(packet_id) + codes).push(granted) =~= be16(packet_id) + codes.push(granted));
        at = at + 1;
    }
    let command_ready = endpoint.accepts_commands(broker);
    match encode(0x90, body.as_slice(), limits.max_mqtt_packet_size) {
        Ok(bytes) => Step::Announce { bytes, command_ready },
        Err(error) => fail(error),
    }
}

fn on_unsubscribe(
    broker: &mut MqttBroker,
    endpoint: &Endpoint,
    packet_id: u16,
    filters: &Vec<String>,
    now: i64,
) -> (step: Step)
    requires
        old(broker).wf(),
    ensures
        final(broker).wf(),
        final(broker).limits == old(broker).limits,
        unsubscribe_step(
            old(broker)@,
            old(broker).limits,
            now,
            endpoint@,
            packet_id,
            name_views(filters@),
        ) == (final(broker)@, step@),
{
    let ghost e = endpoint@;
    let ghost views = name_views(filters@);
    let ghost b = broker@;
    let ghost limits = broker.limits;
    let mut at: usize = 0;
    while at < filters.len()
        invariant
            broker.wf(),
            broker.limits == old(broker).limits,
            limits == old(broker).limits,
            b == old(broker)@,
            at <= filters.len(),
            e == endpoint@,
            views == name_views(filters@),
            unsubscribed(b, limits, now, e, views, at as nat) == (broker@, None::<Error>),
        decreases filters.len() - at,
    {
        let outcome = broker.unsubscribe(
            &endpoint.attachment.key,
            endpoint.attachment.generation,
            filters[at].as_str(),
            now,
        );
        assert(views[at as int] == filters@[at as int]@);
        if let Err(error) = outcome {
            proof {
                lemma_unsubscribed_stops(
                    b,
                    limits,
                    now,
                    e,
                    views,
                    (at + 1) as nat,
                    views.len(),
                );
            }
            return fail(error);
        }
        at = at + 1;
    }
    let command_ready = endpoint.accepts_commands(broker);
    let bytes = ack(0xb0, packet_id);
    Step::Announce { bytes, command_ready }
}

fn on_acknowledged(
    broker: &mut MqttBroker,
    endpoint: &Endpoint,
    packet_id: u16,
    kind: OutboundAck,
    now: i64,
) -> (step: Step)
    requires
        old(broker).wf(),
    ensures
        final(broker).wf(),
        final(broker).limits == old(broker).limits,
        acknowledge_step(
            old(broker)@,
            old(broker).limits,
            now,
            endpoint@,
            packet_id,
            kind,
        ) == (final(broker)@, step@),
{
    let key = &endpoint.attachment.key;
    let generation: u64 = endpoint.attachment.generation;
    let outcome = match kind {
        OutboundAck::Puback => broker.puback(key, generation, packet_id, now),
        OutboundAck::Pubcomp => broker.pubcomp(key, generation, packet_id, now),
    };
    match outcome {
        Err(error) => fail(error),
        Ok(received) => match broker.next_offline(key, generation, now) {
            Err(error) => fail(error),
            Ok(frame) => Step::Deliver { frame, received, more: false },
        },
    }
}

fn release(
    broker: &mut MqttBroker,
    endpoint: &Endpoint,
    session_incarnation: u64,
    packet_id: u16,
    operation_id: u64,
    now: i64,
) -> (step: Step)
    requires
        old(broker).wf(),
    ensures
        final(broker).wf(),
        final(broker).limits == old(broker).limits,
        released(
            old(broker)@,
            old(broker).limits,
            now,
            endpoint@,
            session_incarnation,
            packet_id,
            operation_id,
        ) == (final(broker)@, step@),
{
    match broker.route_inbound_qos2(
        &endpoint.attachment.key,
        session_incarnation,
        packet_id,
        operation_id,
        &endpoint.auth.device_key,
        now,
    ) {
        Err(error) => fail(error),
        Ok(_) => {
            let bytes = ack(0x70, packet_id);
            Step::Send { bytes }
        },
    }
}

/// What follows when a message was handed on, or could not be.
pub fn on_ingested(
    broker: &mut MqttBroker,
    endpoint: &Endpoint,
    pending: Pending,
    refused: Option<Error>,
    now: i64,
) -> (step: Step)
    requires
        old(broker).wf(),
    ensures
        final(broker).wf(),
        final(broker).limits == old(broker).limits,
        handed_on(old(broker)@, old(broker).limits, now, endpoint@, pending, refused) == (
            final(broker)@,
            step@,
        ),
{
    match (pending, refused) {
        (Pending::Nothing, None) => Step::Idle,
        (Pending::Acknowledge { packet_id }, None) => {
            let bytes = ack(0x40, packet_id);
            Step::Send { bytes }
        },
        (Pending::Release { session_incarnation, packet_id, operation_id }, None) => {
            match broker.finish_inbound_qos2_delivery(
                &endpoint.attachment.key,
                session_incarnation,
                packet_id,
                operation_id,
            ) {
                Err(error) => fail(error),
                Ok(_) => release(
                    broker,
                    endpoint,
                    session_incarnation,
                    packet_id,
                    operation_id,
                    now,
                ),
            }
        },
        (Pending::Release { session_incarnation, packet_id, operation_id }, Some(error)) => {
            let _ = broker.abandon_inbound_qos2_delivery(
                &endpoint.attachment.key,
                session_incarnation,
                packet_id,
                operation_id,
            );
            fail(error)
        },
        (_, Some(error)) => fail(error),
    }
}

fn pass_on(
    broker: &mut MqttBroker,
    endpoint: &Endpoint,
    message: BrokerMessage,
    pending: Pending,
    now: i64,
) -> (step: Step)
    requires
        old(broker).wf(),
    ensures
        final(broker).wf(),
        final(broker).limits == old(broker).limits,
        hand_on(old(broker)@, old(broker).limits, now, endpoint@, message@, pending) == (
            final(broker)@,
            step@,
        ),
{
    match publish_acl(&endpoint.auth, message.topic.as_str()) {
        Err(error) => on_ingested(broker, endpoint, pending, Some(error), now),
        Ok(kind) => {
            if message.payload.len() == 0 && message.retain {
                on_ingested(broker, endpoint, pending, None, now)
            } else {
                Step::Ingest { message, command_ack: kind == TopicKind::DownAck, pending }
            }
        },
    }
}

fn on_released(broker: &mut MqttBroker, endpoint: &Endpoint, packet_id: u16, now: i64) -> (step: Step)
    requires
        old(broker).wf(),
    ensures
        final(broker).wf(),
        final(broker).limits == old(broker).limits,
        pubrel_step(old(broker)@, old(broker).limits, now, endpoint@, packet_id) == (
            final(broker)@,
            step@,
        ),
{
    match broker.begin_inbound_qos2_delivery(
        &endpoint.attachment.key,
        endpoint.attachment.generation,
        packet_id,
    ) {
        Err(error) => fail(error),
        Ok(InboundQos2Action::Deliver { message, session_incarnation, operation_id }) => pass_on(
            broker,
            endpoint,
            message,
            Pending::Release { session_incarnation, packet_id, operation_id },
            now,
        ),
        Ok(InboundQos2Action::EventAccepted { session_incarnation, operation_id }) => release(
            broker,
            endpoint,
            session_incarnation,
            packet_id,
            operation_id,
            now,
        ),
        Ok(InboundQos2Action::DeliveryInProgress) => Step::Idle,
        Ok(InboundQos2Action::Unknown) => {
            let bytes = ack(0x70, packet_id);
            Step::Send { bytes }
        },
    }
}

/// What follows when the payload of a message was looked at.
pub fn on_validated(
    broker: &mut MqttBroker,
    endpoint: &Endpoint,
    message: BrokerMessage,
    packet_id: u16,
    refused: Option<Error>,
) -> (step: Step)
    requires
        old(broker).wf(),
    ensures
        final(broker).wf(),
        final(broker).limits == old(broker).limits,
        match refused {
            Some(error) => final(broker)@ == old(broker)@ && step@ == failed(error),
            None => taken(old(broker)@, old(broker).limits, endpoint@, packet_id, message@) == (
                final(broker)@,
                step@,
            ),
        },
{
    if let Some(error) = refused {
        return fail(error);
    }
    match broker.inbound_qos2(
        &endpoint.attachment.key,
        endpoint.attachment.generation,
        packet_id,
        message,
    ) {
        Err(error) => fail(error),
        Ok(_) => {
            let bytes = ack(0x50, packet_id);
            Step::Send { bytes }
        },
    }
}

fn on_publish(
    broker: &mut MqttBroker,
    endpoint: &Endpoint,
    message: BrokerMessage,
    packet_id: Option<u16>,
    now: i64,
) -> (step: Step)
    requires
        old(broker).wf(),
    ensures
        final(broker).wf(),
        final(broker).limits == old(broker).limits,
        publish_step(
            old(broker)@,
            old(broker).limits,
            now,
            endpoint@,
            message@,
            packet_id,
        ) == (final(broker)@, step@),
{
    let key = &endpoint.attachment.key;
    let generation: u64 = endpoint.attachment.generation;
    if message.qos == 2 {
        let id: u16 = match packet_id {
            Some(id) => id,
            None => return fail(Error::Invalid),
        };
        match broker.classify_inbound_qos2_publish(key, generation, id) {
            Err(error) => return fail(error),
            Ok(InboundQos2PublishState::ExistingTransaction) => {
                let bytes = ack(0x50, id);
                return Step::Send { bytes };
            },
            Ok(InboundQos2PublishState::IdentifierInUse) => return fail(Error::Invalid),
            Ok(InboundQos2PublishState::NeedsNewMessageAdmission) => {},
        }
        let kind = match publish_acl(&endpoint.auth, message.topic.as_str()) {
            Ok(kind) => kind,
            Err(error) => return fail(error),
        };
        if message.retain && message.payload.len() == 0 {
            return on_validated(broker, endpoint, message, id, None);
        }
        return Step::Validate {
            message,
            command_ack: kind == TopicKind::DownAck,
            packet_id: id,
        };
    }
    if let Err(error) = publish_acl(&endpoint.auth, message.topic.as_str()) {
        return fail(error);
    }
    if let Err(error) = broker.route_from_session(key, message.clone(), now) {
        return fail(error);
    }
    let pending = match packet_id {
        Some(packet_id) => Pending::Acknowledge { packet_id },
        None => Pending::Nothing,
    };
    pass_on(broker, endpoint, message, pending, now)
}

/// Does what a packet of a connected client asks for, and says what is to be done next.
pub fn on_packet(broker: &mut MqttBroker, endpoint: &Endpoint, packet: Packet, now: i64) -> (step: Step)
    requires
        old(broker).wf(),
    ensures
        final(broker).wf(),
        final(broker).limits == old(broker).limits,
        packet_step(old(broker)@, old(broker).limits, now, endpoint@, packet@) == (
            final(broker)@,
            step@,
        ),
{
    reveal(packet_step);
    match packet {
        Packet::Connect(_)
        | Packet::UnsupportedVersion(_)
        | Packet::Connack { session_present: _, code: _ }
        | Packet::Suback { packet_id: _, returns: _ }
        | Packet::Unsuback(_)
        | Packet::Pingresp => fail(Error::Invalid),
        Packet::Pingreq => {
            let bytes: Vec<u8> = vec![0xd0, 0];
            assert(bytes@ =~= seq![0xd0u8, 0u8]);
            Step::Send { bytes }
        },
        Packet::Disconnect => Step::Close { orderly: true },
        Packet::Subscribe { packet_id, filters } => on_subscribe(
            broker,
            endpoint,
            packet_id,
            &filters,
            now,
        ),
        Packet::Unsubscribe { packet_id, filters } => on_unsubscribe(
            broker,
            endpoint,
            packet_id,
            &filters,
            now,
        ),
        Packet::Puback(id) => on_acknowledged(broker, endpoint, id, OutboundAck::Puback, now),
        Packet::Pubcomp(id) => on_acknowledged(broker, endpoint, id, OutboundAck::Pubcomp, now),
        Packet::Pubrec(id) => match broker.pubrec(
            &endpoint.attachment.key,
            endpoint.attachment.generation,
            id,
        ) {
            Err(error) => fail(error),
            Ok(frame) => Step::Deliver { frame: Some(frame), received: false, more: false },
        },
        Packet::Pubrel(id) => on_released(broker, endpoint, id, now),
        Packet::Publish { topic, payload, qos, packet_id, retain, dup: _ } => {
            let message = BrokerMessage {
                topic,
                payload: to_vec(&payload),
                qos,
                retain,
                properties: PublishProperties::default(),
            };
            on_publish(broker, endpoint, message, packet_id, now)
        },
    }
}

} // verus!
