//! Connections of MQTT 5.
use super::authorized;
use super::authorize_inbound_qos2_publish;
use super::frame::{encoded, Wire};
use super::step::{Endpoint, EndpointView, Pending, Step, StepView};
use super::v311::{dropped, fail, failed, give_up, refusal_bytes, Refusal};
use crate::broker::attach::{
    attach_spec, expiry_change, generated_client_id, generated_id, maintained, AttachmentView,
    Profile,
};
use crate::broker::inbound::{
    abandon_delivery, accept_inbound, begin_delivery, finish_delivery, receive_available,
    route_inbound, ActionView, InboundQos2Action, InboundQos2PublishState,
};
use crate::broker::model::{BrokerView, DelayView};
use crate::broker::outbound::{complete_outbound, pull, receive_pubrec, reject_pubrec, OutboundAck};
use crate::broker::service::{publish, WillGuard};
use crate::broker::state::MqttBroker;
use crate::broker::subscribe::{subscribe_spec, unsubscribe_spec};
use crate::broker::wills::{close_will, delayed_will, hold_will, prolonged_will};
use crate::buffer::to_vec;
use crate::codec::common::{packet_bytes, packet_fits};
use crate::codec::v5::{
    accepted_properties, ack, ack_body, connack, connack_body, connect_reason, connect_reason_spec,
    disconnect, essential_properties, filter_views, name_views, receive_maximum_spec, smaller,
    suback, suback_codes, subscription_reason, subscription_reason_spec, unsuback, unsuback_codes,
    AckReason, ConnackReason, Connect, ConnectView, DecodeError, DisconnectReason, Packet,
    PacketView, PropertiesView, PubackReason, PubcompReason, PubrecReason, PubrelReason,
    SubackReason, SubscriptionOptions, UnsubackReason, WillView,
};
use crate::codec::MqttVersion;
use crate::error::Error;
use crate::identity::{AuthenticatedDevice, DeviceView, KeyView};
use crate::limits::Limits;
use crate::message::{deadline_after, BrokerMessage, MessageView, PropsView, PublishProperties};
use crate::number::be16;
use crate::session::{auth_of, AuthView, Subscription};
use crate::text::text_bytes;
use crate::topics::{publish_acl, publish_acl_spec, subscribe_acl, subscribe_acl_spec, TopicKind};
use vstd::prelude::*;

verus! {

/// The largest packet that a client says it takes.
pub open spec fn client_maximum_spec(properties: PropertiesView) -> usize {
    match properties.maximum_packet_size {
        Some(size) => size as usize,
        None => u32::MAX as usize,
    }
}

pub fn client_maximum(connect: &Connect) -> (maximum: usize)
    ensures
        maximum == client_maximum_spec(connect@.properties),
{
    match connect.properties.maximum_packet_size {
        Some(size) => size as usize,
        None => u32::MAX as usize,
    }
}

/// A refused connection gets a reason, unless the client takes no packet of that size.
pub open spec fn refuses(
    refusal: Refusal,
    reason: ConnackReason,
    error: Error,
    limits: Limits,
    maximum: usize,
) -> bool {
    &&& refusal.error == error
    &&& refusal_bytes(refusal) == match encoded(
        0x20,
        seq![0u8, reason.code_spec(), 0u8],
        smaller(maximum, limits.max_mqtt_packet_size) as nat,
    ) {
        Ok(bytes) => Some(bytes),
        Err(_) => None,
    }
}

fn refuse(reason: ConnackReason, error: Error, limits: &Limits, maximum: usize) -> (refusal: Refusal)
    requires
        reason != ConnackReason::Success,
    ensures
        refuses(refusal, reason, error, *limits, maximum),
{
    Refusal {
        bytes: match connack(false, reason, limits, None, maximum) {
            Ok(bytes) => Some(bytes),
            Err(_) => None,
        },
        error,
    }
}

/// What is wrong with what a client says of itself: the reason and the error.
pub open spec fn greeting_fault(connect: ConnectView) -> Option<(ConnackReason, Error)> {
    if connect.client_id.len() == 0 && !connect.clean_start {
        Some((ConnackReason::ClientIdentifierInvalid, Error::Invalid))
    } else if connect.properties.authentication_method is Some {
        Some((ConnackReason::BadAuthenticationMethod, Error::Authentication))
    } else if connect.username is None || connect.password is None {
        Some((ConnackReason::BadCredentials, Error::Authentication))
    } else {
        None
    }
}

/// Whether the first packet is one that can be let in once its credentials were accepted. One
/// that is no greeting at all is not answered.
pub fn check_greeting(packet: Packet, limits: &Limits) -> (result: Result<Box<Connect>, Refusal>)
    ensures
        match packet@ {
            PacketView::Connect(connect) => match greeting_fault(connect) {
                None => result is Ok && (*result->Ok_0)@ == connect,
                Some((reason, error)) => result is Err && refuses(
                    result->Err_0,
                    reason,
                    error,
                    *limits,
                    client_maximum_spec(connect.properties),
                ),
            },
            _ => result is Err && result->Err_0.error == Error::Invalid && refusal_bytes(
                result->Err_0,
            ) is None,
        },
{
    let connect = match packet {
        Packet::Connect(connect) => connect,
        _ => return Err(Refusal { bytes: None, error: Error::Invalid }),
    };
    let maximum: usize = client_maximum(&connect);
    if connect.client_id.as_str().is_empty() && !connect.clean_start {
        return Err(
            refuse(ConnackReason::ClientIdentifierInvalid, Error::Invalid, limits, maximum),
        );
    }
    if connect.properties.authentication_method.is_some() {
        return Err(
            refuse(ConnackReason::BadAuthenticationMethod, Error::Authentication, limits, maximum),
        );
    }
    if connect.username.is_none() || connect.password.is_none() {
        return Err(refuse(ConnackReason::BadCredentials, Error::Authentication, limits, maximum));
    }
    Ok(connect)
}

/// What a client is answered whose credentials were not accepted, or whose device has no room for
/// another connection.
pub fn refuse_error(error: Error, limits: &Limits, maximum: usize) -> (refusal: Refusal)
    ensures
        refuses(refusal, connect_reason_spec(error), error, *limits, maximum),
{
    let reason = connect_reason(&error);
    refuse(reason, error, limits, maximum)
}

/// Whether the device may publish the will that its client brought.
pub fn check_will(auth: &AuthenticatedDevice, connect: &Connect, limits: &Limits) -> (result:
    Result<(), Refusal>)
    ensures
        ({
            let barred = match connect@.will {
                Some(will) => publish_acl_spec(
                    auth.device_key@,
                    auth.permissions,
                    will.topic,
                ) is Err,
                None => false,
            };
            &&& result is Err <==> barred
            &&& result is Err ==> refuses(
                result->Err_0,
                ConnackReason::NotAuthorized,
                Error::Forbidden,
                *limits,
                client_maximum_spec(connect@.properties),
            )
        }),
{
    match &connect.will {
        Some(will) => match publish_acl(auth, will.topic.as_str()) {
            Ok(_) => Ok(()),
            Err(_) => Err(
                refuse(
                    ConnackReason::NotAuthorized,
                    Error::Forbidden,
                    limits,
                    client_maximum(connect),
                ),
            ),
        },
        None => Ok(()),
    }
}

/// The answer to a client that is let in.
pub open spec fn greeting(
    session_present: bool,
    limits: Limits,
    assigned: Option<Seq<char>>,
    client_maximum: usize,
) -> Result<Seq<u8>, Error> {
    let maximum = smaller(client_maximum, limits.max_mqtt_packet_size) as nat;
    let reason = ConnackReason::Success;
    if receive_maximum_spec(limits) > u16::MAX || limits.max_mqtt_packet_size > u32::MAX {
        Err(Error::Configuration)
    } else if assigned is Some && text_bytes(assigned->0) > u16::MAX {
        Err(Error::Overloaded)
    } else if !packet_fits(
        connack_body(session_present, reason, essential_properties(limits, assigned)).len(),
        maximum,
    ) {
        Err(Error::Overloaded)
    } else {
        Ok(
            packet_bytes(
                0x20,
                connack_body(
                    session_present,
                    reason,
                    accepted_properties(session_present, limits, assigned, maximum),
                ),
            ),
        )
    }
}

/// A will as it is held. Its deadline is only known when it is published.
pub open spec fn will_message(will: WillView) -> MessageView {
    MessageView {
        topic: will.topic,
        payload: will.payload,
        qos: will.qos,
        retain: will.retain,
        properties: PropsView {
            payload_format: will.properties.payload_format,
            expires_at_ms: match will.properties.message_expiry {
                Some(_) => Some(i64::MAX),
                None => None,
            },
            content_type: will.properties.content_type,
            response_topic: will.properties.response_topic,
            correlation_data: will.properties.correlation_data,
            user_properties: will.properties.user_properties,
        },
    }
}

pub open spec fn or_zero(value: Option<u32>) -> u32 {
    match value {
        Some(value) => value,
        None => 0,
    }
}

/// The name under which a client is known, which it may have left to the server.
pub open spec fn name_of(connect: ConnectView, registration: u64) -> Seq<char> {
    if connect.client_id.len() == 0 {
        generated_id(registration)
    } else {
        connect.client_id
    }
}

pub open spec fn assigned_name(connect: ConnectView, registration: u64) -> Option<Seq<char>> {
    if connect.client_id.len() == 0 {
        Some(generated_id(registration))
    } else {
        None
    }
}

/// The session of a client.
pub open spec fn attached(
    b: BrokerView,
    limits: Limits,
    now: i64,
    device: DeviceView,
    auth: AuthView,
    connect: ConnectView,
    registration: u64,
) -> (BrokerView, Result<AttachmentView, Error>) {
    let receive_maximum = match connect.properties.receive_maximum {
        Some(value) => value,
        None => u16::MAX,
    };
    if receive_maximum == 0 {
        (b, Err(Error::Invalid))
    } else {
        attach_spec(
            maintained(b, limits, now),
            limits,
            now,
            KeyView { device, client_id: name_of(connect, registration) },
            Profile {
                clean_session: connect.clean_start,
                version: MqttVersion::V5,
                session_expiry_interval: or_zero(connect.properties.session_expiry),
                receive_maximum,
            },
            auth,
        )
    }
}

/// The will of a client held, to be published when its session ends or its delay has passed.
pub open spec fn with_will(
    b: BrokerView,
    limits: Limits,
    device: DeviceView,
    connect: ConnectView,
    a: AttachmentView,
) -> (BrokerView, Result<Option<u64>, Error>) {
    match connect.will {
        None => (b, Ok(None)),
        Some(will) => {
            let (held, outcome) = hold_will(b, limits, device, None, will_message(will));
            match outcome {
                Err(error) => (held, Err(error)),
                Ok(token) => (
                    delayed_will(
                        held,
                        token,
                        DelayView {
                            delay: or_zero(will.properties.will_delay),
                            session_expiry: or_zero(connect.properties.session_expiry),
                            key: a.key,
                            incarnation: a.session_incarnation,
                            generation: a.generation,
                        },
                        will.properties.message_expiry,
                    ),
                    Ok(Some(token)),
                ),
            }
        },
    }
}

/// A client let in: nothing is done before it is known that the answer fits, then its session is
/// attached and its will is held. Where that fails, the session is detached again.
#[verifier::opaque]
pub open spec fn admitted(
    b: BrokerView,
    limits: Limits,
    now: i64,
    device: DeviceView,
    auth: AuthView,
    connect: ConnectView,
    registration: u64,
) -> (BrokerView, Result<(AttachmentView, Option<u64>, Seq<u8>), Error>) {
    let assigned = assigned_name(connect, registration);
    let maximum = client_maximum_spec(connect.properties);
    match greeting(false, limits, assigned, maximum) {
        Err(error) => (b, Err(error)),
        Ok(_) => {
            let (joined, outcome) = attached(b, limits, now, device, auth, connect, registration);
            match outcome {
                Err(error) => (joined, Err(error)),
                Ok(a) => {
                    let (held, will) = with_will(joined, limits, device, connect, a);
                    match will {
                        Err(error) => (dropped(held, limits, now, a), Err(error)),
                        Ok(token) => match greeting(
                            a.session_present,
                            limits,
                            assigned,
                            maximum,
                        ) {
                            Ok(bytes) => (held, Ok((a, token, bytes))),
                            Err(error) => {
                                let left = match token {
                                    Some(token) => close_will(held, limits, now, token),
                                    None => held,
                                };
                                (dropped(left, limits, now, a), Err(error))
                            },
                        },
                    }
                },
            }
        },
    }
}

/// What a client that was let in is answered.
#[derive(Debug, PartialEq, Eq)]
pub struct Welcome {
    pub endpoint: Endpoint,
    pub bytes: Vec<u8>,
}

fn hold(
    broker: &mut MqttBroker,
    auth: &AuthenticatedDevice,
    connect: &Connect,
    key: crate::identity::SessionKey,
    incarnation: u64,
    generation: u64,
    now: i64,
) -> (result: Result<Option<WillGuard>, Error>)
    requires
        old(broker).wf(),
    ensures
        final(broker).wf(),
        final(broker).limits == old(broker).limits,
        forall|a: AttachmentView|
            a.key == key@ && a.session_incarnation == incarnation && a.generation == generation
                ==> #[trigger] with_will(
                old(broker)@,
                old(broker).limits,
                auth.device_key@,
                connect@,
                a,
            ) == (
                final(broker)@,
                match result {
                    Ok(Some(guard)) => Ok(Some(guard.token)),
                    Ok(None) => Ok(None),
                    Err(error) => Err(error),
                },
            ),
{
    let will = match &connect.will {
        None => return Ok(None),
        Some(will) => will,
    };
    let mut properties = PublishProperties::from_wire(&will.properties, now);
    properties.expires_at_ms = match will.properties.message_expiry {
        Some(_) => Some(i64::MAX),
        None => None,
    };
    let message = BrokerMessage {
        topic: will.topic.clone(),
        payload: to_vec(&will.payload),
        qos: will.qos,
        retain: will.retain,
        properties,
    };
    assert(message@ =~= will_message(connect@.will->0));
    let delay: u32 = match will.properties.will_delay {
        Some(value) => value,
        None => 0,
    };
    let session_expiry: u32 = match connect.properties.session_expiry {
        Some(value) => value,
        None => 0,
    };
    match broker.reserve_will(auth.device_key.clone(), message) {
        Err(error) => Err(error),
        Ok(guard) => {
            let mut guard = guard;
            guard.arm_v5(
                broker,
                key,
                incarnation,
                generation,
                delay,
                session_expiry,
                will.properties.message_expiry,
            );
            Ok(Some(guard))
        },
    }
}

/// Lets a client in. `registration` names it where it left its name to the server.
pub fn let_in(
    broker: &mut MqttBroker,
    auth: AuthenticatedDevice,
    connect: &Connect,
    registration: u64,
    now: i64,
) -> (result: Result<Welcome, Error>)
    requires
        old(broker).wf(),
    ensures
        final(broker).wf(),
        final(broker).limits == old(broker).limits,
        ({
            let (next, outcome) = admitted(
                old(broker)@,
                old(broker).limits,
                now,
                auth.device_key@,
                auth_of(auth),
                connect@,
                registration,
            );
            final(broker)@ == next && match outcome {
                Err(error) => result is Err && result->Err_0 == error,
                Ok((attachment, will, bytes)) => {
                    &&& result is Ok
                    &&& result->Ok_0.endpoint.auth == auth
                    &&& result->Ok_0.endpoint@ == (EndpointView {
                        device: auth.device_key@,
                        permissions: auth.permissions,
                        attachment,
                        will,
                        wire: Wire {
                            version: MqttVersion::V5,
                            maximum: client_maximum_spec(connect@.properties),
                        },
                    })
                    &&& result->Ok_0.bytes@ == bytes
                },
            }
        }),
{
    reveal(admitted);
    let limits = broker.limits.clone();
    let maximum: usize = client_maximum(connect);
    let unnamed = connect.client_id.as_str().is_empty();
    let client_id = if unnamed {
        generated_client_id(registration)
    } else {
        connect.client_id.clone()
    };
    let tried = {
        let assigned = if unnamed {
            Some(client_id.as_str())
        } else {
            None
        };
        connack(false, ConnackReason::Success, &limits, assigned, maximum)
    };
    if let Err(error) = tried {
        return Err(error);
    }
    let session_expiry: u32 = match connect.properties.session_expiry {
        Some(value) => value,
        None => 0,
    };
    let receive_maximum: u16 = match connect.properties.receive_maximum {
        Some(value) => value,
        None => u16::MAX,
    };
    let joined = broker.attach_v5(
        &auth,
        client_id.clone(),
        connect.clean_start,
        session_expiry,
        receive_maximum,
        now,
    );
    let attachment = match joined {
        Ok(attachment) => attachment,
        Err(error) => return Err(error),
    };
    let held = hold(
        broker,
        &auth,
        connect,
        attachment.key.clone(),
        attachment.session_incarnation,
        attachment.generation,
        now,
    );
    let will = match held {
        Ok(will) => will,
        Err(error) => {
            give_up(broker, attachment, now);
            return Err(error);
        },
    };
    let answer = {
        let assigned = if unnamed {
            Some(client_id.as_str())
        } else {
            None
        };
        connack(
            attachment.session_present,
            ConnackReason::Success,
            &limits,
            assigned,
            maximum,
        )
    };
    match answer {
        Ok(bytes) => Ok(
            Welcome {
                endpoint: Endpoint {
                    auth,
                    attachment,
                    will,
                    wire: Wire { version: MqttVersion::V5, maximum },
                },
                bytes,
            },
        ),
        Err(error) => {
            if let Some(guard) = will {
                guard.close(broker, now);
            }
            give_up(broker, attachment, now);
            Err(error)
        },
    }
}

/// A packet that is sent if the client takes one of its size. Else the connection fails.
pub open spec fn sendable(bytes: Seq<u8>, maximum: usize) -> StepView {
    if bytes.len() > maximum {
        StepView::Fail { error: Error::Overloaded, reason: DisconnectReason::PacketTooLarge }
    } else {
        StepView::Send { bytes }
    }
}

/// A packet encoded and sent.
pub open spec fn answer(first: u8, body: Seq<u8>, limits: Limits, maximum: usize) -> StepView {
    match encoded(first, body, limits.max_mqtt_packet_size as nat) {
        Err(error) => failed(error),
        Ok(bytes) => sendable(bytes, maximum),
    }
}

fn send_bytes(bytes: Vec<u8>, maximum: usize) -> (step: Step)
    ensures
        step@ == sendable(bytes@, maximum),
{
    if bytes.len() > maximum {
        Step::Fail { error: Error::Overloaded, reason: DisconnectReason::PacketTooLarge }
    } else {
        Step::Send { bytes }
    }
}

fn send_packet(packet: Result<Vec<u8>, Error>, maximum: usize) -> (step: Step)
    ensures
        step@ == match packet {
            Err(error) => failed(error),
            Ok(bytes) => sendable(bytes@, maximum),
        },
{
    match packet {
        Err(error) => fail(error),
        Ok(bytes) => send_bytes(bytes, maximum),
    }
}

/// An answer to one identifier.
pub open spec fn ack_step(reason: AckReason, id: u16, limits: Limits, maximum: usize) -> StepView {
    answer(reason.first_spec(), ack_body(reason, id), limits, maximum)
}

fn send_ack(reason: AckReason, packet_id: u16, limits: &Limits, maximum: usize) -> (step: Step)
    ensures
        step@ == ack_step(reason, packet_id, *limits, maximum),
{
    send_packet(ack(reason, packet_id, limits.max_mqtt_packet_size), maximum)
}

/// The packet that ends a connection, if the client takes one of its size.
pub fn farewell(reason: DisconnectReason, maximum: usize) -> (bytes: Option<Vec<u8>>)
    ensures
        match encoded(0xe0, seq![reason.code_spec(), 0u8], maximum as nat) {
            Ok(packet) => bytes is Some && bytes->0@ == packet,
            Err(_) => bytes is None,
        },
{
    match disconnect(reason, maximum) {
        Ok(bytes) => Some(bytes),
        Err(_) => None,
    }
}

/// What follows when the input cannot be decoded.
pub fn on_decode_error(error: DecodeError) -> (step: Step)
    ensures
        step is Fail,
        step->Fail_error == Error::Invalid,
        DisconnectReason::reported_by_decoding(error.reason) ==> step->Fail_reason.code_spec()
            == error.reason,
        !DisconnectReason::reported_by_decoding(error.reason) ==> step->Fail_reason
            == DisconnectReason::ProtocolError,
{
    Step::Fail { error: Error::Invalid, reason: DisconnectReason::from_decode(error.reason) }
}

/// Some of a client's subscriptions made, each answered with what was granted or with a reason.
pub open spec fn subscribed(
    b: BrokerView,
    limits: Limits,
    now: i64,
    e: EndpointView,
    filters: Seq<(Seq<char>, SubscriptionOptions)>,
    n: nat,
) -> (BrokerView, Seq<u8>, Option<Error>)
    decreases n,
{
    if n == 0 {
        (b, Seq::empty(), None)
    } else {
        let (before, codes, stopped) = subscribed(b, limits, now, e, filters, (n - 1) as nat);
        let (filter, options) = filters[n - 1];
        if stopped is Some {
            (before, codes, stopped)
        } else if subscribe_acl_spec(e.device, e.permissions, filter, limits) {
            let (next, granted) = subscribe_spec(
                before,
                limits,
                now,
                e.attachment.key,
                e.attachment.generation,
                filter,
                Subscription {
                    qos: options.qos,
                    no_local: options.no_local,
                    retain_as_published: options.retain_as_published,
                    retain_handling: options.retain_handling,
                },
            );
            match granted {
                Ok(qos) => if qos <= 2 {
                    (next, codes.push(qos), None)
                } else {
                    (next, codes, Some(Error::Invalid))
                },
                Err(error) => (
                    next,
                    codes.push(subscription_reason_spec(error).code_spec()),
                    None,
                ),
            }
        } else {
            (before, codes.push(SubackReason::NotAuthorized.code_spec()), None)
        }
    }
}

proof fn lemma_subscribed_stops(
    b: BrokerView,
    limits: Limits,
    now: i64,
    e: EndpointView,
    filters: Seq<(Seq<char>, SubscriptionOptions)>,
    n: nat,
    m: nat,
)
    requires
        n <= m,
        subscribed(b, limits, now, e, filters, n).2 is Some,
    ensures
        subscribed(b, limits, now, e, filters, m) == subscribed(b, limits, now, e, filters, n),
    decreases m,
{
    if n < m {
        lemma_subscribed_stops(b, limits, now, e, filters, n, (m - 1) as nat);
    }
}

pub open spec fn subscribe_step(
    b: BrokerView,
    limits: Limits,
    now: i64,
    e: EndpointView,
    id: u16,
    filters: Seq<(Seq<char>, SubscriptionOptions)>,
) -> (BrokerView, StepView) {
    let (next, codes, stopped) = subscribed(b, limits, now, e, filters, filters.len());
    (
        next,
        match stopped {
            Some(error) => failed(error),
            None => answer(0x90, be16(id) + seq![0u8] + codes, limits, e.wire.maximum),
        },
    )
}

/// Some of a client's subscriptions ended, each answered with whether there was one.
pub open spec fn unsubscribed(
    b: BrokerView,
    limits: Limits,
    now: i64,
    e: EndpointView,
    filters: Seq<Seq<char>>,
    n: nat,
) -> (BrokerView, Seq<u8>, Option<Error>)
    decreases n,
{
    if n == 0 {
        (b, Seq::empty(), None)
    } else {
        let (before, codes, stopped) = unsubscribed(b, limits, now, e, filters, (n - 1) as nat);
        if stopped is Some {
            (before, codes, stopped)
        } else {
            let (next, outcome) = unsubscribe_spec(
                before,
                limits,
                now,
                e.attachment.key,
                e.attachment.generation,
                filters[n - 1],
            );
            match outcome {
                Ok(true) => (next, codes.push(UnsubackReason::Success.code_spec()), None),
                Ok(false) => (
                    next,
                    codes.push(UnsubackReason::NoSubscriptionExisted.code_spec()),
                    None,
                ),
                Err(error) => (next, codes, Some(error)),
            }
        }
    }
}

proof fn lemma_unsubscribed_stops(
    b: BrokerView,
    limits: Limits,
    now: i64,
    e: EndpointView,
    filters: Seq<Seq<char>>,
    n: nat,
    m: nat,
)
    requires
        n <= m,
        unsubscribed(b, limits, now, e, filters, n).2 is Some,
    ensures
        unsubscribed(b, limits, now, e, filters, m) == unsubscribed(
            b,
            limits,
            now,
            e,
            filters,
            n,
        ),
    decreases m,
{
    if n < m {
        lemma_unsubscribed_stops(b, limits, now, e, filters, n, (m - 1) as nat);
    }
}

pub open spec fn unsubscribe_step(
    b: BrokerView,
    limits: Limits,
    now: i64,
    e: EndpointView,
    id: u16,
    filters: Seq<Seq<char>>,
) -> (BrokerView, StepView) {
    let (next, codes, stopped) = unsubscribed(b, limits, now, e, filters, filters.len());
    (
        next,
        match stopped {
            Some(error) => failed(error),
            None => answer(0xb0, be16(id) + seq![0u8] + codes, limits, e.wire.maximum),
        },
    )
}

/// An acknowledged message makes room for the next that waits. An acknowledgement of something
/// that was not sent is an error in the protocol.
pub open spec fn acknowledge_step(
    b: BrokerView,
    limits: Limits,
    now: i64,
    e: EndpointView,
    id: u16,
    kind: OutboundAck,
) -> (BrokerView, StepView) {
    let key = e.attachment.key;
    let generation = e.attachment.generation;
    let (done, outcome) = complete_outbound(b, limits, now, key, generation, id, kind);
    match outcome {
        Err(Error::Invalid) => (
            done,
            StepView::Fail { error: Error::Invalid, reason: DisconnectReason::ProtocolError },
        ),
        Err(error) => (done, failed(error)),
        Ok(_) => {
            let (next, step) = pull(done, limits, now, key, generation);
            (
                next,
                match step {
                    Err(error) => failed(error),
                    Ok(frame) => StepView::Deliver {
                        frame,
                        received: kind == OutboundAck::Puback,
                        more: false,
                    },
                },
            )
        },
    }
}

/// The first answer to a message that is delivered exactly once. One that the client refused is
/// given up, one that is not known is answered so.
pub open spec fn pubrec_step(
    b: BrokerView,
    limits: Limits,
    now: i64,
    e: EndpointView,
    id: u16,
    reason: u8,
) -> (BrokerView, StepView) {
    let key = e.attachment.key;
    let generation = e.attachment.generation;
    let unknown = ack_step(
        AckReason::Pubrel(PubrelReason::PacketIdentifierNotFound),
        id,
        limits,
        e.wire.maximum,
    );
    if reason >= 0x80 {
        let (done, outcome) = reject_pubrec(b, limits, now, key, generation, id);
        match outcome {
            Err(Error::Invalid) => (done, unknown),
            Err(error) => (done, failed(error)),
            Ok(_) => {
                let (next, step) = pull(done, limits, now, key, generation);
                (
                    next,
                    match step {
                        Err(error) => failed(error),
                        Ok(frame) => StepView::Deliver { frame, received: false, more: false },
                    },
                )
            },
        }
    } else {
        let (done, outcome) = receive_pubrec(b, limits, key, generation, id);
        match outcome {
            Err(Error::Invalid) => (done, unknown),
            Err(error) => (done, failed(error)),
            Ok(frame) => (
                done,
                StepView::Deliver { frame: Some(frame), received: false, more: true },
            ),
        }
    }
}

/// The answer that ends an exchange, after which its identifier leaves the receive window.
pub open spec fn complete_step(
    reason: PubcompReason,
    id: u16,
    limits: Limits,
    maximum: usize,
) -> StepView {
    match ack_step(AckReason::Pubcomp(reason), id, limits, maximum) {
        StepView::Send { bytes } => StepView::Settle { bytes, packet_id: id },
        other => other,
    }
}

/// A message that is delivered exactly once, routed after it was handed on.
pub open spec fn released(
    b: BrokerView,
    limits: Limits,
    now: i64,
    e: EndpointView,
    incarnation: u64,
    id: u16,
    operation: u64,
) -> (BrokerView, StepView) {
    let (next, outcome) = route_inbound(
        b,
        limits,
        now,
        e.attachment.key,
        incarnation,
        id,
        operation,
        e.device.tenant,
    );
    (
        next,
        match outcome {
            Err(error) => failed(error),
            Ok(_) => complete_step(PubcompReason::Success, id, limits, e.wire.maximum),
        },
    )
}

/// A message that was handed on, or could not be.
pub open spec fn handed_on(
    b: BrokerView,
    limits: Limits,
    now: i64,
    e: EndpointView,
    pending: Pending,
    refused: Option<Error>,
) -> (BrokerView, StepView) {
    match (pending, refused) {
        (Pending::Nothing, None) => (b, StepView::Idle),
        (Pending::Acknowledge { packet_id }, None) => (
            b,
            ack_step(AckReason::Puback(PubackReason::Success), packet_id, limits, e.wire.maximum),
        ),
        (Pending::Release { session_incarnation, packet_id, operation_id }, None) => {
            let key = e.attachment.key;
            let (finished, outcome) = finish_delivery(
                b,
                key,
                session_incarnation,
                packet_id,
                operation_id,
            );
            match outcome {
                Err(error) => (finished, failed(error)),
                Ok(_) => released(
                    finished,
                    limits,
                    now,
                    e,
                    session_incarnation,
                    packet_id,
                    operation_id,
                ),
            }
        },
        (Pending::Release { session_incarnation, packet_id, operation_id }, Some(error)) => (
            abandon_delivery(
                b,
                e.attachment.key,
                session_incarnation,
                packet_id,
                operation_id,
            ).0,
            failed(error),
        ),
        (_, Some(error)) => (b, failed(error)),
    }
}

/// A message on its way to those who evaluate it: refused where the device may not publish it,
/// and passed by where it only clears a retained message.
pub open spec fn hand_on(
    b: BrokerView,
    limits: Limits,
    now: i64,
    e: EndpointView,
    message: MessageView,
    pending: Pending,
) -> (BrokerView, StepView) {
    match publish_acl_spec(e.device, e.permissions, message.topic) {
        Err(error) => handed_on(b, limits, now, e, pending, Some(error)),
        Ok(kind) => if message.payload.len() == 0 && message.retain {
            handed_on(b, limits, now, e, pending, None)
        } else {
            (
                b,
                StepView::Ingest { message, command_ack: kind == TopicKind::DownAck, pending },
            )
        },
    }
}

pub open spec fn pubrel_step(b: BrokerView, limits: Limits, now: i64, e: EndpointView, id: u16) -> (
    BrokerView,
    StepView,
) {
    let (next, outcome) = begin_delivery(b, e.attachment.key, e.attachment.generation, id);
    match outcome {
        Err(error) => (next, failed(error)),
        Ok(ActionView::Deliver { message, session_incarnation, operation_id }) => hand_on(
            next,
            limits,
            now,
            e,
            message,
            Pending::Release { session_incarnation, packet_id: id, operation_id },
        ),
        Ok(ActionView::EventAccepted { session_incarnation, operation_id }) => released(
            next,
            limits,
            now,
            e,
            session_incarnation,
            id,
            operation_id,
        ),
        Ok(ActionView::DeliveryInProgress) => (next, StepView::Idle),
        Ok(ActionView::Unknown) => (
            next,
            complete_step(
                PubcompReason::PacketIdentifierNotFound,
                id,
                limits,
                e.wire.maximum,
            ),
        ),
    }
}

/// A new message that is delivered exactly once.
pub open spec fn taken(
    b: BrokerView,
    limits: Limits,
    e: EndpointView,
    id: u16,
    message: MessageView,
) -> (BrokerView, StepView) {
    let (next, outcome) = accept_inbound(
        b,
        limits,
        e.attachment.key,
        e.attachment.generation,
        id,
        message,
    );
    let maximum = e.wire.maximum;
    (
        next,
        match outcome {
            Ok(_) => ack_step(AckReason::Pubrec(PubrecReason::Success), id, limits, maximum),
            Err(Error::Invalid) => ack_step(
                AckReason::Pubrec(PubrecReason::PacketIdentifierInUse),
                id,
                limits,
                maximum,
            ),
            Err(error) => failed(error),
        },
    )
}

/// What a client is told that has more messages under way than it may.
pub open spec fn window_exceeded() -> StepView {
    StepView::Fail { error: Error::Overloaded, reason: DisconnectReason::ReceiveMaximumExceeded }
}

/// A message that is delivered exactly once. One that is already held is only answered again.
pub open spec fn publish_twice_step(
    b: BrokerView,
    limits: Limits,
    e: EndpointView,
    message: MessageView,
    id: u16,
) -> (BrokerView, StepView) {
    let key = e.attachment.key;
    let generation = e.attachment.generation;
    match authorized(b, e.device, e.permissions, key, generation, id, message.topic) {
        Err(error) => (b, failed(error)),
        Ok(InboundQos2PublishState::ExistingTransaction) => (
            b,
            ack_step(AckReason::Pubrec(PubrecReason::Success), id, limits, e.wire.maximum),
        ),
        Ok(_) => match receive_available(b, limits, key, generation, message.qos, id) {
            Err(error) => (b, failed(error)),
            Ok(false) => (b, window_exceeded()),
            Ok(true) => taken(b, limits, e, id, message),
        },
    }
}

/// A message that is delivered at most once, or at least once. The device's right to publish it
/// comes before anything that others could see of it, and the broker takes it before it is
/// handed on.
pub open spec fn publish_once_step(
    b: BrokerView,
    limits: Limits,
    now: i64,
    e: EndpointView,
    message: MessageView,
    id: Option<u16>,
) -> (BrokerView, StepView) {
    let key = e.attachment.key;
    let room = if message.qos == 0 {
        Ok(true)
    } else {
        match id {
            None => Err(Error::Invalid),
            Some(id) => receive_available(
                b,
                limits,
                key,
                e.attachment.generation,
                message.qos,
                id,
            ),
        }
    };
    match publish_acl_spec(e.device, e.permissions, message.topic) {
        Err(error) => (b, failed(error)),
        Ok(_) => match room {
            Err(error) => (b, failed(error)),
            Ok(false) => (b, window_exceeded()),
            Ok(true) => {
                let (next, outcome) = publish(
                    b,
                    limits,
                    now,
                    key.device.tenant,
                    Some(key),
                    message,
                );
                match outcome {
                    Err(error) => (next, failed(error)),
                    Ok(_) => hand_on(
                        next,
                        limits,
                        now,
                        e,
                        message,
                        super::v311::answer_to(id),
                    ),
                }
            },
        },
    }
}

pub open spec fn publish_step(
    b: BrokerView,
    limits: Limits,
    now: i64,
    e: EndpointView,
    message: MessageView,
    id: Option<u16>,
) -> (BrokerView, StepView) {
    if message.qos == 2 {
        match id {
            None => (b, failed(Error::Invalid)),
            Some(id) => publish_twice_step(b, limits, e, message, id),
        }
    } else {
        publish_once_step(b, limits, now, e, message, id)
    }
}

/// A client that says goodbye. It may change how long its session is kept, and takes its will
/// back unless it says that something went wrong.
pub open spec fn goodbye_step(
    b: BrokerView,
    e: EndpointView,
    reason: u8,
    session_expiry: Option<u32>,
) -> (BrokerView, StepView) {
    let closing = StepView::Close { orderly: reason == 0 };
    match session_expiry {
        None => (b, closing),
        Some(interval) => {
            let (next, outcome) = expiry_change(
                b,
                e.attachment.key,
                e.attachment.generation,
                interval,
            );
            match outcome {
                Err(error) => (next, failed(error)),
                Ok(_) => (
                    match e.will {
                        Some(token) => prolonged_will(next, token, interval),
                        None => next,
                    },
                    closing,
                ),
            }
        },
    }
}

pub open spec fn received_message(
    topic: Seq<char>,
    payload: Seq<u8>,
    qos: u8,
    retain: bool,
    properties: PropertiesView,
    now: i64,
) -> MessageView {
    MessageView {
        topic,
        payload,
        qos,
        retain,
        properties: PropsView {
            payload_format: properties.payload_format,
            expires_at_ms: match properties.message_expiry {
                Some(seconds) => Some(deadline_after(now, seconds)),
                None => None,
            },
            content_type: properties.content_type,
            response_topic: properties.response_topic,
            correlation_data: properties.correlation_data,
            user_properties: properties.user_properties,
        },
    }
}

/// What a packet of a connected client leads to.
#[verifier::opaque]
pub open spec fn packet_step(
    b: BrokerView,
    limits: Limits,
    now: i64,
    e: EndpointView,
    packet: PacketView,
) -> (BrokerView, StepView) {
    match packet {
        PacketView::Connect(_) => (b, failed(Error::Invalid)),
        PacketView::Pingreq => (b, sendable(seq![0xd0u8, 0u8], e.wire.maximum)),
        PacketView::Disconnect { reason, properties } => goodbye_step(
            b,
            e,
            reason,
            properties.session_expiry,
        ),
        PacketView::Subscribe { packet_id, filters, .. } => subscribe_step(
            b,
            limits,
            now,
            e,
            packet_id,
            filters,
        ),
        PacketView::Unsubscribe { packet_id, filters, .. } => unsubscribe_step(
            b,
            limits,
            now,
            e,
            packet_id,
            filters,
        ),
        PacketView::Puback { packet_id, .. } => acknowledge_step(
            b,
            limits,
            now,
            e,
            packet_id,
            OutboundAck::Puback,
        ),
        PacketView::Pubcomp { packet_id, .. } => acknowledge_step(
            b,
            limits,
            now,
            e,
            packet_id,
            OutboundAck::Pubcomp,
        ),
        PacketView::Pubrec { packet_id, reason } => pubrec_step(
            b,
            limits,
            now,
            e,
            packet_id,
            reason,
        ),
        PacketView::Pubrel { packet_id, .. } => pubrel_step(b, limits, now, e, packet_id),
        PacketView::Publish { topic, payload, qos, packet_id, retain, properties, .. } => {
            publish_step(
                b,
                limits,
                now,
                e,
                received_message(topic, payload, qos, retain, properties, now),
                packet_id,
            )
        },
    }
}

fn on_subscribe(
    broker: &mut MqttBroker,
    endpoint: &Endpoint,
    packet_id: u16,
    filters: &Vec<(String, SubscriptionOptions)>,
    now: i64,
) -> (step: Step)
    requires
        old(broker).wf(),
    ensures
        final(broker).wf(),
        final(broker).limits == old(broker).limits,
        subscribe_step(
            old(broker)@,
            old(broker).limits,
            now,
            endpoint@,
            packet_id,
            filter_views(filters@),
        ) == (final(broker)@, step@),
{
    let mut reasons: Vec<SubackReason> = Vec::new();
    let ghost e = endpoint@;
    let ghost views = filter_views(filters@);
    let ghost b = broker@;
    let limits = broker.limits.clone();
    let mut at: usize = 0;
    assert(suback_codes(reasons@) =~= Seq::<u8>::empty());
    while at < filters.len()
        invariant
            broker.wf(),
            broker.limits == old(broker).limits,
            limits == old(broker).limits,
            b == old(broker)@,
            at <= filters.len(),
            e == endpoint@,
            views == filter_views(filters@),
            subscribed(b, limits, now, e, views, at as nat) == (
                broker@,
                suback_codes(reasons@),
                None::<Error>,
            ),
        decreases filters.len() - at,
    {
        let ghost said = reasons@;
        let filter = filters[at].0.as_str();
        assert(views[at as int] == (filters@[at as int].0@, filters@[at as int].1));
        let reason = if subscribe_acl(&endpoint.auth, filter, &limits) {
            match broker.subscribe_v5(
                &endpoint.attachment.key,
                endpoint.attachment.generation,
                filter,
                filters[at].1,
                now,
            ) {
                Ok(qos) => match SubackReason::granted(qos) {
                    Ok(reason) => reason,
                    Err(error) => {
                        proof {
                            lemma_subscribed_stops(
                                b,
                                limits,
                                now,
                                e,
                                views,
                                (at + 1) as nat,
                                views.len(),
                            );
                        }
                        return fail(error);
                    },
                },
                Err(error) => subscription_reason(&error),
            }
        } else {
            SubackReason::NotAuthorized
        };
        reasons.push(reason);
        assert(suback_codes(reasons@) =~= suback_codes(said).push(reason.code_spec()));
        at = at + 1;
    }
    send_packet(
        suback(packet_id, reasons.as_slice(), limits.max_mqtt_packet_size),
        endpoint.wire.maximum,
    )
}

fn on_unsubscribe(
    broker: &mut MqttBroker,
    endpoint: &Endpoint,
    packet_id: u16,
    filters: &Vec<String>,
    now: i64,
) -> (step: Step)
    requires
        old(broker).wf(),
    ensures
        final(broker).wf(),
        final(broker).limits == old(broker).limits,
        unsubscribe_step(
            old(broker)@,
            old(broker).limits,
            now,
            endpoint@,
            packet_id,
            name_views(filters@),
        ) == (final(broker)@, step@),
{
    let mut reasons: Vec<UnsubackReason> = Vec::new();
    let ghost e = endpoint@;
    let ghost views = name_views(filters@);
    let ghost b = broker@;
    let limits = broker.limits.clone();
    let mut at: usize = 0;
    assert(unsuback_codes(reasons@) =~= Seq::<u8>::empty());
    while at < filters.len()
        invariant
            broker.wf(),
            broker.limits == old(broker).limits,
            limits == old(broker).limits,
            b == old(broker)@,
            at <= filters.len(),
            e == endpoint@,
            views == name_views(filters@),
            unsubscribed(b, limits, now, e, views, at as nat) == (
                broker@,
                unsuback_codes(reasons@),
                None::<Error>,
            ),
        decreases filters.len() - at,
    {
        let ghost said = reasons@;
        let outcome = broker.unsubscribe(
            &endpoint.attachment.key,
            endpoint.attachment.generation,
            filters[at].as_str(),
            now,
        );
        assert(views[at as int] == filters@[at as int]@);
        let reason = match outcome {
            Ok(true) => UnsubackReason::Success,
            Ok(false) => UnsubackReason::NoSubscriptionExisted,
            Err(error) => {
                proof {
                    lemma_unsubscribed_stops(
                        b,
                        limits,
                        now,
                        e,
                        views,
                        (at + 1) as nat,
                        views.len(),
                    );
                }
                return fail(error);
            },
        };
        reasons.push(reason);
        assert(unsuback_codes(reasons@) =~= unsuback_codes(said).push(reason.code_spec()));
        at = at + 1;
    }
    send_packet(
        unsuback(packet_id, reasons.as_slice(), limits.max_mqtt_packet_size),
        endpoint.wire.maximum,
    )
}

fn on_acknowledged(
    broker: &mut MqttBroker,
    endpoint: &Endpoint,
    packet_id: u16,
    kind: OutboundAck,
    now: i64,
) -> (step: Step)
    requires
        old(broker).wf(),
    ensures
        final(broker).wf(),
        final(broker).limits == old(broker).limits,
        acknowledge_step(
            old(broker)@,
            old(broker).limits,
            now,
            endpoint@,
            packet_id,
            kind,
        ) == (final(broker)@, step@),
{
    let key = &endpoint.attachment.key;
    let generation: u64 = endpoint.attachment.generation;
    let outcome = match kind {
        OutboundAck::Puback => broker.puback(key, generation, packet_id, now),
        OutboundAck::Pubcomp => broker.pubcomp(key, generation, packet_id, now),
    };
    let received = match kind {
        OutboundAck::Puback => true,
        OutboundAck::Pubcomp => false,
    };
    match outcome {
        Err(Error::Invalid) => Step::Fail {
            error: Error::Invalid,
            reason: DisconnectReason::ProtocolError,
        },
        Err(error) => fail(error),
        Ok(_) => match broker.next_offline(key, generation, now) {
            Err(error) => fail(error),
            Ok(frame) => Step::Deliver { frame, received, more: false },
        },
    }
}

fn on_pubrec(
    broker: &mut MqttBroker,
    endpoint: &Endpoint,
    packet_id: u16,
    reason: u8,
    now: i64,
) -> (step: Step)
    requires
        old(broker).wf(),
    ensures
        final(broker).wf(),
        final(broker).limits == old(broker).limits,
        pubrec_step(
            old(broker)@,
            old(broker).limits,
            now,
            endpoint@,
            packet_id,
            reason,
        ) == (final(broker)@, step@),
{
    let key = &endpoint.attachment.key;
    let generation: u64 = endpoint.attachment.generation;
    let unknown = AckReason::Pubrel(PubrelReason::PacketIdentifierNotFound);
    let maximum: usize = endpoint.wire.maximum;
    if reason >= 0x80 {
        match broker.pubrec_rejected(key, generation, packet_id, now) {
            Err(Error::Invalid) => send_ack(unknown, packet_id, &broker.limits, maximum),
            Err(error) => fail(error),
            Ok(_) => match broker.next_offline(key, generation, now) {
                Err(error) => fail(error),
                Ok(frame) => Step::Deliver { frame, received: false, more: false },
            },
        }
    } else {
        match broker.pubrec(key, generation, packet_id) {
            Err(Error::Invalid) => send_ack(unknown, packet_id, &broker.limits, maximum),
            Err(error) => fail(error),
            Ok(frame) => Step::Deliver { frame: Some(frame), received: false, more: true },
        }
    }
}

/// The waiting frame that may follow one that was written.
pub fn on_delivered(broker: &mut MqttBroker, endpoint: &Endpoint, now: i64) -> (step: Step)
    requires
        old(broker).wf(),
    ensures
        final(broker).wf(),
        final(broker).limits == old(broker).limits,
        ({
            let (next, outcome) = pull(
                old(broker)@,
                old(broker).limits,
                now,
                endpoint@.attachment.key,
                endpoint@.attachment.generation,
            );
            final(broker)@ == next && step@ == match outcome {
                Err(error) => failed(error),
                Ok(frame) => StepView::Deliver { frame, received: false, more: false },
            }
        }),
{
    match broker.next_offline(
        &endpoint.attachment.key,
        endpoint.attachment.generation,
        now,
    ) {
        Err(error) => fail(error),
        Ok(frame) => Step::Deliver { frame, received: false, more: false },
    }
}

fn complete(reason: PubcompReason, packet_id: u16, limits: &Limits, maximum: usize) -> (step: Step)
    ensures
        step@ == complete_step(reason, packet_id, *limits, maximum),
{
    match send_ack(AckReason::Pubcomp(reason), packet_id, limits, maximum) {
        Step::Send { bytes } => Step::Settle { bytes, packet_id },
        other => other,
    }
}

fn release(
    broker: &mut MqttBroker,
    endpoint: &Endpoint,
    session_incarnation: u64,
    packet_id: u16,
    operation_id: u64,
    now: i64,
) -> (step: Step)
    requires
        old(broker).wf(),
    ensures
        final(broker).wf(),
        final(broker).limits == old(broker).limits,
        released(
            old(broker)@,
            old(broker).limits,
            now,
            endpoint@,
            session_incarnation,
            packet_id,
            operation_id,
        ) == (final(broker)@, step@),
{
    match broker.route_inbound_qos2(
        &endpoint.attachment.key,
        session_incarnation,
        packet_id,
        operation_id,
        &endpoint.auth.device_key,
        now,
    ) {
        Err(error) => fail(error),
        Ok(_) => complete(
            PubcompReason::Success,
            packet_id,
            &broker.limits,
            endpoint.wire.maximum,
        ),
    }
}

/// What follows when a message was handed on, or could not be.
pub fn on_ingested(
    broker: &mut MqttBroker,
    endpoint: &Endpoint,
    pending: Pending,
    refused: Option<Error>,
    now: i64,
) -> (step: Step)
    requires
        old(broker).wf(),
    ensures
        final(broker).wf(),
        final(broker).limits == old(broker).limits,
        handed_on(old(broker)@, old(broker).limits, now, endpoint@, pending, refused) == (
            final(broker)@,
            step@,
        ),
{
    match (pending, refused) {
        (Pending::Nothing, None) => Step::Idle,
        (Pending::Acknowledge { packet_id }, None) => send_ack(
            AckReason::Puback(PubackReason::Success),
            packet_id,
            &broker.limits,
            endpoint.wire.maximum,
        ),
        (Pending::Release { session_incarnation, packet_id, operation_id }, None) => {
            match broker.finish_inbound_qos2_delivery(
                &endpoint.attachment.key,
                session_incarnation,
                packet_id,
                operation_id,
            ) {
                Err(error) => fail(error),
                Ok(_) => release(
                    broker,
                    endpoint,
                    session_incarnation,
                    packet_id,
                    operation_id,
                    now,
                ),
            }
        },
        (Pending::Release { session_incarnation, packet_id, operation_id }, Some(error)) => {
            let _ = broker.abandon_inbound_qos2_delivery(
                &endpoint.attachment.key,
                session_incarnation,
                packet_id,
                operation_id,
            );
            fail(error)
        },
        (_, Some(error)) => fail(error),
    }
}

fn pass_on(
    broker: &mut MqttBroker,
    endpoint: &Endpoint,
    message: BrokerMessage,
    pending: Pending,
    now: i64,
) -> (step: Step)
    requires
        old(broker).wf(),
    ensures
        final(broker).wf(),
        final(broker).limits == old(broker).limits,
        hand_on(old(broker)@, old(broker).limits, now, endpoint@, message@, pending) == (
            final(broker)@,
            step@,
        ),
{
    match publish_acl(&endpoint.auth, message.topic.as_str()) {
        Err(error) => on_ingested(broker, endpoint, pending, Some(error), now),
        Ok(kind) => {
            if message.payload.len() == 0 && message.retain {
                on_ingested(broker, endpoint, pending, None, now)
            } else {
                Step::Ingest { message, command_ack: kind == TopicKind::DownAck, pending }
            }
        },
    }
}

fn on_released(broker: &mut MqttBroker, endpoint: &Endpoint, packet_id: u16, now: i64) -> (step: Step)
    requires
        old(broker).wf(),
    ensures
        final(broker).wf(),
        final(broker).limits == old(broker).limits,
        pubrel_step(old(broker)@, old(broker).limits, now, endpoint@, packet_id) == (
            final(broker)@,
            step@,
        ),
{
    match broker.begin_inbound_qos2_delivery(
        &endpoint.attachment.key,
        endpoint.attachment.generation,
        packet_id,
    ) {
        Err(error) => fail(error),
        Ok(InboundQos2Action::Deliver { message, session_incarnation, operation_id }) => pass_on(
            broker,
            endpoint,
            message,
            Pending::Release { session_incarnation, packet_id, operation_id },
            now,
        ),
        Ok(InboundQos2Action::EventAccepted { session_incarnation, operation_id }) => release(
            broker,
            endpoint,
            session_incarnation,
            packet_id,
            operation_id,
            now,
        ),
        Ok(InboundQos2Action::DeliveryInProgress) => Step::Idle,
        Ok(InboundQos2Action::Unknown) => complete(
            PubcompReason::PacketIdentifierNotFound,
            packet_id,
            &broker.limits,
            endpoint.wire.maximum,
        ),
    }
}

fn on_publish_twice(
    broker: &mut MqttBroker,
    endpoint: &Endpoint,
    message: BrokerMessage,
    packet_id: u16,
) -> (step: Step)
    requires
        old(broker).wf(),
    ensures
        final(broker).wf(),
        final(broker).limits == old(broker).limits,
        publish_twice_step(
            old(broker)@,
            old(broker).limits,
            endpoint@,
            message@,
            packet_id,
        ) == (final(broker)@, step@),
{
    let key = &endpoint.attachment.key;
    let generation: u64 = endpoint.attachment.generation;
    let maximum: usize = endpoint.wire.maximum;
    let accepted = AckReason::Pubrec(PubrecReason::Success);
    match authorize_inbound_qos2_publish(
        broker,
        &endpoint.auth,
        key,
        generation,
        packet_id,
        message.topic.as_str(),
    ) {
        Err(error) => return fail(error),
        Ok(InboundQos2PublishState::ExistingTransaction) => {
            return send_ack(accepted, packet_id, &broker.limits, maximum);
        },
        Ok(_) => {},
    }
    match broker.inbound_receive_available(key, generation, message.qos, packet_id) {
        Err(error) => return fail(error),
        Ok(false) => {
            return Step::Fail {
                error: Error::Overloaded,
                reason: DisconnectReason::ReceiveMaximumExceeded,
            };
        },
        Ok(true) => {},
    }
    match broker.inbound_qos2(key, generation, packet_id, message) {
        Ok(_) => send_ack(accepted, packet_id, &broker.limits, maximum),
        Err(Error::Invalid) => send_ack(
            AckReason::Pubrec(PubrecReason::PacketIdentifierInUse),
            packet_id,
            &broker.limits,
            maximum,
        ),
        Err(error) => fail(error),
    }
}

fn on_publish_once(
    broker: &mut MqttBroker,
    endpoint: &Endpoint,
    message: BrokerMessage,
    packet_id: Option<u16>,
    now: i64,
) -> (step: Step)
    requires
        old(broker).wf(),
    ensures
        final(broker).wf(),
        final(broker).limits == old(broker).limits,
        publish_once_step(
            old(broker)@,
            old(broker).limits,
            now,
            endpoint@,
            message@,
            packet_id,
        ) == (final(broker)@, step@),
{
    let key = &endpoint.attachment.key;
    let generation: u64 = endpoint.attachment.generation;
    if let Err(error) = publish_acl(&endpoint.auth, message.topic.as_str()) {
        return fail(error);
    }
    if message.qos > 0 {
        let room = match packet_id {
            Some(id) => broker.inbound_receive_available(key, generation, message.qos, id),
            None => Err(Error::Invalid),
        };
        match room {
            Err(error) => return fail(error),
            Ok(false) => {
                return Step::Fail {
                    error: Error::Overloaded,
                    reason: DisconnectReason::ReceiveMaximumExceeded,
                };
            },
            Ok(true) => {},
        }
    }
    if let Err(error) = broker.route_from_session(key, message.clone(), now) {
        return fail(error);
    }
    let pending = match packet_id {
        Some(packet_id) => Pending::Acknowledge { packet_id },
        None => Pending::Nothing,
    };
    pass_on(broker, endpoint, message, pending, now)
}

fn on_goodbye(
    broker: &mut MqttBroker,
    endpoint: &mut Endpoint,
    reason: u8,
    session_expiry: Option<u32>,
) -> (step: Step)
    requires
        old(broker).wf(),
    ensures
        final(broker).wf(),
        final(broker).limits == old(broker).limits,
        *final(endpoint) == *old(endpoint),
        goodbye_step(old(broker)@, old(endpoint)@, reason, session_expiry) == (
            final(broker)@,
            step@,
        ),
{
    if let Some(interval) = session_expiry {
        let changed = broker.set_v5_disconnect_expiry(
            &endpoint.attachment.key,
            endpoint.attachment.generation,
            interval,
        );
        if let Err(error) = changed {
            return fail(error);
        }
        if let Some(will) = &mut endpoint.will {
            will.set_v5_session_expiry(broker, interval);
        }
    }
    Step::Close { orderly: reason == 0 }
}

/// Does what a packet of a connected client asks for, and says what is to be done next.
pub fn on_packet(
    broker: &mut MqttBroker,
    endpoint: &mut Endpoint,
    packet: Packet,
    now: i64,
) -> (step: Step)
    requires
        old(broker).wf(),
    ensures
        final(broker).wf(),
        final(broker).limits == old(broker).limits,
        *final(endpoint) == *old(endpoint),
        packet_step(old(broker)@, old(broker).limits, now, old(endpoint)@, packet@) == (
            final(broker)@,
            step@,
        ),
{
    reveal(packet_step);
    match packet {
        Packet::Connect(_) => fail(Error::Invalid),
        Packet::Pingreq => {
            let bytes: Vec<u8> = vec![0xd0, 0];
            assert(bytes@ =~= seq![0xd0u8, 0u8]);
            send_bytes(bytes, endpoint.wire.maximum)
        },
        Packet::Disconnect { reason, properties } => on_goodbye(
            broker,
            endpoint,
            reason,
            properties.session_expiry,
        ),
        Packet::Subscribe { packet_id, filters, properties: _ } => on_subscribe(
            broker,
            endpoint,
            packet_id,
            &filters,
            now,
        ),
        Packet::Unsubscribe { packet_id, filters, properties: _ } => on_unsubscribe(
            broker,
            endpoint,
            packet_id,
            &filters,
            now,
        ),
        Packet::Puback { packet_id, reason: _ } => on_acknowledged(
            broker,
            endpoint,
            packet_id,
            OutboundAck::Puback,
            now,
        ),
        Packet::Pubcomp { packet_id, reason: _ } => on_acknowledged(
            broker,
            endpoint,
            packet_id,
            OutboundAck::Pubcomp,
            now,
        ),
        Packet::Pubrec { packet_id, reason } => on_pubrec(
            broker,
            endpoint,
            packet_id,
            reason,
            now,
        ),
        Packet::Pubrel { packet_id, reason: _ } => on_released(broker, endpoint, packet_id, now),
        Packet::Publish { topic, payload, qos, packet_id, retain, dup: _, properties } => {
            let message = BrokerMessage {
                topic,
                payload: to_vec(&payload),
                qos,
                retain,
                properties: PublishProperties::from_wire(&properties, now),
            };
            if qos == 2 {
                match packet_id {
                    Some(id) => on_publish_twice(broker, endpoint, message, id),
                    None => fail(Error::Invalid),
                }
            } else {
                on_publish_once(broker, endpoint, message, packet_id, now)
            }
        },
    }
}

} // verus!
