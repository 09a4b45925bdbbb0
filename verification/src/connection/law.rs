//! What holds of a connection whatever its client sends.
use super::frame::{
    after_writing, attempt, attempt_v311, attempt_v5, prepared, replaced, send_v5, AttemptView,
    Wire,
};
use super::step::{ended, will_settled, EndpointView, Pending};
use super::{v311, v5};
use crate::broker::ease::{left, lighter, stale, wills_left};
use crate::broker::attach::{detach_spec, generated_from, AttachmentView, Profile};
use crate::broker::history::{after, law_every_operation_stays_tidy, Operation};
use crate::broker::inbound::{begin_delivery, classify, ActionView, InboundQos2PublishState};
use crate::broker::law::set_aside_for;
use crate::broker::model::{
    frame_charge, owns, session_at, wake_global, BrokerView, DelayView, FrameView,
};
use crate::broker::outbound::{begin_transfer, frame_exchange, OutboundAck};
use crate::broker::service::{publish, written};
use crate::broker::tidy::{lemma_steady_tidy, lemma_wake_global_steady, tidy};
use crate::broker::wills::{hold_will, with_expiry};
use crate::codec::{v311 as plain, v5 as modern, MqttVersion};
use crate::error::Error;
use crate::identity::{DeviceView, KeyView};
use crate::limits::Limits;
use crate::message::{charge_of, expired_spec, no_props, MessageView};
use crate::session::{AuthView, RetainedReservation, Subscription};
use crate::topics::publish_acl_spec;
use vstd::prelude::*;

verus! {

/// A publication that the device may not make has no effect: the connection fails and the broker
/// is as before. The one exception is a message that the broker holds already, which is only
/// acknowledged again.
pub proof fn law_unauthorized_publication_changes_nothing(
    b: BrokerView,
    limits: Limits,
    now: i64,
    e: EndpointView,
    message: MessageView,
    id: Option<u16>,
)
    requires
        publish_acl_spec(e.device, e.permissions, message.topic) is Err,
        message.qos == 2 && id is Some ==> classify(
            b,
            e.attachment.key,
            e.attachment.generation,
            id->0,
        ) != Ok::<InboundQos2PublishState, Error>(InboundQos2PublishState::ExistingTransaction),
    ensures
        v311::publish_step(b, limits, now, e, message, id).0 == b,
        v311::publish_step(b, limits, now, e, message, id).1 is Fail,
        v5::publish_step(b, limits, now, e, message, id).0 == b,
        v5::publish_step(b, limits, now, e, message, id).1 is Fail,
{
}

/// A publication is handed on only after the broker has taken it, so that what was handed on is
/// never refused afterwards; and a device event is never handed on for a clearing message.
pub proof fn law_publication_is_routed_before_it_is_handed_on(
    b: BrokerView,
    limits: Limits,
    now: i64,
    e: EndpointView,
    message: MessageView,
    id: Option<u16>,
)
    requires
        message.qos < 2,
    ensures
        v311::publish_step(b, limits, now, e, message, id).1 is Ingest ==> {
            &&& publish(
                b,
                limits,
                now,
                e.attachment.key.device.tenant,
                Some(e.attachment.key),
                message,
            ).1 is Ok
            &&& !(message.retain && message.payload.len() == 0)
        },
        v5::publish_step(b, limits, now, e, message, id).1 is Ingest ==> {
            &&& publish(
                b,
                limits,
                now,
                e.attachment.key.device.tenant,
                Some(e.attachment.key),
                message,
            ).1 is Ok
            &&& !(message.retain && message.payload.len() == 0)
        },
{
}

/// One more operation of the broker.
proof fn lemma_then(b: BrokerView, limits: Limits, now: i64, operation: Operation) -> (next:
    BrokerView)
    requires
        tidy(b, limits),
    ensures
        next == after(b, limits, now, operation),
        tidy(next, limits),
{
    law_every_operation_stays_tidy(b, limits, now, operation);
    after(b, limits, now, operation)
}

proof fn lemma_handed_on_tidy(
    b: BrokerView,
    limits: Limits,
    now: i64,
    e: EndpointView,
    pending: Pending,
    refused: Option<Error>,
)
    requires
        tidy(b, limits),
    ensures
        tidy(v311::handed_on(b, limits, now, e, pending, refused).0, limits),
        tidy(v5::handed_on(b, limits, now, e, pending, refused).0, limits),
{
    if let Pending::Release { session_incarnation, packet_id, operation_id } = pending {
        let key = e.attachment.key;
        let finished = lemma_then(
            b,
            limits,
            now,
            Operation::FinishDelivery {
                key,
                incarnation: session_incarnation,
                id: packet_id,
                operation: operation_id,
            },
        );
        lemma_released_tidy(
            finished,
            limits,
            now,
            e,
            session_incarnation,
            packet_id,
            operation_id,
        );
        let _ = lemma_then(
            b,
            limits,
            now,
            Operation::AbandonDelivery {
                key,
                incarnation: session_incarnation,
                id: packet_id,
                operation: operation_id,
            },
        );
    }
}

proof fn lemma_released_tidy(
    b: BrokerView,
    limits: Limits,
    now: i64,
    e: EndpointView,
    incarnation: u64,
    id: u16,
    operation: u64,
)
    requires
        tidy(b, limits),
    ensures
        tidy(v311::released(b, limits, now, e, incarnation, id, operation).0, limits),
        tidy(v5::released(b, limits, now, e, incarnation, id, operation).0, limits),
{
    let _ = lemma_then(
        b,
        limits,
        now,
        Operation::RouteInbound {
            key: e.attachment.key,
            incarnation,
            id,
            operation,
            tenant: e.device.tenant,
        },
    );
}

proof fn lemma_hand_on_tidy(
    b: BrokerView,
    limits: Limits,
    now: i64,
    e: EndpointView,
    message: MessageView,
    pending: Pending,
)
    requires
        tidy(b, limits),
    ensures
        tidy(v311::hand_on(b, limits, now, e, message, pending).0, limits),
        tidy(v5::hand_on(b, limits, now, e, message, pending).0, limits),
{
    lemma_handed_on_tidy(b, limits, now, e, pending, None);
    if let Err(error) = publish_acl_spec(e.device, e.permissions, message.topic) {
        lemma_handed_on_tidy(b, limits, now, e, pending, Some(error));
    }
}

proof fn lemma_pubrel_tidy(b: BrokerView, limits: Limits, now: i64, e: EndpointView, id: u16)
    requires
        tidy(b, limits),
    ensures
        tidy(v311::pubrel_step(b, limits, now, e, id).0, limits),
        tidy(v5::pubrel_step(b, limits, now, e, id).0, limits),
{
    let key = e.attachment.key;
    let generation = e.attachment.generation;
    let next = lemma_then(
        b,
        limits,
        now,
        Operation::BeginDelivery { key, generation, id },
    );
    match begin_delivery(b, key, generation, id).1 {
        Ok(ActionView::Deliver { message, session_incarnation, operation_id }) => {
            lemma_hand_on_tidy(
                next,
                limits,
                now,
                e,
                message,
                Pending::Release { session_incarnation, packet_id: id, operation_id },
            );
        },
        Ok(ActionView::EventAccepted { session_incarnation, operation_id }) => {
            lemma_released_tidy(next, limits, now, e, session_incarnation, id, operation_id);
        },
        _ => {},
    }
}

proof fn lemma_acknowledge_tidy(
    b: BrokerView,
    limits: Limits,
    now: i64,
    e: EndpointView,
    id: u16,
    ack: OutboundAck,
)
    requires
        tidy(b, limits),
    ensures
        tidy(v311::acknowledge_step(b, limits, now, e, id, ack).0, limits),
        tidy(v5::acknowledge_step(b, limits, now, e, id, ack).0, limits),
{
    let key = e.attachment.key;
    let generation = e.attachment.generation;
    let done = lemma_then(
        b,
        limits,
        now,
        Operation::CompleteOutbound { key, generation, id, ack },
    );
    let _ = lemma_then(done, limits, now, Operation::Pull { key, generation });
}

proof fn lemma_pubrec_tidy(
    b: BrokerView,
    limits: Limits,
    now: i64,
    e: EndpointView,
    id: u16,
    reason: u8,
)
    requires
        tidy(b, limits),
    ensures
        tidy(v311::pubrec_step(b, limits, e, id).0, limits),
        tidy(v5::pubrec_step(b, limits, now, e, id, reason).0, limits),
{
    let key = e.attachment.key;
    let generation = e.attachment.generation;
    let _ = lemma_then(b, limits, now, Operation::ReceivePubrec { key, generation, id });
    let done = lemma_then(b, limits, now, Operation::RejectPubrec { key, generation, id });
    let _ = lemma_then(done, limits, now, Operation::Pull { key, generation });
}

proof fn lemma_taken_tidy(
    b: BrokerView,
    limits: Limits,
    e: EndpointView,
    id: u16,
    message: MessageView,
)
    requires
        tidy(b, limits),
    ensures
        tidy(v311::taken(b, limits, e, id, message).0, limits),
        tidy(v5::taken(b, limits, e, id, message).0, limits),
{
    let _ = lemma_then(
        b,
        limits,
        0,
        Operation::Accept {
            key: e.attachment.key,
            generation: e.attachment.generation,
            id,
            message,
        },
    );
}

proof fn lemma_publish_tidy(
    b: BrokerView,
    limits: Limits,
    now: i64,
    e: EndpointView,
    message: MessageView,
    id: Option<u16>,
)
    requires
        tidy(b, limits),
    ensures
        tidy(v311::publish_step(b, limits, now, e, message, id).0, limits),
        tidy(v5::publish_step(b, limits, now, e, message, id).0, limits),
{
    let key = e.attachment.key;
    let next = lemma_then(
        b,
        limits,
        now,
        Operation::Publish { tenant: key.device.tenant, origin: Some(key), message },
    );
    lemma_hand_on_tidy(next, limits, now, e, message, v311::answer_to(id));
    if let Some(id) = id {
        lemma_taken_tidy(b, limits, e, id, message);
    }
}

proof fn lemma_subscribed_tidy(
    b: BrokerView,
    limits: Limits,
    now: i64,
    e: EndpointView,
    filters: Seq<(Seq<char>, u8)>,
    n: nat,
)
    requires
        tidy(b, limits),
    ensures
        tidy(v311::subscribed(b, limits, now, e, filters, n).0, limits),
    decreases n,
{
    if n > 0 {
        let before = v311::subscribed(b, limits, now, e, filters, (n - 1) as nat).0;
        lemma_subscribed_tidy(b, limits, now, e, filters, (n - 1) as nat);
        let _ = lemma_then(
            before,
            limits,
            now,
            Operation::Subscribe {
                key: e.attachment.key,
                generation: e.attachment.generation,
                filter: filters[n - 1].0,
                subscription: Subscription::v311_spec(filters[n - 1].1),
            },
        );
    }
}

proof fn lemma_subscribed_v5_tidy(
    b: BrokerView,
    limits: Limits,
    now: i64,
    e: EndpointView,
    filters: Seq<(Seq<char>, modern::SubscriptionOptions)>,
    n: nat,
)
    requires
        tidy(b, limits),
    ensures
        tidy(v5::subscribed(b, limits, now, e, filters, n).0, limits),
    decreases n,
{
    if n > 0 {
        let before = v5::subscribed(b, limits, now, e, filters, (n - 1) as nat).0;
        let options = filters[n - 1].1;
        lemma_subscribed_v5_tidy(b, limits, now, e, filters, (n - 1) as nat);
        let _ = lemma_then(
            before,
            limits,
            now,
            Operation::Subscribe {
                key: e.attachment.key,
                generation: e.attachment.generation,
                filter: filters[n - 1].0,
                subscription: Subscription {
                    qos: options.qos,
                    no_local: options.no_local,
                    retain_as_published: options.retain_as_published,
                    retain_handling: options.retain_handling,
                },
            },
        );
    }
}

proof fn lemma_unsubscribed_tidy(
    b: BrokerView,
    limits: Limits,
    now: i64,
    e: EndpointView,
    filters: Seq<Seq<char>>,
    n: nat,
)
    requires
        tidy(b, limits),
    ensures
        tidy(v311::unsubscribed(b, limits, now, e, filters, n).0, limits),
        tidy(v5::unsubscribed(b, limits, now, e, filters, n).0, limits),
    decreases n,
{
    if n > 0 {
        lemma_unsubscribed_tidy(b, limits, now, e, filters, (n - 1) as nat);
        let operation = Operation::Unsubscribe {
            key: e.attachment.key,
            generation: e.attachment.generation,
            filter: filters[n - 1],
        };
        let _ = lemma_then(
            v311::unsubscribed(b, limits, now, e, filters, (n - 1) as nat).0,
            limits,
            now,
            operation,
        );
        let _ = lemma_then(
            v5::unsubscribed(b, limits, now, e, filters, (n - 1) as nat).0,
            limits,
            now,
            operation,
        );
    }
}

/// Whatever a client of the older protocol sends, everything still fits together in the broker.
pub proof fn law_every_packet_stays_tidy(
    b: BrokerView,
    limits: Limits,
    now: i64,
    e: EndpointView,
    packet: plain::PacketView,
)
    requires
        tidy(b, limits),
    ensures
        tidy(v311::packet_step(b, limits, now, e, packet).0, limits),
{
    reveal(v311::packet_step);
    match packet {
        plain::PacketView::Subscribe { filters, .. } => {
            lemma_subscribed_tidy(b, limits, now, e, filters, filters.len());
        },
        plain::PacketView::Unsubscribe { filters, .. } => {
            lemma_unsubscribed_tidy(b, limits, now, e, filters, filters.len());
        },
        plain::PacketView::Puback(id) => {
            lemma_acknowledge_tidy(b, limits, now, e, id, OutboundAck::Puback);
        },
        plain::PacketView::Pubcomp(id) => {
            lemma_acknowledge_tidy(b, limits, now, e, id, OutboundAck::Pubcomp);
        },
        plain::PacketView::Pubrec(id) => {
            lemma_pubrec_tidy(b, limits, now, e, id, 0);
        },
        plain::PacketView::Pubrel(id) => {
            lemma_pubrel_tidy(b, limits, now, e, id);
        },
        plain::PacketView::Publish { topic, payload, qos, packet_id, retain, .. } => {
            let message = MessageView { topic, payload, qos, retain, properties: no_props() };
            lemma_publish_tidy(b, limits, now, e, message, packet_id);
        },
        _ => {},
    }
}

/// Whatever a client of the newer protocol sends, everything still fits together in the broker.
pub proof fn law_every_v5_packet_stays_tidy(
    b: BrokerView,
    limits: Limits,
    now: i64,
    e: EndpointView,
    packet: modern::PacketView,
)
    requires
        tidy(b, limits),
    ensures
        tidy(v5::packet_step(b, limits, now, e, packet).0, limits),
{
    reveal(v5::packet_step);
    match packet {
        modern::PacketView::Disconnect { properties, .. } => {
            if let Some(interval) = properties.session_expiry {
                let next = lemma_then(
                    b,
                    limits,
                    now,
                    Operation::ChangeExpiry {
                        key: e.attachment.key,
                        generation: e.attachment.generation,
                        interval,
                    },
                );
                if let Some(token) = e.will {
                    let _ = lemma_then(
                        next,
                        limits,
                        now,
                        Operation::ProlongWill { token, interval },
                    );
                }
            }
        },
        modern::PacketView::Subscribe { filters, .. } => {
            lemma_subscribed_v5_tidy(b, limits, now, e, filters, filters.len());
        },
        modern::PacketView::Unsubscribe { filters, .. } => {
            lemma_unsubscribed_tidy(b, limits, now, e, filters, filters.len());
        },
        modern::PacketView::Puback { packet_id, .. } => {
            lemma_acknowledge_tidy(b, limits, now, e, packet_id, OutboundAck::Puback);
        },
        modern::PacketView::Pubcomp { packet_id, .. } => {
            lemma_acknowledge_tidy(b, limits, now, e, packet_id, OutboundAck::Pubcomp);
        },
        modern::PacketView::Pubrec { packet_id, reason } => {
            lemma_pubrec_tidy(b, limits, now, e, packet_id, reason);
        },
        modern::PacketView::Pubrel { packet_id, .. } => {
            lemma_pubrel_tidy(b, limits, now, e, packet_id);
        },
        modern::PacketView::Publish {
            topic,
            payload,
            qos,
            packet_id,
            retain,
            properties,
            ..
        } => {
            let message = v5::received_message(topic, payload, qos, retain, properties, now);
            lemma_publish_tidy(b, limits, now, e, message, packet_id);
        },
        _ => {},
    }
}

proof fn lemma_dropped_tidy(b: BrokerView, limits: Limits, now: i64, a: AttachmentView)
    requires
        tidy(b, limits),
    ensures
        tidy(v311::dropped(b, limits, now, a), limits),
{
    let next = lemma_then(
        b,
        limits,
        now,
        Operation::Detach {
            key: a.key,
            generation: a.generation,
            clean_session: a.clean_session,
        },
    );
    let shut = lemma_then(next, limits, now, Operation::Shut { receiver: a.receiver });
    let _ = lemma_then(shut, limits, now, Operation::Forget { receiver: a.receiver });
}

/// Whoever is let in or turned away again, everything still fits together in the broker.
pub proof fn law_every_greeting_stays_tidy(
    b: BrokerView,
    limits: Limits,
    now: i64,
    device: DeviceView,
    auth: AuthView,
    connect: plain::ConnectView,
)
    requires
        tidy(b, limits),
    ensures
        tidy(v311::admitted(b, limits, now, device, auth, connect).0, limits),
{
    reveal(v311::admitted);
    let kept = lemma_then(b, limits, now, Operation::Maintain);
    let name = if connect.client_id.len() == 0 {
        generated_from(kept, limits, 1)
    } else {
        Some(connect.client_id)
    };
    if let Some(name) = name {
        let _ = lemma_then(
            kept,
            limits,
            now,
            Operation::Attach {
                key: KeyView { device, client_id: name },
                profile: Profile {
                    clean_session: connect.client_id.len() == 0 || connect.clean_session,
                    version: MqttVersion::V311,
                    session_expiry_interval: 0,
                    receive_maximum: u16::MAX,
                },
                auth,
            },
        );
    }
    let (joined, outcome) = v311::attached(
        b,
        limits,
        now,
        device,
        auth,
        connect.client_id,
        connect.clean_session,
    );
    assert(tidy(joined, limits));
    if let (Ok(a), Some(will)) = (outcome, connect.will) {
        let held = lemma_then(
            joined,
            limits,
            now,
            Operation::HoldWill {
                owner: a.key.device,
                origin: Some(a.key),
                message: v311::will_message(will),
            },
        );
        lemma_dropped_tidy(held, limits, now, a);
        if let Ok(token) = hold_will(
            joined,
            limits,
            a.key.device,
            Some(a.key),
            v311::will_message(will),
        ).1 {
            let _ = lemma_then(held, limits, now, Operation::ArmWill { token });
        }
    }
}

proof fn lemma_with_will_tidy(
    b: BrokerView,
    limits: Limits,
    now: i64,
    device: DeviceView,
    connect: modern::ConnectView,
    a: AttachmentView,
)
    requires
        tidy(b, limits),
    ensures
        tidy(v5::with_will(b, limits, device, connect, a).0, limits),
{
    if let Some(will) = connect.will {
        let message = v5::will_message(will);
        let held = lemma_then(
            b,
            limits,
            now,
            Operation::HoldWill { owner: device, origin: None, message },
        );
        if let Ok(token) = hold_will(b, limits, device, None, message).1 {
            let _ = lemma_then(
                held,
                limits,
                now,
                Operation::DelayWill {
                    token,
                    delay: DelayView {
                        delay: v5::or_zero(will.properties.will_delay),
                        session_expiry: v5::or_zero(connect.properties.session_expiry),
                        key: a.key,
                        incarnation: a.session_incarnation,
                        generation: a.generation,
                    },
                    message_expiry: will.properties.message_expiry,
                },
            );
        }
    }
}

/// Whoever of the newer protocol is let in or turned away again, everything still fits together
/// in the broker.
pub proof fn law_every_v5_greeting_stays_tidy(
    b: BrokerView,
    limits: Limits,
    now: i64,
    device: DeviceView,
    auth: AuthView,
    connect: modern::ConnectView,
    registration: u64,
)
    requires
        tidy(b, limits),
    ensures
        tidy(v5::admitted(b, limits, now, device, auth, connect, registration).0, limits),
{
    reveal(v5::admitted);
    let kept = lemma_then(b, limits, now, Operation::Maintain);
    let receive_maximum = match connect.properties.receive_maximum {
        Some(value) => value,
        None => u16::MAX,
    };
    let _ = lemma_then(
        kept,
        limits,
        now,
        Operation::Attach {
            key: KeyView { device, client_id: v5::name_of(connect, registration) },
            profile: Profile {
                clean_session: connect.clean_start,
                version: MqttVersion::V5,
                session_expiry_interval: v5::or_zero(connect.properties.session_expiry),
                receive_maximum,
            },
            auth,
        },
    );
    let (joined, outcome) = v5::attached(b, limits, now, device, auth, connect, registration);
    assert(tidy(joined, limits));
    if let Ok(a) = outcome {
        let (held, will) = v5::with_will(joined, limits, device, connect, a);
        lemma_with_will_tidy(joined, limits, now, device, connect, a);
        lemma_dropped_tidy(held, limits, now, a);
        if let Ok(Some(token)) = will {
            let left = lemma_then(held, limits, now, Operation::CloseWill { token });
            lemma_dropped_tidy(left, limits, now, a);
        }
    }
}

/// However a connection ends, everything still fits together in the broker.
pub proof fn law_every_ending_stays_tidy(
    b: BrokerView,
    limits: Limits,
    now: i64,
    e: EndpointView,
    orderly: bool,
)
    requires
        tidy(b, limits),
    ensures
        tidy(ended(b, limits, now, e, orderly).0, limits),
{
    reveal(ended);
    let a = e.attachment;
    let left = lemma_then(
        b,
        limits,
        now,
        Operation::Detach {
            key: a.key,
            generation: a.generation,
            clean_session: a.clean_session,
        },
    );
    let detached = if a.attached {
        left
    } else {
        b
    };
    let next = match e.will {
        None => detached,
        Some(token) => {
            let closed = lemma_then(detached, limits, now, Operation::CloseWill { token });
            let back = lemma_then(detached, limits, now, Operation::SuppressWill { token });
            let settled = lemma_then(detached, limits, now, Operation::SettleWill { token });
            let both = lemma_then(settled, limits, now, Operation::CloseWill { token });
            let failed = if a.attached {
                detach_spec(b, limits, now, a.key, a.generation, a.clean_session).1
            } else {
                None
            };
            if failed is Some {
                closed
            } else {
                will_settled(detached, limits, now, e.wire.version, token, orderly).0
            }
        },
    };
    assert(tidy(next, limits));
    let receiver = a.receiver;
    let shut = lemma_then(next, limits, now, Operation::Shut { receiver });
    let _ = lemma_then(shut, limits, now, Operation::Forget { receiver });
}

proof fn lemma_replaced_tidy(
    b: BrokerView,
    limits: Limits,
    now: i64,
    key: KeyView,
    generation: u64,
    receiver: u64,
    charge: nat,
)
    requires
        tidy(b, limits),
    ensures
        tidy(replaced(b, limits, now, key, generation, receiver, charge).0, limits),
        tidy(written(b, receiver, charge), limits),
{
    let next = lemma_then(b, limits, now, Operation::Pull { key, generation });
    let _ = lemma_then(next, limits, now, Operation::FrameWritten { receiver, charge });
    let _ = lemma_then(b, limits, now, Operation::FrameWritten { receiver, charge });
}

proof fn lemma_attempt_tidy(
    b: BrokerView,
    limits: Limits,
    now: i64,
    key: KeyView,
    generation: u64,
    receiver: u64,
    wire: Wire,
    frame: FrameView,
)
    requires
        tidy(b, limits),
    ensures
        tidy(attempt(b, limits, now, key, generation, receiver, wire, frame).0, limits),
{
    reveal(attempt_v311);
    reveal(attempt_v5);
    reveal(send_v5);
    let charge = frame_charge(frame);
    lemma_replaced_tidy(b, limits, now, key, generation, receiver, charge);
    if let FrameView::Publish { message, packet_id, .. } = frame {
        let begun = lemma_then(
            b,
            limits,
            now,
            Operation::BeginTransfer { key, generation, id: packet_id, message },
        );
        lemma_replaced_tidy(begun, limits, now, key, generation, receiver, charge);
        let left = lemma_then(
            begun,
            limits,
            now,
            Operation::Discard { key, generation, id: packet_id, message },
        );
        lemma_replaced_tidy(left, limits, now, key, generation, receiver, charge);
    }
}

/// Whatever frame is made ready for writing, or is written, everything still fits together in the
/// broker.
pub proof fn law_every_frame_stays_tidy(
    b: BrokerView,
    limits: Limits,
    now: i64,
    key: KeyView,
    generation: u64,
    receiver: u64,
    wire: Wire,
    frame: FrameView,
)
    requires
        tidy(b, limits),
    ensures
        tidy(prepared(b, limits, now, key, generation, receiver, wire, frame).0, limits),
        tidy(after_writing(b, limits, now, receiver, wire.version, frame).0, limits),
    decreases
            wills_left(b),
            left(b, key),
            if stale(b, key, frame) {
                1nat
            } else {
                0nat
            },
{
    let (next, outcome) = attempt(b, limits, now, key, generation, receiver, wire, frame);
    lemma_attempt_tidy(b, limits, now, key, generation, receiver, wire, frame);
    if let AttemptView::Next(other) = outcome {
        if lighter(b, frame, next, other, key) {
            law_every_frame_stays_tidy(next, limits, now, key, generation, receiver, wire, other);
        }
    }
    let given = lemma_then(
        b,
        limits,
        now,
        Operation::FrameWritten { receiver, charge: frame_charge(frame) },
    );
    lemma_wake_global_steady(given, limits, now);
    lemma_steady_tidy(given, wake_global(given, limits, now).0, limits);
}

/// What was set aside for the will of a connection still suffices when the will is published, as
/// its lifetime, which starts only then, takes no room of its own.
pub proof fn law_will_of_a_connection_keeps_its_slot(
    limits: Limits,
    now: i64,
    will: modern::WillView,
    reservation: RetainedReservation,
    origin: Option<KeyView>,
)
    requires
        set_aside_for(limits, reservation, origin, v5::will_message(will)),
    ensures
        set_aside_for(
            limits,
            reservation,
            origin,
            with_expiry(v5::will_message(will), will.properties.message_expiry, now),
        ),
{
    let message = v5::will_message(will);
    let stamped = with_expiry(message, will.properties.message_expiry, now);
    if will.properties.message_expiry is Some {
        assert(message.properties != no_props());
        assert(stamped.properties != no_props());
    }
    assert(charge_of(stamped) == charge_of(message));
}

/// A message is written to the client only if it is still due: it has not expired, or its transfer
/// had begun before; and a message that is acknowledged is written only for the connection that
/// holds the session, while the exchange is unfinished.
pub proof fn law_only_what_is_due_is_written(
    b: BrokerView,
    limits: Limits,
    now: i64,
    key: KeyView,
    generation: u64,
    receiver: u64,
    wire: Wire,
    message: MessageView,
    packet_id: Option<u16>,
    dup: bool,
    command: bool,
)
    requires
        attempt(
            b,
            limits,
            now,
            key,
            generation,
            receiver,
            wire,
            FrameView::Publish { message, packet_id, dup, command },
        ).1 is Ready,
    ensures
        packet_id is None ==> !expired_spec(message, now),
        packet_id matches Some(id) ==> {
            &&& owns(b, key, generation)
            &&& session_at(b, key) matches Some(i) && frame_exchange(b.sessions[i], id, message)
                matches Some(k) && (expired_spec(message, now) ==> b.sessions[i].outbound[k].started)
        },
{
    reveal(attempt_v311);
    reveal(attempt_v5);
    reveal(send_v5);
    reveal(begin_transfer);
}

} // verus!
