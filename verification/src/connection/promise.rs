//! What a client's packets bring about, told by what is in the packets.
use super::step::{EndpointView, Pending, StepView};
use super::{authorized, v311, v5};
use crate::broker::attach::{attach_spec, generated_from, maintained, Profile};
use crate::broker::history::{after, law_every_operation_stays_tidy, Operation};
use crate::broker::model::{guard_at, guard_is, BrokerView, GuardView, RetainedView};
use crate::broker::retain::{
    law_published_message_is_retained_if_it_says_so, only_this_for_its_topic,
};
use crate::broker::service::publish;
use crate::broker::tidy::{guards_tidy, retained_tidy, tidy, topic_of};
use crate::broker::wills::{armed_will, hold_will};
use crate::codec::{v311 as plain, v5 as modern, MqttVersion};
use crate::error::Error;
use crate::identity::{DeviceView, KeyView};
use crate::limits::Limits;
use crate::list::{distinct, is_first, lemma_first, lemma_first_is};
use crate::message::{expired_spec, MessageView, PropsView};
use crate::session::{AuthView, Subscription};
use crate::topics::{publish_acl_spec, subscribe_acl_spec};
use crate::codec::layout::{carried, framed, law_packets_are_framed, lemma_short, short};
use crate::broker::inbound::{
    abandon_delivery, accept_inbound, classify, finish_delivery, receive_available, route_inbound,
    InboundQos2PublishState,
};
use crate::broker::subscribe::{subscribe_spec, unsubscribe_spec};
use crate::broker::filing::{lemma_subscribe_tidy, lemma_unsubscribe_tidy};
use crate::broker::replay::{law_ended_subscription_is_gone, law_subscription_stands};
use crate::broker::turnover::held;
use crate::table::lookup;
use crate::codec::common::packet_fits;
use vstd::prelude::*;

verus! {

/// A message without properties.
pub open spec fn bare(topic: Seq<char>, payload: Seq<u8>, qos: u8, retain: bool) -> MessageView {
    MessageView {
        topic,
        payload,
        qos,
        retain,
        properties: PropsView {
            payload_format: None,
            expires_at_ms: None,
            content_type: None,
            response_topic: None,
            correlation_data: None,
            user_properties: Seq::empty(),
        },
    }
}

/// The will that is held under a number.
pub open spec fn held_will(b: BrokerView, token: u64) -> Option<GuardView> {
    match guard_at(b, token) {
        Some(k) => Some(b.guards[k]),
        None => None,
    }
}

proof fn lemma_then(b: BrokerView, limits: Limits, now: i64, operation: Operation)
    requires
        tidy(b, limits),
    ensures
        tidy(after(b, limits, now, operation), limits),
{
    law_every_operation_stays_tidy(b, limits, now, operation);
}

proof fn lemma_joined_tidy(
    b: BrokerView,
    limits: Limits,
    now: i64,
    device: DeviceView,
    auth: AuthView,
    client_id: Seq<char>,
    clean_session: bool,
)
    requires
        tidy(b, limits),
    ensures
        tidy(v311::attached(b, limits, now, device, auth, client_id, clean_session).0, limits),
{
    lemma_then(b, limits, now, Operation::Maintain);
    let kept = maintained(b, limits, now);
    let name = if client_id.len() == 0 {
        generated_from(kept, limits, 1)
    } else {
        Some(client_id)
    };
    if let Some(name) = name {
        lemma_then(
            kept,
            limits,
            now,
            Operation::Attach {
                key: KeyView { device, client_id: name },
                profile: Profile {
                    clean_session: client_id.len() == 0 || clean_session,
                    version: MqttVersion::V311,
                    session_expiry_interval: 0,
                    receive_maximum: u16::MAX,
                },
                auth,
            },
        );
    }
}

/// A will that is held is found under its number, as it was given.
proof fn lemma_held(
    b: BrokerView,
    limits: Limits,
    owner: DeviceView,
    origin: Option<KeyView>,
    message: MessageView,
)
    requires
        guards_tidy(b.guards, b.next_guard),
    ensures
        hold_will(b, limits, owner, origin, message) matches (next, Ok(token)) ==> {
            let k = b.guards.len() as int;
            &&& guard_at(next, token) == Some(k)
            &&& next.guards.len() == k + 1
            &&& next.guards[k].will.message == message
            &&& next.guards[k].will.owner == owner
            &&& next.guards[k].will.origin == origin
            &&& next.guards[k].will.message_expiry_interval is None
            &&& next.guards[k].delay is None
            &&& next.guards[k].token == token
        },
{
    reveal(hold_will);
    reveal(guards_tidy);
    let (next, outcome) = hold_will(b, limits, owner, origin, message);
    if let Ok(token) = outcome {
        let k = b.guards.len() as int;
        assert forall|m: int| 0 <= m < k implies !guard_is(token)(#[trigger] next.guards[m]) by {
            assert(b.guards[m].token < b.next_guard);
        }
        assert(is_first(next.guards, guard_is(token), k));
        lemma_first_is(next.guards, guard_is(token), k);
    }
}

/// A will that is changed but keeps its number is found where it was.
proof fn lemma_found_again(b: BrokerView, next: BrokerView, token: u64, k: int, g: GuardView)
    requires
        guard_at(b, token) == Some(k),
        next.guards == b.guards.update(k, g),
        g.token == b.guards[k].token,
    ensures
        guard_at(next, token) == Some(k),
        next.guards[k] == g,
{
    lemma_first(b.guards, guard_is(token));
    assert forall|m: int| 0 <= m < k implies !guard_is(token)(#[trigger] next.guards[m]) by {
        assert(!guard_is(token)(b.guards[m]));
    }
    assert(is_first(next.guards, guard_is(token), k));
    lemma_first_is(next.guards, guard_is(token), k);
}

/// Whoever is let in is let in under its own name, and its will is held exactly as its packet has
/// it, to be published without delay when the connection is lost. Nothing is held for a client
/// without a will.
pub proof fn law_will_is_held_as_given(
    b: BrokerView,
    limits: Limits,
    now: i64,
    device: DeviceView,
    auth: AuthView,
    connect: plain::ConnectView,
)
    requires
        tidy(b, limits),
    ensures
        v311::admitted(b, limits, now, device, auth, connect) matches (next, Ok((a, token))) ==> {
            &&& a.key.device == device
            &&& connect.client_id.len() > 0 ==> a.key.client_id == connect.client_id
                && a.clean_session == connect.clean_session
            &&& connect.client_id.len() == 0 ==> a.clean_session
            &&& a.clean_session ==> !a.session_present
            &&& match connect.will {
                None => token is None,
                Some(will) => token matches Some(token) && held_will(next, token) matches Some(g)
                    && {
                    &&& g.will.message == bare(will.topic, will.payload, will.qos, will.retain)
                    &&& g.will.owner == device
                    &&& g.will.origin == Some(a.key)
                    &&& g.will.message_expiry_interval is None
                    &&& g.armed
                    &&& g.delay is None
                },
            }
        },
{
    reveal(v311::admitted);
    reveal(attach_spec);
    lemma_joined_tidy(
        b,
        limits,
        now,
        device,
        auth,
        connect.client_id,
        connect.clean_session,
    );
    let (joined, outcome) = v311::attached(
        b,
        limits,
        now,
        device,
        auth,
        connect.client_id,
        connect.clean_session,
    );
    if let (Ok(a), Some(will)) = (outcome, connect.will) {
        let message = v311::will_message(will);
        lemma_held(joined, limits, a.key.device, Some(a.key), message);
        let (held, token) = hold_will(joined, limits, a.key.device, Some(a.key), message);
        if let Ok(token) = token {
            let k = guard_at(held, token)->0;
            lemma_found_again(
                held,
                armed_will(held, token),
                token,
                k,
                GuardView { armed: true, ..held.guards[k] },
            );
        }
    }
}

proof fn lemma_joined_v5_tidy(
    b: BrokerView,
    limits: Limits,
    now: i64,
    device: DeviceView,
    auth: AuthView,
    connect: modern::ConnectView,
    registration: u64,
)
    requires
        tidy(b, limits),
    ensures
        tidy(v5::attached(b, limits, now, device, auth, connect, registration).0, limits),
{
    lemma_then(b, limits, now, Operation::Maintain);
    let kept = maintained(b, limits, now);
    lemma_then(
        kept,
        limits,
        now,
        Operation::Attach {
            key: KeyView { device, client_id: v5::name_of(connect, registration) },
            profile: Profile {
                clean_session: connect.clean_start,
                version: MqttVersion::V5,
                session_expiry_interval: v5::or_zero(connect.properties.session_expiry),
                receive_maximum: match connect.properties.receive_maximum {
                    Some(value) => value,
                    None => u16::MAX,
                },
            },
            auth,
        },
    );
}

/// The same for the newer protocol: the will has the properties that its packet gives it, and
/// waits as long as the packet says. How long it is worth delivering starts to count only when it
/// is published.
pub proof fn law_v5_will_is_held_as_given(
    b: BrokerView,
    limits: Limits,
    now: i64,
    device: DeviceView,
    auth: AuthView,
    connect: modern::ConnectView,
    registration: u64,
)
    requires
        tidy(b, limits),
    ensures
        v5::admitted(b, limits, now, device, auth, connect, registration) matches (
            next,
            Ok((a, token, bytes)),
        ) ==> {
            &&& a.key.device == device
            &&& connect.client_id.len() > 0 ==> a.key.client_id == connect.client_id
            &&& a.clean_session == connect.clean_start
            &&& a.clean_session ==> !a.session_present
            &&& match connect.will {
                None => token is None,
                Some(will) => token matches Some(token) && held_will(next, token) matches Some(g)
                    && {
                    let m = g.will.message;
                    &&& m.topic == will.topic
                    &&& m.payload == will.payload
                    &&& m.qos == will.qos
                    &&& m.retain == will.retain
                    &&& m.properties.payload_format == will.properties.payload_format
                    &&& m.properties.content_type == will.properties.content_type
                    &&& m.properties.response_topic == will.properties.response_topic
                    &&& m.properties.correlation_data == will.properties.correlation_data
                    &&& m.properties.user_properties == will.properties.user_properties
                    &&& m.properties.expires_at_ms is Some <==> will.properties.message_expiry is Some
                    &&& g.will.message_expiry_interval == will.properties.message_expiry
                    &&& g.will.owner == device
                    &&& g.armed
                    &&& g.delay matches Some(d) && {
                        &&& d.delay == match will.properties.will_delay {
                            Some(seconds) => seconds,
                            None => 0,
                        }
                        &&& d.session_expiry == match connect.properties.session_expiry {
                            Some(seconds) => seconds,
                            None => 0,
                        }
                        &&& d.key == a.key
                        &&& d.incarnation == a.session_incarnation
                        &&& d.generation == a.generation
                    }
                },
            }
        },
{
    reveal(v5::admitted);
    reveal(attach_spec);
    lemma_joined_v5_tidy(b, limits, now, device, auth, connect, registration);
    let (joined, outcome) = v5::attached(b, limits, now, device, auth, connect, registration);
    if let (Ok(a), Some(will)) = (outcome, connect.will) {
        let message = v5::will_message(will);
        lemma_held(joined, limits, device, None, message);
        let (held, token) = hold_will(joined, limits, device, None, message);
        if let Ok(token) = token {
            let k = guard_at(held, token)->0;
            let next = v5::with_will(joined, limits, device, connect, a).0;
            lemma_found_again(held, next, token, k, next.guards[k]);
        }
    }
}

/// A message that was taken has had its effect: the retained message of its topic is the one that
/// it says, and nothing else is retained anew.
pub open spec fn took(
    b: BrokerView,
    next: BrokerView,
    limits: Limits,
    now: i64,
    key: KeyView,
    m: MessageView,
) -> bool {
    &&& publish(b, limits, now, key.device.tenant, Some(key), m) matches (state, Ok(_)) && state
        == next
    &&& m.retain && !expired_spec(m, now) ==> only_this_for_its_topic(
        next.retained,
        key.device.tenant,
        Some(key),
        m,
    )
    &&& forall|r: RetainedView|
        (!m.retain || r.message.topic != m.topic) && #[trigger] next.retained.contains(r)
            ==> b.retained.contains(r)
    &&& forall|r: RetainedView|
        (!m.retain || r.message.topic != m.topic) && b.retained.contains(r) && !expired_spec(
            r.message,
            now,
        ) ==> #[trigger] next.retained.contains(r)
}

proof fn lemma_took(b: BrokerView, limits: Limits, now: i64, key: KeyView, m: MessageView)
    requires
        tidy(b, limits),
        publish(b, limits, now, key.device.tenant, Some(key), m).1 is Ok,
    ensures
        took(b, publish(b, limits, now, key.device.tenant, Some(key), m).0, limits, now, key, m),
{
    assert(distinct(b.retained, topic_of())) by {
        reveal(retained_tidy);
    }
    law_published_message_is_retained_if_it_says_so(
        b,
        limits,
        now,
        key.device.tenant,
        Some(key),
        m,
    );
}

/// A PUBLISH that is delivered at most or at least once and that the device may make is taken by
/// the broker as the packet has it, with its topic, payload, quality of service and retain flag,
/// and handed on so; only one that clears a retained message is not handed on. Where the device
/// may not make it, or the broker refuses it, the connection fails.
pub proof fn law_publish_takes_effect_as_sent(
    b: BrokerView,
    limits: Limits,
    now: i64,
    e: EndpointView,
    topic: Seq<char>,
    payload: Seq<u8>,
    qos: u8,
    packet_id: Option<u16>,
    retain: bool,
    dup: bool,
)
    requires
        tidy(b, limits),
        qos < 2,
    ensures
        ({
            let m = bare(topic, payload, qos, retain);
            let key = e.attachment.key;
            let (next, step) = v311::packet_step(
                b,
                limits,
                now,
                e,
                plain::PacketView::Publish { topic, payload, qos, packet_id, retain, dup },
            );
            let allowed = publish_acl_spec(e.device, e.permissions, topic) is Ok;
            let clears = retain && payload.len() == 0;
            &&& step is Fail <==> !allowed || publish(
                b,
                limits,
                now,
                key.device.tenant,
                Some(key),
                m,
            ).1 is Err
            &&& !allowed ==> next == b
            &&& step !is Fail ==> took(b, next, limits, now, key, m)
            &&& step !is Fail && !clears ==> (step matches StepView::Ingest {
                message,
                pending,
                ..
            } && message == m && pending == match packet_id {
                Some(id) => Pending::Acknowledge { packet_id: id },
                None => Pending::Nothing,
            })
            &&& step !is Fail && clears ==> match packet_id {
                Some(id) => step == (StepView::Send { bytes: framed(0x40, short(id as nat)) }),
                None => step is Idle,
            }
        }),
{
    reveal(v311::packet_step);
    let m = bare(topic, payload, qos, retain);
    let key = e.attachment.key;
    if let Some(id) = packet_id {
        lemma_short(id, Seq::empty());
        law_packets_are_framed(0x40, short(id as nat));
    }
    if publish(b, limits, now, key.device.tenant, Some(key), m).1 is Ok {
        lemma_took(b, limits, now, key, m);
    }
}

/// A PUBLISH that is delivered exactly once is looked at, and taken, as the packet has it; one
/// that is held already is only answered again.
pub proof fn law_publish_exactly_once_is_taken_as_sent(
    b: BrokerView,
    limits: Limits,
    now: i64,
    e: EndpointView,
    topic: Seq<char>,
    payload: Seq<u8>,
    id: u16,
    retain: bool,
    dup: bool,
)
    ensures
        ({
            let m = bare(topic, payload, 2, retain);
            let (next, step) = v311::packet_step(
                b,
                limits,
                now,
                e,
                plain::PacketView::Publish {
                    topic,
                    payload,
                    qos: 2,
                    packet_id: Some(id),
                    retain,
                    dup,
                },
            );
            let known = classify(b, e.attachment.key, e.attachment.generation, id);
            let kept = accept_inbound(
                b,
                limits,
                e.attachment.key,
                e.attachment.generation,
                id,
                m,
            );
            match known {
                Err(_) => step is Fail && next == b,
                Ok(InboundQos2PublishState::IdentifierInUse) => step is Fail && next == b,
                Ok(InboundQos2PublishState::ExistingTransaction) => {
                    &&& next == b
                    &&& step == (StepView::Send { bytes: framed(0x50, short(id as nat)) })
                },
                Ok(InboundQos2PublishState::NeedsNewMessageAdmission) => if publish_acl_spec(
                    e.device,
                    e.permissions,
                    topic,
                ) is Err {
                    step is Fail && next == b
                } else if retain && payload.len() == 0 {
                    &&& next == kept.0
                    &&& kept.1 is Err ==> step is Fail
                    &&& kept.1 is Ok ==> step == (StepView::Send {
                        bytes: framed(0x50, short(id as nat)),
                    })
                } else {
                    &&& next == b
                    &&& step matches StepView::Validate { message, packet_id, .. } && message == m
                        && packet_id == id
                },
            }
        }),
{
    reveal(v311::packet_step);
    lemma_short(id, Seq::empty());
    law_packets_are_framed(0x50, short(id as nat));
}

/// A message as a packet of the newer protocol has it. How long it is worth delivering counts from
/// now.
pub open spec fn dressed(
    topic: Seq<char>,
    payload: Seq<u8>,
    qos: u8,
    retain: bool,
    properties: modern::PropertiesView,
    now: i64,
) -> MessageView {
    MessageView {
        topic,
        payload,
        qos,
        retain,
        properties: PropsView {
            payload_format: properties.payload_format,
            expires_at_ms: match properties.message_expiry {
                Some(seconds) => Some(
                    if now + 1000 * seconds <= i64::MAX {
                        (now + 1000 * seconds) as i64
                    } else {
                        i64::MAX
                    },
                ),
                None => None,
            },
            content_type: properties.content_type,
            response_topic: properties.response_topic,
            correlation_data: properties.correlation_data,
            user_properties: properties.user_properties,
        },
    }
}

/// The same for the newer protocol, whose messages have properties: at most or at least once.
pub proof fn law_v5_publish_takes_effect_as_sent(
    b: BrokerView,
    limits: Limits,
    now: i64,
    e: EndpointView,
    topic: Seq<char>,
    payload: Seq<u8>,
    qos: u8,
    packet_id: Option<u16>,
    retain: bool,
    dup: bool,
    properties: modern::PropertiesView,
)
    requires
        tidy(b, limits),
        qos < 2,
    ensures
        ({
            let m = dressed(topic, payload, qos, retain, properties, now);
            let key = e.attachment.key;
            let (next, step) = v5::packet_step(
                b,
                limits,
                now,
                e,
                modern::PacketView::Publish {
                    topic,
                    payload,
                    qos,
                    packet_id,
                    retain,
                    dup,
                    properties,
                },
            );
            let allowed = publish_acl_spec(e.device, e.permissions, topic) is Ok;
            let room = qos == 0 || (packet_id matches Some(id) && receive_available(
                b,
                limits,
                key,
                e.attachment.generation,
                qos,
                id,
            ) == Ok::<bool, Error>(true));
            let clears = retain && payload.len() == 0;
            let accepted = allowed && room && publish(
                b,
                limits,
                now,
                key.device.tenant,
                Some(key),
                m,
            ).1 is Ok;
            &&& !accepted ==> step is Fail
            &&& !allowed || !room ==> next == b
            &&& accepted ==> took(b, next, limits, now, key, m)
            &&& accepted && !clears ==> (step matches StepView::Ingest { message, pending, .. }
                && message == m && pending == match packet_id {
                Some(id) => Pending::Acknowledge { packet_id: id },
                None => Pending::Nothing,
            })
        }),
{
    reveal(v5::packet_step);
    let m = dressed(topic, payload, qos, retain, properties, now);
    let key = e.attachment.key;
    if publish(b, limits, now, key.device.tenant, Some(key), m).1 is Ok {
        lemma_took(b, limits, now, key, m);
    }
}

/// The same for the newer protocol: exactly once.
pub proof fn law_v5_publish_exactly_once_is_taken_as_sent(
    b: BrokerView,
    limits: Limits,
    now: i64,
    e: EndpointView,
    topic: Seq<char>,
    payload: Seq<u8>,
    id: u16,
    retain: bool,
    dup: bool,
    properties: modern::PropertiesView,
)
    ensures
        ({
            let m = dressed(topic, payload, 2, retain, properties, now);
            let key = e.attachment.key;
            let generation = e.attachment.generation;
            let (next, step) = v5::packet_step(
                b,
                limits,
                now,
                e,
                modern::PacketView::Publish {
                    topic,
                    payload,
                    qos: 2,
                    packet_id: Some(id),
                    retain,
                    dup,
                    properties,
                },
            );
            let known = authorized(b, e.device, e.permissions, key, generation, id, topic);
            let room = receive_available(b, limits, key, generation, 2, id);
            let kept = accept_inbound(b, limits, key, generation, id, m);
            if known is Err {
                step is Fail && next == b
            } else if known == Ok::<InboundQos2PublishState, Error>(
                InboundQos2PublishState::ExistingTransaction,
            ) {
                next == b
            } else if room != Ok::<bool, Error>(true) {
                step is Fail && next == b
            } else {
                &&& next == kept.0
                &&& kept.1 is Err && kept.1 != Err::<bool, Error>(Error::Invalid) ==> step is Fail
            }
        }),
{
    reveal(v5::packet_step);
}

/// One subscription that a client asks for is refused where the device may not make it, with
/// nothing changed. Else it is granted at the quality of service asked for and stands, or it is
/// refused by the broker. The code says which: the quality of service or a number that is none.
pub open spec fn answered(
    b: BrokerView,
    next: BrokerView,
    limits: Limits,
    now: i64,
    e: EndpointView,
    filter: Seq<char>,
    subscription: Subscription,
    code: u8,
) -> bool {
    let key = e.attachment.key;
    let (state, outcome) = subscribe_spec(
        b,
        limits,
        now,
        key,
        e.attachment.generation,
        filter,
        subscription,
    );
    if !subscribe_acl_spec(e.device, e.permissions, filter, limits) {
        next == b && code >= 0x80
    } else {
        &&& next == state
        &&& outcome is Err <==> code >= 0x80
        &&& outcome is Ok ==> {
            &&& code == subscription.qos
            &&& held(next, key) matches Some(s) && lookup(s.subscriptions, filter) == Some(
                subscription,
            )
        }
    }
}

proof fn lemma_answered(
    b: BrokerView,
    limits: Limits,
    now: i64,
    e: EndpointView,
    filter: Seq<char>,
    subscription: Subscription,
    code: u8,
)
    requires
        tidy(b, limits),
        code == match subscribe_spec(
            b,
            limits,
            now,
            e.attachment.key,
            e.attachment.generation,
            filter,
            subscription,
        ).1 {
            Ok(qos) => qos,
            Err(_) => code,
        },
        code >= 0x80 || subscribe_spec(
            b,
            limits,
            now,
            e.attachment.key,
            e.attachment.generation,
            filter,
            subscription,
        ).1 is Ok,
        subscribe_acl_spec(e.device, e.permissions, filter, limits),
    ensures
        ({
            let next = subscribe_spec(
                b,
                limits,
                now,
                e.attachment.key,
                e.attachment.generation,
                filter,
                subscription,
            ).0;
            &&& tidy(next, limits)
            &&& answered(b, next, limits, now, e, filter, subscription, code)
        }),
{
    lemma_subscribe_tidy(
        b,
        limits,
        now,
        e.attachment.key,
        e.attachment.generation,
        filter,
        subscription,
    );
    law_subscription_stands(
        b,
        limits,
        now,
        e.attachment.key,
        e.attachment.generation,
        filter,
        subscription,
    );
}

/// The subscriptions of a packet are made one after the other, each with its answer.
pub open spec fn answered_in_turn(
    states: Seq<BrokerView>,
    limits: Limits,
    now: i64,
    e: EndpointView,
    filters: Seq<(Seq<char>, u8)>,
    codes: Seq<u8>,
) -> bool {
    &&& states.len() == filters.len() + 1
    &&& codes.len() == filters.len()
    &&& forall|k: int|
        0 <= k < filters.len() ==> answered(
            states[k],
            states[k + 1],
            limits,
            now,
            e,
            #[trigger] filters[k].0,
            Subscription {
                qos: filters[k].1,
                no_local: false,
                retain_as_published: false,
                retain_handling: 0,
            },
            codes[k],
        )
}

proof fn lemma_in_turn(
    b: BrokerView,
    limits: Limits,
    now: i64,
    e: EndpointView,
    filters: Seq<(Seq<char>, u8)>,
    n: nat,
) -> (states: Seq<BrokerView>)
    requires
        tidy(b, limits),
        n <= filters.len(),
    ensures
        ({
            let (next, codes) = v311::subscribed(b, limits, now, e, filters, n);
            &&& tidy(next, limits)
            &&& states.len() == n + 1
            &&& states[0] == b
            &&& states.last() == next
            &&& answered_in_turn(states, limits, now, e, filters.take(n as int), codes)
        }),
    decreases n,
{
    if n == 0 {
        seq![b]
    } else {
        let states = lemma_in_turn(b, limits, now, e, filters, (n - 1) as nat);
        let (before, given) = v311::subscribed(b, limits, now, e, filters, (n - 1) as nat);
        let (next, codes) = v311::subscribed(b, limits, now, e, filters, n);
        let (filter, qos) = filters[n - 1];
        let subscription = Subscription {
            qos,
            no_local: false,
            retain_as_published: false,
            retain_handling: 0,
        };
        if subscribe_acl_spec(e.device, e.permissions, filter, limits) {
            lemma_answered(before, limits, now, e, filter, subscription, codes[n - 1]);
        }
        let all = states.push(next);
        let fewer = filters.take(n - 1);
        let more = filters.take(n as int);
        assert forall|k: int| 0 <= k < more.len() implies answered(
            all[k],
            all[k + 1],
            limits,
            now,
            e,
            #[trigger] more[k].0,
            Subscription {
                qos: more[k].1,
                no_local: false,
                retain_as_published: false,
                retain_handling: 0,
            },
            codes[k],
        ) by {
            if k < n - 1 {
                assert(fewer[k] == more[k]);
                assert(codes[k] == given[k]);
                assert(answered(
                    states[k],
                    states[k + 1],
                    limits,
                    now,
                    e,
                    fewer[k].0,
                    Subscription {
                        qos: fewer[k].1,
                        no_local: false,
                        retain_as_published: false,
                        retain_handling: 0,
                    },
                    given[k],
                ));
            }
        }
        all
    }
}

/// A SUBSCRIBE is answered with one code for each filter, in their order: the quality of service
/// that was asked for where the subscription stands now, and a refusal where not.
pub proof fn law_subscribe_is_answered_in_turn(
    b: BrokerView,
    limits: Limits,
    now: i64,
    e: EndpointView,
    id: u16,
    filters: Seq<(Seq<char>, u8)>,
) -> (made: (Seq<BrokerView>, Seq<u8>))
    requires
        tidy(b, limits),
    ensures
        ({
            let (states, codes) = made;
            let (next, step) = v311::packet_step(
                b,
                limits,
                now,
                e,
                plain::PacketView::Subscribe { packet_id: id, filters },
            );
            let body = short(id as nat) + codes;
            &&& answered_in_turn(states, limits, now, e, filters, codes)
            &&& states[0] == b
            &&& states.last() == next
            &&& step matches StepView::Announce { bytes, .. } ==> bytes == framed(0x90, body)
            &&& step is Announce <==> carried(0x90, body, limits)
            &&& step !is Announce ==> step is Fail
        }),
{
    reveal(v311::packet_step);
    let states = lemma_in_turn(b, limits, now, e, filters, filters.len());
    let (next, codes) = v311::subscribed(b, limits, now, e, filters, filters.len());
    assert(filters.take(filters.len() as int) =~= filters);
    lemma_short(id, Seq::empty());
    let body = short(id as nat) + codes;
    lemma_fits(0x90, body, limits);
    if body.len() <= 268_435_455 {
        law_packets_are_framed(0x90, body);
    }
    (states, codes)
}

/// A packet fits exactly if the format and the limits allow its size.
proof fn lemma_fits(first: u8, body: Seq<u8>, limits: Limits)
    ensures
        packet_fits(body.len(), limits.max_mqtt_packet_size as nat) <==> carried(
            first,
            body,
            limits,
        ),
{
    if body.len() <= 268_435_455 {
        law_packets_are_framed(first, body);
    }
}

/// The subscriptions of a packet of the newer protocol, with their options.
pub open spec fn answered_in_turn_v5(
    states: Seq<BrokerView>,
    limits: Limits,
    now: i64,
    e: EndpointView,
    filters: Seq<(Seq<char>, modern::SubscriptionOptions)>,
    codes: Seq<u8>,
) -> bool {
    &&& states.len() == filters.len() + 1
    &&& codes.len() == filters.len()
    &&& forall|k: int|
        0 <= k < filters.len() ==> answered(
            states[k],
            states[k + 1],
            limits,
            now,
            e,
            #[trigger] filters[k].0,
            Subscription {
                qos: filters[k].1.qos,
                no_local: filters[k].1.no_local,
                retain_as_published: filters[k].1.retain_as_published,
                retain_handling: filters[k].1.retain_handling,
            },
            codes[k],
        )
}

proof fn lemma_in_turn_v5(
    b: BrokerView,
    limits: Limits,
    now: i64,
    e: EndpointView,
    filters: Seq<(Seq<char>, modern::SubscriptionOptions)>,
    n: nat,
) -> (states: Seq<BrokerView>)
    requires
        tidy(b, limits),
        n <= filters.len(),
    ensures
        ({
            let (next, codes, stopped) = v5::subscribed(b, limits, now, e, filters, n);
            &&& tidy(next, limits)
            &&& stopped is None
            &&& states.len() == n + 1
            &&& states[0] == b
            &&& states.last() == next
            &&& answered_in_turn_v5(states, limits, now, e, filters.take(n as int), codes)
        }),
    decreases n,
{
    if n == 0 {
        seq![b]
    } else {
        let states = lemma_in_turn_v5(b, limits, now, e, filters, (n - 1) as nat);
        let (before, given, _) = v5::subscribed(b, limits, now, e, filters, (n - 1) as nat);
        let (filter, options) = filters[n - 1];
        let subscription = Subscription {
            qos: options.qos,
            no_local: options.no_local,
            retain_as_published: options.retain_as_published,
            retain_handling: options.retain_handling,
        };
        law_subscription_stands(
            before,
            limits,
            now,
            e.attachment.key,
            e.attachment.generation,
            filter,
            subscription,
        );
        let (next, codes, stopped) = v5::subscribed(b, limits, now, e, filters, n);
        if subscribe_acl_spec(e.device, e.permissions, filter, limits) {
            lemma_answered(before, limits, now, e, filter, subscription, codes[n - 1]);
        }
        let all = states.push(next);
        let fewer = filters.take(n - 1);
        let more = filters.take(n as int);
        assert forall|k: int| 0 <= k < more.len() implies answered(
            all[k],
            all[k + 1],
            limits,
            now,
            e,
            #[trigger] more[k].0,
            Subscription {
                qos: more[k].1.qos,
                no_local: more[k].1.no_local,
                retain_as_published: more[k].1.retain_as_published,
                retain_handling: more[k].1.retain_handling,
            },
            codes[k],
        ) by {
            if k < n - 1 {
                assert(fewer[k] == more[k]);
                assert(codes[k] == given[k]);
                assert(answered(
                    states[k],
                    states[k + 1],
                    limits,
                    now,
                    e,
                    fewer[k].0,
                    Subscription {
                        qos: fewer[k].1.qos,
                        no_local: fewer[k].1.no_local,
                        retain_as_published: fewer[k].1.retain_as_published,
                        retain_handling: fewer[k].1.retain_handling,
                    },
                    given[k],
                ));
            }
        }
        all
    }
}

/// The same for the newer protocol, whose subscriptions have options; its answer has no
/// properties, and is sent if the client takes a packet of its size.
pub proof fn law_v5_subscribe_is_answered_in_turn(
    b: BrokerView,
    limits: Limits,
    now: i64,
    e: EndpointView,
    id: u16,
    filters: Seq<(Seq<char>, modern::SubscriptionOptions)>,
    properties: modern::PropertiesView,
) -> (made: (Seq<BrokerView>, Seq<u8>))
    requires
        tidy(b, limits),
    ensures
        ({
            let (states, codes) = made;
            let (next, step) = v5::packet_step(
                b,
                limits,
                now,
                e,
                modern::PacketView::Subscribe { packet_id: id, filters, properties },
            );
            let body = short(id as nat) + seq![0u8] + codes;
            &&& answered_in_turn_v5(states, limits, now, e, filters, codes)
            &&& states[0] == b
            &&& states.last() == next
            &&& step matches StepView::Send { bytes } ==> bytes == framed(0x90, body)
            &&& step is Send <==> carried(0x90, body, limits) && framed(0x90, body).len()
                <= e.wire.maximum
            &&& step !is Send ==> step is Fail
        }),
{
    reveal(v5::packet_step);
    let states = lemma_in_turn_v5(b, limits, now, e, filters, filters.len());
    let (next, codes, _) = v5::subscribed(b, limits, now, e, filters, filters.len());
    assert(filters.take(filters.len() as int) =~= filters);
    lemma_short(id, Seq::empty());
    let body = short(id as nat) + seq![0u8] + codes;
    lemma_fits(0x90, body, limits);
    if body.len() <= 268_435_455 {
        law_packets_are_framed(0x90, body);
    }
    (states, codes)
}

/// One filter is ended: it is not among the subscriptions afterwards.
pub open spec fn ended_one(
    b: BrokerView,
    next: BrokerView,
    limits: Limits,
    now: i64,
    e: EndpointView,
    filter: Seq<char>,
) -> bool {
    let key = e.attachment.key;
    &&& unsubscribe_spec(b, limits, now, key, e.attachment.generation, filter).0 == next
    &&& held(b, key) is Some ==> held(next, key) is Some && lookup(
        held(next, key)->0.subscriptions,
        filter,
    ) is None
}

/// The filters of a packet are ended one after the other, and none of them is subscribed to right
/// after its turn.
pub open spec fn ended_in_turn(
    states: Seq<BrokerView>,
    limits: Limits,
    now: i64,
    e: EndpointView,
    filters: Seq<Seq<char>>,
) -> bool {
    &&& states.len() == filters.len() + 1
    &&& forall|k: int|
        0 <= k < filters.len() ==> ended_one(
            states[k],
            states[k + 1],
            limits,
            now,
            e,
            #[trigger] filters[k],
        )
}

proof fn lemma_ended_in_turn(
    b: BrokerView,
    limits: Limits,
    now: i64,
    e: EndpointView,
    filters: Seq<Seq<char>>,
    n: nat,
) -> (states: Seq<BrokerView>)
    requires
        tidy(b, limits),
        n <= filters.len(),
        v311::unsubscribed(b, limits, now, e, filters, n).1 is None,
    ensures
        ({
            let next = v311::unsubscribed(b, limits, now, e, filters, n).0;
            &&& tidy(next, limits)
            &&& states.len() == n + 1
            &&& states[0] == b
            &&& states.last() == next
            &&& ended_in_turn(states, limits, now, e, filters.take(n as int))
        }),
    decreases n,
{
    if n == 0 {
        seq![b]
    } else {
        let states = lemma_ended_in_turn(b, limits, now, e, filters, (n - 1) as nat);
        let before = v311::unsubscribed(b, limits, now, e, filters, (n - 1) as nat).0;
        let next = v311::unsubscribed(b, limits, now, e, filters, n).0;
        let key = e.attachment.key;
        let generation = e.attachment.generation;
        lemma_unsubscribe_tidy(before, limits, now, key, generation, filters[n - 1]);
        law_ended_subscription_is_gone(before, limits, now, key, generation, filters[n - 1]);
        let all = states.push(next);
        let fewer = filters.take(n - 1);
        let more = filters.take(n as int);
        assert forall|k: int| 0 <= k < more.len() implies ended_one(
            all[k],
            all[k + 1],
            limits,
            now,
            e,
            #[trigger] more[k],
        ) by {
            if k < n - 1 {
                assert(fewer[k] == more[k]);
            }
        }
        all
    }
}

/// An UNSUBSCRIBE that is answered has ended each of its subscriptions, and is answered with its
/// identifier.
pub proof fn law_unsubscribe_ends_what_it_names(
    b: BrokerView,
    limits: Limits,
    now: i64,
    e: EndpointView,
    id: u16,
    filters: Seq<Seq<char>>,
) -> (states: Seq<BrokerView>)
    requires
        tidy(b, limits),
    ensures
        ({
            let (next, step) = v311::packet_step(
                b,
                limits,
                now,
                e,
                plain::PacketView::Unsubscribe { packet_id: id, filters },
            );
            &&& step !is Fail ==> {
                &&& step matches StepView::Announce { bytes, .. } && bytes == framed(
                    0xb0,
                    short(id as nat),
                )
                &&& ended_in_turn(states, limits, now, e, filters)
                &&& states[0] == b
                &&& states.last() == next
            }
        }),
{
    reveal(v311::packet_step);
    lemma_short(id, Seq::empty());
    law_packets_are_framed(0xb0, short(id as nat));
    assert(filters.take(filters.len() as int) =~= filters);
    if v311::unsubscribed(b, limits, now, e, filters, filters.len()).1 is None {
        lemma_ended_in_turn(b, limits, now, e, filters, filters.len())
    } else {
        Seq::empty()
    }
}

proof fn lemma_ended_in_turn_v5(
    b: BrokerView,
    limits: Limits,
    now: i64,
    e: EndpointView,
    filters: Seq<Seq<char>>,
    n: nat,
) -> (states: Seq<BrokerView>)
    requires
        tidy(b, limits),
        n <= filters.len(),
        v5::unsubscribed(b, limits, now, e, filters, n).2 is None,
    ensures
        ({
            let (next, codes, _) = v5::unsubscribed(b, limits, now, e, filters, n);
            &&& tidy(next, limits)
            &&& states.len() == n + 1
            &&& states[0] == b
            &&& states.last() == next
            &&& codes.len() == n
            &&& ended_in_turn(states, limits, now, e, filters.take(n as int))
            &&& tells_what_there_was(states, e, filters.take(n as int), codes)
        }),
    decreases n,
{
    if n == 0 {
        seq![b]
    } else {
        let states = lemma_ended_in_turn_v5(b, limits, now, e, filters, (n - 1) as nat);
        let (before, given, _) = v5::unsubscribed(b, limits, now, e, filters, (n - 1) as nat);
        let (next, codes, _) = v5::unsubscribed(b, limits, now, e, filters, n);
        let key = e.attachment.key;
        let generation = e.attachment.generation;
        lemma_unsubscribe_tidy(before, limits, now, key, generation, filters[n - 1]);
        law_ended_subscription_is_gone(before, limits, now, key, generation, filters[n - 1]);
        let all = states.push(next);
        let fewer = filters.take(n - 1);
        let more = filters.take(n as int);
        assert forall|k: int| 0 <= k < more.len() implies ended_one(
            all[k],
            all[k + 1],
            limits,
            now,
            e,
            #[trigger] more[k],
        ) by {
            if k < n - 1 {
                assert(fewer[k] == more[k]);
            }
        }
        assert forall|k: int| 0 <= k < more.len() implies (held(all[k], key) matches Some(s)
            ==> codes[k] == (if lookup(s.subscriptions, #[trigger] more[k]) is Some {
            0u8
        } else {
            0x11u8
        })) by {
            if k < n - 1 {
                assert(fewer[k] == more[k]);
                assert(codes[k] == given[k]);
            }
        }
        all
    }
}

/// Each code tells whether there was a subscription.
pub open spec fn tells_what_there_was(
    states: Seq<BrokerView>,
    e: EndpointView,
    filters: Seq<Seq<char>>,
    codes: Seq<u8>,
) -> bool {
    forall|k: int|
        0 <= k < filters.len() ==> (held(states[k], e.attachment.key) matches Some(s) ==> codes[k]
            == (if lookup(s.subscriptions, #[trigger] filters[k]) is Some {
            0u8
        } else {
            0x11u8
        }))
}

/// The same for the newer protocol, whose answer tells of each filter whether it was subscribed to.
pub proof fn law_v5_unsubscribe_ends_what_it_names(
    b: BrokerView,
    limits: Limits,
    now: i64,
    e: EndpointView,
    id: u16,
    filters: Seq<Seq<char>>,
    properties: modern::PropertiesView,
) -> (made: (Seq<BrokerView>, Seq<u8>))
    requires
        tidy(b, limits),
    ensures
        ({
            let (states, codes) = made;
            let (next, step) = v5::packet_step(
                b,
                limits,
                now,
                e,
                modern::PacketView::Unsubscribe { packet_id: id, filters, properties },
            );
            &&& step !is Fail ==> {
                &&& step matches StepView::Send { bytes } && bytes == framed(
                    0xb0,
                    short(id as nat) + seq![0u8] + codes,
                )
                &&& codes.len() == filters.len()
                &&& ended_in_turn(states, limits, now, e, filters)
                &&& tells_what_there_was(states, e, filters, codes)
                &&& states[0] == b
                &&& states.last() == next
            }
        }),
{
    reveal(v5::packet_step);
    lemma_short(id, Seq::empty());
    let (next, codes, stopped) = v5::unsubscribed(b, limits, now, e, filters, filters.len());
    let body = short(id as nat) + seq![0u8] + codes;
    if body.len() <= 268_435_455 {
        law_packets_are_framed(0xb0, body);
    }
    assert(filters.take(filters.len() as int) =~= filters);
    if stopped is None {
        (lemma_ended_in_turn_v5(b, limits, now, e, filters, filters.len()), codes)
    } else {
        (Seq::empty(), codes)
    }
}

/// A message that was handed on is answered as it is to be: not at all, with an acknowledgement of
/// its identifier, or with the completion of the exchange once it is routed. One that could not be
/// handed on ends the connection, and is not lost if it is to be delivered exactly once.
pub proof fn law_handed_on_message_is_answered(
    b: BrokerView,
    limits: Limits,
    now: i64,
    e: EndpointView,
    pending: Pending,
    refused: Option<Error>,
)
    ensures
        ({
            let (next, step) = v311::handed_on(b, limits, now, e, pending, refused);
            match (pending, refused) {
                (Pending::Nothing, None) => step is Idle && next == b,
                (Pending::Acknowledge { packet_id }, None) => {
                    &&& step == (StepView::Send { bytes: framed(0x40, short(packet_id as nat)) })
                    &&& next == b
                },
                (Pending::Release { session_incarnation, packet_id, operation_id }, None) => {
                    let (done, finished) = finish_delivery(
                        b,
                        e.attachment.key,
                        session_incarnation,
                        packet_id,
                        operation_id,
                    );
                    let (last, routed) = route_inbound(
                        done,
                        limits,
                        now,
                        e.attachment.key,
                        session_incarnation,
                        packet_id,
                        operation_id,
                        e.device.tenant,
                    );
                    &&& finished is Err ==> step is Fail && next == done
                    &&& finished is Ok ==> next == last
                    &&& finished is Ok && routed is Err ==> step is Fail
                    &&& finished is Ok && routed is Ok ==> step == (StepView::Send {
                        bytes: framed(0x70, short(packet_id as nat)),
                    })
                },
                (
                    Pending::Release { session_incarnation, packet_id, operation_id },
                    Some(error),
                ) => {
                    &&& step is Fail
                    &&& next == abandon_delivery(
                        b,
                        e.attachment.key,
                        session_incarnation,
                        packet_id,
                        operation_id,
                    ).0
                },
                (_, Some(error)) => step is Fail && next == b,
            }
        }),
{
    match pending {
        Pending::Acknowledge { packet_id } => {
            lemma_short(packet_id, Seq::empty());
            law_packets_are_framed(0x40, short(packet_id as nat));
        },
        Pending::Release { packet_id, .. } => {
            lemma_short(packet_id, Seq::empty());
            law_packets_are_framed(0x70, short(packet_id as nat));
        },
        _ => {},
    }
}

/// The same for the newer protocol, where the completion also frees the client's window, and an
/// answer is sent only if the client takes a packet of its size.
pub proof fn law_v5_handed_on_message_is_answered(
    b: BrokerView,
    limits: Limits,
    now: i64,
    e: EndpointView,
    pending: Pending,
    refused: Option<Error>,
)
    ensures
        ({
            let (next, step) = v5::handed_on(b, limits, now, e, pending, refused);
            let fits = limits.max_mqtt_packet_size >= 4 && e.wire.maximum >= 4;
            match (pending, refused) {
                (Pending::Nothing, None) => step is Idle && next == b,
                (Pending::Acknowledge { packet_id }, None) => {
                    &&& next == b
                    &&& fits ==> step == (StepView::Send {
                        bytes: framed(0x40, short(packet_id as nat)),
                    })
                    &&& !fits ==> step is Fail
                },
                (Pending::Release { session_incarnation, packet_id, operation_id }, None) => {
                    let (done, finished) = finish_delivery(
                        b,
                        e.attachment.key,
                        session_incarnation,
                        packet_id,
                        operation_id,
                    );
                    let (last, routed) = route_inbound(
                        done,
                        limits,
                        now,
                        e.attachment.key,
                        session_incarnation,
                        packet_id,
                        operation_id,
                        e.device.tenant,
                    );
                    &&& finished is Err ==> step is Fail && next == done
                    &&& finished is Ok ==> next == last
                    &&& finished is Ok && (routed is Err || !fits) ==> step is Fail
                    &&& finished is Ok && routed is Ok && fits ==> step == (StepView::Settle {
                        bytes: framed(0x70, short(packet_id as nat)),
                        packet_id,
                    })
                },
                (
                    Pending::Release { session_incarnation, packet_id, operation_id },
                    Some(error),
                ) => {
                    &&& step is Fail
                    &&& next == abandon_delivery(
                        b,
                        e.attachment.key,
                        session_incarnation,
                        packet_id,
                        operation_id,
                    ).0
                },
                (_, Some(error)) => step is Fail && next == b,
            }
        }),
{
    match pending {
        Pending::Acknowledge { packet_id } => {
            lemma_short(packet_id, Seq::empty());
            law_packets_are_framed(0x40, short(packet_id as nat));
            lemma_fits(0x40, short(packet_id as nat), limits);
        },
        Pending::Release { packet_id, .. } => {
            lemma_short(packet_id, Seq::empty());
            law_packets_are_framed(0x70, short(packet_id as nat));
            lemma_fits(0x70, short(packet_id as nat), limits);
        },
        _ => {},
    }
}

} // verus!
