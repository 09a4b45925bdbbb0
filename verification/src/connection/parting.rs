//! What is written to a client, and what becomes of its will when it leaves.
use super::frame::{attempt_v311, attempt_v5, send_v5};
use super::promise::held_will;
use super::step::{will_settled, EndpointView, StepView};
use super::{v311, v5};
use crate::broker::carry::holder;
use crate::broker::exchange::only_changed;
use crate::broker::law::law_routing_keeps_the_wills;
use crate::broker::model::{
    guard_at, guard_is, owns, session_at, touch_session, BrokerView, DelayView, FrameView,
    GuardView, WillView,
};
use crate::broker::replay::lemma_same_places;
use crate::broker::route::route_message;
use crate::broker::tidy::{guard_token, guards_tidy, lemma_positions, tidy};
use crate::broker::turnover::held;
use crate::broker::wills::{prolonged_will, publish_held, settle_will, without_guard};
use crate::codec::common::packet_fits;
use crate::codec::layout::{
    framed, law_packets_are_framed, lemma_field, lemma_publish_head, lemma_short, publish_head,
    publish_layout, short,
};
use crate::codec::{v311 as plain, v5 as modern, MqttVersion};
use crate::error::Error;
use crate::identity::KeyView;
use crate::limits::Limits;
use crate::list::{distinct, is_first, lemma_distinct_remove, lemma_first, lemma_first_none};
use crate::message::{expired_spec, MessageView};
use crate::session::{no_reservation, SessionView};
use vstd::prelude::*;
use vstd::utf8::encode_utf8;

verus! {

/// The message of a will as it is published: as it was held, and worth delivering for so many
/// seconds from now.
pub open spec fn published_as(m: MessageView, will: WillView, now: i64) -> bool {
    let w = will.message;
    &&& m.topic == w.topic
    &&& m.payload == w.payload
    &&& m.qos == w.qos
    &&& m.retain == w.retain
    &&& m.properties.payload_format == w.properties.payload_format
    &&& m.properties.content_type == w.properties.content_type
    &&& m.properties.response_topic == w.properties.response_topic
    &&& m.properties.correlation_data == w.properties.correlation_data
    &&& m.properties.user_properties == w.properties.user_properties
    &&& m.properties.expires_at_ms == match will.message_expiry_interval {
        Some(seconds) => Some(
            if now + 1000 * seconds <= i64::MAX {
                (now + 1000 * seconds) as i64
            } else {
                i64::MAX
            },
        ),
        None => w.properties.expires_at_ms,
    }
}

/// A will does not wait: it was not to, its session was not to outlive the connection, or the
/// session is gone.
pub open spec fn at_once(b: BrokerView, g: GuardView) -> bool {
    match g.delay {
        None => true,
        Some(d) => d.delay == 0 || d.session_expiry == 0 || (match held(b, d.key) {
            Some(s) => s.incarnation != d.incarnation,
            None => true,
        }),
    }
}

/// Another connection holds the session that a will waits for.
pub open spec fn taken_up(b: BrokerView, g: GuardView) -> bool {
    g.delay matches Some(d) && holder(b, d.key) matches Some(l) && l.generation != d.generation
}

proof fn lemma_given_up(b: BrokerView, token: u64)
    requires
        distinct(b.guards, guard_token()),
    ensures
        held_will(without_guard(b, token), token) is None,
{
    let p = guard_is(token);
    lemma_first(b.guards, p);
    let next = without_guard(b, token);
    if let Some(k) = guard_at(b, token) {
        lemma_distinct_remove(b.guards, k, guard_token());
        assert forall|m: int| 0 <= m < next.guards.len() implies !p(#[trigger] next.guards[m]) by {
            assert(guard_token()(b.guards.remove(k)[m]) != guard_token()(b.guards[k]));
        }
        lemma_first_none(next.guards, p);
    }
}

/// The will of a lost connection is published at once and exactly as it was held, unless it is to
/// wait and its session goes on; then it waits as long as it was to, at most as long as the
/// session is kept, or is given up if another connection holds the session already. In any case
/// the connection no longer answers for it. One that finds no room stays with the broker.
pub proof fn law_will_of_a_lost_connection(
    b: BrokerView,
    limits: Limits,
    now: i64,
    token: u64,
) -> (tried: BrokerView)
    requires
        tidy(b, limits),
        held_will(b, token) is Some,
    ensures
        ({
            let g = held_will(b, token)->0;
            let (next, outcome) = settle_will(b, limits, now, token);
            &&& held_will(next, token) is None
            &&& if at_once(b, g) {
                &&& outcome matches Ok(Some(m)) && published_as(m, g.will, now) && {
                    let (routed, reached) = route_message(
                        tried,
                        limits,
                        now,
                        g.will.owner.tenant,
                        g.will.origin,
                        m,
                    );
                    &&& next.sessions == routed.sessions
                    &&& next.links == routed.links
                    &&& next.retained == routed.retained
                    &&& reached is Ok ==> next.pending_wills == b.pending_wills
                    &&& reached is Err ==> next.pending_wills.len() == b.pending_wills.len() + 1
                        && next.pending_wills.last().message == m
                        && next.pending_wills.last().owner == g.will.owner
                        && next.pending_wills.last().origin == g.will.origin
                        && next.pending_wills.last().due_at_ms is None
                }
                &&& tried.sessions == b.sessions
                &&& tried.links == b.links
                &&& tried.trie == b.trie
                &&& tried.retained == b.retained
            } else {
                &&& outcome == Ok::<Option<MessageView>, Error>(None)
                &&& next.sessions == b.sessions
                &&& next.links == b.links
                &&& next.retained == b.retained
                &&& next.pending_wills == b.pending_wills
                &&& if taken_up(b, g) {
                    next.future_wills == b.future_wills
                } else {
                    let d = g.delay->0;
                    let wait = if d.delay <= d.session_expiry {
                        d.delay
                    } else {
                        d.session_expiry
                    };
                    &&& next.future_wills.len() == b.future_wills.len() + 1
                    &&& next.future_wills.drop_last() == b.future_wills
                    &&& next.future_wills.last().message == g.will.message
                    &&& next.future_wills.last().owner == g.will.owner
                    &&& next.future_wills.last().origin == g.will.origin
                    &&& next.future_wills.last().message_expiry_interval
                        == g.will.message_expiry_interval
                    &&& next.future_wills.last().cancel_on_resume == Some((d.key, d.incarnation))
                    &&& next.future_wills.last().due_at_ms == Some(
                        if now + 1000 * wait <= i64::MAX {
                            (now + 1000 * wait) as i64
                        } else {
                            i64::MAX
                        },
                    )
                }
            }
        }),
{
    reveal(settle_will);
    reveal(publish_held);
    assert(distinct(b.guards, guard_token())) by {
        assert(guards_tidy(b.guards, b.next_guard));
        reveal(guards_tidy);
    }
    let k = guard_at(b, token)->0;
    let g = b.guards[k];
    lemma_first(b.guards, guard_is(token));
    lemma_given_up(b, token);
    let tried = BrokerView {
        guards: b.guards.update(
            k,
            GuardView { will: WillView { reservation: no_reservation(), ..g.will }, ..g },
        ),
        ..b
    };
    if at_once(b, g) {
        let m = publish_held(b, limits, now, k).1;
        let next = route_message(tried, limits, now, g.will.owner.tenant, g.will.origin, m).0;
        law_routing_keeps_the_wills(tried, limits, now, g.will.owner.tenant, g.will.origin, m);
        assert(distinct(tried.guards, guard_token())) by {
            assert forall|x: int, y: int|
                0 <= x < tried.guards.len() && 0 <= y < tried.guards.len() && x
                    != y implies guard_token()(#[trigger] tried.guards[x]) != guard_token()(
                #[trigger] tried.guards[y],
            ) by {
                assert(guard_token()(b.guards[x]) != guard_token()(b.guards[y]));
            }
        }
        lemma_given_up(next, token);
    } else {
        let left = without_guard(b, token);
        assert(left.future_wills == b.future_wills);
        let next = settle_will(b, limits, now, token).0;
        if !taken_up(b, g) {
            assert(next.future_wills.drop_last() =~= b.future_wills);
        }
    }
    tried
}

/// After an orderly end the will is given up, and nothing is published.
pub proof fn law_orderly_end_publishes_nothing(
    b: BrokerView,
    limits: Limits,
    now: i64,
    version: MqttVersion,
    token: u64,
)
    requires
        tidy(b, limits),
    ensures
        ({
            let (next, outcome) = will_settled(b, limits, now, version, token, true);
            &&& outcome == Ok::<Option<MessageView>, Error>(None)
            &&& held_will(next, token) is None
            &&& next == (BrokerView { guards: next.guards, ..b })
        }),
{
    assert(distinct(b.guards, guard_token())) by {
        assert(guards_tidy(b.guards, b.next_guard));
        reveal(guards_tidy);
    }
    lemma_given_up(b, token);
}

/// A client that asks whether it is heard is told so, and a client that says goodbye is let go in
/// an orderly way.
pub proof fn law_plain_courtesies(b: BrokerView, limits: Limits, now: i64, e: EndpointView)
    ensures
        v311::packet_step(b, limits, now, e, plain::PacketView::Pingreq) == (
            b,
            StepView::Send { bytes: seq![0xd0u8, 0u8] },
        ),
        v311::packet_step(b, limits, now, e, plain::PacketView::Disconnect) == (
            b,
            StepView::Close { orderly: true },
        ),
{
    reveal(v311::packet_step);
}

/// A client of the newer protocol that says goodbye is let go in an orderly way only if its reason
/// is a normal one. It may say how long its session is kept from here on, if it is kept at all,
/// and its will waits no longer than that.
pub proof fn law_v5_goodbye_takes_effect(
    b: BrokerView,
    limits: Limits,
    now: i64,
    e: EndpointView,
    reason: u8,
    properties: modern::PropertiesView,
)
    requires
        held(b, e.attachment.key) is Some,
    ensures
        ({
            let key = e.attachment.key;
            let s = held(b, key)->0;
            let (next, step) = v5::packet_step(
                b,
                limits,
                now,
                e,
                modern::PacketView::Disconnect { reason, properties },
            );
            match properties.session_expiry {
                None => next == b && step == (StepView::Close { orderly: reason == 0 }),
                Some(interval) => if owns(b, key, e.attachment.generation) && s.version
                    == MqttVersion::V5 && (s.session_expiry_interval != 0 || interval == 0) {
                    &&& step == (StepView::Close { orderly: reason == 0 })
                    &&& only_changed(
                        b,
                        next,
                        key,
                        SessionView { session_expiry_interval: interval, ..s },
                    )
                    &&& e.will matches Some(token) ==> (held_will(b, token) matches Some(g) ==> {
                        &&& held_will(next, token) matches Some(g2) && g2.will == g.will && (
                        g.delay matches Some(d) ==> g2.delay == Some(
                            DelayView { session_expiry: interval, ..d },
                        ))
                    })
                } else {
                    step is Fail && next == b
                },
            }
        }),
{
    reveal(v5::packet_step);
    let key = e.attachment.key;
    let s = held(b, key)->0;
    lemma_positions(b, key);
    if let Some(interval) = properties.session_expiry {
        let i = session_at(b, key)->0;
        let s2 = SessionView { session_expiry_interval: interval, ..s };
        let changed = touch_session(b, i, s2);
        lemma_same_places(b, changed, i, key);
        let next = match e.will {
            Some(token) => prolonged_will(changed, token, interval),
            None => changed,
        };
        lemma_same_places(b, next, i, key);
        if let Some(token) = e.will {
            lemma_first(b.guards, guard_is(token));
            if let Some(k) = guard_at(b, token) {
                if b.guards[k].delay is Some {
                    assert forall|m: int| 0 <= m < k implies !guard_is(token)(
                        #[trigger] next.guards[m],
                    ) by {
                        assert(!guard_is(token)(b.guards[m]));
                    }
                    assert(is_first(next.guards, guard_is(token), k));
                    crate::list::lemma_first_is(next.guards, guard_is(token), k);
                }
            }
        }
    }
}

/// What is written to a client of the older protocol is the message itself, with its topic,
/// payload, quality of service, identifier and flags, or the release of an identifier. A message
/// that is delivered at most once is not written after its time.
pub proof fn law_message_is_written_as_it_is(
    b: BrokerView,
    limits: Limits,
    now: i64,
    key: KeyView,
    generation: u64,
    receiver: u64,
    frame: FrameView,
)
    ensures
        attempt_v311(b, limits, now, key, generation, receiver, frame).1 matches
            super::frame::AttemptView::Ready(bytes) ==> match frame {
            FrameView::Publish { message, packet_id, dup, .. } => {
                &&& bytes == framed(
                    publish_head(message.qos, message.retain, dup),
                    publish_layout(message.topic, packet_id, message.payload),
                )
                &&& packet_id is None ==> !expired_spec(message, now)
                &&& bytes.len() <= limits.max_mqtt_packet_size
            },
            FrameView::Pubrel { packet_id, .. } => bytes == framed(0x62, short(packet_id as nat)),
        },
{
    reveal(attempt_v311);
    match frame {
        FrameView::Publish { message, packet_id, dup, .. } => {
            if plain::publish_valid(message.topic, message.qos, packet_id, dup, limits) {
                let body = publish_layout(message.topic, packet_id, message.payload);
                lemma_publish_head(message.qos, message.retain, dup);
                lemma_field(encode_utf8(message.topic), Seq::empty(), 65_535);
                if let Some(id) = packet_id {
                    lemma_short(id, Seq::empty());
                }
                assert(plain::publish_body(message.topic, message.payload, packet_id) =~= body);
                if body.len() <= 268_435_455 {
                    law_packets_are_framed(publish_head(message.qos, message.retain, dup), body);
                }
            }
        },
        FrameView::Pubrel { packet_id, .. } => {
            lemma_short(packet_id, Seq::empty());
            law_packets_are_framed(0x62, short(packet_id as nat));
        },
    }
}

/// How many seconds a message is still worth delivering: the time left, counted up to whole
/// seconds.
pub open spec fn worth(seconds: u32, deadline: i64, now: i64) -> bool {
    if deadline <= now {
        seconds == 0
    } else {
        &&& 1000 * (seconds - 1) < deadline - now
        &&& deadline - now <= 1000 * seconds || seconds == u32::MAX
    }
}

/// What is written to a client of the newer protocol is read there as the message itself, with its
/// topic, payload, quality of service, identifier, flags and properties, and with the time that it
/// is still worth delivering. It is no larger than the client takes.
pub proof fn law_v5_message_is_written_as_it_is(
    b: BrokerView,
    limits: Limits,
    now: i64,
    key: KeyView,
    generation: u64,
    receiver: u64,
    maximum: usize,
    message: MessageView,
    packet_id: Option<u16>,
    dup: bool,
    command: bool,
    seconds: u32,
    tail: Seq<u8>,
)
    requires
        message.properties.expires_at_ms matches Some(deadline) ==> worth(seconds, deadline, now),
        modern::publish_decodable(
            message.topic,
            message.qos,
            packet_id,
            dup,
            shown(message, seconds),
            limits,
        ),
    ensures
        attempt_v5(
            b,
            limits,
            now,
            key,
            generation,
            receiver,
            maximum,
            FrameView::Publish { message, packet_id, dup, command },
        ).1 matches super::frame::AttemptView::Ready(bytes) ==> {
            &&& bytes.len() <= maximum
            &&& packet_id is None ==> !expired_spec(message, now)
            &&& modern::decode_spec(bytes + tail, limits) == (
                Ok::<Option<modern::PacketView>, modern::DecodeError>(
                    Some(
                        modern::PacketView::Publish {
                            topic: message.topic,
                            payload: message.payload,
                            qos: message.qos,
                            packet_id,
                            retain: message.retain,
                            dup,
                            properties: shown(message, seconds),
                        },
                    ),
                ),
                tail,
            )
        },
{
    reveal(attempt_v5);
    reveal(send_v5);
    let properties = super::frame::sent_properties(message.properties, now);
    assert(properties == shown(message, seconds));
    if packet_fits(
        modern::publish_body(message.topic, message.payload, packet_id, properties).len(),
        limits.max_mqtt_packet_size as nat,
    ) {
        modern::law_publish_round_trip(
            message.topic,
            message.payload,
            message.qos,
            packet_id,
            message.retain,
            dup,
            properties,
            limits,
            tail,
        );
    }
}

/// The properties of a message as a client sees them.
pub open spec fn shown(message: MessageView, seconds: u32) -> modern::PropertiesView {
    modern::PropertiesView {
        payload_format: message.properties.payload_format,
        message_expiry: match message.properties.expires_at_ms {
            Some(_) => Some(seconds),
            None => None,
        },
        content_type: message.properties.content_type,
        response_topic: message.properties.response_topic,
        correlation_data: message.properties.correlation_data,
        user_properties: message.properties.user_properties,
        session_expiry: None,
        receive_maximum: None,
        maximum_packet_size: None,
        topic_alias_maximum: None,
        request_response_information: None,
        request_problem_information: None,
        authentication_method: None,
        authentication_data: None,
        will_delay: None,
    }
}

} // verus!
