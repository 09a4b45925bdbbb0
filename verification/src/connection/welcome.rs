//! Who is let in, how a client is welcomed, and how a device is sent commands.
use super::step::{command_message, commanded, granted_qos, CommandFate, EndpointView};
use super::{event_of, publish_units, v311, v5};
use crate::broker::carry::holder;
use crate::broker::exchange::law_command_is_handed_over_or_refused;
use crate::broker::model::{owns, BrokerView};
use crate::broker::replay::handed;
use crate::broker::service::best_qos;
use crate::broker::turnover::held;
use crate::codec::common::{packet_bytes, packet_fits, packet_size};
use crate::codec::layout::{
    bit, framed, law_packets_are_framed, lemma_field, lemma_length_bytes, lemma_short, length_bytes,
    short, text_field,
};
use crate::codec::layout_v5::{lemma_long_bytes, long};
use crate::codec::v5::{
    connack_body, essential_properties, receive_maximum_spec, smaller, string_bytes, with_optional,
    ConnackReason,
};
use crate::codec::{v311 as plain, v5 as modern, MqttVersion};
use crate::error::Error;
use crate::limits::Limits;
use crate::message::{MessageView, PropsView};
use crate::session::{AuthView, Subscription};
use crate::text::text_bytes;
use crate::topics::{device_topic, matches_spec, TopicKind};
use crate::identity::{DeviceView, KeyView, Permissions};
use crate::broker::attach::{attach_spec, maintained, Profile};
use vstd::prelude::*;
use vstd::utf8::encode_utf8;

verus! {

/// A client is let in only with a name, or without one if its session starts afresh, and only if
/// it brings a user name and a password; a first packet of another protocol level is told so, and
/// any other packet is not answered.
pub proof fn law_who_may_come_in(packet: plain::PacketView)
    ensures
        match packet {
            plain::PacketView::Connect(c) => {
                let named = c.client_id.len() > 0 || c.clean_session;
                let shown = c.username is Some && c.password is Some;
                &&& v311::greeting_fault(packet) is None <==> named && shown
                &&& !named ==> v311::greeting_fault(packet) == Some((Some(2u8), Error::Invalid))
                &&& named && !shown ==> v311::greeting_fault(packet) == Some(
                    (Some(4u8), Error::Authentication),
                )
            },
            plain::PacketView::UnsupportedVersion(_) => v311::greeting_fault(packet) == Some(
                (Some(1u8), Error::Invalid),
            ),
            _ => v311::greeting_fault(packet) == Some((None::<u8>, Error::Invalid)),
        },
{
}

/// The same for the newer protocol, where a client may also not ask for another way to show who it
/// is.
pub proof fn law_v5_who_may_come_in(c: modern::ConnectView)
    ensures
        ({
            let named = c.client_id.len() > 0 || c.clean_start;
            let usual = c.properties.authentication_method is None;
            let shown = c.username is Some && c.password is Some;
            let fault = v5::greeting_fault(c);
            &&& fault is None <==> named && usual && shown
            &&& !named ==> fault == Some((ConnackReason::ClientIdentifierInvalid, Error::Invalid))
            &&& named && !usual ==> fault == Some(
                (ConnackReason::BadAuthenticationMethod, Error::Authentication),
            )
            &&& named && usual && !shown ==> fault == Some(
                (ConnackReason::BadCredentials, Error::Authentication),
            )
        }),
{
}

/// What a client has to know that is let in: how many messages it may have unanswered, how large a
/// packet may be, that it can use neither identifiers for its subscriptions nor shared ones, and
/// the name that it was given if it brought none.
pub open spec fn terms(limits: Limits, assigned: Option<Seq<char>>) -> Seq<u8> {
    let one = limits.max_inflight_qos1_per_session;
    let two = limits.max_inflight_qos2_per_session;
    let window = if one == 0 || two == 0 {
        1
    } else if one <= two {
        one as nat
    } else {
        two as nat
    };
    seq![33u8] + short(window) + (seq![39u8] + long(limits.max_mqtt_packet_size as nat)) + seq![
        41u8,
        0u8,
        42u8,
        0u8,
    ] + (match assigned {
        Some(name) => seq![18u8] + text_field(name),
        None => Seq::empty(),
    })
}

/// The answer that lets a client in.
pub open spec fn welcome_layout(present: bool, terms: Seq<u8>) -> Seq<u8> {
    framed(0x20, seq![bit(present, 1) as u8, 0u8] + length_bytes(terms.len()) + terms)
}

/// What goes without saying and is said if there is room: that no topic has a short form, that
/// messages can be retained, and that filters can have wildcards.
pub open spec fn defaults(aliases: bool, retain: bool, wildcards: bool) -> Seq<u8> {
    (if aliases {
        seq![34u8, 0u8, 0u8]
    } else {
        Seq::empty()
    }) + (if retain {
        seq![37u8, 1u8]
    } else {
        Seq::empty()
    }) + (if wildcards {
        seq![40u8, 1u8]
    } else {
        Seq::empty()
    })
}

proof fn lemma_smaller_fits(n: nat, m: nat, maximum: nat)
    requires
        n <= m,
        packet_fits(m, maximum),
    ensures
        packet_fits(n, maximum),
{
    lemma_length_bytes(n);
    lemma_length_bytes(m);
}

/// A client of the newer protocol that is let in is told whether its session was found and what it
/// has to know, and beyond that what goes without saying, all of it if it fits.
#[verifier::rlimit(40)]
pub proof fn law_v5_welcome_says_what_is_needed(
    present: bool,
    limits: Limits,
    assigned: Option<Seq<char>>,
    maximum: usize,
) -> (said: (bool, bool, bool))
    ensures
        v5::greeting(present, limits, assigned, maximum) matches Ok(bytes) ==> {
            let needed = terms(limits, assigned);
            let all = welcome_layout(present, needed + defaults(true, true, true));
            &&& bytes == welcome_layout(present, needed + defaults(said.0, said.1, said.2))
            &&& bytes.len() <= maximum
            &&& bytes.len() <= limits.max_mqtt_packet_size
            &&& all.len() <= maximum && all.len() <= limits.max_mqtt_packet_size ==> bytes == all
        },
{
    let most = smaller(maximum, limits.max_mqtt_packet_size) as nat;
    let reason = ConnackReason::Success;
    let needed = essential_properties(limits, assigned);
    let a = seq![0x22u8, 0u8, 0u8];
    let b = seq![0x25u8, 1u8];
    let c = seq![0x28u8, 1u8];
    let one = with_optional(needed, a, present, reason, most);
    let two = with_optional(one, b, present, reason, most);
    let three = with_optional(two, c, present, reason, most);
    let said = (
        packet_fits(connack_body(present, reason, needed + a).len(), most),
        packet_fits(connack_body(present, reason, one + b).len(), most),
        packet_fits(connack_body(present, reason, two + c).len(), most),
    );
    if let Ok(bytes) = v5::greeting(present, limits, assigned, maximum) {
        lemma_terms(limits, assigned);
        assert(three =~= needed + defaults(said.0, said.1, said.2));
        lemma_welcome(present, three);
        let all = needed + defaults(true, true, true);
        lemma_welcome(present, all);
        if welcome_layout(present, all).len() <= most {
            let whole = connack_body(present, reason, all).len();
            lemma_body_len(present, needed + a, all);
            lemma_smaller_fits(connack_body(present, reason, needed + a).len(), whole, most);
            assert(one == needed + a);
            lemma_body_len(present, one + b, all);
            lemma_smaller_fits(connack_body(present, reason, one + b).len(), whole, most);
            assert(two == one + b);
            assert(two + c =~= all);
        }
    }
    said
}

/// The answer grows with what it says.
proof fn lemma_body_len(present: bool, less: Seq<u8>, more: Seq<u8>)
    requires
        less.len() <= more.len() <= 268_435_000,
    ensures
        connack_body(present, ConnackReason::Success, less).len() <= connack_body(
            present,
            ConnackReason::Success,
            more,
        ).len(),
{
    lemma_length_bytes(less.len());
    lemma_length_bytes(more.len());
}

proof fn lemma_welcome(present: bool, said: Seq<u8>)
    requires
        said.len() <= 268_435_000,
    ensures
        packet_bytes(0x20, connack_body(present, ConnackReason::Success, said)) == welcome_layout(
            present,
            said,
        ),
        welcome_layout(present, said).len() == packet_size(
            connack_body(present, ConnackReason::Success, said).len(),
        ),
        connack_body(present, ConnackReason::Success, said).len() <= 268_435_455,
{
    let body = connack_body(present, ConnackReason::Success, said);
    lemma_length_bytes(said.len());
    lemma_length_bytes(body.len());
    law_packets_are_framed(0x20, body);
}

proof fn lemma_terms(limits: Limits, assigned: Option<Seq<char>>)
    requires
        receive_maximum_spec(limits) <= u16::MAX,
        limits.max_mqtt_packet_size <= u32::MAX,
        assigned matches Some(name) ==> text_bytes(name) <= u16::MAX,
    ensures
        essential_properties(limits, assigned) == terms(limits, assigned),
        terms(limits, assigned).len() <= 65_600,
{
    let window = receive_maximum_spec(limits) as u16;
    lemma_short(window, Seq::empty());
    lemma_long_bytes(limits.max_mqtt_packet_size as u32);
    if let Some(name) = assigned {
        lemma_field(encode_utf8(name), Seq::empty(), 65_535);
        assert(string_bytes(name) =~= text_field(name));
    }
    assert(essential_properties(limits, assigned) =~= terms(limits, assigned));
}

/// The quality of service at which a topic reaches a session is the best that one of its matching
/// filters was granted.
pub proof fn law_best_filter_counts(subs: Seq<(Seq<char>, Subscription)>, topic: Seq<char>)
    ensures
        match best_qos(subs, topic) {
            Some(qos) => {
                &&& exists|k: int|
                    0 <= k < subs.len() && matches_spec((#[trigger] subs[k]).0, topic)
                        && subs[k].1.qos == qos
                &&& forall|k: int|
                    0 <= k < subs.len() && matches_spec((#[trigger] subs[k]).0, topic)
                        ==> subs[k].1.qos <= qos
            },
            None => forall|k: int|
                0 <= k < subs.len() ==> !matches_spec((#[trigger] subs[k]).0, topic),
        },
    decreases subs.len(),
{
    if subs.len() > 0 {
        let front = subs.drop_last();
        law_best_filter_counts(front, topic);
        assert forall|k: int| 0 <= k < front.len() implies #[trigger] subs[k] == front[k] by {}
        let last = subs.len() - 1;
        assert(subs[last] == subs.last());
        if let Some(qos) = best_qos(front, topic) {
            let k = choose|k: int|
                0 <= k < front.len() && matches_spec((#[trigger] front[k]).0, topic)
                    && front[k].1.qos == qos;
            assert(subs[k] == front[k]);
        }
    }
}

/// A command that is queued has been handed to the client under the topic of the device for
/// commands, with its payload, not retained, and over the newer protocol with its deadline. One
/// whose time has passed is not sent, and changes nothing.
pub proof fn law_command_reaches_its_device(
    b: BrokerView,
    limits: Limits,
    now: i64,
    e: EndpointView,
    payload: Seq<u8>,
    expires_at: i64,
) -> (m: MessageView)
    ensures
        ({
            let (next, outcome) = commanded(b, limits, now, e, payload, expires_at);
            let key = e.attachment.key;
            &&& expires_at <= now ==> outcome == Ok::<CommandFate, Error>(CommandFate::Expired)
                && next == b
            &&& expires_at > now ==> outcome != Ok::<CommandFate, Error>(CommandFate::Expired)
            &&& outcome == Ok::<CommandFate, Error>(CommandFate::Queued) ==> {
                &&& m.topic == device_topic(e.device, TopicKind::Down)
                &&& m.payload == payload
                &&& !m.retain
                &&& m.properties == (PropsView {
                    payload_format: None,
                    expires_at_ms: match e.wire.version {
                        MqttVersion::V5 => Some(expires_at),
                        MqttVersion::V311 => None,
                    },
                    content_type: None,
                    response_topic: None,
                    correlation_data: None,
                    user_properties: Seq::empty(),
                })
                &&& owns(b, key, e.attachment.generation)
                &&& held(b, key) matches Some(s) && held(next, key) matches Some(s2) && {
                    &&& handed(m, true, s, holder(b, key), s2, holder(next, key))
                    &&& best_qos(s.subscriptions, m.topic) matches Some(qos) ==> m.qos == qos
                }
            }
        }),
{
    let key = e.attachment.key;
    let granted = granted_qos(b, key, device_topic(e.device, TopicKind::Down));
    let m = command_message(
        e.device,
        payload,
        match granted {
            Some(qos) => qos,
            None => 1,
        },
        match e.wire.version {
            MqttVersion::V5 => Some(expires_at),
            MqttVersion::V311 => None,
        },
    );
    law_command_is_handed_over_or_refused(b, limits, now, key, e.attachment.generation, m);
    m
}

/// What a message uses up of a device's allowance grows by one with each 4096 bytes.
pub proof fn law_allowance_goes_by_size(topic_bytes: nat, payload_bytes: nat)
    requires
        topic_bytes + payload_bytes <= usize::MAX,
    ensures
        ({
            let units = publish_units(topic_bytes, payload_bytes);
            &&& units >= 1
            &&& 4096 * (units - 1) <= topic_bytes + payload_bytes < 4096 * units
        }),
{
}

/// What a client of the newer protocol is told after an error, by the number that it reads: when it
/// asks to be let in, when its connection is ended, and when it subscribes.
pub proof fn law_errors_are_told_by_number(error: Error)
    ensures
        modern::connect_reason_spec(error).code_spec() == match error {
            Error::Authentication => 0x86u8,
            Error::Forbidden => 0x87u8,
            Error::Invalid => 0x85u8,
            Error::Overloaded => 0x89u8,
            Error::Draining => 0x89u8,
            Error::Unavailable => 0x88u8,
            Error::Timeout => 0x88u8,
            _ => 0x83u8,
        },
        modern::disconnect_reason_spec(error).code_spec() == match error {
            Error::Authentication => 0x87u8,
            Error::Forbidden => 0x87u8,
            Error::Invalid => 0x82u8,
            Error::Conflict => 0x82u8,
            Error::Overloaded => 0x97u8,
            Error::Unavailable => 0x89u8,
            Error::Timeout => 0x8du8,
            Error::Draining => 0x8bu8,
            Error::Codec => 0x99u8,
            _ => 0x83u8,
        },
        modern::subscription_reason_spec(error).code_spec() == match error {
            Error::Forbidden => 0x87u8,
            Error::Authentication => 0x87u8,
            Error::Invalid => 0x8fu8,
            Error::Overloaded => 0x97u8,
            Error::Draining => 0x80u8,
            Error::Unavailable => 0x80u8,
            Error::Timeout => 0x80u8,
            _ => 0x83u8,
        },
{
}

/// A message of a device is evaluated if the device may publish it, as the answer to a command
/// exactly if it comes under the topic for those; one that only clears a retained message is not.
pub proof fn law_what_is_evaluated(device: DeviceView, permissions: Permissions, message: MessageView)
    ensures
        ({
            let event = event_of(device, permissions, message);
            let up = permissions.publish && message.topic == device_topic(device, TopicKind::Up);
            let answer = permissions.publish && permissions.commands && message.topic
                == device_topic(device, TopicKind::DownAck);
            let clears = message.retain && message.payload.len() == 0;
            &&& event is Err <==> !up && !answer
            &&& event == Ok::<Option<bool>, Error>(None) <==> (up || answer) && clears
            &&& event == Ok::<Option<bool>, Error>(Some(false)) <==> up && !clears
            &&& event == Ok::<Option<bool>, Error>(Some(true)) <==> !up && answer && !clears
        }),
{
}

/// A client gets the session that its packet asks for: of its device, under its name, of its
/// protocol, afresh or not, kept for as long and with as many messages unanswered as it says. One
/// without a name always starts afresh.
pub proof fn law_session_is_as_asked_for(
    b: BrokerView,
    limits: Limits,
    now: i64,
    device: DeviceView,
    auth: AuthView,
    client_id: Seq<char>,
    clean_session: bool,
)
    requires
        client_id.len() > 0,
    ensures
        v311::attached(b, limits, now, device, auth, client_id, clean_session) == attach_spec(
            maintained(b, limits, now),
            limits,
            now,
            KeyView { device, client_id },
            Profile {
                clean_session,
                version: MqttVersion::V311,
                session_expiry_interval: 0,
                receive_maximum: 65_535,
            },
            auth,
        ),
{
}

/// The same for the newer protocol.
pub proof fn law_v5_session_is_as_asked_for(
    b: BrokerView,
    limits: Limits,
    now: i64,
    device: DeviceView,
    auth: AuthView,
    connect: modern::ConnectView,
    registration: u64,
)
    requires
        connect.client_id.len() > 0,
        connect.properties.receive_maximum != Some(0u16),
    ensures
        v5::attached(b, limits, now, device, auth, connect, registration) == attach_spec(
            maintained(b, limits, now),
            limits,
            now,
            KeyView { device, client_id: connect.client_id },
            Profile {
                clean_session: connect.clean_start,
                version: MqttVersion::V5,
                session_expiry_interval: match connect.properties.session_expiry {
                    Some(seconds) => seconds,
                    None => 0,
                },
                receive_maximum: match connect.properties.receive_maximum {
                    Some(value) => value,
                    None => 65_535,
                },
            },
            auth,
        ),
{
}

} // verus!
