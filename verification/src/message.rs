//! Messages as the broker stores and routes them.
use crate::buffer::to_vec;
use crate::codec::common::{topic_valid, valid_topic};
use crate::codec::v5;
use crate::codec::v5::{data_size, pair_views, text_size, text_view};
use crate::limits::Limits;
use crate::number::{copy_bytes, same_bytes};
use crate::text::{all_permitted, byte_len, decode_text, permitted_text, same_text, text_bytes};
use crate::list::total;
use vstd::prelude::*;
use vstd::utf8::{encode_utf8, valid_utf8};

verus! {

/// What every stored message or subscription is charged beyond its own bytes.
pub const STATE_OVERHEAD: usize = 64;

/// The properties of a published message that stay with it.
#[derive(Debug, PartialEq, Eq)]
pub struct PublishProperties {
    pub payload_format: Option<u8>,
    pub expires_at_ms: Option<i64>,
    pub content_type: Option<String>,
    pub response_topic: Option<String>,
    pub correlation_data: Option<Vec<u8>>,
    pub user_properties: Vec<(String, String)>,
}

/// A message on its way through the broker.
#[derive(Debug, PartialEq, Eq)]
pub struct BrokerMessage {
    pub topic: String,
    pub payload: Vec<u8>,
    pub qos: u8,
    pub retain: bool,
    pub properties: PublishProperties,
}

#[verifier::ext_equal]
pub struct PropsView {
    pub payload_format: Option<u8>,
    pub expires_at_ms: Option<i64>,
    pub content_type: Option<Seq<char>>,
    pub response_topic: Option<Seq<char>>,
    pub correlation_data: Option<Seq<u8>>,
    pub user_properties: Seq<(Seq<char>, Seq<char>)>,
}

#[verifier::ext_equal]
pub struct MessageView {
    pub topic: Seq<char>,
    pub payload: Seq<u8>,
    pub qos: u8,
    pub retain: bool,
    pub properties: PropsView,
}

pub open spec fn vec_view(data: Option<Vec<u8>>) -> Option<Seq<u8>> {
    match data {
        Some(value) => Some(value@),
        None => None,
    }
}

impl View for PublishProperties {
    type V = PropsView;

    open spec fn view(&self) -> PropsView {
        PropsView {
            payload_format: self.payload_format,
            expires_at_ms: self.expires_at_ms,
            content_type: text_view(self.content_type),
            response_topic: text_view(self.response_topic),
            correlation_data: vec_view(self.correlation_data),
            user_properties: pair_views(self.user_properties@),
        }
    }
}

impl View for BrokerMessage {
    type V = MessageView;

    open spec fn view(&self) -> MessageView {
        MessageView {
            topic: self.topic@,
            payload: self.payload@,
            qos: self.qos,
            retain: self.retain,
            properties: self.properties@,
        }
    }
}

/// Properties of a message that carries none.
pub open spec fn no_props() -> PropsView {
    PropsView {
        payload_format: None,
        expires_at_ms: None,
        content_type: None,
        response_topic: None,
        correlation_data: None,
        user_properties: Seq::empty(),
    }
}

impl Default for PublishProperties {
    fn default() -> (properties: PublishProperties)
        ensures
            properties@ == no_props(),
    {
        let properties = PublishProperties {
            payload_format: None,
            expires_at_ms: None,
            content_type: None,
            response_topic: None,
            correlation_data: None,
            user_properties: Vec::new(),
        };
        assert(properties@ =~= no_props());
        properties
    }
}

pub fn clone_text(text: &Option<String>) -> (copy: Option<String>)
    ensures
        text_view(copy) == text_view(*text),
{
    match text {
        Some(value) => Some(value.clone()),
        None => None,
    }
}

pub fn clone_data(data: &Option<Vec<u8>>) -> (copy: Option<Vec<u8>>)
    ensures
        vec_view(copy) == vec_view(*data),
{
    match data {
        Some(value) => Some(copy_bytes(value.as_slice())),
        None => None,
    }
}

pub fn clone_pairs(pairs: &Vec<(String, String)>) -> (copy: Vec<(String, String)>)
    ensures
        pair_views(copy@) == pair_views(pairs@),
{
    let mut copy: Vec<(String, String)> = Vec::new();
    let mut at: usize = 0;
    while at < pairs.len()
        invariant
            at <= pairs.len(),
            copy@.len() == at,
            forall|i: int|
                0 <= i < at ==> (#[trigger] copy@[i]).0@ == pairs@[i].0@ && copy@[i].1@
                    == pairs@[i].1@,
        decreases pairs.len() - at,
    {
        copy.push((pairs[at].0.clone(), pairs[at].1.clone()));
        at = at + 1;
    }
    assert(pair_views(copy@) =~= pair_views(pairs@));
    copy
}

impl Clone for PublishProperties {
    fn clone(&self) -> (copy: PublishProperties)
        ensures
            copy@ == self@,
    {
        PublishProperties {
            payload_format: self.payload_format,
            expires_at_ms: self.expires_at_ms,
            content_type: clone_text(&self.content_type),
            response_topic: clone_text(&self.response_topic),
            correlation_data: clone_data(&self.correlation_data),
            user_properties: clone_pairs(&self.user_properties),
        }
    }
}

impl Clone for BrokerMessage {
    fn clone(&self) -> (copy: BrokerMessage)
        ensures
            copy@ == self@,
    {
        BrokerMessage {
            topic: self.topic.clone(),
            payload: copy_bytes(self.payload.as_slice()),
            qos: self.qos,
            retain: self.retain,
            properties: self.properties.clone(),
        }
    }
}

fn same_option_text(left: &Option<String>, right: &Option<String>) -> (same: bool)
    ensures
        same == (text_view(*left) == text_view(*right)),
{
    match (left, right) {
        (Some(left), Some(right)) => same_text(left.as_str(), right.as_str()),
        (None, None) => true,
        _ => false,
    }
}

fn same_option_data(left: &Option<Vec<u8>>, right: &Option<Vec<u8>>) -> (same: bool)
    ensures
        same == (vec_view(*left) == vec_view(*right)),
{
    match (left, right) {
        (Some(left), Some(right)) => same_bytes(left.as_slice(), right.as_slice()),
        (None, None) => true,
        _ => false,
    }
}

fn same_pairs(left: &Vec<(String, String)>, right: &Vec<(String, String)>) -> (same: bool)
    ensures
        same == (pair_views(left@) == pair_views(right@)),
{
    let ghost l = pair_views(left@);
    let ghost r = pair_views(right@);
    if left.len() != right.len() {
        assert(l.len() != r.len());
        return false;
    }
    let mut at: usize = 0;
    while at < left.len()
        invariant
            at <= left.len() == right.len(),
            l == pair_views(left@),
            r == pair_views(right@),
            forall|i: int| 0 <= i < at ==> #[trigger] l[i] == r[i],
        decreases left.len() - at,
    {
        if !same_text(left[at].0.as_str(), right[at].0.as_str()) || !same_text(
            left[at].1.as_str(),
            right[at].1.as_str(),
        ) {
            assert(l[at as int] != r[at as int]);
            return false;
        }
        at = at + 1;
    }
    assert(l =~= r);
    true
}

/// The earliest time from which a message is no longer worth delivering.
pub open spec fn expired_spec(message: MessageView, now: i64) -> bool {
    message.properties.expires_at_ms matches Some(expires) && expires <= now
}

/// `now` plus a number of seconds, as late as a clock can tell.
pub open spec fn deadline_after(now: i64, seconds: u32) -> i64 {
    if now + seconds * 1000 > i64::MAX {
        i64::MAX
    } else {
        (now + seconds * 1000) as i64
    }
}

pub fn deadline(now: i64, seconds: u32) -> (result: i64)
    ensures
        result == deadline_after(now, seconds),
{
    let span: i64 = seconds as i64 * 1000;
    if now > i64::MAX - span {
        i64::MAX
    } else {
        now + span
    }
}

pub open spec fn sat(value: nat) -> nat {
    if value > usize::MAX {
        usize::MAX as nat
    } else {
        value
    }
}

/// What the user properties are charged.
pub open spec fn pairs_charge(pairs: Seq<(Seq<char>, Seq<char>)>) -> nat
    decreases pairs.len(),
{
    if pairs.len() == 0 {
        0
    } else {
        pairs_charge(pairs.drop_last()) + text_bytes(pairs.last().0) + text_bytes(pairs.last().1) + 64
    }
}

/// What the properties are charged; none at all are free.
pub open spec fn props_charge(properties: PropsView) -> nat {
    if properties == no_props() {
        0
    } else {
        128 + text_size(properties.content_type) + text_size(properties.response_topic)
            + data_size(properties.correlation_data) + pairs_charge(properties.user_properties)
    }
}

/// What a stored message is charged.
pub open spec fn charge_of(message: MessageView) -> nat {
    sat(
        text_bytes(message.topic) + message.payload.len() + STATE_OVERHEAD as nat + props_charge(
            message.properties,
        ),
    )
}

impl PublishProperties {
    /// The properties of a received message. A lifetime becomes a point in time.
    pub fn from_wire(properties: &v5::Properties, now: i64) -> (result: PublishProperties)
        ensures
            result@ == (PropsView {
                payload_format: properties@.payload_format,
                expires_at_ms: match properties@.message_expiry {
                    Some(seconds) => Some(deadline_after(now, seconds)),
                    None => None,
                },
                content_type: properties@.content_type,
                response_topic: properties@.response_topic,
                correlation_data: properties@.correlation_data,
                user_properties: properties@.user_properties,
            }),
    {
        let expires_at_ms = match properties.message_expiry {
            Some(seconds) => Some(deadline(now, seconds)),
            None => None,
        };
        let correlation_data = match &properties.correlation_data {
            Some(value) => Some(to_vec(value)),
            None => None,
        };
        PublishProperties {
            payload_format: properties.payload_format,
            expires_at_ms,
            content_type: clone_text(&properties.content_type),
            response_topic: clone_text(&properties.response_topic),
            correlation_data,
            user_properties: clone_pairs(&properties.user_properties),
        }
    }

    pub fn same(&self, other: &PublishProperties) -> (same: bool)
        ensures
            same == (self@ == other@),
    {
        let same = self.payload_format == other.payload_format && self.expires_at_ms
            == other.expires_at_ms && same_option_text(&self.content_type, &other.content_type)
            && same_option_text(&self.response_topic, &other.response_topic) && same_option_data(
            &self.correlation_data,
            &other.correlation_data,
        ) && same_pairs(&self.user_properties, &other.user_properties);
        proof {
            if same {
                assert(self@ =~= other@);
            }
        }
        same
    }

    fn is_none(&self) -> (none: bool)
        ensures
            none == (self@ == no_props()),
    {
        let none = self.payload_format.is_none() && self.expires_at_ms.is_none()
            && self.content_type.is_none() && self.response_topic.is_none()
            && self.correlation_data.is_none() && self.user_properties.len() == 0;
        proof {
            if none {
                assert(self@ =~= no_props());
            } else {
                assert(pair_views(self.user_properties@).len() == self.user_properties@.len());
            }
        }
        none
    }

    /// What the properties are charged.
    pub fn bytes(&self) -> (total: usize)
        ensures
            total == sat(props_charge(self@)),
    {
        if self.is_none() {
            return 0;
        }
        let content: usize = match &self.content_type {
            Some(value) => byte_len(value.as_str()),
            None => 0,
        };
        let topic: usize = match &self.response_topic {
            Some(value) => byte_len(value.as_str()),
            None => 0,
        };
        let data: usize = match &self.correlation_data {
            Some(value) => value.len(),
            None => 0,
        };
        let ghost model = self@;
        assert(content == text_size(model.content_type));
        assert(topic == text_size(model.response_topic));
        assert(data == data_size(model.correlation_data));
        let ghost fixed = 128 + content + topic + data;
        let mut total: usize = 128usize.saturating_add(content).saturating_add(topic).saturating_add(
            data,
        );
        let ghost pairs = pair_views(self.user_properties@);
        let mut at: usize = 0;
        assert(pairs_charge(pairs.take(0)) == 0);
        while at < self.user_properties.len()
            invariant
                at <= self.user_properties.len(),
                pairs == pair_views(self.user_properties@),
                total == sat((fixed + pairs_charge(pairs.take(at as int))) as nat),
                fixed >= 0,
            decreases self.user_properties.len() - at,
        {
            let key: usize = byte_len(self.user_properties[at].0.as_str());
            let value: usize = byte_len(self.user_properties[at].1.as_str());
            proof {
                let next = pairs.take(at as int + 1);
                assert(next.drop_last() =~= pairs.take(at as int));
                assert(next.last() == pairs[at as int]);
            }
            total = total.saturating_add(key).saturating_add(value).saturating_add(64);
            at = at + 1;
        }
        assert(pairs.take(pairs.len() as int) =~= pairs);
        total
    }
}

/// The user properties as the wire counts them.
pub open spec fn pairs_wire(pairs: Seq<(Seq<char>, Seq<char>)>) -> nat
    decreases pairs.len(),
{
    if pairs.len() == 0 {
        0
    } else {
        pairs_wire(pairs.drop_last()) + text_bytes(pairs.last().0) + text_bytes(pairs.last().1) + 5
    }
}

pub open spec fn framed(present: bool, size: nat) -> nat {
    if present {
        size + 3
    } else {
        0
    }
}

/// The bytes of a property field that carries these properties.
pub open spec fn props_wire(properties: PropsView) -> nat {
    pairs_wire(properties.user_properties) + (if properties.payload_format is Some {
        2nat
    } else {
        0
    }) + (if properties.expires_at_ms is Some {
        5nat
    } else {
        0
    }) + framed(properties.content_type is Some, text_size(properties.content_type)) + framed(
        properties.response_topic is Some,
        text_size(properties.response_topic),
    ) + framed(properties.correlation_data is Some, data_size(properties.correlation_data))
}

pub open spec fn pairs_permitted(pairs: Seq<(Seq<char>, Seq<char>)>) -> bool {
    forall|i: int|
        0 <= i < pairs.len() ==> permitted_text((#[trigger] pairs[i]).0) && permitted_text(pairs[i].1)
}

/// Properties within the limits.
pub open spec fn props_valid(properties: PropsView, limits: Limits) -> bool {
    &&& properties.payload_format matches Some(value) ==> value <= 1
    &&& properties.expires_at_ms matches Some(value) ==> value >= 0
    &&& properties.content_type matches Some(value) ==> text_bytes(value)
        <= limits.max_mqtt_content_type_bytes && permitted_text(value)
    &&& properties.response_topic matches Some(value) ==> text_bytes(value)
        <= limits.max_mqtt_response_topic_bytes && topic_valid(value, limits, false)
    &&& properties.correlation_data matches Some(value) ==> value.len()
        <= limits.max_mqtt_correlation_data_bytes
    &&& properties.user_properties.len() <= limits.max_mqtt_user_properties
    &&& pairs_permitted(properties.user_properties)
    &&& pairs_wire(properties.user_properties) <= limits.max_mqtt_user_property_bytes
    &&& props_wire(properties) <= limits.max_mqtt_property_bytes
}

pub proof fn lemma_pairs_wire_prefix(pairs: Seq<(Seq<char>, Seq<char>)>, count: int)
    requires
        0 <= count <= pairs.len(),
    ensures
        pairs_wire(pairs.take(count)) <= pairs_wire(pairs),
    decreases pairs.len(),
{
    if count == pairs.len() {
        assert(pairs.take(count) =~= pairs);
    } else {
        lemma_pairs_wire_prefix(pairs.drop_last(), count);
        assert(pairs.drop_last().take(count) =~= pairs.take(count));
    }
}

impl PublishProperties {
    /// The size of the user properties on the wire, unless they hold text that is not permitted or
    /// are too large to count.
    fn user_size(&self) -> (size: Option<usize>)
        ensures
            size is Some <==> pairs_permitted(self@.user_properties) && pairs_wire(
                self@.user_properties,
            ) <= usize::MAX,
            size is Some ==> size->0 == pairs_wire(self@.user_properties),
    {
        let ghost pairs = pair_views(self.user_properties@);
        let mut total: usize = 0;
        let mut at: usize = 0;
        assert(pairs_wire(pairs.take(0)) == 0);
        while at < self.user_properties.len()
            invariant
                at <= self.user_properties.len(),
                pairs == pair_views(self.user_properties@),
                total == pairs_wire(pairs.take(at as int)),
                forall|i: int|
                    0 <= i < at ==> permitted_text((#[trigger] pairs[i]).0) && permitted_text(
                        pairs[i].1,
                    ),
            decreases self.user_properties.len() - at,
        {
            let key = self.user_properties[at].0.as_str();
            let value = self.user_properties[at].1.as_str();
            assert(pairs[at as int] == (key@, value@));
            if !all_permitted(key) || !all_permitted(value) {
                return None;
            }
            proof {
                let next = pairs.take(at as int + 1);
                assert(next.drop_last() =~= pairs.take(at as int));
                assert(next.last() == pairs[at as int]);
                lemma_pairs_wire_prefix(pairs, at as int + 1);
            }
            total = match byte_len(key).checked_add(byte_len(value)) {
                None => return None,
                Some(sum) => match sum.checked_add(5) {
                    None => return None,
                    Some(pair) => match total.checked_add(pair) {
                        None => return None,
                        Some(next) => next,
                    },
                },
            };
            at = at + 1;
        }
        assert(pairs.take(pairs.len() as int) =~= pairs);
        Some(total)
    }

    /// Whether the properties are within the limits.
    pub fn valid(&self, limits: &Limits) -> (valid: bool)
        ensures
            valid == props_valid(self@, *limits),
    {
        if let Some(value) = self.payload_format {
            if value > 1 {
                return false;
            }
        }
        if let Some(value) = self.expires_at_ms {
            if value < 0 {
                return false;
            }
        }
        let mut total: u128 = 0;
        if self.payload_format.is_some() {
            total = total + 2;
        }
        if self.expires_at_ms.is_some() {
            total = total + 5;
        }
        if let Some(value) = &self.content_type {
            let size: usize = byte_len(value.as_str());
            if size > limits.max_mqtt_content_type_bytes || !all_permitted(value.as_str()) {
                return false;
            }
            total = total + size as u128 + 3;
        }
        if let Some(value) = &self.response_topic {
            let size: usize = byte_len(value.as_str());
            if size > limits.max_mqtt_response_topic_bytes || !valid_topic(
                value.as_str(),
                limits,
                false,
            ) {
                return false;
            }
            total = total + size as u128 + 3;
        }
        if let Some(value) = &self.correlation_data {
            if value.len() > limits.max_mqtt_correlation_data_bytes {
                return false;
            }
            total = total + value.len() as u128 + 3;
        }
        assert(self@.user_properties.len() == self.user_properties@.len());
        if self.user_properties.len() > limits.max_mqtt_user_properties {
            return false;
        }
        let user: usize = match self.user_size() {
            None => return false,
            Some(user) => user,
        };
        if user > limits.max_mqtt_user_property_bytes {
            return false;
        }
        total + user as u128 <= limits.max_mqtt_property_bytes as u128
    }
}

/// A message that may be stored and routed.
pub open spec fn message_valid(message: MessageView, limits: Limits) -> bool {
    &&& message.qos <= 2
    &&& message.payload.len() <= limits.max_mqtt_packet_size
    &&& topic_valid(message.topic, limits, false)
    &&& props_valid(message.properties, limits)
    &&& message.properties.payload_format == Some(1u8) ==> valid_utf8(message.payload)
}

impl BrokerMessage {
    /// What the message is charged while it is stored.
    pub fn bytes(&self) -> (total: usize)
        ensures
            total == charge_of(self@),
    {
        byte_len(self.topic.as_str()).saturating_add(self.payload.len()).saturating_add(
            STATE_OVERHEAD,
        ).saturating_add(self.properties.bytes())
    }

    /// Whether the message is no longer worth delivering.
    pub fn expired(&self, now: i64) -> (expired: bool)
        ensures
            expired == expired_spec(self@, now),
    {
        match self.properties.expires_at_ms {
            Some(expires) => expires <= now,
            None => false,
        }
    }

    pub fn same(&self, other: &BrokerMessage) -> (same: bool)
        ensures
            same == (self@ == other@),
    {
        let same = same_text(self.topic.as_str(), other.topic.as_str()) && same_bytes(
            self.payload.as_slice(),
            other.payload.as_slice(),
        ) && self.qos == other.qos && self.retain == other.retain && self.properties.same(
            &other.properties,
        );
        proof {
            if same {
                assert(self@ =~= other@);
            }
        }
        same
    }
}

/// Whether a message may be stored and routed.
pub fn valid_broker_message(message: &BrokerMessage, limits: &Limits) -> (valid: bool)
    ensures
        valid == message_valid(message@, *limits),
{
    message.qos <= 2 && message.payload.len() <= limits.max_mqtt_packet_size && valid_topic(
        message.topic.as_str(),
        limits,
        false,
    ) && message.properties.valid(limits) && (message.properties.payload_format != Some(1u8)
        || decode_text(message.payload.as_slice()).is_some())
}

/// A message is charged for its topic and its payload, for being stored, and, if it has any
/// property, for those that can be long.
pub proof fn law_message_is_charged_for_what_it_holds(message: MessageView, bytes: nat)
    requires
        ({
            let p = message.properties;
            let plain = p.payload_format is None && p.expires_at_ms is None && p.content_type is None
                && p.response_topic is None && p.correlation_data is None && p.user_properties.len()
                == 0;
            bytes == encode_utf8(message.topic).len() + message.payload.len() + 64 + (if plain {
                0nat
            } else {
                128 + (match p.content_type {
                    Some(text) => encode_utf8(text).len(),
                    None => 0,
                }) + (match p.response_topic {
                    Some(text) => encode_utf8(text).len(),
                    None => 0,
                }) + (match p.correlation_data {
                    Some(data) => data.len(),
                    None => 0,
                }) + total(
                    p.user_properties,
                    |pair: (Seq<char>, Seq<char>)|
                        encode_utf8(pair.0).len() + encode_utf8(pair.1).len() + 64,
                )
            })
        }),
    ensures
        bytes <= usize::MAX ==> charge_of(message) == bytes,
        bytes > usize::MAX ==> charge_of(message) == usize::MAX,
{
    let p = message.properties;
    lemma_pairs_total(p.user_properties);
    if p.user_properties.len() == 0 {
        assert(p.user_properties =~= Seq::empty());
    }
}

proof fn lemma_pairs_total(pairs: Seq<(Seq<char>, Seq<char>)>)
    ensures
        pairs_charge(pairs) == total(
            pairs,
            |pair: (Seq<char>, Seq<char>)|
                encode_utf8(pair.0).len() + encode_utf8(pair.1).len() + 64,
        ),
    decreases pairs.len(),
{
    if pairs.len() > 0 {
        lemma_pairs_total(pairs.drop_last());
    }
}

} // verus!
