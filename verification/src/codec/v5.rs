//! MQTT 5 packets. All client-controlled allocations are bounded by `Limits`.
use super::common::{
    encode, encode_spec, fixed_header, fixed_header_spec, packet_bytes, packet_fits, put_varint,
    remaining_length, remaining_length_spec, take_byte, take_short, topic_valid, valid_topic,
    valid_utf8, varint,
};
use crate::buffer::{
    advance, bytes_contents, bytes_mut_contents, bytes_mut_slice, bytes_slice, get_u16, get_u32,
    get_u8,
};
use crate::error::Error;
use crate::limits::Limits;
use crate::number::{append_bytes, be, be16, be32, put_u16, put_u32};
use crate::text::{byte_len, characters, permitted_bytes, same_text, starts_with, text_bytes};
use bytes::{Bytes, BytesMut};
use vstd::prelude::*;
use vstd::utf8::{decode_utf8, encode_utf8};

verus! {

pub const MALFORMED_PACKET: u8 = 0x81;

pub const PROTOCOL_ERROR: u8 = 0x82;

pub const PACKET_TOO_LARGE: u8 = 0x95;

pub const TOPIC_ALIAS_INVALID: u8 = 0x94;

pub const TOPIC_NAME_INVALID: u8 = 0x90;

pub const TOPIC_FILTER_INVALID: u8 = 0x8f;

pub const PACKET_IDENTIFIER_NOT_FOUND: u8 = 0x92;

pub const PACKET_IDENTIFIER_IN_USE: u8 = 0x91;

pub const RECEIVE_MAXIMUM_EXCEEDED: u8 = 0x93;

pub const SUBSCRIPTION_IDENTIFIERS_NOT_SUPPORTED: u8 = 0xa1;

pub const SHARED_SUBSCRIPTIONS_NOT_SUPPORTED: u8 = 0x9e;

#[derive(Clone, Copy, Debug, PartialEq, Eq, Structural)]
pub enum ConnackReason {
    Success,
    ImplementationSpecific,
    ClientIdentifierInvalid,
    BadCredentials,
    NotAuthorized,
    ServerUnavailable,
    ServerBusy,
    BadAuthenticationMethod,
}

impl ConnackReason {
    pub open spec fn code_spec(self) -> u8 {
        match self {
            ConnackReason::Success => 0,
            ConnackReason::ImplementationSpecific => 0x83,
            ConnackReason::ClientIdentifierInvalid => 0x85,
            ConnackReason::BadCredentials => 0x86,
            ConnackReason::NotAuthorized => 0x87,
            ConnackReason::ServerUnavailable => 0x88,
            ConnackReason::ServerBusy => 0x89,
            ConnackReason::BadAuthenticationMethod => 0x8c,
        }
    }

    /// The reason code on the wire.
    pub fn code(self) -> (code: u8)
        ensures
            code == self.code_spec(),
    {
        match self {
            ConnackReason::Success => 0,
            ConnackReason::ImplementationSpecific => 0x83,
            ConnackReason::ClientIdentifierInvalid => 0x85,
            ConnackReason::BadCredentials => 0x86,
            ConnackReason::NotAuthorized => 0x87,
            ConnackReason::ServerUnavailable => 0x88,
            ConnackReason::ServerBusy => 0x89,
            ConnackReason::BadAuthenticationMethod => 0x8c,
        }
    }
}

#[derive(Clone, Copy, Debug, PartialEq, Eq, Structural)]
pub enum DisconnectReason {
    ProtocolError,
    ImplementationSpecific,
    NotAuthorized,
    ServerBusy,
    ServerShuttingDown,
    KeepAliveTimeout,
    SessionTakenOver,
    TopicFilterInvalid,
    TopicNameInvalid,
    ReceiveMaximumExceeded,
    TopicAliasInvalid,
    PacketTooLarge,
    QuotaExceeded,
    PayloadFormatInvalid,
    SharedSubscriptionsNotSupported,
    SubscriptionIdentifiersNotSupported,
    MalformedPacket,
}

impl DisconnectReason {
    pub open spec fn code_spec(self) -> u8 {
        match self {
            DisconnectReason::ProtocolError => 0x82,
            DisconnectReason::ImplementationSpecific => 0x83,
            DisconnectReason::NotAuthorized => 0x87,
            DisconnectReason::ServerBusy => 0x89,
            DisconnectReason::ServerShuttingDown => 0x8b,
            DisconnectReason::KeepAliveTimeout => 0x8d,
            DisconnectReason::SessionTakenOver => 0x8e,
            DisconnectReason::TopicFilterInvalid => 0x8f,
            DisconnectReason::TopicNameInvalid => 0x90,
            DisconnectReason::ReceiveMaximumExceeded => 0x93,
            DisconnectReason::TopicAliasInvalid => 0x94,
            DisconnectReason::PacketTooLarge => 0x95,
            DisconnectReason::QuotaExceeded => 0x97,
            DisconnectReason::PayloadFormatInvalid => 0x99,
            DisconnectReason::SharedSubscriptionsNotSupported => 0x9e,
            DisconnectReason::SubscriptionIdentifiersNotSupported => 0xa1,
            DisconnectReason::MalformedPacket => 0x81,
        }
    }

    /// The reason code on the wire.
    pub fn code(self) -> (code: u8)
        ensures
            code == self.code_spec(),
    {
        match self {
            DisconnectReason::ProtocolError => 0x82,
            DisconnectReason::ImplementationSpecific => 0x83,
            DisconnectReason::NotAuthorized => 0x87,
            DisconnectReason::ServerBusy => 0x89,
            DisconnectReason::ServerShuttingDown => 0x8b,
            DisconnectReason::KeepAliveTimeout => 0x8d,
            DisconnectReason::SessionTakenOver => 0x8e,
            DisconnectReason::TopicFilterInvalid => 0x8f,
            DisconnectReason::TopicNameInvalid => 0x90,
            DisconnectReason::ReceiveMaximumExceeded => 0x93,
            DisconnectReason::TopicAliasInvalid => 0x94,
            DisconnectReason::PacketTooLarge => 0x95,
            DisconnectReason::QuotaExceeded => 0x97,
            DisconnectReason::PayloadFormatInvalid => 0x99,
            DisconnectReason::SharedSubscriptionsNotSupported => 0x9e,
            DisconnectReason::SubscriptionIdentifiersNotSupported => 0xa1,
            DisconnectReason::MalformedPacket => 0x81,
        }
    }

    /// The reason codes that decoding gives and that a disconnection may carry.
    pub open spec fn reported_by_decoding(code: u8) -> bool {
        ||| code == MALFORMED_PACKET
        ||| code == PACKET_TOO_LARGE
        ||| code == TOPIC_ALIAS_INVALID
        ||| code == TOPIC_NAME_INVALID
        ||| code == TOPIC_FILTER_INVALID
        ||| code == SUBSCRIPTION_IDENTIFIERS_NOT_SUPPORTED
        ||| code == SHARED_SUBSCRIPTIONS_NOT_SUPPORTED
    }

    /// The reason with which to disconnect after a decoding error.
    pub fn from_decode(code: u8) -> (reason: DisconnectReason)
        ensures
            Self::reported_by_decoding(code) ==> reason.code_spec() == code,
            !Self::reported_by_decoding(code) ==> reason == DisconnectReason::ProtocolError,
    {
        match code {
            MALFORMED_PACKET => DisconnectReason::MalformedPacket,
            PACKET_TOO_LARGE => DisconnectReason::PacketTooLarge,
            TOPIC_ALIAS_INVALID => DisconnectReason::TopicAliasInvalid,
            TOPIC_NAME_INVALID => DisconnectReason::TopicNameInvalid,
            TOPIC_FILTER_INVALID => DisconnectReason::TopicFilterInvalid,
            SUBSCRIPTION_IDENTIFIERS_NOT_SUPPORTED => {
                DisconnectReason::SubscriptionIdentifiersNotSupported
            },
            SHARED_SUBSCRIPTIONS_NOT_SUPPORTED => DisconnectReason::SharedSubscriptionsNotSupported,
            _ => DisconnectReason::ProtocolError,
        }
    }
}

#[derive(Clone, Copy, Debug, PartialEq, Eq, Structural)]
pub enum PubackReason {
    Success,
}

#[derive(Clone, Copy, Debug, PartialEq, Eq, Structural)]
pub enum PubrecReason {
    Success,
    ImplementationSpecific,
    PacketIdentifierInUse,
    PayloadFormatInvalid,
}

#[derive(Clone, Copy, Debug, PartialEq, Eq, Structural)]
pub enum PubrelReason {
    Success,
    PacketIdentifierNotFound,
}

#[derive(Clone, Copy, Debug, PartialEq, Eq, Structural)]
pub enum PubcompReason {
    Success,
    PacketIdentifierNotFound,
}

#[derive(Clone, Copy, Debug, PartialEq, Eq, Structural)]
pub enum AckReason {
    Puback(PubackReason),
    Pubrec(PubrecReason),
    Pubrel(PubrelReason),
    Pubcomp(PubcompReason),
}

impl AckReason {
    /// The first byte of the acknowledgement.
    pub open spec fn first_spec(self) -> u8 {
        match self {
            AckReason::Puback(_) => 0x40,
            AckReason::Pubrec(_) => 0x50,
            AckReason::Pubrel(_) => 0x62,
            AckReason::Pubcomp(_) => 0x70,
        }
    }

    pub open spec fn code_spec(self) -> u8 {
        match self {
            AckReason::Puback(_) => 0,
            AckReason::Pubrec(PubrecReason::Success) => 0,
            AckReason::Pubrec(PubrecReason::ImplementationSpecific) => 0x83,
            AckReason::Pubrec(PubrecReason::PacketIdentifierInUse) => 0x91,
            AckReason::Pubrec(PubrecReason::PayloadFormatInvalid) => 0x99,
            AckReason::Pubrel(PubrelReason::Success) => 0,
            AckReason::Pubrel(PubrelReason::PacketIdentifierNotFound) => 0x92,
            AckReason::Pubcomp(PubcompReason::Success) => 0,
            AckReason::Pubcomp(PubcompReason::PacketIdentifierNotFound) => 0x92,
        }
    }

    /// The reason code on the wire.
    pub fn code(self) -> (code: u8)
        ensures
            code == self.code_spec(),
    {
        match self {
            AckReason::Puback(_) => 0,
            AckReason::Pubrec(PubrecReason::Success) => 0,
            AckReason::Pubrec(PubrecReason::ImplementationSpecific) => 0x83,
            AckReason::Pubrec(PubrecReason::PacketIdentifierInUse) => 0x91,
            AckReason::Pubrec(PubrecReason::PayloadFormatInvalid) => 0x99,
            AckReason::Pubrel(PubrelReason::Success) => 0,
            AckReason::Pubrel(PubrelReason::PacketIdentifierNotFound) => 0x92,
            AckReason::Pubcomp(PubcompReason::Success) => 0,
            AckReason::Pubcomp(PubcompReason::PacketIdentifierNotFound) => 0x92,
        }
    }
}

#[derive(Clone, Copy, Debug, PartialEq, Eq, Structural)]
pub enum SubackReason {
    GrantedQos0,
    GrantedQos1,
    GrantedQos2,
    UnspecifiedError,
    ImplementationSpecific,
    NotAuthorized,
    TopicFilterInvalid,
    QuotaExceeded,
}

impl SubackReason {
    pub open spec fn code_spec(self) -> u8 {
        match self {
            SubackReason::GrantedQos0 => 0,
            SubackReason::GrantedQos1 => 1,
            SubackReason::GrantedQos2 => 2,
            SubackReason::UnspecifiedError => 0x80,
            SubackReason::ImplementationSpecific => 0x83,
            SubackReason::NotAuthorized => 0x87,
            SubackReason::TopicFilterInvalid => 0x8f,
            SubackReason::QuotaExceeded => 0x97,
        }
    }

    /// The reason code on the wire.
    pub fn code(self) -> (code: u8)
        ensures
            code == self.code_spec(),
    {
        match self {
            SubackReason::GrantedQos0 => 0,
            SubackReason::GrantedQos1 => 1,
            SubackReason::GrantedQos2 => 2,
            SubackReason::UnspecifiedError => 0x80,
            SubackReason::ImplementationSpecific => 0x83,
            SubackReason::NotAuthorized => 0x87,
            SubackReason::TopicFilterInvalid => 0x8f,
            SubackReason::QuotaExceeded => 0x97,
        }
    }

    /// The reason that grants a quality of service.
    pub fn granted(qos: u8) -> (result: Result<SubackReason, Error>)
        ensures
            result is Ok <==> qos <= 2,
            result is Ok ==> result->Ok_0.code_spec() == qos,
            result is Err ==> result->Err_0 == Error::Invalid,
    {
        match qos {
            0 => Ok(SubackReason::GrantedQos0),
            1 => Ok(SubackReason::GrantedQos1),
            2 => Ok(SubackReason::GrantedQos2),
            _ => Err(Error::Invalid),
        }
    }
}

#[derive(Clone, Copy, Debug, PartialEq, Eq, Structural)]
pub enum UnsubackReason {
    Success,
    NoSubscriptionExisted,
}

impl UnsubackReason {
    pub open spec fn code_spec(self) -> u8 {
        match self {
            UnsubackReason::Success => 0,
            UnsubackReason::NoSubscriptionExisted => 0x11,
        }
    }

    /// The reason code on the wire.
    pub fn code(self) -> (code: u8)
        ensures
            code == self.code_spec(),
    {
        match self {
            UnsubackReason::Success => 0,
            UnsubackReason::NoSubscriptionExisted => 0x11,
        }
    }
}

pub open spec fn connect_reason_spec(error: Error) -> ConnackReason {
    match error {
        Error::Authentication => ConnackReason::BadCredentials,
        Error::Forbidden => ConnackReason::NotAuthorized,
        Error::Invalid => ConnackReason::ClientIdentifierInvalid,
        Error::Overloaded | Error::Draining => ConnackReason::ServerBusy,
        Error::Unavailable | Error::Timeout => ConnackReason::ServerUnavailable,
        _ => ConnackReason::ImplementationSpecific,
    }
}

/// The reason with which a connection request is refused after an error.
pub fn connect_reason(error: &Error) -> (reason: ConnackReason)
    ensures
        reason == connect_reason_spec(*error),
{
    match error {
        Error::Authentication => ConnackReason::BadCredentials,
        Error::Forbidden => ConnackReason::NotAuthorized,
        Error::Invalid => ConnackReason::ClientIdentifierInvalid,
        Error::Overloaded | Error::Draining => ConnackReason::ServerBusy,
        Error::Unavailable | Error::Timeout => ConnackReason::ServerUnavailable,
        Error::Configuration
        | Error::Conflict
        | Error::Storage
        | Error::IncompatibleSpool
        | Error::Internal
        | Error::Codec => ConnackReason::ImplementationSpecific,
    }
}

pub open spec fn disconnect_reason_spec(error: Error) -> DisconnectReason {
    match error {
        Error::Authentication | Error::Forbidden => DisconnectReason::NotAuthorized,
        Error::Invalid | Error::Conflict => DisconnectReason::ProtocolError,
        Error::Overloaded => DisconnectReason::QuotaExceeded,
        Error::Unavailable => DisconnectReason::ServerBusy,
        Error::Timeout => DisconnectReason::KeepAliveTimeout,
        Error::Draining => DisconnectReason::ServerShuttingDown,
        Error::Codec => DisconnectReason::PayloadFormatInvalid,
        _ => DisconnectReason::ImplementationSpecific,
    }
}

/// The reason with which to disconnect after an error.
pub fn disconnect_reason(error: &Error) -> (reason: DisconnectReason)
    ensures
        reason == disconnect_reason_spec(*error),
{
    match error {
        Error::Authentication | Error::Forbidden => DisconnectReason::NotAuthorized,
        Error::Invalid | Error::Conflict => DisconnectReason::ProtocolError,
        Error::Overloaded => DisconnectReason::QuotaExceeded,
        Error::Unavailable => DisconnectReason::ServerBusy,
        Error::Timeout => DisconnectReason::KeepAliveTimeout,
        Error::Draining => DisconnectReason::ServerShuttingDown,
        Error::Codec => DisconnectReason::PayloadFormatInvalid,
        Error::Configuration | Error::Storage | Error::IncompatibleSpool | Error::Internal => {
            DisconnectReason::ImplementationSpecific
        },
    }
}

pub open spec fn subscription_reason_spec(error: Error) -> SubackReason {
    match error {
        Error::Forbidden | Error::Authentication => SubackReason::NotAuthorized,
        Error::Invalid => SubackReason::TopicFilterInvalid,
        Error::Overloaded => SubackReason::QuotaExceeded,
        Error::Draining | Error::Unavailable | Error::Timeout => SubackReason::UnspecifiedError,
        _ => SubackReason::ImplementationSpecific,
    }
}

/// The reason with which one subscription is refused after an error.
pub fn subscription_reason(error: &Error) -> (reason: SubackReason)
    ensures
        reason == subscription_reason_spec(*error),
{
    match error {
        Error::Forbidden | Error::Authentication => SubackReason::NotAuthorized,
        Error::Invalid => SubackReason::TopicFilterInvalid,
        Error::Overloaded => SubackReason::QuotaExceeded,
        Error::Draining | Error::Unavailable | Error::Timeout => SubackReason::UnspecifiedError,
        _ => SubackReason::ImplementationSpecific,
    }
}

/// Why a packet was refused, as the reason code to report.
#[derive(Clone, Copy, Debug, PartialEq, Eq, Structural)]
pub struct DecodeError {
    pub reason: u8,
}

pub open spec fn malformed_spec() -> DecodeError {
    DecodeError { reason: MALFORMED_PACKET }
}

pub open spec fn protocol_spec() -> DecodeError {
    DecodeError { reason: PROTOCOL_ERROR }
}

pub open spec fn too_large_spec() -> DecodeError {
    DecodeError { reason: PACKET_TOO_LARGE }
}

fn malformed() -> (error: DecodeError)
    ensures
        error == malformed_spec(),
{
    DecodeError { reason: MALFORMED_PACKET }
}

fn protocol() -> (error: DecodeError)
    ensures
        error == protocol_spec(),
{
    DecodeError { reason: PROTOCOL_ERROR }
}

fn too_large() -> (error: DecodeError)
    ensures
        error == too_large_spec(),
{
    DecodeError { reason: PACKET_TOO_LARGE }
}

/// How an error of the shared wire format is reported.
pub open spec fn wire_error(error: Error) -> DecodeError {
    if error == Error::Overloaded {
        too_large_spec()
    } else {
        malformed_spec()
    }
}

fn from_wire_error(error: Error) -> (result: DecodeError)
    ensures
        result == wire_error(error),
{
    if error == Error::Overloaded {
        too_large()
    } else {
        malformed()
    }
}

/// The properties of a packet. Which of them may be there depends on the packet.
#[derive(PartialEq, Eq)]
pub struct Properties {
    pub payload_format: Option<u8>,
    pub message_expiry: Option<u32>,
    pub content_type: Option<String>,
    pub response_topic: Option<String>,
    pub correlation_data: Option<Bytes>,
    pub session_expiry: Option<u32>,
    pub receive_maximum: Option<u16>,
    pub maximum_packet_size: Option<u32>,
    pub topic_alias_maximum: Option<u16>,
    pub request_response_information: Option<bool>,
    pub request_problem_information: Option<bool>,
    pub authentication_method: Option<String>,
    pub authentication_data: Option<Bytes>,
    pub will_delay: Option<u32>,
    pub user_properties: Vec<(String, String)>,
}

/// Properties with their text and bytes as mathematical sequences.
#[verifier::ext_equal]
pub struct PropertiesView {
    pub payload_format: Option<u8>,
    pub message_expiry: Option<u32>,
    pub content_type: Option<Seq<char>>,
    pub response_topic: Option<Seq<char>>,
    pub correlation_data: Option<Seq<u8>>,
    pub session_expiry: Option<u32>,
    pub receive_maximum: Option<u16>,
    pub maximum_packet_size: Option<u32>,
    pub topic_alias_maximum: Option<u16>,
    pub request_response_information: Option<bool>,
    pub request_problem_information: Option<bool>,
    pub authentication_method: Option<Seq<char>>,
    pub authentication_data: Option<Seq<u8>>,
    pub will_delay: Option<u32>,
    pub user_properties: Seq<(Seq<char>, Seq<char>)>,
}

pub open spec fn text_view(text: Option<String>) -> Option<Seq<char>> {
    match text {
        Some(value) => Some(value@),
        None => None,
    }
}

pub open spec fn data_view(data: Option<Bytes>) -> Option<Seq<u8>> {
    match data {
        Some(value) => Some(bytes_contents(value)),
        None => None,
    }
}

pub open spec fn pair_views(pairs: Seq<(String, String)>) -> Seq<(Seq<char>, Seq<char>)> {
    Seq::new(pairs.len(), |i: int| (pairs[i].0@, pairs[i].1@))
}

impl View for Properties {
    type V = PropertiesView;

    open spec fn view(&self) -> PropertiesView {
        PropertiesView {
            payload_format: self.payload_format,
            message_expiry: self.message_expiry,
            content_type: text_view(self.content_type),
            response_topic: text_view(self.response_topic),
            correlation_data: data_view(self.correlation_data),
            session_expiry: self.session_expiry,
            receive_maximum: self.receive_maximum,
            maximum_packet_size: self.maximum_packet_size,
            topic_alias_maximum: self.topic_alias_maximum,
            request_response_information: self.request_response_information,
            request_problem_information: self.request_problem_information,
            authentication_method: text_view(self.authentication_method),
            authentication_data: data_view(self.authentication_data),
            will_delay: self.will_delay,
            user_properties: pair_views(self.user_properties@),
        }
    }
}

/// No property at all.
pub open spec fn no_properties() -> PropertiesView {
    PropertiesView {
        payload_format: None,
        message_expiry: None,
        content_type: None,
        response_topic: None,
        correlation_data: None,
        session_expiry: None,
        receive_maximum: None,
        maximum_packet_size: None,
        topic_alias_maximum: None,
        request_response_information: None,
        request_problem_information: None,
        authentication_method: None,
        authentication_data: None,
        will_delay: None,
        user_properties: Seq::empty(),
    }
}

impl Default for Properties {
    fn default() -> (properties: Properties)
        ensures
            properties@ == no_properties(),
    {
        let properties = Properties {
            payload_format: None,
            message_expiry: None,
            content_type: None,
            response_topic: None,
            correlation_data: None,
            session_expiry: None,
            receive_maximum: None,
            maximum_packet_size: None,
            topic_alias_maximum: None,
            request_response_information: None,
            request_problem_information: None,
            authentication_method: None,
            authentication_data: None,
            will_delay: None,
            user_properties: Vec::new(),
        };
        assert(properties@ =~= no_properties());
        properties
    }
}

pub open spec fn text_size(text: Option<Seq<char>>) -> nat {
    match text {
        Some(value) => text_bytes(value),
        None => 0,
    }
}

pub open spec fn data_size(data: Option<Seq<u8>>) -> nat {
    match data {
        Some(value) => value.len(),
        None => 0,
    }
}

/// The bytes of the user properties, each pair with four bytes of framing.
pub open spec fn user_bytes(pairs: Seq<(Seq<char>, Seq<char>)>) -> nat
    decreases pairs.len(),
{
    if pairs.len() == 0 {
        0
    } else {
        user_bytes(pairs.drop_last()) + text_bytes(pairs.last().0) + text_bytes(pairs.last().1) + 4
    }
}

pub open spec fn retained_bytes_spec(properties: PropertiesView) -> nat {
    text_size(properties.content_type) + text_size(properties.response_topic) + data_size(
        properties.correlation_data,
    ) + user_bytes(properties.user_properties)
}

impl Properties {
    /// The bytes of the properties that a stored message keeps.
    pub fn retained_bytes(&self) -> (total: usize)
        requires
            retained_bytes_spec(self@) <= usize::MAX,
        ensures
            total == retained_bytes_spec(self@),
    {
        let ghost model = self@;
        let content: usize = match &self.content_type {
            Some(value) => byte_len(value.as_str()),
            None => 0,
        };
        let topic: usize = match &self.response_topic {
            Some(value) => byte_len(value.as_str()),
            None => 0,
        };
        let data: usize = match &self.correlation_data {
            Some(value) => value.len(),
            None => 0,
        };
        assert(content == text_size(model.content_type));
        assert(topic == text_size(model.response_topic));
        assert(data == data_size(model.correlation_data));
        let mut total: usize = content + topic + data;
        let mut at: usize = 0;
        let ghost pairs = pair_views(self.user_properties@);
        assert(user_bytes(pairs.take(0)) == 0);
        while at < self.user_properties.len()
            invariant
                at <= self.user_properties.len(),
                pairs == pair_views(self.user_properties@),
                total == content + topic + data + user_bytes(pairs.take(at as int)),
                content + topic + data + user_bytes(pairs) <= usize::MAX,
            decreases self.user_properties.len() - at,
        {
            proof {
                lemma_user_bytes_prefix(pairs, at as int + 1);
                assert(pairs.take(at as int + 1).drop_last() =~= pairs.take(at as int));
                assert(pairs.take(at as int + 1).last() == pairs[at as int]);
            }
            let key: usize = byte_len(self.user_properties[at].0.as_str());
            let value: usize = byte_len(self.user_properties[at].1.as_str());
            total = total + key + value + 4;
            at = at + 1;
        }
        assert(pairs.take(pairs.len() as int) =~= pairs);
        total
    }
}

pub proof fn lemma_user_bytes_prefix(pairs: Seq<(Seq<char>, Seq<char>)>, count: int)
    requires
        0 <= count <= pairs.len(),
    ensures
        user_bytes(pairs.take(count)) <= user_bytes(pairs),
    decreases pairs.len(),
{
    if count == pairs.len() {
        assert(pairs.take(count) =~= pairs);
    } else {
        lemma_user_bytes_prefix(pairs.drop_last(), count);
        assert(pairs.drop_last().take(count) =~= pairs.take(count));
    }
}

/// The kind of packet that properties belong to.
#[derive(Clone, Copy, Debug, PartialEq, Eq, Structural)]
pub enum PropertyContext {
    Connect,
    Will,
    Publish,
    Subscribe,
    Unsubscribe,
    Disconnect,
    Ack,
}

/// One byte and what follows it.
pub open spec fn read_byte(s: Seq<u8>) -> Result<(u8, Seq<u8>), DecodeError> {
    match take_byte(s) {
        Some(found) => Ok(found),
        None => Err(malformed_spec()),
    }
}

pub open spec fn read_short(s: Seq<u8>) -> Result<(u16, Seq<u8>), DecodeError> {
    match take_short(s) {
        Some(found) => Ok(found),
        None => Err(malformed_spec()),
    }
}

pub open spec fn read_integer(s: Seq<u8>) -> Result<(u32, Seq<u8>), DecodeError> {
    if s.len() < 4 {
        Err(malformed_spec())
    } else {
        Ok((be(s.take(4)) as u32, s.skip(4)))
    }
}

/// Length-prefixed bytes; too many are reported as such before a missing end is.
pub open spec fn read_binary(s: Seq<u8>, maximum: nat) -> Result<(Seq<u8>, Seq<u8>), DecodeError> {
    match read_short(s) {
        Err(error) => Err(error),
        Ok((length, rest)) => if length > maximum {
            Err(too_large_spec())
        } else if length > rest.len() {
            Err(malformed_spec())
        } else {
            Ok((rest.take(length as int), rest.skip(length as int)))
        },
    }
}

pub open spec fn read_string(s: Seq<u8>, maximum: nat) -> Result<(Seq<char>, Seq<u8>), DecodeError> {
    match read_binary(s, maximum) {
        Err(error) => Err(error),
        Ok((bytes, rest)) => if permitted_bytes(bytes) {
            Ok((decode_utf8(bytes), rest))
        } else {
            Err(malformed_spec())
        },
    }
}

/// A packet identifier, which is never zero.
pub open spec fn read_id(s: Seq<u8>) -> Result<(u16, Seq<u8>), DecodeError> {
    match read_short(s) {
        Err(error) => Err(error),
        Ok((id, rest)) => if id == 0 {
            Err(protocol_spec())
        } else {
            Ok((id, rest))
        },
    }
}

/// A variable byte integer, which must be complete.
pub open spec fn read_variable(s: Seq<u8>, maximum: nat) -> Result<(usize, Seq<u8>), DecodeError> {
    match remaining_length_spec(s, maximum) {
        Err(error) => Err(wire_error(error)),
        Ok(None) => Err(malformed_spec()),
        Ok(Some((value, used))) => Ok((value, s.skip(used as int))),
    }
}

/// Whether a property may stand in the context, or how it is refused in any context.
pub open spec fn property_allowed(id: u8, context: PropertyContext) -> Result<bool, DecodeError> {
    if id == 0x01 || id == 0x02 || id == 0x03 || id == 0x08 || id == 0x09 {
        Ok(context == PropertyContext::Will || context == PropertyContext::Publish)
    } else if id == 0x11 {
        Ok(context == PropertyContext::Connect || context == PropertyContext::Disconnect)
    } else if id == 0x15 || id == 0x16 || id == 0x17 || id == 0x19 || id == 0x21 || id == 0x22 || id
        == 0x27 {
        Ok(context == PropertyContext::Connect)
    } else if id == 0x18 {
        Ok(context == PropertyContext::Will)
    } else if id == 0x1f {
        Ok(context == PropertyContext::Ack || context == PropertyContext::Disconnect)
    } else if id == 0x26 {
        Ok(true)
    } else if id == 0x23 {
        Err(DecodeError { reason: TOPIC_ALIAS_INVALID })
    } else if id == 0x0b {
        Err(DecodeError { reason: SUBSCRIPTION_IDENTIFIERS_NOT_SUPPORTED })
    } else {
        Err(malformed_spec())
    }
}

/// A byte that is zero or one.
pub open spec fn read_flag(s: Seq<u8>) -> Result<(u8, Seq<u8>), DecodeError> {
    match read_byte(s) {
        Err(error) => Err(error),
        Ok((value, rest)) => if value > 1 {
            Err(protocol_spec())
        } else {
            Ok((value, rest))
        },
    }
}

/// One user property, appended to those already read.
pub open spec fn read_user_property(s: Seq<u8>, seen: PropertiesView, limits: Limits) -> Result<
    (PropertiesView, Seq<u8>),
    DecodeError,
> {
    let maximum = limits.max_mqtt_user_property_bytes as nat;
    if seen.user_properties.len() >= limits.max_mqtt_user_properties {
        Err(too_large_spec())
    } else {
        match read_string(s, maximum) {
            Err(error) => Err(error),
            Ok((key, s1)) => match read_string(s1, maximum) {
                Err(error) => Err(error),
                Ok((value, s2)) => {
                    let pairs = seen.user_properties.push((key, value));
                    if user_bytes(pairs) > maximum {
                        Err(too_large_spec())
                    } else {
                        Ok((PropertiesView { user_properties: pairs, ..seen }, s2))
                    }
                },
            },
        }
    }
}

/// The value of the property `id`, added to those already read.
#[verifier::opaque]
pub open spec fn read_property(id: u8, s: Seq<u8>, seen: PropertiesView, limits: Limits) -> Result<
    (PropertiesView, Seq<u8>),
    DecodeError,
> {
    if id == 0x01 {
        match read_flag(s) {
            Err(error) => Err(error),
            Ok((value, rest)) => Ok((PropertiesView { payload_format: Some(value), ..seen }, rest)),
        }
    } else if id == 0x02 {
        match read_integer(s) {
            Err(error) => Err(error),
            Ok((value, rest)) => Ok((PropertiesView { message_expiry: Some(value), ..seen }, rest)),
        }
    } else if id == 0x03 {
        match read_string(s, limits.max_mqtt_content_type_bytes as nat) {
            Err(error) => Err(error),
            Ok((value, rest)) => Ok((PropertiesView { content_type: Some(value), ..seen }, rest)),
        }
    } else if id == 0x08 {
        match read_string(s, limits.max_mqtt_response_topic_bytes as nat) {
            Err(error) => Err(error),
            Ok((value, rest)) => if !topic_valid(value, limits, false) {
                Err(protocol_spec())
            } else {
                Ok((PropertiesView { response_topic: Some(value), ..seen }, rest))
            },
        }
    } else if id == 0x09 {
        match read_binary(s, limits.max_mqtt_correlation_data_bytes as nat) {
            Err(error) => Err(error),
            Ok((value, rest)) => Ok(
                (PropertiesView { correlation_data: Some(value), ..seen }, rest),
            ),
        }
    } else if id == 0x11 {
        match read_integer(s) {
            Err(error) => Err(error),
            Ok((value, rest)) => Ok((PropertiesView { session_expiry: Some(value), ..seen }, rest)),
        }
    } else if id == 0x15 {
        match read_string(s, limits.max_mqtt_property_bytes as nat) {
            Err(error) => Err(error),
            Ok((value, rest)) => Ok(
                (PropertiesView { authentication_method: Some(value), ..seen }, rest),
            ),
        }
    } else if id == 0x16 {
        match read_binary(s, limits.max_mqtt_property_bytes as nat) {
            Err(error) => Err(error),
            Ok((value, rest)) => Ok(
                (PropertiesView { authentication_data: Some(value), ..seen }, rest),
            ),
        }
    } else if id == 0x17 {
        match read_flag(s) {
            Err(error) => Err(error),
            Ok((value, rest)) => Ok(
                (PropertiesView { request_problem_information: Some(value != 0), ..seen }, rest),
            ),
        }
    } else if id == 0x19 {
        match read_flag(s) {
            Err(error) => Err(error),
            Ok((value, rest)) => Ok(
                (PropertiesView { request_response_information: Some(value != 0), ..seen }, rest),
            ),
        }
    } else if id == 0x18 {
        match read_integer(s) {
            Err(error) => Err(error),
            Ok((value, rest)) => Ok((PropertiesView { will_delay: Some(value), ..seen }, rest)),
        }
    } else if id == 0x1f {
        match read_string(s, limits.max_mqtt_property_bytes as nat) {
            Err(error) => Err(error),
            Ok((_, rest)) => Ok((seen, rest)),
        }
    } else if id == 0x21 {
        match read_short(s) {
            Err(error) => Err(error),
            Ok((value, rest)) => if value == 0 {
                Err(protocol_spec())
            } else {
                Ok((PropertiesView { receive_maximum: Some(value), ..seen }, rest))
            },
        }
    } else if id == 0x22 {
        match read_short(s) {
            Err(error) => Err(error),
            Ok((value, rest)) => Ok(
                (PropertiesView { topic_alias_maximum: Some(value), ..seen }, rest),
            ),
        }
    } else if id == 0x26 {
        read_user_property(s, seen, limits)
    } else if id == 0x27 {
        match read_integer(s) {
            Err(error) => Err(error),
            Ok((value, rest)) => if value == 0 {
                Err(protocol_spec())
            } else {
                Ok((PropertiesView { maximum_packet_size: Some(value), ..seen }, rest))
            },
        }
    } else {
        Err(malformed_spec())
    }
}

/// All properties in `s`, added to those already read. Only user properties may be repeated.
#[verifier::opaque]
pub open spec fn read_property_list(
    s: Seq<u8>,
    context: PropertyContext,
    ids: Set<u8>,
    seen: PropertiesView,
    limits: Limits,
) -> Result<PropertiesView, DecodeError>
    decreases s.len(),
{
    if s.len() == 0 {
        if seen.authentication_data is Some && seen.authentication_method is None {
            Err(protocol_spec())
        } else {
            Ok(seen)
        }
    } else {
        let id = s[0];
        if id >= 64 {
            Err(malformed_spec())
        } else if id != 0x26 && ids.contains(id) {
            Err(protocol_spec())
        } else {
            match property_allowed(id, context) {
                Err(error) => Err(error),
                Ok(false) => Err(malformed_spec()),
                Ok(true) => match read_property(id, s.skip(1), seen, limits) {
                    Err(error) => Err(error),
                    Ok((next, rest)) => if rest.len() < s.len() {
                        read_property_list(rest, context, ids.insert(id), next, limits)
                    } else {
                        Err(malformed_spec())
                    },
                },
            }
        }
    }
}

/// A property field: its length and that many bytes of properties.
#[verifier::opaque]
pub open spec fn read_properties(s: Seq<u8>, context: PropertyContext, limits: Limits) -> Result<
    (PropertiesView, Seq<u8>),
    DecodeError,
> {
    match read_variable(s, limits.max_mqtt_property_bytes as nat) {
        Err(error) => Err(error),
        Ok((length, rest)) => if length > rest.len() {
            Err(malformed_spec())
        } else {
            match read_property_list(
                rest.take(length as int),
                context,
                Set::empty(),
                no_properties(),
                limits,
            ) {
                Err(error) => Err(error),
                Ok(properties) => Ok((properties, rest.skip(length as int))),
            }
        },
    }
}

proof fn lemma_property_consumes(id: u8, s: Seq<u8>, seen: PropertiesView, limits: Limits)
    ensures
        read_property(id, s, seen, limits) is Ok ==> (read_property(id, s, seen, limits)->Ok_0).1.len()
            <= s.len(),
{
    reveal(read_property);
}

/// Reads a packet body from the front.
struct Cursor {
    bytes: Bytes,
}

/// Whether an identifier is marked.
spec fn marked(mask: u64, id: u8) -> bool {
    mask & (1u64 << id) != 0
}

proof fn lemma_mark(mask: u64, id: u8)
    requires
        id < 64,
    ensures
        forall|other: u8|
            other < 64 ==> (#[trigger] marked(mask | (1u64 << id), other) <==> marked(mask, other)
                || other == id),
{
    assert forall|other: u8| other < 64 implies (#[trigger] marked(mask | (1u64 << id), other)
        <==> marked(mask, other) || other == id) by {
        assert(((mask | (1u64 << id)) & (1u64 << other) != 0) <==> (mask & (1u64 << other) != 0)
            || other == id) by (bit_vector)
            requires
                id < 64,
                other < 64,
        ;
    }
}

proof fn lemma_unmarked()
    ensures
        forall|other: u8| other < 64 ==> !#[trigger] marked(0, other),
{
    assert forall|other: u8| other < 64 implies !#[trigger] marked(0, other) by {
        assert(0u64 & (1u64 << other) == 0) by (bit_vector)
            requires
                other < 64,
        ;
    }
}

impl Cursor {
    spec fn rest(self) -> Seq<u8> {
        bytes_contents(self.bytes)
    }

    fn byte(&mut self) -> (result: Result<u8, DecodeError>)
        ensures
            match read_byte(old(self).rest()) {
                Ok((value, rest)) => result == Ok::<u8, DecodeError>(value) && final(self).rest()
                    == rest,
                Err(error) => result == Err::<u8, DecodeError>(error),
            },
    {
        if self.bytes.is_empty() {
            return Err(malformed());
        }
        Ok(get_u8(&mut self.bytes))
    }

    fn short(&mut self) -> (result: Result<u16, DecodeError>)
        ensures
            match read_short(old(self).rest()) {
                Ok((value, rest)) => result == Ok::<u16, DecodeError>(value) && final(self).rest()
                    == rest,
                Err(error) => result == Err::<u16, DecodeError>(error),
            },
    {
        if self.bytes.len() < 2 {
            return Err(malformed());
        }
        Ok(get_u16(&mut self.bytes))
    }

    fn integer(&mut self) -> (result: Result<u32, DecodeError>)
        ensures
            match read_integer(old(self).rest()) {
                Ok((value, rest)) => result == Ok::<u32, DecodeError>(value) && final(self).rest()
                    == rest,
                Err(error) => result == Err::<u32, DecodeError>(error),
            },
    {
        if self.bytes.len() < 4 {
            return Err(malformed());
        }
        Ok(get_u32(&mut self.bytes))
    }

    fn binary(&mut self, maximum: usize) -> (result: Result<Bytes, DecodeError>)
        ensures
            match read_binary(old(self).rest(), maximum as nat) {
                Ok((value, rest)) => result is Ok && bytes_contents(result->Ok_0) == value
                    && final(self).rest() == rest,
                Err(error) => result is Err && result->Err_0 == error,
            },
    {
        let length: usize = self.short()? as usize;
        if length > maximum {
            return Err(too_large());
        }
        if length > self.bytes.len() {
            return Err(malformed());
        }
        Ok(self.bytes.split_to(length))
    }

    fn string(&mut self, maximum: usize) -> (result: Result<String, DecodeError>)
        ensures
            match read_string(old(self).rest(), maximum as nat) {
                Ok((value, rest)) => result is Ok && result->Ok_0@ == value && encode_utf8(
                    result->Ok_0@,
                ).len() <= maximum && final(self).rest() == rest,
                Err(error) => result is Err && result->Err_0 == error,
            },
    {
        let bytes = self.binary(maximum)?;
        match valid_utf8(bytes_slice(&bytes)) {
            Ok(text) => Ok(text.to_owned()),
            Err(_) => Err(malformed()),
        }
    }

    fn id(&mut self) -> (result: Result<u16, DecodeError>)
        ensures
            match read_id(old(self).rest()) {
                Ok((value, rest)) => result == Ok::<u16, DecodeError>(value) && final(self).rest()
                    == rest,
                Err(error) => result == Err::<u16, DecodeError>(error),
            },
    {
        let id: u16 = self.short()?;
        if id == 0 {
            return Err(protocol());
        }
        Ok(id)
    }

    fn flag(&mut self) -> (result: Result<u8, DecodeError>)
        ensures
            match read_flag(old(self).rest()) {
                Ok((value, rest)) => result == Ok::<u8, DecodeError>(value) && final(self).rest()
                    == rest,
                Err(error) => result == Err::<u8, DecodeError>(error),
            },
    {
        let value: u8 = self.byte()?;
        if value > 1 {
            return Err(protocol());
        }
        Ok(value)
    }

    fn variable(&mut self, maximum: usize) -> (result: Result<usize, DecodeError>)
        ensures
            match read_variable(old(self).rest(), maximum as nat) {
                Ok((value, rest)) => result == Ok::<usize, DecodeError>(value) && final(self).rest()
                    == rest,
                Err(error) => result == Err::<usize, DecodeError>(error),
            },
    {
        match remaining_length(bytes_slice(&self.bytes), maximum) {
            Err(error) => Err(from_wire_error(error)),
            Ok(None) => Err(malformed()),
            Ok(Some((value, used))) => {
                advance(&mut self.bytes, used);
                Ok(value)
            },
        }
    }

    fn user_property(&mut self, properties: &mut Properties, total: &mut usize, limits: &Limits) -> (result: Result<
        (),
        DecodeError,
    >)
        requires
            *old(total) == user_bytes(old(properties)@.user_properties),
        ensures
            match read_user_property(old(self).rest(), old(properties)@, *limits) {
                Ok((next, rest)) => result is Ok && final(properties)@ == next && final(self).rest()
                    == rest && *final(total) == user_bytes(next.user_properties),
                Err(error) => result is Err && result->Err_0 == error,
            },
    {
        if properties.user_properties.len() >= limits.max_mqtt_user_properties {
            return Err(too_large());
        }
        let key = self.string(limits.max_mqtt_user_property_bytes)?;
        let value = self.string(limits.max_mqtt_user_property_bytes)?;
        let ghost pairs = old(properties)@.user_properties.push((key@, value@));
        proof {
            assert(pairs.drop_last() =~= old(properties)@.user_properties);
        }
        let key_length: usize = byte_len(key.as_str());
        let value_length: usize = byte_len(value.as_str());
        let next: usize = match total.checked_add(key_length) {
            None => return Err(too_large()),
            Some(sum) => match sum.checked_add(value_length) {
                None => return Err(too_large()),
                Some(sum) => match sum.checked_add(4) {
                    None => return Err(too_large()),
                    Some(sum) => sum,
                },
            },
        };
        if next > limits.max_mqtt_user_property_bytes {
            return Err(too_large());
        }
        *total = next;
        properties.user_properties.push((key, value));
        proof {
            assert(pair_views(properties.user_properties@) =~= pairs);
            assert(properties@ =~= (PropertiesView { user_properties: pairs, ..old(properties)@ }));
        }
        Ok(())
    }

    #[verifier::rlimit(40)]
    fn property(&mut self, id: u8, properties: &mut Properties, total: &mut usize, limits: &Limits) -> (result: Result<
        (),
        DecodeError,
    >)
        requires
            *old(total) == user_bytes(old(properties)@.user_properties),
        ensures
            match read_property(id, old(self).rest(), old(properties)@, *limits) {
                Ok((next, rest)) => result is Ok && final(properties)@ == next && final(self).rest()
                    == rest && *final(total) == user_bytes(next.user_properties),
                Err(error) => result is Err && result->Err_0 == error,
            },
    {
        reveal(read_property);
        match id {
            0x01 => {
                properties.payload_format = Some(self.flag()?);
            },
            0x02 => {
                properties.message_expiry = Some(self.integer()?);
            },
            0x03 => {
                properties.content_type = Some(self.string(limits.max_mqtt_content_type_bytes)?);
            },
            0x08 => {
                let value = self.string(limits.max_mqtt_response_topic_bytes)?;
                if !valid_topic(value.as_str(), limits, false) {
                    return Err(protocol());
                }
                properties.response_topic = Some(value);
            },
            0x09 => {
                properties.correlation_data = Some(
                    self.binary(limits.max_mqtt_correlation_data_bytes)?,
                );
            },
            0x11 => {
                properties.session_expiry = Some(self.integer()?);
            },
            0x15 => {
                properties.authentication_method = Some(
                    self.string(limits.max_mqtt_property_bytes)?,
                );
            },
            0x16 => {
                properties.authentication_data = Some(self.binary(limits.max_mqtt_property_bytes)?);
            },
            0x17 => {
                let value: u8 = self.flag()?;
                properties.request_problem_information = Some(value != 0);
            },
            0x19 => {
                let value: u8 = self.flag()?;
                properties.request_response_information = Some(value != 0);
            },
            0x18 => {
                properties.will_delay = Some(self.integer()?);
            },
            0x1f => {
                let _ = self.string(limits.max_mqtt_property_bytes)?;
            },
            0x21 => {
                let value: u16 = self.short()?;
                if value == 0 {
                    return Err(protocol());
                }
                properties.receive_maximum = Some(value);
            },
            0x22 => {
                properties.topic_alias_maximum = Some(self.short()?);
            },
            0x26 => {
                self.user_property(properties, total, limits)?;
            },
            0x27 => {
                let value: u32 = self.integer()?;
                if value == 0 {
                    return Err(protocol());
                }
                properties.maximum_packet_size = Some(value);
            },
            _ => {
                return Err(malformed());
            },
        }
        Ok(())
    }

    fn properties(&mut self, context: PropertyContext, limits: &Limits) -> (result: Result<
        Properties,
        DecodeError,
    >)
        ensures
            match read_properties(old(self).rest(), context, *limits) {
                Ok((value, rest)) => result is Ok && result->Ok_0@ == value && final(self).rest()
                    == rest,
                Err(error) => result is Err && result->Err_0 == error,
            },
    {
        reveal(read_properties);
        let length: usize = self.variable(limits.max_mqtt_property_bytes)?;
        if length > self.bytes.len() {
            return Err(malformed());
        }
        let mut properties = Cursor { bytes: self.bytes.split_to(length) };
        let mut result = Properties::default();
        let mut seen: u64 = 0;
        let mut user_total: usize = 0;
        let ghost start = properties.rest();
        let ghost mut ids: Set<u8> = Set::empty();
        proof {
            lemma_unmarked();
            reveal(read_property_list);
        }
        while !properties.bytes.is_empty()
            invariant
                user_total == user_bytes(result@.user_properties),
                forall|other: u8| other < 64 ==> (#[trigger] marked(seen, other) <==> ids.contains(other)),
                read_property_list(start, context, Set::empty(), no_properties(), *limits)
                    == read_property_list(properties.rest(), context, ids, result@, *limits),
                read_properties(old(self).rest(), context, *limits) == (match read_property_list(
                    start,
                    context,
                    Set::empty(),
                    no_properties(),
                    *limits,
                ) {
                    Ok(found) => Ok::<(PropertiesView, Seq<u8>), DecodeError>((found, self.rest())),
                    Err(error) => Err::<(PropertiesView, Seq<u8>), DecodeError>(error),
                }),
            decreases properties.rest().len(),
        {
            let ghost before = properties.rest();
            let ghost model = result@;
            reveal(read_property_list);
            let id: u8 = properties.byte()?;
            if id >= 64 {
                return Err(malformed());
            }
            assert(marked(seen, id) == (seen & (1u64 << id) != 0));
            if id != 0x26 && seen & (1u64 << id) != 0 {
                return Err(protocol());
            }
            proof {
                lemma_mark(seen, id);
                lemma_property_consumes(id, before.skip(1), model, *limits);
            }
            seen = seen | (1u64 << id);
            if !check_property(id, context)? {
                return Err(malformed());
            }
            properties.property(id, &mut result, &mut user_total, limits)?;
            proof {
                ids = ids.insert(id);
            }
        }
        if result.authentication_data.is_some() && result.authentication_method.is_none() {
            return Err(protocol());
        }
        Ok(result)
    }
}

fn check_property(id: u8, context: PropertyContext) -> (result: Result<bool, DecodeError>)
    ensures
        result == property_allowed(id, context),
{
    match id {
        0x01 | 0x02 | 0x03 | 0x08 | 0x09 => Ok(
            context == PropertyContext::Will || context == PropertyContext::Publish,
        ),
        0x11 => Ok(context == PropertyContext::Connect || context == PropertyContext::Disconnect),
        0x15 | 0x16 | 0x17 | 0x19 | 0x21 | 0x22 | 0x27 => Ok(context == PropertyContext::Connect),
        0x18 => Ok(context == PropertyContext::Will),
        0x1f => Ok(context == PropertyContext::Ack || context == PropertyContext::Disconnect),
        0x26 => Ok(true),
        0x23 => Err(DecodeError { reason: TOPIC_ALIAS_INVALID }),
        0x0b => Err(DecodeError { reason: SUBSCRIPTION_IDENTIFIERS_NOT_SUPPORTED }),
        _ => Err(malformed()),
    }
}

/// Decodes a complete property field, its length at the front.
pub fn decode_properties(input: &[u8], context: PropertyContext, limits: &Limits) -> (result: Result<
    Properties,
    DecodeError,
>)
    ensures
        input@.len() > limits.max_mqtt_property_bytes + 4 ==> result is Err && result->Err_0
            == too_large_spec(),
        input@.len() <= limits.max_mqtt_property_bytes + 4 ==> match read_properties(
            input@,
            context,
            *limits,
        ) {
            Ok((properties, rest)) => if rest.len() == 0 {
                result is Ok && result->Ok_0@ == properties
            } else {
                result is Err && result->Err_0 == malformed_spec()
            },
            Err(error) => result is Err && result->Err_0 == error,
        },
{
    if input.len() > limits.max_mqtt_property_bytes.saturating_add(4) {
        return Err(too_large());
    }
    let mut cursor = Cursor { bytes: Bytes::copy_from_slice(input) };
    let properties = cursor.properties(context, limits)?;
    if !cursor.bytes.is_empty() {
        return Err(malformed());
    }
    Ok(properties)
}

/// The message that the server publishes when a client vanishes.
#[derive(PartialEq, Eq)]
pub struct Will {
    pub topic: String,
    pub payload: Bytes,
    pub qos: u8,
    pub retain: bool,
    pub properties: Properties,
}

/// A connection request.
#[derive(PartialEq, Eq)]
pub struct Connect {
    pub client_id: String,
    pub username: Option<String>,
    pub password: Option<Bytes>,
    pub keep_alive: u16,
    pub clean_start: bool,
    pub properties: Properties,
    pub will: Option<Will>,
}

/// How a subscription wants its messages.
#[derive(Clone, Copy, Debug, PartialEq, Eq, Structural)]
pub struct SubscriptionOptions {
    pub qos: u8,
    pub no_local: bool,
    pub retain_as_published: bool,
    pub retain_handling: u8,
}

/// A control packet that a client may send.
#[derive(PartialEq, Eq)]
pub enum Packet {
    Connect(Box<Connect>),
    Publish {
        topic: String,
        payload: Bytes,
        qos: u8,
        packet_id: Option<u16>,
        retain: bool,
        dup: bool,
        properties: Properties,
    },
    Puback { packet_id: u16, reason: u8 },
    Pubrec { packet_id: u16, reason: u8 },
    Pubrel { packet_id: u16, reason: u8 },
    Pubcomp { packet_id: u16, reason: u8 },
    Subscribe {
        packet_id: u16,
        filters: Vec<(String, SubscriptionOptions)>,
        properties: Properties,
    },
    Unsubscribe { packet_id: u16, filters: Vec<String>, properties: Properties },
    Pingreq,
    Disconnect { reason: u8, properties: Properties },
}

pub struct WillView {
    pub topic: Seq<char>,
    pub payload: Seq<u8>,
    pub qos: u8,
    pub retain: bool,
    pub properties: PropertiesView,
}

pub struct ConnectView {
    pub client_id: Seq<char>,
    pub username: Option<Seq<char>>,
    pub password: Option<Seq<u8>>,
    pub keep_alive: u16,
    pub clean_start: bool,
    pub properties: PropertiesView,
    pub will: Option<WillView>,
}

/// A packet with its text and bytes as mathematical sequences.
pub enum PacketView {
    Connect(ConnectView),
    Publish {
        topic: Seq<char>,
        payload: Seq<u8>,
        qos: u8,
        packet_id: Option<u16>,
        retain: bool,
        dup: bool,
        properties: PropertiesView,
    },
    Puback { packet_id: u16, reason: u8 },
    Pubrec { packet_id: u16, reason: u8 },
    Pubrel { packet_id: u16, reason: u8 },
    Pubcomp { packet_id: u16, reason: u8 },
    Subscribe {
        packet_id: u16,
        filters: Seq<(Seq<char>, SubscriptionOptions)>,
        properties: PropertiesView,
    },
    Unsubscribe { packet_id: u16, filters: Seq<Seq<char>>, properties: PropertiesView },
    Pingreq,
    Disconnect { reason: u8, properties: PropertiesView },
}

impl View for Will {
    type V = WillView;

    open spec fn view(&self) -> WillView {
        WillView {
            topic: self.topic@,
            payload: bytes_contents(self.payload),
            qos: self.qos,
            retain: self.retain,
            properties: self.properties@,
        }
    }
}

impl View for Connect {
    type V = ConnectView;

    open spec fn view(&self) -> ConnectView {
        ConnectView {
            client_id: self.client_id@,
            username: text_view(self.username),
            password: data_view(self.password),
            keep_alive: self.keep_alive,
            clean_start: self.clean_start,
            properties: self.properties@,
            will: match self.will {
                Some(will) => Some(will@),
                None => None,
            },
        }
    }
}

pub open spec fn filter_views(filters: Seq<(String, SubscriptionOptions)>) -> Seq<
    (Seq<char>, SubscriptionOptions),
> {
    Seq::new(filters.len(), |i: int| (filters[i].0@, filters[i].1))
}

pub open spec fn name_views(names: Seq<String>) -> Seq<Seq<char>> {
    Seq::new(names.len(), |i: int| names[i]@)
}

impl View for Packet {
    type V = PacketView;

    open spec fn view(&self) -> PacketView {
        match *self {
            Packet::Connect(connect) => PacketView::Connect((*connect)@),
            Packet::Publish { topic, payload, qos, packet_id, retain, dup, properties } => {
                PacketView::Publish {
                    topic: topic@,
                    payload: bytes_contents(payload),
                    qos,
                    packet_id,
                    retain,
                    dup,
                    properties: properties@,
                }
            },
            Packet::Puback { packet_id, reason } => PacketView::Puback { packet_id, reason },
            Packet::Pubrec { packet_id, reason } => PacketView::Pubrec { packet_id, reason },
            Packet::Pubrel { packet_id, reason } => PacketView::Pubrel { packet_id, reason },
            Packet::Pubcomp { packet_id, reason } => PacketView::Pubcomp { packet_id, reason },
            Packet::Subscribe { packet_id, filters, properties } => PacketView::Subscribe {
                packet_id,
                filters: filter_views(filters@),
                properties: properties@,
            },
            Packet::Unsubscribe { packet_id, filters, properties } => PacketView::Unsubscribe {
                packet_id,
                filters: name_views(filters@),
                properties: properties@,
            },
            Packet::Pingreq => PacketView::Pingreq,
            Packet::Disconnect { reason, properties } => PacketView::Disconnect {
                reason,
                properties: properties@,
            },
        }
    }
}

/// The will of a connection request, if its flags announce one.
pub open spec fn read_will(s: Seq<u8>, flags: u8, limits: Limits) -> Result<
    (Option<WillView>, Seq<u8>),
    DecodeError,
> {
    if flags & 4 == 0 {
        Ok((None, s))
    } else {
        match read_properties(s, PropertyContext::Will, limits) {
            Err(error) => Err(error),
            Ok((properties, s1)) => match read_string(s1, limits.max_topic_bytes as nat) {
                Err(error) => Err(error),
                Ok((topic, s2)) => if !topic_valid(topic, limits, false) {
                    Err(DecodeError { reason: TOPIC_NAME_INVALID })
                } else {
                    match read_binary(s2, limits.max_will_payload_bytes as nat) {
                        Err(error) => Err(error),
                        Ok((payload, s3)) => Ok(
                            (
                                Some(
                                    WillView {
                                        topic,
                                        payload,
                                        qos: (flags >> 3) & 3,
                                        retain: flags & 0x20 != 0,
                                        properties,
                                    },
                                ),
                                s3,
                            ),
                        ),
                    }
                },
            },
        }
    }
}

pub open spec fn read_optional_string(s: Seq<u8>, present: bool, maximum: nat) -> Result<
    (Option<Seq<char>>, Seq<u8>),
    DecodeError,
> {
    if !present {
        Ok((None, s))
    } else {
        match read_string(s, maximum) {
            Err(error) => Err(error),
            Ok((value, rest)) => Ok((Some(value), rest)),
        }
    }
}

pub open spec fn read_optional_binary(s: Seq<u8>, present: bool, maximum: nat) -> Result<
    (Option<Seq<u8>>, Seq<u8>),
    DecodeError,
> {
    if !present {
        Ok((None, s))
    } else {
        match read_binary(s, maximum) {
            Err(error) => Err(error),
            Ok((value, rest)) => Ok((Some(value), rest)),
        }
    }
}

/// The reserved bit is clear, a will has a valid quality of service, and an absent will has no
/// attributes. A password needs no user name.
pub open spec fn connect_flags_ok(flags: u8) -> bool {
    &&& flags & 1 == 0
    &&& (flags >> 3) & 3 != 3
    &&& flags & 4 == 0 ==> flags & 0x38 == 0
}

/// What follows the properties of a connection request.
pub open spec fn connect_payload(
    s: Seq<u8>,
    flags: u8,
    keep_alive: u16,
    properties: PropertiesView,
    limits: Limits,
) -> Result<PacketView, DecodeError> {
    match read_string(s, limits.max_client_id_bytes as nat) {
        Err(error) => Err(error),
        Ok((client_id, s1)) => match read_will(s1, flags, limits) {
            Err(error) => Err(error),
            Ok((will, s2)) => match read_optional_string(
                s2,
                flags & 0x80 != 0,
                limits.max_username_bytes as nat,
            ) {
                Err(error) => Err(error),
                Ok((username, s3)) => match read_optional_binary(
                    s3,
                    flags & 0x40 != 0,
                    limits.max_password_bytes as nat,
                ) {
                    Err(error) => Err(error),
                    Ok((password, s4)) => if s4.len() != 0 {
                        Err(malformed_spec())
                    } else {
                        Ok(
                            PacketView::Connect(
                                ConnectView {
                                    client_id,
                                    username,
                                    password,
                                    keep_alive,
                                    clean_start: flags & 2 != 0,
                                    properties,
                                    will,
                                },
                            ),
                        )
                    },
                },
            },
        },
    }
}

pub open spec fn connect_spec(s: Seq<u8>, limits: Limits) -> Result<PacketView, DecodeError> {
    match read_string(s, 6) {
        Err(error) => Err(error),
        Ok((name, s1)) => if name != "MQTT"@ {
            Err(protocol_spec())
        } else {
            match read_byte(s1) {
                Err(error) => Err(error),
                Ok((version, s2)) => if version != 5 {
                    Err(protocol_spec())
                } else {
                    match read_byte(s2) {
                        Err(error) => Err(error),
                        Ok((flags, s3)) => match read_short(s3) {
                            Err(error) => Err(error),
                            Ok((keep_alive, s4)) => if !connect_flags_ok(flags) {
                                Err(malformed_spec())
                            } else {
                                match read_properties(s4, PropertyContext::Connect, limits) {
                                    Err(error) => Err(error),
                                    Ok((properties, s5)) => connect_payload(
                                        s5,
                                        flags,
                                        keep_alive,
                                        properties,
                                        limits,
                                    ),
                                }
                            },
                        },
                    }
                },
            }
        },
    }
}

pub open spec fn publish_packet(first: u8, s: Seq<u8>, limits: Limits) -> Result<
    PacketView,
    DecodeError,
> {
    let qos = (first >> 1) & 3;
    if qos == 0 && first & 8 != 0 {
        Err(protocol_spec())
    } else {
        match read_string(s, limits.max_topic_bytes as nat) {
            Err(error) => Err(error),
            Ok((topic, s1)) => if !topic_valid(topic, limits, false) {
                Err(DecodeError { reason: TOPIC_NAME_INVALID })
            } else {
                match (if qos == 0 {
                    Ok::<(Option<u16>, Seq<u8>), DecodeError>((None, s1))
                } else {
                    match read_id(s1) {
                        Err(error) => Err(error),
                        Ok((id, rest)) => Ok((Some(id), rest)),
                    }
                }) {
                    Err(error) => Err(error),
                    Ok((packet_id, s2)) => match read_properties(
                        s2,
                        PropertyContext::Publish,
                        limits,
                    ) {
                        Err(error) => Err(error),
                        Ok((properties, payload)) => Ok(
                            PacketView::Publish {
                                topic,
                                payload,
                                qos,
                                packet_id,
                                retain: first & 1 != 0,
                                dup: first & 8 != 0,
                                properties,
                            },
                        ),
                    },
                }
            },
        }
    }
}

/// The reason codes of a publish acknowledgement, and those of a release or a completion.
pub open spec fn ack_code_ok(kind: u8, reason: u8) -> bool {
    if kind == 4 || kind == 5 {
        ||| reason == 0
        ||| reason == 0x10
        ||| reason == 0x80
        ||| reason == 0x83
        ||| reason == 0x87
        ||| reason == 0x90
        ||| reason == 0x91
        ||| reason == 0x97
        ||| reason == 0x99
    } else {
        reason == 0 || reason == 0x92
    }
}

/// An identifier, then optionally a reason code, then optionally properties.
pub open spec fn ack_spec(kind: u8, s: Seq<u8>, limits: Limits) -> Result<(u16, u8), DecodeError> {
    match read_id(s) {
        Err(error) => Err(error),
        Ok((id, s1)) => {
            let reason = if s1.len() == 0 {
                0u8
            } else {
                s1[0]
            };
            let s2 = if s1.len() == 0 {
                s1
            } else {
                s1.skip(1)
            };
            if !ack_code_ok(kind, reason) {
                Err(protocol_spec())
            } else if s2.len() == 0 {
                Ok((id, reason))
            } else {
                match read_properties(s2, PropertyContext::Ack, limits) {
                    Err(error) => Err(error),
                    Ok((_, s3)) => if s3.len() == 0 {
                        Ok((id, reason))
                    } else {
                        Err(malformed_spec())
                    },
                }
            }
        },
    }
}

pub open spec fn ack_packet(kind: u8, s: Seq<u8>, limits: Limits) -> Result<PacketView, DecodeError> {
    match ack_spec(kind, s, limits) {
        Err(error) => Err(error),
        Ok((packet_id, reason)) => Ok(
            if kind == 4 {
                PacketView::Puback { packet_id, reason }
            } else if kind == 5 {
                PacketView::Pubrec { packet_id, reason }
            } else if kind == 6 {
                PacketView::Pubrel { packet_id, reason }
            } else {
                PacketView::Pubcomp { packet_id, reason }
            },
        ),
    }
}

pub open spec fn options_ok(options: u8) -> bool {
    options & 0xc0 == 0 && options & 3 <= 2 && (options >> 4) & 3 <= 2
}

pub open spec fn options_of(options: u8) -> SubscriptionOptions {
    SubscriptionOptions {
        qos: options & 3,
        no_local: options & 4 != 0,
        retain_as_published: options & 8 != 0,
        retain_handling: (options >> 4) & 3,
    }
}

/// The filters of a subscription request, appended to those already read.
pub open spec fn subscribe_filters(
    s: Seq<u8>,
    seen: Seq<(Seq<char>, SubscriptionOptions)>,
    limits: Limits,
) -> Result<Seq<(Seq<char>, SubscriptionOptions)>, DecodeError>
    decreases s.len(),
{
    if s.len() == 0 {
        Ok(seen)
    } else if seen.len() >= limits.max_subscription_filters_per_packet {
        Err(too_large_spec())
    } else {
        match read_string(s, limits.max_topic_bytes as nat) {
            Err(error) => Err(error),
            Ok((filter, s1)) => if starts_with(filter, "$share/"@) {
                Err(DecodeError { reason: SHARED_SUBSCRIPTIONS_NOT_SUPPORTED })
            } else if !topic_valid(filter, limits, true) {
                Err(DecodeError { reason: TOPIC_FILTER_INVALID })
            } else {
                match read_byte(s1) {
                    Err(error) => Err(error),
                    Ok((options, s2)) => if !options_ok(options) {
                        Err(protocol_spec())
                    } else {
                        subscribe_filters(s2, seen.push((filter, options_of(options))), limits)
                    },
                }
            },
        }
    }
}

/// The filters of an unsubscription request, appended to those already read.
pub open spec fn unsubscribe_filters(s: Seq<u8>, seen: Seq<Seq<char>>, limits: Limits) -> Result<
    Seq<Seq<char>>,
    DecodeError,
>
    decreases s.len(),
{
    if s.len() == 0 {
        Ok(seen)
    } else if seen.len() >= limits.max_subscription_filters_per_packet {
        Err(too_large_spec())
    } else {
        match read_string(s, limits.max_topic_bytes as nat) {
            Err(error) => Err(error),
            Ok((filter, s1)) => if !topic_valid(filter, limits, true) {
                Err(DecodeError { reason: TOPIC_FILTER_INVALID })
            } else {
                unsubscribe_filters(s1, seen.push(filter), limits)
            },
        }
    }
}

pub open spec fn subscribe_packet(s: Seq<u8>, limits: Limits) -> Result<PacketView, DecodeError> {
    match read_id(s) {
        Err(error) => Err(error),
        Ok((packet_id, s1)) => match read_properties(s1, PropertyContext::Subscribe, limits) {
            Err(error) => Err(error),
            Ok((properties, s2)) => match subscribe_filters(s2, Seq::empty(), limits) {
                Err(error) => Err(error),
                Ok(filters) => if filters.len() == 0 {
                    Err(protocol_spec())
                } else {
                    Ok(PacketView::Subscribe { packet_id, filters, properties })
                },
            },
        },
    }
}

pub open spec fn unsubscribe_packet(s: Seq<u8>, limits: Limits) -> Result<PacketView, DecodeError> {
    match read_id(s) {
        Err(error) => Err(error),
        Ok((packet_id, s1)) => match read_properties(s1, PropertyContext::Unsubscribe, limits) {
            Err(error) => Err(error),
            Ok((properties, s2)) => match unsubscribe_filters(s2, Seq::empty(), limits) {
                Err(error) => Err(error),
                Ok(filters) => if filters.len() == 0 {
                    Err(protocol_spec())
                } else {
                    Ok(PacketView::Unsubscribe { packet_id, filters, properties })
                },
            },
        },
    }
}

/// The reason codes of a disconnection.
pub open spec fn disconnect_code_ok(reason: u8) -> bool {
    ||| reason == 0 || reason == 4
    ||| 0x80 <= reason <= 0x83
    ||| reason == 0x87 || reason == 0x89 || reason == 0x8b
    ||| 0x8d <= reason <= 0x90
    ||| 0x93 <= reason <= 0xa2
}

/// Optionally a reason code, then optionally properties.
pub open spec fn disconnect_packet(s: Seq<u8>, limits: Limits) -> Result<PacketView, DecodeError> {
    let reason = if s.len() == 0 {
        0u8
    } else {
        s[0]
    };
    let s1 = if s.len() == 0 {
        s
    } else {
        s.skip(1)
    };
    if !disconnect_code_ok(reason) {
        Err(protocol_spec())
    } else if s1.len() == 0 {
        Ok(PacketView::Disconnect { reason, properties: no_properties() })
    } else {
        match read_properties(s1, PropertyContext::Disconnect, limits) {
            Err(error) => Err(error),
            Ok((properties, s2)) => if s2.len() == 0 {
                Ok(PacketView::Disconnect { reason, properties })
            } else {
                Err(malformed_spec())
            },
        }
    }
}

/// The packet with this first byte and this body.
pub open spec fn packet_spec(first: u8, body: Seq<u8>, limits: Limits) -> Result<
    PacketView,
    DecodeError,
> {
    let kind = first >> 4;
    if kind == 1 {
        connect_spec(body, limits)
    } else if kind == 3 {
        publish_packet(first, body, limits)
    } else if kind == 4 || kind == 5 || kind == 6 || kind == 7 {
        ack_packet(kind, body, limits)
    } else if kind == 8 {
        subscribe_packet(body, limits)
    } else if kind == 10 {
        unsubscribe_packet(body, limits)
    } else if kind == 12 {
        if body.len() == 0 {
            Ok(PacketView::Pingreq)
        } else {
            Err(malformed_spec())
        }
    } else if kind == 14 {
        disconnect_packet(body, limits)
    } else {
        Err(protocol_spec())
    }
}

/// The first packet of the input, if it has arrived as a whole, and what is left of the input. A
/// packet that has arrived is taken out of the input even if it is refused.
pub open spec fn decode_spec(input: Seq<u8>, limits: Limits) -> (
    Result<Option<PacketView>, DecodeError>,
    Seq<u8>,
) {
    match fixed_header_spec(input, limits.max_mqtt_packet_size as nat) {
        Err(error) => (Err(wire_error(error)), input),
        Ok(None) => (Ok(None), input),
        Ok(Some((first, header, total))) => if input.len() < total {
            (Ok(None), input)
        } else {
            (
                match packet_spec(first, input.take(total as int).skip(header as int), limits) {
                    Ok(packet) => Ok(Some(packet)),
                    Err(error) => Err(error),
                },
                input.skip(total as int),
            )
        },
    }
}

/// Whether a result shows what the model says.
pub open spec fn shows(
    result: Result<Packet, DecodeError>,
    model: Result<PacketView, DecodeError>,
) -> bool {
    match model {
        Ok(packet) => result is Ok && result->Ok_0@ == packet,
        Err(error) => result is Err && result->Err_0 == error,
    }
}

/// Takes the first packet out of the input, if it has arrived as a whole.
pub fn decode(input: &mut BytesMut, limits: &Limits) -> (result: Result<Option<Packet>, DecodeError>)
    ensures
        match decode_spec(bytes_mut_contents(*old(input)), *limits).0 {
            Ok(Some(packet)) => result is Ok && result->Ok_0 is Some && result->Ok_0->0@ == packet,
            Ok(None) => result is Ok && result->Ok_0 is None,
            Err(error) => result is Err && result->Err_0 == error,
        },
        bytes_mut_contents(*final(input)) == decode_spec(bytes_mut_contents(*old(input)), *limits).1,
{
    let (first, header, total) = match fixed_header(
        bytes_mut_slice(input),
        limits.max_mqtt_packet_size,
    ) {
        Err(error) => return Err(from_wire_error(error)),
        Ok(None) => return Ok(None),
        Ok(Some(found)) => found,
    };
    if input.len() < total {
        return Ok(None);
    }
    let mut frame = input.split_to(total).freeze();
    advance(&mut frame, header);
    match decode_packet(first, frame, limits) {
        Ok(packet) => Ok(Some(packet)),
        Err(error) => Err(error),
    }
}

fn decode_packet(first: u8, body: Bytes, limits: &Limits) -> (result: Result<Packet, DecodeError>)
    ensures
        shows(result, packet_spec(first, bytes_contents(body), *limits)),
{
    let mut cursor = Cursor { bytes: body };
    let kind: u8 = first >> 4;
    match kind {
        1 => decode_connect(&mut cursor, limits),
        3 => decode_publish(first, cursor, limits),
        4 => {
            let (packet_id, reason) = ack_reason(&mut cursor, limits, kind)?;
            Ok(Packet::Puback { packet_id, reason })
        },
        5 => {
            let (packet_id, reason) = ack_reason(&mut cursor, limits, kind)?;
            Ok(Packet::Pubrec { packet_id, reason })
        },
        6 => {
            let (packet_id, reason) = ack_reason(&mut cursor, limits, kind)?;
            Ok(Packet::Pubrel { packet_id, reason })
        },
        7 => {
            let (packet_id, reason) = ack_reason(&mut cursor, limits, kind)?;
            Ok(Packet::Pubcomp { packet_id, reason })
        },
        8 => decode_subscribe(&mut cursor, limits),
        10 => decode_unsubscribe(&mut cursor, limits),
        12 => {
            if !cursor.bytes.is_empty() {
                return Err(malformed());
            }
            Ok(Packet::Pingreq)
        },
        14 => decode_disconnect(&mut cursor, limits),
        _ => Err(protocol()),
    }
}

fn decode_connect(cursor: &mut Cursor, limits: &Limits) -> (result: Result<Packet, DecodeError>)
    ensures
        shows(result, connect_spec(old(cursor).rest(), *limits)),
{
    let name = cursor.string(6)?;
    if !same_text(name.as_str(), "MQTT") {
        return Err(protocol());
    }
    let version: u8 = cursor.byte()?;
    if version != 5 {
        return Err(protocol());
    }
    let flags: u8 = cursor.byte()?;
    let keep_alive: u16 = cursor.short()?;
    let has_will = flags & 4 != 0;
    let will_qos: u8 = (flags >> 3) & 3;
    if flags & 1 != 0 || will_qos == 3 || (!has_will && flags & 0x38 != 0) {
        return Err(malformed());
    }
    let properties = cursor.properties(PropertyContext::Connect, limits)?;
    let client_id = cursor.string(limits.max_client_id_bytes)?;
    let will = decode_will(cursor, flags, limits)?;
    let username = if flags & 0x80 != 0 {
        Some(cursor.string(limits.max_username_bytes)?)
    } else {
        None
    };
    let password = if flags & 0x40 != 0 {
        Some(cursor.binary(limits.max_password_bytes)?)
    } else {
        None
    };
    if !cursor.bytes.is_empty() {
        return Err(malformed());
    }
    Ok(
        Packet::Connect(
            Box::new(
                Connect {
                    client_id,
                    username,
                    password,
                    keep_alive,
                    clean_start: flags & 2 != 0,
                    properties,
                    will,
                },
            ),
        ),
    )
}

fn decode_will(cursor: &mut Cursor, flags: u8, limits: &Limits) -> (result: Result<
    Option<Will>,
    DecodeError,
>)
    ensures
        match read_will(old(cursor).rest(), flags, *limits) {
            Ok((will, rest)) => result is Ok && final(cursor).rest() == rest && (match will {
                Some(model) => result->Ok_0 is Some && result->Ok_0->0@ == model,
                None => result->Ok_0 is None,
            }),
            Err(error) => result is Err && result->Err_0 == error,
        },
{
    if flags & 4 == 0 {
        return Ok(None);
    }
    let properties = cursor.properties(PropertyContext::Will, limits)?;
    let topic = cursor.string(limits.max_topic_bytes)?;
    if !valid_topic(topic.as_str(), limits, false) {
        return Err(DecodeError { reason: TOPIC_NAME_INVALID });
    }
    let payload = cursor.binary(limits.max_will_payload_bytes)?;
    Ok(
        Some(
            Will { topic, payload, qos: (flags >> 3) & 3, retain: flags & 0x20 != 0, properties },
        ),
    )
}

fn decode_publish(first: u8, cursor: Cursor, limits: &Limits) -> (result: Result<Packet, DecodeError>)
    ensures
        shows(result, publish_packet(first, cursor.rest(), *limits)),
{
    let mut cursor = cursor;
    let qos: u8 = (first >> 1) & 3;
    if qos == 0 && first & 8 != 0 {
        return Err(protocol());
    }
    let topic = cursor.string(limits.max_topic_bytes)?;
    if !valid_topic(topic.as_str(), limits, false) {
        return Err(DecodeError { reason: TOPIC_NAME_INVALID });
    }
    let packet_id = if qos == 0 {
        None
    } else {
        Some(cursor.id()?)
    };
    let properties = cursor.properties(PropertyContext::Publish, limits)?;
    Ok(
        Packet::Publish {
            topic,
            payload: cursor.bytes,
            qos,
            packet_id,
            retain: first & 1 != 0,
            dup: first & 8 != 0,
            properties,
        },
    )
}

fn ack_reason(cursor: &mut Cursor, limits: &Limits, kind: u8) -> (result: Result<
    (u16, u8),
    DecodeError,
>)
    ensures
        result == ack_spec(kind, old(cursor).rest(), *limits),
{
    let id: u16 = cursor.id()?;
    let reason: u8 = if cursor.bytes.is_empty() {
        0
    } else {
        cursor.byte()?
    };
    let accepted = if kind == 4 || kind == 5 {
        match reason {
            0 | 0x10 | 0x80 | 0x83 | 0x87 | 0x90 | 0x91 | 0x97 | 0x99 => true,
            _ => false,
        }
    } else {
        reason == 0 || reason == 0x92
    };
    if !accepted {
        return Err(protocol());
    }
    if !cursor.bytes.is_empty() {
        let _ = cursor.properties(PropertyContext::Ack, limits)?;
    }
    if !cursor.bytes.is_empty() {
        return Err(malformed());
    }
    Ok((id, reason))
}

fn is_shared(filter: &str) -> (shared: bool)
    ensures
        shared == starts_with(filter@, "$share/"@),
{
    let prefix = characters("$share/");
    crate::text::strip_prefix(filter, &prefix).is_some()
}

fn decode_subscribe(cursor: &mut Cursor, limits: &Limits) -> (result: Result<Packet, DecodeError>)
    ensures
        shows(result, subscribe_packet(old(cursor).rest(), *limits)),
{
    let packet_id: u16 = cursor.id()?;
    let properties = cursor.properties(PropertyContext::Subscribe, limits)?;
    let mut filters: Vec<(String, SubscriptionOptions)> = Vec::new();
    let ghost start = cursor.rest();
    let ghost model = properties@;
    assert(filter_views(filters@) =~= Seq::<(Seq<char>, SubscriptionOptions)>::empty());
    while !cursor.bytes.is_empty()
        invariant
            subscribe_filters(start, Seq::empty(), *limits) == subscribe_filters(
                cursor.rest(),
                filter_views(filters@),
                *limits,
            ),
            subscribe_packet(old(cursor).rest(), *limits) == (match subscribe_filters(
                start,
                Seq::empty(),
                *limits,
            ) {
                Err(error) => Err::<PacketView, DecodeError>(error),
                Ok(found) => if found.len() == 0 {
                    Err::<PacketView, DecodeError>(protocol_spec())
                } else {
                    Ok::<PacketView, DecodeError>(
                        PacketView::Subscribe { packet_id, filters: found, properties: model },
                    )
                },
            }),
        decreases cursor.rest().len(),
    {
        if filters.len() >= limits.max_subscription_filters_per_packet {
            return Err(too_large());
        }
        let filter = cursor.string(limits.max_topic_bytes)?;
        if is_shared(filter.as_str()) {
            return Err(DecodeError { reason: SHARED_SUBSCRIPTIONS_NOT_SUPPORTED });
        }
        if !valid_topic(filter.as_str(), limits, true) {
            return Err(DecodeError { reason: TOPIC_FILTER_INVALID });
        }
        let options: u8 = cursor.byte()?;
        if options & 0xc0 != 0 || options & 3 > 2 || (options >> 4) & 3 > 2 {
            return Err(protocol());
        }
        let parsed = SubscriptionOptions {
            qos: options & 3,
            no_local: options & 4 != 0,
            retain_as_published: options & 8 != 0,
            retain_handling: (options >> 4) & 3,
        };
        let ghost before = filter_views(filters@);
        let ghost item = (filter@, parsed);
        filters.push((filter, parsed));
        assert(filter_views(filters@) =~= before.push(item));
    }
    if filters.is_empty() {
        return Err(protocol());
    }
    Ok(Packet::Subscribe { packet_id, filters, properties })
}

fn decode_unsubscribe(cursor: &mut Cursor, limits: &Limits) -> (result: Result<Packet, DecodeError>)
    ensures
        shows(result, unsubscribe_packet(old(cursor).rest(), *limits)),
{
    let packet_id: u16 = cursor.id()?;
    let properties = cursor.properties(PropertyContext::Unsubscribe, limits)?;
    let mut filters: Vec<String> = Vec::new();
    let ghost start = cursor.rest();
    let ghost model = properties@;
    assert(name_views(filters@) =~= Seq::<Seq<char>>::empty());
    while !cursor.bytes.is_empty()
        invariant
            unsubscribe_filters(start, Seq::empty(), *limits) == unsubscribe_filters(
                cursor.rest(),
                name_views(filters@),
                *limits,
            ),
            unsubscribe_packet(old(cursor).rest(), *limits) == (match unsubscribe_filters(
                start,
                Seq::empty(),
                *limits,
            ) {
                Err(error) => Err::<PacketView, DecodeError>(error),
                Ok(found) => if found.len() == 0 {
                    Err::<PacketView, DecodeError>(protocol_spec())
                } else {
                    Ok::<PacketView, DecodeError>(
                        PacketView::Unsubscribe { packet_id, filters: found, properties: model },
                    )
                },
            }),
        decreases cursor.rest().len(),
    {
        if filters.len() >= limits.max_subscription_filters_per_packet {
            return Err(too_large());
        }
        let filter = cursor.string(limits.max_topic_bytes)?;
        if !valid_topic(filter.as_str(), limits, true) {
            return Err(DecodeError { reason: TOPIC_FILTER_INVALID });
        }
        let ghost before = name_views(filters@);
        let ghost item = filter@;
        filters.push(filter);
        assert(name_views(filters@) =~= before.push(item));
    }
    if filters.is_empty() {
        return Err(protocol());
    }
    Ok(Packet::Unsubscribe { packet_id, filters, properties })
}

fn decode_disconnect(cursor: &mut Cursor, limits: &Limits) -> (result: Result<Packet, DecodeError>)
    ensures
        shows(result, disconnect_packet(old(cursor).rest(), *limits)),
{
    let reason: u8 = if cursor.bytes.is_empty() {
        0
    } else {
        cursor.byte()?
    };
    let accepted = reason == 0 || reason == 4 || (0x80 <= reason && reason <= 0x83) || reason == 0x87
        || reason == 0x89 || reason == 0x8b || (0x8d <= reason && reason <= 0x90) || (0x93 <= reason
        && reason <= 0xa2);
    if !accepted {
        return Err(protocol());
    }
    let properties = if cursor.bytes.is_empty() {
        Properties::default()
    } else {
        cursor.properties(PropertyContext::Disconnect, limits)?
    };
    if !cursor.bytes.is_empty() {
        return Err(malformed());
    }
    Ok(Packet::Disconnect { reason, properties })
}

/// Length-prefixed text.
pub open spec fn string_bytes(text: Seq<char>) -> Seq<u8> {
    be16(text_bytes(text) as u16) + encode_utf8(text)
}

/// Length-prefixed bytes.
pub open spec fn binary_bytes(data: Seq<u8>) -> Seq<u8> {
    be16(data.len() as u16) + data
}

fn put_string(output: &mut Vec<u8>, value: &str) -> (result: Result<(), Error>)
    ensures
        result is Ok <==> text_bytes(value@) <= u16::MAX,
        result is Ok ==> final(output)@ == old(output)@ + string_bytes(value@),
        result is Err ==> result->Err_0 == Error::Overloaded,
{
    let length: usize = byte_len(value);
    if length > u16::MAX as usize {
        return Err(Error::Overloaded);
    }
    put_u16(output, length as u16);
    append_bytes(output, value.as_bytes());
    assert(output@ =~= old(output)@ + string_bytes(value@));
    Ok(())
}

fn put_binary(output: &mut Vec<u8>, value: &[u8]) -> (result: Result<(), Error>)
    ensures
        result is Ok <==> value@.len() <= u16::MAX,
        result is Ok ==> final(output)@ == old(output)@ + binary_bytes(value@),
        result is Err ==> result->Err_0 == Error::Overloaded,
{
    let length: usize = value.len();
    if length > u16::MAX as usize {
        return Err(Error::Overloaded);
    }
    put_u16(output, length as u16);
    append_bytes(output, value);
    assert(output@ =~= old(output)@ + binary_bytes(value@));
    Ok(())
}

pub open spec fn smaller(left: usize, right: usize) -> usize {
    if left < right {
        left
    } else {
        right
    }
}

pub fn least(left: usize, right: usize) -> (least: usize)
    ensures
        least == smaller(left, right),
{
    if left < right {
        left
    } else {
        right
    }
}

/// How many unacknowledged messages the server accepts, never zero.
pub open spec fn receive_maximum_spec(limits: Limits) -> int {
    let least = smaller(limits.max_inflight_qos1_per_session, limits.max_inflight_qos2_per_session);
    if least == 0 {
        1
    } else {
        least as int
    }
}

/// The properties without which an accepting answer would mislead the client.
pub open spec fn essential_properties(limits: Limits, assigned: Option<Seq<char>>) -> Seq<u8> {
    let fixed = seq![0x21u8] + be16(receive_maximum_spec(limits) as u16) + seq![0x27u8] + be32(
        limits.max_mqtt_packet_size as u32,
    ) + seq![0x29u8, 0u8, 0x2au8, 0u8];
    match assigned {
        Some(client_id) => fixed + seq![0x12u8] + string_bytes(client_id),
        None => fixed,
    }
}

pub open spec fn flag_byte(flag: bool) -> u8 {
    if flag {
        1
    } else {
        0
    }
}

pub open spec fn connack_body(session_present: bool, reason: ConnackReason, properties: Seq<u8>) -> Seq<
    u8,
> {
    seq![flag_byte(session_present), reason.code_spec()] + varint(properties.len()) + properties
}

/// The properties with an optional one more, if the answer still fits.
pub open spec fn with_optional(
    properties: Seq<u8>,
    optional: Seq<u8>,
    session_present: bool,
    reason: ConnackReason,
    maximum: nat,
) -> Seq<u8> {
    if packet_fits(
        connack_body(session_present, reason, properties + optional).len(),
        maximum,
    ) {
        properties + optional
    } else {
        properties
    }
}

/// The properties of an accepting answer: the essential ones, then each default that still fits.
pub open spec fn accepted_properties(
    session_present: bool,
    limits: Limits,
    assigned: Option<Seq<char>>,
    maximum: nat,
) -> Seq<u8> {
    let reason = ConnackReason::Success;
    let essential = essential_properties(limits, assigned);
    let one = with_optional(essential, seq![0x22u8, 0u8, 0u8], session_present, reason, maximum);
    let two = with_optional(one, seq![0x25u8, 1u8], session_present, reason, maximum);
    with_optional(two, seq![0x28u8, 1u8], session_present, reason, maximum)
}

fn encode_connack_packet(
    session_present: bool,
    reason: ConnackReason,
    properties: &Vec<u8>,
    maximum: usize,
) -> (result: Result<Vec<u8>, Error>)
    ensures
        encode_spec(
            0x20,
            connack_body(session_present, reason, properties@),
            maximum as nat,
            result,
        ),
{
    let present: u8 = if session_present {
        1
    } else {
        0
    };
    let mut body: Vec<u8> = vec![present, reason.code()];
    put_varint(&mut body, properties.len());
    append_bytes(&mut body, properties.as_slice());
    assert(body@ =~= connack_body(session_present, reason, properties@));
    encode(0x20, body.as_slice(), maximum)
}

/// Adds an optional property if the answer still fits.
fn add_optional(
    properties: &mut Vec<u8>,
    optional: &[u8],
    best: Vec<u8>,
    session_present: bool,
    reason: ConnackReason,
    maximum: usize,
) -> (result: Vec<u8>)
    requires
        packet_fits(connack_body(session_present, reason, old(properties)@).len(), maximum as nat),
        best@ == packet_bytes(0x20, connack_body(session_present, reason, old(properties)@)),
    ensures
        final(properties)@ == with_optional(
            old(properties)@,
            optional@,
            session_present,
            reason,
            maximum as nat,
        ),
        packet_fits(connack_body(session_present, reason, final(properties)@).len(), maximum as nat),
        result@ == packet_bytes(0x20, connack_body(session_present, reason, final(properties)@)),
{
    let prior: usize = properties.len();
    append_bytes(properties, optional);
    match encode_connack_packet(session_present, reason, properties, maximum) {
        Ok(encoded) => encoded,
        Err(_) => {
            properties.truncate(prior);
            assert(properties@ =~= old(properties)@);
            best
        },
    }
}

/// The answer to a connection request. A refusal carries no properties; an acceptance carries the
/// essential ones and as many of the optional ones as the client's packet size allows.
pub fn connack(
    session_present: bool,
    reason: ConnackReason,
    limits: &Limits,
    assigned_client_id: Option<&str>,
    client_maximum: usize,
) -> (result: Result<Vec<u8>, Error>)
    ensures
        ({
            let maximum = smaller(client_maximum, limits.max_mqtt_packet_size) as nat;
            let assigned = match assigned_client_id {
                Some(text) => Some(text@),
                None => None,
            };
            if reason != ConnackReason::Success {
                encode_spec(0x20, seq![0u8, reason.code_spec(), 0u8], maximum, result)
            } else if receive_maximum_spec(*limits) > u16::MAX || limits.max_mqtt_packet_size
                > u32::MAX {
                result is Err && result->Err_0 == Error::Configuration
            } else if assigned is Some && text_bytes(assigned->0) > u16::MAX {
                result is Err && result->Err_0 == Error::Overloaded
            } else if !packet_fits(
                connack_body(
                    session_present,
                    reason,
                    essential_properties(*limits, assigned),
                ).len(),
                maximum,
            ) {
                result is Err && result->Err_0 == Error::Overloaded
            } else {
                result is Ok && result->Ok_0@ == packet_bytes(
                    0x20,
                    connack_body(
                        session_present,
                        reason,
                        accepted_properties(session_present, *limits, assigned, maximum),
                    ),
                )
            }
        }),
{
    let maximum: usize = least(client_maximum, limits.max_mqtt_packet_size);
    if reason != ConnackReason::Success {
        let body: Vec<u8> = vec![0, reason.code(), 0];
        assert(body@ =~= seq![0u8, reason.code_spec(), 0u8]);
        return encode(0x20, body.as_slice(), maximum);
    }
    let window: usize = least(
        limits.max_inflight_qos1_per_session,
        limits.max_inflight_qos2_per_session,
    );
    if window > u16::MAX as usize {
        return Err(Error::Configuration);
    }
    let receive_maximum: u16 = if window == 0 {
        1
    } else {
        window as u16
    };
    if limits.max_mqtt_packet_size as u64 > u32::MAX as u64 {
        return Err(Error::Configuration);
    }
    let mut properties: Vec<u8> = vec![0x21];
    put_u16(&mut properties, receive_maximum);
    properties.push(0x27);
    put_u32(&mut properties, limits.max_mqtt_packet_size as u32);
    properties.push(0x29);
    properties.push(0);
    properties.push(0x2a);
    properties.push(0);
    let ghost fixed = essential_properties(*limits, None);
    assert(properties@ =~= fixed);
    if let Some(client_id) = assigned_client_id {
        properties.push(0x12);
        put_string(&mut properties, client_id)?;
        assert(properties@ =~= essential_properties(*limits, Some(client_id@)));
    }
    let first = encode_connack_packet(session_present, reason, &properties, maximum)?;
    let second = add_optional(
        &mut properties,
        vec![0x22, 0, 0].as_slice(),
        first,
        session_present,
        reason,
        maximum,
    );
    let third = add_optional(
        &mut properties,
        vec![0x25, 1].as_slice(),
        second,
        session_present,
        reason,
        maximum,
    );
    let last = add_optional(
        &mut properties,
        vec![0x28, 1].as_slice(),
        third,
        session_present,
        reason,
        maximum,
    );
    Ok(last)
}

/// A message to send, with the properties that a published message may carry.
pub struct OutboundPublish<'a> {
    pub topic: &'a str,
    pub payload: &'a [u8],
    pub qos: u8,
    pub packet_id: Option<u16>,
    pub retain: bool,
    pub dup: bool,
    pub properties: &'a Properties,
}

pub open spec fn format_bytes(value: Option<u8>) -> Seq<u8> {
    match value {
        Some(value) => seq![0x01u8, value],
        None => Seq::empty(),
    }
}

pub open spec fn expiry_bytes(value: Option<u32>) -> Seq<u8> {
    match value {
        Some(value) => seq![0x02u8] + be32(value),
        None => Seq::empty(),
    }
}

pub open spec fn text_property(id: u8, value: Option<Seq<char>>) -> Seq<u8> {
    match value {
        Some(value) => seq![id] + string_bytes(value),
        None => Seq::empty(),
    }
}

pub open spec fn data_property(id: u8, value: Option<Seq<u8>>) -> Seq<u8> {
    match value {
        Some(value) => seq![id] + binary_bytes(value),
        None => Seq::empty(),
    }
}

pub open spec fn pair_bytes(pair: (Seq<char>, Seq<char>)) -> Seq<u8> {
    seq![0x26u8] + string_bytes(pair.0) + string_bytes(pair.1)
}

pub open spec fn pairs_bytes(pairs: Seq<(Seq<char>, Seq<char>)>) -> Seq<u8>
    decreases pairs.len(),
{
    if pairs.len() == 0 {
        Seq::empty()
    } else {
        pairs_bytes(pairs.drop_last()) + pair_bytes(pairs.last())
    }
}

/// The properties of a published message on the wire, in the order in which they are written.
pub open spec fn publish_properties(properties: PropertiesView) -> Seq<u8> {
    format_bytes(properties.payload_format) + expiry_bytes(properties.message_expiry)
        + text_property(0x03, properties.content_type) + text_property(
        0x08,
        properties.response_topic,
    ) + data_property(0x09, properties.correlation_data) + pairs_bytes(properties.user_properties)
}

pub open spec fn short_text(text: Option<Seq<char>>) -> bool {
    text is Some ==> text_bytes(text->0) <= u16::MAX
}

/// Every text and byte string has a length that two bytes can announce.
pub open spec fn publish_texts_fit(topic: Seq<char>, properties: PropertiesView) -> bool {
    &&& text_bytes(topic) <= u16::MAX
    &&& short_text(properties.content_type)
    &&& short_text(properties.response_topic)
    &&& properties.correlation_data is Some ==> properties.correlation_data->0.len() <= u16::MAX
    &&& forall|i: int|
        0 <= i < properties.user_properties.len() ==> text_bytes(
            (#[trigger] properties.user_properties[i]).0,
        ) <= u16::MAX && text_bytes(properties.user_properties[i].1) <= u16::MAX
}

pub open spec fn id_bytes(packet_id: Option<u16>) -> Seq<u8> {
    match packet_id {
        Some(id) => be16(id),
        None => Seq::empty(),
    }
}

pub open spec fn publish_body(
    topic: Seq<char>,
    payload: Seq<u8>,
    packet_id: Option<u16>,
    properties: PropertiesView,
) -> Seq<u8> {
    let encoded = publish_properties(properties);
    string_bytes(topic) + id_bytes(packet_id) + varint(encoded.len()) + encoded + payload
}

fn put_text_property(output: &mut Vec<u8>, id: u8, value: &Option<String>) -> (result: Result<(), Error>)
    ensures
        result is Ok <==> short_text(text_view(*value)),
        result is Ok ==> final(output)@ == old(output)@ + text_property(id, text_view(*value)),
        result is Err ==> result->Err_0 == Error::Overloaded,
{
    match value {
        Some(text) => {
            output.push(id);
            put_string(output, text.as_str())?;
            assert(output@ =~= old(output)@ + text_property(id, Some(text@)));
        },
        None => {
            assert(output@ =~= old(output)@ + Seq::<u8>::empty());
        },
    }
    Ok(())
}

fn put_user_properties(output: &mut Vec<u8>, pairs: &Vec<(String, String)>) -> (result: Result<(), Error>)
    ensures
        result is Ok <==> (forall|i: int|
            0 <= i < pair_views(pairs@).len() ==> text_bytes((#[trigger] pair_views(pairs@)[i]).0)
                <= u16::MAX && text_bytes(pair_views(pairs@)[i].1) <= u16::MAX),
        result is Ok ==> final(output)@ == old(output)@ + pairs_bytes(pair_views(pairs@)),
        result is Err ==> result->Err_0 == Error::Overloaded,
{
    let ghost before = output@;
    let ghost views = pair_views(pairs@);
    let mut at: usize = 0;
    assert(output@ =~= before + pairs_bytes(views.take(0)));
    while at < pairs.len()
        invariant
            at <= pairs.len(),
            views == pair_views(pairs@),
            output@ == before + pairs_bytes(views.take(at as int)),
            forall|i: int|
                0 <= i < at ==> text_bytes((#[trigger] views[i]).0) <= u16::MAX && text_bytes(
                    views[i].1,
                ) <= u16::MAX,
        decreases pairs.len() - at,
    {
        let ghost start = output@;
        assert(views[at as int] == (pairs@[at as int].0@, pairs@[at as int].1@));
        output.push(0x26);
        put_string(output, pairs[at].0.as_str())?;
        put_string(output, pairs[at].1.as_str())?;
        proof {
            assert(views.take(at as int + 1).drop_last() =~= views.take(at as int));
            assert(output@ =~= start + pair_bytes(views[at as int]));
            assert(output@ =~= before + pairs_bytes(views.take(at as int + 1)));
        }
        at = at + 1;
    }
    assert(views.take(views.len() as int) =~= views);
    Ok(())
}

/// Encodes a message to send, unless it is invalid or larger than the maximum.
pub fn publish(packet: OutboundPublish<'_>, maximum: usize) -> (result: Result<Vec<u8>, Error>)
    ensures
        if packet.qos > 2 || (packet.qos > 0 && packet.packet_id is None) {
            result is Err && result->Err_0 == Error::Invalid
        } else if !publish_texts_fit(packet.topic@, packet.properties@) {
            result is Err && result->Err_0 == Error::Overloaded
        } else {
            encode_spec(
                super::v311::publish_first(packet.qos, packet.retain, packet.dup),
                publish_body(
                    packet.topic@,
                    packet.payload@,
                    packet.packet_id,
                    packet.properties@,
                ),
                maximum as nat,
                result,
            )
        },
{
    let properties = packet.properties;
    if packet.qos > 2 || (packet.qos > 0 && packet.packet_id.is_none()) {
        return Err(Error::Invalid);
    }
    let mut body: Vec<u8> = Vec::new();
    put_string(&mut body, packet.topic)?;
    if let Some(id) = packet.packet_id {
        put_u16(&mut body, id);
    }
    assert(body@ =~= string_bytes(packet.topic@) + id_bytes(packet.packet_id));
    let mut encoded: Vec<u8> = Vec::new();
    if let Some(value) = properties.payload_format {
        encoded.push(0x01);
        encoded.push(value);
    }
    assert(encoded@ =~= format_bytes(properties@.payload_format));
    let ghost one = encoded@;
    if let Some(value) = properties.message_expiry {
        encoded.push(0x02);
        put_u32(&mut encoded, value);
    }
    assert(encoded@ =~= one + expiry_bytes(properties@.message_expiry));
    put_text_property(&mut encoded, 0x03, &properties.content_type)?;
    put_text_property(&mut encoded, 0x08, &properties.response_topic)?;
    let ghost four = encoded@;
    if let Some(value) = &properties.correlation_data {
        encoded.push(0x09);
        put_binary(&mut encoded, bytes_slice(value))?;
    }
    assert(encoded@ =~= four + data_property(0x09, properties@.correlation_data));
    put_user_properties(&mut encoded, &properties.user_properties)?;
    assert(encoded@ =~= publish_properties(properties@));
    put_varint(&mut body, encoded.len());
    append_bytes(&mut body, encoded.as_slice());
    append_bytes(&mut body, packet.payload);
    assert(body@ =~= publish_body(
        packet.topic@,
        packet.payload@,
        packet.packet_id,
        properties@,
    ));
    let dup_bit: u8 = if packet.dup {
        1
    } else {
        0
    };
    let retain_bit: u8 = if packet.retain {
        1
    } else {
        0
    };
    let first: u8 = 0x30 | (dup_bit << 3) | (packet.qos << 1) | retain_bit;
    encode(first, body.as_slice(), maximum)
}

/// An acknowledgement; a successful one is as short as it can be.
pub open spec fn ack_body(reason: AckReason, packet_id: u16) -> Seq<u8> {
    if reason.code_spec() == 0 {
        be16(packet_id)
    } else {
        be16(packet_id) + seq![reason.code_spec(), 0u8]
    }
}

/// Encodes an acknowledgement, unless it is larger than the maximum.
pub fn ack(reason: AckReason, packet_id: u16, maximum: usize) -> (result: Result<Vec<u8>, Error>)
    ensures
        encode_spec(reason.first_spec(), ack_body(reason, packet_id), maximum as nat, result),
{
    let first: u8 = match reason {
        AckReason::Puback(_) => 0x40,
        AckReason::Pubrec(_) => 0x50,
        AckReason::Pubrel(_) => 0x62,
        AckReason::Pubcomp(_) => 0x70,
    };
    let code: u8 = reason.code();
    let mut body: Vec<u8> = Vec::new();
    put_u16(&mut body, packet_id);
    if code != 0 {
        body.push(code);
        body.push(0);
    }
    assert(body@ =~= ack_body(reason, packet_id));
    encode(first, body.as_slice(), maximum)
}

/// Encodes a disconnection, unless it is larger than the maximum.
pub fn disconnect(reason: DisconnectReason, maximum: usize) -> (result: Result<Vec<u8>, Error>)
    ensures
        encode_spec(0xe0, seq![reason.code_spec(), 0u8], maximum as nat, result),
{
    let body: Vec<u8> = vec![reason.code(), 0];
    assert(body@ =~= seq![reason.code_spec(), 0u8]);
    encode(0xe0, body.as_slice(), maximum)
}

pub open spec fn suback_codes(reasons: Seq<SubackReason>) -> Seq<u8> {
    Seq::new(reasons.len(), |i: int| reasons[i].code_spec())
}

pub open spec fn unsuback_codes(reasons: Seq<UnsubackReason>) -> Seq<u8> {
    Seq::new(reasons.len(), |i: int| reasons[i].code_spec())
}

/// Encodes the answer to a subscription request: one reason for each filter.
pub fn suback(packet_id: u16, reasons: &[SubackReason], maximum: usize) -> (result: Result<
    Vec<u8>,
    Error,
>)
    ensures
        encode_spec(
            0x90,
            be16(packet_id) + seq![0u8] + suback_codes(reasons@),
            maximum as nat,
            result,
        ),
{
    let mut body: Vec<u8> = Vec::new();
    put_u16(&mut body, packet_id);
    body.push(0);
    let ghost head = be16(packet_id) + seq![0u8];
    let mut at: usize = 0;
    assert(body@ =~= head + suback_codes(reasons@.take(0)));
    while at < reasons.len()
        invariant
            at <= reasons@.len(),
            body@ == head + suback_codes(reasons@.take(at as int)),
        decreases reasons@.len() - at,
    {
        body.push(reasons[at].code());
        at = at + 1;
        assert(body@ =~= head + suback_codes(reasons@.take(at as int)));
    }
    assert(reasons@.take(reasons@.len() as int) =~= reasons@);
    encode(0x90, body.as_slice(), maximum)
}

/// Encodes the answer to an unsubscription request: one reason for each filter.
pub fn unsuback(packet_id: u16, reasons: &[UnsubackReason], maximum: usize) -> (result: Result<
    Vec<u8>,
    Error,
>)
    ensures
        encode_spec(
            0xb0,
            be16(packet_id) + seq![0u8] + unsuback_codes(reasons@),
            maximum as nat,
            result,
        ),
{
    let mut body: Vec<u8> = Vec::new();
    put_u16(&mut body, packet_id);
    body.push(0);
    let ghost head = be16(packet_id) + seq![0u8];
    let mut at: usize = 0;
    assert(body@ =~= head + unsuback_codes(reasons@.take(0)));
    while at < reasons.len()
        invariant
            at <= reasons@.len(),
            body@ == head + unsuback_codes(reasons@.take(at as int)),
        decreases reasons@.len() - at,
    {
        body.push(reasons[at].code());
        at = at + 1;
        assert(body@ =~= head + unsuback_codes(reasons@.take(at as int)));
    }
    assert(reasons@.take(reasons@.len() as int) =~= reasons@);
    encode(0xb0, body.as_slice(), maximum)
}

/// Text that is read back as it was written, if it is within the bound.
proof fn lemma_read_written_string(text: Seq<char>, tail: Seq<u8>, maximum: nat)
    requires
        text_bytes(text) <= u16::MAX,
        text_bytes(text) <= maximum,
        crate::text::permitted_text(text),
    ensures
        read_string(string_bytes(text) + tail, maximum) == Ok::<(Seq<char>, Seq<u8>), DecodeError>(
            (text, tail),
        ),
{
    super::v311::lemma_take_written_string(text, tail, maximum);
    let s = string_bytes(text) + tail;
    assert(s =~= be16(text_bytes(text) as u16) + encode_utf8(text) + tail);
}

proof fn lemma_read_written_binary(data: Seq<u8>, tail: Seq<u8>, maximum: nat)
    requires
        data.len() <= u16::MAX,
        data.len() <= maximum,
    ensures
        read_binary(binary_bytes(data) + tail, maximum) == Ok::<(Seq<u8>, Seq<u8>), DecodeError>(
            (data, tail),
        ),
{
    let length = data.len() as u16;
    let s = binary_bytes(data) + tail;
    crate::number::lemma_be16(length);
    assert(s.take(2) =~= be16(length));
    assert(s.skip(2).take(length as int) =~= data);
    assert(s.skip(2).skip(length as int) =~= tail);
}

proof fn lemma_read_written_integer(value: u32, tail: Seq<u8>)
    ensures
        read_integer(be32(value) + tail) == Ok::<(u32, Seq<u8>), DecodeError>((value, tail)),
{
    crate::number::lemma_power256();
    crate::number::lemma_be_round_trip(value as nat, 4);
    crate::number::lemma_to_be_len(value as nat, 4);
    let s = be32(value) + tail;
    assert(s.take(4) =~= be32(value));
    assert(s.skip(4) =~= tail);
}

proof fn lemma_pairs_front(pairs: Seq<(Seq<char>, Seq<char>)>)
    requires
        pairs.len() > 0,
    ensures
        pairs_bytes(pairs) == pair_bytes(pairs[0]) + pairs_bytes(pairs.drop_first()),
    decreases pairs.len(),
{
    if pairs.len() == 1 {
        assert(pairs.drop_last() =~= Seq::empty());
        assert(pairs.drop_first() =~= Seq::empty());
        assert(pairs_bytes(pairs) =~= pair_bytes(pairs[0]) + pairs_bytes(pairs.drop_first()));
    } else {
        lemma_pairs_front(pairs.drop_last());
        assert(pairs.drop_last().drop_first() =~= pairs.drop_first().drop_last());
        assert(pairs_bytes(pairs) =~= pair_bytes(pairs[0]) + pairs_bytes(pairs.drop_first()));
    }
}

/// User properties that decoding accepts.
pub open spec fn pairs_acceptable(pairs: Seq<(Seq<char>, Seq<char>)>, limits: Limits) -> bool {
    &&& pairs.len() <= limits.max_mqtt_user_properties
    &&& user_bytes(pairs) <= limits.max_mqtt_user_property_bytes
    &&& forall|i: int|
        0 <= i < pairs.len() ==> {
            &&& crate::text::permitted_text((#[trigger] pairs[i]).0)
            &&& crate::text::permitted_text(pairs[i].1)
            &&& text_bytes(pairs[i].0) <= u16::MAX
            &&& text_bytes(pairs[i].1) <= u16::MAX
        }
}

proof fn lemma_user_bytes_member(pairs: Seq<(Seq<char>, Seq<char>)>, at: int)
    requires
        0 <= at < pairs.len(),
    ensures
        text_bytes(pairs[at].0) <= user_bytes(pairs),
        text_bytes(pairs[at].1) <= user_bytes(pairs),
    decreases pairs.len(),
{
    if at < pairs.len() - 1 {
        lemma_user_bytes_member(pairs.drop_last(), at);
    }
}

#[verifier::spinoff_prover]
#[verifier::rlimit(60)]
proof fn lemma_read_written_pairs(
    pairs: Seq<(Seq<char>, Seq<char>)>,
    done: int,
    ids: Set<u8>,
    seen: PropertiesView,
    context: PropertyContext,
    limits: Limits,
)
    requires
        pairs_acceptable(pairs, limits),
        0 <= done <= pairs.len(),
        seen.user_properties == pairs.take(done),
        seen.authentication_data is None,
    ensures
        read_property_list(pairs_bytes(pairs.skip(done)), context, ids, seen, limits) == Ok::<
            PropertiesView,
            DecodeError,
        >(PropertiesView { user_properties: pairs, ..seen }),
    decreases pairs.len() - done,
{
    reveal(read_property_list);
    let left = pairs.skip(done);
    if done == pairs.len() {
        assert(left =~= Seq::empty());
        assert(pairs.take(done) =~= pairs);
        assert(seen =~= (PropertiesView { user_properties: pairs, ..seen }));
    } else {
        lemma_pairs_front(left);
        let pair = pairs[done];
        let tail = pairs_bytes(left.drop_first());
        let s = pairs_bytes(left);
        let after_key = string_bytes(pair.1) + tail;
        lemma_user_bytes_member(pairs, done);
        lemma_read_written_string(pair.0, after_key, limits.max_mqtt_user_property_bytes as nat);
        lemma_read_written_string(pair.1, tail, limits.max_mqtt_user_property_bytes as nat);
        assert(s.skip(1) =~= string_bytes(pair.0) + after_key);
        assert(s[0] == 0x26u8);
        let grown = seen.user_properties.push((pair.0, pair.1));
        assert(grown =~= pairs.take(done + 1));
        lemma_user_bytes_prefix(pairs, done + 1);
        let next = PropertiesView { user_properties: grown, ..seen };
        assert(read_property(0x26, s.skip(1), seen, limits) == Ok::<
            (PropertiesView, Seq<u8>),
            DecodeError,
        >((next, tail))) by {
            reveal(read_property);
        }
        assert(left.drop_first() =~= pairs.skip(done + 1));
        assert(tail.len() < s.len());
        lemma_read_written_pairs(pairs, done + 1, ids.insert(0x26), next, context, limits);
        assert((PropertiesView { user_properties: pairs, ..next }) =~= (PropertiesView {
            user_properties: pairs,
            ..seen
        }));
    }
}

/// Properties that a published message may carry and that decoding accepts.
pub open spec fn publish_acceptable(properties: PropertiesView, limits: Limits) -> bool {
    &&& properties == (PropertiesView {
        payload_format: properties.payload_format,
        message_expiry: properties.message_expiry,
        content_type: properties.content_type,
        response_topic: properties.response_topic,
        correlation_data: properties.correlation_data,
        user_properties: properties.user_properties,
        ..no_properties()
    })
    &&& properties.payload_format matches Some(value) ==> value <= 1
    &&& properties.content_type matches Some(value) ==> crate::text::permitted_text(value)
        && text_bytes(value) <= limits.max_mqtt_content_type_bytes && text_bytes(value) <= u16::MAX
    &&& properties.response_topic matches Some(value) ==> crate::text::permitted_text(value)
        && topic_valid(value, limits, false) && text_bytes(value)
        <= limits.max_mqtt_response_topic_bytes && text_bytes(value) <= u16::MAX
    &&& properties.correlation_data matches Some(value) ==> value.len()
        <= limits.max_mqtt_correlation_data_bytes && value.len() <= u16::MAX
    &&& pairs_acceptable(properties.user_properties, limits)
    &&& publish_properties(properties).len() <= limits.max_mqtt_property_bytes
}

/// One property in front of others is read, whatever the others are.
proof fn lemma_read_one(
    id: u8,
    value: Seq<u8>,
    tail: Seq<u8>,
    ids: Set<u8>,
    seen: PropertiesView,
    next: PropertiesView,
    limits: Limits,
)
    requires
        id < 64,
        !ids.contains(id),
        property_allowed(id, PropertyContext::Publish) == Ok::<bool, DecodeError>(true),
        read_property(id, value + tail, seen, limits) == Ok::<(PropertiesView, Seq<u8>), DecodeError>(
            (next, tail),
        ),
    ensures
        read_property_list(seq![id] + value + tail, PropertyContext::Publish, ids, seen, limits)
            == read_property_list(tail, PropertyContext::Publish, ids.insert(id), next, limits),
{
    reveal(read_property_list);
    let s = seq![id] + value + tail;
    assert(s.skip(1) =~= value + tail);
    assert(s[0] == id);
}

/// The identifiers read so far, with one more if its property is there.
spec fn with_id(ids: Set<u8>, present: bool, id: u8) -> Set<u8> {
    if present {
        ids.insert(id)
    } else {
        ids
    }
}

proof fn lemma_step_format(value: Option<u8>, tail: Seq<u8>, ids: Set<u8>, seen: PropertiesView, limits: Limits)
    requires
        value matches Some(v) ==> v <= 1,
        seen.payload_format is None,
        !ids.contains(0x01),
    ensures
        read_property_list(format_bytes(value) + tail, PropertyContext::Publish, ids, seen, limits)
            == read_property_list(
            tail,
            PropertyContext::Publish,
            with_id(ids, value is Some, 0x01),
            PropertiesView { payload_format: value, ..seen },
            limits,
        ),
{
    reveal(read_property);
    let next = PropertiesView { payload_format: value, ..seen };
    match value {
        Some(v) => {
            assert(format_bytes(value) + tail =~= seq![0x01u8] + seq![v] + tail);
            assert((seq![v] + tail).skip(1) =~= tail);
            lemma_read_one(0x01, seq![v], tail, ids, seen, next, limits);
        },
        None => {
            assert(format_bytes(value) + tail =~= tail);
            assert(next =~= seen);
        },
    }
}

proof fn lemma_step_expiry(value: Option<u32>, tail: Seq<u8>, ids: Set<u8>, seen: PropertiesView, limits: Limits)
    requires
        seen.message_expiry is None,
        !ids.contains(0x02),
    ensures
        read_property_list(expiry_bytes(value) + tail, PropertyContext::Publish, ids, seen, limits)
            == read_property_list(
            tail,
            PropertyContext::Publish,
            with_id(ids, value is Some, 0x02),
            PropertiesView { message_expiry: value, ..seen },
            limits,
        ),
{
    reveal(read_property);
    let next = PropertiesView { message_expiry: value, ..seen };
    match value {
        Some(v) => {
            assert(expiry_bytes(value) + tail =~= seq![0x02u8] + be32(v) + tail);
            lemma_read_written_integer(v, tail);
            lemma_read_one(0x02, be32(v), tail, ids, seen, next, limits);
        },
        None => {
            assert(expiry_bytes(value) + tail =~= tail);
            assert(next =~= seen);
        },
    }
}

proof fn lemma_step_content(value: Option<Seq<char>>, tail: Seq<u8>, ids: Set<u8>, seen: PropertiesView, limits: Limits)
    requires
        value matches Some(v) ==> crate::text::permitted_text(v) && text_bytes(v)
            <= limits.max_mqtt_content_type_bytes && text_bytes(v) <= u16::MAX,
        seen.content_type is None,
        !ids.contains(0x03),
    ensures
        read_property_list(
            text_property(0x03, value) + tail,
            PropertyContext::Publish,
            ids,
            seen,
            limits,
        ) == read_property_list(
            tail,
            PropertyContext::Publish,
            with_id(ids, value is Some, 0x03),
            PropertiesView { content_type: value, ..seen },
            limits,
        ),
{
    reveal(read_property);
    let next = PropertiesView { content_type: value, ..seen };
    match value {
        Some(v) => {
            assert(text_property(0x03, value) + tail =~= seq![0x03u8] + string_bytes(v) + tail);
            lemma_read_written_string(v, tail, limits.max_mqtt_content_type_bytes as nat);
            lemma_read_one(0x03, string_bytes(v), tail, ids, seen, next, limits);
        },
        None => {
            assert(text_property(0x03, value) + tail =~= tail);
            assert(next =~= seen);
        },
    }
}

proof fn lemma_step_response(value: Option<Seq<char>>, tail: Seq<u8>, ids: Set<u8>, seen: PropertiesView, limits: Limits)
    requires
        value matches Some(v) ==> crate::text::permitted_text(v) && topic_valid(v, limits, false)
            && text_bytes(v) <= limits.max_mqtt_response_topic_bytes && text_bytes(v) <= u16::MAX,
        seen.response_topic is None,
        !ids.contains(0x08),
    ensures
        read_property_list(
            text_property(0x08, value) + tail,
            PropertyContext::Publish,
            ids,
            seen,
            limits,
        ) == read_property_list(
            tail,
            PropertyContext::Publish,
            with_id(ids, value is Some, 0x08),
            PropertiesView { response_topic: value, ..seen },
            limits,
        ),
{
    reveal(read_property);
    let next = PropertiesView { response_topic: value, ..seen };
    match value {
        Some(v) => {
            assert(text_property(0x08, value) + tail =~= seq![0x08u8] + string_bytes(v) + tail);
            lemma_read_written_string(v, tail, limits.max_mqtt_response_topic_bytes as nat);
            lemma_read_one(0x08, string_bytes(v), tail, ids, seen, next, limits);
        },
        None => {
            assert(text_property(0x08, value) + tail =~= tail);
            assert(next =~= seen);
        },
    }
}

proof fn lemma_step_correlation(value: Option<Seq<u8>>, tail: Seq<u8>, ids: Set<u8>, seen: PropertiesView, limits: Limits)
    requires
        value matches Some(v) ==> v.len() <= limits.max_mqtt_correlation_data_bytes && v.len()
            <= u16::MAX,
        seen.correlation_data is None,
        !ids.contains(0x09),
    ensures
        read_property_list(
            data_property(0x09, value) + tail,
            PropertyContext::Publish,
            ids,
            seen,
            limits,
        ) == read_property_list(
            tail,
            PropertyContext::Publish,
            with_id(ids, value is Some, 0x09),
            PropertiesView { correlation_data: value, ..seen },
            limits,
        ),
{
    reveal(read_property);
    let next = PropertiesView { correlation_data: value, ..seen };
    match value {
        Some(v) => {
            assert(data_property(0x09, value) + tail =~= seq![0x09u8] + binary_bytes(v) + tail);
            lemma_read_written_binary(v, tail, limits.max_mqtt_correlation_data_bytes as nat);
            lemma_read_one(0x09, binary_bytes(v), tail, ids, seen, next, limits);
        },
        None => {
            assert(data_property(0x09, value) + tail =~= tail);
            assert(next =~= seen);
        },
    }
}

proof fn lemma_concat_six(a: Seq<u8>, b: Seq<u8>, c: Seq<u8>, d: Seq<u8>, e: Seq<u8>, f: Seq<u8>)
    ensures
        a + b + c + d + e + f == a + (b + (c + (d + (e + f)))),
{
    assert(d + e + f =~= d + (e + f));
    assert(a + b + c + d + e + f =~= (a + b + c) + (d + e + f));
    assert((a + b + c) + (d + (e + f)) =~= a + (b + (c + (d + (e + f)))));
}

proof fn lemma_read_written_properties(properties: PropertiesView, limits: Limits)
    requires
        publish_acceptable(properties, limits),
    ensures
        read_property_list(
            publish_properties(properties),
            PropertyContext::Publish,
            Set::empty(),
            no_properties(),
            limits,
        ) == Ok::<PropertiesView, DecodeError>(properties),
{
    let p = properties;
    let tail5 = pairs_bytes(p.user_properties);
    let tail4 = data_property(0x09, p.correlation_data) + tail5;
    let tail3 = text_property(0x08, p.response_topic) + tail4;
    let tail2 = text_property(0x03, p.content_type) + tail3;
    let tail1 = expiry_bytes(p.message_expiry) + tail2;
    lemma_concat_six(
        format_bytes(p.payload_format),
        expiry_bytes(p.message_expiry),
        text_property(0x03, p.content_type),
        text_property(0x08, p.response_topic),
        data_property(0x09, p.correlation_data),
        tail5,
    );
    let v0 = no_properties();
    let v1 = PropertiesView { payload_format: p.payload_format, ..v0 };
    let v2 = PropertiesView { message_expiry: p.message_expiry, ..v1 };
    let v3 = PropertiesView { content_type: p.content_type, ..v2 };
    let v4 = PropertiesView { response_topic: p.response_topic, ..v3 };
    let v5 = PropertiesView { correlation_data: p.correlation_data, ..v4 };
    let i0 = Set::<u8>::empty();
    let i1 = with_id(i0, p.payload_format is Some, 0x01);
    let i2 = with_id(i1, p.message_expiry is Some, 0x02);
    let i3 = with_id(i2, p.content_type is Some, 0x03);
    let i4 = with_id(i3, p.response_topic is Some, 0x08);
    let i5 = with_id(i4, p.correlation_data is Some, 0x09);
    lemma_step_format(p.payload_format, tail1, i0, v0, limits);
    lemma_step_expiry(p.message_expiry, tail2, i1, v1, limits);
    lemma_step_content(p.content_type, tail3, i2, v2, limits);
    lemma_step_response(p.response_topic, tail4, i3, v3, limits);
    lemma_step_correlation(p.correlation_data, tail5, i4, v4, limits);
    assert(p.user_properties.take(0) =~= Seq::empty());
    assert(p.user_properties.skip(0) =~= p.user_properties);
    lemma_read_written_pairs(p.user_properties, 0, i5, v5, PropertyContext::Publish, limits);
    assert((PropertiesView { user_properties: p.user_properties, ..v5 }) =~= p);
}

/// A property field is read back as it was written, whatever follows it.
proof fn lemma_read_written_field(properties: PropertiesView, tail: Seq<u8>, limits: Limits)
    requires
        publish_acceptable(properties, limits),
        publish_properties(properties).len() <= super::common::MAX_REMAINING,
    ensures
        ({
            let encoded = publish_properties(properties);
            read_properties(
                varint(encoded.len()) + (encoded + tail),
                PropertyContext::Publish,
                limits,
            ) == Ok::<(PropertiesView, Seq<u8>), DecodeError>((properties, tail))
        }),
{
    reveal(read_properties);
    let encoded = publish_properties(properties);
    let s = varint(encoded.len()) + (encoded + tail);
    super::common::law_remaining_length_round_trip(encoded.len(), encoded + tail);
    let after = s.skip(varint(encoded.len()).len() as int);
    assert(after =~= encoded + tail);
    assert(after.take(encoded.len() as int) =~= encoded);
    assert(after.skip(encoded.len() as int) =~= tail);
    lemma_read_written_properties(properties, limits);
}

/// A message that can be sent and that decoding accepts.
pub open spec fn publish_decodable(
    topic: Seq<char>,
    qos: u8,
    packet_id: Option<u16>,
    dup: bool,
    properties: PropertiesView,
    limits: Limits,
) -> bool {
    &&& super::v311::publish_valid(topic, qos, packet_id, dup, limits)
    &&& crate::text::permitted_text(topic)
    &&& publish_acceptable(properties, limits)
}

proof fn lemma_concat_five(a: Seq<u8>, b: Seq<u8>, c: Seq<u8>, d: Seq<u8>, e: Seq<u8>)
    ensures
        a + b + c + d + e == a + (b + (c + (d + e))),
{
    assert(a + b + c + d + e =~= a + (b + (c + (d + e))));
}

proof fn lemma_publish_body_parses(
    first: u8,
    topic: Seq<char>,
    payload: Seq<u8>,
    qos: u8,
    packet_id: Option<u16>,
    dup: bool,
    properties: PropertiesView,
    limits: Limits,
)
    requires
        publish_decodable(topic, qos, packet_id, dup, properties, limits),
        publish_properties(properties).len() <= super::common::MAX_REMAINING,
        (first >> 1) & 3 == qos,
        (first & 8 != 0) == dup,
    ensures
        publish_packet(first, publish_body(topic, payload, packet_id, properties), limits) == Ok::<
            PacketView,
            DecodeError,
        >(
            PacketView::Publish {
                topic,
                payload,
                qos,
                packet_id,
                retain: first & 1 != 0,
                dup,
                properties,
            },
        ),
{
    let body = publish_body(topic, payload, packet_id, properties);
    let encoded = publish_properties(properties);
    let tail = varint(encoded.len()) + (encoded + payload);
    let rest = id_bytes(packet_id) + tail;
    lemma_concat_five(
        string_bytes(topic),
        id_bytes(packet_id),
        varint(encoded.len()),
        encoded,
        payload,
    );
    crate::text::lemma_topic_fits(
        topic,
        limits.max_topic_bytes as nat,
        limits.max_topic_depth as nat,
        false,
    );
    lemma_read_written_string(topic, rest, limits.max_topic_bytes as nat);
    assert(read_string(body, limits.max_topic_bytes as nat) == Ok::<
        (Seq<char>, Seq<u8>),
        DecodeError,
    >((topic, rest)));
    assert(read_properties(tail, PropertyContext::Publish, limits) == Ok::<
        (PropertiesView, Seq<u8>),
        DecodeError,
    >((properties, payload))) by {
        lemma_read_written_field(properties, payload, limits);
    }
    match packet_id {
        Some(id) => {
            assert(read_id(rest) == Ok::<(u16, Seq<u8>), DecodeError>((id, tail))) by {
                super::v311::lemma_take_written_id(id, tail);
            }
        },
        None => {
            assert(rest =~= tail);
        },
    }
}

/// Decoding an encoded message gives the message and its properties back and leaves what follows.
pub proof fn law_publish_round_trip(
    topic: Seq<char>,
    payload: Seq<u8>,
    qos: u8,
    packet_id: Option<u16>,
    retain: bool,
    dup: bool,
    properties: PropertiesView,
    limits: Limits,
    tail: Seq<u8>,
)
    requires
        publish_decodable(topic, qos, packet_id, dup, properties, limits),
        packet_fits(
            publish_body(topic, payload, packet_id, properties).len(),
            limits.max_mqtt_packet_size as nat,
        ),
    ensures
        decode_spec(
            packet_bytes(
                super::v311::publish_first(qos, retain, dup),
                publish_body(topic, payload, packet_id, properties),
            ) + tail,
            limits,
        ) == (
            Ok::<Option<PacketView>, DecodeError>(
                Some(PacketView::Publish { topic, payload, qos, packet_id, retain, dup, properties }),
            ),
            tail,
        ),
{
    super::v311::lemma_publish_first(qos, retain, dup);
    lemma_publish_body_parses(
        super::v311::publish_first(qos, retain, dup),
        topic,
        payload,
        qos,
        packet_id,
        dup,
        properties,
        limits,
    );
    super::common::law_header_of_encoded(
        super::v311::publish_first(qos, retain, dup),
        publish_body(topic, payload, packet_id, properties),
        tail,
        limits.max_mqtt_packet_size as nat,
    );
}

/// Decoding an encoded acknowledgement gives back its identifier and its reason, and leaves what
/// follows it.
pub proof fn law_ack_round_trip(reason: AckReason, id: u16, limits: Limits, tail: Seq<u8>)
    requires
        id != 0,
        packet_fits(ack_body(reason, id).len(), limits.max_mqtt_packet_size as nat),
    ensures
        decode_spec(packet_bytes(reason.first_spec(), ack_body(reason, id)) + tail, limits) == (
            Ok::<Option<PacketView>, DecodeError>(
                Some(
                    match reason {
                        AckReason::Puback(_) => PacketView::Puback {
                            packet_id: id,
                            reason: reason.code_spec(),
                        },
                        AckReason::Pubrec(_) => PacketView::Pubrec {
                            packet_id: id,
                            reason: reason.code_spec(),
                        },
                        AckReason::Pubrel(_) => PacketView::Pubrel {
                            packet_id: id,
                            reason: reason.code_spec(),
                        },
                        AckReason::Pubcomp(_) => PacketView::Pubcomp {
                            packet_id: id,
                            reason: reason.code_spec(),
                        },
                    },
                ),
            ),
            tail,
        ),
{
    let body = ack_body(reason, id);
    let code = reason.code_spec();
    super::v311::lemma_ack_first(reason.first_spec());
    crate::number::lemma_be16(id);
    assert(body.take(2) =~= be16(id));
    if code == 0 {
        assert(body.skip(2) =~= Seq::<u8>::empty());
    } else {
        let rest = body.skip(2);
        assert(rest =~= seq![code, 0u8]);
        assert(rest.skip(1) =~= seq![0u8]);
        assert(read_properties(seq![0u8], PropertyContext::Ack, limits) == Ok::<
            (PropertiesView, Seq<u8>),
            DecodeError,
        >((no_properties(), Seq::<u8>::empty()))) by {
            let none = Seq::<u8>::empty();
            super::common::law_remaining_length_round_trip(0, none);
            assert(super::common::varint(0) =~= seq![0u8]);
            assert(super::common::varint(0) + none =~= seq![0u8]);
            assert(seq![0u8].skip(1) =~= none);
            reveal(read_properties);
            reveal(read_property_list);
            assert(none.take(0) =~= none);
            assert(none.skip(0) =~= none);
        }
    }
    super::common::law_header_of_encoded(
        reason.first_spec(),
        body,
        tail,
        limits.max_mqtt_packet_size as nat,
    );
}

} // verus!
