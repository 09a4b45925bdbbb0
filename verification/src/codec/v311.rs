//! MQTT 3.1.1 packets.
use super::common::{
    encode, encoded_size, fixed_header, fixed_header_spec, packet_bytes, packet_fits, take_binary,
    take_byte, take_id, take_short, take_string, topic_valid, valid_topic, Cursor,
};
use crate::buffer::{
    advance, bytes_contents, bytes_mut_contents, bytes_mut_slice, bytes_slice, to_vec,
};
use crate::error::Error;
use crate::limits::Limits;
use crate::number::{append_bytes, be16, put_u16};
use crate::text::{byte_len, same_text, text_bytes};
use bytes::{Bytes, BytesMut};
use vstd::prelude::*;
use vstd::utf8::encode_utf8;

verus! {

/// The message that the server publishes when a client vanishes.
#[derive(Debug, PartialEq, Eq)]
pub struct Will {
    pub topic: String,
    pub payload: Bytes,
    pub qos: u8,
    pub retain: bool,
}

/// A connection request.
#[derive(Debug, PartialEq, Eq)]
pub struct Connect {
    pub client_id: String,
    pub username: Option<String>,
    pub password: Option<Vec<u8>>,
    pub keep_alive: u16,
    pub clean_session: bool,
    pub will: Option<Will>,
}

/// A control packet.
#[derive(Debug, PartialEq, Eq)]
pub enum Packet {
    Connect(Connect),
    UnsupportedVersion(u8),
    Connack { session_present: bool, code: u8 },
    Publish {
        topic: String,
        payload: Bytes,
        qos: u8,
        packet_id: Option<u16>,
        retain: bool,
        dup: bool,
    },
    Puback(u16),
    Pubrec(u16),
    Pubrel(u16),
    Pubcomp(u16),
    Subscribe { packet_id: u16, filters: Vec<(String, u8)> },
    Suback { packet_id: u16, returns: Vec<u8> },
    Unsubscribe { packet_id: u16, filters: Vec<String> },
    Unsuback(u16),
    Pingreq,
    Pingresp,
    Disconnect,
}

pub struct WillView {
    pub topic: Seq<char>,
    pub payload: Seq<u8>,
    pub qos: u8,
    pub retain: bool,
}

pub struct ConnectView {
    pub client_id: Seq<char>,
    pub username: Option<Seq<char>>,
    pub password: Option<Seq<u8>>,
    pub keep_alive: u16,
    pub clean_session: bool,
    pub will: Option<WillView>,
}

/// A packet with its text and bytes as mathematical sequences.
pub enum PacketView {
    Connect(ConnectView),
    UnsupportedVersion(u8),
    Connack { session_present: bool, code: u8 },
    Publish {
        topic: Seq<char>,
        payload: Seq<u8>,
        qos: u8,
        packet_id: Option<u16>,
        retain: bool,
        dup: bool,
    },
    Puback(u16),
    Pubrec(u16),
    Pubrel(u16),
    Pubcomp(u16),
    Subscribe { packet_id: u16, filters: Seq<(Seq<char>, u8)> },
    Suback { packet_id: u16, returns: Seq<u8> },
    Unsubscribe { packet_id: u16, filters: Seq<Seq<char>> },
    Unsuback(u16),
    Pingreq,
    Pingresp,
    Disconnect,
}

pub open spec fn text_view(text: Option<String>) -> Option<Seq<char>> {
    match text {
        Some(value) => Some(value@),
        None => None,
    }
}

pub open spec fn filter_views(filters: Seq<(String, u8)>) -> Seq<(Seq<char>, u8)> {
    Seq::new(filters.len(), |i: int| (filters[i].0@, filters[i].1))
}

pub open spec fn name_views(names: Seq<String>) -> Seq<Seq<char>> {
    Seq::new(names.len(), |i: int| names[i]@)
}

impl View for Will {
    type V = WillView;

    open spec fn view(&self) -> WillView {
        WillView {
            topic: self.topic@,
            payload: bytes_contents(self.payload),
            qos: self.qos,
            retain: self.retain,
        }
    }
}

impl View for Connect {
    type V = ConnectView;

    open spec fn view(&self) -> ConnectView {
        ConnectView {
            client_id: self.client_id@,
            username: text_view(self.username),
            password: match self.password {
                Some(value) => Some(value@),
                None => None,
            },
            keep_alive: self.keep_alive,
            clean_session: self.clean_session,
            will: match self.will {
                Some(will) => Some(will@),
                None => None,
            },
        }
    }
}

impl View for Packet {
    type V = PacketView;

    open spec fn view(&self) -> PacketView {
        match *self {
            Packet::Connect(connect) => PacketView::Connect(connect@),
            Packet::UnsupportedVersion(version) => PacketView::UnsupportedVersion(version),
            Packet::Connack { session_present, code } => PacketView::Connack {
                session_present,
                code,
            },
            Packet::Publish { topic, payload, qos, packet_id, retain, dup } => PacketView::Publish {
                topic: topic@,
                payload: bytes_contents(payload),
                qos,
                packet_id,
                retain,
                dup,
            },
            Packet::Puback(id) => PacketView::Puback(id),
            Packet::Pubrec(id) => PacketView::Pubrec(id),
            Packet::Pubrel(id) => PacketView::Pubrel(id),
            Packet::Pubcomp(id) => PacketView::Pubcomp(id),
            Packet::Subscribe { packet_id, filters } => PacketView::Subscribe {
                packet_id,
                filters: filter_views(filters@),
            },
            Packet::Suback { packet_id, returns } => PacketView::Suback {
                packet_id,
                returns: returns@,
            },
            Packet::Unsubscribe { packet_id, filters } => PacketView::Unsubscribe {
                packet_id,
                filters: name_views(filters@),
            },
            Packet::Unsuback(id) => PacketView::Unsuback(id),
            Packet::Pingreq => PacketView::Pingreq,
            Packet::Pingresp => PacketView::Pingresp,
            Packet::Disconnect => PacketView::Disconnect,
        }
    }
}

/// Text that is there only if the flag says so.
pub open spec fn take_optional_string(s: Seq<u8>, present: bool, maximum: nat) -> Option<
    (Option<Seq<char>>, Seq<u8>),
> {
    if !present {
        Some((None, s))
    } else {
        match take_string(s, maximum) {
            None => None,
            Some((value, rest)) => Some((Some(value), rest)),
        }
    }
}

/// Bytes that are there only if the flag says so.
pub open spec fn take_optional_binary(s: Seq<u8>, present: bool, maximum: nat) -> Option<
    (Option<Seq<u8>>, Seq<u8>),
> {
    if !present {
        Some((None, s))
    } else {
        match take_binary(s, maximum) {
            None => None,
            Some((value, rest)) => Some((Some(value), rest)),
        }
    }
}

/// The will of a connection request, if its flags announce one.
pub open spec fn take_will(s: Seq<u8>, flags: u8, limits: Limits) -> Option<
    (Option<WillView>, Seq<u8>),
> {
    if flags & 4 == 0 {
        Some((None, s))
    } else {
        match take_string(s, limits.max_topic_bytes as nat) {
            None => None,
            Some((topic, s1)) => if !topic_valid(topic, limits, false) {
                None
            } else {
                match take_binary(s1, limits.max_will_payload_bytes as nat) {
                    None => None,
                    Some((payload, s2)) => Some(
                        (
                            Some(
                                WillView {
                                    topic,
                                    payload,
                                    qos: (flags >> 3) & 3,
                                    retain: flags & 0x20 != 0,
                                },
                            ),
                            s2,
                        ),
                    ),
                }
            },
        }
    }
}

/// The reserved bit is clear, a will has a valid quality of service, an absent will has no
/// attributes, and a password comes with a user name.
pub open spec fn connect_flags_ok(flags: u8) -> bool {
    &&& flags & 1 == 0
    &&& (flags >> 3) & 3 != 3
    &&& flags & 4 == 0 ==> flags & 0x38 == 0
    &&& flags & 0x40 != 0 ==> flags & 0x80 != 0
}

/// What follows the fixed part of a connection request.
pub open spec fn connect_payload(s: Seq<u8>, flags: u8, keep_alive: u16, limits: Limits) -> Result<
    PacketView,
    Error,
> {
    match take_string(s, limits.max_client_id_bytes as nat) {
        None => Err(Error::Invalid),
        Some((client_id, s1)) => match take_will(s1, flags, limits) {
            None => Err(Error::Invalid),
            Some((will, s2)) => match take_optional_string(
                s2,
                flags & 0x80 != 0,
                limits.max_username_bytes as nat,
            ) {
                None => Err(Error::Invalid),
                Some((username, s3)) => match take_optional_binary(
                    s3,
                    flags & 0x40 != 0,
                    limits.max_password_bytes as nat,
                ) {
                    None => Err(Error::Invalid),
                    Some((password, s4)) => if s4.len() != 0 {
                        Err(Error::Invalid)
                    } else {
                        Ok(
                            PacketView::Connect(
                                ConnectView {
                                    client_id,
                                    username,
                                    password,
                                    keep_alive,
                                    clean_session: flags & 2 != 0,
                                    will,
                                },
                            ),
                        )
                    },
                },
            },
        },
    }
}

/// A connection request; another protocol level is reported, not refused.
pub open spec fn connect_spec(s: Seq<u8>, limits: Limits) -> Result<PacketView, Error> {
    match take_string(s, 6) {
        None => Err(Error::Invalid),
        Some((name, s1)) => if name != "MQTT"@ {
            Err(Error::Invalid)
        } else {
            match take_byte(s1) {
                None => Err(Error::Invalid),
                Some((version, s2)) => if version != 4 {
                    Ok(PacketView::UnsupportedVersion(version))
                } else {
                    match take_byte(s2) {
                        None => Err(Error::Invalid),
                        Some((flags, s3)) => match take_short(s3) {
                            None => Err(Error::Invalid),
                            Some((keep_alive, s4)) => if !connect_flags_ok(flags) {
                                Err(Error::Invalid)
                            } else {
                                connect_payload(s4, flags, keep_alive, limits)
                            },
                        },
                    }
                },
            }
        },
    }
}

/// A body that is one packet identifier.
pub open spec fn only_id(s: Seq<u8>) -> Option<u16> {
    match take_id(s) {
        None => None,
        Some((id, rest)) => if rest.len() == 0 {
            Some(id)
        } else {
            None
        },
    }
}

pub open spec fn ack_packet(s: Seq<u8>, kind: u8) -> Result<PacketView, Error> {
    match only_id(s) {
        None => Err(Error::Invalid),
        Some(id) => Ok(
            if kind == 4 {
                PacketView::Puback(id)
            } else if kind == 5 {
                PacketView::Pubrec(id)
            } else if kind == 6 {
                PacketView::Pubrel(id)
            } else if kind == 7 {
                PacketView::Pubcomp(id)
            } else {
                PacketView::Unsuback(id)
            },
        ),
    }
}

/// The filters of a subscription request, appended to those already read.
pub open spec fn subscribe_filters(s: Seq<u8>, seen: Seq<(Seq<char>, u8)>, limits: Limits) -> Result<
    Seq<(Seq<char>, u8)>,
    Error,
>
    decreases s.len(),
{
    if s.len() == 0 {
        Ok(seen)
    } else if seen.len() >= limits.max_subscription_filters_per_packet {
        Err(Error::Overloaded)
    } else {
        match take_string(s, limits.max_topic_bytes as nat) {
            None => Err(Error::Invalid),
            Some((filter, s1)) => match take_byte(s1) {
                None => Err(Error::Invalid),
                Some((qos, s2)) => if qos > 2 || !topic_valid(filter, limits, true) {
                    Err(Error::Invalid)
                } else {
                    subscribe_filters(s2, seen.push((filter, qos)), limits)
                },
            },
        }
    }
}

/// The filters of an unsubscription request, appended to those already read.
pub open spec fn unsubscribe_filters(s: Seq<u8>, seen: Seq<Seq<char>>, limits: Limits) -> Result<
    Seq<Seq<char>>,
    Error,
>
    decreases s.len(),
{
    if s.len() == 0 {
        Ok(seen)
    } else if seen.len() >= limits.max_subscription_filters_per_packet {
        Err(Error::Overloaded)
    } else {
        match take_string(s, limits.max_topic_bytes as nat) {
            None => Err(Error::Invalid),
            Some((filter, s1)) => if !topic_valid(filter, limits, true) {
                Err(Error::Invalid)
            } else {
                unsubscribe_filters(s1, seen.push(filter), limits)
            },
        }
    }
}

pub open spec fn publish_packet(first: u8, s: Seq<u8>, limits: Limits) -> Result<PacketView, Error> {
    let qos = (first >> 1) & 3;
    match take_string(s, limits.max_topic_bytes as nat) {
        None => Err(Error::Invalid),
        Some((topic, s1)) => if !topic_valid(topic, limits, false) {
            Err(Error::Invalid)
        } else if qos == 0 {
            Ok(
                PacketView::Publish {
                    topic,
                    payload: s1,
                    qos,
                    packet_id: None,
                    retain: first & 1 != 0,
                    dup: first & 8 != 0,
                },
            )
        } else {
            match take_id(s1) {
                None => Err(Error::Invalid),
                Some((id, s2)) => Ok(
                    PacketView::Publish {
                        topic,
                        payload: s2,
                        qos,
                        packet_id: Some(id),
                        retain: first & 1 != 0,
                        dup: first & 8 != 0,
                    },
                ),
            }
        },
    }
}

pub open spec fn connack_packet(s: Seq<u8>) -> Result<PacketView, Error> {
    if s.len() != 2 || s[0] & 0xfe != 0 || s[1] > 5 || (s[1] != 0 && s[0] & 1 != 0) {
        Err(Error::Invalid)
    } else {
        Ok(PacketView::Connack { session_present: s[0] & 1 != 0, code: s[1] })
    }
}

pub open spec fn return_code_ok(code: u8) -> bool {
    code == 0 || code == 1 || code == 2 || code == 0x80
}

pub open spec fn suback_packet(s: Seq<u8>) -> Result<PacketView, Error> {
    match take_id(s) {
        None => Err(Error::Invalid),
        Some((packet_id, codes)) => if codes.len() == 0 || exists|i: int|
            0 <= i < codes.len() && !return_code_ok(#[trigger] codes[i]) {
            Err(Error::Invalid)
        } else {
            Ok(PacketView::Suback { packet_id, returns: codes })
        },
    }
}

pub open spec fn subscribe_packet(s: Seq<u8>, limits: Limits) -> Result<PacketView, Error> {
    match take_id(s) {
        None => Err(Error::Invalid),
        Some((packet_id, s1)) => match subscribe_filters(s1, Seq::empty(), limits) {
            Err(error) => Err(error),
            Ok(filters) => if filters.len() == 0 {
                Err(Error::Invalid)
            } else {
                Ok(PacketView::Subscribe { packet_id, filters })
            },
        },
    }
}

pub open spec fn unsubscribe_packet(s: Seq<u8>, limits: Limits) -> Result<PacketView, Error> {
    match take_id(s) {
        None => Err(Error::Invalid),
        Some((packet_id, s1)) => match unsubscribe_filters(s1, Seq::empty(), limits) {
            Err(error) => Err(error),
            Ok(filters) => if filters.len() == 0 {
                Err(Error::Invalid)
            } else {
                Ok(PacketView::Unsubscribe { packet_id, filters })
            },
        },
    }
}

pub open spec fn empty_packet(s: Seq<u8>, packet: PacketView) -> Result<PacketView, Error> {
    if s.len() == 0 {
        Ok(packet)
    } else {
        Err(Error::Invalid)
    }
}

/// The packet with this first byte and this body.
pub open spec fn packet_spec(first: u8, body: Seq<u8>, limits: Limits) -> Result<PacketView, Error> {
    let kind = first >> 4;
    if kind == 1 {
        connect_spec(body, limits)
    } else if kind == 2 {
        connack_packet(body)
    } else if kind == 3 {
        publish_packet(first, body, limits)
    } else if kind == 4 || kind == 5 || kind == 6 || kind == 7 || kind == 11 {
        ack_packet(body, kind)
    } else if kind == 8 {
        subscribe_packet(body, limits)
    } else if kind == 9 {
        suback_packet(body)
    } else if kind == 10 {
        unsubscribe_packet(body, limits)
    } else if kind == 12 {
        empty_packet(body, PacketView::Pingreq)
    } else if kind == 13 {
        empty_packet(body, PacketView::Pingresp)
    } else if kind == 14 {
        empty_packet(body, PacketView::Disconnect)
    } else {
        Err(Error::Invalid)
    }
}

/// The first packet of the input, if it has arrived as a whole, and what is left of the input. A
/// packet that has arrived is taken out of the input even if it is refused.
pub open spec fn decode_spec(input: Seq<u8>, limits: Limits) -> (
    Result<Option<PacketView>, Error>,
    Seq<u8>,
) {
    match fixed_header_spec(input, limits.max_mqtt_packet_size as nat) {
        Err(error) => (Err(error), input),
        Ok(None) => (Ok(None), input),
        Ok(Some((first, header, total))) => if input.len() < total {
            (Ok(None), input)
        } else {
            (
                match packet_spec(first, input.take(total as int).skip(header as int), limits) {
                    Ok(packet) => Ok(Some(packet)),
                    Err(error) => Err(error),
                },
                input.skip(total as int),
            )
        },
    }
}

/// Whether a result shows what the model says.
pub open spec fn shows(result: Result<Packet, Error>, model: Result<PacketView, Error>) -> bool {
    match model {
        Ok(packet) => result is Ok && result->Ok_0@ == packet,
        Err(error) => result is Err && result->Err_0 == error,
    }
}

/// Takes the first packet out of the input, if it has arrived as a whole.
pub fn decode(input: &mut BytesMut, limits: &Limits) -> (result: Result<Option<Packet>, Error>)
    ensures
        match decode_spec(bytes_mut_contents(*old(input)), *limits).0 {
            Ok(Some(packet)) => result is Ok && result->Ok_0 is Some && result->Ok_0->0@ == packet,
            Ok(None) => result is Ok && result->Ok_0 is None,
            Err(error) => result is Err && result->Err_0 == error,
        },
        bytes_mut_contents(*final(input)) == decode_spec(bytes_mut_contents(*old(input)), *limits).1,
{
    let (first, header, total) = match fixed_header(
        bytes_mut_slice(input),
        limits.max_mqtt_packet_size,
    ) {
        Err(error) => return Err(error),
        Ok(None) => return Ok(None),
        Ok(Some(found)) => found,
    };
    if input.len() < total {
        return Ok(None);
    }
    let mut frame = input.split_to(total).freeze();
    advance(&mut frame, header);
    match decode_packet(first, frame, limits) {
        Ok(packet) => Ok(Some(packet)),
        Err(error) => Err(error),
    }
}

fn decode_packet(first: u8, body: Bytes, limits: &Limits) -> (result: Result<Packet, Error>)
    ensures
        shows(result, packet_spec(first, bytes_contents(body), *limits)),
{
    let mut cursor = Cursor { bytes: body };
    let kind: u8 = first >> 4;
    match kind {
        1 => decode_connect(&mut cursor, limits),
        2 => decode_connack(&mut cursor),
        3 => decode_publish(first, cursor, limits),
        4 => Ok(Packet::Puback(decode_id(&mut cursor)?)),
        5 => Ok(Packet::Pubrec(decode_id(&mut cursor)?)),
        6 => Ok(Packet::Pubrel(decode_id(&mut cursor)?)),
        7 => Ok(Packet::Pubcomp(decode_id(&mut cursor)?)),
        8 => decode_subscribe(&mut cursor, limits),
        9 => decode_suback(&mut cursor),
        10 => decode_unsubscribe(&mut cursor, limits),
        11 => Ok(Packet::Unsuback(decode_id(&mut cursor)?)),
        12 => {
            cursor.done()?;
            Ok(Packet::Pingreq)
        },
        13 => {
            cursor.done()?;
            Ok(Packet::Pingresp)
        },
        14 => {
            cursor.done()?;
            Ok(Packet::Disconnect)
        },
        _ => Err(Error::Invalid),
    }
}

fn decode_id(cursor: &mut Cursor) -> (result: Result<u16, Error>)
    ensures
        match only_id(old(cursor).rest()) {
            Some(id) => result == Ok::<u16, Error>(id),
            None => result == Err::<u16, Error>(Error::Invalid),
        },
{
    let id: u16 = cursor.id()?;
    cursor.done()?;
    Ok(id)
}

fn decode_connack(cursor: &mut Cursor) -> (result: Result<Packet, Error>)
    ensures
        shows(result, connack_packet(old(cursor).rest())),
{
    let flags: u8 = cursor.byte()?;
    let code: u8 = cursor.byte()?;
    cursor.done()?;
    if flags & 0xfe != 0 || code > 5 || (code != 0 && flags & 1 != 0) {
        return Err(Error::Invalid);
    }
    Ok(Packet::Connack { session_present: flags & 1 != 0, code })
}

fn decode_publish(first: u8, cursor: Cursor, limits: &Limits) -> (result: Result<Packet, Error>)
    ensures
        shows(result, publish_packet(first, cursor.rest(), *limits)),
{
    let mut cursor = cursor;
    let qos: u8 = (first >> 1) & 3;
    let topic = cursor.string(limits.max_topic_bytes)?;
    if !valid_topic(topic.as_str(), limits, false) {
        return Err(Error::Invalid);
    }
    assert((first >> 1) & 3 <= 3) by (bit_vector);
    let packet_id = if qos > 0 {
        Some(cursor.id()?)
    } else {
        None
    };
    Ok(
        Packet::Publish {
            topic,
            payload: cursor.bytes,
            qos,
            packet_id,
            retain: first & 1 != 0,
            dup: first & 8 != 0,
        },
    )
}

fn decode_subscribe(cursor: &mut Cursor, limits: &Limits) -> (result: Result<Packet, Error>)
    ensures
        shows(result, subscribe_packet(old(cursor).rest(), *limits)),
{
    let packet_id: u16 = cursor.id()?;
    let mut filters: Vec<(String, u8)> = Vec::new();
    let ghost start = cursor.rest();
    assert(filter_views(filters@) =~= Seq::<(Seq<char>, u8)>::empty());
    while !cursor.bytes.is_empty()
        invariant
            subscribe_filters(start, Seq::empty(), *limits) == subscribe_filters(
                cursor.rest(),
                filter_views(filters@),
                *limits,
            ),
            start == (take_id(old(cursor).rest())->0).1,
            take_id(old(cursor).rest()) is Some,
        decreases cursor.rest().len(),
    {
        if filters.len() >= limits.max_subscription_filters_per_packet {
            return Err(Error::Overloaded);
        }
        let filter = cursor.string(limits.max_topic_bytes)?;
        let qos: u8 = cursor.byte()?;
        if qos > 2 || !valid_topic(filter.as_str(), limits, true) {
            return Err(Error::Invalid);
        }
        let ghost before = filter_views(filters@);
        let ghost item = (filter@, qos);
        filters.push((filter, qos));
        assert(filter_views(filters@) =~= before.push(item));
    }
    if filters.is_empty() {
        return Err(Error::Invalid);
    }
    Ok(Packet::Subscribe { packet_id, filters })
}

fn decode_unsubscribe(cursor: &mut Cursor, limits: &Limits) -> (result: Result<Packet, Error>)
    ensures
        shows(result, unsubscribe_packet(old(cursor).rest(), *limits)),
{
    let packet_id: u16 = cursor.id()?;
    let mut filters: Vec<String> = Vec::new();
    let ghost start = cursor.rest();
    assert(name_views(filters@) =~= Seq::<Seq<char>>::empty());
    while !cursor.bytes.is_empty()
        invariant
            unsubscribe_filters(start, Seq::empty(), *limits) == unsubscribe_filters(
                cursor.rest(),
                name_views(filters@),
                *limits,
            ),
            start == (take_id(old(cursor).rest())->0).1,
            take_id(old(cursor).rest()) is Some,
        decreases cursor.rest().len(),
    {
        if filters.len() >= limits.max_subscription_filters_per_packet {
            return Err(Error::Overloaded);
        }
        let filter = cursor.string(limits.max_topic_bytes)?;
        if !valid_topic(filter.as_str(), limits, true) {
            return Err(Error::Invalid);
        }
        let ghost before = name_views(filters@);
        let ghost item = filter@;
        filters.push(filter);
        assert(name_views(filters@) =~= before.push(item));
    }
    if filters.is_empty() {
        return Err(Error::Invalid);
    }
    Ok(Packet::Unsubscribe { packet_id, filters })
}

fn decode_suback(cursor: &mut Cursor) -> (result: Result<Packet, Error>)
    ensures
        shows(result, suback_packet(old(cursor).rest())),
{
    let packet_id: u16 = cursor.id()?;
    if cursor.bytes.is_empty() {
        return Err(Error::Invalid);
    }
    let codes = bytes_slice(&cursor.bytes);
    let mut at: usize = 0;
    while at < codes.len()
        invariant
            at <= codes@.len(),
            codes@ == cursor.rest(),
            take_id(old(cursor).rest()) is Some,
            cursor.rest() == (take_id(old(cursor).rest())->0).1,
            forall|i: int| 0 <= i < at ==> return_code_ok(#[trigger] codes@[i]),
        decreases codes@.len() - at,
    {
        let code: u8 = codes[at];
        if !(code == 0 || code == 1 || code == 2 || code == 0x80) {
            assert(!return_code_ok(cursor.rest()[at as int]));
            return Err(Error::Invalid);
        }
        at = at + 1;
    }
    Ok(Packet::Suback { packet_id, returns: to_vec(&cursor.bytes) })
}

fn decode_connect(cursor: &mut Cursor, limits: &Limits) -> (result: Result<Packet, Error>)
    ensures
        shows(result, connect_spec(old(cursor).rest(), *limits)),
{
    let name = cursor.string(6)?;
    if !same_text(name.as_str(), "MQTT") {
        return Err(Error::Invalid);
    }
    let version: u8 = cursor.byte()?;
    if version != 4 {
        return Ok(Packet::UnsupportedVersion(version));
    }
    let flags: u8 = cursor.byte()?;
    let keep_alive: u16 = cursor.short()?;
    let has_will = flags & 4 != 0;
    let will_qos: u8 = (flags >> 3) & 3;
    if flags & 1 != 0 || will_qos == 3 || (!has_will && flags & 0x38 != 0) || (flags & 0x40 != 0
        && flags & 0x80 == 0) {
        return Err(Error::Invalid);
    }
    let client_id = cursor.string(limits.max_client_id_bytes)?;
    let will = if has_will {
        let topic = cursor.string(limits.max_topic_bytes)?;
        if !valid_topic(topic.as_str(), limits, false) {
            return Err(Error::Invalid);
        }
        let payload = cursor.binary(limits.max_will_payload_bytes)?;
        Some(Will { topic, payload, qos: will_qos, retain: flags & 0x20 != 0 })
    } else {
        None
    };
    let username = if flags & 0x80 != 0 {
        Some(cursor.string(limits.max_username_bytes)?)
    } else {
        None
    };
    let password = if flags & 0x40 != 0 {
        let bytes = cursor.binary(limits.max_password_bytes)?;
        Some(to_vec(&bytes))
    } else {
        None
    };
    cursor.done()?;
    Ok(
        Packet::Connect(
            Connect {
                client_id,
                username,
                password,
                keep_alive,
                clean_session: flags & 2 != 0,
                will,
            },
        ),
    )
}

/// The answer to a connection request.
pub fn connack(session_present: bool, code: u8) -> (packet: Vec<u8>)
    ensures
        packet@ == packet_bytes(0x20, seq![if session_present { 1u8 } else { 0u8 }, code]),
        packet@ == seq![0x20u8, 2u8, if session_present { 1u8 } else { 0u8 }, code],
{
    let present: u8 = if session_present {
        1
    } else {
        0
    };
    let packet = vec![0x20, 2, present, code];
    proof {
        let body = seq![present, code];
        assert(super::common::varint(2) =~= seq![2u8]);
        assert(packet@ =~= packet_bytes(0x20, body));
        assert(packet@ =~= seq![0x20u8, 2u8, present, code]);
    }
    packet
}

/// An acknowledgement: a packet whose body is one packet identifier.
pub fn ack(first: u8, id: u16) -> (packet: Vec<u8>)
    ensures
        packet@ == packet_bytes(first, be16(id)),
        packet@ == seq![first, 2u8] + be16(id),
{
    let mut packet: Vec<u8> = vec![first, 2];
    put_u16(&mut packet, id);
    proof {
        crate::number::lemma_be16(id);
        assert(super::common::varint(2) =~= seq![2u8]);
        assert(packet@ =~= packet_bytes(first, be16(id)));
        assert(packet@ =~= seq![first, 2u8] + be16(id));
    }
    packet
}

/// The first byte of a published message.
pub open spec fn publish_first(qos: u8, retain: bool, dup: bool) -> u8 {
    let dup_bit: u8 = if dup { 1 } else { 0 };
    let retain_bit: u8 = if retain { 1 } else { 0 };
    0x30u8 | (dup_bit << 3) | (qos << 1) | retain_bit
}

/// The body of a published message.
pub open spec fn publish_body(topic: Seq<char>, payload: Seq<u8>, packet_id: Option<u16>) -> Seq<u8> {
    let id = match packet_id {
        Some(id) => be16(id),
        None => Seq::empty(),
    };
    be16(text_bytes(topic) as u16) + encode_utf8(topic) + id + payload
}

/// A valid topic, and an identifier exactly if the quality of service needs one.
pub open spec fn publish_valid(
    topic: Seq<char>,
    qos: u8,
    packet_id: Option<u16>,
    dup: bool,
    limits: Limits,
) -> bool {
    &&& qos <= 2
    &&& topic_valid(topic, limits, false)
    &&& packet_id != Some(0u16)
    &&& (qos == 0) == (packet_id is None)
    &&& !(qos == 0 && dup)
    &&& text_bytes(topic) <= u16::MAX
}

pub open spec fn publish_size(topic: Seq<char>, payload: Seq<u8>, packet_id: Option<u16>) -> nat {
    text_bytes(topic) + payload.len() + (if packet_id is Some {
        4nat
    } else {
        2nat
    })
}

/// Encodes a published message, unless it is invalid or larger than a packet may be.
pub fn publish(
    topic: &str,
    payload: &[u8],
    qos: u8,
    packet_id: Option<u16>,
    retain: bool,
    dup: bool,
    limits: &Limits,
) -> (result: Result<Vec<u8>, Error>)
    ensures
        !publish_valid(topic@, qos, packet_id, dup, *limits) || publish_size(
            topic@,
            payload@,
            packet_id,
        ) > usize::MAX ==> result is Err && result->Err_0 == Error::Invalid,
        publish_valid(topic@, qos, packet_id, dup, *limits) && publish_size(
            topic@,
            payload@,
            packet_id,
        ) <= usize::MAX ==> super::common::encode_spec(
            publish_first(qos, retain, dup),
            publish_body(topic@, payload@, packet_id),
            limits.max_mqtt_packet_size as nat,
            result,
        ),
{
    let present = packet_id.is_some();
    let zero = match packet_id {
        Some(id) => id == 0,
        None => false,
    };
    if qos > 2 || !valid_topic(topic, limits, false) || zero || (qos == 0) == present || (qos == 0
        && dup) {
        return Err(Error::Invalid);
    }
    let topic_length: usize = byte_len(topic);
    if topic_length > u16::MAX as usize {
        return Err(Error::Invalid);
    }
    let overhead: usize = if present {
        4
    } else {
        2
    };
    let size: usize = match topic_length.checked_add(payload.len()) {
        None => return Err(Error::Invalid),
        Some(sum) => match sum.checked_add(overhead) {
            None => return Err(Error::Invalid),
            Some(size) => size,
        },
    };
    let ghost body_model = publish_body(topic@, payload@, packet_id);
    proof {
        crate::number::lemma_to_be_len(topic_length as nat, 2);
        if packet_id is Some {
            crate::number::lemma_to_be_len(packet_id->0 as nat, 2);
        }
        assert(body_model.len() == size);
    }
    if encoded_size(size)? > limits.max_mqtt_packet_size {
        return Err(Error::Overloaded);
    }
    let mut body: Vec<u8> = Vec::with_capacity(size);
    put_u16(&mut body, topic_length as u16);
    append_bytes(&mut body, topic.as_bytes());
    if let Some(id) = packet_id {
        put_u16(&mut body, id);
    }
    append_bytes(&mut body, payload);
    assert(body@ =~= body_model);
    let dup_bit: u8 = if dup {
        1
    } else {
        0
    };
    let retain_bit: u8 = if retain {
        1
    } else {
        0
    };
    let first: u8 = 0x30 | (dup_bit << 3) | (qos << 1) | retain_bit;
    encode(first, body.as_slice(), limits.max_mqtt_packet_size)
}

pub proof fn lemma_publish_first(qos: u8, retain: bool, dup: bool)
    requires
        qos <= 2,
    ensures
        ({
            let first = publish_first(qos, retain, dup);
            &&& first >> 4 == 3
            &&& (first >> 1) & 3 == qos
            &&& (first & 1 != 0) == retain
            &&& (first & 8 != 0) == dup
            &&& super::common::flags_ok(first)
        }),
{
    let d: u8 = if dup {
        1
    } else {
        0
    };
    let r: u8 = if retain {
        1
    } else {
        0
    };
    let first = 0x30u8 | (d << 3) | (qos << 1) | r;
    assert(first >> 4 == 3 && (first >> 1) & 3 == qos && (first & 1 != 0) == (r == 1) && (first & 8
        != 0) == (d == 1)) by (bit_vector)
        requires
            first == 0x30u8 | (d << 3) | (qos << 1) | r,
            qos <= 2,
            d <= 1,
            r <= 1,
    ;
}

/// Length-prefixed text is read back as it was written.
pub proof fn lemma_take_written_string(text: Seq<char>, tail: Seq<u8>, maximum: nat)
    requires
        text_bytes(text) <= u16::MAX,
        text_bytes(text) <= maximum,
        crate::text::permitted_text(text),
    ensures
        take_string(be16(text_bytes(text) as u16) + encode_utf8(text) + tail, maximum) == Some(
            (text, tail),
        ),
{
    let length = text_bytes(text) as u16;
    let s = be16(length) + encode_utf8(text) + tail;
    crate::number::lemma_be16(length);
    vstd::utf8::encode_utf8_valid_utf8(text);
    vstd::utf8::encode_utf8_decode_utf8(text);
    assert(s.take(2) =~= be16(length));
    assert(s.skip(2).take(length as int) =~= encode_utf8(text));
    assert(s.skip(2).skip(length as int) =~= tail);
}

/// A packet identifier is read back as it was written.
pub proof fn lemma_take_written_id(id: u16, tail: Seq<u8>)
    requires
        id != 0,
    ensures
        take_id(be16(id) + tail) == Some((id, tail)),
{
    let s = be16(id) + tail;
    crate::number::lemma_be16(id);
    assert(s.take(2) =~= be16(id));
    assert(s.skip(2) =~= tail);
}

proof fn lemma_publish_body_parses(
    topic: Seq<char>,
    payload: Seq<u8>,
    qos: u8,
    packet_id: Option<u16>,
    retain: bool,
    dup: bool,
    limits: Limits,
)
    requires
        publish_valid(topic, qos, packet_id, dup, limits),
        crate::text::permitted_text(topic),
    ensures
        packet_spec(
            publish_first(qos, retain, dup),
            publish_body(topic, payload, packet_id),
            limits,
        ) == Ok::<PacketView, Error>(
            PacketView::Publish { topic, payload, qos, packet_id, retain, dup },
        ),
{
    let body = publish_body(topic, payload, packet_id);
    lemma_publish_first(qos, retain, dup);
    let id = match packet_id {
        Some(id) => be16(id),
        None => Seq::empty(),
    };
    crate::text::lemma_topic_fits(
        topic,
        limits.max_topic_bytes as nat,
        limits.max_topic_depth as nat,
        false,
    );
    lemma_take_written_string(topic, id + payload, limits.max_topic_bytes as nat);
    assert(body =~= be16(text_bytes(topic) as u16) + encode_utf8(topic) + (id + payload));
    match packet_id {
        Some(value) => {
            lemma_take_written_id(value, payload);
        },
        None => {
            assert(id + payload =~= payload);
        },
    }
}

/// Decoding an encoded message gives the message back and leaves what follows it.
pub proof fn law_publish_round_trip(
    topic: Seq<char>,
    payload: Seq<u8>,
    qos: u8,
    packet_id: Option<u16>,
    retain: bool,
    dup: bool,
    limits: Limits,
    tail: Seq<u8>,
)
    requires
        publish_valid(topic, qos, packet_id, dup, limits),
        crate::text::permitted_text(topic),
        packet_fits(
            publish_body(topic, payload, packet_id).len(),
            limits.max_mqtt_packet_size as nat,
        ),
    ensures
        decode_spec(
            packet_bytes(publish_first(qos, retain, dup), publish_body(topic, payload, packet_id))
                + tail,
            limits,
        ) == (
            Ok::<Option<PacketView>, Error>(
                Some(PacketView::Publish { topic, payload, qos, packet_id, retain, dup }),
            ),
            tail,
        ),
{
    lemma_publish_first(qos, retain, dup);
    lemma_publish_body_parses(topic, payload, qos, packet_id, retain, dup, limits);
    super::common::law_header_of_encoded(
        publish_first(qos, retain, dup),
        publish_body(topic, payload, packet_id),
        tail,
        limits.max_mqtt_packet_size as nat,
    );
}

/// Until the whole message has arrived, decoding asks for more and keeps the input.
pub proof fn law_publish_incremental(
    topic: Seq<char>,
    payload: Seq<u8>,
    qos: u8,
    packet_id: Option<u16>,
    retain: bool,
    dup: bool,
    limits: Limits,
    cut: int,
)
    requires
        publish_valid(topic, qos, packet_id, dup, limits),
        packet_fits(
            publish_body(topic, payload, packet_id).len(),
            limits.max_mqtt_packet_size as nat,
        ),
        0 <= cut < packet_bytes(
            publish_first(qos, retain, dup),
            publish_body(topic, payload, packet_id),
        ).len(),
    ensures
        ({
            let part = packet_bytes(
                publish_first(qos, retain, dup),
                publish_body(topic, payload, packet_id),
            ).take(cut);
            decode_spec(part, limits) == (Ok::<Option<PacketView>, Error>(None), part)
        }),
{
    lemma_publish_first(qos, retain, dup);
    super::common::law_header_of_prefix(
        publish_first(qos, retain, dup),
        publish_body(topic, payload, packet_id),
        cut,
        limits.max_mqtt_packet_size as nat,
    );
}

/// The kinds of acknowledgements by their first bytes.
pub proof fn lemma_ack_first(first: u8)
    requires
        first == 0x40 || first == 0x50 || first == 0x62 || first == 0x70,
    ensures
        super::common::flags_ok(first),
        first >> 4 == if first == 0x40 {
            4u8
        } else if first == 0x50 {
            5u8
        } else if first == 0x62 {
            6u8
        } else {
            7u8
        },
{
    assert(first >> 4 == (if first == 0x40 { 4u8 } else if first == 0x50 { 5u8 } else if first
        == 0x62 { 6u8 } else { 7u8 }) && (first & 0x0f == 2u8 || first != 0x62) && (first & 0x0f
        == 0u8 || first == 0x62)) by (bit_vector)
        requires
            first == 0x40 || first == 0x50 || first == 0x62 || first == 0x70,
    ;
}

/// Decoding an encoded acknowledgement gives it back and leaves what follows it.
pub proof fn law_ack_round_trip(first: u8, id: u16, limits: Limits, tail: Seq<u8>)
    requires
        first == 0x40 || first == 0x50 || first == 0x62 || first == 0x70,
        id != 0,
        packet_fits(2, limits.max_mqtt_packet_size as nat),
    ensures
        decode_spec(packet_bytes(first, be16(id)) + tail, limits) == (
            Ok::<Option<PacketView>, Error>(
                Some(
                    if first == 0x40 {
                        PacketView::Puback(id)
                    } else if first == 0x50 {
                        PacketView::Pubrec(id)
                    } else if first == 0x62 {
                        PacketView::Pubrel(id)
                    } else {
                        PacketView::Pubcomp(id)
                    },
                ),
            ),
            tail,
        ),
{
    lemma_ack_first(first);
    crate::number::lemma_be16(id);
    assert(be16(id).take(2) =~= be16(id));
    super::common::law_header_of_encoded(
        first,
        be16(id),
        tail,
        limits.max_mqtt_packet_size as nat,
    );
}

} // verus!
