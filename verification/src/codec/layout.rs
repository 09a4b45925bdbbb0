//! How packets of MQTT 3.1.1 lie on the wire, byte by byte, and that they are read and written so.
use super::common::{
    flags_ok, law_header_of_encoded, packet_bytes, packet_size, take_binary, take_byte, take_short,
    take_string, topic_valid, varint,
};
use super::v311::{
    connect_payload, connect_spec, decode_spec, packet_spec, publish_body, publish_first,
    subscribe_filters, take_optional_binary, take_optional_string, take_will, unsubscribe_filters,
    ConnectView, PacketView,
};
use crate::error::Error;
use crate::limits::Limits;
use crate::number::{be16, lemma_be16};
use crate::text::permitted_text;
use vstd::prelude::*;
use vstd::utf8::encode_utf8;

verus! {

/// A number of two bytes, the higher one first.
pub open spec fn short(n: nat) -> Seq<u8> {
    seq![(n / 256) as u8, (n % 256) as u8]
}

/// Bytes behind their number.
pub open spec fn field(bytes: Seq<u8>) -> Seq<u8> {
    short(bytes.len()) + bytes
}

/// Text behind the number of its bytes.
pub open spec fn text_field(text: Seq<char>) -> Seq<u8> {
    field(encode_utf8(text))
}

/// A length in one to four bytes of seven bits each, the lowest first. All but the last have the
/// top bit set.
pub open spec fn length_bytes(n: nat) -> Seq<u8> {
    if n < 128 {
        seq![n as u8]
    } else if n < 16_384 {
        seq![(n % 128 + 128) as u8, (n / 128) as u8]
    } else if n < 2_097_152 {
        seq![(n % 128 + 128) as u8, (n / 128 % 128 + 128) as u8, (n / 16_384) as u8]
    } else {
        seq![
            (n % 128 + 128) as u8,
            (n / 128 % 128 + 128) as u8,
            (n / 16_384 % 128 + 128) as u8,
            (n / 2_097_152) as u8,
        ]
    }
}

/// A packet: its first byte, the length of its body, its body.
pub open spec fn framed(first: u8, body: Seq<u8>) -> Seq<u8> {
    seq![first] + length_bytes(body.len()) + body
}

/// The packet is no larger than the format and the limits allow.
pub open spec fn carried(first: u8, body: Seq<u8>, limits: Limits) -> bool {
    body.len() <= 268_435_455 && framed(first, body).len() <= limits.max_mqtt_packet_size
}

/// The text is of characters that may be sent, and of so many bytes at most.
pub open spec fn sendable(text: Seq<char>, maximum: nat) -> bool {
    permitted_text(text) && encode_utf8(text).len() <= maximum && encode_utf8(text).len() <= 65_535
}

pub open spec fn bit(set: bool, weight: int) -> int {
    if set {
        weight
    } else {
        0
    }
}

pub proof fn lemma_length_bytes(n: nat)
    requires
        n <= 268_435_455,
    ensures
        length_bytes(n) == varint(n),
{
    reveal_with_fuel(varint, 5);
    assert(n / 128 / 128 == n / 16_384 && n / 128 / 128 / 128 == n / 2_097_152) by (nonlinear_arith);
    assert(n / 128 < 128 <==> n < 16_384);
    assert(n / 16_384 < 128 <==> n < 2_097_152);
    assert(n / 2_097_152 < 128);
    if n < 128 {
        assert(varint(n) =~= length_bytes(n));
    } else if n < 16_384 {
        assert(varint(n / 128) =~= seq![(n / 128) as u8]);
        assert(varint(n) =~= length_bytes(n));
    } else if n < 2_097_152 {
        assert(varint(n / 128 / 128) =~= seq![(n / 16_384) as u8]);
        assert(varint(n / 128) =~= seq![(n / 128 % 128 + 128) as u8, (n / 16_384) as u8]);
        assert(varint(n) =~= length_bytes(n));
    } else {
        assert(varint(n / 128 / 128 / 128) =~= seq![(n / 2_097_152) as u8]);
        assert(varint(n / 128 / 128) =~= seq![
            (n / 16_384 % 128 + 128) as u8,
            (n / 2_097_152) as u8,
        ]);
        assert(varint(n / 128) =~= seq![
            (n / 128 % 128 + 128) as u8,
            (n / 16_384 % 128 + 128) as u8,
            (n / 2_097_152) as u8,
        ]);
        assert(varint(n) =~= length_bytes(n));
    }
}

/// Every packet is written as its first byte, the length of its body in the fewest bytes, and its
/// body.
pub proof fn law_packets_are_framed(first: u8, body: Seq<u8>)
    requires
        body.len() <= 268_435_455,
    ensures
        packet_bytes(first, body) == framed(first, body),
{
    lemma_length_bytes(body.len());
}

pub proof fn lemma_field(bytes: Seq<u8>, tail: Seq<u8>, maximum: nat)
    requires
        bytes.len() <= maximum,
        bytes.len() <= 65_535,
    ensures
        take_binary(field(bytes) + tail, maximum) == Some((bytes, tail)),
        field(bytes) == be16(bytes.len() as u16) + bytes,
{
    let n = bytes.len() as u16;
    let s = field(bytes) + tail;
    lemma_be16(n);
    assert(s.take(2) =~= be16(n));
    assert(s.skip(2).take(n as int) =~= bytes);
    assert(s.skip(2).skip(n as int) =~= tail);
}

pub proof fn lemma_text_field(text: Seq<char>, tail: Seq<u8>, maximum: nat)
    requires
        sendable(text, maximum),
    ensures
        take_string(text_field(text) + tail, maximum) == Some((text, tail)),
{
    lemma_field(encode_utf8(text), tail, maximum);
    vstd::utf8::encode_utf8_valid_utf8(text);
    vstd::utf8::encode_utf8_decode_utf8(text);
}

pub proof fn lemma_short(n: u16, tail: Seq<u8>)
    ensures
        take_short(short(n as nat) + tail) == Some((n, tail)),
        short(n as nat) == be16(n),
{
    let s = short(n as nat) + tail;
    lemma_be16(n);
    assert(s.take(2) =~= be16(n));
    assert(s.skip(2) =~= tail);
}

pub proof fn lemma_byte(x: u8, tail: Seq<u8>)
    ensures
        take_byte(seq![x] + tail) == Some((x, tail)),
{
    assert((seq![x] + tail).skip(1) =~= tail);
}

/// Whatever a packet holds, it is decoded from what its frame encloses.
pub proof fn lemma_framed(first: u8, body: Seq<u8>, limits: Limits, tail: Seq<u8>)
    requires
        flags_ok(first),
        carried(first, body, limits),
    ensures
        decode_spec(framed(first, body) + tail, limits) == (
            match packet_spec(first, body, limits) {
                Ok(packet) => Ok::<Option<PacketView>, Error>(Some(packet)),
                Err(error) => Err(error),
            },
            tail,
        ),
        super::v5::decode_spec(framed(first, body) + tail, limits) == (
            match super::v5::packet_spec(first, body, limits) {
                Ok(packet) => Ok::<Option<super::v5::PacketView>, super::v5::DecodeError>(
                    Some(packet),
                ),
                Err(error) => Err(error),
            },
            tail,
        ),
{
    law_packets_are_framed(first, body);
    super::common::lemma_power128();
    super::common::lemma_varint_round_trip(body.len(), 4, Seq::empty());
    assert(super::common::packet_fits(body.len(), limits.max_mqtt_packet_size as nat)) by {
        lemma_size(body.len());
    }
    law_header_of_encoded(first, body, tail, limits.max_mqtt_packet_size as nat);
}

proof fn lemma_size(n: nat)
    requires
        n <= 268_435_455,
    ensures
        packet_size(n) == 1 + length_bytes(n).len() + n,
{
    lemma_length_bytes(n);
}

/// What the flags of a connection request say: whether the session starts afresh, whether there is
/// a will, of which quality of service and whether it is retained, and whether there are a
/// password and a user name.
pub open spec fn connect_flags(
    clean: bool,
    will: Option<(u8, bool)>,
    password: bool,
    username: bool,
) -> u8 {
    (bit(clean, 2) + (match will {
        Some((qos, retain)) => 4 + 8 * qos + bit(retain, 32),
        None => 0,
    }) + bit(password, 64) + bit(username, 128)) as u8
}

pub proof fn lemma_connect_flags(
    clean: bool,
    will: Option<(u8, bool)>,
    password: bool,
    username: bool,
)
    requires
        will matches Some((qos, retain)) ==> qos <= 2,
    ensures
        ({
            let flags = connect_flags(clean, will, password, username);
            &&& flags & 1 == 0
            &&& (flags & 2 != 0) == clean
            &&& (flags & 4 != 0) == (will is Some)
            &&& flags & 4 == 0 ==> flags & 0x38 == 0
            &&& (flags >> 3) & 3 == match will {
                Some((qos, retain)) => qos,
                None => 0,
            }
            &&& (flags & 0x20 != 0) == (will matches Some((qos, retain)) && retain)
            &&& (flags & 0x40 != 0) == password
            &&& (flags & 0x80 != 0) == username
        }),
{
    let flags = connect_flags(clean, will, password, username);
    let c: u8 = if clean { 1 } else { 0 };
    let w: u8 = if will is Some { 1 } else { 0 };
    let q: u8 = match will {
        Some((qos, retain)) => qos,
        None => 0,
    };
    let r: u8 = match will {
        Some((qos, true)) => 1,
        _ => 0,
    };
    let p: u8 = if password { 1 } else { 0 };
    let u: u8 = if username { 1 } else { 0 };
    assert(flags as int == 2 * c + 4 * w + 8 * q + 32 * r + 64 * p + 128 * u);
    assert(flags & 1 == 0 && (flags & 2 != 0) == (c == 1) && (flags & 4 != 0) == (w == 1) && (flags
        >> 3) & 3 == q && (flags & 0x20 != 0) == (r == 1) && (flags & 0x40 != 0) == (p == 1) && (
    flags & 0x80 != 0) == (u == 1) && (w == 0 ==> flags & 0x38 == 0)) by (bit_vector)
        requires
            flags as int == 2 * c + 4 * w + 8 * q + 32 * r + 64 * p + 128 * u,
            c <= 1,
            w <= 1,
            q <= 2,
            r <= 1,
            p <= 1,
            u <= 1,
            w == 0 ==> q == 0 && r == 0,
    ;
}

/// Text that may be missing.
pub open spec fn maybe_text(text: Option<Seq<char>>) -> Seq<u8> {
    match text {
        Some(text) => text_field(text),
        None => Seq::empty(),
    }
}

/// Bytes that may be missing.
pub open spec fn maybe_field(bytes: Option<Seq<u8>>) -> Seq<u8> {
    match bytes {
        Some(bytes) => field(bytes),
        None => Seq::empty(),
    }
}

/// The name of the protocol, behind its length.
pub open spec fn protocol_name() -> Seq<u8> {
    seq![0u8, 4u8, 77u8, 81u8, 84u8, 84u8]
}

/// The body of a connection request.
pub open spec fn connect_layout(c: ConnectView) -> Seq<u8> {
    protocol_name() + (seq![4u8] + (seq![
        connect_flags(
            c.clean_session,
            match c.will {
                Some(will) => Some((will.qos, will.retain)),
                None => None,
            },
            c.password is Some,
            c.username is Some,
        ),
    ] + (short(c.keep_alive as nat) + (text_field(c.client_id) + ((match c.will {
        Some(will) => text_field(will.topic) + field(will.payload),
        None => Seq::empty(),
    }) + (maybe_text(c.username) + maybe_field(c.password)))))))
}

/// The request is one that a client may make.
pub open spec fn connect_sound(c: ConnectView, limits: Limits) -> bool {
    &&& sendable(c.client_id, limits.max_client_id_bytes as nat)
    &&& c.password is Some ==> c.username is Some
    &&& c.username matches Some(name) ==> sendable(name, limits.max_username_bytes as nat)
    &&& c.password matches Some(secret) ==> secret.len() <= limits.max_password_bytes
        && secret.len() <= 65_535
    &&& c.will matches Some(will) ==> {
        &&& will.qos <= 2
        &&& sendable(will.topic, limits.max_topic_bytes as nat)
        &&& topic_valid(will.topic, limits, false)
        &&& will.payload.len() <= limits.max_will_payload_bytes
        &&& will.payload.len() <= 65_535
    }
}

pub proof fn lemma_protocol_name(tail: Seq<u8>)
    ensures
        take_string(protocol_name() + tail, 6) == Some(("MQTT"@, tail)),
{
    reveal_strlit("MQTT");
    let name = "MQTT"@;
    let bytes = seq![77u8, 81u8, 84u8, 84u8];
    assert(name =~= seq!['M', 'Q', 'T', 'T']);
    assert(vstd::utf8::is_ascii_chars(name)) by {
        assert forall|i: int| 0 <= i < name.len() implies ('\0' <= #[trigger] name[i] <= '\u{7f}') by {}
    }
    vstd::utf8::is_ascii_chars_encode_utf8(name);
    assert(encode_utf8(name) =~= bytes);
    assert(protocol_name() =~= text_field(name));
    assert(permitted_text(name));
    lemma_text_field(name, tail, 6);
}

proof fn lemma_will(c: ConnectView, flags: u8, tail: Seq<u8>, limits: Limits)
    requires
        connect_sound(c, limits),
        (flags & 4 != 0) == (c.will is Some),
        c.will matches Some(will) ==> (flags >> 3) & 3 == will.qos && (flags & 0x20 != 0)
            == will.retain,
    ensures
        take_will(
            (match c.will {
                Some(will) => text_field(will.topic) + field(will.payload),
                None => Seq::empty(),
            }) + tail,
            flags,
            limits,
        ) == Some((c.will, tail)),
{
    match c.will {
        Some(will) => {
            let rest = field(will.payload) + tail;
            assert(text_field(will.topic) + field(will.payload) + tail =~= text_field(will.topic)
                + rest);
            lemma_text_field(will.topic, rest, limits.max_topic_bytes as nat);
            lemma_field(will.payload, tail, limits.max_will_payload_bytes as nat);
        },
        None => {
            assert(Seq::<u8>::empty() + tail =~= tail);
        },
    }
}

/// What follows the fixed part of a connection request.
pub open spec fn connect_rest(c: ConnectView) -> Seq<u8> {
    text_field(c.client_id) + ((match c.will {
        Some(will) => text_field(will.topic) + field(will.payload),
        None => Seq::empty(),
    }) + (maybe_text(c.username) + maybe_field(c.password)))
}

proof fn lemma_connect_rest(c: ConnectView, flags: u8, limits: Limits)
    requires
        connect_sound(c, limits),
        (flags & 2 != 0) == c.clean_session,
        (flags & 4 != 0) == (c.will is Some),
        c.will matches Some(will) ==> (flags >> 3) & 3 == will.qos && (flags & 0x20 != 0)
            == will.retain,
        (flags & 0x40 != 0) == (c.password is Some),
        (flags & 0x80 != 0) == (c.username is Some),
    ensures
        connect_payload(connect_rest(c), flags, c.keep_alive, limits) == Ok::<PacketView, Error>(
            PacketView::Connect(c),
        ),
{
    let s7 = maybe_field(c.password);
    let s6 = maybe_text(c.username) + s7;
    let s5 = (match c.will {
        Some(will) => text_field(will.topic) + field(will.payload),
        None => Seq::<u8>::empty(),
    }) + s6;
    let none = Seq::<u8>::empty();
    lemma_text_field(c.client_id, s5, limits.max_client_id_bytes as nat);
    lemma_will(c, flags, s6, limits);
    assert(take_optional_string(s6, c.username is Some, limits.max_username_bytes as nat) == Some(
        (c.username, s7),
    )) by {
        match c.username {
            Some(name) => {
                lemma_text_field(name, s7, limits.max_username_bytes as nat);
            },
            None => {
                assert(s6 =~= s7);
            },
        }
    }
    assert(take_optional_binary(s7, c.password is Some, limits.max_password_bytes as nat) == Some(
        (c.password, none),
    )) by {
        match c.password {
            Some(secret) => {
                assert(s7 + none =~= s7);
                lemma_field(secret, none, limits.max_password_bytes as nat);
            },
            None => {},
        }
    }
}

/// A connection request is read for what it says: who the client is and how it shows that, whether
/// its session starts afresh, how often it will be heard of, and the will it leaves.
pub proof fn law_connect_is_read(c: ConnectView, limits: Limits, tail: Seq<u8>)
    requires
        connect_sound(c, limits),
        carried(0x10, connect_layout(c), limits),
    ensures
        decode_spec(framed(0x10, connect_layout(c)) + tail, limits) == (
            Ok::<Option<PacketView>, Error>(Some(PacketView::Connect(c))),
            tail,
        ),
{
    let will = match c.will {
        Some(will) => Some((will.qos, will.retain)),
        None => None,
    };
    let flags = connect_flags(c.clean_session, will, c.password is Some, c.username is Some);
    let s4 = connect_rest(c);
    let s3 = short(c.keep_alive as nat) + s4;
    let s2 = seq![flags] + s3;
    let s1 = seq![4u8] + s2;
    lemma_connect_flags(c.clean_session, will, c.password is Some, c.username is Some);
    lemma_connect_rest(c, flags, limits);
    assert(connect_spec(protocol_name() + s1, limits) == Ok::<PacketView, Error>(
        PacketView::Connect(c),
    )) by {
        lemma_protocol_name(s1);
        lemma_byte(4, s2);
        lemma_byte(flags, s3);
        lemma_short(c.keep_alive, s4);
    }
    assert(connect_layout(c) == protocol_name() + s1);
    assert(0x10u8 >> 4 == 1 && 0x10u8 & 0x0f == 0) by (bit_vector);
    lemma_framed(0x10, connect_layout(c), limits, tail);
}

/// A connection request of another protocol level is told apart, whatever else it says.
pub proof fn law_other_protocol_level_is_named(
    level: u8,
    rest: Seq<u8>,
    limits: Limits,
    tail: Seq<u8>,
)
    requires
        level != 4,
        carried(0x10, protocol_name() + (seq![level] + rest), limits),
    ensures
        decode_spec(framed(0x10, protocol_name() + (seq![level] + rest)) + tail, limits) == (
            Ok::<Option<PacketView>, Error>(Some(PacketView::UnsupportedVersion(level))),
            tail,
        ),
{
    lemma_protocol_name(seq![level] + rest);
    lemma_byte(level, rest);
    assert(flags_ok(0x10) && 0x10u8 >> 4 == 1) by {
        assert(0x10u8 >> 4 == 1 && 0x10u8 & 0x0f == 0) by (bit_vector);
    }
    lemma_framed(0x10, protocol_name() + (seq![level] + rest), limits, tail);
}

/// A connection request is refused if its lowest flag is set, if it leaves a will of an impossible
/// quality of service, if it says something of a will that it does not leave, or if it has a
/// password without a user name.
pub proof fn law_contradictory_connect_is_refused(
    flags: u8,
    rest: Seq<u8>,
    limits: Limits,
    tail: Seq<u8>,
)
    requires
        ({
            ||| flags % 2 == 1
            ||| flags / 8 % 4 == 3
            ||| flags / 4 % 2 == 0 && flags / 8 % 8 != 0
            ||| flags / 64 % 2 == 1 && flags / 128 == 0
        }),
        rest.len() >= 2,
        carried(0x10, protocol_name() + (seq![4u8] + (seq![flags] + rest)), limits),
    ensures
        decode_spec(
            framed(0x10, protocol_name() + (seq![4u8] + (seq![flags] + rest))) + tail,
            limits,
        ) == (Err::<Option<PacketView>, Error>(Error::Invalid), tail),
{
    assert(flags & 1 != 0 || (flags >> 3) & 3 == 3 || (flags & 4 == 0 && flags & 0x38 != 0) || (flags
        & 0x40 != 0 && flags & 0x80 == 0)) by (bit_vector)
        requires
            flags % 2 == 1 || flags / 8 % 4 == 3 || (flags / 4 % 2 == 0 && flags / 8 % 8 != 0) || (
            flags / 64 % 2 == 1 && flags / 128 == 0),
    ;
    lemma_protocol_name(seq![4u8] + (seq![flags] + rest));
    lemma_byte(4, seq![flags] + rest);
    lemma_byte(flags, rest);
    assert(flags_ok(0x10) && 0x10u8 >> 4 == 1) by {
        assert(0x10u8 >> 4 == 1 && 0x10u8 & 0x0f == 0) by (bit_vector);
    }
    lemma_framed(0x10, protocol_name() + (seq![4u8] + (seq![flags] + rest)), limits, tail);
}

/// Filters, each with the quality of service that is asked for.
pub open spec fn filters_layout(filters: Seq<(Seq<char>, u8)>) -> Seq<u8>
    decreases filters.len(),
{
    if filters.len() == 0 {
        Seq::empty()
    } else {
        text_field(filters[0].0) + (seq![filters[0].1] + filters_layout(filters.drop_first()))
    }
}

/// Filters alone.
pub open spec fn names_layout(filters: Seq<Seq<char>>) -> Seq<u8>
    decreases filters.len(),
{
    if filters.len() == 0 {
        Seq::empty()
    } else {
        text_field(filters[0]) + names_layout(filters.drop_first())
    }
}

pub open spec fn filter_sound(filter: Seq<char>, limits: Limits) -> bool {
    sendable(filter, limits.max_topic_bytes as nat) && topic_valid(filter, limits, true)
}

proof fn lemma_filters(
    filters: Seq<(Seq<char>, u8)>,
    seen: Seq<(Seq<char>, u8)>,
    limits: Limits,
)
    requires
        seen.len() + filters.len() <= limits.max_subscription_filters_per_packet,
        forall|i: int|
            0 <= i < filters.len() ==> filter_sound((#[trigger] filters[i]).0, limits)
                && filters[i].1 <= 2,
    ensures
        subscribe_filters(filters_layout(filters), seen, limits) == Ok::<
            Seq<(Seq<char>, u8)>,
            Error,
        >(seen + filters),
    decreases filters.len(),
{
    if filters.len() == 0 {
        assert(seen + filters =~= seen);
    } else {
        let rest = filters.drop_first();
        let s2 = filters_layout(rest);
        assert(filter_sound(filters[0].0, limits));
        lemma_text_field(filters[0].0, seq![filters[0].1] + s2, limits.max_topic_bytes as nat);
        lemma_byte(filters[0].1, s2);
        assert forall|i: int| 0 <= i < rest.len() implies filter_sound(
            (#[trigger] rest[i]).0,
            limits,
        ) && rest[i].1 <= 2 by {
            assert(rest[i] == filters[i + 1]);
        }
        lemma_filters(rest, seen.push(filters[0]), limits);
        assert(seen.push(filters[0]) + rest =~= seen + filters);
        assert(filters_layout(filters).len() > 0);
        assert(seen.push((filters[0].0, filters[0].1)) =~= seen.push(filters[0]));
    }
}

proof fn lemma_names(filters: Seq<Seq<char>>, seen: Seq<Seq<char>>, limits: Limits)
    requires
        seen.len() + filters.len() <= limits.max_subscription_filters_per_packet,
        forall|i: int| 0 <= i < filters.len() ==> filter_sound(#[trigger] filters[i], limits),
    ensures
        unsubscribe_filters(names_layout(filters), seen, limits) == Ok::<Seq<Seq<char>>, Error>(
            seen + filters,
        ),
    decreases filters.len(),
{
    if filters.len() == 0 {
        assert(seen + filters =~= seen);
    } else {
        let rest = filters.drop_first();
        assert(filter_sound(filters[0], limits));
        lemma_text_field(filters[0], names_layout(rest), limits.max_topic_bytes as nat);
        assert forall|i: int| 0 <= i < rest.len() implies filter_sound(
            #[trigger] rest[i],
            limits,
        ) by {
            assert(rest[i] == filters[i + 1]);
        }
        lemma_names(rest, seen.push(filters[0]), limits);
        assert(seen.push(filters[0]) + rest =~= seen + filters);
        assert(names_layout(filters).len() > 0);
    }
}

/// A subscription request is read for its filters, in their order, each with its quality of
/// service.
pub proof fn law_subscribe_is_read(
    id: u16,
    filters: Seq<(Seq<char>, u8)>,
    limits: Limits,
    tail: Seq<u8>,
)
    requires
        id != 0,
        0 < filters.len() <= limits.max_subscription_filters_per_packet,
        forall|i: int|
            0 <= i < filters.len() ==> filter_sound((#[trigger] filters[i]).0, limits)
                && filters[i].1 <= 2,
        carried(0x82, short(id as nat) + filters_layout(filters), limits),
    ensures
        decode_spec(framed(0x82, short(id as nat) + filters_layout(filters)) + tail, limits) == (
            Ok::<Option<PacketView>, Error>(
                Some(PacketView::Subscribe { packet_id: id, filters }),
            ),
            tail,
        ),
{
    let body = short(id as nat) + filters_layout(filters);
    lemma_short(id, filters_layout(filters));
    lemma_filters(filters, Seq::empty(), limits);
    assert(Seq::<(Seq<char>, u8)>::empty() + filters =~= filters);
    assert(0x82u8 >> 4 == 8 && 0x82u8 & 0x0f == 2) by (bit_vector);
    lemma_framed(0x82, body, limits, tail);
}

/// An unsubscription request is read for its filters, in their order.
pub proof fn law_unsubscribe_is_read(
    id: u16,
    filters: Seq<Seq<char>>,
    limits: Limits,
    tail: Seq<u8>,
)
    requires
        id != 0,
        0 < filters.len() <= limits.max_subscription_filters_per_packet,
        forall|i: int| 0 <= i < filters.len() ==> filter_sound(#[trigger] filters[i], limits),
        carried(0xa2, short(id as nat) + names_layout(filters), limits),
    ensures
        decode_spec(framed(0xa2, short(id as nat) + names_layout(filters)) + tail, limits) == (
            Ok::<Option<PacketView>, Error>(
                Some(PacketView::Unsubscribe { packet_id: id, filters }),
            ),
            tail,
        ),
{
    let body = short(id as nat) + names_layout(filters);
    lemma_short(id, names_layout(filters));
    lemma_names(filters, Seq::empty(), limits);
    assert(Seq::<Seq<char>>::empty() + filters =~= filters);
    assert(0xa2u8 >> 4 == 10 && 0xa2u8 & 0x0f == 2) by (bit_vector);
    lemma_framed(0xa2, body, limits, tail);
}

/// The first byte of a message: its kind, whether it was sent before, its quality of service and
/// whether it is retained.
pub open spec fn publish_head(qos: u8, retain: bool, dup: bool) -> u8 {
    (48 + bit(dup, 8) + 2 * qos + bit(retain, 1)) as u8
}

/// The body of a message: its topic, its identifier if it has one, and its payload.
pub open spec fn publish_layout(topic: Seq<char>, packet_id: Option<u16>, payload: Seq<u8>) -> Seq<u8> {
    text_field(topic) + ((match packet_id {
        Some(id) => short(id as nat),
        None => Seq::empty(),
    }) + payload)
}

pub proof fn lemma_publish_head(qos: u8, retain: bool, dup: bool)
    requires
        qos <= 2,
    ensures
        publish_head(qos, retain, dup) == publish_first(qos, retain, dup),
{
    let d: u8 = if dup { 1 } else { 0 };
    let r: u8 = if retain { 1 } else { 0 };
    assert((0x30u8 | (d << 3) | (qos << 1) | r) as int == 48 + 8 * d + 2 * qos + r) by (bit_vector)
        requires
            qos <= 2,
            d <= 1,
            r <= 1,
    ;
}

/// A message is written as its parts in their order, and what is written so is read as that
/// message: its topic, payload, quality of service, identifier and flags.
pub proof fn law_message_is_written_and_read(
    topic: Seq<char>,
    payload: Seq<u8>,
    qos: u8,
    packet_id: Option<u16>,
    retain: bool,
    dup: bool,
    limits: Limits,
    tail: Seq<u8>,
)
    requires
        qos <= 2,
        (qos == 0) == (packet_id is None),
        packet_id != Some(0u16),
        sendable(topic, limits.max_topic_bytes as nat),
        topic_valid(topic, limits, false),
        carried(publish_head(qos, retain, dup), publish_layout(topic, packet_id, payload), limits),
    ensures
        packet_bytes(publish_first(qos, retain, dup), publish_body(topic, payload, packet_id))
            == framed(publish_head(qos, retain, dup), publish_layout(topic, packet_id, payload)),
        decode_spec(
            framed(publish_head(qos, retain, dup), publish_layout(topic, packet_id, payload))
                + tail,
            limits,
        ) == (
            Ok::<Option<PacketView>, Error>(
                Some(PacketView::Publish { topic, payload, qos, packet_id, retain, dup }),
            ),
            tail,
        ),
{
    let head = publish_head(qos, retain, dup);
    let body = publish_layout(topic, packet_id, payload);
    let id = match packet_id {
        Some(id) => short(id as nat),
        None => Seq::empty(),
    };
    lemma_publish_head(qos, retain, dup);
    super::v311::lemma_publish_first(qos, retain, dup);
    lemma_text_field(topic, id + payload, limits.max_topic_bytes as nat);
    lemma_field(encode_utf8(topic), Seq::empty(), 65_535);
    match packet_id {
        Some(value) => {
            lemma_short(value, payload);
        },
        None => {
            assert(id + payload =~= payload);
        },
    }
    assert(publish_body(topic, payload, packet_id) =~= body);
    law_packets_are_framed(head, body);
    lemma_framed(head, body, limits, tail);
}

/// Acknowledgements are read by their first bytes, and the packets that say nothing by theirs.
pub proof fn law_short_packets_are_read(id: u16, limits: Limits, tail: Seq<u8>)
    requires
        id != 0,
        limits.max_mqtt_packet_size >= 4,
    ensures
        decode_spec(seq![0x40u8, 2u8] + short(id as nat) + tail, limits) == (
            Ok::<Option<PacketView>, Error>(Some(PacketView::Puback(id))),
            tail,
        ),
        decode_spec(seq![0x50u8, 2u8] + short(id as nat) + tail, limits) == (
            Ok::<Option<PacketView>, Error>(Some(PacketView::Pubrec(id))),
            tail,
        ),
        decode_spec(seq![0x62u8, 2u8] + short(id as nat) + tail, limits) == (
            Ok::<Option<PacketView>, Error>(Some(PacketView::Pubrel(id))),
            tail,
        ),
        decode_spec(seq![0x70u8, 2u8] + short(id as nat) + tail, limits) == (
            Ok::<Option<PacketView>, Error>(Some(PacketView::Pubcomp(id))),
            tail,
        ),
        decode_spec(seq![0xb0u8, 2u8] + short(id as nat) + tail, limits) == (
            Ok::<Option<PacketView>, Error>(Some(PacketView::Unsuback(id))),
            tail,
        ),
        decode_spec(seq![0xc0u8, 0u8] + tail, limits) == (
            Ok::<Option<PacketView>, Error>(Some(PacketView::Pingreq)),
            tail,
        ),
        decode_spec(seq![0xd0u8, 0u8] + tail, limits) == (
            Ok::<Option<PacketView>, Error>(Some(PacketView::Pingresp)),
            tail,
        ),
        decode_spec(seq![0xe0u8, 0u8] + tail, limits) == (
            Ok::<Option<PacketView>, Error>(Some(PacketView::Disconnect)),
            tail,
        ),
{
    let body = short(id as nat);
    let none = Seq::<u8>::empty();
    lemma_short(id, none);
    assert(body + none =~= body);
    assert(0x40u8 >> 4 == 4 && 0x40u8 & 0x0f == 0 && 0x50u8 >> 4 == 5 && 0x50u8 & 0x0f == 0 && 0x62u8
        >> 4 == 6 && 0x62u8 & 0x0f == 2 && 0x70u8 >> 4 == 7 && 0x70u8 & 0x0f == 0 && 0xb0u8 >> 4
        == 11 && 0xb0u8 & 0x0f == 0 && 0xc0u8 >> 4 == 12 && 0xc0u8 & 0x0f == 0 && 0xd0u8 >> 4 == 13
        && 0xd0u8 & 0x0f == 0 && 0xe0u8 >> 4 == 14 && 0xe0u8 & 0x0f == 0) by (bit_vector);
    assert(framed(0x40, body) =~= seq![0x40u8, 2u8] + body);
    assert(framed(0x50, body) =~= seq![0x50u8, 2u8] + body);
    assert(framed(0x62, body) =~= seq![0x62u8, 2u8] + body);
    assert(framed(0x70, body) =~= seq![0x70u8, 2u8] + body);
    assert(framed(0xb0, body) =~= seq![0xb0u8, 2u8] + body);
    assert(framed(0xc0, none) =~= seq![0xc0u8, 0u8]);
    assert(framed(0xd0, none) =~= seq![0xd0u8, 0u8]);
    assert(framed(0xe0, none) =~= seq![0xe0u8, 0u8]);
    lemma_framed(0x40, body, limits, tail);
    lemma_framed(0x50, body, limits, tail);
    lemma_framed(0x62, body, limits, tail);
    lemma_framed(0x70, body, limits, tail);
    lemma_framed(0xb0, body, limits, tail);
    lemma_framed(0xc0, none, limits, tail);
    lemma_framed(0xd0, none, limits, tail);
    lemma_framed(0xe0, none, limits, tail);
}

} // verus!
