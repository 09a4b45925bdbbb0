//! How packets of MQTT 5 lie on the wire, byte by byte, and that they are read so.
use super::common::{law_remaining_length_round_trip, topic_valid, varint};
use super::layout::{
    bit, carried, connect_flags, field, filter_sound, framed, lemma_byte, lemma_connect_flags,
    lemma_framed, lemma_length_bytes, lemma_protocol_name, lemma_publish_head, lemma_short,
    length_bytes, maybe_field, maybe_text, names_layout, protocol_name, publish_head, sendable,
    short, text_field,
};
use super::v5::{
    ack_code_ok, ack_spec, connect_flags_ok, connect_payload, connect_spec, decode_spec,
    disconnect_packet, options_of, options_ok, read_binary, read_integer, read_optional_binary,
    read_optional_string, read_properties, read_property, read_property_list, read_string,
    read_will, subscribe_filters, unsubscribe_filters, user_bytes, ConnectView, DecodeError,
    PacketView, PropertiesView, PropertyContext, SubscriptionOptions, WillView,
};
use crate::limits::Limits;
use crate::number::{be32, lemma_be_round_trip, lemma_power256, to_be};
use crate::text::starts_with;
use vstd::prelude::*;
use vstd::utf8::encode_utf8;

verus! {

/// One property of a packet.
pub enum Item {
    PayloadFormat(u8),
    MessageExpiry(u32),
    ContentType(Seq<char>),
    ResponseTopic(Seq<char>),
    CorrelationData(Seq<u8>),
    SessionExpiry(u32),
    AuthenticationMethod(Seq<char>),
    AuthenticationData(Seq<u8>),
    RequestProblemInformation(bool),
    WillDelay(u32),
    RequestResponseInformation(bool),
    ReasonString(Seq<char>),
    ReceiveMaximum(u16),
    TopicAliasMaximum(u16),
    User(Seq<char>, Seq<char>),
    MaximumPacketSize(u32),
}

/// A number of four bytes, the highest one first.
pub open spec fn long(n: nat) -> Seq<u8> {
    seq![
        (n / 16_777_216) as u8,
        (n / 65_536 % 256) as u8,
        (n / 256 % 256) as u8,
        (n % 256) as u8,
    ]
}

/// The number under which a property goes.
pub open spec fn number_of(item: Item) -> u8 {
    match item {
        Item::PayloadFormat(_) => 1,
        Item::MessageExpiry(_) => 2,
        Item::ContentType(_) => 3,
        Item::ResponseTopic(_) => 8,
        Item::CorrelationData(_) => 9,
        Item::SessionExpiry(_) => 17,
        Item::AuthenticationMethod(_) => 21,
        Item::AuthenticationData(_) => 22,
        Item::RequestProblemInformation(_) => 23,
        Item::WillDelay(_) => 24,
        Item::RequestResponseInformation(_) => 25,
        Item::ReasonString(_) => 31,
        Item::ReceiveMaximum(_) => 33,
        Item::TopicAliasMaximum(_) => 34,
        Item::User(_, _) => 38,
        Item::MaximumPacketSize(_) => 39,
    }
}

/// The value of a property.
pub open spec fn value_of(item: Item) -> Seq<u8> {
    match item {
        Item::PayloadFormat(value) => seq![value],
        Item::RequestProblemInformation(value) => seq![bit(value, 1) as u8],
        Item::RequestResponseInformation(value) => seq![bit(value, 1) as u8],
        Item::ReceiveMaximum(value) => short(value as nat),
        Item::TopicAliasMaximum(value) => short(value as nat),
        Item::MessageExpiry(value) => long(value as nat),
        Item::SessionExpiry(value) => long(value as nat),
        Item::WillDelay(value) => long(value as nat),
        Item::MaximumPacketSize(value) => long(value as nat),
        Item::ContentType(text) => text_field(text),
        Item::ResponseTopic(text) => text_field(text),
        Item::AuthenticationMethod(text) => text_field(text),
        Item::ReasonString(text) => text_field(text),
        Item::CorrelationData(data) => field(data),
        Item::AuthenticationData(data) => field(data),
        Item::User(key, value) => text_field(key) + text_field(value),
    }
}

/// What is known of a packet after one more of its properties.
pub open spec fn says(item: Item, p: PropertiesView) -> PropertiesView {
    match item {
        Item::PayloadFormat(value) => PropertiesView { payload_format: Some(value), ..p },
        Item::MessageExpiry(value) => PropertiesView { message_expiry: Some(value), ..p },
        Item::ContentType(text) => PropertiesView { content_type: Some(text), ..p },
        Item::ResponseTopic(text) => PropertiesView { response_topic: Some(text), ..p },
        Item::CorrelationData(data) => PropertiesView { correlation_data: Some(data), ..p },
        Item::SessionExpiry(value) => PropertiesView { session_expiry: Some(value), ..p },
        Item::AuthenticationMethod(text) => PropertiesView {
            authentication_method: Some(text),
            ..p
        },
        Item::AuthenticationData(data) => PropertiesView { authentication_data: Some(data), ..p },
        Item::RequestProblemInformation(value) => PropertiesView {
            request_problem_information: Some(value),
            ..p
        },
        Item::WillDelay(value) => PropertiesView { will_delay: Some(value), ..p },
        Item::RequestResponseInformation(value) => PropertiesView {
            request_response_information: Some(value),
            ..p
        },
        Item::ReasonString(_) => p,
        Item::ReceiveMaximum(value) => PropertiesView { receive_maximum: Some(value), ..p },
        Item::TopicAliasMaximum(value) => PropertiesView { topic_alias_maximum: Some(value), ..p },
        Item::User(key, value) => PropertiesView {
            user_properties: p.user_properties.push((key, value)),
            ..p
        },
        Item::MaximumPacketSize(value) => PropertiesView { maximum_packet_size: Some(value), ..p },
    }
}

/// Where a property may stand.
pub open spec fn belongs(item: Item, context: PropertyContext) -> bool {
    match item {
        Item::PayloadFormat(_)
        | Item::MessageExpiry(_)
        | Item::ContentType(_)
        | Item::ResponseTopic(_)
        | Item::CorrelationData(_) => context == PropertyContext::Will || context
            == PropertyContext::Publish,
        Item::SessionExpiry(_) => context == PropertyContext::Connect || context
            == PropertyContext::Disconnect,
        Item::AuthenticationMethod(_)
        | Item::AuthenticationData(_)
        | Item::RequestProblemInformation(_)
        | Item::RequestResponseInformation(_)
        | Item::ReceiveMaximum(_)
        | Item::TopicAliasMaximum(_)
        | Item::MaximumPacketSize(_) => context == PropertyContext::Connect,
        Item::WillDelay(_) => context == PropertyContext::Will,
        Item::ReasonString(_) => context == PropertyContext::Ack || context
            == PropertyContext::Disconnect,
        Item::User(_, _) => true,
    }
}

/// A property whose value is one that it may have, after those read before.
pub open spec fn item_sound(item: Item, p: PropertiesView, limits: Limits) -> bool {
    let any = limits.max_mqtt_property_bytes as nat;
    match item {
        Item::PayloadFormat(value) => value <= 1,
        Item::ContentType(text) => sendable(text, limits.max_mqtt_content_type_bytes as nat),
        Item::ResponseTopic(text) => sendable(text, limits.max_mqtt_response_topic_bytes as nat)
            && topic_valid(text, limits, false),
        Item::CorrelationData(data) => data.len() <= limits.max_mqtt_correlation_data_bytes
            && data.len() <= 65_535,
        Item::AuthenticationMethod(text) => sendable(text, any),
        Item::AuthenticationData(data) => data.len() <= any && data.len() <= 65_535,
        Item::ReasonString(text) => sendable(text, any),
        Item::ReceiveMaximum(value) => value > 0,
        Item::MaximumPacketSize(value) => value > 0,
        Item::User(key, value) => {
            let most = limits.max_mqtt_user_property_bytes as nat;
            &&& sendable(key, most)
            &&& sendable(value, most)
            &&& p.user_properties.len() < limits.max_mqtt_user_properties
            &&& user_bytes(p.user_properties.push((key, value))) <= most
        },
        _ => true,
    }
}

pub open spec fn items_layout(items: Seq<Item>) -> Seq<u8>
    decreases items.len(),
{
    if items.len() == 0 {
        Seq::empty()
    } else {
        seq![number_of(items[0])] + (value_of(items[0]) + items_layout(items.drop_first()))
    }
}

/// What is known of a packet after all of its properties.
pub open spec fn told(items: Seq<Item>, p: PropertiesView) -> PropertiesView
    decreases items.len(),
{
    if items.len() == 0 {
        p
    } else {
        told(items.drop_first(), says(items[0], p))
    }
}

/// Properties that may stand together in any order. Only those of the user may be repeated.
pub open spec fn items_sound(
    items: Seq<Item>,
    used: Set<u8>,
    p: PropertiesView,
    context: PropertyContext,
    limits: Limits,
) -> bool
    decreases items.len(),
{
    if items.len() == 0 {
        p.authentication_data is Some ==> p.authentication_method is Some
    } else {
        &&& belongs(items[0], context)
        &&& items[0] is User || !used.contains(number_of(items[0]))
        &&& item_sound(items[0], p, limits)
        &&& items_sound(
            items.drop_first(),
            used.insert(number_of(items[0])),
            says(items[0], p),
            context,
            limits,
        )
    }
}

/// Nothing is known of a packet.
pub open spec fn nothing() -> PropertiesView {
    PropertiesView {
        payload_format: None,
        message_expiry: None,
        content_type: None,
        response_topic: None,
        correlation_data: None,
        session_expiry: None,
        receive_maximum: None,
        maximum_packet_size: None,
        topic_alias_maximum: None,
        request_response_information: None,
        request_problem_information: None,
        authentication_method: None,
        authentication_data: None,
        will_delay: None,
        user_properties: Seq::empty(),
    }
}

/// The properties of a packet, behind the number of their bytes.
pub open spec fn properties_layout(items: Seq<Item>) -> Seq<u8> {
    length_bytes(items_layout(items).len()) + items_layout(items)
}

pub open spec fn properties_sound(
    items: Seq<Item>,
    context: PropertyContext,
    limits: Limits,
) -> bool {
    &&& items_sound(items, Set::empty(), nothing(), context, limits)
    &&& items_layout(items).len() <= limits.max_mqtt_property_bytes
    &&& items_layout(items).len() <= 268_435_455
}

pub proof fn lemma_long_bytes(value: u32)
    ensures
        long(value as nat) == be32(value),
        long(value as nat).len() == 4,
{
    let n = value as nat;
    reveal_with_fuel(to_be, 5);
    assert(n / 256 / 256 == n / 65_536 && n / 256 / 256 / 256 == n / 16_777_216) by (nonlinear_arith);
    assert(n / 16_777_216 < 256);
    assert(long(n) =~= to_be(n, 4));
}

proof fn lemma_long(value: u32, tail: Seq<u8>)
    ensures
        read_integer(long(value as nat) + tail) == Ok::<(u32, Seq<u8>), DecodeError>((value, tail)),
{
    let n = value as nat;
    lemma_power256();
    lemma_be_round_trip(n, 4);
    lemma_long_bytes(value);
    let s = long(n) + tail;
    assert(s.take(4) =~= long(n));
    assert(s.skip(4) =~= tail);
}

proof fn lemma_data(data: Seq<u8>, tail: Seq<u8>, maximum: nat)
    requires
        data.len() <= maximum,
        data.len() <= 65_535,
    ensures
        read_binary(field(data) + tail, maximum) == Ok::<(Seq<u8>, Seq<u8>), DecodeError>(
            (data, tail),
        ),
{
    let n = data.len() as u16;
    let s = field(data) + tail;
    assert(s =~= short(n as nat) + (data + tail));
    lemma_short(n, data + tail);
    assert((data + tail).take(n as int) =~= data);
    assert((data + tail).skip(n as int) =~= tail);
}

proof fn lemma_text(text: Seq<char>, tail: Seq<u8>, maximum: nat)
    requires
        sendable(text, maximum),
    ensures
        read_string(text_field(text) + tail, maximum) == Ok::<(Seq<char>, Seq<u8>), DecodeError>(
            (text, tail),
        ),
{
    lemma_data(encode_utf8(text), tail, maximum);
    vstd::utf8::encode_utf8_valid_utf8(text);
    vstd::utf8::encode_utf8_decode_utf8(text);
}

proof fn lemma_item(item: Item, tail: Seq<u8>, p: PropertiesView, limits: Limits)
    requires
        item_sound(item, p, limits),
    ensures
        read_property(number_of(item), value_of(item) + tail, p, limits) == Ok::<
            (PropertiesView, Seq<u8>),
            DecodeError,
        >((says(item, p), tail)),
        value_of(item).len() > 0,
{
    reveal(read_property);
    let any = limits.max_mqtt_property_bytes as nat;
    match item {
        Item::PayloadFormat(value) => lemma_byte(value, tail),
        Item::RequestProblemInformation(value) => lemma_byte(bit(value, 1) as u8, tail),
        Item::RequestResponseInformation(value) => lemma_byte(bit(value, 1) as u8, tail),
        Item::ReceiveMaximum(value) => lemma_short(value, tail),
        Item::TopicAliasMaximum(value) => lemma_short(value, tail),
        Item::MessageExpiry(value) => lemma_long(value, tail),
        Item::SessionExpiry(value) => lemma_long(value, tail),
        Item::WillDelay(value) => lemma_long(value, tail),
        Item::MaximumPacketSize(value) => lemma_long(value, tail),
        Item::ContentType(text) => lemma_text(
            text,
            tail,
            limits.max_mqtt_content_type_bytes as nat,
        ),
        Item::ResponseTopic(text) => lemma_text(
            text,
            tail,
            limits.max_mqtt_response_topic_bytes as nat,
        ),
        Item::AuthenticationMethod(text) => lemma_text(text, tail, any),
        Item::ReasonString(text) => lemma_text(text, tail, any),
        Item::CorrelationData(data) => lemma_data(
            data,
            tail,
            limits.max_mqtt_correlation_data_bytes as nat,
        ),
        Item::AuthenticationData(data) => lemma_data(data, tail, any),
        Item::User(key, value) => {
            let most = limits.max_mqtt_user_property_bytes as nat;
            assert(value_of(item) + tail =~= text_field(key) + (text_field(value) + tail));
            lemma_text(key, text_field(value) + tail, most);
            lemma_text(value, tail, most);
        },
    }
}

proof fn lemma_items(
    items: Seq<Item>,
    used: Set<u8>,
    p: PropertiesView,
    context: PropertyContext,
    limits: Limits,
)
    requires
        items_sound(items, used, p, context, limits),
    ensures
        read_property_list(items_layout(items), context, used, p, limits) == Ok::<
            PropertiesView,
            DecodeError,
        >(told(items, p)),
    decreases items.len(),
{
    reveal(read_property_list);
    if items.len() > 0 {
        let item = items[0];
        let rest = items.drop_first();
        let tail = items_layout(rest);
        let s = items_layout(items);
        assert(s.skip(1) =~= value_of(item) + tail);
        assert(s[0] == number_of(item));
        lemma_item(item, tail, p, limits);
        lemma_items(rest, used.insert(number_of(item)), says(item, p), context, limits);
    }
}

proof fn lemma_properties(
    items: Seq<Item>,
    tail: Seq<u8>,
    context: PropertyContext,
    limits: Limits,
)
    requires
        properties_sound(items, context, limits),
    ensures
        read_properties(properties_layout(items) + tail, context, limits) == Ok::<
            (PropertiesView, Seq<u8>),
            DecodeError,
        >((told(items, nothing()), tail)),
        properties_layout(items).len() > 0,
{
    reveal(read_properties);
    let encoded = items_layout(items);
    let s = properties_layout(items) + tail;
    lemma_length_bytes(encoded.len());
    law_remaining_length_round_trip(encoded.len(), encoded + tail);
    assert(s =~= varint(encoded.len()) + (encoded + tail));
    let after = s.skip(varint(encoded.len()).len() as int);
    assert(after =~= encoded + tail);
    assert(after.take(encoded.len() as int) =~= encoded);
    assert(after.skip(encoded.len() as int) =~= tail);
    assert(nothing() =~= super::v5::no_properties());
    lemma_items(items, Set::empty(), nothing(), context, limits);
}

/// A connection request: what is known of the client, with the properties of the request and of the
/// will as they stand on the wire.
pub struct Greeting {
    pub client_id: Seq<char>,
    pub username: Option<Seq<char>>,
    pub password: Option<Seq<u8>>,
    pub keep_alive: u16,
    pub clean_start: bool,
    pub items: Seq<Item>,
    pub will: Option<Bequest>,
}

/// A will as it stands in a request.
pub struct Bequest {
    pub items: Seq<Item>,
    pub topic: Seq<char>,
    pub payload: Seq<u8>,
    pub qos: u8,
    pub retain: bool,
}

pub open spec fn greeting_flags(g: Greeting) -> u8 {
    connect_flags(
        g.clean_start,
        match g.will {
            Some(will) => Some((will.qos, will.retain)),
            None => None,
        },
        g.password is Some,
        g.username is Some,
    )
}

pub open spec fn will_layout(will: Option<Bequest>) -> Seq<u8> {
    match will {
        Some(will) => properties_layout(will.items) + (text_field(will.topic) + field(
            will.payload,
        )),
        None => Seq::empty(),
    }
}

pub open spec fn greeting_rest(g: Greeting) -> Seq<u8> {
    text_field(g.client_id) + (will_layout(g.will) + (maybe_text(g.username) + maybe_field(
        g.password,
    )))
}

/// The body of a connection request.
pub open spec fn greeting_layout(g: Greeting) -> Seq<u8> {
    protocol_name() + (seq![5u8] + (seq![greeting_flags(g)] + (short(g.keep_alive as nat) + (
    properties_layout(g.items) + greeting_rest(g)))))
}

/// The request is one that a client may make.
pub open spec fn greeting_sound(g: Greeting, limits: Limits) -> bool {
    &&& properties_sound(g.items, PropertyContext::Connect, limits)
    &&& sendable(g.client_id, limits.max_client_id_bytes as nat)
    &&& g.username matches Some(name) ==> sendable(name, limits.max_username_bytes as nat)
    &&& g.password matches Some(secret) ==> secret.len() <= limits.max_password_bytes
        && secret.len() <= 65_535
    &&& g.will matches Some(will) ==> {
        &&& properties_sound(will.items, PropertyContext::Will, limits)
        &&& will.qos <= 2
        &&& sendable(will.topic, limits.max_topic_bytes as nat)
        &&& topic_valid(will.topic, limits, false)
        &&& will.payload.len() <= limits.max_will_payload_bytes
        &&& will.payload.len() <= 65_535
    }
}

/// What a connection request says.
pub open spec fn greeting_says(g: Greeting) -> ConnectView {
    ConnectView {
        client_id: g.client_id,
        username: g.username,
        password: g.password,
        keep_alive: g.keep_alive,
        clean_start: g.clean_start,
        properties: told(g.items, nothing()),
        will: match g.will {
            Some(will) => Some(
                WillView {
                    topic: will.topic,
                    payload: will.payload,
                    qos: will.qos,
                    retain: will.retain,
                    properties: told(will.items, nothing()),
                },
            ),
            None => None,
        },
    }
}

proof fn lemma_greeting_will(g: Greeting, flags: u8, tail: Seq<u8>, limits: Limits)
    requires
        greeting_sound(g, limits),
        (flags & 4 != 0) == (g.will is Some),
        g.will matches Some(will) ==> (flags >> 3) & 3 == will.qos && (flags & 0x20 != 0)
            == will.retain,
    ensures
        read_will(will_layout(g.will) + tail, flags, limits) == Ok::<
            (Option<WillView>, Seq<u8>),
            DecodeError,
        >((greeting_says(g).will, tail)),
{
    match g.will {
        Some(will) => {
            let s2 = field(will.payload) + tail;
            let s1 = text_field(will.topic) + s2;
            assert(will_layout(g.will) + tail =~= properties_layout(will.items) + s1);
            lemma_properties(will.items, s1, PropertyContext::Will, limits);
            lemma_text(will.topic, s2, limits.max_topic_bytes as nat);
            lemma_data(will.payload, tail, limits.max_will_payload_bytes as nat);
        },
        None => {
            assert(will_layout(g.will) + tail =~= tail);
        },
    }
}

proof fn lemma_greeting_rest(g: Greeting, flags: u8, limits: Limits)
    requires
        greeting_sound(g, limits),
        (flags & 2 != 0) == g.clean_start,
        (flags & 4 != 0) == (g.will is Some),
        g.will matches Some(will) ==> (flags >> 3) & 3 == will.qos && (flags & 0x20 != 0)
            == will.retain,
        (flags & 0x40 != 0) == (g.password is Some),
        (flags & 0x80 != 0) == (g.username is Some),
    ensures
        connect_payload(greeting_rest(g), flags, g.keep_alive, told(g.items, nothing()), limits)
            == Ok::<PacketView, DecodeError>(PacketView::Connect(greeting_says(g))),
{
    let s3 = maybe_field(g.password);
    let s2 = maybe_text(g.username) + s3;
    let s1 = will_layout(g.will) + s2;
    let none = Seq::<u8>::empty();
    lemma_text(g.client_id, s1, limits.max_client_id_bytes as nat);
    lemma_greeting_will(g, flags, s2, limits);
    assert(read_optional_string(s2, g.username is Some, limits.max_username_bytes as nat) == Ok::<
        (Option<Seq<char>>, Seq<u8>),
        DecodeError,
    >((g.username, s3))) by {
        match g.username {
            Some(name) => {
                lemma_text(name, s3, limits.max_username_bytes as nat);
            },
            None => {
                assert(s2 =~= s3);
            },
        }
    }
    assert(read_optional_binary(s3, g.password is Some, limits.max_password_bytes as nat) == Ok::<
        (Option<Seq<u8>>, Seq<u8>),
        DecodeError,
    >((g.password, none))) by {
        match g.password {
            Some(secret) => {
                assert(s3 + none =~= s3);
                lemma_data(secret, none, limits.max_password_bytes as nat);
            },
            None => {},
        }
    }
}

/// What is read of the name of the protocol, and what follows it.
proof fn lemma_name(tail: Seq<u8>)
    ensures
        read_string(protocol_name() + tail, 6) == Ok::<(Seq<char>, Seq<u8>), DecodeError>(
            ("MQTT"@, tail),
        ),
{
    lemma_protocol_name(tail);
}

/// A connection request of the newer protocol is read for what it says: who the client is and how
/// it shows that, whether its session starts afresh, how often it will be heard of, the will it
/// leaves, and every property of the request and of the will, in whatever order they stand.
pub proof fn law_v5_connect_is_read(g: Greeting, limits: Limits, tail: Seq<u8>)
    requires
        greeting_sound(g, limits),
        carried(0x10, greeting_layout(g), limits),
    ensures
        decode_spec(framed(0x10, greeting_layout(g)) + tail, limits) == (
            Ok::<Option<PacketView>, DecodeError>(Some(PacketView::Connect(greeting_says(g)))),
            tail,
        ),
{
    let flags = greeting_flags(g);
    let s5 = greeting_rest(g);
    let s4 = properties_layout(g.items) + s5;
    let s3 = short(g.keep_alive as nat) + s4;
    let s2 = seq![flags] + s3;
    let s1 = seq![5u8] + s2;
    lemma_connect_flags(
        g.clean_start,
        match g.will {
            Some(will) => Some((will.qos, will.retain)),
            None => None,
        },
        g.password is Some,
        g.username is Some,
    );
    lemma_greeting_rest(g, flags, limits);
    assert(connect_spec(protocol_name() + s1, limits) == Ok::<PacketView, DecodeError>(
        PacketView::Connect(greeting_says(g)),
    )) by {
        lemma_name(s1);
        lemma_byte(5, s2);
        lemma_byte(flags, s3);
        lemma_short(g.keep_alive, s4);
        lemma_properties(g.items, s5, PropertyContext::Connect, limits);
        assert(connect_flags_ok(flags));
    }
    assert(greeting_layout(g) == protocol_name() + s1);
    assert(0x10u8 >> 4 == 1 && 0x10u8 & 0x0f == 0) by (bit_vector);
    lemma_framed(0x10, greeting_layout(g), limits, tail);
}

/// The options of a subscription in one byte.
pub open spec fn options_byte(o: SubscriptionOptions) -> u8 {
    (o.qos + bit(o.no_local, 4) + bit(o.retain_as_published, 8) + 16 * o.retain_handling) as u8
}

proof fn lemma_options(o: SubscriptionOptions)
    requires
        o.qos <= 2,
        o.retain_handling <= 2,
    ensures
        options_ok(options_byte(o)),
        options_of(options_byte(o)) == o,
{
    let q = o.qos;
    let l: u8 = if o.no_local { 1 } else { 0 };
    let a: u8 = if o.retain_as_published { 1 } else { 0 };
    let h = o.retain_handling;
    let v = options_byte(o);
    assert(v as int == q + 4 * l + 8 * a + 16 * h);
    assert(v & 0xc0 == 0 && v & 3 == q && (v & 4 != 0) == (l == 1) && (v & 8 != 0) == (a == 1) && (v
        >> 4) & 3 == h) by (bit_vector)
        requires
            v as int == q + 4 * l + 8 * a + 16 * h,
            q <= 2,
            l <= 1,
            a <= 1,
            h <= 2,
    ;
}

pub open spec fn wishes_layout(filters: Seq<(Seq<char>, SubscriptionOptions)>) -> Seq<u8>
    decreases filters.len(),
{
    if filters.len() == 0 {
        Seq::empty()
    } else {
        text_field(filters[0].0) + (seq![options_byte(filters[0].1)] + wishes_layout(
            filters.drop_first(),
        ))
    }
}

pub open spec fn wish_sound(wish: (Seq<char>, SubscriptionOptions), limits: Limits) -> bool {
    &&& sendable(wish.0, limits.max_topic_bytes as nat)
    &&& topic_valid(wish.0, limits, true)
    &&& !starts_with(wish.0, "$share/"@)
    &&& wish.1.qos <= 2
    &&& wish.1.retain_handling <= 2
}

proof fn lemma_wishes(
    filters: Seq<(Seq<char>, SubscriptionOptions)>,
    seen: Seq<(Seq<char>, SubscriptionOptions)>,
    limits: Limits,
)
    requires
        seen.len() + filters.len() <= limits.max_subscription_filters_per_packet,
        forall|i: int| 0 <= i < filters.len() ==> wish_sound(#[trigger] filters[i], limits),
    ensures
        subscribe_filters(wishes_layout(filters), seen, limits) == Ok::<
            Seq<(Seq<char>, SubscriptionOptions)>,
            DecodeError,
        >(seen + filters),
    decreases filters.len(),
{
    if filters.len() == 0 {
        assert(seen + filters =~= seen);
    } else {
        let rest = filters.drop_first();
        let s2 = wishes_layout(rest);
        let options = options_byte(filters[0].1);
        assert(wish_sound(filters[0], limits));
        lemma_text(filters[0].0, seq![options] + s2, limits.max_topic_bytes as nat);
        lemma_byte(options, s2);
        lemma_options(filters[0].1);
        assert forall|i: int| 0 <= i < rest.len() implies wish_sound(#[trigger] rest[i], limits) by {
            assert(rest[i] == filters[i + 1]);
        }
        lemma_wishes(rest, seen.push(filters[0]), limits);
        assert(seen.push(filters[0]) + rest =~= seen + filters);
        assert(wishes_layout(filters).len() > 0);
        assert(seen.push((filters[0].0, filters[0].1)) =~= seen.push(filters[0]));
    }
}

/// A subscription request of the newer protocol is read for its filters, in their order, each with
/// its options.
pub proof fn law_v5_subscribe_is_read(
    id: u16,
    items: Seq<Item>,
    filters: Seq<(Seq<char>, SubscriptionOptions)>,
    limits: Limits,
    tail: Seq<u8>,
)
    requires
        id != 0,
        properties_sound(items, PropertyContext::Subscribe, limits),
        0 < filters.len() <= limits.max_subscription_filters_per_packet,
        forall|i: int| 0 <= i < filters.len() ==> wish_sound(#[trigger] filters[i], limits),
        carried(
            0x82,
            short(id as nat) + (properties_layout(items) + wishes_layout(filters)),
            limits,
        ),
    ensures
        decode_spec(
            framed(0x82, short(id as nat) + (properties_layout(items) + wishes_layout(filters)))
                + tail,
            limits,
        ) == (
            Ok::<Option<PacketView>, DecodeError>(
                Some(
                    PacketView::Subscribe {
                        packet_id: id,
                        filters,
                        properties: told(items, nothing()),
                    },
                ),
            ),
            tail,
        ),
{
    let s2 = wishes_layout(filters);
    let s1 = properties_layout(items) + s2;
    lemma_short(id, s1);
    lemma_properties(items, s2, PropertyContext::Subscribe, limits);
    lemma_wishes(filters, Seq::empty(), limits);
    assert(Seq::<(Seq<char>, SubscriptionOptions)>::empty() + filters =~= filters);
    assert(0x82u8 >> 4 == 8 && 0x82u8 & 0x0f == 2) by (bit_vector);
    lemma_framed(0x82, short(id as nat) + s1, limits, tail);
}

proof fn lemma_names(filters: Seq<Seq<char>>, seen: Seq<Seq<char>>, limits: Limits)
    requires
        seen.len() + filters.len() <= limits.max_subscription_filters_per_packet,
        forall|i: int| 0 <= i < filters.len() ==> filter_sound(#[trigger] filters[i], limits),
    ensures
        unsubscribe_filters(names_layout(filters), seen, limits) == Ok::<
            Seq<Seq<char>>,
            DecodeError,
        >(seen + filters),
    decreases filters.len(),
{
    if filters.len() == 0 {
        assert(seen + filters =~= seen);
    } else {
        let rest = filters.drop_first();
        assert(filter_sound(filters[0], limits));
        lemma_text(filters[0], names_layout(rest), limits.max_topic_bytes as nat);
        assert forall|i: int| 0 <= i < rest.len() implies filter_sound(
            #[trigger] rest[i],
            limits,
        ) by {
            assert(rest[i] == filters[i + 1]);
        }
        lemma_names(rest, seen.push(filters[0]), limits);
        assert(seen.push(filters[0]) + rest =~= seen + filters);
        assert(names_layout(filters).len() > 0);
    }
}

/// An unsubscription request of the newer protocol is read for its filters, in their order.
pub proof fn law_v5_unsubscribe_is_read(
    id: u16,
    items: Seq<Item>,
    filters: Seq<Seq<char>>,
    limits: Limits,
    tail: Seq<u8>,
)
    requires
        id != 0,
        properties_sound(items, PropertyContext::Unsubscribe, limits),
        0 < filters.len() <= limits.max_subscription_filters_per_packet,
        forall|i: int| 0 <= i < filters.len() ==> filter_sound(#[trigger] filters[i], limits),
        carried(
            0xa2,
            short(id as nat) + (properties_layout(items) + names_layout(filters)),
            limits,
        ),
    ensures
        decode_spec(
            framed(0xa2, short(id as nat) + (properties_layout(items) + names_layout(filters)))
                + tail,
            limits,
        ) == (
            Ok::<Option<PacketView>, DecodeError>(
                Some(
                    PacketView::Unsubscribe {
                        packet_id: id,
                        filters,
                        properties: told(items, nothing()),
                    },
                ),
            ),
            tail,
        ),
{
    let s2 = names_layout(filters);
    let s1 = properties_layout(items) + s2;
    lemma_short(id, s1);
    lemma_properties(items, s2, PropertyContext::Unsubscribe, limits);
    lemma_names(filters, Seq::empty(), limits);
    assert(Seq::<Seq<char>>::empty() + filters =~= filters);
    assert(0xa2u8 >> 4 == 10 && 0xa2u8 & 0x0f == 2) by (bit_vector);
    lemma_framed(0xa2, short(id as nat) + s1, limits, tail);
}

/// A goodbye is read for its reason and its properties.
pub proof fn law_v5_goodbye_is_read(
    reason: u8,
    items: Seq<Item>,
    limits: Limits,
    tail: Seq<u8>,
)
    requires
        properties_sound(items, PropertyContext::Disconnect, limits),
        carried(0xe0, seq![reason] + properties_layout(items), limits),
        reason == 0 || reason == 4 || 0x80 <= reason <= 0x83 || reason == 0x87 || 0x8d <= reason
            <= 0x90 || 0x93 <= reason <= 0xa2,
    ensures
        decode_spec(framed(0xe0, seq![reason] + properties_layout(items)) + tail, limits) == (
            Ok::<Option<PacketView>, DecodeError>(
                Some(PacketView::Disconnect { reason, properties: told(items, nothing()) }),
            ),
            tail,
        ),
{
    let none = Seq::<u8>::empty();
    let body = seq![reason] + properties_layout(items);
    assert(disconnect_packet(body, limits) == Ok::<PacketView, DecodeError>(
        PacketView::Disconnect { reason, properties: told(items, nothing()) },
    )) by {
        assert(body.skip(1) =~= properties_layout(items));
        assert(properties_layout(items) + none =~= properties_layout(items));
        lemma_properties(items, none, PropertyContext::Disconnect, limits);
    }
    assert(0xe0u8 >> 4 == 14 && 0xe0u8 & 0x0f == 0) by (bit_vector);
    lemma_framed(0xe0, body, limits, tail);
}

/// A goodbye without a reason is a normal one, and a client that asks whether it is heard says
/// nothing more.
pub proof fn law_v5_short_packets_are_read(limits: Limits, tail: Seq<u8>)
    requires
        limits.max_mqtt_packet_size >= 2,
    ensures
        decode_spec(seq![0xe0u8, 0u8] + tail, limits) == (
            Ok::<Option<PacketView>, DecodeError>(
                Some(PacketView::Disconnect { reason: 0, properties: nothing() }),
            ),
            tail,
        ),
        decode_spec(seq![0xc0u8, 0u8] + tail, limits) == (
            Ok::<Option<PacketView>, DecodeError>(Some(PacketView::Pingreq)),
            tail,
        ),
{
    let none = Seq::<u8>::empty();
    assert(0xe0u8 >> 4 == 14 && 0xe0u8 & 0x0f == 0 && 0xc0u8 >> 4 == 12 && 0xc0u8 & 0x0f == 0)
        by (bit_vector);
    assert(framed(0xe0, none) =~= seq![0xe0u8, 0u8]);
    assert(framed(0xc0, none) =~= seq![0xc0u8, 0u8]);
    assert(nothing() =~= super::v5::no_properties());
    lemma_framed(0xe0, none, limits, tail);
    lemma_framed(0xc0, none, limits, tail);
}

/// The answers to a message are told apart by their first byte, and read for their identifier and
/// their reason, whatever their properties say.
pub proof fn law_v5_answer_is_read(
    id: u16,
    reason: u8,
    items: Seq<Item>,
    limits: Limits,
    tail: Seq<u8>,
)
    requires
        id != 0,
        properties_sound(items, PropertyContext::Ack, limits),
        carried(0x40, short(id as nat) + (seq![reason] + properties_layout(items)), limits),
    ensures
        ({
            let body = short(id as nat) + (seq![reason] + properties_layout(items));
            let first_answer = reason == 0 || reason == 0x10 || reason == 0x80 || reason == 0x83
                || reason == 0x87 || reason == 0x90 || reason == 0x91 || reason == 0x97 || reason
                == 0x99;
            let second_answer = reason == 0 || reason == 0x92;
            &&& first_answer ==> decode_spec(framed(0x40, body) + tail, limits) == (
                Ok::<Option<PacketView>, DecodeError>(
                    Some(PacketView::Puback { packet_id: id, reason }),
                ),
                tail,
            )
            &&& first_answer ==> decode_spec(framed(0x50, body) + tail, limits) == (
                Ok::<Option<PacketView>, DecodeError>(
                    Some(PacketView::Pubrec { packet_id: id, reason }),
                ),
                tail,
            )
            &&& second_answer ==> decode_spec(framed(0x62, body) + tail, limits) == (
                Ok::<Option<PacketView>, DecodeError>(
                    Some(PacketView::Pubrel { packet_id: id, reason }),
                ),
                tail,
            )
            &&& second_answer ==> decode_spec(framed(0x70, body) + tail, limits) == (
                Ok::<Option<PacketView>, DecodeError>(
                    Some(PacketView::Pubcomp { packet_id: id, reason }),
                ),
                tail,
            )
        }),
{
    let none = Seq::<u8>::empty();
    let s1 = seq![reason] + properties_layout(items);
    let body = short(id as nat) + s1;
    assert forall|kind: u8| ack_code_ok(kind, reason) implies #[trigger] ack_spec(
        kind,
        body,
        limits,
    ) == Ok::<(u16, u8), DecodeError>((id, reason)) by {
        lemma_short(id, s1);
        assert(s1.skip(1) =~= properties_layout(items));
        assert(properties_layout(items) + none =~= properties_layout(items));
        lemma_properties(items, none, PropertyContext::Ack, limits);
    }
    assert(0x40u8 >> 4 == 4 && 0x40u8 & 0x0f == 0 && 0x50u8 >> 4 == 5 && 0x50u8 & 0x0f == 0 && 0x62u8
        >> 4 == 6 && 0x62u8 & 0x0f == 2 && 0x70u8 >> 4 == 7 && 0x70u8 & 0x0f == 0) by (bit_vector);
    lemma_framed(0x40, body, limits, tail);
    lemma_framed(0x50, body, limits, tail);
    lemma_framed(0x62, body, limits, tail);
    lemma_framed(0x70, body, limits, tail);
}

/// The body of a message: its topic, its identifier if it has one, its properties and its payload.
pub open spec fn message_layout(
    topic: Seq<char>,
    packet_id: Option<u16>,
    items: Seq<Item>,
    payload: Seq<u8>,
) -> Seq<u8> {
    text_field(topic) + ((match packet_id {
        Some(id) => short(id as nat),
        None => Seq::empty(),
    }) + (properties_layout(items) + payload))
}

/// A message of the newer protocol is read for its topic, payload, quality of service, identifier,
/// flags and properties.
pub proof fn law_v5_message_is_read(
    topic: Seq<char>,
    payload: Seq<u8>,
    qos: u8,
    packet_id: Option<u16>,
    retain: bool,
    dup: bool,
    items: Seq<Item>,
    limits: Limits,
    tail: Seq<u8>,
)
    requires
        qos <= 2,
        (qos == 0) == (packet_id is None),
        qos == 0 ==> !dup,
        packet_id != Some(0u16),
        sendable(topic, limits.max_topic_bytes as nat),
        topic_valid(topic, limits, false),
        properties_sound(items, PropertyContext::Publish, limits),
        carried(
            publish_head(qos, retain, dup),
            message_layout(topic, packet_id, items, payload),
            limits,
        ),
    ensures
        decode_spec(
            framed(
                publish_head(qos, retain, dup),
                message_layout(topic, packet_id, items, payload),
            ) + tail,
            limits,
        ) == (
            Ok::<Option<PacketView>, DecodeError>(
                Some(
                    PacketView::Publish {
                        topic,
                        payload,
                        qos,
                        packet_id,
                        retain,
                        dup,
                        properties: told(items, nothing()),
                    },
                ),
            ),
            tail,
        ),
{
    let head = publish_head(qos, retain, dup);
    let body = message_layout(topic, packet_id, items, payload);
    let s2 = properties_layout(items) + payload;
    lemma_publish_head(qos, retain, dup);
    super::v311::lemma_publish_first(qos, retain, dup);
    lemma_properties(items, payload, PropertyContext::Publish, limits);
    match packet_id {
        Some(id) => {
            lemma_text(topic, short(id as nat) + s2, limits.max_topic_bytes as nat);
            lemma_short(id, s2);
        },
        None => {
            lemma_text(topic, Seq::<u8>::empty() + s2, limits.max_topic_bytes as nat);
            assert(Seq::<u8>::empty() + s2 =~= s2);
        },
    }
    lemma_framed(head, body, limits, tail);
}

} // verus!
