//! The records of a recovery image, and what each of them adds.
use super::fields::{
    flag_bytes, get_flag, get_i64, get_name, get_u16, get_u32, get_u64, get_u8, lemma_get_flag,
    lemma_get_i64, lemma_get_name, lemma_get_u16, lemma_get_u32, lemma_get_u64, lemma_get_u8,
    lemma_join, name_bytes, text_fits, Parsed,
};
use super::message::{
    expiry_number, get_message, law_message_round_trip, message_body, message_fits, message_kept,
};
use super::snapshot::{
    auth_after, emptied_session, inbound_after, outbound_after, will_after, RecordedView,
    SnapshotView, RECOVERY_VERSION, RECOVERY_VERSION_V3, RECOVERY_VERSION_V4, RECOVERY_VERSION_V5,
};
use crate::broker::model::{RetainedView, WillView};
use crate::codec::common::topic_valid;
use crate::codec::MqttVersion;
use crate::error::Error;
use crate::identity::{identifier_ok, DeviceView, KeyView, Permissions, MAX_IDENTIFIER_BYTES};
use crate::limits::Limits;
use crate::list::{count, first};
use crate::message::{charge_of, MessageView};
use crate::number::{be16, be32, be64, bits_of};
use crate::session::{
    inbound_at, is_puback, is_qos2, no_reservation, outbound_at, sub_at, AuthView, InboundStage,
    InboundView, OutboundStage, OutboundView, SessionView, Subscription,
};
use crate::text::text_bytes;
use vstd::prelude::*;

verus! {

pub const RECORD_SESSION: u8 = 1;

pub const RECORD_SUBSCRIPTION: u8 = 2;

pub const RECORD_OFFLINE: u8 = 3;

pub const RECORD_INBOUND_QOS2: u8 = 4;

pub const RECORD_OUTBOUND: u8 = 5;

pub const RECORD_RETAINED: u8 = 6;

pub const RECORD_PENDING_WILL: u8 = 7;

/// Nothing may follow the last field of a record.
pub open spec fn finished<T>(parsed: Parsed<T>) -> Result<T, Error> {
    match parsed {
        Err(error) => Err(error),
        Ok((value, rest)) => if rest.len() == 0 {
            Ok(value)
        } else {
            Err(Error::Invalid)
        },
    }
}

#[verifier::opaque]
pub open spec fn get_identifier(s: Seq<u8>) -> Parsed<Seq<char>> {
    match get_name(s, MAX_IDENTIFIER_BYTES as nat) {
        Err(error) => Err(error),
        Ok((text, rest)) => if identifier_ok(text) {
            Ok((text, rest))
        } else {
            Err(Error::Invalid)
        },
    }
}

#[verifier::opaque]
pub open spec fn get_device(s: Seq<u8>) -> Parsed<DeviceView> {
    match get_identifier(s) {
        Err(error) => Err(error),
        Ok((tenant, s)) => match get_identifier(s) {
            Err(error) => Err(error),
            Ok((product, s)) => match get_identifier(s) {
                Err(error) => Err(error),
                Ok((device, s)) => Ok((DeviceView { tenant, product, device }, s)),
            },
        },
    }
}

pub open spec fn device_ok(d: DeviceView) -> bool {
    identifier_ok(d.tenant) && identifier_ok(d.product) && identifier_ok(d.device)
}

pub open spec fn device_fits(d: DeviceView) -> bool {
    text_fits(d.tenant) && text_fits(d.product) && text_fits(d.device)
}

#[verifier::opaque]
pub open spec fn device_body(d: DeviceView) -> Seq<u8> {
    name_bytes(d.tenant) + (name_bytes(d.product) + name_bytes(d.device))
}

proof fn lemma_identifier(text: Seq<char>, rest: Seq<u8>)
    requires
        identifier_ok(text),
    ensures
        get_identifier(name_bytes(text) + rest) == Ok::<(Seq<char>, Seq<u8>), Error>((text, rest)),
{
    reveal(get_identifier);
    lemma_nonempty(text);
    lemma_get_name(text, rest, MAX_IDENTIFIER_BYTES as nat);
}

/// A text of at least one character has at least one byte.
pub proof fn lemma_nonempty(text: Seq<char>)
    requires
        text.len() > 0,
    ensures
        text_bytes(text) > 0,
{
    let bytes = vstd::utf8::encode_utf8(text);
    if bytes.len() == 0 {
        vstd::utf8::encode_utf8_decode_utf8(text);
        assert(bytes =~= Seq::<u8>::empty());
        assert(vstd::utf8::decode_utf8(bytes).len() == 0);
    }
}

proof fn lemma_device(d: DeviceView, rest: Seq<u8>)
    requires
        device_ok(d),
    ensures
        get_device(device_body(d) + rest) == Ok::<(DeviceView, Seq<u8>), Error>((d, rest)),
        device_fits(d),
{
    reveal(get_device);
    reveal(device_body);
    let a = name_bytes(d.tenant);
    let b = name_bytes(d.product);
    let c = name_bytes(d.device);
    lemma_join(a, b + c, rest);
    lemma_join(b, c, rest);
    lemma_identifier(d.tenant, b + (c + rest));
    lemma_identifier(d.product, c + rest);
    lemma_identifier(d.device, rest);
}

/// The codec that an authorization was made for, since it is recorded.
#[verifier::opaque]
pub open spec fn get_codec(s: Seq<u8>, version: u32) -> Parsed<(Option<Seq<char>>, Option<u16>)> {
    if version >= RECOVERY_VERSION_V3 {
        match get_identifier(s) {
            Err(error) => Err(error),
            Ok((codec, s)) => match get_u16(s) {
                Err(error) => Err(error),
                Ok((number, s)) => if number == 0 {
                    Err(Error::Invalid)
                } else {
                    Ok(((Some(codec), Some(number)), s))
                },
            },
        }
    } else {
        Ok(((None, None), s))
    }
}

#[verifier::opaque]
pub open spec fn get_profile(s: Seq<u8>, version: u32) -> Parsed<AuthView> {
    match get_u32(s) {
        Err(error) => Err(error),
        Ok((credential_version, s)) => match get_u64(s) {
            Err(error) => Err(error),
            Ok((auth_generation, s)) => match get_flag(s) {
                Err(error) => Err(error),
                Ok((publish, s)) => match get_flag(s) {
                    Err(error) => Err(error),
                    Ok((commands, s)) => match get_codec(s, version) {
                        Err(error) => Err(error),
                        Ok(((codec_id, codec_version), s)) => Ok(
                            (
                                AuthView {
                                    credential_version,
                                    auth_generation,
                                    permissions: Permissions { publish, commands },
                                    codec_id,
                                    codec_version,
                                },
                                s,
                            ),
                        ),
                    },
                },
            },
        },
    }
}

#[verifier::opaque]
pub open spec fn get_authorization(s: Seq<u8>, version: u32) -> Parsed<Option<AuthView>> {
    match get_flag(s) {
        Err(error) => Err(error),
        Ok((false, s)) => Ok((None, s)),
        Ok((true, s)) => match get_profile(s, version) {
            Err(error) => Err(error),
            Ok((authorization, s)) => Ok((Some(authorization), s)),
        },
    }
}

pub open spec fn profile_body(a: AuthView) -> Seq<u8> {
    be32(a.credential_version) + (be64(a.auth_generation) + (flag_bytes(a.permissions.publish) + (
    flag_bytes(a.permissions.commands) + (name_bytes(a.codec_id->0) + be16(a.codec_version->0)))))
}

#[verifier::opaque]
pub open spec fn authorization_body(authorization: Option<AuthView>) -> Seq<u8> {
    match auth_after(authorization) {
        Some(a) => flag_bytes(true) + profile_body(a),
        None => flag_bytes(false),
    }
}

pub open spec fn authorization_ok(authorization: Option<AuthView>) -> bool {
    auth_after(authorization) matches Some(a) ==> identifier_ok(a.codec_id->0) && a.codec_version->0
        != 0
}

pub open spec fn authorization_fits(authorization: Option<AuthView>) -> bool {
    auth_after(authorization) matches Some(a) ==> text_fits(a.codec_id->0)
}

proof fn lemma_authorization(authorization: Option<AuthView>, rest: Seq<u8>)
    requires
        authorization_ok(authorization),
    ensures
        get_authorization(authorization_body(authorization) + rest, RECOVERY_VERSION) == Ok::<
            (Option<AuthView>, Seq<u8>),
            Error,
        >((auth_after(authorization), rest)),
        authorization_fits(authorization),
{
    reveal(get_authorization);
    reveal(authorization_body);
    match auth_after(authorization) {
        None => {
            lemma_get_flag(false, rest);
        },
        Some(x) => {
            reveal(get_profile);
            reveal(get_codec);
            let a = be32(x.credential_version);
            let b = be64(x.auth_generation);
            let c = flag_bytes(x.permissions.publish);
            let d = flag_bytes(x.permissions.commands);
            let e = name_bytes(x.codec_id->0);
            let f = be16(x.codec_version->0);
            lemma_join(flag_bytes(true), profile_body(x), rest);
            lemma_get_flag(true, profile_body(x) + rest);
            lemma_join(a, b + (c + (d + (e + f))), rest);
            lemma_join(b, c + (d + (e + f)), rest);
            lemma_join(c, d + (e + f), rest);
            lemma_join(d, e + f, rest);
            lemma_join(e, f, rest);
            lemma_get_u32(x.credential_version, b + (c + (d + (e + (f + rest)))));
            lemma_get_u64(x.auth_generation, c + (d + (e + (f + rest))));
            lemma_get_flag(x.permissions.publish, d + (e + (f + rest)));
            lemma_get_flag(x.permissions.commands, e + (f + rest));
            lemma_identifier(x.codec_id->0, f + rest);
            lemma_get_u16(x.codec_version->0, rest);
        },
    }
}

/// The protocol version of a session and when it ends, since they are recorded.
#[verifier::opaque]
pub open spec fn get_lifetime(s: Seq<u8>, version: u32) -> Parsed<(MqttVersion, u32, Option<i64>)> {
    if version >= RECOVERY_VERSION_V4 {
        match get_u8(s) {
            Err(error) => Err(error),
            Ok((protocol, s)) => if protocol != 4 && protocol != 5 {
                Err(Error::Invalid)
            } else {
                match get_u32(s) {
                    Err(error) => Err(error),
                    Ok((interval, s)) => match get_i64(s) {
                        Err(error) => Err(error),
                        Ok((expiry, s)) => Ok(
                            (
                                (
                                    if protocol == 4 {
                                        MqttVersion::V311
                                    } else {
                                        MqttVersion::V5
                                    },
                                    interval,
                                    if expiry == -1 {
                                        None
                                    } else {
                                        Some(expiry)
                                    },
                                ),
                                s,
                            ),
                        ),
                    },
                }
            },
        }
    } else {
        Ok(((MqttVersion::V311, 0, None), s))
    }
}

#[verifier::opaque]
pub open spec fn get_progress(s: Seq<u8>) -> Parsed<(u16, i64)> {
    match get_u16(s) {
        Err(error) => Err(error),
        Ok((next, s)) => if next == 0 {
            Err(Error::Invalid)
        } else {
            match get_i64(s) {
                Err(error) => Err(error),
                Ok((last_seen, s)) => Ok(((next, last_seen), s)),
            }
        },
    }
}

#[verifier::opaque]
pub open spec fn get_session(s: Seq<u8>, limits: Limits, version: u32) -> Parsed<SessionView> {
    match get_device(s) {
        Err(error) => Err(error),
        Ok((device, s)) => match get_name(s, limits.max_client_id_bytes as nat) {
            Err(error) => Err(error),
            Ok((client_id, s)) => match get_u64(s) {
                Err(error) => Err(error),
                Ok((incarnation, s)) => if incarnation == 0 {
                    Err(Error::Invalid)
                } else {
                    match get_authorization(s, version) {
                        Err(error) => Err(error),
                        Ok((authorization, s)) => match get_progress(s) {
                            Err(error) => Err(error),
                            Ok(((next_packet_id, last_seen_ms), s)) => match get_lifetime(
                                s,
                                version,
                            ) {
                                Err(error) => Err(error),
                                Ok(((protocol, interval, expires), s)) => Ok(
                                    (
                                        SessionView {
                                            key: KeyView { device, client_id },
                                            version: protocol,
                                            session_expiry_interval: interval,
                                            expires_at_ms: expires,
                                            incarnation,
                                            authorization,
                                            subscriptions: Seq::empty(),
                                            offline: Seq::empty(),
                                            inbound: Seq::empty(),
                                            outbound: Seq::empty(),
                                            next_packet_id,
                                            last_seen_ms,
                                            active_generation: None,
                                            send_quota: u16::MAX,
                                            inbound_window: Set::empty(),
                                        },
                                        s,
                                    ),
                                ),
                            },
                        },
                    }
                },
            },
        },
    }
}

pub open spec fn lifetime_body(s: SessionView) -> Seq<u8> {
    seq![if s.version == MqttVersion::V311 { 4u8 } else { 5u8 }] + (be32(
        s.session_expiry_interval,
    ) + be64(bits_of(expiry_number(s.expires_at_ms))))
}

pub open spec fn progress_body(s: SessionView) -> Seq<u8> {
    be16(s.next_packet_id) + be64(bits_of(s.last_seen_ms))
}

#[verifier::opaque]
pub open spec fn session_body(s: SessionView) -> Seq<u8> {
    device_body(s.key.device) + (name_bytes(s.key.client_id) + (be64(s.incarnation) + (
    authorization_body(s.authorization) + (progress_body(s) + lifetime_body(s)))))
}

pub open spec fn session_fits(s: SessionView) -> bool {
    &&& device_fits(s.key.device)
    &&& text_fits(s.key.client_id)
    &&& authorization_fits(s.authorization)
}

/// A client identifier that a record gives back.
pub open spec fn client_ok(client_id: Seq<char>, limits: Limits) -> bool {
    0 < text_bytes(client_id) <= limits.max_client_id_bytes
}

/// The session itself is one that a record gives back.
pub open spec fn session_meta_kept(s: SessionView, limits: Limits) -> bool {
    &&& device_ok(s.key.device)
    &&& client_ok(s.key.client_id, limits)
    &&& s.incarnation != 0
    &&& authorization_ok(s.authorization)
    &&& s.next_packet_id != 0
    &&& s.expires_at_ms != Some(-1i64)
}

proof fn lemma_lifetime(s: SessionView, rest: Seq<u8>)
    requires
        s.expires_at_ms != Some(-1i64),
    ensures
        get_lifetime(lifetime_body(s) + rest, RECOVERY_VERSION) == Ok::<
            ((MqttVersion, u32, Option<i64>), Seq<u8>),
            Error,
        >(((s.version, s.session_expiry_interval, s.expires_at_ms), rest)),
{
    reveal(get_lifetime);
    let protocol = if s.version == MqttVersion::V311 {
        4u8
    } else {
        5u8
    };
    let b = be32(s.session_expiry_interval);
    let c = be64(bits_of(expiry_number(s.expires_at_ms)));
    lemma_join(seq![protocol], b + c, rest);
    lemma_join(b, c, rest);
    lemma_get_u8(protocol, b + (c + rest));
    lemma_get_u32(s.session_expiry_interval, c + rest);
    lemma_get_i64(expiry_number(s.expires_at_ms), rest);
}

proof fn lemma_progress(s: SessionView, rest: Seq<u8>)
    requires
        s.next_packet_id != 0,
    ensures
        get_progress(progress_body(s) + rest) == Ok::<((u16, i64), Seq<u8>), Error>(
            ((s.next_packet_id, s.last_seen_ms), rest),
        ),
{
    reveal(get_progress);
    let a = be16(s.next_packet_id);
    let b = be64(bits_of(s.last_seen_ms));
    lemma_join(a, b, rest);
    lemma_get_u16(s.next_packet_id, b + rest);
    lemma_get_i64(s.last_seen_ms, rest);
}

pub proof fn lemma_session(s: SessionView, limits: Limits)
    requires
        session_meta_kept(s, limits),
        text_fits(s.key.client_id),
    ensures
        finished(get_session(session_body(s), limits, RECOVERY_VERSION)) == Ok::<SessionView, Error>(
            emptied_session(s),
        ),
{
    reveal(get_session);
    reveal(session_body);
    let a = device_body(s.key.device);
    let b = name_bytes(s.key.client_id);
    let c = be64(s.incarnation);
    let d = authorization_body(s.authorization);
    let e = progress_body(s);
    let f = lifetime_body(s);
    let none = Seq::<u8>::empty();
    assert(f + none =~= f);
    lemma_device(s.key.device, b + (c + (d + (e + f))));
    lemma_get_name(s.key.client_id, c + (d + (e + f)), limits.max_client_id_bytes as nat);
    lemma_get_u64(s.incarnation, d + (e + f));
    lemma_authorization(s.authorization, e + f);
    lemma_progress(s, f);
    lemma_lifetime(s, none);
    assert(KeyView { device: s.key.device, client_id: s.key.client_id } == s.key);
}

/// The options of a subscription as one byte.
pub open spec fn options_byte(sub: Subscription) -> u8 {
    ((if sub.no_local {
        4int
    } else {
        0
    }) + (if sub.retain_as_published {
        8int
    } else {
        0
    }) + (sub.retain_handling % 16) * 16) as u8
}

/// The subscription that an options byte stands for; its lowest and highest two bits are unused.
pub open spec fn options_of(qos: u8, options: u8) -> Option<Subscription> {
    if options % 4 != 0 || options >= 64 || options / 16 > 2 {
        None
    } else {
        Some(
            Subscription {
                qos,
                no_local: (options / 4) % 2 == 1,
                retain_as_published: (options / 8) % 2 == 1,
                retain_handling: options / 16,
            },
        )
    }
}

#[verifier::opaque]
pub open spec fn get_options(s: Seq<u8>, version: u32) -> Parsed<u8> {
    if version >= RECOVERY_VERSION_V4 {
        get_u8(s)
    } else {
        Ok((0u8, s))
    }
}

#[verifier::opaque]
pub open spec fn get_subscription(s: Seq<u8>, limits: Limits, version: u32) -> Parsed<
    (Seq<char>, u8, u8),
> {
    match get_name(s, limits.max_topic_bytes as nat) {
        Err(error) => Err(error),
        Ok((filter, s)) => match get_u8(s) {
            Err(error) => Err(error),
            Ok((qos, s)) => match get_options(s, version) {
                Err(error) => Err(error),
                Ok((options, s)) => Ok(((filter, qos, options), s)),
            },
        },
    }
}

#[verifier::opaque]
pub open spec fn read_subscription(payload: Seq<u8>, limits: Limits, version: u32) -> Result<
    (Seq<char>, Subscription),
    Error,
> {
    match finished(get_subscription(payload, limits, version)) {
        Err(error) => Err(error),
        Ok((filter, qos, options)) => if qos > 2 || !topic_valid(filter, limits, true) {
            Err(Error::Invalid)
        } else {
            match options_of(qos, options) {
                Some(sub) => Ok((filter, sub)),
                None => Err(Error::Invalid),
            }
        },
    }
}

pub open spec fn subscription_body(filter: Seq<char>, sub: Subscription) -> Seq<u8> {
    name_bytes(filter) + (seq![sub.qos] + seq![options_byte(sub)])
}

pub open spec fn subscription_kept(filter: Seq<char>, sub: Subscription, limits: Limits) -> bool {
    &&& 0 < text_bytes(filter) <= limits.max_topic_bytes
    &&& topic_valid(filter, limits, true)
    &&& sub.qos <= 2
    &&& sub.retain_handling <= 2
}

pub proof fn lemma_subscription(filter: Seq<char>, sub: Subscription, limits: Limits)
    requires
        subscription_kept(filter, sub, limits),
        text_fits(filter),
    ensures
        read_subscription(subscription_body(filter, sub), limits, RECOVERY_VERSION) == Ok::<
            (Seq<char>, Subscription),
            Error,
        >((filter, sub)),
{
    reveal(read_subscription);
    reveal(get_subscription);
    reveal(get_options);
    let none = Seq::<u8>::empty();
    let c = seq![options_byte(sub)];
    assert(c + none =~= c);
    lemma_get_name(filter, seq![sub.qos] + c, limits.max_topic_bytes as nat);
    lemma_get_u8(sub.qos, c);
    lemma_get_u8(options_byte(sub), none);
}

#[verifier::opaque]
pub open spec fn read_offline(payload: Seq<u8>, limits: Limits, version: u32) -> Result<
    MessageView,
    Error,
> {
    match finished(get_message(payload, limits, version)) {
        Err(error) => Err(error),
        Ok(message) => if message.qos == 1 || message.qos == 2 {
            Ok(message)
        } else {
            Err(Error::Invalid)
        },
    }
}

pub proof fn lemma_offline(message: MessageView, limits: Limits)
    requires
        message_fits(message),
        message_kept(message, limits),
        message.qos == 1 || message.qos == 2,
    ensures
        read_offline(message_body(message), limits, RECOVERY_VERSION) == Ok::<MessageView, Error>(
            message,
        ),
{
    reveal(read_offline);
    let none = Seq::<u8>::empty();
    assert(message_body(message) + none =~= message_body(message));
    law_message_round_trip(message, none, limits, RECOVERY_VERSION);
}

#[verifier::opaque]
pub open spec fn get_inbound(s: Seq<u8>, limits: Limits, version: u32) -> Parsed<
    (u16, u8, MessageView),
> {
    match get_u16(s) {
        Err(error) => Err(error),
        Ok((id, s)) => match get_u8(s) {
            Err(error) => Err(error),
            Ok((stage, s)) => match get_message(s, limits, version) {
                Err(error) => Err(error),
                Ok((message, s)) => Ok(((id, stage, message), s)),
            },
        },
    }
}

#[verifier::opaque]
pub open spec fn read_inbound(payload: Seq<u8>, limits: Limits, version: u32) -> Result<
    InboundView,
    Error,
> {
    match finished(get_inbound(payload, limits, version)) {
        Err(error) => Err(error),
        Ok((packet_id, stage, message)) => if packet_id == 0 || message.qos != 2 || stage > 1 {
            Err(Error::Invalid)
        } else {
            Ok(
                InboundView {
                    packet_id,
                    stage: if stage == 0 {
                        InboundStage::AwaitPubrel
                    } else {
                        InboundStage::EventAccepted
                    },
                    message,
                    operation_id: None,
                    reservation: no_reservation(),
                },
            )
        },
    }
}

/// An interrupted delivery is recorded as one that has not begun.
pub open spec fn inbound_stage_byte(stage: InboundStage) -> u8 {
    match stage {
        InboundStage::EventAccepted => 1,
        _ => 0,
    }
}

pub open spec fn inbound_body(e: InboundView) -> Seq<u8> {
    be16(e.packet_id) + (seq![inbound_stage_byte(e.stage)] + message_body(e.message))
}

pub open spec fn inbound_kept(e: InboundView, limits: Limits) -> bool {
    e.packet_id != 0 && e.message.qos == 2 && message_kept(e.message, limits)
}

pub proof fn lemma_inbound(e: InboundView, limits: Limits)
    requires
        inbound_kept(e, limits),
        message_fits(e.message),
    ensures
        read_inbound(inbound_body(e), limits, RECOVERY_VERSION) == Ok::<InboundView, Error>(
            inbound_after(e),
        ),
{
    reveal(read_inbound);
    reveal(get_inbound);
    let none = Seq::<u8>::empty();
    let b = seq![inbound_stage_byte(e.stage)];
    let c = message_body(e.message);
    assert(c + none =~= c);
    lemma_get_u16(e.packet_id, b + c);
    lemma_get_u8(inbound_stage_byte(e.stage), c);
    law_message_round_trip(e.message, none, limits, RECOVERY_VERSION);
}

/// Whether the first transfer had begun. Formats that do not say are taken to mean yes.
#[verifier::opaque]
pub open spec fn get_started(s: Seq<u8>, version: u32) -> Parsed<bool> {
    if version >= RECOVERY_VERSION_V5 {
        get_flag(s)
    } else {
        Ok((true, s))
    }
}

#[verifier::opaque]
pub open spec fn get_outbound(s: Seq<u8>, limits: Limits, version: u32) -> Parsed<
    (u16, u8, bool, MessageView),
> {
    match get_u16(s) {
        Err(error) => Err(error),
        Ok((id, s)) => match get_u8(s) {
            Err(error) => Err(error),
            Ok((stage, s)) => match get_started(s, version) {
                Err(error) => Err(error),
                Ok((started, s)) => match get_message(s, limits, version) {
                    Err(error) => Err(error),
                    Ok((message, s)) => Ok(((id, stage, started, message), s)),
                },
            },
        },
    }
}

pub open spec fn outbound_stage_of(stage: u8) -> Option<OutboundStage> {
    if stage == 0 {
        Some(OutboundStage::Puback)
    } else if stage == 1 {
        Some(OutboundStage::Pubrec)
    } else if stage == 2 {
        Some(OutboundStage::Pubcomp)
    } else {
        None
    }
}

pub open spec fn outbound_stage_byte(stage: OutboundStage) -> u8 {
    match stage {
        OutboundStage::Puback => 0,
        OutboundStage::Pubrec => 1,
        OutboundStage::Pubcomp => 2,
    }
}

/// The quality of service that a stage belongs to.
pub open spec fn stage_qos(stage: OutboundStage) -> u8 {
    if stage == OutboundStage::Puback {
        1
    } else {
        2
    }
}

#[verifier::opaque]
pub open spec fn read_outbound(payload: Seq<u8>, limits: Limits, version: u32) -> Result<
    OutboundView,
    Error,
> {
    match finished(get_outbound(payload, limits, version)) {
        Err(error) => Err(error),
        Ok((packet_id, stage, started, message)) => match outbound_stage_of(stage) {
            None => Err(Error::Invalid),
            Some(stage) => if packet_id == 0 || message.qos != stage_qos(stage) {
                Err(Error::Invalid)
            } else {
                Ok(
                    OutboundView {
                        packet_id,
                        stage,
                        message,
                        command: false,
                        sent: false,
                        windowed: false,
                        started,
                    },
                )
            },
        },
    }
}

pub open spec fn outbound_body(e: OutboundView) -> Seq<u8> {
    be16(e.packet_id) + (seq![outbound_stage_byte(e.stage)] + (flag_bytes(e.started)
        + message_body(e.message)))
}

pub open spec fn outbound_kept(e: OutboundView, limits: Limits) -> bool {
    e.packet_id != 0 && e.message.qos == stage_qos(e.stage) && message_kept(e.message, limits)
}

pub proof fn lemma_outbound(e: OutboundView, limits: Limits)
    requires
        outbound_kept(e, limits),
        message_fits(e.message),
    ensures
        read_outbound(outbound_body(e), limits, RECOVERY_VERSION) == Ok::<OutboundView, Error>(
            outbound_after(e),
        ),
{
    reveal(read_outbound);
    reveal(get_outbound);
    reveal(get_started);
    let none = Seq::<u8>::empty();
    let b = seq![outbound_stage_byte(e.stage)];
    let c = flag_bytes(e.started);
    let d = message_body(e.message);
    assert(d + none =~= d);
    lemma_get_u16(e.packet_id, b + (c + d));
    lemma_get_u8(outbound_stage_byte(e.stage), c + d);
    lemma_get_flag(e.started, d);
    law_message_round_trip(e.message, none, limits, RECOVERY_VERSION);
}

/// When a will is due and which session's return cancels it.
#[verifier::opaque]
pub open spec fn get_resume(s: Seq<u8>, limits: Limits, owner: DeviceView) -> Parsed<
    Option<(KeyView, u64, i64)>,
> {
    match get_flag(s) {
        Err(error) => Err(error),
        Ok((false, s)) => Ok((None, s)),
        Ok((true, s)) => match get_name(s, limits.max_client_id_bytes as nat) {
            Err(error) => Err(error),
            Ok((client_id, s)) => match get_u64(s) {
                Err(error) => Err(error),
                Ok((incarnation, s)) => match get_i64(s) {
                    Err(error) => Err(error),
                    Ok((due, s)) => if incarnation == 0 || due < 0 {
                        Err(Error::Invalid)
                    } else {
                        Ok((Some((KeyView { device: owner, client_id }, incarnation, due)), s))
                    },
                },
            },
        },
    }
}

#[verifier::opaque]
pub open spec fn get_interval(s: Seq<u8>) -> Parsed<Option<u32>> {
    match get_flag(s) {
        Err(error) => Err(error),
        Ok((false, s)) => Ok((None, s)),
        Ok((true, s)) => match get_u32(s) {
            Err(error) => Err(error),
            Ok((interval, s)) => Ok((Some(interval), s)),
        },
    }
}

#[verifier::opaque]
pub open spec fn get_client(s: Seq<u8>, limits: Limits, device: DeviceView) -> Parsed<
    Option<KeyView>,
> {
    match get_flag(s) {
        Err(error) => Err(error),
        Ok((false, s)) => Ok((None, s)),
        Ok((true, s)) => match get_name(s, limits.max_client_id_bytes as nat) {
            Err(error) => Err(error),
            Ok((client_id, s)) => Ok((Some(KeyView { device, client_id }), s)),
        },
    }
}

/// The fields of a will that came with delays.
#[verifier::opaque]
pub open spec fn get_delay(s: Seq<u8>, limits: Limits, version: u32, owner: DeviceView) -> Parsed<
    (Option<(KeyView, u64, i64)>, Option<u32>),
> {
    if version >= RECOVERY_VERSION_V4 {
        match get_resume(s, limits, owner) {
            Err(error) => Err(error),
            Ok((resume, s)) => match get_interval(s) {
                Err(error) => Err(error),
                Ok((interval, s)) => Ok(((resume, interval), s)),
            },
        }
    } else {
        Ok(((None, None), s))
    }
}

pub open spec fn resume_key(resume: Option<(KeyView, u64, i64)>) -> Option<KeyView> {
    match resume {
        Some((key, incarnation, due)) => Some(key),
        None => None,
    }
}

/// The session that a will came from. Where it is not recorded it is the one that cancels it.
#[verifier::opaque]
pub open spec fn get_origin(
    s: Seq<u8>,
    limits: Limits,
    version: u32,
    owner: DeviceView,
    resume: Option<(KeyView, u64, i64)>,
) -> Parsed<Option<KeyView>> {
    if version >= RECOVERY_VERSION {
        get_client(s, limits, owner)
    } else {
        Ok((resume_key(resume), s))
    }
}

#[verifier::opaque]
pub open spec fn get_will(s: Seq<u8>, limits: Limits, version: u32) -> Parsed<WillView> {
    match get_device(s) {
        Err(error) => Err(error),
        Ok((owner, s)) => match get_message(s, limits, version) {
            Err(error) => Err(error),
            Ok((message, s)) => match get_delay(s, limits, version, owner) {
                Err(error) => Err(error),
                Ok(((resume, message_expiry_interval), s)) => match get_origin(
                    s,
                    limits,
                    version,
                    owner,
                    resume,
                ) {
                    Err(error) => Err(error),
                    Ok((origin, s)) => Ok(
                        (
                            WillView {
                                owner,
                                origin,
                                message,
                                due_at_ms: match resume {
                                    Some((key, incarnation, due)) => Some(due),
                                    None => None,
                                },
                                cancel_on_resume: match resume {
                                    Some((key, incarnation, due)) => Some((key, incarnation)),
                                    None => None,
                                },
                                message_expiry_interval,
                                reservation: no_reservation(),
                                counted: true,
                            },
                            s,
                        ),
                    ),
                },
            },
        },
    }
}

#[verifier::opaque]
pub open spec fn read_will(payload: Seq<u8>, limits: Limits, version: u32) -> Result<
    WillView,
    Error,
> {
    match finished(get_will(payload, limits, version)) {
        Err(error) => Err(error),
        Ok(will) => if will.message.payload.len() > limits.max_will_payload_bytes {
            Err(Error::Invalid)
        } else {
            Ok(will)
        },
    }
}

pub open spec fn resume_body(w: WillView) -> Seq<u8> {
    match w.cancel_on_resume {
        Some((key, incarnation)) => flag_bytes(true) + (name_bytes(key.client_id) + (be64(
            incarnation,
        ) + be64(bits_of(w.due_at_ms->0)))),
        None => flag_bytes(false),
    }
}

pub open spec fn interval_body(interval: Option<u32>) -> Seq<u8> {
    match interval {
        Some(value) => flag_bytes(true) + be32(value),
        None => flag_bytes(false),
    }
}

pub open spec fn client_body(origin: Option<KeyView>) -> Seq<u8> {
    match origin {
        Some(key) => flag_bytes(true) + name_bytes(key.client_id),
        None => flag_bytes(false),
    }
}

#[verifier::opaque]
pub open spec fn will_body(w: WillView) -> Seq<u8> {
    device_body(w.owner) + (message_body(w.message) + (resume_body(w) + (interval_body(
        w.message_expiry_interval,
    ) + client_body(w.origin))))
}

/// Whether and why a will cannot be written.
#[verifier::opaque]
pub open spec fn will_fault(w: WillView) -> Option<Error> {
    if !device_fits(w.owner) || !message_fits(w.message) {
        Some(Error::Overloaded)
    } else if w.cancel_on_resume matches Some((key, incarnation)) && !text_fits(key.client_id) {
        Some(Error::Overloaded)
    } else if w.cancel_on_resume is Some && w.due_at_ms is None {
        Some(Error::Invalid)
    } else if w.origin matches Some(key) && !text_fits(key.client_id) {
        Some(Error::Overloaded)
    } else {
        None
    }
}

#[verifier::opaque]
pub open spec fn will_kept(w: WillView, limits: Limits) -> bool {
    &&& device_ok(w.owner)
    &&& message_kept(w.message, limits)
    &&& w.message.payload.len() <= limits.max_will_payload_bytes
    &&& w.due_at_ms is Some <==> w.cancel_on_resume is Some
    &&& w.due_at_ms matches Some(due) ==> due >= 0
    &&& w.cancel_on_resume matches Some((key, incarnation)) ==> key.device == w.owner && client_ok(
        key.client_id,
        limits,
    ) && incarnation != 0
    &&& w.origin matches Some(key) ==> key.device == w.owner && client_ok(key.client_id, limits)
}

pub open spec fn resume_of(w: WillView) -> Option<(KeyView, u64, i64)> {
    match w.cancel_on_resume {
        Some((key, incarnation)) => Some((key, incarnation, w.due_at_ms->0)),
        None => None,
    }
}

proof fn lemma_resume(w: WillView, rest: Seq<u8>, limits: Limits)
    requires
        will_kept(w, limits),
        will_fault(w) is None,
    ensures
        get_resume(resume_body(w) + rest, limits, w.owner) == Ok::<
            (Option<(KeyView, u64, i64)>, Seq<u8>),
            Error,
        >((resume_of(w), rest)),
{
    reveal(will_kept);
    reveal(will_fault);
    reveal(get_resume);
    match w.cancel_on_resume {
        None => {
            lemma_get_flag(false, rest);
        },
        Some((key, incarnation)) => {
            let a = flag_bytes(true);
            let b = name_bytes(key.client_id);
            let c = be64(incarnation);
            let d = be64(bits_of(w.due_at_ms->0));
            lemma_join(a, b + (c + d), rest);
            lemma_join(b, c + d, rest);
            lemma_join(c, d, rest);
            lemma_get_flag(true, b + (c + (d + rest)));
            lemma_get_name(key.client_id, c + (d + rest), limits.max_client_id_bytes as nat);
            lemma_get_u64(incarnation, d + rest);
            lemma_get_i64(w.due_at_ms->0, rest);
            assert(KeyView { device: w.owner, client_id: key.client_id } == key);
        },
    }
}

proof fn lemma_interval(interval: Option<u32>, rest: Seq<u8>)
    ensures
        get_interval(interval_body(interval) + rest) == Ok::<(Option<u32>, Seq<u8>), Error>(
            (interval, rest),
        ),
{
    reveal(get_interval);
    match interval {
        None => {
            lemma_get_flag(false, rest);
        },
        Some(value) => {
            lemma_join(flag_bytes(true), be32(value), rest);
            lemma_get_flag(true, be32(value) + rest);
            lemma_get_u32(value, rest);
        },
    }
}

proof fn lemma_client(origin: Option<KeyView>, device: DeviceView, rest: Seq<u8>, limits: Limits)
    requires
        origin matches Some(key) ==> key.device == device && client_ok(key.client_id, limits)
            && text_fits(key.client_id),
    ensures
        get_client(client_body(origin) + rest, limits, device) == Ok::<
            (Option<KeyView>, Seq<u8>),
            Error,
        >((origin, rest)),
{
    reveal(get_client);
    match origin {
        None => {
            lemma_get_flag(false, rest);
        },
        Some(key) => {
            lemma_join(flag_bytes(true), name_bytes(key.client_id), rest);
            lemma_get_flag(true, name_bytes(key.client_id) + rest);
            lemma_get_name(key.client_id, rest, limits.max_client_id_bytes as nat);
            assert(KeyView { device, client_id: key.client_id } == key);
        },
    }
}

pub proof fn lemma_will(w: WillView, limits: Limits)
    requires
        will_kept(w, limits),
        will_fault(w) is None,
    ensures
        read_will(will_body(w), limits, RECOVERY_VERSION) == Ok::<WillView, Error>(will_after(w)),
{
    let a = device_body(w.owner);
    let b = message_body(w.message);
    let c = resume_body(w);
    let d = interval_body(w.message_expiry_interval);
    let e = client_body(w.origin);
    let none = Seq::<u8>::empty();
    assert(e + none =~= e);
    lemma_resume(w, d + e, limits);
    lemma_interval(w.message_expiry_interval, e);
    reveal(will_kept);
    reveal(will_fault);
    lemma_client(w.origin, w.owner, none, limits);
    lemma_device(w.owner, b + (c + (d + e)));
    law_message_round_trip(w.message, c + (d + e), limits, RECOVERY_VERSION);
    reveal(read_will);
    reveal(get_will);
    reveal(get_delay);
    reveal(get_origin);
    reveal(will_body);
    assert(get_will(will_body(w), limits, RECOVERY_VERSION) == Ok::<(WillView, Seq<u8>), Error>(
        (will_after(w), none),
    ));
}

/// The session that a retained message came from.
#[verifier::opaque]
pub open spec fn get_publisher(s: Seq<u8>, limits: Limits, version: u32) -> Parsed<Option<KeyView>> {
    if version >= RECOVERY_VERSION_V4 {
        match get_flag(s) {
            Err(error) => Err(error),
            Ok((false, s)) => Ok((None, s)),
            Ok((true, s)) => match get_device(s) {
                Err(error) => Err(error),
                Ok((device, s)) => match get_name(s, limits.max_client_id_bytes as nat) {
                    Err(error) => Err(error),
                    Ok((client_id, s)) => Ok((Some(KeyView { device, client_id }), s)),
                },
            },
        }
    } else {
        Ok((None, s))
    }
}

#[verifier::opaque]
pub open spec fn get_retained(s: Seq<u8>, limits: Limits, version: u32) -> Parsed<RetainedView> {
    match get_identifier(s) {
        Err(error) => Err(error),
        Ok((tenant, s)) => match get_message(s, limits, version) {
            Err(error) => Err(error),
            Ok((message, s)) => match get_publisher(s, limits, version) {
                Err(error) => Err(error),
                Ok((origin, s)) => Ok((RetainedView { tenant, message, origin }, s)),
            },
        },
    }
}

#[verifier::opaque]
pub open spec fn read_retained(payload: Seq<u8>, limits: Limits, version: u32) -> Result<
    RetainedView,
    Error,
> {
    match finished(get_retained(payload, limits, version)) {
        Err(error) => Err(error),
        Ok(retained) => if !retained.message.retain || retained.message.payload.len() == 0 {
            Err(Error::Invalid)
        } else {
            Ok(retained)
        },
    }
}

pub open spec fn publisher_body(origin: Option<KeyView>) -> Seq<u8> {
    match origin {
        Some(key) => flag_bytes(true) + (device_body(key.device) + name_bytes(key.client_id)),
        None => flag_bytes(false),
    }
}

#[verifier::opaque]
pub open spec fn retained_body(r: RetainedView) -> Seq<u8> {
    name_bytes(r.tenant) + (message_body(r.message) + publisher_body(r.origin))
}

pub open spec fn retained_fits(r: RetainedView) -> bool {
    &&& text_fits(r.tenant)
    &&& message_fits(r.message)
    &&& r.origin matches Some(key) ==> device_fits(key.device) && text_fits(key.client_id)
}

#[verifier::opaque]
pub open spec fn retained_kept(r: RetainedView, limits: Limits) -> bool {
    &&& identifier_ok(r.tenant)
    &&& message_kept(r.message, limits)
    &&& r.message.retain
    &&& r.message.payload.len() > 0
    &&& r.origin matches Some(key) ==> device_ok(key.device) && client_ok(key.client_id, limits)
}

pub proof fn lemma_retained(r: RetainedView, limits: Limits)
    requires
        retained_kept(r, limits),
        retained_fits(r),
    ensures
        read_retained(retained_body(r), limits, RECOVERY_VERSION) == Ok::<RetainedView, Error>(r),
{
    reveal(retained_kept);
    reveal(retained_body);
    reveal(read_retained);
    reveal(get_retained);
    reveal(get_publisher);
    let a = name_bytes(r.tenant);
    let b = message_body(r.message);
    let c = publisher_body(r.origin);
    let none = Seq::<u8>::empty();
    assert(c + none =~= c);
    lemma_identifier(r.tenant, b + c);
    law_message_round_trip(r.message, c, limits, RECOVERY_VERSION);
    match r.origin {
        None => {
            lemma_get_flag(false, none);
        },
        Some(key) => {
            let d = device_body(key.device);
            let e = name_bytes(key.client_id);
            assert(e + none =~= e);
            lemma_get_flag(true, d + e);
            lemma_device(key.device, e);
            lemma_get_name(key.client_id, none, limits.max_client_id_bytes as nat);
            assert(KeyView { device: key.device, client_id: key.client_id } == key);
        },
    }
}

/// The image with its last session replaced.
pub open spec fn with_last(snapshot: SnapshotView, r: RecordedView) -> SnapshotView {
    SnapshotView {
        sessions: snapshot.sessions.update(snapshot.sessions.len() - 1, r),
        ..snapshot
    }
}

pub open spec fn topic_is(topic: Seq<char>) -> spec_fn((Seq<char>, RetainedView)) -> bool {
    |e: (Seq<char>, RetainedView)| e.0 == topic
}

#[verifier::opaque]
pub open spec fn add_subscription(
    snapshot: SnapshotView,
    limits: Limits,
    entry: (Seq<char>, Subscription),
) -> Result<SnapshotView, Error> {
    if snapshot.sessions.len() == 0 {
        Err(Error::Invalid)
    } else {
        let r = snapshot.sessions.last();
        let s = r.session;
        if s.subscriptions.len() >= limits.max_subscriptions_per_session {
            Err(Error::Overloaded)
        } else if sub_at(s, entry.0) is Some {
            Err(Error::Invalid)
        } else {
            Ok(
                with_last(
                    snapshot,
                    RecordedView {
                        session: SessionView { subscriptions: s.subscriptions.push(entry), ..s },
                        ..r
                    },
                ),
            )
        }
    }
}

#[verifier::opaque]
pub open spec fn add_offline(snapshot: SnapshotView, limits: Limits, message: MessageView) -> Result<
    SnapshotView,
    Error,
> {
    if snapshot.sessions.len() == 0 {
        Err(Error::Invalid)
    } else {
        let r = snapshot.sessions.last();
        let s = r.session;
        if s.offline.len() >= limits.max_offline_messages_per_session || r.offline_bytes
            + charge_of(message) > usize::MAX {
            Err(Error::Overloaded)
        } else {
            Ok(
                with_last(
                    snapshot,
                    RecordedView {
                        session: SessionView { offline: s.offline.push(message), ..s },
                        offline_bytes: r.offline_bytes + charge_of(message),
                    },
                ),
            )
        }
    }
}

#[verifier::opaque]
pub open spec fn add_inbound(snapshot: SnapshotView, limits: Limits, e: InboundView) -> Result<
    SnapshotView,
    Error,
> {
    if snapshot.sessions.len() == 0 {
        Err(Error::Invalid)
    } else {
        let r = snapshot.sessions.last();
        let s = r.session;
        if s.inbound.len() + count(s.outbound, is_qos2()) >= limits.max_inflight_qos2_per_session {
            Err(Error::Overloaded)
        } else if inbound_at(s, e.packet_id) is Some {
            Err(Error::Invalid)
        } else {
            Ok(
                with_last(
                    snapshot,
                    RecordedView {
                        session: SessionView { inbound: s.inbound.push(e), ..s },
                        ..r
                    },
                ),
            )
        }
    }
}

/// How many exchanges of a session belong to the same bound as this stage.
pub open spec fn same_bound(s: SessionView, stage: OutboundStage) -> nat {
    if stage == OutboundStage::Puback {
        count(s.outbound, is_puback())
    } else {
        count(s.outbound, is_qos2())
    }
}

pub open spec fn stage_bound(limits: Limits, stage: OutboundStage) -> usize {
    if stage == OutboundStage::Puback {
        limits.max_inflight_qos1_per_session
    } else {
        limits.max_inflight_qos2_per_session
    }
}

#[verifier::opaque]
pub open spec fn add_outbound(snapshot: SnapshotView, limits: Limits, e: OutboundView) -> Result<
    SnapshotView,
    Error,
> {
    if snapshot.sessions.len() == 0 {
        Err(Error::Invalid)
    } else {
        let r = snapshot.sessions.last();
        let s = r.session;
        if same_bound(s, e.stage) >= stage_bound(limits, e.stage) {
            Err(Error::Overloaded)
        } else if outbound_at(s, e.packet_id) is Some {
            Err(Error::Invalid)
        } else {
            Ok(
                with_last(
                    snapshot,
                    RecordedView {
                        session: SessionView { outbound: s.outbound.push(e), ..s },
                        ..r
                    },
                ),
            )
        }
    }
}

/// What a record adds to the image.
#[verifier::opaque]
pub open spec fn apply_record(
    snapshot: SnapshotView,
    limits: Limits,
    version: u32,
    kind: u8,
    payload: Seq<u8>,
) -> Result<SnapshotView, Error> {
    if kind == RECORD_SESSION {
        if snapshot.sessions.len() >= limits.max_persistent_sessions {
            Err(Error::Overloaded)
        } else {
            match finished(get_session(payload, limits, version)) {
                Err(error) => Err(error),
                Ok(session) => Ok(
                    SnapshotView {
                        sessions: snapshot.sessions.push(RecordedView { session, offline_bytes: 0 }),
                        ..snapshot
                    },
                ),
            }
        }
    } else if kind == RECORD_SUBSCRIPTION {
        match read_subscription(payload, limits, version) {
            Err(error) => Err(error),
            Ok(entry) => add_subscription(snapshot, limits, entry),
        }
    } else if kind == RECORD_OFFLINE {
        match read_offline(payload, limits, version) {
            Err(error) => Err(error),
            Ok(message) => add_offline(snapshot, limits, message),
        }
    } else if kind == RECORD_INBOUND_QOS2 {
        match read_inbound(payload, limits, version) {
            Err(error) => Err(error),
            Ok(entry) => add_inbound(snapshot, limits, entry),
        }
    } else if kind == RECORD_OUTBOUND {
        match read_outbound(payload, limits, version) {
            Err(error) => Err(error),
            Ok(entry) => add_outbound(snapshot, limits, entry),
        }
    } else if kind == RECORD_PENDING_WILL {
        if snapshot.wills.len() >= limits.max_connections {
            Err(Error::Overloaded)
        } else {
            match read_will(payload, limits, version) {
                Err(error) => Err(error),
                Ok(will) => Ok(SnapshotView { wills: snapshot.wills.push(will), ..snapshot }),
            }
        }
    } else if kind == RECORD_RETAINED {
        if snapshot.retained.len() >= limits.max_retained_messages {
            Err(Error::Overloaded)
        } else {
            match read_retained(payload, limits, version) {
                Err(error) => Err(error),
                Ok(retained) => if first(
                    snapshot.retained,
                    topic_is(retained.message.topic),
                ) is Some {
                    Err(Error::Invalid)
                } else {
                    Ok(
                        SnapshotView {
                            retained: snapshot.retained.push((retained.message.topic, retained)),
                            ..snapshot
                        },
                    )
                },
            }
        }
    } else {
        Err(Error::Invalid)
    }
}

} // verus!
