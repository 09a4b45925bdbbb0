//! Reading records into an image.
use super::fields::{reads, RecordReader};
use super::message::decode_message;
use super::record::{
    add_inbound, add_offline, add_outbound, add_subscription, apply_record, finished,
    get_authorization, get_client, get_codec, get_delay, get_device, get_identifier, get_inbound,
    get_interval, get_lifetime, get_options, get_origin, get_outbound, get_profile, get_progress,
    get_publisher, get_resume, get_retained, get_session, get_started, get_subscription, get_will,
    read_inbound, read_offline, read_outbound, read_retained, read_subscription, read_will,
    topic_is, with_last, RECORD_INBOUND_QOS2, RECORD_OFFLINE, RECORD_OUTBOUND, RECORD_PENDING_WILL,
    RECORD_RETAINED, RECORD_SESSION, RECORD_SUBSCRIPTION,
};
use super::snapshot::{
    recorded, MqttRecoverySnapshot, RecordedView, SnapshotView, RECOVERY_VERSION,
    RECOVERY_VERSION_V3, RECOVERY_VERSION_V4, RECOVERY_VERSION_V5,
};
use crate::broker::state::{PendingWill, RetainedMessage};
use crate::codec::common::valid_topic;
use crate::codec::MqttVersion;
use crate::error::Error;
use crate::identity::{
    CodecId, DeviceId, DeviceKey, KeyView, Permissions, ProductId, SessionKey, TenantId,
    MAX_IDENTIFIER_BYTES,
};
use crate::limits::Limits;
use crate::list::{first, is_first, lemma_first_is, lemma_first_none};
use crate::message::BrokerMessage;
use crate::session::{
    codec_view, inbound_views, message_views, outbound_views, sub_views, InboundEntry,
    InboundQos2State, OutboundEntry, OutboundStage, OutboundState, RetainedReservation,
    SessionAuthorization, SessionView, StoredSession, Subscription,
};
use crate::text::same_text;
use vstd::prelude::*;

verus! {

pub open spec fn viewed<T: View>(result: Result<T, Error>) -> Result<T::V, Error> {
    match result {
        Ok(value) => Ok(value@),
        Err(error) => Err(error),
    }
}

pub open spec fn viewed_option<T: View>(result: Result<Option<T>, Error>) -> Result<
    Option<T::V>,
    Error,
> {
    match result {
        Ok(Some(value)) => Ok(Some(value@)),
        Ok(None) => Ok(None),
        Err(error) => Err(error),
    }
}

fn decode_identifier(reader: &mut RecordReader<'_>) -> (result: Result<TenantId, Error>)
    requires
        old(reader).ok(),
    ensures
        reads(get_identifier(old(reader).rest()), viewed(result), *final(reader)),
{
    proof {
        reveal(get_identifier);
    }
    let text = reader.string(MAX_IDENTIFIER_BYTES)?;
    TenantId::new(text.as_str())
}

fn decode_device(reader: &mut RecordReader<'_>) -> (result: Result<DeviceKey, Error>)
    requires
        old(reader).ok(),
    ensures
        reads(get_device(old(reader).rest()), viewed(result), *final(reader)),
{
    proof {
        reveal(get_device);
        reveal(get_identifier);
    }
    let tenant = reader.string(MAX_IDENTIFIER_BYTES)?;
    let tenant_id = TenantId::new(tenant.as_str())?;
    let product = reader.string(MAX_IDENTIFIER_BYTES)?;
    let product_id = ProductId::new(product.as_str())?;
    let device = reader.string(MAX_IDENTIFIER_BYTES)?;
    let device_id = DeviceId::new(device.as_str())?;
    Ok(DeviceKey { tenant_id, product_id, device_id })
}

pub open spec fn codec_outcome(result: Result<(Option<CodecId>, Option<u16>), Error>) -> Result<
    (Option<Seq<char>>, Option<u16>),
    Error,
> {
    match result {
        Ok((codec, number)) => Ok((codec_view(codec), number)),
        Err(error) => Err(error),
    }
}

fn decode_codec(reader: &mut RecordReader<'_>, version: u32) -> (result: Result<
    (Option<CodecId>, Option<u16>),
    Error,
>)
    requires
        old(reader).ok(),
    ensures
        reads(get_codec(old(reader).rest(), version), codec_outcome(result), *final(reader)),
{
    proof {
        reveal(get_codec);
        reveal(get_identifier);
    }
    if version < RECOVERY_VERSION_V3 {
        return Ok((None, None));
    }
    let text = reader.string(MAX_IDENTIFIER_BYTES)?;
    let codec = CodecId::new(text.as_str())?;
    let number: u16 = reader.u16()?;
    if number == 0 {
        return Err(Error::Invalid);
    }
    Ok((Some(codec), Some(number)))
}

fn decode_authorization(reader: &mut RecordReader<'_>, version: u32) -> (result: Result<
    Option<SessionAuthorization>,
    Error,
>)
    requires
        old(reader).ok(),
    ensures
        reads(
            get_authorization(old(reader).rest(), version),
            viewed_option(result),
            *final(reader),
        ),
{
    proof {
        reveal(get_authorization);
        reveal(get_profile);
    }
    if !reader.flag()? {
        return Ok(None);
    }
    let credential_version: u32 = reader.u32()?;
    let auth_generation: u64 = reader.u64()?;
    let publish = reader.flag()?;
    let commands = reader.flag()?;
    let (codec_id, codec_version) = decode_codec(reader, version)?;
    Ok(
        Some(
            SessionAuthorization {
                credential_version,
                auth_generation,
                permissions: Permissions { publish, commands },
                codec_id,
                codec_version,
            },
        ),
    )
}

fn decode_lifetime(reader: &mut RecordReader<'_>, version: u32) -> (result: Result<
    (MqttVersion, u32, Option<i64>),
    Error,
>)
    requires
        old(reader).ok(),
    ensures
        reads(get_lifetime(old(reader).rest(), version), result, *final(reader)),
{
    proof {
        reveal(get_lifetime);
    }
    if version < RECOVERY_VERSION_V4 {
        return Ok((MqttVersion::V311, 0, None));
    }
    let protocol: u8 = reader.u8()?;
    let mqtt = if protocol == 4 {
        MqttVersion::V311
    } else if protocol == 5 {
        MqttVersion::V5
    } else {
        return Err(Error::Invalid);
    };
    let interval: u32 = reader.u32()?;
    let expiry: i64 = reader.i64()?;
    Ok(
        (
            mqtt,
            interval,
            if expiry == -1 {
                None
            } else {
                Some(expiry)
            },
        ),
    )
}

fn decode_progress(reader: &mut RecordReader<'_>) -> (result: Result<(u16, i64), Error>)
    requires
        old(reader).ok(),
    ensures
        reads(get_progress(old(reader).rest()), result, *final(reader)),
{
    proof {
        reveal(get_progress);
    }
    let next: u16 = reader.u16()?;
    if next == 0 {
        return Err(Error::Invalid);
    }
    let last_seen: i64 = reader.i64()?;
    Ok((next, last_seen))
}

fn decode_session(payload: &[u8], limits: &Limits, version: u32) -> (result: Result<
    StoredSession,
    Error,
>)
    ensures
        viewed(result) == finished(get_session(payload@, *limits, version)),
        result is Ok ==> result->Ok_0.offline_bytes == 0,
{
    proof {
        reveal(get_session);
    }
    let mut reader = RecordReader::new(payload);
    let device = decode_device(&mut reader)?;
    let client_id = reader.string(limits.max_client_id_bytes)?;
    let incarnation: u64 = reader.u64()?;
    if incarnation == 0 {
        return Err(Error::Invalid);
    }
    let authorization = decode_authorization(&mut reader, version)?;
    let (next_packet_id, last_seen_ms) = decode_progress(&mut reader)?;
    let (mqtt, session_expiry_interval, expires_at_ms) = decode_lifetime(&mut reader, version)?;
    reader.finish()?;
    let session = StoredSession {
        key: SessionKey { device, client_id },
        version: mqtt,
        session_expiry_interval,
        expires_at_ms,
        incarnation,
        authorization,
        subscriptions: Vec::new(),
        offline: Vec::new(),
        offline_bytes: 0,
        inbound_qos2: Vec::new(),
        outbound: Vec::new(),
        next_packet_id,
        state_bytes: 0,
        last_seen_ms,
        active_generation: None,
        send_quota: u16::MAX,
        inbound_window: Vec::new(),
    };
    proof {
        let s = session@;
        assert(sub_views(session.subscriptions@) =~= Seq::empty());
        assert(message_views(session.offline@) =~= Seq::empty());
        assert(inbound_views(session.inbound_qos2@) =~= Seq::empty());
        assert(outbound_views(session.outbound@) =~= Seq::empty());
        assert(session.inbound_window@.to_set() =~= Set::empty());
    }
    Ok(session)
}

pub open spec fn entry_outcome(result: Result<(String, Subscription), Error>) -> Result<
    (Seq<char>, Subscription),
    Error,
> {
    match result {
        Ok((filter, subscription)) => Ok((filter@, subscription)),
        Err(error) => Err(error),
    }
}

fn decode_subscription(payload: &[u8], limits: &Limits, version: u32) -> (result: Result<
    (String, Subscription),
    Error,
>)
    ensures
        entry_outcome(result) == read_subscription(payload@, *limits, version),
{
    proof {
        reveal(read_subscription);
        reveal(get_subscription);
        reveal(get_options);
    }
    let mut reader = RecordReader::new(payload);
    let filter = reader.string(limits.max_topic_bytes)?;
    let qos: u8 = reader.u8()?;
    let options: u8 = if version >= RECOVERY_VERSION_V4 {
        reader.u8()?
    } else {
        0
    };
    reader.finish()?;
    if qos > 2 || options % 4 != 0 || options >= 64 || options / 16 > 2 || !valid_topic(
        filter.as_str(),
        limits,
        true,
    ) {
        return Err(Error::Invalid);
    }
    Ok(
        (
            filter,
            Subscription {
                qos,
                no_local: (options / 4) % 2 == 1,
                retain_as_published: (options / 8) % 2 == 1,
                retain_handling: options / 16,
            },
        ),
    )
}

fn decode_offline(payload: &[u8], limits: &Limits, version: u32) -> (result: Result<
    BrokerMessage,
    Error,
>)
    ensures
        viewed(result) == read_offline(payload@, *limits, version),
{
    proof {
        reveal(read_offline);
    }
    let mut reader = RecordReader::new(payload);
    let message = decode_message(&mut reader, limits, version)?;
    reader.finish()?;
    if message.qos != 1 && message.qos != 2 {
        return Err(Error::Invalid);
    }
    Ok(message)
}

fn decode_inbound(payload: &[u8], limits: &Limits, version: u32) -> (result: Result<
    InboundEntry,
    Error,
>)
    ensures
        viewed(result) == read_inbound(payload@, *limits, version),
{
    proof {
        reveal(read_inbound);
        reveal(get_inbound);
    }
    let mut reader = RecordReader::new(payload);
    let packet_id: u16 = reader.u16()?;
    let stage: u8 = reader.u8()?;
    let message = decode_message(&mut reader, limits, version)?;
    reader.finish()?;
    if packet_id == 0 || message.qos != 2 || stage > 1 {
        return Err(Error::Invalid);
    }
    let state = if stage == 0 {
        InboundQos2State::AwaitPubrel(message)
    } else {
        InboundQos2State::EventAccepted(message)
    };
    Ok(
        InboundEntry {
            packet_id,
            state,
            operation_id: None,
            reservation: RetainedReservation::default(),
        },
    )
}

fn decode_outbound(payload: &[u8], limits: &Limits, version: u32) -> (result: Result<
    OutboundEntry,
    Error,
>)
    ensures
        viewed(result) == read_outbound(payload@, *limits, version),
{
    proof {
        reveal(read_outbound);
        reveal(get_outbound);
        reveal(get_started);
    }
    let mut reader = RecordReader::new(payload);
    let packet_id: u16 = reader.u16()?;
    let stage: u8 = reader.u8()?;
    let started = if version >= RECOVERY_VERSION_V5 {
        reader.flag()?
    } else {
        true
    };
    let message = decode_message(&mut reader, limits, version)?;
    reader.finish()?;
    let (stage, qos): (OutboundStage, u8) = if stage == 0 {
        (OutboundStage::Puback, 1)
    } else if stage == 1 {
        (OutboundStage::Pubrec, 2)
    } else if stage == 2 {
        (OutboundStage::Pubcomp, 2)
    } else {
        return Err(Error::Invalid);
    };
    if packet_id == 0 || message.qos != qos {
        return Err(Error::Invalid);
    }
    Ok(
        OutboundEntry {
            packet_id,
            state: OutboundState::of(stage, message),
            command: false,
            sent: false,
            windowed: false,
            started,
        },
    )
}

pub open spec fn resume_outcome(result: Result<Option<(SessionKey, u64, i64)>, Error>) -> Result<
    Option<(KeyView, u64, i64)>,
    Error,
> {
    match result {
        Ok(Some((key, incarnation, due))) => Ok(Some((key@, incarnation, due))),
        Ok(None) => Ok(None),
        Err(error) => Err(error),
    }
}

fn decode_resume(reader: &mut RecordReader<'_>, limits: &Limits, owner: &DeviceKey) -> (result: Result<
    Option<(SessionKey, u64, i64)>,
    Error,
>)
    requires
        old(reader).ok(),
    ensures
        reads(
            get_resume(old(reader).rest(), *limits, owner@),
            resume_outcome(result),
            *final(reader),
        ),
{
    proof {
        reveal(get_resume);
    }
    if !reader.flag()? {
        return Ok(None);
    }
    let client_id = reader.string(limits.max_client_id_bytes)?;
    let incarnation: u64 = reader.u64()?;
    let due: i64 = reader.i64()?;
    if incarnation == 0 || due < 0 {
        return Err(Error::Invalid);
    }
    Ok(Some((SessionKey { device: owner.clone(), client_id }, incarnation, due)))
}

fn decode_interval(reader: &mut RecordReader<'_>) -> (result: Result<Option<u32>, Error>)
    requires
        old(reader).ok(),
    ensures
        reads(get_interval(old(reader).rest()), result, *final(reader)),
{
    proof {
        reveal(get_interval);
    }
    if !reader.flag()? {
        return Ok(None);
    }
    let interval: u32 = reader.u32()?;
    Ok(Some(interval))
}

fn decode_client(reader: &mut RecordReader<'_>, limits: &Limits, device: &DeviceKey) -> (result: Result<
    Option<SessionKey>,
    Error,
>)
    requires
        old(reader).ok(),
    ensures
        reads(
            get_client(old(reader).rest(), *limits, device@),
            viewed_option(result),
            *final(reader),
        ),
{
    proof {
        reveal(get_client);
    }
    if !reader.flag()? {
        return Ok(None);
    }
    let client_id = reader.string(limits.max_client_id_bytes)?;
    Ok(Some(SessionKey { device: device.clone(), client_id }))
}

fn decode_will(payload: &[u8], limits: &Limits, version: u32) -> (result: Result<PendingWill, Error>)
    ensures
        viewed(result) == read_will(payload@, *limits, version),
{
    proof {
        reveal(read_will);
        reveal(get_will);
        reveal(get_delay);
        reveal(get_origin);
    }
    let mut reader = RecordReader::new(payload);
    let owner = decode_device(&mut reader)?;
    let message = decode_message(&mut reader, limits, version)?;
    let mut resume: Option<(SessionKey, u64, i64)> = None;
    let mut message_expiry_interval: Option<u32> = None;
    if version >= RECOVERY_VERSION_V4 {
        resume = decode_resume(&mut reader, limits, &owner)?;
        message_expiry_interval = decode_interval(&mut reader)?;
    }
    let origin = if version >= RECOVERY_VERSION {
        decode_client(&mut reader, limits, &owner)?
    } else {
        match &resume {
            Some(entry) => Some(entry.0.clone()),
            None => None,
        }
    };
    reader.finish()?;
    if message.payload.len() > limits.max_will_payload_bytes {
        return Err(Error::Invalid);
    }
    let (due_at_ms, cancel_on_resume) = match resume {
        Some((key, incarnation, due)) => (Some(due), Some((key, incarnation))),
        None => (None, None),
    };
    Ok(
        PendingWill {
            owner,
            origin,
            message,
            due_at_ms,
            cancel_on_resume,
            message_expiry_interval,
            retained_reservation: RetainedReservation::default(),
            counted: true,
        },
    )
}

fn decode_publisher(reader: &mut RecordReader<'_>, limits: &Limits, version: u32) -> (result: Result<
    Option<SessionKey>,
    Error,
>)
    requires
        old(reader).ok(),
    ensures
        reads(
            get_publisher(old(reader).rest(), *limits, version),
            viewed_option(result),
            *final(reader),
        ),
{
    proof {
        reveal(get_publisher);
    }
    if version < RECOVERY_VERSION_V4 {
        return Ok(None);
    }
    if !reader.flag()? {
        return Ok(None);
    }
    let device = decode_device(reader)?;
    let client_id = reader.string(limits.max_client_id_bytes)?;
    Ok(Some(SessionKey { device, client_id }))
}

fn decode_retained(payload: &[u8], limits: &Limits, version: u32) -> (result: Result<
    RetainedMessage,
    Error,
>)
    ensures
        viewed(result) == read_retained(payload@, *limits, version),
{
    proof {
        reveal(read_retained);
        reveal(get_retained);
    }
    let mut reader = RecordReader::new(payload);
    let tenant_id = decode_identifier(&mut reader)?;
    let message = decode_message(&mut reader, limits, version)?;
    let origin = decode_publisher(&mut reader, limits, version)?;
    reader.finish()?;
    if !message.retain || message.payload.len() == 0 {
        return Err(Error::Invalid);
    }
    Ok(RetainedMessage { tenant_id, message, origin })
}

/// The snapshot came to what the record adds, or the record was refused.
pub open spec fn applied(
    expected: Result<SnapshotView, Error>,
    result: Result<(), Error>,
    after: MqttRecoverySnapshot,
) -> bool {
    match (expected, result) {
        (Ok(snapshot), Ok(())) => after@ == snapshot,
        (Err(error), Err(got)) => got == error,
        _ => false,
    }
}

impl MqttRecoverySnapshot {
    fn put_subscription(&mut self, limits: &Limits, filter: String, subscription: Subscription) -> (result:
        Result<(), Error>)
        ensures
            applied(
                add_subscription(old(self)@, *limits, (filter@, subscription)),
                result,
                *final(self),
            ),
            result is Err ==> *final(self) == *old(self),
    {
        proof {
            reveal(add_subscription);
        }
        let length: usize = self.sessions.len();
        if length == 0 {
            return Err(Error::Invalid);
        }
        let last: usize = length - 1;
        let ghost before = self@;
        let ghost s = self.sessions@[last as int];
        let ghost entry = (filter@, subscription);
        assert(before.sessions.last() == recorded(s));
        assert(s@.subscriptions.len() == s.subscriptions@.len());
        if self.sessions[last].subscriptions.len() >= limits.max_subscriptions_per_session {
            return Err(Error::Overloaded);
        }
        if self.sessions[last].find_subscription(filter.as_str()).is_some() {
            return Err(Error::Invalid);
        }
        self.sessions[last].subscriptions.push((filter, subscription));
        proof {
            let t = self.sessions@[last as int];
            assert(t@.subscriptions =~= s@.subscriptions.push(entry));
            assert(t@ =~= (SessionView { subscriptions: s@.subscriptions.push(entry), ..s@ }));
            let r = RecordedView { session: t@, offline_bytes: s.offline_bytes as nat };
            assert(self@.sessions =~= before.sessions.update(last as int, r));
            assert(self@ =~= with_last(before, r));
        }
        Ok(())
    }

    fn put_offline(&mut self, limits: &Limits, message: BrokerMessage) -> (result: Result<(), Error>)
        ensures
            applied(add_offline(old(self)@, *limits, message@), result, *final(self)),
            result is Err ==> *final(self) == *old(self),
    {
        proof {
            reveal(add_offline);
        }
        let length: usize = self.sessions.len();
        if length == 0 {
            return Err(Error::Invalid);
        }
        let last: usize = length - 1;
        let ghost before = self@;
        let ghost s = self.sessions@[last as int];
        let ghost m = message@;
        assert(before.sessions.last() == recorded(s));
        assert(s@.offline.len() == s.offline@.len());
        if self.sessions[last].offline.len() >= limits.max_offline_messages_per_session {
            return Err(Error::Overloaded);
        }
        let bytes: usize = match self.sessions[last].offline_bytes.checked_add(message.bytes()) {
            Some(bytes) => bytes,
            None => return Err(Error::Overloaded),
        };
        self.sessions[last].offline_bytes = bytes;
        self.sessions[last].offline.push(message);
        proof {
            let t = self.sessions@[last as int];
            assert(t@.offline =~= s@.offline.push(m));
            assert(t@ =~= (SessionView { offline: s@.offline.push(m), ..s@ }));
            let r = RecordedView { session: t@, offline_bytes: bytes as nat };
            assert(self@.sessions =~= before.sessions.update(last as int, r));
            assert(self@ =~= with_last(before, r));
        }
        Ok(())
    }

    fn put_inbound(&mut self, limits: &Limits, entry: InboundEntry) -> (result: Result<(), Error>)
        ensures
            applied(add_inbound(old(self)@, *limits, entry@), result, *final(self)),
            result is Err ==> *final(self) == *old(self),
    {
        proof {
            reveal(add_inbound);
        }
        let length: usize = self.sessions.len();
        if length == 0 {
            return Err(Error::Invalid);
        }
        let last: usize = length - 1;
        let ghost before = self@;
        let ghost s = self.sessions@[last as int];
        let ghost e = entry@;
        assert(before.sessions.last() == recorded(s));
        assert(s@.inbound.len() == s.inbound_qos2@.len());
        let used: u128 = self.sessions[last].inbound_qos2.len() as u128
            + self.sessions[last].qos2_exchanges() as u128;
        if used >= limits.max_inflight_qos2_per_session as u128 {
            return Err(Error::Overloaded);
        }
        if self.sessions[last].find_inbound(entry.packet_id).is_some() {
            return Err(Error::Invalid);
        }
        self.sessions[last].inbound_qos2.push(entry);
        proof {
            let t = self.sessions@[last as int];
            assert(t@.inbound =~= s@.inbound.push(e));
            assert(t@ =~= (SessionView { inbound: s@.inbound.push(e), ..s@ }));
            let r = RecordedView { session: t@, offline_bytes: s.offline_bytes as nat };
            assert(self@.sessions =~= before.sessions.update(last as int, r));
            assert(self@ =~= with_last(before, r));
        }
        Ok(())
    }

    fn put_outbound(&mut self, limits: &Limits, entry: OutboundEntry) -> (result: Result<(), Error>)
        ensures
            applied(add_outbound(old(self)@, *limits, entry@), result, *final(self)),
            result is Err ==> *final(self) == *old(self),
    {
        proof {
            reveal(add_outbound);
        }
        let length: usize = self.sessions.len();
        if length == 0 {
            return Err(Error::Invalid);
        }
        let last: usize = length - 1;
        let ghost before = self@;
        let ghost s = self.sessions@[last as int];
        let ghost e = entry@;
        assert(before.sessions.last() == recorded(s));
        let (used, bound): (usize, usize) = if entry.state.stage() == OutboundStage::Puback {
            (self.sessions[last].qos1_exchanges(), limits.max_inflight_qos1_per_session)
        } else {
            (self.sessions[last].qos2_exchanges(), limits.max_inflight_qos2_per_session)
        };
        if used >= bound {
            return Err(Error::Overloaded);
        }
        if self.sessions[last].find_outbound(entry.packet_id).is_some() {
            return Err(Error::Invalid);
        }
        self.sessions[last].outbound.push(entry);
        proof {
            let t = self.sessions@[last as int];
            assert(t@.outbound =~= s@.outbound.push(e));
            assert(t@ =~= (SessionView { outbound: s@.outbound.push(e), ..s@ }));
            let r = RecordedView { session: t@, offline_bytes: s.offline_bytes as nat };
            assert(self@.sessions =~= before.sessions.update(last as int, r));
            assert(self@ =~= with_last(before, r));
        }
        Ok(())
    }

    fn holds_topic(&self, topic: &str) -> (held: bool)
        ensures
            held == (first(self@.retained, topic_is(topic@)) is Some),
    {
        let mut at: usize = 0;
        while at < self.retained.len()
            invariant
                at <= self.retained.len(),
                forall|j: int| 0 <= j < at ==> !topic_is(topic@)(#[trigger] self@.retained[j]),
            decreases self.retained.len() - at,
        {
            if same_text(self.retained[at].0.as_str(), topic) {
                proof {
                    assert(is_first(self@.retained, topic_is(topic@), at as int));
                    lemma_first_is(self@.retained, topic_is(topic@), at as int);
                }
                return true;
            }
            at = at + 1;
        }
        proof {
            lemma_first_none(self@.retained, topic_is(topic@));
        }
        false
    }

    /// Adds what a record holds.
    pub fn decode_record(&mut self, limits: &Limits, version: u32, kind: u8, payload: &[u8]) -> (result:
        Result<(), Error>)
        ensures
            applied(
                apply_record(old(self)@, *limits, version, kind, payload@),
                result,
                *final(self),
            ),
    {
        proof {
            reveal(apply_record);
        }
        let ghost before = self@;
        if kind == RECORD_SESSION {
            assert(before.sessions.len() == self.sessions@.len());
            if self.sessions.len() >= limits.max_persistent_sessions {
                return Err(Error::Overloaded);
            }
            let session = decode_session(payload, limits, version)?;
            let ghost r = RecordedView { session: session@, offline_bytes: 0 };
            self.sessions.push(session);
            assert(self@.sessions =~= before.sessions.push(r));
            assert(self@ =~= (SnapshotView { sessions: before.sessions.push(r), ..before }));
            Ok(())
        } else if kind == RECORD_SUBSCRIPTION {
            let (filter, subscription) = decode_subscription(payload, limits, version)?;
            self.put_subscription(limits, filter, subscription)
        } else if kind == RECORD_OFFLINE {
            let message = decode_offline(payload, limits, version)?;
            self.put_offline(limits, message)
        } else if kind == RECORD_INBOUND_QOS2 {
            let entry = decode_inbound(payload, limits, version)?;
            self.put_inbound(limits, entry)
        } else if kind == RECORD_OUTBOUND {
            let entry = decode_outbound(payload, limits, version)?;
            self.put_outbound(limits, entry)
        } else if kind == RECORD_PENDING_WILL {
            assert(before.wills.len() == self.pending_wills@.len());
            if self.pending_wills.len() >= limits.max_connections {
                return Err(Error::Overloaded);
            }
            let will = decode_will(payload, limits, version)?;
            let ghost w = will@;
            self.pending_wills.push(will);
            assert(self@.wills =~= before.wills.push(w));
            assert(self@ =~= (SnapshotView { wills: before.wills.push(w), ..before }));
            Ok(())
        } else if kind == RECORD_RETAINED {
            assert(before.retained.len() == self.retained@.len());
            if self.retained.len() >= limits.max_retained_messages {
                return Err(Error::Overloaded);
            }
            let retained = decode_retained(payload, limits, version)?;
            if self.holds_topic(retained.message.topic.as_str()) {
                return Err(Error::Invalid);
            }
            let ghost r = retained@;
            let topic = retained.message.topic.clone();
            self.retained.push((topic, retained));
            assert(self@.retained =~= before.retained.push((r.message.topic, r)));
            assert(self@ =~= (SnapshotView {
                retained: before.retained.push((r.message.topic, r)),
                ..before
            }));
            Ok(())
        } else {
            Err(Error::Invalid)
        }
    }
}

} // verus!
