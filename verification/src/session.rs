//! What the broker keeps of one session.
use crate::codec::MqttVersion;
use crate::error::Error;
use crate::identity::{AuthenticatedDevice, CodecId, KeyView, Permissions, SessionKey};
use crate::limits::Limits;
use crate::list::{
    count, distinct, first, is_first, keep, lemma_count_total, lemma_distinct_push,
    lemma_distinct_remove, lemma_distinct_update, lemma_first, lemma_first_is, lemma_first_none,
    lemma_keep_distinct, lemma_keep_step, lemma_keep_total, lemma_total_le, lemma_total_member,
    lemma_total_push, lemma_total_remove, lemma_total_same, lemma_total_take, lemma_total_update,
    one_if, total,
};
use crate::message::{
    charge_of, deadline, deadline_after, expired_spec, no_props, BrokerMessage, MessageView,
    PublishProperties, STATE_OVERHEAD,
};
use crate::table::{entry_is, entry_key, law_one_value_per_key, lookup, with_entry};
use crate::text::{byte_len, same_text, text_bytes};
use vstd::prelude::*;

verus! {

/// How a subscription wants its messages.
#[derive(Clone, Copy, Debug, PartialEq, Eq, Structural)]
pub struct Subscription {
    pub qos: u8,
    pub no_local: bool,
    pub retain_as_published: bool,
    /// 0: replay always; 1: only for a new subscription; 2: never replay.
    pub retain_handling: u8,
}

impl Subscription {
    pub open spec fn v311_spec(qos: u8) -> Subscription {
        Subscription { qos, no_local: false, retain_as_published: false, retain_handling: 0 }
    }

    /// A subscription without options.
    pub fn v311(qos: u8) -> (subscription: Subscription)
        ensures
            subscription == Subscription::v311_spec(qos),
    {
        Subscription { qos, no_local: false, retain_as_published: false, retain_handling: 0 }
    }
}

/// A retained slot and its bytes, set aside for a message that was accepted but not yet stored.
/// The same slot and bytes count for the whole broker and for the tenant.
#[derive(Clone, Copy, Debug, PartialEq, Eq, Structural)]
pub struct RetainedReservation {
    pub count: usize,
    pub bytes: usize,
}

pub open spec fn no_reservation() -> RetainedReservation {
    RetainedReservation { count: 0, bytes: 0 }
}

impl Default for RetainedReservation {
    fn default() -> (reservation: RetainedReservation)
        ensures
            reservation == no_reservation(),
    {
        RetainedReservation { count: 0, bytes: 0 }
    }
}

/// How far the delivery of a received message has come.
#[derive(Debug, PartialEq, Eq)]
pub enum InboundQos2State {
    AwaitPubrel(BrokerMessage),
    Delivering { message: BrokerMessage, operation_id: u64 },
    EventAccepted(BrokerMessage),
}

/// How far the delivery of a sent message has come.
#[derive(Debug, PartialEq, Eq)]
pub enum OutboundState {
    AwaitPuback(BrokerMessage),
    AwaitPubrec(BrokerMessage),
    AwaitPubcomp(BrokerMessage),
}

#[derive(Clone, Copy, Debug, PartialEq, Eq, Structural)]
pub enum InboundStage {
    AwaitPubrel,
    Delivering { operation_id: u64 },
    EventAccepted,
}

#[derive(Clone, Copy, Debug, PartialEq, Eq, Structural)]
pub enum OutboundStage {
    Puback,
    Pubrec,
    Pubcomp,
}

impl InboundQos2State {
    pub open spec fn stage(self) -> InboundStage {
        match self {
            InboundQos2State::AwaitPubrel(_) => InboundStage::AwaitPubrel,
            InboundQos2State::Delivering { operation_id, .. } => InboundStage::Delivering {
                operation_id,
            },
            InboundQos2State::EventAccepted(_) => InboundStage::EventAccepted,
        }
    }

    pub open spec fn content(self) -> MessageView {
        match self {
            InboundQos2State::AwaitPubrel(message) => message@,
            InboundQos2State::Delivering { message, .. } => message@,
            InboundQos2State::EventAccepted(message) => message@,
        }
    }

    pub fn stage_now(&self) -> (stage: InboundStage)
        ensures
            stage == self.stage(),
    {
        match self {
            InboundQos2State::AwaitPubrel(_) => InboundStage::AwaitPubrel,
            InboundQos2State::Delivering { operation_id, .. } => InboundStage::Delivering {
                operation_id: *operation_id,
            },
            InboundQos2State::EventAccepted(_) => InboundStage::EventAccepted,
        }
    }

    /// A message in the given stage.
    pub fn of(stage: InboundStage, message: BrokerMessage) -> (state: InboundQos2State)
        ensures
            state.stage() == stage,
            state.content() == message@,
    {
        match stage {
            InboundStage::AwaitPubrel => InboundQos2State::AwaitPubrel(message),
            InboundStage::Delivering { operation_id } => InboundQos2State::Delivering {
                message,
                operation_id,
            },
            InboundStage::EventAccepted => InboundQos2State::EventAccepted(message),
        }
    }

    pub fn message(&self) -> (message: &BrokerMessage)
        ensures
            message@ == self.content(),
    {
        match self {
            InboundQos2State::AwaitPubrel(message) => message,
            InboundQos2State::Delivering { message, .. } => message,
            InboundQos2State::EventAccepted(message) => message,
        }
    }
}

impl Clone for InboundQos2State {
    fn clone(&self) -> (copy: InboundQos2State)
        ensures
            copy.stage() == self.stage(),
            copy.content() == self.content(),
    {
        match self {
            InboundQos2State::AwaitPubrel(message) => InboundQos2State::AwaitPubrel(
                message.clone(),
            ),
            InboundQos2State::Delivering { message, operation_id } => InboundQos2State::Delivering {
                message: message.clone(),
                operation_id: *operation_id,
            },
            InboundQos2State::EventAccepted(message) => InboundQos2State::EventAccepted(
                message.clone(),
            ),
        }
    }
}

impl OutboundState {
    pub open spec fn stage_spec(self) -> OutboundStage {
        match self {
            OutboundState::AwaitPuback(_) => OutboundStage::Puback,
            OutboundState::AwaitPubrec(_) => OutboundStage::Pubrec,
            OutboundState::AwaitPubcomp(_) => OutboundStage::Pubcomp,
        }
    }

    pub open spec fn content(self) -> MessageView {
        match self {
            OutboundState::AwaitPuback(message) => message@,
            OutboundState::AwaitPubrec(message) => message@,
            OutboundState::AwaitPubcomp(message) => message@,
        }
    }

    pub fn stage(&self) -> (stage: OutboundStage)
        ensures
            stage == self.stage_spec(),
    {
        match self {
            OutboundState::AwaitPuback(_) => OutboundStage::Puback,
            OutboundState::AwaitPubrec(_) => OutboundStage::Pubrec,
            OutboundState::AwaitPubcomp(_) => OutboundStage::Pubcomp,
        }
    }

    pub fn message(&self) -> (message: &BrokerMessage)
        ensures
            message@ == self.content(),
    {
        match self {
            OutboundState::AwaitPuback(message) => message,
            OutboundState::AwaitPubrec(message) => message,
            OutboundState::AwaitPubcomp(message) => message,
        }
    }

    /// A message in the given stage.
    pub fn of(stage: OutboundStage, message: BrokerMessage) -> (state: OutboundState)
        ensures
            state.stage_spec() == stage,
            state.content() == message@,
    {
        match stage {
            OutboundStage::Puback => OutboundState::AwaitPuback(message),
            OutboundStage::Pubrec => OutboundState::AwaitPubrec(message),
            OutboundStage::Pubcomp => OutboundState::AwaitPubcomp(message),
        }
    }
}

impl Clone for OutboundState {
    fn clone(&self) -> (copy: OutboundState)
        ensures
            copy.stage_spec() == self.stage_spec(),
            copy.content() == self.content(),
    {
        OutboundState::of(self.stage(), self.message().clone())
    }
}

/// A received message that waits for its release, with what was set aside for it.
#[derive(Debug, PartialEq, Eq)]
pub struct InboundEntry {
    pub packet_id: u16,
    pub state: InboundQos2State,
    /// The operation that may finish an accepted message.
    pub operation_id: Option<u64>,
    pub reservation: RetainedReservation,
}

pub struct InboundView {
    pub packet_id: u16,
    pub stage: InboundStage,
    pub message: MessageView,
    pub operation_id: Option<u64>,
    pub reservation: RetainedReservation,
}

impl View for InboundEntry {
    type V = InboundView;

    open spec fn view(&self) -> InboundView {
        InboundView {
            packet_id: self.packet_id,
            stage: self.state.stage(),
            message: self.state.content(),
            operation_id: self.operation_id,
            reservation: self.reservation,
        }
    }
}

impl Clone for InboundEntry {
    fn clone(&self) -> (copy: InboundEntry)
        ensures
            copy@ == self@,
    {
        InboundEntry {
            packet_id: self.packet_id,
            state: self.state.clone(),
            operation_id: self.operation_id,
            reservation: self.reservation,
        }
    }
}

/// A sent message that waits for its acknowledgement. Entries stand in transmission order.
#[derive(Debug, PartialEq, Eq)]
pub struct OutboundEntry {
    pub packet_id: u16,
    pub state: OutboundState,
    /// The message is a command, whose outcome is reported.
    pub command: bool,
    /// The message was handed to this network connection.
    pub sent: bool,
    /// The message occupies this connection's send window until its exchange is complete.
    pub windowed: bool,
    /// The first transfer has begun, so the exchange is finished even after the message expired.
    pub started: bool,
}

pub struct OutboundView {
    pub packet_id: u16,
    pub stage: OutboundStage,
    pub message: MessageView,
    pub command: bool,
    pub sent: bool,
    pub windowed: bool,
    pub started: bool,
}

impl View for OutboundEntry {
    type V = OutboundView;

    open spec fn view(&self) -> OutboundView {
        OutboundView {
            packet_id: self.packet_id,
            stage: self.state.stage_spec(),
            message: self.state.content(),
            command: self.command,
            sent: self.sent,
            windowed: self.windowed,
            started: self.started,
        }
    }
}

impl Clone for OutboundEntry {
    fn clone(&self) -> (copy: OutboundEntry)
        ensures
            copy@ == self@,
    {
        OutboundEntry {
            packet_id: self.packet_id,
            state: self.state.clone(),
            command: self.command,
            sent: self.sent,
            windowed: self.windowed,
            started: self.started,
        }
    }
}

/// Under which authentication a session was opened.
#[derive(Debug, PartialEq, Eq)]
pub struct SessionAuthorization {
    pub credential_version: u32,
    pub auth_generation: u64,
    pub permissions: Permissions,
    pub codec_id: Option<CodecId>,
    pub codec_version: Option<u16>,
}

pub struct AuthView {
    pub credential_version: u32,
    pub auth_generation: u64,
    pub permissions: Permissions,
    pub codec_id: Option<Seq<char>>,
    pub codec_version: Option<u16>,
}

pub open spec fn codec_view(codec: Option<CodecId>) -> Option<Seq<char>> {
    match codec {
        Some(codec) => Some(codec@),
        None => None,
    }
}

impl View for SessionAuthorization {
    type V = AuthView;

    open spec fn view(&self) -> AuthView {
        AuthView {
            credential_version: self.credential_version,
            auth_generation: self.auth_generation,
            permissions: self.permissions,
            codec_id: codec_view(self.codec_id),
            codec_version: self.codec_version,
        }
    }
}

pub open spec fn auth_view(authorization: Option<SessionAuthorization>) -> Option<AuthView> {
    match authorization {
        Some(authorization) => Some(authorization@),
        None => None,
    }
}

/// What an authenticated device's sessions are bound to.
pub open spec fn auth_of(auth: AuthenticatedDevice) -> AuthView {
    AuthView {
        credential_version: auth.credential_version,
        auth_generation: auth.auth_generation,
        permissions: auth.permissions,
        codec_id: Some(auth.codec_id@),
        codec_version: Some(auth.codec_version),
    }
}

/// The codec is known, so the session can be taken up again.
pub open spec fn auth_complete(authorization: AuthView) -> bool {
    authorization.codec_id is Some && (authorization.codec_version matches Some(value) && value > 0)
}

impl SessionAuthorization {
    pub fn of(auth: &AuthenticatedDevice) -> (authorization: SessionAuthorization)
        ensures
            authorization@ == auth_of(*auth),
    {
        SessionAuthorization {
            credential_version: auth.credential_version,
            auth_generation: auth.auth_generation,
            permissions: auth.permissions,
            codec_id: Some(auth.codec_id.clone()),
            codec_version: Some(auth.codec_version),
        }
    }

    pub fn same(&self, other: &SessionAuthorization) -> (same: bool)
        ensures
            same == (self@ == other@),
    {
        let codec = match (&self.codec_id, &other.codec_id) {
            (Some(left), Some(right)) => left.same(right),
            (None, None) => true,
            _ => false,
        };
        codec && self.credential_version == other.credential_version && self.auth_generation
            == other.auth_generation && self.permissions == other.permissions && self.codec_version
            == other.codec_version
    }

    pub fn complete(&self) -> (complete: bool)
        ensures
            complete == auth_complete(self@),
    {
        self.codec_id.is_some() && (match self.codec_version {
            Some(value) => value > 0,
            None => false,
        })
    }
}

impl Clone for SessionAuthorization {
    fn clone(&self) -> (copy: SessionAuthorization)
        ensures
            copy@ == self@,
    {
        SessionAuthorization {
            credential_version: self.credential_version,
            auth_generation: self.auth_generation,
            permissions: self.permissions,
            codec_id: match &self.codec_id {
                Some(codec) => Some(codec.clone()),
                None => None,
            },
            codec_version: self.codec_version,
        }
    }
}

pub fn clone_authorization(authorization: &Option<SessionAuthorization>) -> (copy: Option<
    SessionAuthorization,
>)
    ensures
        auth_view(copy) == auth_view(*authorization),
{
    match authorization {
        Some(value) => Some(value.clone()),
        None => None,
    }
}

/// A session: its subscriptions, its waiting messages and its unfinished exchanges.
#[derive(Debug, PartialEq, Eq)]
pub struct StoredSession {
    pub key: SessionKey,
    pub version: MqttVersion,
    pub session_expiry_interval: u32,
    pub expires_at_ms: Option<i64>,
    pub incarnation: u64,
    pub authorization: Option<SessionAuthorization>,
    pub subscriptions: Vec<(String, Subscription)>,
    pub offline: Vec<BrokerMessage>,
    pub offline_bytes: usize,
    pub inbound_qos2: Vec<InboundEntry>,
    pub outbound: Vec<OutboundEntry>,
    pub next_packet_id: u16,
    pub state_bytes: usize,
    pub last_seen_ms: i64,
    pub active_generation: Option<u64>,
    /// How many unacknowledged messages the client accepts.
    pub send_quota: u16,
    /// Received messages of this connection whose exchange is not complete.
    pub inbound_window: Vec<u16>,
}

#[verifier::ext_equal]
pub struct SessionView {
    pub key: KeyView,
    pub version: MqttVersion,
    pub session_expiry_interval: u32,
    pub expires_at_ms: Option<i64>,
    pub incarnation: u64,
    pub authorization: Option<AuthView>,
    pub subscriptions: Seq<(Seq<char>, Subscription)>,
    pub offline: Seq<MessageView>,
    pub inbound: Seq<InboundView>,
    pub outbound: Seq<OutboundView>,
    pub next_packet_id: u16,
    pub last_seen_ms: i64,
    pub active_generation: Option<u64>,
    pub send_quota: u16,
    pub inbound_window: Set<u16>,
}

pub open spec fn sub_views(s: Seq<(String, Subscription)>) -> Seq<(Seq<char>, Subscription)> {
    Seq::new(s.len(), |i: int| (s[i].0@, s[i].1))
}

pub open spec fn message_views(s: Seq<BrokerMessage>) -> Seq<MessageView> {
    Seq::new(s.len(), |i: int| s[i]@)
}

pub open spec fn inbound_views(s: Seq<InboundEntry>) -> Seq<InboundView> {
    Seq::new(s.len(), |i: int| s[i]@)
}

pub open spec fn outbound_views(s: Seq<OutboundEntry>) -> Seq<OutboundView> {
    Seq::new(s.len(), |i: int| s[i]@)
}

impl View for StoredSession {
    type V = SessionView;

    open spec fn view(&self) -> SessionView {
        SessionView {
            key: self.key@,
            version: self.version,
            session_expiry_interval: self.session_expiry_interval,
            expires_at_ms: self.expires_at_ms,
            incarnation: self.incarnation,
            authorization: auth_view(self.authorization),
            subscriptions: sub_views(self.subscriptions@),
            offline: message_views(self.offline@),
            inbound: inbound_views(self.inbound_qos2@),
            outbound: outbound_views(self.outbound@),
            next_packet_id: self.next_packet_id,
            last_seen_ms: self.last_seen_ms,
            active_generation: self.active_generation,
            send_quota: self.send_quota,
            inbound_window: self.inbound_window@.to_set(),
        }
    }
}

/// What a session is charged before it holds anything.
pub open spec fn base_charge(key: KeyView) -> nat {
    text_bytes(key.client_id) + text_bytes(key.device.tenant) + text_bytes(key.device.product)
        + text_bytes(key.device.device) + STATE_OVERHEAD as nat
}

pub open spec fn sub_charge() -> spec_fn((Seq<char>, Subscription)) -> nat {
    |e: (Seq<char>, Subscription)| text_bytes(e.0) + STATE_OVERHEAD as nat
}

pub open spec fn message_charge() -> spec_fn(MessageView) -> nat {
    |m: MessageView| charge_of(m)
}

pub open spec fn inbound_charge() -> spec_fn(InboundView) -> nat {
    |e: InboundView| charge_of(e.message)
}

pub open spec fn outbound_charge() -> spec_fn(OutboundView) -> nat {
    |e: OutboundView| charge_of(e.message)
}

/// What a session is charged: its identity and everything it holds.
pub open spec fn session_charge(s: SessionView) -> nat {
    base_charge(s.key) + total(s.subscriptions, sub_charge()) + total(s.offline, message_charge())
        + total(s.inbound, inbound_charge()) + total(s.outbound, outbound_charge())
}

pub open spec fn sub_key() -> spec_fn((Seq<char>, Subscription)) -> Seq<char> {
    entry_key()
}

pub open spec fn inbound_key() -> spec_fn(InboundView) -> u16 {
    |e: InboundView| e.packet_id
}

pub open spec fn outbound_key() -> spec_fn(OutboundView) -> u16 {
    |e: OutboundView| e.packet_id
}

pub open spec fn sub_is(filter: Seq<char>) -> spec_fn((Seq<char>, Subscription)) -> bool {
    entry_is(filter)
}

pub open spec fn inbound_is(id: u16) -> spec_fn(InboundView) -> bool {
    |e: InboundView| e.packet_id == id
}

pub open spec fn outbound_is(id: u16) -> spec_fn(OutboundView) -> bool {
    |e: OutboundView| e.packet_id == id
}

pub open spec fn is_puback() -> spec_fn(OutboundView) -> bool {
    |e: OutboundView| e.stage == OutboundStage::Puback
}

pub open spec fn is_qos2() -> spec_fn(OutboundView) -> bool {
    |e: OutboundView| e.stage != OutboundStage::Puback
}

pub open spec fn is_windowed() -> spec_fn(OutboundView) -> bool {
    |e: OutboundView| e.windowed
}

pub open spec fn is_unsent() -> spec_fn(OutboundView) -> bool {
    |e: OutboundView| !e.sent
}

/// The position of a subscription, of a received message and of a sent message.
pub open spec fn sub_at(s: SessionView, filter: Seq<char>) -> Option<int> {
    first(s.subscriptions, sub_is(filter))
}

pub open spec fn inbound_at(s: SessionView, id: u16) -> Option<int> {
    first(s.inbound, inbound_is(id))
}

pub open spec fn outbound_at(s: SessionView, id: u16) -> Option<int> {
    first(s.outbound, outbound_is(id))
}

/// No filter and no packet identifier occurs twice, and identifiers are never zero.
pub open spec fn session_ok(s: SessionView) -> bool {
    &&& distinct(s.subscriptions, sub_key())
    &&& distinct(s.inbound, inbound_key())
    &&& distinct(s.outbound, outbound_key())
    &&& s.next_packet_id != 0
}

/// The identifier that follows another; zero is left out.
pub open spec fn id_after(id: u16) -> u16 {
    if id == u16::MAX {
        1
    } else {
        (id + 1) as u16
    }
}

/// The first identifier from `from` on that no unfinished exchange uses.
pub open spec fn free_id(outbound: Seq<OutboundView>, from: u16, tries: nat) -> Option<u16>
    decreases tries,
{
    if tries == 0 {
        None
    } else if first(outbound, outbound_is(from)) is None {
        Some(from)
    } else {
        free_id(outbound, id_after(from), (tries - 1) as nat)
    }
}

pub open spec fn next_free(s: SessionView) -> Option<u16> {
    free_id(s.outbound, s.next_packet_id, u16::MAX as nat)
}

/// An identifier is never given out while an exchange still uses it.
pub proof fn law_free_id_is_unused(outbound: Seq<OutboundView>, from: u16, tries: nat)
    requires
        from != 0,
    ensures
        free_id(outbound, from, tries) matches Some(id) ==> id != 0 && forall|i: int|
            0 <= i < outbound.len() ==> (#[trigger] outbound[i]).packet_id != id,
    decreases tries,
{
    if tries > 0 {
        lemma_first(outbound, outbound_is(from));
        if first(outbound, outbound_is(from)) is None {
            assert forall|i: int| 0 <= i < outbound.len() implies (#[trigger] outbound[i]).packet_id
                != from by {
                assert(!outbound_is(from)(outbound[i]));
            }
        } else {
            law_free_id_is_unused(outbound, id_after(from), (tries - 1) as nat);
        }
    }
}

proof fn lemma_free_id(outbound: Seq<OutboundView>, from: u16, tries: nat)
    ensures
        free_id(outbound, from, tries) matches Some(id) ==> first(outbound, outbound_is(id)) is None,
    decreases tries,
{
    if tries > 0 && first(outbound, outbound_is(from)) is Some {
        lemma_free_id(outbound, id_after(from), (tries - 1) as nat);
    }
}

pub proof fn lemma_next_free(s: SessionView)
    ensures
        next_free(s) matches Some(id) ==> outbound_at(s, id) is None,
{
    lemma_free_id(s.outbound, s.next_packet_id, u16::MAX as nat);
}

/// Whether one more exchange of the quality of service is within the session's bound.
pub open spec fn outbound_capacity(s: SessionView, qos: u8, limits: Limits) -> bool {
    if qos == 1 {
        count(s.outbound, is_puback()) < limits.max_inflight_qos1_per_session
    } else if qos == 2 {
        count(s.outbound, is_qos2()) + s.inbound.len() < limits.max_inflight_qos2_per_session
    } else {
        0 < limits.max_inflight_qos2_per_session
    }
}

/// Whether the client accepts one more unacknowledged message.
pub open spec fn send_quota_left(s: SessionView) -> bool {
    count(s.outbound, is_windowed()) < s.send_quota
}

/// The quality of service of the first exchange that this connection has not been handed.
pub open spec fn unsent_qos(s: SessionView) -> Option<u8> {
    match first(s.outbound, is_unsent()) {
        Some(i) => Some(
            if s.outbound[i].stage == OutboundStage::Puback {
                1u8
            } else {
                2u8
            },
        ),
        None => None,
    }
}

/// The quality of service of what the session waits to send next.
pub open spec fn waiting_qos(s: SessionView) -> Option<u8> {
    match unsent_qos(s) {
        Some(qos) => Some(qos),
        None => if s.offline.len() > 0 {
            Some(s.offline[0].qos)
        } else {
            None
        },
    }
}

pub open spec fn earlier(left: Option<i64>, right: Option<i64>) -> Option<i64> {
    match (left, right) {
        (Some(l), Some(r)) => if l <= r {
            Some(l)
        } else {
            Some(r)
        },
        (Some(l), None) => Some(l),
        (None, r) => r,
    }
}

pub open spec fn earliest_message(s: Seq<MessageView>) -> Option<i64>
    decreases s.len(),
{
    if s.len() == 0 {
        None
    } else {
        earlier(earliest_message(s.drop_last()), s.last().properties.expires_at_ms)
    }
}

/// The time at which an unfinished exchange has to be looked at: one whose transfer has begun is
/// finished whatever its age, until only its completion is missing.
pub open spec fn exchange_deadline(e: OutboundView) -> Option<i64> {
    if e.stage == OutboundStage::Pubcomp || !e.started {
        e.message.properties.expires_at_ms
    } else {
        None
    }
}

pub open spec fn earliest_exchange(s: Seq<OutboundView>) -> Option<i64>
    decreases s.len(),
{
    if s.len() == 0 {
        None
    } else {
        earlier(earliest_exchange(s.drop_last()), exchange_deadline(s.last()))
    }
}

/// When the next message of the session expires.
pub open spec fn message_deadline(s: SessionView) -> Option<i64> {
    earlier(earliest_message(s.offline), earliest_exchange(s.outbound))
}

pub open spec fn fresh_message(now: i64) -> spec_fn(MessageView) -> bool {
    |m: MessageView| !expired_spec(m, now)
}

/// An exchange outlives its message's expiry once its transfer has begun.
pub open spec fn exchange_stays(now: i64) -> spec_fn(OutboundView) -> bool {
    |e: OutboundView|
        e.stage == OutboundStage::Pubcomp || e.started || !expired_spec(e.message, now)
}

/// A message whose contents are no longer needed.
pub open spec fn emptied(message: MessageView) -> MessageView {
    MessageView { payload: Seq::empty(), properties: no_props(), ..message }
}

/// An exchange that only waits for its completion gives up the contents of an expired message.
pub open spec fn slimmed(e: OutboundView, now: i64) -> OutboundView {
    if e.stage == OutboundStage::Pubcomp && expired_spec(e.message, now) {
        OutboundView { message: emptied(e.message), ..e }
    } else {
        e
    }
}

pub open spec fn slim_all(s: Seq<OutboundView>, now: i64) -> Seq<OutboundView> {
    Seq::new(s.len(), |i: int| slimmed(s[i], now))
}

/// The session without what has expired.
pub open spec fn pruned(s: SessionView, now: i64) -> SessionView {
    SessionView {
        offline: keep(s.offline, fresh_message(now)),
        outbound: slim_all(keep(s.outbound, exchange_stays(now)), now),
        ..s
    }
}

/// The entry of a message that was just handed to the connection.
pub open spec fn fresh_exchange(id: u16, message: MessageView, command: bool) -> OutboundView {
    OutboundView {
        packet_id: id,
        stage: if message.qos == 1 {
            OutboundStage::Puback
        } else {
            OutboundStage::Pubrec
        },
        message,
        command,
        sent: true,
        windowed: true,
        started: false,
    }
}

/// The session with its first waiting message made an exchange.
pub open spec fn promoted(s: SessionView, id: u16) -> SessionView {
    SessionView {
        offline: s.offline.remove(0),
        outbound: s.outbound.push(fresh_exchange(id, s.offline[0], false)),
        next_packet_id: id_after(id),
        ..s
    }
}

/// A new session without anything in it.
pub open spec fn new_session(key: KeyView, incarnation: u64, authorization: AuthView, now: i64) -> SessionView {
    SessionView {
        key,
        version: MqttVersion::V311,
        session_expiry_interval: 0,
        expires_at_ms: None,
        incarnation,
        authorization: Some(authorization),
        subscriptions: Seq::empty(),
        offline: Seq::empty(),
        inbound: Seq::empty(),
        outbound: Seq::empty(),
        next_packet_id: 1,
        last_seen_ms: now,
        active_generation: None,
        send_quota: u16::MAX,
        inbound_window: Set::empty(),
    }
}

/// The exchanges as a connection finds them that has been handed none.
pub open spec fn unhanded(s: Seq<OutboundView>) -> Seq<OutboundView> {
    Seq::new(s.len(), |i: int| OutboundView { sent: false, windowed: false, ..s[i] })
}

/// The session as a new connection takes it up.
pub open spec fn reconnected(
    s: SessionView,
    generation: u64,
    now: i64,
    session_expiry_interval: u32,
    send_quota: u16,
) -> SessionView {
    SessionView {
        active_generation: Some(generation),
        last_seen_ms: now,
        expires_at_ms: None,
        session_expiry_interval,
        send_quota,
        outbound: unhanded(s.outbound),
        inbound_window: Set::empty(),
        ..s
    }
}

/// The session as its connection leaves it.
pub open spec fn disconnected(s: SessionView, now: i64) -> SessionView {
    SessionView {
        active_generation: None,
        last_seen_ms: now,
        expires_at_ms: if s.version == MqttVersion::V5 && s.session_expiry_interval != u32::MAX {
            Some(deadline_after(now, s.session_expiry_interval))
        } else {
            s.expires_at_ms
        },
        outbound: unhanded(s.outbound),
        inbound_window: Set::empty(),
        ..s
    }
}

/// What one or more sessions count for in the broker's totals.
#[derive(Clone, Copy, Debug, PartialEq, Eq, Structural)]
pub struct SessionUsage {
    pub sessions: u128,
    pub state_bytes: u128,
    pub subscriptions: u128,
    pub offline_count: u128,
    pub offline_bytes: u128,
    pub qos1_inflight: u128,
    pub qos2_inflight: u128,
}

pub struct UsageView {
    pub sessions: nat,
    pub state_bytes: nat,
    pub subscriptions: nat,
    pub offline_count: nat,
    pub offline_bytes: nat,
    pub qos1_inflight: nat,
    pub qos2_inflight: nat,
}

pub open spec fn usage_of(s: SessionView) -> UsageView {
    UsageView {
        sessions: 1,
        state_bytes: session_charge(s),
        subscriptions: s.subscriptions.len(),
        offline_count: s.offline.len(),
        offline_bytes: total(s.offline, message_charge()),
        qos1_inflight: count(s.outbound, is_puback()),
        qos2_inflight: s.inbound.len() + count(s.outbound, is_qos2()),
    }
}

impl View for SessionUsage {
    type V = UsageView;

    open spec fn view(&self) -> UsageView {
        UsageView {
            sessions: self.sessions as nat,
            state_bytes: self.state_bytes as nat,
            subscriptions: self.subscriptions as nat,
            offline_count: self.offline_count as nat,
            offline_bytes: self.offline_bytes as nat,
            qos1_inflight: self.qos1_inflight as nat,
            qos2_inflight: self.qos2_inflight as nat,
        }
    }
}

pub open spec fn one<T>() -> spec_fn(T) -> nat {
    |x: T| 1nat
}

proof fn lemma_len_total<T>(s: Seq<T>)
    ensures
        total(s, one::<T>()) == s.len(),
    decreases s.len(),
{
    if s.len() > 0 {
        lemma_len_total(s.drop_last());
    }
}

/// Everything that is counted is charged, so no count exceeds the charge.
pub proof fn lemma_usage_bounded(s: SessionView)
    ensures
        ({
            let u = usage_of(s);
            &&& 1 <= u.state_bytes
            &&& u.subscriptions <= u.state_bytes
            &&& u.offline_count <= u.state_bytes
            &&& u.offline_bytes <= u.state_bytes
            &&& u.qos1_inflight + u.qos2_inflight <= u.state_bytes
        }),
{
    lemma_len_total(s.subscriptions);
    lemma_len_total(s.offline);
    lemma_len_total(s.inbound);
    lemma_total_le(s.subscriptions, one(), sub_charge());
    lemma_total_le(s.offline, one(), message_charge());
    lemma_total_le(s.inbound, one(), inbound_charge());
    lemma_total_le(s.outbound, one(), outbound_charge());
    lemma_len_total(s.outbound);
    lemma_count_split(s.outbound);
}

/// An exchange replaced by one of the same stage and message changes no sum.
pub proof fn lemma_same_exchange(s: Seq<OutboundView>, at: int, x: OutboundView)
    requires
        0 <= at < s.len(),
        x.stage == s[at].stage,
        x.message == s[at].message,
        x.packet_id == s[at].packet_id,
        x.started == s[at].started,
    ensures
        total(s.update(at, x), outbound_charge()) == total(s, outbound_charge()),
        count(s.update(at, x), is_puback()) == count(s, is_puback()),
        count(s.update(at, x), is_qos2()) == count(s, is_qos2()),
        earliest_exchange(s.update(at, x)) == earliest_exchange(s),
        distinct(s, outbound_key()) ==> distinct(s.update(at, x), outbound_key()),
    decreases s.len(),
{
    lemma_total_update(s, at, x, outbound_charge());
    lemma_total_update(s, at, x, one_if(is_puback()));
    lemma_total_update(s, at, x, one_if(is_qos2()));
    lemma_count_total(s, is_puback());
    lemma_count_total(s, is_qos2());
    lemma_count_total(s.update(at, x), is_puback());
    lemma_count_total(s.update(at, x), is_qos2());
    if distinct(s, outbound_key()) {
        lemma_distinct_update(s, at, x, outbound_key());
    }
    if at == s.len() - 1 {
        assert(s.update(at, x).drop_last() =~= s.drop_last());
    } else {
        lemma_same_exchange(s.drop_last(), at, x);
        assert(s.update(at, x).drop_last() =~= s.drop_last().update(at, x));
    }
}

proof fn lemma_count_split(s: Seq<OutboundView>)
    ensures
        count(s, is_puback()) + count(s, is_qos2()) == s.len(),
    decreases s.len(),
{
    if s.len() > 0 {
        lemma_count_split(s.drop_last());
    }
}

fn clone_subscriptions(s: &Vec<(String, Subscription)>) -> (copy: Vec<(String, Subscription)>)
    ensures
        sub_views(copy@) == sub_views(s@),
{
    let mut copy: Vec<(String, Subscription)> = Vec::new();
    let mut at: usize = 0;
    while at < s.len()
        invariant
            at <= s.len(),
            sub_views(copy@) == sub_views(s@).take(at as int),
        decreases s.len() - at,
    {
        let ghost before = sub_views(copy@);
        copy.push((s[at].0.clone(), s[at].1));
        assert(sub_views(copy@) =~= before.push(sub_views(s@)[at as int]));
        assert(sub_views(s@).take(at as int + 1) =~= before.push(sub_views(s@)[at as int]));
        at = at + 1;
    }
    assert(sub_views(s@).take(sub_views(s@).len() as int) =~= sub_views(s@));
    copy
}

fn clone_messages(s: &Vec<BrokerMessage>) -> (copy: Vec<BrokerMessage>)
    ensures
        message_views(copy@) == message_views(s@),
{
    let mut copy: Vec<BrokerMessage> = Vec::new();
    let mut at: usize = 0;
    while at < s.len()
        invariant
            at <= s.len(),
            message_views(copy@) == message_views(s@).take(at as int),
        decreases s.len() - at,
    {
        let ghost before = message_views(copy@);
        copy.push(s[at].clone());
        assert(message_views(copy@) =~= before.push(message_views(s@)[at as int]));
        assert(message_views(s@).take(at as int + 1) =~= before.push(message_views(s@)[at as int]));
        at = at + 1;
    }
    assert(message_views(s@).take(message_views(s@).len() as int) =~= message_views(s@));
    copy
}

fn clone_inbound(s: &Vec<InboundEntry>) -> (copy: Vec<InboundEntry>)
    ensures
        inbound_views(copy@) == inbound_views(s@),
{
    let mut copy: Vec<InboundEntry> = Vec::new();
    let mut at: usize = 0;
    while at < s.len()
        invariant
            at <= s.len(),
            inbound_views(copy@) == inbound_views(s@).take(at as int),
        decreases s.len() - at,
    {
        let ghost before = inbound_views(copy@);
        copy.push(s[at].clone());
        assert(inbound_views(copy@) =~= before.push(inbound_views(s@)[at as int]));
        assert(inbound_views(s@).take(at as int + 1) =~= before.push(inbound_views(s@)[at as int]));
        at = at + 1;
    }
    assert(inbound_views(s@).take(inbound_views(s@).len() as int) =~= inbound_views(s@));
    copy
}

fn clone_outbound(s: &Vec<OutboundEntry>) -> (copy: Vec<OutboundEntry>)
    ensures
        outbound_views(copy@) == outbound_views(s@),
{
    let mut copy: Vec<OutboundEntry> = Vec::new();
    let mut at: usize = 0;
    while at < s.len()
        invariant
            at <= s.len(),
            outbound_views(copy@) == outbound_views(s@).take(at as int),
        decreases s.len() - at,
    {
        let ghost before = outbound_views(copy@);
        copy.push(s[at].clone());
        assert(outbound_views(copy@) =~= before.push(outbound_views(s@)[at as int]));
        assert(outbound_views(s@).take(at as int + 1) =~= before.push(
            outbound_views(s@)[at as int],
        ));
        at = at + 1;
    }
    assert(outbound_views(s@).take(outbound_views(s@).len() as int) =~= outbound_views(s@));
    copy
}

fn clone_ids(s: &Vec<u16>) -> (copy: Vec<u16>)
    ensures
        copy@ == s@,
{
    let mut copy: Vec<u16> = Vec::new();
    let mut at: usize = 0;
    while at < s.len()
        invariant
            at <= s.len(),
            copy@ == s@.take(at as int),
        decreases s.len() - at,
    {
        copy.push(s[at]);
        assert(s@.take(at as int + 1) =~= s@.take(at as int).push(s@[at as int]));
        at = at + 1;
    }
    assert(s@.take(s@.len() as int) =~= s@);
    copy
}

impl Clone for StoredSession {
    fn clone(&self) -> (copy: StoredSession)
        ensures
            copy@ == self@,
            self.wf() ==> copy.wf(),
    {
        let copy = StoredSession {
            key: self.key.clone(),
            version: self.version,
            session_expiry_interval: self.session_expiry_interval,
            expires_at_ms: self.expires_at_ms,
            incarnation: self.incarnation,
            authorization: clone_authorization(&self.authorization),
            subscriptions: clone_subscriptions(&self.subscriptions),
            offline: clone_messages(&self.offline),
            offline_bytes: self.offline_bytes,
            inbound_qos2: clone_inbound(&self.inbound_qos2),
            outbound: clone_outbound(&self.outbound),
            next_packet_id: self.next_packet_id,
            state_bytes: self.state_bytes,
            last_seen_ms: self.last_seen_ms,
            active_generation: self.active_generation,
            send_quota: self.send_quota,
            inbound_window: clone_ids(&self.inbound_window),
        };
        assert(copy@ =~= self@);
        copy
    }
}

impl StoredSession {
    /// The identifiers are in order and the byte counts are exact.
    pub open spec fn wf(self) -> bool {
        &&& session_ok(self@)
        &&& self.inbound_window@.no_duplicates()
        &&& self.offline_bytes == total(self@.offline, message_charge())
        &&& self.state_bytes == session_charge(self@)
    }

    /// The charge of an empty session under this key, if it can be counted.
    pub fn base_bytes(key: &SessionKey) -> (bytes: Option<usize>)
        ensures
            bytes is Some <==> base_charge(key@) <= usize::MAX,
            bytes is Some ==> bytes->0 == base_charge(key@),
    {
        let client: u128 = byte_len(key.client_id.as_str()) as u128;
        let tenant: u128 = byte_len(key.device.tenant_id.as_str()) as u128;
        let product: u128 = byte_len(key.device.product_id.as_str()) as u128;
        let device: u128 = byte_len(key.device.device_id.as_str()) as u128;
        let sum: u128 = client + tenant + product + device + STATE_OVERHEAD as u128;
        if sum > usize::MAX as u128 {
            None
        } else {
            Some(sum as usize)
        }
    }

    /// A new session without anything in it.
    pub fn new(
        key: SessionKey,
        incarnation: u64,
        authorization: SessionAuthorization,
        now: i64,
        base: usize,
    ) -> (session: StoredSession)
        requires
            base == base_charge(key@),
        ensures
            session.wf(),
            session@ == new_session(key@, incarnation, authorization@, now),
    {
        let ghost model = new_session(key@, incarnation, authorization@, now);
        let session = StoredSession {
            key,
            version: MqttVersion::V311,
            session_expiry_interval: 0,
            expires_at_ms: None,
            incarnation,
            authorization: Some(authorization),
            subscriptions: Vec::new(),
            offline: Vec::new(),
            offline_bytes: 0,
            inbound_qos2: Vec::new(),
            outbound: Vec::new(),
            next_packet_id: 1,
            state_bytes: base,
            last_seen_ms: now,
            active_generation: None,
            send_quota: u16::MAX,
            inbound_window: Vec::new(),
        };
        assert(session@ =~= model);
        session
    }

    /// The position of a subscription.
    pub fn find_subscription(&self, filter: &str) -> (position: Option<usize>)
        ensures
            match position {
                Some(i) => sub_at(self@, filter@) == Some(i as int) && i < self.subscriptions@.len()
                    && self.subscriptions@[i as int].0@ == filter@,
                None => sub_at(self@, filter@) is None,
            },
    {
        let mut at: usize = 0;
        while at < self.subscriptions.len()
            invariant
                at <= self.subscriptions.len(),
                forall|j: int|
                    0 <= j < at ==> !sub_is(filter@)(#[trigger] self@.subscriptions[j]),
            decreases self.subscriptions.len() - at,
        {
            if same_text(self.subscriptions[at].0.as_str(), filter) {
                proof {
                    assert(is_first(self@.subscriptions, sub_is(filter@), at as int));
                    lemma_first_is(self@.subscriptions, sub_is(filter@), at as int);
                }
                return Some(at);
            }
            at = at + 1;
        }
        proof {
            lemma_first_none(self@.subscriptions, sub_is(filter@));
        }
        None
    }

    /// The position of a received message.
    pub fn find_inbound(&self, id: u16) -> (position: Option<usize>)
        ensures
            match position {
                Some(i) => inbound_at(self@, id) == Some(i as int) && i < self.inbound_qos2@.len()
                    && self.inbound_qos2@[i as int].packet_id == id,
                None => inbound_at(self@, id) is None,
            },
    {
        let mut at: usize = 0;
        while at < self.inbound_qos2.len()
            invariant
                at <= self.inbound_qos2.len(),
                forall|j: int| 0 <= j < at ==> !inbound_is(id)(#[trigger] self@.inbound[j]),
            decreases self.inbound_qos2.len() - at,
        {
            if self.inbound_qos2[at].packet_id == id {
                proof {
                    assert(is_first(self@.inbound, inbound_is(id), at as int));
                    lemma_first_is(self@.inbound, inbound_is(id), at as int);
                }
                return Some(at);
            }
            at = at + 1;
        }
        proof {
            lemma_first_none(self@.inbound, inbound_is(id));
        }
        None
    }

    /// The position of a sent message.
    pub fn find_outbound(&self, id: u16) -> (position: Option<usize>)
        ensures
            match position {
                Some(i) => outbound_at(self@, id) == Some(i as int) && i < self.outbound@.len()
                    && self.outbound@[i as int].packet_id == id,
                None => outbound_at(self@, id) is None,
            },
    {
        let mut at: usize = 0;
        while at < self.outbound.len()
            invariant
                at <= self.outbound.len(),
                forall|j: int| 0 <= j < at ==> !outbound_is(id)(#[trigger] self@.outbound[j]),
            decreases self.outbound.len() - at,
        {
            if self.outbound[at].packet_id == id {
                proof {
                    assert(is_first(self@.outbound, outbound_is(id), at as int));
                    lemma_first_is(self@.outbound, outbound_is(id), at as int);
                }
                return Some(at);
            }
            at = at + 1;
        }
        proof {
            lemma_first_none(self@.outbound, outbound_is(id));
        }
        None
    }

    /// The identifier that the next exchange will use.
    pub fn projected_packet_id(&self) -> (result: Result<u16, Error>)
        ensures
            match next_free(self@) {
                Some(id) => result == Ok::<u16, Error>(id),
                None => result == Err::<u16, Error>(Error::Overloaded),
            },
    {
        let mut candidate: u16 = self.next_packet_id;
        let mut tries: u16 = u16::MAX;
        while tries > 0
            invariant
                next_free(self@) == free_id(self@.outbound, candidate, tries as nat),
            decreases tries,
        {
            if self.find_outbound(candidate).is_none() {
                return Ok(candidate);
            }
            candidate = if candidate == u16::MAX {
                1
            } else {
                candidate + 1
            };
            tries = tries - 1;
        }
        Err(Error::Overloaded)
    }

    /// Gives out an identifier that no unfinished exchange uses.
    pub fn allocate_packet_id(&mut self) -> (result: Result<u16, Error>)
        requires
            old(self).wf(),
        ensures
            final(self).wf(),
            match next_free(old(self)@) {
                Some(id) => result == Ok::<u16, Error>(id) && final(self)@ == (SessionView {
                    next_packet_id: id_after(id),
                    ..old(self)@
                }),
                None => result == Err::<u16, Error>(Error::Overloaded) && *final(self) == *old(self),
            },
    {
        let id: u16 = self.projected_packet_id()?;
        self.next_packet_id = if id == u16::MAX {
            1
        } else {
            id + 1
        };
        assert(self@ =~= (SessionView { next_packet_id: id_after(id), ..old(self)@ }));
        Ok(id)
    }

    fn count_exchanges(&self, puback: bool) -> (number: usize)
        ensures
            number == if puback {
                count(self@.outbound, is_puback())
            } else {
                count(self@.outbound, is_qos2())
            },
            number <= self.outbound@.len(),
    {
        let ghost p = if puback {
            is_puback()
        } else {
            is_qos2()
        };
        let mut number: usize = 0;
        let mut at: usize = 0;
        assert(count(self@.outbound.take(0), p) == 0);
        while at < self.outbound.len()
            invariant
                at <= self.outbound.len(),
                number <= at,
                p == if puback {
                    is_puback()
                } else {
                    is_qos2()
                },
                number == count(self@.outbound.take(at as int), p),
            decreases self.outbound.len() - at,
        {
            proof {
                let next = self@.outbound.take(at as int + 1);
                assert(next.drop_last() =~= self@.outbound.take(at as int));
                assert(next.last() == self.outbound@[at as int]@);
            }
            let is_puback = match self.outbound[at].state {
                OutboundState::AwaitPuback(_) => true,
                _ => false,
            };
            if is_puback == puback {
                number = number + 1;
            }
            at = at + 1;
        }
        assert(self@.outbound.take(self@.outbound.len() as int) =~= self@.outbound);
        number
    }

    /// How many unfinished exchanges of the first kind there are.
    pub fn qos1_exchanges(&self) -> (number: usize)
        ensures
            number == count(self@.outbound, is_puback()),
    {
        self.count_exchanges(true)
    }

    /// How many unfinished exchanges of the second kind the session has sent.
    pub fn qos2_exchanges(&self) -> (number: usize)
        ensures
            number == count(self@.outbound, is_qos2()),
    {
        self.count_exchanges(false)
    }

    pub fn has_outbound_capacity(&self, qos: u8, limits: &Limits) -> (available: bool)
        ensures
            available == outbound_capacity(self@, qos, *limits),
    {
        if qos == 1 {
            self.qos1_exchanges() < limits.max_inflight_qos1_per_session
        } else if qos == 2 {
            let used: u128 = self.qos2_exchanges() as u128 + self.inbound_qos2.len() as u128;
            used < limits.max_inflight_qos2_per_session as u128
        } else {
            0 < limits.max_inflight_qos2_per_session
        }
    }

    pub fn window_used(&self) -> (number: usize)
        ensures
            number == count(self@.outbound, is_windowed()),
    {
        let mut number: usize = 0;
        let mut at: usize = 0;
        assert(count(self@.outbound.take(0), is_windowed()) == 0);
        while at < self.outbound.len()
            invariant
                at <= self.outbound.len(),
                number <= at,
                number == count(self@.outbound.take(at as int), is_windowed()),
            decreases self.outbound.len() - at,
        {
            proof {
                let next = self@.outbound.take(at as int + 1);
                assert(next.drop_last() =~= self@.outbound.take(at as int));
                assert(next.last() == self.outbound@[at as int]@);
            }
            if self.outbound[at].windowed {
                number = number + 1;
            }
            at = at + 1;
        }
        assert(self@.outbound.take(self@.outbound.len() as int) =~= self@.outbound);
        number
    }

    pub fn has_send_quota(&self) -> (available: bool)
        ensures
            available == send_quota_left(self@),
    {
        self.window_used() < self.send_quota as usize
    }

    /// Adds an exchange at the end of the transmission order.
    pub fn insert_outbound(&mut self, entry: OutboundEntry)
        requires
            old(self).wf(),
            outbound_at(old(self)@, entry.packet_id) is None,
            session_charge(old(self)@) + charge_of(entry@.message) <= usize::MAX,
        ensures
            final(self).wf(),
            final(self)@ == (SessionView {
                outbound: old(self)@.outbound.push(entry@),
                ..old(self)@
            }),
    {
        let ghost before = self@;
        let ghost model = entry@;
        let charge: usize = entry.state.message().bytes();
        self.state_bytes = self.state_bytes + charge;
        self.outbound.push(entry);
        proof {
            let after = SessionView { outbound: before.outbound.push(model), ..before };
            assert(outbound_views(self.outbound@) =~= before.outbound.push(model));
            assert(self@ =~= after);
            lemma_total_push(before.outbound, model, outbound_charge());
            lemma_first(before.outbound, outbound_is(model.packet_id));
            assert forall|i: int| 0 <= i < before.outbound.len() implies outbound_key()(
                #[trigger] before.outbound[i],
            ) != outbound_key()(model) by {
                assert(!outbound_is(model.packet_id)(before.outbound[i]));
            }
            lemma_distinct_push(before.outbound, model, outbound_key());
        }
    }

    /// Takes an exchange out of the session.
    pub fn remove_outbound_at(&mut self, at: usize) -> (entry: OutboundEntry)
        requires
            old(self).wf(),
            at < old(self).outbound@.len(),
        ensures
            final(self).wf(),
            entry@ == old(self)@.outbound[at as int],
            final(self)@ == (SessionView {
                outbound: old(self)@.outbound.remove(at as int),
                ..old(self)@
            }),
    {
        let ghost before = self@;
        let entry = self.outbound.remove(at);
        let charge: usize = entry.state.message().bytes();
        proof {
            lemma_total_remove(before.outbound, at as int, outbound_charge());
            lemma_distinct_remove(before.outbound, at as int, outbound_key());
            assert(outbound_views(self.outbound@) =~= before.outbound.remove(at as int));
            assert(entry@ == before.outbound[at as int]);
        }
        self.state_bytes = self.state_bytes - charge;
        proof {
            assert(self@ =~= (SessionView {
                outbound: before.outbound.remove(at as int),
                ..before
            }));
        }
        entry
    }

    /// Adds a received message.
    pub fn insert_inbound(&mut self, entry: InboundEntry)
        requires
            old(self).wf(),
            inbound_at(old(self)@, entry.packet_id) is None,
            session_charge(old(self)@) + charge_of(entry@.message) <= usize::MAX,
        ensures
            final(self).wf(),
            final(self)@ == (SessionView {
                inbound: old(self)@.inbound.push(entry@),
                ..old(self)@
            }),
    {
        let ghost before = self@;
        let ghost model = entry@;
        let charge: usize = entry.state.message().bytes();
        self.state_bytes = self.state_bytes + charge;
        self.inbound_qos2.push(entry);
        proof {
            assert(inbound_views(self.inbound_qos2@) =~= before.inbound.push(model));
            assert(self@ =~= (SessionView { inbound: before.inbound.push(model), ..before }));
            lemma_total_push(before.inbound, model, inbound_charge());
            lemma_first(before.inbound, inbound_is(model.packet_id));
            assert forall|i: int| 0 <= i < before.inbound.len() implies inbound_key()(
                #[trigger] before.inbound[i],
            ) != inbound_key()(model) by {
                assert(!inbound_is(model.packet_id)(before.inbound[i]));
            }
            lemma_distinct_push(before.inbound, model, inbound_key());
        }
    }

    /// Takes a received message out.
    pub fn remove_inbound_at(&mut self, at: usize) -> (entry: InboundEntry)
        requires
            old(self).wf(),
            at < old(self).inbound_qos2@.len(),
        ensures
            final(self).wf(),
            entry@ == old(self)@.inbound[at as int],
            final(self)@ == (SessionView {
                inbound: old(self)@.inbound.remove(at as int),
                ..old(self)@
            }),
    {
        let ghost before = self@;
        let entry = self.inbound_qos2.remove(at);
        let charge: usize = entry.state.message().bytes();
        proof {
            lemma_total_remove(before.inbound, at as int, inbound_charge());
            lemma_distinct_remove(before.inbound, at as int, inbound_key());
            assert(inbound_views(self.inbound_qos2@) =~= before.inbound.remove(at as int));
            assert(entry@ == before.inbound[at as int]);
        }
        self.state_bytes = self.state_bytes - charge;
        proof {
            assert(self@ =~= (SessionView { inbound: before.inbound.remove(at as int), ..before }));
        }
        entry
    }

    /// Moves a received message on: only its stage, its operation and what is set aside change.
    pub fn update_inbound(
        &mut self,
        at: usize,
        stage: InboundStage,
        operation_id: Option<u64>,
        reservation: RetainedReservation,
    )
        requires
            old(self).wf(),
            at < old(self).inbound_qos2@.len(),
        ensures
            final(self).wf(),
            usage_of(final(self)@) == usage_of(old(self)@),
            final(self)@ == (SessionView {
                inbound: old(self)@.inbound.update(
                    at as int,
                    InboundView {
                        stage,
                        operation_id,
                        reservation,
                        ..old(self)@.inbound[at as int]
                    },
                ),
                ..old(self)@
            }),
    {
        let ghost before = self@;
        let ghost e = before.inbound[at as int];
        assert(e == self.inbound_qos2@[at as int]@);
        let entry = InboundEntry {
            packet_id: self.inbound_qos2[at].packet_id,
            state: InboundQos2State::of(stage, self.inbound_qos2[at].state.message().clone()),
            operation_id,
            reservation,
        };
        let ghost x = InboundView { stage, operation_id, reservation, ..e };
        assert(entry@ == x);
        self.inbound_qos2.set(at, entry);
        proof {
            lemma_total_update(before.inbound, at as int, x, inbound_charge());
            lemma_distinct_update(before.inbound, at as int, x, inbound_key());
            assert(inbound_views(self.inbound_qos2@) =~= before.inbound.update(at as int, x));
            assert(self@ =~= (SessionView {
                inbound: before.inbound.update(at as int, x),
                ..before
            }));
        }
    }

    fn find_window(&self, id: u16) -> (position: Option<usize>)
        ensures
            match position {
                Some(i) => i < self.inbound_window@.len() && self.inbound_window@[i as int] == id,
                None => !self.inbound_window@.contains(id),
            },
    {
        let mut at: usize = 0;
        while at < self.inbound_window.len()
            invariant
                at <= self.inbound_window.len(),
                forall|j: int| 0 <= j < at ==> #[trigger] self.inbound_window@[j] != id,
            decreases self.inbound_window.len() - at,
        {
            if self.inbound_window[at] == id {
                return Some(at);
            }
            at = at + 1;
        }
        None
    }

    /// Whether this connection has sent the message and its exchange is not complete.
    pub fn window_contains(&self, id: u16) -> (found: bool)
        ensures
            found == self@.inbound_window.contains(id),
    {
        let found = self.find_window(id);
        proof {
            if let Some(i) = found {
                assert(self.inbound_window@.contains(self.inbound_window@[i as int]));
            }
        }
        found.is_some()
    }

    /// How many messages of this connection are not complete.
    pub fn window_len(&self) -> (number: usize)
        requires
            self.wf(),
        ensures
            number == self@.inbound_window.len(),
            self@.inbound_window.finite(),
    {
        proof {
            self.inbound_window@.unique_seq_to_set();
        }
        self.inbound_window.len()
    }

    pub fn window_insert(&mut self, id: u16)
        requires
            old(self).wf(),
        ensures
            final(self).wf(),
            usage_of(final(self)@) == usage_of(old(self)@),
            final(self)@ == (SessionView {
                inbound_window: old(self)@.inbound_window.insert(id),
                ..old(self)@
            }),
    {
        let ghost before = self@;
        let ghost window = self.inbound_window@;
        if let Some(i) = self.find_window(id) {
            assert(window.contains(window[i as int]));
            assert(before.inbound_window.insert(id) =~= before.inbound_window);
            assert(self@ =~= (SessionView {
                inbound_window: before.inbound_window.insert(id),
                ..before
            }));
            return;
        }
        self.inbound_window.push(id);
        proof {
            assert forall|x: u16| #[trigger]
                window.push(id).to_set().contains(x) <==> window.to_set().insert(id).contains(x) by {
                if window.contains(x) {
                    let i = choose|i: int| 0 <= i < window.len() && window[i] == x;
                    assert(window.push(id)[i] == x);
                }
                if x == id {
                    assert(window.push(id)[window.len() as int] == x);
                }
                if window.push(id).contains(x) {
                    let i = choose|i: int| 0 <= i < window.push(id).len() && window.push(id)[i] == x;
                    if i < window.len() {
                        assert(window[i] == x);
                    }
                }
            }
            assert(window.push(id).to_set() =~= window.to_set().insert(id));
            assert(self@ =~= (SessionView {
                inbound_window: before.inbound_window.insert(id),
                ..before
            }));
        }
    }

    pub fn window_remove(&mut self, id: u16)
        requires
            old(self).wf(),
        ensures
            final(self).wf(),
            usage_of(final(self)@) == usage_of(old(self)@),
            final(self)@ == (SessionView {
                inbound_window: old(self)@.inbound_window.remove(id),
                ..old(self)@
            }),
    {
        let ghost before = self@;
        let ghost window = self.inbound_window@;
        if let Some(i) = self.find_window(id) {
            let _ = self.inbound_window.remove(i);
            proof {
                let after = window.remove(i as int);
                assert forall|x: u16| #[trigger]
                    after.to_set().contains(x) <==> window.to_set().remove(id).contains(x) by {
                    if after.contains(x) {
                        let k = choose|k: int| 0 <= k < after.len() && after[k] == x;
                        let from = if k < i {
                            k
                        } else {
                            k + 1
                        };
                        assert(window[from] == x);
                        assert(window[i as int] == id);
                    }
                    if window.contains(x) && x != id {
                        let k = choose|k: int| 0 <= k < window.len() && window[k] == x;
                        if k < i {
                            assert(after[k] == x);
                        } else {
                            assert(after[k - 1] == x);
                        }
                    }
                }
                assert(after.to_set() =~= window.to_set().remove(id));
                assert(after.no_duplicates());
            }
        } else {
            assert(before.inbound_window.remove(id) =~= before.inbound_window);
        }
        assert(self@ =~= (SessionView {
            inbound_window: before.inbound_window.remove(id),
            ..before
        }));
    }

    /// Moves an exchange on: its stage, which stays of the same quality of service, and whether
    /// its transfer has begun.
    pub fn update_outbound(&mut self, at: usize, stage: OutboundStage, started: bool)
        requires
            old(self).wf(),
            at < old(self).outbound@.len(),
        ensures
            final(self).wf(),
            final(self)@ == (SessionView {
                outbound: old(self)@.outbound.update(
                    at as int,
                    OutboundView { stage, started, ..old(self)@.outbound[at as int] },
                ),
                ..old(self)@
            }),
    {
        let ghost before = self@;
        let ghost e = before.outbound[at as int];
        assert(e == self.outbound@[at as int]@);
        let entry = OutboundEntry {
            packet_id: self.outbound[at].packet_id,
            state: OutboundState::of(stage, self.outbound[at].state.message().clone()),
            command: self.outbound[at].command,
            sent: self.outbound[at].sent,
            windowed: self.outbound[at].windowed,
            started,
        };
        let ghost x = OutboundView { stage, started, ..e };
        assert(entry@ == x);
        self.outbound.set(at, entry);
        proof {
            lemma_total_update(before.outbound, at as int, x, outbound_charge());
            lemma_distinct_update(before.outbound, at as int, x, outbound_key());
            assert(outbound_views(self.outbound@) =~= before.outbound.update(at as int, x));
            assert(self@ =~= (SessionView {
                outbound: before.outbound.update(at as int, x),
                ..before
            }));
        }
    }

    /// Adds or replaces a subscription.
    pub fn set_subscription(&mut self, filter: &str, subscription: Subscription)
        requires
            old(self).wf(),
            sub_at(old(self)@, filter@) is Some || session_charge(old(self)@) + text_bytes(filter@)
                + STATE_OVERHEAD <= usize::MAX,
        ensures
            final(self).wf(),
            final(self)@ == (SessionView {
                subscriptions: with_entry(
                    old(self)@.subscriptions,
                    filter@,
                    Some(subscription),
                ),
                ..old(self)@
            }),
    {
        let ghost before = self@;
        let ghost after = with_entry(before.subscriptions, filter@, Some(subscription));
        proof {
            law_one_value_per_key(before.subscriptions, filter@, Some(subscription), filter@);
            lemma_first(before.subscriptions, sub_is(filter@));
        }
        match self.find_subscription(filter) {
            Some(at) => {
                self.subscriptions[at].1 = subscription;
                proof {
                    lemma_total_update(
                        before.subscriptions,
                        at as int,
                        (filter@, subscription),
                        sub_charge(),
                    );
                    assert(sub_views(self.subscriptions@) =~= after);
                }
            },
            None => {
                let charge: usize = byte_len(filter) + STATE_OVERHEAD;
                self.state_bytes = self.state_bytes + charge;
                self.subscriptions.push((filter.to_owned(), subscription));
                proof {
                    lemma_total_push(before.subscriptions, (filter@, subscription), sub_charge());
                    assert(sub_views(self.subscriptions@) =~= after);
                }
            },
        }
        assert(self@ =~= (SessionView { subscriptions: after, ..before }));
    }

    /// Takes a subscription away.
    pub fn clear_subscription(&mut self, filter: &str) -> (removed: bool)
        requires
            old(self).wf(),
        ensures
            final(self).wf(),
            removed == (lookup(old(self)@.subscriptions, filter@) is Some),
            final(self)@ == (SessionView {
                subscriptions: with_entry(old(self)@.subscriptions, filter@, None),
                ..old(self)@
            }),
    {
        let ghost before = self@;
        let ghost after = with_entry(before.subscriptions, filter@, None::<Subscription>);
        proof {
            law_one_value_per_key(before.subscriptions, filter@, None::<Subscription>, filter@);
            lemma_first(before.subscriptions, sub_is(filter@));
        }
        match self.find_subscription(filter) {
            Some(at) => {
                proof {
                    lemma_total_member(before.subscriptions, at as int, sub_charge());
                    assert(before.subscriptions[at as int].0 == self.subscriptions@[at as int].0@);
                }
                let charge: usize = byte_len(self.subscriptions[at].0.as_str()) + STATE_OVERHEAD;
                let _ = self.subscriptions.remove(at);
                proof {
                    lemma_total_remove(before.subscriptions, at as int, sub_charge());
                    assert(sub_views(self.subscriptions@) =~= after);
                }
                self.state_bytes = self.state_bytes - charge;
                assert(self@ =~= (SessionView { subscriptions: after, ..before }));
                true
            },
            None => {
                assert(self@ =~= (SessionView { subscriptions: after, ..before }));
                false
            },
        }
    }

    /// Puts a message at the end of the waiting queue.
    pub fn push_offline(&mut self, message: BrokerMessage)
        requires
            old(self).wf(),
            session_charge(old(self)@) + charge_of(message@) <= usize::MAX,
        ensures
            final(self).wf(),
            final(self)@ == (SessionView {
                offline: old(self)@.offline.push(message@),
                ..old(self)@
            }),
    {
        let ghost before = self@;
        let ghost model = message@;
        let charge: usize = message.bytes();
        proof {
            lemma_total_push(before.offline, model, message_charge());
        }
        self.offline_bytes = self.offline_bytes + charge;
        self.state_bytes = self.state_bytes + charge;
        self.offline.push(message);
        proof {
            assert(message_views(self.offline@) =~= before.offline.push(model));
            assert(self@ =~= (SessionView { offline: before.offline.push(model), ..before }));
        }
    }

    /// Takes the first message out of the waiting queue.
    pub fn pop_offline(&mut self) -> (message: BrokerMessage)
        requires
            old(self).wf(),
            old(self).offline@.len() > 0,
        ensures
            final(self).wf(),
            message@ == old(self)@.offline[0],
            final(self)@ == (SessionView { offline: old(self)@.offline.remove(0), ..old(self)@ }),
    {
        let ghost before = self@;
        let message = self.offline.remove(0);
        let charge: usize = message.bytes();
        proof {
            lemma_total_remove(before.offline, 0, message_charge());
            assert(message_views(self.offline@) =~= before.offline.remove(0));
            assert(message@ == before.offline[0]);
        }
        self.offline_bytes = self.offline_bytes - charge;
        self.state_bytes = self.state_bytes - charge;
        proof {
            assert(self@ =~= (SessionView { offline: before.offline.remove(0), ..before }));
        }
        message
    }

    /// Notes that this connection has been handed an exchange.
    pub fn hand_over(&mut self, at: usize, windowed: bool)
        requires
            old(self).wf(),
            at < old(self).outbound@.len(),
        ensures
            final(self).wf(),
            usage_of(final(self)@) == usage_of(old(self)@),
            message_deadline(final(self)@) == message_deadline(old(self)@),
            final(self)@ == (SessionView {
                outbound: old(self)@.outbound.update(
                    at as int,
                    OutboundView {
                        sent: true,
                        windowed: windowed || old(self)@.outbound[at as int].windowed,
                        ..old(self)@.outbound[at as int]
                    },
                ),
                ..old(self)@
            }),
    {
        let ghost before = self@;
        self.outbound[at].sent = true;
        if windowed {
            self.outbound[at].windowed = true;
        }
        proof {
            let e = before.outbound[at as int];
            let x = OutboundView { sent: true, windowed: windowed || e.windowed, ..e };
            let after = before.outbound.update(at as int, x);
            assert(outbound_views(self.outbound@) =~= after);
            assert(self@ =~= (SessionView { outbound: after, ..before }));
            lemma_same_exchange(before.outbound, at as int, x);
        }
    }

    /// Starts an exchange under an identifier that is free.
    pub fn start_exchange(&mut self, id: u16, message: BrokerMessage, command: bool)
        requires
            old(self).wf(),
            outbound_at(old(self)@, id) is None,
            session_charge(old(self)@) + charge_of(message@) <= usize::MAX,
        ensures
            final(self).wf(),
            final(self)@ == (SessionView {
                outbound: old(self)@.outbound.push(fresh_exchange(id, message@, command)),
                ..old(self)@
            }),
    {
        let stage = if message.qos == 1 {
            OutboundStage::Puback
        } else {
            OutboundStage::Pubrec
        };
        let ghost model = message@;
        let entry = OutboundEntry {
            packet_id: id,
            state: OutboundState::of(stage, message),
            command,
            sent: true,
            windowed: true,
            started: false,
        };
        assert(entry@ == fresh_exchange(id, model, command));
        self.insert_outbound(entry);
    }

    /// Starts an exchange under the next free identifier.
    pub fn start_numbered(&mut self, id: u16, message: BrokerMessage)
        requires
            old(self).wf(),
            outbound_at(old(self)@, id) is None,
            session_charge(old(self)@) + charge_of(message@) <= usize::MAX,
        ensures
            final(self).wf(),
            final(self)@ == (SessionView {
                next_packet_id: id_after(id),
                outbound: old(self)@.outbound.push(fresh_exchange(id, message@, false)),
                ..old(self)@
            }),
    {
        let ghost before = self@;
        let ghost model = message@;
        self.start_exchange(id, message, false);
        self.next_packet_id = if id == u16::MAX {
            1
        } else {
            id + 1
        };
        assert(self@ =~= (SessionView {
            next_packet_id: id_after(id),
            outbound: before.outbound.push(fresh_exchange(id, model, false)),
            ..before
        }));
    }

    /// Makes the first waiting message an exchange under an identifier that is free.
    pub fn promote_first(&mut self, id: u16) -> (message: BrokerMessage)
        requires
            old(self).wf(),
            old(self).offline@.len() > 0,
            outbound_at(old(self)@, id) is None,
        ensures
            final(self).wf(),
            message@ == old(self)@.offline[0],
            final(self)@ == promoted(old(self)@, id),
    {
        let ghost before = self@;
        let message = self.pop_offline();
        proof {
            lemma_total_remove(before.offline, 0, message_charge());
        }
        self.start_exchange(id, message.clone(), false);
        self.next_packet_id = if id == u16::MAX {
            1
        } else {
            id + 1
        };
        assert(self@ =~= promoted(before, id));
        message
    }

    /// The quality of service of the first exchange that this connection has not been handed.
    pub fn unsent_outbound_qos(&self) -> (qos: Option<u8>)
        ensures
            qos == unsent_qos(self@),
    {
        match self.find_unsent() {
            Some(at) => match self.outbound[at].state {
                OutboundState::AwaitPuback(_) => Some(1),
                _ => Some(2),
            },
            None => None,
        }
    }

    /// The position of the first exchange that this connection has not been handed.
    pub fn find_unsent(&self) -> (position: Option<usize>)
        ensures
            match position {
                Some(i) => first(self@.outbound, is_unsent()) == Some(i as int) && i
                    < self.outbound@.len(),
                None => first(self@.outbound, is_unsent()) is None,
            },
    {
        let mut at: usize = 0;
        while at < self.outbound.len()
            invariant
                at <= self.outbound.len(),
                forall|j: int| 0 <= j < at ==> !is_unsent()(#[trigger] self@.outbound[j]),
            decreases self.outbound.len() - at,
        {
            if !self.outbound[at].sent {
                proof {
                    assert(is_first(self@.outbound, is_unsent(), at as int));
                    lemma_first_is(self@.outbound, is_unsent(), at as int);
                }
                return Some(at);
            }
            at = at + 1;
        }
        proof {
            lemma_first_none(self@.outbound, is_unsent());
        }
        None
    }

    /// The quality of service of what the session waits to send next.
    pub fn next_waiting_qos(&self) -> (qos: Option<u8>)
        ensures
            qos == waiting_qos(self@),
    {
        match self.unsent_outbound_qos() {
            Some(qos) => Some(qos),
            None => if self.offline.len() > 0 {
                Some(self.offline[0].qos)
            } else {
                None
            },
        }
    }

    /// When the next message of the session expires.
    pub fn next_message_expiry(&self) -> (deadline: Option<i64>)
        ensures
            deadline == message_deadline(self@),
    {
        let mut offline: Option<i64> = None;
        let mut at: usize = 0;
        assert(earliest_message(self@.offline.take(0)) is None);
        while at < self.offline.len()
            invariant
                at <= self.offline.len(),
                offline == earliest_message(self@.offline.take(at as int)),
            decreases self.offline.len() - at,
        {
            proof {
                let next = self@.offline.take(at as int + 1);
                assert(next.drop_last() =~= self@.offline.take(at as int));
                assert(next.last() == self.offline@[at as int]@);
            }
            offline = sooner(offline, self.offline[at].properties.expires_at_ms);
            at = at + 1;
        }
        assert(self@.offline.take(self@.offline.len() as int) =~= self@.offline);
        let mut outbound: Option<i64> = None;
        at = 0;
        assert(earliest_exchange(self@.outbound.take(0)) is None);
        while at < self.outbound.len()
            invariant
                at <= self.outbound.len(),
                outbound == earliest_exchange(self@.outbound.take(at as int)),
            decreases self.outbound.len() - at,
        {
            proof {
                let next = self@.outbound.take(at as int + 1);
                assert(next.drop_last() =~= self@.outbound.take(at as int));
                assert(next.last() == self.outbound@[at as int]@);
            }
            let deadline = match &self.outbound[at].state {
                OutboundState::AwaitPubcomp(message) => message.properties.expires_at_ms,
                OutboundState::AwaitPuback(message) => if self.outbound[at].started {
                    None
                } else {
                    message.properties.expires_at_ms
                },
                OutboundState::AwaitPubrec(message) => if self.outbound[at].started {
                    None
                } else {
                    message.properties.expires_at_ms
                },
            };
            outbound = sooner(outbound, deadline);
            at = at + 1;
        }
        assert(self@.outbound.take(self@.outbound.len() as int) =~= self@.outbound);
        sooner(offline, outbound)
    }

    /// What the session counts for in the broker's totals.
    pub fn usage(&self) -> (usage: SessionUsage)
        requires
            self.wf(),
        ensures
            usage@ == usage_of(self@),
    {
        proof {
            lemma_usage_bounded(self@);
        }
        SessionUsage {
            sessions: 1,
            state_bytes: self.state_bytes as u128,
            subscriptions: self.subscriptions.len() as u128,
            offline_count: self.offline.len() as u128,
            offline_bytes: self.offline_bytes as u128,
            qos1_inflight: self.qos1_exchanges() as u128,
            qos2_inflight: self.inbound_qos2.len() as u128 + self.qos2_exchanges() as u128,
        }
    }

    fn prune_offline(&mut self, now: i64)
        requires
            old(self).wf(),
        ensures
            final(self).wf(),
            final(self)@ == (SessionView {
                offline: keep(old(self)@.offline, fresh_message(now)),
                ..old(self)@
            }),
    {
        let ghost before = self@;
        let ghost p = fresh_message(now);
        let mut waiting: Vec<BrokerMessage> = Vec::new();
        std::mem::swap(&mut waiting, &mut self.offline);
        let mut kept: Vec<BrokerMessage> = Vec::new();
        let mut bytes: usize = 0;
        let ghost all = before.offline;
        assert(all =~= message_views(waiting@));
        assert(message_views(kept@) =~= keep(all.take(0), p));
        proof {
            lemma_keep_total(all, p, message_charge());
        }
        let ghost mut done: int = 0;
        while waiting.len() > 0
            invariant
                0 <= done <= all.len(),
                message_views(waiting@) == all.skip(done),
                message_views(kept@) == keep(all.take(done), p),
                bytes == total(keep(all.take(done), p), message_charge()),
                bytes <= total(all.take(done), message_charge()),
                total(all, message_charge()) <= usize::MAX,
                p == fresh_message(now),
            decreases waiting.len(),
        {
            let ghost old_waiting = message_views(waiting@);
            let message = waiting.remove(0);
            proof {
                assert(old_waiting == all.skip(done));
                assert(old_waiting.len() == all.len() - done);
                assert(old_waiting[0] == message@);
                assert(all.skip(done)[0] == all[done]);
                assert forall|i: int| 0 <= i < waiting@.len() implies #[trigger] message_views(
                    waiting@,
                )[i] == all.skip(done + 1)[i] by {
                    assert(old_waiting[i + 1] == all.skip(done)[i + 1]);
                }
                assert(message_views(waiting@) =~= all.skip(done + 1));
                lemma_keep_step(all, p, done);
                lemma_total_take(all, done, message_charge());
                if p(all[done]) {
                    lemma_total_push(keep(all.take(done), p), all[done], message_charge());
                }
            }
            let ghost old_kept = message_views(kept@);
            let ghost model = message@;
            if !message.expired(now) {
                bytes = bytes + message.bytes();
                kept.push(message);
                assert(message_views(kept@) =~= old_kept.push(model));
            }
            proof {
                done = done + 1;
            }
        }
        proof {
            assert(all.take(all.len() as int) =~= all);
            assert(done == all.len());
        }
        let released: usize = self.offline_bytes - bytes;
        self.state_bytes = self.state_bytes - released;
        self.offline_bytes = bytes;
        self.offline = kept;
        assert(self@ =~= (SessionView { offline: keep(before.offline, p), ..before }));
    }

    fn prune_outbound(&mut self, now: i64) -> (released: bool)
        requires
            old(self).wf(),
        ensures
            final(self).wf(),
            final(self)@ == (SessionView {
                outbound: keep(old(self)@.outbound, exchange_stays(now)),
                ..old(self)@
            }),
            released == (keep(old(self)@.outbound, exchange_stays(now)).len()
                < old(self)@.outbound.len()),
    {
        let ghost before = self@;
        let ghost p = exchange_stays(now);
        let ghost all = before.outbound;
        let number: usize = self.outbound.len();
        let mut exchanges: Vec<OutboundEntry> = Vec::new();
        std::mem::swap(&mut exchanges, &mut self.outbound);
        let mut kept: Vec<OutboundEntry> = Vec::new();
        let mut dropped: usize = 0;
        assert(all =~= outbound_views(exchanges@));
        assert(outbound_views(kept@) =~= keep(all.take(0), p));
        let ghost mut done: int = 0;
        while exchanges.len() > 0
            invariant
                0 <= done <= all.len(),
                outbound_views(exchanges@) == all.skip(done),
                outbound_views(kept@) == keep(all.take(done), p),
                dropped + total(keep(all.take(done), p), outbound_charge()) == total(
                    all.take(done),
                    outbound_charge(),
                ),
                total(all, outbound_charge()) <= usize::MAX,
                p == exchange_stays(now),
            decreases exchanges.len(),
        {
            let ghost old_exchanges = outbound_views(exchanges@);
            let entry = exchanges.remove(0);
            proof {
                assert(old_exchanges == all.skip(done));
                assert(old_exchanges.len() == all.len() - done);
                assert(old_exchanges[0] == entry@);
                assert(all.skip(done)[0] == all[done]);
                assert forall|i: int| 0 <= i < exchanges@.len() implies #[trigger] outbound_views(
                    exchanges@,
                )[i] == all.skip(done + 1)[i] by {
                    assert(old_exchanges[i + 1] == all.skip(done)[i + 1]);
                }
                assert(outbound_views(exchanges@) =~= all.skip(done + 1));
                lemma_keep_step(all, p, done);
                lemma_total_take(all, done, outbound_charge());
                if p(all[done]) {
                    lemma_total_push(keep(all.take(done), p), all[done], outbound_charge());
                }
            }
            let ghost old_kept = outbound_views(kept@);
            let ghost model = entry@;
            let stays = entry.started || entry.state.stage() == OutboundStage::Pubcomp
                || !entry.state.message().expired(now);
            if stays {
                kept.push(entry);
                assert(outbound_views(kept@) =~= old_kept.push(model));
            } else {
                dropped = dropped + entry.state.message().bytes();
            }
            proof {
                done = done + 1;
            }
        }
        proof {
            assert(all.take(all.len() as int) =~= all);
            assert(done == all.len());
            lemma_keep_distinct(all, p, outbound_key());
        }
        let released = kept.len() < number;
        self.state_bytes = self.state_bytes - dropped;
        self.outbound = kept;
        assert(self@ =~= (SessionView { outbound: keep(before.outbound, p), ..before }));
        released
    }

    fn slim_outbound(&mut self, now: i64)
        requires
            old(self).wf(),
        ensures
            final(self).wf(),
            final(self)@ == (SessionView {
                outbound: slim_all(old(self)@.outbound, now),
                ..old(self)@
            }),
    {
        let ghost before = self@;
        let ghost all = before.outbound;
        let number: usize = self.outbound.len();
        let mut at: usize = 0;
        while at < number
            invariant
                at <= number == self.outbound@.len() == all.len(),
                all == before.outbound,
                before == old(self)@,
                self.wf(),
                self@ == (SessionView { outbound: self@.outbound, ..before }),
                self@.outbound.len() == all.len(),
                forall|i: int| 0 <= i < at ==> #[trigger] self@.outbound[i] == slimmed(all[i], now),
                forall|i: int| at <= i < number ==> #[trigger] self@.outbound[i] == all[i],
            decreases number - at,
        {
            self.slim_at(at, now);
            at = at + 1;
        }
        proof {
            assert(self@.outbound =~= slim_all(all, now));
            assert(self@ =~= (SessionView { outbound: slim_all(all, now), ..before }));
        }
    }

    fn slim_at(&mut self, at: usize, now: i64)
        requires
            old(self).wf(),
            at < old(self).outbound@.len(),
        ensures
            final(self).wf(),
            final(self).outbound@.len() == old(self).outbound@.len(),
            final(self)@ == (SessionView {
                outbound: old(self)@.outbound.update(
                    at as int,
                    slimmed(old(self)@.outbound[at as int], now),
                ),
                ..old(self)@
            }),
    {
        let ghost before = self@;
        let ghost model = before.outbound[at as int];
        assert(model == self.outbound@[at as int]@);
        let due = self.outbound[at].state.stage() == OutboundStage::Pubcomp
            && self.outbound[at].state.message().expired(now);
        if !due {
            assert(before.outbound.update(at as int, slimmed(model, now)) =~= before.outbound);
            assert(self@ =~= (SessionView {
                outbound: before.outbound.update(at as int, slimmed(model, now)),
                ..before
            }));
            return;
        }
        let old_message = self.outbound[at].state.message();
        let old_charge: usize = old_message.bytes();
        let message = BrokerMessage {
            topic: old_message.topic.clone(),
            payload: Vec::new(),
            qos: old_message.qos,
            retain: old_message.retain,
            properties: PublishProperties::default(),
        };
        let charge: usize = message.bytes();
        let entry = OutboundEntry {
            packet_id: self.outbound[at].packet_id,
            state: OutboundState::AwaitPubcomp(message),
            command: self.outbound[at].command,
            sent: self.outbound[at].sent,
            windowed: self.outbound[at].windowed,
            started: self.outbound[at].started,
        };
        let ghost after = before.outbound.update(at as int, slimmed(model, now));
        proof {
            assert(message@ =~= emptied(model.message));
            assert(entry@ == slimmed(model, now));
            lemma_total_update(before.outbound, at as int, slimmed(model, now), outbound_charge());
            lemma_total_member(before.outbound, at as int, outbound_charge());
            lemma_distinct_update(before.outbound, at as int, slimmed(model, now), outbound_key());
            assert(charge <= old_charge);
        }
        self.outbound.set(at, entry);
        self.state_bytes = self.state_bytes - (old_charge - charge);
        proof {
            assert(outbound_views(self.outbound@) =~= after);
            assert(self@ =~= (SessionView { outbound: after, ..before }));
        }
    }

    fn clear_handed(&mut self)
        requires
            old(self).wf(),
        ensures
            final(self).wf(),
            final(self)@ == (SessionView { outbound: unhanded(old(self)@.outbound), ..old(self)@ }),
    {
        let ghost before = self@;
        let number: usize = self.outbound.len();
        let mut at: usize = 0;
        while at < number
            invariant
                at <= number == self.outbound@.len() == before.outbound.len(),
                before == old(self)@,
                self@ == (SessionView { outbound: self@.outbound, ..before }),
                self.offline_bytes == old(self).offline_bytes,
                self.state_bytes == old(self).state_bytes,
                self.inbound_window == old(self).inbound_window,
                forall|i: int| 0 <= i < at ==> #[trigger] self@.outbound[i] == (OutboundView {
                    sent: false,
                    windowed: false,
                    ..before.outbound[i]
                }),
                forall|i: int|
                    at <= i < number ==> #[trigger] self@.outbound[i] == before.outbound[i],
            decreases number - at,
        {
            let ghost middle = self@;
            self.outbound[at].sent = false;
            self.outbound[at].windowed = false;
            proof {
                assert forall|i: int| 0 <= i < number && i != at implies #[trigger]
                    self@.outbound[i] == middle.outbound[i] by {}
                assert(middle.outbound[at as int] == before.outbound[at as int]);
            }
            at = at + 1;
        }
        proof {
            assert(self@.outbound =~= unhanded(before.outbound));
            assert(self@ =~= (SessionView { outbound: unhanded(before.outbound), ..before }));
            lemma_total_same(
                unhanded(before.outbound),
                before.outbound,
                outbound_charge(),
                outbound_charge(),
            );
            assert(distinct(unhanded(before.outbound), outbound_key())) by {
                let u = unhanded(before.outbound);
                assert forall|i: int, j: int|
                    0 <= i < u.len() && 0 <= j < u.len() && i != j implies outbound_key()(
                    #[trigger] u[i],
                ) != outbound_key()(#[trigger] u[j]) by {
                    assert(outbound_key()(before.outbound[i]) != outbound_key()(
                        before.outbound[j],
                    ));
                }
            }
        }
    }

    /// A new connection takes the session up.
    pub fn reconnect(
        &mut self,
        generation: u64,
        now: i64,
        session_expiry_interval: u32,
        send_quota: u16,
    )
        requires
            old(self).wf(),
        ensures
            final(self).wf(),
            final(self)@ == reconnected(
                old(self)@,
                generation,
                now,
                session_expiry_interval,
                send_quota,
            ),
    {
        let ghost before = self@;
        self.clear_handed();
        self.active_generation = Some(generation);
        self.last_seen_ms = now;
        self.expires_at_ms = None;
        self.session_expiry_interval = session_expiry_interval;
        self.send_quota = send_quota;
        self.inbound_window = Vec::new();
        proof {
            assert(self.inbound_window@.to_set() =~= Set::<u16>::empty());
            assert(self@ =~= reconnected(
                before,
                generation,
                now,
                session_expiry_interval,
                send_quota,
            ));
        }
    }

    /// The connection leaves the session.
    pub fn disconnect(&mut self, now: i64)
        requires
            old(self).wf(),
        ensures
            final(self).wf(),
            final(self)@ == disconnected(old(self)@, now),
    {
        let ghost before = self@;
        self.clear_handed();
        self.active_generation = None;
        self.last_seen_ms = now;
        self.inbound_window = Vec::new();
        if self.version == MqttVersion::V5 && self.session_expiry_interval != u32::MAX {
            self.expires_at_ms = Some(deadline(now, self.session_expiry_interval));
        }
        proof {
            assert(self.inbound_window@.to_set() =~= Set::<u16>::empty());
            assert(self@ =~= disconnected(before, now));
        }
    }

    /// Drops what has expired. Tells whether an exchange was given up.
    pub fn prune_messages(&mut self, now: i64) -> (released: bool)
        requires
            old(self).wf(),
        ensures
            final(self).wf(),
            final(self)@ == pruned(old(self)@, now),
            released == (keep(old(self)@.outbound, exchange_stays(now)).len()
                < old(self)@.outbound.len()),
    {
        self.prune_offline(now);
        let released = self.prune_outbound(now);
        self.slim_outbound(now);
        released
    }
}

fn sooner(left: Option<i64>, right: Option<i64>) -> (result: Option<i64>)
    ensures
        result == earlier(left, right),
{
    match (left, right) {
        (Some(l), Some(r)) => if l <= r {
            Some(l)
        } else {
            Some(r)
        },
        (Some(l), None) => Some(l),
        (None, r) => r,
    }
}

} // verus!
