//! The broker in memory, and the small steps that everything else is made of.
use super::model::{
    active_at, active_is, add_wake, bytes_fit, empty_broker, entry_reserved_bytes,
    entry_reserved_count, expiry_deadline, frame_charge, frame_fits, growth_allowed, guard_wills,
    has_room, in_scope, inflight, link_used, mark, message_due, outbound_used, owns, put_session,
    reindexed, released, reserved, reserved_bytes, reserved_count, retained_at, retained_bytes,
    retained_bytes_of, retained_charge, retained_count, retained_in, retained_is, sat_add, sent,
    session_at, session_is, session_key, session_reserved_bytes, session_reserved_count,
    state_bytes, tenant_limit, touch_session, unmark, wakes_after, wanted_qos, will_bytes,
    will_bytes_of, will_charge, will_count, will_in, will_reserved_bytes, will_reserved_count,
    BrokerView, DelayView, FrameView, GuardView, LinkView, RetainedView, WillView,
};
use crate::codec::MqttVersion;
use crate::identity::{
    clone_key_option, key_option_view, key_ref_view, DeviceKey, KeyView, SessionKey, TenantId,
};
use crate::limits::Limits;
use crate::list::{
    count, distinct, first, is_first, lemma_distinct_push, lemma_distinct_remove,
    lemma_distinct_update, lemma_first, lemma_first_is, lemma_first_none, lemma_total_take, total,
};
use crate::message::{sat, BrokerMessage, STATE_OVERHEAD};
use crate::session::{
    lemma_usage_bounded, usage_of, InboundEntry, RetainedReservation, SessionUsage, SessionView,
    StoredSession, UsageView,
};
use crate::table::{DeadlineIndex, Table};
use crate::text::{byte_len, same_text};
use crate::trie::SubscriptionTrie;
use crate::usage::{
    balanced, entry_fits, ledger_of, no_usage, tenant_usage, total_usage, zero_usage, Accounts,
};
use vstd::prelude::*;

verus! {

/// A message on its way to a connection. Its bytes stay counted against the connection, the
/// tenant and the broker until it is written or dropped.
#[derive(Debug, PartialEq, Eq)]
pub struct BrokerDelivery {
    pub message: BrokerMessage,
    pub packet_id: Option<u16>,
    pub dup: bool,
    pub command: bool,
}

/// What the broker hands to a connection.
#[derive(Debug, PartialEq, Eq)]
pub enum BrokerFrame {
    Publish(Box<BrokerDelivery>),
    Pubrel { packet_id: u16, dup: bool },
}

impl View for BrokerFrame {
    type V = FrameView;

    open spec fn view(&self) -> FrameView {
        match *self {
            BrokerFrame::Publish(delivery) => FrameView::Publish {
                message: delivery.message@,
                packet_id: delivery.packet_id,
                dup: delivery.dup,
                command: delivery.command,
            },
            BrokerFrame::Pubrel { packet_id, dup } => FrameView::Pubrel { packet_id, dup },
        }
    }
}

impl BrokerFrame {
    pub fn publish(message: BrokerMessage, packet_id: Option<u16>, dup: bool, command: bool) -> (frame:
        BrokerFrame)
        ensures
            frame@ == (FrameView::Publish { message: message@, packet_id, dup, command }),
    {
        BrokerFrame::Publish(Box::new(BrokerDelivery { message, packet_id, dup, command }))
    }

    /// The bytes that the frame occupies until it is written.
    pub fn bytes(&self) -> (bytes: usize)
        ensures
            bytes == frame_charge(self@),
    {
        match self {
            BrokerFrame::Publish(delivery) => delivery.message.bytes(),
            BrokerFrame::Pubrel { .. } => 0,
        }
    }
}

pub open spec fn frame_views(s: Seq<BrokerFrame>) -> Seq<FrameView> {
    Seq::new(s.len(), |i: int| s[i]@)
}

/// The broker's end of a network connection.
#[derive(Debug, PartialEq, Eq)]
pub struct Link {
    pub key: SessionKey,
    pub generation: u64,
    pub queue: Vec<BrokerFrame>,
    pub open: bool,
    pub active: bool,
    pub cancelled: bool,
    pub used: usize,
    pub receiver: u64,
    pub adrift: bool,
}

impl View for Link {
    type V = LinkView;

    open spec fn view(&self) -> LinkView {
        LinkView {
            key: self.key@,
            generation: self.generation,
            queue: frame_views(self.queue@),
            open: self.open,
            active: self.active,
            cancelled: self.cancelled,
            used: self.used as nat,
            receiver: self.receiver,
            adrift: self.adrift,
        }
    }
}

/// A retained message, the tenant it counts for and the session that published it.
#[derive(Debug, PartialEq, Eq)]
pub struct RetainedMessage {
    pub tenant_id: TenantId,
    pub message: BrokerMessage,
    pub origin: Option<SessionKey>,
}

impl View for RetainedMessage {
    type V = RetainedView;

    open spec fn view(&self) -> RetainedView {
        RetainedView {
            tenant: self.tenant_id@,
            message: self.message@,
            origin: key_option_view(self.origin),
        }
    }
}

impl Clone for RetainedMessage {
    fn clone(&self) -> (copy: RetainedMessage)
        ensures
            copy@ == self@,
    {
        RetainedMessage {
            tenant_id: self.tenant_id.clone(),
            message: self.message.clone(),
            origin: clone_key_option(&self.origin),
        }
    }
}

impl RetainedMessage {
    pub fn bytes(&self) -> (bytes: usize)
        ensures
            bytes == retained_charge(self@.message, self@.origin),
    {
        retained_bytes_for(&self.message, self.origin.as_ref())
    }
}

/// A will whose publication the broker has taken over.
#[derive(Debug, PartialEq, Eq)]
pub struct PendingWill {
    pub owner: DeviceKey,
    pub origin: Option<SessionKey>,
    pub message: BrokerMessage,
    pub due_at_ms: Option<i64>,
    pub cancel_on_resume: Option<(SessionKey, u64)>,
    pub message_expiry_interval: Option<u32>,
    pub retained_reservation: RetainedReservation,
    /// The will counts towards how many there may be.
    pub counted: bool,
}

pub open spec fn resume_view(cancel: Option<(SessionKey, u64)>) -> Option<(KeyView, u64)> {
    match cancel {
        Some((key, incarnation)) => Some((key@, incarnation)),
        None => None,
    }
}

impl View for PendingWill {
    type V = WillView;

    open spec fn view(&self) -> WillView {
        WillView {
            owner: self.owner@,
            origin: key_option_view(self.origin),
            message: self.message@,
            due_at_ms: self.due_at_ms,
            cancel_on_resume: resume_view(self.cancel_on_resume),
            message_expiry_interval: self.message_expiry_interval,
            reservation: self.retained_reservation,
            counted: self.counted,
        }
    }
}

impl Clone for PendingWill {
    fn clone(&self) -> (copy: PendingWill)
        ensures
            copy@ == self@,
    {
        PendingWill {
            owner: self.owner.clone(),
            origin: clone_key_option(&self.origin),
            message: self.message.clone(),
            due_at_ms: self.due_at_ms,
            cancel_on_resume: match &self.cancel_on_resume {
                Some(entry) => Some((entry.0.clone(), entry.1)),
                None => None,
            },
            message_expiry_interval: self.message_expiry_interval,
            retained_reservation: self.retained_reservation,
            counted: self.counted,
        }
    }
}

impl PendingWill {
    pub fn bytes(&self) -> (bytes: usize)
        ensures
            bytes == will_charge(self@.message, self@.origin),
    {
        will_bytes_for(&self.message, self.origin.as_ref())
    }
}

/// When and for which connection a will is published.
#[derive(Debug, PartialEq, Eq)]
pub struct WillDelay {
    pub delay: u32,
    pub session_expiry: u32,
    pub key: SessionKey,
    pub incarnation: u64,
    pub generation: u64,
}

impl View for WillDelay {
    type V = DelayView;

    open spec fn view(&self) -> DelayView {
        DelayView {
            delay: self.delay,
            session_expiry: self.session_expiry,
            key: self.key@,
            incarnation: self.incarnation,
            generation: self.generation,
        }
    }
}

pub open spec fn delay_view(delay: Option<WillDelay>) -> Option<DelayView> {
    match delay {
        Some(delay) => Some(delay@),
        None => None,
    }
}

/// A will that still belongs to its connection.
#[derive(Debug, PartialEq, Eq)]
pub struct HeldWill {
    pub token: u64,
    pub will: PendingWill,
    pub delay: Option<WillDelay>,
    pub armed: bool,
}

impl View for HeldWill {
    type V = GuardView;

    open spec fn view(&self) -> GuardView {
        GuardView {
            token: self.token,
            will: self.will@,
            delay: delay_view(self.delay),
            armed: self.armed,
        }
    }
}

/// What a will of this message is charged.
pub fn will_bytes_for(message: &BrokerMessage, origin: Option<&SessionKey>) -> (bytes: usize)
    ensures
        bytes == will_charge(message@, key_ref_view(origin)),
{
    let base: u128 = message.bytes() as u128;
    let extra: u128 = match origin {
        Some(key) => byte_len(key.client_id.as_str()) as u128 + 2,
        None => 0,
    };
    saturated(base + extra)
}

/// What a retained message is charged.
pub fn retained_bytes_for(message: &BrokerMessage, origin: Option<&SessionKey>) -> (bytes: usize)
    ensures
        bytes == retained_charge(message@, key_ref_view(origin)),
{
    let base: u128 = message.bytes() as u128;
    let extra: u128 = match origin {
        Some(key) => byte_len(key.client_id.as_str()) as u128 + byte_len(
            key.device.tenant_id.as_str(),
        ) as u128 + byte_len(key.device.product_id.as_str()) as u128 + byte_len(
            key.device.device_id.as_str(),
        ) as u128 + STATE_OVERHEAD as u128,
        None => 0,
    };
    saturated(base + extra)
}

pub fn saturated(value: u128) -> (result: usize)
    ensures
        result == sat(value as nat),
{
    if value > usize::MAX as u128 {
        usize::MAX
    } else {
        value as usize
    }
}

/// A sum that stops at the largest machine integer; every bound lies far below it.
pub open spec fn cap(n: nat) -> nat {
    if n > u128::MAX {
        u128::MAX as nat
    } else {
        n
    }
}

pub fn cap_sum(a: u128, b: u128) -> (sum: u128)
    ensures
        sum == cap(a as nat + b as nat),
{
    if b > u128::MAX - a {
        u128::MAX
    } else {
        a + b
    }
}

pub open spec fn session_views(s: Seq<StoredSession>) -> Seq<SessionView> {
    Seq::new(s.len(), |i: int| s[i]@)
}

pub open spec fn link_views(s: Seq<Link>) -> Seq<LinkView> {
    Seq::new(s.len(), |i: int| s[i]@)
}

pub open spec fn retained_views(s: Seq<RetainedMessage>) -> Seq<RetainedView> {
    Seq::new(s.len(), |i: int| s[i]@)
}

pub open spec fn will_views(s: Seq<PendingWill>) -> Seq<WillView> {
    Seq::new(s.len(), |i: int| s[i]@)
}

pub open spec fn guard_views(s: Seq<HeldWill>) -> Seq<GuardView> {
    Seq::new(s.len(), |i: int| s[i]@)
}

pub open spec fn wake_views(s: Seq<(TenantId, u8)>) -> Seq<(Seq<char>, u8)> {
    Seq::new(s.len(), |i: int| (s[i].0@, s[i].1))
}

/// The broker.
pub struct MqttBroker {
    pub limits: Limits,
    pub sessions: Vec<StoredSession>,
    pub accounts: Accounts,
    pub links: Vec<Link>,
    pub trie: SubscriptionTrie,
    pub retained: Vec<RetainedMessage>,
    /// Restored messages that another of the same topic replaced at once. They are gone but still
    /// counted.
    pub shadowed: Vec<RetainedMessage>,
    pub pending_wills: Vec<PendingWill>,
    pub future_wills: Vec<PendingWill>,
    pub guards: Vec<HeldWill>,
    pub next_guard: u64,
    pub pending: Table<SessionKey, u8>,
    pub wakes: Vec<(TenantId, u8)>,
    pub session_expiry: DeadlineIndex<SessionKey>,
    pub message_expiry: DeadlineIndex<SessionKey>,
    pub retained_expiry: DeadlineIndex<String>,
    pub generation: u64,
    pub operation_id: u64,
    pub next_receiver: u64,
}

impl View for MqttBroker {
    type V = BrokerView;

    open spec fn view(&self) -> BrokerView {
        BrokerView {
            sessions: session_views(self.sessions@),
            links: link_views(self.links@),
            trie: self.trie@,
            retained: retained_views(self.retained@),
            shadowed: retained_views(self.shadowed@),
            pending_wills: will_views(self.pending_wills@),
            future_wills: will_views(self.future_wills@),
            guards: guard_views(self.guards@),
            next_guard: self.next_guard,
            pending: self.pending@,
            wakes: wake_views(self.wakes@),
            session_expiry: self.session_expiry@,
            message_expiry: self.message_expiry@,
            retained_expiry: self.retained_expiry@,
            generation: self.generation,
            operation_id: self.operation_id,
            next_receiver: self.next_receiver,
        }
    }
}

pub open spec fn scope_view(scope: Option<&TenantId>) -> Option<Seq<char>> {
    match scope {
        Some(tenant) => Some(tenant@),
        None => None,
    }
}

fn scope_holds(scope: Option<&TenantId>, tenant: &TenantId) -> (holds: bool)
    ensures
        holds == in_scope(scope_view(scope), tenant@),
{
    match scope {
        Some(wanted) => wanted.same(tenant),
        None => true,
    }
}

pub open spec fn shown(l: LinkView) -> (bool, KeyView) {
    (l.active, l.key)
}

pub proof fn lemma_ledger_update(s: Seq<SessionView>, at: int, x: SessionView)
    requires
        0 <= at < s.len(),
        x.key == s[at].key,
    ensures
        ledger_of(s.update(at, x)) == ledger_of(s).update(at, (x.key, usage_of(x))),
{
    assert(ledger_of(s.update(at, x)) =~= ledger_of(s).update(at, (x.key, usage_of(x))));
}

/// The amounts of a session in memory fit the machine.
pub proof fn lemma_session_fits(s: StoredSession)
    requires
        s.wf(),
    ensures
        entry_fits(usage_of(s@)),
{
    lemma_usage_bounded(s@);
}

/// Every session is in order, and no key occurs twice.
#[verifier::opaque]
pub open spec fn sessions_ok(s: Seq<StoredSession>) -> bool {
    &&& forall|i: int| 0 <= i < s.len() ==> (#[trigger] s[i]).wf()
    &&& distinct(session_views(s), session_key())
}

pub proof fn lemma_session_ok(s: Seq<StoredSession>, i: int)
    requires
        sessions_ok(s),
        0 <= i < s.len(),
    ensures
        s[i].wf(),
{
    reveal(sessions_ok);
}

proof fn lemma_ok_update(s: Seq<StoredSession>, at: int, x: StoredSession)
    requires
        sessions_ok(s),
        0 <= at < s.len(),
        x.wf(),
        x@.key == s[at]@.key,
    ensures
        sessions_ok(s.update(at, x)),
{
    reveal(sessions_ok);
    lemma_distinct_update(session_views(s), at, x@, session_key());
    assert(session_views(s.update(at, x)) =~= session_views(s).update(at, x@));
}

proof fn lemma_ok_push(s: Seq<StoredSession>, x: StoredSession)
    requires
        sessions_ok(s),
        x.wf(),
        first(session_views(s), session_is(x@.key)) is None,
    ensures
        sessions_ok(s.push(x)),
{
    reveal(sessions_ok);
    let v = session_views(s);
    lemma_first(v, session_is(x@.key));
    assert forall|i: int| 0 <= i < v.len() implies session_key()(#[trigger] v[i])
        != session_key()(x@) by {
        assert(!session_is(x@.key)(v[i]));
    }
    lemma_distinct_push(v, x@, session_key());
    assert(session_views(s.push(x)) =~= v.push(x@));
}

proof fn lemma_ok_remove(s: Seq<StoredSession>, at: int)
    requires
        sessions_ok(s),
        0 <= at < s.len(),
    ensures
        sessions_ok(s.remove(at)),
        session_views(s.remove(at)) == session_views(s).remove(at),
{
    reveal(sessions_ok);
    lemma_distinct_remove(session_views(s), at, session_key());
    assert(session_views(s.remove(at)) =~= session_views(s).remove(at));
    assert forall|i: int| 0 <= i < s.remove(at).len() implies (#[trigger] s.remove(at)[i]).wf() by {
        if i < at {
            assert(s[i].wf());
        } else {
            assert(s[i + 1].wf());
        }
    }
}

impl MqttBroker {
    /// Sessions are in order, no key occurs twice, and the running totals are what the sessions
    /// add up to.
    pub open spec fn wf(self) -> bool {
        &&& sessions_ok(self.sessions@)
        &&& balanced(self.accounts, ledger_of(self@.sessions))
    }

    /// A broker without anything in it.
    pub fn new(limits: Limits) -> (broker: MqttBroker)
        ensures
            broker.wf(),
            broker.limits == limits,
            broker@ == empty_broker(),
    {
        let broker = MqttBroker {
            limits,
            sessions: Vec::new(),
            accounts: Accounts::new(),
            links: Vec::new(),
            trie: SubscriptionTrie::new(),
            retained: Vec::new(),
            shadowed: Vec::new(),
            pending_wills: Vec::new(),
            future_wills: Vec::new(),
            guards: Vec::new(),
            next_guard: 0,
            pending: Table::new(),
            wakes: Vec::new(),
            session_expiry: DeadlineIndex::new(),
            message_expiry: DeadlineIndex::new(),
            retained_expiry: DeadlineIndex::new(),
            generation: 0,
            operation_id: 0,
            next_receiver: 0,
        };
        proof {
            reveal(sessions_ok);
            assert(broker@ =~= empty_broker());
            assert(ledger_of(broker@.sessions) =~= Seq::<(KeyView, UsageView)>::empty());
        }
        broker
    }

    pub fn find_session(&self, key: &SessionKey) -> (position: Option<usize>)
        ensures
            match position {
                Some(i) => session_at(self@, key@) == Some(i as int) && i < self.sessions@.len()
                    && self@.sessions[i as int].key == key@,
                None => session_at(self@, key@) is None,
            },
    {
        let mut at: usize = 0;
        while at < self.sessions.len()
            invariant
                at <= self.sessions.len(),
                forall|j: int| 0 <= j < at ==> !session_is(key@)(#[trigger] self@.sessions[j]),
            decreases self.sessions.len() - at,
        {
            if self.sessions[at].key.same(key) {
                proof {
                    assert(is_first(self@.sessions, session_is(key@), at as int));
                    lemma_first_is(self@.sessions, session_is(key@), at as int);
                }
                return Some(at);
            }
            at = at + 1;
        }
        proof {
            lemma_first_none(self@.sessions, session_is(key@));
        }
        None
    }

    pub fn find_active(&self, key: &SessionKey) -> (position: Option<usize>)
        ensures
            match position {
                Some(i) => active_at(self@, key@) == Some(i as int) && i < self.links@.len()
                    && self@.links[i as int].key == key@ && self@.links[i as int].active,
                None => active_at(self@, key@) is None,
            },
    {
        let mut at: usize = 0;
        while at < self.links.len()
            invariant
                at <= self.links.len(),
                forall|j: int| 0 <= j < at ==> !active_is(key@)(#[trigger] self@.links[j]),
            decreases self.links.len() - at,
        {
            if self.links[at].active && self.links[at].key.same(key) {
                proof {
                    assert(is_first(self@.links, active_is(key@), at as int));
                    lemma_first_is(self@.links, active_is(key@), at as int);
                }
                return Some(at);
            }
            at = at + 1;
        }
        proof {
            lemma_first_none(self@.links, active_is(key@));
        }
        None
    }

    pub fn find_retained(&self, topic: &str) -> (position: Option<usize>)
        ensures
            match position {
                Some(i) => retained_at(self@, topic@) == Some(i as int) && i < self.retained@.len(),
                None => retained_at(self@, topic@) is None,
            },
    {
        let mut at: usize = 0;
        while at < self.retained.len()
            invariant
                at <= self.retained.len(),
                forall|j: int| 0 <= j < at ==> !retained_is(topic@)(#[trigger] self@.retained[j]),
            decreases self.retained.len() - at,
        {
            if same_text(self.retained[at].message.topic.as_str(), topic) {
                proof {
                    assert(is_first(self@.retained, retained_is(topic@), at as int));
                    lemma_first_is(self@.retained, retained_is(topic@), at as int);
                }
                return Some(at);
            }
            at = at + 1;
        }
        proof {
            lemma_first_none(self@.retained, retained_is(topic@));
        }
        None
    }

    /// Whether the connection of this generation holds the session.
    pub fn check_owner(&self, key: &SessionKey, generation: u64) -> (owner: bool)
        ensures
            owner == owns(self@, key@, generation),
    {
        match self.find_active(key) {
            Some(j) => self.links[j].generation == generation,
            None => false,
        }
    }

    fn session_expiry_deadline(&self, key: &SessionKey) -> (deadline: Option<i64>)
        ensures
            deadline == expiry_deadline(self@, self.limits, key@),
    {
        if self.find_active(key).is_some() {
            return None;
        }
        match self.find_session(key) {
            Some(i) => {
                if self.sessions[i].version == MqttVersion::V5 {
                    self.sessions[i].expires_at_ms
                } else {
                    let ttl: i64 = if self.limits.mqtt_session_idle_ttl_ms > i64::MAX as u64 {
                        i64::MAX
                    } else {
                        self.limits.mqtt_session_idle_ttl_ms as i64
                    };
                    Some(later(later(self.sessions[i].last_seen_ms, ttl), 1))
                }
            },
            None => None,
        }
    }

    /// Whether a session that no connection holds has outlived its time.
    pub fn session_expired(&self, key: &SessionKey, now: i64) -> (expired: bool)
        ensures
            expired == (expiry_deadline(self@, self.limits, key@) matches Some(deadline) && deadline
                <= now),
    {
        match self.session_expiry_deadline(key) {
            Some(deadline) => deadline <= now,
            None => false,
        }
    }

    pub fn message_expiry_due(&self, key: &SessionKey, now: i64) -> (due: bool)
        ensures
            due == message_due(self@, key@, now),
    {
        match self.message_expiry.get(key) {
            Some(deadline) => deadline <= now,
            None => false,
        }
    }

    /// Brings the deadlines of one session up to date.
    pub fn reindex(&mut self, key: &SessionKey)
        requires
            old(self).wf(),
        ensures
            final(self).wf(),
            final(self).limits == old(self).limits,
            final(self)@ == reindexed(old(self)@, old(self).limits, key@),
    {
        let message = match self.find_session(key) {
            Some(i) => self.sessions[i].next_message_expiry(),
            None => None,
        };
        let session = self.session_expiry_deadline(key);
        self.message_expiry.update(key, message);
        self.session_expiry.update(key, session);
        assert(self@ =~= reindexed(old(self)@, old(self).limits, key@));
    }

    fn insert_wake(&mut self, tenant: &TenantId, qos: u8)
        ensures
            final(self)@ == (BrokerView {
                wakes: add_wake(old(self)@.wakes, (tenant@, qos)),
                ..old(self)@
            }),
            final(self).limits == old(self).limits,
            final(self).sessions == old(self).sessions,
            final(self).accounts == old(self).accounts,
    {
        let ghost wakes = self@.wakes;
        let mut at: usize = 0;
        while at < self.wakes.len()
            invariant
                at <= self.wakes.len(),
                *self == *old(self),
                wakes == self@.wakes,
                forall|j: int| 0 <= j < at ==> #[trigger] wakes[j] != (tenant@, qos),
            decreases self.wakes.len() - at,
        {
            if self.wakes[at].1 == qos && self.wakes[at].0.same(tenant) {
                assert(wakes[at as int] == (tenant@, qos));
                assert(self@ =~= (BrokerView {
                    wakes: add_wake(old(self)@.wakes, (tenant@, qos)),
                    ..old(self)@
                }));
                return;
            }
            assert(wakes[at as int] != (tenant@, qos));
            at = at + 1;
        }
        assert(!wakes.contains((tenant@, qos)));
        self.wakes.push((tenant.clone(), qos));
        assert(self@.wakes =~= wakes.push((tenant@, qos)));
        assert(self@ =~= (BrokerView {
            wakes: add_wake(old(self)@.wakes, (tenant@, qos)),
            ..old(self)@
        }));
    }

    /// Notes the tenant when it has fewer exchanges in flight than before.
    fn note_release(&mut self, tenant: &TenantId, before: SessionUsage, after: SessionUsage)
        ensures
            final(self)@ == (BrokerView {
                wakes: wakes_after(old(self)@.wakes, tenant@, before@, after@),
                ..old(self)@
            }),
            final(self).limits == old(self).limits,
            final(self).sessions == old(self).sessions,
            final(self).accounts == old(self).accounts,
    {
        if after.qos1_inflight < before.qos1_inflight {
            self.insert_wake(tenant, 1);
        }
        if after.qos2_inflight < before.qos2_inflight {
            self.insert_wake(tenant, 2);
        }
    }

    /// Sets a finished exchange's tenant down for a look.
    pub fn restore_wake(&mut self, tenant: &TenantId, qos: u8)
        requires
            old(self).wf(),
        ensures
            final(self).wf(),
            final(self).limits == old(self).limits,
            final(self)@ == (BrokerView {
                wakes: add_wake(old(self)@.wakes, (tenant@, qos)),
                ..old(self)@
            }),
    {
        self.insert_wake(tenant, qos);
    }

    /// The session at a position was changed in place since the totals were last right.
    pub open spec fn unsettled(self, at: int, before: MqttBroker) -> bool {
        &&& before.wf()
        &&& 0 <= at < before.sessions@.len()
        &&& self.sessions@ =~= before.sessions@.update(at, self.sessions@[at])
        &&& self.sessions@[at].wf()
        &&& self.sessions@[at]@.key == before.sessions@[at]@.key
        &&& self == (MqttBroker { sessions: self.sessions, ..before })
    }

    proof fn lemma_unsettled(self, at: int, before: MqttBroker)
        requires
            self.unsettled(at, before),
        ensures
            sessions_ok(self.sessions@),
            self@ == touch_session(before@, at, self.sessions@[at]@),
            ledger_of(self@.sessions) == ledger_of(before@.sessions).update(
                at,
                (self.sessions@[at]@.key, usage_of(self.sessions@[at]@)),
            ),
            entry_fits(usage_of(self.sessions@[at]@)),
    {
        let s = self.sessions@[at];
        lemma_ok_update(before.sessions@, at, s);
        assert(self@.sessions =~= before@.sessions.update(at, s@));
        assert(self@ =~= touch_session(before@, at, s@));
        lemma_ledger_update(before@.sessions, at, s@);
        lemma_session_fits(s);
    }

    /// Reconciles the totals with one changed session, and notes the tenant when it has fewer
    /// exchanges in flight.
    pub fn sync_session_usage(&mut self, at: usize, Ghost(before): Ghost<MqttBroker>)
        requires
            old(self).unsettled(at as int, before),
        ensures
            final(self).wf(),
            final(self).limits == old(self).limits,
            final(self).sessions@.len() == old(self).sessions@.len(),
            final(self)@ == put_session(
                before@,
                before.limits,
                at as int,
                old(self).sessions@[at as int]@,
            ),
    {
        let ghost s = self.sessions@[at as int]@;
        let ghost touched = self@;
        proof {
            reveal(put_session);
        }
        let usage = self.sessions[at].usage();
        let key = self.sessions[at].key.clone();
        let ghost l = ledger_of(before@.sessions);
        let length: usize = self.sessions.len();
        assert(l.len() == length);
        assert(l[at as int] == (key@, usage_of(before@.sessions[at as int])));
        let earlier = self.accounts.entry(at, Ghost(l));
        proof {
            self.lemma_unsettled(at as int, before);
        }
        self.accounts.replace(at, &key, usage, Ghost(l));
        assert(self@ == touched);
        self.note_release(&key.device.tenant_id, earlier, usage);
        assert(self.wf());
        assert(self@ == (BrokerView {
            sessions: before@.sessions.update(at as int, s),
            wakes: wakes_after(
                before@.wakes,
                s.key.device.tenant,
                usage_of(before@.sessions[at as int]),
                usage_of(s),
            ),
            ..before@
        }));
        self.reindex(&key);
    }

    /// A changed session that counts for the same leaves the totals right.
    pub proof fn lemma_touched(self, at: int, before: MqttBroker)
        requires
            self.unsettled(at, before),
            usage_of(self.sessions@[at]@) == usage_of(before.sessions@[at]@),
        ensures
            self.wf(),
            self@ == touch_session(before@, at, self.sessions@[at]@),
    {
        self.lemma_unsettled(at, before);
        assert(ledger_of(self@.sessions) =~= ledger_of(before@.sessions));
    }

    /// Adds a session that is not there yet.
    pub fn append_session(&mut self, session: StoredSession)
        requires
            old(self).wf(),
            session.wf(),
            old(self).sessions@.len() < usize::MAX,
            session_at(old(self)@, session@.key) is None,
        ensures
            final(self).wf(),
            final(self).limits == old(self).limits,
            final(self)@ == reindexed(
                BrokerView { sessions: old(self)@.sessions.push(session@), ..old(self)@ },
                old(self).limits,
                session@.key,
            ),
    {
        let ghost before = self@;
        let ghost s = session@;
        let usage = session.usage();
        let key = session.key.clone();
        proof {
            lemma_session_fits(session);
            lemma_ok_push(self.sessions@, session);
        }
        self.accounts.append(&key, usage, Ghost(ledger_of(before.sessions)));
        let ghost old_sessions = self.sessions@;
        self.sessions.push(session);
        proof {
            assert(self@.sessions =~= before.sessions.push(s));
            assert(ledger_of(before.sessions.push(s)) =~= ledger_of(before.sessions).push(
                (s.key, usage_of(s)),
            ));
            assert(self@ =~= (BrokerView { sessions: before.sessions.push(s), ..before }));
        }
        self.reindex(&key);
    }

    /// Takes a session out. Its deadlines are the caller's to clear.
    pub fn take_session(&mut self, at: usize) -> (session: StoredSession)
        requires
            old(self).wf(),
            at < old(self).sessions@.len(),
        ensures
            final(self).wf(),
            final(self).limits == old(self).limits,
            session.wf(),
            session@ == old(self)@.sessions[at as int],
            final(self)@ == (BrokerView {
                sessions: old(self)@.sessions.remove(at as int),
                wakes: wakes_after(
                    old(self)@.wakes,
                    session@.key.device.tenant,
                    usage_of(session@),
                    no_usage(),
                ),
                ..old(self)@
            }),
    {
        let ghost before = self@;
        let key = self.sessions[at].key.clone();
        let ghost l = ledger_of(before.sessions);
        let length: usize = self.sessions.len();
        assert(l.len() == length);
        assert(l[at as int] == (key@, usage_of(before.sessions[at as int])));
        let earlier = self.accounts.entry(at, Ghost(l));
        self.accounts.withdraw(at, &key, Ghost(l));
        proof {
            lemma_ok_remove(self.sessions@, at as int);
            lemma_session_ok(self.sessions@, at as int);
        }
        let session = self.sessions.remove(at);
        proof {
            assert(ledger_of(before.sessions.remove(at as int)) =~= l.remove(at as int));
            assert(self@ =~= (BrokerView {
                sessions: before.sessions.remove(at as int),
                ..before
            }));
        }
        assert(self.wf());
        self.note_release(&key.device.tenant_id, earlier, zero_usage());
        session
    }

    pub fn unmark_pending(&mut self, key: &SessionKey)
        requires
            old(self).wf(),
        ensures
            final(self).wf(),
            final(self).limits == old(self).limits,
            final(self)@ == unmark(old(self)@, key@),
    {
        self.pending.put(key, None);
        assert(self@ =~= unmark(old(self)@, key@));
    }

    fn wanted(&self, key: &SessionKey) -> (qos: Option<u8>)
        ensures
            qos == wanted_qos(self@, key@),
    {
        if self.find_active(key).is_none() {
            return None;
        }
        match self.find_session(key) {
            Some(i) => self.sessions[i].next_waiting_qos(),
            None => None,
        }
    }

    /// Queues a connected session that has something to send.
    pub fn mark_pending(&mut self, key: &SessionKey)
        requires
            old(self).wf(),
        ensures
            final(self).wf(),
            final(self).limits == old(self).limits,
            final(self)@ == mark(old(self)@, key@),
    {
        let qos = self.wanted(key);
        if self.pending.get(key) == qos {
            return;
        }
        self.pending.put(key, None);
        let ghost middle = self.pending@;
        if let Some(qos) = qos {
            self.pending.entries.push((key.clone(), qos));
            assert(self.pending@ =~= middle.push((key@, qos)));
        }
        assert(self@ =~= mark(old(self)@, key@));
    }

    /// How many exchanges of a quality of service a tenant has in flight.
    pub fn tenant_inflight(&self, tenant: &TenantId, qos: u8) -> (number: u128)
        requires
            self.wf(),
        ensures
            number == inflight(self@, tenant@, qos),
    {
        let usage = self.accounts.tenant(tenant, Ghost(ledger_of(self@.sessions)));
        if qos == 1 {
            usage.qos1_inflight
        } else {
            usage.qos2_inflight
        }
    }

    pub fn inflight_limit(&self, qos: u8) -> (limit: usize)
        ensures
            limit == tenant_limit(self.limits, qos),
    {
        if qos == 1 {
            self.limits.max_inflight_qos1_per_tenant
        } else {
            self.limits.max_inflight_qos2_per_tenant
        }
    }

    /// Whether a tenant may start one more exchange.
    pub fn tenant_has_inflight(&self, tenant: &TenantId, qos: u8) -> (available: bool)
        requires
            self.wf(),
        ensures
            available == (inflight(self@, tenant@, qos) < tenant_limit(self.limits, qos)),
    {
        self.tenant_inflight(tenant, qos) < self.inflight_limit(qos) as u128
    }

    pub fn tenant_totals(&self, tenant: &TenantId) -> (usage: SessionUsage)
        requires
            self.wf(),
        ensures
            usage@ == tenant_usage(self@.sessions, tenant@),
    {
        self.accounts.tenant(tenant, Ghost(ledger_of(self@.sessions)))
    }

    pub fn totals(&self) -> (usage: SessionUsage)
        requires
            self.wf(),
        ensures
            usage@ == total_usage(self@.sessions),
    {
        self.accounts.all(Ghost(ledger_of(self@.sessions)))
    }

    /// The bytes of frames that wait or are being written.
    fn outbound_bytes(&self, scope: Option<&TenantId>) -> (bytes: u128)
        ensures
            bytes == cap(outbound_used(self@, scope_view(scope))),
    {
        let ghost f = link_used(scope_view(scope));
        let ghost all = self@.links;
        let mut bytes: u128 = 0;
        let mut at: usize = 0;
        while at < self.links.len()
            invariant
                at <= self.links.len(),
                all == self@.links,
                f == link_used(scope_view(scope)),
                bytes == cap(total(all.take(at as int), f)),
            decreases self.links.len() - at,
        {
            proof {
                lemma_total_take(all, at as int, f);
            }
            if scope.is_none() || !self.links[at].adrift && scope_holds(
                scope,
                &self.links[at].key.device.tenant_id,
            ) {
                bytes = cap_sum(bytes, self.links[at].used as u128);
            }
            at = at + 1;
        }
        assert(all.take(all.len() as int) =~= all);
        bytes
    }

    /// Whether frames of so many bytes more are within the bounds of the connection, the tenant
    /// and the broker.
    pub fn outbound_fits(
        &self,
        tenant: &TenantId,
        used: u128,
        planned: u128,
        planned_all: u128,
        charge: usize,
    ) -> (fits: bool)
        ensures
            fits == bytes_fit(
                self@,
                self.limits,
                tenant@,
                used as nat,
                planned as nat,
                planned_all as nat,
                charge as nat,
            ),
    {
        let own: u128 = cap_sum(used, charge as u128);
        let of_tenant: u128 = cap_sum(
            cap_sum(self.outbound_bytes(Some(tenant)), planned),
            charge as u128,
        );
        let of_all: u128 = cap_sum(
            cap_sum(self.outbound_bytes(None), planned_all),
            charge as u128,
        );
        own <= self.limits.max_outbound_bytes_per_connection as u128 && of_tenant
            <= self.limits.max_outbound_bytes_per_tenant as u128 && of_all
            <= self.limits.max_outbound_bytes as u128
    }

    pub fn fits_link(&self, link: usize, charge: usize) -> (fits: bool)
        requires
            link < self.links@.len(),
        ensures
            fits == frame_fits(self@, self.limits, link as int, charge as nat),
    {
        self.outbound_fits(
            &self.links[link].key.device.tenant_id,
            self.links[link].used as u128,
            0,
            0,
            charge,
        )
    }

    pub fn link_has_room(&self, link: usize) -> (room: bool)
        requires
            link < self.links@.len(),
        ensures
            room == has_room(self@.links[link as int], self.limits),
    {
        self.links[link].queue.len() < self.limits.max_outbound_messages_per_connection
    }

    /// Counts a frame's bytes against a connection.
    pub fn reserve_frame(&mut self, link: usize, charge: usize)
        requires
            old(self).wf(),
            link < old(self).links@.len(),
        ensures
            final(self).wf(),
            final(self).limits == old(self).limits,
            final(self)@ == reserved(old(self)@, link as int, charge as nat),
            final(self).links@.len() == old(self).links@.len(),
    {
        let ghost before = self@;
        self.links[link].used = saturated(self.links[link].used as u128 + charge as u128);
        proof {
            assert(self@.links =~= reserved(before, link as int, charge as nat).links);
            assert(self@ =~= reserved(before, link as int, charge as nat));
        }
    }

    /// Hands a frame whose bytes are counted to a connection.
    pub fn send_frame(&mut self, link: usize, frame: BrokerFrame) -> (taken: bool)
        requires
            old(self).wf(),
            link < old(self).links@.len(),
        ensures
            final(self).wf(),
            final(self).limits == old(self).limits,
            final(self)@ == sent(old(self)@, old(self).limits, link as int, frame@),
            taken == (old(self)@.links[link as int].open && has_room(
                old(self)@.links[link as int],
                old(self).limits,
            )),
            final(self).links@.len() == old(self).links@.len(),
    {
        let ghost before = self@;
        let ghost model = frame@;
        let ghost queue = self.links@[link as int].queue@;
        let taken = self.links[link].open && self.link_has_room(link);
        if taken {
            self.links[link].queue.push(frame);
            assert(frame_views(self.links@[link as int].queue@) =~= frame_views(queue).push(model));
        } else {
            let charge: usize = frame.bytes();
            self.links[link].cancelled = true;
            self.links[link].used = if self.links[link].used >= charge {
                self.links[link].used - charge
            } else {
                0
            };
        }
        proof {
            assert(self@.links =~= sent(before, self.limits, link as int, model).links);
            assert(self@ =~= sent(before, self.limits, link as int, model));
        }
        taken
    }

    /// Lets go of the connection that holds a session, and tells it to stop.
    pub fn release_link(&mut self, key: &SessionKey)
        requires
            old(self).wf(),
        ensures
            final(self).wf(),
            final(self).limits == old(self).limits,
            final(self)@ == released(old(self)@, key@),
    {
        let ghost before = self@;
        if let Some(j) = self.find_active(key) {
            self.links[j].active = false;
            self.links[j].cancelled = true;
            assert(self@.links =~= released(before, key@).links);
        }
        assert(self@ =~= released(before, key@));
    }

    fn messages_use(messages: &Vec<RetainedMessage>, scope: Option<&TenantId>) -> (usage: (
        u128,
        u128,
    ))
        ensures
            usage.0 == count(retained_views(messages@), retained_in(scope_view(scope))),
            usage.0 <= usize::MAX,
            usage.1 == cap(total(retained_views(messages@), retained_bytes_of(scope_view(scope)))),
    {
        let ghost f = retained_bytes_of(scope_view(scope));
        let ghost p = retained_in(scope_view(scope));
        let ghost all = retained_views(messages@);
        let mut number: u128 = 0;
        let mut bytes: u128 = 0;
        let mut at: usize = 0;
        assert(count(all.take(0), p) == 0);
        while at < messages.len()
            invariant
                at <= messages.len(),
                all == retained_views(messages@),
                f == retained_bytes_of(scope_view(scope)),
                p == retained_in(scope_view(scope)),
                number <= at,
                number == count(all.take(at as int), p),
                bytes == cap(total(all.take(at as int), f)),
            decreases messages.len() - at,
        {
            proof {
                lemma_total_take(all, at as int, f);
                assert(all.take(at as int + 1).drop_last() =~= all.take(at as int));
                assert(all.take(at as int + 1).last() == all[at as int]);
            }
            if scope_holds(scope, &messages[at].tenant_id) {
                number = number + 1;
                bytes = cap_sum(bytes, messages[at].bytes() as u128);
            }
            at = at + 1;
        }
        assert(all.take(all.len() as int) =~= all);
        (number, bytes)
    }

    fn retained_use(&self, scope: Option<&TenantId>) -> (usage: (u128, u128))
        ensures
            usage.0 == retained_count(self@, scope_view(scope)),
            usage.1 == cap(retained_bytes(self@, scope_view(scope))),
    {
        let held = MqttBroker::messages_use(&self.retained, scope);
        let gone = MqttBroker::messages_use(&self.shadowed, scope);
        (held.0 + gone.0, cap_sum(held.1, gone.1))
    }

    fn wills_reserved(wills: &Vec<PendingWill>, scope: Option<&TenantId>) -> (usage: (
        u128,
        u128,
        u128,
        u128,
    ))
        ensures
            usage.0 == cap(total(will_views(wills@), will_in(scope_view(scope)))),
            usage.1 == cap(total(will_views(wills@), will_bytes_of(scope_view(scope)))),
            usage.2 == cap(total(will_views(wills@), will_reserved_count(scope_view(scope)))),
            usage.3 == cap(total(will_views(wills@), will_reserved_bytes(scope_view(scope)))),
    {
        let ghost v = scope_view(scope);
        let ghost all = will_views(wills@);
        let mut number: u128 = 0;
        let mut bytes: u128 = 0;
        let mut slots: u128 = 0;
        let mut slot_bytes: u128 = 0;
        let mut at: usize = 0;
        while at < wills.len()
            invariant
                at <= wills.len(),
                all == will_views(wills@),
                v == scope_view(scope),
                number == cap(total(all.take(at as int), will_in(v))),
                bytes == cap(total(all.take(at as int), will_bytes_of(v))),
                slots == cap(total(all.take(at as int), will_reserved_count(v))),
                slot_bytes == cap(total(all.take(at as int), will_reserved_bytes(v))),
            decreases wills.len() - at,
        {
            proof {
                lemma_total_take(all, at as int, will_in(v));
                lemma_total_take(all, at as int, will_bytes_of(v));
                lemma_total_take(all, at as int, will_reserved_count(v));
                lemma_total_take(all, at as int, will_reserved_bytes(v));
            }
            if scope_holds(scope, &wills[at].owner.tenant_id) {
                if wills[at].counted {
                    number = cap_sum(number, 1);
                    bytes = cap_sum(bytes, wills[at].bytes() as u128);
                }
                slots = cap_sum(slots, wills[at].retained_reservation.count as u128);
                slot_bytes = cap_sum(slot_bytes, wills[at].retained_reservation.bytes as u128);
            }
            at = at + 1;
        }
        assert(all.take(all.len() as int) =~= all);
        (number, bytes, slots, slot_bytes)
    }

    fn guards_reserved(&self, scope: Option<&TenantId>) -> (usage: (u128, u128, u128, u128))
        ensures
            usage.0 == cap(total(guard_wills(self@.guards), will_in(scope_view(scope)))),
            usage.1 == cap(total(guard_wills(self@.guards), will_bytes_of(scope_view(scope)))),
            usage.2 == cap(
                total(guard_wills(self@.guards), will_reserved_count(scope_view(scope))),
            ),
            usage.3 == cap(
                total(guard_wills(self@.guards), will_reserved_bytes(scope_view(scope))),
            ),
    {
        let ghost v = scope_view(scope);
        let ghost all = guard_wills(self@.guards);
        let mut number: u128 = 0;
        let mut bytes: u128 = 0;
        let mut slots: u128 = 0;
        let mut slot_bytes: u128 = 0;
        let mut at: usize = 0;
        while at < self.guards.len()
            invariant
                at <= self.guards.len(),
                all == guard_wills(self@.guards),
                v == scope_view(scope),
                number == cap(total(all.take(at as int), will_in(v))),
                bytes == cap(total(all.take(at as int), will_bytes_of(v))),
                slots == cap(total(all.take(at as int), will_reserved_count(v))),
                slot_bytes == cap(total(all.take(at as int), will_reserved_bytes(v))),
            decreases self.guards.len() - at,
        {
            proof {
                lemma_total_take(all, at as int, will_in(v));
                lemma_total_take(all, at as int, will_bytes_of(v));
                lemma_total_take(all, at as int, will_reserved_count(v));
                lemma_total_take(all, at as int, will_reserved_bytes(v));
            }
            let will = &self.guards[at].will;
            if scope_holds(scope, &will.owner.tenant_id) {
                if will.counted {
                    number = cap_sum(number, 1);
                    bytes = cap_sum(bytes, will.bytes() as u128);
                }
                slots = cap_sum(slots, will.retained_reservation.count as u128);
                slot_bytes = cap_sum(slot_bytes, will.retained_reservation.bytes as u128);
            }
            at = at + 1;
        }
        assert(all.take(all.len() as int) =~= all);
        (number, bytes, slots, slot_bytes)
    }

    fn entries_reserved(entries: &Vec<InboundEntry>) -> (usage: (u128, u128))
        ensures
            usage.0 == cap(
                total(crate::session::inbound_views(entries@), entry_reserved_count()),
            ),
            usage.1 == cap(
                total(crate::session::inbound_views(entries@), entry_reserved_bytes()),
            ),
    {
        let ghost all = crate::session::inbound_views(entries@);
        let mut slots: u128 = 0;
        let mut bytes: u128 = 0;
        let mut at: usize = 0;
        while at < entries.len()
            invariant
                at <= entries.len(),
                all == crate::session::inbound_views(entries@),
                slots == cap(total(all.take(at as int), entry_reserved_count())),
                bytes == cap(total(all.take(at as int), entry_reserved_bytes())),
            decreases entries.len() - at,
        {
            proof {
                lemma_total_take(all, at as int, entry_reserved_count());
                lemma_total_take(all, at as int, entry_reserved_bytes());
            }
            slots = cap_sum(slots, entries[at].reservation.count as u128);
            bytes = cap_sum(bytes, entries[at].reservation.bytes as u128);
            at = at + 1;
        }
        assert(all.take(all.len() as int) =~= all);
        (slots, bytes)
    }

    fn sessions_reserved(&self, scope: Option<&TenantId>) -> (usage: (u128, u128))
        ensures
            usage.0 == cap(total(self@.sessions, session_reserved_count(scope_view(scope)))),
            usage.1 == cap(total(self@.sessions, session_reserved_bytes(scope_view(scope)))),
    {
        let ghost v = scope_view(scope);
        let ghost all = self@.sessions;
        let mut slots: u128 = 0;
        let mut bytes: u128 = 0;
        let mut at: usize = 0;
        while at < self.sessions.len()
            invariant
                at <= self.sessions.len(),
                all == self@.sessions,
                v == scope_view(scope),
                slots == cap(total(all.take(at as int), session_reserved_count(v))),
                bytes == cap(total(all.take(at as int), session_reserved_bytes(v))),
            decreases self.sessions.len() - at,
        {
            proof {
                lemma_total_take(all, at as int, session_reserved_count(v));
                lemma_total_take(all, at as int, session_reserved_bytes(v));
            }
            if scope_holds(scope, &self.sessions[at].key.device.tenant_id) {
                let own = MqttBroker::entries_reserved(&self.sessions[at].inbound_qos2);
                slots = cap_sum(slots, own.0);
                bytes = cap_sum(bytes, own.1);
            }
            at = at + 1;
        }
        assert(all.take(all.len() as int) =~= all);
        (slots, bytes)
    }

    /// Retained slots and bytes that are promised to accepted messages and wills.
    fn retained_reserved(&self, scope: Option<&TenantId>) -> (usage: (u128, u128))
        ensures
            usage.0 == cap(reserved_count(self@, scope_view(scope))),
            usage.1 == cap(reserved_bytes(self@, scope_view(scope))),
    {
        let own = self.sessions_reserved(scope);
        let pending = MqttBroker::wills_reserved(&self.pending_wills, scope);
        let future = MqttBroker::wills_reserved(&self.future_wills, scope);
        let guards = self.guards_reserved(scope);
        (
            cap_sum(own.0, cap_sum(cap_sum(pending.2, future.2), guards.2)),
            cap_sum(own.1, cap_sum(cap_sum(pending.3, future.3), guards.3)),
        )
    }

    /// The wills that the broker answers for, and their bytes.
    pub fn will_responsibility(&self, scope: Option<&TenantId>) -> (usage: (u128, u128))
        ensures
            usage.0 == cap(will_count(self@, scope_view(scope))),
            usage.1 == cap(will_bytes(self@, scope_view(scope))),
    {
        let pending = MqttBroker::wills_reserved(&self.pending_wills, scope);
        let future = MqttBroker::wills_reserved(&self.future_wills, scope);
        let guards = self.guards_reserved(scope);
        (
            cap_sum(cap_sum(pending.0, future.0), guards.0),
            cap_sum(cap_sum(pending.1, future.1), guards.1),
        )
    }

    /// The bytes of the sessions and wills of a tenant, or of all.
    pub fn total_state_bytes(&self, scope: Option<&TenantId>) -> (bytes: u128)
        requires
            self.wf(),
        ensures
            bytes == cap(state_bytes(self@, scope_view(scope))),
    {
        let held: u128 = match scope {
            Some(tenant) => self.tenant_totals(tenant).state_bytes,
            None => self.totals().state_bytes,
        };
        cap_sum(held, self.will_responsibility(scope).1)
    }

    /// Whether a session may grow by so many bytes.
    pub fn may_grow(
        &self,
        at: usize,
        extra: u128,
        tenant_extra: u128,
        all_extra: u128,
        charge: usize,
    ) -> (allowed: bool)
        requires
            self.wf(),
            at < self.sessions@.len(),
        ensures
            allowed == growth_allowed(
                self@,
                self.limits,
                self@.sessions[at as int],
                extra as nat,
                tenant_extra as nat,
                all_extra as nat,
                charge as nat,
            ),
    {
        let tenant = &self.sessions[at].key.device.tenant_id;
        proof {
            lemma_session_ok(self.sessions@, at as int);
        }
        let own: u128 = cap_sum(
            cap_sum(self.sessions[at].state_bytes as u128, extra),
            charge as u128,
        );
        let of_tenant: u128 = cap_sum(
            cap_sum(self.total_state_bytes(Some(tenant)), tenant_extra),
            charge as u128,
        );
        let of_all: u128 = cap_sum(
            cap_sum(self.total_state_bytes(None), all_extra),
            charge as u128,
        );
        own <= self.limits.max_mqtt_session_state_bytes as u128 && of_tenant
            <= self.limits.max_mqtt_session_state_bytes_per_tenant as u128 && of_all
            <= self.limits.global_mqtt_session_bytes as u128
    }

    /// What the retained messages and the promises for them come to.
    pub fn retained_totals(&self, scope: Option<&TenantId>) -> (usage: (u128, u128, u128, u128))
        ensures
            usage.0 == retained_count(self@, scope_view(scope)),
            usage.1 == cap(retained_bytes(self@, scope_view(scope))),
            usage.2 == cap(reserved_count(self@, scope_view(scope))),
            usage.3 == cap(reserved_bytes(self@, scope_view(scope))),
    {
        let stored = self.retained_use(scope);
        let promised = self.retained_reserved(scope);
        (stored.0, stored.1, promised.0, promised.1)
    }
}

pub fn later(a: i64, b: i64) -> (sum: i64)
    ensures
        sum == sat_add(a, b),
{
    let exact: i128 = a as i128 + b as i128;
    if exact > i64::MAX as i128 {
        i64::MAX
    } else if exact < i64::MIN as i128 {
        i64::MIN
    } else {
        exact as i64
    }
}

} // verus!
