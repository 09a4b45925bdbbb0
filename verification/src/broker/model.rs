//! The broker as a mathematical value, and what its steps make of it.
use crate::error::Error;
use crate::identity::{DeviceView, KeyView};
use crate::limits::Limits;
use crate::list::{count, first, total};
use crate::message::{charge_of, expired_spec, sat, MessageView, STATE_OVERHEAD};
use crate::session::{
    fresh_exchange, id_after, is_unsent, message_deadline, next_free, no_reservation,
    outbound_capacity, promoted, pruned, send_quota_left, session_charge, unsent_qos, usage_of,
    waiting_qos, InboundView, OutboundStage, OutboundView, RetainedReservation, SessionView,
    Subscription, UsageView,
};
use crate::codec::MqttVersion;
use crate::table::{due_at, lookup, with_entry};
use crate::text::{levels, text_bytes};
use crate::trie::{trie_remove, TrieView};
use crate::usage::{no_usage, tenant_usage, total_usage};
use vstd::prelude::*;

verus! {

/// How many overdue entries an operation looks after on its way.
pub const HOT_MAINTENANCE_BUDGET: usize = 64;

/// How many overdue entries a maintenance pass looks after.
pub const TICK_MAINTENANCE_BUDGET: usize = 1_024;

/// What the broker hands to a connection.
pub enum FrameView {
    Publish { message: MessageView, packet_id: Option<u16>, dup: bool, command: bool },
    Pubrel { packet_id: u16, dup: bool },
}

/// The bytes that a frame occupies until it is written.
pub open spec fn frame_charge(frame: FrameView) -> nat {
    match frame {
        FrameView::Publish { message, .. } => charge_of(message),
        FrameView::Pubrel { .. } => 0,
    }
}

/// The broker's end of a network connection.
pub struct LinkView {
    pub key: KeyView,
    pub generation: u64,
    /// Frames that the connection has not taken yet.
    pub queue: Seq<FrameView>,
    /// The connection still takes frames.
    pub open: bool,
    /// The session belongs to this connection.
    pub active: bool,
    /// The connection has been told to stop.
    pub cancelled: bool,
    /// The bytes of the frames that wait or are being written.
    pub used: nat,
    /// The number under which the connection takes its frames.
    pub receiver: u64,
    /// The state that the connection belonged to was replaced. Its frames no longer count for the
    /// tenant.
    pub adrift: bool,
}

pub struct RetainedView {
    pub tenant: Seq<char>,
    pub message: MessageView,
    pub origin: Option<KeyView>,
}

/// A will whose publication the broker has taken over.
pub struct WillView {
    pub owner: DeviceView,
    pub origin: Option<KeyView>,
    pub message: MessageView,
    pub due_at_ms: Option<i64>,
    pub cancel_on_resume: Option<(KeyView, u64)>,
    pub message_expiry_interval: Option<u32>,
    pub reservation: RetainedReservation,
    /// The will counts towards how many there may be. One that was held while the state was
    /// replaced does not.
    pub counted: bool,
}

/// When and for which connection a will is published.
pub struct DelayView {
    pub delay: u32,
    pub session_expiry: u32,
    pub key: KeyView,
    pub incarnation: u64,
    pub generation: u64,
}

/// A will that still belongs to its connection.
pub struct GuardView {
    pub token: u64,
    pub will: WillView,
    pub delay: Option<DelayView>,
    pub armed: bool,
}

#[verifier::ext_equal]
pub struct BrokerView {
    pub sessions: Seq<SessionView>,
    pub links: Seq<LinkView>,
    pub trie: TrieView,
    pub retained: Seq<RetainedView>,
    /// Restored messages that another of the same topic replaced at once. They are gone but still
    /// counted.
    pub shadowed: Seq<RetainedView>,
    /// Wills that are due, in the order in which they are tried.
    pub pending_wills: Seq<WillView>,
    /// Wills that wait for their time, in the order in which they came.
    pub future_wills: Seq<WillView>,
    pub guards: Seq<GuardView>,
    pub next_guard: u64,
    /// Connected sessions with something to send, the one that waits longest first.
    pub pending: Seq<(KeyView, u8)>,
    /// Tenants that have finished exchanges since their sessions were last looked at.
    pub wakes: Seq<(Seq<char>, u8)>,
    pub session_expiry: Seq<(KeyView, i64)>,
    pub message_expiry: Seq<(KeyView, i64)>,
    pub retained_expiry: Seq<(Seq<char>, i64)>,
    pub generation: u64,
    pub operation_id: u64,
    pub next_receiver: u64,
}

/// A broker without anything in it.
pub open spec fn empty_broker() -> BrokerView {
    BrokerView {
        sessions: Seq::empty(),
        links: Seq::empty(),
        trie: crate::trie::empty_trie(),
        retained: Seq::empty(),
        shadowed: Seq::empty(),
        pending_wills: Seq::empty(),
        future_wills: Seq::empty(),
        guards: Seq::empty(),
        next_guard: 0,
        pending: Seq::empty(),
        wakes: Seq::empty(),
        session_expiry: Seq::empty(),
        message_expiry: Seq::empty(),
        retained_expiry: Seq::empty(),
        generation: 0,
        operation_id: 0,
        next_receiver: 0,
    }
}

pub open spec fn session_is(key: KeyView) -> spec_fn(SessionView) -> bool {
    |s: SessionView| s.key == key
}

pub open spec fn session_key() -> spec_fn(SessionView) -> KeyView {
    |s: SessionView| s.key
}

pub open spec fn active_is(key: KeyView) -> spec_fn(LinkView) -> bool {
    |l: LinkView| l.active && l.key == key
}

pub open spec fn link_is(receiver: u64) -> spec_fn(LinkView) -> bool {
    |l: LinkView| l.receiver == receiver
}

pub open spec fn retained_is(topic: Seq<char>) -> spec_fn(RetainedView) -> bool {
    |r: RetainedView| r.message.topic == topic
}

pub open spec fn guard_is(token: u64) -> spec_fn(GuardView) -> bool {
    |g: GuardView| g.token == token
}

/// The position of a session, of the connection it belongs to, and of a retained message.
pub open spec fn session_at(b: BrokerView, key: KeyView) -> Option<int> {
    first(b.sessions, session_is(key))
}

pub open spec fn active_at(b: BrokerView, key: KeyView) -> Option<int> {
    first(b.links, active_is(key))
}

pub open spec fn link_at(b: BrokerView, receiver: u64) -> Option<int> {
    first(b.links, link_is(receiver))
}

pub open spec fn retained_at(b: BrokerView, topic: Seq<char>) -> Option<int> {
    first(b.retained, retained_is(topic))
}

pub open spec fn guard_at(b: BrokerView, token: u64) -> Option<int> {
    first(b.guards, guard_is(token))
}

/// The connection of this generation holds the session.
pub open spec fn owns(b: BrokerView, key: KeyView, generation: u64) -> bool {
    active_at(b, key) matches Some(i) && b.links[i].generation == generation
}

/// Whether a tenant is the one that is looked at; without one all are.
pub open spec fn in_scope(scope: Option<Seq<char>>, tenant: Seq<char>) -> bool {
    scope matches Some(t) ==> t == tenant
}

pub open spec fn link_used(scope: Option<Seq<char>>) -> spec_fn(LinkView) -> nat {
    |l: LinkView|
        if scope is None || !l.adrift && in_scope(scope, l.key.device.tenant) {
            l.used
        } else {
            0
        }
}

/// The bytes of frames that wait or are being written.
pub open spec fn outbound_used(b: BrokerView, scope: Option<Seq<char>>) -> nat {
    total(b.links, link_used(scope))
}

/// Whether frames of so many bytes more are within the bounds of the connection, the tenant and
/// the broker, `planned` bytes of the tenant and `planned_all` bytes of anyone counted already.
pub open spec fn bytes_fit(
    b: BrokerView,
    limits: Limits,
    tenant: Seq<char>,
    used: nat,
    planned: nat,
    planned_all: nat,
    charge: nat,
) -> bool {
    &&& used + charge <= limits.max_outbound_bytes_per_connection
    &&& outbound_used(b, Some(tenant)) + planned + charge <= limits.max_outbound_bytes_per_tenant
    &&& outbound_used(b, None) + planned_all + charge <= limits.max_outbound_bytes
}

pub open spec fn frame_fits(b: BrokerView, limits: Limits, link: int, charge: nat) -> bool {
    bytes_fit(b, limits, b.links[link].key.device.tenant, b.links[link].used, 0, 0, charge)
}

/// The connection can take one more frame.
pub open spec fn has_room(l: LinkView, limits: Limits) -> bool {
    l.queue.len() < limits.max_outbound_messages_per_connection
}

pub open spec fn with_link(b: BrokerView, i: int, l: LinkView) -> BrokerView {
    BrokerView { links: b.links.update(i, l), ..b }
}

pub open spec fn sat_sub(a: nat, b: nat) -> nat {
    if a >= b {
        (a - b) as nat
    } else {
        0
    }
}

/// Counts a frame's bytes against a connection.
pub open spec fn reserved(b: BrokerView, i: int, charge: nat) -> BrokerView {
    with_link(b, i, LinkView { used: sat(b.links[i].used + charge), ..b.links[i] })
}

/// Hands a frame whose bytes are counted to a connection. One that takes no more frames is told
/// to stop, and the bytes are given back.
pub open spec fn sent(b: BrokerView, limits: Limits, i: int, frame: FrameView) -> BrokerView {
    let l = b.links[i];
    if l.open && has_room(l, limits) {
        with_link(b, i, LinkView { queue: l.queue.push(frame), ..l })
    } else {
        with_link(
            b,
            i,
            LinkView { cancelled: true, used: sat_sub(l.used, frame_charge(frame)), ..l },
        )
    }
}

pub open spec fn idle_ttl(limits: Limits) -> i64 {
    if limits.mqtt_session_idle_ttl_ms > i64::MAX {
        i64::MAX
    } else {
        limits.mqtt_session_idle_ttl_ms as i64
    }
}

pub open spec fn sat_add(a: i64, b: i64) -> i64 {
    if a + b > i64::MAX {
        i64::MAX
    } else if a + b < i64::MIN {
        i64::MIN
    } else {
        (a + b) as i64
    }
}

/// When a session that no connection holds is given up.
pub open spec fn session_deadline(s: SessionView, limits: Limits) -> Option<i64> {
    if s.version == MqttVersion::V5 {
        s.expires_at_ms
    } else {
        Some(sat_add(sat_add(s.last_seen_ms, idle_ttl(limits)), 1))
    }
}

pub open spec fn expiry_deadline(b: BrokerView, limits: Limits, key: KeyView) -> Option<i64> {
    if active_at(b, key) is Some {
        None
    } else {
        match session_at(b, key) {
            Some(i) => session_deadline(b.sessions[i], limits),
            None => None,
        }
    }
}

/// The deadlines of one session brought up to date.
pub open spec fn reindexed(b: BrokerView, limits: Limits, key: KeyView) -> BrokerView {
    BrokerView {
        message_expiry: with_entry(
            b.message_expiry,
            key,
            match session_at(b, key) {
                Some(i) => message_deadline(b.sessions[i]),
                None => None,
            },
        ),
        session_expiry: with_entry(b.session_expiry, key, expiry_deadline(b, limits, key)),
        ..b
    }
}

pub open spec fn add_wake(wakes: Seq<(Seq<char>, u8)>, wake: (Seq<char>, u8)) -> Seq<
    (Seq<char>, u8),
> {
    if wakes.contains(wake) {
        wakes
    } else {
        wakes.push(wake)
    }
}

/// A tenant with fewer exchanges in flight than before is looked at again.
pub open spec fn wakes_after(
    wakes: Seq<(Seq<char>, u8)>,
    tenant: Seq<char>,
    before: UsageView,
    after: UsageView,
) -> Seq<(Seq<char>, u8)> {
    let first = if after.qos1_inflight < before.qos1_inflight {
        add_wake(wakes, (tenant, 1u8))
    } else {
        wakes
    };
    if after.qos2_inflight < before.qos2_inflight {
        add_wake(first, (tenant, 2u8))
    } else {
        first
    }
}

/// A session replaced, with its deadlines and the tenant's wakes.
#[verifier::opaque]
pub open spec fn put_session(b: BrokerView, limits: Limits, i: int, s: SessionView) -> BrokerView {
    reindexed(
        BrokerView {
            sessions: b.sessions.update(i, s),
            wakes: wakes_after(
                b.wakes,
                s.key.device.tenant,
                usage_of(b.sessions[i]),
                usage_of(s),
            ),
            ..b
        },
        limits,
        s.key,
    )
}

/// Replacing a session touches the sessions, the wakes and the deadlines alone.
pub proof fn lemma_put_session(b: BrokerView, limits: Limits, i: int, s: SessionView)
    ensures
        ({
            let next = put_session(b, limits, i, s);
            &&& next.sessions == b.sessions.update(i, s)
            &&& next == (BrokerView {
                sessions: next.sessions,
                wakes: next.wakes,
                session_expiry: next.session_expiry,
                message_expiry: next.message_expiry,
                ..b
            })
        }),
{
    reveal(put_session);
}

/// A session replaced by one that counts and waits for the same.
pub open spec fn touch_session(b: BrokerView, i: int, s: SessionView) -> BrokerView {
    BrokerView { sessions: b.sessions.update(i, s), ..b }
}

pub open spec fn unmark(b: BrokerView, key: KeyView) -> BrokerView {
    BrokerView { pending: with_entry(b.pending, key, None), ..b }
}

/// What a connected session waits to send next.
pub open spec fn wanted_qos(b: BrokerView, key: KeyView) -> Option<u8> {
    if active_at(b, key) is Some {
        match session_at(b, key) {
            Some(i) => waiting_qos(b.sessions[i]),
            None => None,
        }
    } else {
        None
    }
}

/// Puts a connected session with something to send at the end of the queue, unless it stands
/// there already for the same.
pub open spec fn mark(b: BrokerView, key: KeyView) -> BrokerView {
    let qos = wanted_qos(b, key);
    if lookup(b.pending, key) == qos {
        b
    } else {
        match qos {
            Some(qos) => BrokerView {
                pending: with_entry(b.pending, key, None).push((key, qos)),
                ..b
            },
            None => unmark(b, key),
        }
    }
}

pub open spec fn tenant_limit(limits: Limits, qos: u8) -> usize {
    if qos == 1 {
        limits.max_inflight_qos1_per_tenant
    } else {
        limits.max_inflight_qos2_per_tenant
    }
}

/// How many exchanges of a quality of service a tenant has in flight.
pub open spec fn inflight(b: BrokerView, tenant: Seq<char>, qos: u8) -> nat {
    let usage = tenant_usage(b.sessions, tenant);
    if qos == 1 {
        usage.qos1_inflight
    } else {
        usage.qos2_inflight
    }
}

/// What a step may come to: a frame, nothing, or an error.
pub type Step = (BrokerView, Result<Option<FrameView>, Error>);

/// The first exchange that the connection has not been handed, if it may be handed it now.
#[verifier::opaque]
pub open spec fn next_unsent(b: BrokerView, limits: Limits, i: int, j: int) -> (
    BrokerView,
    Option<FrameView>,
) {
    let s = b.sessions[i];
    match first(s.outbound, is_unsent()) {
        None => (b, None),
        Some(k) => {
            let e = s.outbound[k];
            if e.stage == OutboundStage::Pubcomp {
                let s2 = SessionView {
                    outbound: s.outbound.update(k, OutboundView { sent: true, ..e }),
                    ..s
                };
                (
                    touch_session(b, i, s2),
                    Some(FrameView::Pubrel { packet_id: e.packet_id, dup: true }),
                )
            } else if send_quota_left(s) && frame_fits(b, limits, j, charge_of(e.message)) {
                let s2 = SessionView {
                    outbound: s.outbound.update(
                        k,
                        OutboundView { sent: true, windowed: true, ..e },
                    ),
                    ..s
                };
                (
                    touch_session(reserved(b, j, charge_of(e.message)), i, s2),
                    Some(
                        FrameView::Publish {
                            message: e.message,
                            packet_id: Some(e.packet_id),
                            dup: true,
                            command: e.command,
                        },
                    ),
                )
            } else {
                (b, None)
            }
        },
    }
}

/// The first waiting message as a new exchange, if there is room for one.
#[verifier::opaque]
pub open spec fn promote(b: BrokerView, limits: Limits, i: int, j: int) -> Step {
    let s = b.sessions[i];
    if s.offline.len() == 0 {
        (b, Ok(None))
    } else {
        let message = s.offline[0];
        if !frame_fits(b, limits, j, charge_of(message)) || !outbound_capacity(
            s,
            message.qos,
            limits,
        ) || !send_quota_left(s) {
            (b, Ok(None))
        } else {
            match next_free(s) {
                None => (b, Err(Error::Overloaded)),
                Some(id) => (
                    put_session(
                        reserved(b, j, charge_of(message)),
                        limits,
                        i,
                        promoted(s, id),
                    ),
                    Ok(
                        Some(
                            FrameView::Publish {
                                message,
                                packet_id: Some(id),
                                dup: false,
                                command: false,
                            },
                        ),
                    ),
                ),
            }
        }
    }
}

/// The next frame for a connected session: unfinished exchanges first, then waiting messages.
pub open spec fn advance(b: BrokerView, limits: Limits, i: int, j: int) -> Step {
    if unsent_qos(b.sessions[i]) is Some {
        let (next, frame) = next_unsent(b, limits, i, j);
        (next, Ok(frame))
    } else {
        promote(b, limits, i, j)
    }
}

/// Hands the next frame of a session to its connection.
pub open spec fn push_next(b: BrokerView, limits: Limits, i: int, j: int) -> (
    BrokerView,
    Option<Error>,
) {
    match advance(b, limits, i, j) {
        (next, Err(error)) => (next, Some(error)),
        (next, Ok(None)) => (next, None),
        (next, Ok(Some(frame))) => (sent(next, limits, j, frame), None),
    }
}

pub open spec fn message_due(b: BrokerView, key: KeyView, now: i64) -> bool {
    lookup(b.message_expiry, key) matches Some(deadline) && deadline <= now
}

/// One session without what has expired.
#[verifier::opaque]
pub open spec fn prune_session(b: BrokerView, limits: Limits, key: KeyView, now: i64) -> BrokerView {
    match session_at(b, key) {
        None => b,
        Some(i) => {
            let s = pruned(b.sessions[i], now);
            let next = put_session(b, limits, i, s);
            if s.offline.len() == 0 {
                unmark(next, key)
            } else {
                next
            }
        },
    }
}

pub open spec fn prune_if_due(b: BrokerView, limits: Limits, key: KeyView, now: i64) -> BrokerView {
    if message_due(b, key, now) {
        prune_session(b, limits, key, now)
    } else {
        b
    }
}

/// Looks after one queued session. With `gate` only exchanges of that quality of service may
/// start; without, an exchange that is only handed again needs no room in the tenant's bound.
#[verifier::opaque]
pub open spec fn wake_session(
    b: BrokerView,
    limits: Limits,
    now: i64,
    key: KeyView,
    gate: Option<u8>,
) -> (BrokerView, Option<Error>) {
    let b1 = prune_if_due(unmark(b, key), limits, key, now);
    let tenant = key.device.tenant;
    match (session_at(b1, key), active_at(b1, key)) {
        (Some(i), Some(j)) => {
            let s = b1.sessions[i];
            let admitted = match (waiting_qos(s), gate) {
                (None, _) => false,
                (Some(qos), Some(wanted)) => qos == wanted && inflight(b1, tenant, qos)
                    < tenant_limit(limits, qos),
                (Some(qos), None) => unsent_qos(s) is Some || inflight(b1, tenant, qos)
                    < tenant_limit(limits, qos),
            };
            if admitted && has_room(b1.links[j], limits) {
                match push_next(b1, limits, i, j) {
                    (next, Some(error)) => (next, Some(error)),
                    (next, None) => (mark(next, key), None),
                }
            } else {
                (mark(b1, key), None)
            }
        },
        _ => (mark(b1, key), None),
    }
}

pub open spec fn queued_for(tenant: Seq<char>, qos: u8) -> spec_fn((KeyView, u8)) -> bool {
    |e: (KeyView, u8)| e.0.device.tenant == tenant && e.1 == qos
}

/// Looks after the queued sessions of a tenant, each at most once, while the tenant has room.
pub open spec fn wake_tenant_loop(
    b: BrokerView,
    limits: Limits,
    now: i64,
    tenant: Seq<char>,
    qos: u8,
    attempts: nat,
) -> (BrokerView, Option<Error>)
    decreases attempts,
{
    if attempts == 0 || inflight(b, tenant, qos) >= tenant_limit(limits, qos) {
        (b, None)
    } else {
        match first(b.pending, queued_for(tenant, qos)) {
            None => (b, None),
            Some(k) => match wake_session(b, limits, now, b.pending[k].0, Some(qos)) {
                (next, Some(error)) => (next, Some(error)),
                (next, None) => wake_tenant_loop(
                    next,
                    limits,
                    now,
                    tenant,
                    qos,
                    (attempts - 1) as nat,
                ),
            },
        }
    }
}

#[verifier::opaque]
pub open spec fn wake_tenant(b: BrokerView, limits: Limits, now: i64, tenant: Seq<char>, qos: u8) -> (
    BrokerView,
    Option<Error>,
) {
    wake_tenant_loop(b, limits, now, tenant, qos, count(b.pending, queued_for(tenant, qos)))
}

/// The order of texts by their characters.
pub open spec fn text_before(a: Seq<char>, b: Seq<char>) -> bool
    decreases a.len(),
{
    if b.len() == 0 {
        false
    } else if a.len() == 0 {
        true
    } else {
        a[0] < b[0] || (a[0] == b[0] && text_before(a.drop_first(), b.drop_first()))
    }
}

pub open spec fn wake_before(a: (Seq<char>, u8), b: (Seq<char>, u8)) -> bool {
    text_before(a.0, b.0) || (a.0 == b.0 && a.1 < b.1)
}

/// The position of the wake that comes first in order, among the first `n`.
pub open spec fn least_wake(wakes: Seq<(Seq<char>, u8)>, n: nat) -> int
    decreases n,
{
    if n <= 1 {
        0
    } else {
        let best = least_wake(wakes, (n - 1) as nat);
        if wake_before(wakes[n - 1], wakes[best]) {
            n - 1
        } else {
            best
        }
    }
}

/// Looks after the tenants that finished exchanges, within a budget.
pub open spec fn drive_wakes(b: BrokerView, limits: Limits, now: i64, budget: nat) -> (
    BrokerView,
    Option<Error>,
)
    decreases budget,
{
    if budget == 0 || b.wakes.len() == 0 {
        (b, None)
    } else {
        let k = least_wake(b.wakes, b.wakes.len());
        let (tenant, qos) = b.wakes[k];
        let taken = BrokerView { wakes: b.wakes.remove(k), ..b };
        match wake_tenant(taken, limits, now, tenant, qos) {
            (next, Some(error)) => (
                BrokerView { wakes: add_wake(next.wakes, (tenant, qos)), ..next },
                Some(error),
            ),
            (next, None) => drive_wakes(next, limits, now, (budget - 1) as nat),
        }
    }
}

#[verifier::opaque]
pub open spec fn drive(b: BrokerView, limits: Limits, now: i64) -> (BrokerView, Option<Error>) {
    drive_wakes(b, limits, now, HOT_MAINTENANCE_BUDGET as nat)
}

pub open spec fn wake_global_loop(b: BrokerView, limits: Limits, now: i64, attempts: nat) -> (
    BrokerView,
    Option<Error>,
)
    decreases attempts,
{
    if attempts == 0 || b.pending.len() == 0 {
        (b, None)
    } else {
        match wake_session(b, limits, now, b.pending[0].0, None) {
            (next, Some(error)) => (next, Some(error)),
            (next, None) => wake_global_loop(next, limits, now, (attempts - 1) as nat),
        }
    }
}

pub open spec fn least(a: nat, b: nat) -> nat {
    if a <= b {
        a
    } else {
        b
    }
}

/// Looks after the sessions that wait longest, whatever their tenant.
pub open spec fn wake_global(b: BrokerView, limits: Limits, now: i64) -> (
    BrokerView,
    Option<Error>,
) {
    match wake_global_loop(
        b,
        limits,
        now,
        least(b.pending.len(), HOT_MAINTENANCE_BUDGET as nat),
    ) {
        (next, Some(error)) => (next, Some(error)),
        (next, None) => drive(next, limits, now),
    }
}

/// The connection that holds a session is let go and told to stop.
pub open spec fn released(b: BrokerView, key: KeyView) -> BrokerView {
    match active_at(b, key) {
        Some(j) => with_link(b, j, LinkView { active: false, cancelled: true, ..b.links[j] }),
        None => b,
    }
}

pub open spec fn without_filters(
    t: TrieView,
    key: KeyView,
    subscriptions: Seq<(Seq<char>, Subscription)>,
) -> TrieView
    decreases subscriptions.len(),
{
    if subscriptions.len() == 0 {
        t
    } else {
        trie_remove(
            without_filters(t, key, subscriptions.drop_last()),
            levels(subscriptions.last().0),
            key,
        )
    }
}

/// A session given up with everything it holds.
#[verifier::opaque]
pub open spec fn remove_session(b: BrokerView, limits: Limits, key: KeyView) -> BrokerView {
    let b1 = released(unmark(b, key), key);
    let b2 = match session_at(b1, key) {
        Some(i) => {
            let s = b1.sessions[i];
            BrokerView {
                sessions: b1.sessions.remove(i),
                trie: without_filters(b1.trie, key, s.subscriptions),
                wakes: wakes_after(b1.wakes, key.device.tenant, usage_of(s), no_usage()),
                ..b1
            }
        },
        None => b1,
    };
    reindexed(b2, limits, key)
}

/// Gives up sessions whose time has passed, the earliest first.
pub open spec fn prune_expired(b: BrokerView, limits: Limits, now: i64, budget: nat) -> BrokerView
    decreases budget,
{
    if budget == 0 {
        b
    } else {
        match due_at(b.session_expiry, now) {
            None => b,
            Some(k) => {
                let key = b.session_expiry[k].0;
                let taken = BrokerView { session_expiry: b.session_expiry.remove(k), ..b };
                let next = if expiry_deadline(taken, limits, key) matches Some(deadline) && deadline
                    <= now {
                    remove_session(taken, limits, key)
                } else {
                    reindexed(taken, limits, key)
                };
                prune_expired(next, limits, now, (budget - 1) as nat)
            },
        }
    }
}

pub open spec fn prune_sessions(b: BrokerView, limits: Limits, now: i64, budget: nat) -> BrokerView
    decreases budget,
{
    if budget == 0 {
        b
    } else {
        match due_at(b.message_expiry, now) {
            None => b,
            Some(k) => {
                let key = b.message_expiry[k].0;
                let taken = BrokerView { message_expiry: b.message_expiry.remove(k), ..b };
                prune_sessions(
                    prune_session(taken, limits, key, now),
                    limits,
                    now,
                    (budget - 1) as nat,
                )
            },
        }
    }
}

pub open spec fn prune_retained(b: BrokerView, now: i64, budget: nat) -> BrokerView
    decreases budget,
{
    if budget == 0 {
        b
    } else {
        match due_at(b.retained_expiry, now) {
            None => b,
            Some(k) => {
                let topic = b.retained_expiry[k].0;
                let taken = BrokerView { retained_expiry: b.retained_expiry.remove(k), ..b };
                let next = match retained_at(taken, topic) {
                    None => taken,
                    Some(i) => if expired_spec(taken.retained[i].message, now) {
                        BrokerView { retained: taken.retained.remove(i), ..taken }
                    } else {
                        BrokerView {
                            retained_expiry: with_entry(
                                taken.retained_expiry,
                                topic,
                                taken.retained[i].message.properties.expires_at_ms,
                            ),
                            ..taken
                        }
                    },
                };
                prune_retained(next, now, (budget - 1) as nat)
            },
        }
    }
}

/// Drops waiting and retained messages that have expired, within a budget each.
pub open spec fn prune_messages(b: BrokerView, limits: Limits, now: i64, budget: nat) -> BrokerView {
    prune_retained(prune_sessions(b, limits, now, budget), now, budget)
}

/// What a retained message is charged.
pub open spec fn origin_charge(origin: Option<KeyView>) -> nat {
    match origin {
        Some(key) => text_bytes(key.client_id) + text_bytes(key.device.tenant) + text_bytes(
            key.device.product,
        ) + text_bytes(key.device.device) + STATE_OVERHEAD as nat,
        None => 0,
    }
}

pub open spec fn retained_charge(message: MessageView, origin: Option<KeyView>) -> nat {
    sat(charge_of(message) + origin_charge(origin))
}

/// What a will is charged.
pub open spec fn will_charge(message: MessageView, origin: Option<KeyView>) -> nat {
    sat(
        charge_of(message) + match origin {
            Some(key) => text_bytes(key.client_id) + 2,
            None => 0,
        },
    )
}

pub open spec fn retained_bytes_of(scope: Option<Seq<char>>) -> spec_fn(RetainedView) -> nat {
    |r: RetainedView|
        if in_scope(scope, r.tenant) {
            retained_charge(r.message, r.origin)
        } else {
            0
        }
}

pub open spec fn retained_in(scope: Option<Seq<char>>) -> spec_fn(RetainedView) -> bool {
    |r: RetainedView| in_scope(scope, r.tenant)
}

pub open spec fn retained_bytes(b: BrokerView, scope: Option<Seq<char>>) -> nat {
    total(b.retained, retained_bytes_of(scope)) + total(b.shadowed, retained_bytes_of(scope))
}

pub open spec fn retained_count(b: BrokerView, scope: Option<Seq<char>>) -> nat {
    count(b.retained, retained_in(scope)) + count(b.shadowed, retained_in(scope))
}

pub open spec fn entry_reserved_count() -> spec_fn(InboundView) -> nat {
    |e: InboundView| e.reservation.count as nat
}

pub open spec fn entry_reserved_bytes() -> spec_fn(InboundView) -> nat {
    |e: InboundView| e.reservation.bytes as nat
}

pub open spec fn session_reserved_count(scope: Option<Seq<char>>) -> spec_fn(SessionView) -> nat {
    |s: SessionView|
        if in_scope(scope, s.key.device.tenant) {
            total(s.inbound, entry_reserved_count())
        } else {
            0
        }
}

pub open spec fn session_reserved_bytes(scope: Option<Seq<char>>) -> spec_fn(SessionView) -> nat {
    |s: SessionView|
        if in_scope(scope, s.key.device.tenant) {
            total(s.inbound, entry_reserved_bytes())
        } else {
            0
        }
}

pub open spec fn will_reserved_count(scope: Option<Seq<char>>) -> spec_fn(WillView) -> nat {
    |w: WillView|
        if in_scope(scope, w.owner.tenant) {
            w.reservation.count as nat
        } else {
            0
        }
}

pub open spec fn will_reserved_bytes(scope: Option<Seq<char>>) -> spec_fn(WillView) -> nat {
    |w: WillView|
        if in_scope(scope, w.owner.tenant) {
            w.reservation.bytes as nat
        } else {
            0
        }
}

pub open spec fn will_bytes_of(scope: Option<Seq<char>>) -> spec_fn(WillView) -> nat {
    |w: WillView|
        if w.counted && in_scope(scope, w.owner.tenant) {
            will_charge(w.message, w.origin)
        } else {
            0
        }
}

pub open spec fn will_in(scope: Option<Seq<char>>) -> spec_fn(WillView) -> nat {
    |w: WillView|
        if w.counted && in_scope(scope, w.owner.tenant) {
            1
        } else {
            0
        }
}

/// Every will that the broker answers for.
pub open spec fn guard_wills(guards: Seq<GuardView>) -> Seq<WillView> {
    Seq::new(guards.len(), |i: int| guards[i].will)
}

pub open spec fn over_wills(b: BrokerView, f: spec_fn(WillView) -> nat) -> nat {
    total(b.pending_wills, f) + total(b.future_wills, f) + total(guard_wills(b.guards), f)
}

/// Retained slots and bytes that are promised to accepted messages and wills.
pub open spec fn reserved_count(b: BrokerView, scope: Option<Seq<char>>) -> nat {
    total(b.sessions, session_reserved_count(scope)) + over_wills(b, will_reserved_count(scope))
}

pub open spec fn reserved_bytes(b: BrokerView, scope: Option<Seq<char>>) -> nat {
    total(b.sessions, session_reserved_bytes(scope)) + over_wills(b, will_reserved_bytes(scope))
}

/// The wills that the broker answers for, and their bytes.
pub open spec fn will_count(b: BrokerView, scope: Option<Seq<char>>) -> nat {
    over_wills(b, will_in(scope))
}

pub open spec fn will_bytes(b: BrokerView, scope: Option<Seq<char>>) -> nat {
    over_wills(b, will_bytes_of(scope))
}

/// The bytes of all sessions and wills, of a tenant or of all.
pub open spec fn state_bytes(b: BrokerView, scope: Option<Seq<char>>) -> nat {
    let held = match scope {
        Some(tenant) => tenant_usage(b.sessions, tenant).state_bytes,
        None => total_usage(b.sessions).state_bytes,
    };
    held + will_bytes(b, scope)
}

/// Whether a retained message may be replaced or added.
pub open spec fn retained_allowed(
    b: BrokerView,
    limits: Limits,
    tenant: Seq<char>,
    origin: Option<KeyView>,
    message: MessageView,
) -> bool {
    let existing = retained_at(b, message.topic);
    let old_bytes = match existing {
        Some(i) => retained_charge(b.retained[i].message, b.retained[i].origin),
        None => 0,
    };
    let same_tenant = existing matches Some(i) && b.retained[i].tenant == tenant;
    let new_bytes = retained_charge(message, origin);
    ||| message.payload.len() == 0
    ||| {
        &&& message.payload.len() <= limits.max_retained_message_bytes
        &&& existing is Some || b.retained.len() + reserved_count(b, None)
            < limits.max_retained_messages
        &&& same_tenant || retained_count(b, Some(tenant)) + reserved_count(b, Some(tenant))
            < limits.max_retained_messages_per_tenant
        &&& retained_bytes(b, None) - old_bytes + new_bytes + reserved_bytes(b, None)
            <= limits.max_retained_bytes
        &&& retained_bytes(b, Some(tenant)) - (if same_tenant {
            old_bytes
        } else {
            0
        }) + new_bytes + reserved_bytes(b, Some(tenant)) <= limits.max_retained_bytes_per_tenant
    }
}

/// The retained message of a topic replaced, added or, by an empty payload, taken away.
pub open spec fn update_retained(
    b: BrokerView,
    tenant: Seq<char>,
    origin: Option<KeyView>,
    message: MessageView,
) -> BrokerView {
    let at = retained_at(b, message.topic);
    if message.payload.len() == 0 {
        BrokerView {
            retained: match at {
                Some(i) => b.retained.remove(i),
                None => b.retained,
            },
            retained_expiry: with_entry(b.retained_expiry, message.topic, None),
            ..b
        }
    } else {
        let entry = RetainedView { tenant, message, origin };
        BrokerView {
            retained: match at {
                Some(i) => b.retained.update(i, entry),
                None => b.retained.push(entry),
            },
            retained_expiry: with_entry(
                b.retained_expiry,
                message.topic,
                message.properties.expires_at_ms,
            ),
            ..b
        }
    }
}

/// A retained slot set aside for a message that will be stored later. What the topic holds now
/// is no credit: it may be gone by then.
pub open spec fn reserve_retained(
    b: BrokerView,
    limits: Limits,
    tenant: Seq<char>,
    origin: Option<KeyView>,
    message: MessageView,
) -> Result<RetainedReservation, Error> {
    let bytes = retained_charge(message, origin);
    if !message.retain || message.payload.len() == 0 {
        Ok(no_reservation())
    } else if message.payload.len() > limits.max_retained_message_bytes || b.retained.len()
        + reserved_count(b, None) + 1 > limits.max_retained_messages || retained_bytes(b, None)
        + reserved_bytes(b, None) + bytes > limits.max_retained_bytes || retained_count(
        b,
        Some(tenant),
    ) + reserved_count(b, Some(tenant)) + 1 > limits.max_retained_messages_per_tenant
        || retained_bytes(b, Some(tenant)) + reserved_bytes(b, Some(tenant)) + bytes
        > limits.max_retained_bytes_per_tenant {
        Err(Error::Overloaded)
    } else {
        Ok(RetainedReservation { count: 1, bytes: bytes as usize })
    }
}

/// Whether the broker can answer for one more will.
pub open spec fn will_allowed(b: BrokerView, limits: Limits, tenant: Seq<char>, bytes: nat) -> bool {
    &&& will_count(b, None) < limits.max_connections
    &&& will_count(b, Some(tenant)) < limits.max_connections_per_tenant
    &&& state_bytes(b, None) + bytes <= limits.global_mqtt_session_bytes
    &&& state_bytes(b, Some(tenant)) + bytes <= limits.max_mqtt_session_state_bytes_per_tenant
}

/// Whether a session may grow by so many bytes, `extra` bytes of its own, its tenant's and
/// anyone's counted already.
pub open spec fn growth_allowed(
    b: BrokerView,
    limits: Limits,
    s: SessionView,
    extra: nat,
    tenant_extra: nat,
    all_extra: nat,
    charge: nat,
) -> bool {
    &&& session_charge(s) + extra + charge <= limits.max_mqtt_session_state_bytes
    &&& state_bytes(b, Some(s.key.device.tenant)) + tenant_extra + charge
        <= limits.max_mqtt_session_state_bytes_per_tenant
    &&& state_bytes(b, None) + all_extra + charge <= limits.global_mqtt_session_bytes
}

/// Whether one more message may wait, so many messages and bytes counted already.
pub open spec fn waiting_allowed(
    b: BrokerView,
    limits: Limits,
    s: SessionView,
    own: (nat, nat),
    in_tenant_extra: (nat, nat),
    all_extra: (nat, nat),
    charge: nat,
) -> bool {
    let tenant = tenant_usage(b.sessions, s.key.device.tenant);
    let all = total_usage(b.sessions);
    &&& s.offline.len() + own.0 < limits.max_offline_messages_per_session
    &&& usage_of(s).offline_bytes + own.1 + charge <= limits.max_offline_bytes_per_session
    &&& tenant.offline_count + in_tenant_extra.0 < limits.max_offline_messages_per_tenant
    &&& tenant.offline_bytes + in_tenant_extra.1 + charge <= limits.max_offline_bytes_per_tenant
    &&& all.offline_count + all_extra.0 < limits.max_offline_messages
    &&& all.offline_bytes + all_extra.1 + charge <= limits.max_offline_bytes
}

/// A message put into a session's waiting queue.
#[verifier::opaque]
pub open spec fn queue_offline(b: BrokerView, limits: Limits, key: KeyView, message: MessageView) -> (
    BrokerView,
    Result<(), Error>,
) {
    let charge = charge_of(message);
    if message.qos == 0 {
        (b, Ok(()))
    } else {
        match session_at(b, key) {
            None => (b, Err(Error::Unavailable)),
            Some(i) => {
                let s = b.sessions[i];
                if waiting_allowed(b, limits, s, (0, 0), (0, 0), (0, 0), charge) && growth_allowed(
                    b,
                    limits,
                    s,
                    0,
                    0,
                    0,
                    charge,
                ) {
                    let next = put_session(
                        b,
                        limits,
                        i,
                        SessionView { offline: s.offline.push(message), ..s },
                    );
                    (mark(next, key), Ok(()))
                } else {
                    (b, Err(Error::Overloaded))
                }
            },
        }
    }
}

/// The frame of an exchange that was just started, handed to its connection.
#[verifier::opaque]
pub open spec fn finish_exchange(
    b: BrokerView,
    limits: Limits,
    i: int,
    j: int,
    id: u16,
    message: MessageView,
    command: bool,
) -> (BrokerView, Result<(), Error>) {
    let s = b.sessions[i];
    let taken = b.links[j].open && has_room(b.links[j], limits);
    let next = sent(
        b,
        limits,
        j,
        FrameView::Publish { message, packet_id: Some(id), dup: false, command },
    );
    if taken || !command {
        (next, Ok(()))
    } else {
        (
            put_session(
                next,
                limits,
                i,
                SessionView { outbound: s.outbound.remove(s.outbound.len() - 1), ..s },
            ),
            Err(Error::Unavailable),
        )
    }
}

/// An exchange started with a connected session. A command whose connection is gone is undone;
/// any other message stays with the session.
#[verifier::opaque]
pub open spec fn live_exchange(
    b: BrokerView,
    limits: Limits,
    i: int,
    j: int,
    message: MessageView,
    command: bool,
) -> (BrokerView, Result<(), Error>) {
    let s = b.sessions[i];
    let charge = charge_of(message);
    match next_free(s) {
        None => (b, Err(Error::Overloaded)),
        Some(id) => {
            let s1 = SessionView { next_packet_id: id_after(id), ..s };
            let b1 = touch_session(b, i, s1);
            if !growth_allowed(b, limits, s, 0, 0, 0, charge) {
                (b1, Err(Error::Overloaded))
            } else {
                let s2 = SessionView {
                    outbound: s1.outbound.push(fresh_exchange(id, message, command)),
                    ..s1
                };
                finish_exchange(
                    put_session(reserved(b1, j, charge), limits, i, s2),
                    limits,
                    i,
                    j,
                    id,
                    message,
                    command,
                )
            }
        },
    }
}

/// A message handed to a session: to its connection where there is room, else to its queue.
#[verifier::opaque]
pub open spec fn enqueue(
    b: BrokerView,
    limits: Limits,
    now: i64,
    key: KeyView,
    message: MessageView,
    command: bool,
) -> (BrokerView, Result<(), Error>) {
    let charge = charge_of(message);
    if expired_spec(message, now) {
        (b, Ok(()))
    } else {
        match active_at(b, key) {
            None => queue_offline(b, limits, key, message),
            Some(j) => if charge > limits.max_outbound_bytes_per_connection {
                (b, Err(Error::Overloaded))
            } else if !has_room(b.links[j], limits) || !frame_fits(b, limits, j, charge) {
                queue_offline(b, limits, key, message)
            } else if message.qos > 0 && inflight(b, key.device.tenant, message.qos)
                >= tenant_limit(limits, message.qos) {
                queue_offline(b, limits, key, message)
            } else {
                match session_at(b, key) {
                    None => (b, Err(Error::Internal)),
                    Some(i) => if message.qos == 0 {
                        let frame = FrameView::Publish {
                            message,
                            packet_id: None,
                            dup: false,
                            command,
                        };
                        let next = sent(reserved(b, j, charge), limits, j, frame);
                        if b.links[j].open {
                            (next, Ok(()))
                        } else if command {
                            (next, Err(Error::Unavailable))
                        } else {
                            (next, Err(Error::Overloaded))
                        }
                    } else if !outbound_capacity(b.sessions[i], message.qos, limits)
                        || !send_quota_left(b.sessions[i]) {
                        queue_offline(b, limits, key, message)
                    } else {
                        live_exchange(b, limits, i, j, message, command)
                    },
                }
            },
        }
    }
}

} // verus!
