//! What a session keeps while its client is away, and what is taken from it.
use super::attach::{attach_spec, cleared, expired_away, Profile};
use super::exchange::only_changed;
use super::inbound::{
    accept_inbound, accept_new, classify, receive_available, InboundQos2PublishState,
};
use super::model::{
    active_at, active_is, advance, expiry_deadline, inflight, lemma_put_session, mark, owns,
    prune_expired, prune_if_due, prune_session, put_session, reindexed, remove_session, session_at,
    session_is, BrokerView, FrameView, LinkView,
};
use super::outbound::pull_next;
use super::replay::lemma_same_places;
use super::tidy::{
    lemma_outline_positions, lemma_positions, lemma_prune_if_due_steady, lemma_steady_tidy, tidy,
};
use super::turnover::{held, lemma_hole, lemma_remove_session};
use super::wills::retried;
use crate::codec::MqttVersion;
use crate::error::Error;
use crate::identity::{AuthInvalidation, KeyView};
use crate::limits::Limits;
use crate::list::{
    first, is_first, keep, lemma_first, lemma_first_is, lemma_first_none, lemma_keep_all,
    lemma_keep_members,
};
use crate::message::{expired_spec, message_valid, MessageView};
use crate::session::{
    disconnected, exchange_stays, fresh_message, inbound_at, inbound_is, is_unsent, pruned,
    reconnected, slimmed, AuthView, InboundStage, InboundView, OutboundStage, OutboundView,
    SessionView,
};
use super::carry::holder;
use crate::table::due_at;
use super::service::concerned;
use vstd::prelude::*;

verus! {

/// A session that no connection holds has been away for too long: as long as it was to be kept, or
/// longer than the limit for one of the older protocol.
pub open spec fn overdue(b: BrokerView, limits: Limits, key: KeyView, now: i64) -> bool {
    let most = if limits.mqtt_session_idle_ttl_ms <= i64::MAX {
        limits.mqtt_session_idle_ttl_ms as int
    } else {
        i64::MAX as int
    };
    &&& active_at(b, key) is None
    &&& held(b, key) matches Some(s) && match s.version {
        MqttVersion::V5 => s.expires_at_ms matches Some(deadline) && deadline <= now,
        MqttVersion::V311 => now == i64::MAX || s.last_seen_ms + most + 1 <= now,
    }
}

/// A client is told that its session was found exactly if there was one, it did not ask to start
/// afresh, it comes with the same version and authorization, and it was not away for too long.
pub proof fn law_session_is_found_again(
    b: BrokerView,
    limits: Limits,
    now: i64,
    key: KeyView,
    profile: Profile,
    auth: AuthView,
)
    requires
        tidy(b, limits),
    ensures
        attach_spec(b, limits, now, key, profile, auth).1 matches Ok(a) ==> {
            &&& a.key == key
            &&& a.attached
            &&& a.clean_session == profile.clean_session
            &&& a.session_present <==> {
                &&& !profile.clean_session
                &&& !overdue(b, limits, key, now)
                &&& held(b, key) matches Some(s) && s.version == profile.version && s.authorization
                    == Some(auth)
            }
        },
{
    reveal(attach_spec);
    reveal(cleared);
    lemma_positions(b, key);
    lemma_hole(b, limits, key);
    lemma_remove_session(b, limits, key);
    let b0 = expired_away(b, limits, now, key);
    let b1 = prune_if_due(b0, limits, key, now);
    assert(tidy(b0, limits));
    lemma_prune_if_due_steady(b0, limits, key, now);
    lemma_steady_tidy(b0, b1, limits);
    lemma_outline_positions(b0, b1, key);
    lemma_positions(b1, key);
    lemma_hole(b1, limits, key);
    lemma_remove_session(b1, limits, key);
    if let Some(i) = session_at(b0, key) {
        lemma_positions(b0, key);
        lemma_put_session(b0, limits, i, pruned(b0.sessions[i], now));
        reveal(prune_session);
        assert(b1.sessions[i].version == b0.sessions[i].version);
        assert(b1.sessions[i].authorization == b0.sessions[i].authorization);
    }
}

/// An exchange is the same but for having been handed to a connection.
pub open spec fn same_exchange(e: OutboundView, f: OutboundView) -> bool {
    &&& f.packet_id == e.packet_id
    &&& f.stage == e.stage
    &&& f.message == e.message
    &&& f.command == e.command
    &&& f.started == e.started
}

/// A session whose connection ends keeps its subscriptions, its waiting messages and its unfinished
/// exchanges, all of which a next connection has yet to be handed. It is kept as long as its
/// client asked for.
pub proof fn law_session_left_alone_keeps_everything(s: SessionView, now: i64)
    ensures
        ({
            let t = disconnected(s, now);
            &&& t.key == s.key
            &&& t.version == s.version
            &&& t.authorization == s.authorization
            &&& t.incarnation == s.incarnation
            &&& t.subscriptions == s.subscriptions
            &&& t.offline == s.offline
            &&& t.inbound == s.inbound
            &&& t.next_packet_id == s.next_packet_id
            &&& t.active_generation is None
            &&& t.last_seen_ms == now
            &&& t.session_expiry_interval == s.session_expiry_interval
            &&& t.inbound_window == Set::<u16>::empty()
            &&& t.outbound.len() == s.outbound.len()
            &&& forall|k: int|
                0 <= k < s.outbound.len() ==> {
                    &&& same_exchange(s.outbound[k], #[trigger] t.outbound[k])
                    &&& !t.outbound[k].sent
                    &&& !t.outbound[k].windowed
                }
            &&& s.version == MqttVersion::V5 && s.session_expiry_interval != u32::MAX
                ==> t.expires_at_ms == Some(
                if now + 1000 * s.session_expiry_interval <= i64::MAX {
                    (now + 1000 * s.session_expiry_interval) as i64
                } else {
                    i64::MAX
                },
            )
            &&& s.session_expiry_interval == u32::MAX ==> t.expires_at_ms == s.expires_at_ms
        }),
{
}

/// A session that is taken up has everything that it had, is kept as long as its client asks for
/// now, and has no more messages unanswered than its client takes now.
pub proof fn law_session_taken_up_has_everything(
    s: SessionView,
    generation: u64,
    now: i64,
    interval: u32,
    quota: u16,
)
    ensures
        ({
            let t = reconnected(s, generation, now, interval, quota);
            &&& t.key == s.key
            &&& t.version == s.version
            &&& t.authorization == s.authorization
            &&& t.incarnation == s.incarnation
            &&& t.subscriptions == s.subscriptions
            &&& t.offline == s.offline
            &&& t.inbound == s.inbound
            &&& t.next_packet_id == s.next_packet_id
            &&& t.active_generation == Some(generation)
            &&& t.last_seen_ms == now
            &&& t.expires_at_ms is None
            &&& t.session_expiry_interval == interval
            &&& t.send_quota == quota
            &&& t.inbound_window == Set::<u16>::empty()
            &&& t.outbound.len() == s.outbound.len()
            &&& forall|k: int|
                0 <= k < s.outbound.len() ==> {
                    &&& same_exchange(s.outbound[k], #[trigger] t.outbound[k])
                    &&& !t.outbound[k].sent
                    &&& !t.outbound[k].windowed
                }
        }),
{
}

/// What is taken from a session because its time has passed: waiting messages that have expired,
/// and exchanges with such a message that have not begun. Everything else stays, but for the
/// contents of an expired message that the client has already.
pub proof fn law_only_the_expired_is_taken(s: SessionView, now: i64)
    ensures
        ({
            let t = pruned(s, now);
            &&& t.subscriptions == s.subscriptions
            &&& t.inbound == s.inbound
            &&& t.next_packet_id == s.next_packet_id
            &&& forall|m: MessageView|
                #[trigger]
                t.offline.contains(m) <==> s.offline.contains(m) && !expired_spec(m, now)
            &&& forall|k: int|
                #![trigger t.outbound[k]]
                0 <= k < t.outbound.len() ==> exists|j: int|
                    #![trigger s.outbound[j]]
                    0 <= j < s.outbound.len() && {
                        let e = s.outbound[j];
                        let f = t.outbound[k];
                        &&& f.packet_id == e.packet_id
                        &&& f.stage == e.stage
                        &&& f.message.topic == e.message.topic
                        &&& f.message.qos == e.message.qos
                        &&& e.stage != OutboundStage::Pubcomp || !expired_spec(e.message, now)
                            ==> f == e
                        &&& e.stage == OutboundStage::Pubcomp || e.started || !expired_spec(
                            e.message,
                            now,
                        )
                    }
            &&& forall|j: int|
                #![trigger s.outbound[j]]
                0 <= j < s.outbound.len() && (s.outbound[j].stage == OutboundStage::Pubcomp
                    || s.outbound[j].started || !expired_spec(s.outbound[j].message, now))
                    ==> exists|k: int|
                    0 <= k < t.outbound.len() && (#[trigger] t.outbound[k]).packet_id
                        == s.outbound[j].packet_id
        }),
{
    let t = pruned(s, now);
    let p = fresh_message(now);
    let q = exchange_stays(now);
    let kept = keep(s.outbound, q);
    lemma_keep_members(s.offline, p);
    lemma_keep_members(s.outbound, q);
    assert forall|m: MessageView|
        s.offline.contains(m) && !expired_spec(m, now) implies #[trigger] t.offline.contains(m) by {
        let i = choose|i: int| 0 <= i < s.offline.len() && s.offline[i] == m;
        lemma_keep_all(s.offline, p, i);
    }
    assert forall|m: MessageView| #[trigger] t.offline.contains(m) implies s.offline.contains(m)
        && !expired_spec(m, now) by {
        let i = choose|i: int| 0 <= i < t.offline.len() && t.offline[i] == m;
        assert(p(keep(s.offline, p)[i]));
    }
    assert forall|k: int| 0 <= k < t.outbound.len() implies exists|j: int|
        #![trigger s.outbound[j]]
        0 <= j < s.outbound.len() && {
            let e = s.outbound[j];
            let f = #[trigger] t.outbound[k];
            &&& f.packet_id == e.packet_id
            &&& f.stage == e.stage
            &&& f.message.topic == e.message.topic
            &&& f.message.qos == e.message.qos
            &&& e.stage != OutboundStage::Pubcomp || !expired_spec(e.message, now) ==> f == e
            &&& e.stage == OutboundStage::Pubcomp || e.started || !expired_spec(e.message, now)
        } by {
        assert(q(kept[k]) && s.outbound.contains(kept[k]));
        let j = choose|j: int| 0 <= j < s.outbound.len() && s.outbound[j] == kept[k];
        assert(t.outbound[k] == slimmed(s.outbound[j], now));
    }
    assert forall|j: int|
        #![trigger s.outbound[j]]
        0 <= j < s.outbound.len() && (s.outbound[j].stage == OutboundStage::Pubcomp
            || s.outbound[j].started || !expired_spec(
            s.outbound[j].message,
            now,
        )) implies exists|k: int|
        0 <= k < t.outbound.len() && (#[trigger] t.outbound[k]).packet_id
            == s.outbound[j].packet_id by {
        assert(q(s.outbound[j]));
        lemma_keep_all(s.outbound, q, j);
        let k = choose|k: int| 0 <= k < kept.len() && kept[k] == s.outbound[j];
        assert(t.outbound[k].packet_id == s.outbound[j].packet_id);
    }
}

/// A message that is delivered exactly once and is new is held under its identifier, as it came,
/// until it is released; over the newer protocol it also takes a place in the client's window.
pub proof fn law_new_message_is_held(
    b: BrokerView,
    limits: Limits,
    key: KeyView,
    generation: u64,
    id: u16,
    message: MessageView,
)
    requires
        held(b, key) matches Some(s) && forall|k: int|
            0 <= k < s.inbound.len() ==> (#[trigger] s.inbound[k]).packet_id != id,
    ensures
        ({
            let s = held(b, key)->0;
            let (next, outcome) = accept_inbound(b, limits, key, generation, id, message);
            &&& outcome is Err ==> next == b
            &&& outcome is Ok ==> {
                let s2 = held(next, key)->0;
                &&& outcome == Ok::<bool, Error>(true)
                &&& owns(b, key, generation)
                &&& message.qos == 2
                &&& message_valid(message, limits)
                &&& only_changed(
                    b,
                    next,
                    key,
                    SessionView {
                        inbound: s.inbound.push(
                            InboundView {
                                packet_id: id,
                                stage: InboundStage::AwaitPubrel,
                                message,
                                operation_id: None,
                                reservation: s2.inbound.last().reservation,
                            },
                        ),
                        inbound_window: match s.version {
                            MqttVersion::V5 => s.inbound_window.insert(id),
                            MqttVersion::V311 => s.inbound_window,
                        },
                        ..s
                    },
                )
            }
        }),
{
    reveal(accept_inbound);
    reveal(accept_new);
    let s = held(b, key)->0;
    lemma_positions(b, key);
    let i = session_at(b, key)->0;
    lemma_first(s.inbound, inbound_is(id));
    if let Some(k) = inbound_at(s, id) {
        assert(s.inbound[k].packet_id == id);
    }
    assert forall|t: SessionView| t.key == key implies only_changed(
        b,
        #[trigger] put_session(b, limits, i, t),
        key,
        t,
    ) by {
        lemma_put_session(b, limits, i, t);
        lemma_same_places(b, put_session(b, limits, i, t), i, key);
    }
}

/// A client may have as many messages under way to the broker as the smaller of the two limits
/// says; one that it sends again takes no further place.
pub proof fn law_window_is_the_smaller_limit(
    b: BrokerView,
    limits: Limits,
    key: KeyView,
    generation: u64,
    qos: u8,
    id: u16,
)
    requires
        owns(b, key, generation),
        held(b, key) is Some,
    ensures
        ({
            let s = held(b, key)->0;
            receive_available(b, limits, key, generation, qos, id) == Ok::<bool, Error>(
                (qos == 2 && exists|k: int|
                    0 <= k < s.inbound.len() && (#[trigger] s.inbound[k]).packet_id == id) || (
                s.inbound_window.len() < limits.max_inflight_qos1_per_session
                    && s.inbound_window.len() < limits.max_inflight_qos2_per_session),
            )
        }),
{
    let s = held(b, key)->0;
    lemma_first(s.inbound, inbound_is(id));
    if let Some(k) = inbound_at(s, id) {
        assert(s.inbound[k].packet_id == id);
    }
}

/// A connection that asks for the next frame gets what is due first; a message that only waits has
/// to find room among the exchanges of its tenant.
pub proof fn law_asking_gets_what_is_due(b: BrokerView, limits: Limits, now: i64, key: KeyView)
    requires
        held(b, key) is Some,
        active_at(b, key) is Some,
    ensures
        ({
            let s = held(b, key)->0;
            let i = session_at(b, key)->0;
            let j = active_at(b, key)->0;
            let (stepped, frame) = advance(b, limits, i, j);
            let (next, outcome) = pull_next(b, limits, now, key);
            let unsent = exists|k: int|
                0 <= k < s.outbound.len() && !(#[trigger] s.outbound[k]).sent;
            let full = s.offline.len() > 0 && inflight(b, key.device.tenant, s.offline[0].qos) >= if s.offline[0].qos
                == 1 {
                limits.max_inflight_qos1_per_tenant
            } else {
                limits.max_inflight_qos2_per_tenant
            };
            if unsent {
                outcome == frame && next == mark(stepped, key)
            } else if full {
                outcome == Ok::<Option<FrameView>, Error>(None) && next == mark(b, key)
            } else {
                &&& outcome == frame
                &&& frame is Ok ==> next == retried(mark(stepped, key), limits, now)
            }
        }),
{
    reveal(pull_next);
    let s = held(b, key)->0;
    lemma_first(s.outbound, is_unsent());
    if let Some(k) = first(s.outbound, is_unsent()) {
        assert(!s.outbound[k].sent);
    }
}

proof fn lemma_first_without<T>(s: Seq<T>, i: int, p: spec_fn(T) -> bool)
    requires
        0 <= i < s.len(),
        !p(s[i]),
    ensures
        match first(s, p) {
            Some(k) => first(s.remove(i), p) matches Some(m) && s.remove(i)[m] == s[k],
            None => first(s.remove(i), p) is None,
        },
{
    let t = s.remove(i);
    lemma_first(s, p);
    match first(s, p) {
        Some(k) => {
            let m = if k < i {
                k
            } else {
                k - 1
            };
            assert(t[m] == s[k]);
            assert forall|x: int| 0 <= x < m implies !p(#[trigger] t[x]) by {
                if x < i {
                    assert(t[x] == s[x]);
                } else {
                    assert(t[x] == s[x + 1]);
                }
            }
            assert(is_first(t, p, m));
            lemma_first_is(t, p, m);
        },
        None => {
            assert forall|x: int| 0 <= x < t.len() implies !p(#[trigger] t[x]) by {
                if x < i {
                    assert(t[x] == s[x]);
                } else {
                    assert(t[x] == s[x + 1]);
                }
            }
            lemma_first_none(t, p);
        },
    }
}

proof fn lemma_first_beside<T>(s: Seq<T>, i: int, x: T, p: spec_fn(T) -> bool)
    requires
        0 <= i < s.len(),
        !p(s[i]),
        !p(x),
    ensures
        first(s.update(i, x), p) == first(s, p),
        first(s, p) matches Some(k) ==> k != i,
{
    let t = s.update(i, x);
    lemma_first(s, p);
    match first(s, p) {
        Some(k) => {
            assert forall|m: int| 0 <= m < k implies !p(#[trigger] t[m]) by {
                if m != i {
                    assert(!p(s[m]));
                }
            }
            assert(is_first(t, p, k));
            lemma_first_is(t, p, k);
        },
        None => {
            assert forall|m: int| 0 <= m < t.len() implies !p(#[trigger] t[m]) by {
                if m != i {
                    assert(!p(s[m]));
                }
            }
            lemma_first_none(t, p);
        },
    }
}

/// A session that is given up takes nothing from another.
proof fn lemma_others_stay(b: BrokerView, limits: Limits, key: KeyView, other: KeyView)
    requires
        other != key,
    ensures
        held(remove_session(b, limits, key), other) == held(b, other),
        holder(remove_session(b, limits, key), other) == holder(b, other),
{
    reveal(remove_session);
    lemma_positions(b, key);
    lemma_positions(b, other);
    let next = remove_session(b, limits, key);
    if let Some(j) = active_at(b, key) {
        let l = LinkView { active: false, cancelled: true, ..b.links[j] };
        lemma_first_beside(b.links, j, l, active_is(other));
        assert(next.links == b.links.update(j, l));
    } else {
        assert(next.links == b.links);
    }
    assert(session_at(BrokerView { links: next.links, ..b }, key) == session_at(b, key));
    if let Some(i) = session_at(b, key) {
        lemma_first_without(b.sessions, i, session_is(other));
        assert(next.sessions == b.sessions.remove(i));
    } else {
        assert(next.sessions == b.sessions);
    }
}

/// Maintenance gives up only sessions that have been away for too long; every other stays as it
/// is, and with its connection.
pub proof fn law_only_overdue_sessions_are_given_up(
    b: BrokerView,
    limits: Limits,
    now: i64,
    budget: nat,
    key: KeyView,
)
    requires
        !overdue(b, limits, key, now),
    ensures
        held(prune_expired(b, limits, now, budget), key) == held(b, key),
        holder(prune_expired(b, limits, now, budget), key) == holder(b, key),
    decreases budget,
{
    if budget > 0 {
        if let Some(k) = due_at(b.session_expiry, now) {
            let due = b.session_expiry[k].0;
            let taken = BrokerView { session_expiry: b.session_expiry.remove(k), ..b };
            assert(held(taken, key) == held(b, key) && holder(taken, key) == holder(b, key));
            lemma_positions(b, due);
            let next = if expiry_deadline(taken, limits, due) matches Some(deadline) && deadline
                <= now {
                remove_session(taken, limits, due)
            } else {
                reindexed(taken, limits, due)
            };
            if due != key {
                lemma_others_stay(taken, limits, due, key);
            }
            assert(held(next, key) == held(b, key) && holder(next, key) == holder(b, key));
            assert(active_at(next, key) is Some <==> active_at(b, key) is Some);
            law_only_overdue_sessions_are_given_up(next, limits, now, (budget - 1) as nat, key);
        }
    }
}

/// Which sessions an invalidation ends: those of the device, of the product or of the tenant that
/// it names, those that were let in with the credentials or the generation that it names or whose
/// are not known, or all.
pub proof fn law_whom_an_invalidation_concerns(invalidation: AuthInvalidation, s: SessionView)
    ensures
        concerned(invalidation)(s) <==> match invalidation {
            AuthInvalidation::Device { device } => {
                &&& s.key.device.tenant == device@.tenant
                &&& s.key.device.product == device@.product
                &&& s.key.device.device == device@.device
            },
            AuthInvalidation::Product { tenant_id, product_id } => {
                &&& s.key.device.tenant == tenant_id@
                &&& s.key.device.product == product_id@
            },
            AuthInvalidation::Tenant { tenant_id } => s.key.device.tenant == tenant_id@,
            AuthInvalidation::CredentialVersion { version } => match s.authorization {
                Some(a) => a.credential_version == version,
                None => true,
            },
            AuthInvalidation::AuthGeneration { generation } => match s.authorization {
                Some(a) => a.auth_generation == generation,
                None => true,
            },
            AuthInvalidation::All => true,
        },
{
}

/// What an identifier stands for with which a client sends a message that is delivered exactly
/// once: nothing if it is zero or the connection does not hold the session; a message that is held
/// already and waits to be released; one that is beyond that; or a new one.
pub proof fn law_identifier_is_recognised(b: BrokerView, key: KeyView, generation: u64, id: u16)
    requires
        held(b, key) is Some,
    ensures
        ({
            let s = held(b, key)->0;
            let known = classify(b, key, generation, id);
            if id == 0 {
                known == Err::<InboundQos2PublishState, Error>(Error::Invalid)
            } else if !owns(b, key, generation) {
                known == Err::<InboundQos2PublishState, Error>(Error::Conflict)
            } else {
                match first(s.inbound, |e: InboundView| e.packet_id == id) {
                    None => known == Ok::<InboundQos2PublishState, Error>(
                        InboundQos2PublishState::NeedsNewMessageAdmission,
                    ),
                    Some(k) => known == Ok::<InboundQos2PublishState, Error>(
                        if s.inbound[k].stage == InboundStage::AwaitPubrel {
                            InboundQos2PublishState::ExistingTransaction
                        } else {
                            InboundQos2PublishState::IdentifierInUse
                        },
                    ),
                }
            }
        }),
{
    assert(inbound_is(id) =~= (|e: InboundView| e.packet_id == id));
}

} // verus!
