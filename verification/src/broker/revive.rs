//! A recorded session made fit for use again, or refused.
use super::model::BrokerView;
use super::state::{cap, cap_sum, MqttBroker};
use crate::codec::common::{topic_valid, valid_topic};
use crate::codec::MqttVersion;
use crate::error::Error;
use crate::limits::Limits;
use crate::list::{
    distinct, first, is_first, keep, lemma_first_is, lemma_keep_distinct, lemma_keep_step,
    lemma_total_take, total,
};
use crate::message::{
    message_valid, valid_broker_message, BrokerMessage, MessageView, STATE_OVERHEAD,
};
use crate::recovery::snapshot::{
    inbound_after, inbound_all_after, recorded, RecordedView, RECOVERY_VERSION_V4,
};
use crate::session::{
    exchange_stays, fresh_message, inbound_charge, inbound_is, inbound_key, inbound_views,
    message_charge, message_views, outbound_charge, outbound_is, outbound_key, outbound_views,
    session_charge, session_ok, sub_charge, sub_is, sub_key, usage_of, InboundEntry,
    InboundQos2State, InboundStage, InboundView, OutboundEntry, OutboundStage, OutboundView,
    RetainedReservation, SessionView, StoredSession, Subscription,
};
use crate::text::byte_len;
use crate::topics::{
    delivery_acl_spec, device_publish_topic, publish_topic_spec, session_delivery_acl,
    session_subscribe_acl, subscribe_acl_spec,
};
use crate::usage::{tenant_usage, total_usage};
use vstd::prelude::*;

verus! {

/// What becomes of a recorded session because of the time it was to last.
#[derive(Clone, Copy, Debug, PartialEq, Eq, Structural)]
pub enum Fate {
    Keep,
    Drop,
    Refuse,
}

pub open spec fn lifetime_fate(s: SessionView, version: u32, now: i64) -> Fate {
    if version < RECOVERY_VERSION_V4 && s.version != MqttVersion::V311 {
        Fate::Refuse
    } else if s.version == MqttVersion::V5 {
        if s.session_expiry_interval == 0 {
            Fate::Drop
        } else if s.session_expiry_interval != u32::MAX {
            match s.expires_at_ms {
                None => Fate::Refuse,
                Some(expires) => if expires <= now {
                    Fate::Drop
                } else {
                    Fate::Keep
                },
            }
        } else if s.expires_at_ms is Some {
            Fate::Refuse
        } else {
            Fate::Keep
        }
    } else if s.expires_at_ms is Some || s.session_expiry_interval != 0 {
        Fate::Refuse
    } else {
        Fate::Keep
    }
}

pub fn session_fate(session: &StoredSession, version: u32, now: i64) -> (fate: Fate)
    ensures
        fate == lifetime_fate(session@, version, now),
{
    if version < RECOVERY_VERSION_V4 && session.version != MqttVersion::V311 {
        return Fate::Refuse;
    }
    if session.version == MqttVersion::V5 {
        if session.session_expiry_interval == 0 {
            Fate::Drop
        } else if session.session_expiry_interval != u32::MAX {
            match session.expires_at_ms {
                None => Fate::Refuse,
                Some(expires) => if expires <= now {
                    Fate::Drop
                } else {
                    Fate::Keep
                },
            }
        } else if session.expires_at_ms.is_some() {
            Fate::Refuse
        } else {
            Fate::Keep
        }
    } else if session.expires_at_ms.is_some() || session.session_expiry_interval != 0 {
        Fate::Refuse
    } else {
        Fate::Keep
    }
}

/// A session that no connection holds, with every delivery begun anew.
pub open spec fn revived(s: SessionView, incarnation: u64) -> SessionView {
    SessionView {
        incarnation,
        active_generation: None,
        inbound: inbound_all_after(s.inbound),
        ..s
    }
}

pub open spec fn waiting_ok(m: MessageView, limits: Limits) -> bool {
    (m.qos == 1 || m.qos == 2) && message_valid(m, limits)
}

pub open spec fn received_ok(e: InboundView, limits: Limits) -> bool {
    e.packet_id != 0 && e.message.qos == 2 && message_valid(e.message, limits)
}

pub open spec fn sent_ok(e: OutboundView, limits: Limits) -> bool {
    &&& e.packet_id != 0
    &&& e.message.qos == if e.stage == OutboundStage::Puback {
        1u8
    } else {
        2u8
    }
    &&& message_valid(e.message, limits)
}

/// Nothing occurs twice, and every message is in its place.
pub open spec fn well_recorded(s: SessionView, limits: Limits) -> bool {
    &&& session_ok(s)
    &&& forall|i: int| 0 <= i < s.offline.len() ==> waiting_ok(#[trigger] s.offline[i], limits)
    &&& forall|i: int| 0 <= i < s.inbound.len() ==> received_ok(#[trigger] s.inbound[i], limits)
    &&& forall|i: int| 0 <= i < s.outbound.len() ==> sent_ok(#[trigger] s.outbound[i], limits)
}

/// The session holds nothing that its authorization, if known, does not allow.
pub open spec fn still_permitted(s: SessionView, limits: Limits) -> bool {
    s.authorization matches Some(a) ==> {
        &&& forall|i: int|
            0 <= i < s.offline.len() ==> delivery_acl_spec(
                s.key.device,
                a.permissions,
                (#[trigger] s.offline[i]).topic,
                limits,
            )
        &&& forall|i: int|
            0 <= i < s.outbound.len() ==> delivery_acl_spec(
                s.key.device,
                a.permissions,
                (#[trigger] s.outbound[i]).message.topic,
                limits,
            )
        &&& forall|i: int|
            0 <= i < s.inbound.len() ==> publish_topic_spec(
                s.key.device,
                (#[trigger] s.inbound[i]).message.topic,
                Some(a.permissions),
            )
    }
}

/// The session without what has expired meanwhile.
pub open spec fn current(s: SessionView, now: i64) -> SessionView {
    SessionView {
        offline: keep(s.offline, fresh_message(now)),
        outbound: keep(s.outbound, exchange_stays(now)),
        ..s
    }
}

/// Whether the session is within every bound, together with the sessions before it.
pub open spec fn room_for(b: BrokerView, limits: Limits, s: SessionView) -> bool {
    let tenant = s.key.device.tenant;
    let own = usage_of(s);
    let shared = tenant_usage(b.sessions, tenant);
    let all = total_usage(b.sessions);
    &&& shared.sessions < limits.max_persistent_sessions_per_tenant
    &&& s.subscriptions.len() <= limits.max_subscriptions_per_session
    &&& s.offline.len() <= limits.max_offline_messages_per_session
    &&& own.qos1_inflight <= limits.max_inflight_qos1_per_session
    &&& own.qos2_inflight <= limits.max_inflight_qos2_per_session
    &&& shared.qos1_inflight + own.qos1_inflight <= limits.max_inflight_qos1_per_tenant
    &&& shared.qos2_inflight + own.qos2_inflight <= limits.max_inflight_qos2_per_tenant
    &&& own.state_bytes <= limits.max_mqtt_session_state_bytes
    &&& shared.state_bytes + own.state_bytes <= limits.max_mqtt_session_state_bytes_per_tenant
    &&& all.subscriptions + own.subscriptions <= usize::MAX
    &&& all.offline_count + own.offline_count <= usize::MAX
    &&& all.offline_bytes + own.offline_bytes <= usize::MAX
    &&& all.state_bytes + own.state_bytes <= usize::MAX
}

pub open spec fn filter_restorable(s: SessionView, limits: Limits, e: (Seq<char>, Subscription)) -> bool {
    &&& topic_valid(e.0, limits, true)
    &&& e.1.qos <= 2
    &&& e.1.retain_handling <= 2
    &&& s.authorization matches Some(a) ==> subscribe_acl_spec(
        s.key.device,
        a.permissions,
        e.0,
        limits,
    )
}

pub open spec fn filters_restorable(s: SessionView, limits: Limits) -> bool {
    forall|i: int|
        0 <= i < s.subscriptions.len() ==> filter_restorable(
            s,
            limits,
            #[trigger] s.subscriptions[i],
        )
}

/// Elements are distinct if each is the first of its kind.
proof fn lemma_firsts_distinct<T, K>(
    s: Seq<T>,
    key: spec_fn(T) -> K,
    is: spec_fn(K) -> spec_fn(T) -> bool,
)
    requires
        forall|x: T, k: K| #[trigger] is(k)(x) == (key(x) == k),
    ensures
        distinct(s, key) <==> forall|i: int|
            0 <= i < s.len() ==> first(s, is(key(#[trigger] s[i]))) == Some(i),
{
    if distinct(s, key) {
        assert forall|i: int| 0 <= i < s.len() implies first(s, is(key(#[trigger] s[i]))) == Some(
            i,
        ) by {
            let p = is(key(s[i]));
            assert(is_first(s, p, i)) by {
                assert forall|j: int| 0 <= j < i implies !p(#[trigger] s[j]) by {
                    assert(key(s[j]) != key(s[i]));
                }
            }
            lemma_first_is(s, p, i);
        }
    }
    if forall|i: int| 0 <= i < s.len() ==> first(s, is(key(#[trigger] s[i]))) == Some(i) {
        assert forall|i: int, j: int|
            0 <= i < s.len() && 0 <= j < s.len() && i != j implies key(#[trigger] s[i]) != key(
            #[trigger] s[j],
        ) by {
            if key(s[i]) == key(s[j]) {
                assert(first(s, is(key(s[i]))) == Some(i));
                assert(first(s, is(key(s[j]))) == Some(j));
            }
        }
    }
}

fn distinct_parts(session: &StoredSession) -> (result: bool)
    ensures
        result == (distinct(session@.subscriptions, sub_key()) && distinct(
            session@.inbound,
            inbound_key(),
        ) && distinct(session@.outbound, outbound_key())),
{
    let ghost subs = session@.subscriptions;
    let ghost inbound = session@.inbound;
    let ghost outbound = session@.outbound;
    proof {
        lemma_firsts_distinct(subs, sub_key(), |k: Seq<char>| sub_is(k));
        lemma_firsts_distinct(inbound, inbound_key(), |k: u16| inbound_is(k));
        lemma_firsts_distinct(outbound, outbound_key(), |k: u16| outbound_is(k));
    }
    let mut at: usize = 0;
    assert(subs.len() == session.subscriptions@.len());
    while at < session.subscriptions.len()
        invariant
            at <= subs.len() == session.subscriptions@.len(),
            subs == session@.subscriptions,
            forall|i: int|
                0 <= i < at ==> first(subs, sub_is(sub_key()(#[trigger] subs[i]))) == Some(i),
        decreases subs.len() - at,
    {
        assert(subs[at as int].0 == session.subscriptions@[at as int].0@);
        if session.find_subscription(session.subscriptions[at].0.as_str()) != Some(at) {
            proof {
                lemma_firsts_distinct(subs, sub_key(), |k: Seq<char>| sub_is(k));
                assert(first(subs, sub_is(sub_key()(subs[at as int]))) != Some(at as int));
            }
            return false;
        }
        at = at + 1;
    }
    at = 0;
    assert(inbound.len() == session.inbound_qos2@.len());
    while at < session.inbound_qos2.len()
        invariant
            at <= inbound.len() == session.inbound_qos2@.len(),
            inbound == session@.inbound,
            forall|i: int|
                0 <= i < at ==> first(inbound, inbound_is(inbound_key()(#[trigger] inbound[i])))
                    == Some(i),
        decreases inbound.len() - at,
    {
        assert(inbound[at as int] == session.inbound_qos2@[at as int]@);
        if session.find_inbound(session.inbound_qos2[at].packet_id) != Some(at) {
            proof {
                lemma_firsts_distinct(inbound, inbound_key(), |k: u16| inbound_is(k));
                assert(first(inbound, inbound_is(inbound_key()(inbound[at as int]))) != Some(
                    at as int,
                ));
            }
            return false;
        }
        at = at + 1;
    }
    at = 0;
    assert(outbound.len() == session.outbound@.len());
    while at < session.outbound.len()
        invariant
            at <= outbound.len() == session.outbound@.len(),
            outbound == session@.outbound,
            forall|i: int|
                0 <= i < at ==> first(outbound, outbound_is(outbound_key()(#[trigger] outbound[i])))
                    == Some(i),
        decreases outbound.len() - at,
    {
        assert(outbound[at as int] == session.outbound@[at as int]@);
        if session.find_outbound(session.outbound[at].packet_id) != Some(at) {
            proof {
                lemma_firsts_distinct(outbound, outbound_key(), |k: u16| outbound_is(k));
                assert(first(outbound, outbound_is(outbound_key()(outbound[at as int]))) != Some(
                    at as int,
                ));
            }
            return false;
        }
        at = at + 1;
    }
    true
}

/// Whether nothing occurs twice and every message is in its place.
pub fn is_well_recorded(session: &StoredSession, limits: &Limits) -> (result: bool)
    ensures
        result == well_recorded(session@, *limits),
{
    let ghost s = session@;
    if session.next_packet_id == 0 || !distinct_parts(session) {
        return false;
    }
    let mut at: usize = 0;
    assert(s.offline.len() == session.offline@.len());
    while at < session.offline.len()
        invariant
            at <= s.offline.len() == session.offline@.len(),
            s == session@,
            forall|i: int| 0 <= i < at ==> waiting_ok(#[trigger] s.offline[i], *limits),
        decreases s.offline.len() - at,
    {
        assert(s.offline[at as int] == session.offline@[at as int]@);
        let message = &session.offline[at];
        if (message.qos != 1 && message.qos != 2) || !valid_broker_message(message, limits) {
            assert(!waiting_ok(s.offline[at as int], *limits));
            return false;
        }
        at = at + 1;
    }
    at = 0;
    assert(s.inbound.len() == session.inbound_qos2@.len());
    while at < session.inbound_qos2.len()
        invariant
            at <= s.inbound.len() == session.inbound_qos2@.len(),
            s == session@,
            forall|i: int| 0 <= i < at ==> received_ok(#[trigger] s.inbound[i], *limits),
        decreases s.inbound.len() - at,
    {
        assert(s.inbound[at as int] == session.inbound_qos2@[at as int]@);
        let message = session.inbound_qos2[at].state.message();
        if session.inbound_qos2[at].packet_id == 0 || message.qos != 2 || !valid_broker_message(
            message,
            limits,
        ) {
            assert(!received_ok(s.inbound[at as int], *limits));
            return false;
        }
        at = at + 1;
    }
    at = 0;
    assert(s.outbound.len() == session.outbound@.len());
    while at < session.outbound.len()
        invariant
            at <= s.outbound.len() == session.outbound@.len(),
            s == session@,
            forall|i: int| 0 <= i < at ==> sent_ok(#[trigger] s.outbound[i], *limits),
        decreases s.outbound.len() - at,
    {
        assert(s.outbound[at as int] == session.outbound@[at as int]@);
        let message = session.outbound[at].state.message();
        let qos: u8 = if session.outbound[at].state.stage() == OutboundStage::Puback {
            1
        } else {
            2
        };
        if session.outbound[at].packet_id == 0 || message.qos != qos || !valid_broker_message(
            message,
            limits,
        ) {
            assert(!sent_ok(s.outbound[at as int], *limits));
            return false;
        }
        at = at + 1;
    }
    true
}

/// Whether the session holds nothing that its authorization, if known, does not allow.
pub fn is_still_permitted(session: &StoredSession, limits: &Limits) -> (result: bool)
    ensures
        result == still_permitted(session@, *limits),
{
    let ghost s = session@;
    let permissions = match &session.authorization {
        Some(authorization) => authorization.permissions,
        None => return true,
    };
    let ghost a = s.authorization->0;
    assert(a.permissions == permissions);
    let device = &session.key.device;
    let mut at: usize = 0;
    assert(s.offline.len() == session.offline@.len());
    while at < session.offline.len()
        invariant
            at <= s.offline.len() == session.offline@.len(),
            s == session@,
            device@ == s.key.device,
            s.authorization == Some(a),
            a.permissions == permissions,
            forall|i: int|
                0 <= i < at ==> delivery_acl_spec(
                    s.key.device,
                    a.permissions,
                    (#[trigger] s.offline[i]).topic,
                    *limits,
                ),
        decreases s.offline.len() - at,
    {
        assert(s.offline[at as int] == session.offline@[at as int]@);
        if !session_delivery_acl(
            device,
            &permissions,
            session.offline[at].topic.as_str(),
            limits,
        ) {
            return false;
        }
        at = at + 1;
    }
    at = 0;
    assert(s.outbound.len() == session.outbound@.len());
    while at < session.outbound.len()
        invariant
            at <= s.outbound.len() == session.outbound@.len(),
            s == session@,
            device@ == s.key.device,
            s.authorization == Some(a),
            a.permissions == permissions,
            forall|i: int|
                0 <= i < at ==> delivery_acl_spec(
                    s.key.device,
                    a.permissions,
                    (#[trigger] s.outbound[i]).message.topic,
                    *limits,
                ),
        decreases s.outbound.len() - at,
    {
        assert(s.outbound[at as int] == session.outbound@[at as int]@);
        if !session_delivery_acl(
            device,
            &permissions,
            session.outbound[at].state.message().topic.as_str(),
            limits,
        ) {
            return false;
        }
        at = at + 1;
    }
    at = 0;
    assert(s.inbound.len() == session.inbound_qos2@.len());
    while at < session.inbound_qos2.len()
        invariant
            at <= s.inbound.len() == session.inbound_qos2@.len(),
            s == session@,
            device@ == s.key.device,
            s.authorization == Some(a),
            a.permissions == permissions,
            forall|i: int|
                0 <= i < at ==> publish_topic_spec(
                    s.key.device,
                    (#[trigger] s.inbound[i]).message.topic,
                    Some(a.permissions),
                ),
        decreases s.inbound.len() - at,
    {
        assert(s.inbound[at as int] == session.inbound_qos2@[at as int]@);
        if !device_publish_topic(
            device,
            session.inbound_qos2[at].state.message().topic.as_str(),
            Some(&permissions),
        ) {
            return false;
        }
        at = at + 1;
    }
    true
}

/// Received messages with every delivery begun anew.
fn revive_inbound(entries: &Vec<InboundEntry>) -> (result: Vec<InboundEntry>)
    ensures
        inbound_views(result@) == inbound_all_after(inbound_views(entries@)),
{
    let ghost all = inbound_all_after(inbound_views(entries@));
    let mut result: Vec<InboundEntry> = Vec::new();
    let mut at: usize = 0;
    while at < entries.len()
        invariant
            at <= entries.len(),
            all == inbound_all_after(inbound_views(entries@)),
            result@.len() == at,
            forall|i: int| 0 <= i < at ==> (#[trigger] result@[i])@ == all[i],
        decreases entries.len() - at,
    {
        let message = entries[at].state.message().clone();
        let state = match entries[at].state.stage_now() {
            InboundStage::EventAccepted => InboundQos2State::EventAccepted(message),
            _ => InboundQos2State::AwaitPubrel(message),
        };
        let ghost e = entries@[at as int]@;
        assert(all[at as int] == inbound_after(e));
        result.push(
            InboundEntry {
                packet_id: entries[at].packet_id,
                state,
                operation_id: None,
                reservation: RetainedReservation::default(),
            },
        );
        at = at + 1;
    }
    assert(inbound_views(result@) =~= all);
    result
}

/// The identifiers, each once.
fn unique_ids(ids: &Vec<u16>) -> (result: Vec<u16>)
    ensures
        result@.no_duplicates(),
        result@.to_set() == ids@.to_set(),
{
    let mut result: Vec<u16> = Vec::new();
    let mut at: usize = 0;
    while at < ids.len()
        invariant
            at <= ids.len(),
            result@.no_duplicates(),
            forall|x: u16| result@.contains(x) <==> ids@.take(at as int).contains(x),
        decreases ids.len() - at,
    {
        let id = ids[at];
        let ghost before = result@;
        let ghost seen = ids@.take(at as int);
        let ghost now = ids@.take(at as int + 1);
        assert(now =~= seen.push(id));
        let mut found = false;
        let mut k: usize = 0;
        while k < result.len()
            invariant
                k <= result.len(),
                found == exists|j: int| 0 <= j < k && result@[j] == id,
            decreases result.len() - k,
        {
            if result[k] == id {
                found = true;
            }
            k = k + 1;
        }
        assert(found == before.contains(id));
        if !found {
            result.push(id);
        }
        proof {
            assert forall|x: u16| result@.contains(x) <==> now.contains(x) by {
                if now.contains(x) {
                    let j = choose|j: int| 0 <= j < now.len() && now[j] == x;
                    if j < seen.len() {
                        assert(seen[j] == x);
                        assert(before.contains(x));
                        let m = choose|m: int| 0 <= m < before.len() && before[m] == x;
                        assert(result@[m] == x);
                    } else {
                        assert(x == id);
                        if found {
                            let m = choose|m: int| 0 <= m < before.len() && before[m] == x;
                            assert(result@[m] == x);
                        } else {
                            assert(result@[before.len() as int] == x);
                        }
                    }
                }
                if result@.contains(x) {
                    let m = choose|m: int| 0 <= m < result@.len() && result@[m] == x;
                    if m < before.len() {
                        assert(before[m] == x);
                        assert(before.contains(x));
                        assert(seen.contains(x));
                        let j = choose|j: int| 0 <= j < seen.len() && seen[j] == x;
                        assert(now[j] == x);
                    } else {
                        assert(now[seen.len() as int] == id);
                    }
                }
            }
        }
        at = at + 1;
    }
    assert(ids@.take(ids@.len() as int) =~= ids@);
    assert(result@.to_set() =~= ids@.to_set());
    result
}

/// Lets a recorded session begin anew.
pub fn revive(session: StoredSession, incarnation: u64) -> (result: StoredSession)
    ensures
        result@ == revived(session@, incarnation),
        result.offline_bytes == session.offline_bytes,
        result.inbound_window@.no_duplicates(),
{
    let ghost before = session@;
    let mut session = session;
    session.active_generation = None;
    session.incarnation = incarnation;
    session.inbound_qos2 = revive_inbound(&session.inbound_qos2);
    session.inbound_window = unique_ids(&session.inbound_window);
    assert(session@ =~= revived(before, incarnation));
    session
}

fn fresh_messages(messages: &Vec<BrokerMessage>, now: i64) -> (result: Vec<BrokerMessage>)
    ensures
        message_views(result@) == keep(message_views(messages@), fresh_message(now)),
{
    let ghost all = message_views(messages@);
    let ghost p = fresh_message(now);
    let mut result: Vec<BrokerMessage> = Vec::new();
    let mut at: usize = 0;
    assert(message_views(result@) =~= keep(all.take(0), p));
    while at < messages.len()
        invariant
            at <= messages.len(),
            all == message_views(messages@),
            p == fresh_message(now),
            message_views(result@) == keep(all.take(at as int), p),
        decreases messages.len() - at,
    {
        proof {
            lemma_keep_step(all, p, at as int);
            assert(all[at as int] == messages@[at as int]@);
        }
        if !messages[at].expired(now) {
            let ghost before = message_views(result@);
            result.push(messages[at].clone());
            assert(message_views(result@) =~= before.push(all[at as int]));
        }
        at = at + 1;
    }
    assert(all.take(all.len() as int) =~= all);
    result
}

fn staying_exchanges(entries: &Vec<OutboundEntry>, now: i64) -> (result: Vec<OutboundEntry>)
    ensures
        outbound_views(result@) == keep(outbound_views(entries@), exchange_stays(now)),
{
    let ghost all = outbound_views(entries@);
    let ghost p = exchange_stays(now);
    let mut result: Vec<OutboundEntry> = Vec::new();
    let mut at: usize = 0;
    assert(outbound_views(result@) =~= keep(all.take(0), p));
    while at < entries.len()
        invariant
            at <= entries.len(),
            all == outbound_views(entries@),
            p == exchange_stays(now),
            outbound_views(result@) == keep(all.take(at as int), p),
        decreases entries.len() - at,
    {
        proof {
            lemma_keep_step(all, p, at as int);
            assert(all[at as int] == entries@[at as int]@);
        }
        if entries[at].state.stage() == OutboundStage::Pubcomp || entries[at].started
            || !entries[at].state.message().expired(now) {
            let ghost before = outbound_views(result@);
            result.push(entries[at].clone());
            assert(outbound_views(result@) =~= before.push(all[at as int]));
        }
        at = at + 1;
    }
    assert(all.take(all.len() as int) =~= all);
    result
}

fn message_bytes(messages: &Vec<BrokerMessage>) -> (bytes: u128)
    ensures
        bytes == cap(total(message_views(messages@), message_charge())),
{
    let ghost all = message_views(messages@);
    let mut bytes: u128 = 0;
    let mut at: usize = 0;
    while at < messages.len()
        invariant
            at <= messages.len(),
            all == message_views(messages@),
            bytes == cap(total(all.take(at as int), message_charge())),
        decreases messages.len() - at,
    {
        proof {
            lemma_total_take(all, at as int, message_charge());
        }
        bytes = cap_sum(bytes, messages[at].bytes() as u128);
        at = at + 1;
    }
    assert(all.take(all.len() as int) =~= all);
    bytes
}

/// The bytes of the waiting messages are as they were recorded and within bounds.
pub open spec fn bytes_recorded(r: RecordedView, limits: Limits) -> Option<Error> {
    let bytes = total(r.session.offline, message_charge());
    if bytes > usize::MAX {
        Some(Error::Overloaded)
    } else if bytes != r.offline_bytes || bytes > limits.max_offline_bytes_per_session {
        Some(Error::Invalid)
    } else {
        None
    }
}

pub fn check_bytes_recorded(session: &StoredSession, limits: &Limits) -> (fault: Option<Error>)
    ensures
        fault == bytes_recorded(recorded(*session), *limits),
{
    let bytes: u128 = message_bytes(&session.offline);
    if bytes > usize::MAX as u128 {
        Some(Error::Overloaded)
    } else if bytes != session.offline_bytes as u128 || bytes
        > limits.max_offline_bytes_per_session as u128 {
        Some(Error::Invalid)
    } else {
        None
    }
}

fn charge_sum(session: &StoredSession) -> (bytes: u128)
    ensures
        bytes == cap(session_charge(session@)),
{
    let ghost s = session@;
    let mut subscriptions: u128 = 0;
    let mut at: usize = 0;
    while at < session.subscriptions.len()
        invariant
            at <= session.subscriptions.len(),
            s == session@,
            subscriptions == cap(total(s.subscriptions.take(at as int), sub_charge())),
        decreases session.subscriptions.len() - at,
    {
        proof {
            lemma_total_take(s.subscriptions, at as int, sub_charge());
        }
        subscriptions = cap_sum(
            subscriptions,
            byte_len(session.subscriptions[at].0.as_str()) as u128 + STATE_OVERHEAD as u128,
        );
        at = at + 1;
    }
    let mut inbound: u128 = 0;
    at = 0;
    while at < session.inbound_qos2.len()
        invariant
            at <= session.inbound_qos2.len(),
            s == session@,
            inbound == cap(total(s.inbound.take(at as int), inbound_charge())),
        decreases session.inbound_qos2.len() - at,
    {
        proof {
            lemma_total_take(s.inbound, at as int, inbound_charge());
        }
        inbound = cap_sum(inbound, session.inbound_qos2[at].state.message().bytes() as u128);
        at = at + 1;
    }
    let mut outbound: u128 = 0;
    at = 0;
    while at < session.outbound.len()
        invariant
            at <= session.outbound.len(),
            s == session@,
            outbound == cap(total(s.outbound.take(at as int), outbound_charge())),
        decreases session.outbound.len() - at,
    {
        proof {
            lemma_total_take(s.outbound, at as int, outbound_charge());
        }
        outbound = cap_sum(outbound, session.outbound[at].state.message().bytes() as u128);
        at = at + 1;
    }
    proof {
        assert(s.subscriptions.take(s.subscriptions.len() as int) =~= s.subscriptions);
        assert(s.inbound.take(s.inbound.len() as int) =~= s.inbound);
        assert(s.outbound.take(s.outbound.len() as int) =~= s.outbound);
    }
    let key = &session.key;
    let base: u128 = byte_len(key.client_id.as_str()) as u128 + byte_len(
        key.device.tenant_id.as_str(),
    ) as u128 + byte_len(key.device.product_id.as_str()) as u128 + byte_len(
        key.device.device_id.as_str(),
    ) as u128 + STATE_OVERHEAD as u128;
    let offline: u128 = message_bytes(&session.offline);
    cap_sum(cap_sum(cap_sum(cap_sum(base, subscriptions), offline), inbound), outbound)
}

/// Drops what has expired and counts the session's bytes, if they can be counted.
pub fn make_current(session: StoredSession, now: i64) -> (result: Option<StoredSession>)
    requires
        session_ok(session@),
        session.inbound_window@.no_duplicates(),
    ensures
        result is Some <==> session_charge(current(session@, now)) <= usize::MAX,
        result is Some ==> result->0@ == current(session@, now) && result->0.wf(),
{
    let ghost before = session@;
    let mut session = session;
    session.offline = fresh_messages(&session.offline, now);
    session.outbound = staying_exchanges(&session.outbound, now);
    proof {
        assert(session@ =~= current(before, now));
        lemma_keep_distinct(before.outbound, exchange_stays(now), outbound_key());
    }
    let bytes: u128 = charge_sum(&session);
    if bytes > usize::MAX as u128 {
        return None;
    }
    let offline: u128 = message_bytes(&session.offline);
    session.offline_bytes = offline as usize;
    session.state_bytes = bytes as usize;
    assert(session@ =~= current(before, now));
    Some(session)
}

impl MqttBroker {
    /// Whether a session is within every bound, together with those that are here already.
    pub fn has_room_for(&self, session: &StoredSession) -> (room: bool)
        requires
            self.wf(),
            session.wf(),
        ensures
            room == room_for(self@, self.limits, session@),
    {
        let own = session.usage();
        let shared = self.tenant_totals(&session.key.device.tenant_id);
        let all = self.totals();
        let limits = &self.limits;
        let most: u128 = usize::MAX as u128;
        assert(session@.subscriptions.len() == session.subscriptions@.len());
        assert(session@.offline.len() == session.offline@.len());
        shared.sessions < limits.max_persistent_sessions_per_tenant as u128
            && session.subscriptions.len() <= limits.max_subscriptions_per_session
            && session.offline.len() <= limits.max_offline_messages_per_session
            && own.qos1_inflight <= limits.max_inflight_qos1_per_session as u128
            && own.qos2_inflight <= limits.max_inflight_qos2_per_session as u128 && cap_sum(
            shared.qos1_inflight,
            own.qos1_inflight,
        ) <= limits.max_inflight_qos1_per_tenant as u128 && cap_sum(
            shared.qos2_inflight,
            own.qos2_inflight,
        ) <= limits.max_inflight_qos2_per_tenant as u128 && own.state_bytes
            <= limits.max_mqtt_session_state_bytes as u128 && cap_sum(
            shared.state_bytes,
            own.state_bytes,
        ) <= limits.max_mqtt_session_state_bytes_per_tenant as u128 && cap_sum(
            all.subscriptions,
            own.subscriptions,
        ) <= most && cap_sum(all.offline_count, own.offline_count) <= most && cap_sum(
            all.offline_bytes,
            own.offline_bytes,
        ) <= most && cap_sum(all.state_bytes, own.state_bytes) <= most
    }
}

/// Whether every filter may be set up again.
pub fn are_filters_restorable(session: &StoredSession, limits: &Limits) -> (result: bool)
    ensures
        result == filters_restorable(session@, *limits),
{
    let ghost s = session@;
    let mut at: usize = 0;
    assert(s.subscriptions.len() == session.subscriptions@.len());
    while at < session.subscriptions.len()
        invariant
            at <= s.subscriptions.len() == session.subscriptions@.len(),
            s == session@,
            forall|i: int|
                0 <= i < at ==> filter_restorable(s, *limits, #[trigger] s.subscriptions[i]),
        decreases s.subscriptions.len() - at,
    {
        assert(s.subscriptions[at as int] == (
            session.subscriptions@[at as int].0@,
            session.subscriptions@[at as int].1,
        ));
        let filter = session.subscriptions[at].0.as_str();
        let subscription = session.subscriptions[at].1;
        let allowed = match &session.authorization {
            Some(authorization) => session_subscribe_acl(
                &session.key.device,
                &authorization.permissions,
                filter,
                limits,
            ),
            None => true,
        };
        if !valid_topic(filter, limits, true) || subscription.qos > 2
            || subscription.retain_handling > 2 || !allowed {
            assert(!filter_restorable(s, *limits, s.subscriptions[at as int]));
            return false;
        }
        at = at + 1;
    }
    true
}

} // verus!
