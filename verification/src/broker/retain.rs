//! What is retained for a topic, and what is not lost by looking after the sessions.
use super::flow::lemma_prune_before_route_claims;
use super::model::{
    drive, drive_wakes, least_wake, lemma_put_session, next_unsent, promote, prune_if_due,
    prune_messages, prune_retained, prune_session, prune_sessions, put_session, queued_for,
    reserved_bytes, reserved_count, retained_allowed, retained_at, retained_bytes, retained_charge,
    retained_count, retained_is, state_bytes, unmark, update_retained, wake_session, wake_tenant,
    wake_tenant_loop, will_charge, will_count, BrokerView, RetainedView, HOT_MAINTENANCE_BUDGET,
};
use super::route::{
    deliver_first, deliver_one, plan_route, prune_before_route, route_message, PlannedView,
};
use super::service::publish;
use super::tidy::topic_of;
use crate::identity::{DeviceView, KeyView};
use crate::limits::Limits;
use crate::list::{count, distinct, first, lemma_distinct_remove, lemma_first};
use crate::message::{expired_spec, MessageView};
use crate::session::SessionView;
use crate::table::due_at;
use super::wills::{hold_will, will_valid};
use vstd::prelude::*;

verus! {

proof fn lemma_put_retains(limits: Limits)
    ensures
        forall|b: BrokerView, i: int, s: SessionView|
            (#[trigger] put_session(b, limits, i, s)).retained == b.retained,
{
    assert forall|b: BrokerView, i: int, s: SessionView|
        (#[trigger] put_session(b, limits, i, s)).retained == b.retained by {
        lemma_put_session(b, limits, i, s);
    }
}

proof fn lemma_prune_session_retains(b: BrokerView, limits: Limits, key: KeyView, now: i64)
    ensures
        prune_session(b, limits, key, now).retained == b.retained,
{
    reveal(prune_session);
    lemma_put_retains(limits);
}

pub proof fn lemma_prune_if_due_retains(b: BrokerView, limits: Limits, key: KeyView, now: i64)
    ensures
        prune_if_due(b, limits, key, now).retained == b.retained,
{
    lemma_prune_session_retains(b, limits, key, now);
}

proof fn lemma_wake_session_retains(
    b: BrokerView,
    limits: Limits,
    now: i64,
    key: KeyView,
    gate: Option<u8>,
)
    ensures
        wake_session(b, limits, now, key, gate).0.retained == b.retained,
{
    reveal(wake_session);
    reveal(next_unsent);
    reveal(promote);
    lemma_put_retains(limits);
    lemma_prune_session_retains(unmark(b, key), limits, key, now);
}

proof fn lemma_wake_tenant_retains(
    b: BrokerView,
    limits: Limits,
    now: i64,
    tenant: Seq<char>,
    qos: u8,
    attempts: nat,
)
    ensures
        wake_tenant_loop(b, limits, now, tenant, qos, attempts).0.retained == b.retained,
    decreases attempts,
{
    if attempts > 0 {
        if let Some(k) = first(b.pending, queued_for(tenant, qos)) {
            let next = wake_session(b, limits, now, b.pending[k].0, Some(qos)).0;
            lemma_wake_session_retains(b, limits, now, b.pending[k].0, Some(qos));
            lemma_wake_tenant_retains(next, limits, now, tenant, qos, (attempts - 1) as nat);
        }
    }
}

proof fn lemma_drive_wakes_retains(b: BrokerView, limits: Limits, now: i64, budget: nat)
    ensures
        drive_wakes(b, limits, now, budget).0.retained == b.retained,
    decreases budget,
{
    if budget > 0 && b.wakes.len() > 0 {
        let k = least_wake(b.wakes, b.wakes.len());
        let (tenant, qos) = b.wakes[k];
        let taken = BrokerView { wakes: b.wakes.remove(k), ..b };
        let next = wake_tenant(taken, limits, now, tenant, qos).0;
        assert(next.retained == b.retained) by {
            reveal(wake_tenant);
            lemma_wake_tenant_retains(
                taken,
                limits,
                now,
                tenant,
                qos,
                count(taken.pending, queued_for(tenant, qos)),
            );
        }
        lemma_drive_wakes_retains(next, limits, now, (budget - 1) as nat);
    }
}

/// Looking after the sessions leaves the retained messages alone.
pub proof fn lemma_drive_retains(b: BrokerView, limits: Limits, now: i64)
    ensures
        drive(b, limits, now).0.retained == b.retained,
{
    reveal(drive);
    lemma_drive_wakes_retains(b, limits, now, HOT_MAINTENANCE_BUDGET as nat);
}

proof fn lemma_deliver_retains(
    b: BrokerView,
    limits: Limits,
    message: MessageView,
    plan: Seq<PlannedView>,
    n: nat,
)
    ensures
        deliver_first(b, limits, message, plan, n).0.retained == b.retained,
    decreases n,
{
    if n > 0 {
        lemma_deliver_retains(b, limits, message, plan, (n - 1) as nat);
        reveal(deliver_one);
        lemma_put_retains(limits);
    }
}

/// What is retained afterwards was retained before, and what is lost had expired.
pub open spec fn only_expired_lost(
    before: Seq<RetainedView>,
    after: Seq<RetainedView>,
    now: i64,
) -> bool {
    &&& forall|r: RetainedView| #[trigger] after.contains(r) ==> before.contains(r)
    &&& forall|r: RetainedView|
        #![trigger after.contains(r)]
        before.contains(r) && !expired_spec(r.message, now) ==> after.contains(r)
}

proof fn lemma_removed<T>(s: Seq<T>, i: int)
    requires
        0 <= i < s.len(),
    ensures
        forall|r: T| #[trigger] s.remove(i).contains(r) ==> s.contains(r),
        forall|r: T| s.contains(r) && r != s[i] ==> #[trigger] s.remove(i).contains(r),
{
    let t = s.remove(i);
    assert forall|r: T| #[trigger] t.contains(r) implies s.contains(r) by {
        let k = choose|k: int| 0 <= k < t.len() && t[k] == r;
        assert(s[if k < i {
            k
        } else {
            k + 1
        }] == r);
    }
    assert forall|r: T| s.contains(r) && r != s[i] implies #[trigger] t.contains(r) by {
        let k = choose|k: int| 0 <= k < s.len() && s[k] == r;
        assert(t[if k < i {
            k
        } else {
            k - 1
        }] == r);
    }
}

proof fn lemma_prune_retained_keeps(b: BrokerView, now: i64, budget: nat)
    requires
        distinct(b.retained, topic_of()),
    ensures
        distinct(prune_retained(b, now, budget).retained, topic_of()),
        only_expired_lost(b.retained, prune_retained(b, now, budget).retained, now),
    decreases budget,
{
    if budget > 0 {
        if let Some(k) = due_at(b.retained_expiry, now) {
            let topic = b.retained_expiry[k].0;
            let taken = BrokerView { retained_expiry: b.retained_expiry.remove(k), ..b };
            lemma_first(b.retained, retained_is(topic));
            match retained_at(taken, topic) {
                Some(i) => {
                    if expired_spec(taken.retained[i].message, now) {
                        let next = BrokerView { retained: taken.retained.remove(i), ..taken };
                        lemma_distinct_remove(b.retained, i, topic_of());
                        lemma_removed(b.retained, i);
                        lemma_prune_retained_keeps(next, now, (budget - 1) as nat);
                        let last = prune_retained(next, now, (budget - 1) as nat).retained;
                        assert forall|r: RetainedView|
                            b.retained.contains(r) && !expired_spec(
                                r.message,
                                now,
                            ) implies #[trigger] last.contains(r) by {
                            assert(next.retained.contains(r));
                        }
                    } else {
                        let next = BrokerView {
                            retained_expiry: crate::table::with_entry(
                                taken.retained_expiry,
                                topic,
                                taken.retained[i].message.properties.expires_at_ms,
                            ),
                            ..taken
                        };
                        lemma_prune_retained_keeps(next, now, (budget - 1) as nat);
                    }
                },
                None => {
                    lemma_prune_retained_keeps(taken, now, (budget - 1) as nat);
                },
            }
        }
    }
}

proof fn lemma_prune_sessions_retains(b: BrokerView, limits: Limits, now: i64, budget: nat)
    ensures
        prune_sessions(b, limits, now, budget).retained == b.retained,
    decreases budget,
{
    if budget > 0 {
        if let Some(k) = due_at(b.message_expiry, now) {
            let key = b.message_expiry[k].0;
            let taken = BrokerView { message_expiry: b.message_expiry.remove(k), ..b };
            lemma_prune_session_retains(taken, limits, key, now);
            lemma_prune_sessions_retains(
                prune_session(taken, limits, key, now),
                limits,
                now,
                (budget - 1) as nat,
            );
        }
    }
}

/// Pruning takes nothing from the retained messages but what has expired.
pub proof fn lemma_prune_messages_keeps(b: BrokerView, limits: Limits, now: i64, budget: nat)
    requires
        distinct(b.retained, topic_of()),
    ensures
        distinct(prune_messages(b, limits, now, budget).retained, topic_of()),
        only_expired_lost(b.retained, prune_messages(b, limits, now, budget).retained, now),
{
    lemma_prune_sessions_retains(b, limits, now, budget);
    lemma_prune_retained_keeps(prune_sessions(b, limits, now, budget), now, budget);
}

/// A topic retains one message, or, after an empty one, none.
pub open spec fn only_this_for_its_topic(
    after: Seq<RetainedView>,
    tenant: Seq<char>,
    origin: Option<KeyView>,
    message: MessageView,
) -> bool {
    &&& forall|r: RetainedView| #[trigger] after.contains(r) && r.message.topic == message.topic ==> {
        &&& message.payload.len() > 0
        &&& r.message == message
        &&& r.tenant == tenant
        &&& r.origin == origin
    }
    &&& message.payload.len() > 0 ==> after.contains(RetainedView { tenant, message, origin })
}

/// The same, and other topics are not touched.
pub open spec fn retains_last(
    before: Seq<RetainedView>,
    after: Seq<RetainedView>,
    tenant: Seq<char>,
    origin: Option<KeyView>,
    message: MessageView,
) -> bool {
    &&& only_this_for_its_topic(after, tenant, origin, message)
    &&& forall|r: RetainedView|
        r.message.topic != message.topic ==> (#[trigger] after.contains(r) <==> before.contains(r))
}

proof fn lemma_update_retained(
    b: BrokerView,
    tenant: Seq<char>,
    origin: Option<KeyView>,
    message: MessageView,
)
    requires
        distinct(b.retained, topic_of()),
    ensures
        retains_last(
            b.retained,
            update_retained(b, tenant, origin, message).retained,
            tenant,
            origin,
            message,
        ),
{
    let entry = RetainedView { tenant, message, origin };
    let after = update_retained(b, tenant, origin, message).retained;
    let p = retained_is(message.topic);
    lemma_first(b.retained, p);
    match retained_at(b, message.topic) {
        Some(i) => {
            lemma_removed(b.retained, i);
            lemma_distinct_remove(b.retained, i, topic_of());
            assert(p(b.retained[i]));
            if message.payload.len() == 0 {
                assert forall|r: RetainedView| #[trigger] after.contains(r) implies r.message.topic
                    != message.topic by {
                    let k = choose|k: int| 0 <= k < after.len() && after[k] == r;
                    assert(topic_of()(b.retained.remove(i)[k]) != topic_of()(b.retained[i]));
                }
            } else {
                assert(after[i] == entry);
                assert forall|r: RetainedView| #[trigger] after.contains(r) implies r == entry || (
                r.message.topic != message.topic && b.retained.contains(r)) by {
                    let k = choose|k: int| 0 <= k < after.len() && after[k] == r;
                    if k != i {
                        assert(b.retained[k] == r);
                        assert(topic_of()(b.retained[k]) != topic_of()(b.retained[i]));
                    }
                }
                assert forall|r: RetainedView|
                    b.retained.contains(r) && r.message.topic
                        != message.topic implies #[trigger] after.contains(r) by {
                    let k = choose|k: int| 0 <= k < b.retained.len() && b.retained[k] == r;
                    assert(after[k] == r);
                }
            }
        },
        None => {
            assert forall|r: RetainedView| #[trigger] b.retained.contains(r) implies r.message.topic
                != message.topic by {
                let k = choose|k: int| 0 <= k < b.retained.len() && b.retained[k] == r;
                assert(!p(b.retained[k]));
            }
            if message.payload.len() > 0 {
                assert(after[b.retained.len() as int] == entry);
                assert forall|r: RetainedView| #[trigger] after.contains(r) implies r == entry
                    || b.retained.contains(r) by {
                    let k = choose|k: int| 0 <= k < after.len() && after[k] == r;
                    if k < b.retained.len() {
                        assert(b.retained[k] == r);
                    }
                }
                assert forall|r: RetainedView|
                    b.retained.contains(r) implies #[trigger] after.contains(r) by {
                    let k = choose|k: int| 0 <= k < b.retained.len() && b.retained[k] == r;
                    assert(after[k] == r);
                }
            }
        },
    }
}

/// A message that is routed and says so becomes the retained one of its topic, exactly as it is, or
/// clears the topic if it is empty. One that does not say so, or is refused, changes nothing that
/// is retained.
pub proof fn law_routed_message_is_retained_if_it_says_so(
    b: BrokerView,
    limits: Limits,
    now: i64,
    tenant: Seq<char>,
    origin: Option<KeyView>,
    message: MessageView,
)
    requires
        distinct(b.retained, topic_of()),
    ensures
        ({
            let (next, outcome) = route_message(b, limits, now, tenant, origin, message);
            if message.retain && outcome is Ok && !expired_spec(message, now) {
                retains_last(b.retained, next.retained, tenant, origin, message)
            } else {
                next.retained == b.retained
            }
        }),
{
    reveal(route_message);
    let b1 = prune_before_route(b, limits, now, message.topic);
    lemma_prune_before_route_claims(b, limits, now, message.topic);
    lemma_update_retained(b1, tenant, origin, message);
    if let Ok(plan) = plan_route(b1, limits, tenant, origin, message) {
        let b2 = if message.retain {
            update_retained(b1, tenant, origin, message)
        } else {
            b1
        };
        lemma_deliver_retains(b2, limits, message, plan, plan.len());
    }
}

/// A message that is published and says so becomes the retained one of its topic, exactly as it
/// is, or clears the topic if it is empty. Nothing else that is retained is lost but what has
/// expired, and nothing else is added.
pub proof fn law_published_message_is_retained_if_it_says_so(
    b: BrokerView,
    limits: Limits,
    now: i64,
    tenant: Seq<char>,
    origin: Option<KeyView>,
    message: MessageView,
)
    requires
        distinct(b.retained, topic_of()),
    ensures
        ({
            let (next, outcome) = publish(b, limits, now, tenant, origin, message);
            if message.retain && outcome is Ok && !expired_spec(message, now) {
                &&& only_this_for_its_topic(next.retained, tenant, origin, message)
                &&& forall|r: RetainedView|
                    r.message.topic != message.topic && #[trigger] next.retained.contains(r)
                        ==> b.retained.contains(r)
                &&& forall|r: RetainedView|
                    r.message.topic != message.topic && b.retained.contains(r) && !expired_spec(
                        r.message,
                        now,
                    ) ==> #[trigger] next.retained.contains(r)
            } else {
                only_expired_lost(b.retained, next.retained, now)
            }
        }),
{
    reveal(publish);
    let b1 = prune_messages(b, limits, now, HOT_MAINTENANCE_BUDGET as nat);
    lemma_prune_messages_keeps(b, limits, now, HOT_MAINTENANCE_BUDGET as nat);
    law_routed_message_is_retained_if_it_says_so(b1, limits, now, tenant, origin, message);
    let routed = route_message(b1, limits, now, tenant, origin, message).0;
    lemma_drive_retains(routed, limits, now);
    assert(only_expired_lost(b.retained, b.retained, now));
    let next = publish(b, limits, now, tenant, origin, message).0;
    assert forall|r: RetainedView|
        r.message.topic != message.topic && b.retained.contains(r) && !expired_spec(
            r.message,
            now,
        ) implies #[trigger] next.retained.contains(r) by {
        assert(b1.retained.contains(r));
    }
}

/// A message may be retained where there is room for it beside what is retained and what is set
/// aside; where it takes the place of a message of the same tenant that was no smaller it needs
/// none; and to clear a topic needs none.
pub proof fn law_retained_message_finds_room(
    b: BrokerView,
    limits: Limits,
    tenant: Seq<char>,
    origin: Option<KeyView>,
    message: MessageView,
)
    requires
        ({
            let own = Some(tenant);
            let bytes = retained_charge(message, origin);
            let room = {
                &&& b.retained.len() + reserved_count(b, None) + 1 <= limits.max_retained_messages
                &&& retained_count(b, own) + reserved_count(b, own) + 1
                    <= limits.max_retained_messages_per_tenant
                &&& retained_bytes(b, None) + reserved_bytes(b, None) + bytes
                    <= limits.max_retained_bytes
                &&& retained_bytes(b, own) + reserved_bytes(b, own) + bytes
                    <= limits.max_retained_bytes_per_tenant
            };
            let instead = {
                &&& retained_at(b, message.topic) matches Some(i) && b.retained[i].tenant == tenant
                    && bytes <= retained_charge(b.retained[i].message, b.retained[i].origin)
                &&& retained_bytes(b, None) + reserved_bytes(b, None) <= limits.max_retained_bytes
                &&& retained_bytes(b, own) + reserved_bytes(b, own)
                    <= limits.max_retained_bytes_per_tenant
            };
            message.payload.len() > 0 ==> message.payload.len() <= limits.max_retained_message_bytes
                && (room || instead)
        }),
    ensures
        retained_allowed(b, limits, tenant, origin, message),
{
}

/// A will that is not to be retained is held wherever there is room for it: for one more with the
/// tenant and with all, and for its bytes.
pub proof fn law_will_finds_room(
    b: BrokerView,
    limits: Limits,
    owner: DeviceView,
    origin: Option<KeyView>,
    message: MessageView,
)
    requires
        will_valid(limits, owner, origin, message),
        !message.retain || message.payload.len() == 0,
        b.next_guard < u64::MAX,
        will_count(b, None) + 1 <= limits.max_connections,
        will_count(b, Some(owner.tenant)) + 1 <= limits.max_connections_per_tenant,
        state_bytes(b, None) + will_charge(message, origin) <= limits.global_mqtt_session_bytes,
        state_bytes(b, Some(owner.tenant)) + will_charge(message, origin)
            <= limits.max_mqtt_session_state_bytes_per_tenant,
    ensures
        hold_will(b, limits, owner, origin, message).1 is Ok,
{
    reveal(hold_will);
}

} // verus!
