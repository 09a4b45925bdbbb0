//! How the parts of the broker's state hang together: one session for each key, one connection
//! for each session, and indexes that say what the sessions say.
use super::model::{
    active_at, active_is, add_wake, advance, drive, drive_wakes, expiry_deadline, frame_charge,
    frame_fits, guard_at, guard_is, guard_wills, has_room, inflight, least, least_wake, link_used,
    mark, next_unsent, promote, prune_if_due, prune_session, push_next, put_session, queued_for,
    reindexed, reserved, retained_at, sat_sub, sent, session_at, session_deadline, session_is,
    session_key, tenant_limit, touch_session, unmark, wake_global, wake_global_loop, wake_session,
    wake_tenant, wake_tenant_loop, will_count, will_in, with_link, BrokerView, FrameView, GuardView,
    LinkView, RetainedView, WillView, HOT_MAINTENANCE_BUDGET,
};
use super::slots::{
    claims_within, lemma_guard_claims, lemma_session_claims, lemma_shrink_no_more, lemma_slots_fine,
    retained_numbers_within, retained_shares_within, slots, slots_fine, slots_stay,
};
use super::weight::{
    lemma_exchange_changed, lemma_promoted, lemma_pruned, lemma_second_count, second_count,
};
use crate::identity::KeyView;
use crate::limits::Limits;
use crate::usage::{
    anyone, in_tenant, ledger_of, lemma_sum_push, lemma_sum_remove, lemma_sum_update, plus,
    tenant_usage, total_usage,
};
use crate::list::{
    count, distinct, first, is_first, lemma_distinct_push, lemma_distinct_remove,
    lemma_distinct_update, lemma_first, lemma_first_is, lemma_first_none, lemma_total_push,
    lemma_total_remove, lemma_total_update, total,
};
use crate::message::{charge_of, sat};
use crate::session::{
    auth_complete, earliest_exchange, exchange_deadline, is_unsent, message_charge,
    message_deadline, next_free, outbound_capacity, promoted, pruned, unsent_qos, usage_of,
    OutboundView, SessionView, Subscription, UsageView,
};
use crate::table::{entry_key, law_one_value_per_key, lookup};
use crate::text::levels;
use crate::trie::{subscribed, trie_ok};
use super::answers::lemma_guard_answers;
use vstd::prelude::*;

verus! {

/// When the next waiting message of a session expires.
pub open spec fn waiting_deadline(b: BrokerView, key: KeyView) -> Option<i64> {
    match session_at(b, key) {
        Some(i) => message_deadline(b.sessions[i]),
        None => None,
    }
}

/// The deadlines of one session are in the indexes as they should be.
pub open spec fn indexed(b: BrokerView, limits: Limits, key: KeyView) -> bool {
    &&& lookup(b.session_expiry, key) == expiry_deadline(b, limits, key)
    &&& lookup(b.message_expiry, key) == waiting_deadline(b, key)
}

/// The deadlines of every session, but for the one that is left out, are in the indexes as they
/// should be, and nothing else is.
#[verifier::opaque]
pub open spec fn exact_but(b: BrokerView, limits: Limits, hole: Option<KeyView>) -> bool {
    &&& distinct(b.session_expiry, entry_key())
    &&& distinct(b.message_expiry, entry_key())
    &&& forall|key: KeyView| hole != Some(key) ==> #[trigger] indexed(b, limits, key)
}

pub open spec fn topic_of() -> spec_fn(RetainedView) -> Seq<char> {
    |r: RetainedView| r.message.topic
}

pub open spec fn retained_deadline(b: BrokerView, topic: Seq<char>) -> Option<i64> {
    match retained_at(b, topic) {
        Some(i) => b.retained[i].message.properties.expires_at_ms,
        None => None,
    }
}

pub open spec fn retained_indexed(b: BrokerView, topic: Seq<char>) -> bool {
    lookup(b.retained_expiry, topic) == retained_deadline(b, topic)
}

/// One retained message for each topic, and its deadline in the index.
#[verifier::opaque]
pub open spec fn retained_tidy(b: BrokerView) -> bool {
    &&& distinct(b.retained, topic_of())
    &&& distinct(b.retained_expiry, entry_key())
    &&& forall|topic: Seq<char>| #[trigger] retained_indexed(b, topic)
}

/// One session for each key, and one subscription for each of its filters.
#[verifier::opaque]
pub open spec fn sessions_tidy(b: BrokerView) -> bool {
    &&& distinct(b.sessions, session_key())
    &&& forall|i: int|
        0 <= i < b.sessions.len() ==> distinct(
            (#[trigger] b.sessions[i]).subscriptions,
            entry_key(),
        )
}

/// At most one connection holds a session, and only one that exists.
#[verifier::opaque]
pub open spec fn links_tidy(b: BrokerView) -> bool {
    &&& forall|i: int, j: int|
        0 <= i < j < b.links.len() && (#[trigger] b.links[i]).active && (
        #[trigger] b.links[j]).active ==> b.links[i].key != b.links[j].key
    &&& forall|j: int|
        0 <= j < b.links.len() && (#[trigger] b.links[j]).active ==> session_at(
            b,
            b.links[j].key,
        ) is Some
}

/// What a session has subscribed to under a filter.
pub open spec fn filter_of(b: BrokerView, key: KeyView, filter: Seq<char>) -> Option<Subscription> {
    match session_at(b, key) {
        Some(i) => lookup(b.sessions[i].subscriptions, filter),
        None => None,
    }
}

/// Whether what a session has subscribed to reaches it. A session that was restored without its
/// authorization waits for it.
pub open spec fn entitled(b: BrokerView, key: KeyView) -> bool {
    session_at(b, key) matches Some(i) ==> (b.sessions[i].authorization matches Some(a)
        && auth_complete(a))
}

pub open spec fn filed(b: BrokerView, key: KeyView, filter: Seq<char>) -> bool {
    ||| subscribed(b.trie, levels(filter), key) == filter_of(b, key, filter)
    ||| !entitled(b, key) && subscribed(b.trie, levels(filter), key) is None
}

/// A path through the trie that some filter takes.
pub open spec fn spelled(path: Seq<Seq<char>>) -> bool {
    exists|filter: Seq<char>| path == #[trigger] levels(filter)
}

/// The trie holds the subscriptions of the sessions and nothing else.
#[verifier::opaque]
pub open spec fn trie_tidy(b: BrokerView) -> bool {
    &&& trie_ok(b.trie)
    &&& forall|path: Seq<Seq<char>>, key: KeyView| #[trigger]
        subscribed(b.trie, path, key) is Some ==> spelled(path)
    &&& forall|key: KeyView, filter: Seq<char>| #[trigger] filed(b, key, filter)
}

pub open spec fn guard_token() -> spec_fn(GuardView) -> u64 {
    |g: GuardView| g.token
}

/// No two held wills have the same number, and numbers to come are not in use.
#[verifier::opaque]
pub open spec fn guards_tidy(guards: Seq<GuardView>, next_guard: u64) -> bool {
    &&& distinct(guards, guard_token())
    &&& forall|k: int| 0 <= k < guards.len() ==> (#[trigger] guards[k]).token < next_guard
}

/// No tenant has more sessions, session state or exchanges in flight, and no session more
/// subscriptions, waiting messages or exchanges in flight, than allowed.
#[verifier::opaque]
pub open spec fn shares_within(sessions: Seq<SessionView>, limits: Limits) -> bool {
    &&& forall|tenant: Seq<char>|
        tenant_within(#[trigger] tenant_usage(sessions, tenant), limits)
    &&& forall|i: int|
        0 <= i < sessions.len() ==> share_within(#[trigger] sessions[i], limits)
}

/// What the sessions of one tenant count for is no more than allowed.
pub open spec fn tenant_within(usage: UsageView, limits: Limits) -> bool {
    &&& usage.sessions <= limits.max_persistent_sessions_per_tenant
    &&& usage.state_bytes <= limits.max_mqtt_session_state_bytes_per_tenant
    &&& usage.qos1_inflight <= limits.max_inflight_qos1_per_tenant
    &&& usage.qos2_inflight <= limits.max_inflight_qos2_per_tenant
}

/// The subscriptions, the waiting messages and the exchanges in flight of one session are no more
/// than allowed.
pub open spec fn share_within(s: SessionView, limits: Limits) -> bool {
    &&& s.subscriptions.len() <= limits.max_subscriptions_per_session
    &&& s.offline.len() <= limits.max_offline_messages_per_session
    &&& total(s.offline, message_charge()) <= limits.max_offline_bytes_per_session
    &&& usage_of(s).qos1_inflight <= limits.max_inflight_qos1_per_session
    &&& second_count(s) <= limits.max_inflight_qos2_per_session
}

/// Sessions, their state, subscriptions and waiting messages are no more than allowed.
#[verifier::opaque]
pub open spec fn numbers_within(sessions: Seq<SessionView>, limits: Limits) -> bool {
    &&& sessions.len() <= limits.max_persistent_sessions
    &&& total_usage(sessions).subscriptions <= limits.max_subscriptions
    &&& total_usage(sessions).offline_count <= limits.max_offline_messages
    &&& total_usage(sessions).offline_bytes <= limits.max_offline_bytes
    &&& total_usage(sessions).state_bytes <= limits.global_mqtt_session_bytes
}

/// An amount that does not grow, or grows within a bound of its own and one of the sum.
pub open spec fn may_grow(was: nat, is: nat, own: usize, sum: nat, all: usize) -> bool {
    is <= was || (is <= own && sum + is <= all + was)
}

/// An amount that does not grow, or grows within a bound of the sum.
pub open spec fn may_add(was: nat, is: nat, sum: nat, all: usize) -> bool {
    is <= was || sum + is <= all + was
}

/// Another session in the place of one, within the bounds.
pub open spec fn fits(sessions: Seq<SessionView>, limits: Limits, i: int, s: SessionView) -> bool {
    &&& fits_in(
        total_usage(sessions),
        tenant_usage(sessions, sessions[i].key.device.tenant),
        limits,
        usage_of(sessions[i]),
        usage_of(s),
    )
    &&& second_count(s) <= second_count(sessions[i]) || second_count(s)
        <= limits.max_inflight_qos2_per_session
}

/// Amounts in the place of others, within the bounds of a session, its tenant and all.
pub open spec fn fits_in(
    all: UsageView,
    shared: UsageView,
    limits: Limits,
    was: UsageView,
    is: UsageView,
) -> bool {
    &&& may_grow(
        was.subscriptions,
        is.subscriptions,
        limits.max_subscriptions_per_session,
        all.subscriptions,
        limits.max_subscriptions,
    )
    &&& may_grow(
        was.offline_count,
        is.offline_count,
        limits.max_offline_messages_per_session,
        all.offline_count,
        limits.max_offline_messages,
    )
    &&& may_grow(
        was.offline_bytes,
        is.offline_bytes,
        limits.max_offline_bytes_per_session,
        all.offline_bytes,
        limits.max_offline_bytes,
    )
    &&& may_add(
        was.state_bytes,
        is.state_bytes,
        all.state_bytes,
        limits.global_mqtt_session_bytes,
    )
    &&& may_add(
        was.state_bytes,
        is.state_bytes,
        shared.state_bytes,
        limits.max_mqtt_session_state_bytes_per_tenant,
    )
    &&& may_grow(
        was.qos1_inflight,
        is.qos1_inflight,
        limits.max_inflight_qos1_per_session,
        shared.qos1_inflight,
        limits.max_inflight_qos1_per_tenant,
    )
    &&& may_add(
        was.qos2_inflight,
        is.qos2_inflight,
        shared.qos2_inflight,
        limits.max_inflight_qos2_per_tenant,
    )
}

/// What waits for the connections or is being written to them is no more than allowed: frames and
/// bytes of each connection, bytes of each tenant, and bytes of all.
#[verifier::opaque]
pub open spec fn frames_within(links: Seq<LinkView>, limits: Limits) -> bool {
    &&& forall|j: int|
        0 <= j < links.len() ==> (#[trigger] links[j]).queue.len()
            <= limits.max_outbound_messages_per_connection && links[j].used
            <= limits.max_outbound_bytes_per_connection
    &&& forall|tenant: Seq<char>|
        total(links, #[trigger] link_used(Some(tenant))) <= limits.max_outbound_bytes_per_tenant
    &&& total(links, link_used(None)) <= limits.max_outbound_bytes
}

/// How many of the wills count for a tenant, or for all.
pub open spec fn answered(
    pending: Seq<WillView>,
    future: Seq<WillView>,
    guards: Seq<GuardView>,
    scope: Option<Seq<char>>,
) -> nat {
    total(pending, will_in(scope)) + total(future, will_in(scope)) + total(
        guard_wills(guards),
        will_in(scope),
    )
}

/// The wills that count are no more than allowed, of each tenant and of all.
#[verifier::opaque]
pub open spec fn answered_within(
    pending: Seq<WillView>,
    future: Seq<WillView>,
    guards: Seq<GuardView>,
    limits: Limits,
) -> bool {
    &&& answered(pending, future, guards, None) <= limits.max_connections
    &&& forall|tenant: Seq<char>|
        #[trigger] answered(pending, future, guards, Some(tenant))
            <= limits.max_connections_per_tenant
}

/// The broker answers for no more wills than allowed.
pub open spec fn wills_within(b: BrokerView, limits: Limits) -> bool {
    answered_within(b.pending_wills, b.future_wills, b.guards, limits)
}

/// No more wills count than before.
pub open spec fn wills_no_more(b: BrokerView, next: BrokerView) -> bool {
    forall|scope: Option<Seq<char>>| #[trigger] will_count(next, scope) <= will_count(b, scope)
}

pub proof fn lemma_wills_kept(b: BrokerView, next: BrokerView, limits: Limits)
    requires
        wills_no_more(b, next),
    ensures
        wills_within(b, limits) ==> wills_within(next, limits),
{
    reveal(answered_within);
    assert(will_count(next, None) <= will_count(b, None));
    if wills_within(b, limits) {
        assert forall|tenant: Seq<char>|
            #[trigger] answered(next.pending_wills, next.future_wills, next.guards, Some(tenant))
                <= limits.max_connections_per_tenant by {
            assert(will_count(next, Some(tenant)) <= will_count(b, Some(tenant)));
            assert(answered(b.pending_wills, b.future_wills, b.guards, Some(tenant))
                <= limits.max_connections_per_tenant);
        }
    }
}

/// Everything fits together but for the deadlines of the session that is left out, however many
/// sessions there are.
pub open spec fn tidy_parts(b: BrokerView, limits: Limits, hole: Option<KeyView>) -> bool {
    &&& exact_but(b, limits, hole)
    &&& retained_tidy(b)
    &&& sessions_tidy(b)
    &&& links_tidy(b)
    &&& trie_tidy(b)
    &&& guards_tidy(b.guards, b.next_guard)
    &&& shares_within(b.sessions, limits)
    &&& frames_within(b.links, limits)
    &&& retained_shares_within(slots(b), limits)
}

pub open spec fn tidy_but(b: BrokerView, limits: Limits, hole: Option<KeyView>) -> bool {
    &&& tidy_parts(b, limits, hole)
    &&& numbers_within(b.sessions, limits)
    &&& retained_numbers_within(slots(b), limits)
    &&& wills_within(b, limits)
}

/// Everything fits together, and within the bounds.
pub open spec fn tidy(b: BrokerView, limits: Limits) -> bool {
    tidy_but(b, limits, None)
}

/// The same sessions with the same subscriptions, held by the same connections.
#[verifier::opaque]
pub open spec fn same_outline(b: BrokerView, next: BrokerView) -> bool {
    &&& next.trie == b.trie
    &&& next.sessions.len() == b.sessions.len()
    &&& forall|i: int|
        0 <= i < b.sessions.len() ==> (#[trigger] next.sessions[i]).key == b.sessions[i].key
            && next.sessions[i].subscriptions == b.sessions[i].subscriptions
            && next.sessions[i].authorization == b.sessions[i].authorization
    &&& next.links.len() == b.links.len()
    &&& forall|j: int|
        0 <= j < b.links.len() ==> (#[trigger] next.links[j]).key == b.links[j].key
            && next.links[j].active == b.links[j].active && next.links[j].generation
            == b.links[j].generation
}

/// A step that keeps the outline, the indexes if they were exact, and the bounds, whatever it does
/// to the retained slots.
pub open spec fn steady_but_slots(b: BrokerView, next: BrokerView, limits: Limits) -> bool {
    &&& same_outline(b, next)
    &&& exact_but(b, limits, None) ==> exact_but(next, limits, None)
    &&& retained_tidy(b) ==> retained_tidy(next)
    &&& guards_tidy(b.guards, b.next_guard) ==> guards_tidy(next.guards, next.next_guard)
    &&& frames_within(b.links, limits) ==> frames_within(next.links, limits)
    &&& shares_within(b.sessions, limits) ==> shares_within(next.sessions, limits)
    &&& numbers_within(b.sessions, limits) ==> numbers_within(next.sessions, limits)
}

/// A step that keeps the bounds on the slots of each tenant as well.
pub open spec fn steady_parts(b: BrokerView, next: BrokerView, limits: Limits) -> bool {
    &&& steady_but_slots(b, next, limits)
    &&& retained_shares_within(slots(b), limits) ==> retained_shares_within(slots(next), limits)
}

/// A step that keeps all of the bounds and counts nothing that is gone.
pub open spec fn steady(b: BrokerView, next: BrokerView, limits: Limits) -> bool {
    &&& steady_but_slots(b, next, limits)
    &&& next.shadowed == b.shadowed
    &&& slots_stay(slots(b), slots(next), limits)
    &&& wills_within(b, limits) ==> wills_within(next, limits)
}

pub proof fn lemma_steady_refl(b: BrokerView, limits: Limits)
    ensures
        steady(b, b, limits),
{
    reveal(same_outline);
}

pub proof fn lemma_steady_trans(a: BrokerView, b: BrokerView, c: BrokerView, limits: Limits)
    requires
        steady_but_slots(a, b, limits),
        steady_but_slots(b, c, limits),
    ensures
        steady_but_slots(a, c, limits),
        steady(a, b, limits) && steady(b, c, limits) ==> steady(a, c, limits),
{
    reveal(same_outline);
    assert forall|i: int| 0 <= i < a.sessions.len() implies (#[trigger] c.sessions[i]).key
        == a.sessions[i].key && c.sessions[i].subscriptions == a.sessions[i].subscriptions
        && c.sessions[i].authorization == a.sessions[i].authorization by {
        assert(b.sessions[i].key == a.sessions[i].key);
    }
    assert forall|j: int| 0 <= j < a.links.len() implies (#[trigger] c.links[j]).key
        == a.links[j].key && c.links[j].active == a.links[j].active && c.links[j].generation
        == a.links[j].generation by {
        assert(b.links[j].key == a.links[j].key);
    }
}

/// Where a session stands depends on the keys alone.
pub proof fn lemma_outline_positions(b: BrokerView, next: BrokerView, key: KeyView)
    requires
        same_outline(b, next),
    ensures
        session_at(next, key) == session_at(b, key),
        active_at(next, key) == active_at(b, key),
        session_at(b, key) matches Some(i) ==> 0 <= i < b.sessions.len() && b.sessions[i].key
            == key,
        active_at(b, key) matches Some(j) ==> 0 <= j < b.links.len() && b.links[j].key == key
            && b.links[j].active,
{
    reveal(same_outline);
    lemma_first(b.sessions, session_is(key));
    lemma_first(b.links, active_is(key));
    match first(b.sessions, session_is(key)) {
        Some(i) => {
            assert(is_first(next.sessions, session_is(key), i)) by {
                assert forall|j: int| 0 <= j < i implies !session_is(key)(
                    #[trigger] next.sessions[j],
                ) by {
                    assert(!session_is(key)(b.sessions[j]));
                }
            }
            lemma_first_is(next.sessions, session_is(key), i);
        },
        None => {
            assert forall|j: int| 0 <= j < next.sessions.len() implies !session_is(key)(
                #[trigger] next.sessions[j],
            ) by {
                assert(!session_is(key)(b.sessions[j]));
            }
            lemma_first_none(next.sessions, session_is(key));
        },
    }
    match first(b.links, active_is(key)) {
        Some(i) => {
            assert(is_first(next.links, active_is(key), i)) by {
                assert forall|j: int| 0 <= j < i implies !active_is(key)(
                    #[trigger] next.links[j],
                ) by {
                    assert(!active_is(key)(b.links[j]));
                }
            }
            lemma_first_is(next.links, active_is(key), i);
        },
        None => {
            assert forall|j: int| 0 <= j < next.links.len() implies !active_is(key)(
                #[trigger] next.links[j],
            ) by {
                assert(!active_is(key)(b.links[j]));
            }
            lemma_first_none(next.links, active_is(key));
        },
    }
}

/// What depends on the outline alone.
pub proof fn lemma_outline_tidy(b: BrokerView, next: BrokerView)
    requires
        same_outline(b, next),
    ensures
        sessions_tidy(b) ==> sessions_tidy(next),
        links_tidy(b) ==> links_tidy(next),
        trie_tidy(b) ==> trie_tidy(next),
{
    reveal(same_outline);
    if sessions_tidy(b) {
        reveal(sessions_tidy);
        assert forall|i: int, j: int|
            0 <= i < next.sessions.len() && 0 <= j < next.sessions.len() && i != j implies
            session_key()(#[trigger] next.sessions[i]) != session_key()(
            #[trigger] next.sessions[j],
        ) by {
            assert(session_key()(b.sessions[i]) != session_key()(b.sessions[j]));
        }
        assert forall|i: int| 0 <= i < next.sessions.len() implies distinct(
            (#[trigger] next.sessions[i]).subscriptions,
            entry_key(),
        ) by {
            assert(distinct(b.sessions[i].subscriptions, entry_key()));
        }
    }
    if links_tidy(b) {
        reveal(links_tidy);
        assert forall|i: int, j: int|
            0 <= i < j < next.links.len() && (#[trigger] next.links[i]).active && (
            #[trigger] next.links[j]).active implies next.links[i].key != next.links[j].key by {
            assert(b.links[i].active && b.links[j].active);
        }
        assert forall|j: int|
            0 <= j < next.links.len() && (#[trigger] next.links[j]).active implies session_at(
            next,
            next.links[j].key,
        ) is Some by {
            assert(b.links[j].active);
            lemma_outline_positions(b, next, b.links[j].key);
        }
    }
    if trie_tidy(b) {
        reveal(trie_tidy);
        assert forall|key: KeyView, filter: Seq<char>| #[trigger] filed(next, key, filter) by {
            assert(filed(b, key, filter));
            lemma_outline_positions(b, next, key);
            if let Some(i) = session_at(b, key) {
                assert(next.sessions[i].subscriptions == b.sessions[i].subscriptions);
            }
        }
    }
}

/// One session fewer.
pub proof fn lemma_within_removed(sessions: Seq<SessionView>, limits: Limits, i: int)
    requires
        0 <= i < sessions.len(),
    ensures
        shares_within(sessions, limits) ==> shares_within(sessions.remove(i), limits),
        numbers_within(sessions, limits) ==> numbers_within(sessions.remove(i), limits),
{
    reveal(numbers_within);
    let next = sessions.remove(i);
    let l = ledger_of(sessions);
    assert(ledger_of(next) =~= l.remove(i));
    lemma_sum_remove(l, i, anyone());
    if shares_within(sessions, limits) {
        reveal(shares_within);
        assert forall|tenant: Seq<char>|
            tenant_within(#[trigger] tenant_usage(next, tenant), limits) by {
            lemma_sum_remove(l, i, in_tenant(tenant));
            assert(tenant_within(tenant_usage(sessions, tenant), limits));
        }
        assert forall|m: int| 0 <= m < next.len() implies share_within(
            #[trigger] next[m],
            limits,
        ) by {
            let from = if m < i {
                m
            } else {
                m + 1
            };
            assert(next[m] == sessions[from]);
            assert(share_within(sessions[from], limits));
        }
    }
}

/// One session more.
pub proof fn lemma_within_pushed(sessions: Seq<SessionView>, limits: Limits, s: SessionView)
    requires
        tenant_within(
            plus(tenant_usage(sessions, s.key.device.tenant), usage_of(s)),
            limits,
        ),
        share_within(s, limits),
    ensures
        shares_within(sessions, limits) ==> shares_within(sessions.push(s), limits),
        total_usage(sessions.push(s)) == plus(total_usage(sessions), usage_of(s)),
{
    let next = sessions.push(s);
    let l = ledger_of(sessions);
    let entry = (s.key, usage_of(s));
    assert(ledger_of(next) =~= l.push(entry));
    lemma_sum_push(l, entry, anyone());
    if shares_within(sessions, limits) {
        reveal(shares_within);
        assert forall|tenant: Seq<char>|
            tenant_within(#[trigger] tenant_usage(next, tenant), limits) by {
            lemma_sum_push(l, entry, in_tenant(tenant));
            assert(tenant_within(tenant_usage(sessions, tenant), limits));
        }
        assert forall|m: int| 0 <= m < next.len() implies share_within(
            #[trigger] next[m],
            limits,
        ) by {
            if m < sessions.len() {
                assert(share_within(sessions[m], limits));
            }
        }
    }
}

/// Another session in the place of one.
pub proof fn lemma_within_updated(
    sessions: Seq<SessionView>,
    limits: Limits,
    i: int,
    s: SessionView,
)
    requires
        0 <= i < sessions.len(),
        s.key == sessions[i].key,
        fits(sessions, limits, i, s),
    ensures
        shares_within(sessions, limits) ==> shares_within(sessions.update(i, s), limits),
        numbers_within(sessions, limits) ==> numbers_within(sessions.update(i, s), limits),
{
    reveal(numbers_within);
    let next = sessions.update(i, s);
    let l = ledger_of(sessions);
    assert(ledger_of(next) =~= l.update(i, (l[i].0, usage_of(s))));
    lemma_sum_update(l, i, usage_of(s), anyone());
    if shares_within(sessions, limits) {
        reveal(shares_within);
        assert forall|tenant: Seq<char>|
            tenant_within(#[trigger] tenant_usage(next, tenant), limits) by {
            lemma_sum_update(l, i, usage_of(s), in_tenant(tenant));
            assert(tenant_within(tenant_usage(sessions, tenant), limits));
        }
        assert forall|m: int| 0 <= m < next.len() implies share_within(
            #[trigger] next[m],
            limits,
        ) by {
            assert(share_within(sessions[m], limits));
        }
    }
}

/// One connection more, or one fewer.
pub proof fn lemma_frames_pushed(links: Seq<LinkView>, limits: Limits, l: LinkView)
    requires
        frames_within(links, limits),
        l.queue.len() <= limits.max_outbound_messages_per_connection,
        l.used <= limits.max_outbound_bytes_per_connection,
        total(links, link_used(Some(l.key.device.tenant))) + l.used
            <= limits.max_outbound_bytes_per_tenant,
        total(links, link_used(None)) + l.used <= limits.max_outbound_bytes,
    ensures
        frames_within(links.push(l), limits),
{
    reveal(frames_within);
    let next = links.push(l);
    lemma_total_push(links, l, link_used(None));
    assert forall|tenant: Seq<char>|
        total(next, #[trigger] link_used(Some(tenant)))
            <= limits.max_outbound_bytes_per_tenant by {
        lemma_total_push(links, l, link_used(Some(tenant)));
        assert(total(links, link_used(Some(tenant))) <= limits.max_outbound_bytes_per_tenant);
    }
    assert forall|m: int| 0 <= m < next.len() implies (#[trigger] next[m]).queue.len()
        <= limits.max_outbound_messages_per_connection && next[m].used
        <= limits.max_outbound_bytes_per_connection by {
        if m < links.len() {
            assert(links[m].queue.len() <= limits.max_outbound_messages_per_connection);
        }
    }
}

pub proof fn lemma_frames_removed(links: Seq<LinkView>, limits: Limits, j: int)
    requires
        frames_within(links, limits),
        0 <= j < links.len(),
    ensures
        frames_within(links.remove(j), limits),
{
    reveal(frames_within);
    let next = links.remove(j);
    lemma_total_remove(links, j, link_used(None));
    assert forall|tenant: Seq<char>|
        total(next, #[trigger] link_used(Some(tenant)))
            <= limits.max_outbound_bytes_per_tenant by {
        lemma_total_remove(links, j, link_used(Some(tenant)));
        assert(total(links, link_used(Some(tenant))) <= limits.max_outbound_bytes_per_tenant);
    }
    assert forall|m: int| 0 <= m < next.len() implies (#[trigger] next[m]).queue.len()
        <= limits.max_outbound_messages_per_connection && next[m].used
        <= limits.max_outbound_bytes_per_connection by {
        let from = if m < j {
            m
        } else {
            m + 1
        };
        assert(next[m] == links[from]);
        assert(links[from].queue.len() <= limits.max_outbound_messages_per_connection);
    }
}

/// A connection that holds so many bytes more, or fewer.
pub proof fn lemma_frames_within(
    links: Seq<LinkView>,
    limits: Limits,
    j: int,
    l: LinkView,
    charge: nat,
)
    requires
        0 <= j < links.len(),
        l.key == links[j].key,
        l.adrift == links[j].adrift,
        l.queue.len() <= links[j].queue.len() || l.queue.len()
            <= limits.max_outbound_messages_per_connection,
        l.used <= links[j].used + charge,
        charge > 0 ==> links[j].used + charge <= limits.max_outbound_bytes_per_connection && total(
            links,
            link_used(Some(l.key.device.tenant)),
        ) + charge <= limits.max_outbound_bytes_per_tenant && total(links, link_used(None))
            + charge <= limits.max_outbound_bytes,
    ensures
        frames_within(links, limits) ==> frames_within(links.update(j, l), limits),
{
    if frames_within(links, limits) {
        reveal(frames_within);
        let next = links.update(j, l);
        lemma_total_update(links, j, l, link_used(None));
        assert forall|tenant: Seq<char>|
            total(next, #[trigger] link_used(Some(tenant)))
                <= limits.max_outbound_bytes_per_tenant by {
            lemma_total_update(links, j, l, link_used(Some(tenant)));
            assert(total(links, link_used(Some(tenant))) <= limits.max_outbound_bytes_per_tenant);
        }
        assert forall|m: int| 0 <= m < next.len() implies (#[trigger] next[m]).queue.len()
            <= limits.max_outbound_messages_per_connection && next[m].used
            <= limits.max_outbound_bytes_per_connection by {
            assert(links[m].queue.len() <= limits.max_outbound_messages_per_connection);
        }
    }
}

/// What is tidy stays tidy through a steady step.
pub proof fn lemma_steady_tidy(b: BrokerView, next: BrokerView, limits: Limits)
    requires
        tidy_parts(b, limits, None),
        steady_parts(b, next, limits),
    ensures
        tidy_parts(next, limits, None),
        tidy(b, limits) && steady(b, next, limits) ==> tidy(next, limits),
        next.sessions.len() == b.sessions.len(),
{
    lemma_outline_tidy(b, next);
    reveal(same_outline);
}

/// A step that leaves the sessions, the connections, the trie and the indexes alone.
pub open spec fn same_books(b: BrokerView, next: BrokerView) -> bool {
    &&& next.sessions == b.sessions
    &&& next.links == b.links
    &&& next.trie == b.trie
    &&& next.retained == b.retained
    &&& next.shadowed == b.shadowed
    &&& next.session_expiry == b.session_expiry
    &&& next.message_expiry == b.message_expiry
    &&& next.retained_expiry == b.retained_expiry
}

/// Why the bounds on the wills hold on: they are the same, no more count, or it is known
/// otherwise.
pub open spec fn wills_fine(b: BrokerView, next: BrokerView, limits: Limits) -> bool {
    ||| next.pending_wills == b.pending_wills && next.future_wills == b.future_wills && next.guards
        == b.guards
    ||| wills_no_more(b, next)
    ||| wills_within(b, limits) ==> wills_within(next, limits)
}

pub proof fn lemma_same_books(b: BrokerView, next: BrokerView, limits: Limits, hole: Option<KeyView>)
    requires
        same_books(b, next),
        guards_tidy(b.guards, b.next_guard) ==> guards_tidy(next.guards, next.next_guard),
    ensures
        steady_but_slots(b, next, limits),
        exact_but(b, limits, hole) ==> exact_but(next, limits, hole),
        slots_fine(slots(b), slots(next), limits) ==> {
            &&& wills_fine(b, next, limits) ==> steady(b, next, limits)
            &&& wills_fine(b, next, limits) && tidy_but(b, limits, hole) ==> tidy_but(
                next,
                limits,
                hole,
            )
            &&& tidy_parts(b, limits, hole) ==> tidy_parts(next, limits, hole)
        },
{
    reveal(same_outline);
    reveal(sessions_tidy);
    if slots_fine(slots(b), slots(next), limits) {
        lemma_slots_fine(slots(b), slots(next), limits);
    }
    if wills_no_more(b, next) {
        lemma_wills_kept(b, next, limits);
    }
    assert(exact_but(b, limits, hole) ==> exact_but(next, limits, hole)) by {
        reveal(exact_but);
        assert forall|key: KeyView| indexed(b, limits, key) implies #[trigger] indexed(
            next,
            limits,
            key,
        ) by {}
    }
    assert(exact_but(b, limits, None) ==> exact_but(next, limits, None)) by {
        reveal(exact_but);
        assert forall|key: KeyView| indexed(b, limits, key) implies #[trigger] indexed(
            next,
            limits,
            key,
        ) by {}
    }
    assert(retained_tidy(b) ==> retained_tidy(next)) by {
        reveal(retained_tidy);
        assert forall|topic: Seq<char>| retained_indexed(b, topic) implies #[trigger] retained_indexed(
            next,
            topic,
        ) by {}
    }
    assert(links_tidy(b) ==> links_tidy(next)) by {
        reveal(links_tidy);
        assert forall|j: int|
            links_tidy(b) && 0 <= j < next.links.len() && (#[trigger] next.links[j]).active implies session_at(
            next,
            next.links[j].key,
        ) is Some by {
            assert(b.links[j].active);
        }
    }
    assert(trie_tidy(b) ==> trie_tidy(next)) by {
        reveal(trie_tidy);
        assert forall|key: KeyView, filter: Seq<char>| filed(b, key, filter) implies #[trigger] filed(
            next,
            key,
            filter,
        ) by {}
    }
}

/// Bringing one session's deadlines up to date closes the hole.
pub proof fn lemma_reindexed(b: BrokerView, limits: Limits, key: KeyView)
    requires
        exact_but(b, limits, Some(key)) || exact_but(b, limits, None),
    ensures
        exact_but(reindexed(b, limits, key), limits, None),
        same_outline(b, reindexed(b, limits, key)),
        retained_tidy(b) ==> retained_tidy(reindexed(b, limits, key)),
        sessions_tidy(b) ==> sessions_tidy(reindexed(b, limits, key)),
        links_tidy(b) ==> links_tidy(reindexed(b, limits, key)),
        trie_tidy(b) ==> trie_tidy(reindexed(b, limits, key)),
{
    let next = reindexed(b, limits, key);
    reveal(same_outline);
    reveal(exact_but);
    let message = waiting_deadline(b, key);
    let session = expiry_deadline(b, limits, key);
    law_one_value_per_key(b.message_expiry, key, message, key);
    law_one_value_per_key(b.session_expiry, key, session, key);
    assert forall|other: KeyView| #[trigger] indexed(next, limits, other) by {
        law_one_value_per_key(b.message_expiry, key, message, other);
        law_one_value_per_key(b.session_expiry, key, session, other);
        if other != key {
            assert(indexed(b, limits, other));
        }
    }
    lemma_parts(b, next);
}

/// The parts other than the indexes of the sessions do not depend on those indexes.
pub proof fn lemma_parts(b: BrokerView, next: BrokerView)
    requires
        next.sessions == b.sessions,
        next.links == b.links,
        next.trie == b.trie,
        next.retained == b.retained,
        next.retained_expiry == b.retained_expiry,
    ensures
        retained_tidy(b) ==> retained_tidy(next),
        sessions_tidy(b) ==> sessions_tidy(next),
        links_tidy(b) ==> links_tidy(next),
        trie_tidy(b) ==> trie_tidy(next),
{
    reveal(sessions_tidy);
    assert(retained_tidy(b) ==> retained_tidy(next)) by {
        reveal(retained_tidy);
        assert forall|topic: Seq<char>| retained_indexed(b, topic) implies #[trigger] retained_indexed(
            next,
            topic,
        ) by {}
    }
    assert(links_tidy(b) ==> links_tidy(next)) by {
        reveal(links_tidy);
        assert forall|j: int|
            links_tidy(b) && 0 <= j < next.links.len() && (#[trigger] next.links[j]).active implies session_at(
            next,
            next.links[j].key,
        ) is Some by {
            assert(b.links[j].active);
        }
    }
    assert(trie_tidy(b) ==> trie_tidy(next)) by {
        reveal(trie_tidy);
        assert forall|key: KeyView, filter: Seq<char>| filed(b, key, filter) implies #[trigger] filed(
            next,
            key,
            filter,
        ) by {}
    }
}

/// Another session with the same key in the place of one leaves a hole at that key at most.
proof fn lemma_replaced(b: BrokerView, next: BrokerView, limits: Limits, i: int)
    requires
        0 <= i < b.sessions.len(),
        next.sessions == b.sessions.update(i, next.sessions[i]),
        next.sessions[i].key == b.sessions[i].key,
        next.links == b.links,
        next.session_expiry == b.session_expiry,
        next.message_expiry == b.message_expiry,
        exact_but(b, limits, None) || exact_but(b, limits, Some(b.sessions[i].key)),
    ensures
        exact_but(next, limits, Some(b.sessions[i].key)),
{
    let key = b.sessions[i].key;
    reveal(exact_but);
    assert forall|other: KeyView| other != key implies #[trigger] indexed(next, limits, other) by {
        assert(indexed(b, limits, other));
        lemma_replaced_elsewhere(b, next, i, other);
    }
}

/// Replacing a session does not move any other.
proof fn lemma_replaced_elsewhere(b: BrokerView, next: BrokerView, i: int, key: KeyView)
    requires
        0 <= i < b.sessions.len(),
        next.sessions == b.sessions.update(i, next.sessions[i]),
        next.sessions[i].key == b.sessions[i].key,
    ensures
        session_at(next, key) == session_at(b, key),
        session_at(b, key) matches Some(j) ==> 0 <= j < b.sessions.len() && b.sessions[j].key
            == key && (key != b.sessions[i].key ==> next.sessions[j] == b.sessions[j]),
{
    let p = session_is(key);
    lemma_first(b.sessions, p);
    match first(b.sessions, p) {
        Some(j) => {
            assert forall|k: int| 0 <= k < j implies !p(#[trigger] next.sessions[k]) by {
                assert(!p(b.sessions[k]));
            }
            assert(is_first(next.sessions, p, j));
            lemma_first_is(next.sessions, p, j);
        },
        None => {
            assert forall|k: int| 0 <= k < next.sessions.len() implies !p(
                #[trigger] next.sessions[k],
            ) by {
                assert(!p(b.sessions[k]));
            }
            lemma_first_none(next.sessions, p);
        },
    }
}

/// A session replaced, with its deadlines.
pub proof fn lemma_put(b: BrokerView, limits: Limits, i: int, s: SessionView)
    requires
        0 <= i < b.sessions.len(),
        s.key == b.sessions[i].key,
        exact_but(b, limits, None) || exact_but(b, limits, Some(s.key)),
    ensures
        exact_but(put_session(b, limits, i, s), limits, None),
{
    reveal(put_session);
    let mid = BrokerView {
        sessions: b.sessions.update(i, s),
        wakes: super::model::wakes_after(
            b.wakes,
            s.key.device.tenant,
            crate::session::usage_of(b.sessions[i]),
            crate::session::usage_of(s),
        ),
        ..b
    };
    lemma_replaced(b, mid, limits, i);
    lemma_reindexed(mid, limits, s.key);
}

/// A session replaced by one with the same subscriptions.
pub proof fn lemma_put_steady(b: BrokerView, limits: Limits, i: int, s: SessionView)
    requires
        0 <= i < b.sessions.len(),
        s.key == b.sessions[i].key,
        s.subscriptions == b.sessions[i].subscriptions,
        s.authorization == b.sessions[i].authorization,
        fits(b.sessions, limits, i, s),
    ensures
        steady_but_slots(b, put_session(b, limits, i, s), limits),
        s.inbound == b.sessions[i].inbound || claims_within(s, b.sessions[i]) || slots_fine(
            slots(b),
            slots(put_session(b, limits, i, s)),
            limits,
        ) ==> steady(b, put_session(b, limits, i, s), limits),
{
    let next = put_session(b, limits, i, s);
    super::model::lemma_put_session(b, limits, i, s);
    lemma_within_updated(b.sessions, limits, i, s);
    if claims_within(s, b.sessions[i]) {
        lemma_session_claims(slots(b), slots(next), i, s);
    }
    if slots_fine(slots(b), slots(next), limits) {
        lemma_slots_fine(slots(b), slots(next), limits);
    }
    reveal(same_outline);
    if exact_but(b, limits, None) {
        lemma_put(b, limits, i, s);
    }
    assert(retained_tidy(b) ==> retained_tidy(next)) by {
        reveal(retained_tidy);
        assert forall|topic: Seq<char>| retained_indexed(b, topic) implies #[trigger] retained_indexed(
            next,
            topic,
        ) by {}
    }
}

/// A session replaced by one that waits for the same.
pub proof fn lemma_touch_steady(b: BrokerView, limits: Limits, i: int, s: SessionView)
    requires
        0 <= i < b.sessions.len(),
        s.key == b.sessions[i].key,
        s.subscriptions == b.sessions[i].subscriptions,
        s.authorization == b.sessions[i].authorization,
        fits(b.sessions, limits, i, s),
        message_deadline(s) == message_deadline(b.sessions[i]),
        session_deadline(s, limits) == session_deadline(b.sessions[i], limits),
    ensures
        steady_but_slots(b, touch_session(b, i, s), limits),
        s.inbound == b.sessions[i].inbound || claims_within(s, b.sessions[i]) || slots_fine(
            slots(b),
            slots(touch_session(b, i, s)),
            limits,
        ) ==> steady(b, touch_session(b, i, s), limits),
{
    let next = touch_session(b, i, s);
    lemma_within_updated(b.sessions, limits, i, s);
    if claims_within(s, b.sessions[i]) {
        lemma_session_claims(slots(b), slots(next), i, s);
    }
    if slots_fine(slots(b), slots(next), limits) {
        lemma_slots_fine(slots(b), slots(next), limits);
    }
    reveal(same_outline);
    if exact_but(b, limits, None) {
        reveal(exact_but);
        assert forall|other: KeyView| #[trigger] indexed(next, limits, other) by {
            assert(indexed(b, limits, other));
            lemma_replaced_elsewhere(b, next, i, other);
        }
    }
    assert(retained_tidy(b) ==> retained_tidy(next)) by {
        reveal(retained_tidy);
        assert forall|topic: Seq<char>| retained_indexed(b, topic) implies #[trigger] retained_indexed(
            next,
            topic,
        ) by {}
    }
}

/// A connection changed that holds what it held.
pub proof fn lemma_link_steady(b: BrokerView, limits: Limits, j: int, l: LinkView, charge: nat)
    requires
        0 <= j < b.links.len(),
        l.key == b.links[j].key,
        l.adrift == b.links[j].adrift,
        l.active == b.links[j].active,
        l.generation == b.links[j].generation,
        l.queue.len() <= b.links[j].queue.len() || l.queue.len()
            <= limits.max_outbound_messages_per_connection,
        l.used <= b.links[j].used + charge,
        charge > 0 ==> frame_fits(b, limits, j, charge),
    ensures
        steady(b, with_link(b, j, l), limits),
{
    lemma_frames_within(b.links, limits, j, l, charge);
    let next = with_link(b, j, l);
    assert(same_outline(b, next)) by {
        reveal(same_outline);
    }
    if exact_but(b, limits, None) {
        reveal(exact_but);
        assert forall|other: KeyView| #[trigger] indexed(next, limits, other) by {
            assert(indexed(b, limits, other));
            lemma_outline_positions(b, next, other);
        }
    }
    assert(retained_tidy(b) ==> retained_tidy(next)) by {
        reveal(retained_tidy);
        assert forall|topic: Seq<char>| retained_indexed(b, topic) implies #[trigger] retained_indexed(
            next,
            topic,
        ) by {}
    }
}

/// Where a session and its connection stand, if there are any.
pub proof fn lemma_positions(b: BrokerView, key: KeyView)
    ensures
        session_at(b, key) matches Some(i) ==> 0 <= i < b.sessions.len() && b.sessions[i].key
            == key,
        active_at(b, key) matches Some(j) ==> 0 <= j < b.links.len() && b.links[j].key == key
            && b.links[j].active,
{
    lemma_first(b.sessions, session_is(key));
    lemma_first(b.links, active_is(key));
}

proof fn lemma_earliest_update(s: Seq<OutboundView>, k: int, e: OutboundView)
    requires
        0 <= k < s.len(),
        exchange_deadline(e) == exchange_deadline(s[k]),
    ensures
        earliest_exchange(s.update(k, e)) == earliest_exchange(s),
    decreases s.len(),
{
    let t = s.update(k, e);
    if k == s.len() - 1 {
        assert(t.drop_last() =~= s.drop_last());
    } else {
        lemma_earliest_update(s.drop_last(), k, e);
        assert(t.drop_last() =~= s.drop_last().update(k, e));
        assert(t.last() == s.last());
    }
}

pub proof fn lemma_reserved_steady(b: BrokerView, limits: Limits, j: int, charge: nat)
    requires
        0 <= j < b.links.len(),
        frame_fits(b, limits, j, charge),
    ensures
        steady(b, reserved(b, j, charge), limits),
{
    let l = b.links[j];
    lemma_link_steady(b, limits, j, LinkView { used: sat(l.used + charge), ..l }, charge);
}

pub proof fn lemma_sent_steady(b: BrokerView, limits: Limits, j: int, frame: FrameView)
    requires
        0 <= j < b.links.len(),
    ensures
        steady(b, sent(b, limits, j, frame), limits),
{
    let l = b.links[j];
    if l.open && has_room(l, limits) {
        lemma_link_steady(b, limits, j, LinkView { queue: l.queue.push(frame), ..l }, 0);
    } else {
        lemma_link_steady(
            b,
            limits,
            j,
            LinkView { cancelled: true, used: sat_sub(l.used, frame_charge(frame)), ..l },
            0,
        );
    }
}

pub proof fn lemma_mark_steady(b: BrokerView, limits: Limits, key: KeyView)
    ensures
        steady(b, mark(b, key), limits),
        steady(b, unmark(b, key), limits),
{
    lemma_same_books(b, mark(b, key), limits, None);
    lemma_same_books(b, unmark(b, key), limits, None);
}

pub proof fn lemma_next_unsent_steady(b: BrokerView, limits: Limits, i: int, j: int)
    requires
        0 <= i < b.sessions.len(),
        0 <= j < b.links.len(),
    ensures
        steady(b, next_unsent(b, limits, i, j).0, limits),
{
    reveal(next_unsent);
    lemma_steady_refl(b, limits);
    let s = b.sessions[i];
    lemma_first(s.outbound, is_unsent());
    if let Some(k) = first(s.outbound, is_unsent()) {
        let e = s.outbound[k];
        let once = OutboundView { sent: true, ..e };
        let twice = OutboundView { sent: true, windowed: true, ..e };
        lemma_earliest_update(s.outbound, k, once);
        lemma_earliest_update(s.outbound, k, twice);
        lemma_exchange_changed(s, k, once);
        lemma_exchange_changed(s, k, twice);
        lemma_touch_steady(
            b,
            limits,
            i,
            SessionView { outbound: s.outbound.update(k, once), ..s },
        );
        if frame_fits(b, limits, j, charge_of(e.message)) {
            let held = reserved(b, j, charge_of(e.message));
            lemma_reserved_steady(b, limits, j, charge_of(e.message));
            let s2 = SessionView { outbound: s.outbound.update(k, twice), ..s };
            lemma_touch_steady(held, limits, i, s2);
            lemma_steady_trans(b, held, touch_session(held, i, s2), limits);
        }
    }
}

/// The tenant of a session has room for the exchange that the first waiting message would be.
pub open spec fn may_promote(b: BrokerView, limits: Limits, i: int) -> bool {
    let s = b.sessions[i];
    s.offline.len() > 0 ==> inflight(b, s.key.device.tenant, s.offline[0].qos) < tenant_limit(
        limits,
        s.offline[0].qos,
    )
}

pub proof fn lemma_promote_steady(b: BrokerView, limits: Limits, i: int, j: int)
    requires
        0 <= i < b.sessions.len(),
        0 <= j < b.links.len(),
        may_promote(b, limits, i),
    ensures
        steady(b, promote(b, limits, i, j).0, limits),
{
    reveal(promote);
    lemma_steady_refl(b, limits);
    let s = b.sessions[i];
    if s.offline.len() > 0 && frame_fits(b, limits, j, charge_of(s.offline[0]))
        && outbound_capacity(s, s.offline[0].qos, limits) {
        if let Some(id) = next_free(s) {
            let held = reserved(b, j, charge_of(s.offline[0]));
            lemma_reserved_steady(b, limits, j, charge_of(s.offline[0]));
            lemma_promoted(s, id);
            lemma_second_count(s);
            lemma_put_steady(held, limits, i, promoted(s, id));
            lemma_steady_trans(b, held, put_session(held, limits, i, promoted(s, id)), limits);
        }
    }
}

proof fn lemma_push_next_steady(b: BrokerView, limits: Limits, i: int, j: int)
    requires
        0 <= i < b.sessions.len(),
        0 <= j < b.links.len(),
        unsent_qos(b.sessions[i]) is None ==> may_promote(b, limits, i),
    ensures
        steady(b, push_next(b, limits, i, j).0, limits),
{
    lemma_next_unsent_steady(b, limits, i, j);
    if unsent_qos(b.sessions[i]) is None {
        lemma_promote_steady(b, limits, i, j);
    }
    let (next, outcome) = advance(b, limits, i, j);
    if let Ok(Some(frame)) = outcome {
        assert(next.links.len() == b.links.len()) by {
            reveal(same_outline);
        }
        lemma_sent_steady(next, limits, j, frame);
        lemma_steady_trans(b, next, sent(next, limits, j, frame), limits);
    }
}

pub proof fn lemma_prune_session_steady(b: BrokerView, limits: Limits, key: KeyView, now: i64)
    ensures
        steady(b, prune_session(b, limits, key, now), limits),
{
    reveal(prune_session);
    lemma_steady_refl(b, limits);
    lemma_positions(b, key);
    if let Some(i) = session_at(b, key) {
        let s = pruned(b.sessions[i], now);
        let next = put_session(b, limits, i, s);
        lemma_pruned(b.sessions[i], now);
        lemma_put_steady(b, limits, i, s);
        lemma_mark_steady(next, limits, key);
        lemma_steady_trans(b, next, unmark(next, key), limits);
    }
}

pub proof fn lemma_prune_if_due_steady(b: BrokerView, limits: Limits, key: KeyView, now: i64)
    ensures
        steady(b, prune_if_due(b, limits, key, now), limits),
{
    lemma_steady_refl(b, limits);
    lemma_prune_session_steady(b, limits, key, now);
}

proof fn lemma_wake_session_steady(
    b: BrokerView,
    limits: Limits,
    now: i64,
    key: KeyView,
    gate: Option<u8>,
)
    ensures
        steady(b, wake_session(b, limits, now, key, gate).0, limits),
{
    reveal(wake_session);
    let b0 = unmark(b, key);
    let b1 = prune_if_due(b0, limits, key, now);
    lemma_mark_steady(b, limits, key);
    lemma_prune_if_due_steady(b0, limits, key, now);
    lemma_steady_trans(b, b0, b1, limits);
    lemma_mark_steady(b1, limits, key);
    lemma_steady_trans(b, b1, mark(b1, key), limits);
    lemma_positions(b1, key);
    if let (Some(i), Some(j)) = (session_at(b1, key), active_at(b1, key)) {
        let next = push_next(b1, limits, i, j).0;
        if unsent_qos(b1.sessions[i]) is Some || may_promote(b1, limits, i) {
            lemma_push_next_steady(b1, limits, i, j);
            lemma_steady_trans(b, b1, next, limits);
            lemma_mark_steady(next, limits, key);
            lemma_steady_trans(b, next, mark(next, key), limits);
        }
    }
}

proof fn lemma_wake_tenant_steady(
    b: BrokerView,
    limits: Limits,
    now: i64,
    tenant: Seq<char>,
    qos: u8,
    attempts: nat,
)
    ensures
        steady(b, wake_tenant_loop(b, limits, now, tenant, qos, attempts).0, limits),
    decreases attempts,
{
    lemma_steady_refl(b, limits);
    if attempts > 0 {
        if let Some(k) = first(b.pending, queued_for(tenant, qos)) {
            let key = b.pending[k].0;
            let next = wake_session(b, limits, now, key, Some(qos)).0;
            lemma_wake_session_steady(b, limits, now, key, Some(qos));
            lemma_wake_tenant_steady(next, limits, now, tenant, qos, (attempts - 1) as nat);
            lemma_steady_trans(
                b,
                next,
                wake_tenant_loop(next, limits, now, tenant, qos, (attempts - 1) as nat).0,
                limits,
            );
        }
    }
}

proof fn lemma_drive_wakes_steady(b: BrokerView, limits: Limits, now: i64, budget: nat)
    ensures
        steady(b, drive_wakes(b, limits, now, budget).0, limits),
    decreases budget,
{
    lemma_steady_refl(b, limits);
    if budget > 0 && b.wakes.len() > 0 {
        let k = least_wake(b.wakes, b.wakes.len());
        let (tenant, qos) = b.wakes[k];
        let taken = BrokerView { wakes: b.wakes.remove(k), ..b };
        lemma_same_books(b, taken, limits, None);
        let next = wake_tenant(taken, limits, now, tenant, qos).0;
        assert(steady(taken, next, limits)) by {
            reveal(wake_tenant);
            lemma_wake_tenant_steady(
                taken,
                limits,
                now,
                tenant,
                qos,
                count(taken.pending, queued_for(tenant, qos)),
            );
        }
        lemma_steady_trans(b, taken, next, limits);
        let put_back = BrokerView { wakes: add_wake(next.wakes, (tenant, qos)), ..next };
        lemma_same_books(next, put_back, limits, None);
        lemma_steady_trans(b, next, put_back, limits);
        lemma_drive_wakes_steady(next, limits, now, (budget - 1) as nat);
        lemma_steady_trans(
            b,
            next,
            drive_wakes(next, limits, now, (budget - 1) as nat).0,
            limits,
        );
    }
}

pub proof fn lemma_drive_steady(b: BrokerView, limits: Limits, now: i64)
    ensures
        steady(b, drive(b, limits, now).0, limits),
{
    reveal(drive);
    lemma_drive_wakes_steady(b, limits, now, HOT_MAINTENANCE_BUDGET as nat);
}

proof fn lemma_wake_global_loop_steady(b: BrokerView, limits: Limits, now: i64, attempts: nat)
    ensures
        steady(b, wake_global_loop(b, limits, now, attempts).0, limits),
    decreases attempts,
{
    lemma_steady_refl(b, limits);
    if attempts > 0 && b.pending.len() > 0 {
        let key = b.pending[0].0;
        let next = wake_session(b, limits, now, key, None).0;
        lemma_wake_session_steady(b, limits, now, key, None);
        lemma_wake_global_loop_steady(next, limits, now, (attempts - 1) as nat);
        lemma_steady_trans(
            b,
            next,
            wake_global_loop(next, limits, now, (attempts - 1) as nat).0,
            limits,
        );
    }
}

pub proof fn lemma_wake_global_steady(b: BrokerView, limits: Limits, now: i64)
    ensures
        steady(b, wake_global(b, limits, now).0, limits),
{
    let attempts = least(b.pending.len(), HOT_MAINTENANCE_BUDGET as nat);
    let next = wake_global_loop(b, limits, now, attempts).0;
    lemma_wake_global_loop_steady(b, limits, now, attempts);
    lemma_drive_steady(next, limits, now);
    lemma_steady_trans(b, next, drive(next, limits, now).0, limits);
}

/// A will taken over, changed or let go leaves the numbers in order.
pub proof fn lemma_guards(guards: Seq<GuardView>, next_guard: u64, k: int, g: GuardView)
    requires
        guards_tidy(guards, next_guard),
    ensures
        g.token == next_guard && next_guard < u64::MAX ==> guards_tidy(
            guards.push(g),
            (next_guard + 1) as u64,
        ),
        0 <= k < guards.len() ==> guards_tidy(guards.remove(k), next_guard),
        0 <= k < guards.len() && g.token == guards[k].token ==> guards_tidy(
            guards.update(k, g),
            next_guard,
        ),
{
    reveal(guards_tidy);
    if g.token == next_guard && next_guard < u64::MAX {
        lemma_distinct_push(guards, g, guard_token());
    }
    if 0 <= k < guards.len() {
        let left = guards.remove(k);
        lemma_distinct_remove(guards, k, guard_token());
        assert forall|m: int| 0 <= m < left.len() implies (#[trigger] left[m]).token
            < next_guard by {
            let from = if m < k {
                m
            } else {
                m + 1
            };
            assert(left[m] == guards[from]);
            assert(guards[from].token < next_guard);
        }
        if g.token == guards[k].token {
            lemma_distinct_update(guards, k, g, guard_token());
        }
    }
}

/// A held will changed in place or let go.
pub proof fn lemma_guard_steady(b: BrokerView, limits: Limits, token: u64, g: GuardView)
    requires
        guard_at(b, token) matches Some(k) ==> g.token == b.guards[k].token && g.will.owner
            == b.guards[k].will.owner && g.will.reservation == b.guards[k].will.reservation
            && g.will.counted == b.guards[k].will.counted,
    ensures
        guard_at(b, token) matches Some(k) ==> {
            &&& 0 <= k < b.guards.len()
            &&& b.guards[k].token == token
            &&& steady(b, BrokerView { guards: b.guards.update(k, g), ..b }, limits)
            &&& steady(b, BrokerView { guards: b.guards.remove(k), ..b }, limits)
        },
{
    lemma_first(b.guards, guard_is(token));
    if let Some(k) = guard_at(b, token) {
        if guards_tidy(b.guards, b.next_guard) {
            lemma_guards(b.guards, b.next_guard, k, g);
        }
        lemma_guard_claims(slots(b), k, g);
        lemma_shrink_no_more(
            slots(b),
            slots((BrokerView { guards: b.guards.remove(k), ..b })),
            g.will.owner.tenant,
            g.will.reservation,
        );
        lemma_guard_answers(b, k, g);
        lemma_same_books(b, BrokerView { guards: b.guards.update(k, g), ..b }, limits, None);
        lemma_same_books(b, BrokerView { guards: b.guards.remove(k), ..b }, limits, None);
    }
}

} // verus!
