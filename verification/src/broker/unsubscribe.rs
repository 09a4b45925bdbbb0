//! Unsubscribing undoes what subscribing did.
use super::filing::lemma_replay_all_steady;
use super::flow::{lemma_prune_messages_steady, lemma_retry_wills_steady};
use super::model::{
    active_at, add_wake, advance, drive, drive_wakes, least_wake, lemma_put_session, mark,
    next_unsent, owns, promote, prune_if_due, prune_messages, prune_retained, prune_session,
    prune_sessions, push_next, put_session, queued_for, reserved, retained_at, retained_bytes,
    retained_is, session_at, session_is, unmark, wake_session, wake_tenant, wake_tenant_loop,
    BrokerView, HOT_MAINTENANCE_BUDGET,
};
use super::subscribe::{
    plan_replay, replay_all, replay_of, subscribe_owned, subscribe_spec, subscription_bytes,
    unsubscribe_spec, with_subscription,
};
use super::tidy::{
    filed, lemma_drive_steady, lemma_outline_positions, lemma_positions, lemma_prune_if_due_steady,
    lemma_steady_trans, same_outline, steady, tidy, trie_tidy,
};
use super::weight::lemma_promoted;
use super::wills::{due_times, retried, retry_wills};
use crate::connection::step::granted_qos;
use crate::error::Error;
use crate::identity::KeyView;
use crate::limits::Limits;
use crate::list::{
    count, distinct, first, is_first, keep, lemma_first, lemma_first_is, lemma_first_none,
    lemma_total_update,
};
use crate::message::{charge_of, expired_spec};
use crate::session::{
    exchange_stays, fresh_message, is_unsent, next_free, outbound_charge, promoted, pruned,
    session_charge, slim_all, OutboundStage, OutboundView, SessionView, Subscription,
};
use crate::table::{due_at, entry_is, entry_key, lookup, with_entry};
use crate::text::levels;
use crate::trie::{
    begins_with_dollar, hits, law_insert, law_matching, law_matching_names_each_once, law_remove,
    plain, reaches, subscribed, trie_insert, trie_matching, trie_ok, trie_remove, TrieView,
};
use crate::usage::{ledger_of, total_usage};
use vstd::prelude::*;

verus! {

/// Nothing that the session holds for its client has expired.
#[verifier::opaque]
pub open spec fn fresh(s: SessionView, now: i64) -> bool {
    &&& forall|k: int|
        0 <= k < s.offline.len() ==> !expired_spec(#[trigger] s.offline[k], now)
    &&& forall|k: int|
        0 <= k < s.outbound.len() ==> !expired_spec((#[trigger] s.outbound[k]).message, now)
}

/// A step on which a session in which nothing has expired stays so, and counts for as much.
pub open spec fn weighs_same(s: SessionView, t: SessionView, now: i64) -> bool {
    fresh(s, now) ==> fresh(t, now) && session_charge(t) == session_charge(s)
}

/// No retained message has expired.
pub open spec fn nothing_retained_expired(b: BrokerView, now: i64) -> bool {
    forall|k: int|
        0 <= k < b.retained.len() ==> !expired_spec((#[trigger] b.retained[k]).message, now)
}

/// Such a step for every session, on which no retained message is lost that has not expired.
#[verifier::opaque]
pub open spec fn even(b: BrokerView, next: BrokerView, now: i64) -> bool {
    &&& nothing_retained_expired(b, now) ==> next.retained == b.retained
    &&& next.shadowed == b.shadowed
    &&& next.sessions.len() == b.sessions.len()
    &&& forall|i: int|
        0 <= i < b.sessions.len() ==> weighs_same(b.sessions[i], #[trigger] next.sessions[i], now)
}

proof fn lemma_even_same(b: BrokerView, next: BrokerView, now: i64)
    requires
        next.sessions == b.sessions,
        nothing_retained_expired(b, now) ==> next.retained == b.retained,
        next.shadowed == b.shadowed,
    ensures
        even(b, next, now),
{
    reveal(even);
}

proof fn lemma_even_trans(a: BrokerView, b: BrokerView, c: BrokerView, now: i64)
    requires
        even(a, b, now),
        even(b, c, now),
    ensures
        even(a, c, now),
{
    reveal(even);
    assert forall|i: int| 0 <= i < a.sessions.len() implies weighs_same(
        a.sessions[i],
        #[trigger] c.sessions[i],
        now,
    ) by {
        assert(weighs_same(a.sessions[i], b.sessions[i], now));
    }
}

proof fn lemma_even_update(b: BrokerView, next: BrokerView, i: int, s: SessionView, now: i64)
    requires
        0 <= i < b.sessions.len(),
        next.sessions == b.sessions.update(i, s),
        next.retained == b.retained,
        next.shadowed == b.shadowed,
        weighs_same(b.sessions[i], s, now),
    ensures
        even(b, next, now),
{
    reveal(even);
}

/// Everything is kept where everything has the property.
proof fn lemma_keep_every<T>(s: Seq<T>, p: spec_fn(T) -> bool)
    requires
        forall|k: int| 0 <= k < s.len() ==> p(#[trigger] s[k]),
    ensures
        keep(s, p) == s,
    decreases s.len(),
{
    if s.len() > 0 {
        let front = s.drop_last();
        assert forall|k: int| 0 <= k < front.len() implies p(#[trigger] front[k]) by {
            assert(p(s[k]));
        }
        lemma_keep_every(front, p);
        assert(p(s[s.len() - 1]));
        assert(keep(s, p) =~= s);
    }
}

/// Nothing is dropped from a session in which nothing has expired.
proof fn lemma_fresh_pruned(s: SessionView, now: i64)
    requires
        fresh(s, now),
    ensures
        pruned(s, now) == s,
{
    reveal(fresh);
    lemma_keep_every(s.offline, fresh_message(now));
    lemma_keep_every(s.outbound, exchange_stays(now));
    assert(slim_all(s.outbound, now) =~= s.outbound);
    assert(pruned(s, now) =~= s);
}

proof fn lemma_prune_session_even(b: BrokerView, limits: Limits, key: KeyView, now: i64)
    ensures
        even(b, prune_session(b, limits, key, now), now),
{
    reveal(prune_session);
    lemma_even_same(b, b, now);
    lemma_positions(b, key);
    if let Some(i) = session_at(b, key) {
        let s = pruned(b.sessions[i], now);
        if fresh(b.sessions[i], now) {
            lemma_fresh_pruned(b.sessions[i], now);
        }
        lemma_put_session(b, limits, i, s);
        lemma_even_update(b, prune_session(b, limits, key, now), i, s, now);
    }
}

proof fn lemma_marked_even(s: SessionView, k: int, e: OutboundView, now: i64)
    requires
        0 <= k < s.outbound.len(),
        e.message == s.outbound[k].message,
    ensures
        weighs_same(s, SessionView { outbound: s.outbound.update(k, e), ..s }, now),
{
    reveal(fresh);
    lemma_total_update(s.outbound, k, e, outbound_charge());
}

proof fn lemma_next_unsent_even(b: BrokerView, limits: Limits, i: int, j: int, now: i64)
    requires
        0 <= i < b.sessions.len(),
    ensures
        even(b, next_unsent(b, limits, i, j).0, now),
{
    reveal(next_unsent);
    lemma_even_same(b, b, now);
    let s = b.sessions[i];
    lemma_first(s.outbound, is_unsent());
    if let Some(k) = first(s.outbound, is_unsent()) {
        let e = s.outbound[k];
        let again = OutboundView { sent: true, ..e };
        let counted = OutboundView { sent: true, windowed: true, ..e };
        lemma_marked_even(s, k, again, now);
        lemma_marked_even(s, k, counted, now);
        let next = next_unsent(b, limits, i, j).0;
        if e.stage == OutboundStage::Pubcomp {
            let t = SessionView { outbound: s.outbound.update(k, again), ..s };
            lemma_even_update(b, next, i, t, now);
        } else if next_unsent(b, limits, i, j).1 is Some {
            let t = SessionView { outbound: s.outbound.update(k, counted), ..s };
            lemma_even_update(b, next, i, t, now);
        }
    }
}

proof fn lemma_promote_even(b: BrokerView, limits: Limits, i: int, j: int, now: i64)
    requires
        0 <= i < b.sessions.len(),
    ensures
        even(b, promote(b, limits, i, j).0, now),
{
    reveal(promote);
    lemma_even_same(b, b, now);
    let s = b.sessions[i];
    if promote(b, limits, i, j).1 matches Ok(Some(_)) {
        let id = next_free(s)->0;
        let charged = reserved(b, j, charge_of(s.offline[0]));
        let t = promoted(s, id);
        lemma_promoted(s, id);
        assert(weighs_same(s, t, now)) by {
            reveal(fresh);
            if fresh(s, now) {
                assert forall|k: int| 0 <= k < t.offline.len() implies !expired_spec(
                    #[trigger] t.offline[k],
                    now,
                ) by {
                    assert(t.offline[k] == s.offline[k + 1]);
                }
                assert(!expired_spec(s.offline[0], now));
            }
        }
        lemma_put_session(charged, limits, i, t);
        lemma_even_update(b, promote(b, limits, i, j).0, i, t, now);
    }
}

proof fn lemma_wake_session_even(
    b: BrokerView,
    limits: Limits,
    now: i64,
    key: KeyView,
    gate: Option<u8>,
)
    ensures
        even(b, wake_session(b, limits, now, key, gate).0, now),
{
    reveal(wake_session);
    let b0 = unmark(b, key);
    let b1 = prune_if_due(b0, limits, key, now);
    lemma_even_same(b, b0, now);
    lemma_prune_session_even(b0, limits, key, now);
    lemma_even_same(b0, b0, now);
    lemma_even_trans(b, b0, b1, now);
    lemma_even_same(b1, mark(b1, key), now);
    lemma_even_trans(b, b1, mark(b1, key), now);
    lemma_positions(b1, key);
    if let (Some(i), Some(j)) = (session_at(b1, key), active_at(b1, key)) {
        let next = push_next(b1, limits, i, j).0;
        let step = advance(b1, limits, i, j).0;
        lemma_next_unsent_even(b1, limits, i, j, now);
        lemma_promote_even(b1, limits, i, j, now);
        lemma_even_same(step, next, now);
        lemma_even_trans(b1, step, next, now);
        lemma_even_trans(b, b1, next, now);
        lemma_even_same(next, mark(next, key), now);
        lemma_even_trans(b, next, mark(next, key), now);
    }
}

proof fn lemma_wake_tenant_even(
    b: BrokerView,
    limits: Limits,
    now: i64,
    tenant: Seq<char>,
    qos: u8,
    attempts: nat,
)
    ensures
        even(b, wake_tenant_loop(b, limits, now, tenant, qos, attempts).0, now),
    decreases attempts,
{
    lemma_even_same(b, b, now);
    if attempts > 0 {
        if let Some(k) = first(b.pending, queued_for(tenant, qos)) {
            let key = b.pending[k].0;
            let next = wake_session(b, limits, now, key, Some(qos)).0;
            lemma_wake_session_even(b, limits, now, key, Some(qos));
            lemma_wake_tenant_even(next, limits, now, tenant, qos, (attempts - 1) as nat);
            lemma_even_trans(
                b,
                next,
                wake_tenant_loop(next, limits, now, tenant, qos, (attempts - 1) as nat).0,
                now,
            );
        }
    }
}

proof fn lemma_drive_wakes_even(b: BrokerView, limits: Limits, now: i64, budget: nat)
    ensures
        even(b, drive_wakes(b, limits, now, budget).0, now),
    decreases budget,
{
    lemma_even_same(b, b, now);
    if budget > 0 && b.wakes.len() > 0 {
        let k = least_wake(b.wakes, b.wakes.len());
        let (tenant, qos) = b.wakes[k];
        let taken = BrokerView { wakes: b.wakes.remove(k), ..b };
        let next = wake_tenant(taken, limits, now, tenant, qos).0;
        lemma_even_same(b, taken, now);
        assert(even(taken, next, now)) by {
            reveal(wake_tenant);
            lemma_wake_tenant_even(
                taken,
                limits,
                now,
                tenant,
                qos,
                count(taken.pending, queued_for(tenant, qos)),
            );
        }
        lemma_even_trans(b, taken, next, now);
        let back = BrokerView { wakes: add_wake(next.wakes, (tenant, qos)), ..next };
        lemma_even_same(next, back, now);
        lemma_even_trans(b, next, back, now);
        lemma_drive_wakes_even(next, limits, now, (budget - 1) as nat);
        lemma_even_trans(b, next, drive_wakes(next, limits, now, (budget - 1) as nat).0, now);
    }
}

proof fn lemma_prune_sessions_even(b: BrokerView, limits: Limits, now: i64, budget: nat)
    ensures
        even(b, prune_sessions(b, limits, now, budget), now),
    decreases budget,
{
    lemma_even_same(b, b, now);
    if budget > 0 {
        if let Some(k) = due_at(b.message_expiry, now) {
            let key = b.message_expiry[k].0;
            let taken = BrokerView { message_expiry: b.message_expiry.remove(k), ..b };
            let next = prune_session(taken, limits, key, now);
            lemma_even_same(b, taken, now);
            lemma_prune_session_even(taken, limits, key, now);
            lemma_even_trans(b, taken, next, now);
            lemma_prune_sessions_even(next, limits, now, (budget - 1) as nat);
            lemma_even_trans(b, next, prune_sessions(b, limits, now, budget), now);
        }
    }
}

proof fn lemma_prune_retained_even(b: BrokerView, now: i64, budget: nat)
    ensures
        prune_retained(b, now, budget).sessions == b.sessions,
        prune_retained(b, now, budget).shadowed == b.shadowed,
        nothing_retained_expired(b, now) ==> prune_retained(b, now, budget).retained == b.retained,
    decreases budget,
{
    if budget > 0 {
        if let Some(k) = due_at(b.retained_expiry, now) {
            let topic = b.retained_expiry[k].0;
            let taken = BrokerView { retained_expiry: b.retained_expiry.remove(k), ..b };
            lemma_first(taken.retained, retained_is(topic));
            match retained_at(taken, topic) {
                None => {
                    lemma_prune_retained_even(taken, now, (budget - 1) as nat);
                },
                Some(i) => {
                    let gone = BrokerView { retained: taken.retained.remove(i), ..taken };
                    let noted = BrokerView {
                        retained_expiry: with_entry(
                            taken.retained_expiry,
                            topic,
                            taken.retained[i].message.properties.expires_at_ms,
                        ),
                        ..taken
                    };
                    lemma_prune_retained_even(gone, now, (budget - 1) as nat);
                    lemma_prune_retained_even(noted, now, (budget - 1) as nat);
                },
            }
        }
    }
}

/// The broker as subscribing finds it, once what is overdue has been looked after.
pub open spec fn calmed(b: BrokerView, limits: Limits, now: i64, key: KeyView) -> BrokerView {
    prune_if_due(
        drive(prune_messages(b, limits, now, HOT_MAINTENANCE_BUDGET as nat), limits, now).0,
        limits,
        key,
        now,
    )
}

/// No waiting, unfinished or retained message has expired.
pub open spec fn nothing_expired(b: BrokerView, now: i64) -> bool {
    &&& forall|i: int| 0 <= i < b.sessions.len() ==> fresh(#[trigger] b.sessions[i], now)
    &&& nothing_retained_expired(b, now)
}

proof fn lemma_calmed(b: BrokerView, limits: Limits, now: i64, key: KeyView)
    ensures
        steady(b, calmed(b, limits, now, key), limits),
        even(b, calmed(b, limits, now, key), now),
{
    let budget = HOT_MAINTENANCE_BUDGET as nat;
    let b0 = prune_sessions(b, limits, now, budget);
    let b1 = prune_retained(b0, now, budget);
    let b2 = drive(b1, limits, now).0;
    let b3 = calmed(b, limits, now, key);
    lemma_prune_messages_steady(b, limits, now, budget);
    lemma_drive_steady(b1, limits, now);
    lemma_steady_trans(b, b1, b2, limits);
    lemma_prune_if_due_steady(b2, limits, key, now);
    lemma_steady_trans(b, b2, b3, limits);
    lemma_prune_sessions_even(b, limits, now, budget);
    lemma_prune_retained_even(b0, now, budget);
    lemma_even_same(b0, b1, now);
    lemma_even_trans(b, b0, b1, now);
    assert(even(b1, b2, now)) by {
        reveal(drive);
        lemma_drive_wakes_even(b1, limits, now, budget);
    }
    lemma_even_trans(b, b1, b2, now);
    lemma_prune_session_even(b2, limits, key, now);
    lemma_even_same(b2, b2, now);
    lemma_even_trans(b, b2, b3, now);
}

/// What the sessions count for together, where each weighs the same and has the same filters.
proof fn lemma_same_totals(s: Seq<SessionView>, t: Seq<SessionView>)
    requires
        s.len() == t.len(),
        forall|i: int|
            0 <= i < s.len() ==> session_charge(#[trigger] t[i]) == session_charge(s[i])
                && t[i].subscriptions.len() == s[i].subscriptions.len(),
    ensures
        total_usage(t).state_bytes == total_usage(s).state_bytes,
        total_usage(t).subscriptions == total_usage(s).subscriptions,
    decreases s.len(),
{
    if s.len() > 0 {
        lemma_same_totals(s.drop_last(), t.drop_last());
        assert(ledger_of(s).drop_last() =~= ledger_of(s.drop_last()));
        assert(ledger_of(t).drop_last() =~= ledger_of(t.drop_last()));
        assert(session_charge(t[s.len() - 1]) == session_charge(s[s.len() - 1]));
    }
}

/// The same keys, each once, are as many.
proof fn lemma_same_keys(
    s: Seq<(KeyView, Subscription)>,
    t: Seq<(KeyView, Subscription)>,
)
    requires
        distinct(s, entry_key()),
        distinct(t, entry_key()),
        forall|key: KeyView| #[trigger] lookup(s, key) is Some <==> lookup(t, key) is Some,
    ensures
        s.len() == t.len(),
{
    let a = Seq::new(s.len(), |i: int| s[i].0);
    let c = Seq::new(t.len(), |i: int| t[i].0);
    assert(a.no_duplicates()) by {
        assert forall|i: int, j: int| 0 <= i < a.len() && 0 <= j < a.len() && i != j implies a[i]
            != a[j] by {
            assert(entry_key::<KeyView, Subscription>()(s[i])
                != entry_key::<KeyView, Subscription>()(s[j]));
        }
    }
    assert(c.no_duplicates()) by {
        assert forall|i: int, j: int| 0 <= i < c.len() && 0 <= j < c.len() && i != j implies c[i]
            != c[j] by {
            assert(entry_key::<KeyView, Subscription>()(t[i])
                != entry_key::<KeyView, Subscription>()(t[j]));
        }
    }
    assert forall|key: KeyView| a.contains(key) == c.contains(key) by {
        lemma_first(s, entry_is::<KeyView, Subscription>(key));
        lemma_first(t, entry_is::<KeyView, Subscription>(key));
        assert(lookup(s, key) is Some <==> lookup(t, key) is Some);
        if a.contains(key) {
            let i = choose|i: int| 0 <= i < a.len() && a[i] == key;
            assert(entry_is::<KeyView, Subscription>(key)(s[i]));
            let j = first(t, entry_is::<KeyView, Subscription>(key))->0;
            assert(c[j] == key);
        }
        if c.contains(key) {
            let i = choose|i: int| 0 <= i < c.len() && c[i] == key;
            assert(entry_is::<KeyView, Subscription>(key)(t[i]));
            let j = first(s, entry_is::<KeyView, Subscription>(key))->0;
            assert(a[j] == key);
        }
    }
    assert(a.to_set() =~= c.to_set());
    a.unique_seq_to_set();
    c.unique_seq_to_set();
}

/// A topic reaches as many sessions through one trie as through another with the same
/// subscriptions.
proof fn lemma_same_matches(t: TrieView, u: TrieView, topic: Seq<char>)
    requires
        trie_ok(t),
        trie_ok(u),
        plain(levels(topic)),
        forall|path: Seq<Seq<char>>, key: KeyView| #[trigger]
            subscribed(u, path, key) == subscribed(t, path, key),
    ensures
        trie_matching(u, topic).len() == trie_matching(t, topic).len(),
{
    law_matching_names_each_once(t, topic);
    law_matching_names_each_once(u, topic);
    assert forall|key: KeyView| #[trigger]
        lookup(trie_matching(u, topic), key) is Some <==> lookup(
            trie_matching(t, topic),
            key,
        ) is Some by {
        law_matching(t, topic, key);
        law_matching(u, topic, key);
        let path = levels(topic);
        let hidden = begins_with_dollar(topic);
        assert forall|s: Subscription| hits(t, path, hidden, key).contains(s) implies hits(
            u,
            path,
            hidden,
            key,
        ).contains(s) by {
            let filter = choose|filter: Seq<Seq<char>>| #[trigger]
                subscribed(t, filter, key) == Some(s) && reaches(filter, path, hidden);
            assert(subscribed(u, filter, key) == Some(s) && reaches(filter, path, hidden));
        }
        assert(hits(u, path, hidden, key) =~= hits(t, path, hidden, key));
    }
    lemma_same_keys(trie_matching(u, topic), trie_matching(t, topic));
}

/// Every session has subscribed to what it had subscribed to, and every topic finds those that it
/// found.
pub open spec fn same_subscriptions(b: BrokerView, next: BrokerView) -> bool {
    &&& forall|key: KeyView, topic: Seq<char>| #[trigger]
        granted_qos(next, key, topic) == granted_qos(b, key, topic)
    &&& forall|path: Seq<Seq<char>>, key: KeyView| #[trigger]
        subscribed(next.trie, path, key) == subscribed(b.trie, path, key)
    &&& forall|topic: Seq<char>|
        plain(levels(topic)) ==> (#[trigger] trie_matching(next.trie, topic)).len()
            == trie_matching(b.trie, topic).len()
}

/// The broker reports the same usage.
pub open spec fn same_usage(b: BrokerView, next: BrokerView) -> bool {
    &&& next.sessions.len() == b.sessions.len()
    &&& total_usage(next.sessions).state_bytes == total_usage(b.sessions).state_bytes
    &&& total_usage(next.sessions).subscriptions == total_usage(b.sessions).subscriptions
    &&& next.retained.len() == b.retained.len()
    &&& retained_bytes(next, None) == retained_bytes(b, None)
}

proof fn lemma_keys_at(b: BrokerView, next: BrokerView, key: KeyView)
    requires
        next.sessions.len() == b.sessions.len(),
        forall|m: int|
            0 <= m < b.sessions.len() ==> (#[trigger] next.sessions[m]).key == b.sessions[m].key,
    ensures
        session_at(next, key) == session_at(b, key),
{
    lemma_first(b.sessions, session_is(key));
    if let Some(i) = session_at(b, key) {
        assert(is_first(next.sessions, session_is(key), i)) by {
            assert forall|m: int| 0 <= m < i implies !session_is(key)(
                #[trigger] next.sessions[m],
            ) by {
                assert(!session_is(key)(b.sessions[m]));
            }
        }
        lemma_first_is(next.sessions, session_is(key), i);
    } else {
        assert forall|m: int| 0 <= m < next.sessions.len() implies !session_is(key)(
            #[trigger] next.sessions[m],
        ) by {
            assert(!session_is(key)(b.sessions[m]));
        }
        lemma_first_none(next.sessions, session_is(key));
    }
}

/// Sessions with the same keys and filters, over a trie with the same subscriptions.
proof fn lemma_same_subscriptions(b: BrokerView, next: BrokerView)
    requires
        trie_ok(b.trie),
        trie_ok(next.trie),
        next.sessions.len() == b.sessions.len(),
        forall|m: int|
            0 <= m < b.sessions.len() ==> (#[trigger] next.sessions[m]).key == b.sessions[m].key
                && next.sessions[m].subscriptions == b.sessions[m].subscriptions,
        forall|path: Seq<Seq<char>>, key: KeyView| #[trigger]
            subscribed(next.trie, path, key) == subscribed(b.trie, path, key),
    ensures
        same_subscriptions(b, next),
{
    assert forall|key: KeyView, topic: Seq<char>| #[trigger]
        granted_qos(next, key, topic) == granted_qos(b, key, topic) by {
        lemma_keys_at(b, next, key);
        lemma_positions(b, key);
    }
    assert forall|topic: Seq<char>| plain(levels(topic)) implies (#[trigger] trie_matching(
        next.trie,
        topic,
    )).len() == trie_matching(b.trie, topic).len() by {
        lemma_same_matches(b.trie, next.trie, topic);
    }
}

/// An entry added and taken away again.
proof fn lemma_entry_undone<V, X>(s: Seq<(V, X)>, key: V, value: X)
    requires
        lookup(s, key) is None,
    ensures
        lookup(with_entry(s, key, Some(value)), key) == Some(value),
        with_entry(with_entry(s, key, Some(value)), key, None) == s,
{
    let t = s.push((key, value));
    let k = s.len() as int;
    lemma_first(s, entry_is::<V, X>(key));
    assert(is_first(t, entry_is::<V, X>(key), k)) by {
        assert forall|m: int| 0 <= m < k implies !entry_is::<V, X>(key)(#[trigger] t[m]) by {
            assert(!entry_is::<V, X>(key)(s[m]));
        }
    }
    lemma_first_is(t, entry_is::<V, X>(key), k);
    assert(t.remove(k) =~= s);
}

/// A will whose time has come.
pub open spec fn will_due(b: BrokerView, now: i64) -> bool {
    b.pending_wills.len() > 0 || due_at(due_times(b.future_wills), now) is Some
}

/// The same sessions, one of them with other filters.
pub open spec fn refiltered(
    b: BrokerView,
    next: BrokerView,
    i: int,
    subscriptions: Seq<(Seq<char>, Subscription)>,
) -> bool {
    &&& next.sessions.len() == b.sessions.len()
    &&& forall|m: int|
        0 <= m < b.sessions.len() ==> (#[trigger] next.sessions[m]).key == b.sessions[m].key
            && next.sessions[m].subscriptions == if m == i {
            subscriptions
        } else {
            b.sessions[m].subscriptions
        }
}

/// What a new subscription makes of the broker.
proof fn lemma_subscribed(
    b: BrokerView,
    limits: Limits,
    now: i64,
    key: KeyView,
    generation: u64,
    filter: Seq<char>,
    subscription: Subscription,
)
    requires
        session_at(b, key) matches Some(i) && lookup(b.sessions[i].subscriptions, filter) is None,
        subscribe_spec(b, limits, now, key, generation, filter, subscription).1 is Ok,
    ensures
        ({
            let i = session_at(b, key)->0;
            let calm = calmed(b, limits, now, key);
            let (next, granted) = subscribe_spec(
                b,
                limits,
                now,
                key,
                generation,
                filter,
                subscription,
            );
            &&& granted == Ok::<u8, Error>(subscription.qos)
            &&& owns(next, key, generation)
            &&& session_at(next, key) == Some(i)
            &&& next.trie == trie_insert(b.trie, levels(filter), key, subscription)
            &&& refiltered(
                b,
                next,
                i,
                with_entry(b.sessions[i].subscriptions, filter, Some(subscription)),
            )
            &&& replay_of(calm, key, filter, subscription, false, now).len() == 0 ==> {
                &&& next.sessions == calm.sessions.update(
                    i,
                    SessionView {
                        subscriptions: with_entry(
                            b.sessions[i].subscriptions,
                            filter,
                            Some(subscription),
                        ),
                        ..calm.sessions[i]
                    },
                )
                &&& next.retained == calm.retained
                &&& next.shadowed == calm.shadowed
            }
        }),
{
    reveal(subscribe_spec);
    reveal(subscribe_owned);
    let calm = calmed(b, limits, now, key);
    let i = session_at(b, key)->0;
    lemma_calmed(b, limits, now, key);
    lemma_outline_positions(b, calm, key);
    let s = calm.sessions[i];
    assert(s.key == key && s.subscriptions == b.sessions[i].subscriptions && calm.trie == b.trie)
        by {
        reveal(same_outline);
    }
    let messages = replay_of(calm, key, filter, subscription, false, now);
    let live = plan_replay(calm, limits, i, messages, subscription_bytes(filter, false))->Ok_0;
    let s1 = SessionView {
        subscriptions: with_entry(s.subscriptions, filter, Some(subscription)),
        ..s
    };
    let b1 = with_subscription(calm, limits, i, filter, subscription);
    let next = replay_all(b1, limits, now, key, messages, live, messages.len()).0;
    lemma_put_session(calm, limits, i, s1);
    lemma_replay_all_steady(b1, limits, now, key, messages, live, messages.len());
    lemma_keys_at(calm, b1, key);
    lemma_outline_positions(b1, next, key);
    assert(active_at(b1, key) == active_at(calm, key));
    assert(owns(calm, key, generation)) by {
        let b0 = prune_messages(b, limits, now, HOT_MAINTENANCE_BUDGET as nat);
        let driven = drive(b0, limits, now).0;
        lemma_prune_if_due_steady(driven, limits, key, now);
        lemma_outline_positions(driven, calm, key);
        lemma_positions(driven, key);
        reveal(same_outline);
    }
    assert(owns(next, key, generation)) by {
        reveal(same_outline);
        lemma_positions(next, key);
    }
    assert(refiltered(b, next, i, s1.subscriptions) && next.trie == b1.trie) by {
        reveal(same_outline);
        assert forall|m: int| 0 <= m < b.sessions.len() implies (#[trigger] next.sessions[m]).key
            == b.sessions[m].key && next.sessions[m].subscriptions == if m == i {
            s1.subscriptions
        } else {
            b.sessions[m].subscriptions
        } by {
            assert(next.sessions[m].key == b1.sessions[m].key);
            assert(calm.sessions[m].key == b.sessions[m].key);
        }
    }
}

/// What unsubscribing makes of the broker.
proof fn lemma_unsubscribed(
    b: BrokerView,
    limits: Limits,
    now: i64,
    key: KeyView,
    generation: u64,
    filter: Seq<char>,
)
    requires
        owns(b, key, generation),
        session_at(b, key) matches Some(i) && lookup(b.sessions[i].subscriptions, filter) is Some,
    ensures
        ({
            let i = session_at(b, key)->0;
            let rest = with_entry(b.sessions[i].subscriptions, filter, None);
            let (next, removed) = unsubscribe_spec(b, limits, now, key, generation, filter);
            &&& removed == Ok::<bool, Error>(true)
            &&& owns(next, key, generation)
            &&& session_at(next, key) == Some(i)
            &&& next.trie == trie_remove(b.trie, levels(filter), key)
            &&& refiltered(b, next, i, rest)
            &&& !will_due(b, now) ==> {
                &&& next.sessions == b.sessions.update(
                    i,
                    SessionView { subscriptions: rest, ..b.sessions[i] },
                )
                &&& next.retained == b.retained
                &&& next.shadowed == b.shadowed
            }
        }),
{
    reveal(unsubscribe_spec);
    let i = session_at(b, key)->0;
    let s = b.sessions[i];
    lemma_positions(b, key);
    let bare = BrokerView { trie: trie_remove(b.trie, levels(filter), key), ..b };
    let t = SessionView { subscriptions: with_entry(s.subscriptions, filter, None), ..s };
    let left = put_session(bare, limits, i, t);
    let last = retried(left, limits, now);
    lemma_put_session(bare, limits, i, t);
    lemma_retry_wills_steady(left, limits, now, HOT_MAINTENANCE_BUDGET as nat);
    lemma_keys_at(b, left, key);
    lemma_outline_positions(left, last, key);
    assert(active_at(left, key) == active_at(b, key));
    assert(owns(last, key, generation)) by {
        reveal(same_outline);
        lemma_positions(last, key);
    }
    assert(refiltered(b, last, i, t.subscriptions) && last.trie == left.trie) by {
        reveal(same_outline);
        assert forall|m: int| 0 <= m < b.sessions.len() implies (#[trigger] last.sessions[m]).key
            == b.sessions[m].key && last.sessions[m].subscriptions == if m == i {
            t.subscriptions
        } else {
            b.sessions[m].subscriptions
        } by {
            assert(last.sessions[m].key == left.sessions[m].key);
        }
    }
    if !will_due(b, now) {
        reveal(retry_wills);
        assert(last == left);
    }
}

/// A subscription entered into a trie and taken out again.
proof fn lemma_trie_undone(
    t: TrieView,
    path: Seq<Seq<char>>,
    key: KeyView,
    subscription: Subscription,
)
    requires
        trie_ok(t),
        subscribed(t, path, key) is None,
    ensures
        ({
            let u = trie_remove(trie_insert(t, path, key, subscription), path, key);
            &&& trie_ok(u)
            &&& forall|other: Seq<Seq<char>>, whose: KeyView| #[trigger]
                subscribed(u, other, whose) == subscribed(t, other, whose)
        }),
{
    let inserted = trie_insert(t, path, key, subscription);
    let u = trie_remove(inserted, path, key);
    law_insert(t, path, key, subscription, path, key);
    law_remove(inserted, path, key, path, key);
    assert forall|other: Seq<Seq<char>>, whose: KeyView| #[trigger]
        subscribed(u, other, whose) == subscribed(t, other, whose) by {
        law_insert(t, path, key, subscription, other, whose);
        law_remove(inserted, path, key, other, whose);
    }
}

/// To unsubscribe from a filter undoes having subscribed to it: every session has what it had
/// subscribed to before, and every topic finds those it found. To unsubscribe again changes
/// nothing. If nothing had expired, no retained message was sent and no will is due, the broker
/// reports the usage that it reported before.
pub proof fn law_unsubscribing_undoes_subscribing(
    b: BrokerView,
    limits: Limits,
    now: i64,
    later: i64,
    key: KeyView,
    generation: u64,
    filter: Seq<char>,
    subscription: Subscription,
)
    requires
        tidy(b, limits),
        session_at(b, key) matches Some(i) && lookup(b.sessions[i].subscriptions, filter) is None,
        subscribe_spec(b, limits, now, key, generation, filter, subscription).1 is Ok,
    ensures
        ({
            let calm = calmed(b, limits, now, key);
            let (next, granted) = subscribe_spec(
                b,
                limits,
                now,
                key,
                generation,
                filter,
                subscription,
            );
            let (last, removed) = unsubscribe_spec(
                next,
                limits,
                later,
                key,
                generation,
                filter,
            );
            &&& granted == Ok::<u8, Error>(subscription.qos)
            &&& removed == Ok::<bool, Error>(true)
            &&& same_subscriptions(b, last)
            &&& forall|again: i64| #[trigger]
                unsubscribe_spec(last, limits, again, key, generation, filter) == (
                    last,
                    Ok::<bool, Error>(false),
                )
            &&& nothing_expired(b, now) && !will_due(next, later) && replay_of(
                calm,
                key,
                filter,
                subscription,
                false,
                now,
            ).len() == 0 ==> same_usage(b, last)
        }),
{
    let calm = calmed(b, limits, now, key);
    let i = session_at(b, key)->0;
    let next = subscribe_spec(b, limits, now, key, generation, filter, subscription).0;
    let last = unsubscribe_spec(next, limits, later, key, generation, filter).0;
    let path = levels(filter);
    lemma_positions(b, key);
    lemma_subscribed(b, limits, now, key, generation, filter, subscription);
    lemma_entry_undone(b.sessions[i].subscriptions, filter, subscription);
    lemma_unsubscribed(next, limits, later, key, generation, filter);
    assert(trie_ok(b.trie) && subscribed(b.trie, path, key) is None) by {
        reveal(trie_tidy);
        assert(filed(b, key, filter));
    }
    lemma_trie_undone(b.trie, path, key, subscription);
    assert forall|m: int| 0 <= m < b.sessions.len() implies (#[trigger] last.sessions[m]).key
        == b.sessions[m].key && last.sessions[m].subscriptions == b.sessions[m].subscriptions by {
        assert(next.sessions[m].key == b.sessions[m].key);
    }
    lemma_same_subscriptions(b, last);
    assert forall|again: i64| #[trigger]
        unsubscribe_spec(last, limits, again, key, generation, filter) == (
            last,
            Ok::<bool, Error>(false),
        ) by {
        reveal(unsubscribe_spec);
    }
    let messages = replay_of(calm, key, filter, subscription, false, now);
    if nothing_expired(b, now) && !will_due(next, later) && messages.len() == 0 {
        lemma_calmed(b, limits, now, key);
        reveal(even);
        assert(calm.sessions[i].subscriptions == b.sessions[i].subscriptions) by {
            reveal(same_outline);
        }
        assert(last.sessions =~= calm.sessions);
        assert forall|m: int| 0 <= m < b.sessions.len() implies session_charge(
            #[trigger] last.sessions[m],
        ) == session_charge(b.sessions[m]) && last.sessions[m].subscriptions.len()
            == b.sessions[m].subscriptions.len() by {
            assert(fresh(b.sessions[m], now));
            assert(weighs_same(b.sessions[m], calm.sessions[m], now));
        }
        lemma_same_totals(b.sessions, last.sessions);
    }
}

} // verus!
