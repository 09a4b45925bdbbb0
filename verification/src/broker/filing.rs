//! Subscriptions come and go, and the trie says the same as the sessions.
use super::flow::{
    lemma_enqueue_steady, lemma_prune_messages_steady, lemma_queue_offline_steady,
    lemma_retry_wills_steady,
};
use super::model::{
    drive, enqueue, finish_exchange, growth_allowed, lemma_put_session, live_exchange, prune_if_due,
    prune_messages, put_session, queue_offline, session_at, session_is, session_key, BrokerView,
    HOT_MAINTENANCE_BUDGET,
};
use super::slots::{lemma_session_claims, lemma_slots_kept, slots};
use super::subscribe::{
    plan_replay, replay_all, replay_of, rolled_back, subscribe_owned, subscribe_spec,
    subscription_allowed, subscription_bytes, unsubscribe_spec, with_subscription,
};
use super::tidy::{
    exact_but, filed, fits, indexed, lemma_drive_steady, lemma_outline_positions, lemma_positions,
    lemma_prune_if_due_steady, lemma_put, lemma_steady_refl, lemma_steady_tidy, lemma_steady_trans,
    lemma_within_updated, links_tidy, same_outline, sessions_tidy, spelled, steady, tidy, trie_tidy,
};
use super::turnover::{held, lemma_levels_differ, lemma_retained_same};
use super::weight::{lemma_exchange_more, lemma_waiting_more, second_count};
use super::wills::retried;
use crate::identity::KeyView;
use crate::limits::Limits;
use crate::list::{
    distinct, first, is_first, lemma_distinct_update, lemma_first, lemma_first_is, lemma_total_push,
    lemma_total_remove, lemma_total_update,
};
use crate::message::MessageView;
use crate::session::{
    fresh_exchange, id_after, next_free, sub_charge, usage_of, SessionView, Subscription, UsageView,
};
use crate::table::{entry_is, entry_key, law_one_value_per_key, lookup, with_entry};
use crate::text::levels;
use crate::trie::{law_insert, law_remove, subscribed, trie_insert, trie_ok, trie_remove, TrieView};
use crate::usage::within;
use vstd::prelude::*;

verus! {

/// Under one filter a session has what is said, and elsewhere all is as before.
spec fn refiled(
    t: TrieView,
    next: TrieView,
    key: KeyView,
    filter: Seq<char>,
    value: Option<Subscription>,
) -> bool {
    &&& trie_ok(next)
    &&& forall|k: KeyView, f: Seq<char>|
        #![trigger subscribed(next, levels(f), k)]
        subscribed(next, levels(f), k) == if k == key && f == filter {
            value
        } else {
            subscribed(t, levels(f), k)
        }
    &&& forall|path: Seq<Seq<char>>, k: KeyView| #[trigger]
        subscribed(next, path, k) is Some ==> subscribed(t, path, k) is Some || path == levels(
            filter,
        )
}

proof fn lemma_inserted(t: TrieView, key: KeyView, filter: Seq<char>, value: Subscription)
    requires
        trie_ok(t),
    ensures
        refiled(t, trie_insert(t, levels(filter), key, value), key, filter, Some(value)),
{
    let next = trie_insert(t, levels(filter), key, value);
    law_insert(t, levels(filter), key, value, levels(filter), key);
    assert forall|path: Seq<Seq<char>>, k: KeyView| #[trigger]
        subscribed(next, path, k) is Some implies subscribed(t, path, k) is Some || path
        == levels(filter) by {
        law_insert(t, levels(filter), key, value, path, k);
    }
    assert forall|k: KeyView, f: Seq<char>|
        #![trigger subscribed(next, levels(f), k)]
        subscribed(next, levels(f), k) == if k == key && f == filter {
            Some(value)
        } else {
            subscribed(t, levels(f), k)
        } by {
        law_insert(t, levels(filter), key, value, levels(f), k);
        if levels(f) == levels(filter) {
            lemma_levels_differ(f, filter);
        }
    }
}

proof fn lemma_taken_out(t: TrieView, key: KeyView, filter: Seq<char>)
    requires
        trie_ok(t),
    ensures
        refiled(t, trie_remove(t, levels(filter), key), key, filter, None),
{
    let next = trie_remove(t, levels(filter), key);
    law_remove(t, levels(filter), key, levels(filter), key);
    assert forall|path: Seq<Seq<char>>, k: KeyView| #[trigger]
        subscribed(next, path, k) is Some implies subscribed(t, path, k) is Some || path
        == levels(filter) by {
        law_remove(t, levels(filter), key, path, k);
    }
    assert forall|k: KeyView, f: Seq<char>|
        #![trigger subscribed(next, levels(f), k)]
        subscribed(next, levels(f), k) == if k == key && f == filter {
            None
        } else {
            subscribed(t, levels(f), k)
        } by {
        law_remove(t, levels(filter), key, levels(f), k);
        if levels(f) == levels(filter) {
            lemma_levels_differ(f, filter);
        }
    }
}

/// A session put in the place of the one of its key.
proof fn lemma_held_replaced(b: BrokerView, next: BrokerView, i: int, s: SessionView)
    requires
        sessions_tidy(b),
        0 <= i < b.sessions.len(),
        s.key == b.sessions[i].key,
        distinct(s.subscriptions, entry_key()),
        next.sessions == b.sessions.update(i, s),
    ensures
        sessions_tidy(next),
        held(b, s.key) == Some(b.sessions[i]),
        held(next, s.key) == Some(s),
        forall|other: KeyView| other != s.key ==> #[trigger] held(next, other) == held(b, other),
{
    reveal(sessions_tidy);
    lemma_distinct_update(b.sessions, i, s, session_key());
    assert forall|m: int| 0 <= m < next.sessions.len() implies distinct(
        (#[trigger] next.sessions[m]).subscriptions,
        entry_key(),
    ) by {
        if m != i {
            assert(distinct(b.sessions[m].subscriptions, entry_key()));
        }
    }
    lemma_held_at(b, i);
    lemma_held_at(next, i);
    assert forall|other: KeyView| other != s.key implies #[trigger] held(next, other) == held(
        b,
        other,
    ) by {
        lemma_positions(b, other);
        lemma_positions(next, other);
        if let Some(k) = session_at(b, other) {
            lemma_held_at(next, k);
        } else if let Some(k) = session_at(next, other) {
            lemma_held_at(b, k);
        }
    }
}

/// The session of a key is the one that stands there under it.
pub proof fn lemma_held_at(b: BrokerView, i: int)
    requires
        sessions_tidy(b),
        0 <= i < b.sessions.len(),
    ensures
        session_at(b, b.sessions[i].key) == Some(i),
{
    reveal(sessions_tidy);
    let p = session_is(b.sessions[i].key);
    assert forall|m: int| 0 <= m < i implies !p(#[trigger] b.sessions[m]) by {
        assert(session_key()(b.sessions[m]) != session_key()(b.sessions[i]));
    }
    assert(is_first(b.sessions, p, i));
    lemma_first_is(b.sessions, p, i);
}

/// One filter of a session changed, in the session and in the trie alike.
proof fn lemma_refiled_tidy(
    b: BrokerView,
    next: BrokerView,
    limits: Limits,
    i: int,
    s: SessionView,
    filter: Seq<char>,
    value: Option<Subscription>,
)
    requires
        tidy(b, limits),
        0 <= i < b.sessions.len(),
        s.key == b.sessions[i].key,
        s.authorization == b.sessions[i].authorization,
        s.inbound == b.sessions[i].inbound,
        distinct(s.subscriptions, entry_key()),
        lookup(s.subscriptions, filter) == value,
        fits(b.sessions, limits, i, s),
        forall|other: Seq<char>|
            other != filter ==> #[trigger] lookup(s.subscriptions, other) == lookup(
                b.sessions[i].subscriptions,
                other,
            ),
        refiled(b.trie, next.trie, s.key, filter, value),
        next == (BrokerView { trie: next.trie, ..put_session(b, limits, i, s) }),
    ensures
        tidy(next, limits),
{
    let put = put_session(b, limits, i, s);
    lemma_put(b, limits, i, s);
    lemma_put_session(b, limits, i, s);
    lemma_held_replaced(b, next, i, s);
    lemma_within_updated(b.sessions, limits, i, s);
    lemma_session_claims(slots(b), slots(next), i, s);
    lemma_slots_kept(slots(b), slots(next), limits);
    assert(exact_but(next, limits, None)) by {
        reveal(exact_but);
        assert forall|key: KeyView| #[trigger] indexed(next, limits, key) by {
            assert(indexed(put, limits, key));
        }
    }
    lemma_retained_same(b, next);
    assert(links_tidy(next)) by {
        reveal(links_tidy);
        assert forall|m: int| 0 <= m < next.links.len() && (#[trigger] next.links[m]).active
            implies session_at(next, next.links[m].key) is Some by {
            assert(b.links[m].active);
            if b.links[m].key != s.key {
                assert(held(next, b.links[m].key) == held(b, b.links[m].key));
            }
        }
    }
    assert(trie_tidy(next)) by {
        reveal(trie_tidy);
        assert forall|path: Seq<Seq<char>>, k: KeyView| #[trigger]
            subscribed(next.trie, path, k) is Some implies spelled(path) by {
            assert(subscribed(b.trie, path, k) is Some || path == levels(filter));
        }
        assert forall|k: KeyView, f: Seq<char>| #[trigger] filed(next, k, f) by {
            assert(filed(b, k, f));
            assert(subscribed(next.trie, levels(f), k) == if k == s.key && f == filter {
                value
            } else {
                subscribed(b.trie, levels(f), k)
            });
            if k == s.key {
                if f != filter {
                    assert(lookup(s.subscriptions, f) == lookup(b.sessions[i].subscriptions, f));
                }
            } else {
                assert(held(next, k) == held(b, k));
            }
        }
    }
}

/// What a session counts for with one filter changed.
proof fn lemma_entry_weight(s: SessionView, filter: Seq<char>, value: Option<Subscription>)
    ensures
        ({
            let entries = with_entry(s.subscriptions, filter, value);
            let is = usage_of((SessionView { subscriptions: entries, ..s }));
            let was = usage_of(s);
            let bytes = subscription_bytes(filter, false);
            if value is None {
                within(is, was)
            } else if lookup(s.subscriptions, filter) is Some {
                is == was
            } else {
                is == (UsageView {
                    subscriptions: was.subscriptions + 1,
                    state_bytes: was.state_bytes + bytes,
                    ..was
                })
            }
        }),
{
    lemma_first(s.subscriptions, entry_is::<Seq<char>, Subscription>(filter));
    if let Some(k) = first(s.subscriptions, entry_is::<Seq<char>, Subscription>(filter)) {
        lemma_total_remove(s.subscriptions, k, sub_charge());
        if let Some(value) = value {
            lemma_total_update(s.subscriptions, k, (filter, value), sub_charge());
        }
    } else if let Some(value) = value {
        lemma_total_push(s.subscriptions, (filter, value), sub_charge());
    }
}

proof fn lemma_with_subscription_tidy(
    b: BrokerView,
    limits: Limits,
    i: int,
    filter: Seq<char>,
    subscription: Subscription,
)
    requires
        tidy(b, limits),
        0 <= i < b.sessions.len(),
        lookup(b.sessions[i].subscriptions, filter) is Some || subscription_allowed(
            b,
            limits,
            b.sessions[i],
        ),
        growth_allowed(
            b,
            limits,
            b.sessions[i],
            0,
            0,
            0,
            subscription_bytes(filter, lookup(b.sessions[i].subscriptions, filter) is Some),
        ),
    ensures
        tidy(with_subscription(b, limits, i, filter, subscription), limits),
{
    let s = b.sessions[i];
    let entries = with_entry(s.subscriptions, filter, Some(subscription));
    let s2 = SessionView { subscriptions: entries, ..s };
    assert(distinct(s.subscriptions, entry_key())) by {
        reveal(sessions_tidy);
    }
    law_one_value_per_key(s.subscriptions, filter, Some(subscription), filter);
    assert forall|other: Seq<char>| other != filter implies #[trigger] lookup(entries, other)
        == lookup(s.subscriptions, other) by {
        law_one_value_per_key(s.subscriptions, filter, Some(subscription), other);
    }
    assert(trie_ok(b.trie)) by {
        reveal(trie_tidy);
    }
    lemma_put_session(b, limits, i, s2);
    lemma_entry_weight(s, filter, Some(subscription));
    lemma_inserted(b.trie, s.key, filter, subscription);
    lemma_refiled_tidy(
        b,
        with_subscription(b, limits, i, filter, subscription),
        limits,
        i,
        s2,
        filter,
        Some(subscription),
    );
}

pub proof fn lemma_replay_all_steady(
    b: BrokerView,
    limits: Limits,
    now: i64,
    key: KeyView,
    messages: Seq<MessageView>,
    live: Seq<bool>,
    n: nat,
)
    ensures
        steady(b, replay_all(b, limits, now, key, messages, live, n).0, limits),
    decreases n,
{
    lemma_steady_refl(b, limits);
    if n > 0 {
        let before = replay_all(b, limits, now, key, messages, live, (n - 1) as nat).0;
        lemma_replay_all_steady(b, limits, now, key, messages, live, (n - 1) as nat);
        lemma_enqueue_steady(before, limits, now, key, messages[n - 1], false);
        lemma_queue_offline_steady(before, limits, key, messages[n - 1]);
        lemma_steady_trans(
            b,
            before,
            enqueue(before, limits, now, key, messages[n - 1], false).0,
            limits,
        );
        lemma_steady_trans(
            b,
            before,
            queue_offline(before, limits, key, messages[n - 1]).0,
            limits,
        );
    }
}

proof fn lemma_queue_offline_grows(
    b: BrokerView,
    limits: Limits,
    key: KeyView,
    message: MessageView,
    i: int,
)
    requires
        0 <= i < b.sessions.len(),
    ensures
        within(
            usage_of(b.sessions[i]),
            usage_of(queue_offline(b, limits, key, message).0.sessions[i]),
        ),
        second_count(b.sessions[i]) <= second_count(
            queue_offline(b, limits, key, message).0.sessions[i],
        ),
        queue_offline(b, limits, key, message).0.sessions[i].inbound == b.sessions[i].inbound,
        queue_offline(b, limits, key, message).0.sessions.len() == b.sessions.len(),
{
    reveal(queue_offline);
    lemma_positions(b, key);
    if let Some(k) = session_at(b, key) {
        let s = b.sessions[k];
        lemma_waiting_more(s, message);
        lemma_put_session(
            b,
            limits,
            k,
            SessionView { offline: s.offline.push(message), ..s },
        );
    }
}

proof fn lemma_enqueue_grows(
    b: BrokerView,
    limits: Limits,
    now: i64,
    key: KeyView,
    message: MessageView,
    i: int,
)
    requires
        0 <= i < b.sessions.len(),
    ensures
        within(
            usage_of(b.sessions[i]),
            usage_of(enqueue(b, limits, now, key, message, false).0.sessions[i]),
        ),
        second_count(b.sessions[i]) <= second_count(
            enqueue(b, limits, now, key, message, false).0.sessions[i],
        ),
        enqueue(b, limits, now, key, message, false).0.sessions[i].inbound
            == b.sessions[i].inbound,
        enqueue(b, limits, now, key, message, false).0.sessions.len() == b.sessions.len(),
{
    reveal(enqueue);
    reveal(live_exchange);
    reveal(finish_exchange);
    reveal(put_session);
    lemma_queue_offline_grows(b, limits, key, message, i);
    lemma_positions(b, key);
    if let Some(k) = session_at(b, key) {
        let s = b.sessions[k];
        if let Some(id) = next_free(s) {
            lemma_exchange_more(s, id_after(id), fresh_exchange(id, message, false));
        }
    }
}

/// Messages that are sent for a subscription take nothing away from the session.
proof fn lemma_replay_all_grows(
    b: BrokerView,
    limits: Limits,
    now: i64,
    key: KeyView,
    messages: Seq<MessageView>,
    live: Seq<bool>,
    n: nat,
    i: int,
)
    requires
        0 <= i < b.sessions.len(),
    ensures
        within(
            usage_of(b.sessions[i]),
            usage_of(replay_all(b, limits, now, key, messages, live, n).0.sessions[i]),
        ),
        second_count(b.sessions[i]) <= second_count(
            replay_all(b, limits, now, key, messages, live, n).0.sessions[i],
        ),
        replay_all(b, limits, now, key, messages, live, n).0.sessions[i].inbound
            == b.sessions[i].inbound,
        replay_all(b, limits, now, key, messages, live, n).0.sessions.len() == b.sessions.len(),
    decreases n,
{
    if n > 0 {
        let before = replay_all(b, limits, now, key, messages, live, (n - 1) as nat).0;
        lemma_replay_all_grows(b, limits, now, key, messages, live, (n - 1) as nat, i);
        lemma_enqueue_grows(before, limits, now, key, messages[n - 1], i);
        lemma_queue_offline_grows(before, limits, key, messages[n - 1], i);
    }
}

/// A subscription taken back leaves the session as it was before.
proof fn lemma_rolled_back_tidy(
    b: BrokerView,
    limits: Limits,
    s: SessionView,
    filter: Seq<char>,
    value: Subscription,
)
    requires
        tidy(b, limits),
        distinct(s.subscriptions, entry_key()),
        held(b, s.key) matches Some(now) && now.authorization == s.authorization
            && now.subscriptions == with_entry(s.subscriptions, filter, Some(value))
            && now.inbound == s.inbound && within(usage_of(s), usage_of(now)) && second_count(s)
            <= second_count(now),
    ensures
        tidy(rolled_back(b, limits, s, filter), limits),
{
    lemma_positions(b, s.key);
    let i = session_at(b, s.key)->0;
    let previous = lookup(s.subscriptions, filter);
    let removed = trie_remove(b.trie, levels(filter), s.key);
    let next = rolled_back(b, limits, s, filter);
    let trie = match previous {
        Some(previous) => trie_insert(removed, levels(filter), s.key, previous),
        None => removed,
    };
    let b1 = BrokerView { trie, ..b };
    assert(session_at(b1, s.key) == Some(i));
    assert(trie_ok(b.trie)) by {
        reveal(trie_tidy);
    }
    lemma_taken_out(b.trie, s.key, filter);
    if let Some(previous) = previous {
        lemma_inserted(removed, s.key, filter, previous);
    }
    lemma_put_session(b1, limits, i, s);
    lemma_put_session(b, limits, i, s);
    assert(refiled(b.trie, next.trie, s.key, filter, previous));
    assert forall|other: Seq<char>| other != filter implies #[trigger] lookup(
        s.subscriptions,
        other,
    ) == lookup(b.sessions[i].subscriptions, other) by {
        law_one_value_per_key(s.subscriptions, filter, Some(value), other);
    }
    assert(next == (BrokerView { trie: next.trie, ..put_session(b, limits, i, s) })) by {
        reveal(put_session);
    }
    lemma_refiled_tidy(b, next, limits, i, s, filter, previous);
}

proof fn lemma_subscribe_owned_tidy(
    b: BrokerView,
    limits: Limits,
    now: i64,
    i: int,
    filter: Seq<char>,
    subscription: Subscription,
)
    requires
        tidy(b, limits),
        0 <= i < b.sessions.len(),
    ensures
        tidy(subscribe_owned(b, limits, now, i, filter, subscription).0, limits),
{
    reveal(subscribe_owned);
    let s = b.sessions[i];
    let renewed = lookup(s.subscriptions, filter) is Some;
    let messages = replay_of(b, s.key, filter, subscription, renewed, now);
    let allowed = renewed || subscription_allowed(b, limits, s);
    if let (true, Ok(live)) = (
        allowed,
        plan_replay(b, limits, i, messages, subscription_bytes(filter, renewed)),
    ) {
        let b1 = with_subscription(b, limits, i, filter, subscription);
        assert(growth_allowed(b, limits, s, 0, 0, 0, subscription_bytes(filter, renewed))) by {
            reveal(plan_replay);
        }
        lemma_entry_weight(s, filter, Some(subscription));
        lemma_with_subscription_tidy(b, limits, i, filter, subscription);
        let next = replay_all(b1, limits, now, s.key, messages, live, messages.len()).0;
        lemma_replay_all_steady(b1, limits, now, s.key, messages, live, messages.len());
        lemma_steady_tidy(b1, next, limits);
        let s2 = SessionView {
            subscriptions: with_entry(s.subscriptions, filter, Some(subscription)),
            ..s
        };
        lemma_put_session(b, limits, i, s2);
        assert(distinct(s.subscriptions, entry_key())) by {
            reveal(sessions_tidy);
        }
        lemma_held_at(b1, i);
        lemma_outline_positions(b1, next, s.key);
        lemma_replay_all_grows(b1, limits, now, s.key, messages, live, messages.len(), i);
        assert(held(next, s.key) matches Some(t) && t.authorization == s.authorization
            && t.subscriptions == s2.subscriptions && t.inbound == s.inbound && within(
            usage_of(s),
            usage_of(t),
        )) by {
            reveal(same_outline);
            assert(next.sessions[i].subscriptions == b1.sessions[i].subscriptions);
        }
        lemma_rolled_back_tidy(next, limits, s, filter, subscription);
    }
}

pub proof fn lemma_subscribe_tidy(
    b: BrokerView,
    limits: Limits,
    now: i64,
    key: KeyView,
    generation: u64,
    filter: Seq<char>,
    subscription: Subscription,
)
    requires
        tidy(b, limits),
    ensures
        tidy(subscribe_spec(b, limits, now, key, generation, filter, subscription).0, limits),
{
    reveal(subscribe_spec);
    let budget = HOT_MAINTENANCE_BUDGET as nat;
    let b0 = prune_messages(b, limits, now, budget);
    lemma_prune_messages_steady(b, limits, now, budget);
    lemma_steady_tidy(b, b0, limits);
    let b1 = drive(b0, limits, now).0;
    lemma_drive_steady(b0, limits, now);
    lemma_steady_tidy(b0, b1, limits);
    let b2 = prune_if_due(b1, limits, key, now);
    lemma_prune_if_due_steady(b1, limits, key, now);
    lemma_steady_tidy(b1, b2, limits);
    lemma_positions(b2, key);
    if let Some(i) = session_at(b2, key) {
        lemma_subscribe_owned_tidy(b2, limits, now, i, filter, subscription);
    }
}

pub proof fn lemma_unsubscribe_tidy(
    b: BrokerView,
    limits: Limits,
    now: i64,
    key: KeyView,
    generation: u64,
    filter: Seq<char>,
)
    requires
        tidy(b, limits),
    ensures
        tidy(unsubscribe_spec(b, limits, now, key, generation, filter).0, limits),
{
    reveal(unsubscribe_spec);
    lemma_positions(b, key);
    if let Some(i) = session_at(b, key) {
        let s = b.sessions[i];
        let entries = with_entry(s.subscriptions, filter, None);
        let s2 = SessionView { subscriptions: entries, ..s };
        let b1 = BrokerView { trie: trie_remove(b.trie, levels(filter), key), ..b };
        let b2 = put_session(b1, limits, i, s2);
        assert(distinct(s.subscriptions, entry_key())) by {
            reveal(sessions_tidy);
        }
        law_one_value_per_key(s.subscriptions, filter, None, filter);
        assert forall|other: Seq<char>| other != filter implies #[trigger] lookup(entries, other)
            == lookup(s.subscriptions, other) by {
            law_one_value_per_key(s.subscriptions, filter, None, other);
        }
        assert(trie_ok(b.trie)) by {
            reveal(trie_tidy);
        }
        lemma_taken_out(b.trie, key, filter);
        lemma_entry_weight(s, filter, None);
        lemma_put_session(b1, limits, i, s2);
        assert(b2 == (BrokerView { trie: b2.trie, ..put_session(b, limits, i, s2) })) by {
            reveal(put_session);
        }
        lemma_refiled_tidy(b, b2, limits, i, s2, filter, None);
        lemma_retry_wills_steady(b2, limits, now, HOT_MAINTENANCE_BUDGET as nat);
        lemma_steady_tidy(b2, retried(b2, limits, now), limits);
    }
}

} // verus!
