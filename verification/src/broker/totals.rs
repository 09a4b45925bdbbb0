//! The totals of the retained messages are those of what is held.
use super::attach::{
    attach_spec, cleared, detach_spec, expired_away, linked, next_generation, opened, resume,
    with_receiver, Profile,
};
use super::filing::lemma_replay_all_steady;
use super::flow::{
    lemma_cancel_resumed_steady, lemma_carried_on_steady, lemma_prune_messages_steady,
    lemma_release_delays_steady, lemma_retry_wills_steady,
};
use super::history::{after, lemma_after_steady, run, Operation};
use super::model::{
    active_at, drive, owns, prune_expired, prune_if_due, prune_messages, put_session, reindexed,
    released, remove_session, retained_bytes, retained_bytes_of, retained_count, retained_in,
    session_at, unmark, wake_global, with_link, BrokerView, LinkView, HOT_MAINTENANCE_BUDGET,
    TICK_MAINTENANCE_BUDGET,
};
use super::service::{concerned, invalidated, remove_first, ticked};
use super::subscribe::{
    plan_replay, replay_of, subscribe_owned, subscribe_spec, subscription_bytes, unsubscribe_spec,
    with_subscription,
};
use super::tidy::{lemma_drive_steady, lemma_prune_if_due_steady, lemma_wake_global_steady};
use super::wills::{cancel_resumed, release_delays, retried};
use crate::identity::KeyView;
use crate::limits::Limits;
use crate::list::{count, keep, total};
use crate::session::{disconnected, reconnected, AuthView, SessionView, Subscription};
use crate::table::{due_at, lookup, with_entry};
use crate::text::levels;
use crate::trie::trie_remove;
use vstd::prelude::*;

verus! {

proof fn lemma_remove_session_counts(b: BrokerView, limits: Limits, key: KeyView)
    ensures
        remove_session(b, limits, key).shadowed == b.shadowed,
{
    reveal(remove_session);
}

proof fn lemma_prune_expired_counts(b: BrokerView, limits: Limits, now: i64, budget: nat)
    ensures
        prune_expired(b, limits, now, budget).shadowed == b.shadowed,
    decreases budget,
{
    if budget > 0 {
        if let Some(k) = due_at(b.session_expiry, now) {
            let key = b.session_expiry[k].0;
            let taken = BrokerView { session_expiry: b.session_expiry.remove(k), ..b };
            lemma_remove_session_counts(taken, limits, key);
            lemma_prune_expired_counts(
                remove_session(taken, limits, key),
                limits,
                now,
                (budget - 1) as nat,
            );
            lemma_prune_expired_counts(
                reindexed(taken, limits, key),
                limits,
                now,
                (budget - 1) as nat,
            );
        }
    }
}

proof fn lemma_maintained_counts(b: BrokerView, limits: Limits, now: i64, budget: nat)
    ensures
        prune_messages(prune_expired(b, limits, now, budget), limits, now, budget).shadowed
            == b.shadowed,
{
    lemma_prune_expired_counts(b, limits, now, budget);
    lemma_prune_messages_steady(prune_expired(b, limits, now, budget), limits, now, budget);
}

proof fn lemma_attach_counts(
    b: BrokerView,
    limits: Limits,
    now: i64,
    key: KeyView,
    profile: Profile,
    auth: AuthView,
)
    ensures
        attach_spec(b, limits, now, key, profile, auth).0.shadowed == b.shadowed,
{
    reveal(attach_spec);
    let budget = HOT_MAINTENANCE_BUDGET as nat;
    let b1 = cleared(b, limits, now, key, profile, auth);
    assert(b1.shadowed == b.shadowed) by {
        reveal(cleared);
        lemma_remove_session_counts(b, limits, key);
        let away = expired_away(b, limits, now, key);
        lemma_prune_if_due_steady(away, limits, key, now);
        let left = prune_if_due(away, limits, key, now);
        lemma_remove_session_counts(left, limits, key);
        let freed = release_delays(left, key);
        lemma_release_delays_steady(left, limits, key);
        lemma_retry_wills_steady(freed, limits, now, budget);
        lemma_remove_session_counts(retried(freed, limits, now), limits, key);
    }
    let b2 = opened(b1, limits, now, key, profile, auth).0;
    assert(b2.shadowed == b.shadowed) by {
        reveal(opened);
    }
    let b3 = retried(b2, limits, now);
    lemma_retry_wills_steady(b2, limits, now, budget);
    if let Some(i) = session_at(b3, key) {
        let incarnation = b3.sessions[i].incarnation;
        let c = cancel_resumed(b3, key, incarnation, now);
        lemma_cancel_resumed_steady(b3, limits, key, incarnation, now);
        let b4 = released(c, key);
        let generation = next_generation(b4.generation);
        let b5 = BrokerView { generation, ..b4 };
        if let Some(m) = session_at(b5, key) {
            lemma_linked_counts(b5, limits, now, m, generation, profile);
        }
    }
}

proof fn lemma_linked_counts(
    b: BrokerView,
    limits: Limits,
    now: i64,
    i: int,
    generation: u64,
    profile: Profile,
)
    ensures
        linked(b, limits, now, i, generation, profile).0.shadowed == b.shadowed,
{
    reveal(linked);
    reveal(put_session);
    let s = reconnected(
        b.sessions[i],
        generation,
        now,
        profile.session_expiry_interval,
        profile.receive_maximum,
    );
    let r = resume(b, limits, s).0;
    let refused = put_session(
        b,
        limits,
        i,
        SessionView { active_generation: None, ..r.session },
    );
    lemma_remove_session_counts(refused, limits, s.key);
    lemma_drive_steady(refused, limits, now);
    lemma_drive_steady(remove_session(refused, limits, s.key), limits, now);
    let held = put_session(
        with_receiver(b, s.key, generation, r),
        limits,
        i,
        r.session,
    );
    lemma_drive_steady(held, limits, now);
}

proof fn lemma_detach_counts(
    b: BrokerView,
    limits: Limits,
    now: i64,
    key: KeyView,
    generation: u64,
    clean_session: bool,
)
    ensures
        detach_spec(b, limits, now, key, generation, clean_session).0.shadowed == b.shadowed,
{
    reveal(detach_spec);
    reveal(put_session);
    if owns(b, key, generation) {
        let j = active_at(b, key)->0;
        let b1 = unmark(with_link(b, j, LinkView { active: false, ..b.links[j] }), key);
        lemma_remove_session_counts(b1, limits, key);
        lemma_drive_steady(reindexed(b1, limits, key), limits, now);
        lemma_drive_steady(remove_session(b1, limits, key), limits, now);
        if let Some(i) = session_at(b1, key) {
            let left = put_session(b1, limits, i, disconnected(b1.sessions[i], now));
            lemma_drive_steady(left, limits, now);
        }
    }
}

proof fn lemma_subscribe_counts(
    b: BrokerView,
    limits: Limits,
    now: i64,
    key: KeyView,
    generation: u64,
    filter: Seq<char>,
    subscription: Subscription,
)
    ensures
        subscribe_spec(b, limits, now, key, generation, filter, subscription).0.shadowed
            == b.shadowed,
        unsubscribe_spec(b, limits, now, key, generation, filter).0.shadowed == b.shadowed,
{
    reveal(subscribe_spec);
    reveal(subscribe_owned);
    reveal(unsubscribe_spec);
    reveal(put_session);
    let budget = HOT_MAINTENANCE_BUDGET as nat;
    let b0 = prune_messages(b, limits, now, budget);
    let b1 = drive(b0, limits, now).0;
    let b2 = prune_if_due(b1, limits, key, now);
    lemma_prune_messages_steady(b, limits, now, budget);
    lemma_drive_steady(b0, limits, now);
    lemma_prune_if_due_steady(b1, limits, key, now);
    if let Some(i) = session_at(b2, key) {
        let s = b2.sessions[i];
        let renewed = lookup(s.subscriptions, filter) is Some;
        let messages = replay_of(b2, s.key, filter, subscription, renewed, now);
        if let Ok(live) = plan_replay(
            b2,
            limits,
            i,
            messages,
            subscription_bytes(filter, renewed),
        ) {
            let b3 = with_subscription(b2, limits, i, filter, subscription);
            lemma_replay_all_steady(b3, limits, now, s.key, messages, live, messages.len());
        }
    }
    if let Some(i) = session_at(b, key) {
        let s = b.sessions[i];
        let bare = BrokerView { trie: trie_remove(b.trie, levels(filter), key), ..b };
        let left = put_session(
            bare,
            limits,
            i,
            SessionView { subscriptions: with_entry(s.subscriptions, filter, None), ..s },
        );
        lemma_retry_wills_steady(left, limits, now, budget);
    }
}

proof fn lemma_remove_first_counts(
    b: BrokerView,
    limits: Limits,
    removed: Seq<SessionView>,
    n: nat,
)
    ensures
        remove_first(b, limits, removed, n).shadowed == b.shadowed,
    decreases n,
{
    if n > 0 {
        lemma_remove_first_counts(b, limits, removed, (n - 1) as nat);
        lemma_remove_session_counts(
            remove_first(b, limits, removed, (n - 1) as nat),
            limits,
            removed[n - 1].key,
        );
    }
}

/// Whatever is asked of the broker, it goes on counting what it counted of messages that are gone,
/// and no other such message.
pub proof fn law_no_operation_counts_what_is_gone(
    b: BrokerView,
    limits: Limits,
    now: i64,
    operation: Operation,
)
    ensures
        after(b, limits, now, operation).shadowed == b.shadowed,
{
    match operation {
        Operation::Attach { key, profile, auth } => {
            lemma_attach_counts(b, limits, now, key, profile, auth);
        },
        Operation::Detach { key, generation, clean_session } => {
            lemma_detach_counts(b, limits, now, key, generation, clean_session);
        },
        Operation::Subscribe { key, generation, filter, subscription } => {
            lemma_subscribe_counts(b, limits, now, key, generation, filter, subscription);
        },
        Operation::Unsubscribe { key, generation, filter } => {
            lemma_subscribe_counts(
                b,
                limits,
                now,
                key,
                generation,
                filter,
                Subscription::v311_spec(0),
            );
        },
        Operation::Forget { .. } => {},
        Operation::Maintain => {
            lemma_maintained_counts(b, limits, now, HOT_MAINTENANCE_BUDGET as nat);
        },
        Operation::Tick => {
            reveal(ticked);
            let budget = TICK_MAINTENANCE_BUDGET as nat;
            let b1 = prune_messages(prune_expired(b, limits, now, budget), limits, now, budget);
            lemma_maintained_counts(b, limits, now, budget);
            lemma_wake_global_steady(b1, limits, now);
            lemma_retry_wills_steady(wake_global(b1, limits, now).0, limits, now, budget);
        },
        Operation::Invalidate { invalidation } => {
            reveal(invalidated);
            let removed = keep(b.sessions, concerned(invalidation));
            lemma_remove_first_counts(b, limits, removed, removed.len());
            lemma_carried_on_steady(
                remove_first(b, limits, removed, removed.len()),
                limits,
                now,
            );
        },
        _ => {
            lemma_after_steady(b, limits, now, operation);
        },
    }
}

/// In every state that a broker comes to, the retained messages and bytes that it counts, of all
/// and of each tenant, are those of the messages that it holds.
pub proof fn law_retained_totals_are_those_of_what_is_held(
    b: BrokerView,
    limits: Limits,
    history: Seq<(i64, Operation)>,
)
    requires
        b.shadowed.len() == 0,
    ensures
        run(b, limits, history).shadowed.len() == 0,
        forall|scope: Option<Seq<char>>|
            #![trigger retained_count(run(b, limits, history), scope)]
            #![trigger retained_bytes(run(b, limits, history), scope)]
            {
                let c = run(b, limits, history);
                &&& retained_count(c, scope) == count(c.retained, retained_in(scope))
                &&& retained_bytes(c, scope) == total(c.retained, retained_bytes_of(scope))
            },
    decreases history.len(),
{
    if history.len() > 0 {
        law_retained_totals_are_those_of_what_is_held(b, limits, history.drop_last());
        law_no_operation_counts_what_is_gone(
            run(b, limits, history.drop_last()),
            limits,
            history.last().0,
            history.last().1,
        );
    }
}

} // verus!
