//! What holds of the broker after any requests whatever, and how it holds.
use super::attach::{attach_spec, detach_spec, expiry_change, maintained, next_generation, Profile};
use super::filing::{lemma_subscribe_tidy, lemma_unsubscribe_tidy};
use super::flow::{
    lemma_accept_inbound_steady, lemma_begin_delivery_steady, lemma_carried_on_steady,
    lemma_close_will_steady, lemma_complete_inbound_steady, lemma_complete_outbound_steady,
    lemma_finish_delivery_steady, lemma_hold_will_steady, lemma_promote_due_steady,
    lemma_prune_messages_steady, lemma_publish_steady, lemma_pull_steady, lemma_queue_steady,
    lemma_receive_pubrec_steady, lemma_restored_message_parts, lemma_retransmission_steady,
    lemma_retry_wills_steady, lemma_route_inbound_steady, lemma_send_command_steady,
    lemma_settle_will_steady, lemma_transfer_steady, lemma_window_left_steady,
    lemma_without_guard_steady,
};
use super::inbound::{
    abandon_delivery, accept_inbound, begin_delivery, carried_on, complete_inbound, finish_delivery,
    retransmission, route_inbound, window_left,
};
use super::model::{
    active_at, active_is, empty_broker, entry_reserved_bytes, entry_reserved_count, guard_at,
    guard_wills, link_at, link_is, link_used, outbound_used, prune_expired, prune_messages,
    reserve_retained, retained_bytes, retained_count, retained_is, session_at, session_is,
    touch_session, wake_global, will_charge, will_count, BrokerView, DelayView, GuardView,
    RetainedView, WillView, HOT_MAINTENANCE_BUDGET, TICK_MAINTENANCE_BUDGET,
};
use super::outbound::{
    begin_transfer, complete_outbound, discard, pull, receive_pubrec, reject_pubrec, send_command,
    OutboundAck,
};
use super::restore::{
    admit_session, admitted, reserve_entries, reserve_entry, reserve_sessions, restore_message,
    restore_messages, restore_sessions, restore_will, restore_wills, restored, restored_message,
    restored_parts, with_filters,
};
use super::revive::{current, revived, room_for};
use super::service::{
    concerned, forgotten, invalidated, publish, received, remove_first, shut, ticked, written,
};
use super::subscribe::{subscribe_spec, unsubscribe_spec};
use super::slots::{
    claims_bytes, claims_count, claims_no_more, lemma_claimed, lemma_entry_claims,
    lemma_no_more_refl, lemma_no_more_trans, lemma_session_new_claims, lemma_slots_kept,
    lemma_still_unclaimed, lemma_will_more, retained_numbers_within, retained_shares_within, slots,
    taken_bytes, unclaimed,
};
use super::tidy::{
    answered, answered_within, entitled, exact_but, filed, filter_of, frames_within, guards_tidy,
    indexed, lemma_frames_removed, lemma_guard_steady, lemma_positions, lemma_reindexed,
    lemma_same_books, lemma_steady_refl, lemma_steady_tidy, lemma_touch_steady,
    lemma_wake_global_steady, lemma_within_pushed, links_tidy, numbers_within, retained_indexed,
    retained_tidy, sessions_tidy, share_within, shares_within, spelled, steady, tenant_within, tidy,
    tidy_parts, trie_tidy, wills_within,
};
use super::turnover::{
    held, lemma_attach_tidy, lemma_detach_tidy, lemma_exact_same, lemma_hole, lemma_levels_differ,
    lemma_links_with, lemma_prune_expired_tidy, lemma_remove_session, lemma_retained_same,
    lemma_session_pushed, lemma_trie_same,
};
use super::weight::{lemma_received_changed, lemma_second_count};
use super::wills::{
    armed_will, close_will, delayed_will, hold_will, prolonged_will, promote_due, retried,
    retry_wills, settle_will, without_guard,
};
use crate::identity::{AuthInvalidation, DeviceView, KeyView};
use crate::limits::Limits;
use crate::list::{distinct, keep, lemma_first, lemma_first_none, lemma_keep_total, total};
use crate::message::{expired_spec, MessageView};
use crate::recovery::snapshot::{inbound_all_after, RecordedView, SnapshotView};
use crate::session::{
    auth_complete, fresh_message, message_charge, sub_key, AuthView, InboundView, SessionView,
    Subscription,
};
use crate::table::{entry_is, entry_key, law_one_value_per_key, lookup, with_entry};
use crate::text::levels;
use crate::topics::matches_spec;
use crate::trie::{
    begins_with_dollar, empty_trie, hits, law_insert, law_matching, plain, reaches, subscribed,
    trie_matching, trie_ok, TrieView,
};
use crate::usage::{tenant_usage, total_usage};
use super::answers::lemma_one_more_answered;
use vstd::prelude::*;

verus! {

proof fn lemma_remove_first_tidy(
    b: BrokerView,
    limits: Limits,
    removed: Seq<SessionView>,
    n: nat,
)
    requires
        tidy(b, limits),
    ensures
        tidy(remove_first(b, limits, removed, n), limits),
    decreases n,
{
    if n > 0 {
        let before = remove_first(b, limits, removed, (n - 1) as nat);
        lemma_remove_first_tidy(b, limits, removed, (n - 1) as nat);
        lemma_hole(before, limits, removed[n - 1].key);
        lemma_remove_session(before, limits, removed[n - 1].key);
    }
}

proof fn lemma_invalidated_tidy(
    b: BrokerView,
    limits: Limits,
    now: i64,
    invalidation: AuthInvalidation,
)
    requires
        tidy(b, limits),
    ensures
        tidy(invalidated(b, limits, now, invalidation).0, limits),
{
    reveal(invalidated);
    let removed = keep(b.sessions, concerned(invalidation));
    let next = remove_first(b, limits, removed, removed.len());
    lemma_remove_first_tidy(b, limits, removed, removed.len());
    lemma_carried_on_steady(next, limits, now);
    lemma_steady_tidy(next, carried_on(next, limits, now).0, limits);
}

proof fn lemma_ticked_tidy(b: BrokerView, limits: Limits, now: i64)
    requires
        tidy(b, limits),
    ensures
        tidy(ticked(b, limits, now).0, limits),
{
    reveal(ticked);
    let budget = TICK_MAINTENANCE_BUDGET as nat;
    let b0 = prune_expired(b, limits, now, budget);
    lemma_prune_expired_tidy(b, limits, now, budget);
    let b1 = prune_messages(b0, limits, now, budget);
    lemma_prune_messages_steady(b0, limits, now, budget);
    lemma_steady_tidy(b0, b1, limits);
    let next = wake_global(b1, limits, now).0;
    lemma_wake_global_steady(b1, limits, now);
    lemma_steady_tidy(b1, next, limits);
    lemma_retry_wills_steady(next, limits, now, budget);
    lemma_steady_tidy(next, retry_wills(next, limits, now, budget).0, limits);
}

proof fn lemma_maintained_tidy(b: BrokerView, limits: Limits, now: i64)
    requires
        tidy(b, limits),
    ensures
        tidy(maintained(b, limits, now), limits),
{
    let budget = HOT_MAINTENANCE_BUDGET as nat;
    let b0 = prune_expired(b, limits, now, budget);
    lemma_prune_expired_tidy(b, limits, now, budget);
    lemma_prune_messages_steady(b0, limits, now, budget);
    lemma_steady_tidy(b0, prune_messages(b0, limits, now, budget), limits);
}

/// A connection that holds nothing is forgotten.
proof fn lemma_forgotten_tidy(b: BrokerView, limits: Limits, receiver: u64)
    requires
        tidy(b, limits),
    ensures
        tidy(forgotten(b, receiver), limits),
{
    let next = forgotten(b, receiver);
    lemma_first(b.links, link_is(receiver));
    if let Some(j) = link_at(b, receiver) {
        if !b.links[j].active {
            lemma_frames_removed(b.links, limits, j);
            lemma_retained_same(b, next);
            lemma_trie_same(b, next);
            assert forall|key: KeyView| #[trigger] active_at(next, key) is Some == active_at(
                b,
                key,
            ) is Some by {
                lemma_first(b.links, active_is(key));
                lemma_first(next.links, active_is(key));
                if let Some(m) = active_at(b, key) {
                    let at = if m < j {
                        m
                    } else {
                        m - 1
                    };
                    assert(next.links[at] == b.links[m]);
                    assert(active_is(key)(next.links[at]));
                }
                if let Some(m) = active_at(next, key) {
                    let from = if m < j {
                        m
                    } else {
                        m + 1
                    };
                    assert(next.links[m] == b.links[from]);
                    assert(active_is(key)(b.links[from]));
                }
            }
            assert(exact_but(next, limits, None)) by {
                reveal(exact_but);
                assert forall|key: KeyView| #[trigger] indexed(next, limits, key) by {
                    assert(indexed(b, limits, key));
                    assert(active_at(next, key) is Some == active_at(b, key) is Some);
                }
            }
            assert(links_tidy(next)) by {
                reveal(links_tidy);
                assert forall|m: int, n: int|
                    0 <= m < n < next.links.len() && (#[trigger] next.links[m]).active && (
                    #[trigger] next.links[n]).active implies next.links[m].key
                    != next.links[n].key by {
                    let x = if m < j {
                        m
                    } else {
                        m + 1
                    };
                    let y = if n < j {
                        n
                    } else {
                        n + 1
                    };
                    assert(next.links[m] == b.links[x] && next.links[n] == b.links[y]);
                    assert(b.links[x].active && b.links[y].active);
                }
                assert forall|m: int|
                    0 <= m < next.links.len() && (#[trigger] next.links[m]).active implies
                    session_at(next, next.links[m].key) is Some by {
                    let x = if m < j {
                        m
                    } else {
                        m + 1
                    };
                    assert(next.links[m] == b.links[x]);
                    assert(b.links[x].active);
                }
            }
        }
    }
}

proof fn lemma_expiry_change_steady(
    b: BrokerView,
    limits: Limits,
    key: KeyView,
    generation: u64,
    interval: u32,
)
    ensures
        steady(b, expiry_change(b, key, generation, interval).0, limits),
{
    lemma_steady_refl(b, limits);
    lemma_positions(b, key);
    if let Some(i) = session_at(b, key) {
        let s = b.sessions[i];
        lemma_touch_steady(b, limits, i, SessionView { session_expiry_interval: interval, ..s });
    }
}

proof fn lemma_last_entry(s: Seq<(Seq<char>, Subscription)>, filter: Seq<char>)
    requires
        s.len() > 0,
        distinct(s, entry_key()),
    ensures
        distinct(s.drop_last(), entry_key()),
        lookup(s, filter) == if s.last().0 == filter {
            Some(s.last().1)
        } else {
            lookup(s.drop_last(), filter)
        },
{
    let front = s.drop_last();
    let last = s.last();
    assert forall|i: int, j: int|
        0 <= i < front.len() && 0 <= j < front.len() && i != j implies entry_key::<
        Seq<char>,
        Subscription,
    >()(#[trigger] front[i]) != entry_key::<Seq<char>, Subscription>()(#[trigger] front[j]) by {
        assert(entry_key::<Seq<char>, Subscription>()(s[i]) != entry_key::<
            Seq<char>,
            Subscription,
        >()(s[j]));
    }
    let p = entry_is::<Seq<char>, Subscription>(last.0);
    assert forall|i: int| 0 <= i < front.len() implies !p(#[trigger] front[i]) by {
        assert(entry_key::<Seq<char>, Subscription>()(s[i]) != entry_key::<
            Seq<char>,
            Subscription,
        >()(s[s.len() - 1]));
    }
    lemma_first_none(front, p);
    assert(with_entry(front, last.0, Some(last.1)) =~= s);
    law_one_value_per_key(front, last.0, Some(last.1), filter);
}

/// The filters of one session set up in the trie, and no other's touched.
proof fn lemma_with_filters(
    t: TrieView,
    key: KeyView,
    subscriptions: Seq<(Seq<char>, Subscription)>,
    filter: Seq<char>,
    other: KeyView,
)
    requires
        trie_ok(t),
        distinct(subscriptions, entry_key()),
    ensures
        trie_ok(with_filters(t, key, subscriptions)),
        subscribed(with_filters(t, key, subscriptions), levels(filter), other) == if other == key
            && lookup(subscriptions, filter) is Some {
            lookup(subscriptions, filter)
        } else {
            subscribed(t, levels(filter), other)
        },
    decreases subscriptions.len(),
{
    if subscriptions.len() == 0 {
        lemma_first_none(subscriptions, entry_is::<Seq<char>, Subscription>(filter));
    } else {
        let front = subscriptions.drop_last();
        let last = subscriptions.last();
        lemma_last_entry(subscriptions, filter);
        lemma_with_filters(t, key, front, filter, other);
        law_insert(
            with_filters(t, key, front),
            levels(last.0),
            key,
            last.1,
            levels(filter),
            other,
        );
        if levels(filter) == levels(last.0) {
            lemma_levels_differ(filter, last.0);
        }
    }
}

proof fn lemma_with_filters_spelled(
    t: TrieView,
    key: KeyView,
    subscriptions: Seq<(Seq<char>, Subscription)>,
    path: Seq<Seq<char>>,
    other: KeyView,
)
    requires
        trie_ok(t),
    ensures
        trie_ok(with_filters(t, key, subscriptions)),
        subscribed(with_filters(t, key, subscriptions), path, other) is Some ==> subscribed(
            t,
            path,
            other,
        ) is Some || spelled(path),
    decreases subscriptions.len(),
{
    if subscriptions.len() > 0 {
        let front = subscriptions.drop_last();
        let last = subscriptions.last();
        lemma_with_filters_spelled(t, key, front, path, other);
        law_insert(
            with_filters(t, key, front),
            levels(last.0),
            key,
            last.1,
            path,
            other,
        );
    }
}

proof fn lemma_admitted_tidy(b: BrokerView, limits: Limits, s: SessionView)
    requires
        tidy_parts(b, limits, None),
        held(b, s.key) is None,
        distinct(s.subscriptions, entry_key()),
        room_for(b, limits, s),
        total(s.offline, message_charge()) <= limits.max_offline_bytes_per_session,
        total(s.inbound, entry_reserved_count()) == 0,
        total(s.inbound, entry_reserved_bytes()) == 0,
    ensures
        tidy_parts(admitted(b, limits, s), limits, None),
        admitted(b, limits, s).sessions.len() == b.sessions.len() + 1,
        admitted(b, limits, s).retained == b.retained,
        claims_no_more(slots(b), slots(admitted(b, limits, s))),
{
    let known = s.authorization matches Some(a) && auth_complete(a);
    let next = BrokerView {
        sessions: b.sessions.push(s),
        trie: if known {
            with_filters(b.trie, s.key, s.subscriptions)
        } else {
            b.trie
        },
        ..b
    };
    lemma_session_pushed(b, next, s);
    lemma_second_count(s);
    lemma_within_pushed(b.sessions, limits, s);
    lemma_session_new_claims(slots(b), s);
    lemma_slots_kept(slots(b), slots(next), limits);
    assert forall|other: KeyView| other != s.key implies #[trigger] held(next, other) == held(
        b,
        other,
    ) && active_at(next, other) is Some == active_at(b, other) is Some by {}
    lemma_exact_same(b, next, limits, s.key);
    lemma_retained_same(b, next);
    lemma_links_with(b, next);
    assert(trie_tidy(next)) by {
        reveal(trie_tidy);
        lemma_with_filters(b.trie, s.key, s.subscriptions, Seq::empty(), s.key);
        assert forall|path: Seq<Seq<char>>, k: KeyView| #[trigger]
            subscribed(next.trie, path, k) is Some implies spelled(path) by {
            lemma_with_filters_spelled(b.trie, s.key, s.subscriptions, path, k);
        }
        assert forall|k: KeyView, filter: Seq<char>| #[trigger] filed(next, k, filter) by {
            assert(filed(b, k, filter));
            lemma_with_filters(b.trie, s.key, s.subscriptions, filter, k);
            if k != s.key {
                assert(held(next, k) == held(b, k));
            }
        }
    }
    lemma_reindexed(next, limits, s.key);
}

proof fn lemma_restore_sessions_tidy(
    b: BrokerView,
    limits: Limits,
    now: i64,
    version: u32,
    sessions: Seq<RecordedView>,
)
    requires
        tidy_parts(b, limits, None),
    ensures
        restore_sessions(b, limits, now, version, sessions) matches Ok(next) ==> tidy_parts(
            next,
            limits,
            None,
        ) && next.sessions.len() <= b.sessions.len() + sessions.len() && next.retained
            == b.retained && claims_no_more(slots(b), slots(next)) && (wills_within(b, limits)
            ==> wills_within(next, limits)),
    decreases sessions.len(),
{
    if sessions.len() > 0 {
        lemma_restore_sessions_tidy(b, limits, now, version, sessions.drop_last());
        if let Ok(before) = restore_sessions(b, limits, now, version, sessions.drop_last()) {
            lemma_admit_session_tidy(before, limits, now, sessions.last());
            lemma_no_more_refl(slots(before));
            if let Ok(next) = restore_sessions(b, limits, now, version, sessions) {
                lemma_no_more_trans(slots(b), slots(before), slots(next));
            }
        }
    } else {
        lemma_no_more_refl(slots(b));
    }
}

proof fn lemma_admit_session_tidy(b: BrokerView, limits: Limits, now: i64, r: RecordedView)
    requires
        tidy_parts(b, limits, None),
    ensures
        admit_session(b, limits, now, r) matches Ok(next) ==> tidy_parts(next, limits, None)
            && next.sessions.len() == b.sessions.len() + 1 && next.retained == b.retained
            && claims_no_more(slots(b), slots(next)) && (wills_within(b, limits) ==> wills_within(
            next,
            limits,
        )),
{
    reveal(admit_session);
    if let Ok(next) = admit_session(b, limits, now, r) {
        let generation = if r.session.incarnation == 0 {
            next_generation(b.generation)
        } else {
            b.generation
        };
        let incarnation = if r.session.incarnation == 0 {
            generation
        } else {
            r.session.incarnation
        };
        let b1 = BrokerView { generation, ..b };
        let s = revived(r.session, incarnation);
        let t = current(s, now);
        lemma_keep_total(s.offline, fresh_message(now), message_charge());
        lemma_same_books(b, b1, limits, None);
        assert(held(b1, t.key) is None);
        assert(distinct(t.subscriptions, entry_key())) by {
            assert(distinct(s.subscriptions, sub_key()));
            assert forall|i: int, j: int|
                0 <= i < t.subscriptions.len() && 0 <= j < t.subscriptions.len() && i
                    != j implies entry_key::<Seq<char>, Subscription>()(
                #[trigger] t.subscriptions[i],
            ) != entry_key::<Seq<char>, Subscription>()(#[trigger] t.subscriptions[j]) by {
                assert(sub_key()(s.subscriptions[i]) != sub_key()(s.subscriptions[j]));
            }
        }
        lemma_nothing_claimed(r.session.inbound);
        lemma_admitted_tidy(b1, limits, t);
    }
}

/// Nothing is set aside for received messages that come from a snapshot.
proof fn lemma_nothing_claimed(s: Seq<InboundView>)
    ensures
        total(inbound_all_after(s), entry_reserved_count()) == 0,
        total(inbound_all_after(s), entry_reserved_bytes()) == 0,
    decreases s.len(),
{
    if s.len() > 0 {
        lemma_nothing_claimed(s.drop_last());
        assert(inbound_all_after(s).drop_last() =~= inbound_all_after(s.drop_last()));
    }
}

proof fn lemma_restore_messages_tidy(
    b: BrokerView,
    limits: Limits,
    now: i64,
    retained: Seq<(Seq<char>, RetainedView)>,
)
    requires
        tidy_parts(b, limits, None),
        unclaimed(slots(b)),
    ensures
        restore_messages(b, limits, now, retained) matches Ok(next) ==> {
            &&& tidy_parts(next, limits, None)
            &&& unclaimed(slots(next))
            &&& next.sessions == b.sessions
            &&& next.retained.len() <= b.retained.len() + retained.len()
            &&& wills_within(b, limits) ==> wills_within(next, limits)
        },
    decreases retained.len(),
{
    if retained.len() > 0 {
        lemma_restore_messages_tidy(b, limits, now, retained.drop_last());
        if let Ok(before) = restore_messages(b, limits, now, retained.drop_last()) {
            let (topic, r) = retained.last();
            reveal(restore_message);
            if restore_message(before, limits, now, topic, r) is Ok && !expired_spec(
                r.message,
                now,
            ) {
                let next = restored_message(before, r);
                lemma_restored_message_parts(before, limits, r);
                lemma_steady_tidy(before, next, limits);
            }
        }
    }
}

/// Nothing is set aside, or what is set aside and taken is within the bounds.
spec fn claims_fine(b: BrokerView, limits: Limits) -> bool {
    unclaimed(slots(b)) || retained_numbers_within(slots(b), limits)
}

proof fn lemma_restore_wills_tidy(b: BrokerView, limits: Limits, now: i64, wills: Seq<WillView>)
    requires
        tidy_parts(b, limits, None),
        claims_fine(b, limits),
    ensures
        restore_wills(b, limits, now, wills) matches Ok(next) ==> {
            &&& tidy_parts(next, limits, None)
            &&& claims_fine(next, limits)
            &&& next.sessions == b.sessions
            &&& next.retained == b.retained
            &&& wills_within(b, limits) ==> wills_within(next, limits)
        },
    decreases wills.len(),
{
    if wills.len() > 0 {
        lemma_restore_wills_tidy(b, limits, now, wills.drop_last());
        reveal(restore_will);
        if let (Ok(before), Ok(next)) = (
            restore_wills(b, limits, now, wills.drop_last()),
            restore_wills(b, limits, now, wills),
        ) {
            let w = wills.last();
            if !expired_spec(w.message, now) {
                let reservation = reserve_retained(
                    before,
                    limits,
                    w.owner.tenant,
                    w.origin,
                    w.message,
                )->Ok_0;
                let kept = WillView { reservation, counted: true, ..w };
                lemma_will_more(
                    slots(before),
                    kept,
                    GuardView { token: 0, will: kept, delay: None, armed: false },
                );
                lemma_claimed(before, next, limits, w.owner.tenant, w.origin, w.message);
                lemma_one_more_answered(
                    before,
                    next,
                    limits,
                    kept,
                    will_charge(w.message, w.origin),
                );
                lemma_same_books(before, next, limits, None);
            }
        }
    }
}

proof fn lemma_reserve_entry_tidy(b: BrokerView, limits: Limits, i: int, k: int)
    requires
        0 <= i < b.sessions.len(),
        0 <= k < b.sessions[i].inbound.len(),
        tidy_parts(b, limits, None),
        claims_fine(b, limits),
    ensures
        reserve_entry(b, limits, i, k) matches Ok(next) ==> {
            &&& tidy_parts(next, limits, None)
            &&& claims_fine(next, limits)
            &&& next.sessions.len() == b.sessions.len()
            &&& next.retained == b.retained
            &&& wills_within(b, limits) ==> wills_within(next, limits)
        },
{
    reveal(reserve_entry);
    let s = b.sessions[i];
    let e = s.inbound[k];
    if let Ok(reservation) = reserve_retained(
        b,
        limits,
        s.key.device.tenant,
        Some(s.key),
        e.message,
    ) {
        let kept = InboundView { reservation, ..e };
        let s2 = SessionView { inbound: s.inbound.update(k, kept), ..s };
        let next = touch_session(b, i, s2);
        lemma_received_changed(s, k, kept);
        lemma_entry_claims(slots(b), slots(next), i, k, kept, Set::empty());
        lemma_claimed(b, next, limits, s.key.device.tenant, Some(s.key), e.message);
        lemma_touch_steady(b, limits, i, s2);
        lemma_steady_tidy(b, next, limits);
    }
}

proof fn lemma_reserve_entries_tidy(b: BrokerView, limits: Limits, i: int, k: int)
    requires
        0 <= i < b.sessions.len(),
        0 <= k,
        tidy_parts(b, limits, None),
        claims_fine(b, limits),
    ensures
        reserve_entries(b, limits, i, k) matches Ok(next) ==> {
            &&& tidy_parts(next, limits, None)
            &&& claims_fine(next, limits)
            &&& next.sessions.len() == b.sessions.len()
            &&& next.retained == b.retained
            &&& wills_within(b, limits) ==> wills_within(next, limits)
        },
    decreases b.sessions[i].inbound.len() - k,
{
    if k < b.sessions[i].inbound.len() {
        lemma_reserve_entry_tidy(b, limits, i, k);
        if let Ok(next) = reserve_entry(b, limits, i, k) {
            if next.sessions[i].inbound.len() == b.sessions[i].inbound.len() {
                lemma_reserve_entries_tidy(next, limits, i, k + 1);
            }
        }
    }
}

proof fn lemma_reserve_sessions_tidy(b: BrokerView, limits: Limits, i: int)
    requires
        0 <= i,
        tidy_parts(b, limits, None),
        claims_fine(b, limits),
    ensures
        reserve_sessions(b, limits, i) matches Ok(next) ==> {
            &&& tidy_parts(next, limits, None)
            &&& claims_fine(next, limits)
            &&& next.sessions.len() == b.sessions.len()
            &&& next.retained == b.retained
            &&& wills_within(b, limits) ==> wills_within(next, limits)
        },
    decreases b.sessions.len() - i,
{
    if i < b.sessions.len() {
        lemma_reserve_entries_tidy(b, limits, i, 0);
        if let Ok(next) = reserve_entries(b, limits, i, 0) {
            if next.sessions.len() == b.sessions.len() {
                lemma_reserve_sessions_tidy(next, limits, i + 1);
            }
        }
    }
}

proof fn lemma_empty_tidy(limits: Limits, generation: u64)
    ensures
        tidy(BrokerView { generation, ..empty_broker() }, limits),
        unclaimed(slots((BrokerView { generation, ..empty_broker() }))),
{
    let b = BrokerView { generation, ..empty_broker() };
    assert forall|key: KeyView| session_at(b, key) is None && active_at(b, key) is None && lookup(
        b.session_expiry,
        key,
    ) is None && lookup(b.message_expiry, key) is None by {
        lemma_first_none(b.sessions, session_is(key));
        lemma_first_none(b.links, active_is(key));
        lemma_first_none(b.session_expiry, entry_is::<KeyView, i64>(key));
    }
    assert(exact_but(b, limits, None)) by {
        reveal(exact_but);
        assert forall|key: KeyView| #[trigger] indexed(b, limits, key) by {
            assert(session_at(b, key) is None);
        }
    }
    assert(retained_tidy(b)) by {
        reveal(retained_tidy);
        assert forall|topic: Seq<char>| #[trigger] retained_indexed(b, topic) by {
            lemma_first_none(b.retained, retained_is(topic));
            lemma_first_none(b.retained_expiry, entry_is::<Seq<char>, i64>(topic));
        }
    }
    reveal(sessions_tidy);
    reveal(links_tidy);
    reveal(guards_tidy);
    assert(shares_within(b.sessions, limits) && numbers_within(b.sessions, limits)
        && frames_within(b.links, limits) && retained_shares_within(slots(b), limits)
        && retained_numbers_within(slots(b), limits)) by {
        reveal(retained_shares_within);
        reveal(retained_numbers_within);
        reveal(shares_within);
        reveal(numbers_within);
        reveal(frames_within);
    }
    assert(wills_within(b, limits)) by {
        reveal(answered_within);
        assert(guard_wills(b.guards) =~= Seq::<WillView>::empty());
    }
    assert(trie_tidy(b)) by {
        reveal(trie_tidy);
        assert forall|path: Seq<Seq<char>>, key: KeyView| #[trigger]
            subscribed(b.trie, path, key) is Some implies spelled(path) by {
            lemma_empty_subscribed(path, key);
        }
        assert forall|key: KeyView, filter: Seq<char>| #[trigger] filed(b, key, filter) by {
            assert(session_at(b, key) is None);
            lemma_empty_subscribed(levels(filter), key);
        }
    }
}

proof fn lemma_empty_subscribed(path: Seq<Seq<char>>, key: KeyView)
    ensures
        subscribed(empty_trie(), path, key) is None,
{
    lemma_first_none(
        Seq::<(KeyView, Subscription)>::empty(),
        entry_is::<KeyView, Subscription>(key),
    );
    if path.len() > 0 {
        lemma_first_none(
            Seq::<(Seq<char>, TrieView)>::empty(),
            entry_is::<Seq<char>, TrieView>(path[0]),
        );
    }
}

/// Everything fits together in a broker that was just made.
pub proof fn law_new_broker_is_tidy(limits: Limits)
    ensures
        tidy(empty_broker(), limits),
{
    lemma_empty_tidy(limits, 0);
    assert(empty_broker() =~= BrokerView { generation: 0, ..empty_broker() });
}

/// Everything fits together in a broker that was restored, whatever the snapshot says.
pub proof fn law_restored_broker_is_tidy(limits: Limits, now: i64, snapshot: SnapshotView)
    ensures
        restored(limits, now, snapshot) matches Ok(b) ==> tidy(b, limits),
{
    reveal(restored);
    reveal(restored_parts);
    let start = BrokerView { generation: snapshot.generation, ..empty_broker() };
    lemma_empty_tidy(limits, snapshot.generation);
    lemma_restore_sessions_tidy(
        start,
        limits,
        now,
        snapshot.format_version,
        snapshot.sessions,
    );
    if let Ok(b1) = restore_sessions(
        start,
        limits,
        now,
        snapshot.format_version,
        snapshot.sessions,
    ) {
        lemma_still_unclaimed(slots(start), slots(b1));
        lemma_restore_messages_tidy(b1, limits, now, snapshot.retained);
        if let Ok(b2) = restore_messages(b1, limits, now, snapshot.retained) {
            lemma_restore_wills_tidy(b2, limits, now, snapshot.wills);
            if let Ok(b3) = restore_wills(b2, limits, now, snapshot.wills) {
                lemma_reserve_sessions_tidy(b3, limits, 0);
                if let Ok(b4) = reserve_sessions(b3, limits, 0) {
                    assert(restored(limits, now, snapshot) is Ok ==> tidy(b4, limits)) by {
                        reveal(numbers_within);
                        reveal(retained_numbers_within);
                        if unclaimed(slots(b4)) {
                            assert(claims_count(slots(b4), None) == 0);
                        }
                    }
                    lemma_retry_wills_steady(b4, limits, now, HOT_MAINTENANCE_BUDGET as nat);
                    lemma_steady_tidy(b4, retried(b4, limits, now), limits);
                }
            }
        }
    }
}

/// Everything that can be asked of the broker.
pub enum Operation {
    Publish { tenant: Seq<char>, origin: Option<KeyView>, message: MessageView },
    Attach { key: KeyView, profile: Profile, auth: AuthView },
    Detach { key: KeyView, generation: u64, clean_session: bool },
    ChangeExpiry { key: KeyView, generation: u64, interval: u32 },
    Subscribe {
        key: KeyView,
        generation: u64,
        filter: Seq<char>,
        subscription: Subscription,
    },
    Unsubscribe { key: KeyView, generation: u64, filter: Seq<char> },
    Accept { key: KeyView, generation: u64, id: u16, message: MessageView },
    Retransmit { key: KeyView, generation: u64, id: u16 },
    LeaveWindow { key: KeyView, generation: u64, id: u16 },
    BeginDelivery { key: KeyView, generation: u64, id: u16 },
    FinishDelivery { key: KeyView, incarnation: u64, id: u16, operation: u64 },
    AbandonDelivery { key: KeyView, incarnation: u64, id: u16, operation: u64 },
    CompleteInbound { key: KeyView, generation: u64, id: u16 },
    RouteInbound {
        key: KeyView,
        incarnation: u64,
        id: u16,
        operation: u64,
        tenant: Seq<char>,
    },
    CompleteOutbound { key: KeyView, generation: u64, id: u16, ack: OutboundAck },
    ReceivePubrec { key: KeyView, generation: u64, id: u16 },
    RejectPubrec { key: KeyView, generation: u64, id: u16 },
    BeginTransfer { key: KeyView, generation: u64, id: Option<u16>, message: MessageView },
    Discard { key: KeyView, generation: u64, id: Option<u16>, message: MessageView },
    SendCommand { key: KeyView, generation: u64, message: MessageView },
    Pull { key: KeyView, generation: u64 },
    TakeFrame { receiver: u64 },
    FrameWritten { receiver: u64, charge: nat },
    Shut { receiver: u64 },
    Forget { receiver: u64 },
    HoldWill { owner: DeviceView, origin: Option<KeyView>, message: MessageView },
    ArmWill { token: u64 },
    DelayWill { token: u64, delay: DelayView, message_expiry: Option<u32> },
    ProlongWill { token: u64, interval: u32 },
    SuppressWill { token: u64 },
    SettleWill { token: u64 },
    CloseWill { token: u64 },
    RetryWills { budget: nat },
    PromoteWills { budget: nat },
    Maintain,
    Tick,
    Invalidate { invalidation: AuthInvalidation },
}

/// The broker after something was asked of it.
pub open spec fn after(b: BrokerView, limits: Limits, now: i64, operation: Operation) -> BrokerView {
    match operation {
        Operation::Publish { tenant, origin, message } => publish(
            b,
            limits,
            now,
            tenant,
            origin,
            message,
        ).0,
        Operation::Attach { key, profile, auth } => attach_spec(
            b,
            limits,
            now,
            key,
            profile,
            auth,
        ).0,
        Operation::Detach { key, generation, clean_session } => detach_spec(
            b,
            limits,
            now,
            key,
            generation,
            clean_session,
        ).0,
        Operation::ChangeExpiry { key, generation, interval } => expiry_change(
            b,
            key,
            generation,
            interval,
        ).0,
        Operation::Subscribe { key, generation, filter, subscription } => subscribe_spec(
            b,
            limits,
            now,
            key,
            generation,
            filter,
            subscription,
        ).0,
        Operation::Unsubscribe { key, generation, filter } => unsubscribe_spec(
            b,
            limits,
            now,
            key,
            generation,
            filter,
        ).0,
        Operation::Accept { key, generation, id, message } => accept_inbound(
            b,
            limits,
            key,
            generation,
            id,
            message,
        ).0,
        Operation::Retransmit { key, generation, id } => retransmission(
            b,
            limits,
            key,
            generation,
            id,
        ).0,
        Operation::LeaveWindow { key, generation, id } => window_left(b, key, generation, id).0,
        Operation::BeginDelivery { key, generation, id } => begin_delivery(
            b,
            key,
            generation,
            id,
        ).0,
        Operation::FinishDelivery { key, incarnation, id, operation } => finish_delivery(
            b,
            key,
            incarnation,
            id,
            operation,
        ).0,
        Operation::AbandonDelivery { key, incarnation, id, operation } => abandon_delivery(
            b,
            key,
            incarnation,
            id,
            operation,
        ).0,
        Operation::CompleteInbound { key, generation, id } => complete_inbound(
            b,
            limits,
            now,
            key,
            generation,
            id,
        ).0,
        Operation::RouteInbound { key, incarnation, id, operation, tenant } => route_inbound(
            b,
            limits,
            now,
            key,
            incarnation,
            id,
            operation,
            tenant,
        ).0,
        Operation::CompleteOutbound { key, generation, id, ack } => complete_outbound(
            b,
            limits,
            now,
            key,
            generation,
            id,
            ack,
        ).0,
        Operation::ReceivePubrec { key, generation, id } => receive_pubrec(
            b,
            limits,
            key,
            generation,
            id,
        ).0,
        Operation::RejectPubrec { key, generation, id } => reject_pubrec(
            b,
            limits,
            now,
            key,
            generation,
            id,
        ).0,
        Operation::BeginTransfer { key, generation, id, message } => begin_transfer(
            b,
            limits,
            now,
            key,
            generation,
            id,
            message,
        ).0,
        Operation::Discard { key, generation, id, message } => discard(
            b,
            limits,
            now,
            key,
            generation,
            id,
            message,
        ).0,
        Operation::SendCommand { key, generation, message } => send_command(
            b,
            limits,
            now,
            key,
            generation,
            message,
        ).0,
        Operation::Pull { key, generation } => pull(b, limits, now, key, generation).0,
        Operation::TakeFrame { receiver } => received(b, receiver).0,
        Operation::FrameWritten { receiver, charge } => written(b, receiver, charge),
        Operation::Shut { receiver } => shut(b, receiver),
        Operation::Forget { receiver } => forgotten(b, receiver),
        Operation::HoldWill { owner, origin, message } => hold_will(
            b,
            limits,
            owner,
            origin,
            message,
        ).0,
        Operation::ArmWill { token } => armed_will(b, token),
        Operation::DelayWill { token, delay, message_expiry } => delayed_will(
            b,
            token,
            delay,
            message_expiry,
        ),
        Operation::ProlongWill { token, interval } => prolonged_will(b, token, interval),
        Operation::SuppressWill { token } => without_guard(b, token),
        Operation::SettleWill { token } => settle_will(b, limits, now, token).0,
        Operation::CloseWill { token } => close_will(b, limits, now, token),
        Operation::RetryWills { budget } => retry_wills(b, limits, now, budget).0,
        Operation::PromoteWills { budget } => promote_due(b, now, budget),
        Operation::Maintain => maintained(b, limits, now),
        Operation::Tick => ticked(b, limits, now).0,
        Operation::Invalidate { invalidation } => invalidated(b, limits, now, invalidation).0,
    }
}

/// What leaves the sessions, what they have subscribed to and their connections as they are.
pub proof fn lemma_after_steady(b: BrokerView, limits: Limits, now: i64, operation: Operation)
    ensures
        match operation {
            Operation::Attach { .. } => true,
            Operation::Detach { .. } => true,
            Operation::Subscribe { .. } => true,
            Operation::Unsubscribe { .. } => true,
            Operation::Forget { .. } => true,
            Operation::Maintain => true,
            Operation::Tick => true,
            Operation::Invalidate { .. } => true,
            _ => steady(b, after(b, limits, now, operation), limits),
        },
{
    match operation {
        Operation::Publish { tenant, origin, message } => {
            lemma_publish_steady(b, limits, now, tenant, origin, message);
        },
        Operation::ChangeExpiry { key, generation, interval } => {
            lemma_expiry_change_steady(b, limits, key, generation, interval);
        },
        Operation::Accept { key, generation, id, message } => {
            lemma_accept_inbound_steady(b, limits, key, generation, id, message);
        },
        Operation::Retransmit { key, generation, id } => {
            lemma_retransmission_steady(b, limits, key, generation, id);
        },
        Operation::LeaveWindow { key, generation, id } => {
            lemma_window_left_steady(b, limits, key, generation, id);
        },
        Operation::BeginDelivery { key, generation, id } => {
            lemma_begin_delivery_steady(b, limits, key, generation, id);
        },
        Operation::FinishDelivery { key, incarnation, id, operation } => {
            lemma_finish_delivery_steady(b, limits, key, incarnation, id, operation);
        },
        Operation::AbandonDelivery { key, incarnation, id, operation } => {
            lemma_finish_delivery_steady(b, limits, key, incarnation, id, operation);
        },
        Operation::CompleteInbound { key, generation, id } => {
            lemma_complete_inbound_steady(b, limits, now, key, generation, id);
        },
        Operation::RouteInbound { key, incarnation, id, operation, tenant } => {
            lemma_route_inbound_steady(
                b,
                limits,
                now,
                key,
                incarnation,
                id,
                operation,
                tenant,
            );
        },
        Operation::CompleteOutbound { key, generation, id, ack } => {
            lemma_complete_outbound_steady(b, limits, now, key, generation, id, ack);
        },
        Operation::ReceivePubrec { key, generation, id } => {
            lemma_receive_pubrec_steady(b, limits, key, generation, id);
        },
        Operation::RejectPubrec { key, generation, id } => {
            lemma_complete_outbound_steady(
                b,
                limits,
                now,
                key,
                generation,
                id,
                OutboundAck::Puback,
            );
        },
        Operation::BeginTransfer { key, generation, id, message } => {
            lemma_transfer_steady(b, limits, now, key, generation, id, message);
        },
        Operation::Discard { key, generation, id, message } => {
            lemma_transfer_steady(b, limits, now, key, generation, id, message);
        },
        Operation::SendCommand { key, generation, message } => {
            lemma_send_command_steady(b, limits, now, key, generation, message);
        },
        Operation::Pull { key, generation } => {
            lemma_pull_steady(b, limits, now, key, generation);
        },
        Operation::TakeFrame { receiver } => {
            lemma_queue_steady(b, limits, receiver, 0);
        },
        Operation::FrameWritten { receiver, charge } => {
            lemma_queue_steady(b, limits, receiver, charge);
        },
        Operation::Shut { receiver } => {
            lemma_queue_steady(b, limits, receiver, 0);
        },
        Operation::HoldWill { owner, origin, message } => {
            lemma_hold_will_steady(b, limits, owner, origin, message);
        },
        Operation::ArmWill { token } => {
            lemma_steady_refl(b, limits);
            if let Some(k) = guard_at(b, token) {
                lemma_guard_steady(b, limits, token, GuardView { armed: true, ..b.guards[k] });
            }
        },
        Operation::DelayWill { token, delay, message_expiry } => {
            lemma_steady_refl(b, limits);
            if let Some(k) = guard_at(b, token) {
                let g = b.guards[k];
                lemma_guard_steady(
                    b,
                    limits,
                    token,
                    GuardView {
                        armed: true,
                        delay: Some(delay),
                        will: WillView { message_expiry_interval: message_expiry, ..g.will },
                        ..g
                    },
                );
            }
        },
        Operation::ProlongWill { token, interval } => {
            lemma_steady_refl(b, limits);
            if let Some(k) = guard_at(b, token) {
                let g = b.guards[k];
                if let Some(d) = g.delay {
                    lemma_guard_steady(
                        b,
                        limits,
                        token,
                        GuardView {
                            delay: Some(DelayView { session_expiry: interval, ..d }),
                            ..g
                        },
                    );
                }
            }
        },
        Operation::SuppressWill { token } => {
            lemma_without_guard_steady(b, limits, token);
        },
        Operation::SettleWill { token } => {
            lemma_settle_will_steady(b, limits, now, token);
        },
        Operation::CloseWill { token } => {
            lemma_close_will_steady(b, limits, now, token);
        },
        Operation::RetryWills { budget } => {
            lemma_retry_wills_steady(b, limits, now, budget);
        },
        Operation::PromoteWills { budget } => {
            lemma_promote_due_steady(b, limits, now, budget);
        },
        _ => {},
    }
}

/// Whatever is asked of the broker, everything still fits together afterwards: there is one
/// session for each key and at most one connection for each session, the trie says what the
/// sessions say, the indexes of what expires are exact, and the sessions, their subscriptions and
/// what waits for connections are within the bounds.
pub proof fn law_every_operation_stays_tidy(
    b: BrokerView,
    limits: Limits,
    now: i64,
    operation: Operation,
)
    requires
        tidy(b, limits),
    ensures
        tidy(after(b, limits, now, operation), limits),
{
    match operation {
        Operation::Attach { key, profile, auth } => {
            lemma_attach_tidy(b, limits, now, key, profile, auth);
        },
        Operation::Detach { key, generation, clean_session } => {
            lemma_detach_tidy(b, limits, now, key, generation, clean_session);
        },
        Operation::Subscribe { key, generation, filter, subscription } => {
            lemma_subscribe_tidy(b, limits, now, key, generation, filter, subscription);
        },
        Operation::Unsubscribe { key, generation, filter } => {
            lemma_unsubscribe_tidy(b, limits, now, key, generation, filter);
        },
        Operation::Forget { receiver } => {
            lemma_forgotten_tidy(b, limits, receiver);
        },
        Operation::Maintain => {
            lemma_maintained_tidy(b, limits, now);
        },
        Operation::Tick => {
            lemma_ticked_tidy(b, limits, now);
        },
        Operation::Invalidate { invalidation } => {
            lemma_invalidated_tidy(b, limits, now, invalidation);
        },
        _ => {
            lemma_after_steady(b, limits, now, operation);
            lemma_steady_tidy(b, after(b, limits, now, operation), limits);
        },
    }
}

/// The broker after a history of operations, each at its time.
pub open spec fn run(b: BrokerView, limits: Limits, history: Seq<(i64, Operation)>) -> BrokerView
    decreases history.len(),
{
    if history.len() == 0 {
        b
    } else {
        after(
            run(b, limits, history.drop_last()),
            limits,
            history.last().0,
            history.last().1,
        )
    }
}

/// Everything fits together in every state that a broker comes to, from its making on or from
/// any state in which it did.
pub proof fn law_every_state_is_tidy(
    b: BrokerView,
    limits: Limits,
    history: Seq<(i64, Operation)>,
)
    requires
        tidy(b, limits),
    ensures
        tidy(run(b, limits, history), limits),
    decreases history.len(),
{
    if history.len() > 0 {
        law_every_state_is_tidy(b, limits, history.drop_last());
        law_every_operation_stays_tidy(
            run(b, limits, history.drop_last()),
            limits,
            history.last().0,
            history.last().1,
        );
    }
}

/// What the bounds allow is not exceeded: sessions and their bytes, of all and of each tenant;
/// exchanges in flight of each tenant and of each session; subscriptions, messages that wait for
/// their subscribers and the bytes of these, of all and of each session; frames and bytes that
/// wait for each connection, and bytes that wait for the connections of each tenant and of all;
/// retained messages and their bytes, and wills, of all and of each tenant.
pub proof fn law_nothing_outgrows_its_bound(b: BrokerView, limits: Limits)
    requires
        tidy(b, limits),
    ensures
        b.sessions.len() <= limits.max_persistent_sessions,
        forall|tenant: Seq<char>|
            tenant_within(#[trigger] tenant_usage(b.sessions, tenant), limits),
        total_usage(b.sessions).subscriptions <= limits.max_subscriptions,
        total_usage(b.sessions).offline_count <= limits.max_offline_messages,
        total_usage(b.sessions).offline_bytes <= limits.max_offline_bytes,
        total_usage(b.sessions).state_bytes <= limits.global_mqtt_session_bytes,
        forall|i: int|
            0 <= i < b.sessions.len() ==> share_within(#[trigger] b.sessions[i], limits),
        forall|j: int|
            0 <= j < b.links.len() ==> (#[trigger] b.links[j]).queue.len()
                <= limits.max_outbound_messages_per_connection && b.links[j].used
                <= limits.max_outbound_bytes_per_connection,
        forall|tenant: Seq<char>| #[trigger]
            outbound_used(b, Some(tenant)) <= limits.max_outbound_bytes_per_tenant,
        outbound_used(b, None) <= limits.max_outbound_bytes,
        b.retained.len() <= limits.max_retained_messages,
        retained_bytes(b, None) <= limits.max_retained_bytes,
        forall|tenant: Seq<char>| #[trigger]
            retained_count(b, Some(tenant)) <= limits.max_retained_messages_per_tenant,
        forall|tenant: Seq<char>| #[trigger]
            retained_bytes(b, Some(tenant)) <= limits.max_retained_bytes_per_tenant,
        will_count(b, None) <= limits.max_connections,
        forall|tenant: Seq<char>| #[trigger]
            will_count(b, Some(tenant)) <= limits.max_connections_per_tenant,
{
    reveal(answered_within);
    assert forall|tenant: Seq<char>| #[trigger]
        will_count(b, Some(tenant)) <= limits.max_connections_per_tenant by {
        assert(answered(b.pending_wills, b.future_wills, b.guards, Some(tenant))
            <= limits.max_connections_per_tenant);
    }
    reveal(retained_shares_within);
    reveal(retained_numbers_within);
    assert forall|tenant: Seq<char>| #[trigger]
        retained_count(b, Some(tenant)) <= limits.max_retained_messages_per_tenant by {
        assert(claims_bytes(slots(b), Some(tenant)) + taken_bytes(slots(b), Some(tenant))
            <= limits.max_retained_bytes_per_tenant);
    }
    assert forall|tenant: Seq<char>| #[trigger]
        retained_bytes(b, Some(tenant)) <= limits.max_retained_bytes_per_tenant by {
        assert(claims_bytes(slots(b), Some(tenant)) + taken_bytes(slots(b), Some(tenant))
            <= limits.max_retained_bytes_per_tenant);
    }
    reveal(shares_within);
    reveal(numbers_within);
    reveal(frames_within);
    assert forall|tenant: Seq<char>| #[trigger]
        outbound_used(b, Some(tenant)) <= limits.max_outbound_bytes_per_tenant by {
        assert(total(b.links, link_used(Some(tenant))) <= limits.max_outbound_bytes_per_tenant);
    }
}

/// A topic reaches a session through the filters that the session has subscribed to and that
/// match, and through nothing else: the session is found if and only if there is one, with the
/// best quality of service among them. A session that waits for its authorization is not found
/// through what was restored with it.
pub proof fn law_topic_finds_its_subscribers(
    b: BrokerView,
    limits: Limits,
    topic: Seq<char>,
    key: KeyView,
)
    requires
        tidy(b, limits),
        plain(levels(topic)),
    ensures
        distinct(trie_matching(b.trie, topic), entry_key()),
        lookup(trie_matching(b.trie, topic), key) matches Some(found) ==> exists|
            filter: Seq<char>,
        | #[trigger]
            matches_spec(filter, topic) && (filter_of(b, key, filter) matches Some(s) && s.qos
                == found.qos),
        entitled(b, key) ==> forall|filter: Seq<char>| #[trigger]
            matches_spec(filter, topic) && filter_of(b, key, filter) is Some ==> (lookup(
                trie_matching(b.trie, topic),
                key,
            ) matches Some(found) && filter_of(b, key, filter)->0.qos <= found.qos),
{
    reveal(trie_tidy);
    law_matching(b.trie, topic, key);
    let path = levels(topic);
    let hidden = begins_with_dollar(topic);
    let more = hits(b.trie, path, hidden, key);
    if let Some(found) = lookup(trie_matching(b.trie, topic), key) {
        let s = choose|s: Subscription| #[trigger] more.contains(s) && s.qos == found.qos;
        assert(more.contains(s) && s.qos == found.qos);
        let at = choose|at: Seq<Seq<char>>| #[trigger]
            subscribed(b.trie, at, key) == Some(s) && reaches(at, path, hidden);
        assert(subscribed(b.trie, at, key) == Some(s) && reaches(at, path, hidden));
        assert(spelled(at));
        let filter = choose|filter: Seq<char>| at == #[trigger] levels(filter);
        assert(reaches(levels(filter), path, hidden));
        assert(matches_spec(filter, topic));
        assert(filed(b, key, filter));
    }
    if entitled(b, key) {
        assert forall|filter: Seq<char>| #[trigger]
            matches_spec(filter, topic) && filter_of(b, key, filter) is Some implies (lookup(
            trie_matching(b.trie, topic),
            key,
        ) matches Some(found) && filter_of(b, key, filter)->0.qos <= found.qos) by {
            let s = filter_of(b, key, filter)->0;
            assert(filed(b, key, filter));
            assert(subscribed(b.trie, levels(filter), key) == Some(s));
            assert(reaches(levels(filter), path, hidden));
            assert(more.contains(s));
        }
    }
}

} // verus!
