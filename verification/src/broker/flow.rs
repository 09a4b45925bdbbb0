//! Messages on their way leave everything in its place.
use super::attach::next_generation;
use super::inbound::{
    abandon_delivery, accept_inbound, accept_new, begin_delivery, carried_on, complete_inbound,
    finish_delivery, held_inbound, retransmission, route_inbound, window_left, with_inbound,
    with_reservation, without_inbound,
};
use super::model::{
    active_at, drive, enqueue, entry_reserved_bytes, entry_reserved_count, finish_exchange,
    frame_fits, growth_allowed, guard_at, guard_is, in_scope, inflight, least, lemma_put_session,
    link_at, link_is, live_exchange, mark, next_unsent, promote, prune_messages, prune_retained,
    prune_session, prune_sessions, put_session, queue_offline, reindexed, reserve_retained,
    reserved, reserved_bytes, reserved_count, retained_allowed, retained_at, retained_bytes,
    retained_bytes_of, retained_charge, retained_count, retained_in, retained_is, sat_sub, sent,
    session_at, tenant_limit, touch_session, update_retained, will_charge, BrokerView, FrameView,
    GuardView, LinkView, RetainedView, WillView, HOT_MAINTENANCE_BUDGET,
};
use super::outbound::{
    begin_transfer, complete_outbound, discard, frame_exchange, pull, pull_next, receive_pubrec,
    reject_pubrec, send_command, with_exchange, without_exchange, OutboundAck,
};
use super::route::{
    deliver_first, deliver_one, plan_route, prune_before_route, prune_matching, route_message,
    routed, PlannedRouteMode, PlannedView,
};
use super::service::{publish, received, shut, written};
use super::slots::{
    claims_bytes, claims_count, claims_no_more, lemma_cancel_claims, lemma_claims_back,
    lemma_claims_of, lemma_entry_claims, lemma_first_claims, lemma_guard_claims, lemma_no_more_refl,
    lemma_no_more_trans, lemma_ready_claims, lemma_release_claims, lemma_session_claims,
    lemma_shrink_no_more, lemma_slots_kept, lemma_slots_reserved, lemma_will_more,
    retained_numbers_within, retained_shares_within, slots, slots_stay, taken_bytes, taken_count,
    unclaimed, SlotsView,
};
use super::tidy::{
    exact_but, fits, guards_tidy, indexed, lemma_drive_steady, lemma_guard_steady, lemma_guards,
    lemma_link_steady, lemma_mark_steady, lemma_next_unsent_steady, lemma_parts, lemma_positions,
    lemma_promote_steady, lemma_prune_session_steady, lemma_put, lemma_put_steady, lemma_reindexed,
    lemma_reserved_steady, lemma_same_books, lemma_sent_steady, lemma_steady_refl,
    lemma_steady_trans, lemma_touch_steady, lemma_wills_kept, may_promote, retained_deadline,
    retained_indexed, retained_tidy, same_books, same_outline, steady, steady_but_slots,
    steady_parts, topic_of,
};
use super::weight::{
    lemma_exchange_changed, lemma_exchange_less, lemma_exchange_more, lemma_received_changed,
    lemma_received_less, lemma_received_more, lemma_second_count, lemma_waiting_more,
};
use super::wills::{
    cancel_resumed, close_will, due_times, hold_will, promote_due, publish_held, ready, refreshed,
    release_delays, rest, resume_each, retried, retry_loop, retry_one, retry_wills, schedule,
    settle_will, take_owned, with_expiry, without_guard, WillSchedule,
};
use crate::codec::MqttVersion;
use crate::identity::{DeviceView, KeyView};
use crate::limits::Limits;
use crate::list::{
    count, distinct, is_first, lemma_count_total, lemma_distinct_push, lemma_distinct_remove,
    lemma_distinct_update, lemma_first, lemma_first_is, lemma_first_none, lemma_total_push,
    lemma_total_remove, lemma_total_update, one_if, total,
};
use crate::message::{charge_of, MessageView};
use crate::session::{
    fresh_exchange, id_after, inbound_is, next_free, no_reservation, outbound_at, outbound_capacity,
    outbound_is, pruned, InboundStage, InboundView, OutboundStage, OutboundView, SessionView,
    Subscription,
};
use crate::table::{
    due_at, entry_key, law_due_when_passed, law_one_value_per_key, lookup, with_entry,
};
use crate::trie::trie_matching;
use crate::usage::ledger_of;
use super::carry::{lemma_deliver_first, lemma_route_sound, lemma_sound_elsewhere};
use super::turnover::lemma_retained_same;
use super::restore::restored_message;
use super::answers::{
    lemma_cancel_answers, lemma_first_answers, lemma_guard_answers, lemma_one_more_answered,
    lemma_ready_answers, lemma_release_answers, lemma_retried_answers, lemma_taken_answers,
};
use super::law::law_routing_keeps_the_wills;
use vstd::prelude::*;

verus! {

/// A step that leaves the sessions and connections and what is said of them alone.
proof fn lemma_retained_only(b: BrokerView, next: BrokerView, limits: Limits)
    requires
        next.sessions == b.sessions,
        next.links == b.links,
        next.trie == b.trie,
        next.session_expiry == b.session_expiry,
        next.message_expiry == b.message_expiry,
        next.guards == b.guards,
        next.next_guard == b.next_guard,
        retained_tidy(b) ==> retained_tidy(next),
        retained_shares_within(slots(b), limits) ==> retained_shares_within(slots(next), limits),
    ensures
        steady_parts(b, next, limits),
        next.shadowed == b.shadowed && (retained_numbers_within(slots(b), limits)
            ==> retained_numbers_within(slots(next), limits)) && next.pending_wills
            == b.pending_wills && next.future_wills == b.future_wills ==> steady(b, next, limits),
{
    reveal(same_outline);
    if exact_but(b, limits, None) {
        reveal(exact_but);
        assert forall|key: KeyView| #[trigger] indexed(next, limits, key) by {
            assert(indexed(b, limits, key));
        }
    }
}

/// The retained message of one topic changed, and its deadline with it.
proof fn lemma_update_retained_tidy(
    b: BrokerView,
    tenant: Seq<char>,
    origin: Option<KeyView>,
    message: MessageView,
)
    requires
        retained_tidy(b),
    ensures
        retained_tidy(update_retained(b, tenant, origin, message)),
{
    reveal(retained_tidy);
    let next = update_retained(b, tenant, origin, message);
    let topic = message.topic;
    let p = retained_is(topic);
    let entry = RetainedView { tenant, message, origin };
    lemma_first(b.retained, p);
    match retained_at(b, topic) {
        Some(i) => {
            lemma_distinct_remove(b.retained, i, topic_of());
            lemma_distinct_update(b.retained, i, entry, topic_of());
        },
        None => {
            assert forall|k: int| 0 <= k < b.retained.len() implies topic_of()(
                #[trigger] b.retained[k],
            ) != topic_of()(entry) by {
                assert(!p(b.retained[k]));
            }
            lemma_distinct_push(b.retained, entry, topic_of());
        },
    }
    assert(distinct(next.retained, topic_of()));
    let deadline = if message.payload.len() == 0 {
        None
    } else {
        message.properties.expires_at_ms
    };
    law_one_value_per_key(b.retained_expiry, topic, deadline, topic);
    assert forall|other: Seq<char>| #[trigger] retained_indexed(next, other) by {
        law_one_value_per_key(b.retained_expiry, topic, deadline, other);
        assert(retained_indexed(b, other));
        lemma_retained_moved(b, next, other, topic);
        if other == topic {
            if message.payload.len() == 0 {
                lemma_retained_gone(b, next, topic);
            } else {
                lemma_retained_there(b, next, topic, entry);
            }
        }
    }
}

proof fn lemma_retained_gone(b: BrokerView, next: BrokerView, topic: Seq<char>)
    requires
        distinct(b.retained, topic_of()),
        next.retained == match retained_at(b, topic) {
            Some(i) => b.retained.remove(i),
            None => b.retained,
        },
    ensures
        retained_at(next, topic) is None,
{
    let p = retained_is(topic);
    lemma_first(b.retained, p);
    if let Some(i) = retained_at(b, topic) {
        lemma_distinct_remove(b.retained, i, topic_of());
        assert forall|k: int| 0 <= k < next.retained.len() implies !p(
            #[trigger] next.retained[k],
        ) by {
            assert(topic_of()(b.retained.remove(i)[k]) != topic_of()(b.retained[i]));
        }
        lemma_first_none(next.retained, p);
    }
}

proof fn lemma_retained_there(b: BrokerView, next: BrokerView, topic: Seq<char>, entry: RetainedView)
    requires
        entry.message.topic == topic,
        next.retained == match retained_at(b, topic) {
            Some(i) => b.retained.update(i, entry),
            None => b.retained.push(entry),
        },
    ensures
        retained_at(next, topic) matches Some(i) && next.retained[i] == entry,
{
    let p = retained_is(topic);
    lemma_first(b.retained, p);
    match retained_at(b, topic) {
        Some(i) => {
            assert forall|k: int| 0 <= k < i implies !p(#[trigger] next.retained[k]) by {
                assert(!p(b.retained[k]));
            }
            assert(is_first(next.retained, p, i));
            lemma_first_is(next.retained, p, i);
        },
        None => {
            let i = b.retained.len() as int;
            assert forall|k: int| 0 <= k < i implies !p(#[trigger] next.retained[k]) by {
                assert(!p(b.retained[k]));
            }
            assert(is_first(next.retained, p, i));
            lemma_first_is(next.retained, p, i);
        },
    }
}

/// Other topics keep their retained message.
proof fn lemma_retained_moved(b: BrokerView, next: BrokerView, other: Seq<char>, topic: Seq<char>)
    requires
        match retained_at(b, topic) {
            Some(i) => next.retained == b.retained.remove(i) || (next.retained.len()
                == b.retained.len() && next.retained == b.retained.update(i, next.retained[i])
                && next.retained[i].message.topic == topic),
            None => next.retained == b.retained || (next.retained.len() == b.retained.len() + 1
                && next.retained == b.retained.push(next.retained[b.retained.len() as int])
                && next.retained[b.retained.len() as int].message.topic == topic),
        },
    ensures
        other != topic ==> retained_deadline(next, other) == retained_deadline(b, other),
{
    if other != topic {
        let p = retained_is(other);
        let q = retained_is(topic);
        lemma_first(b.retained, p);
        lemma_first(b.retained, q);
        match (retained_at(b, topic), retained_at(b, other)) {
            (Some(i), Some(k)) => {
                if next.retained == b.retained.remove(i) {
                    let at = if k < i {
                        k
                    } else {
                        k - 1
                    };
                    assert(next.retained[at] == b.retained[k]);
                    assert forall|m: int| 0 <= m < at implies !p(#[trigger] next.retained[m]) by {
                        let from = if m < i {
                            m
                        } else {
                            m + 1
                        };
                        assert(next.retained[m] == b.retained[from]);
                        assert(!p(b.retained[from]));
                    }
                    assert(is_first(next.retained, p, at));
                    lemma_first_is(next.retained, p, at);
                } else {
                    assert forall|m: int| 0 <= m < k implies !p(#[trigger] next.retained[m]) by {
                        assert(!p(b.retained[m]));
                    }
                    assert(is_first(next.retained, p, k));
                    lemma_first_is(next.retained, p, k);
                }
            },
            (Some(i), None) => {
                assert forall|m: int| 0 <= m < next.retained.len() implies !p(
                    #[trigger] next.retained[m],
                ) by {
                    if next.retained == b.retained.remove(i) {
                        let from = if m < i {
                            m
                        } else {
                            m + 1
                        };
                        assert(next.retained[m] == b.retained[from]);
                        assert(!p(b.retained[from]));
                    } else {
                        assert(!p(b.retained[m]));
                    }
                }
                lemma_first_none(next.retained, p);
            },
            (None, Some(k)) => {
                assert forall|m: int| 0 <= m < k implies !p(#[trigger] next.retained[m]) by {
                    assert(!p(b.retained[m]));
                }
                assert(next.retained[k] == b.retained[k]);
                assert(is_first(next.retained, p, k));
                lemma_first_is(next.retained, p, k);
            },
            (None, None) => {
                assert forall|m: int| 0 <= m < next.retained.len() implies !p(
                    #[trigger] next.retained[m],
                ) by {
                    if m < b.retained.len() {
                        assert(!p(b.retained[m]));
                    }
                }
                lemma_first_none(next.retained, p);
            },
        }
    }
}

/// Whether a retained message fits beside the others of its tenant and what is set aside for it.
pub open spec fn retained_share_fits(
    b: BrokerView,
    limits: Limits,
    tenant: Seq<char>,
    origin: Option<KeyView>,
    message: MessageView,
) -> bool {
    let existing = retained_at(b, message.topic);
    let own = existing matches Some(i) && b.retained[i].tenant == tenant;
    let old_bytes = if own {
        retained_charge(b.retained[existing->0].message, b.retained[existing->0].origin)
    } else {
        0
    };
    ||| message.payload.len() == 0
    ||| {
        &&& own || retained_count(b, Some(tenant)) + reserved_count(b, Some(tenant))
            < limits.max_retained_messages_per_tenant
        &&& retained_bytes(b, Some(tenant)) - old_bytes + retained_charge(message, origin)
            + reserved_bytes(b, Some(tenant)) <= limits.max_retained_bytes_per_tenant
    }
}

proof fn lemma_retained_sums(
    b: BrokerView,
    tenant: Seq<char>,
    origin: Option<KeyView>,
    message: MessageView,
    scope: Option<Seq<char>>,
)
    ensures
        ({
            let next = update_retained(b, tenant, origin, message);
            let gone = match retained_at(b, message.topic) {
                Some(i) => in_scope(scope, b.retained[i].tenant),
                None => false,
            };
            let come = message.payload.len() > 0 && in_scope(scope, tenant);
            &&& retained_count(next, scope) + (if gone {
                1nat
            } else {
                0nat
            }) == retained_count(b, scope) + (if come {
                1nat
            } else {
                0nat
            })
            &&& retained_bytes(next, scope) + (if gone {
                retained_charge(
                    b.retained[retained_at(b, message.topic)->0].message,
                    b.retained[retained_at(b, message.topic)->0].origin,
                )
            } else {
                0nat
            }) == retained_bytes(b, scope) + (if come {
                retained_charge(message, origin)
            } else {
                0nat
            })
            &&& next.retained.len() <= b.retained.len() + 1
            &&& retained_at(b, message.topic) is Some ==> next.retained.len() <= b.retained.len()
        }),
{
    let next = update_retained(b, tenant, origin, message);
    let entry = RetainedView { tenant, message, origin };
    let f = retained_bytes_of(scope);
    let p = retained_in(scope);
    lemma_first(b.retained, retained_is(message.topic));
    lemma_count_total(b.retained, p);
    lemma_count_total(next.retained, p);
    match retained_at(b, message.topic) {
        Some(i) => {
            lemma_total_remove(b.retained, i, f);
            lemma_total_remove(b.retained, i, one_if(p));
            lemma_total_update(b.retained, i, entry, f);
            lemma_total_update(b.retained, i, entry, one_if(p));
        },
        None => {
            lemma_total_push(b.retained, entry, f);
            lemma_total_push(b.retained, entry, one_if(p));
        },
    }
}

/// A retained message that fits beside the others of its tenant.
pub proof fn lemma_update_retained_parts(
    b: BrokerView,
    limits: Limits,
    tenant: Seq<char>,
    origin: Option<KeyView>,
    message: MessageView,
)
    requires
        retained_share_fits(b, limits, tenant, origin, message),
    ensures
        steady_parts(b, update_retained(b, tenant, origin, message), limits),
        retained_allowed(b, limits, tenant, origin, message) ==> steady(
            b,
            update_retained(b, tenant, origin, message),
            limits,
        ),
        update_retained(b, tenant, origin, message).retained.len() <= b.retained.len() + 1,
{
    let next = update_retained(b, tenant, origin, message);
    if retained_tidy(b) {
        lemma_update_retained_tidy(b, tenant, origin, message);
    }
    let v = slots(b);
    let w = slots(next);
    lemma_retained_sums(b, tenant, origin, message, None);
    lemma_claims_of(b, None);
    if retained_shares_within(v, limits) {
        reveal(retained_shares_within);
        assert forall|other: Seq<char>| #[trigger]
            claims_bytes(w, Some(other)) + taken_bytes(w, Some(other))
                <= limits.max_retained_bytes_per_tenant && claims_count(w, Some(other))
                + taken_count(w, Some(other)) <= limits.max_retained_messages_per_tenant by {
            lemma_retained_sums(b, tenant, origin, message, Some(other));
            lemma_claims_of(b, Some(other));
            assert(claims_bytes(w, Some(other)) == claims_bytes(v, Some(other)));
            assert(claims_count(w, Some(other)) == claims_count(v, Some(other)));
            assert(claims_bytes(v, Some(other)) + taken_bytes(v, Some(other))
                <= limits.max_retained_bytes_per_tenant);
        }
        assert(retained_shares_within(w, limits));
    }
    lemma_retained_only(b, next, limits);
    if retained_allowed(b, limits, tenant, origin, message) {
        assert(claims_bytes(w, None) == claims_bytes(v, None));
        assert(claims_count(w, None) == claims_count(v, None));
        reveal(retained_numbers_within);
    }
}

/// A retained message that may be replaced or added.
pub proof fn lemma_update_retained_steady(
    b: BrokerView,
    limits: Limits,
    tenant: Seq<char>,
    origin: Option<KeyView>,
    message: MessageView,
)
    requires
        retained_allowed(b, limits, tenant, origin, message),
    ensures
        steady(b, update_retained(b, tenant, origin, message), limits),
{
    lemma_update_retained_parts(b, limits, tenant, origin, message);
}

/// A restored message, while nothing is set aside. What it replaces is still counted, so it has
/// to fit beside that too.
pub proof fn lemma_restored_message_parts(b: BrokerView, limits: Limits, r: RetainedView)
    requires
        unclaimed(slots(b)),
        r.message.payload.len() > 0,
        retained_count(b, Some(r.tenant)) < limits.max_retained_messages_per_tenant,
        retained_bytes(b, Some(r.tenant)) + retained_charge(r.message, r.origin)
            <= limits.max_retained_bytes_per_tenant,
    ensures
        steady_parts(b, restored_message(b, r), limits),
        unclaimed(slots(restored_message(b, r))),
        restored_message(b, r).retained.len() <= b.retained.len() + 1,
{
    let updated = update_retained(b, r.tenant, r.origin, r.message);
    let next = restored_message(b, r);
    let v = slots(b);
    let w = slots(next);
    lemma_first(b.retained, retained_is(r.message.topic));
    lemma_retained_sums(b, r.tenant, r.origin, r.message, None);
    assert(retained_tidy(b) ==> retained_tidy(next)) by {
        if retained_tidy(b) {
            lemma_update_retained_tidy(b, r.tenant, r.origin, r.message);
            lemma_retained_same(updated, next);
        }
    }
    assert forall|scope: Option<Seq<char>>|
        #![trigger claims_count(w, scope)]
        #![trigger claims_bytes(w, scope)]
        claims_count(w, scope) == 0 && claims_bytes(w, scope) == 0 by {
        assert(claims_count(v, scope) == 0);
    }
    if retained_shares_within(v, limits) {
        reveal(retained_shares_within);
        assert forall|other: Seq<char>| #[trigger]
            claims_bytes(w, Some(other)) + taken_bytes(w, Some(other))
                <= limits.max_retained_bytes_per_tenant && claims_count(w, Some(other))
                + taken_count(w, Some(other)) <= limits.max_retained_messages_per_tenant by {
            let scope = Some(other);
            lemma_retained_sums(b, r.tenant, r.origin, r.message, scope);
            lemma_shadowed_sums(b, r, scope);
            assert(claims_bytes(v, scope) + taken_bytes(v, scope)
                <= limits.max_retained_bytes_per_tenant);
            assert(claims_count(w, scope) == 0);
        }
        assert(retained_shares_within(w, limits));
    }
    lemma_retained_only(b, next, limits);
}

/// What a restored message adds to the totals of those that are gone.
proof fn lemma_shadowed_sums(b: BrokerView, r: RetainedView, scope: Option<Seq<char>>)
    ensures
        ({
            let next = restored_message(b, r);
            let gone = match retained_at(b, r.message.topic) {
                Some(i) => in_scope(scope, b.retained[i].tenant),
                None => false,
            };
            let f = retained_bytes_of(scope);
            let p = retained_in(scope);
            &&& count(next.shadowed, p) == count(b.shadowed, p) + (if gone {
                1nat
            } else {
                0nat
            })
            &&& total(next.shadowed, f) == total(b.shadowed, f) + (if gone {
                retained_charge(
                    b.retained[retained_at(b, r.message.topic)->0].message,
                    b.retained[retained_at(b, r.message.topic)->0].origin,
                )
            } else {
                0nat
            })
        }),
{
    let f = retained_bytes_of(scope);
    let p = retained_in(scope);
    if let Some(i) = retained_at(b, r.message.topic) {
        let old = b.retained[i];
        lemma_total_push(b.shadowed, old, f);
        assert(b.shadowed.push(old).drop_last() =~= b.shadowed);
    }
}

proof fn lemma_retained_fewer(v: SlotsView, limits: Limits, i: int)
    requires
        0 <= i < v.retained.len(),
    ensures
        slots_stay(v, SlotsView { retained: v.retained.remove(i), ..v }, limits),
{
    let w = SlotsView { retained: v.retained.remove(i), ..v };
    lemma_total_remove(v.retained, i, retained_bytes_of(None));
    assert(claims_bytes(w, None) == claims_bytes(v, None));
    assert(claims_count(w, None) == claims_count(v, None));
    reveal(retained_numbers_within);
    if retained_shares_within(v, limits) {
        reveal(retained_shares_within);
        assert forall|other: Seq<char>| #[trigger]
            claims_bytes(w, Some(other)) + taken_bytes(w, Some(other))
                <= limits.max_retained_bytes_per_tenant && claims_count(w, Some(other))
                + taken_count(w, Some(other)) <= limits.max_retained_messages_per_tenant by {
            let p = retained_in(Some(other));
            lemma_count_total(v.retained, p);
            lemma_count_total(w.retained, p);
            lemma_total_remove(v.retained, i, retained_bytes_of(Some(other)));
            lemma_total_remove(v.retained, i, one_if(p));
            assert(claims_bytes(w, Some(other)) == claims_bytes(v, Some(other)));
            assert(claims_count(w, Some(other)) == claims_count(v, Some(other)));
            assert(claims_bytes(v, Some(other)) + taken_bytes(v, Some(other))
                <= limits.max_retained_bytes_per_tenant);
        }
        assert(retained_shares_within(w, limits));
    }
}

/// The expired retained messages, each with its entry in the index.
pub proof fn lemma_prune_retained_steady(b: BrokerView, limits: Limits, now: i64, budget: nat)
    ensures
        steady(b, prune_retained(b, now, budget), limits),
    decreases budget,
{
    lemma_steady_refl(b, limits);
    if budget > 0 {
        law_due_when_passed(b.retained_expiry, now);
        if let Some(k) = due_at(b.retained_expiry, now) {
            let topic = b.retained_expiry[k].0;
            let taken = BrokerView { retained_expiry: b.retained_expiry.remove(k), ..b };
            let next = match retained_at(taken, topic) {
                None => taken,
                Some(i) => if crate::message::expired_spec(taken.retained[i].message, now) {
                    BrokerView { retained: taken.retained.remove(i), ..taken }
                } else {
                    BrokerView {
                        retained_expiry: with_entry(
                            taken.retained_expiry,
                            topic,
                            taken.retained[i].message.properties.expires_at_ms,
                        ),
                        ..taken
                    }
                },
            };
            if retained_tidy(b) {
                lemma_prune_one_retained(b, taken, next, now, k);
            }
            lemma_first(taken.retained, retained_is(topic));
            if let Some(i) = retained_at(taken, topic) {
                lemma_retained_fewer(slots(taken), limits, i);
            }
            lemma_retained_only(b, next, limits);
            lemma_prune_retained_steady(next, limits, now, (budget - 1) as nat);
            lemma_steady_trans(
                b,
                next,
                prune_retained(next, now, (budget - 1) as nat),
                limits,
            );
        }
    }
}

proof fn lemma_prune_one_retained(
    b: BrokerView,
    taken: BrokerView,
    next: BrokerView,
    now: i64,
    k: int,
)
    requires
        retained_tidy(b),
        0 <= k < b.retained_expiry.len(),
        taken == (BrokerView { retained_expiry: b.retained_expiry.remove(k), ..b }),
        ({
            let topic = b.retained_expiry[k].0;
            next == match retained_at(taken, topic) {
                None => taken,
                Some(i) => if crate::message::expired_spec(taken.retained[i].message, now) {
                    BrokerView { retained: taken.retained.remove(i), ..taken }
                } else {
                    BrokerView {
                        retained_expiry: with_entry(
                            taken.retained_expiry,
                            topic,
                            taken.retained[i].message.properties.expires_at_ms,
                        ),
                        ..taken
                    }
                },
            }
        }),
    ensures
        retained_tidy(next),
{
    reveal(retained_tidy);
    let topic = b.retained_expiry[k].0;
    lemma_removed_entry(b.retained_expiry, k, topic);
    lemma_first(b.retained, retained_is(topic));
    if let Some(i) = retained_at(b, topic) {
        lemma_distinct_remove(b.retained, i, topic_of());
    }
    assert forall|other: Seq<char>| #[trigger] retained_indexed(next, other) by {
        assert(retained_indexed(b, other));
        assert(retained_indexed(b, topic));
        lemma_removed_entry(b.retained_expiry, k, other);
        if let Some(i) = retained_at(b, topic) {
            let deadline = b.retained[i].message.properties.expires_at_ms;
            law_one_value_per_key(taken.retained_expiry, topic, deadline, other);
            if crate::message::expired_spec(b.retained[i].message, now) {
                lemma_retained_moved(b, next, other, topic);
                lemma_retained_gone(b, next, topic);
            }
        }
    }
    if let Some(i) = retained_at(b, topic) {
        law_one_value_per_key(
            taken.retained_expiry,
            topic,
            b.retained[i].message.properties.expires_at_ms,
            topic,
        );
    }
}

/// Taking an entry out takes the value of its key away, and of no other.
pub proof fn lemma_removed_entry<V, X>(s: Seq<(V, X)>, k: int, other: V)
    requires
        0 <= k < s.len(),
        distinct(s, entry_key()),
    ensures
        distinct(s.remove(k), entry_key()),
        lookup(s.remove(k), other) == if other == s[k].0 {
            None
        } else {
            lookup(s, other)
        },
        lookup(s, s[k].0) == Some(s[k].1),
{
    let key = s[k].0;
    let p = crate::table::entry_is::<V, X>(key);
    assert(is_first(s, p, k)) by {
        assert forall|m: int| 0 <= m < k implies !p(#[trigger] s[m]) by {
            assert(entry_key::<V, X>()(s[m]) != entry_key::<V, X>()(s[k]));
        }
    }
    lemma_first_is(s, p, k);
    law_one_value_per_key(s, key, None::<X>, other);
    law_one_value_per_key(s, key, None::<X>, key);
}

/// The deadline of one session taken out of an index: only that session is out of order.
pub proof fn lemma_taken(b: BrokerView, taken: BrokerView, limits: Limits, key: KeyView)
    requires
        exact_but(b, limits, None),
        taken.sessions == b.sessions,
        taken.links == b.links,
        distinct(taken.session_expiry, entry_key()),
        distinct(taken.message_expiry, entry_key()),
        forall|other: KeyView|
            other != key ==> #[trigger] lookup(taken.session_expiry, other) == lookup(
                b.session_expiry,
                other,
            ),
        forall|other: KeyView|
            other != key ==> #[trigger] lookup(taken.message_expiry, other) == lookup(
                b.message_expiry,
                other,
            ),
    ensures
        exact_but(taken, limits, Some(key)),
{
    reveal(exact_but);
    assert forall|other: KeyView| Some(key) != Some(other) implies #[trigger] indexed(
        taken,
        limits,
        other,
    ) by {
        assert(indexed(b, limits, other));
    }
}

proof fn lemma_prune_one_session(b: BrokerView, limits: Limits, now: i64, k: int)
    requires
        0 <= k < b.message_expiry.len(),
    ensures
        steady(
            b,
            prune_session(
                BrokerView { message_expiry: b.message_expiry.remove(k), ..b },
                limits,
                b.message_expiry[k].0,
                now,
            ),
            limits,
        ),
{
    let key = b.message_expiry[k].0;
    let taken = BrokerView { message_expiry: b.message_expiry.remove(k), ..b };
    let next = prune_session(taken, limits, key, now);
    lemma_prune_session_steady(taken, limits, key, now);
    assert(same_outline(b, next)) by {
        reveal(same_outline);
    }
    lemma_parts(b, taken);
    if exact_but(b, limits, None) {
        assert(exact_but(taken, limits, Some(key))) by {
            assert(distinct(b.session_expiry, entry_key()) && distinct(
                b.message_expiry,
                entry_key(),
            )) by {
                reveal(exact_but);
            }
            assert forall|other: KeyView| other != key implies #[trigger] lookup(
                taken.message_expiry,
                other,
            ) == lookup(b.message_expiry, other) by {
                lemma_removed_entry(b.message_expiry, k, other);
            }
            lemma_removed_entry(b.message_expiry, k, key);
            lemma_taken(b, taken, limits, key);
        }
        assert(session_at(b, key) is Some) by {
            reveal(exact_but);
            assert(indexed(b, limits, key));
            lemma_removed_entry(b.message_expiry, k, key);
        }
        lemma_positions(taken, key);
        reveal(prune_session);
        let i = session_at(taken, key)->0;
        let s = pruned(taken.sessions[i], now);
        let put = put_session(taken, limits, i, s);
        lemma_put(taken, limits, i, s);
        lemma_mark_steady(put, limits, key);
    }
}

/// The sessions with expired messages, each with its entry in the index.
pub proof fn lemma_prune_sessions_steady(b: BrokerView, limits: Limits, now: i64, budget: nat)
    ensures
        steady(b, prune_sessions(b, limits, now, budget), limits),
    decreases budget,
{
    lemma_steady_refl(b, limits);
    if budget > 0 {
        law_due_when_passed(b.message_expiry, now);
        if let Some(k) = due_at(b.message_expiry, now) {
            let key = b.message_expiry[k].0;
            let taken = BrokerView { message_expiry: b.message_expiry.remove(k), ..b };
            let next = prune_session(taken, limits, key, now);
            lemma_prune_one_session(b, limits, now, k);
            lemma_prune_sessions_steady(next, limits, now, (budget - 1) as nat);
            lemma_steady_trans(
                b,
                next,
                prune_sessions(next, limits, now, (budget - 1) as nat),
                limits,
            );
        }
    }
}

pub proof fn lemma_prune_messages_steady(b: BrokerView, limits: Limits, now: i64, budget: nat)
    ensures
        steady(b, prune_messages(b, limits, now, budget), limits),
{
    let b1 = prune_sessions(b, limits, now, budget);
    lemma_prune_sessions_steady(b, limits, now, budget);
    lemma_prune_retained_steady(b1, limits, now, budget);
    lemma_steady_trans(b, b1, prune_retained(b1, now, budget), limits);
}

pub proof fn lemma_queue_offline_steady(
    b: BrokerView,
    limits: Limits,
    key: KeyView,
    message: MessageView,
)
    ensures
        steady(b, queue_offline(b, limits, key, message).0, limits),
{
    reveal(queue_offline);
    lemma_steady_refl(b, limits);
    lemma_positions(b, key);
    if let Some(i) = session_at(b, key) {
        let s = b.sessions[i];
        let next = put_session(
            b,
            limits,
            i,
            SessionView { offline: s.offline.push(message), ..s },
        );
        lemma_waiting_more(s, message);
        if queue_offline(b, limits, key, message).0 != b {
            lemma_put_steady(b, limits, i, SessionView { offline: s.offline.push(message), ..s });
            lemma_mark_steady(next, limits, key);
            lemma_steady_trans(b, next, mark(next, key), limits);
        }
    }
}

proof fn lemma_finish_exchange_steady(
    b: BrokerView,
    limits: Limits,
    i: int,
    j: int,
    id: u16,
    message: MessageView,
    command: bool,
)
    requires
        0 <= i < b.sessions.len(),
        0 <= j < b.links.len(),
        b.sessions[i].outbound.len() > 0,
    ensures
        steady(b, finish_exchange(b, limits, i, j, id, message, command).0, limits),
{
    reveal(finish_exchange);
    let frame = FrameView::Publish { message, packet_id: Some(id), dup: false, command };
    let next = sent(b, limits, j, frame);
    lemma_sent_steady(b, limits, j, frame);
    let s = b.sessions[i];
    let s1 = SessionView { outbound: s.outbound.remove(s.outbound.len() - 1), ..s };
    lemma_exchange_less(s, s.outbound.len() - 1);
    lemma_put_steady(next, limits, i, s1);
    lemma_steady_trans(b, next, put_session(next, limits, i, s1), limits);
}

proof fn lemma_live_exchange_steady(
    b: BrokerView,
    limits: Limits,
    i: int,
    j: int,
    message: MessageView,
    command: bool,
)
    requires
        0 <= i < b.sessions.len(),
        0 <= j < b.links.len(),
        frame_fits(b, limits, j, charge_of(message)),
        outbound_capacity(b.sessions[i], message.qos, limits),
        inflight(b, b.sessions[i].key.device.tenant, message.qos) < tenant_limit(
            limits,
            message.qos,
        ),
    ensures
        steady(b, live_exchange(b, limits, i, j, message, command).0, limits),
{
    reveal(live_exchange);
    lemma_steady_refl(b, limits);
    let s = b.sessions[i];
    let charge = charge_of(message);
    if let Some(id) = next_free(s) {
        let s1 = SessionView { next_packet_id: id_after(id), ..s };
        let b1 = touch_session(b, i, s1);
        lemma_touch_steady(b, limits, i, s1);
        let e = fresh_exchange(id, message, command);
        let s2 = SessionView { outbound: s1.outbound.push(e), ..s1 };
        let b2 = reserved(b1, j, charge);
        let b3 = put_session(b2, limits, i, s2);
        lemma_reserved_steady(b1, limits, j, charge);
        lemma_steady_trans(b, b1, b2, limits);
        if growth_allowed(b, limits, s, 0, 0, 0, charge) {
            lemma_exchange_more(s, s1.next_packet_id, e);
            lemma_second_count(s);
            assert(ledger_of(b2.sessions) =~= ledger_of(b.sessions));
            lemma_put_steady(b2, limits, i, s2);
            lemma_steady_trans(b, b2, b3, limits);
            lemma_put_session(b2, limits, i, s2);
            lemma_finish_exchange_steady(b3, limits, i, j, id, message, command);
            lemma_steady_trans(
                b,
                b3,
                finish_exchange(b3, limits, i, j, id, message, command).0,
                limits,
            );
        }
    }
}

pub proof fn lemma_enqueue_steady(
    b: BrokerView,
    limits: Limits,
    now: i64,
    key: KeyView,
    message: MessageView,
    command: bool,
)
    ensures
        steady(b, enqueue(b, limits, now, key, message, command).0, limits),
{
    reveal(enqueue);
    lemma_steady_refl(b, limits);
    lemma_positions(b, key);
    lemma_queue_offline_steady(b, limits, key, message);
    if let Some(j) = active_at(b, key) {
        let charge = charge_of(message);
        if frame_fits(b, limits, j, charge) {
            if let Some(i) = session_at(b, key) {
                if inflight(b, key.device.tenant, message.qos) < tenant_limit(
                    limits,
                    message.qos,
                ) && outbound_capacity(b.sessions[i], message.qos, limits) {
                    lemma_live_exchange_steady(b, limits, i, j, message, command);
                }
            }
            let frame = FrameView::Publish { message, packet_id: None, dup: false, command };
            let b1 = reserved(b, j, charge);
            lemma_reserved_steady(b, limits, j, charge);
            lemma_sent_steady(b1, limits, j, frame);
            lemma_steady_trans(b, b1, sent(b1, limits, j, frame), limits);
        }
    }
}

/// A session that a planned message has reached.
pub open spec fn with_planned(s: SessionView, message: MessageView, mode: PlannedRouteMode) -> SessionView {
    match (mode, next_free(s)) {
        (PlannedRouteMode::Offline, _) => SessionView { offline: s.offline.push(message), ..s },
        (PlannedRouteMode::Live, Some(id)) => SessionView {
            next_packet_id: id_after(id),
            outbound: s.outbound.push(fresh_exchange(id, message, false)),
            ..s
        },
        _ => s,
    }
}

pub proof fn lemma_deliver_one_steady(
    b: BrokerView,
    limits: Limits,
    message: MessageView,
    t: PlannedView,
)
    requires
        t.mode != PlannedRouteMode::Offline ==> (active_at(b, t.key) matches Some(j)
            ==> frame_fits(b, limits, j, charge_of(message))),
        session_at(b, t.key) matches Some(i) ==> fits(
            b.sessions,
            limits,
            i,
            with_planned(b.sessions[i], routed(message, t), t.mode),
        ),
    ensures
        steady(b, deliver_one(b, limits, message, t).0, limits),
{
    reveal(deliver_one);
    lemma_steady_refl(b, limits);
    lemma_positions(b, t.key);
    let m = routed(message, t);
    let charge = charge_of(message);
    match t.mode {
        PlannedRouteMode::Qos0 => {
            if let Some(j) = active_at(b, t.key) {
                let frame = FrameView::Publish {
                    message: m,
                    packet_id: None,
                    dup: false,
                    command: false,
                };
                let b1 = reserved(b, j, charge);
                lemma_reserved_steady(b, limits, j, charge);
                lemma_sent_steady(b1, limits, j, frame);
                lemma_steady_trans(b, b1, sent(b1, limits, j, frame), limits);
            }
        },
        PlannedRouteMode::Live => {
            if let (Some(i), Some(j)) = (session_at(b, t.key), active_at(b, t.key)) {
                let s = b.sessions[i];
                if let Some(id) = next_free(s) {
                    let s2 = SessionView {
                        next_packet_id: id_after(id),
                        outbound: s.outbound.push(fresh_exchange(id, m, false)),
                        ..s
                    };
                    let frame = FrameView::Publish {
                        message: m,
                        packet_id: Some(id),
                        dup: false,
                        command: false,
                    };
                    let b1 = put_session(b, limits, i, s2);
                    let b2 = reserved(b1, j, charge);
                    lemma_put_steady(b, limits, i, s2);
                    lemma_put_session(b, limits, i, s2);
                    lemma_reserved_steady(b1, limits, j, charge);
                    lemma_sent_steady(b2, limits, j, frame);
                    lemma_steady_trans(b, b1, b2, limits);
                    lemma_steady_trans(b, b2, sent(b2, limits, j, frame), limits);
                }
            }
        },
        PlannedRouteMode::Offline => {
            if let Some(i) = session_at(b, t.key) {
                let s = b.sessions[i];
                let s2 = SessionView { offline: s.offline.push(m), ..s };
                let b1 = put_session(b, limits, i, s2);
                lemma_put_steady(b, limits, i, s2);
                lemma_mark_steady(b1, limits, t.key);
                lemma_steady_trans(b, b1, mark(b1, t.key), limits);
            }
        },
    }
}

proof fn lemma_prune_matching_steady(
    b: BrokerView,
    limits: Limits,
    now: i64,
    matches: Seq<(KeyView, Subscription)>,
    n: nat,
)
    ensures
        steady(b, prune_matching(b, limits, now, matches, n), limits),
    decreases n,
{
    lemma_steady_refl(b, limits);
    if n > 0 {
        let before = prune_matching(b, limits, now, matches, (n - 1) as nat);
        lemma_prune_matching_steady(b, limits, now, matches, (n - 1) as nat);
        lemma_prune_session_steady(before, limits, matches[n - 1].0, now);
        lemma_steady_trans(
            b,
            before,
            prune_session(before, limits, matches[n - 1].0, now),
            limits,
        );
    }
}

pub proof fn lemma_prune_before_route_steady(
    b: BrokerView,
    limits: Limits,
    now: i64,
    topic: Seq<char>,
)
    ensures
        steady(b, prune_before_route(b, limits, now, topic), limits),
{
    lemma_steady_refl(b, limits);
    let matches = trie_matching(b.trie, topic);
    lemma_prune_matching_steady(b, limits, now, matches, matches.len());
}

pub proof fn lemma_route_message_steady(
    b: BrokerView,
    limits: Limits,
    now: i64,
    tenant: Seq<char>,
    origin: Option<KeyView>,
    message: MessageView,
)
    ensures
        steady(b, route_message(b, limits, now, tenant, origin, message).0, limits),
{
    reveal(route_message);
    lemma_steady_refl(b, limits);
    let b1 = prune_before_route(b, limits, now, message.topic);
    lemma_prune_before_route_steady(b, limits, now, message.topic);
    if let Ok(plan) = plan_route(b1, limits, tenant, origin, message) {
        lemma_route_sound(b1, limits, tenant, origin, message);
        let kept = update_retained(b1, tenant, origin, message);
        if message.retain {
            lemma_update_retained_steady(b1, limits, tenant, origin, message);
            lemma_steady_trans(b, b1, kept, limits);
        }
        let b2 = if message.retain {
            kept
        } else {
            b1
        };
        lemma_sound_elsewhere(b1, b2, limits, message, plan);
        lemma_deliver_first(b2, limits, message, plan, plan.len());
        lemma_steady_trans(
            b,
            b2,
            deliver_first(b2, limits, message, plan, plan.len()).0,
            limits,
        );
    }
}

/// Sessions without what has expired have set aside what they had.
proof fn lemma_prune_claims(
    b: BrokerView,
    limits: Limits,
    now: i64,
    matches: Seq<(KeyView, Subscription)>,
    n: nat,
)
    ensures
        claims_no_more(slots(b), slots(prune_matching(b, limits, now, matches, n))),
        prune_matching(b, limits, now, matches, n).retained == b.retained,
        prune_matching(b, limits, now, matches, n).shadowed == b.shadowed,
    decreases n,
{
    if n > 0 {
        let before = prune_matching(b, limits, now, matches, (n - 1) as nat);
        let key = matches[n - 1].0;
        let next = prune_session(before, limits, key, now);
        lemma_prune_claims(b, limits, now, matches, (n - 1) as nat);
        reveal(prune_session);
        lemma_positions(before, key);
        if let Some(i) = session_at(before, key) {
            let s = pruned(before.sessions[i], now);
            lemma_put_session(before, limits, i, s);
            lemma_session_claims(slots(before), slots(next), i, s);
            lemma_no_more_trans(slots(b), slots(before), slots(next));
        }
    }
}

pub proof fn lemma_prune_before_route_claims(
    b: BrokerView,
    limits: Limits,
    now: i64,
    topic: Seq<char>,
)
    ensures
        claims_no_more(slots(b), slots(prune_before_route(b, limits, now, topic))),
        prune_before_route(b, limits, now, topic).retained == b.retained,
        prune_before_route(b, limits, now, topic).shadowed == b.shadowed,
{
    let matches = trie_matching(b.trie, topic);
    lemma_prune_claims(b, limits, now, matches, matches.len());
}

/// A message that is refused changes nothing in the retained slots.
proof fn lemma_route_refused(
    b: BrokerView,
    limits: Limits,
    now: i64,
    tenant: Seq<char>,
    origin: Option<KeyView>,
    message: MessageView,
)
    ensures
        route_message(b, limits, now, tenant, origin, message).1 is Err ==> claims_no_more(
            slots(b),
            slots(route_message(b, limits, now, tenant, origin, message).0),
        ) && route_message(b, limits, now, tenant, origin, message).0.retained == b.retained
            && route_message(b, limits, now, tenant, origin, message).0.shadowed == b.shadowed,
{
    reveal(route_message);
    lemma_prune_before_route_claims(b, limits, now, message.topic);
}

pub proof fn lemma_publish_steady(
    b: BrokerView,
    limits: Limits,
    now: i64,
    tenant: Seq<char>,
    origin: Option<KeyView>,
    message: MessageView,
)
    ensures
        steady(b, publish(b, limits, now, tenant, origin, message).0, limits),
{
    reveal(publish);
    lemma_steady_refl(b, limits);
    let budget = HOT_MAINTENANCE_BUDGET as nat;
    let b1 = prune_messages(b, limits, now, budget);
    let next = route_message(b1, limits, now, tenant, origin, message).0;
    lemma_prune_messages_steady(b, limits, now, budget);
    lemma_route_message_steady(b1, limits, now, tenant, origin, message);
    lemma_steady_trans(b, b1, next, limits);
    lemma_drive_steady(next, limits, now);
    lemma_steady_trans(b, next, drive(next, limits, now).0, limits);
}

proof fn lemma_retry_one_steady(b: BrokerView, limits: Limits, now: i64)
    requires
        b.pending_wills.len() > 0,
    ensures
        steady(b, retry_one(b, limits, now).0, limits),
{
    reveal(retry_one);
    let w = refreshed(b.pending_wills[0], now);
    let bare = WillView { reservation: no_reservation(), ..w };
    let tenant = w.owner.tenant;
    let tried = BrokerView { pending_wills: b.pending_wills.update(0, bare), ..b };
    let (next, outcome) = route_message(tried, limits, now, tenant, w.origin, w.message);
    let last = retry_one(b, limits, now).0;
    lemma_first_claims(slots(b), bare);
    lemma_first_answers(b, bare);
    lemma_shrink_no_more(slots(b), slots(tried), tenant, w.reservation);
    lemma_same_books(b, tried, limits, None);
    lemma_route_message_steady(tried, limits, now, tenant, w.origin, w.message);
    law_routing_keeps_the_wills(tried, limits, now, tenant, w.origin, w.message);
    lemma_steady_trans(b, tried, next, limits);
    let left = BrokerView { pending_wills: rest(next.pending_wills), ..next };
    lemma_first_claims(
        slots(next),
        WillView { reservation: no_reservation(), ..next.pending_wills[0] },
    );
    lemma_first_answers(next, bare);
    lemma_same_books(next, left, limits, None);
    lemma_steady_trans(b, next, left, limits);
    if outcome is Err {
        lemma_route_refused(tried, limits, now, tenant, w.origin, w.message);
        lemma_no_more_trans(slots(tried), slots(next), slots(left));
        lemma_will_more(slots(left), w, GuardView { token: 0, will: w, delay: None, armed: false });
        lemma_claims_back(
            slots(b),
            slots(tried),
            slots(left),
            slots(last),
            tenant,
            w.reservation,
        );
        lemma_slots_kept(slots(b), slots(last), limits);
        lemma_retried_answers(b, last, bare, w);
        lemma_wills_kept(b, last, limits);
        lemma_same_books(left, last, limits, None);
        lemma_steady_trans(b, left, last, limits);
    }
}

proof fn lemma_retry_loop_steady(b: BrokerView, limits: Limits, now: i64, attempts: nat)
    ensures
        steady(b, retry_loop(b, limits, now, attempts).0, limits),
    decreases attempts,
{
    lemma_steady_refl(b, limits);
    if attempts > 0 && b.pending_wills.len() > 0 {
        let next = retry_one(b, limits, now).0;
        lemma_retry_one_steady(b, limits, now);
        lemma_retry_loop_steady(next, limits, now, (attempts - 1) as nat);
        lemma_steady_trans(
            b,
            next,
            retry_loop(next, limits, now, (attempts - 1) as nat).0,
            limits,
        );
    }
}

pub proof fn lemma_promote_due_steady(b: BrokerView, limits: Limits, now: i64, budget: nat)
    ensures
        steady(b, promote_due(b, now, budget), limits),
        same_books(b, promote_due(b, now, budget)),
    decreases budget,
{
    lemma_steady_refl(b, limits);
    if budget > 0 {
        if let Some(k) = due_at(due_times(b.future_wills), now) {
            let next = BrokerView {
                future_wills: b.future_wills.remove(k),
                pending_wills: b.pending_wills.push(ready(b.future_wills[k])),
                ..b
            };
            law_due_when_passed(due_times(b.future_wills), now);
            lemma_ready_claims(slots(b), k);
            lemma_ready_answers(b, k);
            lemma_same_books(b, next, limits, None);
            lemma_promote_due_steady(next, limits, now, (budget - 1) as nat);
            lemma_steady_trans(b, next, promote_due(b, now, budget), limits);
        }
    }
}

pub proof fn lemma_retry_wills_steady(b: BrokerView, limits: Limits, now: i64, budget: nat)
    ensures
        steady(b, retry_wills(b, limits, now, budget).0, limits),
{
    reveal(retry_wills);
    let b1 = promote_due(b, now, budget);
    let attempts = least(b1.pending_wills.len(), budget);
    lemma_promote_due_steady(b, limits, now, budget);
    lemma_retry_loop_steady(b1, limits, now, attempts);
    lemma_steady_trans(b, b1, retry_loop(b1, limits, now, attempts).0, limits);
}

pub proof fn lemma_carried_on_steady(b: BrokerView, limits: Limits, now: i64)
    ensures
        steady(b, carried_on(b, limits, now).0, limits),
{
    let next = drive(b, limits, now).0;
    lemma_drive_steady(b, limits, now);
    lemma_retry_wills_steady(next, limits, now, HOT_MAINTENANCE_BUDGET as nat);
    lemma_steady_trans(b, next, retried(next, limits, now), limits);
}

pub proof fn lemma_release_delays_steady(b: BrokerView, limits: Limits, key: KeyView)
    ensures
        steady(b, release_delays(b, key), limits),
{
    reveal(release_delays);
    lemma_release_claims(slots(b), key);
    lemma_release_answers(b, key);
    lemma_same_books(b, release_delays(b, key), limits, None);
}

proof fn lemma_resume_each_books(
    b: BrokerView,
    key: KeyView,
    incarnation: u64,
    now: i64,
    owned: Seq<WillView>,
    n: nat,
)
    ensures
        same_books(b, resume_each(b, key, incarnation, now, owned, n)),
        resume_each(b, key, incarnation, now, owned, n).guards == b.guards,
        resume_each(b, key, incarnation, now, owned, n).next_guard == b.next_guard,
    decreases n,
{
    if n > 0 {
        lemma_resume_each_books(b, key, incarnation, now, owned, (n - 1) as nat);
    }
}

pub proof fn lemma_cancel_resumed_steady(
    b: BrokerView,
    limits: Limits,
    key: KeyView,
    incarnation: u64,
    now: i64,
)
    ensures
        steady(b, cancel_resumed(b, key, incarnation, now), limits),
{
    reveal(cancel_resumed);
    let (left, owned) = take_owned(b.future_wills, key, b.future_wills.len());
    let b1 = BrokerView { future_wills: left, ..b };
    lemma_resume_each_books(b1, key, incarnation, now, owned, owned.len());
    lemma_cancel_claims(b, key, incarnation, now);
    lemma_cancel_answers(b, key, incarnation, now);
    lemma_same_books(b, cancel_resumed(b, key, incarnation, now), limits, None);
}

pub proof fn lemma_hold_will_steady(
    b: BrokerView,
    limits: Limits,
    owner: DeviceView,
    origin: Option<KeyView>,
    message: MessageView,
)
    ensures
        steady(b, hold_will(b, limits, owner, origin, message).0, limits),
{
    reveal(hold_will);
    lemma_steady_refl(b, limits);
    let next = hold_will(b, limits, owner, origin, message).0;
    if next != b {
        if guards_tidy(b.guards, b.next_guard) {
            lemma_guards(b.guards, b.next_guard, 0, next.guards.last());
        }
        let g = next.guards.last();
        lemma_will_more(slots(b), g.will, g);
        lemma_slots_reserved(b, next, limits, owner.tenant, origin, message);
        lemma_one_more_answered(b, next, limits, g.will, will_charge(message, origin));
        lemma_same_books(b, next, limits, None);
    }
}

/// A held will let go.
pub proof fn lemma_without_guard_steady(b: BrokerView, limits: Limits, token: u64)
    ensures
        steady(b, without_guard(b, token), limits),
{
    lemma_steady_refl(b, limits);
    if let Some(k) = guard_at(b, token) {
        lemma_guard_steady(b, limits, token, b.guards[k]);
    }
}

proof fn lemma_publish_held_steady(b: BrokerView, limits: Limits, now: i64, k: int)
    requires
        0 <= k < b.guards.len(),
        guard_at(b, b.guards[k].token) == Some(k),
    ensures
        steady(b, publish_held(b, limits, now, k).0, limits),
{
    reveal(publish_held);
    let g = b.guards[k];
    let message = with_expiry(g.will.message, g.will.message_expiry_interval, now);
    let bare = GuardView { will: WillView { reservation: no_reservation(), ..g.will }, ..g };
    let tenant = g.will.owner.tenant;
    let tried = BrokerView { guards: b.guards.update(k, bare), ..b };
    let (next, outcome) = route_message(tried, limits, now, tenant, g.will.origin, message);
    let left = without_guard(next, g.token);
    let last = publish_held(b, limits, now, k).0;
    if guards_tidy(b.guards, b.next_guard) {
        lemma_guards(b.guards, b.next_guard, k, tried.guards[k]);
    }
    lemma_guard_claims(slots(b), k, bare);
    lemma_guard_answers(b, k, bare);
    lemma_shrink_no_more(slots(b), slots(tried), tenant, g.will.reservation);
    lemma_same_books(b, tried, limits, None);
    lemma_route_message_steady(tried, limits, now, tenant, g.will.origin, message);
    law_routing_keeps_the_wills(tried, limits, now, tenant, g.will.origin, message);
    lemma_steady_trans(b, tried, next, limits);
    lemma_without_guard_steady(next, limits, g.token);
    lemma_steady_trans(b, next, left, limits);
    if outcome is Err {
        let w = WillView { message, ..ready(g.will) };
        lemma_route_refused(tried, limits, now, tenant, g.will.origin, message);
        lemma_without_guard_claims(next, g.token);
        lemma_no_more_trans(slots(tried), slots(next), slots(left));
        lemma_will_more(slots(left), w, GuardView { will: w, ..g });
        lemma_claims_back(
            slots(b),
            slots(tried),
            slots(left),
            slots(last),
            tenant,
            w.reservation,
        );
        lemma_slots_kept(slots(b), slots(last), limits);
        assert(guard_at(next, g.token) == Some(k)) by {
            let p = guard_is(g.token);
            lemma_first(b.guards, p);
            assert forall|m: int| 0 <= m < k implies !p(#[trigger] next.guards[m]) by {
                assert(!p(b.guards[m]));
            }
            assert(is_first(next.guards, p, k));
            lemma_first_is(next.guards, p, k);
        }
        assert(last.guards == b.guards.update(k, bare).remove(k));
        lemma_taken_answers(b, last, k, w);
        lemma_wills_kept(b, last, limits);
        lemma_same_books(left, last, limits, None);
        lemma_steady_trans(b, left, last, limits);
    }
}

proof fn lemma_without_guard_claims(b: BrokerView, token: u64)
    ensures
        claims_no_more(slots(b), slots(without_guard(b, token))),
{
    lemma_first(b.guards, guard_is(token));
    if let Some(k) = guard_at(b, token) {
        let g = b.guards[k];
        lemma_guard_claims(slots(b), k, g);
        lemma_shrink_no_more(
            slots(b),
            slots(without_guard(b, token)),
            g.will.owner.tenant,
            g.will.reservation,
        );
    }
}

pub proof fn lemma_settle_will_steady(b: BrokerView, limits: Limits, now: i64, token: u64)
    ensures
        steady(b, settle_will(b, limits, now, token).0, limits),
{
    reveal(settle_will);
    lemma_steady_refl(b, limits);
    if let Some(k) = guard_at(b, token) {
        let g = b.guards[k];
        let outcome = match g.delay {
            Some(d) => schedule(b, d),
            None => WillSchedule::PublishNow,
        };
        lemma_first(b.guards, guard_is(token));
        if outcome is PublishNow {
            lemma_publish_held_steady(b, limits, now, k);
        } else {
            let left = without_guard(b, token);
            let last = settle_will(b, limits, now, token).0;
            lemma_without_guard_steady(b, limits, token);
            if outcome is Delayed {
                let w = last.future_wills.last();
                lemma_guard_claims(slots(b), k, g);
                lemma_no_more_refl(slots(left));
                lemma_will_more(slots(left), w, GuardView { will: w, ..g });
                lemma_claims_back(
                    slots(b),
                    slots(left),
                    slots(left),
                    slots(last),
                    w.owner.tenant,
                    w.reservation,
                );
                lemma_slots_kept(slots(b), slots(last), limits);
                assert(b.guards.update(k, g) =~= b.guards);
                assert(last.guards == b.guards.update(k, g).remove(k));
                lemma_taken_answers(b, last, k, w);
                lemma_wills_kept(b, last, limits);
            }
            lemma_same_books(left, last, limits, None);
            lemma_steady_trans(b, left, settle_will(b, limits, now, token).0, limits);
        }
    }
}

pub proof fn lemma_close_will_steady(b: BrokerView, limits: Limits, now: i64, token: u64)
    ensures
        steady(b, close_will(b, limits, now, token), limits),
{
    lemma_steady_refl(b, limits);
    lemma_settle_will_steady(b, limits, now, token);
    lemma_without_guard_steady(b, limits, token);
}

/// Where a received message is held.
pub proof fn lemma_held(b: BrokerView, key: KeyView, id: u16)
    ensures
        held_inbound(b, key, id) matches Some((i, k)) ==> 0 <= i < b.sessions.len()
            && b.sessions[i].key == key && 0 <= k < b.sessions[i].inbound.len(),
{
    lemma_positions(b, key);
    if let Some(i) = session_at(b, key) {
        lemma_first(b.sessions[i].inbound, inbound_is(id));
    }
}

/// A received message changed in place.
proof fn lemma_inbound_steady(b: BrokerView, limits: Limits, i: int, k: int, e: InboundView)
    requires
        0 <= i < b.sessions.len(),
        0 <= k < b.sessions[i].inbound.len(),
        e.message == b.sessions[i].inbound[k].message,
    ensures
        steady_but_slots(b, touch_session(b, i, with_inbound(b.sessions[i], k, e)), limits),
        e.reservation == b.sessions[i].inbound[k].reservation || e.reservation
            == no_reservation() ==> steady(
            b,
            touch_session(b, i, with_inbound(b.sessions[i], k, e)),
            limits,
        ),
{
    lemma_received_changed(b.sessions[i], k, e);
    lemma_total_update(b.sessions[i].inbound, k, e, entry_reserved_count());
    lemma_total_update(b.sessions[i].inbound, k, e, entry_reserved_bytes());
    lemma_touch_steady(b, limits, i, with_inbound(b.sessions[i], k, e));
}

pub proof fn lemma_retransmission_steady(
    b: BrokerView,
    limits: Limits,
    key: KeyView,
    generation: u64,
    id: u16,
)
    ensures
        steady(b, retransmission(b, limits, key, generation, id).0, limits),
{
    lemma_steady_refl(b, limits);
    lemma_positions(b, key);
    if let Some(i) = session_at(b, key) {
        let s = b.sessions[i];
        lemma_touch_steady(
            b,
            limits,
            i,
            SessionView { inbound_window: s.inbound_window.insert(id), ..s },
        );
    }
}

proof fn lemma_accept_new_steady(
    b: BrokerView,
    limits: Limits,
    i: int,
    id: u16,
    message: MessageView,
)
    requires
        0 <= i < b.sessions.len(),
    ensures
        steady(b, accept_new(b, limits, i, id, message).0, limits),
{
    reveal(accept_new);
    lemma_steady_refl(b, limits);
    let s = b.sessions[i];
    let tenant = s.key.device.tenant;
    let next = accept_new(b, limits, i, id, message).0;
    if next != b {
        let reservation = reserve_retained(b, limits, tenant, Some(s.key), message)->Ok_0;
        let entry = InboundView {
            packet_id: id,
            stage: InboundStage::AwaitPubrel,
            message,
            operation_id: None,
            reservation,
        };
        let window = if s.version == MqttVersion::V5 {
            s.inbound_window.insert(id)
        } else {
            s.inbound_window
        };
        let s1 = SessionView { inbound: s.inbound.push(entry), inbound_window: window, ..s };
        assert(next == put_session(b, limits, i, s1));
        lemma_put_session(b, limits, i, s1);
        lemma_received_more(s, entry, window);
        lemma_second_count(s);
        lemma_entry_claims(slots(b), slots(next), i, -1, entry, window);
        lemma_slots_reserved(b, next, limits, tenant, Some(s.key), message);
        lemma_put_steady(b, limits, i, s1);
    }
}

pub proof fn lemma_accept_inbound_steady(
    b: BrokerView,
    limits: Limits,
    key: KeyView,
    generation: u64,
    id: u16,
    message: MessageView,
)
    ensures
        steady(b, accept_inbound(b, limits, key, generation, id, message).0, limits),
{
    reveal(accept_inbound);
    lemma_steady_refl(b, limits);
    lemma_positions(b, key);
    if let Some(i) = session_at(b, key) {
        lemma_accept_new_steady(b, limits, i, id, message);
    }
}

pub proof fn lemma_window_left_steady(
    b: BrokerView,
    limits: Limits,
    key: KeyView,
    generation: u64,
    id: u16,
)
    ensures
        steady(b, window_left(b, key, generation, id).0, limits),
{
    lemma_steady_refl(b, limits);
    lemma_positions(b, key);
    if let Some(i) = session_at(b, key) {
        let s = b.sessions[i];
        lemma_touch_steady(
            b,
            limits,
            i,
            SessionView { inbound_window: s.inbound_window.remove(id), ..s },
        );
    }
}

pub proof fn lemma_begin_delivery_steady(
    b: BrokerView,
    limits: Limits,
    key: KeyView,
    generation: u64,
    id: u16,
)
    ensures
        steady(b, begin_delivery(b, key, generation, id).0, limits),
{
    reveal(begin_delivery);
    lemma_steady_refl(b, limits);
    lemma_positions(b, key);
    let operation = next_generation(b.operation_id);
    let b1 = BrokerView { operation_id: operation, ..b };
    lemma_same_books(b, b1, limits, None);
    lemma_held(b1, key, id);
    if let Some((i, k)) = held_inbound(b1, key, id) {
        let e = b1.sessions[i].inbound[k];
        let held = match e.operation_id {
            Some(held) => held,
            None => operation,
        };
        let claimed = InboundView {
            stage: InboundStage::Delivering { operation_id: operation },
            ..e
        };
        let known = InboundView { operation_id: Some(held), ..e };
        lemma_inbound_steady(b1, limits, i, k, claimed);
        lemma_inbound_steady(b1, limits, i, k, known);
        lemma_steady_trans(
            b,
            b1,
            touch_session(b1, i, with_inbound(b1.sessions[i], k, claimed)),
            limits,
        );
        lemma_steady_trans(
            b,
            b1,
            touch_session(b1, i, with_inbound(b1.sessions[i], k, known)),
            limits,
        );
    }
}

pub proof fn lemma_finish_delivery_steady(
    b: BrokerView,
    limits: Limits,
    key: KeyView,
    incarnation: u64,
    id: u16,
    operation: u64,
)
    ensures
        steady(b, finish_delivery(b, key, incarnation, id, operation).0, limits),
        steady(b, abandon_delivery(b, key, incarnation, id, operation).0, limits),
{
    reveal(finish_delivery);
    reveal(abandon_delivery);
    lemma_steady_refl(b, limits);
    lemma_held(b, key, id);
    if let Some((i, k)) = held_inbound(b, key, id) {
        let e = b.sessions[i].inbound[k];
        lemma_inbound_steady(
            b,
            limits,
            i,
            k,
            InboundView {
                stage: InboundStage::EventAccepted,
                operation_id: Some(operation),
                ..e
            },
        );
        lemma_inbound_steady(
            b,
            limits,
            i,
            k,
            InboundView { stage: InboundStage::AwaitPubrel, ..e },
        );
    }
}

proof fn lemma_reindexed_steady(b: BrokerView, limits: Limits, key: KeyView)
    ensures
        steady(b, reindexed(b, limits, key), limits),
{
    let next = reindexed(b, limits, key);
    reveal(same_outline);
    lemma_parts(b, next);
    if exact_but(b, limits, None) {
        lemma_reindexed(b, limits, key);
    }
}

proof fn lemma_without_inbound_steady(b: BrokerView, limits: Limits, key: KeyView, id: u16)
    ensures
        steady(b, without_inbound(b, limits, key, id), limits),
{
    lemma_held(b, key, id);
    match held_inbound(b, key, id) {
        Some((i, k)) => {
            let s = b.sessions[i];
            lemma_received_less(s, k);
            lemma_total_remove(s.inbound, k, entry_reserved_count());
            lemma_total_remove(s.inbound, k, entry_reserved_bytes());
            lemma_put_steady(b, limits, i, SessionView { inbound: s.inbound.remove(k), ..s });
        },
        None => {
            lemma_reindexed_steady(b, limits, key);
        },
    }
}

pub proof fn lemma_complete_inbound_steady(
    b: BrokerView,
    limits: Limits,
    now: i64,
    key: KeyView,
    generation: u64,
    id: u16,
)
    ensures
        steady(b, complete_inbound(b, limits, now, key, generation, id).0, limits),
{
    reveal(complete_inbound);
    lemma_steady_refl(b, limits);
    let next = without_inbound(b, limits, key, id);
    lemma_without_inbound_steady(b, limits, key, id);
    lemma_carried_on_steady(next, limits, now);
    lemma_steady_trans(b, next, carried_on(next, limits, now).0, limits);
}

pub proof fn lemma_route_inbound_steady(
    b: BrokerView,
    limits: Limits,
    now: i64,
    key: KeyView,
    incarnation: u64,
    id: u16,
    operation: u64,
    tenant: Seq<char>,
)
    ensures
        steady(
            b,
            route_inbound(b, limits, now, key, incarnation, id, operation, tenant).0,
            limits,
        ),
{
    reveal(route_inbound);
    lemma_steady_refl(b, limits);
    lemma_held(b, key, id);
    if let Some((i, k)) = held_inbound(b, key, id) {
        let e = b.sessions[i].inbound[k];
        let bare = InboundView { reservation: no_reservation(), ..e };
        let tried = touch_session(b, i, with_inbound(b.sessions[i], k, bare));
        let next = route_message(tried, limits, now, tenant, Some(key), e.message).0;
        lemma_inbound_steady(b, limits, i, k, bare);
        lemma_route_message_steady(tried, limits, now, tenant, Some(key), e.message);
        lemma_steady_trans(b, tried, next, limits);
        let kept = with_reservation(next, key, id, e.reservation);
        lemma_steady_refl(next, limits);
        lemma_held(next, key, id);
        if let Some((m, n)) = held_inbound(next, key, id) {
            let again = InboundView {
                reservation: e.reservation,
                ..next.sessions[m].inbound[n]
            };
            lemma_inbound_steady(next, limits, m, n, again);
            lemma_steady_trans(b, next, kept, limits);
            if route_message(tried, limits, now, tenant, Some(key), e.message).1 is Err {
                let own = key.device.tenant;
                lemma_route_refused(tried, limits, now, tenant, Some(key), e.message);
                lemma_entry_claims(slots(b), slots(tried), i, k, bare, Set::empty());
                lemma_entry_claims(slots(next), slots(kept), m, n, again, Set::empty());
                lemma_claims_back(
                    slots(b),
                    slots(tried),
                    slots(next),
                    slots(kept),
                    own,
                    e.reservation,
                );
                lemma_slots_kept(slots(b), slots(kept), limits);
            }
        }
        let less = without_inbound(next, limits, key, id);
        lemma_without_inbound_steady(next, limits, key, id);
        lemma_steady_trans(b, next, less, limits);
        lemma_carried_on_steady(less, limits, now);
        lemma_steady_trans(b, less, carried_on(less, limits, now).0, limits);
    }
}

proof fn lemma_without_exchange_steady(b: BrokerView, limits: Limits, i: int, k: int)
    requires
        0 <= i < b.sessions.len(),
        0 <= k < b.sessions[i].outbound.len(),
    ensures
        steady(b, without_exchange(b, limits, i, k), limits),
{
    let s = b.sessions[i];
    lemma_exchange_less(s, k);
    lemma_put_steady(b, limits, i, SessionView { outbound: s.outbound.remove(k), ..s });
}

proof fn lemma_with_exchange_steady(b: BrokerView, limits: Limits, i: int, k: int, e: OutboundView)
    requires
        0 <= i < b.sessions.len(),
        0 <= k < b.sessions[i].outbound.len(),
        e.message == b.sessions[i].outbound[k].message,
        (e.stage == OutboundStage::Puback) == (b.sessions[i].outbound[k].stage
            == OutboundStage::Puback),
    ensures
        steady(b, with_exchange(b, limits, i, k, e), limits),
{
    let s = b.sessions[i];
    lemma_exchange_changed(s, k, e);
    lemma_put_steady(b, limits, i, SessionView { outbound: s.outbound.update(k, e), ..s });
}

/// An exchange ended, and what that lets go on.
proof fn lemma_ended_steady(b: BrokerView, limits: Limits, now: i64, i: int, k: int)
    requires
        0 <= i < b.sessions.len(),
        0 <= k < b.sessions[i].outbound.len(),
    ensures
        steady(b, carried_on(without_exchange(b, limits, i, k), limits, now).0, limits),
        steady(b, drive(without_exchange(b, limits, i, k), limits, now).0, limits),
{
    let next = without_exchange(b, limits, i, k);
    lemma_without_exchange_steady(b, limits, i, k);
    lemma_carried_on_steady(next, limits, now);
    lemma_drive_steady(next, limits, now);
    lemma_steady_trans(b, next, carried_on(next, limits, now).0, limits);
    lemma_steady_trans(b, next, drive(next, limits, now).0, limits);
}

pub proof fn lemma_complete_outbound_steady(
    b: BrokerView,
    limits: Limits,
    now: i64,
    key: KeyView,
    generation: u64,
    id: u16,
    ack: OutboundAck,
)
    ensures
        steady(b, complete_outbound(b, limits, now, key, generation, id, ack).0, limits),
        steady(b, reject_pubrec(b, limits, now, key, generation, id).0, limits),
{
    reveal(complete_outbound);
    reveal(reject_pubrec);
    lemma_steady_refl(b, limits);
    lemma_positions(b, key);
    if let Some(i) = session_at(b, key) {
        lemma_first(b.sessions[i].outbound, outbound_is(id));
        if let Some(k) = outbound_at(b.sessions[i], id) {
            lemma_ended_steady(b, limits, now, i, k);
        }
    }
}

pub proof fn lemma_receive_pubrec_steady(
    b: BrokerView,
    limits: Limits,
    key: KeyView,
    generation: u64,
    id: u16,
)
    ensures
        steady(b, receive_pubrec(b, limits, key, generation, id).0, limits),
{
    reveal(receive_pubrec);
    lemma_steady_refl(b, limits);
    lemma_positions(b, key);
    if let Some(i) = session_at(b, key) {
        lemma_first(b.sessions[i].outbound, outbound_is(id));
        if let Some(k) = outbound_at(b.sessions[i], id) {
            let e = b.sessions[i].outbound[k];
            lemma_with_exchange_steady(b, limits, i, k, e);
            if e.stage == OutboundStage::Pubrec {
                lemma_with_exchange_steady(
                    b,
                    limits,
                    i,
                    k,
                    OutboundView { stage: OutboundStage::Pubcomp, started: true, ..e },
                );
            }
        }
    }
}

pub proof fn lemma_transfer_steady(
    b: BrokerView,
    limits: Limits,
    now: i64,
    key: KeyView,
    generation: u64,
    id: Option<u16>,
    message: MessageView,
)
    ensures
        steady(b, begin_transfer(b, limits, now, key, generation, id, message).0, limits),
        steady(b, discard(b, limits, now, key, generation, id, message).0, limits),
{
    reveal(begin_transfer);
    reveal(discard);
    lemma_steady_refl(b, limits);
    lemma_positions(b, key);
    if let (Some(i), Some(id)) = (session_at(b, key), id) {
        lemma_first(b.sessions[i].outbound, outbound_is(id));
        if let Some(k) = frame_exchange(b.sessions[i], id, message) {
            lemma_ended_steady(b, limits, now, i, k);
            lemma_with_exchange_steady(
                b,
                limits,
                i,
                k,
                OutboundView { started: true, ..b.sessions[i].outbound[k] },
            );
        }
    }
}

pub proof fn lemma_send_command_steady(
    b: BrokerView,
    limits: Limits,
    now: i64,
    key: KeyView,
    generation: u64,
    message: MessageView,
)
    ensures
        steady(b, send_command(b, limits, now, key, generation, message).0, limits),
{
    reveal(send_command);
    lemma_steady_refl(b, limits);
    lemma_enqueue_steady(b, limits, now, key, message, true);
}

proof fn lemma_pull_next_steady(b: BrokerView, limits: Limits, now: i64, key: KeyView)
    ensures
        steady(b, pull_next(b, limits, now, key).0, limits),
{
    reveal(pull_next);
    lemma_steady_refl(b, limits);
    lemma_positions(b, key);
    if let (Some(i), Some(j)) = (session_at(b, key), active_at(b, key)) {
        lemma_mark_steady(b, limits, key);
        let again = next_unsent(b, limits, i, j).0;
        lemma_next_unsent_steady(b, limits, i, j);
        lemma_mark_steady(again, limits, key);
        lemma_steady_trans(b, again, mark(again, key), limits);
        let next = promote(b, limits, i, j).0;
        if may_promote(b, limits, i) {
            lemma_promote_steady(b, limits, i, j);
            lemma_mark_steady(next, limits, key);
            lemma_steady_trans(b, next, mark(next, key), limits);
            lemma_retry_wills_steady(
                mark(next, key),
                limits,
                now,
                HOT_MAINTENANCE_BUDGET as nat,
            );
            lemma_steady_trans(
                b,
                mark(next, key),
                retried(mark(next, key), limits, now),
                limits,
            );
        }
    }
}

pub proof fn lemma_pull_steady(
    b: BrokerView,
    limits: Limits,
    now: i64,
    key: KeyView,
    generation: u64,
)
    ensures
        steady(b, pull(b, limits, now, key, generation).0, limits),
{
    reveal(pull);
    lemma_steady_refl(b, limits);
    lemma_pull_next_steady(b, limits, now, key);
    let b1 = prune_session(b, limits, key, now);
    let b2 = drive(b1, limits, now).0;
    lemma_prune_session_steady(b, limits, key, now);
    lemma_drive_steady(b1, limits, now);
    lemma_steady_trans(b, b1, b2, limits);
    lemma_pull_next_steady(b2, limits, now, key);
    lemma_steady_trans(b, b2, pull_next(b2, limits, now, key).0, limits);
}

/// What a connection does with its own queue.
pub proof fn lemma_queue_steady(b: BrokerView, limits: Limits, receiver: u64, charge: nat)
    ensures
        steady(b, received(b, receiver).0, limits),
        steady(b, written(b, receiver, charge), limits),
        steady(b, shut(b, receiver), limits),
{
    lemma_steady_refl(b, limits);
    lemma_first(b.links, link_is(receiver));
    if let Some(j) = link_at(b, receiver) {
        let l = b.links[j];
        if l.queue.len() > 0 {
            lemma_link_steady(b, limits, j, LinkView { queue: l.queue.remove(0), ..l }, 0);
        }
        lemma_link_steady(b, limits, j, LinkView { used: sat_sub(l.used, charge), ..l }, 0);
        lemma_link_steady(
            b,
            limits,
            j,
            LinkView { open: false, queue: Seq::empty(), used: 0, ..l },
            0,
        );
    }
}

} // verus!
