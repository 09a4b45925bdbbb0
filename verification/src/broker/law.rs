//! What holds of the broker whatever is asked of it.
use super::attach::{expiry_change, next_generation};
use super::flow::{lemma_held, lemma_prune_before_route_claims, lemma_prune_messages_steady};
use super::inbound::{
    abandon_delivery, accept_inbound, accept_new, begin_delivery, classify, finish_delivery,
    held_inbound, window_left, with_inbound, ActionView,
};
use super::model::{
    drive, guard_at, guard_is, lemma_put_session, owns, prune_messages, prune_session, put_session,
    reserve_retained, retained_allowed, retained_charge, session_at, session_is, touch_session,
    update_retained, BrokerView, GuardView, WillView, HOT_MAINTENANCE_BUDGET,
};
use super::outbound::{
    awaited, begin_transfer, complete_outbound, discard, pull, receive_pubrec, reject_pubrec,
    send_command, OutboundAck,
};
use super::route::{
    deliver_first, deliver_one, lower_qos, plan_first, plan_route, plan_step, prune_before_route,
    prune_matching, route_message, PlannedView,
};
use super::slots::{
    claims_bytes, claims_count, claims_shrink, lemma_claims_of, lemma_entry_claims,
    lemma_first_claims, lemma_guard_claims, retained_numbers_within, retained_shares_within, slots,
    taken_bytes,
};
use super::subscribe::{subscribe_spec, unsubscribe_spec};
use super::tidy::{
    guard_token, guards_tidy, lemma_drive_steady, lemma_outline_positions, lemma_positions,
    lemma_steady_refl, lemma_steady_trans, same_outline, steady, tidy,
};
use super::wills::{
    close_will, hold_will, publish_held, refreshed, retry_one, settle_will, with_expiry,
    without_guard,
};
use crate::codec::MqttVersion;
use crate::error::Error;
use crate::identity::{DeviceView, KeyView};
use crate::limits::Limits;
use crate::list::{
    distinct, first, is_first, lemma_distinct_update, lemma_first, lemma_first_is, lemma_first_none,
};
use crate::message::MessageView;
use crate::session::{
    inbound_at, inbound_is, no_reservation, outbound_at, pruned, InboundStage, InboundView,
    RetainedReservation, SessionView, Subscription,
};
use crate::trie::trie_matching;
use vstd::prelude::*;

verus! {

/// A connection that does not hold the session any more can neither send nor change anything:
/// every request of it is refused, and the broker is as before.
pub proof fn law_stale_connection_changes_nothing(
    b: BrokerView,
    limits: Limits,
    now: i64,
    key: KeyView,
    generation: u64,
    id: u16,
    message: MessageView,
    filter: Seq<char>,
    subscription: Subscription,
    interval: u32,
)
    requires
        !owns(b, key, generation),
    ensures
        complete_outbound(b, limits, now, key, generation, id, OutboundAck::Puback) == (
            b,
            Err::<bool, Error>(Error::Conflict),
        ),
        complete_outbound(b, limits, now, key, generation, id, OutboundAck::Pubcomp) == (
            b,
            Err::<bool, Error>(Error::Conflict),
        ),
        receive_pubrec(b, limits, key, generation, id).0 == b,
        receive_pubrec(b, limits, key, generation, id).1 is Err,
        reject_pubrec(b, limits, now, key, generation, id) == (
            b,
            Err::<bool, Error>(Error::Conflict),
        ),
        begin_transfer(b, limits, now, key, generation, Some(id), message) == (
            b,
            Err::<bool, Error>(Error::Conflict),
        ),
        discard(b, limits, now, key, generation, Some(id), message) == (
            b,
            Err::<bool, Error>(Error::Conflict),
        ),
        send_command(b, limits, now, key, generation, message).0 == b,
        send_command(b, limits, now, key, generation, message).1 is Err,
        pull(b, limits, now, key, generation).0 == b,
        pull(b, limits, now, key, generation).1 is Err,
        unsubscribe_spec(b, limits, now, key, generation, filter).0 == b,
        unsubscribe_spec(b, limits, now, key, generation, filter).1 is Err,
        classify(b, key, generation, id) is Err,
        accept_inbound(b, limits, key, generation, id, message).0 == b,
        accept_inbound(b, limits, key, generation, id, message).1 is Err,
        begin_delivery(b, key, generation, id).0 == b,
        begin_delivery(b, key, generation, id).1 is Err,
        window_left(b, key, generation, id).0 == b,
        window_left(b, key, generation, id).1 is Err,
        expiry_change(b, key, generation, interval).0 == b,
        expiry_change(b, key, generation, interval).1 is Err,
{
    reveal(complete_outbound);
    reveal(receive_pubrec);
    reveal(reject_pubrec);
    reveal(begin_transfer);
    reveal(discard);
    reveal(send_command);
    reveal(pull);
    reveal(subscribe_spec);
    reveal(unsubscribe_spec);
    reveal(accept_inbound);
    reveal(begin_delivery);
}

/// An acknowledgement that the exchange does not wait for leaves the exchange, and everything
/// else, as it was.
pub proof fn law_wrong_acknowledgement_changes_nothing(
    b: BrokerView,
    limits: Limits,
    now: i64,
    key: KeyView,
    generation: u64,
    id: u16,
    ack: OutboundAck,
)
    requires
        owns(b, key, generation),
        session_at(b, key) is Some,
        ({
            let s = b.sessions[session_at(b, key)->0];
            outbound_at(s, id) matches Some(k) ==> s.outbound[k].stage != awaited(ack)
        }),
    ensures
        complete_outbound(b, limits, now, key, generation, id, ack) == (
            b,
            Err::<bool, Error>(Error::Invalid),
        ),
{
    reveal(complete_outbound);
}

/// A message that is delivered exactly once is not taken twice: while its identifier is held, the
/// same publication again is acknowledged and changes nothing.
pub proof fn law_repeated_publication_changes_nothing(
    b: BrokerView,
    limits: Limits,
    key: KeyView,
    generation: u64,
    id: u16,
    message: MessageView,
)
    requires
        message.qos == 2,
        owns(b, key, generation),
        session_at(b, key) is Some,
        ({
            let s = b.sessions[session_at(b, key)->0];
            inbound_at(s, id) matches Some(k) && (s.version == MqttVersion::V5
                || s.inbound[k].message == message)
        }),
    ensures
        accept_inbound(b, limits, key, generation, id, message) == (b, Ok::<bool, Error>(false)),
{
    reveal(accept_inbound);
}

/// A connection that does not hold the session cannot subscribe for it. What expired meanwhile is
/// gone, but every session has what it had subscribed to.
pub proof fn law_stale_connection_subscribes_to_nothing(
    b: BrokerView,
    limits: Limits,
    now: i64,
    key: KeyView,
    generation: u64,
    filter: Seq<char>,
    subscription: Subscription,
)
    requires
        !owns(b, key, generation),
    ensures
        subscribe_spec(b, limits, now, key, generation, filter, subscription).1 is Err,
        steady(
            b,
            subscribe_spec(b, limits, now, key, generation, filter, subscription).0,
            limits,
        ),
{
    reveal(subscribe_spec);
    let budget = HOT_MAINTENANCE_BUDGET as nat;
    let b0 = prune_messages(b, limits, now, budget);
    let b1 = drive(b0, limits, now).0;
    lemma_steady_refl(b, limits);
    lemma_prune_messages_steady(b, limits, now, budget);
    lemma_drive_steady(b0, limits, now);
    lemma_steady_trans(b, b0, b1, limits);
    lemma_outline_positions(b, b1, key);
    reveal(same_outline);
}

/// A publication that is refused is refused as a whole: nobody gets it, nothing is retained and
/// no will is lost. Only what had expired is gone from the queues of those it was meant for.
pub proof fn law_refused_publication_reaches_nobody(
    b: BrokerView,
    limits: Limits,
    now: i64,
    tenant: Seq<char>,
    origin: Option<KeyView>,
    message: MessageView,
)
    requires
        route_message(b, limits, now, tenant, origin, message).1 is Err,
    ensures
        ({
            let next = route_message(b, limits, now, tenant, origin, message).0;
            &&& next == prune_before_route(b, limits, now, message.topic)
            &&& next.links == b.links
            &&& next.retained == b.retained
            &&& next.pending_wills == b.pending_wills
            &&& next.future_wills == b.future_wills
            &&& next.guards == b.guards
            &&& next.trie == b.trie
        }),
{
    reveal(route_message);
    let matches = trie_matching(b.trie, message.topic);
    lemma_prune_matching_keeps(b, limits, now, matches, matches.len());
}

proof fn lemma_prune_matching_keeps(
    b: BrokerView,
    limits: Limits,
    now: i64,
    matches: Seq<(KeyView, Subscription)>,
    n: nat,
)
    ensures
        ({
            let next = prune_matching(b, limits, now, matches, n);
            &&& next.links == b.links
            &&& next.retained == b.retained
            &&& next.pending_wills == b.pending_wills
            &&& next.future_wills == b.future_wills
            &&& next.guards == b.guards
            &&& next.trie == b.trie
        }),
    decreases n,
{
    if n > 0 {
        let before = prune_matching(b, limits, now, matches, (n - 1) as nat);
        let key = matches[n - 1].0;
        lemma_prune_matching_keeps(b, limits, now, matches, (n - 1) as nat);
        reveal(prune_session);
        if let Some(i) = session_at(before, key) {
            lemma_put_session(before, limits, i, pruned(before.sessions[i], now));
        }
    }
}

/// What a plan says of one of its targets.
pub open spec fn meant_for(
    t: PlannedView,
    origin: Option<KeyView>,
    message: MessageView,
    key: KeyView,
    subscription: Subscription,
) -> bool {
    &&& t.key == key
    &&& t.qos == lower_qos(message.qos, subscription.qos)
    &&& t.retain_as_published == subscription.retain_as_published
    &&& !(subscription.no_local && origin == Some(key))
}

proof fn lemma_plan_step(
    b: BrokerView,
    limits: Limits,
    origin: Option<KeyView>,
    message: MessageView,
    plan: Seq<PlannedView>,
    key: KeyView,
    subscription: Subscription,
)
    ensures
        plan_step(b, limits, origin, message, plan, key, subscription) matches Ok(next) ==> {
            ||| next == plan && (lower_qos(message.qos, subscription.qos) == 0 || (
            subscription.no_local && origin == Some(key)))
            ||| next.len() == plan.len() + 1 && next.drop_last() == plan && meant_for(
                next.last(),
                origin,
                message,
                key,
                subscription,
            )
        },
{
    reveal(plan_step);
    if let Ok(next) = plan_step(b, limits, origin, message, plan, key, subscription) {
        if next != plan {
            assert(next.drop_last() =~= plan);
        }
    }
}

proof fn lemma_plan_first(
    b: BrokerView,
    limits: Limits,
    origin: Option<KeyView>,
    message: MessageView,
    matches: Seq<(KeyView, Subscription)>,
    n: nat,
)
    requires
        n <= matches.len(),
    ensures
        plan_first(b, limits, origin, message, matches, n) matches Ok(plan) ==> {
            &&& forall|k: int|
                0 <= k < plan.len() ==> exists|m: int|
                    0 <= m < n && meant_for(
                        #[trigger] plan[k],
                        origin,
                        message,
                        (#[trigger] matches[m]).0,
                        matches[m].1,
                    )
            &&& forall|m: int|
                0 <= m < n && lower_qos(message.qos, (#[trigger] matches[m]).1.qos) > 0 && !(
                matches[m].1.no_local && origin == Some(matches[m].0)) ==> exists|k: int|
                    0 <= k < plan.len() && (#[trigger] plan[k]).key == matches[m].0
        },
    decreases n,
{
    if n > 0 {
        lemma_plan_first(b, limits, origin, message, matches, (n - 1) as nat);
        if let Ok(before) = plan_first(b, limits, origin, message, matches, (n - 1) as nat) {
            let (key, subscription) = matches[n - 1];
            lemma_plan_step(b, limits, origin, message, before, key, subscription);
            if let Ok(plan) = plan_first(b, limits, origin, message, matches, n) {
                assert(plan.len() >= before.len());
                assert forall|k: int| 0 <= k < before.len() implies plan[k] == before[k] by {
                    if plan != before {
                        assert(plan.drop_last()[k] == before[k]);
                    }
                }
                assert forall|k: int| 0 <= k < plan.len() implies exists|m: int|
                    0 <= m < n && meant_for(
                        #[trigger] plan[k],
                        origin,
                        message,
                        (#[trigger] matches[m]).0,
                        matches[m].1,
                    ) by {
                    if k < before.len() {
                        let m = choose|m: int|
                            0 <= m < n - 1 && meant_for(
                                before[k],
                                origin,
                                message,
                                (#[trigger] matches[m]).0,
                                matches[m].1,
                            );
                        assert(meant_for(plan[k], origin, message, matches[m].0, matches[m].1));
                    } else {
                        assert(meant_for(
                            plan[k],
                            origin,
                            message,
                            matches[n - 1].0,
                            matches[n - 1].1,
                        ));
                    }
                }
                assert forall|m: int|
                    0 <= m < n && lower_qos(message.qos, (#[trigger] matches[m]).1.qos) > 0 && !(
                    matches[m].1.no_local && origin == Some(matches[m].0)) implies exists|k: int|
                    0 <= k < plan.len() && (#[trigger] plan[k]).key == matches[m].0 by {
                    if m < n - 1 {
                        let k = choose|k: int|
                            0 <= k < before.len() && (#[trigger] before[k]).key == matches[m].0;
                        assert(plan[k].key == matches[m].0);
                    } else {
                        assert(plan[plan.len() - 1].key == matches[m].0);
                    }
                }
            }
        }
    }
}

/// A publication that goes out goes to subscribers of its topic alone, to each at the lower of
/// the two qualities of service and never back to a sender that does not want it. Of those who
/// asked for more than at most once it misses nobody.
pub proof fn law_publication_goes_to_its_subscribers(
    b: BrokerView,
    limits: Limits,
    tenant: Seq<char>,
    origin: Option<KeyView>,
    message: MessageView,
)
    ensures
        plan_route(b, limits, tenant, origin, message) matches Ok(plan) ==> {
            let matches = trie_matching(b.trie, message.topic);
            &&& forall|k: int|
                0 <= k < plan.len() ==> exists|m: int|
                    0 <= m < matches.len() && meant_for(
                        #[trigger] plan[k],
                        origin,
                        message,
                        (#[trigger] matches[m]).0,
                        matches[m].1,
                    )
            &&& forall|m: int|
                0 <= m < matches.len() && lower_qos(message.qos, (#[trigger] matches[m]).1.qos) > 0
                    && !(matches[m].1.no_local && origin == Some(matches[m].0)) ==> exists|k: int|
                    0 <= k < plan.len() && (#[trigger] plan[k]).key == matches[m].0
        },
{
    let matches = trie_matching(b.trie, message.topic);
    lemma_plan_first(b, limits, origin, message, matches, matches.len());
}

/// A will that is held and then suppressed leaves nothing behind but its used number.
pub proof fn law_suppressed_will_leaves_nothing(
    b: BrokerView,
    limits: Limits,
    owner: DeviceView,
    origin: Option<KeyView>,
    message: MessageView,
)
    requires
        tidy(b, limits),
    ensures
        hold_will(b, limits, owner, origin, message).1 matches Ok(token) ==> without_guard(
            hold_will(b, limits, owner, origin, message).0,
            token,
        ) == (BrokerView { next_guard: (b.next_guard + 1) as u64, ..b }),
        hold_will(b, limits, owner, origin, message).1 is Err ==> hold_will(
            b,
            limits,
            owner,
            origin,
            message,
        ).0 == b,
{
    reveal(hold_will);
    let (next, result) = hold_will(b, limits, owner, origin, message);
    if let Ok(token) = result {
        let k = b.guards.len() as int;
        reveal(guards_tidy);
        assert forall|m: int| 0 <= m < k implies !guard_is(token)(#[trigger] next.guards[m]) by {
            assert(b.guards[m].token < b.next_guard);
        }
        assert(is_first(next.guards, guard_is(token), k));
        lemma_first_is(next.guards, guard_is(token), k);
        assert(next.guards.remove(k) =~= b.guards);
    }
}

/// The session of a key after one of its sessions was replaced by another with the same key.
pub proof fn lemma_touched_at(b: BrokerView, key: KeyView, s: SessionView)
    requires
        session_at(b, key) is Some,
        s.key == key,
    ensures
        ({
            let i = session_at(b, key)->0;
            let next = touch_session(b, i, s);
            &&& 0 <= i < b.sessions.len()
            &&& b.sessions[i].key == key
            &&& session_at(next, key) == Some(i)
            &&& next.sessions[i] == s
        }),
{
    let i = session_at(b, key)->0;
    let next = touch_session(b, i, s);
    lemma_first(b.sessions, session_is(key));
    lemma_first(next.sessions, session_is(key));
    assert(session_is(key)(next.sessions[i]));
    assert forall|j: int| 0 <= j < i implies !#[trigger] session_is(key)(next.sessions[j]) by {
        assert(next.sessions[j] == b.sessions[j]);
        assert(!session_is(key)(b.sessions[j]));
    }
}

/// A message given out for delivery is given to one operation alone: whoever asks meanwhile is
/// told to wait, and when it is abandoned all is as before but for the number used.
pub proof fn law_delivery_is_exclusive_and_can_be_abandoned(
    b: BrokerView,
    key: KeyView,
    generation: u64,
    id: u16,
)
    requires
        begin_delivery(b, key, generation, id).1 matches Ok(ActionView::Deliver { .. }),
    ensures
        ({
            let (next, result) = begin_delivery(b, key, generation, id);
            let action = result->Ok_0;
            let incarnation = action->Deliver_session_incarnation;
            let operation = action->Deliver_operation_id;
            &&& begin_delivery(next, key, generation, id).1 == Ok::<ActionView, Error>(
                ActionView::DeliveryInProgress,
            )
            &&& abandon_delivery(next, key, incarnation, id, operation) == (
                BrokerView { operation_id: next.operation_id, ..b },
                Ok::<(), Error>(()),
            )
            &&& forall|other: u64|
                other != operation ==> (#[trigger] finish_delivery(
                    next,
                    key,
                    incarnation,
                    id,
                    other,
                )) == (next, Err::<(), Error>(Error::Conflict))
        }),
{
    reveal(begin_delivery);
    reveal(abandon_delivery);
    reveal(finish_delivery);
    let next = begin_delivery(b, key, generation, id).0;
    let operation = next_generation(b.operation_id);
    let b1 = BrokerView { operation_id: operation, ..b };
    let i = session_at(b1, key)->0;
    let s = b1.sessions[i];
    let k = inbound_at(s, id)->0;
    let e = s.inbound[k];
    let claimed = InboundView { stage: InboundStage::Delivering { operation_id: operation }, ..e };
    lemma_positions(b1, key);
    lemma_touched_at(b1, key, with_inbound(s, k, claimed));
    lemma_inbound_stays(s, id, claimed);
    let back = InboundView { stage: InboundStage::AwaitPubrel, ..claimed };
    assert(with_inbound(with_inbound(s, k, claimed), k, back) =~= s);
    assert(next.sessions.update(i, s) =~= b.sessions);
    assert(owns(next, key, generation));
}

/// An entry replaced by one with the same identifier is found where it was.
pub proof fn lemma_inbound_stays(s: SessionView, id: u16, e: InboundView)
    requires
        inbound_at(s, id) is Some,
        e.packet_id == id,
    ensures
        0 <= inbound_at(s, id)->0 < s.inbound.len(),
        s.inbound[inbound_at(s, id)->0].packet_id == id,
        inbound_at(with_inbound(s, inbound_at(s, id)->0, e), id) == inbound_at(s, id),
{
    let k = inbound_at(s, id)->0;
    let p = inbound_is(id);
    lemma_first(s.inbound, p);
    let next = with_inbound(s, k, e);
    assert forall|m: int| 0 <= m < k implies !p(#[trigger] next.inbound[m]) by {
        assert(!p(s.inbound[m]));
    }
    assert(is_first(next.inbound, p, k));
    lemma_first_is(next.inbound, p, k);
}

/// To say twice that a message was taken is the same as to say it once, and what was taken is not
/// given out again as if it had not been.
pub proof fn law_finished_delivery_stays_finished(
    b: BrokerView,
    key: KeyView,
    incarnation: u64,
    id: u16,
    operation: u64,
)
    requires
        finish_delivery(b, key, incarnation, id, operation).1 is Ok,
    ensures
        ({
            let next = finish_delivery(b, key, incarnation, id, operation).0;
            &&& finish_delivery(next, key, incarnation, id, operation) == (
                next,
                Ok::<(), Error>(()),
            )
            &&& abandon_delivery(next, key, incarnation, id, operation) == (
                next,
                Err::<(), Error>(Error::Conflict),
            )
            &&& forall|generation: u64|
                !((#[trigger] begin_delivery(next, key, generation, id)).1 matches Ok(
                    ActionView::Deliver { .. },
                ))
        }),
{
    reveal(begin_delivery);
    reveal(abandon_delivery);
    reveal(finish_delivery);
    let i = session_at(b, key)->0;
    let s = b.sessions[i];
    let k = inbound_at(s, id)->0;
    let done = InboundView {
        stage: InboundStage::EventAccepted,
        operation_id: Some(operation),
        ..s.inbound[k]
    };
    lemma_positions(b, key);
    lemma_first(s.inbound, inbound_is(id));
    lemma_touched_at(b, key, with_inbound(s, k, done));
    lemma_inbound_stays(s, id, done);
    let next = finish_delivery(b, key, incarnation, id, operation).0;
    assert(session_at(next, key) == Some(i));
    assert forall|generation: u64|
        !((#[trigger] begin_delivery(next, key, generation, id)).1 matches Ok(
            ActionView::Deliver { .. },
        )) by {
        let b1 = BrokerView { operation_id: next_generation(next.operation_id), ..next };
        assert(session_at(b1, key) == Some(i));
    }
}

/// What is released for delivery is the message that was accepted under that identifier.
pub proof fn law_released_message_is_the_accepted_one(
    b: BrokerView,
    limits: Limits,
    key: KeyView,
    generation: u64,
    id: u16,
    message: MessageView,
)
    requires
        accept_inbound(b, limits, key, generation, id, message).1 == Ok::<bool, Error>(true),
    ensures
        begin_delivery(
            accept_inbound(b, limits, key, generation, id, message).0,
            key,
            generation,
            id,
        ).1 matches Ok(ActionView::Deliver { message: released, .. }) && released == message,
{
    reveal(accept_inbound);
    reveal(accept_new);
    reveal(begin_delivery);
    let next = accept_inbound(b, limits, key, generation, id, message).0;
    let i = session_at(b, key)->0;
    let s = b.sessions[i];
    lemma_positions(b, key);
    lemma_first(s.inbound, inbound_is(id));
    let reservation = reserve_retained(
        b,
        limits,
        s.key.device.tenant,
        Some(s.key),
        message,
    )->Ok_0;
    let entry = InboundView {
        packet_id: id,
        stage: InboundStage::AwaitPubrel,
        message,
        operation_id: None,
        reservation,
    };
    let s1 = SessionView {
        inbound: s.inbound.push(entry),
        inbound_window: if s.version == MqttVersion::V5 {
            s.inbound_window.insert(id)
        } else {
            s.inbound_window
        },
        ..s
    };
    assert(next == put_session(b, limits, i, s1));
    lemma_put_session(b, limits, i, s1);
    lemma_touched_at(b, key, s1);
    assert(next.sessions == touch_session(b, i, s1).sessions);
    assert(session_at(next, key) == Some(i));
    let k = s.inbound.len() as int;
    assert forall|m: int| 0 <= m < k implies !inbound_is(id)(#[trigger] s1.inbound[m]) by {
        assert(!inbound_is(id)(s.inbound[m]));
    }
    assert(is_first(s1.inbound, inbound_is(id), k));
    lemma_first_is(s1.inbound, inbound_is(id), k);
    let b1 = BrokerView { operation_id: next_generation(next.operation_id), ..next };
    assert(session_at(b1, key) == Some(i));
    assert(owns(next, key, generation));
}

/// The wills that the broker answers for are the same.
pub open spec fn same_wills(b: BrokerView, next: BrokerView) -> bool {
    &&& next.guards == b.guards
    &&& next.next_guard == b.next_guard
    &&& next.pending_wills == b.pending_wills
    &&& next.future_wills == b.future_wills
}

proof fn lemma_deliver_one_keeps_wills(
    b: BrokerView,
    limits: Limits,
    message: MessageView,
    t: PlannedView,
)
    ensures
        same_wills(b, deliver_one(b, limits, message, t).0),
{
    reveal(deliver_one);
    reveal(put_session);
}

proof fn lemma_deliver_first_keeps_wills(
    b: BrokerView,
    limits: Limits,
    message: MessageView,
    plan: Seq<PlannedView>,
    n: nat,
)
    ensures
        same_wills(b, deliver_first(b, limits, message, plan, n).0),
    decreases n,
{
    if n > 0 {
        let before = deliver_first(b, limits, message, plan, (n - 1) as nat).0;
        lemma_deliver_first_keeps_wills(b, limits, message, plan, (n - 1) as nat);
        lemma_deliver_one_keeps_wills(before, limits, message, plan[n - 1]);
    }
}

proof fn lemma_prune_matching_keeps_wills(
    b: BrokerView,
    limits: Limits,
    now: i64,
    matches: Seq<(KeyView, Subscription)>,
    n: nat,
)
    ensures
        same_wills(b, prune_matching(b, limits, now, matches, n)),
    decreases n,
{
    if n > 0 {
        lemma_prune_matching_keeps_wills(b, limits, now, matches, (n - 1) as nat);
        reveal(prune_session);
        reveal(put_session);
    }
}

/// Routing a message touches no will.
pub proof fn law_routing_keeps_the_wills(
    b: BrokerView,
    limits: Limits,
    now: i64,
    tenant: Seq<char>,
    origin: Option<KeyView>,
    message: MessageView,
)
    ensures
        same_wills(b, route_message(b, limits, now, tenant, origin, message).0),
{
    reveal(route_message);
    let matches = trie_matching(b.trie, message.topic);
    lemma_prune_matching_keeps_wills(b, limits, now, matches, matches.len());
    let b1 = prune_before_route(b, limits, now, message.topic);
    if let Ok(plan) = plan_route(b1, limits, tenant, origin, message) {
        let b2 = if message.retain {
            update_retained(b1, tenant, origin, message)
        } else {
            b1
        };
        lemma_deliver_first_keeps_wills(b2, limits, message, plan, plan.len());
    }
}

/// A held will is settled once: afterwards the broker holds it no more, and settling it again is
/// refused and changes nothing.
pub proof fn law_will_is_settled_once(b: BrokerView, limits: Limits, now: i64, token: u64)
    requires
        tidy(b, limits),
        settle_will(b, limits, now, token).1 is Ok,
    ensures
        ({
            let next = settle_will(b, limits, now, token).0;
            &&& guard_at(next, token) is None
            &&& forall|later: i64| #[trigger]
                settle_will(next, limits, later, token) == (
                    next,
                    Err::<Option<MessageView>, Error>(Error::Conflict),
                )
            &&& forall|later: i64| #[trigger] close_will(next, limits, later, token) == next
        }),
{
    reveal(settle_will);
    reveal(publish_held);
    reveal(guards_tidy);
    let k = guard_at(b, token)->0;
    lemma_first(b.guards, guard_is(token));
    let g = b.guards[k];
    let tried = BrokerView {
        guards: b.guards.update(
            k,
            GuardView { will: WillView { reservation: no_reservation(), ..g.will }, ..g },
        ),
        ..b
    };
    let message = with_expiry(g.will.message, g.will.message_expiry_interval, now);
    law_routing_keeps_the_wills(
        tried,
        limits,
        now,
        g.will.owner.tenant,
        g.will.origin,
        message,
    );
    let next = settle_will(b, limits, now, token).0;
    lemma_distinct_update(b.guards, k, tried.guards[k], guard_token());
    lemma_guard_taken(b.guards, token);
    lemma_guard_taken(tried.guards, token);
    assert(guard_is(token)(tried.guards[k]));
    lemma_first(tried.guards, guard_is(token));
    assert(guard_at(next, token) is None);
}

proof fn lemma_guard_taken(guards: Seq<GuardView>, token: u64)
    requires
        distinct(guards, guard_token()),
    ensures
        first(guards, guard_is(token)) matches Some(k) ==> first(
            guards.remove(k),
            guard_is(token),
        ) is None,
{
    lemma_first(guards, guard_is(token));
    if let Some(k) = first(guards, guard_is(token)) {
        let left = guards.remove(k);
        assert forall|m: int| 0 <= m < left.len() implies !guard_is(token)(#[trigger] left[m]) by {
            let from = if m < k {
                m
            } else {
                m + 1
            };
            assert(left[m] == guards[from]);
            assert(guard_token()(guards[from]) != guard_token()(guards[k]));
        }
        lemma_first_none(left, guard_is(token));
    }
}

/// A will that is due is not lost: it leaves the queue when it was published and else goes to its
/// end, with what was set aside for it.
pub proof fn law_due_will_waits_until_it_is_published(b: BrokerView, limits: Limits, now: i64)
    requires
        b.pending_wills.len() > 0,
    ensures
        ({
            let (next, published) = retry_one(b, limits, now);
            let others = b.pending_wills.remove(0);
            &&& next.guards == b.guards
            &&& next.future_wills == b.future_wills
            &&& next.pending_wills == if published {
                others
            } else {
                others.push(refreshed(b.pending_wills[0], now))
            }
        }),
{
    reveal(retry_one);
    let w = refreshed(b.pending_wills[0], now);
    let bare = WillView { reservation: no_reservation(), ..w };
    let tried = BrokerView { pending_wills: b.pending_wills.update(0, bare), ..b };
    law_routing_keeps_the_wills(tried, limits, now, w.owner.tenant, w.origin, w.message);
    assert(tried.pending_wills.remove(0) =~= b.pending_wills.remove(0));
}

/// A slot was set aside that a message needs if it is to be retained.
pub open spec fn set_aside_for(
    limits: Limits,
    reservation: RetainedReservation,
    origin: Option<KeyView>,
    message: MessageView,
) -> bool {
    message.retain && message.payload.len() > 0 ==> {
        &&& reservation.count == 1
        &&& reservation.bytes >= retained_charge(message, origin)
        &&& message.payload.len() <= limits.max_retained_message_bytes
    }
}

/// Whether a message is refused does not depend on the retained slots.
pub open spec fn finds_its_slot(
    b: BrokerView,
    limits: Limits,
    now: i64,
    tenant: Seq<char>,
    origin: Option<KeyView>,
    message: MessageView,
) -> bool {
    let b1 = prune_before_route(b, limits, now, message.topic);
    let matches = trie_matching(b1.trie, message.topic);
    plan_route(b1, limits, tenant, origin, message) == plan_first(
        b1,
        limits,
        origin,
        message,
        matches,
        matches.len(),
    )
}

proof fn lemma_slot_is_there(
    b: BrokerView,
    less: BrokerView,
    limits: Limits,
    now: i64,
    tenant: Seq<char>,
    origin: Option<KeyView>,
    message: MessageView,
    reservation: RetainedReservation,
)
    requires
        tidy(b, limits),
        less.retained == b.retained,
        less.shadowed == b.shadowed,
        claims_shrink(slots(b), slots(less), tenant, reservation),
        set_aside_for(limits, reservation, origin, message),
    ensures
        finds_its_slot(less, limits, now, tenant, origin, message),
{
    let b1 = prune_before_route(less, limits, now, message.topic);
    lemma_prune_before_route_claims(less, limits, now, message.topic);
    if message.retain && message.payload.len() > 0 {
        reveal(retained_shares_within);
        reveal(retained_numbers_within);
        lemma_claims_of(b1, None);
        lemma_claims_of(b1, Some(tenant));
        assert(claims_count(slots(b1), None) <= claims_count(slots(less), None));
        assert(claims_count(slots(less), None) + 1 <= claims_count(slots(b), None));
        assert(claims_count(slots(b1), Some(tenant)) <= claims_count(slots(less), Some(tenant)));
        assert(claims_count(slots(less), Some(tenant)) + 1 <= claims_count(
            slots(b),
            Some(tenant),
        ));
        assert(claims_bytes(slots(b), Some(tenant)) + taken_bytes(slots(b), Some(tenant))
            <= limits.max_retained_bytes_per_tenant);
        assert(retained_allowed(b1, limits, tenant, origin, message));
    }
}

/// What was set aside for a will is there when the will is published, whatever was retained in the
/// meantime: a pending will that is tried, or a held one that is published at once, never fails
/// for want of a retained slot.
pub proof fn law_will_finds_its_slot(b: BrokerView, limits: Limits, now: i64, k: int)
    requires
        tidy(b, limits),
    ensures
        b.pending_wills.len() > 0 ==> ({
            let w = refreshed(b.pending_wills[0], now);
            let tried = BrokerView {
                pending_wills: b.pending_wills.update(
                    0,
                    WillView { reservation: no_reservation(), ..w },
                ),
                ..b
            };
            set_aside_for(limits, w.reservation, w.origin, w.message) ==> finds_its_slot(
                tried,
                limits,
                now,
                w.owner.tenant,
                w.origin,
                w.message,
            )
        }),
        0 <= k < b.guards.len() ==> ({
            let g = b.guards[k];
            let message = with_expiry(g.will.message, g.will.message_expiry_interval, now);
            let tried = BrokerView {
                guards: b.guards.update(
                    k,
                    GuardView { will: WillView { reservation: no_reservation(), ..g.will }, ..g },
                ),
                ..b
            };
            set_aside_for(limits, g.will.reservation, g.will.origin, message) ==> finds_its_slot(
                tried,
                limits,
                now,
                g.will.owner.tenant,
                g.will.origin,
                message,
            )
        }),
{
    if b.pending_wills.len() > 0 {
        let w = refreshed(b.pending_wills[0], now);
        let bare = WillView { reservation: no_reservation(), ..w };
        let tried = BrokerView { pending_wills: b.pending_wills.update(0, bare), ..b };
        lemma_first_claims(slots(b), bare);
        if set_aside_for(limits, w.reservation, w.origin, w.message) {
            lemma_slot_is_there(
                b,
                tried,
                limits,
                now,
                w.owner.tenant,
                w.origin,
                w.message,
                w.reservation,
            );
        }
    }
    if 0 <= k < b.guards.len() {
        let g = b.guards[k];
        let message = with_expiry(g.will.message, g.will.message_expiry_interval, now);
        let bare = GuardView { will: WillView { reservation: no_reservation(), ..g.will }, ..g };
        let tried = BrokerView { guards: b.guards.update(k, bare), ..b };
        lemma_guard_claims(slots(b), k, bare);
        if set_aside_for(limits, g.will.reservation, g.will.origin, message) {
            lemma_slot_is_there(
                b,
                tried,
                limits,
                now,
                g.will.owner.tenant,
                g.will.origin,
                message,
                g.will.reservation,
            );
        }
    }
}

/// What was set aside for a message that was received for exactly one delivery is there when it is
/// released, whatever was retained in the meantime.
pub proof fn law_released_message_finds_its_slot(
    b: BrokerView,
    limits: Limits,
    now: i64,
    key: KeyView,
    id: u16,
)
    requires
        tidy(b, limits),
    ensures
        held_inbound(b, key, id) matches Some((i, k)) ==> ({
            let s = b.sessions[i];
            let e = s.inbound[k];
            let tried = touch_session(
                b,
                i,
                with_inbound(s, k, InboundView { reservation: no_reservation(), ..e }),
            );
            set_aside_for(limits, e.reservation, Some(key), e.message) ==> finds_its_slot(
                tried,
                limits,
                now,
                key.device.tenant,
                Some(key),
                e.message,
            )
        }),
{
    lemma_held(b, key, id);
    if let Some((i, k)) = held_inbound(b, key, id) {
        let s = b.sessions[i];
        let e = s.inbound[k];
        let bare = InboundView { reservation: no_reservation(), ..e };
        let tried = touch_session(b, i, with_inbound(s, k, bare));
        lemma_entry_claims(slots(b), slots(tried), i, k, bare, Set::empty());
        if set_aside_for(limits, e.reservation, Some(key), e.message) {
            lemma_slot_is_there(
                b,
                tried,
                limits,
                now,
                key.device.tenant,
                Some(key),
                e.message,
                e.reservation,
            );
        }
    }
}

/// Whatever the broker takes over to publish later has a slot set aside: a will that it holds and
/// a message that it has received.
pub proof fn law_what_is_taken_over_has_its_slot(
    b: BrokerView,
    limits: Limits,
    owner: DeviceView,
    origin: Option<KeyView>,
    message: MessageView,
    i: int,
    id: u16,
)
    requires
        0 <= i < b.sessions.len(),
    ensures
        hold_will(b, limits, owner, origin, message).1 is Ok ==> ({
            let will = hold_will(b, limits, owner, origin, message).0.guards.last().will;
            &&& will.message == message
            &&& set_aside_for(limits, will.reservation, origin, message)
        }),
        accept_new(b, limits, i, id, message).1 is Ok ==> ({
            let e = accept_new(b, limits, i, id, message).0.sessions[i].inbound.last();
            &&& e.message == message
            &&& set_aside_for(limits, e.reservation, Some(b.sessions[i].key), message)
        }),
{
    reveal(hold_will);
    reveal(accept_new);
    reveal(put_session);
}

} // verus!
