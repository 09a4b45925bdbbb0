//! Laws about doing a thing twice, and about what one call undoes of another.
use super::ease::{
    carries, eased, lemma_carried_on_eased, lemma_eased_left, lemma_lean_receivers,
    lemma_receivers_at, lemma_route_receivers, same_receivers, thinned, under_way, wills_left,
};
use super::flow::{lemma_held, lemma_transfer_steady};
use super::inbound::{
    carried_on, held_inbound, route_inbound, with_inbound, with_reservation, without_inbound,
};
use super::law::{
    law_routing_keeps_the_wills, law_will_is_settled_once, lemma_inbound_stays, lemma_touched_at,
};
use super::model::{
    active_at, expiry_deadline, guard_at, guard_is, lemma_put_session, owns, put_session, reindexed,
    remove_session, session_at, session_is, session_key, touch_session, wakes_after, BrokerView,
    GuardView, WillView,
};
use super::outbound::{discard, frame_exchange, without_exchange};
use super::route::route_message;
use super::state::lemma_ledger_update;
use super::tidy::{
    exact_but, guards_tidy, indexed, lemma_outline_positions, lemma_positions, same_outline, tidy,
    waiting_deadline,
};
use super::turnover::{held, lemma_hole, lemma_remove_session};
use super::wills::{publish_held, ready, settle_will, shorter, with_expiry};
use crate::error::Error;
use crate::identity::KeyView;
use crate::limits::Limits;
use crate::list::{
    count, distinct, first, is_first, lemma_count_total, lemma_first, lemma_first_is,
    lemma_first_none, lemma_total_remove, one_if,
};
use crate::message::{charge_of, deadline_after, MessageView};
use crate::session::{
    inbound_at, inbound_is, inbound_key, is_puback, is_qos2, is_windowed, message_deadline,
    no_reservation, outbound_charge, outbound_is, outbound_key, session_charge, session_ok,
    usage_of, InboundStage, InboundView, OutboundStage, OutboundView, SessionView,
};
use crate::table::{entry_is, entry_key, law_one_value_per_key, lookup, with_entry};
use crate::usage::ledger_of;
use vstd::prelude::*;

verus! {

/// What is tried with a received message that the application has taken.
pub open spec fn offered(
    b: BrokerView,
    limits: Limits,
    now: i64,
    key: KeyView,
    i: int,
    k: int,
    tenant: Seq<char>,
) -> (BrokerView, Result<nat, Error>) {
    let s = b.sessions[i];
    let e = s.inbound[k];
    route_message(
        touch_session(b, i, with_inbound(s, k, InboundView { reservation: no_reservation(), ..e })),
        limits,
        now,
        tenant,
        Some(key),
        e.message,
    )
}

/// A received message may be routed: it was taken by this operation, in this life of the session.
pub open spec fn may_be_routed(
    b: BrokerView,
    key: KeyView,
    incarnation: u64,
    id: u16,
    operation: u64,
) -> bool {
    held_inbound(b, key, id) matches Some((i, k)) && b.sessions[i].incarnation == incarnation
        && b.sessions[i].inbound[k].stage == InboundStage::EventAccepted
        && b.sessions[i].inbound[k].operation_id == Some(operation)
}

/// Once an entry is taken out, its identifier is free.
proof fn lemma_inbound_taken(s: SessionView, id: u16)
    requires
        distinct(s.inbound, inbound_key()),
        inbound_at(s, id) is Some,
    ensures
        ({
            let k = inbound_at(s, id)->0;
            &&& 0 <= k < s.inbound.len()
            &&& inbound_at(SessionView { inbound: s.inbound.remove(k), ..s }, id) is None
        }),
{
    lemma_first(s.inbound, inbound_is(id));
    let k = inbound_at(s, id)->0;
    let rest = s.inbound.remove(k);
    assert forall|m: int| 0 <= m < rest.len() implies !inbound_is(id)(#[trigger] rest[m]) by {
        let from = if m < k { m } else { m + 1 };
        assert(rest[m] == s.inbound[from]);
        assert(inbound_key()(s.inbound[from]) != inbound_key()(s.inbound[k]));
    }
    lemma_first_none(rest, inbound_is(id));
}

/// A message received for exactly one delivery is routed once. Routed, it is gone with what was
/// set aside for it, and the same call again is refused and changes nothing. If there is no room
/// for it, it stays as it was. In another life of the session, by another operation or at another
/// stage it is not routed at all.
pub proof fn law_taken_message_is_routed_once(
    b: BrokerView,
    limits: Limits,
    now: i64,
    key: KeyView,
    incarnation: u64,
    id: u16,
    operation: u64,
    tenant: Seq<char>,
)
    requires
        session_at(b, key) matches Some(i) ==> session_ok(b.sessions[i]),
    ensures
        ({
            let (next, outcome) = route_inbound(
                b,
                limits,
                now,
                key,
                incarnation,
                id,
                operation,
                tenant,
            );
            &&& !may_be_routed(b, key, incarnation, id, operation) ==> next == b && outcome
                == Err::<nat, Error>(Error::Conflict)
            &&& may_be_routed(b, key, incarnation, id, operation) ==> ({
                let (i, k) = held_inbound(b, key, id)->0;
                let routed = offered(b, limits, now, key, i, k, tenant).1;
                &&& routed is Err ==> {
                    &&& outcome == routed
                    &&& held_inbound(next, key, id) == Some((i, k))
                    &&& next.sessions[i].incarnation == incarnation
                    &&& next.sessions[i].inbound == b.sessions[i].inbound
                }
                &&& routed is Ok ==> {
                    &&& outcome is Ok ==> outcome == routed
                    &&& held_inbound(next, key, id) is None
                    &&& session_at(next, key) == Some(i)
                    &&& next.sessions[i].inbound == b.sessions[i].inbound.remove(k)
                    &&& forall|later: i64| #[trigger]
                        route_inbound(
                            next,
                            limits,
                            later,
                            key,
                            incarnation,
                            id,
                            operation,
                            tenant,
                        ) == (next, Err::<nat, Error>(Error::Conflict))
                }
            })
        }),
{
    reveal(route_inbound);
    lemma_held(b, key, id);
    if may_be_routed(b, key, incarnation, id, operation) {
        let (i, k) = held_inbound(b, key, id)->0;
        let s = b.sessions[i];
        let e = s.inbound[k];
        let bare = InboundView { reservation: no_reservation(), ..e };
        let t = with_inbound(s, k, bare);
        let tried = touch_session(b, i, t);
        let (mid, routed) = offered(b, limits, now, key, i, k, tenant);
        lemma_first(s.inbound, inbound_is(id));
        lemma_inbound_stays(s, id, bare);
        lemma_touched_at(b, key, t);
        lemma_route_receivers(tried, limits, now, tenant, Some(key), e.message);
        lemma_receivers_at(tried, mid, key);
        assert(mid.sessions[i].inbound == t.inbound && mid.sessions[i].key == key
            && mid.sessions[i].incarnation == incarnation) by {
            reveal(same_receivers);
        }
        let u = mid.sessions[i];
        assert(inbound_at(u, id) == inbound_at(t, id));
        assert(held_inbound(mid, key, id) == Some((i, k)));
        if routed is Err {
            let back = InboundView { reservation: e.reservation, ..u.inbound[k] };
            lemma_inbound_stays(u, id, back);
            lemma_touched_at(mid, key, with_inbound(u, k, back));
            let next = with_reservation(mid, key, id, e.reservation);
            assert(next.sessions[i].inbound =~= s.inbound);
            assert(inbound_at(next.sessions[i], id) == Some(k));
        } else {
            assert(distinct(u.inbound, inbound_key())) by {
                assert forall|m: int, n: int|
                    0 <= m < u.inbound.len() && 0 <= n < u.inbound.len() && m
                        != n implies inbound_key()(#[trigger] u.inbound[m]) != inbound_key()(
                    #[trigger] u.inbound[n],
                ) by {
                    assert(inbound_key()(s.inbound[m]) != inbound_key()(s.inbound[n]));
                }
            }
            lemma_inbound_taken(u, id);
            let v = SessionView { inbound: u.inbound.remove(k), ..u };
            let less = without_inbound(mid, limits, key, id);
            lemma_put_session(mid, limits, i, v);
            lemma_touched_at(mid, key, v);
            assert(less.sessions == touch_session(mid, i, v).sessions);
            let last = carried_on(less, limits, now).0;
            lemma_carried_on_eased(less, limits, now);
            lemma_lean_receivers(less, last);
            lemma_receivers_at(less, last, key);
            assert(last.sessions[i].inbound == v.inbound) by {
                reveal(same_receivers);
            }
            assert(v.inbound =~= s.inbound.remove(k));
            assert(inbound_at(last.sessions[i], id) == inbound_at(v, id));
            assert(held_inbound(last, key, id) is None);
        }
    }
}

/// Once an exchange is taken out, nothing is under way with its identifier.
proof fn lemma_exchange_taken(s: SessionView, k: int, message: MessageView)
    requires
        distinct(s.outbound, outbound_key()),
        0 <= k < s.outbound.len(),
    ensures
        !under_way(
            SessionView { outbound: s.outbound.remove(k), ..s },
            s.outbound[k].packet_id,
            message,
        ),
{
    let t = SessionView { outbound: s.outbound.remove(k), ..s };
    let id = s.outbound[k].packet_id;
    if under_way(t, id, message) {
        let m = choose|m: int|
            0 <= m < t.outbound.len() && #[trigger] carries(t.outbound[m], id, message);
        let from = if m < k { m } else { m + 1 };
        assert(t.outbound[m] == s.outbound[from]);
        assert(outbound_key()(s.outbound[from]) != outbound_key()(s.outbound[k]));
    }
}

proof fn lemma_count_removed(s: SessionView, k: int, p: spec_fn(OutboundView) -> bool)
    requires
        0 <= k < s.outbound.len(),
    ensures
        count(s.outbound.remove(k), p) + (if p(s.outbound[k]) {
            1nat
        } else {
            0nat
        }) == count(s.outbound, p),
{
    lemma_count_total(s.outbound, p);
    lemma_count_total(s.outbound.remove(k), p);
    lemma_total_remove(s.outbound, k, one_if(p));
}

/// A message that is given up is gone from its session, and its bytes with it. To give it up again
/// changes nothing, unless an equal message came in its place: one that waited, or a will.
pub proof fn law_message_is_given_up_once(
    b: BrokerView,
    limits: Limits,
    now: i64,
    key: KeyView,
    generation: u64,
    id: u16,
    message: MessageView,
)
    requires
        owns(b, key, generation),
        session_at(b, key) matches Some(i) && session_ok(b.sessions[i]) && frame_exchange(
            b.sessions[i],
            id,
            message,
        ) is Some,
    ensures
        ({
            let i = session_at(b, key)->0;
            let s = b.sessions[i];
            let k = frame_exchange(s, id, message)->0;
            let gone = without_exchange(b, limits, i, k);
            let t = gone.sessions[i];
            let (next, outcome) = discard(b, limits, now, key, generation, Some(id), message);
            &&& t == (SessionView { outbound: s.outbound.remove(k), ..s })
            &&& session_charge(t) + charge_of(message) == session_charge(s)
            &&& t.outbound.len() + 1 == s.outbound.len()
            &&& s.outbound[k].stage == OutboundStage::Puback ==> usage_of(t).qos1_inflight + 1
                == usage_of(s).qos1_inflight && usage_of(t).qos2_inflight
                == usage_of(s).qos2_inflight
            &&& s.outbound[k].stage != OutboundStage::Puback ==> usage_of(t).qos1_inflight
                == usage_of(s).qos1_inflight && usage_of(t).qos2_inflight + 1
                == usage_of(s).qos2_inflight
            &&& count(t.outbound, is_windowed()) + (if s.outbound[k].windowed {
                1nat
            } else {
                0nat
            }) == count(s.outbound, is_windowed())
            &&& !under_way(t, id, message)
            &&& carried_on(gone, limits, now) == (
                next,
                match outcome {
                    Ok(_) => None,
                    Err(error) => Some(error),
                },
            )
            &&& outcome is Ok ==> outcome == Ok::<bool, Error>(true)
            &&& !s.offline.contains(message) && wills_left(next) == wills_left(b) ==> forall|
                later: i64,
            | #[trigger]
                discard(next, limits, later, key, generation, Some(id), message) == (
                    next,
                    Ok::<bool, Error>(false),
                )
        }),
{
    reveal(discard);
    let i = session_at(b, key)->0;
    let s = b.sessions[i];
    let k = frame_exchange(s, id, message)->0;
    lemma_positions(b, key);
    lemma_first(s.outbound, outbound_is(id));
    let t = SessionView { outbound: s.outbound.remove(k), ..s };
    let gone = without_exchange(b, limits, i, k);
    let next = carried_on(gone, limits, now).0;
    lemma_put_session(b, limits, i, t);
    lemma_touched_at(b, key, t);
    lemma_total_remove(s.outbound, k, outbound_charge());
    lemma_count_removed(s, k, is_windowed());
    lemma_count_removed(s, k, is_puback());
    lemma_count_removed(s, k, is_qos2());
    lemma_exchange_taken(s, k, message);
    lemma_carried_on_eased(gone, limits, now);
    lemma_eased_left(gone, next, key);
    assert(session_at(gone, key) == Some(i));
    lemma_transfer_steady(b, limits, now, key, generation, Some(id), message);
    lemma_outline_positions(b, next, key);
    assert(owns(next, key, generation)) by {
        reveal(same_outline);
        lemma_positions(next, key);
    }
    if !s.offline.contains(message) && wills_left(next) == wills_left(b) {
        assert(thinned(t, next.sessions[i])) by {
            reveal(eased);
        }
        assert(!under_way(next.sessions[i], id, message)) by {
            reveal(thinned);
        }
        lemma_first(next.sessions[i].outbound, outbound_is(id));
        if let Some(m) = frame_exchange(next.sessions[i], id, message) {
            assert(carries(next.sessions[i].outbound[m], id, message));
        }
    }
}

/// The will of a connection whose session lasts is not published with the connection: it waits,
/// or is given up where another connection has taken the session up. Either way nobody is sent
/// anything. Any other will is published at once, or stays with the broker where there is no
/// room. A second time there is nothing to settle.
pub proof fn law_delayed_will_waits(b: BrokerView, limits: Limits, now: i64, token: u64)
    requires
        tidy(b, limits),
        guard_at(b, token) matches Some(k) && b.guards[k].delay is Some,
    ensures
        ({
            let k = guard_at(b, token)->0;
            let g = b.guards[k];
            let d = g.delay->0;
            let lasts = d.delay > 0 && d.session_expiry > 0 && (session_at(b, d.key) matches Some(i)
                && b.sessions[i].incarnation == d.incarnation);
            let taken_up = active_at(b, d.key) matches Some(j) && b.links[j].generation
                != d.generation;
            let (next, outcome) = settle_will(b, limits, now, token);
            &&& next.guards == b.guards.remove(k)
            &&& lasts ==> {
                &&& outcome == Ok::<Option<MessageView>, Error>(None)
                &&& next == (BrokerView {
                    guards: next.guards,
                    future_wills: next.future_wills,
                    ..b
                })
                &&& taken_up ==> next.future_wills == b.future_wills && wills_left(next)
                    == wills_left(b)
                &&& !taken_up ==> {
                    &&& wills_left(next) == wills_left(b) + 1
                    &&& next.future_wills == b.future_wills.push(
                        WillView {
                            due_at_ms: Some(
                                deadline_after(now, shorter(d.delay, d.session_expiry)),
                            ),
                            cancel_on_resume: Some((d.key, d.incarnation)),
                            ..g.will
                        },
                    )
                }
            }
            &&& !lasts ==> ({
                let message = with_expiry(g.will.message, g.will.message_expiry_interval, now);
                &&& outcome == Ok::<Option<MessageView>, Error>(Some(message))
                &&& next.future_wills == b.future_wills
                &&& next.pending_wills == b.pending_wills || next.pending_wills
                    == b.pending_wills.push(WillView { message, ..ready(g.will) })
                &&& next.pending_wills == b.pending_wills <==> route_message(
                    without_reservation(b, k),
                    limits,
                    now,
                    g.will.owner.tenant,
                    g.will.origin,
                    message,
                ).1 is Ok
            })
            &&& forall|later: i64| #[trigger]
                settle_will(next, limits, later, token) == (
                    next,
                    Err::<Option<MessageView>, Error>(Error::Conflict),
                )
        }),
{
    reveal(settle_will);
    reveal(publish_held);
    reveal(guards_tidy);
    let k = guard_at(b, token)->0;
    lemma_first(b.guards, guard_is(token));
    law_will_is_settled_once(b, limits, now, token);
    let g = b.guards[k];
    let tried = without_reservation(b, k);
    let message = with_expiry(g.will.message, g.will.message_expiry_interval, now);
    law_routing_keeps_the_wills(
        tried,
        limits,
        now,
        g.will.owner.tenant,
        g.will.origin,
        message,
    );
    assert(is_first(tried.guards, guard_is(token), k)) by {
        assert forall|m: int| 0 <= m < k implies !guard_is(token)(#[trigger] tried.guards[m]) by {
            assert(!guard_is(token)(b.guards[m]));
        }
    }
    lemma_first_is(tried.guards, guard_is(token), k);
    assert(tried.guards.remove(k) =~= b.guards.remove(k));
    assert(b.pending_wills.push(WillView { message, ..ready(g.will) }).len()
        != b.pending_wills.len());
}

/// A broker in which nothing is set aside for one of the held wills.
pub open spec fn without_reservation(b: BrokerView, k: int) -> BrokerView {
    let g = b.guards[k];
    BrokerView {
        guards: b.guards.update(
            k,
            GuardView { will: WillView { reservation: no_reservation(), ..g.will }, ..g },
        ),
        ..b
    }
}

/// An entry that is there already.
proof fn lemma_entry_again<V, X>(s: Seq<(V, X)>, key: V)
    ensures
        with_entry(s, key, lookup(s, key)) == s,
{
    lemma_first(s, entry_is::<V, X>(key));
    if let Some(i) = first(s, entry_is::<V, X>(key)) {
        assert(s.update(i, (key, s[i].1)) =~= s);
    }
}

/// The deadlines of a session brought up to date a second time stay as they are.
proof fn lemma_reindexed_again(b: BrokerView, limits: Limits, key: KeyView)
    requires
        distinct(b.session_expiry, entry_key()),
        distinct(b.message_expiry, entry_key()),
    ensures
        ({
            let next = reindexed(b, limits, key);
            &&& indexed(next, limits, key)
            &&& reindexed(next, limits, key) == next
            &&& forall|other: KeyView| other != key ==> #[trigger] lookup(
                next.session_expiry,
                other,
            ) == lookup(b.session_expiry, other)
            &&& forall|other: KeyView| other != key ==> #[trigger] lookup(
                next.message_expiry,
                other,
            ) == lookup(b.message_expiry, other)
        }),
{
    let next = reindexed(b, limits, key);
    let first_end = expiry_deadline(b, limits, key);
    let waiting = waiting_deadline(b, key);
    assert(expiry_deadline(next, limits, key) == first_end);
    assert(waiting_deadline(next, key) == waiting);
    law_one_value_per_key(b.session_expiry, key, first_end, key);
    law_one_value_per_key(b.message_expiry, key, waiting, key);
    lemma_entry_again(next.session_expiry, key);
    lemma_entry_again(next.message_expiry, key);
    assert forall|other: KeyView| other != key implies #[trigger] lookup(
        next.session_expiry,
        other,
    ) == lookup(b.session_expiry, other) by {
        law_one_value_per_key(b.session_expiry, key, first_end, other);
    }
    assert forall|other: KeyView| other != key implies #[trigger] lookup(
        next.message_expiry,
        other,
    ) == lookup(b.message_expiry, other) by {
        law_one_value_per_key(b.message_expiry, key, waiting, other);
    }
}

/// After a session was changed and reconciled, the totals count it as it is, both of its deadlines
/// are in the indexes and those of the others are as they were. To reconcile it again changes
/// nothing.
pub proof fn law_changed_session_is_reconciled_once(
    b: BrokerView,
    limits: Limits,
    i: int,
    s: SessionView,
)
    requires
        0 <= i < b.sessions.len(),
        s.key == b.sessions[i].key,
        distinct(b.sessions, session_key()),
        distinct(b.session_expiry, entry_key()),
        distinct(b.message_expiry, entry_key()),
    ensures
        ({
            let next = put_session(b, limits, i, s);
            &&& next.sessions == b.sessions.update(i, s)
            &&& session_at(next, s.key) == Some(i)
            &&& ledger_of(next.sessions) == ledger_of(b.sessions).update(i, (s.key, usage_of(s)))
            &&& lookup(next.session_expiry, s.key) == expiry_deadline(next, limits, s.key)
            &&& lookup(next.message_expiry, s.key) == message_deadline(s)
            &&& forall|other: KeyView| other != s.key ==> #[trigger] lookup(
                next.session_expiry,
                other,
            ) == lookup(b.session_expiry, other)
            &&& forall|other: KeyView| other != s.key ==> #[trigger] lookup(
                next.message_expiry,
                other,
            ) == lookup(b.message_expiry, other)
            &&& put_session(next, limits, i, s) == next
        }),
{
    reveal(put_session);
    let changed = BrokerView {
        sessions: b.sessions.update(i, s),
        wakes: wakes_after(
            b.wakes,
            s.key.device.tenant,
            usage_of(b.sessions[i]),
            usage_of(s),
        ),
        ..b
    };
    let next = put_session(b, limits, i, s);
    lemma_reindexed_again(changed, limits, s.key);
    lemma_ledger_update(b.sessions, i, s);
    assert(is_first(next.sessions, session_is(s.key), i)) by {
        assert forall|m: int| 0 <= m < i implies !session_is(s.key)(
            #[trigger] next.sessions[m],
        ) by {
            assert(session_key()(b.sessions[m]) != session_key()(b.sessions[i]));
        }
    }
    lemma_first_is(next.sessions, session_is(s.key), i);
    assert(next.sessions.update(i, s) =~= next.sessions);
}

/// After a session was added and reconciled, the totals count it, its deadlines are in the
/// indexes, and to reconcile it again changes nothing.
pub proof fn law_added_session_is_reconciled_once(b: BrokerView, limits: Limits, s: SessionView)
    requires
        session_at(b, s.key) is None,
        distinct(b.session_expiry, entry_key()),
        distinct(b.message_expiry, entry_key()),
    ensures
        ({
            let next = reindexed(
                BrokerView { sessions: b.sessions.push(s), ..b },
                limits,
                s.key,
            );
            &&& session_at(next, s.key) == Some(b.sessions.len() as int)
            &&& ledger_of(next.sessions) == ledger_of(b.sessions).push((s.key, usage_of(s)))
            &&& lookup(next.session_expiry, s.key) == expiry_deadline(next, limits, s.key)
            &&& lookup(next.message_expiry, s.key) == message_deadline(s)
            &&& put_session(next, limits, b.sessions.len() as int, s) == next
        }),
{
    reveal(put_session);
    let added = BrokerView { sessions: b.sessions.push(s), ..b };
    let next = reindexed(added, limits, s.key);
    let i = b.sessions.len() as int;
    lemma_reindexed_again(added, limits, s.key);
    lemma_first(b.sessions, session_is(s.key));
    assert(is_first(next.sessions, session_is(s.key), i)) by {
        assert forall|m: int| 0 <= m < i implies !session_is(s.key)(
            #[trigger] next.sessions[m],
        ) by {
            assert(!session_is(s.key)(b.sessions[m]));
        }
    }
    lemma_first_is(next.sessions, session_is(s.key), i);
    assert(ledger_of(next.sessions) =~= ledger_of(b.sessions).push((s.key, usage_of(s))));
    assert(next.sessions.update(i, s) =~= next.sessions);
}

/// After a session was given up and reconciled, the totals count it no more and no index has a
/// deadline of it. To reconcile it again changes nothing.
pub proof fn law_removed_session_is_reconciled_once(b: BrokerView, limits: Limits, key: KeyView)
    requires
        tidy(b, limits),
    ensures
        ({
            let next = remove_session(b, limits, key);
            &&& session_at(next, key) is None
            &&& session_at(b, key) matches Some(i) ==> ledger_of(next.sessions) == ledger_of(
                b.sessions,
            ).remove(i)
            &&& lookup(next.session_expiry, key) is None
            &&& lookup(next.message_expiry, key) is None
            &&& reindexed(next, limits, key) == next
        }),
{
    let next = remove_session(b, limits, key);
    lemma_hole(b, limits, key);
    lemma_remove_session(b, limits, key);
    lemma_positions(b, key);
    assert(session_at(next, key) is None) by {
        assert(held(next, key) is None);
    }
    assert(indexed(next, limits, key)) by {
        reveal(exact_but);
    }
    lemma_entry_again(next.session_expiry, key);
    lemma_entry_again(next.message_expiry, key);
    if let Some(i) = session_at(b, key) {
        assert(next.sessions == b.sessions.remove(i)) by {
            reveal(remove_session);
        }
        assert(ledger_of(next.sessions) =~= ledger_of(b.sessions).remove(i));
    }
}

} // verus!
