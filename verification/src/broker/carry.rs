//! What is planned for a message is carried out, all of it.
use super::flow::{lemma_deliver_one_steady, with_planned};
use super::weight::{
    lemma_exchange_more, lemma_second_count, lemma_waiting_more, sent_more, waiting_more,
};
use super::model::{
    active_at, bytes_fit, frame_fits, has_room, in_scope, inflight, lemma_put_session, link_used,
    outbound_used, put_session, reserved, sent, session_at, tenant_limit, update_retained,
    BrokerView, FrameView, LinkView,
};
use super::route::{
    deliver_first, deliver_one, plan_first, plan_route, plan_step, planned, planned_for,
    prune_before_route, route_message, routed, PlanCount, PlannedRouteMode, PlannedView,
};
use super::tidy::{
    fits, lemma_outline_positions, lemma_positions, lemma_steady_refl, lemma_steady_trans, steady,
};
use super::turnover::held;
use crate::error::Error;
use crate::identity::KeyView;
use crate::limits::Limits;
use crate::list::{distinct, lemma_total_update};
use crate::message::{charge_of, expired_spec, MessageView};
use crate::session::{
    fresh_exchange, id_after, next_free, outbound_capacity, session_charge, usage_of, SessionView,
    Subscription, UsageView,
};
use crate::table::entry_key;
use crate::trie::{law_matching_names_each_once, trie_matching};
use crate::usage::{
    anyone, in_tenant, ledger_of, lemma_sum_update, no_usage, plus, share, tenant_usage,
    total_usage, usage_sum, within,
};
use vstd::prelude::*;

verus! {

/// The connection that holds a session.
pub open spec fn holder(b: BrokerView, key: KeyView) -> Option<LinkView> {
    match active_at(b, key) {
        Some(j) => Some(b.links[j]),
        None => None,
    }
}

/// A planned delivery finds what it needs.
#[verifier::opaque]
pub open spec fn feasible(b: BrokerView, limits: Limits, charge: nat, t: PlannedView) -> bool {
    match t.mode {
        PlannedRouteMode::Qos0 => holder(b, t.key) matches Some(l) && l.open && has_room(
            l,
            limits,
        ),
        PlannedRouteMode::Live => holder(b, t.key) is Some && (held(b, t.key) matches Some(s)
            && next_free(s) is Some && session_charge(s) + charge <= usize::MAX),
        PlannedRouteMode::Offline => held(b, t.key) matches Some(s) && session_charge(s) + charge
            <= usize::MAX,
    }
}

/// The frame of a planned delivery, or the message that waits, fits with those of the deliveries
/// planned before it.
#[verifier::opaque]
pub open spec fn affordable(
    b: BrokerView,
    limits: Limits,
    charge: nat,
    before: Seq<PlannedView>,
    t: PlannedView,
) -> bool {
    let tenant = t.key.device.tenant;
    let all = total_usage(b.sessions);
    &&& t.mode != PlannedRouteMode::Offline ==> (holder(b, t.key) matches Some(l) && bytes_fit(
        b,
        limits,
        tenant,
        l.used,
        charge * planned(before, Some(tenant), PlanCount::Frames),
        charge * planned(before, None, PlanCount::Frames),
        charge,
    ))
    &&& t.mode == PlannedRouteMode::Offline ==> (held(b, t.key) matches Some(s) && {
        &&& s.offline.len() < limits.max_offline_messages_per_session
        &&& usage_of(s).offline_bytes + charge <= limits.max_offline_bytes_per_session
        &&& all.offline_count + planned(before, None, PlanCount::Waiting)
            < limits.max_offline_messages
        &&& all.offline_bytes + charge * planned(before, None, PlanCount::Waiting) + charge
            <= limits.max_offline_bytes
    })
    &&& t.mode == PlannedRouteMode::Live ==> inflight(b, tenant, t.qos) + planned(
        before,
        Some(tenant),
        PlanCount::Exchanges(t.qos),
    ) < tenant_limit(limits, t.qos) && (held(b, t.key) matches Some(s) && outbound_capacity(
        s,
        t.qos,
        limits,
    ))
    &&& t.mode != PlannedRouteMode::Qos0 ==> {
        &&& all.state_bytes + charge * planned(before, None, PlanCount::Kept) + charge
            <= limits.global_mqtt_session_bytes
        &&& tenant_usage(b.sessions, tenant).state_bytes + charge * planned(
            before,
            Some(tenant),
            PlanCount::Kept,
        ) + charge <= limits.max_mqtt_session_state_bytes_per_tenant
    }
}

/// The sessions count for no more than before, apart from what was planned for them.
pub open spec fn grown_as_planned(
    b: BrokerView,
    next: BrokerView,
    charge: nat,
    before: Seq<PlannedView>,
) -> bool {
    let was = total_usage(b.sessions);
    let is = total_usage(next.sessions);
    &&& is.offline_count <= was.offline_count + planned(before, None, PlanCount::Waiting)
    &&& is.offline_bytes <= was.offline_bytes + charge * planned(before, None, PlanCount::Waiting)
    &&& is.state_bytes <= was.state_bytes + charge * planned(before, None, PlanCount::Kept)
    &&& forall|tenant: Seq<char>|
        (#[trigger] tenant_usage(next.sessions, tenant)).state_bytes <= tenant_usage(
            b.sessions,
            tenant,
        ).state_bytes + charge * planned(before, Some(tenant), PlanCount::Kept)
    &&& forall|tenant: Seq<char>, qos: u8| #[trigger]
        inflight(next, tenant, qos) <= inflight(b, tenant, qos) + planned(
            before,
            Some(tenant),
            PlanCount::Exchanges(qos),
        )
}

/// What a planned delivery adds to an amount that is counted.
pub open spec fn adds(t: PlannedView, scope: Option<Seq<char>>, what: PlanCount, each: nat) -> nat {
    if planned_for(scope, what)(t) {
        each
    } else {
        0
    }
}

pub proof fn lemma_reserved_bytes(
    b: BrokerView,
    limits: Limits,
    j: int,
    charge: nat,
    frame: FrameView,
    scope: Option<Seq<char>>,
)
    requires
        0 <= j < b.links.len(),
    ensures
        outbound_used(sent(reserved(b, j, charge), limits, j, frame), scope) <= outbound_used(
            b,
            scope,
        ) + if in_scope(scope, b.links[j].key.device.tenant) {
            charge
        } else {
            0
        },
{
    let b1 = reserved(b, j, charge);
    let b2 = sent(b1, limits, j, frame);
    lemma_total_update(b.links, j, b1.links[j], link_used(scope));
    lemma_total_update(b1.links, j, b2.links[j], link_used(scope));
}

proof fn lemma_deliver_one_bytes(
    b: BrokerView,
    limits: Limits,
    message: MessageView,
    t: PlannedView,
    scope: Option<Seq<char>>,
)
    ensures
        outbound_used(deliver_one(b, limits, message, t).0, scope) <= outbound_used(b, scope)
            + adds(t, scope, PlanCount::Frames, charge_of(message)),
{
    reveal(deliver_one);
    reveal(put_session);
    lemma_positions(b, t.key);
    let m = routed(message, t);
    let charge = charge_of(message);
    if let Some(j) = active_at(b, t.key) {
        lemma_reserved_bytes(
            b,
            limits,
            j,
            charge,
            FrameView::Publish { message: m, packet_id: None, dup: false, command: false },
            scope,
        );
        if let Some(i) = session_at(b, t.key) {
            let s = b.sessions[i];
            if let Some(id) = next_free(s) {
                let s2 = SessionView {
                    next_packet_id: id_after(id),
                    outbound: s.outbound.push(fresh_exchange(id, m, false)),
                    ..s
                };
                lemma_reserved_bytes(
                    put_session(b, limits, i, s2),
                    limits,
                    j,
                    charge,
                    FrameView::Publish {
                        message: m,
                        packet_id: Some(id),
                        dup: false,
                        command: false,
                    },
                    scope,
                );
            }
        }
    }
}

/// What a planned delivery may add to what a session counts for.
pub open spec fn gain(message: MessageView, t: PlannedView) -> UsageView {
    let m = routed(message, t);
    match t.mode {
        PlannedRouteMode::Qos0 => no_usage(),
        PlannedRouteMode::Live => sent_more(no_usage(), fresh_exchange(0, m, false)),
        PlannedRouteMode::Offline => waiting_more(no_usage(), m),
    }
}

proof fn lemma_deliver_one_usage(
    b: BrokerView,
    limits: Limits,
    message: MessageView,
    t: PlannedView,
    p: spec_fn(KeyView) -> bool,
)
    ensures
        within(
            usage_sum(deliver_one(b, limits, message, t).0.sessions, p),
            plus(usage_sum(b.sessions, p), share((t.key, gain(message, t)), p)),
        ),
{
    reveal(deliver_one);
    lemma_positions(b, t.key);
    if let Some(i) = session_at(b, t.key) {
        let s = b.sessions[i];
        let m = routed(message, t);
        let s2 = with_planned(s, m, t.mode);
        let l = ledger_of(b.sessions);
        if let Some(id) = next_free(s) {
            lemma_exchange_more(s, id_after(id), fresh_exchange(id, m, false));
        }
        lemma_waiting_more(s, m);
        lemma_put_session(b, limits, i, s2);
        assert(ledger_of(b.sessions.update(i, s2)) =~= l.update(i, (l[i].0, usage_of(s2))));
        lemma_sum_update(l, i, usage_of(s2), p);
    }
}

/// A planned delivery happens if it finds what it needs, and touches no other session and no
/// other connection.
pub proof fn lemma_deliver_one(
    b: BrokerView,
    limits: Limits,
    message: MessageView,
    t: PlannedView,
    other: KeyView,
)
    requires
        t.mode != PlannedRouteMode::Offline ==> (active_at(b, t.key) matches Some(j)
            ==> frame_fits(b, limits, j, charge_of(message))),
        session_at(b, t.key) matches Some(i) ==> fits(
            b.sessions,
            limits,
            i,
            with_planned(b.sessions[i], routed(message, t), t.mode),
        ),
    ensures
        deliver_one(b, limits, message, t).1 == feasible(b, limits, charge_of(message), t),
        other != t.key ==> held(deliver_one(b, limits, message, t).0, other) == held(b, other),
        other != t.key ==> holder(deliver_one(b, limits, message, t).0, other) == holder(
            b,
            other,
        ),
{
    let next = deliver_one(b, limits, message, t).0;
    lemma_deliver_one_steady(b, limits, message, t);
    lemma_outline_positions(b, next, other);
    lemma_positions(b, t.key);
    reveal(deliver_one);
    reveal(put_session);
    reveal(feasible);
    if other != t.key {
        if let Some(i) = session_at(b, other) {
            assert(next.sessions[i] == b.sessions[i]);
        }
        if let Some(j) = active_at(b, other) {
            assert(next.links[j] == b.links[j]);
        }
    }
}

proof fn lemma_plan_step_feasible(
    b: BrokerView,
    limits: Limits,
    origin: Option<KeyView>,
    message: MessageView,
    plan: Seq<PlannedView>,
    key: KeyView,
    subscription: Subscription,
)
    ensures
        plan_step(b, limits, origin, message, plan, key, subscription) matches Ok(next) ==> {
            ||| next == plan
            ||| next.len() == plan.len() + 1 && next.drop_last() == plan && next.last().key == key
                && feasible(b, limits, charge_of(message), next.last()) && affordable(
                b,
                limits,
                charge_of(message),
                plan,
                next.last(),
            )
        },
{
    reveal(plan_step);
    reveal(feasible);
    reveal(affordable);
    if let Ok(next) = plan_step(b, limits, origin, message, plan, key, subscription) {
        if next != plan {
            assert(next.drop_last() =~= plan);
        }
    }
}

/// Every delivery of a plan finds what it needs where the plan was made, and no session occurs
/// twice in it.
pub open spec fn sound(
    b: BrokerView,
    limits: Limits,
    message: MessageView,
    plan: Seq<PlannedView>,
) -> bool {
    &&& forall|k: int|
        0 <= k < plan.len() ==> feasible(b, limits, charge_of(message), #[trigger] plan[k])
            && affordable(b, limits, charge_of(message), plan.take(k), plan[k])
    &&& forall|k: int, m: int|
        0 <= k < m < plan.len() ==> (#[trigger] plan[k]).key != (#[trigger] plan[m]).key
}

proof fn lemma_plan_sound(
    b: BrokerView,
    limits: Limits,
    origin: Option<KeyView>,
    message: MessageView,
    matches: Seq<(KeyView, Subscription)>,
    n: nat,
)
    requires
        n <= matches.len(),
        distinct(matches, entry_key()),
    ensures
        plan_first(b, limits, origin, message, matches, n) matches Ok(plan) ==> {
            &&& sound(b, limits, message, plan)
            &&& forall|k: int|
                0 <= k < plan.len() ==> exists|m: int|
                    0 <= m < n && (#[trigger] plan[k]).key == (#[trigger] matches[m]).0
        },
    decreases n,
{
    if n > 0 {
        lemma_plan_sound(b, limits, origin, message, matches, (n - 1) as nat);
        if let Ok(before) = plan_first(b, limits, origin, message, matches, (n - 1) as nat) {
            let (key, subscription) = matches[n - 1];
            lemma_plan_step_feasible(b, limits, origin, message, before, key, subscription);
            if let Ok(plan) = plan_first(b, limits, origin, message, matches, n) {
                assert forall|k: int| 0 <= k < before.len() implies plan[k] == before[k] by {
                    if plan != before {
                        assert(plan.drop_last()[k] == before[k]);
                    }
                }
                assert forall|k: int| 0 <= k < plan.len() implies feasible(
                    b,
                    limits,
                    charge_of(message),
                    #[trigger] plan[k],
                ) && affordable(b, limits, charge_of(message), plan.take(k), plan[k]) by {
                    if k < before.len() {
                        assert(plan.take(k) =~= before.take(k));
                        assert(feasible(b, limits, charge_of(message), before[k]));
                    } else {
                        assert(plan.take(k) =~= plan.drop_last());
                    }
                }
                assert forall|k: int| 0 <= k < before.len() implies (#[trigger] before[k]).key
                    != key by {
                    let m = choose|m: int|
                        0 <= m < n - 1 && before[k].key == (#[trigger] matches[m]).0;
                    assert(entry_key::<KeyView, Subscription>()(matches[m]) != entry_key::<
                        KeyView,
                        Subscription,
                    >()(matches[n - 1]));
                }
                assert forall|k: int| 0 <= k < plan.len() implies exists|m: int|
                    0 <= m < n && (#[trigger] plan[k]).key == (#[trigger] matches[m]).0 by {
                    if k < before.len() {
                        let m = choose|m: int|
                            0 <= m < n - 1 && before[k].key == (#[trigger] matches[m]).0;
                        assert(plan[k].key == matches[m].0);
                    } else {
                        assert(plan[k].key == matches[n - 1].0);
                    }
                }
            }
        }
    }
}

/// The plan of a message is sound where it is made.
pub proof fn lemma_route_sound(
    b: BrokerView,
    limits: Limits,
    tenant: Seq<char>,
    origin: Option<KeyView>,
    message: MessageView,
)
    ensures
        plan_route(b, limits, tenant, origin, message) matches Ok(plan) ==> sound(
            b,
            limits,
            message,
            plan,
        ),
{
    let matches = trie_matching(b.trie, message.topic);
    law_matching_names_each_once(b.trie, message.topic);
    lemma_plan_sound(b, limits, origin, message, matches, matches.len());
}

/// A plan stays sound while the sessions and the connections are the same.
pub proof fn lemma_sound_elsewhere(
    b: BrokerView,
    next: BrokerView,
    limits: Limits,
    message: MessageView,
    plan: Seq<PlannedView>,
)
    requires
        sound(b, limits, message, plan),
        next.sessions == b.sessions,
        next.links == b.links,
    ensures
        sound(next, limits, message, plan),
{
    reveal(feasible);
    reveal(affordable);
    let charge = charge_of(message);
    assert forall|k: int| 0 <= k < plan.len() implies feasible(
        next,
        limits,
        charge,
        #[trigger] plan[k],
    ) && affordable(next, limits, charge, plan.take(k), plan[k]) by {
        assert(feasible(b, limits, charge, plan[k]));
        assert(held(next, plan[k].key) == held(b, plan[k].key));
        assert(holder(next, plan[k].key) == holder(b, plan[k].key));
    }
}

/// A delivery that finds its session and its connection as they were when it was planned.
pub proof fn lemma_still_feasible(
    b: BrokerView,
    next: BrokerView,
    limits: Limits,
    message: MessageView,
    charge: nat,
    before: Seq<PlannedView>,
    t: PlannedView,
)
    requires
        charge == charge_of(message),
        grown_as_planned(b, next, charge, before),
        feasible(b, limits, charge, t),
        affordable(b, limits, charge, before, t),
        held(next, t.key) == held(b, t.key),
        holder(next, t.key) == holder(b, t.key),
        outbound_used(next, Some(t.key.device.tenant)) <= outbound_used(
            b,
            Some(t.key.device.tenant),
        ) + charge * planned(before, Some(t.key.device.tenant), PlanCount::Frames),
        outbound_used(next, None) <= outbound_used(b, None) + charge * planned(
            before,
            None,
            PlanCount::Frames,
        ),
    ensures
        feasible(next, limits, charge, t),
        t.mode != PlannedRouteMode::Offline ==> (active_at(next, t.key) matches Some(j)
            ==> frame_fits(next, limits, j, charge)),
        session_at(next, t.key) matches Some(i) ==> fits(
            next.sessions,
            limits,
            i,
            with_planned(next.sessions[i], routed(message, t), t.mode),
        ),
{
    reveal(feasible);
    reveal(affordable);
    lemma_positions(next, t.key);
    if let Some(i) = session_at(next, t.key) {
        let s = next.sessions[i];
        let m = routed(message, t);
        let tenant = t.key.device.tenant;
        if let Some(id) = next_free(s) {
            lemma_exchange_more(s, id_after(id), fresh_exchange(id, m, false));
        }
        lemma_waiting_more(s, m);
        lemma_second_count(s);
        assert(inflight(next, tenant, t.qos) <= inflight(b, tenant, t.qos) + planned(
            before,
            Some(tenant),
            PlanCount::Exchanges(t.qos),
        ));
        assert(tenant_usage(next.sessions, tenant).state_bytes <= tenant_usage(
            b.sessions,
            tenant,
        ).state_bytes + charge * planned(before, Some(tenant), PlanCount::Kept));
    }
}

proof fn lemma_one_more(
    plan: Seq<PlannedView>,
    n: int,
    scope: Option<Seq<char>>,
    what: PlanCount,
    charge: nat,
)
    requires
        0 < n <= plan.len(),
    ensures
        planned(plan.take(n), scope, what) == planned(plan.take(n - 1), scope, what) + adds(
            plan[n - 1],
            scope,
            what,
            1,
        ),
        charge * planned(plan.take(n), scope, what) == charge * planned(
            plan.take(n - 1),
            scope,
            what,
        ) + adds(plan[n - 1], scope, what, charge),
{
    let fewer = planned(plan.take(n - 1), scope, what);
    assert(plan.take(n).drop_last() =~= plan.take(n - 1));
    assert(charge * (fewer + 1) == charge * fewer + charge) by (nonlinear_arith);
}

proof fn lemma_nothing_grown(b: BrokerView, charge: nat, plan: Seq<PlannedView>)
    ensures
        grown_as_planned(b, b, charge, plan),
{
    assert(0 <= charge * planned(plan, None, PlanCount::Waiting)) by (nonlinear_arith);
    assert(0 <= charge * planned(plan, None, PlanCount::Kept)) by (nonlinear_arith);
    assert forall|tenant: Seq<char>|
        (#[trigger] tenant_usage(b.sessions, tenant)).state_bytes <= tenant_usage(
            b.sessions,
            tenant,
        ).state_bytes + charge * planned(plan, Some(tenant), PlanCount::Kept) by {
        assert(0 <= charge * planned(plan, Some(tenant), PlanCount::Kept)) by (nonlinear_arith);
    }
}

/// One more delivery of a plan grows the sessions by what was planned for it.
proof fn lemma_grown(
    b: BrokerView,
    before: BrokerView,
    limits: Limits,
    message: MessageView,
    plan: Seq<PlannedView>,
    n: int,
)
    requires
        0 < n <= plan.len(),
        grown_as_planned(b, before, charge_of(message), plan.take(n - 1)),
    ensures
        grown_as_planned(
            b,
            deliver_one(before, limits, message, plan[n - 1]).0,
            charge_of(message),
            plan.take(n),
        ),
{
    let t = plan[n - 1];
    let charge = charge_of(message);
    let next = deliver_one(before, limits, message, t).0;
    lemma_deliver_one_usage(before, limits, message, t, anyone());
    lemma_one_more(plan, n, None, PlanCount::Waiting, charge);
    lemma_one_more(plan, n, None, PlanCount::Kept, charge);
    assert forall|tenant: Seq<char>|
        (#[trigger] tenant_usage(next.sessions, tenant)).state_bytes <= tenant_usage(
            b.sessions,
            tenant,
        ).state_bytes + charge * planned(plan.take(n), Some(tenant), PlanCount::Kept) by {
        lemma_deliver_one_usage(before, limits, message, t, in_tenant(tenant));
        lemma_one_more(plan, n, Some(tenant), PlanCount::Kept, charge);
        assert(tenant_usage(before.sessions, tenant).state_bytes <= tenant_usage(
            b.sessions,
            tenant,
        ).state_bytes + charge * planned(plan.take(n - 1), Some(tenant), PlanCount::Kept));
    }
    assert forall|tenant: Seq<char>, qos: u8| #[trigger]
        inflight(next, tenant, qos) <= inflight(b, tenant, qos) + planned(
            plan.take(n),
            Some(tenant),
            PlanCount::Exchanges(qos),
        ) by {
        lemma_deliver_one_usage(before, limits, message, t, in_tenant(tenant));
        lemma_one_more(plan, n, Some(tenant), PlanCount::Exchanges(qos), charge);
        assert(inflight(before, tenant, qos) <= inflight(b, tenant, qos) + planned(
            plan.take(n - 1),
            Some(tenant),
            PlanCount::Exchanges(qos),
        ));
    }
}

/// A sound plan carried out: everything in it happens, within the bounds, and nobody else is
/// touched.
pub proof fn lemma_deliver_first(
    b: BrokerView,
    limits: Limits,
    message: MessageView,
    plan: Seq<PlannedView>,
    n: nat,
)
    requires
        sound(b, limits, message, plan),
        n <= plan.len(),
    ensures
        deliver_first(b, limits, message, plan, n).1 == n,
        steady(b, deliver_first(b, limits, message, plan, n).0, limits),
        forall|scope: Option<Seq<char>>| #[trigger]
            outbound_used(deliver_first(b, limits, message, plan, n).0, scope) <= outbound_used(
                b,
                scope,
            ) + charge_of(message) * planned(plan.take(n as int), scope, PlanCount::Frames),
        grown_as_planned(
            b,
            deliver_first(b, limits, message, plan, n).0,
            charge_of(message),
            plan.take(n as int),
        ),
        forall|key: KeyView|
            (forall|k: int| 0 <= k < n ==> (#[trigger] plan[k]).key != key) ==> {
                &&& #[trigger] held(deliver_first(b, limits, message, plan, n).0, key) == held(
                    b,
                    key,
                )
                &&& holder(deliver_first(b, limits, message, plan, n).0, key) == holder(b, key)
            },
    decreases n,
{
    lemma_steady_refl(b, limits);
    let charge = charge_of(message);
    if n == 0 {
        lemma_nothing_grown(b, charge, plan.take(0));
        assert forall|scope: Option<Seq<char>>| #[trigger] outbound_used(b, scope)
            <= outbound_used(b, scope) + charge * planned(
            plan.take(0),
            scope,
            PlanCount::Frames,
        ) by {
            assert(0 <= charge * planned(plan.take(0), scope, PlanCount::Frames))
                by (nonlinear_arith);
        }
    } else {
        let before = deliver_first(b, limits, message, plan, (n - 1) as nat).0;
        let next = deliver_first(b, limits, message, plan, n).0;
        let t = plan[n - 1];
        lemma_deliver_first(b, limits, message, plan, (n - 1) as nat);
        assert(held(before, t.key) == held(b, t.key));
        assert(holder(before, t.key) == holder(b, t.key));
        assert(feasible(b, limits, charge, t));
        assert(affordable(b, limits, charge, plan.take(n - 1), t));
        let own = Some(t.key.device.tenant);
        assert(outbound_used(before, own) <= outbound_used(b, own) + charge * planned(
            plan.take(n - 1),
            own,
            PlanCount::Frames,
        ));
        assert(outbound_used(before, None) <= outbound_used(b, None) + charge * planned(
            plan.take(n - 1),
            None,
            PlanCount::Frames,
        ));
        lemma_still_feasible(b, before, limits, message, charge, plan.take(n - 1), t);
        lemma_deliver_one(before, limits, message, t, t.key);
        lemma_deliver_one_steady(before, limits, message, t);
        lemma_steady_trans(b, before, next, limits);
        lemma_grown(b, before, limits, message, plan, n as int);
        assert forall|scope: Option<Seq<char>>| #[trigger] outbound_used(next, scope)
            <= outbound_used(b, scope) + charge * planned(
            plan.take(n as int),
            scope,
            PlanCount::Frames,
        ) by {
            lemma_deliver_one_bytes(before, limits, message, t, scope);
            assert(outbound_used(before, scope) <= outbound_used(b, scope) + charge * planned(
                plan.take(n - 1),
                scope,
                PlanCount::Frames,
            ));
            lemma_one_more(plan, n as int, scope, PlanCount::Frames, charge);
        }
        assert forall|key: KeyView|
            (forall|k: int| 0 <= k < n ==> (#[trigger] plan[k]).key != key) implies {
            &&& #[trigger] held(next, key) == held(b, key)
            &&& holder(next, key) == holder(b, key)
        } by {
            assert(plan[n - 1].key != key);
            assert(held(before, key) == held(b, key));
            lemma_deliver_one(before, limits, message, t, key);
        }
    }
}

/// A publication that is taken is taken as a whole: every delivery that was planned for it
/// happens.
pub proof fn law_whole_plan_is_carried_out(
    b: BrokerView,
    limits: Limits,
    now: i64,
    tenant: Seq<char>,
    origin: Option<KeyView>,
    message: MessageView,
)
    requires
        !expired_spec(message, now),
    ensures
        ({
            let b1 = prune_before_route(b, limits, now, message.topic);
            match plan_route(b1, limits, tenant, origin, message) {
                Err(error) => route_message(b, limits, now, tenant, origin, message).1 == Err::<
                    nat,
                    Error,
                >(error),
                Ok(plan) => route_message(b, limits, now, tenant, origin, message).1 == Ok::<
                    nat,
                    Error,
                >(plan.len()),
            }
        }),
{
    reveal(route_message);
    let b1 = prune_before_route(b, limits, now, message.topic);
    lemma_route_sound(b1, limits, tenant, origin, message);
    if let Ok(plan) = plan_route(b1, limits, tenant, origin, message) {
        let b2 = if message.retain {
            update_retained(b1, tenant, origin, message)
        } else {
            b1
        };
        lemma_sound_elsewhere(b1, b2, limits, message, plan);
        lemma_deliver_first(b2, limits, message, plan, plan.len());
    }
}

} // verus!
