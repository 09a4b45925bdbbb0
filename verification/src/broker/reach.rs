//! Whom a publication reaches, and with what.
use super::carry::{
    affordable, feasible, holder, lemma_deliver_first, lemma_deliver_one, lemma_route_sound,
    lemma_sound_elsewhere, lemma_still_feasible, sound,
};
use super::flow::lemma_deliver_one_steady;
use super::model::{
    drive, has_room, inflight, lemma_put_session, outbound_used, prune_messages, put_session,
    session_at, state_bytes, update_retained, BrokerView, FrameView, LinkView,
    HOT_MAINTENANCE_BUDGET,
};
use super::route::{
    deliver_first, deliver_one, plan_first, plan_route, plan_step, planned, planned_for,
    prune_before_route, route_message, routed, PlanCount, PlannedRouteMode, PlannedView,
};
use super::tidy::{lemma_outline_positions, lemma_positions, steady};
use super::turnover::held;
use crate::error::Error;
use crate::identity::KeyView;
use crate::limits::Limits;
use crate::list::count;
use crate::message::{charge_of, expired_spec, message_valid, MessageView};
use crate::session::{
    law_free_id_is_unused, next_free, outbound_capacity, send_quota_left, session_charge, usage_of,
    OutboundStage, OutboundView, SessionView, Subscription,
};
use crate::trie::{law_matching_names_each_once, trie_matching};
use crate::usage::{tenant_usage, total_usage};
use super::service::publish;
use vstd::prelude::*;

verus! {

/// What comes before a place in the plan is for the first `m` subscribers, the rest for the others.
pub open spec fn parted(
    plan: Seq<PlannedView>,
    matches: Seq<(KeyView, Subscription)>,
    m: int,
    p: int,
) -> bool {
    &&& 0 <= p <= plan.len()
    &&& forall|k: int|
        0 <= k < p ==> exists|n: int| 0 <= n < m && (#[trigger] plan[k]).key == (
        #[trigger] matches[n]).0
    &&& forall|k: int|
        p <= k < plan.len() ==> exists|n: int|
            m <= n < matches.len() && (#[trigger] plan[k]).key == (#[trigger] matches[n]).0
}

/// How many frames a plan has for the connections of a tenant.
pub open spec fn frames_for(plan: Seq<PlannedView>, tenant: Seq<char>) -> nat {
    count(
        plan,
        |t: PlannedView| t.mode != PlannedRouteMode::Offline && t.key.device.tenant == tenant,
    )
}

/// How many frames a plan has.
pub open spec fn frames_of(plan: Seq<PlannedView>) -> nat {
    count(plan, |t: PlannedView| t.mode != PlannedRouteMode::Offline)
}

/// The subscriber is connected, its connection takes frames and has room for one more, and the
/// bytes of the message are within the bounds of the connection, of the tenant and of all, together
/// with those of the frames that were planned before.
pub open spec fn within_reach(
    b: BrokerView,
    limits: Limits,
    message: MessageView,
    key: KeyView,
    before: Seq<PlannedView>,
) -> bool {
    let bytes = charge_of(message);
    let tenant = key.device.tenant;
    holder(b, key) matches Some(l) && {
        &&& l.open
        &&& l.queue.len() < limits.max_outbound_messages_per_connection
        &&& l.used + bytes <= limits.max_outbound_bytes_per_connection
        &&& outbound_used(b, Some(tenant)) + bytes * frames_for(before, tenant) + bytes
            <= limits.max_outbound_bytes_per_tenant
        &&& outbound_used(b, None) + bytes * frames_of(before) + bytes <= limits.max_outbound_bytes
    }
}

/// The lower of two qualities of service.
pub open spec fn lower_of(qos: u8, a: u8, b: u8) -> bool {
    qos <= a && qos <= b && (qos == a || qos == b)
}

/// What a plan says for one subscriber: nothing if it does not want its own messages or can only
/// be reached at most once and is out of reach; else the lower quality of service, at once over
/// the connection or as a message that waits.
pub open spec fn served(
    b: BrokerView,
    limits: Limits,
    origin: Option<KeyView>,
    message: MessageView,
    plan: Seq<PlannedView>,
    p: int,
    key: KeyView,
    subscription: Subscription,
) -> bool {
    let before = plan.take(p);
    let here = p < plan.len() && plan[p].key == key;
    let reached = within_reach(b, limits, message, key, before);
    let once = message.qos == 0 || subscription.qos == 0;
    &&& here <==> !(subscription.no_local && origin == Some(key)) && (!once || reached)
    &&& here ==> {
        let t = plan[p];
        &&& lower_of(t.qos, message.qos, subscription.qos)
        &&& t.retain_as_published == subscription.retain_as_published
        &&& once <==> t.mode == PlannedRouteMode::Qos0
        &&& t.mode == PlannedRouteMode::Live ==> reached
        &&& !once && reached && (held(b, key) matches Some(s) && outbound_capacity(s, t.qos, limits)
            && send_quota_left(s)) && inflight(b, key.device.tenant, t.qos) + count(
            before,
            |o: PlannedView|
                o.mode == PlannedRouteMode::Live && o.key.device.tenant == key.device.tenant && (
                o.qos == 1) == (t.qos == 1),
        ) < (if t.qos == 1 {
            limits.max_inflight_qos1_per_tenant
        } else {
            limits.max_inflight_qos2_per_tenant
        }) ==> t.mode == PlannedRouteMode::Live
    }
}

/// A subscriber has its place in a plan, after those before it, or none where none is due.
pub open spec fn well_served(
    b: BrokerView,
    limits: Limits,
    origin: Option<KeyView>,
    message: MessageView,
    plan: Seq<PlannedView>,
    matches: Seq<(KeyView, Subscription)>,
    m: int,
) -> bool {
    exists|p: int| #[trigger]
        parted(plan, matches, m, p) && served(
            b,
            limits,
            origin,
            message,
            plan,
            p,
            matches[m].0,
            matches[m].1,
        )
}

proof fn lemma_counts(plan: Seq<PlannedView>, tenant: Seq<char>, qos: u8)
    ensures
        planned(plan, Some(tenant), PlanCount::Frames) == frames_for(plan, tenant),
        planned(plan, None, PlanCount::Frames) == frames_of(plan),
        planned(plan, Some(tenant), PlanCount::Exchanges(qos)) == count(
            plan,
            |o: PlannedView|
                o.mode == PlannedRouteMode::Live && o.key.device.tenant == tenant && (o.qos == 1)
                    == (qos == 1),
        ),
{
    assert(planned_for(Some(tenant), PlanCount::Frames) =~= (|t: PlannedView|
        t.mode != PlannedRouteMode::Offline && t.key.device.tenant == tenant));
    assert(planned_for(None, PlanCount::Frames) =~= (|t: PlannedView|
        t.mode != PlannedRouteMode::Offline));
    assert(planned_for(Some(tenant), PlanCount::Exchanges(qos)) =~= (|o: PlannedView|
        o.mode == PlannedRouteMode::Live && o.key.device.tenant == tenant && (o.qos == 1) == (qos
            == 1)));
}

proof fn lemma_step_serves(
    b: BrokerView,
    limits: Limits,
    origin: Option<KeyView>,
    message: MessageView,
    plan: Seq<PlannedView>,
    key: KeyView,
    subscription: Subscription,
)
    ensures
        plan_step(b, limits, origin, message, plan, key, subscription) matches Ok(next) ==> {
            &&& next == plan || next.len() == plan.len() + 1 && next.drop_last() == plan
                && next.last().key == key
            &&& served(b, limits, origin, message, next, plan.len() as int, key, subscription)
        },
{
    reveal(plan_step);
    if let Ok(next) = plan_step(b, limits, origin, message, plan, key, subscription) {
        let qos = if message.qos <= subscription.qos {
            message.qos
        } else {
            subscription.qos
        };
        lemma_counts(plan, key.device.tenant, qos);
        if next != plan {
            assert(next.drop_last() =~= plan);
        }
        assert(next.take(plan.len() as int) =~= plan);
    }
}

proof fn lemma_plan_serves(
    b: BrokerView,
    limits: Limits,
    origin: Option<KeyView>,
    message: MessageView,
    matches: Seq<(KeyView, Subscription)>,
    n: nat,
    m: int,
)
    requires
        n <= matches.len(),
        0 <= m < n,
        forall|i: int, j: int|
            0 <= i < j < matches.len() ==> (#[trigger] matches[i]).0 != (#[trigger] matches[j]).0,
    ensures
        plan_first(b, limits, origin, message, matches, n) matches Ok(plan) ==> well_served(
            b,
            limits,
            origin,
            message,
            plan,
            matches.take(n as int),
            m,
        ),
    decreases n,
{
    let before = plan_first(b, limits, origin, message, matches, (n - 1) as nat);
    let after = plan_first(b, limits, origin, message, matches, n);
    if let (Ok(old_plan), Ok(plan)) = (before, after) {
        let (key, subscription) = matches[n - 1];
        let mine = matches.take(n as int);
        lemma_step_serves(b, limits, origin, message, old_plan, key, subscription);
        lemma_all_named(b, limits, origin, message, matches, (n - 1) as nat);
        assert forall|k: int| 0 <= k < old_plan.len() implies plan[k] == old_plan[k] by {
            if plan != old_plan {
                assert(plan.drop_last()[k] == old_plan[k]);
            }
        }
        if m == n - 1 {
            let p = old_plan.len() as int;
            assert forall|k: int| 0 <= k < p implies exists|i: int|
                0 <= i < m && (#[trigger] plan[k]).key == (#[trigger] mine[i]).0 by {
                let i = choose|i: int|
                    0 <= i < n - 1 && old_plan[k].key == (#[trigger] matches[i]).0;
                assert(mine[i] == matches[i]);
            }
            assert forall|k: int| p <= k < plan.len() implies exists|i: int|
                m <= i < mine.len() && (#[trigger] plan[k]).key == (#[trigger] mine[i]).0 by {
                assert(mine[m] == matches[m]);
            }
            assert(parted(plan, mine, m, p));
        } else {
            lemma_plan_serves(b, limits, origin, message, matches, (n - 1) as nat, m);
            let fewer = matches.take(n - 1);
            let p = choose|p: int| #[trigger]
                parted(old_plan, fewer, m, p) && served(
                    b,
                    limits,
                    origin,
                    message,
                    old_plan,
                    p,
                    matches[m].0,
                    matches[m].1,
                );
            assert forall|k: int| 0 <= k < p implies exists|i: int|
                0 <= i < m && (#[trigger] plan[k]).key == (#[trigger] mine[i]).0 by {
                assert(plan[k] == old_plan[k]);
                let i = choose|i: int| 0 <= i < m && old_plan[k].key == (#[trigger] fewer[i]).0;
                assert(mine[i] == fewer[i]);
            }
            assert forall|k: int| p <= k < plan.len() implies exists|i: int|
                m <= i < mine.len() && (#[trigger] plan[k]).key == (#[trigger] mine[i]).0 by {
                if k < old_plan.len() {
                    assert(plan[k] == old_plan[k]);
                    let i = choose|i: int|
                        m <= i < fewer.len() && old_plan[k].key == (#[trigger] fewer[i]).0;
                    assert(mine[i] == fewer[i]);
                } else {
                    assert(mine[n - 1] == matches[n - 1]);
                }
            }
            assert(parted(plan, mine, m, p));
            assert(plan.take(p) =~= old_plan.take(p));
            if p == old_plan.len() && p < plan.len() {
                assert(matches[m].0 != matches[n - 1].0);
            }
        }
    }
}

/// Whoever is in a plan is a subscriber.
proof fn lemma_all_named(
    b: BrokerView,
    limits: Limits,
    origin: Option<KeyView>,
    message: MessageView,
    matches: Seq<(KeyView, Subscription)>,
    n: nat,
)
    requires
        n <= matches.len(),
    ensures
        plan_first(b, limits, origin, message, matches, n) matches Ok(plan) ==> forall|k: int|
            0 <= k < plan.len() ==> exists|i: int|
                0 <= i < n && (#[trigger] plan[k]).key == (#[trigger] matches[i]).0,
    decreases n,
{
    if n > 0 {
        lemma_all_named(b, limits, origin, message, matches, (n - 1) as nat);
        if let (Ok(before), Ok(plan)) = (
            plan_first(b, limits, origin, message, matches, (n - 1) as nat),
            plan_first(b, limits, origin, message, matches, n),
        ) {
            let (key, subscription) = matches[n - 1];
            lemma_step_serves(b, limits, origin, message, before, key, subscription);
            assert forall|k: int| 0 <= k < plan.len() implies exists|i: int|
                0 <= i < n && (#[trigger] plan[k]).key == (#[trigger] matches[i]).0 by {
                if k < before.len() {
                    if plan != before {
                        assert(plan.drop_last()[k] == before[k]);
                    }
                    let i = choose|i: int|
                        0 <= i < n - 1 && before[k].key == (#[trigger] matches[i]).0;
                    assert(plan[k].key == matches[i].0);
                } else {
                    assert(plan[k].key == matches[n - 1].0);
                }
            }
        }
    }
}

/// A publication that is planned is planned for every subscriber of its topic, and for nobody else:
/// for each at the lower of the two qualities of service, except for a sender that does not want
/// its own messages, and for those alone who get it at most once and are out of reach.
pub proof fn law_every_subscriber_is_served(
    b: BrokerView,
    limits: Limits,
    tenant: Seq<char>,
    origin: Option<KeyView>,
    message: MessageView,
)
    ensures
        plan_route(b, limits, tenant, origin, message) matches Ok(plan) ==> {
            let matches = trie_matching(b.trie, message.topic);
            &&& forall|k: int|
                0 <= k < plan.len() ==> exists|m: int|
                    0 <= m < matches.len() && (#[trigger] plan[k]).key == (#[trigger] matches[m]).0
            &&& forall|m: int|
                0 <= m < matches.len() ==> #[trigger]
                    well_served(b, limits, origin, message, plan, matches, m)
        },
{
    let matches = trie_matching(b.trie, message.topic);
    law_matching_names_each_once(b.trie, message.topic);
    if let Ok(plan) = plan_route(b, limits, tenant, origin, message) {
        lemma_all_named(b, limits, origin, message, matches, matches.len());
        assert(matches.take(matches.len() as int) =~= matches);
        assert forall|i: int, j: int| 0 <= i < j < matches.len() implies (#[trigger] matches[i]).0
            != (#[trigger] matches[j]).0 by {
            assert(crate::table::entry_key::<KeyView, Subscription>()(matches[i])
                != crate::table::entry_key::<KeyView, Subscription>()(matches[j]));
        }
        assert forall|m: int| 0 <= m < matches.len() implies #[trigger] well_served(
            b,
            limits,
            origin,
            message,
            plan,
            matches,
            m,
        ) by {
            lemma_plan_serves(b, limits, origin, message, matches, matches.len(), m);
        }
    }
}

/// The message as a subscriber gets it: at its quality of service, marked as retained only where
/// the subscriber asked for that and it is, and otherwise as it was published.
pub open spec fn copy_for(message: MessageView, qos: u8, as_published: bool) -> MessageView {
    MessageView {
        topic: message.topic,
        payload: message.payload,
        qos,
        retain: as_published && message.retain,
        properties: message.properties,
    }
}

/// One subscriber has got a message: as the last frame of its connection, without an identifier or
/// with one that no other exchange uses and as a new exchange, or as the last of the messages that
/// wait for it. Nothing else of it has changed.
#[verifier::opaque]
pub open spec fn got(
    message: MessageView,
    t: PlannedView,
    session: Option<SessionView>,
    link: Option<LinkView>,
    session_after: Option<SessionView>,
    link_after: Option<LinkView>,
) -> bool {
    let copy = copy_for(message, t.qos, t.retain_as_published);
    match t.mode {
        PlannedRouteMode::Qos0 => {
            &&& session_after == session
            &&& link matches Some(l) && link_after matches Some(next) && next == (LinkView {
                queue: l.queue.push(
                    FrameView::Publish {
                        message: copy,
                        packet_id: None,
                        dup: false,
                        command: false,
                    },
                ),
                used: next.used,
                ..l
            })
        },
        PlannedRouteMode::Live => link matches Some(l) && link_after matches Some(next) && session
            matches Some(s) && session_after matches Some(s2) && s2.outbound.len()
            == s.outbound.len() + 1 && {
            let e = s2.outbound.last();
            &&& s.next_packet_id != 0 ==> e.packet_id != 0
            &&& s.next_packet_id != 0 ==> forall|k: int|
                0 <= k < s.outbound.len() ==> (#[trigger] s.outbound[k]).packet_id != e.packet_id
            &&& e == (OutboundView {
                packet_id: e.packet_id,
                stage: if t.qos == 1 {
                    OutboundStage::Puback
                } else {
                    OutboundStage::Pubrec
                },
                message: copy,
                command: false,
                sent: true,
                windowed: true,
                started: false,
            })
            &&& s2 == (SessionView {
                next_packet_id: s2.next_packet_id,
                outbound: s.outbound.push(e),
                ..s
            })
            &&& next == (LinkView {
                queue: l.queue.push(
                    FrameView::Publish {
                        message: copy,
                        packet_id: Some(e.packet_id),
                        dup: false,
                        command: false,
                    },
                ),
                used: next.used,
                ..l
            })
        },
        PlannedRouteMode::Offline => {
            &&& link_after == link
            &&& session matches Some(s) && session_after == Some(
                SessionView { offline: s.offline.push(copy), ..s },
            )
        },
    }
}

proof fn lemma_one_got(b: BrokerView, limits: Limits, message: MessageView, t: PlannedView)
    requires
        feasible(b, limits, charge_of(message), t),
        t.mode != PlannedRouteMode::Offline ==> (holder(b, t.key) matches Some(l) && l.open
            && has_room(l, limits)),
        steady(b, deliver_one(b, limits, message, t).0, limits),
    ensures
        ({
            let next = deliver_one(b, limits, message, t).0;
            got(
                message,
                t,
                held(b, t.key),
                holder(b, t.key),
                held(next, t.key),
                holder(next, t.key),
            )
        }),
{
    let next = deliver_one(b, limits, message, t).0;
    lemma_outline_positions(b, next, t.key);
    lemma_positions(b, t.key);
    reveal(deliver_one);
    reveal(feasible);
    reveal(got);
    assert(routed(message, t) == copy_for(message, t.qos, t.retain_as_published));
    if let Some(i) = session_at(b, t.key) {
        let s = b.sessions[i];
        if let Some(id) = next_free(s) {
            if s.next_packet_id != 0 {
                law_free_id_is_unused(s.outbound, s.next_packet_id, u16::MAX as nat);
            }
        }
        assert forall|x: SessionView| (#[trigger] put_session(b, limits, i, x)).sessions
            == b.sessions.update(i, x) && put_session(b, limits, i, x).links == b.links by {
            lemma_put_session(b, limits, i, x);
        }
    }
}

#[verifier::rlimit(60)]
proof fn lemma_next_got(
    b: BrokerView,
    limits: Limits,
    message: MessageView,
    plan: Seq<PlannedView>,
    n: nat,
)
    requires
        sound(b, limits, message, plan),
        0 < n <= plan.len(),
        plan[n - 1].mode != PlannedRouteMode::Offline ==> (holder(b, plan[n - 1].key) matches Some(l)
            && l.open && has_room(l, limits)),
    ensures
        ({
            let before = deliver_first(b, limits, message, plan, (n - 1) as nat).0;
            let next = deliver_first(b, limits, message, plan, n).0;
            let t = plan[n - 1];
            &&& next == deliver_one(before, limits, message, t).0
            &&& got(
                message,
                t,
                held(b, t.key),
                holder(b, t.key),
                held(next, t.key),
                holder(next, t.key),
            )
            &&& forall|key: KeyView|
                key != t.key ==> {
                    &&& #[trigger] held(next, key) == held(before, key)
                    &&& holder(next, key) == holder(before, key)
                }
        }),
{
    let charge = charge_of(message);
    let before = deliver_first(b, limits, message, plan, (n - 1) as nat).0;
    let next = deliver_first(b, limits, message, plan, n).0;
    let t = plan[n - 1];
    lemma_deliver_first(b, limits, message, plan, (n - 1) as nat);
    assert(held(before, t.key) == held(b, t.key));
    assert(holder(before, t.key) == holder(b, t.key));
    assert(feasible(b, limits, charge, t));
    assert(affordable(b, limits, charge, plan.take(n - 1), t));
    let own = Some(t.key.device.tenant);
    assert(outbound_used(before, own) <= outbound_used(b, own) + charge * planned(
        plan.take(n - 1),
        own,
        PlanCount::Frames,
    ));
    assert(outbound_used(before, None) <= outbound_used(b, None) + charge * planned(
        plan.take(n - 1),
        None,
        PlanCount::Frames,
    ));
    lemma_still_feasible(b, before, limits, message, charge, plan.take(n - 1), t);
    lemma_deliver_one_steady(before, limits, message, t);
    lemma_one_got(before, limits, message, t);
    assert forall|key: KeyView| key != t.key implies {
        &&& #[trigger] held(next, key) == held(before, key)
        &&& holder(next, key) == holder(before, key)
    } by {
        lemma_deliver_one(before, limits, message, t, key);
    }
}

proof fn lemma_all_got(
    b: BrokerView,
    limits: Limits,
    message: MessageView,
    plan: Seq<PlannedView>,
    n: nat,
)
    requires
        sound(b, limits, message, plan),
        n <= plan.len(),
        forall|k: int|
            0 <= k < plan.len() && (#[trigger] plan[k]).mode != PlannedRouteMode::Offline ==> (
            holder(b, plan[k].key) matches Some(l) && l.open && has_room(l, limits)),
    ensures
        ({
            let next = deliver_first(b, limits, message, plan, n).0;
            forall|k: int|
                0 <= k < n ==> got(
                    message,
                    #[trigger] plan[k],
                    held(b, plan[k].key),
                    holder(b, plan[k].key),
                    held(next, plan[k].key),
                    holder(next, plan[k].key),
                )
        }),
    decreases n,
{
    if n > 0 {
        let before = deliver_first(b, limits, message, plan, (n - 1) as nat).0;
        let next = deliver_first(b, limits, message, plan, n).0;
        let t = plan[n - 1];
        lemma_all_got(b, limits, message, plan, (n - 1) as nat);
        lemma_next_got(b, limits, message, plan, n);
        assert forall|k: int| 0 <= k < n implies got(
            message,
            #[trigger] plan[k],
            held(b, plan[k].key),
            holder(b, plan[k].key),
            held(next, plan[k].key),
            holder(next, plan[k].key),
        ) by {
            if k < n - 1 {
                assert(plan[k].key != t.key);
                assert(held(next, plan[k].key) == held(before, plan[k].key));
            }
        }
    }
}

proof fn lemma_reached(
    b: BrokerView,
    limits: Limits,
    origin: Option<KeyView>,
    message: MessageView,
    matches: Seq<(KeyView, Subscription)>,
    n: nat,
)
    requires
        n <= matches.len(),
    ensures
        plan_first(b, limits, origin, message, matches, n) matches Ok(plan) ==> forall|k: int|
            0 <= k < plan.len() && (#[trigger] plan[k]).mode != PlannedRouteMode::Offline ==> (
            holder(b, plan[k].key) matches Some(l) && l.open && has_room(l, limits)),
    decreases n,
{
    if n > 0 {
        lemma_reached(b, limits, origin, message, matches, (n - 1) as nat);
        if let (Ok(before), Ok(plan)) = (
            plan_first(b, limits, origin, message, matches, (n - 1) as nat),
            plan_first(b, limits, origin, message, matches, n),
        ) {
            let (key, subscription) = matches[n - 1];
            lemma_step_serves(b, limits, origin, message, before, key, subscription);
            assert forall|k: int|
                0 <= k < plan.len() && (#[trigger] plan[k]).mode
                    != PlannedRouteMode::Offline implies (holder(b, plan[k].key) matches Some(l)
                && l.open && has_room(l, limits)) by {
                if k < before.len() {
                    if plan != before {
                        assert(plan.drop_last()[k] == before[k]);
                    }
                    assert(before[k].mode != PlannedRouteMode::Offline);
                }
            }
        }
    }
}

/// A publication that is taken gets to everyone it is planned for, as it was published but for the
/// quality of service and the retain flag; nobody else is touched; and the number that is reported
/// is the number of those who got it.
pub proof fn law_everyone_planned_for_gets_the_message(
    b: BrokerView,
    limits: Limits,
    now: i64,
    tenant: Seq<char>,
    origin: Option<KeyView>,
    message: MessageView,
)
    requires
        !expired_spec(message, now),
        route_message(b, limits, now, tenant, origin, message).1 is Ok,
    ensures
        ({
            let b1 = prune_before_route(b, limits, now, message.topic);
            let (next, reported) = route_message(b, limits, now, tenant, origin, message);
            plan_route(b1, limits, tenant, origin, message) matches Ok(plan) && {
                &&& reported == Ok::<nat, Error>(plan.len())
                &&& forall|k: int|
                    0 <= k < plan.len() ==> got(
                        message,
                        #[trigger] plan[k],
                        held(b1, plan[k].key),
                        holder(b1, plan[k].key),
                        held(next, plan[k].key),
                        holder(next, plan[k].key),
                    )
                &&& forall|key: KeyView|
                    (forall|k: int| 0 <= k < plan.len() ==> (#[trigger] plan[k]).key != key) ==> {
                        &&& #[trigger] held(next, key) == held(b1, key)
                        &&& holder(next, key) == holder(b1, key)
                    }
            }
        }),
{
    reveal(route_message);
    let b1 = prune_before_route(b, limits, now, message.topic);
    let matches = trie_matching(b1.trie, message.topic);
    lemma_route_sound(b1, limits, tenant, origin, message);
    lemma_reached(b1, limits, origin, message, matches, matches.len());
    if let Ok(plan) = plan_route(b1, limits, tenant, origin, message) {
        let b2 = if message.retain {
            update_retained(b1, tenant, origin, message)
        } else {
            b1
        };
        lemma_sound_elsewhere(b1, b2, limits, message, plan);
        assert forall|key: KeyView| #[trigger] held(b2, key) == held(b1, key) && holder(b2, key)
            == holder(b1, key) by {}
        assert forall|k: int|
            0 <= k < plan.len() && (#[trigger] plan[k]).mode != PlannedRouteMode::Offline implies (
        holder(b2, plan[k].key) matches Some(l) && l.open && has_room(l, limits)) by {
            assert(held(b2, plan[k].key) == held(b1, plan[k].key));
        }
        lemma_deliver_first(b2, limits, message, plan, plan.len());
        lemma_all_got(b2, limits, message, plan, plan.len());
        let next = deliver_first(b2, limits, message, plan, plan.len()).0;
        assert forall|k: int| 0 <= k < plan.len() implies got(
            message,
            #[trigger] plan[k],
            held(b1, plan[k].key),
            holder(b1, plan[k].key),
            held(next, plan[k].key),
            holder(next, plan[k].key),
        ) by {
            assert(held(b2, plan[k].key) == held(b1, plan[k].key));
        }
    }
}

/// There is room for a message in a session, and for so many more of its size with the tenant and
/// with all.
pub open spec fn has_space(
    b: BrokerView,
    limits: Limits,
    s: SessionView,
    charge: nat,
    n: nat,
) -> bool {
    let own = tenant_usage(b.sessions, s.key.device.tenant);
    let all = total_usage(b.sessions);
    &&& session_charge(s) + charge <= limits.max_mqtt_session_state_bytes
    &&& state_bytes(b, Some(s.key.device.tenant)) + charge * n
        <= limits.max_mqtt_session_state_bytes_per_tenant
    &&& state_bytes(b, None) + charge * n <= limits.global_mqtt_session_bytes
    &&& s.offline.len() + 1 <= limits.max_offline_messages_per_session
    &&& usage_of(s).offline_bytes + charge <= limits.max_offline_bytes_per_session
    &&& own.offline_count + n <= limits.max_offline_messages_per_tenant
    &&& own.offline_bytes + charge * n <= limits.max_offline_bytes_per_tenant
    &&& all.offline_count + n <= limits.max_offline_messages
    &&& all.offline_bytes + charge * n <= limits.max_offline_bytes
    &&& next_free(s) is Some
}

proof fn lemma_planned_bound(plan: Seq<PlannedView>, scope: Option<Seq<char>>, what: PlanCount)
    ensures
        planned(plan, scope, what) <= plan.len(),
{
    lemma_count_bound(plan, planned_for(scope, what));
}

proof fn lemma_count_bound(plan: Seq<PlannedView>, p: spec_fn(PlannedView) -> bool)
    ensures
        count(plan, p) <= plan.len(),
    decreases plan.len(),
{
    if plan.len() > 0 {
        lemma_count_bound(plan.drop_last(), p);
    }
}

proof fn lemma_step_has_space(
    b: BrokerView,
    limits: Limits,
    origin: Option<KeyView>,
    message: MessageView,
    plan: Seq<PlannedView>,
    key: KeyView,
    subscription: Subscription,
    n: nat,
)
    requires
        plan.len() < n,
        charge_of(message) <= limits.max_outbound_bytes_per_connection,
        held(b, key) matches Some(s) && has_space(b, limits, s, charge_of(message), n),
    ensures
        plan_step(b, limits, origin, message, plan, key, subscription) is Ok,
{
    reveal(plan_step);
    lemma_positions(b, key);
    let c = charge_of(message);
    let own = Some(key.device.tenant);
    lemma_planned_bound(plan, own, PlanCount::Kept);
    lemma_planned_bound(plan, None, PlanCount::Kept);
    lemma_planned_bound(plan, own, PlanCount::Waiting);
    lemma_planned_bound(plan, None, PlanCount::Waiting);
    lemma_share(c, planned(plan, own, PlanCount::Kept), n);
    lemma_share(c, planned(plan, None, PlanCount::Kept), n);
    lemma_share(c, planned(plan, own, PlanCount::Waiting), n);
    lemma_share(c, planned(plan, None, PlanCount::Waiting), n);
}

proof fn lemma_share(c: nat, x: nat, n: nat)
    requires
        x < n,
    ensures
        c * x + c <= c * n,
{
    assert(c * x + c <= c * n) by (nonlinear_arith)
        requires
            x + 1 <= n,
    ;
}

/// A publication that is not to be retained is never refused where every subscriber has room for
/// it, however many there are.
pub proof fn law_publication_is_taken_where_there_is_room(
    b: BrokerView,
    limits: Limits,
    tenant: Seq<char>,
    origin: Option<KeyView>,
    message: MessageView,
)
    requires
        !message.retain,
        charge_of(message) <= limits.max_outbound_bytes_per_connection,
        ({
            let matches = trie_matching(b.trie, message.topic);
            forall|m: int|
                0 <= m < matches.len() ==> (held(b, (#[trigger] matches[m]).0) matches Some(s)
                    && has_space(b, limits, s, charge_of(message), matches.len()))
        }),
    ensures
        plan_route(b, limits, tenant, origin, message) is Ok,
{
    let matches = trie_matching(b.trie, message.topic);
    lemma_first_have_space(b, limits, origin, message, matches, matches.len());
}

proof fn lemma_first_have_space(
    b: BrokerView,
    limits: Limits,
    origin: Option<KeyView>,
    message: MessageView,
    matches: Seq<(KeyView, Subscription)>,
    n: nat,
)
    requires
        n <= matches.len(),
        charge_of(message) <= limits.max_outbound_bytes_per_connection,
        forall|m: int|
            0 <= m < matches.len() ==> (held(b, (#[trigger] matches[m]).0) matches Some(s)
                && has_space(b, limits, s, charge_of(message), matches.len())),
    ensures
        plan_first(b, limits, origin, message, matches, n) matches Ok(plan) && plan.len() <= n,
    decreases n,
{
    if n > 0 {
        lemma_first_have_space(b, limits, origin, message, matches, (n - 1) as nat);
        let plan = plan_first(b, limits, origin, message, matches, (n - 1) as nat)->Ok_0;
        let (key, subscription) = matches[n - 1];
        lemma_step_has_space(
            b,
            limits,
            origin,
            message,
            plan,
            key,
            subscription,
            matches.len(),
        );
        lemma_step_serves(b, limits, origin, message, plan, key, subscription);
    }
}

/// A message that is not valid is refused; one that has expired, or that nobody could get because
/// nobody has subscribed to anything, goes nowhere; any other is routed, and the number that is
/// reported is the number of those who got it.
pub proof fn law_published_message_goes_its_way(
    b: BrokerView,
    limits: Limits,
    now: i64,
    tenant: Seq<char>,
    origin: Option<KeyView>,
    message: MessageView,
)
    ensures
        ({
            let (next, outcome) = publish(b, limits, now, tenant, origin, message);
            let (routed, reported) = route_message(
                prune_messages(b, limits, now, HOT_MAINTENANCE_BUDGET as nat),
                limits,
                now,
                tenant,
                origin,
                message,
            );
            if !message_valid(message, limits) {
                next == b && outcome == Err::<nat, Error>(Error::Invalid)
            } else if expired_spec(message, now) {
                next == b && outcome == Ok::<nat, Error>(0)
            } else if total_usage(b.sessions).subscriptions == 0 && !message.retain {
                next == b && outcome == Ok::<nat, Error>(0)
            } else {
                outcome == reported && next == drive(routed, limits, now).0
            }
        }),
{
    reveal(publish);
}

} // verus!
